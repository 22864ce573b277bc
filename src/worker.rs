use vstd::prelude::*;
use crate::frontier::{contains_site, views, Claim, Outcome};
use crate::http::{canonical, canonical_url, FetchResult, Page};
use crate::parser::{followed_links, Parser};
use crate::url::{domain_of, site_of};

verus! {

/// The sites of `links`, each once, in the order of their first
/// occurrence, without `own`.
pub open spec fn sites_of(links: Seq<Seq<char>>, own: Seq<char>) -> Seq<Seq<char>>
    decreases links.len(),
{
    if links.len() == 0 {
        Seq::empty()
    } else {
        let r = sites_of(links.drop_last(), own);
        let s = site_of(links.last());
        if s == own || r.contains(s) {
            r
        } else {
            r.push(s)
        }
    }
}

/// The sites of `links`, each once, without the page's own site `own`.
pub fn sites_of_links(own: &String, links: &Vec<String>) -> (r: Vec<String>)
    ensures
        views(r@) == sites_of(views(links@), own@),
{
    let ghost ls = views(links@);
    let mut r: Vec<String> = Vec::new();
    let mut i: usize = 0;
    while i < links.len()
        invariant
            i <= links@.len(),
            ls == views(links@),
            views(r@) == sites_of(ls.take(i as int), own@),
        decreases links@.len() - i,
    {
        assert(ls.take(i + 1).drop_last() =~= ls.take(i as int));
        let s = domain_of(links[i].as_str());
        if s != *own && !contains_site(&r, &s) {
            let ghost before = r@;
            r.push(s);
            assert(views(r@) =~= views(before).push(site_of(ls[i as int])));
        }
        i = i + 1;
    }
    assert(ls.take(i as int) =~= ls);
    r
}

/// The outcome to submit for a fetched page whose links are `links`: the
/// page's site with the sites it links to.
pub fn page_outcome(page: Page, links: &Vec<String>) -> (r: Outcome)
    ensures
        r@ == crate::frontier::OutcomeView::Success(page.domain@, sites_of(views(links@), page.domain@)),
{
    let discovered = sites_of_links(&page.domain, links);
    Outcome::Success { site: page.domain, discovered }
}

/// The outcome to submit for a fetch: a failure for a failed fetch, else
/// the page's site with the sites of the links that `parser` reads.
pub fn outcome_of<P: Parser>(parser: &P, result: FetchResult) -> (r: Outcome)
    requires
        result matches FetchResult::Success(page) ==> page.url@.contains('/'),
    ensures
        match result {
            FetchResult::Fail => r is Failure,
            FetchResult::Success(page) => exists|hrefs: Seq<Seq<char>>|
                r@ == crate::frontier::OutcomeView::Success(
                    page.domain@,
                    sites_of(followed_links(page.url@, hrefs), page.domain@),
                ),
        },
{
    match result {
        FetchResult::Fail => Outcome::Failure,
        FetchResult::Success(page) => {
            let links = parser.links(&page);
            let ghost hrefs = choose|hrefs: Seq<Seq<char>>| views(links@) == followed_links(page.url@, hrefs);
            let ghost domain = page.domain@;
            let r = page_outcome(page, &links);
            assert(r@ == crate::frontier::OutcomeView::Success(
                domain,
                sites_of(followed_links(page.url@, hrefs), domain),
            ));
            r
        },
    }
}

/// What a worker does after a claim.
pub enum Action {
    /// Fetch this address.
    Fetch(String),
    /// Wait a moment, then claim again.
    Sleep,
    /// Stop: the crawl is over.
    Stop,
}

/// What a worker does after a claim: fetch the claimed site, wait while
/// other claims are unresolved, or stop.
pub fn next_action(claim: Claim) -> (r: Action)
    ensures
        match claim {
            Claim::Assigned(site) => r matches Action::Fetch(url) && url@ == canonical(site@),
            Claim::Wait => r is Sleep,
            Claim::Done => r is Stop,
        },
{
    match claim {
        Claim::Assigned(site) => Action::Fetch(canonical_url(site.as_str())),
        Claim::Wait => Action::Sleep,
        Claim::Done => Action::Stop,
    }
}

} // verus!
