use vstd::prelude::*;
use crate::url::{domain_of, site_of};

verus! {

/// The character sequences of a list of strings.
pub open spec fn views(v: Seq<String>) -> Seq<Seq<char>> {
    v.map_values(|s: String| s@)
}

/// What a claim hands out, in the model.
pub enum ClaimView {
    Assigned(Seq<char>),
    Wait,
    Done,
}

/// What a claim hands out: a site to crawl, a request to come back later, or
/// the end of the crawl.
pub enum Claim {
    Assigned(String),
    Wait,
    Done,
}

impl View for Claim {
    type V = ClaimView;

    open spec fn view(&self) -> ClaimView {
        match self {
            Claim::Assigned(s) => ClaimView::Assigned(s@),
            Claim::Wait => ClaimView::Wait,
            Claim::Done => ClaimView::Done,
        }
    }
}

/// The result of crawling one claimed site, in the model.
pub enum OutcomeView {
    Success(Seq<char>, Seq<Seq<char>>),
    Failure,
}

/// The result of crawling one claimed site: the site of the fetched page
/// with the sites that it links to, or a failed fetch.
pub enum Outcome {
    Success { site: String, discovered: Vec<String> },
    Failure,
}

impl View for Outcome {
    type V = OutcomeView;

    open spec fn view(&self) -> OutcomeView {
        match self {
            Outcome::Success { site, discovered } => OutcomeView::Success(site@, views(discovered@)),
            Outcome::Failure => OutcomeView::Failure,
        }
    }
}

/// The crawl state as mathematical values. `seen` lists every site found so
/// far in the order they were found; `graph_keys` lists the sites whose page
/// was recorded, in order, and `graph_edges[i]` the sites that `graph_keys[i]`
/// links to.
pub struct FrontierView {
    pub seen: Seq<Seq<char>>,
    pub pending: Seq<Seq<char>>,
    pub in_flight: nat,
    pub graph_keys: Seq<Seq<char>>,
    pub graph_edges: Seq<Seq<Seq<char>>>,
    pub cancelled: bool,
}

impl FrontierView {
    /// The invariant of the crawl state.
    pub open spec fn inv(self) -> bool {
        &&& self.seen.no_duplicates()
        &&& self.pending.no_duplicates()
        &&& forall|i: int| 0 <= i < self.pending.len() ==> self.seen.contains(#[trigger] self.pending[i])
        &&& self.graph_keys.no_duplicates()
        &&& forall|i: int| 0 <= i < self.graph_keys.len() ==> self.seen.contains(#[trigger] self.graph_keys[i])
        &&& self.graph_keys.len() == self.graph_edges.len()
        &&& self.in_flight + self.pending.len() <= self.seen.len()
    }

    /// The recorded links of `site`, when its page was recorded.
    pub open spec fn edges_of(self, site: Seq<char>) -> Option<Seq<Seq<char>>> {
        if self.graph_keys.contains(site) {
            Some(self.graph_edges[self.graph_keys.index_of(site)])
        } else {
            None
        }
    }
}

/// Adds each site of `ds` that is not yet in `seen` to both `seen` and `pending`.
pub open spec fn absorb(seen: Seq<Seq<char>>, pending: Seq<Seq<char>>, ds: Seq<Seq<char>>) -> (
    Seq<Seq<char>>,
    Seq<Seq<char>>,
)
    decreases ds.len(),
{
    if ds.len() == 0 {
        (seen, pending)
    } else {
        let (s, p) = absorb(seen, pending, ds.drop_last());
        if s.contains(ds.last()) {
            (s, p)
        } else {
            (s.push(ds.last()), p.push(ds.last()))
        }
    }
}

/// The edge set recorded for `site`: the sites of `ds` other than `site`,
/// each once, in the order of their first occurrence.
pub open spec fn edges_from(ds: Seq<Seq<char>>, site: Seq<char>) -> Seq<Seq<char>>
    decreases ds.len(),
{
    if ds.len() == 0 {
        ds
    } else if ds.last() == site || edges_from(ds.drop_last(), site).contains(ds.last()) {
        edges_from(ds.drop_last(), site)
    } else {
        edges_from(ds.drop_last(), site).push(ds.last())
    }
}

/// The state after a claim, and what it hands out; `pick` is the index of
/// the pending site that is handed out.
pub open spec fn claim_spec(m: FrontierView, pick: int) -> (ClaimView, FrontierView) {
    if m.cancelled {
        (ClaimView::Done, m)
    } else if m.pending.len() > 0 {
        (
            ClaimView::Assigned(m.pending[pick]),
            FrontierView { pending: m.pending.remove(pick), in_flight: m.in_flight + 1, ..m },
        )
    } else if m.in_flight == 0 {
        (ClaimView::Done, m)
    } else {
        (ClaimView::Wait, m)
    }
}

/// The state after a claimed site's outcome is submitted.
pub open spec fn submit_spec(m: FrontierView, o: OutcomeView) -> FrontierView {
    match o {
        OutcomeView::Failure => FrontierView { in_flight: (m.in_flight - 1) as nat, ..m },
        OutcomeView::Success(site, ds) => {
            if m.graph_keys.contains(site) {
                FrontierView { in_flight: (m.in_flight - 1) as nat, ..m }
            } else {
                let (seen1, pending1) = absorb(m.seen, m.pending, ds);
                FrontierView {
                    seen: if seen1.contains(site) {
                        seen1
                    } else {
                        seen1.push(site)
                    },
                    pending: pending1,
                    in_flight: (m.in_flight - 1) as nat,
                    graph_keys: m.graph_keys.push(site),
                    graph_edges: m.graph_edges.push(edges_from(ds, site)),
                    cancelled: m.cancelled,
                }
            }
        },
    }
}

/// The shared crawl state: the sites found so far, those waiting to be
/// claimed, the number of claims not yet resolved, and the link graph.
pub struct Frontier {
    seen: Vec<String>,
    pending: Vec<String>,
    in_flight: usize,
    graph_order: Vec<String>,
    graph_edges: Vec<Vec<String>>,
    cancelled: bool,
}

impl View for Frontier {
    type V = FrontierView;

    closed spec fn view(&self) -> FrontierView {
        FrontierView {
            seen: views(self.seen@),
            pending: views(self.pending@),
            in_flight: self.in_flight as nat,
            graph_keys: views(self.graph_order@),
            graph_edges: self.graph_edges@.map_values(|e: Vec<String>| views(e@)),
            cancelled: self.cancelled,
        }
    }
}

/// Relies on rand's `rng().random_range(0..len)`: a number drawn below `len`,
/// which it panics on only when the range is empty.
#[verifier::external_body]
fn random_index(len: usize) -> (r: usize)
    requires
        len > 0,
    ensures
        r < len,
{
    rand::Rng::random_range(&mut rand::rng(), 0..len)
}

/// Whether `v` holds a string with the characters of `s`.
pub fn contains_site(v: &Vec<String>, s: &String) -> (r: bool)
    ensures
        r == views(v@).contains(s@),
{
    let mut i: usize = 0;
    while i < v.len()
        invariant
            i <= v@.len(),
            forall|j: int| 0 <= j < i ==> v@[j]@ != s@,
        decreases v@.len() - i,
    {
        if v[i] == *s {
            assert(views(v@)[i as int] == s@);
            return true;
        }
        i = i + 1;
    }
    proof {
        if views(v@).contains(s@) {
            let j = views(v@).index_of(s@);
            assert(v@[j]@ == s@);
        }
    }
    false
}

/// The strings of `ds` that differ from `site`, each once, in order.
fn edges_for(ds: &Vec<String>, site: &String) -> (r: Vec<String>)
    ensures
        views(r@) == edges_from(views(ds@), site@),
{
    let mut r: Vec<String> = Vec::new();
    let mut i: usize = 0;
    while i < ds.len()
        invariant
            i <= ds@.len(),
            views(r@) == edges_from(views(ds@).take(i as int), site@),
        decreases ds@.len() - i,
    {
        let ghost before = r@;
        assert(views(ds@).take(i + 1).drop_last() =~= views(ds@).take(i as int));
        if ds[i] != *site && !contains_site(&r, &ds[i]) {
            r.push(ds[i].clone());
            assert(views(r@) =~= views(before).push(ds@[i as int]@));
        }
        i = i + 1;
    }
    assert(views(ds@).take(i as int) =~= views(ds@));
    r
}

proof fn lemma_absorb(seen: Seq<Seq<char>>, pending: Seq<Seq<char>>, ds: Seq<Seq<char>>)
    requires
        seen.no_duplicates(),
        pending.no_duplicates(),
        forall|i: int| 0 <= i < pending.len() ==> seen.contains(#[trigger] pending[i]),
    ensures
        absorb(seen, pending, ds).0.no_duplicates(),
        absorb(seen, pending, ds).1.no_duplicates(),
        forall|i: int|
            0 <= i < absorb(seen, pending, ds).1.len() ==> absorb(seen, pending, ds).0.contains(
                #[trigger] absorb(seen, pending, ds).1[i],
            ),
        forall|x: Seq<char>| seen.contains(x) ==> absorb(seen, pending, ds).0.contains(x),
        absorb(seen, pending, ds).0.len() + pending.len() == absorb(seen, pending, ds).1.len()
            + seen.len(),
        forall|x: Seq<char>| ds.contains(x) ==> absorb(seen, pending, ds).0.contains(x),
    decreases ds.len(),
{
    if ds.len() > 0 {
        let prev = ds.drop_last();
        lemma_absorb(seen, pending, prev);
        let (s, p) = absorb(seen, pending, prev);
        if !s.contains(ds.last()) {
            let s2 = s.push(ds.last());
            let p2 = p.push(ds.last());
            assert forall|i: int| 0 <= i < p2.len() implies s2.contains(#[trigger] p2[i]) by {
                if i < p.len() {
                    assert(s.contains(p[i]));
                    let k = s.index_of(p[i]);
                    assert(s2[k] == p2[i]);
                } else {
                    assert(s2[s.len() as int] == p2[i]);
                }
            }
            assert forall|x: Seq<char>| s.contains(x) implies s2.contains(x) by {
                let k = s.index_of(x);
                assert(s2[k] == x);
            }
            assert(s2[s.len() as int] == ds.last());
            assert(!p.contains(ds.last()));
        }
        let f = absorb(seen, pending, ds).0;
        assert(f.contains(ds.last())) by {
            if !s.contains(ds.last()) {
                assert(f[s.len() as int] == ds.last());
            }
        }
        assert forall|x: Seq<char>| s.contains(x) implies f.contains(x) by {
            let k = s.index_of(x);
            assert(f[k] == x);
        }
        assert forall|x: Seq<char>| ds.contains(x) implies f.contains(x) by {
            let k = ds.index_of(x);
            if k < prev.len() {
                assert(prev[k] == x);
                assert(prev.contains(x));
            }
        }
    }
}

/// Submitting an outcome keeps every site found before, and keeps the state
/// consistent: no site is found twice or pending twice, every pending site and
/// every recorded site has been found, and no site is recorded twice.
pub proof fn lemma_submit_keeps_inv(m: FrontierView, o: OutcomeView)
    requires
        m.inv(),
        m.in_flight > 0,
    ensures
        submit_spec(m, o).inv(),
        forall|x: Seq<char>| m.seen.contains(x) ==> submit_spec(m, o).seen.contains(x),
{
    let r = submit_spec(m, o);
    if let OutcomeView::Success(site, ds) = o {
        if !m.graph_keys.contains(site) {
            lemma_absorb(m.seen, m.pending, ds);
            let (seen1, pending1) = absorb(m.seen, m.pending, ds);
            assert forall|x: Seq<char>| seen1.contains(x) implies r.seen.contains(x) by {
                if !seen1.contains(site) {
                    let k = seen1.index_of(x);
                    assert(r.seen[k] == x);
                }
            }
            assert(r.seen.contains(site)) by {
                if !seen1.contains(site) {
                    assert(r.seen[seen1.len() as int] == site);
                }
            }
            assert forall|i: int| 0 <= i < r.pending.len() implies r.seen.contains(#[trigger] r.pending[i]) by {
                assert(seen1.contains(pending1[i]));
            }
            assert forall|i: int| 0 <= i < r.graph_keys.len() implies r.seen.contains(#[trigger] r.graph_keys[i]) by {
                if i < m.graph_keys.len() {
                    assert(m.seen.contains(m.graph_keys[i]));
                }
            }
        }
    }
}

/// The state after submitting each outcome of `os`, in order.
pub open spec fn submit_all(m: FrontierView, os: Seq<OutcomeView>) -> FrontierView
    decreases os.len(),
{
    if os.len() == 0 {
        m
    } else {
        submit_spec(submit_all(m, os.drop_last()), os.last())
    }
}

/// Over any sequence of submitted outcomes no site is pending twice or
/// found twice, and no site found before is lost.
pub proof fn lemma_submissions_keep_dedup(m: FrontierView, os: Seq<OutcomeView>)
    requires
        m.inv(),
        m.in_flight >= os.len(),
    ensures
        submit_all(m, os).inv(),
        submit_all(m, os).pending.no_duplicates(),
        submit_all(m, os).in_flight == m.in_flight - os.len(),
        forall|x: Seq<char>| m.seen.contains(x) ==> submit_all(m, os).seen.contains(x),
    decreases os.len(),
{
    if os.len() > 0 {
        lemma_submissions_keep_dedup(m, os.drop_last());
        lemma_submit_keeps_inv(submit_all(m, os.drop_last()), os.last());
    }
}

/// A site's graph entry is written once: the first success submitted for a
/// site records its links less the site itself, and a later success for the
/// same site is dropped, resolving its claim and changing nothing else.
pub proof fn lemma_graph_write_once(
    m: FrontierView,
    site: Seq<char>,
    first: Seq<Seq<char>>,
    second: Seq<Seq<char>>,
)
    requires
        m.inv(),
        m.in_flight >= 2,
        !m.graph_keys.contains(site),
    ensures
        submit_spec(m, OutcomeView::Success(site, first)).edges_of(site) == Some(edges_from(first, site)),
        submit_spec(submit_spec(m, OutcomeView::Success(site, first)), OutcomeView::Success(site, second)).graph_keys
            == submit_spec(m, OutcomeView::Success(site, first)).graph_keys,
        submit_spec(submit_spec(m, OutcomeView::Success(site, first)), OutcomeView::Success(site, second)).graph_edges
            == submit_spec(m, OutcomeView::Success(site, first)).graph_edges,
        submit_spec(m, OutcomeView::Success(site, first)).graph_keys == m.graph_keys.push(site),
        submit_spec(submit_spec(m, OutcomeView::Success(site, first)), OutcomeView::Success(site, second))
            == (FrontierView {
            in_flight: (m.in_flight - 2) as nat,
            ..submit_spec(m, OutcomeView::Success(site, first))
        }),
{
    let m1 = submit_spec(m, OutcomeView::Success(site, first));
    lemma_submit_keeps_inv(m, OutcomeView::Success(site, first));
    let last = m.graph_keys.len() as int;
    assert(m1.graph_keys[last] == site);
    assert(m1.graph_keys.contains(site));
    let k = m1.graph_keys.index_of(site);
    assert(m1.graph_keys[k] == site);
    assert(k == last);
    let m2 = submit_spec(m1, OutcomeView::Success(site, second));
    assert(m2 =~= FrontierView { in_flight: (m.in_flight - 2) as nat, ..m1 });
}

/// A claim answers that the crawl is done exactly when the crawl was
/// cancelled, or when no site is pending and no claim is unresolved: while a
/// claimed site is still being fetched, a crawl that was not cancelled is
/// never done.
pub proof fn lemma_done_exactly_when_drained(m: FrontierView, pick: int)
    ensures
        (claim_spec(m, pick).0 is Done) <==> (m.cancelled || (m.pending.len() == 0 && m.in_flight == 0)),
        (claim_spec(m, pick).0 is Wait) <==> (!m.cancelled && m.pending.len() == 0 && m.in_flight > 0),
{
}

/// Once the crawl is cancelled, every claim answers that it is done, also
/// after further outcomes are submitted, and a claim changes nothing.
pub proof fn lemma_cancel_stops(m: FrontierView, o: OutcomeView, pick: int)
    ensures
        claim_spec(FrontierView { cancelled: true, ..m }, pick).0 is Done,
        claim_spec(FrontierView { cancelled: true, ..m }, pick).1 == (FrontierView { cancelled: true, ..m }),
        claim_spec(submit_spec(FrontierView { cancelled: true, ..m }, o), pick).0 is Done,
{
}

/// Whether every recorded entry holds the links that `links` gives for its
/// site, less the site itself.
pub open spec fn entries_follow(m: FrontierView, links: spec_fn(Seq<char>) -> Seq<Seq<char>>) -> bool {
    forall|i: int|
        0 <= i < m.graph_keys.len() ==> #[trigger] m.graph_edges[i] == edges_from(links(m.graph_keys[i]), m.graph_keys[i])
}

/// With a fetcher that reports the same links `links(s)` for a site `s`
/// each time, the recorded entries do not depend on the order of claims and
/// submissions: a claim leaves the graph as it is, and each recorded entry
/// stays the links of its site less the site itself.
pub proof fn lemma_entries_follow_links(
    m: FrontierView,
    links: spec_fn(Seq<char>) -> Seq<Seq<char>>,
    pick: int,
    o: OutcomeView,
)
    requires
        m.graph_keys.len() == m.graph_edges.len(),
        entries_follow(m, links),
        o matches OutcomeView::Success(site, ds) ==> ds == links(site),
    ensures
        claim_spec(m, pick).1.graph_keys == m.graph_keys,
        claim_spec(m, pick).1.graph_edges == m.graph_edges,
        entries_follow(submit_spec(m, o), links),
{
    let r = submit_spec(m, o);
    assert forall|i: int| 0 <= i < r.graph_keys.len() implies #[trigger] r.graph_edges[i] == edges_from(
        links(r.graph_keys[i]),
        r.graph_keys[i],
    ) by {
        if i < m.graph_keys.len() {
            assert(r.graph_edges[i] == m.graph_edges[i]);
            assert(r.graph_keys[i] == m.graph_keys[i]);
        }
    }
}

proof fn lemma_absorb_contents(seen: Seq<Seq<char>>, pending: Seq<Seq<char>>, ds: Seq<Seq<char>>)
    ensures
        forall|x: Seq<char>|
            #[trigger] absorb(seen, pending, ds).0.contains(x) <==> (seen.contains(x) || ds.contains(x)),
        forall|x: Seq<char>|
            #[trigger] absorb(seen, pending, ds).1.contains(x) <==> (pending.contains(x) || (ds.contains(x)
                && !seen.contains(x))),
    decreases ds.len(),
{
    if ds.len() > 0 {
        let prev = ds.drop_last();
        lemma_absorb_contents(seen, pending, prev);
        let (s0, p0) = absorb(seen, pending, prev);
        let (s1, p1) = absorb(seen, pending, ds);
        assert forall|x: Seq<char>| ds.contains(x) <==> (prev.contains(x) || x == ds.last()) by {
            if ds.contains(x) {
                let k = ds.index_of(x);
                if k < prev.len() {
                    assert(prev[k] == x);
                }
            }
            if prev.contains(x) {
                let k = prev.index_of(x);
                assert(ds[k] == x);
            }
            if x == ds.last() {
                assert(ds[ds.len() - 1] == x);
            }
        }
        assert forall|x: Seq<char>| #[trigger] s1.contains(x) <==> (s0.contains(x) || x == ds.last()) by {
            if !s0.contains(ds.last()) {
                assert(s1 == s0.push(ds.last()));
                if s1.contains(x) {
                    let k = s1.index_of(x);
                    if k < s0.len() {
                        assert(s0[k] == x);
                    }
                }
                if s0.contains(x) {
                    let k = s0.index_of(x);
                    assert(s1[k] == x);
                }
                assert(s1[s0.len() as int] == ds.last());
            }
        }
        assert forall|x: Seq<char>| #[trigger] p1.contains(x) <==> (p0.contains(x) || (x == ds.last()
            && !s0.contains(x))) by {
            if !s0.contains(ds.last()) {
                assert(p1 == p0.push(ds.last()));
                if p1.contains(x) {
                    let k = p1.index_of(x);
                    if k < p0.len() {
                        assert(p0[k] == x);
                    }
                }
                if p0.contains(x) {
                    let k = p0.index_of(x);
                    assert(p1[k] == x);
                }
                assert(p1[p0.len() as int] == ds.last());
            }
        }
    }
}

proof fn lemma_index_of_unique(s: Seq<Seq<char>>, i: int)
    requires
        s.no_duplicates(),
        0 <= i < s.len(),
    ensures
        s.contains(s[i]),
        s.index_of(s[i]) == i,
{
    assert(s.contains(s[i]));
    let k = s.index_of(s[i]);
    assert(s[k] == s[i]);
}

/// Two submitted successes, for different sites or with the same links,
/// give the same crawl in either order: the same found sites, the same
/// recorded sites with the same edge sets, and the same number of
/// unresolved claims. Only the order of the lists differs.
pub proof fn lemma_submissions_commute(
    m: FrontierView,
    site1: Seq<char>,
    links1: Seq<Seq<char>>,
    site2: Seq<char>,
    links2: Seq<Seq<char>>,
)
    requires
        m.inv(),
        m.in_flight >= 2,
        site1 != site2 || links1 == links2,
    ensures
        ({
            let o1 = OutcomeView::Success(site1, links1);
            let o2 = OutcomeView::Success(site2, links2);
            let a = submit_spec(submit_spec(m, o1), o2);
            let b = submit_spec(submit_spec(m, o2), o1);
            &&& forall|x: Seq<char>| a.seen.contains(x) <==> b.seen.contains(x)
            &&& forall|x: Seq<char>| a.edges_of(x) == b.edges_of(x)
            &&& a.in_flight == b.in_flight
        }),
{
    let o1 = OutcomeView::Success(site1, links1);
    let o2 = OutcomeView::Success(site2, links2);
    if site1 != site2 {
        let m1 = submit_spec(m, o1);
        let m2 = submit_spec(m, o2);
        let a = submit_spec(m1, o2);
        let b = submit_spec(m2, o1);
        lemma_submit_keeps_inv(m, o1);
        lemma_submit_keeps_inv(m, o2);
        lemma_submit_keeps_inv(m1, o2);
        lemma_submit_keeps_inv(m2, o1);
        let r1 = m.graph_keys.contains(site1);
        let r2 = m.graph_keys.contains(site2);
        let n = m.graph_keys.len() as int;
        // membership of the recorded sites after one submission
        assert forall|x: Seq<char>| #[trigger] m1.graph_keys.contains(x) <==> (m.graph_keys.contains(x) || x == site1) by {
            if !r1 {
                if m1.graph_keys.contains(x) {
                    let k = m1.graph_keys.index_of(x);
                    if k < n {
                        assert(m.graph_keys[k] == x);
                    }
                }
                if m.graph_keys.contains(x) {
                    let k = m.graph_keys.index_of(x);
                    assert(m1.graph_keys[k] == x);
                }
                assert(m1.graph_keys[n] == site1);
            }
        }
        assert forall|x: Seq<char>| #[trigger] m2.graph_keys.contains(x) <==> (m.graph_keys.contains(x) || x == site2) by {
            if !r2 {
                if m2.graph_keys.contains(x) {
                    let k = m2.graph_keys.index_of(x);
                    if k < n {
                        assert(m.graph_keys[k] == x);
                    }
                }
                if m.graph_keys.contains(x) {
                    let k = m.graph_keys.index_of(x);
                    assert(m2.graph_keys[k] == x);
                }
                assert(m2.graph_keys[n] == site2);
            }
        }
        assert(m1.graph_keys.contains(site2) == r2);
        assert(m2.graph_keys.contains(site1) == r1);
        if !r1 {
            lemma_absorb_contents(m.seen, m.pending, links1);
        }
        if !r2 {
            lemma_absorb_contents(m.seen, m.pending, links2);
        }
        if !r2 {
            lemma_absorb_contents(m1.seen, m1.pending, links2);
        }
        if !r1 {
            lemma_absorb_contents(m2.seen, m2.pending, links1);
        }
        assert forall|x: Seq<char>| m1.seen.contains(x) <==> (m.seen.contains(x) || (!r1 && (links1.contains(x) || x == site1))) by {
            if !r1 {
                let s0 = absorb(m.seen, m.pending, links1).0;
                if !s0.contains(site1) {
                    if m1.seen.contains(x) {
                        let k = m1.seen.index_of(x);
                        if k < s0.len() {
                            assert(s0[k] == x);
                        }
                    }
                    if s0.contains(x) {
                        let k = s0.index_of(x);
                        assert(m1.seen[k] == x);
                    }
                    assert(m1.seen[s0.len() as int] == site1);
                }
            }
        }
        assert forall|x: Seq<char>| m2.seen.contains(x) <==> (m.seen.contains(x) || (!r2 && (links2.contains(x) || x == site2))) by {
            if !r2 {
                let s0 = absorb(m.seen, m.pending, links2).0;
                if !s0.contains(site2) {
                    if m2.seen.contains(x) {
                        let k = m2.seen.index_of(x);
                        if k < s0.len() {
                            assert(s0[k] == x);
                        }
                    }
                    if s0.contains(x) {
                        let k = s0.index_of(x);
                        assert(m2.seen[k] == x);
                    }
                    assert(m2.seen[s0.len() as int] == site2);
                }
            }
        }
        assert forall|x: Seq<char>| a.seen.contains(x) <==> (m1.seen.contains(x) || (!r2 && (links2.contains(x) || x == site2))) by {
            if !r2 {
                let s0 = absorb(m1.seen, m1.pending, links2).0;
                if !s0.contains(site2) {
                    if a.seen.contains(x) {
                        let k = a.seen.index_of(x);
                        if k < s0.len() {
                            assert(s0[k] == x);
                        }
                    }
                    if s0.contains(x) {
                        let k = s0.index_of(x);
                        assert(a.seen[k] == x);
                    }
                    assert(a.seen[s0.len() as int] == site2);
                }
            }
        }
        assert forall|x: Seq<char>| b.seen.contains(x) <==> (m2.seen.contains(x) || (!r1 && (links1.contains(x) || x == site1))) by {
            if !r1 {
                let s0 = absorb(m2.seen, m2.pending, links1).0;
                if !s0.contains(site1) {
                    if b.seen.contains(x) {
                        let k = b.seen.index_of(x);
                        if k < s0.len() {
                            assert(s0[k] == x);
                        }
                    }
                    if s0.contains(x) {
                        let k = s0.index_of(x);
                        assert(b.seen[k] == x);
                    }
                    assert(b.seen[s0.len() as int] == site1);
                }
            }
        }
        assert forall|x: Seq<char>| a.edges_of(x) == b.edges_of(x) by {
            if m.graph_keys.contains(x) {
                let k = m.graph_keys.index_of(x);
                lemma_index_of_unique(m.graph_keys, k);
                assert(a.graph_keys[k] == x && b.graph_keys[k] == x);
                lemma_index_of_unique(a.graph_keys, k);
                lemma_index_of_unique(b.graph_keys, k);
            } else if x == site1 {
                if !r2 {
                    assert(a.graph_keys[n] == site1);
                    lemma_index_of_unique(a.graph_keys, n);
                    assert(b.graph_keys[n + 1] == site1);
                    lemma_index_of_unique(b.graph_keys, n + 1);
                } else {
                    lemma_index_of_unique(a.graph_keys, n);
                    lemma_index_of_unique(b.graph_keys, n);
                }
            } else if x == site2 {
                if !r1 {
                    assert(a.graph_keys[n + 1] == site2);
                    lemma_index_of_unique(a.graph_keys, n + 1);
                    assert(b.graph_keys[n] == site2);
                    lemma_index_of_unique(b.graph_keys, n);
                } else {
                    lemma_index_of_unique(a.graph_keys, n);
                    lemma_index_of_unique(b.graph_keys, n);
                }
            }
        }
        assert forall|x: Seq<char>| a.seen.contains(x) <==> b.seen.contains(x) by {
            // name each membership, so that the facts above apply to `x`
            let in1 = m1.seen.contains(x);
            let in2 = m2.seen.contains(x);
            let l1 = links1.contains(x);
            let l2 = links2.contains(x);
            let s0 = m.seen.contains(x);
        }
    }
}

/// A site that has been found and is not pending never becomes pending
/// again: neither a claim nor a submitted outcome adds it back.
pub proof fn lemma_handed_out_once(m: FrontierView, x: Seq<char>, pick: int, o: OutcomeView)
    requires
        m.inv(),
        m.seen.contains(x),
        !m.pending.contains(x),
        m.pending.len() > 0 ==> 0 <= pick < m.pending.len(),
    ensures
        claim_spec(m, pick).1.seen.contains(x),
        !claim_spec(m, pick).1.pending.contains(x),
        submit_spec(m, o).seen.contains(x),
        !submit_spec(m, o).pending.contains(x),
{
    if !m.cancelled && m.pending.len() > 0 {
        let p = m.pending.remove(pick);
        if p.contains(x) {
            let k = p.index_of(x);
            if k < pick {
                assert(m.pending[k] == x);
            } else {
                assert(m.pending[k + 1] == x);
            }
        }
    }
    if let OutcomeView::Success(site, ds) = o {
        if !m.graph_keys.contains(site) {
            lemma_absorb(m.seen, m.pending, ds);
            lemma_absorb_contents(m.seen, m.pending, ds);
            let s0 = absorb(m.seen, m.pending, ds).0;
            if !s0.contains(site) {
                let k = s0.index_of(x);
                assert(submit_spec(m, o).seen[k] == x);
            }
        }
    }
}

/// Each pending site is handed out by at most one claim: once claimed, a
/// site stays found and is not pending, whatever outcomes are submitted
/// afterwards.
pub proof fn lemma_claimed_not_pending_again(m: FrontierView, pick: int, os: Seq<OutcomeView>)
    requires
        m.inv(),
        !m.cancelled,
        0 <= pick < m.pending.len(),
        m.in_flight + 1 >= os.len(),
    ensures
        submit_all(claim_spec(m, pick).1, os).seen.contains(m.pending[pick]),
        !submit_all(claim_spec(m, pick).1, os).pending.contains(m.pending[pick]),
    decreases os.len(),
{
    let m1 = claim_spec(m, pick).1;
    let x = m.pending[pick];
    assert(m.seen.contains(x));
    assert(m1.pending == m.pending.remove(pick));
    assert(!m1.pending.contains(x)) by {
        if m1.pending.contains(x) {
            let k = m1.pending.index_of(x);
            if k < pick {
                assert(m.pending[k] == x);
            } else {
                assert(m.pending[k + 1] == x);
            }
        }
    }
    assert(m1.inv()) by {
        assert forall|i: int| 0 <= i < m1.pending.len() implies m1.seen.contains(#[trigger] m1.pending[i]) by {
            if i < pick {
                assert(m1.pending[i] == m.pending[i]);
            } else {
                assert(m1.pending[i] == m.pending[i + 1]);
            }
        }
    }
    lemma_stays_not_pending(m1, x, os);
}

proof fn lemma_stays_not_pending(m: FrontierView, x: Seq<char>, os: Seq<OutcomeView>)
    requires
        m.inv(),
        m.in_flight >= os.len(),
        m.seen.contains(x),
        !m.pending.contains(x),
    ensures
        submit_all(m, os).seen.contains(x),
        !submit_all(m, os).pending.contains(x),
    decreases os.len(),
{
    if os.len() > 0 {
        lemma_stays_not_pending(m, x, os.drop_last());
        lemma_submissions_keep_dedup(m, os.drop_last());
        lemma_handed_out_once(submit_all(m, os.drop_last()), x, 0, os.last());
    }
}

/// The work left in a crawl whose sites all lie in the finite set `sites`:
/// twice the sites not yet found, twice the pending sites, and the
/// unresolved claims.
pub open spec fn work_left(m: FrontierView, sites: Set<Seq<char>>) -> int {
    2 * (sites.len() - m.seen.len()) + 2 * m.pending.len() + m.in_flight
}

/// The crawl of a closed, finite set of sites ends: while every site found
/// and every link submitted lies in `sites`, the work left is never
/// negative, each claim that hands out a site lowers it, and so does each
/// submitted outcome, which keeps the found sites within `sites`.
pub proof fn lemma_crawl_progress(m: FrontierView, sites: Set<Seq<char>>, pick: int, o: OutcomeView)
    requires
        m.inv(),
        sites.finite(),
        forall|x: Seq<char>| m.seen.contains(x) ==> sites.contains(x),
        m.pending.len() > 0 ==> 0 <= pick < m.pending.len(),
    ensures
        work_left(m, sites) >= 0,
        claim_spec(m, pick).0 is Assigned ==> work_left(claim_spec(m, pick).1, sites) < work_left(m, sites)
            && claim_spec(m, pick).1.seen == m.seen,
        (m.in_flight > 0 && match o {
            OutcomeView::Success(site, ds) => sites.contains(site) && forall|i: int|
                0 <= i < ds.len() ==> sites.contains(#[trigger] ds[i]),
            OutcomeView::Failure => true,
        }) ==> work_left(submit_spec(m, o), sites) < work_left(m, sites) && forall|x: Seq<char>|
            submit_spec(m, o).seen.contains(x) ==> sites.contains(x),
{
    m.seen.unique_seq_to_set();
    vstd::set_lib::lemma_len_subset(m.seen.to_set(), sites);
    if m.in_flight > 0 {
        if let OutcomeView::Success(site, ds) = o {
            if sites.contains(site) && forall|i: int| 0 <= i < ds.len() ==> sites.contains(#[trigger] ds[i]) {
                lemma_absorb(m.seen, m.pending, ds);
                let r = submit_spec(m, o);
                let (seen1, pending1) = absorb(m.seen, m.pending, ds);
                lemma_absorb_within(m.seen, m.pending, ds, sites);
                assert forall|x: Seq<char>| r.seen.contains(x) implies sites.contains(x) by {
                    if x != site {
                        if !seen1.contains(site) {
                            let k = r.seen.index_of(x);
                            assert(seen1[k] == x);
                        }
                    }
                }
            }
        }
    }
}

proof fn lemma_absorb_within(
    seen: Seq<Seq<char>>,
    pending: Seq<Seq<char>>,
    ds: Seq<Seq<char>>,
    sites: Set<Seq<char>>,
)
    requires
        forall|x: Seq<char>| seen.contains(x) ==> sites.contains(x),
        forall|i: int| 0 <= i < ds.len() ==> sites.contains(#[trigger] ds[i]),
    ensures
        forall|x: Seq<char>| absorb(seen, pending, ds).0.contains(x) ==> sites.contains(x),
    decreases ds.len(),
{
    if ds.len() > 0 {
        let prev = ds.drop_last();
        assert forall|i: int| 0 <= i < prev.len() implies sites.contains(#[trigger] prev[i]) by {
            assert(prev[i] == ds[i]);
        }
        lemma_absorb_within(seen, pending, prev, sites);
        let (s, p) = absorb(seen, pending, prev);
        assert(sites.contains(ds[ds.len() - 1]));
        assert forall|x: Seq<char>| absorb(seen, pending, ds).0.contains(x) implies sites.contains(x) by {
            if !s.contains(ds.last()) {
                let f = s.push(ds.last());
                let k = f.index_of(x);
                if k < s.len() {
                    assert(s[k] == x);
                }
            }
        }
    }
}

impl Frontier {
    /// The internal consistency of the state.
    pub closed spec fn wf(&self) -> bool {
        &&& self@.inv()
        &&& self.graph_order@.len() == self.graph_edges@.len()
    }

    /// A crawl state whose only site, found and pending, is the site of `start`.
    pub fn new(start: &str) -> (r: Frontier)
        ensures
            r.wf(),
            r@ == (FrontierView {
                seen: seq![site_of(start@)],
                pending: seq![site_of(start@)],
                in_flight: 0,
                graph_keys: Seq::empty(),
                graph_edges: Seq::empty(),
                cancelled: false,
            }),
    {
        let site = domain_of(start);
        let mut seen: Vec<String> = Vec::new();
        seen.push(site.clone());
        let mut pending: Vec<String> = Vec::new();
        pending.push(site);
        let r = Frontier {
            seen,
            pending,
            in_flight: 0,
            graph_order: Vec::new(),
            graph_edges: Vec::new(),
            cancelled: false,
        };
        assert(r@.seen =~= seq![site_of(start@)]);
        assert(r@.pending =~= seq![site_of(start@)]);
        assert(r@.graph_keys =~= Seq::empty());
        assert(r@.graph_edges =~= Seq::empty());
        r
    }

    /// Hands out the pending site at index `pick`, or tells the caller to
    /// wait or to stop: once cancelled, and when nothing is pending and no
    /// claim is unresolved, the crawl is done.
    pub fn claim_at(&mut self, pick: usize) -> (r: Claim)
        requires
            old(self).wf(),
            old(self)@.pending.len() > 0 ==> pick < old(self)@.pending.len(),
        ensures
            final(self).wf(),
            (r@, final(self)@) == claim_spec(old(self)@, pick as int),
    {
        if self.cancelled {
            return Claim::Done;
        }
        if self.pending.len() == 0 {
            if self.in_flight == 0 {
                return Claim::Done;
            } else {
                return Claim::Wait;
            }
        }
        let ghost m = self@;
        // the unresolved claims and the pending sites are fewer than the sites found
        let found_count = self.seen.len();
        assert(self.pending@.len() == m.pending.len() && found_count == m.seen.len());
        let site = self.pending.remove(pick);
        self.in_flight = self.in_flight + 1;
        proof {
            assert(self@.pending =~= m.pending.remove(pick as int));
            assert forall|i: int| 0 <= i < self@.pending.len() implies self@.seen.contains(
                #[trigger] self@.pending[i],
            ) by {
                if i < pick {
                    assert(self@.pending[i] == m.pending[i]);
                } else {
                    assert(self@.pending[i] == m.pending[i + 1]);
                }
            }
        }
        Claim::Assigned(site)
    }

    /// Hands out a pending site drawn at random, or tells the caller to wait
    /// or to stop, as `claim_at` does.
    pub fn claim(&mut self) -> (r: Claim)
        requires
            old(self).wf(),
        ensures
            final(self).wf(),
            exists|pick: int|
                (old(self)@.pending.len() > 0 ==> 0 <= pick < old(self)@.pending.len()) && (r@, final(self)@)
                    == claim_spec(old(self)@, pick),
    {
        let pick: usize = if self.pending.len() > 0 {
            random_index(self.pending.len())
        } else {
            0
        };
        let r = self.claim_at(pick);
        assert((r@, self@) == claim_spec(old(self)@, pick as int));
        r
    }

    /// Stops the crawl: from now on every claim answers that it is done.
    pub fn cancel(&mut self)
        requires
            old(self).wf(),
        ensures
            final(self).wf(),
            final(self)@ == (FrontierView { cancelled: true, ..old(self)@ }),
    {
        self.cancelled = true;
    }

    /// Resolves one claim. A success for a site that already has a graph
    /// entry is dropped. Any other success records the sites that the
    /// fetched page links to: each one not found before joins the found and
    /// the pending sites, the page's own site is found too, and its links
    /// (less itself, each once) become its graph entry.
    pub fn submit(&mut self, outcome: Outcome)
        requires
            old(self).wf(),
            old(self)@.in_flight > 0,
        ensures
            final(self).wf(),
            final(self)@ == submit_spec(old(self)@, outcome@),
    {
        let ghost m = self@;
        let ghost o = outcome@;
        self.in_flight = self.in_flight - 1;
        match outcome {
            Outcome::Failure => {},
            Outcome::Success { site, discovered } => {
                if contains_site(&self.graph_order, &site) {
                    return;
                }
                let ghost ds = views(discovered@);
                proof {
                    lemma_absorb(m.seen, m.pending, ds);
                }
                let mut i: usize = 0;
                while i < discovered.len()
                    invariant
                        i <= discovered@.len(),
                        ds == views(discovered@),
                        (self@.seen, self@.pending) == absorb(m.seen, m.pending, ds.take(i as int)),
                        self@.in_flight == m.in_flight - 1,
                        self@.graph_keys == m.graph_keys,
                        self@.graph_edges == m.graph_edges,
                        self@.cancelled == m.cancelled,
                        self.graph_order@.len() == self.graph_edges@.len(),
                    decreases discovered@.len() - i,
                {
                    assert(ds.take(i + 1).drop_last() =~= ds.take(i as int));
                    let d = &discovered[i];
                    if !contains_site(&self.seen, d) {
                        let ghost s0 = self.seen@;
                        let ghost p0 = self.pending@;
                        self.seen.push(d.clone());
                        self.pending.push(d.clone());
                        assert(views(self.seen@) =~= views(s0).push(d@));
                        assert(views(self.pending@) =~= views(p0).push(d@));
                    }
                    i = i + 1;
                }
                assert(ds.take(i as int) =~= ds);
                if !contains_site(&self.seen, &site) {
                    let ghost s0 = self.seen@;
                    self.seen.push(site.clone());
                    assert(views(self.seen@) =~= views(s0).push(site@));
                }
                {
                    let edges = edges_for(&discovered, &site);
                    let ghost g0 = self.graph_order@;
                    let ghost e0 = self.graph_edges@;
                    let ghost sv = site@;
                    let ghost ev = views(edges@);
                    self.graph_order.push(site);
                    self.graph_edges.push(edges);
                    assert(views(self.graph_order@) =~= views(g0).push(sv));
                    assert(self.graph_edges@.map_values(|e: Vec<String>| views(e@)) =~= e0.map_values(
                        |e: Vec<String>| views(e@),
                    ).push(ev));
                }
                proof {
                    lemma_submit_keeps_inv(m, o);
                }
            },
        }
    }

    /// A consistent crawl state meets the invariant of its model.
    pub proof fn lemma_wf_inv(&self)
        requires
            self.wf(),
        ensures
            self@.inv(),
    {
    }

    /// The number of sites found so far.
    pub fn seen_len(&self) -> (r: usize)
        requires
            self.wf(),
        ensures
            r == self@.seen.len(),
    {
        self.seen.len()
    }

    /// The `i`-th site found.
    pub fn seen_at(&self, i: usize) -> (r: &String)
        requires
            self.wf(),
            i < self@.seen.len(),
        ensures
            r@ == self@.seen[i as int],
    {
        &self.seen[i]
    }

    /// The number of sites waiting to be claimed.
    pub fn pending_len(&self) -> (r: usize)
        requires
            self.wf(),
        ensures
            r == self@.pending.len(),
    {
        self.pending.len()
    }

    /// The number of claims not yet resolved.
    pub fn in_flight(&self) -> (r: usize)
        requires
            self.wf(),
        ensures
            r == self@.in_flight,
    {
        self.in_flight
    }

    /// Whether the crawl was cancelled.
    pub fn is_cancelled(&self) -> (r: bool)
        requires
            self.wf(),
        ensures
            r == self@.cancelled,
    {
        self.cancelled
    }

    /// The number of sites whose page was recorded.
    pub fn graph_len(&self) -> (r: usize)
        requires
            self.wf(),
        ensures
            r == self@.graph_keys.len(),
    {
        self.graph_order.len()
    }

    /// The `i`-th site whose page was recorded.
    pub fn graph_site(&self, i: usize) -> (r: &String)
        requires
            self.wf(),
            i < self@.graph_keys.len(),
        ensures
            r@ == self@.graph_keys[i as int],
    {
        &self.graph_order[i]
    }

    /// The sites that the `i`-th recorded page links to.
    pub fn graph_targets(&self, i: usize) -> (r: &Vec<String>)
        requires
            self.wf(),
            i < self@.graph_keys.len(),
        ensures
            views(r@) == self@.graph_edges[i as int],
    {
        &self.graph_edges[i]
    }
}

} // verus!
