use vstd::prelude::*;
use vstd::string::StringExecFns;
use crate::frontier::{views, contains_site};
use crate::http::{has_scheme, Page};
use crate::text::{chars_of, has_infix, has_prefix, matches_at, occurs_at, occurs_in, same_chars, string_of};
use crate::url::{find_last, last_of, lemma_last_of_bounds};

verus! {

/// `regex::Regex`, a compiled regular expression, carried as an opaque value.
#[verifier::external_type_specification]
#[verifier::external_body]
pub struct ExRegex(regex::Regex);

/// The first index at or after `i` holding `?` or `#`, else the length of `s`.
pub open spec fn query_end(s: Seq<char>, i: int) -> int
    decreases s.len() - i,
{
    if i < 0 || i >= s.len() {
        s.len() as int
    } else if s[i] == '?' || s[i] == '#' {
        i
    } else {
        query_end(s, i + 1)
    }
}

proof fn lemma_query_end_bounds(s: Seq<char>, i: int)
    ensures
        0 <= i <= s.len() ==> i <= query_end(s, i) <= s.len(),
    decreases s.len() - i,
{
    if 0 <= i < s.len() && s[i] != '?' && s[i] != '#' {
        lemma_query_end_bounds(s, i + 1);
    }
}

/// `s` without any number of leading copies of `p`.
pub open spec fn trim_all(s: Seq<char>, p: Seq<char>) -> Seq<char>
    decreases s.len(),
{
    if p.len() > 0 && occurs_at(s, 0, p) {
        trim_all(s.subrange(p.len() as int, s.len() as int), p)
    } else {
        s
    }
}

/// `v` without any number of leading copies of `p`.
fn trim_prefixes(v: Vec<char>, p: &str) -> (r: Vec<char>)
    ensures
        r@ == trim_all(v@, p@),
{
    let w = chars_of(p);
    let mut start: usize = 0;
    assert(v@.subrange(0, v@.len() as int) =~= v@);
    loop
        invariant
            start <= v@.len(),
            w@ == p@,
            trim_all(v@.subrange(start as int, v@.len() as int), p@) == trim_all(v@, p@),
        ensures
            start <= v@.len(),
            trim_all(v@.subrange(start as int, v@.len() as int), p@) == trim_all(v@, p@),
            trim_all(v@.subrange(start as int, v@.len() as int), p@) == v@.subrange(start as int, v@.len() as int),
        decreases v@.len() - start,
    {
        let ghost rest = v@.subrange(start as int, v@.len() as int);
        let found: bool = if w.len() == 0 {
            false
        } else {
            matches_at(&v, start, &w)
        };
        if !found {
            proof {
                if w@.len() > 0 && occurs_at(rest, 0, w@) {
                    assert(rest.subrange(0, w@.len() as int) =~= v@.subrange(start as int, start + w@.len()));
                    assert(occurs_at(v@, start as int, w@));
                }
            }
            assert(trim_all(rest, p@) == rest);
            break;
        }
        assert(occurs_at(v@, start as int, w@));
        let total = v.len();
        assert(start + w@.len() <= total);
        assert(rest.subrange(0, w@.len() as int) =~= v@.subrange(start as int, start + w@.len()));
        assert(rest.subrange(w@.len() as int, rest.len() as int) =~= v@.subrange(start + w@.len(), v@.len() as int));
        start = start + w.len();
    }
    let mut r: Vec<char> = Vec::new();
    let ghost from = start as int;
    while start < v.len()
        invariant
            0 <= from <= start <= v@.len(),
            r@ == v@.subrange(from, start as int),
            trim_all(v@.subrange(from, v@.len() as int), p@) == trim_all(v@, p@),
            trim_all(v@.subrange(from, v@.len() as int), p@) == v@.subrange(from, v@.len() as int),
        decreases v@.len() - start,
    {
        r.push(v[start]);
        assert(v@.subrange(from, start + 1) =~= v@.subrange(from, start as int).push(v@[start as int]));
        start = start + 1;
    }
    r
}

/// The extension of the last path segment of an address: all leading
/// `https://`, then all leading `http://`, the query and the fragment are
/// dropped, and the text after the last `.` of what follows
/// the last `/` is the extension; there is none without a `/` or a `.`.
pub open spec fn extension_of(path: Seq<char>) -> Option<Seq<char>> {
    let p0 = trim_all(trim_all(path, "https://"@), "http://"@);
    let p = p0.subrange(0, query_end(p0, 0));
    let slash = last_of(p, '/', p.len() as int);
    let tail = p.subrange(slash + 1, p.len() as int);
    let dot = last_of(tail, '.', tail.len() as int);
    if slash < 0 || dot < 0 {
        None
    } else {
        Some(tail.subrange(dot + 1, tail.len() as int))
    }
}

/// `s` without its leading slashes.
pub open spec fn drop_slashes(s: Seq<char>) -> Seq<char>
    decreases s.len(),
{
    if s.len() > 0 && s[0] == '/' {
        drop_slashes(s.drop_first())
    } else {
        s
    }
}

/// A link made absolute against the address of its page: one with a scheme
/// is kept, any other is put after the page's address up to its last `/`,
/// without its own leading slashes.
pub open spec fn absolute_of(base: Seq<char>, link: Seq<char>) -> Seq<char> {
    if has_scheme(link) {
        link
    } else {
        base.subrange(0, last_of(base, '/', base.len() as int) + 1) + drop_slashes(link)
    }
}

/// The extensions of the pages whose links are followed.
pub open spec fn is_page_extension(e: Seq<char>) -> bool {
    e == "html"@ || e == "htm"@ || e == "php"@ || e == "jsp"@ || e == "jspx"@ || e == "asp"@
        || e == "aspx"@
}

/// Whether a link is followed: not a mail address, not a template, and
/// without an extension or with a page's.
pub open spec fn is_followed(link: Seq<char>) -> bool {
    &&& !occurs_at(link, 0, "mailto:"@)
    &&& !occurs_in(link, "{{"@)
    &&& match extension_of(link) {
        Some(e) => is_page_extension(e),
        None => true,
    }
}

/// The followed links of a page at `base`, made absolute, each once, in the
/// order of their first occurrence.
pub open spec fn followed_links(base: Seq<char>, hrefs: Seq<Seq<char>>) -> Seq<Seq<char>>
    decreases hrefs.len(),
{
    if hrefs.len() == 0 {
        Seq::empty()
    } else {
        let r = followed_links(base, hrefs.drop_last());
        let h = hrefs.last();
        if is_followed(h) && !r.contains(absolute_of(base, h)) {
            r.push(absolute_of(base, h))
        } else {
            r
        }
    }
}

/// The extension of the last path segment of an address, if it has one.
pub fn extension(path: &str) -> (r: Option<String>)
    ensures
        match r {
            Some(e) => extension_of(path@) == Some(e@),
            None => extension_of(path@) is None,
        },
{
    let p0 = trim_prefixes(trim_prefixes(chars_of(path), "https://"), "http://");
    let mut end: usize = 0;
    while end < p0.len() && p0[end] != '?' && p0[end] != '#'
        invariant
            end <= p0@.len(),
            query_end(p0@, end as int) == query_end(p0@, 0),
        decreases p0@.len() - end,
    {
        end = end + 1;
    }
    let ghost p = p0@.subrange(0, end as int);
    let Some(slash) = find_last(&p0, '/', end) else {
        proof {
            assert(forall|k: int| 0 <= k <= end ==> last_of(p, '/', k) == last_of(p0@, '/', k)) by {
                lemma_last_of_prefix(p0@, end as int, '/');
            }
        }
        return None;
    };
    proof {
        lemma_last_of_prefix(p0@, end as int, '/');
        lemma_last_of_bounds(p0@, '/', end as int);
    }
    let ghost tail = p.subrange(slash + 1, p.len() as int);
    let mut t: Vec<char> = Vec::new();
    let mut i: usize = slash + 1;
    while i < end
        invariant
            slash < i <= end <= p0@.len(),
            t@ == p0@.subrange(slash + 1, i as int),
        decreases end - i,
    {
        t.push(p0[i]);
        i = i + 1;
    }
    assert(t@ =~= tail);
    let n = t.len();
    match find_last(&t, '.', n) {
        Some(dot) => {
            proof {
                lemma_last_of_bounds(t@, '.', n as int);
            }
            Some(string_of(&t, dot + 1, n))
        },
        None => None,
    }
}

proof fn lemma_last_of_prefix(s: Seq<char>, end: int, c: char)
    requires
        0 <= end <= s.len(),
    ensures
        forall|k: int| 0 <= k <= end ==> #[trigger] last_of(s.subrange(0, end), c, k) == last_of(s, c, k),
{
    assert forall|k: int| 0 <= k <= end implies #[trigger] last_of(s.subrange(0, end), c, k) == last_of(s, c, k) by {
        lemma_last_of_prefix_at(s, end, c, k);
    }
}

proof fn lemma_last_of_prefix_at(s: Seq<char>, end: int, c: char, k: int)
    requires
        0 <= k <= end <= s.len(),
    ensures
        last_of(s.subrange(0, end), c, k) == last_of(s, c, k),
    decreases k,
{
    if k > 0 {
        lemma_last_of_prefix_at(s, end, c, k - 1);
    }
}

proof fn lemma_last_of_found(s: Seq<char>, c: char, end: int, k: int)
    requires
        0 <= k < end <= s.len(),
        s[k] == c,
    ensures
        last_of(s, c, end) >= k,
    decreases end,
{
    if s[end - 1] != c {
        lemma_last_of_found(s, c, end - 1, k);
    }
}

/// A link made absolute against the address `base` of its page.
pub fn absolute_link(base: &str, link: &str) -> (r: String)
    requires
        !has_scheme(link@) ==> base@.contains('/'),
    ensures
        r@ == absolute_of(base@, link@),
{
    if has_prefix(link, "http://") || has_prefix(link, "https://") {
        return String::from_str(link);
    }
    let b = chars_of(base);
    let n = b.len();
    proof {
        lemma_last_of_found(b@, '/', n as int, b@.index_of('/'));
        lemma_last_of_bounds(b@, '/', n as int);
    }
    let slash = match find_last(&b, '/', n) {
        Some(k) => k,
        None => 0,
    };
    let mut r = string_of(&b, 0, slash + 1);
    let l = chars_of(link);
    let mut j: usize = 0;
    assert(l@.subrange(0, l@.len() as int) =~= l@);
    while j < l.len() && l[j] == '/'
        invariant
            j <= l@.len(),
            drop_slashes(l@.subrange(j as int, l@.len() as int)) == drop_slashes(l@),
        decreases l@.len() - j,
    {
        assert(l@.subrange(j as int, l@.len() as int).drop_first() =~= l@.subrange(j + 1, l@.len() as int));
        j = j + 1;
    }
    let ghost head = r@;
    let ghost k = j as int;
    assert(drop_slashes(l@.subrange(k, l@.len() as int)) == l@.subrange(k, l@.len() as int));
    while j < l.len()
        invariant
            0 <= k <= j <= l@.len(),
            r@ == head + l@.subrange(k, j as int),
        decreases l@.len() - j,
    {
        r.push(l[j]);
        assert(l@.subrange(k, j + 1) =~= l@.subrange(k, j as int).push(l@[j as int]));
        j = j + 1;
    }
    r
}

/// Whether a link is followed: not a mail address, not a template, and
/// without an extension or with a page's.
pub fn is_followed_link(link: &str) -> (r: bool)
    ensures
        r == is_followed(link@),
{
    if has_prefix(link, "mailto:") || has_infix(link, "{{") {
        return false;
    }
    match extension(link) {
        Some(e) => {
            let v = chars_of(e.as_str());
            same_chars(&v, "html") || same_chars(&v, "htm") || same_chars(&v, "php") || same_chars(
                &v,
                "jsp",
            ) || same_chars(&v, "jspx") || same_chars(&v, "asp") || same_chars(&v, "aspx")
        },
        None => true,
    }
}

/// The followed links among the links `hrefs` of a page at `base`, made
/// absolute, each once.
pub fn links_from_hrefs(base: &str, hrefs: &Vec<String>) -> (r: Vec<String>)
    requires
        base@.contains('/'),
    ensures
        views(r@) == followed_links(base@, views(hrefs@)),
{
    let ghost hs = views(hrefs@);
    let mut r: Vec<String> = Vec::new();
    let mut i: usize = 0;
    while i < hrefs.len()
        invariant
            base@.contains('/'),
            i <= hrefs@.len(),
            hs == views(hrefs@),
            views(r@) == followed_links(base@, hs.take(i as int)),
        decreases hrefs@.len() - i,
    {
        assert(hs.take(i + 1).drop_last() =~= hs.take(i as int));
        let h = hrefs[i].as_str();
        if is_followed_link(h) {
            let a = absolute_link(base, h);
            if !contains_site(&r, &a) {
                let ghost before = r@;
                r.push(a);
                assert(views(r@) =~= views(before).push(absolute_of(base@, hs[i as int])));
            }
        }
        i = i + 1;
    }
    assert(hs.take(i as int) =~= hs);
    r
}

/// Relies on `regex::Regex::new`: the compiled expression, or nothing when
/// the pattern is not a valid expression or compiles too large.
#[verifier::external_body]
fn compile_regex(pattern: &str) -> Option<regex::Regex> {
    regex::Regex::new(pattern).ok()
}

/// What the anchor expression of `StaticParser` finds in a page's text: for
/// each match, in order, the text of its `href` group, if that group took
/// part in the match.
pub uninterp spec fn anchor_groups(body: Seq<char>) -> Seq<Option<Seq<char>>>;

/// The character sequences of a list of optional strings.
pub open spec fn opt_views(v: Seq<Option<String>>) -> Seq<Option<Seq<char>>> {
    v.map_values(
        |o: Option<String>|
            match o {
                Some(s) => Some(s@),
                None => None,
            },
    )
}

/// The texts that are present in `gs`, in order.
pub open spec fn present(gs: Seq<Option<Seq<char>>>) -> Seq<Seq<char>>
    decreases gs.len(),
{
    if gs.len() == 0 {
        Seq::empty()
    } else {
        match gs.last() {
            Some(h) => present(gs.drop_last()).push(h),
            None => present(gs.drop_last()),
        }
    }
}

/// The texts that are present among the groups `groups`, in order.
pub fn hrefs_of_groups(groups: &Vec<Option<String>>) -> (r: Vec<String>)
    ensures
        views(r@) == present(opt_views(groups@)),
{
    let ghost gs = opt_views(groups@);
    let mut hrefs: Vec<String> = Vec::new();
    let mut i: usize = 0;
    while i < groups.len()
        invariant
            i <= groups@.len(),
            gs == opt_views(groups@),
            views(hrefs@) == present(gs.take(i as int)),
        decreases groups@.len() - i,
    {
        assert(gs.take(i + 1).drop_last() =~= gs.take(i as int));
        assert(gs.take(i + 1).last() == gs[i as int]);
        if let Some(h) = &groups[i] {
            let ghost before = hrefs@;
            hrefs.push(h.clone());
            assert(views(hrefs@) =~= views(before).push(h@));
        }
        i = i + 1;
    }
    assert(gs.take(i as int) =~= gs);
    hrefs
}

/// Reads the links of a fetched page.
pub trait Parser {
    /// The followed links of `page`, made absolute, each once.
    fn links(&self, page: &Page) -> (r: Vec<String>)
        requires
            page.url@.contains('/'),
        ensures
            exists|hrefs: Seq<Seq<char>>| views(r@) == followed_links(page.url@, hrefs),
    ;
}

/// A parser that reads the `href` of each anchor tag of a page's text.
pub struct StaticParser {
    regex: regex::Regex,
}

impl StaticParser {
    /// The parser, when its expression compiles.
    pub fn new() -> Option<StaticParser> {
        match compile_regex("<a[^>]*href=\"([^\"\\n]*)\"") {
            Some(regex) => Some(StaticParser { regex }),
            None => None,
        }
    }
}

impl StaticParser {
    /// Relies on `regex::Regex::captures_iter` and `Captures::get`: for each
    /// match in `body`, in order, the text of the first group if it took
    /// part in the match. The expression is always the one that `new`
    /// compiles, so the result depends on `body` alone.
    #[verifier::external_body]
    fn anchor_matches(&self, body: &str) -> (r: Vec<Option<String>>)
        ensures
            opt_views(r@) == anchor_groups(body@),
    {
        self.regex.captures_iter(body).map(|c| c.get(1).map(|m| m.as_str().to_string())).collect()
    }

    /// The followed links of `page`: the `href` of each anchor of its text,
    /// kept when followed, made absolute against its address, each once.
    pub fn page_links(&self, page: &Page) -> (r: Vec<String>)
        requires
            page.url@.contains('/'),
        ensures
            views(r@) == followed_links(page.url@, present(anchor_groups(page.body@))),
    {
        let groups = self.anchor_matches(page.body.as_str());
        let hrefs = hrefs_of_groups(&groups);
        links_from_hrefs(page.url.as_str(), &hrefs)
    }
}

impl Parser for StaticParser {
    fn links(&self, page: &Page) -> (r: Vec<String>) {
        let r = self.page_links(page);
        assert(views(r@) == followed_links(page.url@, present(anchor_groups(page.body@))));
        r
    }
}

} // verus!
