use vstd::prelude::*;
use vstd::utf8::{char_is_scalar, encode_scalar, encode_utf8};
use crate::text::{chars_of, matches_at, occurs_at, string_of};

verus! {

/// `s` without a leading `https://` or `http://`.
pub open spec fn strip_scheme(s: Seq<char>) -> Seq<char> {
    if occurs_at(s, 0, "https://"@) {
        s.subrange("https://"@.len() as int, s.len() as int)
    } else if occurs_at(s, 0, "http://"@) {
        s.subrange("http://"@.len() as int, s.len() as int)
    } else {
        s
    }
}

pub open spec fn ends_authority(c: char) -> bool {
    c == '/' || c == '?' || c == '#'
}

/// The first index at or after `i` holding `/`, `?` or `#`, else the length of `s`.
pub open spec fn authority_end(s: Seq<char>, i: int) -> int
    decreases s.len() - i,
{
    if i < 0 || i >= s.len() {
        s.len() as int
    } else if ends_authority(s[i]) {
        i
    } else {
        authority_end(s, i + 1)
    }
}

/// The host (and port) part of an address: everything before the first `/`, `?` or `#`.
pub open spec fn authority(s: Seq<char>) -> Seq<char> {
    s.subrange(0, authority_end(s, 0))
}

/// The index of the last `c` before index `end`, or -1 when there is none.
pub open spec fn last_of(d: Seq<char>, c: char, end: int) -> int
    decreases end,
{
    if end <= 0 || end > d.len() {
        -1
    } else if d[end - 1] == c {
        end - 1
    } else {
        last_of(d, c, end - 1)
    }
}

/// The index of the last `.` before index `end`, or -1 when there is none.
pub open spec fn last_dot(d: Seq<char>, end: int) -> int {
    last_of(d, '.', end)
}

/// The site of a host: its last two labels when the second to last is longer
/// than three bytes in UTF-8, else its last three; the whole host when it has
/// fewer labels than that.
pub open spec fn site_of_host(d: Seq<char>) -> Seq<char> {
    let e1 = last_dot(d, d.len() as int);
    let e2 = last_dot(d, e1);
    if e1 < 0 {
        d
    } else if encode_utf8(d.subrange(e2 + 1, e1)).len() > 3 {
        d.subrange(e2 + 1, d.len() as int)
    } else if e2 < 0 {
        d
    } else {
        d.subrange(last_dot(d, e2) + 1, d.len() as int)
    }
}

/// The site that an address belongs to.
pub open spec fn site_of(s: Seq<char>) -> Seq<char> {
    site_of_host(authority(strip_scheme(s)))
}

proof fn lemma_authority_end_bounds(s: Seq<char>, i: int)
    ensures
        0 <= i <= s.len() ==> i <= authority_end(s, i) <= s.len(),
    decreases s.len() - i,
{
    if 0 <= i < s.len() && !ends_authority(s[i]) {
        lemma_authority_end_bounds(s, i + 1);
    }
}

pub proof fn lemma_last_of_bounds(d: Seq<char>, c: char, end: int)
    ensures
        -1 <= last_of(d, c, end),
        0 <= end <= d.len() ==> last_of(d, c, end) < end,
        last_of(d, c, end) >= 0 ==> d[last_of(d, c, end)] == c,
    decreases end,
{
    if end > 0 && end <= d.len() && d[end - 1] != c {
        lemma_last_of_bounds(d, c, end - 1);
    }
}

proof fn lemma_last_dot_bounds(d: Seq<char>, end: int)
    ensures
        -1 <= last_dot(d, end),
        0 <= end <= d.len() ==> last_dot(d, end) < end,
        last_dot(d, end) >= 0 ==> d[last_dot(d, end)] == '.',
{
    lemma_last_of_bounds(d, '.', end);
}

/// The index of the last `c` in `v[..end]`.
pub fn find_last(v: &Vec<char>, c: char, end: usize) -> (r: Option<usize>)
    requires
        end <= v@.len(),
    ensures
        match r {
            Some(i) => i as int == last_of(v@, c, end as int),
            None => last_of(v@, c, end as int) == -1,
        },
{
    let mut i: usize = end;
    while i > 0
        invariant
            i <= end <= v@.len(),
            last_of(v@, c, i as int) == last_of(v@, c, end as int),
        decreases i,
    {
        if v[i - 1] == c {
            return Some(i - 1);
        }
        i = i - 1;
    }
    None
}

/// The index of the last `.` in `v[..end]`.
fn find_last_dot(v: &Vec<char>, end: usize) -> (r: Option<usize>)
    requires
        end <= v@.len(),
    ensures
        match r {
            Some(i) => i as int == last_dot(v@, end as int),
            None => last_dot(v@, end as int) == -1,
        },
{
    find_last(v, '.', end)
}

/// Index of the first `/`, `?` or `#` in `v`, else its length.
fn find_authority_end(v: &Vec<char>) -> (r: usize)
    ensures
        r as int == authority_end(v@, 0),
{
    let mut i: usize = 0;
    while i < v.len()
        invariant
            i <= v@.len(),
            authority_end(v@, i as int) == authority_end(v@, 0),
        decreases v@.len() - i,
    {
        let c = v[i];
        if c == '/' || c == '?' || c == '#' {
            return i;
        }
        i = i + 1;
    }
    i
}

/// `v` without a leading `https://` or `http://`.
pub fn without_scheme(v: Vec<char>) -> (r: Vec<char>)
    ensures
        r@ == strip_scheme(v@),
{
    let https = chars_of("https://");
    let http = chars_of("http://");
    let start: usize = if matches_at(&v, 0, &https) {
        https.len()
    } else if matches_at(&v, 0, &http) {
        http.len()
    } else {
        return v;
    };
    let mut r: Vec<char> = Vec::new();
    let mut i: usize = start;
    while i < v.len()
        invariant
            start <= i <= v@.len(),
            r@ == v@.subrange(start as int, i as int),
        decreases v@.len() - i,
    {
        r.push(v[i]);
        i = i + 1;
    }
    r
}

/// Whether the UTF-8 encoding of `v[start..end]` is longer than three bytes.
fn longer_than_three_bytes(v: &Vec<char>, start: usize, end: usize) -> (r: bool)
    requires
        start <= end <= v@.len(),
    ensures
        r == (encode_utf8(v@.subrange(start as int, end as int)).len() > 3),
{
    let ghost s = v@.subrange(start as int, end as int);
    let mut total: usize = 0;
    let mut i: usize = start;
    while i < end
        invariant
            start <= i <= end <= v@.len(),
            total <= 3,
            s == v@.subrange(start as int, end as int),
            total + encode_utf8(v@.subrange(i as int, end as int)).len() == encode_utf8(s).len(),
        decreases end - i,
    {
        let c = v[i];
        let ghost rest = v@.subrange(i as int, end as int);
        proof {
            char_is_scalar(c);
            assert(rest.drop_first() =~= v@.subrange(i + 1, end as int));
            assert(rest[0] == c);
        }
        let u: u32 = c as u32;
        let width: usize = if u <= 0x7F {
            1
        } else if u <= 0x7FF {
            2
        } else if u <= 0xFFFF {
            3
        } else {
            4
        };
        assert(width == encode_scalar(u).len());
        assert(encode_utf8(rest).len() == width + encode_utf8(v@.subrange(i + 1, end as int)).len());
        let ghost before = total;
        total = total + width;
        assert(encode_utf8(s).len() >= total) by {
            assert(before + encode_utf8(rest).len() == encode_utf8(s).len());
        }
        if total > 3 {
            return true;
        }
        i = i + 1;
    }
    assert(v@.subrange(end as int, end as int) =~= Seq::<char>::empty());
    false
}

/// The site (effective second-level domain) of an address: the scheme is
/// dropped, the host is cut at the first `/`, `?` or `#`, and its last two or
/// three labels are kept.
pub fn domain_of(path: &str) -> (r: String)
    ensures
        r@ == site_of(path@),
{
    let v = without_scheme(chars_of(path));
    let end = find_authority_end(&v);
    proof {
        lemma_authority_end_bounds(v@, 0);
    }
    let ghost d = v@.subrange(0, end as int);
    let mut host: Vec<char> = Vec::new();
    let mut i: usize = 0;
    while i < end
        invariant
            i <= end <= v@.len(),
            host@ == v@.subrange(0, i as int),
        decreases end - i,
    {
        host.push(v[i]);
        i = i + 1;
    }
    assert(host@ == d);
    let n = host.len();
    let Some(e1) = find_last_dot(&host, n) else {
        return string_of(&host, 0, n);
    };
    proof {
        lemma_last_dot_bounds(d, n as int);
        lemma_last_dot_bounds(d, e1 as int);
    }
    let e2 = find_last_dot(&host, e1);
    let second_start: usize = match e2 {
        Some(j) => j + 1,
        None => 0,
    };
    if longer_than_three_bytes(&host, second_start, e1) {
        return string_of(&host, second_start, n);
    }
    let Some(e2) = e2 else {
        return string_of(&host, 0, n);
    };
    proof {
        lemma_last_dot_bounds(d, e2 as int);
    }
    let third_start: usize = match find_last_dot(&host, e2) {
        Some(j) => j + 1,
        None => 0,
    };
    string_of(&host, third_start, n)
}

} // verus!
