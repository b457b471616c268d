use vstd::prelude::*;

verus! {

/// Bytes that end the hostname portion of a URL: `/` `:` `?` `#`.
pub open spec fn is_host_end_byte(c: u8) -> bool {
    c == 47 || c == 58 || c == 63 || c == 35
}

/// Position of the first `://` at or after `i`, if any.
pub open spec fn scheme_sep_from(u: Seq<u8>, i: int) -> Option<int>
    decreases u.len() - i,
{
    if i < 0 || i + 3 > u.len() {
        None
    } else if u[i] == 58 && u[i + 1] == 47 && u[i + 2] == 47 {
        Some(i)
    } else {
        scheme_sep_from(u, i + 1)
    }
}

/// Bytes that end the authority part of a URL: `/` `?` `#`.
pub open spec fn is_authority_end_byte(c: u8) -> bool {
    c == 47 || c == 63 || c == 35
}

/// First byte at or after `i` that ends the authority, or the end of the
/// string.
pub open spec fn authority_end_from(u: Seq<u8>, i: int) -> int
    decreases u.len() - i,
{
    if i < 0 || i >= u.len() {
        u.len() as int
    } else if is_authority_end_byte(u[i]) {
        i
    } else {
        authority_end_from(u, i + 1)
    }
}

/// Last `@` at or after `lo` and strictly before `i`, if any: userinfo ends
/// at the last `@` of the authority.
pub open spec fn last_at_before(u: Seq<u8>, i: int, lo: int) -> Option<int>
    decreases i,
{
    if i <= lo || i > u.len() || lo < 0 {
        None
    } else if u[i - 1] == 64 {
        Some(i - 1)
    } else {
        last_at_before(u, i - 1, lo)
    }
}

/// First occurrence of `c` in `[i, e)`, if any.
pub open spec fn find_in_range(u: Seq<u8>, c: u8, i: int, e: int) -> Option<int>
    decreases e - i,
{
    if i < 0 || i >= e || e > u.len() {
        None
    } else if u[i] == c {
        Some(i)
    } else {
        find_in_range(u, c, i + 1, e)
    }
}

/// A URL is well formed when it has a scheme of at least one byte, `://`, and
/// a nonempty hostname; userinfo before a `@` is skipped, and a host in
/// brackets (an IPv6 address) runs to its closing bracket, which only a port
/// or the authority's end may follow. `host_bounds` gives the hostname's
/// half-open byte range, brackets included.
pub open spec fn host_bounds(u: Seq<u8>) -> Option<(int, int)> {
    match scheme_sep_from(u, 0) {
        Option::None => None,
        Option::Some(i) => {
            let astart = i + 3;
            let aend = authority_end_from(u, astart);
            let hs = match last_at_before(u, aend, astart) {
                Option::None => astart,
                Option::Some(at) => at + 1,
            };
            if 1 <= i && hs < aend && u[hs] == 91 {
                match find_in_range(u, 93, hs, aend) {
                    Option::None => None,
                    Option::Some(cb) => {
                        let he = cb + 1;
                        if he == aend || u[he] == 58 {
                            Some((hs, he))
                        } else {
                            None
                        }
                    },
                }
            } else {
                let he = match find_in_range(u, 58, hs, aend) {
                    Option::None => aend,
                    Option::Some(cp) => cp,
                };
                if 1 <= i && hs < he {
                    Some((hs, he))
                } else {
                    None
                }
            }
        },
    }
}

pub open spec fn url_ok(u: Seq<u8>) -> bool {
    host_bounds(u) is Some
}

pub open spec fn host_of(u: Seq<u8>) -> Seq<u8> {
    u.subrange(host_bounds(u)->Some_0.0, host_bounds(u)->Some_0.1)
}

/// Last `.` strictly before position `i` of `h`, if any.
pub open spec fn last_dot_before(h: Seq<u8>, i: int) -> Option<int>
    decreases i,
{
    if i <= 0 || i > h.len() {
        None
    } else if h[i - 1] == 46 {
        Some(i - 1)
    } else {
        last_dot_before(h, i - 1)
    }
}

/// Start of the registrable domain of a hostname: the last two labels
/// (everything after the second-to-last dot), or the whole name.
pub open spec fn registrable_start(h: Seq<u8>) -> int {
    match last_dot_before(h, h.len() as int) {
        Option::None => 0,
        Option::Some(d) => match last_dot_before(h, d) {
            Option::None => 0,
            Option::Some(d2) => d2 + 1,
        },
    }
}

pub open spec fn registrable(h: Seq<u8>) -> Seq<u8> {
    h.subrange(registrable_start(h), h.len() as int)
}

pub fn find_scheme_sep(u: &[u8]) -> (r: Option<usize>)
    ensures
        match r {
            Option::Some(i) => scheme_sep_from(u@, 0) == Some(i as int) && i + 3 <= u@.len(),
            Option::None => scheme_sep_from(u@, 0) is None,
        },
{
    if u.len() < 3 {
        return None;
    }
    let mut i: usize = 0;
    while i <= u.len() - 3
        invariant
            3 <= u@.len(),
            i <= u@.len() - 2,
            scheme_sep_from(u@, 0) == scheme_sep_from(u@, i as int),
        decreases u@.len() - i,
    {
        if u[i] == 58 && u[i + 1] == 47 && u[i + 2] == 47 {
            return Some(i);
        }
        i = i + 1;
    }
    None
}

pub fn find_authority_end(u: &[u8], start: usize) -> (r: usize)
    requires
        start <= u@.len(),
    ensures
        r == authority_end_from(u@, start as int),
        start <= r <= u@.len(),
{
    let mut i: usize = start;
    while i < u.len()
        invariant
            start <= i <= u@.len(),
            authority_end_from(u@, start as int) == authority_end_from(u@, i as int),
        decreases u@.len() - i,
    {
        if u[i] == 47 || u[i] == 63 || u[i] == 35 {
            return i;
        }
        i = i + 1;
    }
    i
}

pub fn find_last_at(u: &[u8], e: usize, lo: usize) -> (r: Option<usize>)
    requires
        lo <= e <= u@.len(),
    ensures
        match r {
            Option::Some(a) => last_at_before(u@, e as int, lo as int) == Some(a as int) && lo <= a
                < e,
            Option::None => last_at_before(u@, e as int, lo as int) is None,
        },
{
    let mut j: usize = e;
    while j > lo
        invariant
            lo <= j <= e <= u@.len(),
            last_at_before(u@, e as int, lo as int) == last_at_before(u@, j as int, lo as int),
        decreases j,
    {
        if u[j - 1] == 64 {
            return Some(j - 1);
        }
        j = j - 1;
    }
    None
}

pub fn find_in_range_x(u: &[u8], c: u8, i: usize, e: usize) -> (r: Option<usize>)
    requires
        i <= e <= u@.len(),
    ensures
        match r {
            Option::Some(p) => find_in_range(u@, c, i as int, e as int) == Some(p as int) && i <= p
                < e,
            Option::None => find_in_range(u@, c, i as int, e as int) is None,
        },
{
    let mut k: usize = i;
    while k < e
        invariant
            i <= k <= e <= u@.len(),
            find_in_range(u@, c, i as int, e as int) == find_in_range(u@, c, k as int, e as int),
        decreases e - k,
    {
        if u[k] == c {
            return Some(k);
        }
        k = k + 1;
    }
    None
}

/// Hostname byte range of `u`, if `u` is a well-formed URL.
pub fn find_host_bounds(u: &[u8]) -> (r: Option<(usize, usize)>)
    ensures
        match r {
            Option::Some(p) => host_bounds(u@) == Some((p.0 as int, p.1 as int)) && p.0 <= p.1
                && p.1 <= u@.len(),
            Option::None => host_bounds(u@) is None,
        },
{
    match find_scheme_sep(u) {
        Option::None => None,
        Option::Some(i) => {
            let n: usize = u.len();
            assert(i + 3 <= n);
            let astart = i + 3;
            let aend = find_authority_end(u, astart);
            let hs = match find_last_at(u, aend, astart) {
                Option::None => astart,
                Option::Some(at) => at + 1,
            };
            if 1 <= i && hs < aend && u[hs] == 91 {
                match find_in_range_x(u, 93, hs, aend) {
                    Option::None => None,
                    Option::Some(cb) => {
                        let he = cb + 1;
                        if he == aend || u[he] == 58 {
                            Some((hs, he))
                        } else {
                            None
                        }
                    },
                }
            } else {
                let he = match find_in_range_x(u, 58, hs, aend) {
                    Option::None => aend,
                    Option::Some(cp) => cp,
                };
                if 1 <= i && hs < he {
                    Some((hs, he))
                } else {
                    None
                }
            }
        },
    }
}

pub fn find_last_dot_before(h: &[u8], i: usize) -> (r: Option<usize>)
    requires
        i <= h@.len(),
    ensures
        match r {
            Option::Some(d) => last_dot_before(h@, i as int) == Some(d as int) && d < i,
            Option::None => last_dot_before(h@, i as int) is None,
        },
{
    let mut j: usize = i;
    while j > 0
        invariant
            j <= i <= h@.len(),
            last_dot_before(h@, i as int) == last_dot_before(h@, j as int),
        decreases j,
    {
        if h[j - 1] == 46 {
            return Some(j - 1);
        }
        j = j - 1;
    }
    None
}

pub fn registrable_start_x(h: &[u8]) -> (r: usize)
    ensures
        r == registrable_start(h@),
        r <= h@.len(),
{
    match find_last_dot_before(h, h.len()) {
        Option::None => 0,
        Option::Some(d) => match find_last_dot_before(h, d) {
            Option::None => 0,
            Option::Some(d2) => d2 + 1,
        },
    }
}


pub proof fn lemma_scheme_sep_props(u: Seq<u8>, i0: int)
    requires
        scheme_sep_from(u, i0) is Some,
    ensures
        i0 <= scheme_sep_from(u, i0)->Some_0,
        scheme_sep_from(u, i0)->Some_0 + 3 <= u.len(),
        u[scheme_sep_from(u, i0)->Some_0 + 2] == 47,
    decreases u.len() - i0,
{
    if i0 < 0 || i0 + 3 > u.len() {
    } else if u[i0] == 58 && u[i0 + 1] == 47 && u[i0 + 2] == 47 {
    } else {
        lemma_scheme_sep_props(u, i0 + 1);
    }
}

pub proof fn lemma_authority_end_props(u: Seq<u8>, i0: int)
    requires
        0 <= i0 <= u.len(),
    ensures
        i0 <= authority_end_from(u, i0) <= u.len(),
        authority_end_from(u, i0) == u.len() || is_authority_end_byte(u[authority_end_from(u, i0)]),
    decreases u.len() - i0,
{
    if i0 < u.len() && !is_authority_end_byte(u[i0]) {
        lemma_authority_end_props(u, i0 + 1);
    }
}

pub proof fn lemma_last_at_props(u: Seq<u8>, i: int, lo: int)
    requires
        0 <= lo <= i <= u.len(),
        last_at_before(u, i, lo) is Some,
    ensures
        lo <= last_at_before(u, i, lo)->Some_0 < i,
        u[last_at_before(u, i, lo)->Some_0] == 64,
    decreases i,
{
    if i > lo && u[i - 1] != 64 {
        lemma_last_at_props(u, i - 1, lo);
    }
}

pub proof fn lemma_find_in_range_props(u: Seq<u8>, c: u8, i: int, e: int)
    requires
        0 <= i <= e <= u.len(),
        find_in_range(u, c, i, e) is Some,
    ensures
        i <= find_in_range(u, c, i, e)->Some_0 < e,
        u[find_in_range(u, c, i, e)->Some_0] == c,
    decreases e - i,
{
    if i < e && u[i] != c {
        lemma_find_in_range_props(u, c, i + 1, e);
    }
}

/// Shape of a well-formed URL around its hostname: a `/` or the userinfo's
/// `@` just before it and, if anything follows it, a hostname-ending byte.
pub proof fn lemma_host_bounds_props(u: Seq<u8>)
    requires
        url_ok(u),
    ensures
        4 <= host_bounds(u)->Some_0.0 < host_bounds(u)->Some_0.1 <= u.len(),
        u[host_bounds(u)->Some_0.0 - 1] == 47 || u[host_bounds(u)->Some_0.0 - 1] == 64,
        host_bounds(u)->Some_0.1 == u.len() || is_host_end_byte(u[host_bounds(u)->Some_0.1]),
{
    lemma_scheme_sep_props(u, 0);
    let i = scheme_sep_from(u, 0)->Some_0;
    let astart = i + 3;
    lemma_authority_end_props(u, astart);
    let aend = authority_end_from(u, astart);
    if last_at_before(u, aend, astart) is Some {
        lemma_last_at_props(u, aend, astart);
    }
    let hs = host_bounds(u)->Some_0.0;
    if hs < aend && u[hs] == 91 {
        lemma_find_in_range_props(u, 93, hs, aend);
    } else {
        if find_in_range(u, 58, hs, aend) is Some {
            lemma_find_in_range_props(u, 58, hs, aend);
        }
    }
}

} // verus!

