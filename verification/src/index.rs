use vstd::prelude::*;
use crate::bytes_util::{is_token_byte, byte_is_token, subvec, bytes_eq};
use crate::filter::{Filter, FilterView, KIND_PLAIN, KIND_HOSTNAME};
use crate::pattern::glob_match_at;

verus! {

/// A maximal run of token bytes in `u`: the units URL candidate tokens are
/// drawn from.
pub open spec fn is_run(u: Seq<u8>, a: int, b: int) -> bool {
    0 <= a < b <= u.len() && (forall|k: int| a <= k < b ==> is_token_byte(u[k])) && (a == 0
        || !is_token_byte(u[a - 1])) && (b == u.len() || !is_token_byte(u[b]))
}

/// Every maximal token run of `u` appears in the result.
pub fn tokenize(u: &[u8]) -> (r: Vec<Vec<u8>>)
    ensures
        forall|a: int, b: int|
            #[trigger] is_run(u@, a, b) ==> exists|k: int|
                0 <= k < r@.len() && r@[k]@ == u@.subrange(a, b),
{
    let n = u.len();
    let mut r: Vec<Vec<u8>> = Vec::new();
    let mut i: usize = 0;
    while i < n
        invariant
            i <= n == u@.len(),
            i == 0 || !is_token_byte(u@[i - 1]) || i == n || !is_token_byte(u@[i as int]),
            forall|a: int, b: int|
                #[trigger] is_run(u@, a, b) && b <= i ==> exists|k: int|
                    0 <= k < r@.len() && r@[k]@ == u@.subrange(a, b),
        decreases n - i,
    {
        if byte_is_token(u[i]) {
            let s = i;
            let mut j = i + 1;
            let mut stop = false;
            while j < n && !stop
                invariant
                    s < j <= n == u@.len(),
                    forall|k: int| s <= k < j ==> is_token_byte(u@[k]),
                    stop ==> j < n && !is_token_byte(u@[j as int]),
                decreases n - j + (if stop {
                    0int
                } else {
                    1int
                }),
            {
                if byte_is_token(u[j]) {
                    j = j + 1;
                } else {
                    stop = true;
                }
            }
            assert(j == n || !is_token_byte(u@[j as int]));
            assert(s == 0 || !is_token_byte(u@[s - 1]));
            let ghost prev = r@;
            r.push(subvec(u, s, j));
            proof {
                assert(r@[r@.len() - 1]@ == u@.subrange(s as int, j as int));
                assert forall|a: int, b: int| #[trigger] is_run(u@, a, b) && b <= j implies exists|
                    k: int,
                | 0 <= k < r@.len() && r@[k]@ == u@.subrange(a, b) by {
                    if b <= s {
                        assert(is_run(u@, a, b) && b <= i);
                        let k = choose|k: int| 0 <= k < prev.len() && prev[k]@ == u@.subrange(a, b);
                        assert(r@[k]@ == u@.subrange(a, b));
                    } else {
                        // a run overlapping [s, j) is exactly (s, j)
                        assert(b == j) by {
                            if b < j {
                                assert(is_token_byte(u@[b]));
                            }
                        }
                        assert(a == s) by {
                            if a < s {
                                assert(is_token_byte(u@[s - 1]));
                            }
                            if s < a {
                                assert(is_token_byte(u@[a - 1]));
                            }
                        }
                        assert(r@[r@.len() - 1]@ == u@.subrange(a, b));
                    }
                }
            }
            i = j;
        } else {
            proof {
                assert forall|a: int, b: int| #[trigger] is_run(u@, a, b) && b <= i + 1 implies b
                    <= i by {
                    if b == i + 1 {
                        assert(is_token_byte(u@[i as int]));
                    }
                }
            }
            i = i + 1;
        }
    }
    r
}

/// A byte that, standing beside a token run in a pattern, forces a non-token
/// byte (or an end) beside the run's occurrence in the URL: any non-token
/// byte except the wildcard `*` (42). The placeholder `^` (94) qualifies,
/// since it only ever matches separator bytes.
pub open spec fn is_boundary_byte(c: u8) -> bool {
    !is_token_byte(c) && c != 42
}

pub fn byte_is_boundary(c: u8) -> (r: bool)
    ensures
        r == is_boundary_byte(c),
{
    !byte_is_token(c) && c != 42
}

/// Positions `i..j` of `p` hold an interior token run: token bytes fenced by
/// boundary bytes on both sides.
pub open spec fn valid_plain_token(p: Seq<u8>, i: int, j: int) -> bool {
    0 < i < j < p.len() && is_boundary_byte(p[i - 1]) && is_boundary_byte(p[j]) && (forall|k: int|
        i <= k < j ==> is_token_byte(p[k]))
}

/// `t` is an interior token run of the plain pattern `p`.
pub open spec fn plain_token_ok(p: Seq<u8>, t: Seq<u8>) -> bool {
    exists|i: int, j: int| valid_plain_token(p, i, j) && t == p.subrange(i, j)
}

/// Positions `li..lj` of `h` hold a whole label: token bytes fenced by dots
/// or the hostname's ends.
pub open spec fn valid_host_label(h: Seq<u8>, li: int, lj: int) -> bool {
    0 <= li < lj <= h.len() && (li == 0 || h[li - 1] == 46) && (lj == h.len() || h[lj] == 46) && (
    forall|k: int| li <= k < lj ==> is_token_byte(h[k]))
}

/// `t` is a whole label of the hostname `h`.
pub open spec fn host_label_ok(h: Seq<u8>, t: Seq<u8>) -> bool {
    exists|li: int, lj: int| valid_host_label(h, li, lj) && t == h.subrange(li, lj)
}

/// The plain pattern offers an interior token run to index it by.
pub open spec fn has_plain_token(p: Seq<u8>) -> bool {
    exists|i: int, j: int| valid_plain_token(p, i, j)
}

/// The hostname pattern offers a label to index it by.
pub open spec fn has_host_label(h: Seq<u8>) -> bool {
    exists|li: int, lj: int| valid_host_label(h, li, lj)
}

/// An index key under which a rule may be filed: any URL its pattern matches
/// is certain to offer the key as a candidate token.
pub open spec fn token_ok(f: FilterView, t: Seq<u8>) -> bool {
    if f.kind == KIND_PLAIN {
        plain_token_ok(f.pattern, t)
    } else if f.kind == KIND_HOSTNAME {
        host_label_ok(f.pattern, t)
    } else {
        false
    }
}

/// The rule has an extractable index key: regex rules and patterns without
/// an interior token run or label have none and go to the fallback bucket.
pub open spec fn has_token(f: FilterView) -> bool {
    if f.kind == KIND_PLAIN {
        has_plain_token(f.pattern)
    } else if f.kind == KIND_HOSTNAME {
        has_host_label(f.pattern)
    } else {
        false
    }
}

/// A literal stretch of the pattern advances the match byte for byte.
pub proof fn lemma_glob_literal_advance(
    p: Seq<u8>,
    u: Seq<u8>,
    pi: int,
    ui: int,
    j: int,
    me: bool,
)
    requires
        0 <= pi <= j <= p.len(),
        0 <= ui <= u.len(),
        glob_match_at(p, u, pi, ui, me),
        forall|k: int| pi <= k < j ==> p[k] != 42 && p[k] != 94,
    ensures
        ui + (j - pi) <= u.len(),
        u.subrange(ui, ui + (j - pi)) == p.subrange(pi, j),
        glob_match_at(p, u, j, ui + (j - pi), me),
    decreases j - pi,
{
    if pi == j {
        assert(u.subrange(ui, ui) =~= p.subrange(pi, pi));
    } else {
        assert(ui < u.len() && p[pi] == u[ui] && glob_match_at(p, u, pi + 1, ui + 1, me));
        lemma_glob_literal_advance(p, u, pi + 1, ui + 1, j, me);
        let e = ui + (j - pi);
        assert forall|k: int| 0 <= k < j - pi implies u.subrange(ui, e)[k] == p.subrange(pi, j)[k] by {
            if k > 0 {
                assert(u.subrange(ui + 1, e)[k - 1] == p.subrange(pi + 1, j)[k - 1]);
            }
        }
        assert(u.subrange(ui, e) =~= p.subrange(pi, j));
    }
}

/// If a pattern with an interior token run matches, the run occurs in the URL
/// as a maximal token run.
pub proof fn lemma_glob_token_occurrence(
    p: Seq<u8>,
    u: Seq<u8>,
    pi: int,
    ui: int,
    i: int,
    j: int,
    me: bool,
)
    requires
        0 <= pi <= p.len(),
        0 <= ui <= u.len(),
        glob_match_at(p, u, pi, ui, me),
        valid_plain_token(p, i, j),
        pi <= i - 1,
    ensures
        exists|a: int, b: int| #[trigger] is_run(u, a, b) && u.subrange(a, b) == p.subrange(i, j),
    decreases p.len() - pi, u.len() - ui,
{
    if p[pi] == 42 {
        assert(pi < i - 1);
        if glob_match_at(p, u, pi + 1, ui, me) {
            lemma_glob_token_occurrence(p, u, pi + 1, ui, i, j, me);
        } else {
            assert(ui < u.len() && glob_match_at(p, u, pi, ui + 1, me));
            lemma_glob_token_occurrence(p, u, pi, ui + 1, i, j, me);
        }
    } else if pi < i - 1 {
        if p[pi] == 94 {
            if ui < u.len() && crate::bytes_util::is_separator_byte(u[ui]) && glob_match_at(
                p,
                u,
                pi + 1,
                ui + 1,
                me,
            ) {
                lemma_glob_token_occurrence(p, u, pi + 1, ui + 1, i, j, me);
            } else {
                assert(ui == u.len() && glob_match_at(p, u, pi + 1, ui, me));
                lemma_glob_token_occurrence(p, u, pi + 1, ui, i, j, me);
            }
        } else {
            assert(ui < u.len() && glob_match_at(p, u, pi + 1, ui + 1, me));
            lemma_glob_token_occurrence(p, u, pi + 1, ui + 1, i, j, me);
        }
    } else {
        // pi == i - 1: the boundary byte just before the run
        assert(is_boundary_byte(p[pi]));
        if p[pi] == 94 {
            if ui < u.len() && crate::bytes_util::is_separator_byte(u[ui]) && glob_match_at(
                p,
                u,
                pi + 1,
                ui + 1,
                me,
            ) {
                lemma_boundary_then_run(p, u, ui, i, j, me);
            } else {
                assert(ui == u.len() && glob_match_at(p, u, i, ui, me));
                lemma_glob_literal_advance(p, u, i, ui, j, me);
                assert(false);
            }
        } else {
            assert(ui < u.len() && u[ui] == p[pi] && glob_match_at(p, u, pi + 1, ui + 1, me));
            assert(!is_token_byte(u[ui]));
            lemma_boundary_then_run(p, u, ui, i, j, me);
        }
    }
}

/// The step shared by both boundary cases: the match stands at the run start
/// `i`, at URL position `ui + 1`, with a non-token byte at `ui`.
proof fn lemma_boundary_then_run(p: Seq<u8>, u: Seq<u8>, ui: int, i: int, j: int, me: bool)
    requires
        valid_plain_token(p, i, j),
        0 <= ui < u.len(),
        !is_token_byte(u[ui]),
        glob_match_at(p, u, i, ui + 1, me),
    ensures
        exists|a: int, b: int| #[trigger] is_run(u, a, b) && u.subrange(a, b) == p.subrange(i, j),
{
    lemma_glob_literal_advance(p, u, i, ui + 1, j, me);
    let a = ui + 1;
    let b = ui + 1 + (j - i);
    assert forall|k: int| a <= k < b implies is_token_byte(u[k]) by {
        assert(u.subrange(a, b)[k - a] == p.subrange(i, j)[k - a]);
        assert(is_token_byte(p[i + (k - a)]));
    }
    // the byte after the run (if any) is forced non-token by the right fence
    if b < u.len() {
        assert(!is_token_byte(u[b])) by {
            if p[j] == 94 {
                assert(glob_match_at(p, u, j, b, me));
                if is_token_byte(u[b]) {
                    assert(!crate::bytes_util::is_separator_byte(u[b]));
                    assert(!glob_match_at(p, u, j, b, me));
                }
            } else {
                assert(glob_match_at(p, u, j, b, me));
                assert(u[b] == p[j]);
            }
        }
    } else {
        assert(b == u.len());
    }
    assert(is_run(u, a, b));
    assert(u.subrange(a, b) == p.subrange(i, j));
}


/// A matching plain rule filed under token `t` guarantees `t` among the URL's
/// candidate tokens.
pub proof fn lemma_plain_token_occurs(f: FilterView, q: crate::request::RequestView, t: Seq<u8>)
    requires
        f.kind == KIND_PLAIN,
        crate::filter::pattern_matches(f, q),
        plain_token_ok(f.pattern, t),
        0 <= q.host_start <= q.host_end <= q.url.len(),
    ensures
        exists|a: int, b: int| #[trigger] is_run(q.url, a, b) && q.url.subrange(a, b) == t,
{
    let (i, j) = choose|i: int, j: int|
        valid_plain_token(f.pattern, i, j) && t == f.pattern.subrange(i, j);
    if f.anchor == crate::filter::ANCHOR_START {
        lemma_glob_token_occurrence(f.pattern, q.url, 0, 0, i, j, f.end_anchor);
    } else if f.anchor == crate::filter::ANCHOR_HOSTNAME {
        let s = choose|s: int|
            q.host_start <= s < q.host_end && (s == q.host_start || q.url[s - 1] == 46)
                && glob_match_at(f.pattern, q.url, 0, s, f.end_anchor);
        lemma_glob_token_occurrence(f.pattern, q.url, 0, s, i, j, f.end_anchor);
    } else {
        let s = choose|s: int|
            0 <= s <= q.url.len() && glob_match_at(f.pattern, q.url, 0, s, f.end_anchor);
        lemma_glob_token_occurrence(f.pattern, q.url, 0, s, i, j, f.end_anchor);
    }
}

/// A matching hostname-exact rule filed under one of its labels guarantees
/// that label among the URL's candidate tokens.
#[verifier::rlimit(60)]
pub proof fn lemma_host_label_occurs(f: FilterView, q: crate::request::RequestView, t: Seq<u8>)
    requires
        f.kind == KIND_HOSTNAME,
        crate::filter::pattern_matches(f, q),
        host_label_ok(f.pattern, t),
        crate::url::host_bounds(q.url) == Some((q.host_start, q.host_end)),
    ensures
        exists|a: int, b: int| #[trigger] is_run(q.url, a, b) && q.url.subrange(a, b) == t,
{
    crate::url::lemma_host_bounds_props(q.url);
    let h = f.pattern;
    let host = crate::request::req_host(q);
    let (li, lj) = choose|li: int, lj: int| valid_host_label(h, li, lj) && t == h.subrange(li, lj);
    assert(valid_host_label(h, li, lj));
    let off = host.len() - h.len();
    assert(host.len() >= h.len() && host.subrange(off, host.len() as int) == h && (off == 0 || host[
        off - 1] == 46)) by {
        if host == h {
            assert(host.subrange(0, host.len() as int) =~= host);
        }
    }
    let hs = q.host_start;
    let a = hs + off + li;
    let b = hs + off + lj;
    assert(host.len() == q.host_end - hs);
    assert forall|m: int| 0 <= m < host.len() implies host[m] == q.url[hs + m] by {}
    assert forall|m: int| 0 <= m < h.len() implies h[m] == host[off + m] by {
        assert(host.subrange(off, host.len() as int)[m] == h[m]);
    }
    assert forall|k: int| a <= k < b implies is_token_byte(q.url[k]) by {
        assert(q.url[k] == host[off + li + (k - a)]);
        assert(host[off + li + (k - a)] == h[li + (k - a)]);
        assert(is_token_byte(h[li + (k - a)]));
    }
    assert(a == 0 || !is_token_byte(q.url[a - 1])) by {
        if li > 0 {
            assert(q.url[a - 1] == host[off + li - 1]);
            assert(host[off + li - 1] == h[li - 1]);
        } else if off > 0 {
            assert(q.url[a - 1] == host[off - 1]);
        } else {
            assert(q.url[a - 1] == 47 || q.url[a - 1] == 64);
        }
    }
    assert(b == q.url.len() || !is_token_byte(q.url[b])) by {
        if lj < h.len() {
            assert(q.url[b] == host[off + lj]);
            assert(host[off + lj] == h[lj]);
        } else {
            assert(b == q.host_end);
            if b < q.url.len() {
                assert(crate::url::is_host_end_byte(q.url[b]));
            }
        }
    }
    assert(is_run(q.url, a, b));
    assert(q.url.subrange(a, b) =~= t) by {
        assert forall|m: int| 0 <= m < lj - li implies q.url.subrange(a, b)[m] == t[m] by {
            assert(q.url[a + m] == host[off + li + m]);
            assert(host[off + li + m] == h[li + m]);
            assert(t[m] == h.subrange(li, lj)[m]);
        }
    }
}

/// The longest interior token run of a plain pattern; `None` exactly when
/// the pattern has no such run.
fn extract_plain(p: &[u8]) -> (r: Option<Vec<u8>>)
    ensures
        r matches Some(t) ==> plain_token_ok(p@, t@),
        (r is Some) == has_plain_token(p@),
        r matches Some(t) ==> forall|i2: int, j2: int|
            #[trigger] valid_plain_token(p@, i2, j2) ==> j2 - i2 <= t@.len(),
{
    let n = p.len();
    let mut best: Option<Vec<u8>> = None;
    let mut i: usize = 0;
    while i < n
        invariant
            i <= n == p@.len(),
            i == 0 || !is_token_byte(p@[i - 1]) || i == n || !is_token_byte(p@[i as int]),
            match best {
                Option::Some(t) => plain_token_ok(p@, t@) && (forall|i2: int, j2: int|
                    #[trigger] valid_plain_token(p@, i2, j2) && j2 <= i ==> j2 - i2 <= t@.len()),
                Option::None => forall|i2: int, j2: int|
                    #[trigger] valid_plain_token(p@, i2, j2) ==> j2 > i,
            },
        decreases n - i,
    {
        if byte_is_token(p[i]) {
            let s = i;
            let mut j = i + 1;
            let mut stop = false;
            while j < n && !stop
                invariant
                    s < j <= n == p@.len(),
                    forall|k: int| s <= k < j ==> is_token_byte(p@[k]),
                    stop ==> j < n && !is_token_byte(p@[j as int]),
                decreases n - j + (if stop {
                    0int
                } else {
                    1int
                }),
            {
                if byte_is_token(p[j]) {
                    j = j + 1;
                } else {
                    stop = true;
                }
            }
            assert(j == n || !is_token_byte(p@[j as int]));
            assert(s == 0 || !is_token_byte(p@[s - 1]));
            let valid = s > 0 && j < n && byte_is_boundary(p[s - 1]) && byte_is_boundary(p[j]);
            proof {
                // a valid run ending by j can only be (s, j) itself
                assert forall|i2: int, j2: int|
                    #[trigger] valid_plain_token(p@, i2, j2) && j2 <= j implies j2 <= s || (i2 == s
                    && j2 == j) by {
                    if s < j2 && j2 < j {
                        assert(is_token_byte(p@[j2]));
                    }
                    if s < j2 && j2 == j {
                        if i2 < s {
                            assert(is_token_byte(p@[s - 1]));
                        }
                        if s < i2 {
                            assert(is_token_byte(p@[i2 - 1]));
                        }
                    }
                }
            }
            if valid {
                let blen = match &best {
                    Option::Some(t) => t.len(),
                    Option::None => 0,
                };
                if j - s > blen {
                    proof {
                        assert(valid_plain_token(p@, s as int, j as int));
                    }
                    best = Some(subvec(p, s, j));
                }
            } else {
                proof {
                    assert(!valid_plain_token(p@, s as int, j as int));
                }
            }
            i = j;
        } else {
            proof {
                assert forall|i2: int, j2: int|
                    #[trigger] valid_plain_token(p@, i2, j2) && j2 <= i + 1 implies j2 <= i by {
                    if j2 == i + 1 {
                        assert(is_token_byte(p@[i as int]));
                    }
                }
            }
            i = i + 1;
        }
    }
    proof {
        match &best {
            Option::Some(t) => {
                let (i2, j2) = choose|i2: int, j2: int|
                    valid_plain_token(p@, i2, j2) && t@ == p@.subrange(i2, j2);
                assert(valid_plain_token(p@, i2, j2));
                assert forall|i3: int, j3: int|
                    #[trigger] valid_plain_token(p@, i3, j3) implies j3 - i3 <= t@.len() by {
                    assert(j3 <= n);
                }
            },
            Option::None => {
                if has_plain_token(p@) {
                    let (i2, j2) = choose|i2: int, j2: int| valid_plain_token(p@, i2, j2);
                    assert(j2 < p@.len());
                }
            },
        }
    }
    best
}

/// The longest label of a hostname pattern; `None` exactly when the pattern
/// has no label of token bytes.
fn extract_label(h: &[u8]) -> (r: Option<Vec<u8>>)
    ensures
        r matches Some(t) ==> host_label_ok(h@, t@),
        (r is Some) == has_host_label(h@),
        r matches Some(t) ==> forall|li: int, lj: int|
            #[trigger] valid_host_label(h@, li, lj) ==> lj - li <= t@.len(),
{
    let n = h.len();
    let mut best: Option<Vec<u8>> = None;
    let mut i: usize = 0;
    while i < n
        invariant
            i <= n == h@.len(),
            i == 0 || !is_token_byte(h@[i - 1]) || i == n || !is_token_byte(h@[i as int]),
            match best {
                Option::Some(t) => host_label_ok(h@, t@) && (forall|li: int, lj: int|
                    #[trigger] valid_host_label(h@, li, lj) && lj <= i ==> lj - li <= t@.len()),
                Option::None => forall|li: int, lj: int|
                    #[trigger] valid_host_label(h@, li, lj) ==> lj > i,
            },
        decreases n - i,
    {
        if byte_is_token(h[i]) {
            let s = i;
            let mut j = i + 1;
            let mut stop = false;
            while j < n && !stop
                invariant
                    s < j <= n == h@.len(),
                    forall|k: int| s <= k < j ==> is_token_byte(h@[k]),
                    stop ==> j < n && !is_token_byte(h@[j as int]),
                decreases n - j + (if stop {
                    0int
                } else {
                    1int
                }),
            {
                if byte_is_token(h[j]) {
                    j = j + 1;
                } else {
                    stop = true;
                }
            }
            assert(j == n || !is_token_byte(h@[j as int]));
            assert(s == 0 || !is_token_byte(h@[s - 1]));
            let valid = (s == 0 || h[s - 1] == 46) && (j == n || h[j] == 46);
            proof {
                // a label ending by j can only be (s, j) itself
                assert forall|li: int, lj: int|
                    #[trigger] valid_host_label(h@, li, lj) && lj <= j implies lj <= s || (li == s
                    && lj == j) by {
                    if s < lj && lj < j {
                        assert(is_token_byte(h@[lj]));
                    }
                    if s < lj && lj == j {
                        if li < s {
                            assert(is_token_byte(h@[s - 1]));
                        }
                        if s < li {
                            assert(is_token_byte(h@[li - 1]));
                        }
                    }
                }
            }
            if valid {
                let blen = match &best {
                    Option::Some(t) => t.len(),
                    Option::None => 0,
                };
                if j - s > blen {
                    proof {
                        assert(valid_host_label(h@, s as int, j as int));
                    }
                    best = Some(subvec(h, s, j));
                }
            } else {
                proof {
                    assert(!valid_host_label(h@, s as int, j as int));
                }
            }
            i = j;
        } else {
            proof {
                assert forall|li: int, lj: int|
                    #[trigger] valid_host_label(h@, li, lj) && lj <= i + 1 implies lj <= i by {
                    if lj == i + 1 {
                        assert(is_token_byte(h@[i as int]));
                    }
                }
            }
            i = i + 1;
        }
    }
    proof {
        match &best {
            Option::Some(t) => {
                let (li, lj) = choose|li: int, lj: int|
                    valid_host_label(h@, li, lj) && t@ == h@.subrange(li, lj);
                assert(valid_host_label(h@, li, lj));
                assert forall|li3: int, lj3: int|
                    #[trigger] valid_host_label(h@, li3, lj3) implies lj3 - li3 <= t@.len() by {
                    assert(lj3 <= n);
                }
            },
            Option::None => {
                if has_host_label(h@) {
                    let (li, lj) = choose|li: int, lj: int| valid_host_label(h@, li, lj);
                    assert(lj <= h@.len());
                }
            },
        }
    }
    best
}

/// The index key a rule is filed under: the longest interior token run of a
/// plain pattern, the longest label of a hostname pattern. Regex rules and
/// patterns without such a key go to the fallback bucket instead.
pub fn extract_token(f: &Filter) -> (r: Option<Vec<u8>>)
    ensures
        r matches Some(t) ==> token_ok(f@, t@),
        (r is Some) == has_token(f@),
        r matches Some(t) ==> (f@.kind == KIND_PLAIN ==> forall|i: int, j: int|
            #[trigger] valid_plain_token(f@.pattern, i, j) ==> j - i <= t@.len()),
        r matches Some(t) ==> (f@.kind == KIND_HOSTNAME ==> forall|li: int, lj: int|
            #[trigger] valid_host_label(f@.pattern, li, lj) ==> lj - li <= t@.len()),
{
    if f.kind == KIND_PLAIN {
        extract_plain(f.pattern.as_slice())
    } else if f.kind == KIND_HOSTNAME {
        extract_label(f.pattern.as_slice())
    } else {
        None
    }
}

/// One key of the index and the rules filed under it.
pub struct TokenBucket {
    pub key: Vec<u8>,
    pub ids: Vec<usize>,
}

/// The build-once index: keyed buckets, and a fallback bucket of rules that
/// every request must test.
pub struct FilterIndex {
    pub buckets: Vec<TokenBucket>,
    pub fallback: Vec<usize>,
}

pub open spec fn ids_bounded(idx: FilterIndex, n: int) -> bool {
    (forall|bi: int, k: int|
        0 <= bi < idx.buckets@.len() && 0 <= k < idx.buckets@[bi].ids@.len()
            ==> (#[trigger] idx.buckets@[bi].ids@[k]) < n) && (forall|k: int|
        0 <= k < idx.fallback@.len() ==> (#[trigger] idx.fallback@[k]) < n)
}

/// A rule with an extractable key stands under a key that is a sound token
/// for it; a rule without one stands in the fallback bucket instead.
pub open spec fn covered(idx: FilterIndex, fs: Seq<FilterView>, fid: int) -> bool {
    if has_token(fs[fid]) {
        exists|bi: int|
            0 <= bi < idx.buckets@.len() && (#[trigger] idx.buckets@[bi]).ids@.contains(
                fid as usize,
            ) && token_ok(fs[fid], idx.buckets@[bi].key@)
    } else {
        idx.fallback@.contains(fid as usize)
    }
}

/// No rule id appears twice under one key, nor twice in the fallback bucket.
pub open spec fn ids_distinct(idx: FilterIndex) -> bool {
    (forall|bi: int, k1: int, k2: int|
        0 <= bi < idx.buckets@.len() && 0 <= k1 < k2 < idx.buckets@[bi].ids@.len() ==> (
        #[trigger] idx.buckets@[bi].ids@[k1]) != (#[trigger] idx.buckets@[bi].ids@[k2])) && (forall|
        k1: int,
        k2: int,
    |
        0 <= k1 < k2 < idx.fallback@.len() ==> (#[trigger] idx.fallback@[k1]) != (
        #[trigger] idx.fallback@[k2]))
}

/// Index invariant: every rule id is in range, every rule is reachable from
/// its own bucket, none stands twice in one bucket, and the fallback bucket
/// holds only rules without an extractable key.
pub open spec fn index_wf(idx: FilterIndex, fs: Seq<FilterView>) -> bool {
    ids_bounded(idx, fs.len() as int) && ids_distinct(idx) && (forall|fid: int|
        0 <= fid < fs.len() ==> covered(idx, fs, fid)) && (forall|k: int|
        0 <= k < idx.fallback@.len() ==> !has_token(fs[#[trigger] idx.fallback@[k] as int]))
}

fn find_bucket(buckets: &Vec<TokenBucket>, key: &[u8]) -> (r: Option<usize>)
    ensures
        r matches Some(bi) ==> bi < buckets@.len() && buckets@[bi as int].key@ == key@,
{
    let mut bi: usize = 0;
    while bi < buckets.len()
        invariant
            bi <= buckets@.len(),
        decreases buckets@.len() - bi,
    {
        if bytes_eq(buckets[bi].key.as_slice(), key) {
            return Some(bi);
        }
        bi = bi + 1;
    }
    None
}

pub fn build_index(filters: &Vec<Filter>) -> (idx: FilterIndex)
    ensures
        index_wf(idx, filters@.map_values(|f: Filter| f@)),
{
    let ghost fs = filters@.map_values(|f: Filter| f@);
    let mut idx = FilterIndex { buckets: Vec::new(), fallback: Vec::new() };
    let mut fid: usize = 0;
    while fid < filters.len()
        invariant
            fid <= filters@.len(),
            fs == filters@.map_values(|f: Filter| f@),
            ids_bounded(idx, fid as int),
            ids_distinct(idx),
            forall|f2: int| 0 <= f2 < fid ==> covered(idx, fs, f2),
            forall|k: int|
                0 <= k < idx.fallback@.len() ==> !has_token(fs[#[trigger] idx.fallback@[k] as int]),
        decreases filters@.len() - fid,
    {
        let ghost prev = idx;
        proof {
            assert(fs[fid as int] == filters@[fid as int]@);
        }
        match extract_token(&filters[fid]) {
            Option::None => {
                idx.fallback.push(fid);
                proof {
                    assert(idx.fallback@ == prev.fallback@.push(fid));
                    assert(idx.buckets@ == prev.buckets@);
                    assert(ids_distinct(idx)) by {
                        assert forall|k1: int, k2: int|
                            0 <= k1 < k2 < idx.fallback@.len() implies (
                        #[trigger] idx.fallback@[k1]) != (#[trigger] idx.fallback@[k2]) by {
                            if k2 == idx.fallback@.len() - 1 {
                                assert(prev.fallback@[k1] < fid);
                            }
                        }
                    }
                    assert forall|f2: int| 0 <= f2 < fid + 1 implies covered(idx, fs, f2) by {
                        if f2 < fid {
                            assert(covered(prev, fs, f2));
                            if !has_token(fs[f2]) {
                                let m = choose|m: int|
                                    0 <= m < prev.fallback@.len() && prev.fallback@[m] == f2
                                        as usize;
                                assert(idx.fallback@[m] == f2 as usize);
                            } else {
                                let bi = choose|bi: int|
                                    0 <= bi < prev.buckets@.len()
                                        && (#[trigger] prev.buckets@[bi]).ids@.contains(f2 as usize)
                                        && token_ok(fs[f2], prev.buckets@[bi].key@);
                                assert(idx.buckets@[bi] == prev.buckets@[bi]);
                                assert((#[trigger] idx.buckets@[bi]).ids@.contains(f2 as usize)
                                    && token_ok(fs[f2], idx.buckets@[bi].key@));
                            }
                        } else {
                            assert(!has_token(fs[f2]));
                            assert(idx.fallback@[idx.fallback@.len() - 1] == fid);
                        }
                    }
                    assert forall|k: int| 0 <= k < idx.fallback@.len() implies !has_token(
                        fs[#[trigger] idx.fallback@[k] as int],
                    ) by {
                        if k < prev.fallback@.len() {
                            assert(idx.fallback@[k] == prev.fallback@[k]);
                        } else {
                            assert(idx.fallback@[k] == fid);
                        }
                    }
                }
            },
            Option::Some(t) => {
                match find_bucket(&idx.buckets, t.as_slice()) {
                    Option::None => {
                        let mut ids: Vec<usize> = Vec::new();
                        ids.push(fid);
                        let b = TokenBucket { key: t, ids };
                        let ghost bval = b;
                        idx.buckets.push(b);
                        proof {
                            assert(idx.buckets@ == prev.buckets@.push(bval));
                            assert(ids_distinct(idx)) by {
                                assert forall|b2: int, k1: int, k2: int|
                                    0 <= b2 < idx.buckets@.len() && 0 <= k1 < k2
                                        < idx.buckets@[b2].ids@.len() implies (
                                #[trigger] idx.buckets@[b2].ids@[k1]) != (
                                #[trigger] idx.buckets@[b2].ids@[k2]) by {
                                    if b2 < prev.buckets@.len() {
                                        assert(idx.buckets@[b2] == prev.buckets@[b2]);
                                    } else {
                                        assert(idx.buckets@[b2].ids@.len() == 1);
                                    }
                                }
                            }
                            assert forall|f2: int| 0 <= f2 < fid + 1 implies covered(idx, fs, f2) by {
                                if f2 < fid {
                                    assert(covered(prev, fs, f2));
                                    if !has_token(fs[f2]) {
                                        assert(idx.fallback@ == prev.fallback@);
                                    } else {
                                        let bi = choose|bi: int|
                                            0 <= bi < prev.buckets@.len()
                                                && (#[trigger] prev.buckets@[bi]).ids@.contains(
                                                f2 as usize,
                                            ) && token_ok(fs[f2], prev.buckets@[bi].key@);
                                        assert(idx.buckets@[bi] == prev.buckets@[bi]);
                                        assert((#[trigger] idx.buckets@[bi]).ids@.contains(
                                            f2 as usize,
                                        ) && token_ok(fs[f2], idx.buckets@[bi].key@));
                                    }
                                } else {
                                    assert(has_token(fs[f2]));
                                    let bi = idx.buckets@.len() - 1;
                                    assert(idx.buckets@[bi].ids@[0] == fid);
                                    assert(idx.buckets@[bi].ids@.contains(fid));
                                }
                            }
                        }
                    },
                    Option::Some(found) => {
                        let ghost pb = idx.buckets@;
                        let ghost fnd = found as int;
                        let mut b = idx.buckets.swap_remove(found);
                        let ghost bmid = idx.buckets@;
                        b.ids.push(fid);
                        let ghost bval = b;
                        idx.buckets.push(b);
                        proof {
                            assert(bmid == pb.update(fnd, pb.last()).drop_last());
                            assert(idx.buckets@ == bmid.push(bval));
                            assert(bval.key@ == pb[fnd].key@);
                            assert(bval.ids@ == pb[fnd].ids@.push(fid));
                            let last = idx.buckets@.len() - 1;
                            assert(idx.buckets@[last] == bval);
                            assert forall|f2: int| 0 <= f2 < fid + 1 implies covered(idx, fs, f2) by {
                                if f2 < fid {
                                    assert(covered(prev, fs, f2));
                                    if !has_token(fs[f2]) {
                                        assert(idx.fallback@ == prev.fallback@);
                                    } else {
                                        let bj = choose|bj: int|
                                            0 <= bj < pb.len() && (#[trigger] pb[bj]).ids@.contains(
                                                f2 as usize,
                                            ) && token_ok(fs[f2], pb[bj].key@);
                                        if bj == fnd {
                                            let m = choose|m: int|
                                                0 <= m < pb[fnd].ids@.len() && pb[fnd].ids@[m] == f2
                                                    as usize;
                                            assert(bval.ids@[m] == f2 as usize);
                                            assert((#[trigger] idx.buckets@[last]).ids@.contains(
                                                f2 as usize,
                                            ));
                                        } else if bj == pb.len() - 1 {
                                            assert(idx.buckets@[fnd] == pb[bj]);
                                        } else {
                                            assert(idx.buckets@[bj] == pb[bj]);
                                        }
                                    }
                                } else {
                                    assert(has_token(fs[f2]));
                                    assert(bval.ids@[bval.ids@.len() - 1] == fid);
                                    assert((#[trigger] idx.buckets@[last]).ids@.contains(fid));
                                    assert(token_ok(fs[fid as int], idx.buckets@[last].key@));
                                }
                            }
                            assert forall|b2: int, k: int|
                                0 <= b2 < idx.buckets@.len() && 0 <= k
                                    < idx.buckets@[b2].ids@.len() implies (
                            #[trigger] idx.buckets@[b2].ids@[k]) < fid + 1 by {
                                if b2 == last {
                                    if k < bval.ids@.len() - 1 {
                                        assert(bval.ids@[k] == pb[fnd].ids@[k]);
                                        assert(pb[fnd].ids@[k] < fid);
                                    }
                                } else if b2 == fnd && fnd < bmid.len() {
                                    assert(idx.buckets@[b2] == pb[pb.len() - 1]);
                                } else {
                                    assert(idx.buckets@[b2] == pb[b2]);
                                }
                            }
                            assert(ids_distinct(idx)) by {
                                assert forall|b2: int, k1: int, k2: int|
                                    0 <= b2 < idx.buckets@.len() && 0 <= k1 < k2
                                        < idx.buckets@[b2].ids@.len() implies (
                                #[trigger] idx.buckets@[b2].ids@[k1]) != (
                                #[trigger] idx.buckets@[b2].ids@[k2]) by {
                                    if b2 == last {
                                        assert(bval.ids@[k1] == pb[fnd].ids@[k1]);
                                        assert(pb[fnd].ids@[k1] < fid);
                                        if k2 < bval.ids@.len() - 1 {
                                            assert(bval.ids@[k2] == pb[fnd].ids@[k2]);
                                        } else {
                                            assert(bval.ids@[k2] == fid);
                                        }
                                    } else if b2 == fnd && fnd < bmid.len() {
                                        assert(idx.buckets@[b2] == pb[pb.len() - 1]);
                                    } else {
                                        assert(idx.buckets@[b2] == pb[b2]);
                                    }
                                }
                            }
                        }
                    },
                }
            },
        }
        fid = fid + 1;
    }
    idx
}

/// `id` stands somewhere in the index.
pub open spec fn id_in_index(idx: FilterIndex, id: usize) -> bool {
    idx.fallback@.contains(id) || exists|bi: int|
        0 <= bi < idx.buckets@.len() && (#[trigger] idx.buckets@[bi]).ids@.contains(id)
}

proof fn lemma_push_keeps(s: Seq<usize>, x: usize)
    ensures
        forall|y: usize| s.contains(y) ==> #[trigger] s.push(x).contains(y),
        s.push(x).contains(x),
{
    assert forall|y: usize| s.contains(y) implies #[trigger] s.push(x).contains(y) by {
        let m = choose|m: int| 0 <= m < s.len() && s[m] == y;
        assert(s.push(x)[m] == y);
    }
    assert(s.push(x)[s.len() as int] == x);
}

fn token_listed(tokens: &Vec<Vec<u8>>, key: &[u8]) -> (r: bool)
    ensures
        r == exists|j: int| 0 <= j < tokens@.len() && tokens@[j]@ == key@,
{
    let mut j: usize = 0;
    while j < tokens.len()
        invariant
            j <= tokens@.len(),
            forall|k: int| 0 <= k < j ==> tokens@[k]@ != key@,
        decreases tokens@.len() - j,
    {
        if bytes_eq(tokens[j].as_slice(), key) {
            return true;
        }
        j = j + 1;
    }
    false
}

/// All rule ids the index offers for a request whose URL yielded `tokens`:
/// the fallback bucket and every bucket whose key is among the tokens.
pub fn candidates(idx: &FilterIndex, tokens: &Vec<Vec<u8>>) -> (c: Vec<usize>)
    ensures
        forall|k: int| 0 <= k < c@.len() ==> id_in_index(*idx, c@[k]),
        forall|k: int| 0 <= k < idx.fallback@.len() ==> c@.contains(#[trigger] idx.fallback@[k]),
        forall|bi: int, j: int, k: int|
            #![trigger idx.buckets@[bi].ids@[k], tokens@[j]]
            0 <= bi < idx.buckets@.len() && 0 <= j < tokens@.len() && idx.buckets@[bi].key@
                == tokens@[j]@ && 0 <= k < idx.buckets@[bi].ids@.len() ==> c@.contains(
                idx.buckets@[bi].ids@[k],
            ),
{
    let mut c: Vec<usize> = Vec::new();
    let mut k: usize = 0;
    while k < idx.fallback.len()
        invariant
            k <= idx.fallback@.len(),
            forall|m: int| 0 <= m < c@.len() ==> id_in_index(*idx, c@[m]),
            forall|m: int| 0 <= m < k ==> c@.contains(#[trigger] idx.fallback@[m]),
        decreases idx.fallback@.len() - k,
    {
        let ghost prev = c@;
        c.push(idx.fallback[k]);
        proof {
            lemma_push_keeps(prev, idx.fallback@[k as int]);
        }
        k = k + 1;
    }
    let mut bi: usize = 0;
    while bi < idx.buckets.len()
        invariant
            bi <= idx.buckets@.len(),
            forall|m: int| 0 <= m < c@.len() ==> id_in_index(*idx, c@[m]),
            forall|m: int| 0 <= m < idx.fallback@.len() ==> c@.contains(#[trigger] idx.fallback@[m]),
            forall|b2: int, j: int, k2: int|
                #![trigger idx.buckets@[b2].ids@[k2], tokens@[j]]
                0 <= b2 < bi && 0 <= j < tokens@.len() && idx.buckets@[b2].key@ == tokens@[j]@ && 0
                    <= k2 < idx.buckets@[b2].ids@.len() ==> c@.contains(idx.buckets@[b2].ids@[k2]),
        decreases idx.buckets@.len() - bi,
    {
        if token_listed(tokens, idx.buckets[bi].key.as_slice()) {
            let ids_len = idx.buckets[bi].ids.len();
            let mut k2: usize = 0;
            while k2 < ids_len
                invariant
                    bi < idx.buckets@.len(),
                    k2 <= ids_len == idx.buckets@[bi as int].ids@.len(),
                    forall|m: int| 0 <= m < c@.len() ==> id_in_index(*idx, c@[m]),
                    forall|m: int|
                        0 <= m < idx.fallback@.len() ==> c@.contains(#[trigger] idx.fallback@[m]),
                    forall|b2: int, j: int, m: int|
                        #![trigger idx.buckets@[b2].ids@[m], tokens@[j]]
                        0 <= b2 < bi && 0 <= j < tokens@.len() && idx.buckets@[b2].key@
                            == tokens@[j]@ && 0 <= m < idx.buckets@[b2].ids@.len()
                            ==> c@.contains(idx.buckets@[b2].ids@[m]),
                    forall|m: int|
                        0 <= m < k2 ==> c@.contains(#[trigger] idx.buckets@[bi as int].ids@[m]),
                decreases ids_len - k2,
            {
                let ghost prev = c@;
                c.push(idx.buckets[bi].ids[k2]);
                proof {
                    lemma_push_keeps(prev, idx.buckets@[bi as int].ids@[k2 as int]);
                    assert(id_in_index(*idx, idx.buckets@[bi as int].ids@[k2 as int]));
                }
                k2 = k2 + 1;
            }
        }
        bi = bi + 1;
    }
    c
}

} // verus!
