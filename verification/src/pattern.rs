use vstd::prelude::*;
use crate::bytes_util::is_separator_byte;

verus! {

/// Core pattern test: does pattern `p`, read from `pi`, match URL `u` read
/// from `ui`? `*` (42) matches any byte run, `^` (94) matches one separator
/// byte or the end of the URL, every other byte matches itself. With
/// `must_end` the whole rest of the URL has to be consumed.
pub open spec fn glob_match_at(p: Seq<u8>, u: Seq<u8>, pi: int, ui: int, must_end: bool) -> bool
    decreases p.len() - pi, u.len() - ui,
{
    if pi < 0 || ui < 0 || pi > p.len() || ui > u.len() {
        false
    } else if pi == p.len() {
        !must_end || ui == u.len()
    } else if p[pi] == 42 {
        glob_match_at(p, u, pi + 1, ui, must_end) || (ui < u.len() && glob_match_at(
            p,
            u,
            pi,
            ui + 1,
            must_end,
        ))
    } else if p[pi] == 94 {
        (ui < u.len() && is_separator_byte(u[ui]) && glob_match_at(p, u, pi + 1, ui + 1, must_end))
            || (ui == u.len() && glob_match_at(p, u, pi + 1, ui, must_end))
    } else {
        ui < u.len() && p[pi] == u[ui] && glob_match_at(p, u, pi + 1, ui + 1, must_end)
    }
}

/// The pattern matches somewhere in `u` (no start anchor).
pub open spec fn glob_match_somewhere(p: Seq<u8>, u: Seq<u8>, must_end: bool) -> bool {
    exists|s: int| 0 <= s <= u.len() && glob_match_at(p, u, 0, s, must_end)
}

/// The pattern matches starting at the hostname or at a label boundary
/// inside it (`||` anchor); `hs..he` is the hostname range of `u`.
pub open spec fn glob_match_hostname(
    p: Seq<u8>,
    u: Seq<u8>,
    hs: int,
    he: int,
    must_end: bool,
) -> bool {
    exists|s: int|
        hs <= s < he && (s == hs || u[s - 1] == 46) && glob_match_at(p, u, 0, s, must_end)
}

pub fn glob_at_x(p: &[u8], u: &[u8], pi: usize, ui: usize, must_end: bool) -> (r: bool)
    requires
        pi <= p@.len(),
        ui <= u@.len(),
    ensures
        r == glob_match_at(p@, u@, pi as int, ui as int, must_end),
    decreases p@.len() - pi, u@.len() - ui,
{
    if pi == p.len() {
        !must_end || ui == u.len()
    } else if p[pi] == 42 {
        if glob_at_x(p, u, pi + 1, ui, must_end) {
            true
        } else {
            ui < u.len() && glob_at_x(p, u, pi, ui + 1, must_end)
        }
    } else if p[pi] == 94 {
        if ui < u.len() {
            crate::bytes_util::byte_is_separator(u[ui]) && glob_at_x(p, u, pi + 1, ui + 1, must_end)
        } else {
            glob_at_x(p, u, pi + 1, ui, must_end)
        }
    } else {
        ui < u.len() && p[pi] == u[ui] && glob_at_x(p, u, pi + 1, ui + 1, must_end)
    }
}

pub fn glob_somewhere_x(p: &[u8], u: &[u8], must_end: bool) -> (r: bool)
    ensures
        r == glob_match_somewhere(p@, u@, must_end),
{
    let mut s: usize = 0;
    while s < u.len()
        invariant
            s <= u@.len(),
            forall|k: int| 0 <= k < s ==> !glob_match_at(p@, u@, 0, k, must_end),
        decreases u@.len() - s,
    {
        if glob_at_x(p, u, 0, s, must_end) {
            return true;
        }
        s = s + 1;
    }
    glob_at_x(p, u, 0, s, must_end)
}

pub fn glob_hostname_x(p: &[u8], u: &[u8], hs: usize, he: usize, must_end: bool) -> (r: bool)
    requires
        hs <= he <= u@.len(),
    ensures
        r == glob_match_hostname(p@, u@, hs as int, he as int, must_end),
{
    let mut s: usize = hs;
    while s < he
        invariant
            hs <= s <= he <= u@.len(),
            forall|k: int|
                hs <= k < s ==> !((k == hs || u@[k - 1] == 46) && glob_match_at(
                    p@,
                    u@,
                    0,
                    k,
                    must_end,
                )),
        decreases he - s,
    {
        if (s == hs || u[s - 1] == 46) && glob_at_x(p, u, 0, s, must_end) {
            return true;
        }
        s = s + 1;
    }
    false
}

/// A pattern slice without `*` and `^`: every byte of it matches literally.
pub open spec fn literal_seg(p: Seq<u8>, a: int, b: int) -> bool {
    forall|k: int| a <= k < b ==> p[k] != 42 && p[k] != 94
}

/// For a fully literal pattern, matching at `s` is exactly an occurrence of
/// the pattern bytes at `s` (plus end-of-string for an end anchor).
pub proof fn lemma_literal_glob(p: Seq<u8>, u: Seq<u8>, pi: int, ui: int, must_end: bool)
    requires
        0 <= pi <= p.len(),
        0 <= ui <= u.len(),
        literal_seg(p, pi, p.len() as int),
    ensures
        glob_match_at(p, u, pi, ui, must_end) <==> (ui + (p.len() - pi) <= u.len() && u.subrange(
            ui,
            ui + (p.len() - pi),
        ) == p.subrange(pi, p.len() as int) && (!must_end || ui + (p.len() - pi) == u.len())),
    decreases p.len() - pi,
{
    if pi == p.len() {
        assert(u.subrange(ui, ui) =~= p.subrange(pi, pi));
    } else if ui == u.len() {
        assert(!glob_match_at(p, u, pi, ui, must_end));
    } else {
        lemma_literal_glob(p, u, pi + 1, ui + 1, must_end);
        if ui < u.len() && p[pi] == u[ui] && glob_match_at(p, u, pi + 1, ui + 1, must_end) {
            let e = ui + (p.len() - pi);
            assert forall|k: int| 0 <= k < p.len() - pi implies u.subrange(ui, e)[k] == p.subrange(
                pi,
                p.len() as int,
            )[k] by {
                if k > 0 {
                    assert(u.subrange(ui + 1, e)[k - 1] == p.subrange(pi + 1, p.len() as int)[k
                        - 1]);
                }
            }
            assert(u.subrange(ui, ui + (p.len() - pi)) =~= p.subrange(pi, p.len() as int));
        }
        if ui + (p.len() - pi) <= u.len() && u.subrange(ui, ui + (p.len() - pi)) == p.subrange(
            pi,
            p.len() as int,
        ) {
            assert(u.subrange(ui, ui + (p.len() - pi))[0] == u[ui]);
            assert(p.subrange(pi, p.len() as int)[0] == p[pi]);
            assert(u.subrange(ui + 1, ui + 1 + (p.len() - (pi + 1))) =~= u.subrange(
                ui,
                ui + (p.len() - pi),
            ).subrange(1, p.len() - pi));
            assert(p.subrange(pi + 1, p.len() as int) =~= p.subrange(pi, p.len() as int).subrange(
                1,
                p.len() - pi,
            ));
        }
    }
}

} // verus!
