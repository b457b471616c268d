use vstd::prelude::*;
use crate::filter::{FilterView, filter_matches, pattern_matches, type_matches, domains_match,
    party_matches, KIND_PLAIN, ANCHOR_NONE, PARTY_THIRD_ONLY};
use crate::request::{RequestView, req_host, third_party_of};
use crate::engine::{verdict, any_important_block, any_exception, any_block, filters_of_lists};
use crate::parser::{parse_line_spec, filters_of_lines};
use crate::pattern::{glob_match_at, glob_match_somewhere, lemma_literal_glob};
use crate::url::registrable;

verus! {

/// Matching is deterministic: any two results for the same rules and the
/// same request agree, because each one equals the verdict function of them.
pub proof fn lemma_match_deterministic(fs: Seq<FilterView>, q: RequestView, r1: bool, r2: bool)
    requires
        r1 == verdict(fs, q),
        r2 == verdict(fs, q),
    ensures
        r1 == r2,
{
}

/// An engine built from an empty rule set never blocks any request.
pub proof fn lemma_empty_never_blocks(q: RequestView)
    ensures
        !verdict(Seq::<FilterView>::empty(), q),
{
}

/// An engine built from no list texts at all never blocks any request.
pub proof fn lemma_no_lists_never_blocks(q: RequestView)
    ensures
        !verdict(filters_of_lists(Seq::<Seq<u8>>::empty()), q),
{
}

/// A lone non-exception rule blocks exactly the requests it matches.
pub proof fn lemma_single_rule_verdict(f: FilterView, q: RequestView)
    requires
        !f.is_exception,
    ensures
        verdict(seq![f], q) == filter_matches(f, q),
{
    if filter_matches(f, q) {
        assert(seq![f][0] == f);
        assert(any_block(seq![f], q));
        if any_exception(seq![f], q) {
            let i = choose|i: int|
                0 <= i < seq![f].len() && filter_matches(#[trigger] seq![f][i], q)
                    && seq![f][i].is_exception;
            assert(seq![f][i] == f);
        }
    } else {
        if any_important_block(seq![f], q) {
            let i = choose|i: int|
                0 <= i < seq![f].len() && filter_matches(#[trigger] seq![f][i], q)
                    && seq![f][i].is_important && !seq![f][i].is_exception;
            assert(seq![f][i] == f);
        }
        if any_exception(seq![f], q) {
            let i = choose|i: int|
                0 <= i < seq![f].len() && filter_matches(#[trigger] seq![f][i], q)
                    && seq![f][i].is_exception;
            assert(seq![f][i] == f);
        }
        if any_block(seq![f], q) {
            let i = choose|i: int|
                0 <= i < seq![f].len() && filter_matches(#[trigger] seq![f][i], q)
                    && !seq![f][i].is_exception;
            assert(seq![f][i] == f);
        }
    }
}

/// The pattern has no wildcard and no separator placeholder.
pub open spec fn literal_pattern(p: Seq<u8>) -> bool {
    forall|k: int| 0 <= k < p.len() ==> p[k] != 42 && p[k] != 94
}

/// The pattern occurs somewhere in `u` as a plain substring.
pub open spec fn occurs_in(p: Seq<u8>, u: Seq<u8>) -> bool {
    exists|s: int|
        0 <= s && s + p.len() <= u.len() && #[trigger] u.subrange(s, s + p.len()) == p
}

/// A single unanchored blocking rule whose pattern is a literal substring
/// blocks exactly the requests whose URL contains that substring and which
/// satisfy the rule's resource-type, domain and party conditions; every
/// other request is allowed.
pub proof fn lemma_literal_substring_rule(f: FilterView, q: RequestView)
    requires
        f.kind == KIND_PLAIN,
        f.anchor == ANCHOR_NONE,
        !f.end_anchor,
        literal_pattern(f.pattern),
        !f.is_exception,
    ensures
        verdict(seq![f], q) == (occurs_in(f.pattern, q.url) && type_matches(f, q.rtype)
            && domains_match(f, q.source_host) && party_matches(f, third_party_of(q))),
{
    assert(pattern_matches(f, q) == occurs_in(f.pattern, q.url)) by {
        assert(f.pattern.subrange(0, f.pattern.len() as int) =~= f.pattern);
        if glob_match_somewhere(f.pattern, q.url, false) {
            let s = choose|s: int|
                0 <= s <= q.url.len() && glob_match_at(f.pattern, q.url, 0, s, false);
            lemma_literal_glob(f.pattern, q.url, 0, s, false);
        }
        if occurs_in(f.pattern, q.url) {
            let s = choose|s: int|
                0 <= s && s + f.pattern.len() <= q.url.len() && #[trigger] q.url.subrange(
                    s,
                    s + f.pattern.len(),
                ) == f.pattern;
            lemma_literal_glob(f.pattern, q.url, 0, s, false);
            assert(glob_match_at(f.pattern, q.url, 0, s, false));
        }
    }
    lemma_single_rule_verdict(f, q);
}

/// Rules that differ only in their exception and important flags are
/// triggered by exactly the same requests.
pub proof fn lemma_flags_do_not_affect_matching(f: FilterView, g: FilterView, q: RequestView)
    requires
        g.pattern == f.pattern,
        g.kind == f.kind,
        g.anchor == f.anchor,
        g.end_anchor == f.end_anchor,
        g.inc_domains == f.inc_domains,
        g.exc_domains == f.exc_domains,
        g.pos_types == f.pos_types,
        g.neg_types == f.neg_types,
        g.party == f.party,
    ensures
        filter_matches(g, q) == filter_matches(f, q),
{
}

/// Adding an exception rule with the same pattern and conditions as a
/// blocking rule flips the verdict to allowed for every matching request,
/// unless the blocking rule is important, in which case it stays blocked.
pub proof fn lemma_exception_flips(f: FilterView, g: FilterView, q: RequestView)
    requires
        !f.is_exception,
        g.pattern == f.pattern,
        g.kind == f.kind,
        g.anchor == f.anchor,
        g.end_anchor == f.end_anchor,
        g.inc_domains == f.inc_domains,
        g.exc_domains == f.exc_domains,
        g.pos_types == f.pos_types,
        g.neg_types == f.neg_types,
        g.party == f.party,
        g.is_exception,
    ensures
        verdict(seq![f, g], q) == (filter_matches(f, q) && f.is_important),
{
    lemma_flags_do_not_affect_matching(f, g, q);
    let fs = seq![f, g];
    assert(fs[0] == f && fs[1] == g);
    if filter_matches(f, q) {
        assert(any_exception(fs, q));
        if f.is_important {
            assert(any_important_block(fs, q));
        } else {
            if any_important_block(fs, q) {
                let i = choose|i: int|
                    0 <= i < fs.len() && filter_matches(#[trigger] fs[i], q) && fs[i].is_important
                        && !fs[i].is_exception;
                assert(i == 0 || i == 1);
            }
        }
    } else {
        if any_important_block(fs, q) {
            let i = choose|i: int|
                0 <= i < fs.len() && filter_matches(#[trigger] fs[i], q) && fs[i].is_important
                    && !fs[i].is_exception;
            assert(i == 0 || i == 1);
        }
        if any_exception(fs, q) {
            let i = choose|i: int|
                0 <= i < fs.len() && filter_matches(#[trigger] fs[i], q) && fs[i].is_exception;
            assert(i == 0 || i == 1);
        }
        if any_block(fs, q) {
            let i = choose|i: int|
                0 <= i < fs.len() && filter_matches(#[trigger] fs[i], q) && !fs[i].is_exception;
            assert(i == 0 || i == 1);
        }
    }
}

/// A malformed line between valid lines changes nothing: the rules compiled
/// from the lines around it are exactly those compiled without it.
pub proof fn lemma_malformed_line_ignored(pre: Seq<Seq<u8>>, bad: Seq<u8>, post: Seq<Seq<u8>>)
    requires
        parse_line_spec(bad) is None,
    ensures
        filters_of_lines(pre + seq![bad] + post) == filters_of_lines(pre + post),
    decreases pre.len(),
{
    if pre.len() == 0 {
        assert(pre + seq![bad] + post =~= seq![bad] + post);
        assert(pre + post =~= post);
        assert((seq![bad] + post)[0] == bad);
        assert((seq![bad] + post).drop_first() =~= post);
    } else {
        lemma_malformed_line_ignored(pre.drop_first(), bad, post);
        let lhs = pre + seq![bad] + post;
        let rhs = pre + post;
        assert(lhs[0] == pre[0]);
        assert(rhs[0] == pre[0]);
        assert(lhs.drop_first() =~= pre.drop_first() + seq![bad] + post);
        assert(rhs.drop_first() =~= pre.drop_first() + post);
    }
}

/// A rule restricted to third-party requests, whose other conditions hold,
/// blocks exactly the requests whose source and target hostnames have
/// different registrable domains, and allows those where they are equal.
pub proof fn lemma_third_party_scope(f: FilterView, q: RequestView, sh: Seq<u8>)
    requires
        f.party == PARTY_THIRD_ONLY,
        !f.is_exception,
        q.source_host == Some(sh),
        pattern_matches(f, q),
        type_matches(f, q.rtype),
        domains_match(f, q.source_host),
    ensures
        verdict(seq![f], q) == (registrable(req_host(q)) != registrable(sh)),
{
    lemma_single_rule_verdict(f, q);
}

} // verus!
