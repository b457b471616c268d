use vstd::prelude::*;
use crate::bytes_util::{starts_with, starts_with_x, subvec, is_token_byte, byte_is_token};
use crate::filter::{Filter, FilterView, KIND_PLAIN, KIND_REGEX, KIND_HOSTNAME, ANCHOR_NONE,
    ANCHOR_START, ANCHOR_HOSTNAME, PARTY_ANY, PARTY_THIRD_ONLY, PARTY_FIRST_ONLY};
use crate::keywords::{kw_important, kw_third_party, kw_domain_eq, is_kw_important,
    is_kw_third_party};
use crate::request::{type_code_opt, type_code_opt_x};

verus! {

pub open spec fn is_space(c: u8) -> bool {
    c == 32 || c == 9 || c == 13 || c == 10
}

pub fn is_space_x(c: u8) -> (r: bool)
    ensures
        r == is_space(c),
{
    c == 32 || c == 9 || c == 13 || c == 10
}

/// First non-space position at or after `i`.
pub open spec fn trim_from(s: Seq<u8>, i: int) -> int
    decreases s.len() - i,
{
    if i < 0 || i >= s.len() {
        s.len() as int
    } else if is_space(s[i]) {
        trim_from(s, i + 1)
    } else {
        i
    }
}

/// End of the last non-space prefix, scanning back from `i`.
pub open spec fn trim_to(s: Seq<u8>, i: int) -> int
    decreases i,
{
    if i <= 0 || i > s.len() {
        0
    } else if is_space(s[i - 1]) {
        trim_to(s, i - 1)
    } else {
        i
    }
}

/// `s` without leading and trailing whitespace.
pub open spec fn trimmed(s: Seq<u8>) -> Seq<u8> {
    let a = trim_from(s, 0);
    let b = trim_to(s, s.len() as int);
    if a < b {
        s.subrange(a, b)
    } else {
        Seq::empty()
    }
}

fn trim_from_x(s: &[u8], i: usize) -> (r: usize)
    requires
        i <= s@.len(),
    ensures
        r == trim_from(s@, i as int),
        i <= r <= s@.len(),
    decreases s@.len() - i,
{
    if i >= s.len() {
        s.len()
    } else if is_space_x(s[i]) {
        trim_from_x(s, i + 1)
    } else {
        i
    }
}

fn trim_to_x(s: &[u8], i: usize) -> (r: usize)
    requires
        i <= s@.len(),
    ensures
        r == trim_to(s@, i as int),
        r <= i,
    decreases i,
{
    if i == 0 {
        0
    } else if is_space_x(s[i - 1]) {
        trim_to_x(s, i - 1)
    } else {
        i
    }
}

pub fn trimmed_x(s: &[u8]) -> (r: Vec<u8>)
    ensures
        r@ == trimmed(s@),
{
    let a = trim_from_x(s, 0);
    let b = trim_to_x(s, s.len());
    if a < b {
        subvec(s, a, b)
    } else {
        proof {
            assert(trimmed(s@) =~= Seq::<u8>::empty());
        }
        Vec::new()
    }
}

/// The line carries element-hiding (cosmetic) syntax: `##` or `#@#`.
pub open spec fn has_cosmetic_marker(s: Seq<u8>) -> bool {
    (exists|i: int|
        #![trigger s[i]]
        0 <= i && i + 2 <= s.len() && s[i] == 35 && s[i + 1] == 35) || (exists|i: int|
        #![trigger s[i]]
        0 <= i && i + 3 <= s.len() && s[i] == 35 && s[i + 1] == 64 && s[i + 2] == 35)
}

pub fn has_cosmetic_marker_x(s: &[u8]) -> (r: bool)
    ensures
        r == has_cosmetic_marker(s@),
{
    let mut i: usize = 0;
    if s.len() < 2 {
        return false;
    }
    while i < s.len() - 1
        invariant
            2 <= s@.len(),
            i <= s@.len(),
            forall|k: int|
                #![trigger s@[k]]
                0 <= k && k + 2 <= s@.len() && k < i ==> !(s@[k] == 35 && s@[k + 1] == 35),
            forall|k: int|
                #![trigger s@[k]]
                0 <= k && k + 3 <= s@.len() && k < i ==> !(s@[k] == 35 && s@[k + 1] == 64 && s@[k
                    + 2] == 35),
        decreases s@.len() - i,
    {
        if s[i] == 35 {
            if s[i + 1] == 35 {
                return true;
            }
            if i < s.len() - 2 && s[i + 1] == 64 && s[i + 2] == 35 {
                return true;
            }
        }
        i = i + 1;
    }
    false
}

/// First `$` (36) not preceded by `\` (92), at or after `i`.
pub open spec fn dollar_from(s: Seq<u8>, i: int) -> Option<int>
    decreases s.len() - i,
{
    if i < 0 || i >= s.len() {
        None
    } else if s[i] == 36 && (i == 0 || s[i - 1] != 92) {
        Some(i)
    } else {
        dollar_from(s, i + 1)
    }
}

pub fn find_dollar_x(s: &[u8]) -> (r: Option<usize>)
    ensures
        match r {
            Option::Some(i) => dollar_from(s@, 0) == Some(i as int) && i < s@.len(),
            Option::None => dollar_from(s@, 0) is None,
        },
{
    let mut i: usize = 0;
    while i < s.len()
        invariant
            i <= s@.len(),
            dollar_from(s@, 0) == dollar_from(s@, i as int),
        decreases s@.len() - i,
    {
        if s[i] == 36 && (i == 0 || s[i - 1] != 92) {
            return Some(i);
        }
        i = i + 1;
    }
    None
}

/// First occurrence of `c` at or after `i`.
pub open spec fn find_byte_from(s: Seq<u8>, c: u8, i: int) -> Option<int>
    decreases s.len() - i,
{
    if i < 0 || i >= s.len() {
        None
    } else if s[i] == c {
        Some(i)
    } else {
        find_byte_from(s, c, i + 1)
    }
}

/// `s` split at every occurrence of `c`; n separators give n+1 parts.
pub open spec fn split_list(s: Seq<u8>, c: u8) -> Seq<Seq<u8>>
    decreases s.len(),
{
    match find_byte_from(s, c, 0) {
        Option::None => seq![s],
        Option::Some(i) => if 0 <= i < s.len() {
            seq![s.subrange(0, i)] + split_list(s.subrange(i + 1, s.len() as int), c)
        } else {
            seq![s]
        },
    }
}

pub fn find_byte_x(s: &[u8], c: u8) -> (r: Option<usize>)
    ensures
        match r {
            Option::Some(i) => find_byte_from(s@, c, 0) == Some(i as int) && i < s@.len(),
            Option::None => find_byte_from(s@, c, 0) is None,
        },
{
    let mut i: usize = 0;
    while i < s.len()
        invariant
            i <= s@.len(),
            find_byte_from(s@, c, 0) == find_byte_from(s@, c, i as int),
        decreases s@.len() - i,
    {
        if s[i] == c {
            return Some(i);
        }
        i = i + 1;
    }
    None
}

pub fn split_list_x(s: &[u8], c: u8) -> (r: Vec<Vec<u8>>)
    ensures
        r@.map_values(|v: Vec<u8>| v@) == split_list(s@, c),
    decreases s@.len(),
{
    match find_byte_x(s, c) {
        Option::None => {
            let mut r: Vec<Vec<u8>> = Vec::new();
            r.push(subvec(s, 0, s.len()));
            proof {
                assert(s@.subrange(0, s@.len() as int) =~= s@);
                assert(r@.map_values(|v: Vec<u8>| v@) =~= split_list(s@, c));
            }
            r
        },
        Option::Some(i) => {
            let n: usize = s.len();
            assert(i < n);
            let head = subvec(s, 0, i);
            let tail = subvec(s, i + 1, s.len());
            let mut rest = split_list_x(tail.as_slice(), c);
            rest.insert(0, head);
            proof {
                assert(rest@.map_values(|v: Vec<u8>| v@) =~= split_list(s@, c));
            }
            rest
        },
    }
}

/// Accumulated rule options while a line's option list is read.
#[verifier::ext_equal]
pub struct OptState {
    pub inc: Seq<Seq<u8>>,
    pub exc: Seq<Seq<u8>>,
    pub pos: Seq<u8>,
    pub neg: Seq<u8>,
    pub party: u8,
    pub important: bool,
}

pub open spec fn init_opts() -> OptState {
    OptState {
        inc: Seq::empty(),
        exc: Seq::empty(),
        pos: Seq::empty(),
        neg: Seq::empty(),
        party: PARTY_ANY,
        important: false,
    }
}

/// Entries of a `domain=` option: `|`-separated, `~` marks an excluded
/// domain, an empty entry spoils the whole line.
pub open spec fn apply_domains(st: OptState, es: Seq<Seq<u8>>) -> Option<OptState>
    decreases es.len(),
{
    if es.len() == 0 {
        Some(st)
    } else {
        let e = es[0];
        if e.len() == 0 {
            None
        } else if e[0] == 126 {
            if e.len() == 1 {
                None
            } else {
                apply_domains(
                    OptState {
                        exc: st.exc.push(e.subrange(1, e.len() as int)),
                        inc: st.inc,
                        pos: st.pos,
                        neg: st.neg,
                        party: st.party,
                        important: st.important,
                    },
                    es.drop_first(),
                )
            }
        } else {
            apply_domains(
                OptState {
                    inc: st.inc.push(e),
                    exc: st.exc,
                    pos: st.pos,
                    neg: st.neg,
                    party: st.party,
                    important: st.important,
                },
                es.drop_first(),
            )
        }
    }
}

/// One option token; an unrecognized key spoils the whole line.
pub open spec fn apply_option(st: OptState, tok: Seq<u8>) -> Option<OptState> {
    if tok == kw_important() {
        Some(
            OptState {
                important: true,
                inc: st.inc,
                exc: st.exc,
                pos: st.pos,
                neg: st.neg,
                party: st.party,
            },
        )
    } else if tok == kw_third_party() {
        Some(
            OptState {
                party: PARTY_THIRD_ONLY,
                inc: st.inc,
                exc: st.exc,
                pos: st.pos,
                neg: st.neg,
                important: st.important,
            },
        )
    } else if tok.len() >= 1 && tok[0] == 126 && tok.subrange(1, tok.len() as int)
        == kw_third_party() {
        Some(
            OptState {
                party: PARTY_FIRST_ONLY,
                inc: st.inc,
                exc: st.exc,
                pos: st.pos,
                neg: st.neg,
                important: st.important,
            },
        )
    } else if starts_with(tok, kw_domain_eq()) {
        apply_domains(st, split_list(tok.subrange(7, tok.len() as int), 124))
    } else if tok.len() >= 1 && tok[0] == 126 {
        match type_code_opt(tok.subrange(1, tok.len() as int)) {
            Option::Some(c) => Some(
                OptState {
                    neg: st.neg.push(c),
                    inc: st.inc,
                    exc: st.exc,
                    pos: st.pos,
                    party: st.party,
                    important: st.important,
                },
            ),
            Option::None => None,
        }
    } else {
        match type_code_opt(tok) {
            Option::Some(c) => Some(
                OptState {
                    pos: st.pos.push(c),
                    inc: st.inc,
                    exc: st.exc,
                    neg: st.neg,
                    party: st.party,
                    important: st.important,
                },
            ),
            Option::None => None,
        }
    }
}

pub open spec fn apply_options(st: OptState, toks: Seq<Seq<u8>>) -> Option<OptState>
    decreases toks.len(),
{
    if toks.len() == 0 {
        Some(st)
    } else {
        match apply_option(st, toks[0]) {
            Option::None => None,
            Option::Some(st2) => apply_options(st2, toks.drop_first()),
        }
    }
}

/// Every byte may appear in a hostname: token bytes and `.`.
pub open spec fn all_host_bytes(s: Seq<u8>) -> bool {
    forall|k: int| 0 <= k < s.len() ==> is_token_byte(s[k]) || s[k] == 46
}

pub fn all_host_bytes_x(s: &[u8]) -> (r: bool)
    ensures
        r == all_host_bytes(s@),
{
    let mut i: usize = 0;
    while i < s.len()
        invariant
            i <= s@.len(),
            forall|k: int| 0 <= k < i ==> is_token_byte(s@[k]) || s@[k] == 46,
        decreases s@.len() - i,
    {
        if !byte_is_token(s[i]) && s[i] != 46 {
            return false;
        }
        i = i + 1;
    }
    true
}

/// The rule a pattern body and its options denote. A body wrapped in `/` is a
/// regular expression; `||` anchors to a hostname label, `|` to the string
/// start, a trailing `|` to the string end; a `||`-anchored body of hostname
/// bytes closed by `^` is a hostname-exact rule.
pub open spec fn build_filter(body: Seq<u8>, st: OptState, exception: bool) -> FilterView {
    if body.len() >= 2 && body[0] == 47 && body[body.len() - 1] == 47 {
        FilterView {
            pattern: body.subrange(1, body.len() - 1),
            kind: KIND_REGEX,
            anchor: ANCHOR_NONE,
            end_anchor: false,
            inc_domains: st.inc,
            exc_domains: st.exc,
            pos_types: st.pos,
            neg_types: st.neg,
            party: st.party,
            is_exception: exception,
            is_important: st.important,
        }
    } else {
        let anchor = if body.len() >= 2 && body[0] == 124 && body[1] == 124 {
            ANCHOR_HOSTNAME
        } else if body.len() >= 1 && body[0] == 124 {
            ANCHOR_START
        } else {
            ANCHOR_NONE
        };
        let b1 = if anchor == ANCHOR_HOSTNAME {
            body.subrange(2, body.len() as int)
        } else if anchor == ANCHOR_START {
            body.subrange(1, body.len() as int)
        } else {
            body
        };
        let end_anchor = b1.len() >= 1 && b1[b1.len() - 1] == 124;
        let b2 = if end_anchor {
            b1.subrange(0, b1.len() - 1)
        } else {
            b1
        };
        if anchor == ANCHOR_HOSTNAME && !end_anchor && b2.len() >= 2 && b2[b2.len() - 1] == 94
            && all_host_bytes(b2.subrange(0, b2.len() - 1)) {
            FilterView {
                pattern: b2.subrange(0, b2.len() - 1),
                kind: KIND_HOSTNAME,
                anchor: ANCHOR_NONE,
                end_anchor: false,
                inc_domains: st.inc,
                exc_domains: st.exc,
                pos_types: st.pos,
                neg_types: st.neg,
                party: st.party,
                is_exception: exception,
                is_important: st.important,
            }
        } else {
            FilterView {
                pattern: b2,
                kind: KIND_PLAIN,
                anchor: anchor,
                end_anchor: end_anchor,
                inc_domains: st.inc,
                exc_domains: st.exc,
                pos_types: st.pos,
                neg_types: st.neg,
                party: st.party,
                is_exception: exception,
                is_important: st.important,
            }
        }
    }
}

/// One line of filter-list text: a rule, or nothing for blank, comment,
/// cosmetic or malformed lines.
pub open spec fn parse_line_spec(line: Seq<u8>) -> Option<FilterView> {
    let t = trimmed(line);
    if t.len() == 0 {
        None
    } else if t[0] == 33 || t[0] == 91 {
        None
    } else if has_cosmetic_marker(t) {
        None
    } else {
        let exception = t.len() >= 2 && t[0] == 64 && t[1] == 64;
        let t2 = if exception {
            t.subrange(2, t.len() as int)
        } else {
            t
        };
        match dollar_from(t2, 0) {
            Option::None => Some(build_filter(t2, init_opts(), exception)),
            Option::Some(i) => match apply_options(
                init_opts(),
                split_list(t2.subrange(i + 1, t2.len() as int), 44),
            ) {
                Option::None => None,
                Option::Some(st) => Some(build_filter(t2.subrange(0, i), st, exception)),
            },
        }
    }
}

/// Mutable accumulator mirroring `OptState`.
pub struct OptAcc {
    pub inc: Vec<Vec<u8>>,
    pub exc: Vec<Vec<u8>>,
    pub pos: Vec<u8>,
    pub neg: Vec<u8>,
    pub party: u8,
    pub important: bool,
}

impl View for OptAcc {
    type V = OptState;

    open spec fn view(&self) -> OptState {
        OptState {
            inc: self.inc@.map_values(|d: Vec<u8>| d@),
            exc: self.exc@.map_values(|d: Vec<u8>| d@),
            pos: self.pos@,
            neg: self.neg@,
            party: self.party,
            important: self.important,
        }
    }
}

impl OptAcc {
    pub fn new() -> (r: OptAcc)
        ensures
            r@ == init_opts(),
    {
        let r = OptAcc {
            inc: Vec::new(),
            exc: Vec::new(),
            pos: Vec::new(),
            neg: Vec::new(),
            party: PARTY_ANY,
            important: false,
        };
        proof {
            assert(r@ =~= init_opts());
        }
        r
    }
}

fn apply_domains_x(acc: OptAcc, es: &Vec<Vec<u8>>) -> (r: Option<OptAcc>)
    ensures
        match r {
            Option::Some(a2) => apply_domains(acc@, es@.map_values(|v: Vec<u8>| v@)) == Some(a2@),
            Option::None => apply_domains(acc@, es@.map_values(|v: Vec<u8>| v@)) is None,
        },
{
    let ghost all = es@.map_values(|v: Vec<u8>| v@);
    proof {
        assert(all.skip(0) =~= all);
    }
    let mut a = acc;
    let mut i: usize = 0;
    while i < es.len()
        invariant
            i <= es@.len(),
            all == es@.map_values(|v: Vec<u8>| v@),
            apply_domains(acc@, all) == apply_domains(a@, all.skip(i as int)),
        decreases es@.len() - i,
    {
        let e = &es[i];
        proof {
            assert(all.skip(i as int)[0] == e@);
            assert(all.skip(i as int).drop_first() =~= all.skip(i + 1));
        }
        let ghost pre = a@;
        if e.len() == 0 {
            return None;
        } else if e[0] == 126 {
            if e.len() == 1 {
                return None;
            }
            let d = subvec(e.as_slice(), 1, e.len());
            a.exc.push(d);
            proof {
                assert(a@.exc =~= pre.exc.push(e@.subrange(1, e@.len() as int)));
            }
        } else {
            let d = subvec(e.as_slice(), 0, e.len());
            proof {
                assert(e@.subrange(0, e@.len() as int) =~= e@);
            }
            a.inc.push(d);
            proof {
                assert(a@.inc =~= pre.inc.push(e@));
            }
        }
        i = i + 1;
    }
    Some(a)
}

fn apply_option_x(acc: OptAcc, tok: &[u8]) -> (r: Option<OptAcc>)
    ensures
        match r {
            Option::Some(a2) => apply_option(acc@, tok@) == Some(a2@),
            Option::None => apply_option(acc@, tok@) is None,
        },
{
    let mut a = acc;
    if is_kw_important(tok) {
        a.important = true;
        Some(a)
    } else if is_kw_third_party(tok) {
        a.party = PARTY_THIRD_ONLY;
        Some(a)
    } else {
        let tilde = tok.len() >= 1 && tok[0] == 126;
        if tilde {
            let rest = subvec(tok, 1, tok.len());
            if is_kw_third_party(rest.as_slice()) {
                a.party = PARTY_FIRST_ONLY;
                return Some(a);
            }
        }
        let kwd = crate::keywords::kw_domain_eq_v();
        if starts_with_x(tok, kwd.as_slice()) {
            let entries = split_list_x(subvec(tok, 7, tok.len()).as_slice(), 124);
            return apply_domains_x(a, &entries);
        }
        if tilde {
            let rest = subvec(tok, 1, tok.len());
            match type_code_opt_x(rest.as_slice()) {
                Option::Some(c) => {
                    a.neg.push(c);
                    Some(a)
                },
                Option::None => None,
            }
        } else {
            match type_code_opt_x(tok) {
                Option::Some(c) => {
                    a.pos.push(c);
                    Some(a)
                },
                Option::None => None,
            }
        }
    }
}

fn apply_options_x(acc: OptAcc, toks: &Vec<Vec<u8>>) -> (r: Option<OptAcc>)
    ensures
        match r {
            Option::Some(a2) => apply_options(acc@, toks@.map_values(|v: Vec<u8>| v@)) == Some(a2@),
            Option::None => apply_options(acc@, toks@.map_values(|v: Vec<u8>| v@)) is None,
        },
{
    let ghost all = toks@.map_values(|v: Vec<u8>| v@);
    proof {
        assert(all.skip(0) =~= all);
    }
    let mut a = acc;
    let mut i: usize = 0;
    while i < toks.len()
        invariant
            i <= toks@.len(),
            all == toks@.map_values(|v: Vec<u8>| v@),
            apply_options(acc@, all) == apply_options(a@, all.skip(i as int)),
        decreases toks@.len() - i,
    {
        proof {
            assert(all.skip(i as int)[0] == toks@[i as int]@);
            assert(all.skip(i as int).drop_first() =~= all.skip(i + 1));
        }
        match apply_option_x(a, toks[i].as_slice()) {
            Option::None => {
                return None;
            },
            Option::Some(a2) => {
                a = a2;
            },
        }
        i = i + 1;
    }
    Some(a)
}

fn build_filter_x(body: &[u8], acc: OptAcc, exception: bool) -> (f: Filter)
    ensures
        f@ == build_filter(body@, acc@, exception),
{
    if body.len() >= 2 && body[0] == 47 && body[body.len() - 1] == 47 {
        let f = Filter {
            pattern: subvec(body, 1, body.len() - 1),
            kind: KIND_REGEX,
            anchor: ANCHOR_NONE,
            end_anchor: false,
            inc_domains: acc.inc,
            exc_domains: acc.exc,
            pos_types: acc.pos,
            neg_types: acc.neg,
            party: acc.party,
            is_exception: exception,
            is_important: acc.important,
        };
        proof {
            assert(f@ =~= build_filter(body@, acc@, exception));
        }
        f
    } else {
        let anchor = if body.len() >= 2 && body[0] == 124 && body[1] == 124 {
            ANCHOR_HOSTNAME
        } else if body.len() >= 1 && body[0] == 124 {
            ANCHOR_START
        } else {
            ANCHOR_NONE
        };
        let b1 = if anchor == ANCHOR_HOSTNAME {
            subvec(body, 2, body.len())
        } else if anchor == ANCHOR_START {
            subvec(body, 1, body.len())
        } else {
            subvec(body, 0, body.len())
        };
        proof {
            if anchor == ANCHOR_NONE {
                assert(body@.subrange(0, body@.len() as int) =~= body@);
            }
        }
        let end_anchor = b1.len() >= 1 && b1[b1.len() - 1] == 124;
        let b2 = if end_anchor {
            subvec(b1.as_slice(), 0, b1.len() - 1)
        } else {
            b1
        };
        let host_exact = anchor == ANCHOR_HOSTNAME && !end_anchor && b2.len() >= 2 && b2[b2.len()
            - 1] == 94 && all_host_bytes_x(subvec(b2.as_slice(), 0, b2.len() - 1).as_slice());
        if host_exact {
            let f = Filter {
                pattern: subvec(b2.as_slice(), 0, b2.len() - 1),
                kind: KIND_HOSTNAME,
                anchor: ANCHOR_NONE,
                end_anchor: false,
                inc_domains: acc.inc,
                exc_domains: acc.exc,
                pos_types: acc.pos,
                neg_types: acc.neg,
                party: acc.party,
                is_exception: exception,
                is_important: acc.important,
            };
            proof {
                assert(f@ =~= build_filter(body@, acc@, exception));
            }
            f
        } else {
            let f = Filter {
                pattern: b2,
                kind: KIND_PLAIN,
                anchor,
                end_anchor,
                inc_domains: acc.inc,
                exc_domains: acc.exc,
                pos_types: acc.pos,
                neg_types: acc.neg,
                party: acc.party,
                is_exception: exception,
                is_important: acc.important,
            };
            proof {
                assert(f@ =~= build_filter(body@, acc@, exception));
            }
            f
        }
    }
}

/// One line of filter-list text, compiled.
pub fn parse_line(line: &[u8]) -> (r: Option<Filter>)
    ensures
        match r {
            Option::Some(f) => parse_line_spec(line@) == Some(f@),
            Option::None => parse_line_spec(line@) is None,
        },
{
    let t = trimmed_x(line);
    if t.len() == 0 {
        return None;
    }
    if t[0] == 33 || t[0] == 91 {
        return None;
    }
    if has_cosmetic_marker_x(t.as_slice()) {
        return None;
    }
    let exception = t.len() >= 2 && t[0] == 64 && t[1] == 64;
    let t2 = if exception {
        subvec(t.as_slice(), 2, t.len())
    } else {
        subvec(t.as_slice(), 0, t.len())
    };
    proof {
        if !exception {
            assert(t@.subrange(0, t@.len() as int) =~= t@);
        }
    }
    match find_dollar_x(t2.as_slice()) {
        Option::None => Some(build_filter_x(t2.as_slice(), OptAcc::new(), exception)),
        Option::Some(i) => {
            let toks = split_list_x(subvec(t2.as_slice(), i + 1, t2.len()).as_slice(), 44);
            match apply_options_x(OptAcc::new(), &toks) {
                Option::None => None,
                Option::Some(acc) => Some(
                    build_filter_x(subvec(t2.as_slice(), 0, i).as_slice(), acc, exception),
                ),
            }
        },
    }
}

/// The rules of a whole list text, line by line; malformed lines drop out.
pub open spec fn filters_of_lines(ls: Seq<Seq<u8>>) -> Seq<FilterView>
    decreases ls.len(),
{
    if ls.len() == 0 {
        Seq::empty()
    } else {
        match parse_line_spec(ls[0]) {
            Option::Some(f) => seq![f] + filters_of_lines(ls.drop_first()),
            Option::None => filters_of_lines(ls.drop_first()),
        }
    }
}

pub open spec fn filters_of_text(t: Seq<u8>) -> Seq<FilterView> {
    filters_of_lines(split_list(t, 10))
}

/// All rules of one list text, in order.
pub fn parse_text(t: &[u8]) -> (r: Vec<Filter>)
    ensures
        r@.map_values(|f: Filter| f@) == filters_of_text(t@),
{
    let lines = split_list_x(t, 10);
    let ghost lviews = lines@.map_values(|v: Vec<u8>| v@);
    let mut out: Vec<Filter> = Vec::new();
    proof {
        assert(lviews.skip(0) =~= lviews);
        assert(out@.map_values(|f: Filter| f@) =~= Seq::<FilterView>::empty());
        assert(Seq::<FilterView>::empty() + filters_of_lines(lviews) =~= filters_of_lines(lviews));
    }
    let mut i: usize = 0;
    while i < lines.len()
        invariant
            i <= lines@.len(),
            lviews == lines@.map_values(|v: Vec<u8>| v@),
            filters_of_lines(lviews) == out@.map_values(|f: Filter| f@) + filters_of_lines(
                lviews.skip(i as int),
            ),
        decreases lines@.len() - i,
    {
        proof {
            assert(lviews.skip(i as int)[0] == lines@[i as int]@);
            assert(lviews.skip(i as int).drop_first() =~= lviews.skip(i + 1));
        }
        match parse_line(lines[i].as_slice()) {
            Option::Some(f) => {
                out.push(f);
                proof {
                    assert(out@.map_values(|f: Filter| f@) =~= out@.map_values(
                        |f: Filter| f@,
                    ).subrange(0, out@.len() - 1).push(out@[out@.len() - 1]@));
                    assert(filters_of_lines(lviews) =~= out@.map_values(|f: Filter| f@)
                        + filters_of_lines(lviews.skip(i + 1)));
                }
            },
            Option::None => {
            },
        }
        i = i + 1;
    }
    proof {
        assert(lviews.skip(lines@.len() as int) =~= Seq::<Seq<u8>>::empty());
        assert(filters_of_lines(lviews) =~= out@.map_values(|f: Filter| f@));
    }
    out
}

} // verus!
