use vstd::prelude::*;
use crate::pattern::{glob_match_at, glob_match_somewhere, glob_match_hostname, glob_at_x,
    glob_somewhere_x, glob_hostname_x};
use crate::request::{RequestView, Request, req_host, third_party_of};
use crate::rx::{spec_regex_filter_match, regex_filter_match};
use crate::bytes_util::{subvec, bytes_eq};

verus! {

/// Pattern kinds.
pub const KIND_PLAIN: u8 = 0;

pub const KIND_REGEX: u8 = 1;

pub const KIND_HOSTNAME: u8 = 2;

/// Anchor kinds for plain patterns.
pub const ANCHOR_NONE: u8 = 0;

pub const ANCHOR_START: u8 = 1;

pub const ANCHOR_HOSTNAME: u8 = 2;

/// Third-party policies.
pub const PARTY_ANY: u8 = 0;

pub const PARTY_THIRD_ONLY: u8 = 1;

pub const PARTY_FIRST_ONLY: u8 = 2;

/// The mathematical value of one compiled rule.
#[verifier::ext_equal]
pub struct FilterView {
    pub pattern: Seq<u8>,
    pub kind: u8,
    pub anchor: u8,
    pub end_anchor: bool,
    pub inc_domains: Seq<Seq<u8>>,
    pub exc_domains: Seq<Seq<u8>>,
    pub pos_types: Seq<u8>,
    pub neg_types: Seq<u8>,
    pub party: u8,
    pub is_exception: bool,
    pub is_important: bool,
}

/// One compiled rule: pattern with anchor and kind, resource-type
/// restrictions, domain restrictions, party policy and the two flags.
pub struct Filter {
    pub pattern: Vec<u8>,
    pub kind: u8,
    pub anchor: u8,
    pub end_anchor: bool,
    pub inc_domains: Vec<Vec<u8>>,
    pub exc_domains: Vec<Vec<u8>>,
    pub pos_types: Vec<u8>,
    pub neg_types: Vec<u8>,
    pub party: u8,
    pub is_exception: bool,
    pub is_important: bool,
}

impl View for Filter {
    type V = FilterView;

    open spec fn view(&self) -> FilterView {
        FilterView {
            pattern: self.pattern@,
            kind: self.kind,
            anchor: self.anchor,
            end_anchor: self.end_anchor,
            inc_domains: self.inc_domains@.map_values(|d: Vec<u8>| d@),
            exc_domains: self.exc_domains@.map_values(|d: Vec<u8>| d@),
            pos_types: self.pos_types@,
            neg_types: self.neg_types@,
            party: self.party,
            is_exception: self.is_exception,
            is_important: self.is_important,
        }
    }
}

impl DeepView for Filter {
    type V = FilterView;

    open spec fn deep_view(&self) -> FilterView {
        self.view()
    }
}

/// `h` equals domain `d` or lies under it (`h` ends in `.d`).
pub open spec fn host_matches_domain(h: Seq<u8>, d: Seq<u8>) -> bool {
    h == d || (h.len() > d.len() && h.subrange(h.len() - d.len(), h.len() as int) == d && h[h.len()
        - d.len() - 1] == 46)
}

pub fn host_matches_domain_x(h: &[u8], d: &[u8]) -> (r: bool)
    ensures
        r == host_matches_domain(h@, d@),
{
    if bytes_eq(h, d) {
        return true;
    }
    if h.len() > d.len() {
        let tail = subvec(h, h.len() - d.len(), h.len());
        bytes_eq(tail.as_slice(), d) && h[h.len() - d.len() - 1] == 46
    } else {
        false
    }
}

/// The pattern condition of a rule against the request URL.
pub open spec fn pattern_matches(f: FilterView, q: RequestView) -> bool {
    if f.kind == KIND_REGEX {
        spec_regex_filter_match(f.pattern, q.url)
    } else if f.kind == KIND_HOSTNAME {
        host_matches_domain(req_host(q), f.pattern)
    } else if f.anchor == ANCHOR_START {
        glob_match_at(f.pattern, q.url, 0, 0, f.end_anchor)
    } else if f.anchor == ANCHOR_HOSTNAME {
        glob_match_hostname(f.pattern, q.url, q.host_start, q.host_end, f.end_anchor)
    } else {
        glob_match_somewhere(f.pattern, q.url, f.end_anchor)
    }
}

/// The resource-type condition: an unrestricted rule applies to every type; a
/// listed type must include the request's, a negated one must not.
pub open spec fn type_matches(f: FilterView, rtype: u8) -> bool {
    (f.pos_types.len() == 0 || f.pos_types.contains(rtype)) && !f.neg_types.contains(rtype)
}

/// The domain condition against the source hostname: an allow-list needs the
/// source to lie in it; an exclude-list must miss the source.
pub open spec fn domains_match(f: FilterView, source_host: Option<Seq<u8>>) -> bool {
    (f.inc_domains.len() == 0 || (source_host matches Some(sh) && exists|i: int|
        0 <= i < f.inc_domains.len() && host_matches_domain(sh, f.inc_domains[i]))) && (match (
    source_host) {
        Option::None => true,
        Option::Some(sh) => forall|i: int|
            0 <= i < f.exc_domains.len() ==> !host_matches_domain(sh, f.exc_domains[i]),
    })
}

/// The party condition against the request's third-party-ness.
pub open spec fn party_matches(f: FilterView, third: Option<bool>) -> bool {
    if f.party == PARTY_THIRD_ONLY {
        third == Some(true)
    } else if f.party == PARTY_FIRST_ONLY {
        third == Some(false)
    } else {
        true
    }
}

/// A rule is triggered by a request when all four conditions hold.
pub open spec fn filter_matches(f: FilterView, q: RequestView) -> bool {
    pattern_matches(f, q) && type_matches(f, q.rtype) && domains_match(f, q.source_host)
        && party_matches(f, third_party_of(q))
}

pub fn contains_code(v: &[u8], c: u8) -> (r: bool)
    ensures
        r == v@.contains(c),
{
    let mut i: usize = 0;
    while i < v.len()
        invariant
            i <= v@.len(),
            forall|k: int| 0 <= k < i ==> v@[k] != c,
        decreases v@.len() - i,
    {
        if v[i] == c {
            return true;
        }
        i = i + 1;
    }
    false
}

impl Filter {
    /// Full test of one rule against a request.
    pub fn matches(&self, q: &Request) -> (r: bool)
        requires
            q.wf(),
        ensures
            r == filter_matches(self@, q@),
    {
        if !self.pattern_test(q) {
            return false;
        }
        if !self.type_test(q.rtype) {
            return false;
        }
        if !self.domain_test(q) {
            return false;
        }
        self.party_test(q)
    }

    fn pattern_test(&self, q: &Request) -> (r: bool)
        requires
            q.wf(),
        ensures
            r == pattern_matches(self@, q@),
    {
        if self.kind == KIND_REGEX {
            regex_filter_match(self.pattern.as_slice(), q.url.as_slice())
        } else if self.kind == KIND_HOSTNAME {
            let host = subvec(q.url.as_slice(), q.host_start, q.host_end);
            host_matches_domain_x(host.as_slice(), self.pattern.as_slice())
        } else if self.anchor == ANCHOR_START {
            glob_at_x(self.pattern.as_slice(), q.url.as_slice(), 0, 0, self.end_anchor)
        } else if self.anchor == ANCHOR_HOSTNAME {
            glob_hostname_x(
                self.pattern.as_slice(),
                q.url.as_slice(),
                q.host_start,
                q.host_end,
                self.end_anchor,
            )
        } else {
            glob_somewhere_x(self.pattern.as_slice(), q.url.as_slice(), self.end_anchor)
        }
    }

    fn type_test(&self, rtype: u8) -> (r: bool)
        ensures
            r == type_matches(self@, rtype),
    {
        (self.pos_types.len() == 0 || contains_code(self.pos_types.as_slice(), rtype))
            && !contains_code(self.neg_types.as_slice(), rtype)
    }

    fn domain_test(&self, q: &Request) -> (r: bool)
        ensures
            r == domains_match(self@, q@.source_host),
    {
        match &q.source_host {
            Option::None => self.inc_domains.len() == 0,
            Option::Some(sh) => {
                if self.inc_domains.len() > 0 {
                    let mut found = false;
                    let mut i: usize = 0;
                    while i < self.inc_domains.len()
                        invariant
                            i <= self.inc_domains@.len(),
                            found == exists|k: int|
                                0 <= k < i && host_matches_domain(
                                    sh@,
                                    self@.inc_domains[k],
                                ),
                        decreases self.inc_domains@.len() - i,
                    {
                        if host_matches_domain_x(sh.as_slice(), self.inc_domains[i].as_slice()) {
                            proof {
                                assert(host_matches_domain(sh@, self@.inc_domains[i as int]));
                            }
                            found = true;
                        }
                        i = i + 1;
                    }
                    if !found {
                        return false;
                    }
                }
                let mut i: usize = 0;
                while i < self.exc_domains.len()
                    invariant
                        i <= self.exc_domains@.len(),
                        forall|k: int|
                            0 <= k < i ==> !host_matches_domain(
                                sh@,
                                self@.exc_domains[k],
                            ),
                        self.inc_domains@.len() == 0 || (q@.source_host matches Some(s2)
                            && exists|k: int|
                            0 <= k < self.inc_domains@.len() && host_matches_domain(
                                s2,
                                self@.inc_domains[k],
                            )),
                        q@.source_host == Some(sh@),
                    decreases self.exc_domains@.len() - i,
                {
                    if host_matches_domain_x(sh.as_slice(), self.exc_domains[i].as_slice()) {
                        proof {
                            assert(host_matches_domain(sh@, self@.exc_domains[i as int]));
                        }
                        return false;
                    }
                    i = i + 1;
                }
                true
            },
        }
    }

    fn party_test(&self, q: &Request) -> (r: bool)
        requires
            q.wf(),
        ensures
            r == party_matches(self@, third_party_of(q@)),
    {
        if self.party != PARTY_THIRD_ONLY && self.party != PARTY_FIRST_ONLY {
            return true;
        }
        match &q.source_host {
            Option::None => false,
            Option::Some(sh) => {
                let treg = q.target_registrable();
                let srs = crate::url::registrable_start_x(sh.as_slice());
                let sreg = subvec(sh.as_slice(), srs, sh.len());
                let third = !bytes_eq(treg.as_slice(), sreg.as_slice());
                if self.party == PARTY_THIRD_ONLY {
                    third
                } else {
                    !third
                }
            },
        }
    }
}

} // verus!
