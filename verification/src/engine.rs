use vstd::prelude::*;
use crate::filter::{Filter, FilterView, filter_matches, KIND_PLAIN, KIND_HOSTNAME};
use crate::request::{Request, RequestView, MatchError, request_of};
use crate::index::{FilterIndex, index_wf, build_index, candidates, tokenize, token_ok, covered,
    has_token, lemma_plain_token_occurs, lemma_host_label_occurs, is_run};
use crate::parser::{parse_text, filters_of_text};
use crate::url::{url_ok, host_bounds};
use vstd::utf8::encode_utf8;

verus! {

/// The rules of several list texts, merged in order.
pub open spec fn filters_of_lists(texts: Seq<Seq<u8>>) -> Seq<FilterView>
    decreases texts.len(),
{
    if texts.len() == 0 {
        Seq::empty()
    } else {
        filters_of_text(texts[0]) + filters_of_lists(texts.drop_first())
    }
}

/// Some triggered rule is an important block (overrides exceptions).
pub open spec fn any_important_block(fs: Seq<FilterView>, q: RequestView) -> bool {
    exists|i: int|
        0 <= i < fs.len() && filter_matches(#[trigger] fs[i], q) && fs[i].is_important
            && !fs[i].is_exception
}

/// Some triggered rule is an exception (allow rule).
pub open spec fn any_exception(fs: Seq<FilterView>, q: RequestView) -> bool {
    exists|i: int| 0 <= i < fs.len() && filter_matches(#[trigger] fs[i], q) && fs[i].is_exception
}

/// Some triggered rule blocks.
pub open spec fn any_block(fs: Seq<FilterView>, q: RequestView) -> bool {
    exists|i: int| 0 <= i < fs.len() && filter_matches(#[trigger] fs[i], q) && !fs[i].is_exception
}

/// The verdict, in strict precedence: an important block wins, then an
/// exception allows, then any block blocks, else the request is allowed.
pub open spec fn verdict(fs: Seq<FilterView>, q: RequestView) -> bool {
    if any_important_block(fs, q) {
        true
    } else if any_exception(fs, q) {
        false
    } else {
        any_block(fs, q)
    }
}

/// The request value a match query's three strings describe, over their
/// UTF-8 bytes.
pub open spec fn query_view(url: Seq<char>, source_url: Seq<char>, request_type: Seq<char>) -> RequestView {
    request_of(encode_utf8(url), encode_utf8(source_url), encode_utf8(request_type))
}

/// Outcome of one match query: the verdict, the deciding rule if any, and
/// whether the decision came from an exception rule.
pub struct MatchResult {
    pub matched: bool,
    pub filter: Option<usize>,
    pub exception: bool,
}

/// The engine: a set of compiled rules and their index, immutable once built.
pub struct FilterEngine {
    filters: Vec<Filter>,
    index: FilterIndex,
}

impl FilterEngine {
    /// The compiled rules, in list order.
    pub closed spec fn filters_view(&self) -> Seq<FilterView> {
        self.filters@.map_values(|f: Filter| f@)
    }

    /// The index reaches every rule that its well-formedness demands.
    pub closed spec fn wf(&self) -> bool {
        index_wf(self.index, self.filters_view())
    }

    /// Builds an engine from raw filter-list texts. Malformed lines are
    /// skipped; the valid lines of every text take effect, in order.
    pub fn new(rules: Vec<String>) -> (e: Self)
        ensures
            e.wf(),
            e.filters_view() == filters_of_lists(
                rules@.map_values(|s: String| encode_utf8(s@)),
            ),
    {
        let ghost texts = rules@.map_values(|s: String| encode_utf8(s@));
        let mut filters: Vec<Filter> = Vec::new();
        proof {
            assert(texts.skip(0) =~= texts);
            assert(filters@.map_values(|f: Filter| f@) =~= Seq::<FilterView>::empty());
            assert(Seq::<FilterView>::empty() + filters_of_lists(texts) =~= filters_of_lists(
                texts,
            ));
        }
        let mut i: usize = 0;
        while i < rules.len()
            invariant
                i <= rules@.len(),
                texts == rules@.map_values(|s: String| encode_utf8(s@)),
                filters_of_lists(texts) == filters@.map_values(|f: Filter| f@)
                    + filters_of_lists(texts.skip(i as int)),
            decreases rules@.len() - i,
        {
            proof {
                assert(texts.skip(i as int)[0] == encode_utf8(rules@[i as int]@));
                assert(texts.skip(i as int).drop_first() =~= texts.skip(i + 1));
            }
            let bytes: &[u8] = rules[i].as_str().as_bytes();
            let mut new_filters = parse_text(bytes);
            let ghost prev = filters@;
            let ghost added = new_filters@;
            filters.append(&mut new_filters);
            proof {
                assert(filters@ == prev + added);
                assert(filters@.map_values(|f: Filter| f@) =~= prev.map_values(|f: Filter| f@)
                    + added.map_values(|f: Filter| f@));
                assert(added.map_values(|f: Filter| f@) == filters_of_text(
                    encode_utf8(rules@[i as int]@),
                ));
                assert(filters_of_lists(texts) =~= filters@.map_values(|f: Filter| f@)
                    + filters_of_lists(texts.skip(i + 1)));
            }
            i = i + 1;
        }
        proof {
            assert(texts.skip(rules@.len() as int) =~= Seq::<Seq<u8>>::empty());
            assert(filters@.map_values(|f: Filter| f@) + filters_of_lists(
                Seq::<Seq<u8>>::empty(),
            ) =~= filters@.map_values(|f: Filter| f@));
        }
        let index = build_index(&filters);
        FilterEngine { filters, index }
    }

    /// Evaluates one request against index and rules, resolving precedence.
    #[verifier::rlimit(100)]
    fn eval(&self, q: &Request) -> (r: MatchResult)
        requires
            self.wf(),
            q.wf(),
            host_bounds(q@.url) == Some((q@.host_start, q@.host_end)),
        ensures
            r.matched == verdict(self.filters_view(), q@),
            r.exception == (any_exception(self.filters_view(), q@) && !any_important_block(
                self.filters_view(),
                q@,
            )),
            (r.filter is Some) == (any_block(self.filters_view(), q@) || any_exception(
                self.filters_view(),
                q@,
            )),
            r.filter matches Some(i) ==> i < self.filters_view().len() && filter_matches(
                self.filters_view()[i as int],
                q@,
            ) && self.filters_view()[i as int].is_exception == r.exception,
    {
        let ghost fs = self.filters_view();
        let nf: usize = self.filters.len();
        proof {
            assert(fs.len() == nf);
        }
        let tokens = tokenize(q.url.as_slice());
        let cand = candidates(&self.index, &tokens);
        proof {
            assert forall|fid: int|
                0 <= fid < fs.len() && filter_matches(#[trigger] fs[fid], q@) implies cand@.contains(
                fid as usize,
            ) by {
                assert(covered(self.index, fs, fid));
                if !has_token(fs[fid]) {
                    let m = choose|m: int|
                        0 <= m < self.index.fallback@.len() && self.index.fallback@[m] == fid
                            as usize;
                    assert(cand@.contains(self.index.fallback@[m]));
                } else {
                    let bi = choose|bi: int|
                        0 <= bi < self.index.buckets@.len() && (#[trigger] self.index.buckets@[bi]).ids@.contains(
                            fid as usize,
                        ) && token_ok(fs[fid], self.index.buckets@[bi].key@);
                    let key = self.index.buckets@[bi].key@;
                    if fs[fid].kind == KIND_PLAIN {
                        lemma_plain_token_occurs(fs[fid], q@, key);
                    } else {
                        assert(fs[fid].kind == KIND_HOSTNAME);
                        lemma_host_label_occurs(fs[fid], q@, key);
                    }
                    let (a, b) = choose|a: int, b: int|
                        #[trigger] is_run(q@.url, a, b) && q@.url.subrange(a, b) == key;
                    let k = choose|k: int|
                        0 <= k < tokens@.len() && tokens@[k]@ == q@.url.subrange(a, b);
                    let m = choose|m: int|
                        0 <= m < self.index.buckets@[bi].ids@.len()
                            && self.index.buckets@[bi].ids@[m] == fid as usize;
                    assert(cand@.contains(self.index.buckets@[bi].ids@[m]));
                }
            }
        }
        let mut imp: Option<usize> = None;
        let mut exc: Option<usize> = None;
        let mut blk: Option<usize> = None;
        let mut k: usize = 0;
        while k < cand.len()
            invariant
                k <= cand@.len(),
                fs == self.filters_view(),
                fs.len() == nf,
                q.wf(),
                forall|m: int| 0 <= m < cand@.len() ==> (#[trigger] cand@[m]) < self.filters@.len(),
                forall|fid: int|
                    0 <= fid < fs.len() && filter_matches(#[trigger] fs[fid], q@)
                        ==> cand@.contains(fid as usize),
                match imp {
                    Option::Some(i) => i < fs.len() && filter_matches(fs[i as int], q@) && fs[i as int].is_important
                        && !fs[i as int].is_exception,
                    Option::None => forall|m: int|
                        0 <= m < k ==> !(filter_matches(fs[#[trigger] cand@[m] as int], q@)
                            && fs[cand@[m] as int].is_important && !fs[cand@[m] as int].is_exception),
                },
                match exc {
                    Option::Some(i) => i < fs.len() && filter_matches(fs[i as int], q@) && fs[i as int].is_exception,
                    Option::None => forall|m: int|
                        0 <= m < k ==> !(filter_matches(fs[#[trigger] cand@[m] as int], q@)
                            && fs[cand@[m] as int].is_exception),
                },
                match blk {
                    Option::Some(i) => i < fs.len() && filter_matches(fs[i as int], q@)
                        && !fs[i as int].is_exception,
                    Option::None => forall|m: int|
                        0 <= m < k ==> !(filter_matches(fs[#[trigger] cand@[m] as int], q@)
                            && !fs[cand@[m] as int].is_exception),
                },
            decreases cand@.len() - k,
        {
            let id = cand[k];
            let f = &self.filters[id];
            proof {
                assert(fs[id as int] == self.filters@[id as int]@);
            }
            if f.matches(q) {
                if f.is_important && !f.is_exception && imp.is_none() {
                    imp = Some(id);
                }
                if f.is_exception && exc.is_none() {
                    exc = Some(id);
                }
                if !f.is_exception && blk.is_none() {
                    blk = Some(id);
                }
            }
            k = k + 1;
        }
        proof {
            if imp is None && any_important_block(fs, q@) {
                let i = choose|i: int|
                    0 <= i < fs.len() && filter_matches(#[trigger] fs[i], q@) && fs[i].is_important
                        && !fs[i].is_exception;
                assert(cand@.contains(i as usize));
                let m = choose|m: int| 0 <= m < cand@.len() && cand@[m] == i as usize;
                assert(0 <= i < nf);
                assert(cand@[m] as int == i);
                assert(false);
            }
            if exc is None && any_exception(fs, q@) {
                let i = choose|i: int|
                    0 <= i < fs.len() && filter_matches(#[trigger] fs[i], q@)
                        && fs[i].is_exception;
                assert(cand@.contains(i as usize));
                let m = choose|m: int| 0 <= m < cand@.len() && cand@[m] == i as usize;
                assert(0 <= i < nf);
                assert(cand@[m] as int == i);
                assert(filter_matches(fs[cand@[m] as int], q@));
                assert(fs[cand@[m] as int].is_exception);
                assert(false);
            }
            if blk is None && any_block(fs, q@) {
                let i = choose|i: int|
                    0 <= i < fs.len() && filter_matches(#[trigger] fs[i], q@)
                        && !fs[i].is_exception;
                assert(cand@.contains(i as usize));
                let m = choose|m: int| 0 <= m < cand@.len() && cand@[m] == i as usize;
                assert(0 <= i < nf);
                assert(cand@[m] as int == i);
                assert(false);
            }
        }
        match imp {
            Option::Some(i) => MatchResult { matched: true, filter: Some(i), exception: false },
            Option::None => match exc {
                Option::Some(i) => MatchResult { matched: false, filter: Some(i), exception: true },
                Option::None => match blk {
                    Option::Some(i) => MatchResult {
                        matched: true,
                        filter: Some(i),
                        exception: false,
                    },
                    Option::None => MatchResult { matched: false, filter: None, exception: false },
                },
            },
        }
    }

    /// One match query. Fails exactly when the target URL is not well formed;
    /// an unparseable or empty source URL means no document context.
    pub fn check_network_request(&self, url: &str, source_url: &str, request_type: &str) -> (r:
        Result<MatchResult, MatchError>)
        requires
            self.wf(),
        ensures
            (r is Ok) == url_ok(encode_utf8(url@)),
            r matches Ok(m) ==> m.matched == verdict(
                self.filters_view(),
                query_view(url@, source_url@, request_type@),
            ),
            r matches Ok(m) ==> m.exception == (any_exception(
                self.filters_view(),
                query_view(url@, source_url@, request_type@),
            ) && !any_important_block(
                self.filters_view(),
                query_view(url@, source_url@, request_type@),
            )),
            r matches Ok(m) ==> ((m.filter is Some) == (any_block(
                self.filters_view(),
                query_view(url@, source_url@, request_type@),
            ) || any_exception(self.filters_view(), query_view(url@, source_url@, request_type@)))),
            r matches Ok(m) ==> (m.filter matches Some(i) ==> i < self.filters_view().len()
                && filter_matches(
                self.filters_view()[i as int],
                query_view(url@, source_url@, request_type@),
            ) && self.filters_view()[i as int].is_exception == m.exception),
    {
        let ub: &[u8] = url.as_bytes();
        let sb: &[u8] = source_url.as_bytes();
        let tb: &[u8] = request_type.as_bytes();
        match Request::build(ub, sb, tb) {
            Result::Err(e) => Err(e),
            Result::Ok(q) => {
                proof {
                    assert(host_bounds(q@.url) == Some((q@.host_start, q@.host_end)));
                }
                Ok(self.eval(&q))
            },
        }
    }

    /// The plain boolean verdict for one request, as the engine's foreign
    /// callers use it; the target URL must be well formed.
    pub fn check_network_urls_matched(
        &self,
        url: String,
        source_url: String,
        request_type: String,
    ) -> (r: bool)
        requires
            self.wf(),
            url_ok(encode_utf8(url@)),
        ensures
            r == verdict(self.filters_view(), query_view(url@, source_url@, request_type@)),
    {
        match self.check_network_request(url.as_str(), source_url.as_str(), request_type.as_str()) {
            Result::Ok(m) => m.matched,
            Result::Err(_) => {
                proof {
                    assert(false);
                }
                false
            },
        }
    }
}

} // verus!
