//! Scoring of a query tree. The combinator layer (`Not`, `NAmong`) is
//! defined once, over an arbitrary leaf-scoring function, and is then
//! instantiated twice: with the approximate filter's weights, and with
//! exact presence in the local index. The two evaluations therefore agree
//! on whether a document can match (see [`lemma_score_agreement`]); only
//! the magnitudes differ.

use vstd::prelude::*;
use vstd::string::StringExecFns;
use crate::filter::Filter;
use crate::index::{FilterEntry, LocalCid, WordEntry, filter_present, word_present};
use crate::index::{lookup_filter, lookup_word};
use crate::query::{spec_positive_filters, spec_positive_terms};
use crate::index::{docs_contain, find_filter_entry, find_word_entry};
use crate::query::{Query, QueryComp, QueryCompV, view_comps, lemma_view_comps};

verus! {

/// Addition on `u32` scores that never overflows: it sticks at `u32::MAX`
/// instead of wrapping.
pub open spec fn sat_add32(a: u32, b: u32) -> u32 {
    if a + b <= u32::MAX {
        (a + b) as u32
    } else {
        u32::MAX
    }
}

/// Executable counterpart of [`sat_add32`].
pub fn add_saturating(a: u32, b: u32) -> (r: u32)
    ensures
        r == sat_add32(a, b),
{
    if a <= u32::MAX - b {
        a + b
    } else {
        u32::MAX
    }
}

/// Saturating addition groups like ordinary addition.
pub proof fn lemma_sat_add32_assoc(a: u32, b: u32, c: u32)
    ensures
        sat_add32(sat_add32(a, b), c) == sat_add32(a, sat_add32(b, c)),
{
}

/// The string key a `name=value` filter is looked up under.
pub open spec fn filter_key(name: Seq<char>, value: Seq<char>) -> Seq<char> {
    name + "="@ + value
}

/// Builds the lookup key for a `name=value` filter.
pub fn build_filter_key(name: &String, value: &String) -> (k: String)
    ensures
        k@ == filter_key(name@, value@),
{
    let mut k = name.clone();
    k.append("=");
    k.append(value.as_str());
    k
}

/// Score of a query tree given a score for each leaf: `Not` inverts the
/// boolean verdict, `NAmong` pays the saturating sum of all child scores
/// when at least `n` children score above zero, and nothing otherwise.
pub open spec fn spec_eval(q: QueryCompV, leaf: spec_fn(QueryCompV) -> u32) -> u32
    decreases q,
{
    match q {
        QueryCompV::Word(_) => leaf(q),
        QueryCompV::Filter { .. } => leaf(q),
        QueryCompV::Not(c) => if spec_eval(*c, leaf) == 0 {
            1u32
        } else {
            0u32
        },
        QueryCompV::NAmong { n, among } => if spec_eval_count(among, leaf) >= n {
            spec_eval_sum(among, leaf)
        } else {
            0u32
        },
    }
}

/// Saturating sum of the scores of a sequence of components.
pub open spec fn spec_eval_sum(s: Seq<QueryCompV>, leaf: spec_fn(QueryCompV) -> u32) -> u32
    decreases s,
{
    if s.len() == 0 {
        0u32
    } else {
        sat_add32(spec_eval(s[0], leaf), spec_eval_sum(s.subrange(1, s.len() as int), leaf))
    }
}

/// How many components of a sequence score above zero.
pub open spec fn spec_eval_count(s: Seq<QueryCompV>, leaf: spec_fn(QueryCompV) -> u32) -> int
    decreases s,
{
    if s.len() == 0 {
        0int
    } else {
        (if spec_eval(s[0], leaf) > 0 {
            1int
        } else {
            0int
        }) + spec_eval_count(s.subrange(1, s.len() as int), leaf)
    }
}

/// Leaf scores drawn from an approximate weight function: a `Word` leaf is
/// worth the weight of its term, a `Filter` leaf the weight of its
/// `name=value` key.
pub open spec fn filter_leaf(w: spec_fn(Seq<char>) -> u32) -> spec_fn(QueryCompV) -> u32 {
    |q: QueryCompV|
        match q {
            QueryCompV::Word(t) => w(t),
            QueryCompV::Filter { name, value } => w(filter_key(name, value)),
            _ => 0u32,
        }
}

/// Leaf scores drawn from the exact index for one document: a leaf is worth
/// 1 when the document is recorded under it and 0 otherwise.
pub open spec fn index_leaf(
    cid: LocalCid,
    words: Seq<WordEntry>,
    filters: Seq<FilterEntry>,
) -> spec_fn(QueryCompV) -> u32 {
    |q: QueryCompV|
        match q {
            QueryCompV::Word(t) => if word_present(words, t, cid) {
                1u32
            } else {
                0u32
            },
            QueryCompV::Filter { name, value } => if filter_present(filters, name, value, cid) {
                1u32
            } else {
                0u32
            },
            _ => 0u32,
        }
}

/// Score of a query against an approximate weight function.
pub open spec fn spec_match_score(q: QueryCompV, w: spec_fn(Seq<char>) -> u32) -> u32 {
    spec_eval(q, filter_leaf(w))
}

/// Score of a query against the exact index, for one document.
pub open spec fn spec_match_score_index(
    q: QueryCompV,
    cid: LocalCid,
    words: Seq<WordEntry>,
    filters: Seq<FilterEntry>,
) -> u32 {
    spec_eval(q, index_leaf(cid, words, filters))
}

impl QueryComp {
    /// Scores this component against an approximate filter.
    #[verifier::loop_isolation(false)]
    pub fn match_score(&self, filter: &Filter) -> (r: u32)
        requires
            filter.wf(),
        ensures
            r == spec_match_score(self@, filter.weight_fn()),
        decreases self,
    {
        let leaf = Ghost(filter_leaf(filter.weight_fn()));
        match self {
            QueryComp::Word(word) => filter.get_word(word.as_str()),
            QueryComp::Filter { name, value } => {
                let key = build_filter_key(name, value);
                filter.get_word(key.as_str())
            },
            QueryComp::Not(comp) => {
                let s = comp.match_score(filter);
                if s == 0 {
                    1
                } else {
                    0
                }
            },
            QueryComp::NAmong { n, among } => {
                let len: usize = among.len();
                let mut sum: u32 = 0;
                let mut matching: usize = 0;
                let mut i: usize = 0;
                proof {
                    lemma_view_comps(among@);
                    assert(among@.subrange(0, len as int) =~= among@);
                }
                while i < len
                    invariant
                        filter.wf(),
                        0 <= i <= len,
                        len == among@.len(),
                        matching <= i,
                        leaf@ == filter_leaf(filter.weight_fn()),
                        sat_add32(sum, spec_eval_sum(view_comps(among@.subrange(i as int, len as int)), leaf@))
                            == spec_eval_sum(view_comps(among@), leaf@),
                        matching + spec_eval_count(view_comps(among@.subrange(i as int, len as int)), leaf@)
                            == spec_eval_count(view_comps(among@), leaf@),
                    decreases len - i,
                {
                    proof {
                        let suffix = among@.subrange(i as int, len as int);
                        lemma_view_comps(suffix);
                        assert(suffix.subrange(1, suffix.len() as int) =~= among@.subrange(
                            i + 1,
                            len as int,
                        ));
                        assert(view_comps(suffix).subrange(1, view_comps(suffix).len() as int)
                            =~= view_comps(among@.subrange(i + 1, len as int))) by {
                            lemma_view_comps(among@.subrange(i + 1, len as int));
                            assert(view_comps(suffix) == seq![suffix[0]@] + view_comps(
                                suffix.subrange(1, suffix.len() as int),
                            ));
                        }
                        assert(view_comps(suffix)[0] == among@[i as int]@);
                        lemma_sat_add32_assoc(
                            sum,
                            spec_eval(among@[i as int]@, leaf@),
                            spec_eval_sum(view_comps(among@.subrange(i + 1, len as int)), leaf@),
                        );
                    }
                    proof {
                        assert((*self)->among == *among);
                        assert(decreases_to!(*self => (*self)->among));
                        assert(decreases_to!(*among => among@));
                        assert(decreases_to!(among@ => among@[i as int]));
                        assert(decreases_to!(*self => among@[i as int]));
                    }
                    let score = among[i].match_score(filter);
                    sum = add_saturating(sum, score);
                    if score > 0 {
                        matching = matching + 1;
                    }
                    i = i + 1;
                }
                proof {
                    assert(among@.subrange(len as int, len as int).len() == 0);
                    assert(view_comps(among@.subrange(len as int, len as int)).len() == 0);
                }
                if matching >= *n {
                    sum
                } else {
                    0
                }
            },
        }
    }

    /// Scores this component against the exact index, for document `cid`.
    #[verifier::loop_isolation(false)]
    pub fn match_score_index(
        &self,
        cid: LocalCid,
        words: &Vec<WordEntry>,
        filters: &Vec<FilterEntry>,
    ) -> (r: u32)
        ensures
            r == spec_match_score_index(self@, cid, words@, filters@),
        decreases self,
    {
        let leaf = Ghost(index_leaf(cid, words@, filters@));
        match self {
            QueryComp::Word(word) => {
                match find_word_entry(words, word) {
                    Some(e) => if docs_contain(&e.docs, cid) {
                        1
                    } else {
                        0
                    },
                    None => 0,
                }
            },
            QueryComp::Filter { name, value } => {
                match find_filter_entry(filters, name, value) {
                    Some(e) => if docs_contain(&e.docs, cid) {
                        1
                    } else {
                        0
                    },
                    None => 0,
                }
            },
            QueryComp::Not(comp) => {
                let s = comp.match_score_index(cid, words, filters);
                if s == 0 {
                    1
                } else {
                    0
                }
            },
            QueryComp::NAmong { n, among } => {
                let len: usize = among.len();
                let mut sum: u32 = 0;
                let mut matching: usize = 0;
                let mut i: usize = 0;
                proof {
                    lemma_view_comps(among@);
                    assert(among@.subrange(0, len as int) =~= among@);
                }
                while i < len
                    invariant
                        0 <= i <= len,
                        len == among@.len(),
                        matching <= i,
                        leaf@ == index_leaf(cid, words@, filters@),
                        sat_add32(sum, spec_eval_sum(view_comps(among@.subrange(i as int, len as int)), leaf@))
                            == spec_eval_sum(view_comps(among@), leaf@),
                        matching + spec_eval_count(view_comps(among@.subrange(i as int, len as int)), leaf@)
                            == spec_eval_count(view_comps(among@), leaf@),
                    decreases len - i,
                {
                    proof {
                        let suffix = among@.subrange(i as int, len as int);
                        lemma_view_comps(suffix);
                        assert(suffix.subrange(1, suffix.len() as int) =~= among@.subrange(
                            i + 1,
                            len as int,
                        ));
                        assert(view_comps(suffix).subrange(1, view_comps(suffix).len() as int)
                            =~= view_comps(among@.subrange(i + 1, len as int))) by {
                            lemma_view_comps(among@.subrange(i + 1, len as int));
                            assert(view_comps(suffix) == seq![suffix[0]@] + view_comps(
                                suffix.subrange(1, suffix.len() as int),
                            ));
                        }
                        assert(view_comps(suffix)[0] == among@[i as int]@);
                        lemma_sat_add32_assoc(
                            sum,
                            spec_eval(among@[i as int]@, leaf@),
                            spec_eval_sum(view_comps(among@.subrange(i + 1, len as int)), leaf@),
                        );
                    }
                    proof {
                        assert((*self)->among == *among);
                        assert(decreases_to!(*self => (*self)->among));
                        assert(decreases_to!(*among => among@));
                        assert(decreases_to!(among@ => among@[i as int]));
                        assert(decreases_to!(*self => among@[i as int]));
                    }
                    let score = among[i].match_score_index(cid, words, filters);
                    sum = add_saturating(sum, score);
                    if score > 0 {
                        matching = matching + 1;
                    }
                    i = i + 1;
                }
                proof {
                    assert(among@.subrange(len as int, len as int).len() == 0);
                    assert(view_comps(among@.subrange(len as int, len as int)).len() == 0);
                }
                if matching >= *n {
                    sum
                } else {
                    0
                }
            },
        }
    }
}

impl Query {
    /// Scores the whole query against an approximate filter.
    pub fn match_score(&self, filter: &Filter) -> (r: u32)
        requires
            filter.wf(),
        ensures
            r == spec_match_score(self@, filter.weight_fn()),
    {
        self.root.match_score(filter)
    }
}

/// Two leaf scorings agree on every leaf of `q`: each leaf is scored above
/// zero by one exactly when it is scored above zero by the other.
pub open spec fn leaves_consistent(
    q: QueryCompV,
    leaf1: spec_fn(QueryCompV) -> u32,
    leaf2: spec_fn(QueryCompV) -> u32,
) -> bool
    decreases q,
{
    match q {
        QueryCompV::Word(_) => (leaf1(q) > 0 <==> leaf2(q) > 0),
        QueryCompV::Filter { .. } => (leaf1(q) > 0 <==> leaf2(q) > 0),
        QueryCompV::Not(c) => leaves_consistent(*c, leaf1, leaf2),
        QueryCompV::NAmong { n, among } => forall|i: int|
            0 <= i < among.len() ==> leaves_consistent(#[trigger] among[i], leaf1, leaf2),
    }
}

/// Two evaluations whose leaf scorings agree on every leaf of `q` agree on
/// the presence/absence verdict for the whole of `q`: one scores above zero
/// exactly when the other does.
pub proof fn lemma_eval_agreement(
    q: QueryCompV,
    leaf1: spec_fn(QueryCompV) -> u32,
    leaf2: spec_fn(QueryCompV) -> u32,
)
    requires
        leaves_consistent(q, leaf1, leaf2),
    ensures
        spec_eval(q, leaf1) > 0 <==> spec_eval(q, leaf2) > 0,
    decreases q,
{
    match q {
        QueryCompV::Word(_) => {},
        QueryCompV::Filter { .. } => {},
        QueryCompV::Not(c) => {
            lemma_eval_agreement(*c, leaf1, leaf2);
        },
        QueryCompV::NAmong { n, among } => {
            lemma_eval_seq_agreement(among, leaf1, leaf2);
        },
    }
}

/// Sequence half of [`lemma_eval_agreement`]: consistent leaves make the
/// matching counts equal and the sums agree on positivity.
pub proof fn lemma_eval_seq_agreement(
    s: Seq<QueryCompV>,
    leaf1: spec_fn(QueryCompV) -> u32,
    leaf2: spec_fn(QueryCompV) -> u32,
)
    requires
        forall|i: int| 0 <= i < s.len() ==> leaves_consistent(#[trigger] s[i], leaf1, leaf2),
    ensures
        spec_eval_count(s, leaf1) == spec_eval_count(s, leaf2),
        spec_eval_sum(s, leaf1) > 0 <==> spec_eval_sum(s, leaf2) > 0,
    decreases s,
{
    if s.len() > 0 {
        let rest = s.subrange(1, s.len() as int);
        assert(forall|i: int|
            0 <= i < rest.len() ==> leaves_consistent(#[trigger] rest[i], leaf1, leaf2))
            by {
            assert(forall|i: int| 0 <= i < rest.len() ==> rest[i] == s[i + 1]);
        }
        lemma_eval_agreement(s[0], leaf1, leaf2);
        lemma_eval_seq_agreement(rest, leaf1, leaf2);
    }
}

/// The approximate and the exact evaluation never disagree on whether a
/// document can match: if the filter's weights and the exact index are
/// consistent on every leaf of the query, a score above zero on one side
/// implies a score above zero on the other.
pub proof fn lemma_score_agreement(
    q: QueryCompV,
    w: spec_fn(Seq<char>) -> u32,
    cid: LocalCid,
    words: Seq<WordEntry>,
    filters: Seq<FilterEntry>,
)
    requires
        leaves_consistent(q, filter_leaf(w), index_leaf(cid, words, filters)),
    ensures
        spec_match_score(q, w) > 0 <==> spec_match_score_index(q, cid, words, filters) > 0,
{
    lemma_eval_agreement(q, filter_leaf(w), index_leaf(cid, words, filters));
}

/// A `Word` leaf scores exactly the filter's weight for its term, whatever
/// that weight is, and its negation scores 1 exactly when the weight is 0.
pub proof fn lemma_word_leaf_score(w: spec_fn(Seq<char>) -> u32, x: Seq<char>)
    ensures
        spec_match_score(QueryCompV::Word(x), w) == w(x),
        spec_match_score(QueryCompV::Not(Box::new(QueryCompV::Word(x))), w) == (
        if w(x) == 0 {
            1u32
        } else {
            0u32
        }),
{
    assert(spec_eval(QueryCompV::Word(x), filter_leaf(w)) == w(x));
}

/// Whether `cid` is a candidate for `q`: it is recorded under some positive
/// term or some positive filter of the query.
pub open spec fn spec_candidate(
    q: QueryCompV,
    cid: LocalCid,
    words: Seq<WordEntry>,
    filters: Seq<FilterEntry>,
) -> bool {
    (exists|t: Seq<char>|
        crate::query::spec_positive_terms(q).contains(t) && word_present(words, t, cid)) || (
    exists|p: (Seq<char>, Seq<char>)|
        crate::query::spec_positive_filters(q).contains(p) && filter_present(
            filters,
            p.0,
            p.1,
            cid,
        ))
}

impl Query {
    /// The documents that can match this query, ranked: every candidate
    /// recorded under a positive term or filter is scored against the exact
    /// index once; documents scoring zero are dropped, the rest are listed
    /// exactly once, in non-increasing score order.
    #[verifier::loop_isolation(false)]
    pub fn matching_docs(&self, words: &Vec<WordEntry>, filters: &Vec<FilterEntry>) -> (r: Vec<
        LocalCid,
    >)
        ensures
            forall|i: int|
                0 <= i < r@.len() ==> spec_match_score_index(
                    self@,
                    #[trigger] r@[i],
                    words@,
                    filters@,
                ) > 0,
            forall|i: int, j: int|
                0 <= i <= j < r@.len() ==> spec_match_score_index(self@, r@[i], words@, filters@)
                    >= spec_match_score_index(self@, r@[j], words@, filters@),
            forall|i: int, j: int| 0 <= i < j < r@.len() ==> r@[i] != r@[j],
            forall|cid: LocalCid|
                r@.contains(cid) <==> (spec_candidate(self@, cid, words@, filters@)
                    && spec_match_score_index(self@, cid, words@, filters@) > 0),
    {
        let terms = self.positive_terms();
        let qfilters = self.positive_filters();
        let ghost tv = terms.deep_view();
        let ghost fv = crate::query::view_qfilters(qfilters@);
        proof {
            assert(tv.len() == terms@.len());
            crate::query::lemma_view_qfilters(qfilters@);
        }

        // Gather every document recorded under a positive term or filter,
        // each at most once.
        let mut candidates: Vec<LocalCid> = Vec::new();
        let tn: usize = terms.len();
        let mut ti: usize = 0;
        while ti < tn
            invariant
                0 <= ti <= tn,
                tn == terms@.len(),
                forall|i: int, j: int|
                    0 <= i < j < candidates@.len() ==> candidates@[i] != candidates@[j],
                forall|i: int|
                    0 <= i < candidates@.len() ==> spec_candidate(
                        self@,
                        #[trigger] candidates@[i],
                        words@,
                        filters@,
                    ),
                forall|cid: LocalCid, k: int|
                    0 <= k < ti && word_present(words@, tv[k], cid) ==> candidates@.contains(cid),
            decreases tn - ti,
        {
            proof {
                assert(tv[ti as int] == terms@[ti as int]@);
            }
            match find_word_entry(words, &terms[ti]) {
                Some(e) => {
                    let dn: usize = e.docs.len();
                    let mut di: usize = 0;
                    while di < dn
                        invariant
                            0 <= di <= dn,
                            dn == e.docs@.len(),
                            lookup_word(words@, tv[ti as int]) == Some(e.docs@),
                            forall|i: int, j: int|
                                0 <= i < j < candidates@.len() ==> candidates@[i]
                                    != candidates@[j],
                            forall|i: int|
                                0 <= i < candidates@.len() ==> spec_candidate(
                                    self@,
                                    #[trigger] candidates@[i],
                                    words@,
                                    filters@,
                                ),
                            forall|cid: LocalCid, k: int|
                                0 <= k < ti && word_present(words@, tv[k], cid)
                                    ==> candidates@.contains(cid),
                            forall|j: int| 0 <= j < di ==> candidates@.contains(e.docs@[j]),
                        decreases dn - di,
                    {
                        let cid = e.docs[di];
                        if !docs_contain(&candidates, cid) {
                            let ghost prev = candidates@;
                            candidates.push(cid);
                            proof {
                                assert(word_present(words@, tv[ti as int], cid));
                                assert(spec_positive_terms(self@).contains(tv[ti as int])) by {
                                    assert(spec_positive_terms(self@)[ti as int]
                                        == tv[ti as int]);
                                }
                                assert(spec_candidate(self@, cid, words@, filters@));
                                assert(forall|c: LocalCid|
                                    prev.contains(c) ==> candidates@.contains(c)) by {
                                    assert(forall|i: int|
                                        0 <= i < prev.len() ==> candidates@[i] == prev[i]);
                                }
                                assert(candidates@.contains(cid)) by {
                                    assert(candidates@[candidates@.len() - 1] == cid);
                                }
                            }
                        }
                        di = di + 1;
                    }
                    proof {
                        assert forall|cid: LocalCid, k: int|
                            0 <= k < ti + 1 && word_present(words@, tv[k], cid)
                            implies candidates@.contains(cid) by {
                            if k == ti {
                                assert(e.docs@.contains(cid));
                                let j = choose|j: int| 0 <= j < e.docs@.len() && e.docs@[j] == cid;
                                assert(candidates@.contains(e.docs@[j]));
                            }
                        }
                    }
                },
                None => {
                    proof {
                        assert forall|cid: LocalCid, k: int|
                            0 <= k < ti + 1 && word_present(words@, tv[k], cid)
                            implies candidates@.contains(cid) by {}
                    }
                },
            }
            ti = ti + 1;
        }
        let fn_: usize = qfilters.len();
        let mut fi: usize = 0;
        while fi < fn_
            invariant
                0 <= fi <= fn_,
                fn_ == qfilters@.len(),
                forall|i: int, j: int|
                    0 <= i < j < candidates@.len() ==> candidates@[i] != candidates@[j],
                forall|i: int|
                    0 <= i < candidates@.len() ==> spec_candidate(
                        self@,
                        #[trigger] candidates@[i],
                        words@,
                        filters@,
                    ),
                forall|cid: LocalCid, k: int|
                    0 <= k < tn && word_present(words@, tv[k], cid) ==> candidates@.contains(cid),
                forall|cid: LocalCid, k: int|
                    0 <= k < fi && filter_present(filters@, fv[k].0, fv[k].1, cid)
                        ==> candidates@.contains(cid),
            decreases fn_ - fi,
        {
            proof {
                crate::query::lemma_view_qfilters(qfilters@);
                assert(fv[fi as int] == qfilters@[fi as int]@);
            }
            match find_filter_entry(filters, &qfilters[fi].name, &qfilters[fi].value) {
                Some(e) => {
                    let dn: usize = e.docs.len();
                    let mut di: usize = 0;
                    while di < dn
                        invariant
                            0 <= di <= dn,
                            dn == e.docs@.len(),
                            lookup_filter(filters@, fv[fi as int].0, fv[fi as int].1) == Some(
                                e.docs@,
                            ),
                            forall|i: int, j: int|
                                0 <= i < j < candidates@.len() ==> candidates@[i]
                                    != candidates@[j],
                            forall|i: int|
                                0 <= i < candidates@.len() ==> spec_candidate(
                                    self@,
                                    #[trigger] candidates@[i],
                                    words@,
                                    filters@,
                                ),
                            forall|cid: LocalCid, k: int|
                                0 <= k < tn && word_present(words@, tv[k], cid)
                                    ==> candidates@.contains(cid),
                            forall|cid: LocalCid, k: int|
                                0 <= k < fi && filter_present(filters@, fv[k].0, fv[k].1, cid)
                                    ==> candidates@.contains(cid),
                            forall|j: int| 0 <= j < di ==> candidates@.contains(e.docs@[j]),
                        decreases dn - di,
                    {
                        let cid = e.docs[di];
                        if !docs_contain(&candidates, cid) {
                            let ghost prev = candidates@;
                            candidates.push(cid);
                            proof {
                                assert(filter_present(
                                    filters@,
                                    fv[fi as int].0,
                                    fv[fi as int].1,
                                    cid,
                                ));
                                assert(spec_positive_filters(self@).contains(fv[fi as int])) by {
                                    assert(spec_positive_filters(self@)[fi as int]
                                        == fv[fi as int]);
                                }
                                assert(spec_candidate(self@, cid, words@, filters@));
                                assert(forall|c: LocalCid|
                                    prev.contains(c) ==> candidates@.contains(c)) by {
                                    assert(forall|i: int|
                                        0 <= i < prev.len() ==> candidates@[i] == prev[i]);
                                }
                                assert(candidates@.contains(cid)) by {
                                    assert(candidates@[candidates@.len() - 1] == cid);
                                }
                            }
                        }
                        di = di + 1;
                    }
                    proof {
                        assert forall|cid: LocalCid, k: int|
                            0 <= k < fi + 1 && filter_present(filters@, fv[k].0, fv[k].1, cid)
                            implies candidates@.contains(cid) by {
                            if k == fi {
                                assert(e.docs@.contains(cid));
                                let j = choose|j: int| 0 <= j < e.docs@.len() && e.docs@[j] == cid;
                                assert(candidates@.contains(e.docs@[j]));
                            }
                        }
                    }
                },
                None => {
                    proof {
                        assert forall|cid: LocalCid, k: int|
                            0 <= k < fi + 1 && filter_present(filters@, fv[k].0, fv[k].1, cid)
                            implies candidates@.contains(cid) by {}
                    }
                },
            }
            fi = fi + 1;
        }

        // Score each candidate once; keep positive scores, in non-increasing
        // score order.
        let mut out: Vec<LocalCid> = Vec::new();
        let cn: usize = candidates.len();
        let mut ci: usize = 0;
        while ci < cn
            invariant
                0 <= ci <= cn,
                cn == candidates@.len(),
                forall|i: int, j: int|
                    0 <= i <= j < out@.len() ==> spec_match_score_index(
                        self@,
                        out@[i],
                        words@,
                        filters@,
                    ) >= spec_match_score_index(self@, out@[j], words@, filters@),
                forall|i: int, j: int| 0 <= i < j < out@.len() ==> out@[i] != out@[j],
                forall|cid: LocalCid|
                    out@.contains(cid) <==> (exists|k: int|
                        0 <= k < ci && candidates@[k] == cid && spec_match_score_index(
                            self@,
                            cid,
                            words@,
                            filters@,
                        ) > 0),
            decreases cn - ci,
        {
            let c = candidates[ci];
            let sc = self.root.match_score_index(c, words, filters);
            if sc > 0 {
                let p = self.insert_pos(&out, sc, words, filters);
                let ghost prev = out@;
                out.insert(p, c);
                proof {
                    assert(out@ == prev.insert(p as int, c));
                    assert(out@.len() == prev.len() + 1);
                    assert(forall|k: int| 0 <= k < p ==> out@[k] == prev[k]);
                    assert(out@[p as int] == c);
                    assert(forall|k: int| p < k < out@.len() ==> out@[k] == prev[k - 1]);
                    assert(!prev.contains(c)) by {
                        if prev.contains(c) {
                            let k = choose|k: int|
                                0 <= k < ci && candidates@[k] == c && spec_match_score_index(
                                    self@,
                                    c,
                                    words@,
                                    filters@,
                                ) > 0;
                            assert(candidates@[k] == candidates@[ci as int]);
                        }
                    }
                    assert forall|cid: LocalCid| out@.contains(cid) implies (exists|k: int|
                        0 <= k < ci + 1 && candidates@[k] == cid && spec_match_score_index(
                            self@,
                            cid,
                            words@,
                            filters@,
                        ) > 0) by {
                        let j = choose|j: int| 0 <= j < out@.len() && out@[j] == cid;
                        if j < p {
                            assert(prev.contains(cid)) by {
                                assert(prev[j] == cid);
                            }
                        } else if j == p {
                            assert(candidates@[ci as int] == cid);
                        } else {
                            assert(prev.contains(cid)) by {
                                assert(prev[j - 1] == cid);
                            }
                        }
                    }
                    assert forall|cid: LocalCid| (exists|k: int|
                        0 <= k < ci + 1 && candidates@[k] == cid && spec_match_score_index(
                            self@,
                            cid,
                            words@,
                            filters@,
                        ) > 0) implies out@.contains(cid) by {
                        let k = choose|k: int|
                            0 <= k < ci + 1 && candidates@[k] == cid && spec_match_score_index(
                                self@,
                                cid,
                                words@,
                                filters@,
                            ) > 0;
                        if k < ci {
                            assert(prev.contains(cid));
                            let j = choose|j: int| 0 <= j < prev.len() && prev[j] == cid;
                            if j < p {
                                assert(out@[j] == cid);
                            } else {
                                assert(out@[j + 1] == cid);
                            }
                        } else {
                            assert(out@[p as int] == cid);
                        }
                    }
                }
            } else {
                proof {
                    assert forall|cid: LocalCid| out@.contains(cid) implies (exists|k: int|
                        0 <= k < ci + 1 && candidates@[k] == cid && spec_match_score_index(
                            self@,
                            cid,
                            words@,
                            filters@,
                        ) > 0) by {}
                }
            }
            ci = ci + 1;
        }
        proof {
            assert forall|cid: LocalCid| out@.contains(cid) implies (spec_candidate(
                self@,
                cid,
                words@,
                filters@,
            ) && spec_match_score_index(self@, cid, words@, filters@) > 0) by {
                let k = choose|k: int|
                    0 <= k < cn && candidates@[k] == cid && spec_match_score_index(
                        self@,
                        cid,
                        words@,
                        filters@,
                    ) > 0;
                assert(spec_candidate(self@, candidates@[k], words@, filters@));
            }
            assert forall|cid: LocalCid| (spec_candidate(self@, cid, words@, filters@)
                && spec_match_score_index(self@, cid, words@, filters@) > 0) implies out@.contains(
                cid,
            ) by {
                if exists|t: Seq<char>|
                    spec_positive_terms(self@).contains(t) && word_present(words@, t, cid) {
                    let t = choose|t: Seq<char>|
                        spec_positive_terms(self@).contains(t) && word_present(words@, t, cid);
                    let k = choose|k: int|
                        0 <= k < tv.len() && tv[k] == t;
                    assert(word_present(words@, tv[k], cid));
                    assert(candidates@.contains(cid));
                } else {
                    let pr = choose|pr: (Seq<char>, Seq<char>)|
                        spec_positive_filters(self@).contains(pr) && filter_present(
                            filters@,
                            pr.0,
                            pr.1,
                            cid,
                        );
                    let k = choose|k: int| 0 <= k < fv.len() && fv[k] == pr;
                    assert(filter_present(filters@, fv[k].0, fv[k].1, cid));
                    assert(candidates@.contains(cid));
                }
                let j = choose|j: int| 0 <= j < candidates@.len() && candidates@[j] == cid;
                assert(candidates@[j] == cid);
            }
            assert forall|i: int| 0 <= i < out@.len() implies spec_match_score_index(
                self@,
                #[trigger] out@[i],
                words@,
                filters@,
            ) > 0 by {
                assert(out@.contains(out@[i]));
            }
        }
        out
    }

    /// The position at which a document with score `sc` is inserted to keep
    /// the ranking non-increasing: after every document scoring at least
    /// `sc`, before the first scoring strictly less.
    #[verifier::loop_isolation(false)]
    fn insert_pos(
        &self,
        out: &Vec<LocalCid>,
        sc: u32,
        words: &Vec<WordEntry>,
        filters: &Vec<FilterEntry>,
    ) -> (p: usize)
        requires
            forall|i: int, j: int|
                0 <= i <= j < out@.len() ==> spec_match_score_index(self@, out@[i], words@, filters@)
                    >= spec_match_score_index(self@, out@[j], words@, filters@),
        ensures
            p <= out@.len(),
            forall|k: int|
                0 <= k < p ==> spec_match_score_index(self@, out@[k], words@, filters@) >= sc,
            forall|k: int|
                p <= k < out@.len() ==> spec_match_score_index(self@, out@[k], words@, filters@)
                    < sc,
    {
        let n: usize = out.len();
        let mut p: usize = 0;
        loop
            invariant
                0 <= p <= n,
                forall|k: int|
                    0 <= k < p ==> spec_match_score_index(self@, out@[k], words@, filters@) >= sc,
            decreases n - p,
        {
            if p == n {
                return p;
            }
            let sp = self.root.match_score_index(out[p], words, filters);
            if sp < sc {
                return p;
            }
            p = p + 1;
        }
    }
}

} // verus!
