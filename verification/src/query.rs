//! The boolean query tree: leaves name terms or `name=value` filters,
//! combinators negate or demand that at least `n` children match.

use vstd::prelude::*;
use crate::text::{spec_tokenize, tokenize};

verus! {

/// One component of a boolean query expression.
pub enum QueryComp {
    /// Matches documents containing the given term.
    Word(String),
    /// Matches documents carrying the named filter with the given value.
    Filter { name: String, value: String },
    /// Boolean inversion of the child component.
    Not(Box<QueryComp>),
    /// Matches when at least `n` of the children match.
    NAmong { n: usize, among: Vec<QueryComp> },
}

/// Mathematical model of a [`QueryComp`]: the same tree over `Seq<char>`.
pub enum QueryCompV {
    Word(Seq<char>),
    Filter { name: Seq<char>, value: Seq<char> },
    Not(Box<QueryCompV>),
    NAmong { n: int, among: Seq<QueryCompV> },
}

/// Model view of a sequence of components.
pub open spec fn view_comps(s: Seq<QueryComp>) -> Seq<QueryCompV>
    decreases s,
{
    if s.len() == 0 {
        Seq::empty()
    } else {
        seq![s[0]@] + view_comps(s.subrange(1, s.len() as int))
    }
}

impl View for QueryComp {
    type V = QueryCompV;

    open spec fn view(&self) -> QueryCompV
        decreases self,
    {
        match self {
            QueryComp::Word(w) => QueryCompV::Word(w@),
            QueryComp::Filter { name, value } => QueryCompV::Filter {
                name: name@,
                value: value@,
            },
            QueryComp::Not(c) => QueryCompV::Not(Box::new((**c)@)),
            QueryComp::NAmong { n, among } => QueryCompV::NAmong {
                n: *n as int,
                among: view_comps(among@),
            },
        }
    }
}

/// A whole query: the root of a component tree.
pub struct Query {
    pub root: QueryComp,
}

impl View for Query {
    type V = QueryCompV;

    open spec fn view(&self) -> QueryCompV {
        self.root@
    }
}

/// The length of `view_comps` matches the input, and each element is the
/// view of the corresponding component.
pub proof fn lemma_view_comps(s: Seq<QueryComp>)
    ensures
        view_comps(s).len() == s.len(),
        forall|i: int| 0 <= i < s.len() ==> view_comps(s)[i] == #[trigger] s[i]@,
    decreases s,
{
    if s.len() > 0 {
        let rest = s.subrange(1, s.len() as int);
        assert(view_comps(s) == seq![s[0]@] + view_comps(rest));
        lemma_view_comps(rest);
        assert forall|i: int| 0 <= i < s.len() implies view_comps(s)[i] == #[trigger] s[i]@ by {
            if i > 0 {
                assert(rest[i - 1] == s[i]);
                assert(view_comps(s)[i] == view_comps(rest)[i - 1]);
            }
        }
    }
}

/// A `name=value` pair as it occurs in a query leaf.
pub struct QueryFilter {
    pub name: String,
    pub value: String,
}

impl View for QueryFilter {
    type V = (Seq<char>, Seq<char>);

    open spec fn view(&self) -> (Seq<char>, Seq<char>) {
        (self.name@, self.value@)
    }
}

/// Model view of a sequence of query filters.
pub open spec fn view_qfilters(s: Seq<QueryFilter>) -> Seq<(Seq<char>, Seq<char>)>
    decreases s,
{
    if s.len() == 0 {
        Seq::empty()
    } else {
        seq![s[0]@] + view_qfilters(s.subrange(1, s.len() as int))
    }
}

/// The positive terms of a query: the terms of every `Word` leaf that does
/// not stand underneath a `Not`, in tree order.
pub open spec fn spec_positive_terms(q: QueryCompV) -> Seq<Seq<char>>
    decreases q,
{
    match q {
        QueryCompV::Word(t) => seq![t],
        QueryCompV::Filter { .. } => Seq::empty(),
        QueryCompV::Not(_) => Seq::empty(),
        QueryCompV::NAmong { n, among } => spec_positive_terms_seq(among),
    }
}

/// The positive terms of a sequence of components, concatenated in order.
pub open spec fn spec_positive_terms_seq(s: Seq<QueryCompV>) -> Seq<Seq<char>>
    decreases s,
{
    if s.len() == 0 {
        Seq::empty()
    } else {
        spec_positive_terms(s[0]) + spec_positive_terms_seq(s.subrange(1, s.len() as int))
    }
}

/// The positive filters of a query: the `name=value` pairs of every
/// `Filter` leaf that does not stand underneath a `Not`, in tree order.
pub open spec fn spec_positive_filters(q: QueryCompV) -> Seq<(Seq<char>, Seq<char>)>
    decreases q,
{
    match q {
        QueryCompV::Word(_) => Seq::empty(),
        QueryCompV::Filter { name, value } => seq![(name, value)],
        QueryCompV::Not(_) => Seq::empty(),
        QueryCompV::NAmong { n, among } => spec_positive_filters_seq(among),
    }
}

/// The positive filters of a sequence of components, concatenated in order.
pub open spec fn spec_positive_filters_seq(s: Seq<QueryCompV>) -> Seq<(Seq<char>, Seq<char>)>
    decreases s,
{
    if s.len() == 0 {
        Seq::empty()
    } else {
        spec_positive_filters(s[0]) + spec_positive_filters_seq(s.subrange(1, s.len() as int))
    }
}

impl QueryComp {
    /// Appends the positive terms of this component to `out`, in tree order.
    #[verifier::loop_isolation(false)]
    pub fn positive_terms_into(&self, out: &mut Vec<String>)
        ensures
            final(out).deep_view() == old(out).deep_view() + spec_positive_terms(self@),
        decreases self,
    {
        match self {
            QueryComp::Word(t) => {
                out.push(t.clone());
                proof {
                    assert(final(out).deep_view() =~= old(out).deep_view() + spec_positive_terms(
                        self@,
                    ));
                }
            },
            QueryComp::Filter { .. } => {
                proof {
                    assert(final(out).deep_view() =~= old(out).deep_view());
                }
            },
            QueryComp::Not(_) => {
                proof {
                    assert(final(out).deep_view() =~= old(out).deep_view());
                }
            },
            QueryComp::NAmong { n, among } => {
                let len: usize = among.len();
                let mut i: usize = 0;
                proof {
                    lemma_view_comps(among@);
                    assert(among@.subrange(0, len as int) =~= among@);
                }
                while i < len
                    invariant
                        0 <= i <= len,
                        out.deep_view() + spec_positive_terms_seq(
                            view_comps(among@.subrange(i as int, len as int)),
                        ) == old(out).deep_view() + spec_positive_terms(self@),
                    decreases len - i,
                {
                    proof {
                        let suffix = among@.subrange(i as int, len as int);
                        lemma_view_comps(suffix);
                        assert(suffix.subrange(1, suffix.len() as int) =~= among@.subrange(
                            i + 1,
                            len as int,
                        ));
                        assert(view_comps(suffix).subrange(1, view_comps(suffix).len() as int)
                            =~= view_comps(among@.subrange(i + 1, len as int))) by {
                            lemma_view_comps(among@.subrange(i + 1, len as int));
                            assert(view_comps(suffix) == seq![suffix[0]@] + view_comps(
                                suffix.subrange(1, suffix.len() as int),
                            ));
                        }
                        assert(view_comps(suffix)[0] == among@[i as int]@);
                        assert((*self)->among == *among);
                        assert(decreases_to!(*self => (*self)->among));
                        assert(decreases_to!(*among => among@));
                        assert(decreases_to!(among@ => among@[i as int]));
                        assert(decreases_to!(*self => among@[i as int]));
                    }
                    let ghost prev = out.deep_view();
                    among[i].positive_terms_into(out);
                    proof {
                        assert(out.deep_view() + spec_positive_terms_seq(
                            view_comps(among@.subrange(i + 1, len as int)),
                        ) =~= prev + spec_positive_terms(among@[i as int]@)
                            + spec_positive_terms_seq(
                            view_comps(among@.subrange(i + 1, len as int)),
                        ));
                        assert(prev + spec_positive_terms(among@[i as int]@)
                            + spec_positive_terms_seq(
                            view_comps(among@.subrange(i + 1, len as int)),
                        ) =~= prev + spec_positive_terms_seq(
                            view_comps(among@.subrange(i as int, len as int)),
                        ));
                    }
                    i = i + 1;
                }
                proof {
                    assert(view_comps(among@.subrange(len as int, len as int)).len() == 0);
                    assert(out.deep_view() + spec_positive_terms_seq(
                        view_comps(among@.subrange(len as int, len as int)),
                    ) =~= out.deep_view());
                }
            },
        }
    }

    /// Appends the positive filters of this component to `out`, in tree order.
    #[verifier::loop_isolation(false)]
    pub fn positive_filters_into(&self, out: &mut Vec<QueryFilter>)
        ensures
            view_qfilters(final(out)@) == view_qfilters(old(out)@) + spec_positive_filters(self@),
        decreases self,
    {
        match self {
            QueryComp::Word(_) => {
                proof {
                    assert(view_qfilters(final(out)@) =~= view_qfilters(old(out)@));
                }
            },
            QueryComp::Filter { name, value } => {
                let ghost prev = out@;
                out.push(QueryFilter { name: name.clone(), value: value.clone() });
                proof {
                    lemma_view_qfilters_push(prev, out@[out@.len() - 1]);
                    assert(view_qfilters(out@) =~= view_qfilters(prev) + spec_positive_filters(
                        self@,
                    ));
                }
            },
            QueryComp::Not(_) => {
                proof {
                    assert(view_qfilters(final(out)@) =~= view_qfilters(old(out)@));
                }
            },
            QueryComp::NAmong { n, among } => {
                let len: usize = among.len();
                let mut i: usize = 0;
                proof {
                    lemma_view_comps(among@);
                    assert(among@.subrange(0, len as int) =~= among@);
                }
                while i < len
                    invariant
                        0 <= i <= len,
                        view_qfilters(out@) + spec_positive_filters_seq(
                            view_comps(among@.subrange(i as int, len as int)),
                        ) == view_qfilters(old(out)@) + spec_positive_filters(self@),
                    decreases len - i,
                {
                    proof {
                        let suffix = among@.subrange(i as int, len as int);
                        lemma_view_comps(suffix);
                        assert(suffix.subrange(1, suffix.len() as int) =~= among@.subrange(
                            i + 1,
                            len as int,
                        ));
                        assert(view_comps(suffix).subrange(1, view_comps(suffix).len() as int)
                            =~= view_comps(among@.subrange(i + 1, len as int))) by {
                            lemma_view_comps(among@.subrange(i + 1, len as int));
                            assert(view_comps(suffix) == seq![suffix[0]@] + view_comps(
                                suffix.subrange(1, suffix.len() as int),
                            ));
                        }
                        assert(view_comps(suffix)[0] == among@[i as int]@);
                        assert((*self)->among == *among);
                        assert(decreases_to!(*self => (*self)->among));
                        assert(decreases_to!(*among => among@));
                        assert(decreases_to!(among@ => among@[i as int]));
                        assert(decreases_to!(*self => among@[i as int]));
                    }
                    let ghost prev = view_qfilters(out@);
                    among[i].positive_filters_into(out);
                    proof {
                        assert(view_qfilters(out@) + spec_positive_filters_seq(
                            view_comps(among@.subrange(i + 1, len as int)),
                        ) =~= prev + spec_positive_filters(among@[i as int]@)
                            + spec_positive_filters_seq(
                            view_comps(among@.subrange(i + 1, len as int)),
                        ));
                        assert(prev + spec_positive_filters(among@[i as int]@)
                            + spec_positive_filters_seq(
                            view_comps(among@.subrange(i + 1, len as int)),
                        ) =~= prev + spec_positive_filters_seq(
                            view_comps(among@.subrange(i as int, len as int)),
                        ));
                    }
                    i = i + 1;
                }
                proof {
                    assert(view_comps(among@.subrange(len as int, len as int)).len() == 0);
                    assert(view_qfilters(out@) + spec_positive_filters_seq(
                        view_comps(among@.subrange(len as int, len as int)),
                    ) =~= view_qfilters(out@));
                }
            },
        }
    }
}

/// Appending one filter appends its view.
pub proof fn lemma_view_qfilters_push(s: Seq<QueryFilter>, f: QueryFilter)
    ensures
        view_qfilters(s.push(f)) == view_qfilters(s) + seq![f@],
    decreases s,
{
    if s.len() == 0 {
        assert(s.push(f).subrange(1, s.push(f).len() as int) =~= Seq::<QueryFilter>::empty());
        assert(view_qfilters(Seq::<QueryFilter>::empty()) =~= Seq::<(Seq<char>, Seq<char>)>::empty());
        assert(s.push(f)[0] == f);
        assert(view_qfilters(s.push(f)) == seq![s.push(f)[0]@] + view_qfilters(
            s.push(f).subrange(1, s.push(f).len() as int),
        ));
        assert(view_qfilters(s.push(f)) =~= view_qfilters(s) + seq![f@]);
    } else {
        let t = s.subrange(1, s.len() as int);
        assert(s.push(f).subrange(1, s.push(f).len() as int) =~= t.push(f));
        lemma_view_qfilters_push(t, f);
        assert(view_qfilters(s.push(f)) == seq![s.push(f)[0]@] + view_qfilters(t.push(f)));
        assert(s.push(f)[0] == s[0]);
        assert(view_qfilters(s.push(f)) =~= seq![s[0]@] + (view_qfilters(t) + seq![f@]));
        assert(view_qfilters(s) == seq![s[0]@] + view_qfilters(t));
        assert(view_qfilters(s.push(f)) =~= view_qfilters(s) + seq![f@]);
    }
}

impl Query {
    /// The positive terms of the whole query, in tree order.
    pub fn positive_terms(&self) -> (r: Vec<String>)
        ensures
            r.deep_view() == spec_positive_terms(self@),
    {
        let mut out: Vec<String> = Vec::new();
        proof {
            assert(out.deep_view() =~= Seq::<Seq<char>>::empty());
        }
        self.root.positive_terms_into(&mut out);
        proof {
            assert(out.deep_view() =~= spec_positive_terms(self@));
        }
        out
    }

    /// The positive filters of the whole query, in tree order.
    pub fn positive_filters(&self) -> (r: Vec<QueryFilter>)
        ensures
            view_qfilters(r@) == spec_positive_filters(self@),
    {
        let mut out: Vec<QueryFilter> = Vec::new();
        proof {
            assert(view_qfilters(out@) =~= Seq::<(Seq<char>, Seq<char>)>::empty());
        }
        self.root.positive_filters_into(&mut out);
        proof {
            assert(view_qfilters(out@) =~= spec_positive_filters(self@));
        }
        out
    }
}

/// The length of `view_qfilters` matches the input, and each element is
/// the view of the corresponding filter.
pub proof fn lemma_view_qfilters(s: Seq<QueryFilter>)
    ensures
        view_qfilters(s).len() == s.len(),
        forall|i: int| 0 <= i < s.len() ==> view_qfilters(s)[i] == #[trigger] s[i]@,
    decreases s,
{
    if s.len() > 0 {
        let rest = s.subrange(1, s.len() as int);
        assert(view_qfilters(s) == seq![s[0]@] + view_qfilters(rest));
        lemma_view_qfilters(rest);
        assert forall|i: int| 0 <= i < s.len() implies view_qfilters(s)[i] == #[trigger] s[i]@ by {
            if i > 0 {
                assert(rest[i - 1] == s[i]);
                assert(view_qfilters(s)[i] == view_qfilters(rest)[i - 1]);
            }
        }
    }
}

/// Appending one component appends its view.
pub proof fn lemma_view_comps_push(s: Seq<QueryComp>, c: QueryComp)
    ensures
        view_comps(s.push(c)) == view_comps(s) + seq![c@],
    decreases s,
{
    if s.len() == 0 {
        assert(s.push(c).subrange(1, s.push(c).len() as int) =~= Seq::<QueryComp>::empty());
        assert(view_comps(Seq::<QueryComp>::empty()) =~= Seq::<QueryCompV>::empty());
        assert(s.push(c)[0] == c);
        assert(view_comps(s.push(c)) == seq![s.push(c)[0]@] + view_comps(
            s.push(c).subrange(1, s.push(c).len() as int),
        ));
        assert(view_comps(s.push(c)) =~= view_comps(s) + seq![c@]);
    } else {
        let t = s.subrange(1, s.len() as int);
        assert(s.push(c).subrange(1, s.push(c).len() as int) =~= t.push(c));
        lemma_view_comps_push(t, c);
        assert(view_comps(s.push(c)) == seq![s.push(c)[0]@] + view_comps(t.push(c)));
        assert(s.push(c)[0] == s[0]);
        assert(view_comps(s.push(c)) =~= seq![s[0]@] + (view_comps(t) + seq![c@]));
        assert(view_comps(s) == seq![s[0]@] + view_comps(t));
        assert(view_comps(s.push(c)) =~= view_comps(s) + seq![c@]);
    }
}

impl Query {
    /// Builds the query for a free-text search: the text is tokenized and
    /// every token becomes a `Word` leaf that must match (`NAmong` with
    /// the full token count as threshold).
    #[verifier::loop_isolation(false)]
    pub fn from_text(text: &str) -> (r: Query)
        ensures
            r@ == (QueryCompV::NAmong {
                n: spec_tokenize(text@).len() as int,
                among: Seq::new(
                    spec_tokenize(text@).len(),
                    |i: int| QueryCompV::Word(spec_tokenize(text@)[i]),
                ),
            }),
    {
        let ghost tv = spec_tokenize(text@);
        let words = tokenize(text);
        let n: usize = words.len();
        let mut among: Vec<QueryComp> = Vec::new();
        let mut i: usize = 0;
        proof {
            assert(tv.len() == words@.len());
        }
        while i < n
            invariant
                0 <= i <= n,
                among@.len() == i,
                forall|k: int|
                    0 <= k < i ==> #[trigger] among@[k]@ == QueryCompV::Word(tv[k]),
            decreases n - i,
        {
            proof {
                assert(tv[i as int] == words@[i as int]@);
            }
            among.push(QueryComp::Word(words[i].clone()));
            i = i + 1;
        }
        let r = Query { root: QueryComp::NAmong { n, among } };
        proof {
            lemma_view_comps(r.root->among@);
            assert forall|k: int| 0 <= k < tv.len() implies view_comps(r.root->among@)[k]
                == QueryCompV::Word(tv[k]) by {
                assert(view_comps(r.root->among@)[k] == r.root->among@[k]@);
            }
            assert(view_comps(r.root->among@) =~= Seq::new(
                tv.len(),
                |i: int| QueryCompV::Word(tv[i]),
            ));
        }
        r
    }
}

} // verus!
