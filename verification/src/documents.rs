//! The relevance extractor: turns a parsed document tree into indexable
//! words and, given a query, into a scored summary. Markup parsing itself
//! is an outside concern; the extractor works on an already-built element
//! tree and degrades gracefully on strange shapes — a document is only
//! rejected by the two explicit conditions in
//! [`HtmlDocument::into_result`].

use vstd::prelude::*;
use vstd::string::{StrSliceExecFns, StringExecFns};
use crate::query::{Query, spec_positive_terms};
use crate::text::{spec_tokenize, tokenize};
use crate::wordcount::{Emphasis, WordCount, spec_record};

verus! {

/// One attribute of an element.
pub struct Attr {
    pub name: String,
    pub value: String,
}

/// A node of a parsed document tree.
pub enum Node {
    /// An element: tag name, attributes, children in document order.
    Element { name: String, attrs: Vec<Attr>, children: Vec<Node> },
    /// A text run.
    Text(String),
}

/// The text runs under a node, in document order.
pub open spec fn spec_texts(n: Node) -> Seq<Seq<char>>
    decreases n,
{
    match n {
        Node::Text(t) => seq![t@],
        Node::Element { name, attrs, children } => spec_texts_seq(children@),
    }
}

/// The text runs under each node of a sequence, concatenated.
pub open spec fn spec_texts_seq(s: Seq<Node>) -> Seq<Seq<char>>
    decreases s,
{
    if s.len() == 0 {
        Seq::empty()
    } else {
        spec_texts(s[0]) + spec_texts_seq(s.subrange(1, s.len() as int))
    }
}

/// Text runs joined with single spaces.
pub open spec fn spec_join(parts: Seq<Seq<char>>) -> Seq<char> {
    if parts.len() == 0 {
        Seq::empty()
    } else {
        parts[0] + spec_join_tail(parts.subrange(1, parts.len() as int))
    }
}

/// The remaining parts of a join, each preceded by one space.
pub open spec fn spec_join_tail(parts: Seq<Seq<char>>) -> Seq<char>
    decreases parts,
{
    if parts.len() == 0 {
        Seq::empty()
    } else {
        " "@ + parts[0] + spec_join_tail(parts.subrange(1, parts.len() as int))
    }
}

/// The first element with the given tag name, depth-first.
pub open spec fn spec_find(n: Node, tag: Seq<char>) -> Option<Node>
    decreases n,
{
    match n {
        Node::Text(_) => None,
        Node::Element { name, attrs, children } => if name@ == tag {
            Some(n)
        } else {
            spec_find_seq(children@, tag)
        },
    }
}

/// The first element with the given tag name in a sequence of trees.
pub open spec fn spec_find_seq(s: Seq<Node>, tag: Seq<char>) -> Option<Node>
    decreases s,
{
    if s.len() == 0 {
        None
    } else {
        match spec_find(s[0], tag) {
            Some(e) => Some(e),
            None => spec_find_seq(s.subrange(1, s.len() as int), tag),
        }
    }
}

/// The value of the first attribute with the given name.
pub open spec fn spec_attr(attrs: Seq<Attr>, key: Seq<char>) -> Option<Seq<char>>
    decreases attrs,
{
    if attrs.len() == 0 {
        None
    } else if attrs[0].name@ == key {
        Some(attrs[0].value@)
    } else {
        spec_attr(attrs.subrange(1, attrs.len() as int), key)
    }
}

/// Whether `c` is ASCII whitespace.
pub open spec fn spec_is_space(c: char) -> bool {
    c == ' ' || c == '\t' || c == '\n' || c == '\r' || c == '\x0C'
}

/// Whether a string holds nothing but whitespace.
pub open spec fn spec_blank(s: Seq<char>) -> bool {
    forall|i: int| 0 <= i < s.len() ==> spec_is_space(#[trigger] s[i])
}

/// Appends the text runs under `n` to `out`.
#[verifier::loop_isolation(false)]
pub fn collect_texts(n: &Node, out: &mut Vec<String>)
    ensures
        final(out).deep_view() == old(out).deep_view() + spec_texts(*n),
    decreases n,
{
    match n {
        Node::Text(t) => {
            out.push(t.clone());
            proof {
                assert(final(out).deep_view() =~= old(out).deep_view() + spec_texts(*n));
            }
        },
        Node::Element { name, attrs, children } => {
            let len: usize = children.len();
            let mut i: usize = 0;
            proof {
                assert(children@.subrange(0, len as int) =~= children@);
            }
            while i < len
                invariant
                    0 <= i <= len,
                    out.deep_view() + spec_texts_seq(children@.subrange(i as int, len as int))
                        == old(out).deep_view() + spec_texts(*n),
                decreases len - i,
            {
                proof {
                    let suffix = children@.subrange(i as int, len as int);
                    assert(suffix.subrange(1, suffix.len() as int) =~= children@.subrange(
                        i + 1,
                        len as int,
                    ));
                    assert(suffix[0] == children@[i as int]);
                    assert((*n)->children == *children);
                    assert(decreases_to!(*n => (*n)->children));
                    assert(decreases_to!(*children => children@));
                    assert(decreases_to!(children@ => children@[i as int]));
                    assert(decreases_to!(*n => children@[i as int]));
                }
                let ghost prev = out.deep_view();
                collect_texts(&children[i], out);
                proof {
                    assert(out.deep_view() + spec_texts_seq(
                        children@.subrange(i + 1, len as int),
                    ) =~= prev + (spec_texts(children@[i as int]) + spec_texts_seq(
                        children@.subrange(i + 1, len as int),
                    )));
                    assert(prev + (spec_texts(children@[i as int]) + spec_texts_seq(
                        children@.subrange(i + 1, len as int),
                    )) =~= prev + spec_texts_seq(children@.subrange(i as int, len as int)));
                }
                i = i + 1;
            }
            proof {
                assert(spec_texts_seq(children@.subrange(len as int, len as int)).len() == 0);
                assert(out.deep_view() + spec_texts_seq(
                    children@.subrange(len as int, len as int),
                ) =~= out.deep_view());
            }
        },
    }
}

/// Joins text runs with single spaces.
#[verifier::loop_isolation(false)]
pub fn join_spaces(parts: &Vec<String>) -> (r: String)
    ensures
        r@ == spec_join(parts.deep_view()),
{
    let ghost pv = parts.deep_view();
    let mut acc = String::new();
    let len: usize = parts.len();
    proof {
        assert(pv.len() == parts@.len());
    }
    if len == 0 {
        proof {
            assert(acc@ =~= spec_join(pv));
        }
        return acc;
    }
    acc.append(parts[0].as_str());
    let mut i: usize = 1;
    proof {
        assert(pv.subrange(1, len as int) =~= pv.subrange(1, pv.len() as int));
        assert(acc@ + spec_join_tail(pv.subrange(i as int, len as int)) =~= spec_join(pv));
    }
    while i < len
        invariant
            1 <= i <= len,
            acc@ + spec_join_tail(pv.subrange(i as int, len as int)) == spec_join(pv),
        decreases len - i,
    {
        proof {
            let suffix = pv.subrange(i as int, len as int);
            assert(suffix.subrange(1, suffix.len() as int) =~= pv.subrange(i + 1, len as int));
            assert(suffix[0] == pv[i as int]);
            assert(pv[i as int] == parts@[i as int]@);
        }
        let ghost prev = acc@;
        acc.append(" ");
        acc.append(parts[i].as_str());
        proof {
            assert(acc@ + spec_join_tail(pv.subrange(i + 1, len as int)) =~= prev + (" "@
                + pv[i as int] + spec_join_tail(pv.subrange(i + 1, len as int))));
            assert(prev + (" "@ + pv[i as int] + spec_join_tail(pv.subrange(i + 1, len as int)))
                =~= prev + spec_join_tail(pv.subrange(i as int, len as int)));
        }
        i = i + 1;
    }
    proof {
        assert(spec_join_tail(pv.subrange(len as int, len as int)).len() == 0);
        assert(acc@ + spec_join_tail(pv.subrange(len as int, len as int)) =~= acc@);
    }
    acc
}

/// Finds the first element with the given tag name, depth-first.
#[verifier::loop_isolation(false)]
pub fn find_element<'a>(n: &'a Node, tag: &String) -> (r: Option<&'a Node>)
    ensures
        match r {
            Some(e) => spec_find(*n, tag@) == Some(*e),
            None => spec_find(*n, tag@) is None,
        },
    decreases n,
{
    match n {
        Node::Text(_) => None,
        Node::Element { name, attrs, children } => {
            if *name == *tag {
                return Some(n);
            }
            let len: usize = children.len();
            let mut i: usize = 0;
            proof {
                assert(children@.subrange(0, len as int) =~= children@);
            }
            while i < len
                invariant
                    0 <= i <= len,
                    spec_find(*n, tag@) == spec_find_seq(
                        children@.subrange(i as int, len as int),
                        tag@,
                    ),
                decreases len - i,
            {
                proof {
                    let suffix = children@.subrange(i as int, len as int);
                    assert(suffix.subrange(1, suffix.len() as int) =~= children@.subrange(
                        i + 1,
                        len as int,
                    ));
                    assert(suffix[0] == children@[i as int]);
                    assert((*n)->children == *children);
                    assert(decreases_to!(*n => (*n)->children));
                    assert(decreases_to!(*children => children@));
                    assert(decreases_to!(children@ => children@[i as int]));
                    assert(decreases_to!(*n => children@[i as int]));
                }
                match find_element(&children[i], tag) {
                    Some(e) => {
                        return Some(e);
                    },
                    None => {},
                }
                i = i + 1;
            }
            proof {
                assert(spec_find_seq(children@.subrange(len as int, len as int), tag@) is None);
            }
            None
        },
    }
}

/// The value of the first attribute with the given name.
#[verifier::loop_isolation(false)]
pub fn attr_value<'a>(attrs: &'a Vec<Attr>, key: &String) -> (r: Option<&'a String>)
    ensures
        match r {
            Some(v) => spec_attr(attrs@, key@) == Some(v@),
            None => spec_attr(attrs@, key@) is None,
        },
{
    let len: usize = attrs.len();
    let mut i: usize = 0;
    proof {
        assert(attrs@.subrange(0, len as int) =~= attrs@);
    }
    while i < len
        invariant
            0 <= i <= len,
            spec_attr(attrs@, key@) == spec_attr(attrs@.subrange(i as int, len as int), key@),
        decreases len - i,
    {
        proof {
            let suffix = attrs@.subrange(i as int, len as int);
            assert(suffix.subrange(1, suffix.len() as int) =~= attrs@.subrange(i + 1, len as int));
            assert(suffix[0] == attrs@[i as int]);
        }
        if attrs[i].name == *key {
            return Some(&attrs[i].value);
        }
        i = i + 1;
    }
    proof {
        assert(spec_attr(attrs@.subrange(len as int, len as int), key@) is None);
    }
    None
}

/// Whether the string holds nothing but whitespace.
#[verifier::loop_isolation(false)]
pub fn is_blank(s: &String) -> (r: bool)
    ensures
        r == spec_blank(s@),
{
    let n: usize = s.as_str().unicode_len();
    let mut i: usize = 0;
    while i < n
        invariant
            0 <= i <= n,
            forall|k: int| 0 <= k < i ==> spec_is_space(#[trigger] s@[k]),
        decreases n - i,
    {
        let c = s.as_str().get_char(i);
        if !(c == ' ' || c == '\t' || c == '\n' || c == '\r' || c == '\x0C') {
            return false;
        }
        i = i + 1;
    }
    true
}

/// The document title: the joined text of the first `title` element, if
/// it is non-blank.
pub open spec fn spec_title(root: Node) -> Option<Seq<char>> {
    match spec_find(root, "title"@) {
        Some(el) => {
            let t = spec_join(spec_texts(el));
            if spec_blank(t) {
                None
            } else {
                Some(t)
            }
        },
        None => None,
    }
}

/// The first-level heading: the joined text of the first `h1` element, if
/// it is non-blank.
pub open spec fn spec_h1(root: Node) -> Option<Seq<char>> {
    match spec_find(root, "h1"@) {
        Some(el) => {
            let t = spec_join(spec_texts(el));
            if spec_blank(t) {
                None
            } else {
                Some(t)
            }
        },
        None => None,
    }
}

/// The first `meta` element whose `name` attribute is `description`.
pub open spec fn spec_find_meta(n: Node) -> Option<Node>
    decreases n,
{
    match n {
        Node::Text(_) => None,
        Node::Element { name, attrs, children } => if name@ == "meta"@ && spec_attr(
            attrs@,
            "name"@,
        ) == Some("description"@) {
            Some(n)
        } else {
            spec_find_meta_seq(children@)
        },
    }
}

/// The first description `meta` element in a sequence of trees.
pub open spec fn spec_find_meta_seq(s: Seq<Node>) -> Option<Node>
    decreases s,
{
    if s.len() == 0 {
        None
    } else {
        match spec_find_meta(s[0]) {
            Some(e) => Some(e),
            None => spec_find_meta_seq(s.subrange(1, s.len() as int)),
        }
    }
}

/// The meta description: the `content` attribute of the first
/// `meta[name=description]` element, if both exist.
pub open spec fn spec_description(root: Node) -> Option<Seq<char>> {
    match spec_find_meta(root) {
        Some(el) => spec_attr(el->attrs@, "content"@),
        None => None,
    }
}

/// The text runs under the first `body` element, in document order.
pub open spec fn spec_fragments(root: Node) -> Seq<Seq<char>> {
    match spec_find(root, "body"@) {
        Some(b) => spec_texts(b),
        None => Seq::empty(),
    }
}

/// Whether a text run can serve as the extract: strictly between 50 and
/// 350 characters.
pub open spec fn spec_eligible(t: Seq<char>) -> bool {
    50 < t.len() < 350
}

/// How many of the given terms occur among the tokens.
pub open spec fn spec_score_terms(pt: Seq<Seq<char>>, toks: Seq<Seq<char>>) -> int
    decreases pt,
{
    if pt.len() == 0 {
        0int
    } else {
        (if toks.contains(pt[0]) {
            1int
        } else {
            0int
        }) + spec_score_terms(pt.subrange(1, pt.len() as int), toks)
    }
}

/// An integer clipped into `u64` range.
pub open spec fn clamp64(x: int) -> u64 {
    if x > u64::MAX {
        u64::MAX
    } else if x < 0 {
        0u64
    } else {
        x as u64
    }
}

/// The relevance score of a text run before clipping: 4 when its first
/// token is a positive term, plus 1 for each positive term among the
/// remaining tokens; 0 when it has no tokens.
pub open spec fn spec_extract_score_raw(t: Seq<char>, pt: Seq<Seq<char>>) -> int {
    let toks = spec_tokenize(t);
    if toks.len() == 0 {
        0int
    } else {
        (if pt.contains(toks[0]) {
            4int
        } else {
            0int
        }) + spec_score_terms(pt, toks.subrange(1, toks.len() as int))
    }
}

/// The relevance score of a text run, clipped into `u64` range.
pub open spec fn spec_extract_score(t: Seq<char>, pt: Seq<Seq<char>>) -> u64 {
    clamp64(spec_extract_score_raw(t, pt))
}

/// The best extract among the fragments: the highest positive score wins,
/// the earliest fragment on ties.
pub open spec fn spec_best(frags: Seq<Seq<char>>, pt: Seq<Seq<char>>) -> (u64, Seq<char>)
    decreases frags,
{
    if frags.len() == 0 {
        (0u64, Seq::empty())
    } else {
        let prev = spec_best(frags.drop_last(), pt);
        let t = frags.last();
        if spec_eligible(t) && spec_extract_score(t, pt) > prev.0 {
            (spec_extract_score(t, pt), t)
        } else {
            prev
        }
    }
}

/// The representative extract of the document, if any fragment scores
/// above zero.
pub open spec fn spec_extract(root: Node, pt: Seq<Seq<char>>) -> Option<Seq<char>> {
    let b = spec_best(spec_fragments(root), pt);
    if b.0 > 0 {
        Some(b.1)
    } else {
        None
    }
}

/// The term count never exceeds the number of terms.
pub proof fn lemma_score_terms_le(pt: Seq<Seq<char>>, toks: Seq<Seq<char>>)
    ensures
        0 <= spec_score_terms(pt, toks) <= pt.len(),
    decreases pt,
{
    if pt.len() > 0 {
        lemma_score_terms_le(pt.subrange(1, pt.len() as int), toks);
    }
}

/// Appending one term adds its membership to the count.
pub proof fn lemma_score_terms_snoc(pt: Seq<Seq<char>>, x: Seq<char>, toks: Seq<Seq<char>>)
    ensures
        spec_score_terms(pt.push(x), toks) == spec_score_terms(pt, toks) + (
        if toks.contains(x) {
            1int
        } else {
            0int
        }),
    decreases pt,
{
    assert(spec_score_terms(pt.push(x), toks) == (
    if toks.contains(pt.push(x)[0]) {
        1int
    } else {
        0int
    }) + spec_score_terms(pt.push(x).subrange(1, pt.push(x).len() as int), toks));
    if pt.len() == 0 {
        assert(pt.push(x).subrange(1, pt.push(x).len() as int) =~= Seq::<Seq<char>>::empty());
        assert(spec_score_terms(Seq::<Seq<char>>::empty(), toks) == 0);
        assert(pt.push(x)[0] == x);
    } else {
        let t = pt.subrange(1, pt.len() as int);
        assert(pt.push(x).subrange(1, pt.push(x).len() as int) =~= t.push(x));
        assert(pt.push(x)[0] == pt[0]);
        lemma_score_terms_snoc(t, x, toks);
    }
}

/// Whether `items` contains the string `t`, by linear scan.
pub fn contains_string(items: &Vec<String>, t: &String) -> (r: bool)
    ensures
        r == items.deep_view().contains(t@),
{
    let n: usize = items.len();
    let mut i: usize = 0;
    proof {
        assert(items.deep_view().len() == items@.len());
    }
    while i < n
        invariant
            0 <= i <= n,
            n == items@.len(),
            forall|k: int| 0 <= k < i ==> items.deep_view()[k] != t@,
        decreases n - i,
    {
        proof {
            assert(items.deep_view()[i as int] == items@[i as int]@);
        }
        if items[i] == *t {
            proof {
                assert(items.deep_view().contains(t@)) by {
                    assert(items.deep_view()[i as int] == t@);
                }
            }
            return true;
        }
        i = i + 1;
    }
    proof {
        if items.deep_view().contains(t@) {
            let k = choose|k: int|
                0 <= k < items.deep_view().len() && items.deep_view()[k] == t@;
        }
    }
    false
}

/// Scores one text run against the positive terms.
#[verifier::loop_isolation(false)]
pub fn fragment_score(t: &String, pt: &Vec<String>) -> (sc: u64)
    ensures
        sc == spec_extract_score(t@, pt.deep_view()),
{
    let ghost ptv = pt.deep_view();
    let toks = tokenize(t.as_str());
    if toks.len() == 0 {
        proof {
            assert(spec_tokenize(t@).len() == 0);
        }
        return 0;
    }
    let mut sc: u64 = 0;
    if contains_string(pt, &toks[0]) {
        sc = 4;
    }
    proof {
        assert(toks.deep_view()[0] == toks@[0]@);
    }
    let ghost base: int = if ptv.contains(spec_tokenize(t@)[0]) { 4int } else { 0int };
    let ghost rest = spec_tokenize(t@).subrange(1, spec_tokenize(t@).len() as int);
    let n: usize = pt.len();
    let mut i: usize = 0;
    proof {
        assert(ptv.len() == pt@.len());
        assert(ptv.subrange(0, 0) =~= Seq::<Seq<char>>::empty());
    }
    while i < n
        invariant
            0 <= i <= n,
            sc == clamp64(base + spec_score_terms(ptv.subrange(0, i as int), rest)),
        decreases n - i,
    {
        proof {
            assert(ptv.subrange(0, i + 1) =~= ptv.subrange(0, i as int).push(ptv[i as int]));
            lemma_score_terms_snoc(ptv.subrange(0, i as int), ptv[i as int], rest);
            lemma_score_terms_le(ptv.subrange(0, i as int), rest);
            assert(ptv[i as int] == pt@[i as int]@);
        }
        let mut found: bool = false;
        let m: usize = toks.len();
        let mut j: usize = 1;
        proof {
            assert(rest.len() == m - 1);
        }
        while j < m
            invariant
                1 <= j <= m,
                m == toks@.len(),
                found == exists|k: int| 0 <= k < j - 1 && rest[k] == ptv[i as int],
            decreases m - j,
        {
            proof {
                assert(toks.deep_view()[j as int] == toks@[j as int]@);
                assert(rest[j - 1] == toks.deep_view()[j as int]);
            }
            if !found && toks[j] == pt[i] {
                found = true;
                proof {
                    assert(rest[j - 1] == ptv[i as int]);
                }
            }
            j = j + 1;
        }
        proof {
            assert(found == rest.contains(ptv[i as int])) by {
                if rest.contains(ptv[i as int]) {
                    let k = choose|k: int| 0 <= k < rest.len() && rest[k] == ptv[i as int];
                }
            }
        }
        if found {
            if sc < u64::MAX {
                sc = sc + 1;
            }
        }
        i = i + 1;
    }
    proof {
        assert(ptv.subrange(0, n as int) =~= ptv);
    }
    sc
}

/// The emphasis contexts after entering an element with the given tag:
/// a matching tag turns its flag on; flags never turn off.
pub open spec fn spec_flags_for(tag: Seq<char>, f: Emphasis) -> Emphasis {
    if tag == "h1"@ {
        Emphasis { h1: true, ..f }
    } else if tag == "h2"@ {
        Emphasis { h2: true, ..f }
    } else if tag == "h3"@ {
        Emphasis { h3: true, ..f }
    } else if tag == "h4"@ {
        Emphasis { h4: true, ..f }
    } else if tag == "h5"@ {
        Emphasis { h5: true, ..f }
    } else if tag == "h6"@ {
        Emphasis { h6: true, ..f }
    } else if tag == "strong"@ {
        Emphasis { strong: true, ..f }
    } else if tag == "em"@ {
        Emphasis { em: true, ..f }
    } else if tag == "small"@ {
        Emphasis { small: true, ..f }
    } else if tag == "s"@ {
        Emphasis { s: true, ..f }
    } else {
        f
    }
}

/// The index of the first term equal to `tok`, or the number of terms if
/// none is.
pub open spec fn spec_first_pos(pt: Seq<Seq<char>>, tok: Seq<char>) -> int
    decreases pt,
{
    if pt.len() == 0 {
        0int
    } else if pt[0] == tok {
        0int
    } else {
        1 + spec_first_pos(pt.subrange(1, pt.len() as int), tok)
    }
}

/// A prefix without the token, ended by the end or a match, pins the
/// first position.
pub proof fn lemma_first_pos_is(pt: Seq<Seq<char>>, tok: Seq<char>, k: int)
    requires
        0 <= k <= pt.len(),
        forall|t: int| 0 <= t < k ==> pt[t] != tok,
        k == pt.len() || pt[k] == tok,
    ensures
        spec_first_pos(pt, tok) == k,
    decreases pt,
{
    if k > 0 {
        let rest = pt.subrange(1, pt.len() as int);
        assert(forall|t: int| 0 <= t < k - 1 ==> rest[t] != tok);
        assert(k - 1 == rest.len() || rest[k - 1] == tok);
        lemma_first_pos_is(rest, tok, k - 1);
    }
}

/// The counts after recording one token: the first matching term's
/// counter and the aggregate counter each record one occurrence.
pub open spec fn spec_apply_token(
    tok: Seq<char>,
    pt: Seq<Seq<char>>,
    tc: Seq<WordCount>,
    wc: WordCount,
    f: Emphasis,
) -> (Seq<WordCount>, WordCount) {
    let p = spec_first_pos(pt, tok);
    (
        if 0 <= p < pt.len() && p < tc.len() {
            tc.update(p, spec_record(tc[p], f))
        } else {
            tc
        },
        spec_record(wc, f),
    )
}

/// The counts after recording a sequence of tokens in order.
pub open spec fn spec_apply_tokens(
    toks: Seq<Seq<char>>,
    pt: Seq<Seq<char>>,
    tc: Seq<WordCount>,
    wc: WordCount,
    f: Emphasis,
) -> (Seq<WordCount>, WordCount)
    decreases toks,
{
    if toks.len() == 0 {
        (tc, wc)
    } else {
        let r0 = spec_apply_token(toks[0], pt, tc, wc, f);
        spec_apply_tokens(toks.subrange(1, toks.len() as int), pt, r0.0, r0.1, f)
    }
}

/// The counts after recording every token of a text run.
pub open spec fn spec_apply_text(
    t: Seq<char>,
    pt: Seq<Seq<char>>,
    tc: Seq<WordCount>,
    wc: WordCount,
    f: Emphasis,
) -> (Seq<WordCount>, WordCount) {
    spec_apply_tokens(spec_tokenize(t), pt, tc, wc, f)
}

/// The counts after walking one node depth-first under the given
/// contexts.
pub open spec fn spec_count_node(
    n: Node,
    pt: Seq<Seq<char>>,
    tc: Seq<WordCount>,
    wc: WordCount,
    f: Emphasis,
) -> (Seq<WordCount>, WordCount)
    decreases n,
{
    match n {
        Node::Text(t) => spec_apply_text(t@, pt, tc, wc, f),
        Node::Element { name, attrs, children } => spec_count_seq(
            children@,
            pt,
            tc,
            wc,
            spec_flags_for(name@, f),
        ),
    }
}

/// The counts after walking a sequence of nodes in order.
pub open spec fn spec_count_seq(
    s: Seq<Node>,
    pt: Seq<Seq<char>>,
    tc: Seq<WordCount>,
    wc: WordCount,
    f: Emphasis,
) -> (Seq<WordCount>, WordCount)
    decreases s,
{
    if s.len() == 0 {
        (tc, wc)
    } else {
        let r0 = spec_count_node(s[0], pt, tc, wc, f);
        spec_count_seq(s.subrange(1, s.len() as int), pt, r0.0, r0.1, f)
    }
}

/// The per-term and aggregate counts of the whole document: a depth-first
/// walk of the body with no context active at the root.
pub open spec fn spec_counts(root: Node, pt: Seq<Seq<char>>) -> (Seq<WordCount>, WordCount) {
    let zeros = Seq::new(pt.len(), |i: int| WordCount::spec_zero());
    match spec_find(root, "body"@) {
        Some(b) => spec_count_node(b, pt, zeros, WordCount::spec_zero(), Emphasis::spec_none()),
        None => (zeros, WordCount::spec_zero()),
    }
}

/// The index of the first term equal to `tok`, or the number of terms.
#[verifier::loop_isolation(false)]
pub fn first_pos(pt: &Vec<String>, tok: &String) -> (p: usize)
    ensures
        p == spec_first_pos(pt.deep_view(), tok@),
        p <= pt@.len(),
{
    let ghost ptv = pt.deep_view();
    let n: usize = pt.len();
    let mut i: usize = 0;
    proof {
        assert(ptv.len() == pt@.len());
    }
    while i < n
        invariant
            0 <= i <= n,
            forall|k: int| 0 <= k < i ==> ptv[k] != tok@,
        decreases n - i,
    {
        proof {
            assert(ptv[i as int] == pt@[i as int]@);
        }
        if pt[i] == *tok {
            proof {
                lemma_first_pos_is(ptv, tok@, i as int);
            }
            return i;
        }
        i = i + 1;
    }
    proof {
        lemma_first_pos_is(ptv, tok@, n as int);
    }
    n
}

/// Records every token of a text run into the counters.
#[verifier::loop_isolation(false)]
pub fn apply_text(t: &String, pt: &Vec<String>, tc: &mut Vec<WordCount>, wc: &mut WordCount, f: Emphasis)
    ensures
        final(tc)@ == spec_apply_text(t@, pt.deep_view(), old(tc)@, *old(wc), f).0,
        *final(wc) == spec_apply_text(t@, pt.deep_view(), old(tc)@, *old(wc), f).1,
{
    let ghost ptv = pt.deep_view();
    let ghost tv = spec_tokenize(t@);
    let toks = tokenize(t.as_str());
    let m: usize = toks.len();
    let mut i: usize = 0;
    proof {
        assert(tv.len() == toks@.len());
        assert(tv.subrange(0, m as int) =~= tv);
    }
    while i < m
        invariant
            0 <= i <= m,
            spec_apply_tokens(tv.subrange(i as int, m as int), ptv, tc@, *wc, f)
                == spec_apply_tokens(tv, ptv, old(tc)@, *old(wc), f),
        decreases m - i,
    {
        proof {
            let suffix = tv.subrange(i as int, m as int);
            assert(suffix.subrange(1, suffix.len() as int) =~= tv.subrange(i + 1, m as int));
            assert(suffix[0] == tv[i as int]);
            assert(tv[i as int] == toks@[i as int]@);
        }
        let p = first_pos(pt, &toks[i]);
        if p < pt.len() && p < tc.len() {
            let mut cnt = tc[p];
            cnt.add(f);
            tc[p] = cnt;
        }
        wc.add(f);
        i = i + 1;
    }
    proof {
        assert(spec_apply_tokens(tv.subrange(m as int, m as int), ptv, tc@, *wc, f) == (
        tc@,
        *wc,
        ));
    }
}

/// The contexts after entering an element with the given tag.
pub fn flags_for(name: &String, f: Emphasis) -> (r: Emphasis)
    ensures
        r == spec_flags_for(name@, f),
{
    if *name == String::from_str("h1") {
        Emphasis { h1: true, ..f }
    } else if *name == String::from_str("h2") {
        Emphasis { h2: true, ..f }
    } else if *name == String::from_str("h3") {
        Emphasis { h3: true, ..f }
    } else if *name == String::from_str("h4") {
        Emphasis { h4: true, ..f }
    } else if *name == String::from_str("h5") {
        Emphasis { h5: true, ..f }
    } else if *name == String::from_str("h6") {
        Emphasis { h6: true, ..f }
    } else if *name == String::from_str("strong") {
        Emphasis { strong: true, ..f }
    } else if *name == String::from_str("em") {
        Emphasis { em: true, ..f }
    } else if *name == String::from_str("small") {
        Emphasis { small: true, ..f }
    } else if *name == String::from_str("s") {
        Emphasis { s: true, ..f }
    } else {
        f
    }
}

/// Walks one node depth-first, recording occurrences under the active
/// contexts.
#[verifier::loop_isolation(false)]
pub fn count_node(n: &Node, pt: &Vec<String>, tc: &mut Vec<WordCount>, wc: &mut WordCount, f: Emphasis)
    ensures
        final(tc)@ == spec_count_node(*n, pt.deep_view(), old(tc)@, *old(wc), f).0,
        *final(wc) == spec_count_node(*n, pt.deep_view(), old(tc)@, *old(wc), f).1,
    decreases n,
{
    let ghost ptv = pt.deep_view();
    match n {
        Node::Text(t) => {
            apply_text(t, pt, tc, wc, f);
        },
        Node::Element { name, attrs, children } => {
            let f2 = flags_for(name, f);
            let len: usize = children.len();
            let mut i: usize = 0;
            proof {
                assert(children@.subrange(0, len as int) =~= children@);
            }
            while i < len
                invariant
                    0 <= i <= len,
                    spec_count_seq(children@.subrange(i as int, len as int), ptv, tc@, *wc, f2)
                        == spec_count_node(*n, ptv, old(tc)@, *old(wc), f),
                decreases len - i,
            {
                proof {
                    let suffix = children@.subrange(i as int, len as int);
                    assert(suffix.subrange(1, suffix.len() as int) =~= children@.subrange(
                        i + 1,
                        len as int,
                    ));
                    assert(suffix[0] == children@[i as int]);
                    assert((*n)->children == *children);
                    assert(decreases_to!(*n => (*n)->children));
                    assert(decreases_to!(*children => children@));
                    assert(decreases_to!(children@ => children@[i as int]));
                    assert(decreases_to!(*n => children@[i as int]));
                }
                count_node(&children[i], pt, tc, wc, f2);
                i = i + 1;
            }
            proof {
                assert(spec_count_seq(
                    children@.subrange(len as int, len as int),
                    ptv,
                    tc@,
                    *wc,
                    f2,
                ) == (tc@, *wc));
            }
        },
    }
}

/// The per-term and aggregate counts of the whole document.
pub fn count_words(root: &Node, pt: &Vec<String>) -> (r: (Vec<WordCount>, WordCount))
    ensures
        r.0@ == spec_counts(*root, pt.deep_view()).0,
        r.1 == spec_counts(*root, pt.deep_view()).1,
{
    let ghost ptv = pt.deep_view();
    let mut tc: Vec<WordCount> = Vec::new();
    let n: usize = pt.len();
    let mut i: usize = 0;
    while i < n
        invariant
            0 <= i <= n,
            tc@.len() == i,
            forall|k: int| 0 <= k < i ==> tc@[k] == WordCount::spec_zero(),
        decreases n - i,
    {
        tc.push(WordCount::zero());
        i = i + 1;
    }
    proof {
        assert(ptv.len() == pt@.len());
        assert(tc@ =~= Seq::new(ptv.len(), |k: int| WordCount::spec_zero()));
    }
    let mut wc = WordCount::zero();
    match find_element(root, &String::from_str("body")) {
        Some(b) => {
            count_node(b, pt, &mut tc, &mut wc, Emphasis::none());
        },
        None => {},
    }
    (tc, wc)
}

/// A found element really is an element carrying the searched tag name.
pub proof fn lemma_find_is_element(n: Node, tag: Seq<char>)
    ensures
        spec_find(n, tag) matches Some(e) ==> e is Element && e->name@ == tag,
    decreases n,
{
    match n {
        Node::Text(_) => {},
        Node::Element { name, attrs, children } => {
            if name@ != tag {
                lemma_find_seq_is_element(children@, tag);
            }
        },
    }
}

/// Sequence half of [`lemma_find_is_element`].
pub proof fn lemma_find_seq_is_element(s: Seq<Node>, tag: Seq<char>)
    ensures
        spec_find_seq(s, tag) matches Some(e) ==> e is Element && e->name@ == tag,
    decreases s,
{
    if s.len() > 0 {
        lemma_find_is_element(s[0], tag);
        lemma_find_seq_is_element(s.subrange(1, s.len() as int), tag);
    }
}

/// A found description meta element really is an element.
pub proof fn lemma_find_meta_is_element(n: Node)
    ensures
        spec_find_meta(n) matches Some(e) ==> e is Element,
    decreases n,
{
    match n {
        Node::Text(_) => {},
        Node::Element { name, attrs, children } => {
            if !(name@ == "meta"@ && spec_attr(attrs@, "name"@) == Some("description"@)) {
                lemma_find_meta_seq_is_element(children@);
            }
        },
    }
}

/// Sequence half of [`lemma_find_meta_is_element`].
pub proof fn lemma_find_meta_seq_is_element(s: Seq<Node>)
    ensures
        spec_find_meta_seq(s) matches Some(e) ==> e is Element,
    decreases s,
{
    if s.len() > 0 {
        lemma_find_meta_is_element(s[0]);
        lemma_find_meta_seq_is_element(s.subrange(1, s.len() as int));
    }
}

/// Finds the first description meta element, depth-first.
#[verifier::loop_isolation(false)]
pub fn find_meta<'a>(n: &'a Node) -> (r: Option<&'a Node>)
    ensures
        match r {
            Some(e) => spec_find_meta(*n) == Some(*e),
            None => spec_find_meta(*n) is None,
        },
    decreases n,
{
    match n {
        Node::Text(_) => None,
        Node::Element { name, attrs, children } => {
            if *name == String::from_str("meta") {
                match attr_value(attrs, &String::from_str("name")) {
                    Some(v) => {
                        if *v == String::from_str("description") {
                            return Some(n);
                        }
                    },
                    None => {},
                }
            }
            let len: usize = children.len();
            let mut i: usize = 0;
            proof {
                assert(children@.subrange(0, len as int) =~= children@);
            }
            while i < len
                invariant
                    0 <= i <= len,
                    spec_find_meta(*n) == spec_find_meta_seq(
                        children@.subrange(i as int, len as int),
                    ),
                decreases len - i,
            {
                proof {
                    let suffix = children@.subrange(i as int, len as int);
                    assert(suffix.subrange(1, suffix.len() as int) =~= children@.subrange(
                        i + 1,
                        len as int,
                    ));
                    assert(suffix[0] == children@[i as int]);
                    assert((*n)->children == *children);
                    assert(decreases_to!(*n => (*n)->children));
                    assert(decreases_to!(*children => children@));
                    assert(decreases_to!(children@ => children@[i as int]));
                    assert(decreases_to!(*n => children@[i as int]));
                }
                match find_meta(&children[i]) {
                    Some(e) => {
                        return Some(e);
                    },
                    None => {},
                }
                i = i + 1;
            }
            proof {
                assert(spec_find_meta_seq(children@.subrange(len as int, len as int)) is None);
            }
            None
        },
    }
}

/// Picks the best-scoring eligible fragment, the earliest on ties.
#[verifier::loop_isolation(false)]
pub fn select_extract(frags: &Vec<String>, pt: &Vec<String>) -> (r: Option<String>)
    ensures
        match r {
            Some(s) => spec_best(frags.deep_view(), pt.deep_view()).0 > 0 && s@ == spec_best(
                frags.deep_view(),
                pt.deep_view(),
            ).1,
            None => spec_best(frags.deep_view(), pt.deep_view()).0 == 0,
        },
{
    let ghost fv = frags.deep_view();
    let ghost ptv = pt.deep_view();
    let n: usize = frags.len();
    let mut best_sc: u64 = 0;
    let mut best: Option<String> = None;
    let mut i: usize = 0;
    proof {
        assert(fv.len() == frags@.len());
        assert(fv.subrange(0, 0).len() == 0);
    }
    while i < n
        invariant
            0 <= i <= n,
            best_sc == spec_best(fv.subrange(0, i as int), ptv).0,
            best_sc > 0 ==> (best matches Some(s) && s@ == spec_best(fv.subrange(0, i as int), ptv).1),
            best_sc == 0 ==> best is None,
        decreases n - i,
    {
        proof {
            assert(fv.subrange(0, i + 1).drop_last() =~= fv.subrange(0, i as int));
            assert(fv.subrange(0, i + 1).last() == fv[i as int]);
            assert(fv[i as int] == frags@[i as int]@);
        }
        let len_i: usize = frags[i].as_str().unicode_len();
        if 50 < len_i && len_i < 350 {
            let sc = fragment_score(&frags[i], pt);
            if sc > best_sc {
                best_sc = sc;
                best = Some(frags[i].clone());
            }
        }
        i = i + 1;
    }
    proof {
        assert(fv.subrange(0, n as int) =~= fv);
    }
    if best_sc > 0 {
        best
    } else {
        None
    }
}

/// The language subtag: the characters before the first `-`.
pub open spec fn spec_dash_prefix_len(l: Seq<char>) -> nat
    decreases l.len(),
{
    if l.len() == 0 || l[0] == '-' {
        0
    } else {
        1 + spec_dash_prefix_len(l.subrange(1, l.len() as int))
    }
}

/// A dash-free prefix ended by the end or a dash pins the prefix length.
pub proof fn lemma_dash_prefix_is(l: Seq<char>, k: int)
    requires
        0 <= k <= l.len(),
        forall|t: int| 0 <= t < k ==> l[t] != '-',
        k == l.len() || l[k] == '-',
    ensures
        spec_dash_prefix_len(l) == k,
    decreases l.len(),
{
    if k > 0 {
        let rest = l.subrange(1, l.len() as int);
        assert(forall|t: int| 0 <= t < k - 1 ==> rest[t] != '-');
        assert(k - 1 == rest.len() || rest[k - 1] == '-');
        lemma_dash_prefix_is(rest, k - 1);
    }
}

/// The language read from the document: the `lang` attribute of the
/// `html` element, cut at the first `-`, if both exist.
pub open spec fn spec_language_opt(root: Node) -> Option<Seq<char>> {
    match spec_find(root, "html"@) {
        Some(el) => match spec_attr(el->attrs@, "lang"@) {
            Some(l) => Some(l.subrange(0, spec_dash_prefix_len(l) as int)),
            None => None,
        },
        None => None,
    }
}

/// The primary language subtag, or the sentinel `unknown`.
pub open spec fn spec_language(root: Node) -> Seq<char> {
    match spec_language_opt(root) {
        Some(l) => l,
        None => "unknown"@,
    }
}

/// The indexable words of the document: the tokens of every text run
/// under the body, in order.
pub open spec fn spec_tok_concat(ts: Seq<Seq<char>>) -> Seq<Seq<char>>
    decreases ts,
{
    if ts.len() == 0 {
        Seq::empty()
    } else {
        spec_tokenize(ts[0]) + spec_tok_concat(ts.subrange(1, ts.len() as int))
    }
}

/// The indexable words of the document.
pub open spec fn spec_words(root: Node) -> Seq<Seq<char>> {
    spec_tok_concat(spec_fragments(root))
}

/// The view of an optional string.
pub open spec fn opt_str_view(o: Option<String>) -> Option<Seq<char>> {
    match o {
        Some(s) => Some(s@),
        None => None,
    }
}

/// Where a document can be retrieved from.
pub struct Metadata {
    pub paths: Vec<String>,
}

/// A per-document, per-query summary: identity, retrieval paths, display
/// fields and the weighted occurrence counts of the positive query terms.
pub struct DocumentResult {
    pub cid: String,
    pub paths: Vec<String>,
    pub icon_cid: Option<String>,
    pub domain: Option<String>,
    pub title: Option<String>,
    pub h1: Option<String>,
    pub description: Option<String>,
    pub extract: Option<String>,
    pub term_counts: Vec<WordCount>,
    pub word_count: WordCount,
}

/// A parsed document, held as its element tree.
pub struct HtmlDocument {
    pub root: Node,
}

impl HtmlDocument {
    /// Wraps a parsed element tree.
    pub fn init(root: Node) -> (d: HtmlDocument)
        ensures
            d.root == root,
    {
        HtmlDocument { root }
    }

    /// The primary language subtag, or `unknown` when the document names
    /// none.
    pub fn language(&self) -> (r: String)
        ensures
            r@ == spec_language(self.root),
    {
        match self.language_opt() {
            Some(l) => l,
            None => String::from_str("unknown"),
        }
    }

    /// The language subtag if the document names one.
    #[verifier::loop_isolation(false)]
    fn language_opt(&self) -> (r: Option<String>)
        ensures
            opt_str_view(r) == spec_language_opt(self.root),
    {
        proof {
            lemma_find_is_element(self.root, "html"@);
        }
        match find_element(&self.root, &String::from_str("html")) {
            Some(el) => {
                match el {
                    Node::Element { name, attrs, children } => {
                        match attr_value(attrs, &String::from_str("lang")) {
                            Some(l) => {
                                let n: usize = l.as_str().unicode_len();
                                let mut k: usize = 0;
                                loop
                                    invariant
                                        0 <= k <= n,
                                        forall|t: int| 0 <= t < k ==> l@[t] != '-',
                                    decreases n - k,
                                {
                                    if k == n {
                                        break ;
                                    }
                                    if l.as_str().get_char(k) == '-' {
                                        break ;
                                    }
                                    k = k + 1;
                                }
                                proof {
                                    lemma_dash_prefix_is(l@, k as int);
                                }
                                Some(String::from_str(l.as_str().substring_char(0, k)))
                            },
                            None => None,
                        }
                    },
                    Node::Text(_) => {
                        proof {
                            assert(false);
                        }
                        None
                    },
                }
            },
            None => None,
        }
    }

    /// The indexable words of the body, and the language subtag when the
    /// document names one.
    #[verifier::loop_isolation(false)]
    pub fn into_parts(self) -> (r: Option<(Vec<String>, Option<String>)>)
        ensures
            r matches Some(p) && p.0.deep_view() == spec_words(self.root) && opt_str_view(p.1)
                == spec_language_opt(self.root),
    {
        let lang = self.language_opt();
        let mut parts: Vec<String> = Vec::new();
        match find_element(&self.root, &String::from_str("body")) {
            Some(b) => {
                collect_texts(b, &mut parts);
            },
            None => {},
        }
        let ghost pv = parts.deep_view();
        proof {
            assert(pv =~= spec_fragments(self.root));
        }
        let mut words: Vec<String> = Vec::new();
        let n: usize = parts.len();
        let mut i: usize = 0;
        proof {
            assert(pv.len() == parts@.len());
            assert(pv.subrange(0, n as int) =~= pv);
            assert(words.deep_view().len() == 0);
        }
        while i < n
            invariant
                0 <= i <= n,
                words.deep_view() + spec_tok_concat(pv.subrange(i as int, n as int))
                    == spec_words(self.root),
            decreases n - i,
        {
            proof {
                let suffix = pv.subrange(i as int, n as int);
                assert(suffix.subrange(1, suffix.len() as int) =~= pv.subrange(i + 1, n as int));
                assert(suffix[0] == pv[i as int]);
                assert(pv[i as int] == parts@[i as int]@);
            }
            let ghost prev = words.deep_view();
            let mut toks = tokenize(parts[i].as_str());
            words.append(&mut toks);
            proof {
                assert(words.deep_view() =~= prev + spec_tokenize(parts@[i as int]@));
                assert(words.deep_view() + spec_tok_concat(pv.subrange(i + 1, n as int))
                    =~= prev + (spec_tokenize(pv[i as int]) + spec_tok_concat(
                    pv.subrange(i + 1, n as int),
                )));
                assert(prev + (spec_tokenize(pv[i as int]) + spec_tok_concat(
                    pv.subrange(i + 1, n as int),
                )) =~= prev + spec_tok_concat(pv.subrange(i as int, n as int)));
            }
            i = i + 1;
        }
        proof {
            assert(spec_tok_concat(pv.subrange(n as int, n as int)).len() == 0);
            assert(words.deep_view() + spec_tok_concat(pv.subrange(n as int, n as int))
                =~= words.deep_view());
        }
        Some((words, lang))
    }

    /// The joined text of the first element with the given tag, if it is
    /// non-blank.
    fn tag_text(&self, tag: &String) -> (r: Option<String>)
        ensures
            opt_str_view(r) == (match spec_find(self.root, tag@) {
                Some(el) => {
                    let t = spec_join(spec_texts(el));
                    if spec_blank(t) {
                        None
                    } else {
                        Some(t)
                    }
                },
                None => None,
            }),
    {
        match find_element(&self.root, tag) {
            Some(el) => {
                let mut parts: Vec<String> = Vec::new();
                collect_texts(el, &mut parts);
                proof {
                    assert(parts.deep_view() =~= spec_texts(*el));
                }
                let j = join_spaces(&parts);
                if is_blank(&j) {
                    None
                } else {
                    Some(j)
                }
            },
            None => None,
        }
    }

    /// Summarizes the document for one query, or rejects it: `None`
    /// exactly when it has neither a usable title nor a usable first
    /// heading, or neither a description nor a scoring extract.
    pub fn into_result(self, cid: String, metadata: Metadata, query: &Query) -> (r: Option<
        DocumentResult,
    >)
        ensures
            ({
                let pt = spec_positive_terms(query@);
                let title = spec_title(self.root);
                let h1 = spec_h1(self.root);
                let desc = spec_description(self.root);
                let ext = spec_extract(self.root, pt);
                match r {
                    Some(res) => (title is Some || h1 is Some) && (desc is Some || ext is Some)
                        && res.cid == cid && res.paths == metadata.paths && res.icon_cid is None
                        && res.domain is None && opt_str_view(res.title) == title && opt_str_view(
                        res.h1,
                    ) == (if title is None {
                        h1
                    } else {
                        None
                    }) && opt_str_view(res.description) == desc && opt_str_view(res.extract) == ext
                        && res.term_counts@ == spec_counts(self.root, pt).0 && res.word_count
                        == spec_counts(self.root, pt).1,
                    None => (title is None && h1 is None) || (desc is None && ext is None),
                }
            }),
    {
        let pt = query.positive_terms();
        let title = self.tag_text(&String::from_str("title"));
        let mut h1: Option<String> = None;
        if title.is_none() {
            h1 = self.tag_text(&String::from_str("h1"));
            if h1.is_none() {
                return None;
            }
        }
        let description: Option<String> = {
            proof {
                lemma_find_meta_is_element(self.root);
            }
            match find_meta(&self.root) {
                Some(el) => {
                    match el {
                        Node::Element { name, attrs, children } => {
                            match attr_value(attrs, &String::from_str("content")) {
                                Some(v) => Some(v.clone()),
                                None => None,
                            }
                        },
                        Node::Text(_) => {
                            proof {
                                assert(false);
                            }
                            None
                        },
                    }
                },
                None => None,
            }
        };
        let mut parts: Vec<String> = Vec::new();
        match find_element(&self.root, &String::from_str("body")) {
            Some(b) => {
                collect_texts(b, &mut parts);
            },
            None => {},
        }
        proof {
            assert(parts.deep_view() =~= spec_fragments(self.root));
        }
        let extract = select_extract(&parts, &pt);
        if description.is_none() && extract.is_none() {
            return None;
        }
        let counts = count_words(&self.root, &pt);
        Some(
            DocumentResult {
                cid,
                paths: metadata.paths,
                icon_cid: None,
                domain: None,
                title,
                h1,
                description,
                extract,
                term_counts: counts.0,
                word_count: counts.1,
            },
        )
    }
}

/// A document of any supported kind.
pub enum Document {
    Html(HtmlDocument),
}

impl Document {
    /// The indexable words and the language of the document.
    pub fn into_parts(self) -> (r: Option<(Vec<String>, Option<String>)>)
        ensures
            (match self {
                Document::Html(d) => r matches Some(p) && p.0.deep_view() == spec_words(d.root)
                    && opt_str_view(p.1) == spec_language_opt(d.root),
            }),
    {
        match self {
            Document::Html(html) => html.into_parts(),
        }
    }

    /// Summarizes the document for one query, or rejects it.
    pub fn into_result(self, cid: String, metadata: Metadata, query: &Query) -> (r: Option<
        DocumentResult,
    >)
        ensures
            ({
                let d = (match self {
                    Document::Html(d) => d,
                });
                let pt = spec_positive_terms(query@);
                let title = spec_title(d.root);
                let h1 = spec_h1(d.root);
                let desc = spec_description(d.root);
                let ext = spec_extract(d.root, pt);
                match r {
                    Some(res) => (title is Some || h1 is Some) && (desc is Some || ext is Some)
                        && res.cid == cid && res.paths == metadata.paths && res.icon_cid is None
                        && res.domain is None && opt_str_view(res.title) == title && opt_str_view(
                        res.h1,
                    ) == (if title is None {
                        h1
                    } else {
                        None
                    }) && opt_str_view(res.description) == desc && opt_str_view(res.extract) == ext
                        && res.term_counts@ == spec_counts(d.root, pt).0 && res.word_count
                        == spec_counts(d.root, pt).1,
                    None => (title is None && h1 is None) || (desc is None && ext is None),
                }
            }),
    {
        match self {
            Document::Html(html) => html.into_result(cid, metadata, query),
        }
    }
}

} // verus!
