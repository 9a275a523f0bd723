use peersearch::documents::{Attr, Document, HtmlDocument, Metadata, Node};
use peersearch::query::{Query, QueryComp};
use peersearch::text::tokenize;

fn el(name: &str, children: Vec<Node>) -> Node {
    Node::Element {
        name: name.to_string(),
        attrs: Vec::new(),
        children,
    }
}

fn el_attrs(name: &str, attrs: Vec<(&str, &str)>, children: Vec<Node>) -> Node {
    Node::Element {
        name: name.to_string(),
        attrs: attrs
            .into_iter()
            .map(|(n, v)| Attr {
                name: n.to_string(),
                value: v.to_string(),
            })
            .collect(),
        children,
    }
}

fn text(t: &str) -> Node {
    Node::Text(t.to_string())
}

fn query_of(words: &[&str]) -> Query {
    Query {
        root: QueryComp::NAmong {
            n: words.len(),
            among: words.iter().map(|w| QueryComp::Word(w.to_string())).collect(),
        },
    }
}

#[test]
fn tokenize_lowercases_and_drops_short_runs() {
    let toks = tokenize("Hello, World! ab ABC x9y42z");
    assert_eq!(
        toks,
        vec!["hello".to_string(), "world".to_string(), "abc".to_string(), "x9y42z".to_string()]
    );
    assert_eq!(tokenize(""), Vec::<String>::new());
    assert_eq!(tokenize("a b c"), Vec::<String>::new());
}

#[test]
fn empty_title_falls_back_to_h1_and_rejects_without_content() {
    // <title></title><h1>Welcome</h1>, no description, no eligible fragment
    let root = el(
        "html",
        vec![el("title", vec![]), el("body", vec![el("h1", vec![text("Welcome")])])],
    );
    let doc = HtmlDocument::init(root);
    let q = query_of(&["welcome"]);
    let r = doc.into_result("cid1".to_string(), Metadata { paths: vec![] }, &q);
    // "Welcome" is 7 characters: no fragment is between 50 and 350, and
    // there is no description, so the document is rejected.
    assert!(r.is_none());
}

#[test]
fn h1_serves_as_title_fallback() {
    let root = el(
        "html",
        vec![
            el("title", vec![]),
            el_attrs("meta", vec![("name", "description"), ("content", "About cats")], vec![]),
            el("body", vec![el("h1", vec![text("Welcome")])]),
        ],
    );
    let doc = HtmlDocument::init(root);
    let q = query_of(&["welcome"]);
    let r = doc
        .into_result("cid1".to_string(), Metadata { paths: vec![] }, &q)
        .expect("description is present, so the document is accepted");
    assert_eq!(r.title, None);
    assert_eq!(r.h1, Some("Welcome".to_string()));
    assert_eq!(r.description, Some("About cats".to_string()));
    assert_eq!(r.extract, None);
    assert_eq!(r.cid, "cid1");
}

#[test]
fn title_present_skips_h1() {
    let root = el(
        "html",
        vec![
            el("title", vec![text("A Title")]),
            el_attrs("meta", vec![("name", "description"), ("content", "d")], vec![]),
            el("body", vec![el("h1", vec![text("Welcome")])]),
        ],
    );
    let doc = HtmlDocument::init(root);
    let q = query_of(&["welcome"]);
    let r = doc
        .into_result("cid2".to_string(), Metadata { paths: vec![] }, &q)
        .expect("description is present");
    assert_eq!(r.title, Some("A Title".to_string()));
    assert_eq!(r.h1, None);
}

#[test]
fn extract_prefers_eligible_fragment_with_leading_term() {
    // 60 characters, first token is the positive term "widgets"
    let long_frag = "widgets are wonderful things that everyone loves to use lots";
    assert_eq!(long_frag.chars().count(), 60);
    // 40 characters, two other positive terms, but too short to qualify
    let short_frag = "gears and cogs are both mentioned her";
    assert!(short_frag.chars().count() <= 50);
    let root = el(
        "html",
        vec![
            el("title", vec![text("Shop")]),
            el("body", vec![text(short_frag), text(long_frag)]),
        ],
    );
    let doc = HtmlDocument::init(root);
    let q = query_of(&["widgets", "gears", "cogs"]);
    let r = doc
        .into_result("cid3".to_string(), Metadata { paths: vec![] }, &q)
        .expect("the long fragment scores 4");
    assert_eq!(r.extract, Some(long_frag.to_string()));
}

#[test]
fn word_counts_follow_emphasis_contexts() {
    // <h1><strong>cats</strong></h1> with positive term "cats"
    let root = el(
        "html",
        vec![
            el_attrs("meta", vec![("name", "description"), ("content", "d")], vec![]),
            el("body", vec![el("h1", vec![el("strong", vec![text("cats")])])]),
        ],
    );
    let doc = HtmlDocument::init(root);
    let q = query_of(&["cats"]);
    let r = doc
        .into_result("cid4".to_string(), Metadata { paths: vec![] }, &q)
        .expect("h1 text and description are present");
    assert_eq!(r.term_counts.len(), 1);
    let tc = r.term_counts[0];
    assert_eq!(tc.h1, 1);
    assert_eq!(tc.strong, 1);
    assert_eq!(tc.h2, 0);
    assert_eq!(tc.h3, 0);
    assert_eq!(tc.h4, 0);
    assert_eq!(tc.h5, 0);
    assert_eq!(tc.h6, 0);
    assert_eq!(tc.em, 0);
    assert_eq!(tc.small, 0);
    assert_eq!(tc.s, 0);
    let wc = r.word_count;
    assert_eq!(wc.h1, 1);
    assert_eq!(wc.strong, 1);
    assert_eq!(wc.h2, 0);
    assert_eq!(wc.em, 0);
    assert_eq!(wc.small, 0);
    assert_eq!(wc.s, 0);
}

#[test]
fn siblings_do_not_inherit_each_others_flags() {
    let root = el(
        "html",
        vec![
            el_attrs("meta", vec![("name", "description"), ("content", "d")], vec![]),
            el(
                "body",
                vec![
                    el("h1", vec![text("dogs")]),
                    el("em", vec![text("dogs")]),
                ],
            ),
        ],
    );
    let doc = HtmlDocument::init(root);
    let q = query_of(&["dogs"]);
    let r = doc
        .into_result("cid5".to_string(), Metadata { paths: vec![] }, &q)
        .expect("description is present");
    let tc = r.term_counts[0];
    assert_eq!(tc.h1, 1);
    assert_eq!(tc.em, 1);
    assert_eq!(tc.strong, 0);
    // one occurrence under h1 alone, one under em alone
    assert_eq!(r.word_count.h1, 1);
    assert_eq!(r.word_count.em, 1);
}

#[test]
fn into_parts_extracts_body_words_and_language() {
    let root = el_attrs(
        "html",
        vec![("lang", "en-US")],
        vec![
            el("title", vec![text("Ignored Title Words")]),
            el("body", vec![text("Cats and dogs"), el("p", vec![text("more cats")])]),
        ],
    );
    let doc = Document::Html(HtmlDocument::init(root));
    let (words, lang) = doc.into_parts().expect("word extraction never fails");
    assert_eq!(
        words,
        vec!["cats".to_string(), "and".to_string(), "dogs".to_string(), "more".to_string(), "cats".to_string()]
    );
    assert_eq!(lang, Some("en".to_string()));
}

#[test]
fn language_sentinel_when_absent() {
    let root = el("html", vec![el("body", vec![])]);
    let doc = HtmlDocument::init(root);
    assert_eq!(doc.language(), "unknown");
    let root2 = el_attrs("html", vec![("lang", "fr")], vec![]);
    let doc2 = HtmlDocument::init(root2);
    assert_eq!(doc2.language(), "fr");
}

#[test]
fn extract_ties_keep_the_earliest_fragment() {
    // two eligible fragments, both led by the same positive term
    let first = "widgets lead this sentence and nothing else scores here";
    let second = "widgets lead this other sentence and nothing else scores";
    assert!(first.chars().count() > 50 && first.chars().count() < 350);
    assert!(second.chars().count() > 50 && second.chars().count() < 350);
    let root = el(
        "html",
        vec![
            el("title", vec![text("Shop")]),
            el("body", vec![text(first), text(second)]),
        ],
    );
    let doc = HtmlDocument::init(root);
    let q = query_of(&["widgets"]);
    let r = doc
        .into_result("cid6".to_string(), Metadata { paths: vec![] }, &q)
        .expect("both fragments score 4");
    assert_eq!(r.extract, Some(first.to_string()));
}

#[test]
fn document_without_title_or_heading_is_rejected() {
    let root = el(
        "html",
        vec![
            el_attrs("meta", vec![("name", "description"), ("content", "d")], vec![]),
            el("body", vec![text("Some text without any heading at all")]),
        ],
    );
    let doc = HtmlDocument::init(root);
    let q = query_of(&["text"]);
    let r = doc.into_result("cid7".to_string(), Metadata { paths: vec![] }, &q);
    assert!(r.is_none());
}
