use peersearch::filter::Filter;
use peersearch::index::{FilterEntry, LocalCid, WordEntry};
use peersearch::query::{Query, QueryComp};

fn word(w: &str) -> QueryComp {
    QueryComp::Word(w.to_string())
}

#[test]
fn word_leaf_scores_filter_weight() {
    let mut f = Filter::new(1024);
    f.add_word("apple", 7);
    assert_eq!(word("apple").match_score(&f), 7);
    let not_apple = QueryComp::Not(Box::new(word("apple")));
    assert_eq!(not_apple.match_score(&f), 0);
    let not_absent = QueryComp::Not(Box::new(word("pear")));
    assert_eq!(word("pear").match_score(&f), 0);
    assert_eq!(not_absent.match_score(&f), 1);
}

#[test]
fn filter_leaf_uses_name_value_key() {
    let mut f = Filter::new(1024);
    f.add_word("lang=en", 2);
    let leaf = QueryComp::Filter {
        name: "lang".to_string(),
        value: "en".to_string(),
    };
    assert_eq!(leaf.match_score(&f), 2);
}

#[test]
fn n_among_pays_full_sum_when_threshold_met() {
    let mut f = Filter::new(1024);
    f.add_word("alpha", 3);
    f.add_word("gamma", 4);
    // sanity: the three leaves score 3, 0, 4
    assert_eq!(word("alpha").match_score(&f), 3);
    assert_eq!(word("beta").match_score(&f), 0);
    assert_eq!(word("gamma").match_score(&f), 4);
    let q = QueryComp::NAmong {
        n: 2,
        among: vec![word("alpha"), word("beta"), word("gamma")],
    };
    // two children match, sum is 3 + 0 + 4
    assert_eq!(q.match_score(&f), 7);
}

#[test]
fn n_among_pays_nothing_below_threshold() {
    let mut f = Filter::new(1024);
    f.add_word("alpha", 3);
    assert_eq!(word("alpha").match_score(&f), 3);
    assert_eq!(word("beta").match_score(&f), 0);
    assert_eq!(word("gamma").match_score(&f), 0);
    let q = QueryComp::NAmong {
        n: 2,
        among: vec![word("alpha"), word("beta"), word("gamma")],
    };
    assert_eq!(q.match_score(&f), 0);
}

fn small_index() -> (Vec<WordEntry>, Vec<FilterEntry>) {
    let words = vec![
        WordEntry {
            term: "apple".to_string(),
            docs: vec![LocalCid(1), LocalCid(2), LocalCid(3)],
        },
        WordEntry {
            term: "banana".to_string(),
            docs: vec![LocalCid(2), LocalCid(3)],
        },
    ];
    let filters = vec![FilterEntry {
        name: "lang".to_string(),
        value: "en".to_string(),
        docs: vec![LocalCid(3), LocalCid(4)],
    }];
    (words, filters)
}

#[test]
fn index_scoring_is_exact_membership() {
    let (words, filters) = small_index();
    assert_eq!(word("apple").match_score_index(LocalCid(1), &words, &filters), 1);
    assert_eq!(word("banana").match_score_index(LocalCid(1), &words, &filters), 0);
    let leaf = QueryComp::Filter {
        name: "lang".to_string(),
        value: "en".to_string(),
    };
    assert_eq!(leaf.match_score_index(LocalCid(4), &words, &filters), 1);
    assert_eq!(leaf.match_score_index(LocalCid(1), &words, &filters), 0);
    let neg = QueryComp::Not(Box::new(word("banana")));
    assert_eq!(neg.match_score_index(LocalCid(1), &words, &filters), 1);
    assert_eq!(neg.match_score_index(LocalCid(2), &words, &filters), 0);
}

#[test]
fn approximate_and_exact_agree_on_presence() {
    // a filter and an index consistent on the query's leaves
    let mut f = Filter::new(1024);
    f.add_word("apple", 5);
    let words = vec![WordEntry {
        term: "apple".to_string(),
        docs: vec![LocalCid(7)],
    }];
    let filters: Vec<FilterEntry> = Vec::new();
    let q = Query { root: word("apple") };
    let approx = q.match_score(&f);
    let exact = q.root.match_score_index(LocalCid(7), &words, &filters);
    assert!(approx > 0 && exact > 0);
    let q2 = Query { root: word("pear") };
    assert_eq!(q2.match_score(&f), 0);
    assert_eq!(q2.root.match_score_index(LocalCid(7), &words, &filters), 0);
}

#[test]
fn matching_docs_ranked_and_deduplicated() {
    let (words, filters) = small_index();
    let q = Query {
        root: QueryComp::NAmong {
            n: 1,
            among: vec![word("apple"), word("banana")],
        },
    };
    // candidates 1, 2, 3; scores 1, 2, 2; ties keep candidate order
    let docs = q.matching_docs(&words, &filters);
    assert_eq!(docs, vec![LocalCid(2), LocalCid(3), LocalCid(1)]);
}

#[test]
fn matching_docs_drops_zero_scores() {
    let (words, filters) = small_index();
    // both words required: only docs 2 and 3 carry both
    let q = Query {
        root: QueryComp::NAmong {
            n: 2,
            among: vec![word("apple"), word("banana")],
        },
    };
    let docs = q.matching_docs(&words, &filters);
    assert_eq!(docs.len(), 2);
    assert!(docs.contains(&LocalCid(2)) && docs.contains(&LocalCid(3)));
    assert!(!docs.contains(&LocalCid(1)));
}

#[test]
fn positive_terms_skip_negated_leaves() {
    let q = Query {
        root: QueryComp::NAmong {
            n: 1,
            among: vec![
                word("apple"),
                QueryComp::Not(Box::new(word("banana"))),
                QueryComp::Filter {
                    name: "lang".to_string(),
                    value: "en".to_string(),
                },
            ],
        },
    };
    let terms = q.positive_terms();
    assert_eq!(terms, vec!["apple".to_string()]);
    let filters = q.positive_filters();
    assert_eq!(filters.len(), 1);
    assert_eq!(filters[0].name, "lang");
    assert_eq!(filters[0].value, "en");
}

#[test]
fn query_from_text_requires_every_token() {
    let q = Query::from_text("Rust, a Language!");
    match &q.root {
        QueryComp::NAmong { n, among } => {
            assert_eq!(*n, 2);
            assert_eq!(among.len(), 2);
            match &among[0] {
                QueryComp::Word(w) => assert_eq!(w, "rust"),
                _ => panic!("expected a word leaf"),
            }
            match &among[1] {
                QueryComp::Word(w) => assert_eq!(w, "language"),
                _ => panic!("expected a word leaf"),
            }
        }
        _ => panic!("expected an n-among root"),
    }
}

#[test]
fn empty_n_among_matches_with_zero_threshold_but_scores_nothing() {
    let f = Filter::new(8);
    let q = QueryComp::NAmong { n: 0, among: vec![] };
    assert_eq!(q.match_score(&f), 0);
    let q1 = QueryComp::NAmong { n: 1, among: vec![] };
    assert_eq!(q1.match_score(&f), 0);
}

#[test]
fn filter_keeps_the_largest_weight_per_key() {
    let mut f = Filter::new(64);
    f.add_word("apple", 2);
    f.add_word("apple", 9);
    f.add_word("apple", 5);
    assert_eq!(f.get_word("apple"), 9);
}
