use peersearch::codec::DecodeError;
use peersearch::query::{Query, QueryComp};

fn comp_eq(a: &QueryComp, b: &QueryComp) -> bool {
    match (a, b) {
        (QueryComp::Word(x), QueryComp::Word(y)) => x == y,
        (
            QueryComp::Filter { name: n1, value: v1 },
            QueryComp::Filter { name: n2, value: v2 },
        ) => n1 == n2 && v1 == v2,
        (QueryComp::Not(c1), QueryComp::Not(c2)) => comp_eq(c1, c2),
        (
            QueryComp::NAmong { n: n1, among: a1 },
            QueryComp::NAmong { n: n2, among: a2 },
        ) => n1 == n2 && a1.len() == a2.len() && a1.iter().zip(a2.iter()).all(|(x, y)| comp_eq(x, y)),
        _ => false,
    }
}

fn sample_query() -> Query {
    Query {
        root: QueryComp::NAmong {
            n: 2,
            among: vec![
                QueryComp::Word("hello".to_string()),
                QueryComp::Not(Box::new(QueryComp::Word("bye".to_string()))),
                QueryComp::Filter {
                    name: "lang".to_string(),
                    value: "en".to_string(),
                },
                QueryComp::NAmong { n: 0, among: vec![] },
            ],
        },
    }
}

#[test]
fn round_trip_preserves_the_query() {
    let q = sample_query();
    let bytes = q.to_bytes();
    let back = Query::from_bytes(&bytes).expect("an encoding always decodes");
    assert!(comp_eq(&q.root, &back.root));
}

#[test]
fn round_trip_of_a_single_word() {
    let q = Query {
        root: QueryComp::Word("caf\u{e9}s".to_string()),
    };
    let bytes = q.to_bytes();
    let back = Query::from_bytes(&bytes).expect("an encoding always decodes");
    assert!(comp_eq(&q.root, &back.root));
}

#[test]
fn decoding_garbage_fails() {
    let r = Query::from_bytes(&[]);
    assert_eq!(r.err(), Some(DecodeError::Malformed));
}

#[test]
fn decoding_unknown_tag_fails() {
    let r = Query::from_bytes(&[9, 0, 0]);
    assert!(r.is_err());
}

#[test]
fn decoding_truncated_encoding_fails() {
    let q = sample_query();
    let bytes = q.to_bytes();
    let r = Query::from_bytes(&bytes[..bytes.len() - 1]);
    assert!(r.is_err());
}

#[test]
fn trailing_bytes_fail() {
    let q = sample_query();
    let mut bytes = q.to_bytes();
    bytes.push(0);
    let r = Query::from_bytes(&bytes);
    assert!(r.is_err());
}

#[test]
fn encoding_is_deterministic() {
    let a = sample_query().to_bytes();
    let b = sample_query().to_bytes();
    assert_eq!(a, b);
}
