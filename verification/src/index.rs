//! A read-only snapshot of the exact local index: which documents carry
//! which terms and which `name=value` filters. The index itself is owned
//! and kept up to date elsewhere; the query engine only reads it.

use vstd::prelude::*;

verus! {

/// Index-local integer identifier of a document: stable for the index's
/// lifetime and never reused while the document is present.
#[derive(PartialEq, Eq, Structural, Clone, Copy, Debug, Hash)]
pub struct LocalCid(pub u64);

/// The documents recorded under one term.
pub struct WordEntry {
    pub term: String,
    pub docs: Vec<LocalCid>,
}

/// The documents recorded under one `name=value` filter.
pub struct FilterEntry {
    pub name: String,
    pub value: String,
    pub docs: Vec<LocalCid>,
}

/// The documents stored under `term`, if the term is present: the first
/// entry with that term decides.
pub open spec fn lookup_word(entries: Seq<WordEntry>, term: Seq<char>) -> Option<Seq<LocalCid>>
    decreases entries,
{
    if entries.len() == 0 {
        None
    } else if entries[0].term@ == term {
        Some(entries[0].docs@)
    } else {
        lookup_word(entries.subrange(1, entries.len() as int), term)
    }
}

/// The documents stored under the filter `name=value`, if present.
pub open spec fn lookup_filter(
    entries: Seq<FilterEntry>,
    name: Seq<char>,
    value: Seq<char>,
) -> Option<Seq<LocalCid>>
    decreases entries,
{
    if entries.len() == 0 {
        None
    } else if entries[0].name@ == name && entries[0].value@ == value {
        Some(entries[0].docs@)
    } else {
        lookup_filter(entries.subrange(1, entries.len() as int), name, value)
    }
}

/// Whether document `cid` is recorded under `term`.
pub open spec fn word_present(entries: Seq<WordEntry>, term: Seq<char>, cid: LocalCid) -> bool {
    match lookup_word(entries, term) {
        Some(docs) => docs.contains(cid),
        None => false,
    }
}

/// Whether document `cid` is recorded under the filter `name=value`.
pub open spec fn filter_present(
    entries: Seq<FilterEntry>,
    name: Seq<char>,
    value: Seq<char>,
    cid: LocalCid,
) -> bool {
    match lookup_filter(entries, name, value) {
        Some(docs) => docs.contains(cid),
        None => false,
    }
}

/// Finds the entry for `term`, scanning in order.
pub fn find_word_entry<'a>(entries: &'a Vec<WordEntry>, term: &String) -> (r: Option<&'a WordEntry>)
    ensures
        match r {
            Some(e) => lookup_word(entries@, term@) == Some(e.docs@),
            None => lookup_word(entries@, term@) is None,
        },
{
    let n: usize = entries.len();
    let mut i: usize = 0;
    proof {
        assert(entries@.subrange(0, n as int) =~= entries@);
    }
    while i < n
        invariant
            0 <= i <= n,
            n == entries@.len(),
            lookup_word(entries@, term@) == lookup_word(
                entries@.subrange(i as int, n as int),
                term@,
            ),
        decreases n - i,
    {
        proof {
            assert(entries@.subrange(i as int, n as int).subrange(
                1,
                entries@.subrange(i as int, n as int).len() as int,
            ) =~= entries@.subrange(i + 1, n as int));
            assert(entries@.subrange(i as int, n as int)[0] == entries@[i as int]);
        }
        if entries[i].term == *term {
            return Some(&entries[i]);
        }
        i = i + 1;
    }
    proof {
        assert(entries@.subrange(n as int, n as int).len() == 0);
    }
    None
}

/// Finds the entry for the filter `name=value`, scanning in order.
pub fn find_filter_entry<'a>(
    entries: &'a Vec<FilterEntry>,
    name: &String,
    value: &String,
) -> (r: Option<&'a FilterEntry>)
    ensures
        match r {
            Some(e) => lookup_filter(entries@, name@, value@) == Some(e.docs@),
            None => lookup_filter(entries@, name@, value@) is None,
        },
{
    let n: usize = entries.len();
    let mut i: usize = 0;
    proof {
        assert(entries@.subrange(0, n as int) =~= entries@);
    }
    while i < n
        invariant
            0 <= i <= n,
            n == entries@.len(),
            lookup_filter(entries@, name@, value@) == lookup_filter(
                entries@.subrange(i as int, n as int),
                name@,
                value@,
            ),
        decreases n - i,
    {
        proof {
            assert(entries@.subrange(i as int, n as int).subrange(
                1,
                entries@.subrange(i as int, n as int).len() as int,
            ) =~= entries@.subrange(i + 1, n as int));
            assert(entries@.subrange(i as int, n as int)[0] == entries@[i as int]);
        }
        if entries[i].name == *name && entries[i].value == *value {
            return Some(&entries[i]);
        }
        i = i + 1;
    }
    proof {
        assert(entries@.subrange(n as int, n as int).len() == 0);
    }
    None
}

/// Whether `docs` contains `cid`, by linear scan.
pub fn docs_contain(docs: &Vec<LocalCid>, cid: LocalCid) -> (r: bool)
    ensures
        r == docs@.contains(cid),
{
    let n: usize = docs.len();
    let mut i: usize = 0;
    while i < n
        invariant
            0 <= i <= n,
            n == docs@.len(),
            forall|j: int| 0 <= j < i ==> docs@[j] != cid,
        decreases n - i,
    {
        if docs[i] == cid {
            return true;
        }
        i = i + 1;
    }
    false
}

} // verus!
