//! A deterministic byte encoding of queries, for shipping a query to
//! remote peers. Each component starts with a tag byte; strings travel as
//! a little-endian 64-bit byte length followed by their UTF-8 bytes;
//! `NAmong` carries its threshold and child count the same way. Decoding
//! is total: any byte sequence either decodes to exactly one query with no
//! bytes left over, or fails with [`DecodeError`].

use vstd::prelude::*;
use vstd::bytes::{spec_u64_from_le_bytes, spec_u64_to_le_bytes, lemma_auto_spec_u64_to_from_le_bytes};
use vstd::bytes::{u64_from_le_bytes, u64_to_le_bytes};
use vstd::slice::{slice_subrange, slice_to_vec};
use vstd::string::StrSliceExecFns;
use vstd::utf8::{decode_utf8, encode_utf8, valid_utf8};
use crate::query::{Query, QueryComp, QueryCompV, view_comps, lemma_view_comps};

verus! {

/// Decoding failed: the bytes are not the encoding of any query.
#[derive(Clone, Copy, Debug, PartialEq, Eq, Structural)]
pub enum DecodeError {
    Malformed,
}

/// Tag byte of a `Word` component.
pub const TAG_WORD: u8 = 0;

/// Tag byte of a `Filter` component.
pub const TAG_FILTER: u8 = 1;

/// Tag byte of a `Not` component.
pub const TAG_NOT: u8 = 2;

/// Tag byte of an `NAmong` component.
pub const TAG_NAMONG: u8 = 3;

/// The encoding of one string: 8 length bytes, then the UTF-8 bytes.
pub open spec fn spec_enc_str(s: Seq<char>) -> Seq<u8> {
    spec_u64_to_le_bytes(encode_utf8(s).len() as u64) + encode_utf8(s)
}

/// The encoding of one query component.
pub open spec fn spec_encode(q: QueryCompV) -> Seq<u8>
    decreases q,
{
    match q {
        QueryCompV::Word(t) => seq![TAG_WORD] + spec_enc_str(t),
        QueryCompV::Filter { name, value } => seq![TAG_FILTER] + spec_enc_str(name)
            + spec_enc_str(value),
        QueryCompV::Not(c) => seq![TAG_NOT] + spec_encode(*c),
        QueryCompV::NAmong { n, among } => seq![TAG_NAMONG] + spec_u64_to_le_bytes(n as u64)
            + spec_u64_to_le_bytes(among.len() as u64) + spec_encode_seq(among),
    }
}

/// The encodings of a sequence of components, concatenated.
pub open spec fn spec_encode_seq(s: Seq<QueryCompV>) -> Seq<u8>
    decreases s,
{
    if s.len() == 0 {
        Seq::empty()
    } else {
        spec_encode(s[0]) + spec_encode_seq(s.subrange(1, s.len() as int))
    }
}

/// A query view the machine can represent: every threshold, child count
/// and string byte length fits in `usize`.
pub open spec fn wf_v(q: QueryCompV) -> bool
    decreases q,
{
    match q {
        QueryCompV::Word(t) => encode_utf8(t).len() <= usize::MAX,
        QueryCompV::Filter { name, value } => encode_utf8(name).len() <= usize::MAX && encode_utf8(
            value,
        ).len() <= usize::MAX,
        QueryCompV::Not(c) => wf_v(*c),
        QueryCompV::NAmong { n, among } => 0 <= n <= usize::MAX && among.len() <= usize::MAX
            && (forall|i: int| 0 <= i < among.len() ==> wf_v(#[trigger] among[i])),
    }
}

/// Every encoding starts with its tag byte, so it is never empty.
pub proof fn lemma_encode_len_pos(q: QueryCompV)
    ensures
        spec_encode(q).len() >= 1,
        spec_encode(q)[0] == (match q {
            QueryCompV::Word(_) => TAG_WORD,
            QueryCompV::Filter { .. } => TAG_FILTER,
            QueryCompV::Not(_) => TAG_NOT,
            QueryCompV::NAmong { .. } => TAG_NAMONG,
        }),
{
}

/// Appends [`spec_enc_str`] of `s` to `out`.
fn push_enc_str(out: &mut Vec<u8>, s: &String)
    ensures
        final(out)@ == old(out)@ + spec_enc_str(s@),
{
    let bytes = s.as_str().as_bytes_vec();
    let mut len_bytes = u64_to_le_bytes(bytes.len() as u64);
    let mut bytes = bytes;
    out.append(&mut len_bytes);
    out.append(&mut bytes);
    proof {
        assert(final(out)@ =~= old(out)@ + spec_enc_str(s@));
    }
}

impl QueryComp {
    /// Appends the encoding of this component to `out`.
    #[verifier::loop_isolation(false)]
    pub fn encode_into(&self, out: &mut Vec<u8>)
        ensures
            final(out)@ == old(out)@ + spec_encode(self@),
        decreases self,
    {
        match self {
            QueryComp::Word(t) => {
                out.push(TAG_WORD);
                push_enc_str(out, t);
                proof {
                    assert(final(out)@ =~= old(out)@ + spec_encode(self@));
                }
            },
            QueryComp::Filter { name, value } => {
                out.push(TAG_FILTER);
                push_enc_str(out, name);
                push_enc_str(out, value);
                proof {
                    assert(final(out)@ =~= old(out)@ + spec_encode(self@));
                }
            },
            QueryComp::Not(c) => {
                out.push(TAG_NOT);
                c.encode_into(out);
                proof {
                    assert(final(out)@ =~= old(out)@ + spec_encode(self@));
                }
            },
            QueryComp::NAmong { n, among } => {
                out.push(TAG_NAMONG);
                let mut n_bytes = u64_to_le_bytes(*n as u64);
                out.append(&mut n_bytes);
                let mut c_bytes = u64_to_le_bytes(among.len() as u64);
                out.append(&mut c_bytes);
                let ghost head = out@;
                let len: usize = among.len();
                let mut i: usize = 0;
                proof {
                    lemma_view_comps(among@);
                    assert(among@.subrange(0, len as int) =~= among@);
                }
                while i < len
                    invariant
                        0 <= i <= len,
                        out@ + spec_encode_seq(view_comps(among@.subrange(i as int, len as int)))
                            == head + spec_encode_seq(view_comps(among@)),
                    decreases len - i,
                {
                    proof {
                        let suffix = among@.subrange(i as int, len as int);
                        lemma_view_comps(suffix);
                        assert(suffix.subrange(1, suffix.len() as int) =~= among@.subrange(
                            i + 1,
                            len as int,
                        ));
                        assert(view_comps(suffix).subrange(1, view_comps(suffix).len() as int)
                            =~= view_comps(among@.subrange(i + 1, len as int))) by {
                            lemma_view_comps(among@.subrange(i + 1, len as int));
                            assert(view_comps(suffix) == seq![suffix[0]@] + view_comps(
                                suffix.subrange(1, suffix.len() as int),
                            ));
                        }
                        assert(view_comps(suffix)[0] == among@[i as int]@);
                        assert((*self)->among == *among);
                        assert(decreases_to!(*self => (*self)->among));
                        assert(decreases_to!(*among => among@));
                        assert(decreases_to!(among@ => among@[i as int]));
                        assert(decreases_to!(*self => among@[i as int]));
                    }
                    let ghost prev = out@;
                    among[i].encode_into(out);
                    proof {
                        assert(out@ + spec_encode_seq(
                            view_comps(among@.subrange(i + 1, len as int)),
                        ) =~= prev + (spec_encode(among@[i as int]@) + spec_encode_seq(
                            view_comps(among@.subrange(i + 1, len as int)),
                        )));
                        assert(prev + (spec_encode(among@[i as int]@) + spec_encode_seq(
                            view_comps(among@.subrange(i + 1, len as int)),
                        )) =~= prev + spec_encode_seq(
                            view_comps(among@.subrange(i as int, len as int)),
                        ));
                    }
                    i = i + 1;
                }
                proof {
                    assert(view_comps(among@.subrange(len as int, len as int)).len() == 0);
                    assert(out@ + spec_encode_seq(
                        view_comps(among@.subrange(len as int, len as int)),
                    ) =~= out@);
                    assert(final(out)@ =~= old(out)@ + spec_encode(self@));
                }
            },
        }
    }
}

impl Query {
    /// Encodes the whole query deterministically.
    pub fn to_bytes(&self) -> (r: Vec<u8>)
        ensures
            r@ == spec_encode(self@),
    {
        let mut out: Vec<u8> = Vec::new();
        self.root.encode_into(&mut out);
        proof {
            assert(out@ =~= spec_encode(self@));
        }
        out
    }
}

/// The string read at `pos`: 8 length bytes, then that many UTF-8 bytes.
pub open spec fn spec_dec_str(b: Seq<u8>, pos: int) -> Option<(Seq<char>, int)> {
    if pos < 0 || pos + 8 > b.len() {
        None
    } else {
        let l = spec_u64_from_le_bytes(b.subrange(pos, pos + 8)) as int;
        if pos + 8 + l > b.len() {
            None
        } else {
            let sb = b.subrange(pos + 8, pos + 8 + l);
            if valid_utf8(sb) {
                Some((decode_utf8(sb), pos + 8 + l))
            } else {
                None
            }
        }
    }
}

/// The component read at `pos`, with the position just after it, or
/// nothing if the bytes there are not an encoding.
pub open spec fn spec_decode_comp(b: Seq<u8>, pos: int) -> Option<(QueryCompV, int)>
    decreases b.len() - pos, 0int,
{
    if pos < 0 || pos >= b.len() {
        None
    } else if b[pos] == TAG_WORD {
        match spec_dec_str(b, pos + 1) {
            Some(r) => Some((QueryCompV::Word(r.0), r.1)),
            None => None,
        }
    } else if b[pos] == TAG_FILTER {
        match spec_dec_str(b, pos + 1) {
            Some(r1) => match spec_dec_str(b, r1.1) {
                Some(r2) => Some((QueryCompV::Filter { name: r1.0, value: r2.0 }, r2.1)),
                None => None,
            },
            None => None,
        }
    } else if b[pos] == TAG_NOT {
        match spec_decode_comp(b, pos + 1) {
            Some(r) => Some((QueryCompV::Not(Box::new(r.0)), r.1)),
            None => None,
        }
    } else if b[pos] == TAG_NAMONG {
        if pos + 17 > b.len() {
            None
        } else {
            let n = spec_u64_from_le_bytes(b.subrange(pos + 1, pos + 9)) as int;
            let count = spec_u64_from_le_bytes(b.subrange(pos + 9, pos + 17)) as int;
            if n > usize::MAX as int || count > usize::MAX as int {
                None
            } else {
                match spec_decode_comps(b, pos + 17, count) {
                    Some(r) => Some((QueryCompV::NAmong { n: n, among: r.0 }, r.1)),
                    None => None,
                }
            }
        }
    } else {
        None
    }
}

/// `count` components read one after another from `pos`.
pub open spec fn spec_decode_comps(b: Seq<u8>, pos: int, count: int) -> Option<
    (Seq<QueryCompV>, int),
>
    decreases b.len() - pos, count,
{
    if count <= 0 {
        Some((Seq::empty(), pos))
    } else if pos < 0 || pos > b.len() {
        None
    } else {
        match spec_decode_comp(b, pos) {
            Some(r) => if r.1 <= pos || r.1 > b.len() {
                None
            } else {
                match spec_decode_comps(b, r.1, count - 1) {
                    Some(r2) => Some((seq![r.0] + r2.0, r2.1)),
                    None => None,
                }
            },
            None => None,
        }
    }
}

/// The query a byte sequence encodes, if it encodes one with no bytes
/// left over.
pub open spec fn spec_decode(b: Seq<u8>) -> Option<QueryCompV> {
    match spec_decode_comp(b, 0) {
        Some(r) => if r.1 == b.len() {
            Some(r.0)
        } else {
            None
        },
        None => None,
    }
}

/// Relies on String::from_utf8: it succeeds exactly on valid UTF-8 input,
/// and the returned string holds exactly the input bytes.
#[verifier::external_body]
fn string_from_utf8(v: Vec<u8>) -> (r: Option<String>)
    ensures
        r matches Some(s) ==> v@ == encode_utf8(s@),
        r is Some <==> valid_utf8(v@),
{
    String::from_utf8(v).ok()
}

/// Reads one length-prefixed UTF-8 string.
fn dec_str(bytes: &[u8], pos: usize) -> (r: Result<(String, usize), DecodeError>)
    requires
        pos <= bytes@.len(),
    ensures
        match r {
            Ok(p) => spec_dec_str(bytes@, pos as int) == Some((p.0@, p.1 as int)) && pos < p.1
                <= bytes@.len(),
            Err(_) => spec_dec_str(bytes@, pos as int) is None,
        },
{
    let blen: usize = bytes.len();
    if blen - pos < 8 {
        return Err(DecodeError::Malformed);
    }
    let l64 = u64_from_le_bytes(slice_subrange(bytes, pos, pos + 8));
    let avail: usize = blen - (pos + 8);
    if l64 > avail as u64 {
        return Err(DecodeError::Malformed);
    }
    let l = l64 as usize;
    let sb = slice_to_vec(slice_subrange(bytes, pos + 8, pos + 8 + l));
    match string_from_utf8(sb) {
        Some(s) => {
            proof {
                vstd::utf8::encode_utf8_decode_utf8(s@);
            }
            Ok((s, pos + 8 + l))
        },
        None => Err(DecodeError::Malformed),
    }
}

/// Reads one component.
#[verifier::loop_isolation(false)]
fn decode_comp(bytes: &[u8], pos: usize) -> (r: Result<(QueryComp, usize), DecodeError>)
    requires
        pos <= bytes@.len(),
    ensures
        match r {
            Ok(p) => spec_decode_comp(bytes@, pos as int) == Some((p.0@, p.1 as int)) && pos < p.1
                <= bytes@.len(),
            Err(_) => spec_decode_comp(bytes@, pos as int) is None,
        },
    decreases bytes@.len() - pos,
{
    let blen: usize = bytes.len();
    if pos >= blen {
        return Err(DecodeError::Malformed);
    }
    let tag = bytes[pos];
    if tag == TAG_WORD {
        match dec_str(bytes, pos + 1) {
            Ok(p) => Ok((QueryComp::Word(p.0), p.1)),
            Err(e) => Err(e),
        }
    } else if tag == TAG_FILTER {
        match dec_str(bytes, pos + 1) {
            Ok(p1) => match dec_str(bytes, p1.1) {
                Ok(p2) => Ok((QueryComp::Filter { name: p1.0, value: p2.0 }, p2.1)),
                Err(e) => Err(e),
            },
            Err(e) => Err(e),
        }
    } else if tag == TAG_NOT {
        match decode_comp(bytes, pos + 1) {
            Ok(p) => Ok((QueryComp::Not(Box::new(p.0)), p.1)),
            Err(e) => Err(e),
        }
    } else if tag == TAG_NAMONG {
        if blen - pos < 17 {
            return Err(DecodeError::Malformed);
        }
        let n64 = u64_from_le_bytes(slice_subrange(bytes, pos + 1, pos + 9));
        let c64 = u64_from_le_bytes(slice_subrange(bytes, pos + 9, pos + 17));
        if n64 > usize::MAX as u64 || c64 > usize::MAX as u64 {
            return Err(DecodeError::Malformed);
        }
        let n = n64 as usize;
        let count = c64 as usize;
        let ghost cur0: int = pos + 17;
        let mut among: Vec<QueryComp> = Vec::new();
        let mut cur: usize = pos + 17;
        let mut k: usize = 0;
        proof {
            assert(view_comps(among@).len() == 0);
            assert(view_comps(among@) + Seq::<QueryCompV>::empty() =~= view_comps(among@));
        }
        while k < count
            invariant
                pos + 17 <= cur <= blen,
                0 <= k <= count,
                among@.len() == k,
                match spec_decode_comps(bytes@, cur as int, count - k) {
                    Some(r2) => spec_decode_comps(bytes@, cur0, count as int) == Some(
                        (view_comps(among@) + r2.0, r2.1),
                    ),
                    None => spec_decode_comps(bytes@, cur0, count as int) is None,
                },
            decreases count - k,
        {
            match decode_comp(bytes, cur) {
                Ok(p) => {
                    let ghost prev = among@;
                    among.push(p.0);
                    proof {
                        crate::query::lemma_view_comps_push(prev, p.0);
                        assert(view_comps(among@) =~= view_comps(prev) + seq![p.0@]);
                        assert forall|r2: (Seq<QueryCompV>, int)|
                            spec_decode_comps(bytes@, p.1 as int, count - k - 1) == Some(r2)
                            implies view_comps(prev) + (seq![p.0@] + r2.0) =~= view_comps(among@)
                            + r2.0 by {}
                    }
                    cur = p.1;
                    k = k + 1;
                },
                Err(e) => {
                    return Err(e);
                },
            }
        }
        proof {
            assert(spec_decode_comps(bytes@, cur as int, 0) == Some(
                (Seq::<QueryCompV>::empty(), cur as int),
            ));
            assert(view_comps(among@) + Seq::<QueryCompV>::empty() =~= view_comps(among@));
        }
        Ok((QueryComp::NAmong { n, among }, cur))
    } else {
        Err(DecodeError::Malformed)
    }
}

impl Query {
    /// Decodes a query from bytes; fails on anything [`Query::to_bytes`]
    /// could not have produced.
    pub fn from_bytes(bytes: &[u8]) -> (r: Result<Query, DecodeError>)
        ensures
            match r {
                Ok(q) => spec_decode(bytes@) == Some(q@),
                Err(_) => spec_decode(bytes@) is None,
            },
    {
        match decode_comp(bytes, 0) {
            Ok(p) => {
                if p.1 == bytes.len() {
                    Ok(Query { root: p.0 })
                } else {
                    Err(DecodeError::Malformed)
                }
            },
            Err(e) => Err(e),
        }
    }
}

/// A subrange equality gives byte-for-byte equalities.
proof fn lemma_bytes_at(b: Seq<u8>, pos: int, e: Seq<u8>)
    requires
        0 <= pos,
        pos + e.len() <= b.len(),
        b.subrange(pos, pos + e.len() as int) == e,
    ensures
        forall|i: int| 0 <= i < e.len() ==> b[pos + i] == #[trigger] e[i],
{
    assert forall|i: int| 0 <= i < e.len() implies b[pos + i] == #[trigger] e[i] by {
        assert(b.subrange(pos, pos + e.len() as int)[i] == b[pos + i]);
    }
}

/// Byte-for-byte equalities give a subrange equality.
proof fn lemma_at_bytes(b: Seq<u8>, pos: int, e: Seq<u8>)
    requires
        0 <= pos,
        pos + e.len() <= b.len(),
        forall|i: int| 0 <= i < e.len() ==> b[pos + i] == #[trigger] e[i],
    ensures
        b.subrange(pos, pos + e.len() as int) == e,
{
    assert(b.subrange(pos, pos + e.len() as int) =~= e);
}

/// Reading a string back from its encoding yields the original string.
proof fn lemma_dec_str_enc(t: Seq<char>, b: Seq<u8>, pos: int)
    requires
        encode_utf8(t).len() <= usize::MAX,
        0 <= pos,
        pos + spec_enc_str(t).len() <= b.len(),
        b.subrange(pos, pos + spec_enc_str(t).len() as int) == spec_enc_str(t),
    ensures
        spec_dec_str(b, pos) == Some((t, pos + spec_enc_str(t).len())),
{
    lemma_auto_spec_u64_to_from_le_bytes();
    let eb = encode_utf8(t);
    let lb = spec_u64_to_le_bytes(eb.len() as u64);
    assert(lb.len() == 8);
    assert(spec_enc_str(t).len() == 8 + eb.len());
    lemma_bytes_at(b, pos, spec_enc_str(t));
    assert forall|i: int| 0 <= i < 8 implies b.subrange(pos, pos + 8)[i] == lb[i] by {
        assert(spec_enc_str(t)[i] == lb[i]);
        assert(b[pos + i] == spec_enc_str(t)[i]);
    }
    assert(b.subrange(pos, pos + 8) =~= lb);
    assert(spec_u64_from_le_bytes(lb) == eb.len() as u64);
    assert forall|i: int| 0 <= i < eb.len() implies b.subrange(
        pos + 8,
        pos + 8 + eb.len() as int,
    )[i] == eb[i] by {
        assert(spec_enc_str(t)[8 + i] == eb[i]);
        assert(b[pos + (8 + i)] == spec_enc_str(t)[8 + i]);
    }
    assert(b.subrange(pos + 8, pos + 8 + eb.len() as int) =~= eb);
    vstd::utf8::encode_utf8_valid_utf8(t);
    vstd::utf8::encode_utf8_decode_utf8(t);
}

/// Reading a component back from its encoding yields the component.
proof fn lemma_decode_encode(q: QueryCompV, b: Seq<u8>, pos: int)
    requires
        wf_v(q),
        0 <= pos,
        pos + spec_encode(q).len() <= b.len(),
        b.subrange(pos, pos + spec_encode(q).len() as int) == spec_encode(q),
    ensures
        spec_decode_comp(b, pos) == Some((q, pos + spec_encode(q).len())),
    decreases q,
{
    lemma_auto_spec_u64_to_from_le_bytes();
    let e = spec_encode(q);
    lemma_bytes_at(b, pos, e);
    lemma_encode_len_pos(q);
    assert(b[pos] == e[0]) by {
        assert(b[pos + 0] == e[0]);
    }
    match q {
        QueryCompV::Word(t) => {
            let es = spec_enc_str(t);
            assert forall|i: int| 0 <= i < es.len() implies b[pos + 1 + i] == #[trigger] es[i] by {
                assert(e[1 + i] == es[i]);
                assert(b[pos + (1 + i)] == e[1 + i]);
            }
            lemma_at_bytes(b, pos + 1, es);
            lemma_dec_str_enc(t, b, pos + 1);
        },
        QueryCompV::Filter { name, value } => {
            let e1 = spec_enc_str(name);
            let e2 = spec_enc_str(value);
            assert(e.len() == 1 + e1.len() + e2.len());
            assert forall|i: int| 0 <= i < e1.len() implies b[pos + 1 + i] == #[trigger] e1[i] by {
                assert(e[1 + i] == e1[i]);
                assert(b[pos + (1 + i)] == e[1 + i]);
            }
            lemma_at_bytes(b, pos + 1, e1);
            lemma_dec_str_enc(name, b, pos + 1);
            let p1 = pos + 1 + e1.len();
            assert forall|i: int| 0 <= i < e2.len() implies b[p1 + i] == #[trigger] e2[i] by {
                assert(e[1 + e1.len() + i] == e2[i]);
                assert(b[pos + (1 + e1.len() + i)] == e[1 + e1.len() + i]);
            }
            lemma_at_bytes(b, p1, e2);
            lemma_dec_str_enc(value, b, p1);
        },
        QueryCompV::Not(c) => {
            let ec = spec_encode(*c);
            assert forall|i: int| 0 <= i < ec.len() implies b[pos + 1 + i] == #[trigger] ec[i] by {
                assert(e[1 + i] == ec[i]);
                assert(b[pos + (1 + i)] == e[1 + i]);
            }
            lemma_at_bytes(b, pos + 1, ec);
            lemma_decode_encode(*c, b, pos + 1);
        },
        QueryCompV::NAmong { n, among } => {
            let nb = spec_u64_to_le_bytes(n as u64);
            let cb = spec_u64_to_le_bytes(among.len() as u64);
            let es = spec_encode_seq(among);
            assert(e.len() == 17 + es.len());
            assert forall|i: int| 0 <= i < 8 implies b.subrange(pos + 1, pos + 9)[i] == nb[i] by {
                assert(e[1 + i] == nb[i]);
                assert(b[pos + (1 + i)] == e[1 + i]);
                assert(b.subrange(pos + 1, pos + 9)[i] == b[pos + 1 + i]);
            }
            assert(b.subrange(pos + 1, pos + 9) =~= nb);
            assert forall|i: int| 0 <= i < 8 implies b.subrange(pos + 9, pos + 17)[i] == cb[i] by {
                assert(e[9 + i] == cb[i]);
                assert(b[pos + (9 + i)] == e[9 + i]);
                assert(b.subrange(pos + 9, pos + 17)[i] == b[pos + 9 + i]);
            }
            assert(b.subrange(pos + 9, pos + 17) =~= cb);
            assert(spec_u64_from_le_bytes(nb) == n as u64);
            assert(spec_u64_from_le_bytes(cb) == among.len() as u64);
            assert forall|i: int| 0 <= i < es.len() implies b[pos + 17 + i] == #[trigger] es[i] by {
                assert(e[17 + i] == es[i]);
                assert(b[pos + (17 + i)] == e[17 + i]);
            }
            lemma_at_bytes(b, pos + 17, es);
            lemma_decode_encode_seq(among, b, pos + 17);
        },
    }
}

/// Reading a sequence of components back from their encodings yields the
/// sequence.
proof fn lemma_decode_encode_seq(s: Seq<QueryCompV>, b: Seq<u8>, pos: int)
    requires
        forall|i: int| 0 <= i < s.len() ==> wf_v(#[trigger] s[i]),
        0 <= pos,
        pos + spec_encode_seq(s).len() <= b.len(),
        b.subrange(pos, pos + spec_encode_seq(s).len() as int) == spec_encode_seq(s),
    ensures
        spec_decode_comps(b, pos, s.len() as int) == Some((s, pos + spec_encode_seq(s).len())),
    decreases s,
{
    if s.len() == 0 {
        assert(spec_decode_comps(b, pos, 0) == Some((Seq::<QueryCompV>::empty(), pos)));
        assert(s =~= Seq::<QueryCompV>::empty());
    } else {
        let e = spec_encode_seq(s);
        let e0 = spec_encode(s[0]);
        let rest = s.subrange(1, s.len() as int);
        let er = spec_encode_seq(rest);
        assert(e == e0 + er);
        lemma_bytes_at(b, pos, e);
        assert forall|i: int| 0 <= i < e0.len() implies b[pos + i] == #[trigger] e0[i] by {
            assert(e[i] == e0[i]);
        }
        lemma_at_bytes(b, pos, e0);
        lemma_decode_encode(s[0], b, pos);
        lemma_encode_len_pos(s[0]);
        let p1 = pos + e0.len();
        assert forall|i: int| 0 <= i < er.len() implies b[p1 + i] == #[trigger] er[i] by {
            assert(e[e0.len() + i] == er[i]);
            assert(b[pos + (e0.len() + i)] == e[e0.len() + i]);
        }
        lemma_at_bytes(b, p1, er);
        lemma_decode_encode_seq(rest, b, p1);
        assert(seq![s[0]] + rest =~= s);
    }
}

/// Round trip: decoding the encoding of any machine-representable query
/// yields the same query with no bytes left over.
pub proof fn lemma_codec_round_trip(q: QueryCompV)
    requires
        wf_v(q),
    ensures
        spec_decode(spec_encode(q)) == Some(q),
{
    let b = spec_encode(q);
    assert(b.subrange(0, b.len() as int) =~= b);
    lemma_decode_encode(q, b, 0);
}

} // verus!
