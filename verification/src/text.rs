//! Tokenization, shared verbatim between document word extraction and
//! query-text handling so that index keys and query terms are comparable:
//! text splits on every character that is not an ASCII letter or digit,
//! runs shorter than three characters are dropped, and the rest are
//! lower-cased.

use vstd::prelude::*;
use vstd::string::StrSliceExecFns;

verus! {

/// Whether `c` is an ASCII letter or digit.
pub open spec fn is_alnum(c: char) -> bool {
    (48 <= c as u32 && c as u32 <= 57) || (97 <= c as u32 && c as u32 <= 122) || (65 <= c as u32
        && c as u32 <= 90)
}

/// `c` with an ASCII capital mapped to its lower-case letter; anything
/// else is unchanged.
pub open spec fn lower_char(c: char) -> char {
    if 65 <= c as u32 && c as u32 <= 90 {
        ((c as u32) + 32) as char
    } else {
        c
    }
}

/// [`lower_char`] applied to every character.
pub open spec fn lower_seq(s: Seq<char>) -> Seq<char> {
    Seq::new(s.len(), |i: int| lower_char(s[i]))
}

/// The length of the leading run of ASCII alphanumeric characters.
pub open spec fn run_len(s: Seq<char>) -> nat
    decreases s.len(),
{
    if s.len() == 0 || !is_alnum(s[0]) {
        0
    } else {
        1 + run_len(s.subrange(1, s.len() as int))
    }
}

/// The leading run never reaches past the end.
pub proof fn lemma_run_len_le(s: Seq<char>)
    ensures
        run_len(s) <= s.len(),
    decreases s.len(),
{
    if s.len() > 0 && is_alnum(s[0]) {
        lemma_run_len_le(s.subrange(1, s.len() as int));
    }
}

/// The tokens of a character sequence: each maximal alphanumeric run of
/// length at least 3, lower-cased, in order of appearance.
pub open spec fn spec_tokenize(s: Seq<char>) -> Seq<Seq<char>>
    decreases s.len(),
    via spec_tokenize_dec
{
    if s.len() == 0 {
        Seq::empty()
    } else if !is_alnum(s[0]) {
        spec_tokenize(s.subrange(1, s.len() as int))
    } else {
        let r = run_len(s);
        (if r >= 3 {
            seq![lower_seq(s.subrange(0, r as int))]
        } else {
            Seq::<Seq<char>>::empty()
        }) + spec_tokenize(s.subrange(r as int, s.len() as int))
    }
}

#[via_fn]
proof fn spec_tokenize_dec(s: Seq<char>) {
    lemma_run_len_le(s);
}

/// A run of `k` alphanumeric characters ended by the end of the sequence
/// or a non-alphanumeric character is the leading run.
pub proof fn lemma_run_len_is(s: Seq<char>, k: int)
    requires
        0 <= k <= s.len(),
        forall|t: int| 0 <= t < k ==> is_alnum(#[trigger] s[t]),
        k == s.len() || !is_alnum(s[k]),
    ensures
        run_len(s) == k,
    decreases s.len(),
{
    if k == 0 {
    } else {
        let rest = s.subrange(1, s.len() as int);
        assert(forall|t: int| 0 <= t < k - 1 ==> is_alnum(#[trigger] rest[t]));
        assert(k - 1 == rest.len() || !is_alnum(rest[k - 1]));
        lemma_run_len_is(rest, k - 1);
    }
}

/// Whether `c` is an ASCII letter or digit.
pub fn is_alnum_char(c: char) -> (r: bool)
    ensures
        r == is_alnum(c),
{
    let u: u32 = c as u32;
    (48 <= u && u <= 57) || (97 <= u && u <= 122) || (65 <= u && u <= 90)
}

/// Relies on str::to_ascii_lowercase: ASCII capitals are mapped to their
/// lower-case letters and every other character is unchanged.
#[verifier::external_body]
fn lowercase_ascii(s: &str) -> (r: String)
    ensures
        r@ == lower_seq(s@),
{
    s.to_ascii_lowercase()
}

/// Splits `s` into its tokens.
#[verifier::loop_isolation(false)]
pub fn tokenize(s: &str) -> (r: Vec<String>)
    ensures
        r.deep_view() == spec_tokenize(s@),
{
    let n: usize = s.unicode_len();
    let mut out: Vec<String> = Vec::new();
    let mut i: usize = 0;
    proof {
        assert(s@.subrange(0, n as int) =~= s@);
        assert(out.deep_view() =~= Seq::<Seq<char>>::empty());
    }
    while i < n
        invariant
            0 <= i <= n,
            out.deep_view() + spec_tokenize(s@.subrange(i as int, n as int)) == spec_tokenize(s@),
        decreases n - i,
    {
        let c = s.get_char(i);
        if is_alnum_char(c) {
            let mut j: usize = i + 1;
            loop
                invariant
                    i < j <= n,
                    forall|t: int| i <= t < j ==> is_alnum(#[trigger] s@[t]),
                decreases n - j,
            {
                if j == n {
                    break ;
                }
                let cj = s.get_char(j);
                if !is_alnum_char(cj) {
                    break ;
                }
                j = j + 1;
            }
            proof {
                let u = s@.subrange(i as int, n as int);
                assert(forall|t: int| 0 <= t < j - i ==> is_alnum(#[trigger] u[t]));
                assert(j - i == u.len() || !is_alnum(u[j - i]));
                lemma_run_len_is(u, j - i);
                assert(u.subrange(0, (j - i) as int) =~= s@.subrange(i as int, j as int));
                assert(u.subrange((j - i) as int, u.len() as int) =~= s@.subrange(
                    j as int,
                    n as int,
                ));
            }
            if j - i >= 3 {
                let tok = s.substring_char(i, j);
                let low = lowercase_ascii(tok);
                let ghost prev = out.deep_view();
                out.push(low);
                proof {
                    assert(out.deep_view() =~= prev + seq![
                        lower_seq(s@.subrange(i as int, j as int)),
                    ]);
                    assert(out.deep_view() + spec_tokenize(s@.subrange(j as int, n as int))
                        =~= spec_tokenize(s@));
                }
            } else {
                proof {
                    assert(out.deep_view() + spec_tokenize(s@.subrange(j as int, n as int))
                        =~= spec_tokenize(s@));
                }
            }
            i = j;
        } else {
            proof {
                let u = s@.subrange(i as int, n as int);
                assert(!is_alnum(u[0]));
                assert(u.subrange(1, u.len() as int) =~= s@.subrange(i + 1, n as int));
            }
            i = i + 1;
        }
    }
    proof {
        assert(s@.subrange(n as int, n as int).len() == 0);
        assert(out.deep_view() + spec_tokenize(s@.subrange(n as int, n as int)) =~= out.deep_view());
    }
    out
}

} // verus!
