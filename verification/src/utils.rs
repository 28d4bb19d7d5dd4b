//! Hex formatting and small shared helpers.

use crate::model::zero32;
use crate::structures::SmtProof;
use vstd::prelude::*;

verus! {

/// The lower-case hex digit of a nibble.
pub open spec fn hex_digit(n: u8) -> char
    recommends
        n < 16,
{
    if n < 10 {
        ((n + 48) as u8) as char
    } else {
        ((n + 87) as u8) as char
    }
}

/// The two hex digits of one byte, high nibble first.
pub open spec fn hex_of_byte(b: u8) -> Seq<char> {
    seq![hex_digit(b / 16), hex_digit(b % 16)]
}

/// The hex string of a byte string: two digits per byte, in order.
pub open spec fn hex_of(s: Seq<u8>) -> Seq<char>
    decreases s.len(),
{
    if s.len() == 0 {
        Seq::empty()
    } else {
        hex_of(s.drop_last()) + hex_of_byte(s.last())
    }
}

/// A hex string is twice as long as the bytes it encodes.
pub proof fn lemma_hex_of_len(s: Seq<u8>)
    ensures
        hex_of(s).len() == 2 * s.len(),
    decreases s.len(),
{
    if s.len() == 0 {
    } else {
        lemma_hex_of_len(s.drop_last());
    }
}

/// Distinct nibbles get distinct hex digits.
proof fn lemma_hex_digit_injective(a: u8, b: u8)
    requires
        a < 16,
        b < 16,
        hex_digit(a) == hex_digit(b),
    ensures
        a == b,
{
    assert(hex_digit(a) as u32 == if a < 10 {
        (a + 48) as u32
    } else {
        (a + 87) as u32
    });
    assert(hex_digit(b) as u32 == if b < 10 {
        (b + 48) as u32
    } else {
        (b + 87) as u32
    });
}

/// Distinct byte strings get distinct hex strings.
pub proof fn lemma_hex_of_injective(s: Seq<u8>, t: Seq<u8>)
    requires
        hex_of(s) == hex_of(t),
    ensures
        s == t,
    decreases s.len(),
{
    lemma_hex_of_len(s);
    lemma_hex_of_len(t);
    if s.len() == 0 {
        assert(s =~= t);
    } else {
        lemma_hex_of_len(s.drop_last());
        lemma_hex_of_len(t.drop_last());
        let hs = hex_of(s.drop_last());
        let ht = hex_of(t.drop_last());
        assert(hex_of(s)[hex_of(s).len() - 2] == hex_of_byte(s.last())[0]);
        assert(hex_of(s)[hex_of(s).len() - 1] == hex_of_byte(s.last())[1]);
        assert(hex_of(t)[hex_of(t).len() - 2] == hex_of_byte(t.last())[0]);
        assert(hex_of(t)[hex_of(t).len() - 1] == hex_of_byte(t.last())[1]);
        lemma_hex_digit_injective(s.last() / 16, t.last() / 16);
        lemma_hex_digit_injective(s.last() % 16, t.last() % 16);
        assert(s.last() == t.last());
        assert(hs =~= ht) by {
            assert forall|i: int| 0 <= i < hs.len() implies hs[i] == ht[i] by {
                assert(hex_of(s)[i] == hs[i]);
                assert(hex_of(t)[i] == ht[i]);
            }
        }
        lemma_hex_of_injective(s.drop_last(), t.drop_last());
        assert forall|i: int| 0 <= i < s.len() implies s[i] == t[i] by {
            if i < s.len() - 1 {
                assert(s.drop_last()[i] == t.drop_last()[i]);
            } else {
                assert(s[i] == s.last());
                assert(t[i] == t.last());
            }
        }
        assert(s =~= t);
    }
}

/// Relies on String::push: appends exactly one character.
#[verifier::external_body]
pub(crate) fn push_char(s: &mut String, c: char)
    ensures
        final(s)@ == old(s)@ + seq![c],
{
    s.push(c);
}

/// The lower-case hex encoding of a byte slice.
pub fn slice_to_hex_string(slice: &[u8]) -> (r: String)
    ensures
        r@ == hex_of(slice@),
{
    let n = slice.len();
    let mut r = String::new();
    proof {
        assert(slice@.take(0) =~= Seq::<u8>::empty());
        assert(r@ =~= hex_of(slice@.take(0)));
    }
    let mut i: usize = 0;
    while i < n
        invariant
            n == slice@.len(),
            i <= n,
            r@ == hex_of(slice@.take(i as int)),
        decreases n - i,
    {
        let b = slice[i];
        let hi: u8 = b / 16;
        let lo: u8 = b % 16;
        let hc: char = if hi < 10 {
            (hi + 48) as char
        } else {
            (hi + 87) as char
        };
        let lc: char = if lo < 10 {
            (lo + 48) as char
        } else {
            (lo + 87) as char
        };
        proof {
            assert(hc == hex_digit(hi));
            assert(lc == hex_digit(lo));
        }
        push_char(&mut r, hc);
        push_char(&mut r, lc);
        proof {
            let t = slice@.take(i + 1);
            assert(t.drop_last() =~= slice@.take(i as int));
            assert(t.last() == slice@[i as int]);
            assert(r@ =~= hex_of(slice@.take(i as int)) + hex_of_byte(slice@[i as int]));
        }
        i += 1;
    }
    proof {
        assert(slice@.take(n as int) =~= slice@);
    }
    r
}

/// The empty compiled proof: the sentinel used when no proof was asked for.
pub fn get_empty_compiled_proof() -> (r: SmtProof)
    ensures
        r.0@ == Seq::<u8>::empty(),
{
    SmtProof::default()
}

/// The sentinel proof map: the all-zero key in hex, bound to the empty
/// string.
pub fn default_merkel_proof() -> (r: Vec<(String, String)>)
    ensures
        r@.len() == 1,
        r@[0].0@ == hex_of(zero32()),
        r@[0].1@ == Seq::<char>::empty(),
{
    let zeros = [0u8; 32];
    proof {
        assert(zeros@ =~= zero32());
    }
    let k = slice_to_hex_string(zeros.as_slice());
    let v = String::new();
    let mut r: Vec<(String, String)> = Vec::new();
    r.push((k, v));
    r
}

/// Relies on std's TryInto from a byte slice to a 32-byte array: it
/// succeeds exactly when the slice holds 32 bytes, and copies them.
#[verifier::external_body]
pub(crate) fn bytes32_of_slice(s: &[u8]) -> (r: [u8; 32])
    requires
        s@.len() == 32,
    ensures
        r@ == s@,
{
    s.try_into().unwrap()
}

} // verus!
