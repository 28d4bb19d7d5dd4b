//! The plain data types of the tree service.
//!
//! Keys, values and roots are fixed 32-byte strings; a compiled proof is a
//! byte string of any length.  The response types carry hex strings, ready
//! for a transport layer to serialize.

use crate::model::zero32;
use vstd::prelude::*;

verus! {

/// A 32-byte leaf key, read as a 256-bit path from the root to a leaf.
#[derive(Clone, Copy, Debug)]
pub struct SmtKey(pub [u8; 32]);

/// A 32-byte leaf value; the all-zero value marks deletion.
#[derive(Clone, Copy, Debug)]
pub struct SmtValue(pub [u8; 32]);

/// A 32-byte Merkle root.
#[derive(Clone, Copy, Debug)]
pub struct SmtRoot(pub [u8; 32]);

/// A compiled Merkle proof: the compact byte encoding of one leaf's path.
#[derive(Clone, Debug)]
pub struct SmtProof(pub Vec<u8>);

/// One leaf update: a key and the value to write under it.
#[derive(Clone, Copy, Debug)]
pub struct Pair {
    pub key: SmtKey,
    pub value: SmtValue,
}

/// What a caller asks of an update: the new root, compiled proofs, both or
/// neither.
#[derive(Clone, Copy, Debug)]
pub struct Opt {
    pub get_proof: bool,
    pub get_root: bool,
}

/// The answer to a batch update: the root and one hex proof per hex key.
#[derive(Debug)]
pub struct Response {
    pub root: SmtRoot,
    pub proofs: Vec<(String, String)>,
}

/// The answer to a sequenced update: one hex root and one hex proof per hex
/// key, each taken right after that key's own update.
#[derive(Debug)]
pub struct ResponseSequence {
    pub roots: Vec<(String, String)>,
    pub proofs: Vec<(String, String)>,
}

/// Whether a store-level operation succeeded.
#[derive(Clone, Copy, Debug)]
pub struct OperationResult(pub bool);

impl SmtKey {
    /// An independent copy of this key.
    pub fn copy_new(&self) -> (r: SmtKey)
        ensures
            r.0@ == self.0@,
    {
        SmtKey(self.0)
    }
}

impl SmtValue {
    /// The deletion marker: the all-zero value.
    pub fn zero() -> (r: SmtValue)
        ensures
            r.0@ == zero32(),
    {
        let v = SmtValue([0u8; 32]);
        proof {
            assert(v.0@ =~= zero32());
        }
        v
    }
}

impl Default for SmtKey {
    fn default() -> (r: Self)
        ensures
            r.0@ == zero32(),
    {
        let r = SmtKey([0u8; 32]);
        proof {
            assert(r.0@ =~= zero32());
        }
        r
    }
}

impl Default for SmtValue {
    fn default() -> (r: Self)
        ensures
            r.0@ == zero32(),
    {
        SmtValue(SmtKey::default().0)
    }
}

impl Default for SmtRoot {
    fn default() -> (r: Self)
        ensures
            r.0@ == zero32(),
    {
        SmtRoot(SmtKey::default().0)
    }
}

impl Default for SmtProof {
    fn default() -> (r: Self)
        ensures
            r.0@ == Seq::<u8>::empty(),
    {
        let r = SmtProof(Vec::new());
        proof {
            assert(r.0@ =~= Seq::<u8>::empty());
        }
        r
    }
}

impl Default for Response {
    /// The answer for an empty request: zero root, no proofs.
    fn default() -> (r: Self)
        ensures
            r.root.0@ == zero32(),
            r.proofs@ =~= Seq::<(String, String)>::empty(),
    {
        Response { root: SmtRoot::default(), proofs: Vec::new() }
    }
}

/// A generator of test leaf keys: a cursor over keys whose first
/// `cur_idx` bytes are 255, whose byte `cur_idx` counts up, and whose
/// remaining bytes are zero.
#[derive(Debug)]
pub struct IteratorSmtKey {
    pub cur_idx: usize,
    pub cur_num: usize,
}

/// The key bytes the cursor stands at.
pub open spec fn iter_key_at(idx: int, num: int) -> Seq<u8> {
    Seq::new(
        32,
        |i: int|
            if i < idx {
                255u8
            } else if i == idx {
                num as u8
            } else {
                0u8
            },
    )
}

impl IteratorSmtKey {
    /// The cursor's well-formedness: the counter byte stays a byte, the
    /// index never passes the key width, and past the width the counter
    /// rests at zero.
    pub open spec fn wf(&self) -> bool {
        self.cur_idx <= 32 && self.cur_num <= 255 && (self.cur_idx == 32 ==> self.cur_num == 0)
    }

    /// The index after the carry at the start of a step.
    pub open spec fn norm_idx(&self) -> int {
        if self.cur_num == 255 {
            self.cur_idx + 1
        } else {
            self.cur_idx as int
        }
    }

    /// The counter after the carry at the start of a step.
    pub open spec fn norm_num(&self) -> int {
        if self.cur_num == 255 {
            0
        } else {
            self.cur_num as int
        }
    }

    /// Yields the key at the cursor and moves the cursor on.  Once the
    /// index passes the key width the all-255 key repeats forever.
    pub fn next(&mut self) -> (r: Option<SmtKey>)
        requires
            old(self).wf(),
        ensures
            final(self).wf(),
            final(self).cur_idx == old(self).norm_idx(),
            final(self).cur_num == if old(self).norm_idx() < 32 {
                old(self).norm_num() + 1
            } else {
                old(self).norm_num()
            },
            r matches Some(k) ==> k.0@ == iter_key_at(old(self).norm_idx(), old(self).norm_num()),
            r is Some,
    {
        if self.cur_num == 255 {
            self.cur_idx += 1;
            self.cur_num = 0;
        }
        let idx = self.cur_idx;
        let num = self.cur_num;
        let mut bytes: Vec<u8> = Vec::new();
        proof {
            assert(bytes@ =~= iter_key_at(idx as int, num as int).take(0));
        }
        let mut i: usize = 0;
        while i < 32
            invariant
                i <= 32,
                idx <= 32,
                num <= 255,
                bytes@ == iter_key_at(idx as int, num as int).take(i as int),
            decreases 32 - i,
        {
            let b: u8 = if i < idx {
                255u8
            } else if i == idx {
                num as u8
            } else {
                0u8
            };
            bytes.push(b);
            proof {
                assert(bytes@ =~= iter_key_at(idx as int, num as int).take(i + 1));
            }
            i += 1;
        }
        proof {
            assert(iter_key_at(idx as int, num as int).take(32) =~= iter_key_at(
                idx as int,
                num as int,
            ));
        }
        let key = SmtKey(crate::utils::bytes32_of_slice(bytes.as_slice()));
        if idx < 32 {
            self.cur_num += 1;
        }
        if self.cur_idx == 255 && self.cur_num == 255 {
            None
        } else {
            Some(key)
        }
    }
}

impl Default for IteratorSmtKey {
    /// A cursor at the all-zero key.
    fn default() -> (r: Self)
        ensures
            r.wf(),
            r.cur_idx == 0,
            r.cur_num == 0,
    {
        IteratorSmtKey { cur_idx: 0, cur_num: 0 }
    }
}

/// Whether two keys hold the same 32 bytes.
pub fn key_eq(a: &SmtKey, b: &SmtKey) -> (r: bool)
    ensures
        r <==> a.0@ == b.0@,
{
    let mut i: usize = 0;
    while i < 32
        invariant
            i <= 32,
            forall|j: int| 0 <= j < i ==> a.0@[j] == b.0@[j],
        decreases 32 - i,
    {
        if a.0[i] != b.0[i] {
            return false;
        }
        i += 1;
    }
    proof {
        assert(a.0@ =~= b.0@);
    }
    true
}

/// Whether a value is the all-zero deletion marker.
pub fn value_is_zero(v: &SmtValue) -> (r: bool)
    ensures
        r <==> v.0@ == zero32(),
{
    let mut i: usize = 0;
    while i < 32
        invariant
            i <= 32,
            forall|j: int| 0 <= j < i ==> v.0@[j] == 0u8,
        decreases 32 - i,
    {
        if v.0[i] != 0 {
            proof {
                assert(v.0@[i as int] != zero32()[i as int]);
            }
            return false;
        }
        i += 1;
    }
    proof {
        assert(v.0@ =~= zero32());
    }
    true
}

} // verus!
