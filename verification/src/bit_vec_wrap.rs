//! A mutable bit-vector with rank, select, indel and prefix operations, the
//! collaborator that the wavelet trie builds on.
//!
//! Storage is delegated to `bit_vec::BitVec`; every operation beyond the
//! plain storage primitives (get, set, push, pop, ...) is implemented and
//! verified here against the model `Seq<bool>`.

use vstd::prelude::*;

use crate::bits::{
    bit_of_byte, bits_of_bytes, bits_of_u32s, lcp_len, lemma_lcp_bounds, lemma_lcp_maximal,
    lemma_rank_bounds, lemma_rank_split, lemma_select_unique, rank_of, select_of,
};

verus! {

/// Declares `bit_vec::BitVec` to the verifier; values of it are opaque
/// and are reached only through the trusted wrappers below.
#[verifier::external_type_specification]
#[verifier::external_body]
#[verifier::reject_recursive_types(B)]
pub struct ExBitVec<B>(bit_vec::BitVec<B>);

/// The sequence of bits that a `bit_vec::BitVec` holds, in index order.
pub uninterp spec fn bitvec_model(v: bit_vec::BitVec) -> Seq<bool>;

/// Relies on `bit_vec::BitVec::new`: creates an empty bit vector.
#[verifier::external_body]
fn raw_new() -> (r: bit_vec::BitVec)
    ensures
        bitvec_model(r) == Seq::<bool>::empty(),
{
    bit_vec::BitVec::new()
}

/// Relies on `bit_vec::BitVec::with_capacity`: creates an empty bit vector
/// (the argument only pre-allocates).
#[verifier::external_body]
fn raw_with_capacity(nbits: usize) -> (r: bit_vec::BitVec)
    ensures
        bitvec_model(r) == Seq::<bool>::empty(),
{
    bit_vec::BitVec::with_capacity(nbits)
}

/// Relies on `bit_vec::BitVec::from_elem`: `len` copies of `bit`.
#[verifier::external_body]
fn raw_from_elem(len: usize, bit: bool) -> (r: bit_vec::BitVec)
    ensures
        bitvec_model(r) == Seq::new(len as nat, |i: int| bit),
{
    bit_vec::BitVec::from_elem(len, bit)
}

/// Relies on `bit_vec::BitVec::from_bytes`: eight bits per byte, most
/// significant bit of each byte first.  It panics when the bit count
/// would overflow `usize`, so that case is excluded here.
#[verifier::external_body]
fn raw_from_bytes(bytes: &[u8]) -> (r: bit_vec::BitVec)
    requires
        8 * bytes@.len() <= usize::MAX,
    ensures
        bitvec_model(r) == bits_of_bytes(bytes@),
{
    bit_vec::BitVec::from_bytes(bytes)
}

/// Relies on `bit_vec::BitVec::get`: the bit at `i`, or `None` past the end.
#[verifier::external_body]
fn raw_get(v: &bit_vec::BitVec, i: usize) -> (r: Option<bool>)
    ensures
        r == if i < bitvec_model(*v).len() {
            Some(bitvec_model(*v)[i as int])
        } else {
            None::<bool>
        },
{
    v.get(i)
}

/// Relies on `bit_vec::BitVec::set`: overwrites the bit at `i`; panics when
/// `i` is out of range, so that case is excluded here.
#[verifier::external_body]
fn raw_set(v: &mut bit_vec::BitVec, i: usize, x: bool)
    requires
        i < bitvec_model(*old(v)).len(),
    ensures
        bitvec_model(*final(v)) == bitvec_model(*old(v)).update(i as int, x),
{
    v.set(i, x)
}

/// Relies on `bit_vec::BitVec::push`: appends one bit; panics when the
/// length would overflow `usize`, so that case is excluded here.
#[verifier::external_body]
fn raw_push(v: &mut bit_vec::BitVec, elem: bool)
    requires
        bitvec_model(*old(v)).len() < usize::MAX,
    ensures
        bitvec_model(*final(v)) == bitvec_model(*old(v)).push(elem),
{
    v.push(elem)
}

/// Relies on `bit_vec::BitVec::pop`: removes and returns the last bit.
#[verifier::external_body]
fn raw_pop(v: &mut bit_vec::BitVec) -> (r: Option<bool>)
    ensures
        bitvec_model(*old(v)).len() == 0 ==> r == None::<bool> && bitvec_model(*final(v))
            == bitvec_model(*old(v)),
        bitvec_model(*old(v)).len() > 0 ==> r == Some(bitvec_model(*old(v)).last())
            && bitvec_model(*final(v)) == bitvec_model(*old(v)).drop_last(),
{
    v.pop()
}

/// Relies on `bit_vec::BitVec::len`: the number of bits.
#[verifier::external_body]
fn raw_len(v: &bit_vec::BitVec) -> (r: usize)
    ensures
        r == bitvec_model(*v).len(),
{
    v.len()
}

/// Relies on `bit_vec::BitVec::truncate`: keeps the first `len` bits; no
/// effect when `len` is not below the current length.
#[verifier::external_body]
fn raw_truncate(v: &mut bit_vec::BitVec, len: usize)
    ensures
        bitvec_model(*final(v)) == if len < bitvec_model(*old(v)).len() {
            bitvec_model(*old(v)).take(len as int)
        } else {
            bitvec_model(*old(v))
        },
{
    v.truncate(len)
}

/// Relies on `bit_vec::BitVec::to_bytes`: packs the bits into bytes, most
/// significant bit of each byte first, padding the last byte with zeros.
#[verifier::external_body]
fn raw_to_bytes(v: &bit_vec::BitVec) -> (r: Vec<u8>)
    ensures
        r@.len() == (bitvec_model(*v).len() + 7) / 8,
        forall|i: int|
            0 <= i < bitvec_model(*v).len() ==> bit_of_byte(r@[i / 8], i % 8) == bitvec_model(
                *v,
            )[i],
        forall|bi: int, j: int|
            0 <= bi < r@.len() && 0 <= j < 8 && 8 * bi + j >= bitvec_model(*v).len()
                ==> #[trigger] bit_of_byte(r@[bi], j) == false,
{
    v.to_bytes()
}

/// Relies on `bit_vec::BitVec::capacity`: how many bits are allocated;
/// that depends on the allocator, so nothing is claimed of it.
#[verifier::external_body]
fn raw_capacity(v: &bit_vec::BitVec) -> usize {
    v.capacity()
}

/// Relies on `bit_vec::BitVec::clone`; nothing is claimed of the copy, and
/// the verified `copy` method below is used wherever the contents matter.
/// Declared so that `Clone` can be derived for types holding a `BitVec`.
pub assume_specification<B>[ <bit_vec::BitVec<B> as std::clone::Clone>::clone ](
    v: &bit_vec::BitVec<B>,
) -> bit_vec::BitVec<B>
    where
        B: bit_vec::BitBlock,
;

/// A bit-string: an ordered, mutable sequence of bits, with the operations
/// the wavelet trie needs (rank, select, indel, prefix tests, longest
/// common prefix).
///
/// Its model (`@`) is the sequence of bits it holds.
#[derive(Clone, Debug)]
pub struct BitVecWrap {
    bit_vec: bit_vec::BitVec,
}

impl View for BitVecWrap {
    type V = Seq<bool>;

    closed spec fn view(&self) -> Seq<bool> {
        bitvec_model(self.bit_vec)
    }
}

impl PartialEq for BitVecWrap {
    fn eq(&self, other: &BitVecWrap) -> (r: bool) {
        self.eq_bits(other)
    }
}

impl vstd::std_specs::cmp::PartialEqSpecImpl for BitVecWrap {
    open spec fn obeys_eq_spec() -> bool {
        true
    }

    open spec fn eq_spec(&self, other: &BitVecWrap) -> bool {
        self@ == other@
    }
}

impl BitVecWrap {
    /// The empty bit-string.
    pub fn new() -> (r: Self)
        ensures
            r@ == Seq::<bool>::empty(),
    {
        BitVecWrap { bit_vec: raw_new() }
    }

    /// `nbits` copies of `bit`.
    pub fn from_elem(nbits: usize, bit: bool) -> (r: Self)
        ensures
            r@ == Seq::new(nbits as nat, |i: int| bit),
    {
        BitVecWrap { bit_vec: raw_from_elem(nbits, bit) }
    }

    fn with_capacity(nbits: usize) -> (r: Self)
        ensures
            r@ == Seq::<bool>::empty(),
    {
        BitVecWrap { bit_vec: raw_with_capacity(nbits) }
    }

    /// The bits of `bytes`, most significant bit of each byte first.
    pub fn from_bytes(bytes: &[u8]) -> (r: Self)
        requires
            8 * bytes@.len() <= usize::MAX,
        ensures
            r@ == bits_of_bytes(bytes@),
    {
        BitVecWrap { bit_vec: raw_from_bytes(bytes) }
    }

    /// The bit at index `i`, or `None` past the end.
    pub fn get(&self, i: usize) -> (r: Option<bool>)
        ensures
            r == if i < self@.len() {
                Some(self@[i as int])
            } else {
                None::<bool>
            },
    {
        raw_get(&self.bit_vec, i)
    }

    /// Overwrites the bit at index `i`.
    pub fn set(&mut self, i: usize, elem: bool)
        requires
            i < old(self)@.len(),
        ensures
            final(self)@ == old(self)@.update(i as int, elem),
    {
        raw_set(&mut self.bit_vec, i, elem)
    }

    /// Appends a bit at the end.
    pub fn push(&mut self, elem: bool)
        requires
            old(self)@.len() < usize::MAX,
        ensures
            final(self)@ == old(self)@.push(elem),
    {
        raw_push(&mut self.bit_vec, elem)
    }

    /// Removes and returns the last bit; `None` when empty.
    pub fn pop(&mut self) -> (r: Option<bool>)
        ensures
            old(self)@.len() == 0 ==> r == None::<bool> && final(self)@ == old(self)@,
            old(self)@.len() > 0 ==> r == Some(old(self)@.last()) && final(self)@ == old(
                self,
            )@.drop_last(),
    {
        raw_pop(&mut self.bit_vec)
    }

    /// True when no bits are held.
    pub fn is_empty(&self) -> (r: bool)
        ensures
            r == (self@.len() == 0),
    {
        raw_len(&self.bit_vec) == 0
    }

    /// The number of bits held.
    pub fn len(&self) -> (r: usize)
        ensures
            r == self@.len(),
    {
        raw_len(&self.bit_vec)
    }

    /// Keeps only the first `len` bits; no effect when `len` is not below
    /// the current length.
    pub fn truncate(&mut self, len: usize)
        ensures
            final(self)@ == if len < old(self)@.len() {
                old(self)@.take(len as int)
            } else {
                old(self)@
            },
    {
        raw_truncate(&mut self.bit_vec, len)
    }

    /// The bits packed into bytes, most significant bit of each byte first,
    /// the last byte padded with zeros.
    pub fn to_bytes(&self) -> (r: Vec<u8>)
        ensures
            r@.len() == (self@.len() + 7) / 8,
            forall|i: int| 0 <= i < self@.len() ==> bit_of_byte(r@[i / 8], i % 8) == self@[i],
            forall|bi: int, j: int|
                0 <= bi < r@.len() && 0 <= j < 8 && 8 * bi + j >= self@.len()
                    ==> #[trigger] bit_of_byte(r@[bi], j) == false,
    {
        raw_to_bytes(&self.bit_vec)
    }

    /// Bit-by-bit equality.
    pub fn eq_bits(&self, other: &BitVecWrap) -> (r: bool)
        ensures
            r == (self@ == other@),
    {
        let n = self.len();
        if n != other.len() {
            assert(self@ != other@);
            return false;
        }
        let mut idx: usize = 0;
        while idx < n
            invariant
                0 <= idx <= n,
                n == self@.len(),
                n == other@.len(),
                forall|j: int| 0 <= j < idx ==> self@[j] == other@[j],
            decreases n - idx,
        {
            if self.get(idx) != other.get(idx) {
                assert(self@[idx as int] != other@[idx as int]);
                return false;
            }
            idx = idx + 1;
        }
        proof {
            assert(self@ =~= other@);
        }
        true
    }

    /// Inserts a bit at index `i`, shifting the bits after it one position
    /// towards the end.
    pub fn insert(&mut self, i: usize, elem: bool)
        requires
            i <= old(self)@.len(),
            old(self)@.len() < usize::MAX,
        ensures
            final(self)@ == old(self)@.insert(i as int, elem),
    {
        let ghost s0 = self@;
        let n = self.len();
        self.push(false);
        let mut idx: usize = n;
        while idx > i
            invariant
                i <= idx <= n,
                n == s0.len(),
                n < usize::MAX,
                self@.len() == n + 1,
                forall|j: int| 0 <= j < idx ==> self@[j] == s0[j],
                forall|j: int| idx < j <= n ==> self@[j] == s0[j - 1],
            decreases idx - i,
        {
            let prev = self.get(idx - 1).unwrap();
            self.set(idx, prev);
            idx = idx - 1;
        }
        self.set(i, elem);
        proof {
            assert(self@ =~= s0.insert(i as int, elem));
        }
    }

    /// Deletes the bit at index `i`, shifting the bits after it one
    /// position towards the beginning.
    pub fn delete(&mut self, i: usize)
        requires
            i < old(self)@.len(),
        ensures
            final(self)@ == old(self)@.remove(i as int),
    {
        let ghost s0 = self@;
        let n = self.len();
        let mut idx: usize = i + 1;
        while idx < n
            invariant
                i + 1 <= idx <= n,
                n == self@.len(),
                n == s0.len(),
                forall|j: int| 0 <= j < i ==> self@[j] == s0[j],
                forall|j: int| i <= j < idx - 1 ==> self@[j] == s0[j + 1],
                forall|j: int| idx - 1 <= j < n ==> self@[j] == s0[j],
            decreases n - idx,
        {
            let nxt = self.get(idx).unwrap();
            self.set(idx - 1, nxt);
            idx = idx + 1;
        }
        let _last = self.pop();
        proof {
            assert(self@ =~= s0.remove(i as int));
        }
    }

    /// Number of ones strictly before position `pos`.
    pub fn rank_one(&self, pos: usize) -> (r: usize)
        requires
            pos <= self@.len(),
        ensures
            r == rank_of(self@, true, pos as int),
    {
        let mut count: usize = 0;
        let mut idx: usize = 0;
        while idx < pos
            invariant
                0 <= idx <= pos <= self@.len(),
                count == rank_of(self@, true, idx as int),
            decreases pos - idx,
        {
            proof {
                lemma_rank_bounds(self@, true, idx as int);
                assert(rank_of(self@, true, idx + 1) == rank_of(self@, true, idx as int) + (if self@[idx as int]
                    == true {
                    1int
                } else {
                    0int
                }));
            }
            let b = self.get(idx).unwrap();
            if b {
                count = count + 1;
            }
            idx = idx + 1;
        }
        count
    }

    /// Number of zeros strictly before position `pos`.
    pub fn rank_zero(&self, pos: usize) -> (r: usize)
        requires
            pos <= self@.len(),
        ensures
            r == rank_of(self@, false, pos as int),
    {
        if pos == 0 {
            pos
        } else {
            proof {
                lemma_rank_split(self@, pos as int);
                lemma_rank_bounds(self@, true, pos as int);
            }
            pos - self.rank_one(pos)
        }
    }

    /// Number of bits equal to `b` strictly before position `pos`.
    pub fn rank(&self, b: bool, pos: usize) -> (r: usize)
        requires
            pos <= self@.len(),
        ensures
            r == rank_of(self@, b, pos as int),
    {
        if b {
            self.rank_one(pos)
        } else {
            self.rank_zero(pos)
        }
    }

    /// Position of the k-th (1-indexed) bit equal to `b`; the bit-string
    /// must hold at least `k` such bits.
    pub fn select(&self, b: bool, k: usize) -> (r: usize)
        requires
            1 <= k,
            k <= rank_of(self@, b, self@.len() as int),
        ensures
            r == select_of(self@, b, k as int),
            r < self@.len(),
            self@[r as int] == b,
            rank_of(self@, b, r as int) == k - 1,
    {
        let n = self.len();
        let mut count: usize = 0;
        let mut idx: usize = 0;
        while idx < n
            invariant
                0 <= idx <= n,
                n == self@.len(),
                count == rank_of(self@, b, idx as int),
                count < k <= rank_of(self@, b, n as int),
            decreases n - idx,
        {
            proof {
                lemma_rank_bounds(self@, b, idx as int);
                assert(rank_of(self@, b, idx + 1) == rank_of(self@, b, idx as int) + (if self@[idx as int]
                    == b {
                    1int
                } else {
                    0int
                }));
            }
            let bit = self.get(idx).unwrap();
            if bit == b {
                if count + 1 == k {
                    proof {
                        lemma_select_unique(self@, b, k as int, idx as int);
                    }
                    return idx;
                }
                count = count + 1;
            }
            idx = idx + 1;
        }
        proof {
            assert(false);
        }
        0
    }

    /// Position of the k-th (1-indexed) bit equal to `b`, or `None` when
    /// fewer than `k` such bits exist (or `k` is zero).
    pub fn try_select(&self, b: bool, k: usize) -> (r: Option<usize>)
        ensures
            match r {
                Some(p) => 1 <= k && k <= rank_of(self@, b, self@.len() as int) && p == select_of(
                    self@,
                    b,
                    k as int,
                ),
                None => !(1 <= k && k <= rank_of(self@, b, self@.len() as int)),
            },
    {
        if k == 0 {
            return None;
        }
        let n = self.len();
        let mut count: usize = 0;
        let mut idx: usize = 0;
        while idx < n
            invariant
                0 <= idx <= n,
                1 <= k,
                n == self@.len(),
                count == rank_of(self@, b, idx as int),
                count < k,
            decreases n - idx,
        {
            proof {
                lemma_rank_bounds(self@, b, idx as int);
                assert(rank_of(self@, b, idx + 1) == rank_of(self@, b, idx as int) + (if self@[idx as int]
                    == b {
                    1int
                } else {
                    0int
                }));
            }
            let bit = self.get(idx).unwrap();
            if bit == b {
                if count + 1 == k {
                    proof {
                        lemma_select_unique(self@, b, k as int, idx as int);
                    }
                    return Some(idx);
                }
                count = count + 1;
            }
            idx = idx + 1;
        }
        None
    }

    /// True when `self` is a prefix of `other`.
    pub fn is_prefix_of(&self, other: &BitVecWrap) -> (r: bool)
        ensures
            r == self@.is_prefix_of(other@),
    {
        let n = self.len();
        if n > other.len() {
            return false;
        }
        let mut idx: usize = 0;
        while idx < n
            invariant
                0 <= idx <= n,
                n == self@.len(),
                n <= other@.len(),
                forall|j: int| 0 <= j < idx ==> self@[j] == other@[j],
            decreases n - idx,
        {
            if self.get(idx) != other.get(idx) {
                assert(self@[idx as int] != other@[idx as int]);
                return false;
            }
            idx = idx + 1;
        }
        proof {
            assert(self@ =~= other@.subrange(0, self@.len() as int));
        }
        true
    }

    /// The longest common prefix of the two bit-strings; for equal
    /// bit-strings this is the whole bit-string.
    pub fn longest_common_prefix(&self, other: &BitVecWrap) -> (r: BitVecWrap)
        ensures
            r@ == self@.take(lcp_len(self@, other@)),
    {
        let n1 = self.len();
        let n2 = other.len();
        let mut res = BitVecWrap::new();
        let mut idx: usize = 0;
        while idx < n1 && idx < n2
            invariant
                0 <= idx,
                idx <= n1,
                idx <= n2,
                n1 == self@.len(),
                n2 == other@.len(),
                res@ == self@.take(idx as int),
                forall|j: int| 0 <= j < idx ==> self@[j] == other@[j],
            decreases n1 - idx,
        {
            let b1 = self.get(idx).unwrap();
            let b2 = other.get(idx).unwrap();
            if b1 != b2 {
                proof {
                    lemma_lcp_bounds(self@, other@);
                    lemma_lcp_maximal(self@, other@, idx as int);
                    assert(self@[idx as int] != other@[idx as int]);
                }
                return res;
            }
            res.push(b1);
            proof {
                assert(self@.take(idx + 1) =~= self@.take(idx as int).push(self@[idx as int]));
            }
            idx = idx + 1;
        }
        proof {
            lemma_lcp_bounds(self@, other@);
            lemma_lcp_maximal(self@, other@, idx as int);
        }
        res
    }

    /// The bit at position `len` together with the bits after it: the pair
    /// `(self[len], self[len + 1 ..])`.
    pub fn different_suffix(&self, len: usize) -> (r: (bool, BitVecWrap))
        requires
            len < self@.len(),
        ensures
            r.0 == self@[len as int],
            r.1@ == self@.skip(len as int + 1),
    {
        let first_bit = self.get(len).unwrap();
        let n = self.len();
        let mut res = BitVecWrap::new();
        let mut idx: usize = len + 1;
        while idx < n
            invariant
                len + 1 <= idx <= n,
                n == self@.len(),
                res@ == self@.subrange(len + 1, idx as int),
            decreases n - idx,
        {
            let b = self.get(idx).unwrap();
            res.push(b);
            proof {
                assert(self@.subrange(len + 1, idx + 1) =~= self@.subrange(len + 1, idx as int).push(
                    self@[idx as int],
                ));
            }
            idx = idx + 1;
        }
        (first_bit, res)
    }

    /// A fresh bit-string with the same contents.
    pub fn copy(&self) -> (r: BitVecWrap)
        ensures
            r@ == self@,
    {
        let n = self.len();
        let mut res = BitVecWrap::with_capacity(n);
        let mut idx: usize = 0;
        while idx < n
            invariant
                0 <= idx <= n,
                n == self@.len(),
                res@ == self@.take(idx as int),
            decreases n - idx,
        {
            let b = self.get(idx).unwrap();
            res.push(b);
            proof {
                assert(self@.take(idx + 1) =~= self@.take(idx as int).push(self@[idx as int]));
            }
            idx = idx + 1;
        }
        proof {
            assert(self@.take(n as int) =~= self@);
        }
        res
    }

    /// Appends the bits of `other` at the end.
    pub fn append_vec(&mut self, other: &BitVecWrap)
        requires
            old(self)@.len() + other@.len() <= usize::MAX,
        ensures
            final(self)@ == old(self)@ + other@,
    {
        let ghost s0 = self@;
        let n = other.len();
        let mut idx: usize = 0;
        while idx < n
            invariant
                0 <= idx <= n,
                n == other@.len(),
                s0.len() + n <= usize::MAX,
                self@ == s0 + other@.take(idx as int),
            decreases n - idx,
        {
            let b = other.get(idx).unwrap();
            self.push(b);
            proof {
                assert(s0 + other@.take(idx + 1) =~= (s0 + other@.take(idx as int)).push(
                    other@[idx as int],
                ));
            }
            idx = idx + 1;
        }
        proof {
            assert(s0 + other@.take(n as int) =~= s0 + other@);
        }
    }

    /// Resets every bit to `false`, keeping the length.
    pub fn set_none(&mut self)
        ensures
            final(self)@ == Seq::new(old(self)@.len(), |i: int| false),
    {
        let ghost s0 = self@;
        let n = self.len();
        let mut idx: usize = 0;
        while idx < n
            invariant
                0 <= idx <= n,
                n == self@.len(),
                n == s0.len(),
                forall|j: int| 0 <= j < idx ==> self@[j] == false,
            decreases n - idx,
        {
            self.set(idx, false);
            idx = idx + 1;
        }
        proof {
            assert(self@ =~= Seq::new(s0.len(), |i: int| false));
        }
    }

    /// How many bits are allocated; allocator-dependent, so nothing is
    /// promised of the value.
    pub fn capacity(&self) -> usize {
        raw_capacity(&self.bit_vec)
    }

    /// The bits of a slice of 32-bit words, least significant bit of each
    /// word first.
    pub fn from_u32_slice(words: &[u32]) -> (r: Self)
        requires
            words@.len() * 32 <= usize::MAX,
        ensures
            r@ == bits_of_u32s(words@),
    {
        let n = words.len();
        let mut res = BitVecWrap::new();
        let mut wi: usize = 0;
        while wi < n
            invariant
                0 <= wi <= n,
                n == words@.len(),
                n * 32 <= usize::MAX,
                res@.len() == wi * 32,
                forall|i: int|
                    0 <= i < wi * 32 ==> res@[i] == ((words@[i / 32] >> ((i % 32) as u32)) & 1u32
                        == 1u32),
            decreases n - wi,
        {
            let w = words[wi];
            let mut j: usize = 0;
            while j < 32
                invariant
                    0 <= j <= 32,
                    0 <= wi < n,
                    n == words@.len(),
                    n * 32 <= usize::MAX,
                    w == words@[wi as int],
                    res@.len() == wi * 32 + j,
                    forall|i: int|
                        0 <= i < wi * 32 + j ==> res@[i] == ((words@[i / 32] >> ((i % 32) as u32))
                            & 1u32 == 1u32),
                decreases 32 - j,
            {
                let bit = (w >> (j as u32)) & 1u32 == 1u32;
                proof {
                    assert(wi * 32 + j < n * 32) by (nonlinear_arith)
                        requires
                            0 <= j < 32,
                            0 <= wi < n,
                    ;
                    assert((wi * 32 + j) / 32 == wi && (wi * 32 + j) % 32 == j)
                        by (nonlinear_arith)
                        requires
                            0 <= j < 32,
                            0 <= wi,
                    ;
                }
                res.push(bit);
                j = j + 1;
            }
            wi = wi + 1;
        }
        proof {
            assert(res@ =~= bits_of_u32s(words@));
        }
        res
    }
}

} // verus!
