//! The wavelet trie: a recursive binary trie over bit-strings, after
//! Grossi and Ottaviano, "The Wavelet Trie: Maintaining an Indexed Sequence
//! of Strings in Compressed Space".
//!
//! A trie node holds a shared prefix `α` and a positions bit-string `β`
//! whose i-th bit routes the i-th sequence through this node to the left
//! (0) or right (1) child.  The model of a trie is the indexed sequence of
//! bit-strings it stores; every public operation carries a contract over
//! that model.

use vstd::prelude::*;

use crate::bit_vec_wrap::BitVecWrap;
use vstd::string::StringSliceAdditionalSpecFns;
use vstd::utf8::{decode_utf8, encode_utf8, valid_utf8};
use crate::bits::{
    lemma_insert_index, lemma_rank_bounds, lemma_rank_compose, lemma_rank_congruence,
    lemma_rank_const, lemma_rank_insert, lemma_rank_monotone, lemma_rank_remove, lemma_rank_split,
    lemma_remove_index, lemma_select_props, lemma_select_unique, lemma_diverge_incomparable,
    lemma_lcp_bounds, lemma_lcp_maximal, lemma_lcp_self, lemma_ones_of, lemma_pref_congruence,
    lemma_pref_trans,
    lemma_compat_congruence, lemma_prefixes_comparable, lemma_rank_push, lemma_split_at,
    bits_of_bytes, bytes_of_bits, compatible, lcp_len, lemma_bits_of_bytes_concat,
    lemma_bytes_of_bits_roundtrip, lemma_select_after, ones_of, rank_of, select_of,
};

verus! {

/// A wavelet trie node; the root represents the whole indexed sequence of
/// stored bit-strings.
#[derive(Debug)]
pub struct WaveletTrie {
    prefix: BitVecWrap,
    positions: BitVecWrap,
    left: Option<Box<WaveletTrie>>,
    right: Option<Box<WaveletTrie>>,
}

/// Whether a query `q` counts an occurrence of the stored sequence `u`
/// under `rank`: either `q` is a prefix of `u`, or `u` is a strict prefix
/// of `q` and `q` continues with a zero bit (the all-zero positions bits of
/// the leaf holding `u` route such a query through `u`'s occurrences).
pub open spec fn ext_match(u: Seq<bool>, q: Seq<bool>) -> bool {
    q.is_prefix_of(u) || (u.is_prefix_of(q) && u.len() < q.len() && q[u.len() as int] == false)
}

/// One bit per stored sequence: whether `rank` counts it for query `q`.
pub open spec fn ext_mask(ss: Seq<Seq<bool>>, q: Seq<bool>) -> Seq<bool> {
    Seq::new(ss.len(), |j: int| ext_match(ss[j], q))
}

/// One bit per stored sequence: whether `q` is a prefix of it.
pub open spec fn pref_mask(ss: Seq<Seq<bool>>, q: Seq<bool>) -> Seq<bool> {
    Seq::new(ss.len(), |j: int| q.is_prefix_of(ss[j]))
}

/// Whether some stored sequence is comparable with the query: one is a
/// prefix of the other.  `rank` answers `None` exactly when nothing is.
pub open spec fn occurs(ss: Seq<Seq<bool>>, q: Seq<bool>) -> bool {
    exists|j: int|
        0 <= j < ss.len() && (q.is_prefix_of(#[trigger] ss[j]) || ss[j].is_prefix_of(q))
}

/// The bit sequences held by a sequence of bit-strings.
pub open spec fn models(s: Seq<BitVecWrap>) -> Seq<Seq<bool>> {
    s.map_values(|w: BitVecWrap| w@)
}

/// A prefix-free collection: no sequence is a strict prefix of another.
#[verifier::opaque]
pub open spec fn pairwise_compatible(ss: Seq<Seq<bool>>) -> bool {
    forall|i: int, j: int|
        0 <= i < ss.len() && 0 <= j < ss.len() ==> compatible(#[trigger] ss[i], #[trigger] ss[j])
}

/// Declares `std::string::FromUtf8Error` to the verifier, so that
/// `access_str` can return it as the original `String::from_utf8` error.
#[verifier::external_type_specification]
#[verifier::external_body]
pub struct ExFromUtf8Error(std::string::FromUtf8Error);

/// Relies on `String::from_utf8`: it succeeds exactly on valid UTF-8, and
/// then returns the string whose characters are the decoding of the bytes.
#[verifier::external_body]
fn string_from_utf8(v: Vec<u8>) -> (r: Result<String, std::string::FromUtf8Error>)
    ensures
        r is Ok <==> valid_utf8(v@),
        r is Ok ==> r.unwrap()@ == decode_utf8(v@),
{
    std::string::String::from_utf8(v)
}

/// A value clamped to what a machine word can hold.
pub open spec fn cap_usize(x: int) -> int {
    if x <= usize::MAX {
        x
    } else {
        usize::MAX as int
    }
}

/// The longest length among a collection of bit sequences.
pub open spec fn max_len(ss: Seq<Seq<bool>>) -> int
    decreases ss.len(),
{
    if ss.len() == 0 {
        0
    } else {
        vstd::math::max(max_len(ss.drop_last()), ss.last().len() as int)
    }
}

pub proof fn lemma_max_len(ss: Seq<Seq<bool>>)
    ensures
        max_len(ss) >= 0,
        forall|k: int| 0 <= k < ss.len() ==> (#[trigger] ss[k]).len() <= max_len(ss),
    decreases ss.len(),
{
    if ss.len() > 0 {
        lemma_max_len(ss.drop_last());
        assert forall|k: int| 0 <= k < ss.len() implies (#[trigger] ss[k]).len() <= max_len(
            ss,
        ) by {
            if k < ss.len() - 1 {
                assert(ss.drop_last()[k] == ss[k]);
            }
        }
    }
}

pub proof fn lemma_max_len_bound(ss: Seq<Seq<bool>>, bound: int)
    requires
        bound >= 0,
        forall|k: int| 0 <= k < ss.len() ==> (#[trigger] ss[k]).len() <= bound,
    ensures
        max_len(ss) <= bound,
    decreases ss.len(),
{
    if ss.len() > 0 {
        assert forall|k: int|
            0 <= k < ss.drop_last().len() implies (#[trigger] ss.drop_last()[k]).len()
            <= bound by {
            assert(ss.drop_last()[k] == ss[k]);
        }
        lemma_max_len_bound(ss.drop_last(), bound);
    }
}

impl WaveletTrie {
    /// The prefix bit-string of this node, as a sequence.
    pub closed spec fn pre(self) -> Seq<bool> {
        self.prefix@
    }

    /// The positions bit-string of this node, as a sequence.
    pub closed spec fn pos(self) -> Seq<bool> {
        self.positions@
    }

    /// A leaf has no children; an internal node has both.
    pub closed spec fn is_leaf(self) -> bool {
        self.left is None && self.right is None
    }

    /// The number of sequences routed through this node.
    pub closed spec fn count(self) -> int {
        self.pos().len() as int
    }

    /// The child selected by a routing bit.
    pub closed spec fn child(self, b: bool) -> Option<Box<WaveletTrie>> {
        if b {
            self.right
        } else {
            self.left
        }
    }

    /// The sequences stored in an optional subtree.
    pub closed spec fn opt_stored(c: Option<Box<WaveletTrie>>) -> Seq<Seq<bool>>
        decreases c, 2int,
    {
        match c {
            None => Seq::<Seq<bool>>::empty(),
            Some(b) => (*b).stored(),
        }
    }

    /// What this node adds to each stored sequence beyond its own prefix:
    /// nothing at a leaf; the routing bit followed by the child's stored
    /// sequence at an internal node.
    pub closed spec fn residue(self) -> Seq<Seq<bool>>
        decreases self, 0int,
    {
        Seq::new(
            self.pos().len(),
            |j: int|
                if self.is_leaf() {
                    Seq::<bool>::empty()
                } else {
                    seq![self.pos()[j]] + Self::opt_stored(self.child(self.pos()[j]))[rank_of(
                        self.pos(),
                        self.pos()[j],
                        j,
                    )]
                },
        )
    }

    /// The indexed sequence of bit-strings stored in this subtree: the
    /// model that every operation's contract speaks of.
    pub closed spec fn stored(self) -> Seq<Seq<bool>>
        decreases self, 1int,
    {
        Seq::new(self.pos().len(), |j: int| self.pre() + self.residue()[j])
    }

    /// Well-formedness of an optional subtree.
    pub closed spec fn opt_wf(c: Option<Box<WaveletTrie>>) -> bool
        decreases c, 0int,
    {
        match c {
            None => true,
            Some(b) => (*b).wf(),
        }
    }

    /// The longest root-to-leaf bit length: an upper bound on the length
    /// of every stored sequence.
    pub closed spec fn opt_width(c: Option<Box<WaveletTrie>>) -> int
        decreases c, 0int,
    {
        match c {
            None => 0,
            Some(b) => (*b).width(),
        }
    }

    /// See `opt_width`.
    pub closed spec fn width(self) -> int
        decreases self, 1int,
    {
        self.pre().len() + if self.is_leaf() {
            0int
        } else {
            1 + vstd::math::max(Self::opt_width(self.left), Self::opt_width(self.right))
        }
    }

    /// The shape and counting invariants of the trie:
    /// - a node is a leaf (no children) or internal (both children);
    /// - a leaf's positions bits are all zero, and an empty leaf has an
    ///   empty prefix;
    /// - at an internal node, the zero- and one-counts of `β` equal the
    ///   counts of the two children, which are both non-empty;
    /// - the longest stored path fits a machine word, so that restructuring
    ///   cannot overflow a length.
    pub closed spec fn wf(self) -> bool
        decreases self, 1int,
    {
        &&& self.width() <= usize::MAX
        &&& match (self.left, self.right) {
            (None, None) => (forall|j: int| 0 <= j < self.pos().len() ==> self.pos()[j] == false)
                && (self.pos().len() == 0 ==> self.pre().len() == 0),
            (Some(l), Some(r)) => Self::opt_wf(self.left) && Self::opt_wf(self.right) && rank_of(
                self.pos(),
                false,
                self.count(),
            ) == (*l).count() && rank_of(self.pos(), true, self.count()) == (*r).count() && (
            *l).count() > 0 && (*r).count() > 0,
            _ => false,
        }
    }

    /// An empty wavelet trie.
    pub fn new() -> (r: Self)
        ensures
            r.wf(),
            r.stored() == Seq::<Seq<bool>>::empty(),
            r.count() == 0,
    {
        let r = WaveletTrie {
            left: None,
            right: None,
            prefix: BitVecWrap::new(),
            positions: BitVecWrap::new(),
        };
        proof {
            assert(r.stored() =~= Seq::<Seq<bool>>::empty());
        }
        r
    }

    /// The number of sequences stored in the trie.
    pub fn len(&self) -> (r: usize)
        ensures
            r == self.stored().len(),
    {
        self.positions.len()
    }

    /// At a well-formed internal node, each routed position lands inside
    /// the chosen child, and the stored sequence decomposes as prefix,
    /// routing bit, child sequence.
    proof fn lemma_stored_index(self, j: int)
        requires
            self.wf(),
            !self.is_leaf(),
            0 <= j < self.count(),
        ensures
            Self::opt_stored(self.child(self.pos()[j])).len() == rank_of(
                self.pos(),
                self.pos()[j],
                self.count(),
            ),
            0 <= rank_of(self.pos(), self.pos()[j], j) < Self::opt_stored(
                self.child(self.pos()[j]),
            ).len(),
            self.stored()[j] == self.pre().push(self.pos()[j]) + Self::opt_stored(
                self.child(self.pos()[j]),
            )[rank_of(self.pos(), self.pos()[j], j)],
    {
        let b = self.pos()[j];
        let c = self.child(b);
        assert(Self::opt_stored(c).len() == rank_of(self.pos(), b, self.count()));
        lemma_rank_bounds(self.pos(), b, j);
        assert(rank_of(self.pos(), b, j + 1) == rank_of(self.pos(), b, j) + 1);
        lemma_rank_monotone(self.pos(), b, j + 1, self.count());
        let u = Self::opt_stored(c)[rank_of(self.pos(), b, j)];
        assert(self.stored()[j] == self.pre() + (seq![b] + u));
        assert(self.pre() + (seq![b] + u) =~= self.pre().push(b) + u);
    }

    /// Every stored sequence begins with the node's prefix; at an internal
    /// node it continues with the routing bit.
    proof fn lemma_stored_prefix(self, j: int)
        requires
            self.wf(),
            0 <= j < self.count(),
        ensures
            self.stored()[j].len() >= self.pre().len(),
            self.pre().is_prefix_of(self.stored()[j]),
            self.is_leaf() ==> self.stored()[j] == self.pre(),
            !self.is_leaf() ==> self.stored()[j].len() > self.pre().len() && self.stored()[j][self.pre().len() as int]
                == self.pos()[j],
    {
        if self.is_leaf() {
            assert(self.stored()[j] =~= self.pre());
            assert(self.pre().is_prefix_of(self.stored()[j]));
        } else {
            self.lemma_stored_index(j);
            let w = self.stored()[j];
            assert(self.pre() =~= w.subrange(0, self.pre().len() as int));
        }
    }

    /// Every stored sequence fits under the node's width.
    proof fn lemma_stored_width(self, j: int)
        requires
            self.wf(),
            0 <= j < self.count(),
        ensures
            self.stored()[j].len() <= self.width(),
        decreases self,
    {
        if self.is_leaf() {
            assert(self.stored()[j] =~= self.pre());
        } else {
            self.lemma_stored_index(j);
            let b = self.pos()[j];
            let k = rank_of(self.pos(), b, j);
            let c = if b {
                self.right
            } else {
                self.left
            };
            let node = *c.unwrap();
            assert(node.wf());
            node.lemma_stored_width(k);
            assert(Self::opt_width(c) == node.width());
        }
    }

    /// Every child index is reached from some parent position: the k-th
    /// `b`-routed position of `β`.
    proof fn lemma_child_surjective(self, b: bool, k: int)
        requires
            self.wf(),
            !self.is_leaf(),
            0 <= k < rank_of(self.pos(), b, self.count()),
        ensures
            0 <= select_of(self.pos(), b, k + 1) < self.count(),
            self.pos()[select_of(self.pos(), b, k + 1)] == b,
            rank_of(self.pos(), b, select_of(self.pos(), b, k + 1)) == k,
    {
        lemma_select_props(self.pos(), b, k + 1);
    }

    /// The width is at least the prefix length, and exceeds it at an
    /// internal node.
    proof fn lemma_width_nonneg(self)
        ensures
            self.width() >= self.pre().len(),
            !self.is_leaf() ==> self.width() >= self.pre().len() + 1,
        decreases self,
    {
        match self.left {
            Some(l) => l.lemma_width_nonneg(),
            None => (),
        }
        match self.right {
            Some(r) => r.lemma_width_nonneg(),
            None => (),
        }
    }

    /// Retrieves the sequence stored at `index`.
    pub fn access(&self, index: usize) -> (r: BitVecWrap)
        requires
            self.wf(),
            index < self.stored().len(),
        ensures
            r@ == self.stored()[index as int],
        decreases *self,
    {
        let mut result = self.prefix.copy();
        if self.left.is_some() {
            proof {
                self.lemma_stored_index(index as int);
                self.lemma_width_nonneg();
            }
            let bit = self.positions.get(index).unwrap();
            let j = self.positions.rank(bit, index);
            result.push(bit);
            let sub = if bit {
                match &self.right {
                    Some(t) => t.access(j),
                    None => BitVecWrap::new(),
                }
            } else {
                match &self.left {
                    Some(t) => t.access(j),
                    None => BitVecWrap::new(),
                }
            };
            proof {
                let b = self.pos()[index as int];
                let k = rank_of(self.pos(), b, index as int);
                let node = *self.child(b).unwrap();
                node.lemma_stored_width(k);
                assert(node.width() <= vstd::math::max(
                    Self::opt_width(self.left),
                    Self::opt_width(self.right),
                ));
            }
            result.append_vec(&sub);
            proof {
                assert(self.pre().push(bit) + sub@ =~= self.pre() + (seq![bit] + sub@));
            }
        } else {
            proof {
                assert(self.stored()[index as int] =~= self.pre());
            }
        }
        result
    }

    /// A query that is a prefix of this node's prefix matches every stored
    /// sequence.
    proof fn lemma_query_under_prefix(self, q: Seq<bool>)
        requires
            self.wf(),
            q.is_prefix_of(self.pre()),
        ensures
            forall|j: int|
                0 <= j < self.count() ==> q.is_prefix_of(#[trigger] self.stored()[j]),
            ext_mask(self.stored(), q) == Seq::new(self.stored().len(), |j: int| true),
            pref_mask(self.stored(), q) == Seq::new(self.stored().len(), |j: int| true),
    {
        assert forall|j: int| 0 <= j < self.count() implies q.is_prefix_of(
            #[trigger] self.stored()[j],
        ) by {
            self.lemma_stored_prefix(j);
            lemma_pref_trans(q, self.pre(), self.stored()[j]);
        }
        assert(ext_mask(self.stored(), q) =~= Seq::new(self.stored().len(), |j: int| true));
        assert(pref_mask(self.stored(), q) =~= Seq::new(self.stored().len(), |j: int| true));
    }

    /// A query that diverges from this node's prefix is comparable with no
    /// stored sequence.
    proof fn lemma_query_diverged(self, q: Seq<bool>)
        requires
            self.wf(),
            !q.is_prefix_of(self.pre()),
            !self.pre().is_prefix_of(q),
        ensures
            !occurs(self.stored(), q),
            ext_mask(self.stored(), q) == Seq::new(self.stored().len(), |j: int| false),
            pref_mask(self.stored(), q) == Seq::new(self.stored().len(), |j: int| false),
    {
        assert forall|j: int| 0 <= j < self.count() implies !q.is_prefix_of(
            #[trigger] self.stored()[j],
        ) && !self.stored()[j].is_prefix_of(q) by {
            self.lemma_stored_prefix(j);
            if q.is_prefix_of(self.stored()[j]) {
                lemma_prefixes_comparable(q, self.pre(), self.stored()[j]);
            }
            if self.stored()[j].is_prefix_of(q) {
                lemma_pref_trans(self.pre(), self.stored()[j], q);
            }
        }
        assert(ext_mask(self.stored(), q) =~= Seq::new(self.stored().len(), |j: int| false));
        assert(pref_mask(self.stored(), q) =~= Seq::new(self.stored().len(), |j: int| false));
    }

    /// How a query that strictly extends this internal node's prefix
    /// relates to each stored sequence: sequences routed away from the
    /// query's next bit are incomparable with it, and for sequences routed
    /// along it every relation reduces to the child's.
    proof fn lemma_query_route(self, q: Seq<bool>, j: int)
        requires
            self.wf(),
            !self.is_leaf(),
            0 <= j < self.count(),
            self.pre().is_prefix_of(q),
            q.len() > self.pre().len(),
        ensures
            self.pos()[j] != q[self.pre().len() as int] ==> !q.is_prefix_of(self.stored()[j])
                && !self.stored()[j].is_prefix_of(q) && !ext_match(self.stored()[j], q),
            self.pos()[j] == q[self.pre().len() as int] ==> {
                let u = Self::opt_stored(self.child(self.pos()[j]))[rank_of(
                    self.pos(),
                    self.pos()[j],
                    j,
                )];
                let rest = q.skip(self.pre().len() as int + 1);
                &&& q.is_prefix_of(self.stored()[j]) == rest.is_prefix_of(u)
                &&& self.stored()[j].is_prefix_of(q) == u.is_prefix_of(rest)
                &&& ext_match(self.stored()[j], q) == ext_match(u, rest)
            },
    {
        let al = self.pre().len() as int;
        let b = q[al];
        self.lemma_stored_index(j);
        self.lemma_stored_prefix(j);
        let sj = self.stored()[j];
        if self.pos()[j] != b {
            lemma_diverge_incomparable(q, sj, al);
        } else {
            let u = Self::opt_stored(self.child(self.pos()[j]))[rank_of(
                self.pos(),
                self.pos()[j],
                j,
            )];
            let rest = q.skip(al + 1);
            let p = self.pre().push(b);
            assert(q.take(al) =~= self.pre());
            lemma_split_at(q, al);
            assert(q == p + rest);
            assert(sj == p + u);
            lemma_pref_congruence(p, rest, u);
            lemma_pref_congruence(p, u, rest);
            if u.is_prefix_of(rest) && u.len() < rest.len() {
                assert(q[sj.len() as int] == rest[u.len() as int]);
            }
            if sj.is_prefix_of(q) && sj.len() < q.len() {
                assert(q[sj.len() as int] == rest[u.len() as int]);
            }
        }
    }

    /// Counts how many of the first `index` stored sequences the query
    /// `sequence` matches (`ext_match`): exact matches, sequences extending
    /// the query, and stored sequences that the query extends along a zero
    /// bit.  Returns `None` exactly when no stored sequence is comparable
    /// with the query.
    pub fn rank(&self, sequence: &BitVecWrap, index: usize) -> (r: Option<usize>)
        requires
            self.wf(),
            index <= self.stored().len(),
        ensures
            match r {
                Some(c) => occurs(self.stored(), sequence@) && c == rank_of(
                    ext_mask(self.stored(), sequence@),
                    true,
                    index as int,
                ),
                None => !occurs(self.stored(), sequence@),
            },
        decreases *self,
    {
        let ghost ss = self.stored();
        let ghost q = sequence@;
        proof {
            lemma_rank_bounds(ext_mask(ss, q), true, index as int);
        }
        if self.prefix.is_empty() && self.positions.is_empty() {
            None
        } else if sequence.is_empty() || sequence.eq_bits(&self.prefix) {
            proof {
                assert(q.is_prefix_of(self.pre())) by {
                    assert(q =~= self.pre().subrange(0, q.len() as int));
                }
                self.lemma_query_under_prefix(q);
                lemma_rank_congruence(
                    ext_mask(ss, q),
                    Seq::new(ss.len(), |j: int| true),
                    true,
                    index as int,
                );
                lemma_rank_const(ss.len() as int, true, true, index as int);
                assert(self.count() > 0) by {
                    if self.pos().len() == 0 {
                        assert(self.is_leaf());
                    }
                }
                assert(q.is_prefix_of(ss[0]));
            }
            Some(index)
        } else if sequence.len() < self.prefix.len() {
            if sequence.is_prefix_of(&self.prefix) {
                proof {
                    self.lemma_query_under_prefix(q);
                    lemma_rank_congruence(
                        ext_mask(ss, q),
                        Seq::new(ss.len(), |j: int| true),
                        true,
                        index as int,
                    );
                    lemma_rank_const(ss.len() as int, true, true, index as int);
                    assert(self.count() > 0) by {
                        if self.pos().len() == 0 {
                            assert(self.is_leaf());
                        }
                    }
                    assert(q.is_prefix_of(ss[0]));
                }
                Some(index)
            } else {
                proof {
                    self.lemma_query_diverged(q);
                }
                None
            }
        } else if self.prefix.is_prefix_of(sequence) {
            proof {
                if q.len() == self.pre().len() {
                    assert(q =~= self.pre());
                }
            }
            let plen = self.prefix.len();
            let (b, rest) = sequence.different_suffix(plen);
            let j2 = self.positions.rank(b, index);
            proof {
                lemma_rank_monotone(self.pos(), b, index as int, self.count());
            }
            if self.left.is_some() {
                let ghost css = Self::opt_stored(self.child(b));
                proof {
                    assert(css.len() == rank_of(self.pos(), b, self.count())) by {
                        if b {
                            assert(Self::opt_stored(self.right).len() == (
                            *self.right.unwrap()).count());
                        } else {
                            assert(Self::opt_stored(self.left).len() == (
                            *self.left.unwrap()).count());
                        }
                    }
                    assert forall|j: int| 0 <= j < self.count() implies ext_mask(ss, q)[j] == (
                    self.pos()[j] == b && ext_mask(css, rest@)[rank_of(self.pos(), b, j)]) by {
                        self.lemma_query_route(q, j);
                        if self.pos()[j] == b {
                            self.lemma_stored_index(j);
                        } else {
                            lemma_rank_bounds(self.pos(), b, j);
                            lemma_rank_monotone(self.pos(), b, j, self.count());
                        }
                    }
                    lemma_rank_compose(
                        self.pos(),
                        b,
                        ext_mask(ss, q),
                        ext_mask(css, rest@),
                        index as int,
                    );
                    assert(occurs(ss, q) == occurs(css, rest@)) by {
                        if occurs(ss, q) {
                            let j = choose|j: int|
                                0 <= j < ss.len() && (q.is_prefix_of(#[trigger] ss[j])
                                    || ss[j].is_prefix_of(q));
                            self.lemma_query_route(q, j);
                            self.lemma_stored_index(j);
                            assert(self.pos()[j] == b);
                            let k = rank_of(self.pos(), b, j);
                            assert(rest@.is_prefix_of(css[k]) || css[k].is_prefix_of(rest@));
                        }
                        if occurs(css, rest@) {
                            let k = choose|k: int|
                                0 <= k < css.len() && (rest@.is_prefix_of(#[trigger] css[k])
                                    || css[k].is_prefix_of(rest@));
                            self.lemma_child_surjective(b, k);
                            let j = select_of(self.pos(), b, k + 1);
                            self.lemma_query_route(q, j);
                            assert(q.is_prefix_of(ss[j]) || ss[j].is_prefix_of(q));
                        }
                    }
                }
                let sub = if b {
                    match &self.right {
                        Some(t) => t.rank(&rest, j2),
                        None => None,
                    }
                } else {
                    match &self.left {
                        Some(t) => t.rank(&rest, j2),
                        None => None,
                    }
                };
                sub
            } else {
                proof {
                    assert(self.count() > 0) by {
                        if self.pos().len() == 0 {
                            assert(self.pre().len() == 0);
                        }
                    }
                    self.lemma_stored_prefix(0);
                    assert(ss[0].is_prefix_of(q));
                    assert forall|j: int| 0 <= j < self.count() implies ext_mask(ss, q)[j] == (b
                        == false) by {
                        self.lemma_stored_prefix(j);
                        if q.is_prefix_of(ss[j]) {
                            assert(q.len() <= self.pre().len());
                        }
                    }
                    lemma_rank_congruence(
                        ext_mask(ss, q),
                        Seq::new(ss.len(), |j: int| (b == false)),
                        true,
                        index as int,
                    );
                    lemma_rank_const(ss.len() as int, true, b == false, index as int);
                    lemma_rank_congruence(
                        self.pos(),
                        Seq::new(self.pos().len(), |j: int| false),
                        b,
                        index as int,
                    );
                    lemma_rank_const(self.pos().len() as int, b, false, index as int);
                }
                Some(j2)
            }
        } else {
            proof {
                assert(!q.is_prefix_of(self.pre())) by {
                    if q.is_prefix_of(self.pre()) {
                        assert(q =~= self.pre());
                    }
                }
                self.lemma_query_diverged(q);
            }
            None
        }
    }

    /// At a node whose prefix the query covers, the prefix-match mask is
    /// all ones and selection is the identity.
    proof fn lemma_matched_node(self, q: Seq<bool>, k: int)
        requires
            self.wf(),
            q.is_prefix_of(self.pre()),
            1 <= k,
        ensures
            rank_of(pref_mask(self.stored(), q), true, self.stored().len() as int)
                == self.count(),
            k <= self.count() ==> select_of(pref_mask(self.stored(), q), true, k) == k - 1,
    {
        let pm = pref_mask(self.stored(), q);
        self.lemma_query_under_prefix(q);
        lemma_rank_congruence(pm, Seq::new(pm.len(), |j: int| true), true, self.count());
        lemma_rank_const(pm.len() as int, true, true, self.count());
        if k <= self.count() {
            lemma_rank_congruence(pm, Seq::new(pm.len(), |j: int| true), true, k - 1);
            lemma_rank_const(pm.len() as int, true, true, k - 1);
            lemma_select_unique(pm, true, k, k - 1);
        }
    }

    /// At an internal node, the prefix-match mask of a strictly extending
    /// query routes through the chosen child: the mask relation needed by
    /// the counting lemmas, plus the equality of total match counts.
    proof fn lemma_pref_mask_route(self, q: Seq<bool>)
        requires
            self.wf(),
            !self.is_leaf(),
            self.pre().is_prefix_of(q),
            q.len() > self.pre().len(),
        ensures
            Self::opt_stored(self.child(q[self.pre().len() as int])).len() == rank_of(
                self.pos(),
                q[self.pre().len() as int],
                self.count(),
            ),
            forall|j: int|
                0 <= j < self.count() ==> pref_mask(self.stored(), q)[j] == (self.pos()[j]
                    == q[self.pre().len() as int] && pref_mask(
                    Self::opt_stored(self.child(q[self.pre().len() as int])),
                    q.skip(self.pre().len() as int + 1),
                )[rank_of(self.pos(), q[self.pre().len() as int], j)]),
            rank_of(pref_mask(self.stored(), q), true, self.count()) == rank_of(
                pref_mask(
                    Self::opt_stored(self.child(q[self.pre().len() as int])),
                    q.skip(self.pre().len() as int + 1),
                ),
                true,
                Self::opt_stored(self.child(q[self.pre().len() as int])).len() as int,
            ),
    {
        let b = q[self.pre().len() as int];
        let css = Self::opt_stored(self.child(b));
        let rest = q.skip(self.pre().len() as int + 1);
        assert(css.len() == rank_of(self.pos(), b, self.count())) by {
            if b {
                assert(Self::opt_stored(self.right).len() == (*self.right.unwrap()).count());
            } else {
                assert(Self::opt_stored(self.left).len() == (*self.left.unwrap()).count());
            }
        }
        assert forall|j: int| 0 <= j < self.count() implies pref_mask(self.stored(), q)[j] == (
        self.pos()[j] == b && pref_mask(css, rest)[rank_of(self.pos(), b, j)]) by {
            self.lemma_query_route(q, j);
            if self.pos()[j] == b {
                self.lemma_stored_index(j);
            } else {
                lemma_rank_bounds(self.pos(), b, j);
                lemma_rank_monotone(self.pos(), b, j, self.count());
            }
        }
        lemma_rank_compose(self.pos(), b, pref_mask(self.stored(), q), pref_mask(css, rest),
            self.count());
    }

    /// Finds the position of the `occurrence_nr`-th (1-indexed) stored
    /// sequence that the query is a prefix of; `None` when fewer such
    /// sequences exist.
    #[verifier::rlimit(80)]
    pub fn select(&self, sequence: &BitVecWrap, occurrence_nr: usize) -> (r: Option<usize>)
        requires
            self.wf(),
            occurrence_nr >= 1,
        ensures
            match r {
                Some(p) => occurrence_nr <= rank_of(
                    pref_mask(self.stored(), sequence@),
                    true,
                    self.stored().len() as int,
                ) && p == select_of(
                    pref_mask(self.stored(), sequence@),
                    true,
                    occurrence_nr as int,
                ),
                None => occurrence_nr > rank_of(
                    pref_mask(self.stored(), sequence@),
                    true,
                    self.stored().len() as int,
                ),
            },
        decreases *self,
    {
        let ghost ss = self.stored();
        let ghost q = sequence@;
        if sequence.is_empty() || sequence.eq_bits(&self.prefix) || sequence.is_prefix_of(
            &self.prefix,
        ) {
            proof {
                assert(q.is_prefix_of(self.pre())) by {
                    if q.len() == 0 {
                        assert(q =~= self.pre().subrange(0, 0));
                    } else if q == self.pre() {
                        assert(q =~= self.pre().subrange(0, q.len() as int));
                    }
                }
                self.lemma_matched_node(q, occurrence_nr as int);
            }
            if occurrence_nr <= self.positions.len() {
                Some(occurrence_nr - 1)
            } else {
                None
            }
        } else if self.prefix.is_prefix_of(sequence) {
            proof {
                if q.len() == self.pre().len() {
                    assert(q =~= self.pre());
                }
            }
            if self.left.is_none() {
                proof {
                    let pm = pref_mask(ss, q);
                    assert forall|j: int| 0 <= j < self.count() implies pm[j] == false by {
                        self.lemma_stored_prefix(j);
                        if q.is_prefix_of(ss[j]) {
                            assert(q.len() <= self.pre().len());
                        }
                    }
                    lemma_rank_congruence(pm, Seq::new(pm.len(), |j: int| false), true,
                        self.count());
                    lemma_rank_const(pm.len() as int, true, false, self.count());
                }
                None
            } else {
                let plen = self.prefix.len();
                let (b, rest) = sequence.different_suffix(plen);
                let ghost css = Self::opt_stored(self.child(b));
                let ghost cm = pref_mask(css, rest@);
                let ghost pm = pref_mask(ss, q);
                proof {
                    self.lemma_pref_mask_route(q);
                }
                let sub = if b {
                    match &self.right {
                        Some(t) => t.select(&rest, occurrence_nr),
                        None => None,
                    }
                } else {
                    match &self.left {
                        Some(t) => t.select(&rest, occurrence_nr),
                        None => None,
                    }
                };
                match sub {
                    Some(p) => {
                        let npos = self.positions.len();
                        proof {
                            let k = occurrence_nr as int;
                            lemma_select_props(cm, true, k);
                            lemma_rank_bounds(self.pos(), b, self.count());
                            assert((p as int) < css.len());
                            assert(p < npos);
                            lemma_select_props(self.pos(), b, p as int + 1);
                            let qpos = select_of(self.pos(), b, p as int + 1);
                            assert(pm[qpos]);
                            lemma_rank_compose(self.pos(), b, pm, cm, qpos);
                            lemma_select_unique(pm, true, k, qpos);
                        }
                        self.positions.try_select(b, p + 1)
                    },
                    None => None,
                }
            }
        } else {
            proof {
                assert(!q.is_prefix_of(self.pre())) by {
                    if q.is_prefix_of(self.pre()) {
                        assert(q =~= self.pre());
                    }
                }
                self.lemma_query_diverged(q);
                let pm = pref_mask(ss, q);
                lemma_rank_congruence(pm, Seq::new(pm.len(), |j: int| false), true, self.count());
                lemma_rank_const(pm.len() as int, true, false, self.count());
            }
            None
        }
    }

    /// Finds the positions of all stored sequences that the query is a
    /// prefix of, in increasing order.
    #[verifier::rlimit(80)]
    pub fn select_all(&self, sequence: &BitVecWrap) -> (r: Vec<usize>)
        requires
            self.wf(),
        ensures
            r@.len() == ones_of(pref_mask(self.stored(), sequence@)).len(),
            forall|idx: int|
                0 <= idx < r@.len() ==> r@[idx] as int == ones_of(
                    pref_mask(self.stored(), sequence@),
                )[idx],
        decreases *self,
    {
        let ghost ss = self.stored();
        let ghost q = sequence@;
        let ghost pm = pref_mask(ss, q);
        if sequence.is_empty() || sequence.eq_bits(&self.prefix) || sequence.is_prefix_of(
            &self.prefix,
        ) {
            proof {
                assert(q.is_prefix_of(self.pre())) by {
                    if q.len() == 0 {
                        assert(q =~= self.pre().subrange(0, 0));
                    } else if q == self.pre() {
                        assert(q =~= self.pre().subrange(0, q.len() as int));
                    }
                }
                self.lemma_matched_node(q, 1);
                lemma_ones_of(pm);
            }
            let n = self.positions.len();
            let mut result: Vec<usize> = Vec::new();
            let mut i: usize = 0;
            while i < n
                invariant
                    0 <= i <= n,
                    n == self.count(),
                    result@.len() == i,
                    forall|idx: int| 0 <= idx < i ==> result@[idx] == idx,
                decreases n - i,
            {
                result.push(i);
                i = i + 1;
            }
            proof {
                assert forall|idx: int| 0 <= idx < result@.len() implies result@[idx] as int
                    == ones_of(pm)[idx] by {
                    self.lemma_matched_node(q, idx + 1);
                }
            }
            result
        } else if self.prefix.is_prefix_of(sequence) && !sequence.eq_bits(&self.prefix) {
            proof {
                if q.len() == self.pre().len() {
                    assert(q =~= self.pre());
                }
            }
            if self.left.is_none() {
                proof {
                    assert forall|j: int| 0 <= j < self.count() implies pm[j] == false by {
                        self.lemma_stored_prefix(j);
                        if q.is_prefix_of(ss[j]) {
                            assert(q.len() <= self.pre().len());
                        }
                    }
                    lemma_rank_congruence(pm, Seq::new(pm.len(), |j: int| false), true,
                        self.count());
                    lemma_rank_const(pm.len() as int, true, false, self.count());
                    lemma_ones_of(pm);
                }
                Vec::new()
            } else {
                let plen = self.prefix.len();
                let (b, rest) = sequence.different_suffix(plen);
                let ghost css = Self::opt_stored(self.child(b));
                let ghost cm = pref_mask(css, rest@);
                proof {
                    self.lemma_pref_mask_route(q);
                    lemma_ones_of(pm);
                    lemma_ones_of(cm);
                }
                let all = if b {
                    match &self.right {
                        Some(t) => t.select_all(&rest),
                        None => Vec::new(),
                    }
                } else {
                    match &self.left {
                        Some(t) => t.select_all(&rest),
                        None => Vec::new(),
                    }
                };
                let m = all.len();
                let npos = self.positions.len();
                let mut out: Vec<usize> = Vec::new();
                let mut idx: usize = 0;
                while idx < m
                    invariant
                        0 <= idx <= m,
                        m == all@.len(),
                        npos == self.count(),
                        m == ones_of(cm).len(),
                        self.wf(),
                        !self.is_leaf(),
                        ss == self.stored(),
                        cm == pref_mask(css, rest@),
                        pm == pref_mask(ss, q),
                        pm.len() == self.count(),
                        css == Self::opt_stored(self.child(b)),
                        css.len() == rank_of(self.pos(), b, self.count()),
                        cm.len() == css.len(),
                        ones_of(pm).len() == ones_of(cm).len(),
                        forall|ii: int| 0 <= ii < m ==> all@[ii] as int == ones_of(cm)[ii],
                        forall|ii: int|
                            0 <= ii < pm.len() ==> pm[ii] == (self.pos()[ii] == b
                                && cm[rank_of(self.pos(), b, ii)]),
                        out@.len() == idx,
                        forall|ii: int| 0 <= ii < idx ==> out@[ii] as int == ones_of(pm)[ii],
                    decreases m - idx,
                {
                    let p = all[idx];
                    proof {
                        lemma_ones_of(cm);
                        assert(p == select_of(cm, true, idx + 1));
                        assert(rank_of(cm, true, cm.len() as int) == ones_of(cm).len());
                        lemma_select_props(cm, true, idx + 1);
                        lemma_rank_bounds(self.pos(), b, self.count());
                        assert((p as int) < css.len());
                        assert(p < npos);
                    }
                    let w = self.positions.select(b, p + 1);
                    proof {
                        lemma_select_props(self.pos(), b, p as int + 1);
                        assert(pm[w as int]);
                        lemma_rank_compose(self.pos(), b, pm, cm, w as int);
                        lemma_select_unique(pm, true, idx + 1, w as int);
                        lemma_ones_of(pm);
                    }
                    out.push(w);
                    idx = idx + 1;
                }
                out
            }
        } else {
            proof {
                assert(!q.is_prefix_of(self.pre())) by {
                    if q.is_prefix_of(self.pre()) {
                        assert(q =~= self.pre());
                    }
                }
                self.lemma_query_diverged(q);
                lemma_rank_congruence(pm, Seq::new(pm.len(), |j: int| false), true, self.count());
                lemma_rank_const(pm.len() as int, true, false, self.count());
                lemma_ones_of(pm);
            }
            Vec::new()
        }
    }

    /// Decides, without mutating, whether `sequence` may be inserted: it
    /// may exactly when it leaves the stored collection prefix-free, that
    /// is, when it is compatible with every stored sequence.
    fn check_insert(&self, sequence: &BitVecWrap) -> (r: Result<(), &'static str>)
        requires
            self.wf(),
        ensures
            r is Ok <==> forall|j: int|
                0 <= j < self.stored().len() ==> compatible(
                    sequence@,
                    #[trigger] self.stored()[j],
                ),
        decreases *self,
    {
        let ghost ss = self.stored();
        let ghost q = sequence@;
        if self.left.is_none() {
            if self.positions.is_empty() {
                Ok(())
            } else if sequence.eq_bits(&self.prefix) {
                proof {
                    assert forall|j: int| 0 <= j < ss.len() implies compatible(
                        q,
                        #[trigger] ss[j],
                    ) by {
                        self.lemma_stored_prefix(j);
                    }
                }
                Ok(())
            } else if sequence.is_empty() {
                proof {
                    self.lemma_stored_prefix(0);
                    assert(q.is_prefix_of(ss[0])) by {
                        assert(q =~= ss[0].subrange(0, 0));
                    }
                    assert(!compatible(q, ss[0]));
                }
                Err("The string being inserted is a prefix of a string in the trie, which is not allowed. (5)")
            } else if sequence.is_prefix_of(&self.prefix) {
                proof {
                    self.lemma_stored_prefix(0);
                    assert(q.len() < self.pre().len()) by {
                        if q.len() == self.pre().len() {
                            assert(q =~= self.pre());
                        }
                    }
                    assert(!compatible(q, ss[0]));
                }
                Err("The string being inserted is a prefix of a string in the trie, which is not allowed. (3)")
            } else if self.prefix.is_prefix_of(sequence) {
                proof {
                    self.lemma_stored_prefix(0);
                    assert(self.pre().len() < q.len()) by {
                        if q.len() == self.pre().len() {
                            assert(q =~= self.pre());
                        }
                    }
                    assert(!compatible(q, ss[0]));
                }
                Err("The string being inserted is a prefix of a string in the trie , which is not allowed. (4)")
            } else {
                proof {
                    assert forall|j: int| 0 <= j < ss.len() implies compatible(
                        q,
                        #[trigger] ss[j],
                    ) by {
                        self.lemma_stored_prefix(j);
                        assert(ss[j] =~= self.pre());
                    }
                }
                Ok(())
            }
        } else {
            if sequence.is_empty() {
                proof {
                    self.lemma_stored_prefix(0);
                    assert(q.is_prefix_of(ss[0])) by {
                        assert(q =~= ss[0].subrange(0, 0));
                    }
                    assert(!compatible(q, ss[0]));
                }
                if self.prefix.is_empty() {
                    Err("The string being inserted is a prefix of a string in the trie, which is not allowed. (1)")
                } else {
                    Err("The string being inserted is a prefix of a string in the trie, which is not allowed. (5)")
                }
            } else if sequence.eq_bits(&self.prefix) {
                proof {
                    self.lemma_stored_prefix(0);
                    assert(q.is_prefix_of(ss[0]));
                    assert(!compatible(q, ss[0]));
                }
                Err("The string being inserted is a prefix of a string in the trie, which is not allowed. (2)")
            } else if sequence.is_prefix_of(&self.prefix) {
                proof {
                    self.lemma_stored_prefix(0);
                    lemma_pref_trans(q, self.pre(), ss[0]);
                    assert(q.len() < self.pre().len()) by {
                        if q.len() == self.pre().len() {
                            assert(q =~= self.pre());
                        }
                    }
                    assert(!compatible(q, ss[0]));
                }
                Err("The string being inserted is a prefix of a string in the trie, which is not allowed. (3)")
            } else if self.prefix.is_prefix_of(sequence) {
                proof {
                    assert(q.len() > self.pre().len()) by {
                        if q.len() == self.pre().len() {
                            assert(q =~= self.pre());
                        }
                    }
                }
                let plen = self.prefix.len();
                let (b, rest) = sequence.different_suffix(plen);
                let ghost css = Self::opt_stored(self.child(b));
                proof {
                    assert(css.len() == rank_of(self.pos(), b, self.count())) by {
                        if b {
                            assert(Self::opt_stored(self.right).len() == (
                            *self.right.unwrap()).count());
                        } else {
                            assert(Self::opt_stored(self.left).len() == (
                            *self.left.unwrap()).count());
                        }
                    }
                }
                let sub = if b {
                    match &self.right {
                        Some(t) => {
                            let s2 = t.check_insert(&rest);
                            proof {
                                assert(Self::opt_stored(self.right) == (*t).stored());
                                assert(s2 is Ok <==> forall|k: int|
                                    0 <= k < css.len() ==> compatible(
                                        rest@,
                                        #[trigger] css[k],
                                    ));
                            }
                            s2
                        },
                        None => Ok(()),
                    }
                } else {
                    match &self.left {
                        Some(t) => {
                            let s2 = t.check_insert(&rest);
                            proof {
                                assert(Self::opt_stored(self.left) == (*t).stored());
                                assert(s2 is Ok <==> forall|k: int|
                                    0 <= k < css.len() ==> compatible(
                                        rest@,
                                        #[trigger] css[k],
                                    ));
                            }
                            s2
                        },
                        None => Ok(()),
                    }
                };
                proof {
                    let al = self.pre().len() as int;
                    if forall|k: int|
                        0 <= k < css.len() ==> compatible(rest@, #[trigger] css[k]) {
                        assert forall|j: int| 0 <= j < ss.len() implies compatible(
                            q,
                            #[trigger] ss[j],
                        ) by {
                            self.lemma_query_route(q, j);
                            self.lemma_stored_index(j);
                            if self.pos()[j] == q[al] {
                                let k = rank_of(self.pos(), self.pos()[j], j);
                                assert(compatible(rest@, css[k]));
                                assert(ss[j].len() == al + 1 + Self::opt_stored(
                                    self.child(self.pos()[j]),
                                )[k].len());
                            }
                        }
                    }
                    if forall|j: int| 0 <= j < ss.len() ==> compatible(q, #[trigger] ss[j]) {
                        assert forall|k: int| 0 <= k < css.len() implies compatible(
                            rest@,
                            #[trigger] css[k],
                        ) by {
                            self.lemma_child_surjective(q[al], k);
                            let j = select_of(self.pos(), q[al], k + 1);
                            self.lemma_query_route(q, j);
                            self.lemma_stored_index(j);
                            assert(compatible(q, ss[j]));
                            assert(ss[j].len() == al + 1 + css[k].len());
                        }
                    }
                }
                sub
            } else {
                proof {
                    assert(!q.is_prefix_of(self.pre())) by {
                        if q.is_prefix_of(self.pre()) {
                            assert(q =~= self.pre());
                        }
                    }
                    self.lemma_query_diverged(q);
                    assert forall|j: int| 0 <= j < ss.len() implies compatible(
                        q,
                        #[trigger] ss[j],
                    ) by {
                        assert(!(q.is_prefix_of(ss[j]) || ss[j].is_prefix_of(q)));
                    }
                }
                Ok(())
            }
        }
    }

    /// Splits this node around the divergence point of its prefix and the
    /// new sequence: the node keeps the common prefix, its previous
    /// content moves into one child, and a fresh leaf for the new sequence
    /// becomes the other.
    #[verifier::rlimit(100)]
    fn split_insert(&mut self, sequence: &BitVecWrap, index: usize)
        requires
            old(self).wf(),
            index <= old(self).count(),
            old(self).count() < usize::MAX,
            old(self).count() >= 1,
            sequence@.len() <= usize::MAX,
            !sequence@.is_prefix_of(old(self).pre()),
            !old(self).pre().is_prefix_of(sequence@),
        ensures
            final(self).wf(),
            final(self).stored() == old(self).stored().insert(index as int, sequence@),
            final(self).width() <= vstd::math::max(old(self).width(), sequence@.len() as int),
    {
        let ghost t0 = *old(self);
        let ghost ss = t0.stored();
        let ghost q = sequence@;
        let ghost alpha = t0.pre();
        let ghost mg = lcp_len(q, alpha);
        proof {
            lemma_lcp_bounds(q, alpha);
            if mg == q.len() {
                assert(q =~= alpha.subrange(0, q.len() as int));
            }
            if mg == alpha.len() {
                assert(alpha =~= q.subrange(0, alpha.len() as int));
            }
        }
        let lcp = sequence.longest_common_prefix(&self.prefix);
        let m = lcp.len();
        let (bit_self, suffix_self) = self.prefix.different_suffix(m);
        let (bit_seq, suffix_seq) = sequence.different_suffix(m);
        let n = self.positions.len();
        let original_left = self.left.take();
        let original_right = self.right.take();
        let original_positions = self.positions.copy();
        let original_node = WaveletTrie {
            left: original_left,
            right: original_right,
            prefix: suffix_self,
            positions: original_positions,
        };
        let new_leaf = WaveletTrie {
            left: None,
            right: None,
            prefix: suffix_seq,
            positions: BitVecWrap::from_elem(1, false),
        };
        let ghost orig = original_node;
        let ghost leaf = new_leaf;
        if !bit_self {
            self.left = Some(Box::new(original_node));
            self.right = Some(Box::new(new_leaf));
        } else {
            self.left = Some(Box::new(new_leaf));
            self.right = Some(Box::new(original_node));
        }
        self.prefix = lcp;
        let mut beta = BitVecWrap::from_elem(n, bit_self);
        beta.insert(index, bit_seq);
        self.positions = beta;
        proof {
            let fs = *self;
            let cb = Seq::new(n as nat, |j: int| bit_self);
            assert(fs.pos() == cb.insert(index as int, bit_seq));
            assert(fs.pre() == q.take(mg));
            assert(q.take(mg) =~= alpha.take(mg));
            lemma_insert_index(cb, index as int, bit_seq);
            lemma_insert_index(ss, index as int, q);
            // the moved node keeps the old residues
            assert(orig.residue() =~= t0.residue());
            assert(orig.pre() == alpha.skip(mg + 1));
            // decompose the old prefix and the new sequence at the
            // divergence point
            lemma_split_at(alpha, mg);
            lemma_split_at(q, mg);
            assert(alpha[mg] == bit_self && q[mg] == bit_seq && bit_self != bit_seq);
            // old stored sequences, re-expressed through the moved node
            assert forall|jj: int| 0 <= jj < n implies ss[jj] == fs.pre().push(bit_self)
                + orig.stored()[jj] by {
                assert(ss[jj] == alpha + t0.residue()[jj]);
                assert(orig.stored()[jj] == alpha.skip(mg + 1) + t0.residue()[jj]);
                assert((alpha.take(mg).push(alpha[mg]) + alpha.skip(mg + 1)) + t0.residue()[jj]
                    =~= alpha.take(mg).push(alpha[mg]) + (alpha.skip(mg + 1) + t0.residue()[jj]));
            }
            // the fresh leaf stores exactly the new sequence's suffix
            assert(leaf.stored().len() == 1);
            assert(leaf.stored()[0] =~= q.skip(mg + 1));
            // the children of the re-formed node
            assert(Self::opt_stored(fs.child(bit_self)) == orig.stored());
            assert(Self::opt_stored(fs.child(bit_seq)) == leaf.stored());
            // positions bookkeeping over the constant-and-insert vector
            assert forall|j: int| 0 <= j < n + 1 implies fs.stored()[j] == ss.insert(
                index as int,
                q,
            )[j] by {
                lemma_rank_const(n as int, bit_self, bit_self, if j <= index as int {
                    j
                } else {
                    j - 1
                });
                lemma_rank_const(n as int, bit_seq, bit_self, index as int);
                lemma_rank_insert(cb, index as int, bit_seq, bit_self, j);
                lemma_rank_insert(cb, index as int, bit_seq, bit_seq, j);
                if j < index as int {
                    assert(fs.pos()[j] == bit_self);
                    assert(rank_of(fs.pos(), bit_self, j) == j);
                    assert(fs.residue()[j] == seq![bit_self] + orig.stored()[j]);
                    assert(fs.pre() + (seq![bit_self] + orig.stored()[j]) =~= fs.pre().push(
                        bit_self,
                    ) + orig.stored()[j]);
                } else if j == index as int {
                    assert(fs.pos()[j] == bit_seq);
                    assert(rank_of(fs.pos(), bit_seq, j) == 0);
                    assert(fs.residue()[j] == seq![bit_seq] + leaf.stored()[0]);
                    assert(fs.pre() + (seq![bit_seq] + q.skip(mg + 1)) =~= q.take(mg).push(q[mg])
                        + q.skip(mg + 1));
                } else {
                    assert(fs.pos()[j] == bit_self);
                    assert(rank_of(fs.pos(), bit_self, j) == j - 1);
                    assert(fs.residue()[j] == seq![bit_self] + orig.stored()[j - 1]);
                    assert(fs.pre() + (seq![bit_self] + orig.stored()[j - 1]) =~= fs.pre().push(
                        bit_self,
                    ) + orig.stored()[j - 1]);
                }
            }
            assert(fs.stored() =~= ss.insert(index as int, q));
            // well-formedness of the two children
            assert(orig.width() == t0.width() - mg - 1) by {
                if orig.is_leaf() {
                    assert(t0.is_leaf());
                } else {
                    assert(orig.left == t0.left && orig.right == t0.right);
                }
            }
            assert(orig.wf()) by {
                if orig.is_leaf() {
                    assert(t0.is_leaf());
                    assert(forall|j: int|
                        0 <= j < orig.pos().len() ==> orig.pos()[j] == false);
                } else {
                    assert(Self::opt_wf(orig.left) && Self::opt_wf(orig.right));
                }
            }
            assert(leaf.wf()) by {
                assert(leaf.pos() == Seq::new(1nat, |i: int| false));
                assert(leaf.width() == q.len() - mg - 1);
            }
            // counts at the re-formed node
            lemma_rank_const(n as int, bit_self, bit_self, n as int);
            lemma_rank_const(n as int, bit_seq, bit_self, n as int);
            lemma_rank_insert(cb, index as int, bit_seq, bit_self, n as int + 1);
            lemma_rank_insert(cb, index as int, bit_seq, bit_seq, n as int + 1);
            assert(rank_of(fs.pos(), bit_self, n as int + 1) == n);
            assert(rank_of(fs.pos(), bit_seq, n as int + 1) == 1);
            assert(fs.width() == mg + 1 + vstd::math::max(orig.width(), leaf.width()));
            assert(fs.wf()) by {
                assert(Self::opt_wf(fs.left) && Self::opt_wf(fs.right));
            }
        }
    }

    /// Inserts a sequence that strictly extends this internal node's
    /// prefix: routes its next bit into `β` and recurses into the chosen
    /// child with the remaining suffix.
    #[verifier::rlimit(100)]
    fn insert_to_child(&mut self, sequence: &BitVecWrap, index: usize)
        requires
            old(self).wf(),
            !old(self).is_leaf(),
            index <= old(self).count(),
            old(self).count() < usize::MAX,
            sequence@.len() <= usize::MAX,
            old(self).pre().is_prefix_of(sequence@),
            sequence@.len() > old(self).pre().len(),
            forall|j: int|
                0 <= j < old(self).count() ==> compatible(
                    sequence@,
                    #[trigger] old(self).stored()[j],
                ),
        ensures
            final(self).wf(),
            final(self).stored() == old(self).stored().insert(index as int, sequence@),
            final(self).width() <= vstd::math::max(old(self).width(), sequence@.len() as int),
        decreases *old(self), 0int,
    {
        let ghost t0 = *old(self);
        let ghost ss = t0.stored();
        let ghost q = sequence@;
        let ghost al = t0.pre().len() as int;
        let plen = self.prefix.len();
        let (b, rest) = sequence.different_suffix(plen);
        let ghost cs0 = Self::opt_stored(t0.child(b));
        proof {
            assert(cs0.len() == rank_of(t0.pos(), b, t0.count())) by {
                if b {
                    assert(Self::opt_stored(t0.right).len() == (*t0.right.unwrap()).count());
                } else {
                    assert(Self::opt_stored(t0.left).len() == (*t0.left.unwrap()).count());
                }
            }
            assert forall|k: int| 0 <= k < cs0.len() implies compatible(
                rest@,
                #[trigger] cs0[k],
            ) by {
                t0.lemma_child_surjective(b, k);
                let j = select_of(t0.pos(), b, k + 1);
                t0.lemma_query_route(q, j);
                t0.lemma_stored_index(j);
                assert(compatible(q, ss[j]));
                assert(ss[j].len() == al + 1 + cs0[k].len());
            }
            lemma_split_at(q, al);
            assert(q.take(al) =~= t0.pre());
        }
        self.positions.insert(index, b);
        let new_pos = self.positions.rank(b, index);
        proof {
            lemma_rank_insert(t0.pos(), index as int, b, b, index as int);
            lemma_rank_monotone(t0.pos(), b, index as int, t0.count());
            assert(new_pos == rank_of(t0.pos(), b, index as int));
            assert(new_pos <= cs0.len());
            lemma_rank_bounds(t0.pos(), b, t0.count());
        }
        if b {
            let mut child = self.right.take().unwrap();
            proof {
                assert(*child == *t0.right.unwrap());
                assert((*child).wf());
                assert((*child).stored() == cs0);
            }
            (&mut *child).insert_unchecked(&rest, new_pos);
            self.right = Some(child);
        } else {
            let mut child = self.left.take().unwrap();
            proof {
                assert(*child == *t0.left.unwrap());
                assert((*child).wf());
                assert((*child).stored() == cs0);
            }
            (&mut *child).insert_unchecked(&rest, new_pos);
            self.left = Some(child);
        }
        proof {
            let fs = *self;
            let np = rank_of(t0.pos(), b, index as int);
            let cs1 = cs0.insert(np, rest@);
            let n = t0.count();
            assert(fs.pos() == t0.pos().insert(index as int, b));
            assert(fs.pre() == t0.pre());
            assert(Self::opt_stored(fs.child(b)) == cs1);
            assert(Self::opt_stored(fs.child(!b)) == Self::opt_stored(t0.child(!b)));
            lemma_insert_index(t0.pos(), index as int, b);
            lemma_insert_index(ss, index as int, q);
            lemma_insert_index(cs0, np, rest@);
            assert forall|j: int| 0 <= j < n + 1 implies fs.stored()[j] == ss.insert(
                index as int,
                q,
            )[j] by {
                lemma_rank_insert(t0.pos(), index as int, b, true, j);
                lemma_rank_insert(t0.pos(), index as int, b, false, j);
                if j < index as int {
                    let pj = t0.pos()[j];
                    t0.lemma_stored_index(j);
                    assert(fs.pos()[j] == pj);
                    assert(rank_of(fs.pos(), pj, j) == rank_of(t0.pos(), pj, j));
                    let k = rank_of(t0.pos(), pj, j);
                    if pj == b {
                        assert(rank_of(t0.pos(), b, j + 1) == k + 1);
                        lemma_rank_monotone(t0.pos(), b, j + 1, index as int);
                        assert(k < np);
                        assert(cs1[k] == cs0[k]);
                    }
                    assert(fs.residue()[j] == t0.residue()[j]);
                } else if j == index as int {
                    assert(fs.pos()[j] == b);
                    assert(rank_of(fs.pos(), b, j) == np);
                    assert(cs1[np] == rest@);
                    assert(fs.stored()[j] == fs.pre() + (seq![b] + rest@));
                    assert(fs.pre() + (seq![b] + rest@) =~= q.take(al).push(q[al]) + q.skip(
                        al + 1,
                    ));
                } else {
                    let pj = t0.pos()[j - 1];
                    t0.lemma_stored_index(j - 1);
                    assert(fs.pos()[j] == pj);
                    let k = rank_of(t0.pos(), pj, j - 1);
                    if pj == b {
                        assert(rank_of(fs.pos(), b, j) == k + 1);
                        lemma_rank_monotone(t0.pos(), b, index as int, j - 1);
                        assert(k >= np);
                        assert(cs1[k + 1] == cs0[k]);
                        assert(fs.residue()[j] == t0.residue()[j - 1]);
                    } else {
                        assert(rank_of(fs.pos(), pj, j) == k);
                        assert(fs.residue()[j] == t0.residue()[j - 1]);
                    }
                }
            }
            assert(fs.stored() =~= ss.insert(index as int, q));
            // counts and shape at this node
            lemma_rank_insert(t0.pos(), index as int, b, true, n + 1);
            lemma_rank_insert(t0.pos(), index as int, b, false, n + 1);
            assert(fs.wf()) by {
                assert(Self::opt_wf(fs.left) && Self::opt_wf(fs.right));
                assert(rank_of(fs.pos(), b, n + 1) == rank_of(t0.pos(), b, n) + 1);
                assert(rank_of(fs.pos(), !b, n + 1) == rank_of(t0.pos(), !b, n));
                assert(fs.width() <= vstd::math::max(t0.width(), q.len() as int));
            }
        }
    }

    /// Inserts a compatible sequence at `index`; never fails.
    #[verifier::rlimit(60)]
    fn insert_unchecked(&mut self, sequence: &BitVecWrap, index: usize)
        requires
            old(self).wf(),
            index <= old(self).count(),
            old(self).count() < usize::MAX,
            sequence@.len() <= usize::MAX,
            forall|j: int|
                0 <= j < old(self).count() ==> compatible(
                    sequence@,
                    #[trigger] old(self).stored()[j],
                ),
        ensures
            final(self).wf(),
            final(self).stored() == old(self).stored().insert(index as int, sequence@),
            final(self).width() <= vstd::math::max(old(self).width(), sequence@.len() as int),
        decreases *old(self), 1int,
    {
        let ghost t0 = *old(self);
        let ghost ss = t0.stored();
        let ghost q = sequence@;
        if self.left.is_none() {
            if self.positions.is_empty() {
                self.prefix = sequence.copy();
                self.positions.push(false);
                proof {
                    let fs = *self;
                    assert(fs.pos() == Seq::<bool>::empty().push(false));
                    assert(fs.stored().len() == 1);
                    assert(fs.stored()[0] =~= q);
                    assert(fs.stored() =~= ss.insert(index as int, q));
                    assert(forall|j: int| 0 <= j < fs.pos().len() ==> fs.pos()[j] == false);
                    assert(fs.wf());
                }
            } else if sequence.eq_bits(&self.prefix) {
                self.positions.insert(index, false);
                proof {
                    let fs = *self;
                    let n = t0.count();
                    lemma_insert_index(t0.pos(), index as int, false);
                    lemma_insert_index(ss, index as int, q);
                    assert forall|j: int| 0 <= j < n + 1 implies fs.stored()[j] == ss.insert(
                        index as int,
                        q,
                    )[j] by {
                        t0.lemma_stored_prefix(if j < index as int {
                            j
                        } else if j > index as int {
                            j - 1
                        } else {
                            0
                        });
                        assert(fs.stored()[j] =~= t0.pre());
                    }
                    assert(fs.stored() =~= ss.insert(index as int, q));
                    assert(forall|j: int| 0 <= j < fs.pos().len() ==> fs.pos()[j] == false);
                    assert(fs.wf());
                }
            } else {
                proof {
                    t0.lemma_stored_prefix(0);
                    assert(compatible(q, ss[0]));
                    assert(!q.is_prefix_of(t0.pre())) by {
                        if q.is_prefix_of(t0.pre()) && q.len() == t0.pre().len() {
                            assert(q =~= t0.pre());
                            assert(sequence@ == self.prefix@);
                        }
                    }
                    assert(!t0.pre().is_prefix_of(q)) by {
                        if t0.pre().is_prefix_of(q) && q.len() == t0.pre().len() {
                            assert(t0.pre() =~= q);
                            assert(sequence@ == self.prefix@);
                        }
                    }
                }
                self.split_insert(sequence, index);
            }
        } else {
            proof {
                t0.lemma_stored_prefix(0);
            }
            if self.prefix.is_prefix_of(sequence) {
                proof {
                    assert(q.len() > t0.pre().len()) by {
                        if q.len() == t0.pre().len() {
                            assert(q =~= t0.pre());
                            assert(q.is_prefix_of(ss[0]));
                            assert(!compatible(q, ss[0]));
                        }
                    }
                }
                self.insert_to_child(sequence, index);
            } else {
                proof {
                    assert(!q.is_prefix_of(t0.pre())) by {
                        if q.is_prefix_of(t0.pre()) {
                            lemma_pref_trans(q, t0.pre(), ss[0]);
                            assert(q.len() <= t0.pre().len() < ss[0].len());
                            assert(!compatible(q, ss[0]));
                        }
                    }
                }
                self.split_insert(sequence, index);
            }
        }
    }

    /// Inserts a sequence at position `index`: `Ok` exactly when the
    /// sequence is compatible with (neither a strict prefix nor a strict
    /// extension of) every stored sequence; on failure the trie is
    /// untouched.
    pub fn insert(&mut self, sequence: &BitVecWrap, index: usize) -> (r: Result<
        (),
        &'static str,
    >)
        requires
            old(self).wf(),
            index <= old(self).stored().len(),
            old(self).stored().len() < usize::MAX,
        ensures
            final(self).wf(),
            r is Ok <==> (forall|j: int|
                0 <= j < old(self).stored().len() ==> compatible(
                    sequence@,
                    #[trigger] old(self).stored()[j],
                )),
            r is Ok ==> final(self).stored() == old(self).stored().insert(
                index as int,
                sequence@,
            ),
            r is Err ==> *final(self) == *old(self),
    {
        // reading the length shows the sequence fits a machine word
        let _sequence_len = sequence.len();
        match self.check_insert(sequence) {
            Ok(()) => {
                self.insert_unchecked(sequence, index);
                Ok(())
            },
            Err(e) => Err(e),
        }
    }

    /// Appends a sequence after the last position; `Ok` exactly when it is
    /// compatible with every stored sequence.
    pub fn append(&mut self, sequence: &BitVecWrap) -> (r: Result<(), &'static str>)
        requires
            old(self).wf(),
            old(self).stored().len() < usize::MAX,
        ensures
            final(self).wf(),
            r is Ok <==> (forall|j: int|
                0 <= j < old(self).stored().len() ==> compatible(
                    sequence@,
                    #[trigger] old(self).stored()[j],
                )),
            r is Ok ==> final(self).stored() == old(self).stored().push(sequence@),
            r is Err ==> *final(self) == *old(self),
    {
        let index = self.positions.len();
        let r = self.insert(sequence, index);
        proof {
            if r is Ok {
                assert(old(self).stored().insert(old(self).stored().len() as int, sequence@)
                    =~= old(self).stored().push(sequence@));
            }
        }
        r
    }

    /// Deletes the sequence stored at `index`.  When a child is emptied by
    /// the deletion, the node merges with the surviving child: the
    /// surviving side's bit and the survivor's prefix are appended to the
    /// node's prefix, and the survivor's positions and children are
    /// adopted.
    #[verifier::rlimit(100)]
    pub fn delete(&mut self, index: usize)
        requires
            old(self).wf(),
            index < old(self).stored().len(),
        ensures
            final(self).wf(),
            final(self).stored() == old(self).stored().remove(index as int),
            final(self).width() <= old(self).width(),
        decreases *old(self),
    {
        let ghost t0 = *old(self);
        let ghost ss = t0.stored();
        let ghost n = t0.count();
        let b = self.positions.get(index).unwrap();
        if self.left.is_some() {
            proof {
                t0.lemma_stored_index(index as int);
                t0.lemma_width_nonneg();
            }
            let j = self.positions.rank(b, index);
            let ghost cs0 = Self::opt_stored(t0.child(b));
            proof {
                assert(cs0.len() == rank_of(t0.pos(), b, n)) by {
                    if b {
                        assert(Self::opt_stored(t0.right).len() == (*t0.right.unwrap()).count());
                    } else {
                        assert(Self::opt_stored(t0.left).len() == (*t0.left.unwrap()).count());
                    }
                }
                assert(rank_of(t0.pos(), b, index as int + 1) == j + 1);
                lemma_rank_monotone(t0.pos(), b, index as int + 1, n);
            }
            let deleted_empty: bool;
            if b {
                let mut child = self.right.take().unwrap();
                proof {
                    assert(*child == *t0.right.unwrap());
                    assert((*child).stored() == cs0);
                }
                (&mut *child).delete(j);
                deleted_empty = child.len() == 0;
                self.right = Some(child);
            } else {
                let mut child = self.left.take().unwrap();
                proof {
                    assert(*child == *t0.left.unwrap());
                    assert((*child).stored() == cs0);
                }
                (&mut *child).delete(j);
                deleted_empty = child.len() == 0;
                self.left = Some(child);
            }
            let ghost cs1 = cs0.remove(j as int);
            if deleted_empty {
                proof {
                    assert(cs0.len() == 1 && j == 0);
                    assert(rank_of(t0.pos(), b, n) == 1);
                    assert forall|m: int| 0 <= m < n && m != index as int implies t0.pos()[m]
                        == !b by {
                        if t0.pos()[m] == b {
                            lemma_rank_bounds(t0.pos(), b, m);
                            assert(rank_of(t0.pos(), b, m + 1) == rank_of(t0.pos(), b, m) + 1);
                            if m < index as int {
                                lemma_rank_monotone(t0.pos(), b, m + 1, index as int);
                                assert(rank_of(t0.pos(), b, index as int) >= 1);
                                assert(false);
                            } else {
                                lemma_rank_monotone(t0.pos(), b, index as int + 1, m);
                                assert(rank_of(t0.pos(), b, m) >= 1);
                                lemma_rank_monotone(t0.pos(), b, m + 1, n);
                                assert(rank_of(t0.pos(), b, n) >= 2);
                                assert(false);
                            }
                        }
                    }
                }
                if b {
                    self.right = None;
                } else {
                    self.left = None;
                }
                self.prefix.push(!b);
                let surv = if b {
                    self.left.take().unwrap()
                } else {
                    self.right.take().unwrap()
                };
                let ghost sg = *surv;
                proof {
                    assert(sg == *t0.child(!b).unwrap());
                    assert(sg.wf() && sg.stored() == Self::opt_stored(t0.child(!b))) by {
                        if b {
                            assert(Self::opt_stored(t0.left) == (*t0.left.unwrap()).stored());
                            assert(Self::opt_wf(t0.left));
                        } else {
                            assert(Self::opt_stored(t0.right) == (*t0.right.unwrap()).stored());
                            assert(Self::opt_wf(t0.right));
                        }
                    }
                    sg.lemma_width_nonneg();
                    assert(Self::opt_width(t0.child(!b)) == sg.width());
                }
                let node = *surv;
                self.prefix.append_vec(&node.prefix);
                self.left = node.left;
                self.right = node.right;
                self.positions = node.positions;
                proof {
                    let fs = *self;
                    let al = t0.pre().len() as int;
                    assert(fs.pre() == t0.pre().push(!b) + sg.pre());
                    assert(fs.pos() == sg.pos() && fs.left == sg.left && fs.right == sg.right);
                    assert(fs.residue() =~= sg.residue());
                    assert(sg.stored().len() == rank_of(t0.pos(), !b, n)) by {
                        lemma_rank_split(t0.pos(), n);
                    }
                    lemma_rank_split(t0.pos(), n);
                    assert(sg.count() == n - 1);
                    assert(fs.stored().len() == n - 1);
                    lemma_remove_index(ss, index as int);
                    assert forall|k: int| 0 <= k < n - 1 implies fs.stored()[k] == ss.remove(
                        index as int,
                    )[k] by {
                        let kk: int = if k < index as int {
                            k
                        } else {
                            k + 1
                        };
                        t0.lemma_stored_index(kk);
                        assert(t0.pos()[kk] == !b);
                        assert(rank_of(t0.pos(), !b, kk) == k) by {
                            lemma_rank_split(t0.pos(), kk);
                            if kk <= index as int {
                                lemma_rank_monotone(t0.pos(), b, kk, index as int);
                                lemma_rank_bounds(t0.pos(), b, kk);
                            } else {
                                lemma_rank_monotone(t0.pos(), b, index as int + 1, kk);
                                lemma_rank_monotone(t0.pos(), b, kk, n);
                            }
                        }
                        assert(ss[kk] == t0.pre().push(!b) + sg.stored()[k]);
                        assert(fs.stored()[k] == fs.pre() + sg.residue()[k]);
                        assert(sg.stored()[k] == sg.pre() + sg.residue()[k]);
                        assert((t0.pre().push(!b) + sg.pre()) + sg.residue()[k] =~= t0.pre().push(
                            !b,
                        ) + (sg.pre() + sg.residue()[k]));
                    }
                    assert(fs.stored() =~= ss.remove(index as int));
                    assert(fs.width() == al + 1 + (sg.width() - sg.pre().len()) + sg.pre().len());
                    assert(fs.wf()) by {
                        if sg.is_leaf() {
                            assert(forall|m: int|
                                0 <= m < sg.pos().len() ==> sg.pos()[m] == false);
                            assert(fs.pos().len() == n - 1 >= 1);
                        } else {
                            assert(Self::opt_wf(sg.left) && Self::opt_wf(sg.right));
                        }
                    }
                }
            } else {
                self.positions.delete(index);
                proof {
                    let fs = *self;
                    assert(fs.pos() == t0.pos().remove(index as int));
                    assert(fs.pre() == t0.pre());
                    assert(Self::opt_stored(fs.child(b)) == cs1);
                    assert(Self::opt_stored(fs.child(!b)) == Self::opt_stored(t0.child(!b)));
                    lemma_remove_index(t0.pos(), index as int);
                    lemma_remove_index(ss, index as int);
                    lemma_remove_index(cs0, j as int);
                    assert forall|jj: int| 0 <= jj < n - 1 implies fs.stored()[jj] == ss.remove(
                        index as int,
                    )[jj] by {
                        lemma_rank_remove(t0.pos(), index as int, true, jj);
                        lemma_rank_remove(t0.pos(), index as int, false, jj);
                        if jj < index as int {
                            let pj = t0.pos()[jj];
                            t0.lemma_stored_index(jj);
                            assert(fs.pos()[jj] == pj);
                            assert(rank_of(fs.pos(), pj, jj) == rank_of(t0.pos(), pj, jj));
                            let k = rank_of(t0.pos(), pj, jj);
                            if pj == b {
                                assert(rank_of(t0.pos(), b, jj + 1) == k + 1);
                                lemma_rank_monotone(t0.pos(), b, jj + 1, index as int);
                                assert(k < j);
                                assert(cs1[k] == cs0[k]);
                            }
                            assert(fs.residue()[jj] == t0.residue()[jj]);
                        } else {
                            let pj = t0.pos()[jj + 1];
                            t0.lemma_stored_index(jj + 1);
                            assert(fs.pos()[jj] == pj);
                            let k = rank_of(t0.pos(), pj, jj + 1);
                            if pj == b {
                                assert(rank_of(fs.pos(), b, jj) == k - 1);
                                lemma_rank_monotone(t0.pos(), b, index as int + 1, jj + 1);
                                assert(k - 1 >= j);
                                assert(cs1[k - 1] == cs0[k]);
                                assert(fs.residue()[jj] == t0.residue()[jj + 1]);
                            } else {
                                assert(rank_of(fs.pos(), pj, jj) == k);
                                assert(fs.residue()[jj] == t0.residue()[jj + 1]);
                            }
                        }
                    }
                    assert(fs.stored() =~= ss.remove(index as int));
                    lemma_rank_remove(t0.pos(), index as int, true, n - 1);
                    lemma_rank_remove(t0.pos(), index as int, false, n - 1);
                    assert(fs.wf()) by {
                        assert(Self::opt_wf(fs.left) && Self::opt_wf(fs.right));
                        assert(rank_of(fs.pos(), b, n - 1) == rank_of(t0.pos(), b, n) - 1);
                        assert(rank_of(fs.pos(), !b, n - 1) == rank_of(t0.pos(), !b, n));
                        assert(fs.width() <= t0.width());
                    }
                }
            }
        } else {
            self.positions.delete(index);
            if self.positions.is_empty() {
                self.prefix = BitVecWrap::new();
            }
            self.positions.set_none();
            proof {
                let fs = *self;
                lemma_remove_index(ss, index as int);
                assert(fs.pos().len() == n - 1);
                assert forall|jj: int| 0 <= jj < n - 1 implies fs.stored()[jj] == ss.remove(
                    index as int,
                )[jj] by {
                    t0.lemma_stored_prefix(if jj < index as int {
                        jj
                    } else {
                        jj + 1
                    });
                    assert(fs.stored()[jj] =~= fs.pre());
                }
                assert(fs.stored() =~= ss.remove(index as int));
                assert(fs.wf());
            }
        }
    }

    /// Splits every sequence at the common-prefix boundary `al`: returns
    /// the routing bits (bit `al` of each sequence) and the two buckets of
    /// suffixes, in order of appearance.
    #[verifier::rlimit(100)]
    fn partition(sequences: &[BitVecWrap], al: usize) -> (r: (BitVecWrap, Vec<BitVecWrap>, Vec<
        BitVecWrap,
    >))
        requires
            forall|k: int|
                0 <= k < sequences@.len() ==> (#[trigger] models(sequences@)[k]).len() > al,
        ensures
            r.0@.len() == sequences@.len(),
            forall|k: int|
                0 <= k < sequences@.len() ==> r.0@[k] == models(sequences@)[k][al as int],
            models(r.1@).len() == rank_of(r.0@, false, sequences@.len() as int),
            models(r.2@).len() == rank_of(r.0@, true, sequences@.len() as int),
            forall|k: int|
                0 <= k < sequences@.len() && r.0@[k] == false ==> models(r.1@)[rank_of(
                    r.0@,
                    false,
                    k,
                )] == (#[trigger] models(sequences@)[k]).skip(al as int + 1),
            forall|k: int|
                0 <= k < sequences@.len() && r.0@[k] == true ==> models(r.2@)[rank_of(
                    r.0@,
                    true,
                    k,
                )] == (#[trigger] models(sequences@)[k]).skip(al as int + 1),
    {
        let ghost ms = models(sequences@);
        let n = sequences.len();
        let mut left_seqs: Vec<BitVecWrap> = Vec::new();
        let mut right_seqs: Vec<BitVecWrap> = Vec::new();
        let mut positions = BitVecWrap::new();
        let mut j: usize = 0;
        while j < n
            invariant
                0 <= j <= n,
                n == sequences@.len(),
                ms == models(sequences@),
                forall|k: int| 0 <= k < n ==> (#[trigger] ms[k]).len() > al as int,
                positions@.len() == j,
                forall|k: int| 0 <= k < j ==> positions@[k] == ms[k][al as int],
                models(left_seqs@).len() == rank_of(positions@, false, j as int),
                models(right_seqs@).len() == rank_of(positions@, true, j as int),
                forall|k: int|
                    0 <= k < j && positions@[k] == false ==> models(left_seqs@)[rank_of(
                        positions@,
                        false,
                        k,
                    )] == (#[trigger] ms[k]).skip(al as int + 1),
                forall|k: int|
                    0 <= k < j && positions@[k] == true ==> models(right_seqs@)[rank_of(
                        positions@,
                        true,
                        k,
                    )] == (#[trigger] ms[k]).skip(al as int + 1),
            decreases n - j,
        {
            let ghost beta0 = positions@;
            let ghost l0 = models(left_seqs@);
            let ghost r0 = models(right_seqs@);
            proof {
                assert(ms[j as int] == sequences@[j as int]@);
            }
            let (bit, suffix) = sequences[j].different_suffix(al);
            positions.push(bit);
            if bit {
                right_seqs.push(suffix);
            } else {
                left_seqs.push(suffix);
            }
            proof {
                assert(models(left_seqs@) =~= if bit {
                    l0
                } else {
                    l0.push(suffix@)
                });
                assert(models(right_seqs@) =~= if bit {
                    r0.push(suffix@)
                } else {
                    r0
                });
                lemma_rank_push(beta0, bit, true, j as int + 1);
                lemma_rank_push(beta0, bit, false, j as int + 1);
                lemma_rank_push(beta0, bit, true, j as int);
                lemma_rank_push(beta0, bit, false, j as int);
                assert forall|k: int|
                    0 <= k < j + 1 && positions@[k] == false implies models(left_seqs@)[rank_of(
                    positions@,
                    false,
                    k,
                )] == (#[trigger] ms[k]).skip(al as int + 1) by {
                    lemma_rank_push(beta0, bit, false, k);
                    lemma_rank_bounds(beta0, false, k);
                    assert(positions@ == beta0.push(bit));
                    if k < j as int {
                        assert(beta0.push(bit)[k] == beta0[k]);
                        assert(rank_of(positions@, false, k) == rank_of(beta0, false, k));
                        assert(rank_of(beta0, false, k + 1) == rank_of(beta0, false, k) + 1);
                        lemma_rank_monotone(beta0, false, k + 1, j as int);
                        assert(rank_of(beta0, false, k) < l0.len());
                        assert(l0[rank_of(beta0, false, k)] == ms[k].skip(al as int + 1));
                        vstd::seq::axiom_seq_push_index_different(
                            l0,
                            suffix@,
                            rank_of(beta0, false, k),
                        );
                    } else {
                        assert(beta0.push(bit)[k] == bit);
                        assert(rank_of(positions@, false, k) == rank_of(beta0, false, j as int));
                        assert(l0.push(suffix@)[l0.len() as int] == suffix@);
                        assert(models(left_seqs@)[l0.len() as int] == suffix@);
                    }
                }
                assert forall|k: int|
                    0 <= k < j + 1 && positions@[k] == true implies models(right_seqs@)[rank_of(
                    positions@,
                    true,
                    k,
                )] == (#[trigger] ms[k]).skip(al as int + 1) by {
                    lemma_rank_push(beta0, bit, true, k);
                    lemma_rank_bounds(beta0, true, k);
                    assert(positions@ == beta0.push(bit));
                    if k < j as int {
                        assert(beta0.push(bit)[k] == beta0[k]);
                        assert(rank_of(positions@, true, k) == rank_of(beta0, true, k));
                        assert(rank_of(beta0, true, k + 1) == rank_of(beta0, true, k) + 1);
                        lemma_rank_monotone(beta0, true, k + 1, j as int);
                        assert(rank_of(beta0, true, k) < r0.len());
                        assert(r0[rank_of(beta0, true, k)] == ms[k].skip(al as int + 1));
                        vstd::seq::axiom_seq_push_index_different(
                            r0,
                            suffix@,
                            rank_of(beta0, true, k),
                        );
                    } else {
                        assert(beta0.push(bit)[k] == bit);
                        assert(rank_of(positions@, true, k) == rank_of(beta0, true, j as int));
                        assert(r0.push(suffix@)[r0.len() as int] == suffix@);
                        assert(models(right_seqs@)[r0.len() as int] == suffix@);
                    }
                }
            }
            j = j + 1;
        }
        (positions, left_seqs, right_seqs)
    }

    /// The suffix buckets of a prefix-free partition are themselves
    /// prefix-free, strictly smaller, strictly shorter, and inhabited on
    /// both sides.
    #[verifier::rlimit(100)]
    proof fn lemma_static_buckets(
        ms: Seq<Seq<bool>>,
        pg: Seq<bool>,
        beta: Seq<bool>,
        lm: Seq<Seq<bool>>,
        rm: Seq<Seq<bool>>,
        kw: int,
    )
        requires
            beta.len() == ms.len(),
            1 <= ms.len(),
            pairwise_compatible(ms),
            forall|k: int| 0 <= k < ms.len() ==> (#[trigger] ms[k]).len() > pg.len(),
            forall|k: int| 0 <= k < ms.len() ==> pg.is_prefix_of(#[trigger] ms[k]),
            forall|k: int|
                0 <= k < ms.len() ==> beta[k] == (#[trigger] ms[k])[pg.len() as int],
            lm.len() == rank_of(beta, false, beta.len() as int),
            rm.len() == rank_of(beta, true, beta.len() as int),
            forall|k: int|
                0 <= k < ms.len() && beta[k] == false ==> lm[rank_of(beta, false, k)] == (
                #[trigger] ms[k]).skip(pg.len() as int + 1),
            forall|k: int|
                0 <= k < ms.len() && beta[k] == true ==> rm[rank_of(beta, true, k)] == (
                #[trigger] ms[k]).skip(pg.len() as int + 1),
            0 <= kw < ms.len(),
            ms[kw][pg.len() as int] != ms[0][pg.len() as int],
        ensures
            pairwise_compatible(lm),
            pairwise_compatible(rm),
            forall|k: int|
                0 <= k < lm.len() ==> (#[trigger] lm[k]).len() <= max_len(ms) - pg.len() - 1,
            forall|k: int|
                0 <= k < rm.len() ==> (#[trigger] rm[k]).len() <= max_len(ms) - pg.len() - 1,
            max_len(lm) <= max_len(ms) - pg.len() - 1,
            max_len(rm) <= max_len(ms) - pg.len() - 1,
            max_len(ms) > pg.len(),
            1 <= lm.len(),
            1 <= rm.len(),
            lm.len() < ms.len(),
            rm.len() < ms.len(),
            forall|k: int|
                0 <= k < ms.len() ==> #[trigger] ms[k] == pg.push(beta[k]) + ms[k].skip(
                    pg.len() as int + 1,
                ),
    {
        reveal(pairwise_compatible);
        let al = pg.len() as int;
        let n = ms.len() as int;
        lemma_max_len(ms);
        lemma_rank_split(beta, n);
        assert(rank_of(beta, beta[0], 1) == 1);
        lemma_rank_monotone(beta, beta[0], 1, n);
        assert(rank_of(beta, beta[kw], kw + 1) == rank_of(beta, beta[kw], kw) + 1);
        lemma_rank_bounds(beta, beta[kw], kw);
        lemma_rank_monotone(beta, beta[kw], kw + 1, n);
        assert(beta[0] != beta[kw]);
        assert(1 <= rank_of(beta, false, n) && 1 <= rank_of(beta, true, n));
        assert forall|k: int| 0 <= k < n implies #[trigger] ms[k] == pg.push(ms[k][al]) + ms[
            k
        ].skip(al + 1) by {
            lemma_split_at(ms[k], al);
            assert(ms[k].take(al) =~= pg);
        }
        assert forall|i: int, j: int|
            0 <= i < lm.len() && 0 <= j < lm.len() implies compatible(
            #[trigger] lm[i],
            #[trigger] lm[j],
        ) by {
            lemma_select_props(beta, false, i + 1);
            lemma_select_props(beta, false, j + 1);
            let k1 = select_of(beta, false, i + 1);
            let k2 = select_of(beta, false, j + 1);
            assert(lm[i] == ms[k1].skip(al + 1));
            assert(lm[j] == ms[k2].skip(al + 1));
            lemma_compat_congruence(pg.push(false), lm[i], lm[j]);
            assert(compatible(ms[k1], ms[k2]));
        }
        assert forall|i: int, j: int|
            0 <= i < rm.len() && 0 <= j < rm.len() implies compatible(
            #[trigger] rm[i],
            #[trigger] rm[j],
        ) by {
            lemma_select_props(beta, true, i + 1);
            lemma_select_props(beta, true, j + 1);
            let k1 = select_of(beta, true, i + 1);
            let k2 = select_of(beta, true, j + 1);
            assert(rm[i] == ms[k1].skip(al + 1));
            assert(rm[j] == ms[k2].skip(al + 1));
            lemma_compat_congruence(pg.push(true), rm[i], rm[j]);
            assert(compatible(ms[k1], ms[k2]));
        }
        assert forall|k: int| 0 <= k < lm.len() implies (#[trigger] lm[k]).len() <= max_len(ms)
            - al - 1 by {
            lemma_select_props(beta, false, k + 1);
            let k1 = select_of(beta, false, k + 1);
            assert(lm[k] == ms[k1].skip(al + 1));
        }
        assert forall|k: int| 0 <= k < rm.len() implies (#[trigger] rm[k]).len() <= max_len(ms)
            - al - 1 by {
            lemma_select_props(beta, true, k + 1);
            let k1 = select_of(beta, true, k + 1);
            assert(rm[k] == ms[k1].skip(al + 1));
        }
        assert(max_len(ms) >= ms[0].len() > al);
        lemma_max_len_bound(lm, max_len(ms) - al - 1);
        lemma_max_len_bound(rm, max_len(ms) - al - 1);
        lemma_rank_bounds(beta, false, n);
        lemma_rank_bounds(beta, true, n);
    }

    /// A node assembled from a common prefix, routing bits, and two
    /// well-formed children holding the suffix buckets stores exactly the
    /// partitioned sequences.
    #[verifier::rlimit(100)]
    proof fn lemma_static_assemble(
        fs: WaveletTrie,
        ms: Seq<Seq<bool>>,
        pg: Seq<bool>,
        beta: Seq<bool>,
        lm: Seq<Seq<bool>>,
        rm: Seq<Seq<bool>>,
    )
        requires
            !fs.is_leaf(),
            fs.pre() == pg,
            fs.pos() == beta,
            Self::opt_stored(fs.left) == lm,
            Self::opt_stored(fs.right) == rm,
            Self::opt_wf(fs.left),
            Self::opt_wf(fs.right),
            Self::opt_width(fs.left) <= max_len(lm),
            Self::opt_width(fs.right) <= max_len(rm),
            beta.len() == ms.len(),
            lm.len() == rank_of(beta, false, beta.len() as int),
            rm.len() == rank_of(beta, true, beta.len() as int),
            forall|k: int|
                0 <= k < ms.len() && beta[k] == false ==> lm[rank_of(beta, false, k)] == (
                #[trigger] ms[k]).skip(pg.len() as int + 1),
            forall|k: int|
                0 <= k < ms.len() && beta[k] == true ==> rm[rank_of(beta, true, k)] == (
                #[trigger] ms[k]).skip(pg.len() as int + 1),
            forall|k: int|
                0 <= k < ms.len() ==> #[trigger] ms[k] == pg.push(beta[k]) + ms[k].skip(
                    pg.len() as int + 1,
                ),
            max_len(lm) <= max_len(ms) - pg.len() - 1,
            max_len(rm) <= max_len(ms) - pg.len() - 1,
            max_len(ms) <= usize::MAX,
            1 <= lm.len(),
            1 <= rm.len(),
        ensures
            fs.stored() == ms,
            fs.wf(),
            fs.width() <= max_len(ms),
    {
        let al = pg.len() as int;
        let n = ms.len() as int;
        assert forall|k: int| 0 <= k < n implies fs.stored()[k] == ms[k] by {
            let c = beta[k];
            let idx = rank_of(beta, c, k);
            assert(rank_of(beta, c, k + 1) == idx + 1);
            lemma_rank_monotone(beta, c, k + 1, n);
            lemma_rank_bounds(beta, c, k);
            if c {
                assert(rm[idx] == ms[k].skip(al + 1));
            } else {
                assert(lm[idx] == ms[k].skip(al + 1));
            }
            assert(fs.stored()[k] == pg + (seq![c] + ms[k].skip(al + 1)));
            assert(pg + (seq![c] + ms[k].skip(al + 1)) =~= pg.push(c) + ms[k].skip(al + 1));
        }
        assert(fs.stored() =~= ms);
        lemma_max_len(lm);
        lemma_max_len(rm);
        match (fs.left, fs.right) {
            (Some(l), Some(r)) => {
                assert((*l).stored().len() == (*l).count());
                assert((*r).stored().len() == (*r).count());
                assert((*l).count() == lm.len());
                assert((*r).count() == rm.len());
            },
            _ => {
                assert(false);
            },
        }
        assert(fs.width() == al + 1 + vstd::math::max(
            Self::opt_width(fs.left),
            Self::opt_width(fs.right),
        ));
        assert(fs.wf());
    }

    /// A leaf built from an all-equal input stores exactly that input.
    proof fn lemma_static_leaf(fs: WaveletTrie, ms: Seq<Seq<bool>>)
        requires
            1 <= ms.len(),
            fs.is_leaf(),
            fs.pre() == ms[0],
            fs.pos() == Seq::new(ms.len(), |k: int| false),
            forall|k: int| 0 <= k < ms.len() ==> #[trigger] ms[k] == ms[0],
            ms[0].len() <= usize::MAX,
        ensures
            fs.stored() == ms,
            fs.wf(),
            fs.width() <= max_len(ms),
    {
        assert forall|j: int| 0 <= j < ms.len() implies fs.stored()[j] == ms[j] by {
            assert(ms[j] == ms[0]);
            assert(fs.stored()[j] =~= ms[0]);
        }
        assert(fs.stored() =~= ms);
        lemma_max_len(ms);
        assert(fs.wf());
    }

    /// When the sequences are prefix-free, share the prefix `pg`, are not
    /// all equal, and some sequence's longest common prefix with the first
    /// is exactly `pg`: every sequence continues past `pg`, and the
    /// witness pair diverges right after it.
    proof fn lemma_static_prefix_facts(ms: Seq<Seq<bool>>, pg: Seq<bool>, kne: int, kw: int)
        requires
            1 <= ms.len(),
            pairwise_compatible(ms),
            forall|k: int| 0 <= k < ms.len() ==> pg.is_prefix_of(#[trigger] ms[k]),
            0 <= kne < ms.len(),
            ms[kne] != ms[0],
            0 <= kw < ms.len(),
            pg.len() == lcp_len(ms[0], ms[kw]),
        ensures
            pg.len() < ms[0].len(),
            forall|k: int| 0 <= k < ms.len() ==> (#[trigger] ms[k]).len() > pg.len(),
            ms[kw][pg.len() as int] != ms[0][pg.len() as int],
    {
        reveal(pairwise_compatible);
        let al = pg.len() as int;
        assert(al < ms[0].len()) by {
            if al == ms[0].len() {
                assert(pg =~= ms[0]);
                assert(ms[0].is_prefix_of(ms[kne]));
                assert(compatible(ms[kne], ms[0]));
                assert(ms[kne].len() == ms[0].len());
                assert(ms[kne] =~= ms[0]);
            }
        }
        assert forall|k: int| 0 <= k < ms.len() implies (#[trigger] ms[k]).len() > al by {
            if ms[k].len() == al {
                assert(ms[k] =~= pg);
                assert(ms[k].is_prefix_of(ms[0]));
                assert(compatible(ms[k], ms[0]));
            }
        }
        assert(ms[kw][al] != ms[0][al]) by {
            lemma_lcp_bounds(ms[0], ms[kw]);
        }
    }

    /// Re-forms this node as an internal node from a prefix, routing
    /// bits, and two children holding the suffix buckets of `ms`.
    #[verifier::rlimit(100)]
    fn assemble_node(
        &mut self,
        prefix: BitVecWrap,
        positions: BitVecWrap,
        lc: WaveletTrie,
        rc: WaveletTrie,
        Ghost(ms): Ghost<Seq<Seq<bool>>>,
    )
        requires
            lc.wf(),
            rc.wf(),
            positions@.len() == ms.len(),
            lc.stored().len() == rank_of(positions@, false, ms.len() as int),
            rc.stored().len() == rank_of(positions@, true, ms.len() as int),
            forall|k: int|
                0 <= k < ms.len() && positions@[k] == false ==> lc.stored()[rank_of(
                    positions@,
                    false,
                    k,
                )] == (#[trigger] ms[k]).skip(prefix@.len() as int + 1),
            forall|k: int|
                0 <= k < ms.len() && positions@[k] == true ==> rc.stored()[rank_of(
                    positions@,
                    true,
                    k,
                )] == (#[trigger] ms[k]).skip(prefix@.len() as int + 1),
            forall|k: int|
                0 <= k < ms.len() ==> #[trigger] ms[k] == prefix@.push(positions@[k])
                    + ms[k].skip(prefix@.len() as int + 1),
            lc.width() <= max_len(lc.stored()),
            rc.width() <= max_len(rc.stored()),
            max_len(lc.stored()) <= max_len(ms) - prefix@.len() - 1,
            max_len(rc.stored()) <= max_len(ms) - prefix@.len() - 1,
            max_len(ms) <= usize::MAX,
            1 <= lc.stored().len(),
            1 <= rc.stored().len(),
        ensures
            final(self).wf(),
            final(self).stored() == ms,
            final(self).width() <= max_len(ms),
    {
        let ghost lm = lc.stored();
        let ghost rm = rc.stored();
        self.prefix = prefix;
        self.positions = positions;
        self.left = Some(Box::new(lc));
        self.right = Some(Box::new(rc));
        proof {
            let fs = *self;
            assert(Self::opt_stored(fs.left) == lm && Self::opt_wf(fs.left) && Self::opt_width(
                fs.left,
            ) == lc.width());
            assert(Self::opt_stored(fs.right) == rm && Self::opt_wf(fs.right) && Self::opt_width(
                fs.right,
            ) == rc.width());
            Self::lemma_static_assemble(fs, ms, prefix@, positions@, lm, rm);
        }
    }

    /// Whether every sequence equals the first.
    fn all_same(sequences: &[BitVecWrap]) -> (r: bool)
        requires
            1 <= sequences@.len(),
        ensures
            r ==> (forall|k: int|
                0 <= k < sequences@.len() ==> #[trigger] models(sequences@)[k] == models(
                    sequences@,
                )[0]),
            !r ==> (exists|k: int|
                0 <= k < sequences@.len() && #[trigger] models(sequences@)[k] != models(
                    sequences@,
                )[0]),
    {
        let ghost ms = models(sequences@);
        let n = sequences.len();
        let mut all_equal = true;
        let mut i: usize = 1;
        while i < n
            invariant
                1 <= i <= n,
                n == sequences@.len(),
                ms == models(sequences@),
                all_equal ==> (forall|k: int| 0 <= k < i ==> #[trigger] ms[k] == ms[0]),
                !all_equal ==> (exists|k: int| 0 <= k < n && #[trigger] ms[k] != ms[0]),
            decreases n - i,
        {
            proof {
                assert(ms[i as int] == sequences@[i as int]@);
                assert(ms[0] == sequences@[0]@);
            }
            if !sequences[i].eq_bits(&sequences[0]) {
                all_equal = false;
            }
            i = i + 1;
        }
        all_equal
    }

    /// The longest common prefix of all the sequences, computed by folding
    /// pairwise longest common prefixes over the list.
    #[verifier::rlimit(100)]
    fn common_prefix(sequences: &[BitVecWrap]) -> (r: BitVecWrap)
        requires
            1 <= sequences@.len(),
        ensures
            r@.is_prefix_of(models(sequences@)[0]),
            forall|k: int|
                0 <= k < sequences@.len() ==> r@.is_prefix_of(#[trigger] models(sequences@)[k]),
            exists|k: int|
                0 <= k < sequences@.len() && r@.len() == lcp_len(
                    models(sequences@)[0],
                    #[trigger] models(sequences@)[k],
                ),
    {
        let ghost ms = models(sequences@);
        let n = sequences.len();
        proof {
            assert(ms[0] == sequences@[0]@);
        }
        let mut prefix = sequences[0].copy();
        let mut i2: usize = 1;
        proof {
            lemma_lcp_self(ms[0]);
            assert(prefix@.is_prefix_of(ms[0])) by {
                assert(prefix@ =~= ms[0].subrange(0, prefix@.len() as int));
            }
        }
        while i2 < n
            invariant
                1 <= i2 <= n,
                n == sequences@.len(),
                ms == models(sequences@),
                prefix@.is_prefix_of(ms[0]),
                forall|k: int| 0 <= k < i2 ==> prefix@.is_prefix_of(#[trigger] ms[k]),
                exists|k: int| 0 <= k < i2 && prefix@.len() == lcp_len(ms[0], #[trigger] ms[k]),
            decreases n - i2,
        {
            let ghost p_old = prefix@;
            let ghost mi = ms[i2 as int];
            proof {
                assert(mi == sequences@[i2 as int]@);
            }
            let new_prefix = prefix.longest_common_prefix(&sequences[i2]);
            let ghost lp = lcp_len(p_old, mi);
            proof {
                lemma_lcp_bounds(p_old, mi);
                assert(new_prefix@.is_prefix_of(p_old)) by {
                    assert(new_prefix@ =~= p_old.subrange(0, lp));
                }
                assert(new_prefix@.is_prefix_of(mi)) by {
                    assert(new_prefix@ =~= mi.subrange(0, lp));
                }
            }
            if new_prefix.len() < prefix.len() {
                proof {
                    // the fold keeps the minimum: the shortened prefix is
                    // the longest common prefix of the first and the
                    // current sequence
                    lemma_pref_trans(new_prefix@, p_old, ms[0]);
                    lemma_lcp_maximal(ms[0], mi, lp);
                    lemma_lcp_bounds(ms[0], mi);
                    let d = lcp_len(ms[0], mi);
                    if d > lp {
                        assert(p_old[lp] == ms[0][lp]);
                        assert(ms[0][lp] == mi[lp]);
                        lemma_lcp_maximal(p_old, mi, lp + 1);
                    }
                    assert(d == lp);
                    assert forall|k: int| 0 <= k < i2 + 1 implies new_prefix@.is_prefix_of(
                        #[trigger] ms[k],
                    ) by {
                        if k < i2 as int {
                            lemma_pref_trans(new_prefix@, p_old, ms[k]);
                        }
                    }
                }
                prefix = new_prefix;
            } else {
                proof {
                    assert(lp == p_old.len());
                    assert(prefix@.is_prefix_of(mi)) by {
                        assert(prefix@ =~= mi.subrange(0, prefix@.len() as int));
                    }
                }
            }
            i2 = i2 + 1;
        }
        prefix
    }

    /// Builds the subtree for `sequences` into this empty node: an
    /// all-equal input becomes a leaf; otherwise the longest common prefix
    /// is computed, the sequences are partitioned on their next bit, and
    /// the two buckets are built recursively.
    #[verifier::rlimit(100)]
    fn insert_static(&mut self, sequences: &[BitVecWrap])
        requires
            old(self).wf(),
            old(self).count() == 0,
            pairwise_compatible(models(sequences@)),
            forall|k: int|
                0 <= k < sequences@.len() ==> (#[trigger] models(sequences@)[k]).len()
                    <= usize::MAX,
        ensures
            final(self).wf(),
            final(self).stored() == models(sequences@),
            final(self).width() <= max_len(models(sequences@)),
        decreases sequences@.len(), 2int,
    {
        let ghost ms = models(sequences@);
        let n = sequences.len();
        proof {
            lemma_max_len(ms);
            assert(old(self).is_leaf()) by {
                if !old(self).is_leaf() {
                    assert(old(self).count() > 0);
                }
            }
            assert(old(self).pre().len() == 0);
        }
        if n != 0 {
            let all_equal = Self::all_same(sequences);
            if all_equal {
                proof {
                    assert(ms[0] == sequences@[0]@);
                }
                self.prefix = sequences[0].copy();
                self.positions = BitVecWrap::from_elem(n, false);
                proof {
                    Self::lemma_static_leaf(*self, ms);
                }
            } else {
                self.build_partitioned(sequences);
            }
        } else {
            proof {
                assert(old(self).stored() =~= ms);
            }
        }
    }

    /// Builds an internal node for sequences that are not all equal:
    /// computes the longest common prefix, partitions on the next bit, and
    /// builds the two buckets recursively.
    #[verifier::rlimit(100)]
    fn build_partitioned(&mut self, sequences: &[BitVecWrap])
        requires
            old(self).wf(),
            old(self).count() == 0,
            1 <= sequences@.len(),
            pairwise_compatible(models(sequences@)),
            forall|k: int|
                0 <= k < sequences@.len() ==> (#[trigger] models(sequences@)[k]).len()
                    <= usize::MAX,
            exists|k: int|
                0 <= k < sequences@.len() && #[trigger] models(sequences@)[k] != models(
                    sequences@,
                )[0],
        ensures
            final(self).wf(),
            final(self).stored() == models(sequences@),
            final(self).width() <= max_len(models(sequences@)),
        decreases sequences@.len(), 1int,
    {
        let ghost ms = models(sequences@);
        let n = sequences.len();
        proof {
            lemma_max_len(ms);
        }
        proof {
            lemma_max_len_bound(ms, usize::MAX as int);
        }
        let prefix = Self::common_prefix(sequences);
        let al = prefix.len();
        let ghost pg = prefix@;
        let ghost kne = choose|k: int| 0 <= k < n && #[trigger] ms[k] != ms[0];
        let ghost kw = choose|k: int|
            0 <= k < n && pg.len() == lcp_len(ms[0], #[trigger] ms[k]);
        proof {
            assert(0 <= kne < n && ms[kne] != ms[0]);
            assert(0 <= kw < n && pg.len() == lcp_len(ms[0], ms[kw]));
            Self::lemma_static_prefix_facts(ms, pg, kne, kw);
        }
        let parts = Self::partition(sequences, al);
        let (positions, left_seqs, right_seqs) = parts;
        let ghost beta = positions@;
        let ghost lm = models(left_seqs@);
        let ghost rm = models(right_seqs@);
        proof {
            Self::lemma_static_buckets(ms, pg, beta, lm, rm, kw);
        }
        self.build_children(prefix, positions, left_seqs, right_seqs, Ghost(ms));
    }

    /// Builds the two children from the suffix buckets and re-forms this
    /// node around them.
    #[verifier::rlimit(100)]
    fn build_children(
        &mut self,
        prefix: BitVecWrap,
        positions: BitVecWrap,
        left_seqs: Vec<BitVecWrap>,
        right_seqs: Vec<BitVecWrap>,
        Ghost(ms): Ghost<Seq<Seq<bool>>>,
    )
        requires
            pairwise_compatible(models(left_seqs@)),
            pairwise_compatible(models(right_seqs@)),
            positions@.len() == ms.len(),
            models(left_seqs@).len() == rank_of(positions@, false, ms.len() as int),
            models(right_seqs@).len() == rank_of(positions@, true, ms.len() as int),
            forall|k: int|
                0 <= k < ms.len() && positions@[k] == false ==> models(left_seqs@)[rank_of(
                    positions@,
                    false,
                    k,
                )] == (#[trigger] ms[k]).skip(prefix@.len() as int + 1),
            forall|k: int|
                0 <= k < ms.len() && positions@[k] == true ==> models(right_seqs@)[rank_of(
                    positions@,
                    true,
                    k,
                )] == (#[trigger] ms[k]).skip(prefix@.len() as int + 1),
            forall|k: int|
                0 <= k < ms.len() ==> #[trigger] ms[k] == prefix@.push(positions@[k])
                    + ms[k].skip(prefix@.len() as int + 1),
            forall|k: int|
                0 <= k < models(left_seqs@).len() ==> (#[trigger] models(left_seqs@)[k]).len()
                    <= max_len(ms) - prefix@.len() - 1,
            forall|k: int|
                0 <= k < models(right_seqs@).len() ==> (#[trigger] models(right_seqs@)[k]).len()
                    <= max_len(ms) - prefix@.len() - 1,
            max_len(models(left_seqs@)) <= max_len(ms) - prefix@.len() - 1,
            max_len(models(right_seqs@)) <= max_len(ms) - prefix@.len() - 1,
            max_len(ms) <= usize::MAX,
            1 <= models(left_seqs@).len(),
            1 <= models(right_seqs@).len(),
            models(left_seqs@).len() < ms.len(),
            models(right_seqs@).len() < ms.len(),
        ensures
            final(self).wf(),
            final(self).stored() == ms,
            final(self).width() <= max_len(ms),
        decreases ms.len(), 0int,
    {
        let ghost lm = models(left_seqs@);
        let ghost rm = models(right_seqs@);
        let mut left_child = WaveletTrie::new();
        let mut right_child = WaveletTrie::new();
        proof {
            assert(left_child.stored().len() == 0 && left_child.count() == 0);
            assert(right_child.stored().len() == 0 && right_child.count() == 0);
        }
        left_child.insert_static(left_seqs.as_slice());
        right_child.insert_static(right_seqs.as_slice());
        self.assemble_node(prefix, positions, left_child, right_child, Ghost(ms));
    }

    /// Builds a wavelet trie holding the given sequences, in order.  The
    /// input must be prefix-free: pairwise compatible.
    pub fn from_sequences(sequences: &[BitVecWrap]) -> (r: Self)
        requires
            pairwise_compatible(models(sequences@)),
            forall|k: int|
                0 <= k < sequences@.len() ==> (#[trigger] models(sequences@)[k]).len()
                    <= usize::MAX,
        ensures
            r.wf(),
            r.stored() == models(sequences@),
    {
        let mut wavelet_trie = WaveletTrie::new();
        proof {
            assert(wavelet_trie.stored().len() == 0);
            assert(wavelet_trie.count() == 0);
        }
        wavelet_trie.insert_static(sequences);
        wavelet_trie
    }

    /// The bit sequence a text stands for: its UTF-8 bytes followed by a
    /// zero terminator byte, so that distinct texts stay prefix-free.
    fn text_to_bitvec(text: &str) -> (r: BitVecWrap)
        requires
            text@.len() <= usize::MAX,
            8 * encode_utf8(text@).len() + 8 <= usize::MAX,
        ensures
            r@ == bits_of_bytes(encode_utf8(text@) + seq![0u8]),
    {
        let text_bytes = text.as_bytes();
        let mut text_bitvec = BitVecWrap::from_bytes(text_bytes);
        let mut term: Vec<u8> = Vec::new();
        term.push(0u8);
        let end_symbol = BitVecWrap::from_bytes(term.as_slice());
        proof {
            assert(term@ =~= seq![0u8]);
        }
        text_bitvec.append_vec(&end_symbol);
        proof {
            lemma_bits_of_bytes_concat(text.spec_bytes(), seq![0u8]);
        }
        text_bitvec
    }

    /// The bytes a stored bit sequence stands for, with the trailing
    /// terminator byte removed, decoded as UTF-8.
    fn bitvec_to_text(sequence: &BitVecWrap) -> (r: Result<String, std::string::FromUtf8Error>)
        ensures
            (sequence@.len() % 8 == 0 && sequence@.len() >= 8) ==> (match r {
                Ok(t) => valid_utf8(bytes_of_bits(sequence@).drop_last()) && t@ == decode_utf8(
                    bytes_of_bits(sequence@).drop_last(),
                ),
                Err(_) => !valid_utf8(bytes_of_bits(sequence@).drop_last()),
            }),
    {
        let mut bytes = sequence.to_bytes();
        proof {
            if sequence@.len() % 8 == 0 {
                assert(bytes@.len() == sequence@.len() / 8);
                lemma_bytes_of_bits_roundtrip(sequence@, bytes@);
            }
        }
        let _last = bytes.pop();
        string_from_utf8(bytes)
    }

    /// Appends a text, terminated with a zero byte; `Ok` exactly when the
    /// terminated encoding is compatible with every stored sequence.
    pub fn append_str(&mut self, text: &str) -> (r: Result<(), &'static str>)
        requires
            old(self).wf(),
            old(self).stored().len() < usize::MAX,
            text@.len() <= usize::MAX,
            8 * encode_utf8(text@).len() + 8 <= usize::MAX,
        ensures
            final(self).wf(),
            r is Ok <==> (forall|j: int|
                0 <= j < old(self).stored().len() ==> compatible(
                    bits_of_bytes(encode_utf8(text@) + seq![0u8]),
                    #[trigger] old(self).stored()[j],
                )),
            r is Ok ==> final(self).stored() == old(self).stored().push(
                bits_of_bytes(encode_utf8(text@) + seq![0u8]),
            ),
            r is Err ==> *final(self) == *old(self),
    {
        self.append(&Self::text_to_bitvec(text))
    }

    /// Counts how many of the first `index` stored sequences the text's
    /// encoding matches, as `rank` does; `None` when no stored sequence is
    /// comparable with it.
    pub fn rank_str(&self, text: &str, index: usize) -> (r: Option<usize>)
        requires
            self.wf(),
            index <= self.stored().len(),
            8 * encode_utf8(text@).len() <= usize::MAX,
        ensures
            match r {
                Some(c) => occurs(self.stored(), bits_of_bytes(encode_utf8(text@))) && c
                    == rank_of(
                    ext_mask(self.stored(), bits_of_bytes(encode_utf8(text@))),
                    true,
                    index as int,
                ),
                None => !occurs(self.stored(), bits_of_bytes(encode_utf8(text@))),
            },
    {
        let sequence = BitVecWrap::from_bytes(text.as_bytes());
        self.rank(&sequence, index)
    }

    /// Retrieves the text stored at `index`: the stored bit sequence,
    /// with its terminator byte removed, decoded as UTF-8.
    pub fn access_str(&self, index: usize) -> (r: Result<String, std::string::FromUtf8Error>)
        requires
            self.wf(),
            index < self.stored().len(),
        ensures
            (self.stored()[index as int].len() % 8 == 0 && self.stored()[index as int].len()
                >= 8) ==> (match r {
                Ok(t) => valid_utf8(bytes_of_bits(self.stored()[index as int]).drop_last()) && t@
                    == decode_utf8(bytes_of_bits(self.stored()[index as int]).drop_last()),
                Err(_) => !valid_utf8(bytes_of_bits(self.stored()[index as int]).drop_last()),
            }),
    {
        let sequence = self.access(index);
        Self::bitvec_to_text(&sequence)
    }

    /// Finds the position of the `occurrence_nr`-th stored sequence that
    /// the text's encoding is a prefix of.
    pub fn select_str(&self, text: &str, occurrence_nr: usize) -> (r: Option<usize>)
        requires
            self.wf(),
            occurrence_nr >= 1,
            8 * encode_utf8(text@).len() <= usize::MAX,
        ensures
            match r {
                Some(p) => occurrence_nr <= rank_of(
                    pref_mask(self.stored(), bits_of_bytes(encode_utf8(text@))),
                    true,
                    self.stored().len() as int,
                ) && p == select_of(
                    pref_mask(self.stored(), bits_of_bytes(encode_utf8(text@))),
                    true,
                    occurrence_nr as int,
                ),
                None => occurrence_nr > rank_of(
                    pref_mask(self.stored(), bits_of_bytes(encode_utf8(text@))),
                    true,
                    self.stored().len() as int,
                ),
            },
    {
        let sequence = BitVecWrap::from_bytes(text.as_bytes());
        self.select(&sequence, occurrence_nr)
    }

    /// Finds the positions of all stored sequences that the text's
    /// encoding is a prefix of, in increasing order.
    pub fn select_all_str(&self, text: &str) -> (r: Vec<usize>)
        requires
            self.wf(),
            8 * encode_utf8(text@).len() <= usize::MAX,
        ensures
            r@.len() == ones_of(pref_mask(self.stored(), bits_of_bytes(encode_utf8(text@)))).len(),
            forall|idx: int|
                0 <= idx < r@.len() ==> r@[idx] as int == ones_of(
                    pref_mask(self.stored(), bits_of_bytes(encode_utf8(text@))),
                )[idx],
    {
        let sequence = BitVecWrap::from_bytes(text.as_bytes());
        self.select_all(&sequence)
    }

    /// The number of nodes strictly below this one.
    pub closed spec fn opt_subnodes(c: Option<Box<WaveletTrie>>) -> int
        decreases c, 0int,
    {
        match c {
            None => 0,
            Some(b) => 1 + (*b).subnodes(),
        }
    }

    /// See `opt_subnodes`.
    pub closed spec fn subnodes(self) -> int
        decreases self, 1int,
    {
        Self::opt_subnodes(self.left) + Self::opt_subnodes(self.right)
    }

    /// The bits held in the prefix and positions bit-strings of this
    /// subtree.
    pub closed spec fn opt_used_bits(c: Option<Box<WaveletTrie>>) -> int
        decreases c, 0int,
    {
        match c {
            None => 0,
            Some(b) => (*b).used_bits(),
        }
    }

    /// See `opt_used_bits`.
    pub closed spec fn used_bits(self) -> int
        decreases self, 1int,
    {
        self.pre().len() + self.pos().len() + Self::opt_used_bits(self.left)
            + Self::opt_used_bits(self.right)
    }

    proof fn lemma_stats_nonneg(self)
        ensures
            self.subnodes() >= 0,
            self.used_bits() >= 0,
        decreases self,
    {
        match self.left {
            Some(l) => l.lemma_stats_nonneg(),
            None => (),
        }
        match self.right {
            Some(r) => r.lemma_stats_nonneg(),
            None => (),
        }
    }

    /// Addition clamped at the machine-word maximum.
    fn sat_add(a: usize, b: usize) -> (r: usize)
        ensures
            r as int == cap_usize(a as int + b as int),
    {
        if a <= usize::MAX - b {
            a + b
        } else {
            usize::MAX
        }
    }

    /// Counts the nodes below this one, the bits its subtree stores, and
    /// the bits its subtree has allocated, each clamped at the machine
    /// maximum.  The allocated count depends on the allocator and is not
    /// specified.
    pub fn print_stats(&self) -> (r: (usize, usize, usize))
        ensures
            r.0 as int == cap_usize(self.subnodes()),
            r.1 as int == cap_usize(self.used_bits()),
        decreases *self,
    {
        proof {
            self.lemma_stats_nonneg();
            match &self.left {
                Some(l) => l.lemma_stats_nonneg(),
                None => (),
            }
            match &self.right {
                Some(r) => r.lemma_stats_nonneg(),
                None => (),
            }
        }
        let mut nr_subnodes: usize = 0;
        let mut used_bits = Self::sat_add(self.prefix.len(), self.positions.len());
        let mut allocated_bits = Self::sat_add(
            Self::sat_add(self.prefix.capacity(), self.positions.capacity()),
            64,
        );
        if let Some(child) = &self.left {
            let (nn, ub, ab) = child.print_stats();
            nr_subnodes = Self::sat_add(nr_subnodes, Self::sat_add(1, nn));
            used_bits = Self::sat_add(used_bits, ub);
            allocated_bits = Self::sat_add(allocated_bits, ab);
        }
        if let Some(child) = &self.right {
            let (nn, ub, ab) = child.print_stats();
            nr_subnodes = Self::sat_add(nr_subnodes, Self::sat_add(1, nn));
            used_bits = Self::sat_add(used_bits, ub);
            allocated_bits = Self::sat_add(allocated_bits, ab);
        }
        (nr_subnodes, used_bits, allocated_bits)
    }

    /// A copy of this node's prefix bit-string.
    pub fn prefix_bits(&self) -> (r: BitVecWrap)
        ensures
            r@ == self.pre(),
    {
        self.prefix.copy()
    }

    /// A copy of this node's positions bit-string.
    pub fn positions_bits(&self) -> (r: BitVecWrap)
        ensures
            r@ == self.pos(),
    {
        self.positions.copy()
    }

    /// The left subtrie, if this node is internal.
    pub fn left_child(&self) -> (r: Option<&WaveletTrie>)
        ensures
            r is Some <==> self.child(false) is Some,
            r is Some ==> *r.unwrap() == *self.child(false).unwrap(),
    {
        match &self.left {
            Some(b) => Some(&**b),
            None => None,
        }
    }

    /// The right subtrie, if this node is internal.
    pub fn right_child(&self) -> (r: Option<&WaveletTrie>)
        ensures
            r is Some <==> self.child(true) is Some,
            r is Some ==> *r.unwrap() == *self.child(true).unwrap(),
    {
        match &self.right {
            Some(b) => Some(&**b),
            None => None,
        }
    }

    /// A fresh trie with the same stored sequences.
    pub fn clone(&self) -> (r: WaveletTrie)
        ensures
            r.stored() == self.stored(),
            r.width() == self.width(),
            self.wf() ==> r.wf(),
        decreases *self,
    {
        let left = match &self.left {
            Some(t) => Some(Box::new((**t).clone())),
            None => None,
        };
        let right = match &self.right {
            Some(t) => Some(Box::new((**t).clone())),
            None => None,
        };
        let r = WaveletTrie {
            prefix: self.prefix.copy(),
            positions: self.positions.copy(),
            left,
            right,
        };
        proof {
            assert(r.is_leaf() == self.is_leaf());
            assert(Self::opt_stored(r.left) == Self::opt_stored(self.left));
            assert(Self::opt_stored(r.right) == Self::opt_stored(self.right));
            assert(r.residue() =~= self.residue());
            assert(r.stored() =~= self.stored());
            if self.wf() {
                assert(Self::opt_width(r.left) == Self::opt_width(self.left));
                assert(Self::opt_width(r.right) == Self::opt_width(self.right));
                assert(r.width() == self.width());
                assert(r.wf());
            }
        }
        r
    }

    /// Shape and count consistency: in a well-formed trie every non-leaf
    /// node has both children, and the zero- and one-counts of its
    /// positions bits equal the number of sequences stored in its left and
    /// right subtree.
    pub proof fn law_shape_and_counts(t: WaveletTrie)
        requires
            t.wf(),
        ensures
            !t.is_leaf() ==> t.child(false) is Some && t.child(true) is Some,
            !t.is_leaf() ==> rank_of(t.pos(), false, t.count()) == Self::opt_stored(
                t.child(false),
            ).len() && rank_of(t.pos(), true, t.count()) == Self::opt_stored(t.child(true)).len(),
            !t.is_leaf() ==> Self::opt_stored(t.child(false)).len() > 0 && Self::opt_stored(
                t.child(true),
            ).len() > 0,
            Self::opt_wf(t.child(false)),
            Self::opt_wf(t.child(true)),
    {
        if !t.is_leaf() {
            match (t.left, t.right) {
                (Some(l), Some(r)) => {
                    assert(Self::opt_stored(t.child(false)) == (*l).stored());
                    assert(Self::opt_stored(t.child(true)) == (*r).stored());
                },
                _ => {
                    assert(false);
                },
            }
        }
    }

    /// Prefix-freeness: no sequence stored in a well-formed trie is a
    /// strict prefix of another stored sequence.
    pub proof fn law_prefix_free(t: WaveletTrie)
        requires
            t.wf(),
        ensures
            pairwise_compatible(t.stored()),
        decreases t,
    {
        reveal(pairwise_compatible);
        let ss = t.stored();
        match t.left {
            Some(l) => Self::law_prefix_free(*l),
            None => (),
        }
        match t.right {
            Some(r) => Self::law_prefix_free(*r),
            None => (),
        }
        assert forall|i: int, j: int|
            0 <= i < ss.len() && 0 <= j < ss.len() implies compatible(
            #[trigger] ss[i],
            #[trigger] ss[j],
        ) by {
            if t.is_leaf() {
                t.lemma_stored_prefix(i);
                t.lemma_stored_prefix(j);
            } else {
                t.lemma_stored_index(i);
                t.lemma_stored_index(j);
                let bi = t.pos()[i];
                let bj = t.pos()[j];
                let ui = Self::opt_stored(t.child(bi))[rank_of(t.pos(), bi, i)];
                let uj = Self::opt_stored(t.child(bj))[rank_of(t.pos(), bj, j)];
                if bi == bj {
                    assert(compatible(ui, uj)) by {
                        match t.child(bi) {
                            Some(c) => {
                                assert(pairwise_compatible((*c).stored()));
                            },
                            None => {
                                assert(false);
                            },
                        }
                    }
                    lemma_compat_congruence(t.pre().push(bi), ui, uj);
                } else {
                    t.lemma_stored_prefix(i);
                    t.lemma_stored_prefix(j);
                    lemma_diverge_incomparable(ss[i], ss[j], t.pre().len() as int);
                }
            }
        }
    }

    /// Rank and access agree: the stored sequence at position `i` is
    /// counted exactly once by its own rank between `i` and `i + 1`.
    pub proof fn law_rank_access(ss: Seq<Seq<bool>>, i: int)
        requires
            0 <= i < ss.len(),
        ensures
            occurs(ss, ss[i]),
            rank_of(ext_mask(ss, ss[i]), true, i + 1) - rank_of(ext_mask(ss, ss[i]), true, i)
                == 1,
    {
        assert(ss[i].is_prefix_of(ss[i])) by {
            assert(ss[i] =~= ss[i].subrange(0, ss[i].len() as int));
        }
        assert(ext_mask(ss, ss[i])[i] == true);
        assert(rank_of(ext_mask(ss, ss[i]), true, i + 1) == rank_of(ext_mask(ss, ss[i]), true, i)
            + 1);
    }

    /// Select and rank are inverse on a prefix-free collection: the
    /// position of the k-th occurrence of a stored sequence carries
    /// exactly one more occurrence than the positions before it, and
    /// selecting one past the rank of a position lands at or beyond it.
    pub proof fn law_select_rank_inverse(ss: Seq<Seq<bool>>, m: int, k: int, j: int)
        requires
            pairwise_compatible(ss),
            0 <= m < ss.len(),
            1 <= k <= rank_of(pref_mask(ss, ss[m]), true, ss.len() as int),
            0 <= j <= ss.len(),
        ensures
            rank_of(
                ext_mask(ss, ss[m]),
                true,
                select_of(pref_mask(ss, ss[m]), true, k) + 1,
            ) - rank_of(ext_mask(ss, ss[m]), true, select_of(pref_mask(ss, ss[m]), true, k))
                == 1,
            rank_of(pref_mask(ss, ss[m]), true, j) < rank_of(
                pref_mask(ss, ss[m]),
                true,
                ss.len() as int,
            ) ==> select_of(
                pref_mask(ss, ss[m]),
                true,
                rank_of(pref_mask(ss, ss[m]), true, j) + 1,
            ) >= j,
    {
        reveal(pairwise_compatible);
        let q = ss[m];
        let pm = pref_mask(ss, q);
        let em = ext_mask(ss, q);
        // on a prefix-free collection the two masks agree: a stored
        // sequence strictly extended by the query would violate
        // prefix-freeness
        assert forall|idx: int| 0 <= idx < ss.len() implies pm[idx] == em[idx] by {
            assert(compatible(ss[idx], ss[m]));
        }
        assert(pm =~= em);
        lemma_select_props(pm, true, k);
        let p = select_of(pm, true, k);
        assert(rank_of(em, true, p + 1) == rank_of(em, true, p) + 1) by {
            lemma_rank_congruence(pm, em, true, p + 1);
            lemma_rank_congruence(pm, em, true, p);
        }
        if rank_of(pm, true, j) < rank_of(pm, true, ss.len() as int) {
            lemma_select_after(pm, true, j);
        }
    }

    /// Round trip: inserting a sequence and reading it back at its
    /// insertion position reproduces it, and leaves every other stored
    /// sequence in place.
    pub proof fn law_insert_access_round_trip(ss: Seq<Seq<bool>>, q: Seq<bool>, i: int, j: int)
        requires
            0 <= i <= ss.len(),
            0 <= j <= ss.len(),
        ensures
            ss.insert(i, q)[i] == q,
            j < i ==> ss.insert(i, q)[j] == ss[j],
            i < j ==> ss.insert(i, q)[j] == ss[j - 1],
    {
        lemma_insert_index(ss, i, q);
    }

    /// Delete-insert idempotence: removing the sequence at a position and
    /// re-inserting it there restores the stored collection, and on a
    /// prefix-free collection that re-insertion is always allowed.
    pub proof fn law_delete_insert(ss: Seq<Seq<bool>>, i: int)
        requires
            0 <= i < ss.len(),
        ensures
            ss.remove(i).insert(i, ss[i]) == ss,
            pairwise_compatible(ss) ==> forall|j: int|
                0 <= j < ss.remove(i).len() ==> compatible(ss[i], #[trigger] ss.remove(i)[j]),
    {
        lemma_remove_index(ss, i);
        lemma_insert_index(ss.remove(i), i, ss[i]);
        assert(ss.remove(i).insert(i, ss[i]) =~= ss);
        if pairwise_compatible(ss) {
            reveal(pairwise_compatible);
            assert forall|j: int| 0 <= j < ss.remove(i).len() implies compatible(
                ss[i],
                #[trigger] ss.remove(i)[j],
            ) by {
                if j < i {
                    assert(ss.remove(i)[j] == ss[j]);
                } else {
                    assert(ss.remove(i)[j] == ss[j + 1]);
                }
            }
        }
    }

    /// Bulk equals incremental: two well-formed tries storing the same
    /// sequences answer every query identically, because each query
    /// contract depends only on the stored sequences.
    pub proof fn law_bulk_equals_incremental(
        t1: WaveletTrie,
        t2: WaveletTrie,
        q: Seq<bool>,
        i: int,
    )
        requires
            t1.wf(),
            t2.wf(),
            t1.stored() == t2.stored(),
        ensures
            occurs(t1.stored(), q) == occurs(t2.stored(), q),
            ext_mask(t1.stored(), q) == ext_mask(t2.stored(), q),
            pref_mask(t1.stored(), q) == pref_mask(t2.stored(), q),
            0 <= i < t1.stored().len() ==> t1.stored()[i] == t2.stored()[i],
    {
    }
}

} // verus!
