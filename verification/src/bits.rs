//! Specification-level theory of bit sequences: rank and select counting,
//! longest common prefixes, and the correspondence between bit sequences and
//! byte sequences (most-significant bit first).

use vstd::prelude::*;

verus! {

/// Number of bits equal to `b` among `s[0], ..., s[i - 1]`.
pub open spec fn rank_of(s: Seq<bool>, b: bool, i: int) -> int
    decreases i,
{
    if i <= 0 {
        0
    } else {
        rank_of(s, b, i - 1) + if s[i - 1] == b {
            1int
        } else {
            0int
        }
    }
}

/// Position of the k-th (1-indexed) bit equal to `b`, counting from the
/// front; meaningful when `s` holds at least `k` such bits.
pub open spec fn select_of(s: Seq<bool>, b: bool, k: int) -> int
    decreases s.len(),
{
    if s.len() == 0 {
        0
    } else if s[0] == b && k <= 1 {
        0
    } else if s[0] == b {
        1 + select_of(s.drop_first(), b, k - 1)
    } else {
        1 + select_of(s.drop_first(), b, k)
    }
}

/// Length of the longest common prefix of `u` and `v`.
pub open spec fn lcp_len(u: Seq<bool>, v: Seq<bool>) -> int
    decreases u.len(),
{
    if u.len() == 0 || v.len() == 0 || u[0] != v[0] {
        0
    } else {
        1 + lcp_len(u.drop_first(), v.drop_first())
    }
}

/// `u` and `v` are compatible when neither is a strict prefix of the other:
/// storing both in one prefix-free collection is allowed.
pub open spec fn compatible(u: Seq<bool>, v: Seq<bool>) -> bool {
    !(u.is_prefix_of(v) && u.len() < v.len()) && !(v.is_prefix_of(u) && v.len() < u.len())
}

pub proof fn lemma_rank_bounds(s: Seq<bool>, b: bool, i: int)
    requires
        0 <= i,
    ensures
        0 <= rank_of(s, b, i) <= i,
    decreases i,
{
    if i > 0 {
        lemma_rank_bounds(s, b, i - 1);
    }
}

/// The zero-rank and the one-rank of a position add up to the position.
pub proof fn lemma_rank_split(s: Seq<bool>, i: int)
    requires
        0 <= i,
    ensures
        rank_of(s, false, i) + rank_of(s, true, i) == i,
    decreases i,
{
    if i > 0 {
        lemma_rank_split(s, i - 1);
    }
}

pub proof fn lemma_rank_monotone(s: Seq<bool>, b: bool, i: int, j: int)
    requires
        0 <= i <= j,
    ensures
        rank_of(s, b, i) <= rank_of(s, b, j),
        rank_of(s, b, j) - rank_of(s, b, i) <= j - i,
    decreases j - i,
{
    if i < j {
        lemma_rank_monotone(s, b, i, j - 1);
    }
}

/// Two sequences that agree on their first `i` elements have the same ranks
/// there.
pub proof fn lemma_rank_congruence(s: Seq<bool>, t: Seq<bool>, b: bool, i: int)
    requires
        0 <= i <= s.len(),
        i <= t.len(),
        forall|j: int| 0 <= j < i ==> s[j] == t[j],
    ensures
        rank_of(s, b, i) == rank_of(t, b, i),
    decreases i,
{
    if i > 0 {
        lemma_rank_congruence(s, t, b, i - 1);
    }
}

/// Rank decomposes around the first element.
pub proof fn lemma_rank_front(s: Seq<bool>, b: bool, i: int)
    requires
        1 <= i <= s.len(),
    ensures
        rank_of(s, b, i) == (if s[0] == b {
            1int
        } else {
            0int
        }) + rank_of(s.drop_first(), b, i - 1),
    decreases i,
{
    if i == 1 {
        assert(rank_of(s, b, 0) == 0);
        assert(rank_of(s.drop_first(), b, 0) == 0);
    } else {
        lemma_rank_front(s, b, i - 1);
        assert(s.drop_first()[i - 2] == s[i - 1]);
        assert(rank_of(s.drop_first(), b, i - 1) == rank_of(s.drop_first(), b, i - 2) + (if s
            .drop_first()[i - 2] == b {
            1int
        } else {
            0int
        }));
    }
}

/// How ranks change when a bit is inserted at position `j`.
pub proof fn lemma_rank_insert(s: Seq<bool>, j: int, nb: bool, b: bool, i: int)
    requires
        0 <= j <= s.len(),
        0 <= i <= s.len() + 1,
    ensures
        i <= j ==> rank_of(s.insert(j, nb), b, i) == rank_of(s, b, i),
        i > j ==> rank_of(s.insert(j, nb), b, i) == rank_of(s, b, i - 1) + (if nb == b {
            1int
        } else {
            0int
        }),
    decreases i,
{
    if i > 0 {
        lemma_rank_insert(s, j, nb, b, i - 1);
    }
}

/// How ranks change when the bit at position `j` is removed.
pub proof fn lemma_rank_remove(s: Seq<bool>, j: int, b: bool, i: int)
    requires
        0 <= j < s.len(),
        0 <= i <= s.len() - 1,
    ensures
        i <= j ==> rank_of(s.remove(j), b, i) == rank_of(s, b, i),
        i > j ==> rank_of(s.remove(j), b, i) == rank_of(s, b, i + 1) - (if s[j] == b {
            1int
        } else {
            0int
        }),
    decreases i,
{
    if i > 0 {
        lemma_rank_remove(s, j, b, i - 1);
        assert(s.remove(j)[i - 1] == if i - 1 < j {
            s[i - 1]
        } else {
            s[i]
        });
        assert(rank_of(s.remove(j), b, i) == rank_of(s.remove(j), b, i - 1) + (if s.remove(j)[i - 1]
            == b {
            1int
        } else {
            0int
        }));
        assert(rank_of(s, b, i) == rank_of(s, b, i - 1) + (if s[i - 1] == b {
            1int
        } else {
            0int
        }));
        assert(rank_of(s, b, i + 1) == rank_of(s, b, i) + (if s[i] == b {
            1int
        } else {
            0int
        }));
    }
}

/// The selected position of the k-th `b`-bit carries exactly `k - 1` such
/// bits before it and holds one itself.
pub proof fn lemma_select_props(s: Seq<bool>, b: bool, k: int)
    requires
        1 <= k <= rank_of(s, b, s.len() as int),
    ensures
        0 <= select_of(s, b, k) < s.len(),
        s[select_of(s, b, k)] == b,
        rank_of(s, b, select_of(s, b, k)) == k - 1,
        rank_of(s, b, select_of(s, b, k) + 1) == k,
    decreases s.len(),
{
    lemma_rank_bounds(s, b, s.len() as int);
    lemma_rank_front(s, b, s.len() as int);
    if s[0] == b && k <= 1 {
        assert(rank_of(s, b, 0) == 0);
        assert(rank_of(s, b, 1) == 1) by {
            lemma_rank_front(s, b, 1);
        }
    } else {
        let k2: int = if s[0] == b {
            k - 1
        } else {
            k
        };
        lemma_select_props(s.drop_first(), b, k2);
        let p: int = select_of(s.drop_first(), b, k2);
        assert(select_of(s, b, k) == 1 + p);
        lemma_rank_front(s, b, 1 + p);
        lemma_rank_front(s, b, 2 + p);
    }
}

/// A position holding a `b`-bit with exactly `k - 1` such bits before it is
/// the selected position of the k-th `b`-bit.
pub proof fn lemma_select_unique(s: Seq<bool>, b: bool, k: int, p: int)
    requires
        0 <= p < s.len(),
        s[p] == b,
        rank_of(s, b, p) == k - 1,
    ensures
        k >= 1,
        k <= rank_of(s, b, s.len() as int),
        select_of(s, b, k) == p,
{
    lemma_rank_bounds(s, b, p);
    assert(rank_of(s, b, p + 1) == k);
    lemma_rank_monotone(s, b, p + 1, s.len() as int);
    lemma_select_props(s, b, k);
    let q: int = select_of(s, b, k);
    if q < p {
        lemma_rank_monotone(s, b, q + 1, p);
    }
    if q > p {
        lemma_rank_monotone(s, b, p + 1, q);
    }
}

/// Selecting one past the rank of a position lands at or beyond the position.
pub proof fn lemma_select_after(s: Seq<bool>, b: bool, j: int)
    requires
        0 <= j <= s.len(),
        rank_of(s, b, j) < rank_of(s, b, s.len() as int),
    ensures
        select_of(s, b, rank_of(s, b, j) + 1) >= j,
{
    let k: int = rank_of(s, b, j) + 1;
    lemma_rank_bounds(s, b, j);
    lemma_select_props(s, b, k);
    let p: int = select_of(s, b, k);
    if p < j {
        lemma_rank_monotone(s, b, p + 1, j);
    }
}

/// Ranks over a constant sequence.
pub proof fn lemma_rank_const(n: int, b: bool, c: bool, i: int)
    requires
        0 <= i <= n,
    ensures
        rank_of(Seq::new(n as nat, |j: int| c), b, i) == if b == c {
            i
        } else {
            0int
        },
    decreases i,
{
    if i > 0 {
        lemma_rank_const(n, b, c, i - 1);
    }
}

/// How the elements of `s.insert(i, a)` relate to those of `s`.
pub proof fn lemma_insert_index<A>(s: Seq<A>, i: int, a: A)
    requires
        0 <= i <= s.len(),
    ensures
        s.insert(i, a).len() == s.len() + 1,
        forall|j: int| 0 <= j < i ==> s.insert(i, a)[j] == s[j],
        s.insert(i, a)[i] == a,
        forall|j: int| i < j <= s.len() ==> s.insert(i, a)[j] == s[j - 1],
{
}

/// How the elements of `s.remove(i)` relate to those of `s`.
pub proof fn lemma_remove_index<A>(s: Seq<A>, i: int)
    requires
        0 <= i < s.len(),
    ensures
        s.remove(i).len() == s.len() - 1,
        forall|j: int| 0 <= j < i ==> s.remove(i)[j] == s[j],
        forall|j: int| i <= j < s.len() - 1 ==> s.remove(i)[j] == s[j + 1],
{
}

/// Two prefixes of one sequence are comparable: one is a prefix of the
/// other.
pub proof fn lemma_prefixes_comparable(a: Seq<bool>, b: Seq<bool>, c: Seq<bool>)
    requires
        a.is_prefix_of(c),
        b.is_prefix_of(c),
    ensures
        a.len() <= b.len() ==> a.is_prefix_of(b),
        b.len() <= a.len() ==> b.is_prefix_of(a),
{
    if a.len() <= b.len() {
        assert(a =~= b.subrange(0, a.len() as int));
    }
    if b.len() <= a.len() {
        assert(b =~= a.subrange(0, b.len() as int));
    }
}

/// Prefix relations compose.
pub proof fn lemma_pref_trans(a: Seq<bool>, b: Seq<bool>, c: Seq<bool>)
    requires
        a.is_prefix_of(b),
        b.is_prefix_of(c),
    ensures
        a.is_prefix_of(c),
{
    assert(a =~= c.subrange(0, a.len() as int));
}

/// Prefix relations are preserved under a shared leading sequence.
pub proof fn lemma_pref_congruence(p: Seq<bool>, u: Seq<bool>, v: Seq<bool>)
    ensures
        (p + u).is_prefix_of(p + v) == u.is_prefix_of(v),
{
    if u.is_prefix_of(v) {
        assert((p + u) =~= (p + v).subrange(0, (p + u).len() as int));
    }
    if (p + u).is_prefix_of(p + v) {
        assert(u =~= v.subrange(0, u.len() as int)) by {
            assert forall|j: int| 0 <= j < u.len() implies u[j] == v[j] by {
                assert((p + u)[p.len() + j] == (p + v)[p.len() + j]);
            }
        }
    }
}

/// Compatibility is preserved under a shared leading sequence.
pub proof fn lemma_compat_congruence(p: Seq<bool>, u: Seq<bool>, v: Seq<bool>)
    ensures
        compatible(p + u, p + v) == compatible(u, v),
{
    lemma_pref_congruence(p, u, v);
    lemma_pref_congruence(p, v, u);
}

/// Sequences that disagree somewhere below both their lengths admit no
/// prefix relation in either direction.
pub proof fn lemma_diverge_incomparable(u: Seq<bool>, v: Seq<bool>, m: int)
    requires
        0 <= m < u.len(),
        m < v.len(),
        u[m] != v[m],
    ensures
        !u.is_prefix_of(v),
        !v.is_prefix_of(u),
{
    if u.is_prefix_of(v) {
        assert(u[m] == v.subrange(0, u.len() as int)[m]);
    }
    if v.is_prefix_of(u) {
        assert(v[m] == u.subrange(0, v.len() as int)[m]);
    }
}

/// A sequence splits at any interior position into its head, the bit
/// there, and its tail.
pub proof fn lemma_split_at(u: Seq<bool>, m: int)
    requires
        0 <= m < u.len(),
    ensures
        u == u.take(m).push(u[m]) + u.skip(m + 1),
{
    assert(u =~= u.take(m).push(u[m]) + u.skip(m + 1));
}

/// Counting through a routing sequence: when a parent mask holds exactly
/// the `b`-routed positions whose child-mask bit is set, parent counts
/// equal child counts at the translated position.
pub proof fn lemma_rank_compose(
    beta: Seq<bool>,
    b: bool,
    pm: Seq<bool>,
    cm: Seq<bool>,
    i: int,
)
    requires
        0 <= i <= beta.len(),
        pm.len() == beta.len(),
        cm.len() >= rank_of(beta, b, beta.len() as int),
        forall|j: int|
            0 <= j < beta.len() ==> pm[j] == (beta[j] == b && cm[rank_of(beta, b, j)]),
    ensures
        rank_of(pm, true, i) == rank_of(cm, true, rank_of(beta, b, i)),
    decreases i,
{
    if i > 0 {
        lemma_rank_compose(beta, b, pm, cm, i - 1);
        lemma_rank_bounds(beta, b, i - 1);
        lemma_rank_monotone(beta, b, i, beta.len() as int);
        if beta[i - 1] == b {
            assert(rank_of(cm, true, rank_of(beta, b, i - 1) + 1) == rank_of(
                cm,
                true,
                rank_of(beta, b, i - 1),
            ) + (if cm[rank_of(beta, b, i - 1)] {
                1int
            } else {
                0int
            }));
        }
    }
}

/// How ranks extend when a bit is appended.
pub proof fn lemma_rank_push(s: Seq<bool>, x: bool, b: bool, i: int)
    requires
        0 <= i <= s.len() + 1,
    ensures
        i <= s.len() ==> rank_of(s.push(x), b, i) == rank_of(s, b, i),
        i == s.len() + 1 ==> rank_of(s.push(x), b, i) == rank_of(s, b, s.len() as int) + (if x
            == b {
            1int
        } else {
            0int
        }),
{
    if i <= s.len() {
        lemma_rank_congruence(s, s.push(x), b, i);
    } else {
        lemma_rank_congruence(s, s.push(x), b, s.len() as int);
        assert(rank_of(s.push(x), b, s.len() as int + 1) == rank_of(s.push(x), b, s.len() as int) + (if s.push(x)[s.len() as int]
            == b {
            1int
        } else {
            0int
        }));
    }
}

/// The positions of the set bits of a mask, in increasing order.
pub open spec fn ones_of(m: Seq<bool>) -> Seq<int>
    decreases m.len(),
{
    if m.len() == 0 {
        Seq::<int>::empty()
    } else if m.last() {
        ones_of(m.drop_last()).push(m.len() - 1)
    } else {
        ones_of(m.drop_last())
    }
}

/// `ones_of` lists one position per set bit, the k-th entry being the
/// selected position of the (k+1)-th set bit.
pub proof fn lemma_ones_of(m: Seq<bool>)
    ensures
        ones_of(m).len() == rank_of(m, true, m.len() as int),
        forall|k: int|
            0 <= k < ones_of(m).len() ==> #[trigger] ones_of(m)[k] == select_of(m, true, k + 1),
    decreases m.len(),
{
    if m.len() > 0 {
        let d = m.drop_last();
        lemma_ones_of(d);
        lemma_rank_congruence(m, d, true, m.len() - 1);
        assert forall|k: int| 0 <= k < ones_of(m).len() implies #[trigger] ones_of(m)[k]
            == select_of(m, true, k + 1) by {
            if m.last() && k == ones_of(m).len() - 1 {
                assert(rank_of(m, true, m.len() - 1) == k);
                lemma_select_unique(m, true, k + 1, m.len() - 1);
            } else {
                assert(ones_of(m)[k] == ones_of(d)[k]);
                let p = ones_of(d)[k];
                assert(p == select_of(d, true, k + 1));
                lemma_select_props(d, true, k + 1);
                lemma_rank_congruence(m, d, true, p);
                lemma_select_unique(m, true, k + 1, p);
            }
        }
    }
}

pub proof fn lemma_lcp_bounds(u: Seq<bool>, v: Seq<bool>)
    ensures
        0 <= lcp_len(u, v),
        lcp_len(u, v) <= u.len(),
        lcp_len(u, v) <= v.len(),
        forall|i: int| 0 <= i < lcp_len(u, v) ==> u[i] == v[i],
        (lcp_len(u, v) < u.len() && lcp_len(u, v) < v.len()) ==> u[lcp_len(u, v)] != v[lcp_len(
            u,
            v,
        )],
    decreases u.len(),
{
    if u.len() != 0 && v.len() != 0 && u[0] == v[0] {
        lemma_lcp_bounds(u.drop_first(), v.drop_first());
        let l: int = lcp_len(u, v);
        assert forall|i: int| 0 <= i < l implies u[i] == v[i] by {
            if i > 0 {
                assert(u.drop_first()[i - 1] == v.drop_first()[i - 1]);
            }
        }
        if l < u.len() && l < v.len() {
            assert(u.drop_first()[l - 1] != v.drop_first()[l - 1]);
        }
    }
}

/// Any length up to which the two sequences agree is at most the length of
/// their longest common prefix.
pub proof fn lemma_lcp_maximal(u: Seq<bool>, v: Seq<bool>, n: int)
    requires
        0 <= n <= u.len(),
        n <= v.len(),
        forall|i: int| 0 <= i < n ==> u[i] == v[i],
    ensures
        lcp_len(u, v) >= n,
    decreases n,
{
    lemma_lcp_bounds(u, v);
    if n > 0 {
        assert(u[0] == v[0]);
        assert forall|i: int| 0 <= i < n - 1 implies u.drop_first()[i] == v.drop_first()[i] by {
            assert(u[i + 1] == v[i + 1]);
        }
        lemma_lcp_maximal(u.drop_first(), v.drop_first(), n - 1);
        assert(lcp_len(u, v) == 1 + lcp_len(u.drop_first(), v.drop_first()));
    }
}

/// The longest common prefix of a sequence with itself is the whole sequence.
pub proof fn lemma_lcp_self(u: Seq<bool>)
    ensures
        lcp_len(u, u) == u.len(),
{
    lemma_lcp_bounds(u, u);
    lemma_lcp_maximal(u, u, u.len() as int);
}

/// Bit `j` (0-indexed, most significant first) of a byte.
pub open spec fn bit_of_byte(by: u8, j: int) -> bool {
    by >> (7 - j) as u8 & 1u8 == 1u8
}

/// The bits of a byte sequence, most significant bit of each byte first.
pub open spec fn bits_of_bytes(bs: Seq<u8>) -> Seq<bool> {
    Seq::new(bs.len() * 8, |i: int| bit_of_byte(bs[i / 8], i % 8))
}

/// The bits of a sequence of 32-bit words, least significant bit of each
/// word first.
pub open spec fn bits_of_u32s(ws: Seq<u32>) -> Seq<bool> {
    Seq::new(ws.len() * 32, |i: int| (ws[i / 32] >> ((i % 32) as u32)) & 1u32 == 1u32)
}

/// The byte assembled from `s[base], ..., s[base + 7]`, most significant
/// bit first.
pub open spec fn byte_of_bits(s: Seq<bool>, base: int) -> u8 {
    (128 * (if s[base] {
        1int
    } else {
        0int
    }) + 64 * (if s[base + 1] {
        1int
    } else {
        0int
    }) + 32 * (if s[base + 2] {
        1int
    } else {
        0int
    }) + 16 * (if s[base + 3] {
        1int
    } else {
        0int
    }) + 8 * (if s[base + 4] {
        1int
    } else {
        0int
    }) + 4 * (if s[base + 5] {
        1int
    } else {
        0int
    }) + 2 * (if s[base + 6] {
        1int
    } else {
        0int
    }) + (if s[base + 7] {
        1int
    } else {
        0int
    })) as u8
}

/// The bytes of a bit sequence whose length is a multiple of eight.
pub open spec fn bytes_of_bits(s: Seq<bool>) -> Seq<u8> {
    Seq::new(s.len() / 8, |i: int| byte_of_bits(s, 8 * i))
}

/// Bit expansion distributes over byte concatenation.
pub proof fn lemma_bits_of_bytes_concat(b1: Seq<u8>, b2: Seq<u8>)
    ensures
        bits_of_bytes(b1 + b2) == bits_of_bytes(b1) + bits_of_bytes(b2),
{
    let l1 = b1.len() as int;
    assert forall|i: int| 0 <= i < (b1 + b2).len() * 8 implies bits_of_bytes(b1 + b2)[i] == (
    bits_of_bytes(b1) + bits_of_bytes(b2))[i] by {
        if i < 8 * l1 {
            assert(0 <= i / 8 < l1) by (nonlinear_arith)
                requires
                    0 <= i < 8 * l1,
            ;
            assert((b1 + b2)[i / 8] == b1[i / 8]);
        } else {
            assert((i - 8 * l1) / 8 == i / 8 - l1 && (i - 8 * l1) % 8 == i % 8)
                by (nonlinear_arith)
                requires
                    i >= 8 * l1,
                    l1 >= 0,
            ;
            assert(l1 <= i / 8) by (nonlinear_arith)
                requires
                    i >= 8 * l1,
                    l1 >= 0,
            ;
            assert((b1 + b2)[i / 8] == b2[i / 8 - l1]);
            assert(bits_of_bytes(b2)[i - 8 * l1] == bit_of_byte(b2[(i - 8 * l1) / 8], (i - 8 * l1)
                % 8));
        }
    }
    assert(bits_of_bytes(b1 + b2) =~= bits_of_bytes(b1) + bits_of_bytes(b2));
}

/// The bytes of a bit sequence of whole bytes are determined pointwise.
pub proof fn lemma_bytes_of_bits_roundtrip(s: Seq<bool>, bs: Seq<u8>)
    requires
        s.len() % 8 == 0,
        bs.len() == s.len() / 8,
        forall|i: int| 0 <= i < s.len() ==> bit_of_byte(#[trigger] bs[i / 8], i % 8) == s[i],
    ensures
        bs == bytes_of_bits(s),
{
    assert forall|i: int| 0 <= i < bs.len() implies bs[i] == bytes_of_bits(s)[i] by {
        assert forall|j: int| 0 <= j < 8 implies s[8 * i + j] == bit_of_byte(bs[i], j) by {
            assert((8 * i + j) / 8 == i && (8 * i + j) % 8 == j) by (nonlinear_arith)
                requires
                    0 <= j < 8,
                    0 <= i,
            ;
            assert(8 * i + j < s.len()) by (nonlinear_arith)
                requires
                    0 <= j < 8,
                    0 <= i < s.len() / 8,
                    s.len() % 8 == 0,
            ;
            assert(bit_of_byte(bs[(8 * i + j) / 8], (8 * i + j) % 8) == s[8 * i + j]);
        }
        assert(8 * i + 8 <= s.len()) by (nonlinear_arith)
            requires
                0 <= i < s.len() / 8,
                s.len() % 8 == 0,
        ;
        lemma_byte_of_bit_roundtrip(bs[i], s, 8 * i);
    }
    assert(bs =~= bytes_of_bits(s));
}

/// A byte is determined by its eight bits.
pub proof fn lemma_byte_of_bit_roundtrip(by: u8, s: Seq<bool>, base: int)
    requires
        0 <= base,
        base + 8 <= s.len(),
        forall|j: int| 0 <= j < 8 ==> s[base + j] == bit_of_byte(by, j),
    ensures
        byte_of_bits(s, base) == by,
{
    let b0 = bit_of_byte(by, 0);
    let b1 = bit_of_byte(by, 1);
    let b2 = bit_of_byte(by, 2);
    let b3 = bit_of_byte(by, 3);
    let b4 = bit_of_byte(by, 4);
    let b5 = bit_of_byte(by, 5);
    let b6 = bit_of_byte(by, 6);
    let b7 = bit_of_byte(by, 7);
    assert(s[base + 0] == b0 && s[base + 1] == b1 && s[base + 2] == b2 && s[base + 3] == b3 && s[
        base + 4
    ] == b4 && s[base + 5] == b5 && s[base + 6] == b6 && s[base + 7] == b7);
    assert((128 * (if b0 {
        1int
    } else {
        0int
    }) + 64 * (if b1 {
        1int
    } else {
        0int
    }) + 32 * (if b2 {
        1int
    } else {
        0int
    }) + 16 * (if b3 {
        1int
    } else {
        0int
    }) + 8 * (if b4 {
        1int
    } else {
        0int
    }) + 4 * (if b5 {
        1int
    } else {
        0int
    }) + 2 * (if b6 {
        1int
    } else {
        0int
    }) + (if b7 {
        1int
    } else {
        0int
    })) as u8 == by) by (bit_vector)
        requires
            b0 == (by >> 7u8 & 1u8 == 1u8),
            b1 == (by >> 6u8 & 1u8 == 1u8),
            b2 == (by >> 5u8 & 1u8 == 1u8),
            b3 == (by >> 4u8 & 1u8 == 1u8),
            b4 == (by >> 3u8 & 1u8 == 1u8),
            b5 == (by >> 2u8 & 1u8 == 1u8),
            b6 == (by >> 1u8 & 1u8 == 1u8),
            b7 == (by >> 0u8 & 1u8 == 1u8),
    ;
    assert(bit_of_byte(by, 0) == (by >> 7u8 & 1u8 == 1u8));
}

} // verus!
