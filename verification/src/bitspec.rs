//! Mathematical model of packed bit storage: bit sequences and the counting
//! lemmas that the grid contracts are stated with.
use vstd::prelude::*;

verus! {

/// Number of set bits in a bit sequence.
pub open spec fn count_trues(s: Seq<bool>) -> nat
    decreases s.len(),
{
    if s.len() == 0 {
        0
    } else {
        count_trues(s.drop_last()) + if s.last() {
            1nat
        } else {
            0nat
        }
    }
}

/// A bit sequence of length `n` with every bit clear.
pub open spec fn all_false(n: nat) -> Seq<bool> {
    Seq::new(n, |i: int| false)
}

/// Pointwise disjunction; the length is the first operand's.
pub open spec fn or_bits(a: Seq<bool>, b: Seq<bool>) -> Seq<bool> {
    Seq::new(a.len(), |i: int| a[i] || b[i])
}

/// Pointwise conjunction; the length is the first operand's.
pub open spec fn and_bits(a: Seq<bool>, b: Seq<bool>) -> Seq<bool> {
    Seq::new(a.len(), |i: int| a[i] && b[i])
}

/// Pointwise complement.
pub open spec fn not_bits(a: Seq<bool>) -> Seq<bool> {
    Seq::new(a.len(), |i: int| !a[i])
}

pub proof fn lemma_count_le_len(s: Seq<bool>)
    ensures
        count_trues(s) <= s.len(),
    decreases s.len(),
{
    if s.len() > 0 {
        lemma_count_le_len(s.drop_last());
    }
}

pub proof fn lemma_count_add(a: Seq<bool>, b: Seq<bool>)
    ensures
        count_trues(a + b) == count_trues(a) + count_trues(b),
    decreases b.len(),
{
    if b.len() == 0 {
        assert(a + b =~= a);
    } else {
        assert((a + b).drop_last() =~= a + b.drop_last());
        lemma_count_add(a, b.drop_last());
    }
}

pub proof fn lemma_count_split(s: Seq<bool>, m: int)
    requires
        0 <= m <= s.len(),
    ensures
        count_trues(s) == count_trues(s.take(m)) + count_trues(s.skip(m)),
{
    assert(s =~= s.take(m) + s.skip(m));
    lemma_count_add(s.take(m), s.skip(m));
}

pub proof fn lemma_count_subrange_split(s: Seq<bool>, a: int, b: int, c: int)
    requires
        0 <= a <= b <= c <= s.len(),
    ensures
        count_trues(s.subrange(a, c)) == count_trues(s.subrange(a, b)) + count_trues(
            s.subrange(b, c),
        ),
{
    assert(s.subrange(a, c) =~= s.subrange(a, b) + s.subrange(b, c));
    lemma_count_add(s.subrange(a, b), s.subrange(b, c));
}

pub proof fn lemma_count_singleton(v: bool)
    ensures
        count_trues(seq![v]) == if v {
            1nat
        } else {
            0nat
        },
{
    assert(seq![v].drop_last() =~= Seq::<bool>::empty());
    assert(count_trues(seq![v].drop_last()) == 0);
}

pub proof fn lemma_count_update(s: Seq<bool>, i: int, v: bool)
    requires
        0 <= i < s.len(),
    ensures
        count_trues(s.update(i, v)) == count_trues(s) - (if s[i] {
            1int
        } else {
            0int
        }) + (if v {
            1int
        } else {
            0int
        }),
{
    let l = s.len() as int;
    assert(s =~= (s.subrange(0, i) + seq![s[i]]) + s.subrange(i + 1, l));
    assert(s.update(i, v) =~= (s.subrange(0, i) + seq![v]) + s.subrange(i + 1, l));
    lemma_count_add(s.subrange(0, i), seq![s[i]]);
    lemma_count_add(s.subrange(0, i) + seq![s[i]], s.subrange(i + 1, l));
    lemma_count_add(s.subrange(0, i), seq![v]);
    lemma_count_add(s.subrange(0, i) + seq![v], s.subrange(i + 1, l));
    lemma_count_singleton(s[i]);
    lemma_count_singleton(v);
}

pub proof fn lemma_count_take_step(s: Seq<bool>, m: int)
    requires
        0 <= m < s.len(),
    ensures
        count_trues(s.take(m + 1)) == count_trues(s.take(m)) + if s[m] {
            1nat
        } else {
            0nat
        },
{
    assert(s.take(m + 1) =~= s.take(m) + seq![s[m]]);
    lemma_count_add(s.take(m), seq![s[m]]);
    lemma_count_singleton(s[m]);
}

pub proof fn lemma_count_subrange_step(s: Seq<bool>, a: int, b: int)
    requires
        0 <= a <= b < s.len(),
    ensures
        count_trues(s.subrange(a, b + 1)) == count_trues(s.subrange(a, b)) + if s[b] {
            1nat
        } else {
            0nat
        },
{
    assert(s.subrange(a, b + 1) =~= s.subrange(a, b) + seq![s[b]]);
    lemma_count_add(s.subrange(a, b), seq![s[b]]);
    lemma_count_singleton(s[b]);
}

/// A bit sequence counts zero exactly when no bit of it is set.
pub proof fn lemma_count_zero(s: Seq<bool>)
    ensures
        (count_trues(s) == 0) <==> (forall|i: int| 0 <= i < s.len() ==> !s[i]),
    decreases s.len(),
{
    if s.len() > 0 {
        lemma_count_zero(s.drop_last());
        assert(forall|i: int| 0 <= i < s.len() - 1 ==> s.drop_last()[i] == s[i]);
        if forall|i: int| 0 <= i < s.len() ==> !s[i] {
            assert(!s.last());
        }
    }
}

pub proof fn lemma_count_all_true(s: Seq<bool>)
    requires
        forall|i: int| 0 <= i < s.len() ==> s[i],
    ensures
        count_trues(s) == s.len(),
    decreases s.len(),
{
    if s.len() > 0 {
        assert(forall|i: int| 0 <= i < s.len() - 1 ==> s.drop_last()[i] == s[i]);
        lemma_count_all_true(s.drop_last());
        assert(s.last());
    }
}

pub proof fn lemma_count_pointwise_le(a: Seq<bool>, b: Seq<bool>)
    requires
        a.len() == b.len(),
        forall|i: int| 0 <= i < a.len() ==> (a[i] ==> b[i]),
    ensures
        count_trues(a) <= count_trues(b),
    decreases a.len(),
{
    if a.len() > 0 {
        assert(forall|i: int| 0 <= i < a.len() - 1 ==> a.drop_last()[i] == a[i]);
        assert(forall|i: int| 0 <= i < b.len() - 1 ==> b.drop_last()[i] == b[i]);
        lemma_count_pointwise_le(a.drop_last(), b.drop_last());
    }
}

pub proof fn lemma_count_pointwise_lt(a: Seq<bool>, b: Seq<bool>, w: int)
    requires
        a.len() == b.len(),
        forall|i: int| 0 <= i < a.len() ==> (a[i] ==> b[i]),
        0 <= w < a.len(),
        !a[w],
        b[w],
    ensures
        count_trues(a) < count_trues(b),
{
    let l = a.len() as int;
    assert(a =~= (a.subrange(0, w) + seq![a[w]]) + a.subrange(w + 1, l));
    assert(b =~= (b.subrange(0, w) + seq![b[w]]) + b.subrange(w + 1, l));
    lemma_count_add(a.subrange(0, w), seq![a[w]]);
    lemma_count_add(a.subrange(0, w) + seq![a[w]], a.subrange(w + 1, l));
    lemma_count_add(b.subrange(0, w), seq![b[w]]);
    lemma_count_add(b.subrange(0, w) + seq![b[w]], b.subrange(w + 1, l));
    lemma_count_singleton(a[w]);
    lemma_count_singleton(b[w]);
    assert(forall|i: int|
        0 <= i < w ==> (a.subrange(0, w)[i] ==> b.subrange(0, w)[i]));
    lemma_count_pointwise_le(a.subrange(0, w), b.subrange(0, w));
    lemma_count_pointwise_le(a.subrange(w + 1, l), b.subrange(w + 1, l));
}

/// Merging observation sets is commutative: the pointwise union of two
/// equal-length bit sequences does not depend on the order.
pub proof fn lemma_or_bits_comm(a: Seq<bool>, b: Seq<bool>)
    requires
        a.len() == b.len(),
    ensures
        or_bits(a, b) == or_bits(b, a),
{
    assert(or_bits(a, b) =~= or_bits(b, a));
}

/// Merging a view with itself returns it unchanged.
pub proof fn lemma_or_bits_idem(a: Seq<bool>)
    ensures
        or_bits(a, a) == a,
{
    assert(or_bits(a, a) =~= a);
}

/// A sequence whose set bits are exactly a contiguous range counts the
/// range's width.
pub proof fn lemma_count_range(s: Seq<bool>, lo: int, hi: int)
    requires
        0 <= lo <= hi <= s.len(),
        forall|i: int| 0 <= i < s.len() ==> (s[i] <==> (lo <= i < hi)),
    ensures
        count_trues(s) == hi - lo,
{
    let l = s.len() as int;
    assert(s =~= (s.subrange(0, lo) + s.subrange(lo, hi)) + s.subrange(hi, l));
    lemma_count_add(s.subrange(0, lo), s.subrange(lo, hi));
    lemma_count_add(s.subrange(0, lo) + s.subrange(lo, hi), s.subrange(hi, l));
    lemma_count_zero(s.subrange(0, lo));
    lemma_count_zero(s.subrange(hi, l));
    lemma_count_all_true(s.subrange(lo, hi));
}

/// A sequence with exactly one set bit counts one.
pub proof fn lemma_count_one_hot(s: Seq<bool>, k: int)
    requires
        0 <= k < s.len(),
        forall|i: int| 0 <= i < s.len() ==> (s[i] <==> i == k),
    ensures
        count_trues(s) == 1,
{
    let l = s.len() as int;
    assert(s =~= (s.subrange(0, k) + seq![s[k]]) + s.subrange(k + 1, l));
    lemma_count_add(s.subrange(0, k), seq![s[k]]);
    lemma_count_add(s.subrange(0, k) + seq![s[k]], s.subrange(k + 1, l));
    lemma_count_singleton(s[k]);
    lemma_count_zero(s.subrange(0, k));
    lemma_count_zero(s.subrange(k + 1, l));
}

/// A sequence of length `2n` whose set bits are its upper half and one
/// lower cell counts `n + 1`.
pub proof fn lemma_count_half_plus_one(s: Seq<bool>, n: nat, row: int)
    requires
        s.len() == 2 * n,
        0 <= row < n,
        forall|i: int| 0 <= i < s.len() ==> (s[i] <==> (i == row || n <= i)),
    ensures
        count_trues(s) == n + 1,
{
    lemma_count_split(s, n as int);
    lemma_count_one_hot(s.take(n as int), row);
    lemma_count_all_true(s.skip(n as int));
}

} // verus!
