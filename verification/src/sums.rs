use vstd::prelude::*;

verus! {

/// The sum of `values`.
pub open spec fn sum(values: Seq<nat>) -> nat
    decreases values.len(),
{
    if values.len() == 0 {
        0
    } else {
        values[0] + sum(values.drop_first())
    }
}

/// The sum of two sequences, one after the other, is the sum of their sums.
pub proof fn lemma_sum_concat(a: Seq<nat>, b: Seq<nat>)
    ensures
        sum(a + b) == sum(a) + sum(b),
    decreases a.len(),
{
    if a.len() == 0 {
        assert(a + b =~= b);
    } else {
        assert((a + b).drop_first() =~= a.drop_first() + b);
        lemma_sum_concat(a.drop_first(), b);
    }
}

/// The sum of one value is that value.
pub proof fn lemma_sum_one(x: nat)
    ensures
        sum(seq![x]) == x,
{
    assert(seq![x].drop_first() =~= Seq::<nat>::empty());
    assert(sum(Seq::<nat>::empty()) == 0);
    assert(seq![x][0] == x);
}

/// A value appended adds to the sum.
pub proof fn lemma_sum_push(a: Seq<nat>, x: nat)
    ensures
        sum(a.push(x)) == sum(a) + x,
{
    assert(a.push(x) =~= a + seq![x]);
    lemma_sum_concat(a, seq![x]);
    lemma_sum_one(x);
}

/// The sum splits at any position into what stands before it, the value there and
/// what stands behind it.
pub proof fn lemma_sum_split(a: Seq<nat>, i: int)
    requires
        0 <= i < a.len(),
    ensures
        sum(a) == sum(a.take(i)) + a[i] + sum(a.skip(i + 1)),
{
    assert(a =~= a.take(i) + seq![a[i]] + a.skip(i + 1));
    lemma_sum_concat(a.take(i) + seq![a[i]], a.skip(i + 1));
    lemma_sum_concat(a.take(i), seq![a[i]]);
    lemma_sum_one(a[i]);
}

/// A value replaced changes the sum by the difference.
pub proof fn lemma_sum_update(a: Seq<nat>, i: int, x: nat)
    requires
        0 <= i < a.len(),
    ensures
        sum(a.update(i, x)) + a[i] == sum(a) + x,
{
    let b = a.update(i, x);
    lemma_sum_split(a, i);
    lemma_sum_split(b, i);
    assert(b.take(i) =~= a.take(i));
    assert(b.skip(i + 1) =~= a.skip(i + 1));
}

/// A value removed is missing from the sum.
pub proof fn lemma_sum_remove(a: Seq<nat>, i: int)
    requires
        0 <= i < a.len(),
    ensures
        sum(a.remove(i)) + a[i] == sum(a),
{
    lemma_sum_split(a, i);
    assert(a.remove(i) =~= a.take(i) + a.skip(i + 1));
    lemma_sum_concat(a.take(i), a.skip(i + 1));
}

/// A value inserted adds to the sum.
pub proof fn lemma_sum_insert(a: Seq<nat>, i: int, x: nat)
    requires
        0 <= i <= a.len(),
    ensures
        sum(a.insert(i, x)) == sum(a) + x,
{
    let b = a.insert(i, x);
    lemma_sum_split(b, i);
    assert(b.take(i) =~= a.take(i));
    assert(b.skip(i + 1) =~= a.skip(i));
    assert(a =~= a.take(i) + a.skip(i));
    lemma_sum_concat(a.take(i), a.skip(i));
}

} // verus!
