//! The abstract contents of a list of data blocks: all blocks laid end to
//! end, and how per-block edits show up in that flattened sequence.

use vstd::prelude::*;

verus! {

/// All blocks laid end to end, first block first.
pub open spec fn flat<T>(bs: Seq<Seq<T>>) -> Seq<T>
    decreases bs.len(),
{
    if bs.len() == 0 {
        Seq::empty()
    } else {
        flat(bs.drop_last()) + bs.last()
    }
}

/// Total length of the first `a` blocks.
pub open spec fn lens_before<T>(bs: Seq<Seq<T>>, a: int) -> nat
    decreases a,
{
    if a <= 0 {
        0
    } else {
        lens_before(bs, a - 1) + bs[a - 1].len()
    }
}

/// `lens_before` only looks at the blocks in front of `a`.
pub proof fn lemma_lens_before_agree<T>(bs1: Seq<Seq<T>>, bs2: Seq<Seq<T>>, a: int)
    requires
        forall|i: int| 0 <= i < a ==> bs1[i] == bs2[i],
    ensures
        lens_before(bs1, a) == lens_before(bs2, a),
    decreases a,
{
    if a > 0 {
        lemma_lens_before_agree(bs1, bs2, a - 1);
    }
}

pub proof fn lemma_flat_len<T>(bs: Seq<Seq<T>>)
    ensures
        flat(bs).len() == lens_before(bs, bs.len() as int),
    decreases bs.len(),
{
    if bs.len() > 0 {
        lemma_flat_len(bs.drop_last());
        lemma_lens_before_agree(bs.drop_last(), bs, bs.len() - 1);
    }
}

pub proof fn lemma_lens_before_mono<T>(bs: Seq<Seq<T>>, a1: int, a2: int)
    requires
        a1 <= a2,
    ensures
        lens_before(bs, a1) <= lens_before(bs, a2),
    decreases a2 - a1,
{
    if a1 < a2 {
        lemma_lens_before_mono(bs, a1, a2 - 1);
    }
}

/// Where block `a`'s element `e` sits inside the flattened sequence.
pub proof fn lemma_flat_index<T>(bs: Seq<Seq<T>>, a: int, e: int)
    requires
        0 <= a < bs.len(),
        0 <= e < bs[a].len(),
    ensures
        lens_before(bs, a) + e < flat(bs).len(),
        flat(bs)[lens_before(bs, a) + e] == bs[a][e],
    decreases bs.len(),
{
    lemma_flat_len(bs);
    lemma_lens_before_mono(bs, a + 1, bs.len() as int);
    if a == bs.len() - 1 {
        lemma_flat_len(bs.drop_last());
        lemma_lens_before_agree(bs.drop_last(), bs, a);
    } else {
        lemma_flat_index(bs.drop_last(), a, e);
        lemma_lens_before_agree(bs.drop_last(), bs, a);
        lemma_flat_len(bs.drop_last());
        lemma_lens_before_mono(bs.drop_last(), a + 1, bs.len() - 1);
    }
}

/// The flattened sequence splits at any block boundary.
pub proof fn lemma_flat_decompose<T>(bs: Seq<Seq<T>>, a: int)
    requires
        0 <= a < bs.len(),
    ensures
        flat(bs) == flat(bs.take(a)) + bs[a] + flat(bs.skip(a + 1)),
        lens_before(bs, a) == flat(bs.take(a)).len(),
    decreases bs.len(),
{
    lemma_flat_len(bs.take(a));
    lemma_lens_before_agree(bs.take(a), bs, a);
    if a == bs.len() - 1 {
        assert(bs.take(a) =~= bs.drop_last());
        assert(flat(bs.skip(a + 1)) =~= Seq::<T>::empty());
        assert(flat(bs) =~= flat(bs.take(a)) + bs[a] + flat(bs.skip(a + 1)));
    } else {
        let d = bs.drop_last();
        lemma_flat_decompose(d, a);
        assert(d.take(a) =~= bs.take(a));
        let t = bs.skip(a + 1);
        assert(t.len() > 0);
        assert(t.drop_last() =~= d.skip(a + 1));
        assert(t.last() == bs.last());
        assert(flat(t) == flat(d.skip(a + 1)) + bs.last());
        assert(flat(bs) =~= flat(bs.take(a)) + bs[a] + flat(bs.skip(a + 1)));
    }
}

/// Replacing one block replaces just that stretch of the flattened sequence.
pub proof fn lemma_flat_update<T>(bs: Seq<Seq<T>>, a: int, nb: Seq<T>)
    requires
        0 <= a < bs.len(),
    ensures
        flat(bs.update(a, nb)) == flat(bs.take(a)) + nb + flat(bs.skip(a + 1)),
{
    let bs2 = bs.update(a, nb);
    lemma_flat_decompose(bs2, a);
    assert(bs2.take(a) =~= bs.take(a));
    assert(bs2.skip(a + 1) =~= bs.skip(a + 1));
}

/// Inserting into one block inserts at the matching spot of the whole.
pub proof fn lemma_flat_insert_in_block<T>(bs: Seq<Seq<T>>, a: int, e: int, v: T)
    requires
        0 <= a < bs.len(),
        0 <= e <= bs[a].len(),
    ensures
        flat(bs.update(a, bs[a].insert(e, v))) == flat(bs).insert(
            lens_before(bs, a) + e,
            v,
        ),
{
    lemma_flat_decompose(bs, a);
    lemma_flat_update(bs, a, bs[a].insert(e, v));
    lemma_flat_len(bs);
    assert(flat(bs.take(a)) + bs[a].insert(e, v) + flat(bs.skip(a + 1)) =~= (flat(bs.take(a))
        + bs[a] + flat(bs.skip(a + 1))).insert(lens_before(bs, a) + e, v));
}

/// Removing from one block removes the matching element of the whole.
pub proof fn lemma_flat_remove_in_block<T>(bs: Seq<Seq<T>>, a: int, e: int)
    requires
        0 <= a < bs.len(),
        0 <= e < bs[a].len(),
    ensures
        flat(bs.update(a, bs[a].remove(e))) == flat(bs).remove(lens_before(bs, a) + e),
{
    lemma_flat_decompose(bs, a);
    lemma_flat_update(bs, a, bs[a].remove(e));
    lemma_flat_len(bs);
    assert(flat(bs.take(a)) + bs[a].remove(e) + flat(bs.skip(a + 1)) =~= (flat(bs.take(a)) + bs[a]
        + flat(bs.skip(a + 1))).remove(lens_before(bs, a) + e));
}

/// Overwriting one slot of one block overwrites the matching element.
pub proof fn lemma_flat_set_in_block<T>(bs: Seq<Seq<T>>, a: int, e: int, v: T)
    requires
        0 <= a < bs.len(),
        0 <= e < bs[a].len(),
    ensures
        flat(bs.update(a, bs[a].update(e, v))) == flat(bs).update(lens_before(bs, a) + e, v),
{
    lemma_flat_decompose(bs, a);
    lemma_flat_update(bs, a, bs[a].update(e, v));
    lemma_flat_len(bs);
    assert(flat(bs.take(a)) + bs[a].update(e, v) + flat(bs.skip(a + 1)) =~= (flat(bs.take(a))
        + bs[a] + flat(bs.skip(a + 1))).update(lens_before(bs, a) + e, v));
}

/// A fresh block on the end adds its elements at the end.
pub proof fn lemma_flat_push_block<T>(bs: Seq<Seq<T>>, b: Seq<T>)
    ensures
        flat(bs.push(b)) == flat(bs) + b,
{
    assert(bs.push(b).drop_last() =~= bs);
    assert(bs.push(b).last() == b);
}

/// Dropping an empty last block leaves the contents alone.
pub proof fn lemma_flat_drop_empty_last<T>(bs: Seq<Seq<T>>)
    requires
        bs.len() > 0,
        bs.last().len() == 0,
    ensures
        flat(bs.drop_last()) == flat(bs),
{
    assert(flat(bs.drop_last()) =~= flat(bs.drop_last()) + bs.last());
}

/// Moving the last element of block `a` to the front of block `a + 1`
/// reshuffles the blocks but leaves the contents alone.
pub proof fn lemma_flat_move_up<T>(bs: Seq<Seq<T>>, a: int)
    requires
        0 <= a,
        a + 1 < bs.len(),
        bs[a].len() >= 1,
    ensures
        flat(bs.update(a, bs[a].drop_last()).update(a + 1, bs[a + 1].insert(0, bs[a].last())))
            == flat(bs),
{
    let bs1 = bs.update(a, bs[a].drop_last());
    let bs2 = bs1.update(a + 1, bs[a + 1].insert(0, bs[a].last()));
    lemma_flat_update(bs, a, bs[a].drop_last());
    lemma_flat_decompose(bs, a);
    lemma_flat_update(bs1, a + 1, bs[a + 1].insert(0, bs[a].last()));
    lemma_flat_decompose(bs1, a + 1);
    assert(bs2.take(a + 1) =~= bs1.take(a + 1));
    assert(bs2.skip(a + 2) =~= bs.skip(a + 2));
    assert(bs1.skip(a + 2) =~= bs.skip(a + 2));
    // both sides decompose around blocks `a` and `a + 1`
    lemma_flat_decompose(bs2, a);
    assert(bs2.take(a) =~= bs.take(a));
    assert(bs2[a] == bs[a].drop_last());
    let t2 = bs2.skip(a + 1);
    assert(t2.len() > 0);
    assert(t2[0] == bs2[a + 1]);
    lemma_flat_decompose(t2, 0);
    assert(t2.take(0) =~= Seq::<Seq<T>>::empty());
    assert(t2.skip(1) =~= bs2.skip(a + 2));
    assert(flat(t2) =~= bs2[a + 1] + flat(bs2.skip(a + 2)));
    let t = bs.skip(a + 1);
    assert(t.len() > 0);
    assert(t[0] == bs[a + 1]);
    lemma_flat_decompose(t, 0);
    assert(t.take(0) =~= Seq::<Seq<T>>::empty());
    assert(t.skip(1) =~= bs.skip(a + 2));
    assert(flat(t) =~= bs[a + 1] + flat(bs.skip(a + 2)));
    assert(flat(bs2) =~= flat(bs));
}

/// Moving the first element of block `a + 1` to the back of block `a`
/// reshuffles the blocks but leaves the contents alone.
pub proof fn lemma_flat_move_down<T>(bs: Seq<Seq<T>>, a: int)
    requires
        0 <= a,
        a + 1 < bs.len(),
        bs[a + 1].len() >= 1,
    ensures
        flat(bs.update(a + 1, bs[a + 1].drop_first()).update(a, bs[a].push(bs[a + 1].first())))
            == flat(bs),
{
    let bs1 = bs.update(a + 1, bs[a + 1].drop_first());
    let bs2 = bs1.update(a, bs[a].push(bs[a + 1].first()));
    lemma_flat_decompose(bs, a);
    lemma_flat_decompose(bs2, a);
    assert(bs2.take(a) =~= bs.take(a));
    assert(bs2[a] == bs[a].push(bs[a + 1].first()));
    let t2 = bs2.skip(a + 1);
    assert(t2[0] == bs[a + 1].drop_first());
    lemma_flat_decompose(t2, 0);
    assert(t2.take(0) =~= Seq::<Seq<T>>::empty());
    assert(t2.skip(1) =~= bs.skip(a + 2));
    assert(flat(t2) =~= bs[a + 1].drop_first() + flat(bs.skip(a + 2)));
    let t = bs.skip(a + 1);
    assert(t[0] == bs[a + 1]);
    lemma_flat_decompose(t, 0);
    assert(t.take(0) =~= Seq::<Seq<T>>::empty());
    assert(t.skip(1) =~= bs.skip(a + 2));
    assert(flat(t) =~= bs[a + 1] + flat(bs.skip(a + 2)));
    assert(flat(bs2) =~= flat(bs));
}

} // verus!
