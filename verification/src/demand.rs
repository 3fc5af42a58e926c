//! Order independence of demand aggregation. Accumulation is a fold of
//! single contributions; this module shows that the resulting demand
//! mapping does not depend on the order the contributions arrive in, and
//! hence not on the order of the plan's meals.

use vstd::prelude::*;
use crate::catalog::ProductView;
use crate::mapping::{has_key, lemma_upsert_char, lemma_upsert_swap, same_entries, upsert,
    value_of, values_wf, EntrySeq};
use crate::plan::{spec_sum, spec_sum_from, upsert_all, PlannedMealView};
use crate::quantity::{qv_wf, QuantityView};

verus! {

/// Every contribution carries a canonical quantity, and two contributions
/// for one product carry one unit.
pub open spec fn coherent(c: EntrySeq) -> bool {
    &&& forall|i: int| 0 <= i < c.len() ==> qv_wf((#[trigger] c[i]).1)
    &&& forall|i: int, j: int|
        #![trigger c[i], c[j]]
        0 <= i < c.len() && 0 <= j < c.len() && c[i].0 == c[j].0 ==> c[i].1.unit == c[j].1.unit
}

/// Mapping agreement is transitive.
pub proof fn lemma_same_entries_trans(x: EntrySeq, y: EntrySeq, z: EntrySeq)
    requires
        same_entries(x, y),
        same_entries(y, z),
    ensures
        same_entries(x, z),
{
    assert forall|k: ProductView| has_key(x, k) && has_key(z, k) implies #[trigger] value_of(
        x,
        k,
    ) == #[trigger] value_of(z, k) by {
        assert(has_key(y, k));
        assert(value_of(x, k) == value_of(y, k));
        assert(value_of(y, k) == value_of(z, k));
    }
}

/// Folding a concatenation is folding the parts in turn.
pub proof fn lemma_upsert_all_append(s: EntrySeq, a: EntrySeq, b: EntrySeq)
    ensures
        upsert_all(s, a + b) == upsert_all(upsert_all(s, a), b),
    decreases a.len(),
{
    if a.len() == 0 {
        assert(a + b =~= b);
    } else {
        assert((a + b)[0] == a[0]);
        assert((a + b).drop_first() =~= a.drop_first() + b);
        lemma_upsert_all_append(upsert(s, a[0].0, a[0].1), a.drop_first(), b);
    }
}

/// Folding canonical contributions keeps the mapping canonical.
pub proof fn lemma_upsert_all_wf(s: EntrySeq, c: EntrySeq)
    requires
        values_wf(s),
        forall|i: int| 0 <= i < c.len() ==> qv_wf((#[trigger] c[i]).1),
    ensures
        values_wf(upsert_all(s, c)),
    decreases c.len(),
{
    if c.len() == 0 {
    } else {
        lemma_upsert_char(s, c[0].0, c[0].1);
        assert forall|i: int| 0 <= i < c.drop_first().len() implies qv_wf(
            (#[trigger] c.drop_first()[i]).1,
        ) by {
            assert(c.drop_first()[i] == c[i + 1]);
        }
        lemma_upsert_all_wf(upsert(s, c[0].0, c[0].1), c.drop_first());
    }
}

/// One accumulation applied to two agreeing mappings keeps them agreeing.
pub proof fn lemma_upsert_same(s1: EntrySeq, s2: EntrySeq, p: ProductView, q: QuantityView)
    requires
        values_wf(s1),
        values_wf(s2),
        qv_wf(q),
        same_entries(s1, s2),
    ensures
        same_entries(upsert(s1, p, q), upsert(s2, p, q)),
{
    lemma_upsert_char(s1, p, q);
    lemma_upsert_char(s2, p, q);
    let u1 = upsert(s1, p, q);
    let u2 = upsert(s2, p, q);
    assert forall|k: ProductView| has_key(u1, k) && has_key(u2, k) implies #[trigger] value_of(
        u1,
        k,
    ) == #[trigger] value_of(u2, k) by {
        if k == p {
            if has_key(s1, p) {
                assert(has_key(s2, p));
                assert(value_of(s1, p) == value_of(s2, p));
            } else {
                assert(!has_key(s2, p));
            }
        } else {
            assert(has_key(s1, k) && has_key(s2, k));
            assert(value_of(u1, k) == value_of(s1, k));
            assert(value_of(u2, k) == value_of(s2, k));
            assert(value_of(s1, k) == value_of(s2, k));
        }
    }
}

/// A fold applied to two agreeing mappings keeps them agreeing.
pub proof fn lemma_upsert_all_same(s1: EntrySeq, s2: EntrySeq, c: EntrySeq)
    requires
        values_wf(s1),
        values_wf(s2),
        same_entries(s1, s2),
        forall|i: int| 0 <= i < c.len() ==> qv_wf((#[trigger] c[i]).1),
    ensures
        same_entries(upsert_all(s1, c), upsert_all(s2, c)),
    decreases c.len(),
{
    if c.len() == 0 {
    } else {
        lemma_upsert_char(s1, c[0].0, c[0].1);
        lemma_upsert_char(s2, c[0].0, c[0].1);
        lemma_upsert_same(s1, s2, c[0].0, c[0].1);
        assert forall|i: int| 0 <= i < c.drop_first().len() implies qv_wf(
            (#[trigger] c.drop_first()[i]).1,
        ) by {
            assert(c.drop_first()[i] == c[i + 1]);
        }
        lemma_upsert_all_same(
            upsert(s1, c[0].0, c[0].1),
            upsert(s2, c[0].0, c[0].1),
            c.drop_first(),
        );
    }
}

/// Folding two explicit contributions in either order gives agreeing
/// mappings.
proof fn lemma_fold_single(x: EntrySeq, a: (ProductView, QuantityView))
    ensures
        upsert_all(x, seq![a]) == upsert(x, a.0, a.1),
{
    let rest = seq![a].drop_first();
    assert(rest =~= Seq::<(ProductView, QuantityView)>::empty());
    assert(seq![a][0] == a);
    assert(upsert_all(x, seq![a]) == upsert_all(upsert(x, a.0, a.1), rest));
    assert(upsert_all(upsert(x, a.0, a.1), Seq::<(ProductView, QuantityView)>::empty())
        == upsert(x, a.0, a.1));
}

proof fn lemma_fold_pair(x: EntrySeq, a: (ProductView, QuantityView), b: (
    ProductView,
    QuantityView,
))
    ensures
        upsert_all(x, seq![a, b]) == upsert(upsert(x, a.0, a.1), b.0, b.1),
{
    assert(seq![a, b][0] == a);
    let rest = seq![a, b].drop_first();
    assert(rest =~= seq![b]);
    assert(upsert_all(x, seq![a, b]) == upsert_all(upsert(x, a.0, a.1), rest));
    lemma_fold_single(upsert(x, a.0, a.1), b);
}

/// Moving one contribution to the end does not change the fold, as a
/// mapping.
proof fn lemma_fold_move_to_end(s: EntrySeq, c: EntrySeq, idx: int)
    requires
        values_wf(s),
        coherent(c),
        0 <= idx < c.len(),
    ensures
        same_entries(upsert_all(s, c), upsert_all(s, c.remove(idx).push(c[idx]))),
    decreases c.len() - idx,
{
    if idx == c.len() - 1 {
        assert(c.remove(idx).push(c[idx]) =~= c);
    } else {
        let a = c[idx];
        let b = c[idx + 1];
        let pre = c.subrange(0, idx);
        let post = c.subrange(idx + 2, c.len() as int);
        assert(c =~= (pre + seq![a, b]) + post);
        lemma_upsert_all_append(s, pre + seq![a, b], post);
        lemma_upsert_all_append(s, pre, seq![a, b]);
        assert forall|i: int| 0 <= i < pre.len() implies qv_wf((#[trigger] pre[i]).1) by {
            assert(pre[i] == c[i]);
        }
        lemma_upsert_all_wf(s, pre);
        let x = upsert_all(s, pre);
        lemma_fold_pair(x, a, b);
        lemma_fold_pair(x, b, a);
        lemma_upsert_swap(x, a.0, a.1, b.0, b.1);
        lemma_upsert_char(x, a.0, a.1);
        lemma_upsert_char(x, b.0, b.1);
        lemma_upsert_char(upsert(x, a.0, a.1), b.0, b.1);
        lemma_upsert_char(upsert(x, b.0, b.1), a.0, a.1);
        assert forall|i: int| 0 <= i < post.len() implies qv_wf((#[trigger] post[i]).1) by {
            assert(post[i] == c[idx + 2 + i]);
        }
        lemma_upsert_all_same(
            upsert(upsert(x, a.0, a.1), b.0, b.1),
            upsert(upsert(x, b.0, b.1), a.0, a.1),
            post,
        );
        let cs = c.update(idx, b).update(idx + 1, a);
        assert(cs =~= (pre + seq![b, a]) + post);
        lemma_upsert_all_append(s, pre + seq![b, a], post);
        lemma_upsert_all_append(s, pre, seq![b, a]);
        assert(same_entries(upsert_all(s, c), upsert_all(s, cs)));
        assert forall|i: int, j: int|
            #![trigger cs[i], cs[j]]
            0 <= i < cs.len() && 0 <= j < cs.len() && cs[i].0 == cs[j].0 implies cs[i].1.unit
            == cs[j].1.unit by {
            let oi = if i == idx {
                idx + 1
            } else if i == idx + 1 {
                idx
            } else {
                i
            };
            let oj = if j == idx {
                idx + 1
            } else if j == idx + 1 {
                idx
            } else {
                j
            };
            assert(cs[i] == c[oi] && cs[j] == c[oj]);
        }
        assert forall|i: int| 0 <= i < cs.len() implies qv_wf((#[trigger] cs[i]).1) by {
            if i == idx {
                assert(cs[i] == c[idx + 1]);
            } else if i == idx + 1 {
                assert(cs[i] == c[idx]);
            } else {
                assert(cs[i] == c[i]);
            }
        }
        lemma_fold_move_to_end(s, cs, idx + 1);
        assert(cs[idx + 1] == c[idx]);
        assert(cs.remove(idx + 1) =~= c.remove(idx));
        lemma_same_entries_trans(
            upsert_all(s, c),
            upsert_all(s, cs),
            upsert_all(s, cs.remove(idx + 1).push(cs[idx + 1])),
        );
    }
}

/// Folding two contribution sequences that hold the same contributions,
/// however ordered, gives the same demand mapping.
pub proof fn lemma_fold_permutation(s: EntrySeq, c1: EntrySeq, c2: EntrySeq)
    requires
        values_wf(s),
        coherent(c1),
        c1.to_multiset() == c2.to_multiset(),
    ensures
        same_entries(upsert_all(s, c1), upsert_all(s, c2)),
    decreases c2.len(),
{
    broadcast use vstd::seq_lib::group_to_multiset_ensures;

    if c2.len() == 0 {
        assert(c1.to_multiset().len() == 0);
        assert(c1 =~= c2);
    } else {
        let e = c2.last();
        assert(c2.contains(e));
        assert(c1.to_multiset().count(e) > 0);
        assert(c1.contains(e));
        let i = choose|i: int| 0 <= i < c1.len() && c1[i] == e;
        lemma_fold_move_to_end(s, c1, i);
        let r1 = c1.remove(i);
        assert(r1.push(e) =~= r1 + seq![e]);
        lemma_upsert_all_append(s, r1, seq![e]);
        assert(c2 =~= c2.drop_last() + seq![e]);
        assert(upsert_all(s, c2) == upsert_all(s, c2.drop_last() + seq![e]));
        lemma_upsert_all_append(s, c2.drop_last(), seq![e]);
        assert(c2.drop_last() =~= c2.remove(c2.len() - 1));
        assert(r1.to_multiset() =~= c1.to_multiset().remove(e));
        assert(c2.remove(c2.len() - 1).to_multiset() =~= c2.to_multiset().remove(e));
        assert(r1.to_multiset() == c2.drop_last().to_multiset());
        assert forall|j: int| 0 <= j < r1.len() implies qv_wf((#[trigger] r1[j]).1) by {
            if j < i {
                assert(r1[j] == c1[j]);
            } else {
                assert(r1[j] == c1[j + 1]);
            }
        }
        assert forall|a: int, b: int|
            #![trigger r1[a], r1[b]]
            0 <= a < r1.len() && 0 <= b < r1.len() && r1[a].0 == r1[b].0 implies r1[a].1.unit
            == r1[b].1.unit by {
            let oa = if a < i {
                a
            } else {
                a + 1
            };
            let ob = if b < i {
                b
            } else {
                b + 1
            };
            assert(r1[a] == c1[oa] && r1[b] == c1[ob]);
        }
        lemma_fold_permutation(s, r1, c2.drop_last());
        assert forall|j: int| 0 <= j < c2.drop_last().len() implies qv_wf(
            (#[trigger] c2.drop_last()[j]).1,
        ) by {
            let x = c2.drop_last()[j];
            assert(c2.drop_last().contains(x));
            assert(c2.drop_last().to_multiset().count(x) > 0);
            assert(r1.contains(x));
            let w = choose|w: int| 0 <= w < r1.len() && r1[w] == x;
            assert(qv_wf(r1[w].1));
        }
        lemma_upsert_all_wf(s, r1);
        lemma_upsert_all_wf(s, c2.drop_last());
        lemma_upsert_same(upsert_all(s, r1), upsert_all(s, c2.drop_last()), e.0, e.1);
        assert(qv_wf(e.1)) by {
            assert(qv_wf(c1[i].1));
        }
        lemma_fold_single(upsert_all(s, r1), e);
        lemma_fold_single(upsert_all(s, c2.drop_last()), e);
        lemma_same_entries_trans(
            upsert_all(s, c1),
            upsert_all(s, r1.push(e)),
            upsert_all(s, c2),
        );
    }
}

/// All contributions of a plan, meal by meal, in order.
pub open spec fn contribs(meals: Seq<PlannedMealView>) -> EntrySeq
    decreases meals.len(),
{
    if meals.len() == 0 {
        Seq::empty()
    } else {
        meals[0].recipe.ingredients + contribs(meals.drop_first())
    }
}

/// Aggregation is the fold of the plan's contributions.
pub proof fn lemma_sum_as_fold(acc: EntrySeq, meals: Seq<PlannedMealView>)
    ensures
        spec_sum_from(acc, meals) == upsert_all(acc, contribs(meals)),
    decreases meals.len(),
{
    if meals.len() == 0 {
    } else {
        lemma_upsert_all_append(acc, meals[0].recipe.ingredients, contribs(meals.drop_first()));
        lemma_sum_as_fold(upsert_all(acc, meals[0].recipe.ingredients), meals.drop_first());
    }
}

/// Removing one meal takes exactly its contributions out of the plan's
/// contribution multiset.
proof fn lemma_contribs_remove(meals: Seq<PlannedMealView>, i: int)
    requires
        0 <= i < meals.len(),
    ensures
        contribs(meals).to_multiset() == meals[i].recipe.ingredients.to_multiset().add(
            contribs(meals.remove(i)).to_multiset(),
        ),
    decreases i,
{
    broadcast use vstd::multiset::group_multiset_axioms;

    if i == 0 {
        assert(meals.remove(0) =~= meals.drop_first());
        vstd::seq_lib::lemma_multiset_commutative(
            meals[0].recipe.ingredients,
            contribs(meals.drop_first()),
        );
    } else {
        let m0 = meals[0].recipe.ingredients;
        let rest = meals.drop_first();
        assert(meals.remove(i).drop_first() =~= rest.remove(i - 1));
        assert(meals.remove(i)[0] == meals[0]);
        lemma_contribs_remove(rest, i - 1);
        assert(rest[i - 1] == meals[i]);
        vstd::seq_lib::lemma_multiset_commutative(m0, contribs(rest));
        vstd::seq_lib::lemma_multiset_commutative(m0, contribs(rest.remove(i - 1)));
        assert(contribs(meals).to_multiset() =~= meals[i].recipe.ingredients.to_multiset().add(
            contribs(meals.remove(i)).to_multiset(),
        ));
    }
}

/// Permuting the meals permutes the contributions.
proof fn lemma_contribs_perm(m1: Seq<PlannedMealView>, m2: Seq<PlannedMealView>)
    requires
        m1.to_multiset() == m2.to_multiset(),
    ensures
        contribs(m1).to_multiset() == contribs(m2).to_multiset(),
    decreases m2.len(),
{
    broadcast use vstd::seq_lib::group_to_multiset_ensures;
    broadcast use vstd::multiset::group_multiset_axioms;

    if m2.len() == 0 {
        assert(m1.to_multiset().len() == 0);
        assert(m1 =~= m2);
    } else {
        let e = m2.last();
        assert(m2.contains(e));
        assert(m1.to_multiset().count(e) > 0);
        assert(m1.contains(e));
        let i = choose|i: int| 0 <= i < m1.len() && m1[i] == e;
        lemma_contribs_remove(m1, i);
        lemma_contribs_remove(m2, m2.len() - 1);
        assert(m2.remove(m2.len() - 1) =~= m2.drop_last());
        assert(m1.remove(i).to_multiset() =~= m1.to_multiset().remove(e));
        assert(m2.drop_last().to_multiset() =~= m2.to_multiset().remove(e));
        lemma_contribs_perm(m1.remove(i), m2.drop_last());
        assert(contribs(m1).to_multiset() =~= contribs(m2).to_multiset());
    }
}

/// Aggregation is order independent: two plans holding the same meals,
/// however ordered, produce the same demand mapping. The proviso is that
/// all contributions for one product share a unit; an existing entry's unit
/// always carries forward, so with mixed units the order would decide which
/// unit wins.
pub proof fn lemma_sum_order_independent(
    meals1: Seq<PlannedMealView>,
    meals2: Seq<PlannedMealView>,
)
    requires
        coherent(contribs(meals1)),
        meals1.to_multiset() == meals2.to_multiset(),
    ensures
        same_entries(spec_sum(meals1), spec_sum(meals2)),
{
    let acc0 = Seq::<(ProductView, QuantityView)>::empty();
    lemma_sum_as_fold(acc0, meals1);
    lemma_sum_as_fold(acc0, meals2);
    lemma_contribs_perm(meals1, meals2);
    lemma_fold_permutation(acc0, contribs(meals1), contribs(meals2));
}

} // verus!
