//! Product-to-quantity mappings: the shape shared by a recipe's ingredient
//! list, the aggregated demand of a plan, an inventory, and the shortfall.
//! Entries are kept in first-seen order with unique keys; a lookup takes the
//! first (hence only) entry whose product matches.

use vstd::prelude::*;
use crate::catalog::{Product, ProductView};
use crate::quantity::{qv_add, qv_fits, qv_wf, RQuantity, QuantityView};

verus! {

/// The model of a mapping: its entries in first-seen order.
pub type EntrySeq = Seq<(ProductView, QuantityView)>;

/// No product occurs twice among the entries.
pub open spec fn keys_distinct(s: EntrySeq) -> bool {
    forall|i: int, j: int| 0 <= i < j < s.len() ==> s[i].0 != s[j].0
}

/// Keys are unique and every quantity is canonical and in range.
pub open spec fn entries_wf(s: EntrySeq) -> bool {
    &&& keys_distinct(s)
    &&& forall|i: int| 0 <= i < s.len() ==> qv_wf(#[trigger] s[i].1) && qv_fits(s[i].1)
}

/// Whether some entry has key `k`.
pub open spec fn has_key(s: EntrySeq, k: ProductView) -> bool {
    exists|i: int| 0 <= i < s.len() && s[i].0 == k
}

/// Index of the first entry with key `k`.
pub open spec fn index_of_key(s: EntrySeq, k: ProductView) -> int
    decreases s.len(),
{
    if s.len() == 0 {
        0
    } else if s[0].0 == k {
        0
    } else {
        1 + index_of_key(s.drop_first(), k)
    }
}

/// The value the first entry with key `k` carries.
pub open spec fn value_of(s: EntrySeq, k: ProductView) -> QuantityView {
    s[index_of_key(s, k)].1
}

/// The first entry with a present key is where `index_of_key` says, carries
/// that key, and nothing before it does.
pub proof fn lemma_index_of_key(s: EntrySeq, k: ProductView)
    requires
        has_key(s, k),
    ensures
        0 <= index_of_key(s, k) < s.len(),
        s[index_of_key(s, k)].0 == k,
        forall|j: int| 0 <= j < index_of_key(s, k) ==> s[j].0 != k,
    decreases s.len(),
{
    if s.len() == 0 {
    } else if s[0].0 == k {
    } else {
        let t = s.drop_first();
        assert(has_key(t, k)) by {
            let i = choose|i: int| 0 <= i < s.len() && s[i].0 == k;
            assert(t[i - 1] == s[i]);
        }
        lemma_index_of_key(t, k);
        assert forall|j: int| 1 <= j < 1 + index_of_key(t, k) implies s[j].0 != k by {
            assert(s[j] == t[j - 1]);
        }
    }
}

/// Where an entry with key `k` stands and keys are unique, that position is
/// the one `index_of_key` finds.
pub proof fn lemma_key_at(s: EntrySeq, k: ProductView, i: int)
    requires
        keys_distinct(s),
        0 <= i < s.len(),
        s[i].0 == k,
    ensures
        has_key(s, k),
        index_of_key(s, k) == i,
{
    assert(has_key(s, k));
    lemma_index_of_key(s, k);
    let f = index_of_key(s, k);
    if f < i {
        assert(s[f].0 == s[i].0);
    } else if f > i {
    }
}

/// Accumulate one contribution: combine with the existing entry of the same
/// product, or append a fresh entry at the end.
pub open spec fn upsert(s: EntrySeq, p: ProductView, q: QuantityView) -> EntrySeq {
    if has_key(s, p) {
        s.update(index_of_key(s, p), (p, qv_add(value_of(s, p), q)))
    } else {
        s.push((p, q))
    }
}

/// Whether accumulating `q` onto `s` stays within the representation.
pub open spec fn upsert_fits(s: EntrySeq, p: ProductView, q: QuantityView) -> bool {
    has_key(s, p) ==> qv_fits(qv_add(value_of(s, p), q))
}

/// Keys are unique and every quantity is canonical; the mapping-as-mapping
/// notion of validity, with no bound on the numbers.
pub open spec fn values_wf(s: EntrySeq) -> bool {
    &&& keys_distinct(s)
    &&& forall|i: int| 0 <= i < s.len() ==> qv_wf((#[trigger] s[i]).1)
}

/// Two entry sequences agree as mappings: the same products are present,
/// and each carries the same quantity.
pub open spec fn same_entries(s1: EntrySeq, s2: EntrySeq) -> bool {
    &&& forall|k: ProductView| #![trigger has_key(s1, k)] #![trigger has_key(s2, k)]
        has_key(s1, k) <==> has_key(s2, k)
    &&& forall|k: ProductView| #![trigger value_of(s1, k), value_of(s2, k)]
        has_key(s1, k) && has_key(s2, k) ==> value_of(s1, k) == value_of(s2, k)
}

/// What one accumulation does, key by key: the accumulated product carries
/// the combined quantity, every other entry stands unchanged, and keys stay
/// unique and canonical.
pub proof fn lemma_upsert_char(s: EntrySeq, p: ProductView, q: QuantityView)
    requires
        values_wf(s),
        qv_wf(q),
    ensures
        values_wf(upsert(s, p, q)),
        forall|k: ProductView| #[trigger]
            has_key(upsert(s, p, q), k) <==> (has_key(s, k) || k == p),
        value_of(upsert(s, p, q), p) == (if has_key(s, p) {
            qv_add(value_of(s, p), q)
        } else {
            q
        }),
        forall|k: ProductView|
            k != p && has_key(s, k) ==> #[trigger] value_of(upsert(s, p, q), k) == value_of(
                s,
                k,
            ),
{
    let u = upsert(s, p, q);
    if has_key(s, p) {
        lemma_index_of_key(s, p);
        let i0 = index_of_key(s, p);
        assert(qv_wf(s[i0].1));
        assert(value_of(s, p) == s[i0].1);
        assert(value_of(s, p).den * q.den >= 1) by (nonlinear_arith)
            requires
                value_of(s, p).den >= 1,
                q.den >= 1,
        ;
        crate::quantity::lemma_norm(
            value_of(s, p).num * q.den + q.num * value_of(s, p).den,
            value_of(s, p).den * q.den,
        );
        assert(forall|j: int| 0 <= j < s.len() ==> (#[trigger] u[j]).0 == s[j].0);
        assert forall|k: ProductView| has_key(u, k) implies has_key(s, k) by {
            let j = choose|j: int| 0 <= j < u.len() && u[j].0 == k;
            assert(s[j].0 == k);
        }
        assert forall|k: ProductView| has_key(s, k) implies has_key(u, k) by {
            let j = choose|j: int| 0 <= j < s.len() && s[j].0 == k;
            assert(u[j].0 == k);
        }
        assert forall|k: ProductView| has_key(s, k) implies value_of(u, k) == (if k == p {
            qv_add(value_of(s, p), q)
        } else {
            value_of(s, k)
        }) by {
            lemma_index_of_key(s, k);
            let j = index_of_key(s, k);
            lemma_key_at(u, k, j);
            if k == p {
                lemma_key_at(s, p, j);
            } else {
                assert(j != i0);
                assert(u[j].1 == s[j].1);
            }
        }
    } else {
        assert(forall|j: int| 0 <= j < s.len() ==> (#[trigger] u[j]) == s[j]);
        assert forall|k: ProductView| has_key(u, k) implies has_key(s, k) || k == p by {
            let j = choose|j: int| 0 <= j < u.len() && u[j].0 == k;
            if j < s.len() {
                assert(s[j].0 == k);
            }
        }
        assert forall|k: ProductView| has_key(s, k) implies has_key(u, k) by {
            let j = choose|j: int| 0 <= j < s.len() && s[j].0 == k;
            assert(u[j].0 == k);
        }
        assert(u[s.len() as int].0 == p);
        assert forall|a: int, b: int| 0 <= a < b < u.len() implies u[a].0 != u[b].0 by {
            if b < s.len() {
            } else {
                assert(u[b].0 == p);
                assert(!has_key(s, u[a].0) || u[a].0 != p);
            }
        }
        lemma_key_at(u, p, s.len() as int);
        assert forall|k: ProductView| k != p && has_key(s, k) implies #[trigger] value_of(u, k)
            == value_of(s, k) by {
            lemma_index_of_key(s, k);
            let j = index_of_key(s, k);
            lemma_key_at(u, k, j);
        }
    }
}

/// Two accumulations swap: accumulating `q1` onto `p1` and then `q2` onto
/// `p2` yields the same mapping as the other order. When both target one
/// product its quantities must share a unit; apart from that, units play no
/// part, because an existing entry's unit always wins.
pub proof fn lemma_upsert_swap(
    s: EntrySeq,
    p1: ProductView,
    q1: QuantityView,
    p2: ProductView,
    q2: QuantityView,
)
    requires
        values_wf(s),
        qv_wf(q1),
        qv_wf(q2),
        p1 == p2 ==> q1.unit == q2.unit,
    ensures
        same_entries(upsert(upsert(s, p1, q1), p2, q2), upsert(upsert(s, p2, q2), p1, q1)),
{
    lemma_upsert_char(s, p1, q1);
    lemma_upsert_char(s, p2, q2);
    let u12 = upsert(upsert(s, p1, q1), p2, q2);
    let u21 = upsert(upsert(s, p2, q2), p1, q1);
    lemma_upsert_char(upsert(s, p1, q1), p2, q2);
    lemma_upsert_char(upsert(s, p2, q2), p1, q1);
    if p1 == p2 {
        if has_key(s, p1) {
            lemma_index_of_key(s, p1);
            assert(qv_wf(s[index_of_key(s, p1)].1));
            crate::quantity::lemma_qv_add_exchange(value_of(s, p1), q1, q2);
        } else {
            crate::quantity::lemma_qv_add_comm(q1, q2);
        }
    }
}

/// A product-to-quantity mapping in first-seen order with unique keys.
#[derive(Debug)]
pub struct IngredientMap {
    entries: Vec<(Product, RQuantity)>,
}

impl View for IngredientMap {
    type V = EntrySeq;

    closed spec fn view(&self) -> EntrySeq {
        self.entries@.map_values(|e: (Product, RQuantity)| (e.0@, e.1@))
    }
}

impl IngredientMap {
    /// The invariant of every mapping the library hands out.
    pub open spec fn wf(&self) -> bool {
        entries_wf(self@)
    }

    /// The empty mapping.
    pub fn new() -> (r: IngredientMap)
        ensures
            r@ == Seq::<(ProductView, QuantityView)>::empty(),
            r.wf(),
    {
        let r = IngredientMap { entries: Vec::new() };
        proof {
            assert(r@ =~= Seq::<(ProductView, QuantityView)>::empty());
        }
        r
    }

    /// How many products the mapping holds.
    pub fn len(&self) -> (n: usize)
        ensures
            n == self@.len(),
    {
        self.entries.len()
    }

    /// The entry at a position, in first-seen order.
    pub fn entry_at(&self, i: usize) -> (r: &(Product, RQuantity))
        requires
            i < self@.len(),
        ensures
            (r.0@, r.1@) == self@[i as int],
    {
        &self.entries[i]
    }

    /// Look the product up; the result is the first, hence only, entry.
    pub fn get(&self, p: &Product) -> (r: Option<RQuantity>)
        requires
            self.wf(),
        ensures
            match r {
                Some(q) => has_key(self@, p@) && q@ == value_of(self@, p@),
                None => !has_key(self@, p@),
            },
    {
        let n = self.entries.len();
        let mut i: usize = 0;
        while i < n
            invariant
                0 <= i <= n == self@.len(),
                self.wf(),
                forall|j: int| 0 <= j < i ==> self@[j].0 != p@,
            decreases n - i,
        {
            let e = &self.entries[i];
            if e.0 == *p {
                proof {
                    assert(self@[i as int].0 == p@);
                    lemma_key_at(self@, p@, i as int);
                }
                return Some(e.1);
            }
            proof {
                assert(self@[i as int].0 != p@);
            }
            i += 1;
        }
        None
    }

    /// Whether the mapping already has an entry for the product.
    pub fn contains(&self, p: &Product) -> (r: bool)
        requires
            self.wf(),
        ensures
            r == has_key(self@, p@),
    {
        self.get(p).is_some()
    }

    /// Append an entry for a product not seen before.
    pub fn insert_new(&mut self, p: Product, q: RQuantity)
        requires
            old(self).wf(),
            !has_key(old(self)@, p@),
            qv_wf(q@),
            qv_fits(q@),
        ensures
            final(self)@ == old(self)@.push((p@, q@)),
            final(self).wf(),
    {
        self.entries.push((p, q));
        proof {
            assert(self@ =~= old(self)@.push((p@, q@)));
        }
    }

    /// Accumulate one contribution, as `upsert` describes: add onto the
    /// existing entry for the product, keeping its place and the existing
    /// entry's unit, or append a fresh entry.
    pub fn accumulate(&mut self, p: &Product, q: RQuantity)
        requires
            old(self).wf(),
            qv_wf(q@),
            qv_fits(q@),
            upsert_fits(old(self)@, p@, q@),
        ensures
            final(self)@ == upsert(old(self)@, p@, q@),
            final(self).wf(),
    {
        let n = self.entries.len();
        let mut i: usize = 0;
        while i < n
            invariant
                0 <= i <= n == self@.len(),
                self.wf(),
                *self == *old(self),
                qv_wf(q@),
                qv_fits(q@),
                upsert_fits(old(self)@, p@, q@),
                forall|j: int| 0 <= j < i ==> self@[j].0 != p@,
            decreases n - i,
        {
            let hit = self.entries[i].0 == *p;
            if hit {
                proof {
                    assert(self@[i as int].0 == p@);
                    lemma_key_at(self@, p@, i as int);
                }
                let cur = self.entries[i].1;
                proof {
                    assert(cur@ == old(self)@[i as int].1);
                    assert(value_of(old(self)@, p@) == cur@);
                }
                let combined = cur.add(&q);
                let key = self.entries[i].0.duplicate();
                self.entries[i] = (key, combined);
                proof {
                    assert(self@ =~= upsert(old(self)@, p@, q@));
                    assert forall|a: int, b: int| 0 <= a < b < self@.len() implies self@[a].0
                        != self@[b].0 by {
                        assert(old(self)@[a].0 == self@[a].0 && old(self)@[b].0 == self@[b].0);
                    }
                }
                return ;
            }
            proof {
                assert(self@[i as int].0 != p@);
            }
            i += 1;
        }
        proof {
            assert(!has_key(self@, p@));
        }
        self.entries.push((p.duplicate(), q));
        proof {
            assert(self@ =~= upsert(old(self)@, p@, q@));
        }
    }

    /// A fresh mapping with the same entries.
    pub fn duplicate(&self) -> (r: IngredientMap)
        ensures
            r@ == self@,
    {
        let n = self.entries.len();
        let mut out: Vec<(Product, RQuantity)> = Vec::new();
        let mut i: usize = 0;
        while i < n
            invariant
                0 <= i <= n == self.entries@.len(),
                out@.len() == i,
                forall|j: int| 0 <= j < i ==> (#[trigger] out@[j].0@, out@[j].1@) == self@[j],
            decreases n - i,
        {
            let e = &self.entries[i];
            out.push((e.0.duplicate(), e.1));
            i += 1;
        }
        let r = IngredientMap { entries: out };
        proof {
            assert(r@ =~= self@);
        }
        r
    }
}

} // verus!
