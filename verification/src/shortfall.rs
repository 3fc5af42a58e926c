//! The shortfall calculator: demand minus inventory, product by product.
//! A demanded product missing from the inventory keeps its raw demand; a
//! product only in the inventory is not emitted, so the shortfall's keys
//! are exactly the demand's keys, in demand order.

use vstd::prelude::*;
use crate::catalog::ProductView;
use crate::mapping::{has_key, value_of, EntrySeq, IngredientMap};
use crate::quantity::{qv_fits, qv_sub, QuantityView};

verus! {

/// One demand entry after the inventory is taken off.
pub open spec fn shortfall_entry(inventory: EntrySeq, e: (ProductView, QuantityView)) -> (
    ProductView,
    QuantityView,
) {
    if has_key(inventory, e.0) {
        (e.0, qv_sub(e.1, value_of(inventory, e.0)))
    } else {
        e
    }
}

/// The shortfall: every demand entry with the matching inventory quantity
/// subtracted, in demand order.
pub open spec fn spec_subtract(demand: EntrySeq, inventory: EntrySeq) -> EntrySeq {
    demand.map_values(|e: (ProductView, QuantityView)| shortfall_entry(inventory, e))
}

/// Every subtraction performed stays within the representation.
pub open spec fn subtract_fits(demand: EntrySeq, inventory: EntrySeq) -> bool {
    forall|i: int|
        #![trigger demand[i]]
        0 <= i < demand.len() && has_key(inventory, demand[i].0) ==> qv_fits(
            qv_sub(demand[i].1, value_of(inventory, demand[i].0)),
        )
}

/// The shortfall's domain is exactly the demand's: the same keys stand at
/// the same positions, and no key appears that the demand lacks.
pub proof fn lemma_shortfall_domain(demand: EntrySeq, inventory: EntrySeq)
    ensures
        spec_subtract(demand, inventory).len() == demand.len(),
        forall|i: int|
            0 <= i < demand.len() ==> (#[trigger] spec_subtract(demand, inventory)[i]).0
                == demand[i].0,
        forall|k: ProductView|
            has_key(spec_subtract(demand, inventory), k) <==> has_key(demand, k),
{
    let out = spec_subtract(demand, inventory);
    assert forall|k: ProductView| has_key(out, k) implies has_key(demand, k) by {
        let i = choose|i: int| 0 <= i < out.len() && out[i].0 == k;
        assert(demand[i].0 == k);
    }
    assert forall|k: ProductView| has_key(demand, k) implies has_key(out, k) by {
        let i = choose|i: int| 0 <= i < demand.len() && demand[i].0 == k;
        assert(out[i].0 == k);
    }
}

/// Subtract the inventory from the demand. The result lists exactly the
/// demanded products, in demand order; a product the inventory lacks keeps
/// its full demand, and a subtraction may go negative, meaning more is on
/// hand than needed.
pub fn subtract_ingredients(demand: &IngredientMap, inventory: &IngredientMap) -> (r:
    IngredientMap)
    requires
        demand.wf(),
        inventory.wf(),
        subtract_fits(demand@, inventory@),
    ensures
        r@ == spec_subtract(demand@, inventory@),
        r.wf(),
{
    let mut out = IngredientMap::new();
    let n = demand.len();
    let mut i: usize = 0;
    while i < n
        invariant
            0 <= i <= n == demand@.len(),
            demand.wf(),
            inventory.wf(),
            subtract_fits(demand@, inventory@),
            out.wf(),
            out@ =~= spec_subtract(demand@.subrange(0, i as int), inventory@),
        decreases n - i,
    {
        let e = demand.entry_at(i);
        let q = match inventory.get(&e.0) {
            Some(held) => {
                proof {
                    assert(demand@[i as int].1 == e.1@ && demand@[i as int].0 == e.0@);
                    crate::mapping::lemma_index_of_key(inventory@, e.0@);
                }
                e.1.sub(&held)
            },
            None => e.1,
        };
        proof {
            assert((e.0@, q@) == shortfall_entry(inventory@, demand@[i as int]));
            assert(!has_key(out@, e.0@)) by {
                if has_key(out@, e.0@) {
                    let j = choose|j: int| 0 <= j < out@.len() && out@[j].0 == e.0@;
                    assert(out@[j].0 == demand@[j].0);
                    assert(demand@[j].0 != demand@[i as int].0);
                }
            }
        }
        out.insert_new(e.0.duplicate(), q);
        proof {
            assert(out@ =~= spec_subtract(demand@.subrange(0, i + 1), inventory@));
        }
        i += 1;
    }
    proof {
        assert(demand@.subrange(0, n as int) =~= demand@);
    }
    out
}

} // verus!
