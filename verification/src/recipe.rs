//! The recipe materializer: ingredient rows resolve against the product
//! collection, quantity tokens parse, and a second row for an already-seen
//! product rejects the whole recipe.

use vstd::prelude::*;
use crate::catalog::{product_views, Product, ProductView};
use crate::errors::{Error, ErrorView, RefKind};
use crate::mapping::{entries_wf, has_key, EntrySeq, IngredientMap};
use crate::quantity::RQuantity;
use crate::token::spec_parse;

verus! {

/// Index of the first product with the given name, if any.
pub open spec fn find_product(ps: Seq<ProductView>, name: Seq<char>) -> Option<int>
    decreases ps.len(),
{
    if ps.len() == 0 {
        None
    } else if ps[0].name == name {
        Some(0int)
    } else {
        match find_product(ps.drop_first(), name) {
            Some(i) => Some(i + 1),
            None => None,
        }
    }
}

/// What `find_product` finds is the first product with that name.
pub proof fn lemma_find_product(ps: Seq<ProductView>, name: Seq<char>)
    ensures
        match find_product(ps, name) {
            Some(i) => 0 <= i < ps.len() && ps[i].name == name && forall|j: int|
                0 <= j < i ==> ps[j].name != name,
            None => forall|j: int| 0 <= j < ps.len() ==> ps[j].name != name,
        },
    decreases ps.len(),
{
    if ps.len() == 0 {
    } else if ps[0].name == name {
    } else {
        lemma_find_product(ps.drop_first(), name);
        assert(forall|j: int| 1 <= j < ps.len() ==> ps[j] == ps.drop_first()[j - 1]);
    }
}

/// Resolve a name against the products, executable linear scan.
pub fn resolve_product(products: &Vec<Product>, name: &String) -> (r: Option<usize>)
    ensures
        match r {
            Some(i) => i < products@.len() && find_product(product_views(products@), name@)
                == Some(i as int),
            None => find_product(product_views(products@), name@) is None,
        },
{
    let ghost pvs = product_views(products@);
    let mut i: usize = 0;
    while i < products.len()
        invariant
            0 <= i <= products.len(),
            pvs == product_views(products@),
            forall|j: int| 0 <= j < i ==> pvs[j].name != name@,
        decreases products.len() - i,
    {
        if products[i].name == *name {
            proof {
                assert(pvs[i as int].name == name@);
                lemma_find_product(pvs, name@);
            }
            return Some(i);
        }
        proof {
            assert(pvs[i as int].name != name@);
        }
        i += 1;
    }
    proof {
        lemma_find_product(pvs, name@);
    }
    None
}

/// A decoded ingredient row: a product name and a quantity token. The same
/// shape serves recipes and the inventory.
#[derive(Debug, Clone)]
pub struct IngredientRow {
    pub ingredient: String,
    pub quantity: String,
}

/// The model of an ingredient row.
pub struct IngredientRowView {
    pub ingredient: Seq<char>,
    pub quantity: Seq<char>,
}

impl View for IngredientRow {
    type V = IngredientRowView;

    open spec fn view(&self) -> IngredientRowView {
        IngredientRowView { ingredient: self.ingredient@, quantity: self.quantity@ }
    }
}

/// The views of a row collection.
pub open spec fn ingredient_row_views(rows: Seq<IngredientRow>) -> Seq<IngredientRowView> {
    rows.map_values(|r: IngredientRow| r@)
}

/// What resolving ingredient rows on top of the entries `acc` yields. Each
/// row in turn must name a known product (else `UnrecognizedReference`),
/// carry a token that parses (else `MalformedQuantity`), and name a product
/// not seen before (else `DuplicateIngredient`); the first failure is the
/// outcome, and no partial mapping survives.
pub open spec fn spec_resolve_ingredients_from(
    ps: Seq<ProductView>,
    acc: EntrySeq,
    rows: Seq<IngredientRowView>,
) -> Result<EntrySeq, ErrorView>
    decreases rows.len(),
{
    if rows.len() == 0 {
        Ok(acc)
    } else {
        let row = rows[0];
        match find_product(ps, row.ingredient) {
            None => Err(
                ErrorView::UnrecognizedReference { kind: RefKind::Product, key: row.ingredient },
            ),
            Some(i) => {
                let p = ps[i];
                match spec_parse(row.quantity) {
                    None => Err(ErrorView::MalformedQuantity { token: row.quantity }),
                    Some(q) => if has_key(acc, p) {
                        Err(ErrorView::DuplicateIngredient { product: p })
                    } else {
                        spec_resolve_ingredients_from(ps, acc.push((p, q)), rows.drop_first())
                    },
                }
            },
        }
    }
}

/// What resolving a whole ingredient row collection yields.
pub open spec fn spec_resolve_ingredients(
    ps: Seq<ProductView>,
    rows: Seq<IngredientRowView>,
) -> Result<EntrySeq, ErrorView> {
    spec_resolve_ingredients_from(ps, Seq::empty(), rows)
}

/// The model of a mapping-building outcome.
pub open spec fn mapping_result_view(r: Result<IngredientMap, Error>) -> Result<
    EntrySeq,
    ErrorView,
> {
    match r {
        Ok(m) => Ok(m@),
        Err(e) => Err(e@),
    }
}

/// Resolve ingredient rows into a mapping, as the recipe materializer and
/// the inventory loader both do.
pub fn resolve_ingredients(products: &Vec<Product>, rows: &Vec<IngredientRow>) -> (r: Result<
    IngredientMap,
    Error,
>)
    ensures
        mapping_result_view(r) == spec_resolve_ingredients(
            product_views(products@),
            ingredient_row_views(rows@),
        ),
        r is Ok ==> r->Ok_0.wf(),
{
    let ghost ps = product_views(products@);
    let ghost rvs = ingredient_row_views(rows@);
    let mut out = IngredientMap::new();
    let mut i: usize = 0;
    proof {
        assert(rvs.subrange(0int, rvs.len() as int) =~= rvs);
    }
    while i < rows.len()
        invariant
            0 <= i <= rows.len(),
            ps == product_views(products@),
            rvs == ingredient_row_views(rows@),
            out.wf(),
            spec_resolve_ingredients(ps, rvs) == spec_resolve_ingredients_from(
                ps,
                out@,
                rvs.subrange(i as int, rvs.len() as int),
            ),
        decreases rows.len() - i,
    {
        let ghost suffix = rvs.subrange(i as int, rvs.len() as int);
        proof {
            assert(suffix[0] == rows@[i as int]@);
            assert(suffix.drop_first() =~= rvs.subrange(i + 1, rvs.len() as int));
        }
        let row = &rows[i];
        let pi = match resolve_product(products, &row.ingredient) {
            Some(pi) => pi,
            None => {
                return Err(
                    Error::UnrecognizedReference {
                        kind: RefKind::Product,
                        key: row.ingredient.clone(),
                    },
                );
            },
        };
        let q = match RQuantity::new(row.quantity.as_str()) {
            Ok(q) => q,
            Err(_) => {
                return Err(Error::MalformedQuantity { token: row.quantity.clone() });
            },
        };
        let product = &products[pi];
        if out.contains(product) {
            return Err(Error::DuplicateIngredient { product: product.duplicate() });
        }
        out.insert_new(product.duplicate(), q);
        i += 1;
    }
    proof {
        assert(rvs.subrange(i as int, rvs.len() as int) =~= Seq::<IngredientRowView>::empty());
    }
    Ok(out)
}

/// A named set of product-to-quantity requirements.
#[derive(Debug)]
pub struct Recipe {
    pub name: String,
    pub ingredients: IngredientMap,
}

/// The model of a recipe.
pub struct RecipeView {
    pub name: Seq<char>,
    pub ingredients: EntrySeq,
}

impl View for Recipe {
    type V = RecipeView;

    open spec fn view(&self) -> RecipeView {
        RecipeView { name: self.name@, ingredients: self.ingredients@ }
    }
}

impl Recipe {
    /// The recipe's ingredient entries are well formed.
    pub open spec fn wf(&self) -> bool {
        entries_wf(self@.ingredients)
    }

    /// A fresh recipe with the same name and entries.
    pub fn duplicate(&self) -> (r: Recipe)
        ensures
            r@ == self@,
    {
        Recipe { name: self.name.clone(), ingredients: self.ingredients.duplicate() }
    }
}

/// A decoded recipe index entry together with its ingredient rows, already
/// associated by the boundary collaborator that read them.
#[derive(Debug)]
pub struct RecipeRows {
    pub name: String,
    pub rows: Vec<IngredientRow>,
}

/// The model of a recipe's undigested rows.
pub struct RecipeRowsView {
    pub name: Seq<char>,
    pub rows: Seq<IngredientRowView>,
}

impl View for RecipeRows {
    type V = RecipeRowsView;

    open spec fn view(&self) -> RecipeRowsView {
        RecipeRowsView { name: self.name@, rows: ingredient_row_views(self.rows@) }
    }
}

/// The views of a recipe row collection.
pub open spec fn recipe_rows_views(rows: Seq<RecipeRows>) -> Seq<RecipeRowsView> {
    rows.map_values(|r: RecipeRows| r@)
}

/// The views of a recipe collection.
pub open spec fn recipe_views(rs: Seq<Recipe>) -> Seq<RecipeView> {
    rs.map_values(|r: Recipe| r@)
}

/// What materializing every recipe yields: each one's rows resolved in
/// order, the first failure aborting the whole load.
pub open spec fn spec_resolve_recipes(ps: Seq<ProductView>, rows: Seq<RecipeRowsView>) -> Result<
    Seq<RecipeView>,
    ErrorView,
>
    decreases rows.len(),
{
    if rows.len() == 0 {
        Ok(Seq::empty())
    } else {
        match spec_resolve_ingredients(ps, rows[0].rows) {
            Err(e) => Err(e),
            Ok(entries) => match spec_resolve_recipes(ps, rows.drop_first()) {
                Ok(rest) => Ok(
                    seq![RecipeView { name: rows[0].name, ingredients: entries }] + rest,
                ),
                Err(e) => Err(e),
            },
        }
    }
}

/// The model of a recipe-load outcome.
pub open spec fn recipes_result_view(r: Result<Vec<Recipe>, Error>) -> Result<
    Seq<RecipeView>,
    ErrorView,
> {
    match r {
        Ok(v) => Ok(recipe_views(v@)),
        Err(e) => Err(e@),
    }
}

/// Materialize every recipe from its rows against the product collection.
pub fn resolve_recipes(products: &Vec<Product>, rows: &Vec<RecipeRows>) -> (r: Result<
    Vec<Recipe>,
    Error,
>)
    ensures
        recipes_result_view(r) == spec_resolve_recipes(
            product_views(products@),
            recipe_rows_views(rows@),
        ),
        r is Ok ==> forall|i: int| 0 <= i < r->Ok_0.len() ==> (#[trigger] r->Ok_0[i]).wf(),
{
    let ghost ps = product_views(products@);
    let ghost rvs = recipe_rows_views(rows@);
    let mut out: Vec<Recipe> = Vec::new();
    let mut i: usize = 0;
    proof {
        assert(rvs.subrange(0int, rvs.len() as int) =~= rvs);
        if spec_resolve_recipes(ps, rvs) is Ok {
            assert(recipe_views(out@) + spec_resolve_recipes(ps, rvs)->Ok_0
                =~= spec_resolve_recipes(ps, rvs)->Ok_0);
        }
    }
    while i < rows.len()
        invariant
            0 <= i <= rows.len(),
            ps == product_views(products@),
            rvs == recipe_rows_views(rows@),
            forall|k: int| 0 <= k < out.len() ==> (#[trigger] out@[k]).wf(),
            spec_resolve_recipes(ps, rvs) == match spec_resolve_recipes(
                ps,
                rvs.subrange(i as int, rvs.len() as int),
            ) {
                Ok(rest) => Ok::<_, ErrorView>(recipe_views(out@) + rest),
                Err(e) => Err::<Seq<RecipeView>, _>(e),
            },
        decreases rows.len() - i,
    {
        let ghost suffix = rvs.subrange(i as int, rvs.len() as int);
        proof {
            assert(suffix[0] == rows@[i as int]@);
            assert(suffix.drop_first() =~= rvs.subrange(i + 1, rvs.len() as int));
        }
        let rr = &rows[i];
        let ingredients = match resolve_ingredients(products, &rr.rows) {
            Ok(m) => m,
            Err(e) => {
                return Err(e);
            },
        };
        let recipe = Recipe { name: rr.name.clone(), ingredients };
        proof {
            assert(recipe@ == (RecipeView { name: suffix[0].name, ingredients: recipe@.ingredients }));
        }
        let ghost out_before = out@;
        out.push(recipe);
        proof {
            assert(out@.drop_last() =~= out_before);
            let pv = RecipeView { name: suffix[0].name, ingredients: out@.last()@.ingredients };
            let rest = spec_resolve_recipes(ps, suffix.drop_first());
            if rest is Ok {
                assert(recipe_views(out@) =~= recipe_views(out@.drop_last()) + seq![pv]);
                assert(recipe_views(out@.drop_last()) + (seq![pv] + rest->Ok_0)
                    =~= recipe_views(out@) + rest->Ok_0);
            }
        }
        i += 1;
    }
    proof {
        assert(rvs.subrange(i as int, rvs.len() as int) =~= Seq::<RecipeRowsView>::empty());
        assert(recipe_views(out@) + Seq::<RecipeView>::empty() =~= recipe_views(out@));
    }
    Ok(out)
}

} // verus!
