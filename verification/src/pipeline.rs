//! The whole run, load to report: resolve products against departments,
//! materialize recipes, resolve the inventory and the plan, aggregate the
//! demand, take off the inventory, and group what is missing by department.
//! Any stage failure is the outcome of the run; no partial report survives.

use vstd::prelude::*;
use crate::catalog::{dept_names, product_row_views, resolve_products, spec_resolve_products,
    Department, ProductRow, ProductRowView};
use crate::errors::{Error, ErrorView};
use crate::mapping::entries_wf;
use crate::plan::{meals_wf, plan_row_views, resolve_planned_meals, spec_resolve_plan, spec_sum,
    sum_fits, sum_ingredients, PlanRow, PlanRowView};
use crate::recipe::{ingredient_row_views, recipe_rows_views, recipe_views, resolve_ingredients,
    resolve_recipes, spec_resolve_ingredients, spec_resolve_recipes, IngredientRow,
    IngredientRowView, RecipeRows, RecipeRowsView};
use crate::report::{build_report, spec_report, Report, SectionView};
use crate::shortfall::{spec_subtract, subtract_fits, subtract_ingredients};

verus! {

/// What the whole run yields: the report, or the first failure in stage
/// order (products, recipes, inventory, plan).
pub open spec fn spec_pipeline(
    deps: Seq<Seq<char>>,
    prows: Seq<ProductRowView>,
    rrows: Seq<RecipeRowsView>,
    irows: Seq<IngredientRowView>,
    plrows: Seq<PlanRowView>,
) -> Result<Seq<SectionView>, ErrorView> {
    match spec_resolve_products(deps, prows) {
        Err(e) => Err(e),
        Ok(ps) => match spec_resolve_recipes(ps, rrows) {
            Err(e) => Err(e),
            Ok(rs) => match spec_resolve_ingredients(ps, irows) {
                Err(e) => Err(e),
                Ok(inv) => match spec_resolve_plan(rs, plrows) {
                    Err(e) => Err(e),
                    Ok(meals) => Ok(spec_report(spec_subtract(spec_sum(meals), inv), deps)),
                },
            },
        },
    }
}

/// The arithmetic of the run stays within the 64-bit representation: every
/// accumulated sum and every shortfall subtraction fits.
pub open spec fn spec_pipeline_fits(
    deps: Seq<Seq<char>>,
    prows: Seq<ProductRowView>,
    rrows: Seq<RecipeRowsView>,
    irows: Seq<IngredientRowView>,
    plrows: Seq<PlanRowView>,
) -> bool {
    match spec_resolve_products(deps, prows) {
        Err(_) => true,
        Ok(ps) => match spec_resolve_recipes(ps, rrows) {
            Err(_) => true,
            Ok(rs) => match spec_resolve_ingredients(ps, irows) {
                Err(_) => true,
                Ok(inv) => match spec_resolve_plan(rs, plrows) {
                    Err(_) => true,
                    Ok(meals) => sum_fits(meals) && subtract_fits(spec_sum(meals), inv),
                },
            },
        },
    }
}

/// The model of a whole-run outcome.
pub open spec fn pipeline_result_view(r: Result<Report, Error>) -> Result<
    Seq<SectionView>,
    ErrorView,
> {
    match r {
        Ok(rep) => Ok(rep@),
        Err(e) => Err(e@),
    }
}

/// Run the pipeline over already-decoded rows.
pub fn run_pipeline(
    departments: &Vec<Department>,
    product_rows: &Vec<ProductRow>,
    recipe_rows: &Vec<RecipeRows>,
    inventory_rows: &Vec<IngredientRow>,
    plan_rows: &Vec<PlanRow>,
) -> (r: Result<Report, Error>)
    requires
        spec_pipeline_fits(
            dept_names(departments@),
            product_row_views(product_rows@),
            recipe_rows_views(recipe_rows@),
            ingredient_row_views(inventory_rows@),
            plan_row_views(plan_rows@),
        ),
    ensures
        pipeline_result_view(r) == spec_pipeline(
            dept_names(departments@),
            product_row_views(product_rows@),
            recipe_rows_views(recipe_rows@),
            ingredient_row_views(inventory_rows@),
            plan_row_views(plan_rows@),
        ),
{
    let products = match resolve_products(departments, product_rows) {
        Ok(p) => p,
        Err(e) => {
            return Err(e);
        },
    };
    let recipes = match resolve_recipes(&products, recipe_rows) {
        Ok(r) => r,
        Err(e) => {
            return Err(e);
        },
    };
    let inventory = match resolve_ingredients(&products, inventory_rows) {
        Ok(m) => m,
        Err(e) => {
            return Err(e);
        },
    };
    let planned = match resolve_planned_meals(&recipes, plan_rows) {
        Ok(p) => p,
        Err(e) => {
            return Err(e);
        },
    };
    proof {
        let mvs = crate::plan::planned_meal_views(planned@);
        assert forall|m: int| 0 <= m < mvs.len() implies entries_wf(
            (#[trigger] mvs[m]).recipe.ingredients,
        ) by {
            assert(mvs[m] == planned@[m]@);
            let k = choose|k: int|
                0 <= k < recipes@.len() && planned@[m]@.recipe == recipe_views(recipes@)[k];
            assert(recipes@[k].wf());
        }
        assert(meals_wf(mvs));
    }
    let demand = sum_ingredients(&planned);
    let to_buy = subtract_ingredients(&demand, &inventory);
    Ok(build_report(&to_buy, departments))
}

} // verus!
