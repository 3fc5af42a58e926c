//! The meal plan: day and meal tags, plan rows resolved to materialized
//! recipes, and the aggregation of ingredient demand across every planned
//! meal.

use vstd::prelude::*;
use crate::errors::{Error, ErrorView, RefKind};
use crate::mapping::{entries_wf, upsert, upsert_fits, EntrySeq, IngredientMap};
use crate::quantity::{qv_fits, qv_wf};
use crate::recipe::{recipe_views, Recipe, RecipeView};

verus! {

/// The days a meal can be planned for.
#[derive(Clone, Copy, Debug, PartialEq, Eq, Structural)]
pub enum Day {
    Sunday,
    Monday,
    Tuesday,
    Wednesday,
    Thursday,
    Friday,
    Saturday,
}

/// The meals of a day.
#[derive(Clone, Copy, Debug, PartialEq, Eq, Structural)]
pub enum Meal {
    Breakfast,
    Lunch,
    Dinner,
    Snack,
}

/// The day a token denotes, if any.
pub open spec fn spec_day(s: Seq<char>) -> Option<Day> {
    if s == "Sunday"@ {
        Some(Day::Sunday)
    } else if s == "Monday"@ {
        Some(Day::Monday)
    } else if s == "Tuesday"@ {
        Some(Day::Tuesday)
    } else if s == "Wednesday"@ {
        Some(Day::Wednesday)
    } else if s == "Thursday"@ {
        Some(Day::Thursday)
    } else if s == "Friday"@ {
        Some(Day::Friday)
    } else if s == "Saturday"@ {
        Some(Day::Saturday)
    } else {
        None
    }
}

/// The meal a token denotes, if any.
pub open spec fn spec_meal(s: Seq<char>) -> Option<Meal> {
    if s == "Breakfast"@ {
        Some(Meal::Breakfast)
    } else if s == "Lunch"@ {
        Some(Meal::Lunch)
    } else if s == "Dinner"@ {
        Some(Meal::Dinner)
    } else if s == "Snack"@ {
        Some(Meal::Snack)
    } else {
        None
    }
}

/// Decode a day token.
pub fn parse_day(token: &String) -> (r: Option<Day>)
    ensures
        r == spec_day(token@),
{
    if *token == String::from_str("Sunday") {
        Some(Day::Sunday)
    } else if *token == String::from_str("Monday") {
        Some(Day::Monday)
    } else if *token == String::from_str("Tuesday") {
        Some(Day::Tuesday)
    } else if *token == String::from_str("Wednesday") {
        Some(Day::Wednesday)
    } else if *token == String::from_str("Thursday") {
        Some(Day::Thursday)
    } else if *token == String::from_str("Friday") {
        Some(Day::Friday)
    } else if *token == String::from_str("Saturday") {
        Some(Day::Saturday)
    } else {
        None
    }
}

/// Decode a meal token.
pub fn parse_meal(token: &String) -> (r: Option<Meal>)
    ensures
        r == spec_meal(token@),
{
    if *token == String::from_str("Breakfast") {
        Some(Meal::Breakfast)
    } else if *token == String::from_str("Lunch") {
        Some(Meal::Lunch)
    } else if *token == String::from_str("Dinner") {
        Some(Meal::Dinner)
    } else if *token == String::from_str("Snack") {
        Some(Meal::Snack)
    } else {
        None
    }
}

/// A decoded plan row: the slot and the recipe's name, unresolved.
#[derive(Debug, Clone)]
pub struct PlanRow {
    pub day: Day,
    pub meal: Meal,
    pub recipe: String,
}

/// The model of a plan row.
pub struct PlanRowView {
    pub day: Day,
    pub meal: Meal,
    pub recipe: Seq<char>,
}

impl View for PlanRow {
    type V = PlanRowView;

    open spec fn view(&self) -> PlanRowView {
        PlanRowView { day: self.day, meal: self.meal, recipe: self.recipe@ }
    }
}

/// The views of a plan row collection.
pub open spec fn plan_row_views(rows: Seq<PlanRow>) -> Seq<PlanRowView> {
    rows.map_values(|r: PlanRow| r@)
}

/// A recipe assigned to a day and meal slot, fully materialized.
#[derive(Debug)]
pub struct PlannedMeal {
    pub day: Day,
    pub meal: Meal,
    pub recipe: Recipe,
}

/// The model of a planned meal.
pub struct PlannedMealView {
    pub day: Day,
    pub meal: Meal,
    pub recipe: RecipeView,
}

impl View for PlannedMeal {
    type V = PlannedMealView;

    open spec fn view(&self) -> PlannedMealView {
        PlannedMealView { day: self.day, meal: self.meal, recipe: self.recipe@ }
    }
}

/// The views of a planned meal collection.
pub open spec fn planned_meal_views(ms: Seq<PlannedMeal>) -> Seq<PlannedMealView> {
    ms.map_values(|m: PlannedMeal| m@)
}

/// Index of the first recipe with the given name, if any.
pub open spec fn find_recipe(rs: Seq<RecipeView>, name: Seq<char>) -> Option<int>
    decreases rs.len(),
{
    if rs.len() == 0 {
        None
    } else if rs[0].name == name {
        Some(0int)
    } else {
        match find_recipe(rs.drop_first(), name) {
            Some(i) => Some(i + 1),
            None => None,
        }
    }
}

/// What `find_recipe` finds is the first recipe with that name.
pub proof fn lemma_find_recipe(rs: Seq<RecipeView>, name: Seq<char>)
    ensures
        match find_recipe(rs, name) {
            Some(i) => 0 <= i < rs.len() && rs[i].name == name && forall|j: int|
                0 <= j < i ==> rs[j].name != name,
            None => forall|j: int| 0 <= j < rs.len() ==> rs[j].name != name,
        },
    decreases rs.len(),
{
    if rs.len() == 0 {
    } else if rs[0].name == name {
    } else {
        lemma_find_recipe(rs.drop_first(), name);
        assert(forall|j: int| 1 <= j < rs.len() ==> rs[j] == rs.drop_first()[j - 1]);
    }
}

/// What resolving plan rows against the materialized recipes yields: every
/// row bound to the first recipe of its name, or the error of the first row
/// naming no recipe.
pub open spec fn spec_resolve_plan(rs: Seq<RecipeView>, rows: Seq<PlanRowView>) -> Result<
    Seq<PlannedMealView>,
    ErrorView,
>
    decreases rows.len(),
{
    if rows.len() == 0 {
        Ok(Seq::empty())
    } else {
        match find_recipe(rs, rows[0].recipe) {
            None => Err(
                ErrorView::UnrecognizedReference { kind: RefKind::Recipe, key: rows[0].recipe },
            ),
            Some(i) => match spec_resolve_plan(rs, rows.drop_first()) {
                Ok(rest) => Ok(
                    seq![
                        PlannedMealView { day: rows[0].day, meal: rows[0].meal, recipe: rs[i] },
                    ] + rest,
                ),
                Err(e) => Err(e),
            },
        }
    }
}

/// The model of a plan-resolution outcome.
pub open spec fn plan_result_view(r: Result<Vec<PlannedMeal>, Error>) -> Result<
    Seq<PlannedMealView>,
    ErrorView,
> {
    match r {
        Ok(v) => Ok(planned_meal_views(v@)),
        Err(e) => Err(e@),
    }
}

/// Resolve every plan row to its recipe, which the planned meal then owns.
pub fn resolve_planned_meals(recipes: &Vec<Recipe>, rows: &Vec<PlanRow>) -> (r: Result<
    Vec<PlannedMeal>,
    Error,
>)
    ensures
        plan_result_view(r) == spec_resolve_plan(recipe_views(recipes@), plan_row_views(rows@)),
        r is Ok ==> forall|m: int|
            0 <= m < r->Ok_0.len() ==> exists|k: int|
                0 <= k < recipes@.len() && (#[trigger] r->Ok_0@[m])@.recipe == recipe_views(
                    recipes@,
                )[k],
{
    let ghost rcs = recipe_views(recipes@);
    let ghost rvs = plan_row_views(rows@);
    let mut out: Vec<PlannedMeal> = Vec::new();
    let mut i: usize = 0;
    proof {
        assert(rvs.subrange(0int, rvs.len() as int) =~= rvs);
        if spec_resolve_plan(rcs, rvs) is Ok {
            assert(planned_meal_views(out@) + spec_resolve_plan(rcs, rvs)->Ok_0
                =~= spec_resolve_plan(rcs, rvs)->Ok_0);
        }
    }
    while i < rows.len()
        invariant
            0 <= i <= rows.len(),
            rcs == recipe_views(recipes@),
            rvs == plan_row_views(rows@),
            forall|m: int|
                0 <= m < out.len() ==> exists|k: int|
                    0 <= k < recipes@.len() && (#[trigger] out@[m])@.recipe == rcs[k],
            spec_resolve_plan(rcs, rvs) == match spec_resolve_plan(
                rcs,
                rvs.subrange(i as int, rvs.len() as int),
            ) {
                Ok(rest) => Ok::<_, ErrorView>(planned_meal_views(out@) + rest),
                Err(e) => Err::<Seq<PlannedMealView>, _>(e),
            },
        decreases rows.len() - i,
    {
        let ghost suffix = rvs.subrange(i as int, rvs.len() as int);
        proof {
            assert(suffix[0] == rows@[i as int]@);
            assert(suffix.drop_first() =~= rvs.subrange(i + 1, rvs.len() as int));
        }
        let row = &rows[i];
        let ri = match find_recipe_exec(recipes, &row.recipe) {
            Some(ri) => ri,
            None => {
                return Err(
                    Error::UnrecognizedReference { kind: RefKind::Recipe, key: row.recipe.clone() },
                );
            },
        };
        let meal = PlannedMeal { day: row.day, meal: row.meal, recipe: recipes[ri].duplicate() };
        proof {
            assert(meal@ == (PlannedMealView {
                day: suffix[0].day,
                meal: suffix[0].meal,
                recipe: rcs[ri as int],
            }));
        }
        let ghost out_before = out@;
        out.push(meal);
        proof {
            assert(out@.drop_last() =~= out_before);
            let pv = PlannedMealView {
                day: suffix[0].day,
                meal: suffix[0].meal,
                recipe: rcs[ri as int],
            };
            let rest = spec_resolve_plan(rcs, suffix.drop_first());
            if rest is Ok {
                assert(planned_meal_views(out@) =~= planned_meal_views(out@.drop_last()) + seq![
                    pv,
                ]);
                assert(planned_meal_views(out@.drop_last()) + (seq![pv] + rest->Ok_0)
                    =~= planned_meal_views(out@) + rest->Ok_0);
            }
        }
        i += 1;
    }
    proof {
        assert(rvs.subrange(i as int, rvs.len() as int) =~= Seq::<PlanRowView>::empty());
        assert(planned_meal_views(out@) + Seq::<PlannedMealView>::empty() =~= planned_meal_views(
            out@,
        ));
    }
    Ok(out)
}

/// Resolve a name against the recipes, executable linear scan.
fn find_recipe_exec(recipes: &Vec<Recipe>, name: &String) -> (r: Option<usize>)
    ensures
        match r {
            Some(i) => i < recipes@.len() && find_recipe(recipe_views(recipes@), name@) == Some(
                i as int,
            ),
            None => find_recipe(recipe_views(recipes@), name@) is None,
        },
{
    let ghost rcs = recipe_views(recipes@);
    let mut i: usize = 0;
    while i < recipes.len()
        invariant
            0 <= i <= recipes.len(),
            rcs == recipe_views(recipes@),
            forall|j: int| 0 <= j < i ==> rcs[j].name != name@,
        decreases recipes.len() - i,
    {
        if recipes[i].name == *name {
            proof {
                assert(rcs[i as int].name == name@);
                lemma_find_recipe(rcs, name@);
            }
            return Some(i);
        }
        proof {
            assert(rcs[i as int].name != name@);
        }
        i += 1;
    }
    proof {
        lemma_find_recipe(rcs, name@);
    }
    None
}

/// Accumulate a sequence of contributions onto `acc`, one `upsert` each.
pub open spec fn upsert_all(acc: EntrySeq, items: EntrySeq) -> EntrySeq
    decreases items.len(),
{
    if items.len() == 0 {
        acc
    } else {
        upsert_all(upsert(acc, items[0].0, items[0].1), items.drop_first())
    }
}

/// Every accumulation along `upsert_all` stays within the representation.
pub open spec fn upsert_all_fits(acc: EntrySeq, items: EntrySeq) -> bool
    decreases items.len(),
{
    items.len() == 0 || (upsert_fits(acc, items[0].0, items[0].1) && upsert_all_fits(
        upsert(acc, items[0].0, items[0].1),
        items.drop_first(),
    ))
}

/// The demand left after folding the meals of the plan, in order, onto
/// `acc`: each meal contributes every entry of its recipe's mapping.
pub open spec fn spec_sum_from(acc: EntrySeq, meals: Seq<PlannedMealView>) -> EntrySeq
    decreases meals.len(),
{
    if meals.len() == 0 {
        acc
    } else {
        spec_sum_from(upsert_all(acc, meals[0].recipe.ingredients), meals.drop_first())
    }
}

/// The aggregated demand of a plan.
pub open spec fn spec_sum(meals: Seq<PlannedMealView>) -> EntrySeq {
    spec_sum_from(Seq::empty(), meals)
}

/// Every accumulation along the whole aggregation stays within the
/// representation.
pub open spec fn sum_fits_from(acc: EntrySeq, meals: Seq<PlannedMealView>) -> bool
    decreases meals.len(),
{
    meals.len() == 0 || (upsert_all_fits(acc, meals[0].recipe.ingredients) && sum_fits_from(
        upsert_all(acc, meals[0].recipe.ingredients),
        meals.drop_first(),
    ))
}

/// The aggregation of a whole plan stays within the representation.
pub open spec fn sum_fits(meals: Seq<PlannedMealView>) -> bool {
    sum_fits_from(Seq::empty(), meals)
}

/// Every planned meal's recipe mapping is well formed.
pub open spec fn meals_wf(meals: Seq<PlannedMealView>) -> bool {
    forall|i: int| 0 <= i < meals.len() ==> entries_wf(
        (#[trigger] meals[i]).recipe.ingredients,
    )
}

/// Sum the ingredient demand of every planned meal into one mapping. A
/// product already seen has the new quantity added on (the existing entry's
/// unit carries forward); a fresh product is appended, so entries stand in
/// first-seen order.
pub fn sum_ingredients(planned_meals: &Vec<PlannedMeal>) -> (r: IngredientMap)
    requires
        meals_wf(planned_meal_views(planned_meals@)),
        sum_fits(planned_meal_views(planned_meals@)),
    ensures
        r@ == spec_sum(planned_meal_views(planned_meals@)),
        r.wf(),
{
    let ghost mvs = planned_meal_views(planned_meals@);
    let mut out = IngredientMap::new();
    let mut i: usize = 0;
    proof {
        assert(mvs.subrange(0int, mvs.len() as int) =~= mvs);
    }
    while i < planned_meals.len()
        invariant
            0 <= i <= planned_meals.len(),
            mvs == planned_meal_views(planned_meals@),
            meals_wf(mvs),
            out.wf(),
            spec_sum(mvs) == spec_sum_from(out@, mvs.subrange(i as int, mvs.len() as int)),
            sum_fits_from(out@, mvs.subrange(i as int, mvs.len() as int)),
        decreases planned_meals.len() - i,
    {
        let ghost suffix = mvs.subrange(i as int, mvs.len() as int);
        proof {
            assert(suffix[0] == planned_meals@[i as int]@);
            assert(suffix.drop_first() =~= mvs.subrange(i + 1, mvs.len() as int));
        }
        let recipe = &planned_meals[i].recipe;
        let ghost items = recipe@.ingredients;
        let ghost acc0 = out@;
        let n = recipe.ingredients.len();
        let mut j: usize = 0;
        proof {
            assert(items.subrange(0int, n as int) =~= items);
        }
        while j < n
            invariant
                0 <= j <= n == items.len(),
                items == recipe@.ingredients,
                recipe == &planned_meals@[i as int].recipe,
                i < planned_meals@.len(),
                entries_wf(items),
                out.wf(),
                upsert_all(acc0, items) == upsert_all(out@, items.subrange(j as int, n as int)),
                upsert_all_fits(out@, items.subrange(j as int, n as int)),
            decreases n - j,
        {
            let ghost isuffix = items.subrange(j as int, items.len() as int);
            proof {
                assert(isuffix[0] == items[j as int]);
                assert(isuffix.drop_first() =~= items.subrange(j + 1, items.len() as int));
                assert(qv_wf(items[j as int].1) && qv_fits(items[j as int].1));
            }
            let e = recipe.ingredients.entry_at(j);
            out.accumulate(&e.0, e.1);
            j += 1;
        }
        proof {
            assert(items.subrange(n as int, n as int) =~= Seq::<
                (crate::catalog::ProductView, crate::quantity::QuantityView),
            >::empty());
            assert(out@ == upsert_all(acc0, items));
        }
        i += 1;
    }
    proof {
        assert(mvs.subrange(i as int, mvs.len() as int) =~= Seq::<PlannedMealView>::empty());
    }
    out
}

} // verus!
