use shopping::catalog::{resolve_products, Department, ProductRow};
use shopping::errors::{Error, RefKind};
use shopping::pipeline::run_pipeline;
use shopping::plan::{parse_day, parse_meal, resolve_planned_meals, sum_ingredients, Day, Meal,
    PlanRow};
use shopping::recipe::{resolve_ingredients, resolve_recipes, IngredientRow, RecipeRows};
use shopping::report::report_lines;
use shopping::shortfall::subtract_ingredients;

fn dept(name: &str) -> Department {
    Department { name: name.to_string() }
}

fn prow(name: &str, department: &str) -> ProductRow {
    ProductRow { name: name.to_string(), department: department.to_string() }
}

fn irow(ingredient: &str, quantity: &str) -> IngredientRow {
    IngredientRow { ingredient: ingredient.to_string(), quantity: quantity.to_string() }
}

fn smoothie_world() -> (Vec<Department>, Vec<ProductRow>, Vec<RecipeRows>, Vec<PlanRow>) {
    let departments = vec![dept("Produce"), dept("Dairy")];
    let product_rows = vec![prow("Apple", "Produce"), prow("Milk", "Dairy")];
    let recipe_rows = vec![RecipeRows {
        name: "Smoothie".to_string(),
        rows: vec![irow("Apple", "1ct"), irow("Milk", "200g")],
    }];
    let plan_rows = vec![PlanRow {
        day: Day::Monday,
        meal: Meal::Breakfast,
        recipe: "Smoothie".to_string(),
    }];
    (departments, product_rows, recipe_rows, plan_rows)
}

#[test]
fn end_to_end_smoothie_scenario() {
    let (departments, product_rows, recipe_rows, plan_rows) = smoothie_world();
    let inventory_rows = vec![irow("Apple", "0ct")];
    let report = run_pipeline(&departments, &product_rows, &recipe_rows, &inventory_rows,
        &plan_rows).expect("pipeline should succeed");
    let lines = report_lines(&report);
    assert_eq!(lines, vec!["## Produce", "1ct Apple", "## Dairy", "200g Milk"]);
}

#[test]
fn unknown_department_fails_whole_load() {
    let departments = vec![dept("Produce")];
    let rows = vec![prow("Apple", "Produce"), prow("Baguette", "Bakery")];
    match resolve_products(&departments, &rows) {
        Err(Error::UnrecognizedReference { kind, key }) => {
            assert_eq!(kind, RefKind::Department);
            assert_eq!(key, "Bakery");
        },
        other => panic!("expected an unrecognized department, got {:?}", other),
    }
}

#[test]
fn unknown_ingredient_fails_recipe() {
    let departments = vec![dept("Produce")];
    let products = resolve_products(&departments, &vec![prow("Apple", "Produce")]).unwrap();
    match resolve_ingredients(&products, &vec![irow("Dragonfruit", "1ct")]) {
        Err(Error::UnrecognizedReference { kind, key }) => {
            assert_eq!(kind, RefKind::Product);
            assert_eq!(key, "Dragonfruit");
        },
        other => panic!("expected an unrecognized ingredient, got {:?}", other),
    }
}

#[test]
fn malformed_quantity_fails_recipe() {
    let departments = vec![dept("Produce")];
    let products = resolve_products(&departments, &vec![prow("Apple", "Produce")]).unwrap();
    match resolve_ingredients(&products, &vec![irow("Apple", "one")]) {
        Err(Error::MalformedQuantity { token }) => assert_eq!(token, "one"),
        other => panic!("expected a malformed quantity, got {:?}", other),
    }
}

#[test]
fn duplicate_ingredient_fails_recipe() {
    let departments = vec![dept("Produce")];
    let products = resolve_products(&departments, &vec![prow("Apple", "Produce")]).unwrap();
    match resolve_ingredients(&products, &vec![irow("Apple", "1ct"), irow("Apple", "2ct")]) {
        Err(Error::DuplicateIngredient { product }) => assert_eq!(product.name, "Apple"),
        other => panic!("expected a duplicate ingredient, got {:?}", other),
    }
}

#[test]
fn unknown_recipe_fails_plan() {
    let (departments, product_rows, recipe_rows, _) = smoothie_world();
    let products = resolve_products(&departments, &product_rows).unwrap();
    let recipes = resolve_recipes(&products, &recipe_rows).unwrap();
    let plan = vec![PlanRow {
        day: Day::Sunday,
        meal: Meal::Dinner,
        recipe: "Stew".to_string(),
    }];
    match resolve_planned_meals(&recipes, &plan) {
        Err(Error::UnrecognizedReference { kind, key }) => {
            assert_eq!(kind, RefKind::Recipe);
            assert_eq!(key, "Stew");
        },
        other => panic!("expected an unrecognized recipe, got {:?}", other),
    }
}

#[test]
fn aggregation_is_order_independent() {
    let (departments, product_rows, _, _) = smoothie_world();
    let products = resolve_products(&departments, &product_rows).unwrap();
    let recipe_rows = vec![
        RecipeRows {
            name: "Smoothie".to_string(),
            rows: vec![irow("Apple", "1ct"), irow("Milk", "200g")],
        },
        RecipeRows { name: "Snack".to_string(), rows: vec![irow("Apple", "2ct")] },
    ];
    let recipes = resolve_recipes(&products, &recipe_rows).unwrap();
    let forward = vec![
        PlanRow { day: Day::Monday, meal: Meal::Breakfast, recipe: "Smoothie".to_string() },
        PlanRow { day: Day::Monday, meal: Meal::Snack, recipe: "Snack".to_string() },
    ];
    let backward = vec![
        PlanRow { day: Day::Monday, meal: Meal::Snack, recipe: "Snack".to_string() },
        PlanRow { day: Day::Monday, meal: Meal::Breakfast, recipe: "Smoothie".to_string() },
    ];
    let demand_fwd = sum_ingredients(&resolve_planned_meals(&recipes, &forward).unwrap());
    let demand_bwd = sum_ingredients(&resolve_planned_meals(&recipes, &backward).unwrap());
    assert_eq!(demand_fwd.len(), demand_bwd.len());
    for i in 0..demand_fwd.len() {
        let (p, q) = demand_fwd.entry_at(i);
        let held = demand_bwd.get(p).expect("same product must be demanded");
        assert_eq!(held, *q);
    }
}

#[test]
fn repeated_meal_doubles_demand() {
    let (departments, product_rows, recipe_rows, _) = smoothie_world();
    let products = resolve_products(&departments, &product_rows).unwrap();
    let recipes = resolve_recipes(&products, &recipe_rows).unwrap();
    let plan = vec![
        PlanRow { day: Day::Monday, meal: Meal::Breakfast, recipe: "Smoothie".to_string() },
        PlanRow { day: Day::Tuesday, meal: Meal::Breakfast, recipe: "Smoothie".to_string() },
    ];
    let demand = sum_ingredients(&resolve_planned_meals(&recipes, &plan).unwrap());
    assert_eq!(demand.len(), 2);
    let (_, apple) = demand.entry_at(0);
    let (_, milk) = demand.entry_at(1);
    assert_eq!(apple.render(), "2ct");
    assert_eq!(milk.render(), "400g");
}

#[test]
fn shortfall_domain_is_demand_domain() {
    let (departments, product_rows, recipe_rows, plan_rows) = smoothie_world();
    let products = resolve_products(&departments, &product_rows).unwrap();
    let recipes = resolve_recipes(&products, &recipe_rows).unwrap();
    let demand = sum_ingredients(&resolve_planned_meals(&recipes, &plan_rows).unwrap());
    // The inventory also holds something nobody demanded; extend the catalog
    // so that product exists.
    let departments2 = vec![dept("Produce"), dept("Dairy"), dept("Pantry")];
    let product_rows2 = vec![
        prow("Apple", "Produce"),
        prow("Milk", "Dairy"),
        prow("Rice", "Pantry"),
    ];
    let products2 = resolve_products(&departments2, &product_rows2).unwrap();
    let inventory = resolve_ingredients(&products2, &vec![irow("Rice", "500g"), irow(
        "Apple",
        "1ct",
    )]).unwrap();
    let shortfall = subtract_ingredients(&demand, &inventory);
    assert_eq!(shortfall.len(), demand.len());
    for i in 0..shortfall.len() {
        let (p, _) = shortfall.entry_at(i);
        let (d, _) = demand.entry_at(i);
        assert_eq!(p.name, d.name);
        assert_ne!(p.name, "Rice");
    }
}

#[test]
fn covered_items_are_filtered_from_report() {
    let (departments, product_rows, recipe_rows, plan_rows) = smoothie_world();
    // The whole apple demand is on hand; milk is not. The Produce section
    // still appears (it has a shortfall entry, of zero), but shows no item.
    let inventory_rows = vec![irow("Apple", "1ct")];
    let report = run_pipeline(&departments, &product_rows, &recipe_rows, &inventory_rows,
        &plan_rows).expect("pipeline should succeed");
    let lines = report_lines(&report);
    assert_eq!(lines, vec!["## Produce", "## Dairy", "200g Milk"]);
}

#[test]
fn overstocked_items_are_filtered_from_report() {
    let (departments, product_rows, recipe_rows, plan_rows) = smoothie_world();
    let inventory_rows = vec![irow("Apple", "3ct"), irow("Milk", "50g")];
    let report = run_pipeline(&departments, &product_rows, &recipe_rows, &inventory_rows,
        &plan_rows).expect("pipeline should succeed");
    let lines = report_lines(&report);
    assert_eq!(lines, vec!["## Produce", "## Dairy", "150g Milk"]);
}

#[test]
fn sections_follow_department_declaration_order() {
    let (_, product_rows, recipe_rows, plan_rows) = smoothie_world();
    // Same data, departments declared the other way round: the sections
    // swap, whatever order products or recipes were declared in.
    let departments = vec![dept("Dairy"), dept("Produce")];
    let report = run_pipeline(&departments, &product_rows, &recipe_rows, &Vec::<IngredientRow>::new(), &plan_rows)
        .expect("pipeline should succeed");
    let lines = report_lines(&report);
    assert_eq!(lines, vec!["## Dairy", "200g Milk", "## Produce", "1ct Apple"]);
}

#[test]
fn departments_without_entries_are_omitted() {
    let (_, product_rows, recipe_rows, plan_rows) = smoothie_world();
    let departments = vec![dept("Bakery"), dept("Produce"), dept("Dairy")];
    let report = run_pipeline(&departments, &product_rows, &recipe_rows, &Vec::<IngredientRow>::new(), &plan_rows)
        .expect("pipeline should succeed");
    let lines = report_lines(&report);
    assert_eq!(lines, vec!["## Produce", "1ct Apple", "## Dairy", "200g Milk"]);
}

#[test]
fn day_and_meal_tokens_decode() {
    assert_eq!(parse_day(&"Sunday".to_string()), Some(Day::Sunday));
    assert_eq!(parse_day(&"Saturday".to_string()), Some(Day::Saturday));
    assert_eq!(parse_day(&"Caturday".to_string()), None);
    assert_eq!(parse_meal(&"Breakfast".to_string()), Some(Meal::Breakfast));
    assert_eq!(parse_meal(&"Snack".to_string()), Some(Meal::Snack));
    assert_eq!(parse_meal(&"Brunch".to_string()), None);
}

#[test]
fn resolution_is_exact_no_case_folding() {
    let departments = vec![dept("Produce")];
    match resolve_products(&departments, &vec![prow("Apple", "produce")]) {
        Err(Error::UnrecognizedReference { kind: RefKind::Department, key }) => {
            assert_eq!(key, "produce");
        },
        other => panic!("expected an unrecognized department, got {:?}", other),
    }
}
