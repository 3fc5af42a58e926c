//! Departments, products, and reference resolution: a name resolves to the
//! first entity whose identifying field equals it by exact string equality.

use vstd::prelude::*;
use crate::errors::{Error, ErrorView, RefKind};

verus! {

/// A named grouping every product belongs to. Declaration order of the
/// department collection fixes the order of report sections.
#[derive(Debug, Clone)]
pub struct Department {
    pub name: String,
}

impl View for Department {
    type V = Seq<char>;

    open spec fn view(&self) -> Seq<char> {
        self.name@
    }
}

/// A purchasable item, scoped to one department.
#[derive(Debug, Clone)]
pub struct Product {
    pub name: String,
    pub department: Department,
}

/// The mathematical model of a product: its name and its department's name.
pub struct ProductView {
    pub name: Seq<char>,
    pub department: Seq<char>,
}

impl View for Product {
    type V = ProductView;

    open spec fn view(&self) -> ProductView {
        ProductView { name: self.name@, department: self.department@ }
    }
}

impl PartialEq for Product {
    /// Two products are equal exactly when name and department both match.
    fn eq(&self, other: &Product) -> (r: bool) {
        self.name == other.name && self.department.name == other.department.name
    }
}

impl vstd::std_specs::cmp::PartialEqSpecImpl for Product {
    open spec fn obeys_eq_spec() -> bool {
        true
    }

    open spec fn eq_spec(&self, other: &Product) -> bool {
        self@ == other@
    }
}

impl Product {
    /// A fresh product with the same name and department.
    pub fn duplicate(&self) -> (r: Product)
        ensures
            r@ == self@,
    {
        Product {
            name: self.name.clone(),
            department: Department { name: self.department.name.clone() },
        }
    }
}

/// The names of a department collection, in declaration order.
pub open spec fn dept_names(deps: Seq<Department>) -> Seq<Seq<char>> {
    deps.map_values(|d: Department| d@)
}

/// Whether `key` occurs among `names`.
pub open spec fn name_listed(names: Seq<Seq<char>>, key: Seq<char>) -> bool {
    exists|i: int| 0 <= i < names.len() && names[i] == key
}

/// Index of the first occurrence of `key` in `names`.
pub open spec fn first_name_index(names: Seq<Seq<char>>, key: Seq<char>) -> int
    decreases names.len(),
{
    if names.len() == 0 {
        0
    } else if names[0] == key {
        0
    } else {
        1 + first_name_index(names.drop_first(), key)
    }
}

/// Whether the department collection contains `key`, by linear scan.
pub fn department_known(departments: &Vec<Department>, key: &String) -> (r: bool)
    ensures
        r == name_listed(dept_names(departments@), key@),
{
    let mut i: usize = 0;
    while i < departments.len()
        invariant
            0 <= i <= departments.len(),
            forall|j: int| 0 <= j < i ==> dept_names(departments@)[j] != key@,
        decreases departments.len() - i,
    {
        if departments[i].name == *key {
            assert(dept_names(departments@)[i as int] == key@);
            return true;
        }
        i += 1;
    }
    false
}

/// A decoded product row: the product's name and its department's name,
/// still unresolved.
#[derive(Debug, Clone)]
pub struct ProductRow {
    pub name: String,
    pub department: String,
}

/// The model of a product row.
pub struct ProductRowView {
    pub name: Seq<char>,
    pub department: Seq<char>,
}

impl View for ProductRow {
    type V = ProductRowView;

    open spec fn view(&self) -> ProductRowView {
        ProductRowView { name: self.name@, department: self.department@ }
    }
}

/// What resolving product rows against a department collection yields:
/// either every row turned into a product, or the error of the first row
/// whose department name is not listed. No partial product list survives.
pub open spec fn spec_resolve_products(deps: Seq<Seq<char>>, rows: Seq<ProductRowView>) -> Result<
    Seq<ProductView>,
    ErrorView,
>
    decreases rows.len(),
{
    if rows.len() == 0 {
        Ok(Seq::empty())
    } else if !name_listed(deps, rows[0].department) {
        Err(
            ErrorView::UnrecognizedReference {
                kind: RefKind::Department,
                key: rows[0].department,
            },
        )
    } else {
        match spec_resolve_products(deps, rows.drop_first()) {
            Ok(rest) => Ok(
                seq![ProductView { name: rows[0].name, department: rows[0].department }] + rest,
            ),
            Err(e) => Err(e),
        }
    }
}

/// The views of a product collection.
pub open spec fn product_views(ps: Seq<Product>) -> Seq<ProductView> {
    ps.map_values(|p: Product| p@)
}

/// The views of a product row collection.
pub open spec fn product_row_views(rows: Seq<ProductRow>) -> Seq<ProductRowView> {
    rows.map_values(|r: ProductRow| r@)
}

/// The model of a `resolve_products` outcome.
pub open spec fn products_result_view(r: Result<Vec<Product>, Error>) -> Result<
    Seq<ProductView>,
    ErrorView,
> {
    match r {
        Ok(v) => Ok(product_views(v@)),
        Err(e) => Err(e@),
    }
}

/// Resolve every product row against the loaded departments, enforcing
/// referential integrity: an unknown department name fails the whole load.
pub fn resolve_products(departments: &Vec<Department>, rows: &Vec<ProductRow>) -> (r: Result<
    Vec<Product>,
    Error,
>)
    ensures
        products_result_view(r) == spec_resolve_products(
            dept_names(departments@),
            product_row_views(rows@),
        ),
{
    let ghost deps = dept_names(departments@);
    let ghost rvs = product_row_views(rows@);
    let mut out: Vec<Product> = Vec::new();
    let mut i: usize = 0;
    proof {
        assert(rvs.subrange(0int, rvs.len() as int) =~= rvs);
        if spec_resolve_products(deps, rvs) is Ok {
            assert(product_views(out@) + spec_resolve_products(deps, rvs)->Ok_0
                =~= spec_resolve_products(deps, rvs)->Ok_0);
        }
    }
    while i < rows.len()
        invariant
            0 <= i <= rows.len(),
            rvs == product_row_views(rows@),
            spec_resolve_products(deps, rvs) == match spec_resolve_products(
                deps,
                rvs.subrange(i as int, rvs.len() as int),
            ) {
                Ok(rest) => Ok::<_, ErrorView>(product_views(out@) + rest),
                Err(e) => Err::<Seq<ProductView>, _>(e),
            },
            deps == dept_names(departments@),
        decreases rows.len() - i,
    {
        let ghost suffix = rvs.subrange(i as int, rvs.len() as int);
        proof {
            assert(suffix[0] == rows@[i as int]@);
            assert(suffix.drop_first() =~= rvs.subrange(i + 1, rvs.len() as int));
        }
        let row = &rows[i];
        if !department_known(departments, &row.department) {
            return Err(
                Error::UnrecognizedReference { kind: RefKind::Department, key: row.department.clone() },
            );
        }
        let product = Product {
            name: row.name.clone(),
            department: Department { name: row.department.clone() },
        };
        proof {
            assert(product@ == (ProductView {
                name: suffix[0].name,
                department: suffix[0].department,
            }));
        }
        let ghost out_before = out@;
        out.push(product);
        proof {
            assert(out@.drop_last() =~= out_before);
            let pv = ProductView { name: suffix[0].name, department: suffix[0].department };
            let rest = spec_resolve_products(deps, suffix.drop_first());
            assert(spec_resolve_products(deps, suffix) == match rest {
                Ok(r) => Ok::<_, ErrorView>(seq![pv] + r),
                Err(e) => Err::<Seq<ProductView>, _>(e),
            });
            if rest is Ok {
                assert(product_views(out@) =~= product_views(out@.drop_last()) + seq![pv]);
                assert(product_views(out@.drop_last()) + (seq![pv] + rest->Ok_0)
                    =~= product_views(out@) + rest->Ok_0);
            }
        }
        i += 1;
    }
    proof {
        assert(rvs.subrange(i as int, rvs.len() as int) =~= Seq::<ProductRowView>::empty());
        assert(product_views(out@) + Seq::<ProductView>::empty() =~= product_views(out@));
    }
    Ok(out)
}

} // verus!
