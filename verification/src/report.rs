//! The report builder: group the shortfall by department, order the groups
//! by department declaration order, omit departments with no shortfall
//! entries, and show only the strictly positive items of each group, in
//! first-seen order.

use vstd::prelude::*;
use crate::catalog::{dept_names, name_listed, Department, Product, ProductView};
use crate::mapping::{EntrySeq, IngredientMap};
use crate::quantity::{qv_fits, qv_is_positive, qv_wf, RQuantity, QuantityView};

verus! {

/// The views of a plain entry list.
pub open spec fn pair_views(s: Seq<(Product, RQuantity)>) -> EntrySeq {
    s.map_values(|e: (Product, RQuantity)| (e.0@, e.1@))
}

/// One report section: a department and its strictly positive items.
#[derive(Debug)]
pub struct Section {
    pub department: Department,
    pub items: Vec<(Product, RQuantity)>,
}

/// The model of a section.
pub struct SectionView {
    pub department: Seq<char>,
    pub items: EntrySeq,
}

impl View for Section {
    type V = SectionView;

    open spec fn view(&self) -> SectionView {
        SectionView { department: self.department@, items: pair_views(self.items@) }
    }
}

/// The department-ordered report.
#[derive(Debug)]
pub struct Report {
    pub sections: Vec<Section>,
}

impl View for Report {
    type V = Seq<SectionView>;

    open spec fn view(&self) -> Seq<SectionView> {
        self.sections@.map_values(|s: Section| s@)
    }
}

/// The shortfall entries whose product belongs to the department, in
/// shortfall order.
pub open spec fn group_items(shortfall: EntrySeq, dep: Seq<char>) -> EntrySeq
    decreases shortfall.len(),
{
    if shortfall.len() == 0 {
        Seq::empty()
    } else {
        let rest = group_items(shortfall.drop_last(), dep);
        if shortfall.last().0.department == dep {
            rest.push(shortfall.last())
        } else {
            rest
        }
    }
}

/// The entries whose quantity is strictly positive, in order.
pub open spec fn positive_items(items: EntrySeq) -> EntrySeq
    decreases items.len(),
{
    if items.len() == 0 {
        Seq::empty()
    } else {
        let rest = positive_items(items.drop_last());
        if qv_is_positive(items.last().1) {
            rest.push(items.last())
        } else {
            rest
        }
    }
}

/// The report: one section per declared department that has at least one
/// shortfall entry of any sign, in declaration order, holding the strictly
/// positive entries of its group.
pub open spec fn spec_report(shortfall: EntrySeq, deps: Seq<Seq<char>>) -> Seq<SectionView>
    decreases deps.len(),
{
    if deps.len() == 0 {
        Seq::empty()
    } else {
        let rest = spec_report(shortfall, deps.drop_last());
        let grouped = group_items(shortfall, deps.last());
        if grouped.len() == 0 {
            rest
        } else {
            rest.push(
                SectionView { department: deps.last(), items: positive_items(grouped) },
            )
        }
    }
}

/// Only strictly positive quantities survive the filter.
pub proof fn lemma_positive_items(items: EntrySeq)
    ensures
        forall|i: int|
            0 <= i < positive_items(items).len() ==> qv_is_positive(
                (#[trigger] positive_items(items)[i]).1,
            ),
    decreases items.len(),
{
    if items.len() == 0 {
    } else {
        lemma_positive_items(items.drop_last());
        let rest = positive_items(items.drop_last());
        if qv_is_positive(items.last().1) {
            assert(positive_items(items) == rest.push(items.last()));
            assert forall|i: int| 0 <= i < positive_items(items).len() implies qv_is_positive(
                (#[trigger] positive_items(items)[i]).1,
            ) by {
                if i < rest.len() {
                    assert(positive_items(items)[i] == rest[i]);
                } else {
                    assert(positive_items(items)[i] == items.last());
                }
            }
        } else {
            assert(positive_items(items) == rest);
        }
    }
}

/// An item with a zero or negative quantity never appears anywhere in the
/// report.
pub proof fn lemma_report_positive(shortfall: EntrySeq, deps: Seq<Seq<char>>)
    ensures
        forall|i: int, j: int|
            #![trigger spec_report(shortfall, deps)[i].items[j]]
            0 <= i < spec_report(shortfall, deps).len() && 0 <= j < spec_report(
                shortfall,
                deps,
            )[i].items.len() ==> qv_is_positive(spec_report(shortfall, deps)[i].items[j].1),
    decreases deps.len(),
{
    if deps.len() == 0 {
    } else {
        lemma_report_positive(shortfall, deps.drop_last());
        lemma_positive_items(group_items(shortfall, deps.last()));
        let rest = spec_report(shortfall, deps.drop_last());
        let grouped = group_items(shortfall, deps.last());
        let full = spec_report(shortfall, deps);
        if grouped.len() == 0 {
            assert(full == rest);
            assert forall|i: int, j: int|
                0 <= i < full.len() && 0 <= j < full[i].items.len() implies qv_is_positive(
                (#[trigger] full[i].items[j]).1,
            ) by {
                assert(full[i] == rest[i]);
                assert(rest[i].items[j] == rest[i].items[j]);
            }
        } else {
            let sec = SectionView { department: deps.last(), items: positive_items(grouped) };
            assert(full == rest.push(sec));
            assert forall|i: int, j: int|
                0 <= i < full.len() && 0 <= j < full[i].items.len() implies qv_is_positive(
                (#[trigger] full[i].items[j]).1,
            ) by {
                if i < rest.len() {
                    assert(full[i] == rest[i]);
                    assert(rest[i].items[j] == rest[i].items[j]);
                } else {
                    assert(full[i] == sec);
                }
            }
        }
    }
}

/// Index of the first occurrence of `key` in `names` is in range, hits
/// `key`, and nothing before it does.
pub proof fn lemma_first_name_index(names: Seq<Seq<char>>, key: Seq<char>)
    requires
        name_listed(names, key),
    ensures
        0 <= crate::catalog::first_name_index(names, key) < names.len(),
        names[crate::catalog::first_name_index(names, key)] == key,
        forall|j: int| 0 <= j < crate::catalog::first_name_index(names, key) ==> names[j] != key,
    decreases names.len(),
{
    if names.len() == 0 {
    } else if names[0] == key {
    } else {
        let t = names.drop_first();
        assert(name_listed(t, key)) by {
            let i = choose|i: int| 0 <= i < names.len() && names[i] == key;
            assert(t[i - 1] == names[i]);
        }
        lemma_first_name_index(t, key);
        assert forall|j: int|
            1 <= j < 1 + crate::catalog::first_name_index(t, key) implies names[j] != key by {
            assert(names[j] == t[j - 1]);
        }
    }
}

/// With the last department dropped, first occurrences of the remaining
/// names do not move.
proof fn lemma_first_index_prefix(names: Seq<Seq<char>>, key: Seq<char>)
    requires
        names.len() > 0,
        name_listed(names.drop_last(), key),
    ensures
        crate::catalog::first_name_index(names, key) == crate::catalog::first_name_index(
            names.drop_last(),
            key,
        ),
    decreases names.len(),
{
    let p = names.drop_last();
    if names[0] == key {
    } else {
        assert(p[0] == names[0]);
        if p.len() == 1 {
            assert(p[0] == key);
        } else {
            assert(name_listed(p.drop_first(), key)) by {
                let i = choose|i: int| 0 <= i < p.len() && p[i] == key;
                assert(p.drop_first()[i - 1] == p[i]);
            }
            assert(names.drop_first().drop_last() =~= p.drop_first());
            assert(name_listed(names.drop_first().drop_last(), key));
            lemma_first_index_prefix(names.drop_first(), key);
        }
    }
}

/// Every section's department is a declared one, and sections stand in the
/// same relative order as their departments were declared.
pub proof fn lemma_report_department_order(shortfall: EntrySeq, deps: Seq<Seq<char>>)
    requires
        forall|i: int, j: int| 0 <= i < j < deps.len() ==> deps[i] != deps[j],
    ensures
        forall|i: int|
            0 <= i < spec_report(shortfall, deps).len() ==> name_listed(
                deps,
                (#[trigger] spec_report(shortfall, deps)[i]).department,
            ),
        forall|i: int, j: int|
            0 <= i < j < spec_report(shortfall, deps).len()
                ==> crate::catalog::first_name_index(
                deps,
                (#[trigger] spec_report(shortfall, deps)[i]).department,
            ) < crate::catalog::first_name_index(
                deps,
                (#[trigger] spec_report(shortfall, deps)[j]).department,
            ),
    decreases deps.len(),
{
    if deps.len() == 0 {
    } else {
        let p = deps.drop_last();
        let last = deps.last();
        lemma_report_department_order(shortfall, p);
        let prior = spec_report(shortfall, p);
        assert forall|i: int| 0 <= i < prior.len() implies name_listed(
            deps,
            (#[trigger] prior[i]).department,
        ) && crate::catalog::first_name_index(deps, prior[i].department)
            == crate::catalog::first_name_index(p, prior[i].department)
            && crate::catalog::first_name_index(deps, prior[i].department) < deps.len() - 1 by {
            let d = prior[i].department;
            let w = choose|w: int| 0 <= w < p.len() && p[w] == d;
            assert(deps[w] == d);
            lemma_first_index_prefix(deps, d);
            lemma_first_name_index(p, d);
        }
        if group_items(shortfall, last).len() == 0 {
        } else {
            assert(deps[deps.len() - 1] == last);
            lemma_first_name_index(deps, last);
            assert(crate::catalog::first_name_index(deps, last) == deps.len() - 1) by {
                let f = crate::catalog::first_name_index(deps, last);
                if f < deps.len() - 1 {
                    assert(deps[f] == deps[deps.len() - 1]);
                }
            }
        }
    }
}

/// Every quantity in the report is canonical and in range.
pub open spec fn report_wf(rep: Seq<SectionView>) -> bool {
    forall|i: int, j: int|
        #![trigger rep[i].items[j]]
        0 <= i < rep.len() && 0 <= j < rep[i].items.len() ==> qv_wf(rep[i].items[j].1)
            && qv_fits(rep[i].items[j].1)
}

/// Build the report from the shortfall and the declared departments.
pub fn build_report(shortfall: &IngredientMap, departments: &Vec<Department>) -> (r: Report)
    requires
        shortfall.wf(),
    ensures
        r@ == spec_report(shortfall@, dept_names(departments@)),
        report_wf(r@),
{
    let ghost deps = dept_names(departments@);
    let mut sections: Vec<Section> = Vec::new();
    let mut i: usize = 0;
    proof {
        assert(deps.subrange(0int, 0int) =~= Seq::<Seq<char>>::empty());
        assert(sections@.map_values(|s: Section| s@) =~= spec_report(
            shortfall@,
            deps.subrange(0int, 0int),
        ));
    }
    while i < departments.len()
        invariant
            0 <= i <= departments.len(),
            deps == dept_names(departments@),
            shortfall.wf(),
            sections@.map_values(|s: Section| s@) == spec_report(
                shortfall@,
                deps.subrange(0, i as int),
            ),
            report_wf(sections@.map_values(|s: Section| s@)),
        decreases departments.len() - i,
    {
        let dep = &departments[i];
        let n = shortfall.len();
        let mut items: Vec<(Product, RQuantity)> = Vec::new();
        let mut seen_any = false;
        let mut j: usize = 0;
        proof {
            assert(shortfall@.subrange(0int, 0int) =~= Seq::<
                (ProductView, QuantityView),
            >::empty());
            assert(pair_views(items@) =~= positive_items(
                group_items(shortfall@.subrange(0int, 0int), dep@),
            ));
        }
        while j < n
            invariant
                0 <= j <= n == shortfall@.len(),
                shortfall.wf(),
                seen_any == (group_items(shortfall@.subrange(0, j as int), dep@).len() != 0),
                pair_views(items@) == positive_items(
                    group_items(shortfall@.subrange(0, j as int), dep@),
                ),
                forall|k: int|
                    0 <= k < items@.len() ==> qv_wf((#[trigger] pair_views(items@)[k]).1)
                        && qv_fits(pair_views(items@)[k].1),
            decreases n - j,
        {
            let e = shortfall.entry_at(j);
            let ghost pre = shortfall@.subrange(0, j as int);
            let ghost g = group_items(pre, dep@);
            proof {
                assert(shortfall@.subrange(0, j + 1).drop_last() =~= pre);
                assert(shortfall@.subrange(0, j + 1).last() == shortfall@[j as int]);
            }
            if e.0.department.name == dep.name {
                proof {
                    assert(shortfall@[j as int].0.department == dep@);
                    assert(group_items(shortfall@.subrange(0, j + 1), dep@) == g.push(
                        shortfall@[j as int],
                    ));
                    assert(g.push(shortfall@[j as int]).drop_last() =~= g);
                    assert(g.push(shortfall@[j as int]).last() == shortfall@[j as int]);
                }
                seen_any = true;
                if e.1.is_positive() {
                    let ghost items_before = items@;
                    items.push((e.0.duplicate(), e.1));
                    proof {
                        assert(qv_wf(shortfall@[j as int].1) && qv_fits(shortfall@[j as int].1));
                        assert(items@.drop_last() =~= items_before);
                        assert(pair_views(items@) =~= pair_views(items_before).push(
                            (shortfall@[j as int].0, shortfall@[j as int].1),
                        ));
                        assert(qv_is_positive(shortfall@[j as int].1));
                        assert(positive_items(g.push(shortfall@[j as int])) == positive_items(
                            g,
                        ).push(shortfall@[j as int]));
                        assert(pair_views(items@) =~= positive_items(
                            group_items(shortfall@.subrange(0, j + 1), dep@),
                        ));
                    }
                } else {
                    proof {
                        assert(!qv_is_positive(shortfall@[j as int].1));
                        assert(positive_items(g.push(shortfall@[j as int])) == positive_items(g));
                        assert(pair_views(items@) =~= positive_items(
                            group_items(shortfall@.subrange(0, j + 1), dep@),
                        ));
                    }
                }
            } else {
                proof {
                    assert(shortfall@[j as int].0.department != dep@);
                    assert(group_items(shortfall@.subrange(0, j + 1), dep@) == g);
                    assert(pair_views(items@) =~= positive_items(
                        group_items(shortfall@.subrange(0, j + 1), dep@),
                    ));
                }
            }
            j += 1;
        }
        proof {
            assert(shortfall@.subrange(0, n as int) =~= shortfall@);
            assert(deps.subrange(0, i + 1).drop_last() =~= deps.subrange(0, i as int));
            assert(deps.subrange(0, i + 1).last() == deps[i as int]);
            assert(dep@ == deps[i as int]);
        }
        if seen_any {
            let section = Section { department: Department { name: dep.name.clone() }, items };
            let ghost sections_before = sections@;
            sections.push(section);
            proof {
                assert(sections@.drop_last() =~= sections_before);
                assert(sections@.map_values(|s: Section| s@) =~= sections_before.map_values(
                    |s: Section| s@,
                ).push(sections@.last()@));
                assert(sections@.map_values(|s: Section| s@) =~= spec_report(
                    shortfall@,
                    deps.subrange(0, i + 1),
                ));
            }
        } else {
            proof {
                assert(sections@.map_values(|s: Section| s@) =~= spec_report(
                    shortfall@,
                    deps.subrange(0, i + 1),
                ));
            }
        }
        i += 1;
    }
    proof {
        assert(deps.subrange(0, i as int) =~= deps);
    }
    Report { sections }
}

/// The line an item renders as: the quantity token, a space, the product's
/// name.
pub open spec fn spec_item_line(e: (ProductView, QuantityView)) -> Seq<char> {
    crate::token::spec_render(e.1) + seq![' '] + e.0.name
}

/// The lines of one section: its heading, then one line per item.
pub open spec fn spec_section_lines(s: SectionView) -> Seq<Seq<char>> {
    seq![seq!['#', '#', ' '] + s.department] + s.items.map_values(
        |e: (ProductView, QuantityView)| spec_item_line(e),
    )
}

/// The lines of the whole report, section after section.
pub open spec fn spec_report_lines(rep: Seq<SectionView>) -> Seq<Seq<char>>
    decreases rep.len(),
{
    if rep.len() == 0 {
        Seq::empty()
    } else {
        spec_report_lines(rep.drop_last()) + spec_section_lines(rep.last())
    }
}

/// Render one section into its lines.
fn section_lines(s: &Section) -> (r: Vec<String>)
    requires
        forall|j: int|
            0 <= j < s@.items.len() ==> qv_wf((#[trigger] s@.items[j]).1) && qv_fits(
                s@.items[j].1,
            ),
    ensures
        r@.map_values(|l: String| l@) == spec_section_lines(s@),
{
    let mut out: Vec<String> = Vec::new();
    let mut heading = String::new();
    proof {
        reveal_strlit("## ");
        assert("## "@ =~= seq!['#', '#', ' ']);
        reveal_strlit(" ");
        assert(" "@ =~= seq![' ']);
    }
    heading.append("## ");
    heading.append(s.department.name.as_str());
    out.push(heading);
    let n = s.items.len();
    let mut j: usize = 0;
    proof {
        assert(out@.map_values(|l: String| l@) =~~= seq![seq!['#', '#', ' '] + s@.department]
            + s@.items.subrange(0int, 0int).map_values(
            |e: (ProductView, QuantityView)| spec_item_line(e),
        ));
    }
    while j < n
        invariant
            0 <= j <= n == s.items@.len(),
            forall|k: int|
                0 <= k < s@.items.len() ==> qv_wf((#[trigger] s@.items[k]).1) && qv_fits(
                    s@.items[k].1,
                ),
            out@.map_values(|l: String| l@) == seq![seq!['#', '#', ' '] + s@.department]
                + s@.items.subrange(0, j as int).map_values(
                |e: (ProductView, QuantityView)| spec_item_line(e),
            ),
        decreases n - j,
    {
        let e = &s.items[j];
        proof {
            assert(s@.items[j as int] == (e.0@, e.1@));
            reveal_strlit(" ");
            assert(" "@ =~= seq![' ']);
        }
        let mut line = e.1.render();
        line.append(" ");
        line.append(e.0.name.as_str());
        let ghost out_before = out@;
        out.push(line);
        proof {
            assert(out@.drop_last() =~= out_before);
            assert(out@.last()@ == spec_item_line(s@.items[j as int]));
            assert(s@.items.subrange(0, j + 1).drop_last() =~= s@.items.subrange(0, j as int));
            let ghost lhs = out@.map_values(|l: String| l@);
            let ghost rhs = seq![seq!['#', '#', ' '] + s@.department] + s@.items.subrange(
                0,
                j + 1,
            ).map_values(|e: (ProductView, QuantityView)| spec_item_line(e));
            let ghost prev = out_before.map_values(|l: String| l@);
            assert(out@.len() == out_before.len() + 1);
            assert(prev.len() == out_before.len());
            assert(prev.len() == 1 + j);
            assert(s@.items.len() == n);
            assert(lhs.len() == rhs.len());
            assert forall|k: int| 0 <= k < lhs.len() implies lhs[k] == rhs[k] by {
                if k < out_before.len() {
                    assert(out@[k] == out_before[k]);
                    assert(lhs[k] == out_before[k]@);
                    assert(prev[k] == out_before[k]@);
                    if k == 0 {
                        assert(rhs[k] == seq!['#', '#', ' '] + s@.department);
                    } else {
                        assert(rhs[k] == spec_item_line(s@.items.subrange(0, j + 1)[k - 1]));
                        assert(prev[k] == spec_item_line(s@.items.subrange(0, j as int)[k - 1]));
                        assert(s@.items.subrange(0, j + 1)[k - 1] == s@.items[k - 1]);
                        assert(s@.items.subrange(0, j as int)[k - 1] == s@.items[k - 1]);
                    }
                } else {
                    assert(lhs[k] == out@.last()@);
                    assert(rhs[k] == spec_item_line(s@.items.subrange(0, j + 1)[k - 1]));
                }
            }
            assert(lhs =~= rhs);
        }
        j += 1;
    }
    proof {
        assert(s@.items.subrange(0, n as int) =~= s@.items);
    }
    out
}

/// Render the report into its lines: each section's heading, then the lines
/// of its items, in report order.
pub fn report_lines(rep: &Report) -> (r: Vec<String>)
    requires
        report_wf(rep@),
    ensures
        r@.map_values(|l: String| l@) == spec_report_lines(rep@),
{
    let mut out: Vec<String> = Vec::new();
    let n = rep.sections.len();
    let mut i: usize = 0;
    proof {
        assert(rep@.subrange(0int, 0int) =~= Seq::<SectionView>::empty());
        assert(out@.map_values(|l: String| l@) =~~= spec_report_lines(rep@.subrange(0int, 0int)));
    }
    while i < n
        invariant
            0 <= i <= n == rep.sections@.len(),
            report_wf(rep@),
            out@.map_values(|l: String| l@) == spec_report_lines(rep@.subrange(0, i as int)),
        decreases n - i,
    {
        let sec = &rep.sections[i];
        proof {
            assert(rep@[i as int] == sec@);
            assert forall|k: int| 0 <= k < sec@.items.len() implies qv_wf(
                (#[trigger] sec@.items[k]).1,
            ) && qv_fits(sec@.items[k].1) by {
                assert(rep@[i as int].items[k] == sec@.items[k]);
            }
        }
        let mut lines = section_lines(sec);
        let ghost lines_view = lines@;
        let ghost out_before = out@;
        out.append(&mut lines);
        proof {
            assert(rep@.subrange(0, i + 1).drop_last() =~= rep@.subrange(0, i as int));
            assert(rep@.subrange(0, i + 1).last() == rep@[i as int]);
            assert(out@ == out_before + lines_view);
            assert(out@.map_values(|l: String| l@) =~~= out_before.map_values(|l: String| l@)
                + lines_view.map_values(|l: String| l@));
            assert(out@.map_values(|l: String| l@) =~~= spec_report_lines(
                rep@.subrange(0, i + 1),
            ));
        }
        i += 1;
    }
    proof {
        assert(rep@.subrange(0, n as int) =~= rep@);
    }
    out
}

} // verus!
