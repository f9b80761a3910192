//! Month matrices: every entity of one kind as a row, one cell per requested
//! month, each cell holding the counterpart entities assigned in that month.
use vstd::prelude::*;

use crate::domain::{dedup, project_views, resource_views, select, Assignment, AssignmentFilter, Project, Resource};
use crate::month::MonthScalar;
use crate::resolver::KeyResolver;

verus! {

/// The id that places `a` in a row: its project when rows are projects, else
/// its resource.
pub open spec fn row_id_of(a: Assignment, by_project: bool) -> u128 {
    if by_project {
        a.project_id
    } else {
        a.resource_id
    }
}

/// The id of the counterpart that `a` puts into a cell.
pub open spec fn counterpart_of(a: Assignment, by_project: bool) -> u128 {
    if by_project {
        a.resource_id
    } else {
        a.project_id
    }
}

/// Counterpart ids of the rows of `scanned` that fall in row `row_id` and month
/// `m`, in scan order.
pub open spec fn cell_ids(scanned: Seq<Assignment>, by_project: bool, row_id: u128, m: MonthScalar) -> Seq<u128>
    decreases scanned.len(),
{
    if scanned.len() == 0 {
        Seq::empty()
    } else {
        let prev = cell_ids(scanned.drop_last(), by_project, row_id, m);
        let a = scanned.last();
        if row_id_of(a, by_project) == row_id && a.in_month(m) {
            prev.push(counterpart_of(a, by_project))
        } else {
            prev
        }
    }
}

/// The entities that `known` resolves `ids` to, in order; ids that resolved to
/// not-found, or were never resolved, are left out.
pub open spec fn resolved_entities(ids: Seq<u128>, known: Map<u128, Option<Seq<char>>>) -> Seq<(u128, Seq<char>)>
    decreases ids.len(),
{
    if ids.len() == 0 {
        Seq::empty()
    } else {
        let prev = resolved_entities(ids.drop_last(), known);
        let k = ids.last();
        if known.contains_key(k) && known[k] is Some {
            prev.push((k, known[k]->Some_0))
        } else {
            prev
        }
    }
}

/// The resources assigned to one project in one month.
pub struct ProjectMonthCell {
    pub resources: Vec<Resource>,
}

/// A project and its cells, one per requested month.
pub struct ProjectMonthMatrixRow {
    pub project: Project,
    pub cells: Vec<ProjectMonthCell>,
}

/// Every project against the requested months.
pub struct ProjectMonthMatrix {
    pub months: Vec<MonthScalar>,
    pub rows: Vec<ProjectMonthMatrixRow>,
}

/// The projects assigned to one resource in one month.
pub struct ResourceMonthCell {
    pub projects: Vec<Project>,
}

/// A resource and its cells, one per requested month.
pub struct ResourceMonthMatrixRow {
    pub resource: Resource,
    pub cells: Vec<ResourceMonthCell>,
}

/// Every resource against the requested months.
pub struct ResourceMonthMatrix {
    pub months: Vec<MonthScalar>,
    pub rows: Vec<ResourceMonthMatrixRow>,
}

/// `row` shows project `p` with one cell per month of `months`, each holding the
/// resolved resources that `scanned` assigns to `p` in that month.
pub open spec fn project_row_ok(
    row: ProjectMonthMatrixRow,
    p: Project,
    months: Seq<MonthScalar>,
    scanned: Seq<Assignment>,
    known: Map<u128, Option<Seq<char>>>,
) -> bool {
    &&& row.project@ == p@
    &&& row.cells@.len() == months.len()
    &&& forall|j: int|
        0 <= j < months.len() ==> resource_views(#[trigger] row.cells@[j].resources@)
            == resolved_entities(cell_ids(scanned, true, p.id, months[j]), known)
}

/// `row` shows resource `r` with one cell per month of `months`, each holding the
/// resolved projects that `scanned` assigns `r` to in that month.
pub open spec fn resource_row_ok(
    row: ResourceMonthMatrixRow,
    r: Resource,
    months: Seq<MonthScalar>,
    scanned: Seq<Assignment>,
    known: Map<u128, Option<Seq<char>>>,
) -> bool {
    &&& row.resource@ == r@
    &&& row.cells@.len() == months.len()
    &&& forall|j: int|
        0 <= j < months.len() ==> project_views(#[trigger] row.cells@[j].projects@)
            == resolved_entities(cell_ids(scanned, false, r.id, months[j]), known)
}

/// The requested months without repeats, in order of first request: one scan
/// of the assignments is needed for each.
pub fn distinct_months(months: &Vec<MonthScalar>) -> (r: Vec<MonthScalar>)
    ensures
        r@ == dedup(months@),
{
    let mut out: Vec<MonthScalar> = Vec::new();
    let mut i: usize = 0;
    while i < months.len()
        invariant
            i <= months.len(),
            out@ == dedup(months@.subrange(0, i as int)),
        decreases months.len() - i,
    {
        let m = months[i];
        let mut seen = false;
        let mut j: usize = 0;
        while j < out.len()
            invariant
                j <= out.len(),
                seen <==> exists|k: int| 0 <= k < j && out@[k] == m,
            decreases out.len() - j,
        {
            if out[j] == m {
                seen = true;
            }
            j = j + 1;
        }
        proof {
            let s = months@.subrange(0, i + 1);
            assert(s.drop_last() =~= months@.subrange(0, i as int));
            assert(s.last() == m);
            if seen {
                let k = choose|k: int| 0 <= k < out.len() && out@[k] == m;
                assert(out@.contains(m));
            } else {
                assert(!out@.contains(m));
            }
        }
        if !seen {
            out.push(m);
        }
        i = i + 1;
    }
    proof {
        assert(months@.subrange(0, months.len() as int) =~= months@);
    }
    out
}

/// The counterpart id of every scanned assignment, in scan order.
pub fn counterpart_ids(scanned: &Vec<Assignment>, by_project: bool) -> (r: Vec<u128>)
    ensures
        r@ == scanned@.map_values(|a: Assignment| counterpart_of(a, by_project)),
{
    let mut out: Vec<u128> = Vec::new();
    let mut i: usize = 0;
    while i < scanned.len()
        invariant
            i <= scanned.len(),
            out@ == scanned@.subrange(0, i as int).map_values(|a: Assignment| counterpart_of(a, by_project)),
        decreases scanned.len() - i,
    {
        let a = scanned[i];
        let id = if by_project { a.resource_id } else { a.project_id };
        out.push(id);
        i = i + 1;
        proof {
            assert(out@ =~= scanned@.subrange(0, i as int).map_values(
                |a: Assignment| counterpart_of(a, by_project),
            ));
        }
    }
    proof {
        assert(scanned@.subrange(0, scanned.len() as int) =~= scanned@);
    }
    out
}

/// Counterpart ids of the scanned assignments in row `row_id` and month `m`.
pub fn cell_ids_of(scanned: &Vec<Assignment>, by_project: bool, row_id: u128, m: MonthScalar) -> (r: Vec<u128>)
    ensures
        r@ == cell_ids(scanned@, by_project, row_id, m),
{
    let mut out: Vec<u128> = Vec::new();
    let mut i: usize = 0;
    while i < scanned.len()
        invariant
            i <= scanned.len(),
            out@ == cell_ids(scanned@.subrange(0, i as int), by_project, row_id, m),
        decreases scanned.len() - i,
    {
        proof {
            let s = scanned@.subrange(0, i + 1);
            assert(s.drop_last() =~= scanned@.subrange(0, i as int));
        }
        let a = scanned[i];
        let row = if by_project { a.project_id } else { a.resource_id };
        if row == row_id && a.year == m.year && a.month == m.month as i32 {
            let id = if by_project { a.resource_id } else { a.project_id };
            out.push(id);
        }
        i = i + 1;
    }
    proof {
        assert(scanned@.subrange(0, scanned.len() as int) =~= scanned@);
    }
    out
}

/// The resources that `known` resolves `ids` to, in order.
pub fn resources_of(ids: &Vec<u128>, known: &KeyResolver) -> (r: Vec<Resource>)
    ensures
        resource_views(r@) == resolved_entities(ids@, known.resolved()),
{
    let mut out: Vec<Resource> = Vec::new();
    let mut i: usize = 0;
    while i < ids.len()
        invariant
            i <= ids.len(),
            resource_views(out@) == resolved_entities(ids@.subrange(0, i as int), known.resolved()),
        decreases ids.len() - i,
    {
        proof {
            let s = ids@.subrange(0, i + 1);
            assert(s.drop_last() =~= ids@.subrange(0, i as int));
        }
        let id = ids[i];
        let ghost before = out@;
        match known.get(id) {
            Some(Some(name)) => {
                out.push(Resource { id, name });
                proof {
                    assert(resource_views(out@) =~= resource_views(before).push(out@.last()@));
                }
            },
            _ => {},
        }
        i = i + 1;
    }
    proof {
        assert(ids@.subrange(0, ids.len() as int) =~= ids@);
    }
    out
}

/// The projects that `known` resolves `ids` to, in order.
pub fn projects_of(ids: &Vec<u128>, known: &KeyResolver) -> (r: Vec<Project>)
    ensures
        project_views(r@) == resolved_entities(ids@, known.resolved()),
{
    let mut out: Vec<Project> = Vec::new();
    let mut i: usize = 0;
    while i < ids.len()
        invariant
            i <= ids.len(),
            project_views(out@) == resolved_entities(ids@.subrange(0, i as int), known.resolved()),
        decreases ids.len() - i,
    {
        proof {
            let s = ids@.subrange(0, i + 1);
            assert(s.drop_last() =~= ids@.subrange(0, i as int));
        }
        let id = ids[i];
        let ghost before = out@;
        match known.get(id) {
            Some(Some(name)) => {
                out.push(Project { id, name });
                proof {
                    assert(project_views(out@) =~= project_views(before).push(out@.last()@));
                }
            },
            _ => {},
        }
        i = i + 1;
    }
    proof {
        assert(ids@.subrange(0, ids.len() as int) =~= ids@);
    }
    out
}

/// Pivots the scanned assignments into the project matrix: one row per project
/// in the given order, one cell per requested month (repeats kept), each cell
/// the resources that the resolver knows for the assignments of that project
/// and month.
pub fn build_project_matrix(
    months: Vec<MonthScalar>,
    projects: &Vec<Project>,
    scanned: &Vec<Assignment>,
    known: &KeyResolver,
) -> (r: ProjectMonthMatrix)
    ensures
        r.months@ == months@,
        r.rows@.len() == projects@.len(),
        forall|i: int|
            0 <= i < projects@.len() ==> project_row_ok(
                #[trigger] r.rows@[i],
                projects@[i],
                months@,
                scanned@,
                known.resolved(),
            ),
{
    let mut rows: Vec<ProjectMonthMatrixRow> = Vec::new();
    let mut i: usize = 0;
    while i < projects.len()
        invariant
            i <= projects.len(),
            rows@.len() == i,
            forall|k: int|
                0 <= k < i ==> project_row_ok(#[trigger] rows@[k], projects@[k], months@, scanned@, known.resolved()),
        decreases projects.len() - i,
    {
        let p = &projects[i];
        let mut cells: Vec<ProjectMonthCell> = Vec::new();
        let mut j: usize = 0;
        while j < months.len()
            invariant
                j <= months.len(),
                cells@.len() == j,
                forall|c: int|
                    0 <= c < j ==> resource_views(#[trigger] cells@[c].resources@) == resolved_entities(
                        cell_ids(scanned@, true, p.id, months@[c]),
                        known.resolved(),
                    ),
            decreases months.len() - j,
        {
            let ids = cell_ids_of(scanned, true, p.id, months[j]);
            let resources = resources_of(&ids, known);
            cells.push(ProjectMonthCell { resources });
            j = j + 1;
        }
        rows.push(ProjectMonthMatrixRow { project: p.duplicate(), cells });
        i = i + 1;
    }
    ProjectMonthMatrix { months, rows }
}

/// Pivots the scanned assignments into the resource matrix: one row per
/// resource in the given order, one cell per requested month (repeats kept),
/// each cell the projects that the resolver knows for the assignments of that
/// resource and month.
pub fn build_resource_matrix(
    months: Vec<MonthScalar>,
    resources: &Vec<Resource>,
    scanned: &Vec<Assignment>,
    known: &KeyResolver,
) -> (r: ResourceMonthMatrix)
    ensures
        r.months@ == months@,
        r.rows@.len() == resources@.len(),
        forall|i: int|
            0 <= i < resources@.len() ==> resource_row_ok(
                #[trigger] r.rows@[i],
                resources@[i],
                months@,
                scanned@,
                known.resolved(),
            ),
{
    let mut rows: Vec<ResourceMonthMatrixRow> = Vec::new();
    let mut i: usize = 0;
    while i < resources.len()
        invariant
            i <= resources.len(),
            rows@.len() == i,
            forall|k: int|
                0 <= k < i ==> resource_row_ok(#[trigger] rows@[k], resources@[k], months@, scanned@, known.resolved()),
        decreases resources.len() - i,
    {
        let res = &resources[i];
        let mut cells: Vec<ResourceMonthCell> = Vec::new();
        let mut j: usize = 0;
        while j < months.len()
            invariant
                j <= months.len(),
                cells@.len() == j,
                forall|c: int|
                    0 <= c < j ==> project_views(#[trigger] cells@[c].projects@) == resolved_entities(
                        cell_ids(scanned@, false, res.id, months@[c]),
                        known.resolved(),
                    ),
            decreases months.len() - j,
        {
            let ids = cell_ids_of(scanned, false, res.id, months[j]);
            let projects = projects_of(&ids, known);
            cells.push(ResourceMonthCell { projects });
            j = j + 1;
        }
        rows.push(ResourceMonthMatrixRow { resource: res.duplicate(), cells });
        i = i + 1;
    }
    ResourceMonthMatrix { months, rows }
}

/// Cells of concatenated scans are the concatenated cells.
pub proof fn lemma_cell_ids_concat(s1: Seq<Assignment>, s2: Seq<Assignment>, by_project: bool, row_id: u128, m: MonthScalar)
    ensures
        cell_ids(s1 + s2, by_project, row_id, m) == cell_ids(s1, by_project, row_id, m) + cell_ids(
            s2,
            by_project,
            row_id,
            m,
        ),
    decreases s2.len(),
{
    if s2.len() == 0 {
        assert(s1 + s2 =~= s1);
        assert(cell_ids(s1, by_project, row_id, m) + cell_ids(s2, by_project, row_id, m) =~= cell_ids(
            s1,
            by_project,
            row_id,
            m,
        ));
    } else {
        assert((s1 + s2).drop_last() =~= s1 + s2.drop_last());
        assert((s1 + s2).last() == s2.last());
        lemma_cell_ids_concat(s1, s2.drop_last(), by_project, row_id, m);
        let a = cell_ids(s1, by_project, row_id, m);
        let b = cell_ids(s2.drop_last(), by_project, row_id, m);
        assert((a + b).push(counterpart_of(s2.last(), by_project)) =~= a + b.push(
            counterpart_of(s2.last(), by_project),
        ));
    }
}

/// A scan of month `scan` contributes to the cells of month `m` exactly when
/// the two months are the same, and then it contributes all of them.
pub proof fn lemma_cell_ids_of_month_scan(rows: Seq<Assignment>, scan: MonthScalar, by_project: bool, row_id: u128, m: MonthScalar)
    ensures
        cell_ids(select(rows, AssignmentFilter::for_month_spec(scan)), by_project, row_id, m) == (if scan
            == m {
            cell_ids(rows, by_project, row_id, m)
        } else {
            Seq::<u128>::empty()
        }),
    decreases rows.len(),
{
    if rows.len() > 0 {
        lemma_cell_ids_of_month_scan(rows.drop_last(), scan, by_project, row_id, m);
        let a = rows.last();
        let f = AssignmentFilter::for_month_spec(scan);
        let sel = select(rows, f);
        if a.in_month(scan) && a.in_month(m) {
            assert(scan.year == m.year);
            assert(scan.month == m.month);
            assert(scan == m);
        }
        if f.admits(a) {
            assert(sel.drop_last() =~= select(rows.drop_last(), f));
            assert(sel.last() == a);
        } else {
            assert(sel == select(rows.drop_last(), f));
        }
    }
}

} // verus!
