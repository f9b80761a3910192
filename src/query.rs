//! Read operations over a store: entity lists, assignment lists, lookups by
//! id, and the two month matrices.
use vstd::prelude::*;

use crate::domain::{dedup, lemma_dedup, project_views, resource_views, select, Assignment, AssignmentFilter, Project, Resource};
use crate::matrix::{
    build_project_matrix, build_resource_matrix, cell_ids, counterpart_ids, counterpart_of, distinct_months,
    lemma_cell_ids_concat, lemma_cell_ids_of_month_scan, resolved_entities, ProjectMonthMatrix,
    ProjectMonthMatrixRow, ResourceMonthMatrix, ResourceMonthMatrixRow,
};
use crate::month::MonthScalar;
use crate::resolver::{found_name, lemma_first_batch_is_distinct_ids, pair_views, KeyResolver};
use crate::store::{with_ids, MemoryStore};

verus! {

/// The entities that `es` holds for `ids`, in the order of `ids`; ids with no
/// stored entity are left out.
pub open spec fn named_entities(ids: Seq<u128>, es: Seq<(u128, Seq<char>)>) -> Seq<(u128, Seq<char>)>
    decreases ids.len(),
{
    if ids.len() == 0 {
        Seq::empty()
    } else {
        let prev = named_entities(ids.drop_last(), es);
        match found_name(es, ids.last()) {
            Some(n) => prev.push((ids.last(), n)),
            None => prev,
        }
    }
}

/// `row` shows project `p` with one cell per month of `months`, each holding
/// the stored resources assigned to `p` in that month, in storage order.
pub open spec fn project_row_in_store(
    row: ProjectMonthMatrixRow,
    p: (u128, Seq<char>),
    months: Seq<MonthScalar>,
    rows: Seq<Assignment>,
    resources: Seq<(u128, Seq<char>)>,
) -> bool {
    &&& row.project@ == p
    &&& row.cells@.len() == months.len()
    &&& forall|j: int|
        0 <= j < months.len() ==> resource_views(#[trigger] row.cells@[j].resources@) == named_entities(
            cell_ids(rows, true, p.0, months[j]),
            resources,
        )
}

/// `row` shows resource `r` with one cell per month of `months`, each holding
/// the stored projects that `r` is assigned to in that month, in storage order.
pub open spec fn resource_row_in_store(
    row: ResourceMonthMatrixRow,
    r: (u128, Seq<char>),
    months: Seq<MonthScalar>,
    rows: Seq<Assignment>,
    projects: Seq<(u128, Seq<char>)>,
) -> bool {
    &&& row.resource@ == r
    &&& row.cells@.len() == months.len()
    &&& forall|j: int|
        0 <= j < months.len() ==> project_views(#[trigger] row.cells@[j].projects@) == named_entities(
            cell_ids(rows, false, r.0, months[j]),
            projects,
        )
}

proof fn lemma_resolved_as_stored(ids: Seq<u128>, known: Map<u128, Option<Seq<char>>>, es: Seq<(u128, Seq<char>)>)
    requires
        forall|k: u128| #[trigger]
            ids.contains(k) ==> known.contains_key(k) && known[k] == found_name(es, k),
    ensures
        resolved_entities(ids, known) == named_entities(ids, es),
    decreases ids.len(),
{
    if ids.len() > 0 {
        let p = ids.drop_last();
        assert forall|k: u128| #[trigger] p.contains(k) implies known.contains_key(k) && known[k] == found_name(es, k) by {
            let i = choose|i: int| 0 <= i < p.len() && p[i] == k;
            assert(ids[i] == k);
            assert(ids.contains(k));
        }
        lemma_resolved_as_stored(p, known, es);
        assert(ids[ids.len() - 1] == ids.last());
        assert(ids.contains(ids.last()));
    }
}

proof fn lemma_cell_ids_are_counterparts(scanned: Seq<Assignment>, by_project: bool, row_id: u128, m: MonthScalar, k: u128)
    requires
        cell_ids(scanned, by_project, row_id, m).contains(k),
    ensures
        scanned.map_values(|a: Assignment| counterpart_of(a, by_project)).contains(k),
    decreases scanned.len(),
{
    let cps = scanned.map_values(|a: Assignment| counterpart_of(a, by_project));
    let p = scanned.drop_last();
    let c = cell_ids(p, by_project, row_id, m);
    if c.contains(k) {
        lemma_cell_ids_are_counterparts(p, by_project, row_id, m, k);
        let pc = p.map_values(|a: Assignment| counterpart_of(a, by_project));
        let i = choose|i: int| 0 <= i < pc.len() && pc[i] == k;
        assert(cps[i] == k);
    } else {
        let full = cell_ids(scanned, by_project, row_id, m);
        let i = choose|i: int| 0 <= i < full.len() && full[i] == k;
        if i < c.len() {
            assert(c[i] == k);
        }
        assert(cps[scanned.len() - 1] == k);
    }
}

proof fn lemma_found_among_ids(es: Seq<(u128, Seq<char>)>, ids: Seq<u128>, k: u128)
    requires
        ids.contains(k),
    ensures
        found_name(with_ids(es, ids), k) == found_name(es, k),
    decreases es.len(),
{
    if es.len() > 0 {
        lemma_found_among_ids(es.drop_last(), ids, k);
        let prev = with_ids(es.drop_last(), ids);
        let w = with_ids(es, ids);
        if ids.contains(es.last().0) {
            assert(w == prev.push(es.last()));
            assert(w.drop_last() =~= prev);
            assert(w.last() == es.last());
        } else {
            assert(w == prev);
        }
    }
}

/// Scans the assignments once per month of `distinct`; in the result each
/// cell of a scanned month holds what it holds over all stored assignments,
/// and cells of other months are empty.
fn scan_months(store: &MemoryStore, distinct: &Vec<MonthScalar>) -> (r: Vec<Assignment>)
    requires
        distinct@.no_duplicates(),
    ensures
        forall|by_project: bool, id: u128, m: MonthScalar| #[trigger]
            cell_ids(r@, by_project, id, m) == (if distinct@.contains(m) {
                cell_ids(store.stored_assignments(), by_project, id, m)
            } else {
                Seq::<u128>::empty()
            }),
{
    let ghost rows = store.stored_assignments();
    let mut scanned: Vec<Assignment> = Vec::new();
    let mut t: usize = 0;
    while t < distinct.len()
        invariant
            t <= distinct@.len(),
            distinct@.no_duplicates(),
            rows == store.stored_assignments(),
            forall|by_project: bool, id: u128, m: MonthScalar| #[trigger]
                cell_ids(scanned@, by_project, id, m) == (if distinct@.subrange(0, t as int).contains(m) {
                    cell_ids(rows, by_project, id, m)
                } else {
                    Seq::<u128>::empty()
                }),
        decreases distinct@.len() - t,
    {
        let m = distinct[t];
        let f = AssignmentFilter::for_month(m);
        let mut part = store.list_assignments(&f);
        let ghost before = scanned@;
        let ghost part_v = part@;
        scanned.append(&mut part);
        proof {
            let done = distinct@.subrange(0, t as int);
            let next = distinct@.subrange(0, t + 1);
            assert forall|by_project: bool, id: u128, q: MonthScalar| #[trigger]
                cell_ids(scanned@, by_project, id, q) == (if next.contains(q) {
                    cell_ids(rows, by_project, id, q)
                } else {
                    Seq::<u128>::empty()
                }) by {
                lemma_cell_ids_concat(before, part_v, by_project, id, q);
                lemma_cell_ids_of_month_scan(rows, m, by_project, id, q);
                assert(cell_ids(before, by_project, id, q) == (if done.contains(q) {
                    cell_ids(rows, by_project, id, q)
                } else {
                    Seq::<u128>::empty()
                }));
                if done.contains(q) {
                    let i = choose|i: int| 0 <= i < done.len() && done[i] == q;
                    assert(next[i] == q);
                    assert(distinct@[i] == q);
                    assert(m != q);
                    assert(cell_ids(rows, by_project, id, q) + Seq::<u128>::empty() =~= cell_ids(rows, by_project, id, q));
                } else if q == m {
                    assert(next[t as int] == q);
                    assert(Seq::<u128>::empty() + cell_ids(rows, by_project, id, q) =~= cell_ids(rows, by_project, id, q));
                } else {
                    if next.contains(q) {
                        let i = choose|i: int| 0 <= i < next.len() && next[i] == q;
                        if i < t {
                            assert(done[i] == q);
                        }
                    }
                    assert(Seq::<u128>::empty() + Seq::<u128>::empty() =~= Seq::<u128>::empty());
                }
            }
        }
        t = t + 1;
    }
    proof {
        assert(distinct@.subrange(0, distinct@.len() as int) =~= distinct@);
    }
    scanned
}

/// The pairs of identifier and name of `es`.
fn resource_pairs(es: Vec<Resource>) -> (r: Vec<(u128, String)>)
    ensures
        pair_views(r@) == resource_views(es@),
{
    let mut out: Vec<(u128, String)> = Vec::new();
    let mut i: usize = 0;
    while i < es.len()
        invariant
            i <= es@.len(),
            pair_views(out@) == resource_views(es@.subrange(0, i as int)),
        decreases es@.len() - i,
    {
        let ghost before = out@;
        out.push((es[i].id, es[i].name.clone()));
        proof {
            assert(pair_views(out@) =~= pair_views(before).push(es@[i as int]@));
            assert(resource_views(es@.subrange(0, i + 1)) =~= resource_views(es@.subrange(0, i as int)).push(es@[i as int]@));
        }
        i = i + 1;
    }
    proof {
        assert(es@.subrange(0, i as int) =~= es@);
    }
    out
}

/// The pairs of identifier and name of `es`.
fn project_pairs(es: Vec<Project>) -> (r: Vec<(u128, String)>)
    ensures
        pair_views(r@) == project_views(es@),
{
    let mut out: Vec<(u128, String)> = Vec::new();
    let mut i: usize = 0;
    while i < es.len()
        invariant
            i <= es@.len(),
            pair_views(out@) == project_views(es@.subrange(0, i as int)),
        decreases es@.len() - i,
    {
        let ghost before = out@;
        out.push((es[i].id, es[i].name.clone()));
        proof {
            assert(pair_views(out@) =~= pair_views(before).push(es@[i as int]@));
            assert(project_views(es@.subrange(0, i + 1)) =~= project_views(es@.subrange(0, i as int)).push(es@[i as int]@));
        }
        i = i + 1;
    }
    proof {
        assert(es@.subrange(0, i as int) =~= es@);
    }
    out
}

proof fn lemma_select_all(rows: Seq<Assignment>, f: AssignmentFilter)
    requires
        f.resource_id is None,
        f.project_id is None,
        f.year is None,
        f.month is None,
    ensures
        select(rows, f) == rows,
    decreases rows.len(),
{
    if rows.len() > 0 {
        lemma_select_all(rows.drop_last(), f);
        assert(rows.drop_last().push(rows.last()) =~= rows);
    }
}

/// Looking up one id finds nothing or the entity that carries it.
proof fn lemma_with_one_id(es: Seq<(u128, Seq<char>)>, id: u128)
    ensures
        with_ids(es, seq![id]).len() == 0 <==> found_name(es, id) is None,
        with_ids(es, seq![id]).len() > 0 ==> with_ids(es, seq![id]).last() == (id, found_name(es, id)->Some_0),
    decreases es.len(),
{
    if es.len() > 0 {
        lemma_with_one_id(es.drop_last(), id);
        let w = with_ids(es.drop_last(), seq![id]);
        assert(seq![id].contains(es.last().0) <==> es.last().0 == id) by {
            if seq![id].contains(es.last().0) {
                let i = choose|i: int| 0 <= i < 1 && seq![id][i] == es.last().0;
            }
            if es.last().0 == id {
                assert(seq![id][0] == id);
            }
        }
        if es.last().0 == id {
            assert(with_ids(es, seq![id]) == w.push(es.last()));
        } else {
            assert(with_ids(es, seq![id]) == w);
        }
    }
}

/// Read operations of the service.
pub struct QueryRoot;

impl QueryRoot {
    /// The project matrix over `months`: every stored project as a row, in
    /// storage order, with one cell per requested month (order and repeats
    /// kept). The assignments are scanned once per distinct month, and the
    /// resources of all cells are looked up in one batch.
    pub fn project_month_matrix(&self, store: &MemoryStore, months: Vec<MonthScalar>) -> (r: ProjectMonthMatrix)
        requires
            store.wf(),
        ensures
            r.months@ == months@,
            r.rows@.len() == store.stored_projects().len(),
            forall|i: int|
                0 <= i < r.rows@.len() ==> project_row_in_store(
                    #[trigger] r.rows@[i],
                    store.stored_projects()[i],
                    months@,
                    store.stored_assignments(),
                    store.stored_resources(),
                ),
    {
        let projects = store.list_projects();
        let distinct = distinct_months(&months);
        proof {
            lemma_dedup(months@);
        }
        let scanned = scan_months(store, &distinct);
        let cps = counterpart_ids(&scanned, true);
        let mut known = KeyResolver::new();
        proof {
            assert(known.resolved().dom() =~= Set::<u128>::empty());
            lemma_first_batch_is_distinct_ids(cps@);
            lemma_dedup(cps@);
        }
        known.load_many(&cps);
        let batch = known.take_batch();
        let found = store.resources(&batch);
        let pairs = resource_pairs(found);
        known.complete(&pairs);
        let ghost k = known.resolved();
        let ghost es = store.stored_resources();
        let ghost rows = store.stored_assignments();
        proof {
            assert(batch@ =~= dedup(cps@));
            assert forall|q: u128| #[trigger] batch@.contains(q) implies k.contains_key(q) && k[q] == found_name(es, q) by {
                lemma_found_among_ids(es, batch@, q);
            }
        }
        let r = build_project_matrix(months, &projects, &scanned, &known);
        proof {
            assert forall|i: int| 0 <= i < r.rows@.len() implies project_row_in_store(
                #[trigger] r.rows@[i],
                store.stored_projects()[i],
                r.months@,
                rows,
                es,
            ) by {
                let p = projects@[i];
                assert(p@ == store.stored_projects()[i]);
                assert forall|j: int| 0 <= j < r.months@.len() implies resource_views(
                    #[trigger] r.rows@[i].cells@[j].resources@,
                ) == named_entities(cell_ids(rows, true, p.id, r.months@[j]), es) by {
                    let m = r.months@[j];
                    assert(months@.contains(m));
                    assert(distinct@.contains(m));
                    let ids = cell_ids(scanned@, true, p.id, m);
                    assert(ids == cell_ids(rows, true, p.id, m));
                    assert forall|q: u128| #[trigger] ids.contains(q) implies k.contains_key(q) && k[q] == found_name(es, q) by {
                        lemma_cell_ids_are_counterparts(scanned@, true, p.id, m, q);
                        assert(cps@.contains(q));
                        assert(batch@.contains(q));
                    }
                    lemma_resolved_as_stored(ids, k, es);
                }
            }
        }
        r
    }

    /// The resource matrix over `months`: every stored resource as a row, in
    /// storage order, with one cell per requested month (order and repeats
    /// kept). The assignments are scanned once per distinct month, and the
    /// projects of all cells are looked up in one batch.
    pub fn resource_month_matrix(&self, store: &MemoryStore, months: Vec<MonthScalar>) -> (r: ResourceMonthMatrix)
        requires
            store.wf(),
        ensures
            r.months@ == months@,
            r.rows@.len() == store.stored_resources().len(),
            forall|i: int|
                0 <= i < r.rows@.len() ==> resource_row_in_store(
                    #[trigger] r.rows@[i],
                    store.stored_resources()[i],
                    months@,
                    store.stored_assignments(),
                    store.stored_projects(),
                ),
    {
        let projects = store.list_resources();
        let distinct = distinct_months(&months);
        proof {
            lemma_dedup(months@);
        }
        let scanned = scan_months(store, &distinct);
        let cps = counterpart_ids(&scanned, false);
        let mut known = KeyResolver::new();
        proof {
            assert(known.resolved().dom() =~= Set::<u128>::empty());
            lemma_first_batch_is_distinct_ids(cps@);
            lemma_dedup(cps@);
        }
        known.load_many(&cps);
        let batch = known.take_batch();
        let found = store.projects(&batch);
        let pairs = project_pairs(found);
        known.complete(&pairs);
        let ghost k = known.resolved();
        let ghost es = store.stored_projects();
        let ghost rows = store.stored_assignments();
        proof {
            assert(batch@ =~= dedup(cps@));
            assert forall|q: u128| #[trigger] batch@.contains(q) implies k.contains_key(q) && k[q] == found_name(es, q) by {
                lemma_found_among_ids(es, batch@, q);
            }
        }
        let r = build_resource_matrix(months, &projects, &scanned, &known);
        proof {
            assert forall|i: int| 0 <= i < r.rows@.len() implies resource_row_in_store(
                #[trigger] r.rows@[i],
                store.stored_resources()[i],
                r.months@,
                rows,
                es,
            ) by {
                let p = projects@[i];
                assert(p@ == store.stored_resources()[i]);
                assert forall|j: int| 0 <= j < r.months@.len() implies project_views(
                    #[trigger] r.rows@[i].cells@[j].projects@,
                ) == named_entities(cell_ids(rows, false, p.id, r.months@[j]), es) by {
                    let m = r.months@[j];
                    assert(months@.contains(m));
                    assert(distinct@.contains(m));
                    let ids = cell_ids(scanned@, false, p.id, m);
                    assert(ids == cell_ids(rows, false, p.id, m));
                    assert forall|q: u128| #[trigger] ids.contains(q) implies k.contains_key(q) && k[q] == found_name(es, q) by {
                        lemma_cell_ids_are_counterparts(scanned@, false, p.id, m, q);
                        assert(cps@.contains(q));
                        assert(batch@.contains(q));
                    }
                    lemma_resolved_as_stored(ids, k, es);
                }
            }
        }
        r
    }

    /// Every stored project, in storage order.
    pub fn projects(&self, store: &MemoryStore) -> (r: Vec<Project>)
        ensures
            project_views(r@) == store.stored_projects(),
    {
        store.list_projects()
    }

    /// Every stored resource, in storage order.
    pub fn resources(&self, store: &MemoryStore) -> (r: Vec<Resource>)
        ensures
            resource_views(r@) == store.stored_resources(),
    {
        store.list_resources()
    }

    /// Every stored assignment, in storage order.
    pub fn assignments(&self, store: &MemoryStore) -> (r: Vec<Assignment>)
        ensures
            r@ == store.stored_assignments(),
    {
        let f = AssignmentFilter::default();
        let r = store.list_assignments(&f);
        proof {
            lemma_select_all(store.stored_assignments(), f);
        }
        r
    }

    /// The stored project with identifier `id`, if there is one.
    pub fn project(&self, store: &MemoryStore, id: u128) -> (r: Option<Project>)
        ensures
            r is Some <==> found_name(store.stored_projects(), id) is Some,
            r is Some ==> r->Some_0@ == (id, found_name(store.stored_projects(), id)->Some_0),
    {
        let ids = vec![id];
        let mut items = store.projects(&ids);
        proof {
            lemma_with_one_id(store.stored_projects(), id);
        }
        proof {
            assert(ids@ =~= seq![id]);
            assert(project_views(items@).len() == items@.len());
            if items@.len() > 0 {
                assert(project_views(items@).last() == items@.last()@);
            }
        }
        items.pop()
    }

    /// The stored resource with identifier `id`, if there is one.
    pub fn resource(&self, store: &MemoryStore, id: u128) -> (r: Option<Resource>)
        ensures
            r is Some <==> found_name(store.stored_resources(), id) is Some,
            r is Some ==> r->Some_0@ == (id, found_name(store.stored_resources(), id)->Some_0),
    {
        let ids = vec![id];
        let mut items = store.resources(&ids);
        proof {
            lemma_with_one_id(store.stored_resources(), id);
        }
        proof {
            assert(ids@ =~= seq![id]);
            assert(resource_views(items@).len() == items@.len());
            if items@.len() > 0 {
                assert(resource_views(items@).last() == items@.last()@);
            }
        }
        items.pop()
    }
}

} // verus!
