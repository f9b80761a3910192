//! An in-memory relation store: projects, resources and the assignment set,
//! with idempotent assign, counted unassign and cascading delete.
use vstd::prelude::*;

use crate::domain::{project_views, resource_views, select, select_rows, Assignment, AssignmentFilter, Project, Resource};

verus! {

/// The storage order of assignments: by year, month, project id, resource id.
pub open spec fn row_lt(a: Assignment, b: Assignment) -> bool {
    ||| a.year < b.year
    ||| (a.year == b.year && a.month < b.month)
    ||| (a.year == b.year && a.month == b.month && a.project_id < b.project_id)
    ||| (a.year == b.year && a.month == b.month && a.project_id == b.project_id && a.resource_id
        < b.resource_id)
}

/// Strictly increasing in storage order, so no tuple occurs twice.
pub open spec fn sorted_rows(rows: Seq<Assignment>) -> bool {
    forall|i: int, j: int| 0 <= i < j < rows.len() ==> row_lt(#[trigger] rows[i], #[trigger] rows[j])
}

pub open spec fn ids_of(es: Seq<(u128, Seq<char>)>) -> Seq<u128> {
    es.map_values(|e: (u128, Seq<char>)| e.0)
}

/// How many rows of `rows` equal `a`.
pub open spec fn count_of(rows: Seq<Assignment>, a: Assignment) -> nat
    decreases rows.len(),
{
    if rows.len() == 0 {
        0
    } else {
        count_of(rows.drop_last(), a) + if rows.last() == a { 1nat } else { 0nat }
    }
}

/// `es` without the entity whose id is `id`.
pub open spec fn without_id(es: Seq<(u128, Seq<char>)>, id: u128) -> Seq<(u128, Seq<char>)>
    decreases es.len(),
{
    if es.len() == 0 {
        Seq::empty()
    } else if es.last().0 == id {
        without_id(es.drop_last(), id)
    } else {
        without_id(es.drop_last(), id).push(es.last())
    }
}

/// `rows` without those that reference `id` as project (`by_project`) or as
/// resource.
pub open spec fn without_refs(rows: Seq<Assignment>, id: u128, by_project: bool) -> Seq<Assignment>
    decreases rows.len(),
{
    if rows.len() == 0 {
        Seq::empty()
    } else if (if by_project { rows.last().project_id } else { rows.last().resource_id }) == id {
        without_refs(rows.drop_last(), id, by_project)
    } else {
        without_refs(rows.drop_last(), id, by_project).push(rows.last())
    }
}

/// `es` with `e` stored: the entity with the same id takes its name, or `e` is
/// added at the end.
pub open spec fn upserted(es: Seq<(u128, Seq<char>)>, e: (u128, Seq<char>)) -> Seq<(u128, Seq<char>)> {
    if ids_of(es).contains(e.0) {
        es.map_values(|x: (u128, Seq<char>)| if x.0 == e.0 { e } else { x })
    } else {
        es.push(e)
    }
}

/// The entities of `es` whose id is among `ids`, in the order of `es`.
pub open spec fn with_ids(es: Seq<(u128, Seq<char>)>, ids: Seq<u128>) -> Seq<(u128, Seq<char>)>
    decreases es.len(),
{
    if es.len() == 0 {
        Seq::empty()
    } else if ids.contains(es.last().0) {
        with_ids(es.drop_last(), ids).push(es.last())
    } else {
        with_ids(es.drop_last(), ids)
    }
}

proof fn lemma_row_lt_order(a: Assignment, b: Assignment, c: Assignment)
    ensures
        row_lt(a, b) && row_lt(b, c) ==> row_lt(a, c),
        !row_lt(a, b) && a != b ==> row_lt(b, a),
        row_lt(a, b) ==> a != b && !row_lt(b, a),
{
}

/// In strictly ordered rows a row that occurs at all occurs exactly once.
pub proof fn lemma_stored_row_occurs_once(rows: Seq<Assignment>, a: Assignment)
    requires
        sorted_rows(rows),
    ensures
        count_of(rows, a) == (if rows.contains(a) { 1nat } else { 0nat }),
    decreases rows.len(),
{
    if rows.len() > 0 {
        let p = rows.drop_last();
        assert(sorted_rows(p)) by {
            assert forall|i: int, j: int| 0 <= i < j < p.len() implies row_lt(#[trigger] p[i], #[trigger] p[j]) by {
                assert(p[i] == rows[i] && p[j] == rows[j]);
            }
        }
        lemma_stored_row_occurs_once(p, a);
        if rows.last() == a {
            assert(rows[rows.len() - 1] == a);
            if p.contains(a) {
                let k = choose|k: int| 0 <= k < p.len() && p[k] == a;
                assert(rows[k] == a);
                lemma_row_lt_order(rows[k], rows[rows.len() - 1], a);
            }
        } else {
            if rows.contains(a) {
                let k = choose|k: int| 0 <= k < rows.len() && rows[k] == a;
                assert(p[k] == a);
            }
            if p.contains(a) {
                let k = choose|k: int| 0 <= k < p.len() && p[k] == a;
                assert(rows[k] == a);
            }
        }
    }
}

/// Whether `a` comes strictly before `b` in storage order.
pub fn row_before(a: &Assignment, b: &Assignment) -> (r: bool)
    ensures
        r == row_lt(*a, *b),
{
    a.year < b.year || (a.year == b.year && a.month < b.month) || (a.year == b.year && a.month
        == b.month && a.project_id < b.project_id) || (a.year == b.year && a.month == b.month
        && a.project_id == b.project_id && a.resource_id < b.resource_id)
}

proof fn lemma_with_no_ids(es: Seq<(u128, Seq<char>)>, ids: Seq<u128>)
    requires
        ids.len() == 0,
    ensures
        with_ids(es, ids) == Seq::<(u128, Seq<char>)>::empty(),
    decreases es.len(),
{
    if es.len() > 0 {
        lemma_with_no_ids(es.drop_last(), ids);
    }
}

/// Why the store refused a change.
#[derive(Clone, Copy, Debug, PartialEq, Eq, Structural)]
pub enum StoreError {
    /// The assignment names a project that is not stored.
    MissingProject,
    /// The assignment names a resource that is not stored.
    MissingResource,
}

/// Relies on uuid::Uuid::new_v4 for a random version-4 UUID, taken as its
/// 128-bit value with Uuid::as_u128: version nibble 4, variant bits `10`.
#[verifier::external_body]
fn new_id() -> (r: u128)
    ensures
        (r >> 76u128) & 0xfu128 == 4,
        (r >> 62u128) & 0x3u128 == 2,
{
    uuid::Uuid::new_v4().as_u128()
}

/// Projects, resources and assignments held in memory.
pub struct MemoryStore {
    projects: Vec<Project>,
    resources: Vec<Resource>,
    assignments: Vec<Assignment>,
}

impl MemoryStore {
    pub closed spec fn stored_projects(&self) -> Seq<(u128, Seq<char>)> {
        project_views(self.projects@)
    }

    pub closed spec fn stored_resources(&self) -> Seq<(u128, Seq<char>)> {
        resource_views(self.resources@)
    }

    pub closed spec fn stored_assignments(&self) -> Seq<Assignment> {
        self.assignments@
    }

    /// Ids are unique per kind, assignments are strictly ordered (so no tuple
    /// repeats), and every assignment references a stored project and resource.
    pub open spec fn wf(&self) -> bool {
        &&& ids_of(self.stored_projects()).no_duplicates()
        &&& ids_of(self.stored_resources()).no_duplicates()
        &&& sorted_rows(self.stored_assignments())
        &&& forall|i: int|
            0 <= i < self.stored_assignments().len() ==> ids_of(self.stored_projects()).contains(
                (#[trigger] self.stored_assignments()[i]).project_id,
            ) && ids_of(self.stored_resources()).contains(self.stored_assignments()[i].resource_id)
    }

    /// An empty store.
    pub fn new() -> (r: MemoryStore)
        ensures
            r.wf(),
            r.stored_projects() == Seq::<(u128, Seq<char>)>::empty(),
            r.stored_resources() == Seq::<(u128, Seq<char>)>::empty(),
            r.stored_assignments() == Seq::<Assignment>::empty(),
    {
        let r = MemoryStore { projects: Vec::new(), resources: Vec::new(), assignments: Vec::new() };
        proof {
            assert(r.stored_projects() =~= Seq::<(u128, Seq<char>)>::empty());
            assert(r.stored_resources() =~= Seq::<(u128, Seq<char>)>::empty());
        }
        r
    }

    /// Every project, in storage order.
    pub fn list_projects(&self) -> (r: Vec<Project>)
        ensures
            project_views(r@) == self.stored_projects(),
    {
        let mut out: Vec<Project> = Vec::new();
        let mut i: usize = 0;
        while i < self.projects.len()
            invariant
                i <= self.projects@.len(),
                project_views(out@) == project_views(self.projects@.subrange(0, i as int)),
            decreases self.projects@.len() - i,
        {
            let ghost before = out@;
            out.push(self.projects[i].duplicate());
            proof {
                assert(project_views(out@) =~= project_views(before).push(self.projects@[i as int]@));
                assert(project_views(self.projects@.subrange(0, i + 1)) =~= project_views(
                    self.projects@.subrange(0, i as int),
                ).push(self.projects@[i as int]@));
            }
            i = i + 1;
        }
        proof {
            assert(self.projects@.subrange(0, i as int) =~= self.projects@);
        }
        out
    }

    /// Every resource, in storage order.
    pub fn list_resources(&self) -> (r: Vec<Resource>)
        ensures
            resource_views(r@) == self.stored_resources(),
    {
        let mut out: Vec<Resource> = Vec::new();
        let mut i: usize = 0;
        while i < self.resources.len()
            invariant
                i <= self.resources@.len(),
                resource_views(out@) == resource_views(self.resources@.subrange(0, i as int)),
            decreases self.resources@.len() - i,
        {
            let ghost before = out@;
            out.push(self.resources[i].duplicate());
            proof {
                assert(resource_views(out@) =~= resource_views(before).push(self.resources@[i as int]@));
                assert(resource_views(self.resources@.subrange(0, i + 1)) =~= resource_views(
                    self.resources@.subrange(0, i as int),
                ).push(self.resources@[i as int]@));
            }
            i = i + 1;
        }
        proof {
            assert(self.resources@.subrange(0, i as int) =~= self.resources@);
        }
        out
    }

    /// The assignments that `f` admits, in storage order.
    pub fn list_assignments(&self, f: &AssignmentFilter) -> (r: Vec<Assignment>)
        ensures
            r@ == select(self.stored_assignments(), *f),
    {
        select_rows(&self.assignments, f)
    }

    /// Index of the project with identifier `id`.
    fn find_project(&self, id: u128) -> (r: Option<usize>)
        ensures
            r matches Some(i) ==> i < self.projects@.len() && self.projects@[i as int].id == id,
            r is None ==> !ids_of(self.stored_projects()).contains(id),
    {
        let mut i: usize = 0;
        while i < self.projects.len()
            invariant
                i <= self.projects@.len(),
                forall|k: int| 0 <= k < i ==> self.projects@[k].id != id,
            decreases self.projects@.len() - i,
        {
            if self.projects[i].id == id {
                return Some(i);
            }
            i = i + 1;
        }
        proof {
            if ids_of(self.stored_projects()).contains(id) {
                let k = choose|k: int| 0 <= k < self.projects@.len() && ids_of(self.stored_projects())[k] == id;
                assert(self.projects@[k].id == id);
            }
        }
        None
    }

    /// Index of the resource with identifier `id`.
    fn find_resource(&self, id: u128) -> (r: Option<usize>)
        ensures
            r matches Some(i) ==> i < self.resources@.len() && self.resources@[i as int].id == id,
            r is None ==> !ids_of(self.stored_resources()).contains(id),
    {
        let mut i: usize = 0;
        while i < self.resources.len()
            invariant
                i <= self.resources@.len(),
                forall|k: int| 0 <= k < i ==> self.resources@[k].id != id,
            decreases self.resources@.len() - i,
        {
            if self.resources[i].id == id {
                return Some(i);
            }
            i = i + 1;
        }
        proof {
            if ids_of(self.stored_resources()).contains(id) {
                let k = choose|k: int| 0 <= k < self.resources@.len() && ids_of(self.stored_resources())[k] == id;
                assert(self.resources@[k].id == id);
            }
        }
        None
    }

    /// Stores assignment `a` unless it is already stored. Fails, changing
    /// nothing, when its project or resource is not stored.
    pub fn assign(&mut self, a: Assignment) -> (r: Result<(), StoreError>)
        requires
            old(self).wf(),
        ensures
            final(self).wf(),
            final(self).stored_projects() == old(self).stored_projects(),
            final(self).stored_resources() == old(self).stored_resources(),
            (r == Err::<(), StoreError>(StoreError::MissingProject)) <==> !ids_of(
                old(self).stored_projects(),
            ).contains(a.project_id),
            (r == Err::<(), StoreError>(StoreError::MissingResource)) <==> ids_of(
                old(self).stored_projects(),
            ).contains(a.project_id) && !ids_of(old(self).stored_resources()).contains(a.resource_id),
            r is Err ==> final(self).stored_assignments() == old(self).stored_assignments(),
            old(self).stored_assignments().contains(a) ==> final(self).stored_assignments() == old(
                self,
            ).stored_assignments(),
            r is Ok ==> forall|x: Assignment|
                #[trigger] final(self).stored_assignments().contains(x) <==> old(
                    self,
                ).stored_assignments().contains(x) || x == a,
            r is Ok ==> count_of(final(self).stored_assignments(), a) == 1,
    {
        match self.find_project(a.project_id) {
            Some(pi) => {
                proof {
                    assert(ids_of(self.stored_projects())[pi as int] == a.project_id);
                }
            },
            None => {
                return Err(StoreError::MissingProject);
            },
        }
        match self.find_resource(a.resource_id) {
            Some(ri) => {
                proof {
                    assert(ids_of(self.stored_resources())[ri as int] == a.resource_id);
                }
            },
            None => {
                return Err(StoreError::MissingResource);
            },
        }
        let ghost old_rows = self.assignments@;
        let mut i: usize = 0;
        while i < self.assignments.len() && row_before(&self.assignments[i], &a)
            invariant
                i <= self.assignments@.len(),
                self.assignments@ == old_rows,
                forall|k: int| 0 <= k < i ==> row_lt(#[trigger] old_rows[k], a),
            decreases self.assignments@.len() - i,
        {
            i = i + 1;
        }
        if i < self.assignments.len() && self.assignments[i] == a {
            proof {
                assert(old_rows[i as int] == a);
                lemma_stored_row_occurs_once(old_rows, a);
            }
            return Ok(());
        }
        proof {
            if i < old_rows.len() {
                lemma_row_lt_order(old_rows[i as int], a, a);
                assert(row_lt(a, old_rows[i as int]));
            }
        }
        self.assignments.insert(i, a);
        proof {
            let rows = self.assignments@;
            assert(rows == old_rows.insert(i as int, a));
            assert forall|x: int, y: int| 0 <= x < y < rows.len() implies row_lt(#[trigger] rows[x], #[trigger] rows[y]) by {
                if y < i {
                    assert(rows[x] == old_rows[x] && rows[y] == old_rows[y]);
                } else if y == i {
                    assert(rows[x] == old_rows[x]);
                } else if x == i {
                    assert(rows[y] == old_rows[y - 1]);
                    if y - 1 > i {
                        lemma_row_lt_order(a, old_rows[i as int], old_rows[y - 1]);
                    }
                } else if x < i {
                    assert(rows[x] == old_rows[x] && rows[y] == old_rows[y - 1]);
                } else {
                    assert(rows[x] == old_rows[x - 1] && rows[y] == old_rows[y - 1]);
                }
            }
            assert forall|x: Assignment| #[trigger] rows.contains(x) <==> old_rows.contains(x) || x == a by {
                if rows.contains(x) {
                    let k = choose|k: int| 0 <= k < rows.len() && rows[k] == x;
                    if k < i {
                        assert(old_rows[k] == x);
                    } else if k > i {
                        assert(old_rows[k - 1] == x);
                    }
                }
                if old_rows.contains(x) {
                    let k = choose|k: int| 0 <= k < old_rows.len() && old_rows[k] == x;
                    if k < i {
                        assert(rows[k] == x);
                    } else {
                        assert(rows[k + 1] == x);
                    }
                }
                if x == a {
                    assert(rows[i as int] == a);
                }
            }
            if old_rows.contains(a) {
                let k = choose|k: int| 0 <= k < old_rows.len() && old_rows[k] == a;
                if k < i {
                    lemma_row_lt_order(a, a, a);
                } else if k > i {
                    lemma_row_lt_order(a, old_rows[i as int], a);
                }
            }
            assert forall|k: int| 0 <= k < rows.len() implies ids_of(self.stored_projects()).contains(
                (#[trigger] rows[k]).project_id,
            ) && ids_of(self.stored_resources()).contains(rows[k].resource_id) by {
                if k < i {
                    assert(rows[k] == old_rows[k]);
                } else if k > i {
                    assert(rows[k] == old_rows[k - 1]);
                }
            }
            assert(rows.contains(a));
            lemma_stored_row_occurs_once(rows, a);
        }
        Ok(())
    }

    /// Removes assignment `a`; returns how many rows were removed (0 or 1).
    pub fn unassign(&mut self, a: Assignment) -> (r: u64)
        requires
            old(self).wf(),
        ensures
            final(self).wf(),
            final(self).stored_projects() == old(self).stored_projects(),
            final(self).stored_resources() == old(self).stored_resources(),
            r == (if old(self).stored_assignments().contains(a) { 1u64 } else { 0u64 }),
            r == count_of(old(self).stored_assignments(), a),
            count_of(final(self).stored_assignments(), a) == 0,
            final(self).stored_assignments().len() == old(self).stored_assignments().len() - r,
            forall|x: Assignment|
                #[trigger] final(self).stored_assignments().contains(x) <==> old(
                    self,
                ).stored_assignments().contains(x) && x != a,
    {
        let ghost old_rows = self.assignments@;
        let mut i: usize = 0;
        while i < self.assignments.len()
            invariant
                i <= self.assignments@.len(),
                self.assignments@ == old_rows,
                old_rows == old(self).assignments@,
                self.projects@ == old(self).projects@,
                self.resources@ == old(self).resources@,
                old(self).wf(),
                forall|k: int| 0 <= k < i ==> old_rows[k] != a,
            decreases self.assignments@.len() - i,
        {
            if self.assignments[i] == a {
                self.assignments.remove(i);
                proof {
                    let rows = self.assignments@;
                    assert(rows == old_rows.remove(i as int));
                    assert(old_rows.contains(a)) by {
                        assert(old_rows[i as int] == a);
                    }
                    assert forall|x: int, y: int| 0 <= x < y < rows.len() implies row_lt(#[trigger] rows[x], #[trigger] rows[y]) by {
                        if y < i {
                            assert(rows[x] == old_rows[x] && rows[y] == old_rows[y]);
                        } else if x < i {
                            assert(rows[x] == old_rows[x] && rows[y] == old_rows[y + 1]);
                        } else {
                            assert(rows[x] == old_rows[x + 1] && rows[y] == old_rows[y + 1]);
                        }
                    }
                    assert forall|x: Assignment| #[trigger] rows.contains(x) <==> old_rows.contains(x) && x != a by {
                        if rows.contains(x) {
                            let k = choose|k: int| 0 <= k < rows.len() && rows[k] == x;
                            if k < i {
                                assert(old_rows[k] == x);
                                lemma_row_lt_order(old_rows[k], old_rows[i as int], a);
                            } else {
                                assert(old_rows[k + 1] == x);
                                lemma_row_lt_order(old_rows[i as int], old_rows[k + 1], a);
                            }
                        }
                        if old_rows.contains(x) && x != a {
                            let k = choose|k: int| 0 <= k < old_rows.len() && old_rows[k] == x;
                            if k < i {
                                assert(rows[k] == x);
                            } else {
                                assert(k != i);
                                assert(rows[k - 1] == x);
                            }
                        }
                    }
                    assert forall|k: int| 0 <= k < rows.len() implies ids_of(self.stored_projects()).contains(
                        (#[trigger] rows[k]).project_id,
                    ) && ids_of(self.stored_resources()).contains(rows[k].resource_id) by {
                        if k < i {
                            assert(rows[k] == old_rows[k]);
                        } else {
                            assert(rows[k] == old_rows[k + 1]);
                        }
                    }
                    lemma_stored_row_occurs_once(old_rows, a);
                    lemma_stored_row_occurs_once(rows, a);
                }
                return 1;
            }
            i = i + 1;
        }
        proof {
            assert(!old_rows.contains(a));
            lemma_stored_row_occurs_once(old_rows, a);
        }
        0
    }

    /// The stored projects whose id is among `ids`, in storage order; no id
    /// asks for more than one project, and no ids ask for none.
    pub fn projects(&self, ids: &Vec<u128>) -> (r: Vec<Project>)
        ensures
            project_views(r@) == with_ids(self.stored_projects(), ids@),
    {
        let mut out: Vec<Project> = Vec::new();
        if ids.len() == 0 {
            proof {
                lemma_with_no_ids(self.stored_projects(), ids@);
            }
            return out;
        }
        let mut i: usize = 0;
        while i < self.projects.len()
            invariant
                i <= self.projects@.len(),
                project_views(out@) == with_ids(project_views(self.projects@.subrange(0, i as int)), ids@),
            decreases self.projects@.len() - i,
        {
            proof {
                let s = project_views(self.projects@.subrange(0, i + 1));
                assert(s.drop_last() =~= project_views(self.projects@.subrange(0, i as int)));
                assert(s.last() == self.projects@[i as int]@);
            }
            let ghost before = out@;
            if crate::resolver::contains_id(ids, self.projects[i].id) {
                out.push(self.projects[i].duplicate());
                proof {
                    assert(project_views(out@) =~= project_views(before).push(self.projects@[i as int]@));
                }
            }
            i = i + 1;
        }
        proof {
            assert(self.projects@.subrange(0, i as int) =~= self.projects@);
        }
        out
    }

    /// Stores `p`: a project with the same id takes its name, otherwise `p` is
    /// added.
    pub fn upsert_project(&mut self, p: Project)
        requires
            old(self).wf(),
        ensures
            final(self).wf(),
            final(self).stored_projects() == upserted(old(self).stored_projects(), p@),
            final(self).stored_resources() == old(self).stored_resources(),
            final(self).stored_assignments() == old(self).stored_assignments(),
    {
        let ghost old_es = self.stored_projects();
        match self.find_project(p.id) {
            Some(i) => {
                let ghost pv = p@;
                self.projects.set(i, p);
                proof {
                    let es = self.stored_projects();
                    assert(ids_of(old_es).contains(pv.0)) by {
                        assert(ids_of(old_es)[i as int] == pv.0);
                    }
                    assert forall|k: int| 0 <= k < es.len() implies #[trigger] es[k] == (if old_es[k].0 == pv.0 {
                        pv
                    } else {
                        old_es[k]
                    }) by {
                        if k != i && old_es[k].0 == pv.0 {
                            assert(ids_of(old_es)[k] == ids_of(old_es)[i as int]);
                        }
                    }
                    assert(es =~= upserted(old_es, pv));
                    assert(ids_of(es) =~= ids_of(old_es));
                }
            },
            None => {
                self.projects.push(p);
                proof {
                    let es = self.stored_projects();
                    assert(es =~= old_es.push(es.last()));
                    assert(ids_of(es) =~= ids_of(old_es).push(es.last().0));
                    assert forall|k: int| 0 <= k < ids_of(old_es).len() implies #[trigger] ids_of(es).contains(ids_of(old_es)[k]) by {
                        assert(ids_of(es)[k] == ids_of(old_es)[k]);
                    }
                }
            },
        }
        proof {
            let es = self.stored_projects();
            assert forall|k: int| 0 <= k < self.stored_assignments().len() implies ids_of(es).contains(
                (#[trigger] self.stored_assignments()[k]).project_id,
            ) by {
                let id = self.stored_assignments()[k].project_id;
                assert(ids_of(old_es).contains(id));
                let j = choose|j: int| 0 <= j < ids_of(old_es).len() && ids_of(old_es)[j] == id;
                assert(ids_of(es)[j] == id);
            }
        }
    }

    /// Creates a project named `name` under a fresh random id.
    pub fn create_project(&mut self, name: String) -> (r: Project)
        requires
            old(self).wf(),
        ensures
            final(self).wf(),
            r.name@ == name@,
            final(self).stored_projects() == upserted(old(self).stored_projects(), r@),
            final(self).stored_resources() == old(self).stored_resources(),
            final(self).stored_assignments() == old(self).stored_assignments(),
    {
        let p = Project { id: new_id(), name };
        let r = p.duplicate();
        self.upsert_project(p);
        r
    }

    /// Deletes the project with identifier `id` together with every assignment
    /// that references it; returns how many projects were deleted (0 or 1).
    pub fn delete_project(&mut self, id: u128) -> (r: u64)
        requires
            old(self).wf(),
        ensures
            final(self).wf(),
            r == (if ids_of(old(self).stored_projects()).contains(id) { 1u64 } else { 0u64 }),
            final(self).stored_projects() == without_id(old(self).stored_projects(), id),
            final(self).stored_resources() == old(self).stored_resources(),
            final(self).stored_assignments() == without_refs(old(self).stored_assignments(), id, true),
            forall|k: int|
                0 <= k < final(self).stored_assignments().len() ==> (
                #[trigger] final(self).stored_assignments()[k]).project_id != id,
    {
        let ghost old_es = self.stored_projects();
        let ghost old_rows = self.stored_assignments();
        let mut kept: Vec<Project> = Vec::new();
        let mut removed: u64 = 0;
        let mut i: usize = 0;
        while i < self.projects.len()
            invariant
                i <= self.projects@.len(),
                self.projects@ == old(self).projects@,
                self.resources@ == old(self).resources@,
                self.assignments@ == old(self).assignments@,
                old_es == project_views(self.projects@),
                ids_of(old_es).no_duplicates(),
                project_views(kept@) == without_id(old_es.subrange(0, i as int), id),
                removed == (if ids_of(old_es.subrange(0, i as int)).contains(id) { 1u64 } else { 0u64 }),
                forall|x: u128| #[trigger] ids_of(project_views(kept@)).contains(x) <==> x != id && ids_of(old_es.subrange(0, i as int)).contains(x),
                ids_of(project_views(kept@)).no_duplicates(),
            decreases self.projects@.len() - i,
        {
            let ghost pre = old_es.subrange(0, i as int);
            let ghost s = old_es.subrange(0, i + 1);
            proof {
                assert(s.drop_last() =~= pre);
                assert(s.last() == old_es[i as int]);
                assert(ids_of(s) =~= ids_of(pre).push(old_es[i as int].0));
                assert forall|x: u128| #[trigger] ids_of(s).contains(x) <==> ids_of(pre).contains(x) || x == old_es[i as int].0 by {
                    if ids_of(s).contains(x) {
                        let k = choose|k: int| 0 <= k < ids_of(s).len() && ids_of(s)[k] == x;
                        if k < i {
                            assert(ids_of(pre)[k] == x);
                        }
                    }
                    if ids_of(pre).contains(x) {
                        let k = choose|k: int| 0 <= k < ids_of(pre).len() && ids_of(pre)[k] == x;
                        assert(ids_of(s)[k] == x);
                    }
                    if x == old_es[i as int].0 {
                        assert(ids_of(s)[i as int] == x);
                    }
                }
                assert(!ids_of(pre).contains(old_es[i as int].0)) by {
                    if ids_of(pre).contains(old_es[i as int].0) {
                        let k = choose|k: int| 0 <= k < ids_of(pre).len() && ids_of(pre)[k] == old_es[i as int].0;
                        assert(ids_of(old_es)[k] == ids_of(old_es)[i as int]);
                    }
                }
            }
            let ghost before = kept@;
            if self.projects[i].id == id {
                removed = 1;
            } else {
                kept.push(self.projects[i].duplicate());
                proof {
                    assert(project_views(kept@) =~= project_views(before).push(old_es[i as int]));
                    let kv = ids_of(project_views(kept@));
                    assert(kv =~= ids_of(project_views(before)).push(old_es[i as int].0));
                    assert forall|x: u128| #[trigger] kv.contains(x) <==> ids_of(project_views(before)).contains(x) || x == old_es[i as int].0 by {
                        if kv.contains(x) {
                            let k = choose|k: int| 0 <= k < kv.len() && kv[k] == x;
                            if k < kv.len() - 1 {
                                assert(ids_of(project_views(before))[k] == x);
                            }
                        }
                        if ids_of(project_views(before)).contains(x) {
                            let k = choose|k: int| 0 <= k < ids_of(project_views(before)).len() && ids_of(project_views(before))[k] == x;
                            assert(kv[k] == x);
                        }
                        if x == old_es[i as int].0 {
                            assert(kv[kv.len() - 1] == x);
                        }
                    }
                    assert forall|a: int, b: int| 0 <= a < b < kv.len() implies kv[a] != kv[b] by {
                        let bv = ids_of(project_views(before));
                        if b == kv.len() - 1 {
                            assert(kv[a] == bv[a]);
                            assert(bv.contains(kv[a]));
                        } else {
                            assert(kv[a] == bv[a] && kv[b] == bv[b]);
                        }
                    }
                }
            }
            i = i + 1;
        }
        proof {
            assert(old_es.subrange(0, i as int) =~= old_es);
        }
        let ghost kept_v = project_views(kept@);
        self.projects = kept;
        self.drop_refs(id, true);
        proof {
            assert(self.stored_projects() == kept_v);
            assert(self.stored_resources() == old(self).stored_resources());
            let es = self.stored_projects();
            assert forall|k: int| 0 <= k < self.stored_assignments().len() implies ids_of(es).contains(
                (#[trigger] self.stored_assignments()[k]).project_id,
            ) && ids_of(self.stored_resources()).contains(self.stored_assignments()[k].resource_id) by {
                let a = self.stored_assignments()[k];
                assert(old_rows.contains(a));
                let j = choose|j: int| 0 <= j < old_rows.len() && old_rows[j] == a;
                assert(old(self).stored_assignments()[j] == a);
                assert(ids_of(old_es).contains(a.project_id));
                assert(ids_of(old(self).stored_resources()).contains(a.resource_id));
                assert(a.project_id != id);
                assert(ids_of(old_es.subrange(0, old_es.len() as int)).contains(a.project_id));
                assert(ids_of(kept_v).contains(a.project_id));
                assert(es == kept_v);
            }
        }
        removed
    }

    /// The stored resources whose id is among `ids`, in storage order; no id
    /// asks for more than one resource, and no ids ask for none.
    pub fn resources(&self, ids: &Vec<u128>) -> (r: Vec<Resource>)
        ensures
            resource_views(r@) == with_ids(self.stored_resources(), ids@),
    {
        let mut out: Vec<Resource> = Vec::new();
        if ids.len() == 0 {
            proof {
                lemma_with_no_ids(self.stored_resources(), ids@);
            }
            return out;
        }
        let mut i: usize = 0;
        while i < self.resources.len()
            invariant
                i <= self.resources@.len(),
                resource_views(out@) == with_ids(resource_views(self.resources@.subrange(0, i as int)), ids@),
            decreases self.resources@.len() - i,
        {
            proof {
                let s = resource_views(self.resources@.subrange(0, i + 1));
                assert(s.drop_last() =~= resource_views(self.resources@.subrange(0, i as int)));
                assert(s.last() == self.resources@[i as int]@);
            }
            let ghost before = out@;
            if crate::resolver::contains_id(ids, self.resources[i].id) {
                out.push(self.resources[i].duplicate());
                proof {
                    assert(resource_views(out@) =~= resource_views(before).push(self.resources@[i as int]@));
                }
            }
            i = i + 1;
        }
        proof {
            assert(self.resources@.subrange(0, i as int) =~= self.resources@);
        }
        out
    }

    /// Stores `p`: a resource with the same id takes its name, otherwise `p` is
    /// added.
    pub fn upsert_resource(&mut self, p: Resource)
        requires
            old(self).wf(),
        ensures
            final(self).wf(),
            final(self).stored_resources() == upserted(old(self).stored_resources(), p@),
            final(self).stored_projects() == old(self).stored_projects(),
            final(self).stored_assignments() == old(self).stored_assignments(),
    {
        let ghost old_es = self.stored_resources();
        match self.find_resource(p.id) {
            Some(i) => {
                let ghost pv = p@;
                self.resources.set(i, p);
                proof {
                    let es = self.stored_resources();
                    assert(ids_of(old_es).contains(pv.0)) by {
                        assert(ids_of(old_es)[i as int] == pv.0);
                    }
                    assert forall|k: int| 0 <= k < es.len() implies #[trigger] es[k] == (if old_es[k].0 == pv.0 {
                        pv
                    } else {
                        old_es[k]
                    }) by {
                        if k != i && old_es[k].0 == pv.0 {
                            assert(ids_of(old_es)[k] == ids_of(old_es)[i as int]);
                        }
                    }
                    assert(es =~= upserted(old_es, pv));
                    assert(ids_of(es) =~= ids_of(old_es));
                }
            },
            None => {
                self.resources.push(p);
                proof {
                    let es = self.stored_resources();
                    assert(es =~= old_es.push(es.last()));
                    assert(ids_of(es) =~= ids_of(old_es).push(es.last().0));
                    assert forall|k: int| 0 <= k < ids_of(old_es).len() implies #[trigger] ids_of(es).contains(ids_of(old_es)[k]) by {
                        assert(ids_of(es)[k] == ids_of(old_es)[k]);
                    }
                }
            },
        }
        proof {
            let es = self.stored_resources();
            assert forall|k: int| 0 <= k < self.stored_assignments().len() implies ids_of(es).contains(
                (#[trigger] self.stored_assignments()[k]).resource_id,
            ) by {
                let id = self.stored_assignments()[k].resource_id;
                assert(ids_of(old_es).contains(id));
                let j = choose|j: int| 0 <= j < ids_of(old_es).len() && ids_of(old_es)[j] == id;
                assert(ids_of(es)[j] == id);
            }
        }
    }

    /// Creates a resource named `name` under a fresh random id.
    pub fn create_resource(&mut self, name: String) -> (r: Resource)
        requires
            old(self).wf(),
        ensures
            final(self).wf(),
            r.name@ == name@,
            final(self).stored_resources() == upserted(old(self).stored_resources(), r@),
            final(self).stored_projects() == old(self).stored_projects(),
            final(self).stored_assignments() == old(self).stored_assignments(),
    {
        let p = Resource { id: new_id(), name };
        let r = p.duplicate();
        self.upsert_resource(p);
        r
    }

    /// Deletes the resource with identifier `id` together with every assignment
    /// that references it; returns how many resources were deleted (0 or 1).
    pub fn delete_resource(&mut self, id: u128) -> (r: u64)
        requires
            old(self).wf(),
        ensures
            final(self).wf(),
            r == (if ids_of(old(self).stored_resources()).contains(id) { 1u64 } else { 0u64 }),
            final(self).stored_resources() == without_id(old(self).stored_resources(), id),
            final(self).stored_projects() == old(self).stored_projects(),
            final(self).stored_assignments() == without_refs(old(self).stored_assignments(), id, false),
            forall|k: int|
                0 <= k < final(self).stored_assignments().len() ==> (
                #[trigger] final(self).stored_assignments()[k]).resource_id != id,
    {
        let ghost old_es = self.stored_resources();
        let ghost old_rows = self.stored_assignments();
        let mut kept: Vec<Resource> = Vec::new();
        let mut removed: u64 = 0;
        let mut i: usize = 0;
        while i < self.resources.len()
            invariant
                i <= self.resources@.len(),
                self.projects@ == old(self).projects@,
                self.resources@ == old(self).resources@,
                self.assignments@ == old(self).assignments@,
                old_es == resource_views(self.resources@),
                ids_of(old_es).no_duplicates(),
                resource_views(kept@) == without_id(old_es.subrange(0, i as int), id),
                removed == (if ids_of(old_es.subrange(0, i as int)).contains(id) { 1u64 } else { 0u64 }),
                forall|x: u128| #[trigger] ids_of(resource_views(kept@)).contains(x) <==> x != id && ids_of(old_es.subrange(0, i as int)).contains(x),
                ids_of(resource_views(kept@)).no_duplicates(),
            decreases self.resources@.len() - i,
        {
            let ghost pre = old_es.subrange(0, i as int);
            let ghost s = old_es.subrange(0, i + 1);
            proof {
                assert(s.drop_last() =~= pre);
                assert(s.last() == old_es[i as int]);
                assert(ids_of(s) =~= ids_of(pre).push(old_es[i as int].0));
                assert forall|x: u128| #[trigger] ids_of(s).contains(x) <==> ids_of(pre).contains(x) || x == old_es[i as int].0 by {
                    if ids_of(s).contains(x) {
                        let k = choose|k: int| 0 <= k < ids_of(s).len() && ids_of(s)[k] == x;
                        if k < i {
                            assert(ids_of(pre)[k] == x);
                        }
                    }
                    if ids_of(pre).contains(x) {
                        let k = choose|k: int| 0 <= k < ids_of(pre).len() && ids_of(pre)[k] == x;
                        assert(ids_of(s)[k] == x);
                    }
                    if x == old_es[i as int].0 {
                        assert(ids_of(s)[i as int] == x);
                    }
                }
                assert(!ids_of(pre).contains(old_es[i as int].0)) by {
                    if ids_of(pre).contains(old_es[i as int].0) {
                        let k = choose|k: int| 0 <= k < ids_of(pre).len() && ids_of(pre)[k] == old_es[i as int].0;
                        assert(ids_of(old_es)[k] == ids_of(old_es)[i as int]);
                    }
                }
            }
            let ghost before = kept@;
            if self.resources[i].id == id {
                removed = 1;
            } else {
                kept.push(self.resources[i].duplicate());
                proof {
                    assert(resource_views(kept@) =~= resource_views(before).push(old_es[i as int]));
                    let kv = ids_of(resource_views(kept@));
                    assert(kv =~= ids_of(resource_views(before)).push(old_es[i as int].0));
                    assert forall|x: u128| #[trigger] kv.contains(x) <==> ids_of(resource_views(before)).contains(x) || x == old_es[i as int].0 by {
                        if kv.contains(x) {
                            let k = choose|k: int| 0 <= k < kv.len() && kv[k] == x;
                            if k < kv.len() - 1 {
                                assert(ids_of(resource_views(before))[k] == x);
                            }
                        }
                        if ids_of(resource_views(before)).contains(x) {
                            let k = choose|k: int| 0 <= k < ids_of(resource_views(before)).len() && ids_of(resource_views(before))[k] == x;
                            assert(kv[k] == x);
                        }
                        if x == old_es[i as int].0 {
                            assert(kv[kv.len() - 1] == x);
                        }
                    }
                    assert forall|a: int, b: int| 0 <= a < b < kv.len() implies kv[a] != kv[b] by {
                        let bv = ids_of(resource_views(before));
                        if b == kv.len() - 1 {
                            assert(kv[a] == bv[a]);
                            assert(bv.contains(kv[a]));
                        } else {
                            assert(kv[a] == bv[a] && kv[b] == bv[b]);
                        }
                    }
                }
            }
            i = i + 1;
        }
        proof {
            assert(old_es.subrange(0, i as int) =~= old_es);
        }
        let ghost kept_v = resource_views(kept@);
        self.resources = kept;
        self.drop_refs(id, false);
        proof {
            assert(self.stored_resources() == kept_v);
            assert(self.stored_projects() == old(self).stored_projects());
            let es = self.stored_resources();
            assert forall|k: int| 0 <= k < self.stored_assignments().len() implies ids_of(es).contains(
                (#[trigger] self.stored_assignments()[k]).resource_id,
            ) && ids_of(self.stored_projects()).contains(self.stored_assignments()[k].project_id) by {
                let a = self.stored_assignments()[k];
                assert(old_rows.contains(a));
                let j = choose|j: int| 0 <= j < old_rows.len() && old_rows[j] == a;
                assert(old(self).stored_assignments()[j] == a);
                assert(ids_of(old_es).contains(a.resource_id));
                assert(ids_of(old(self).stored_projects()).contains(a.project_id));
                assert(a.resource_id != id);
                assert(ids_of(old_es.subrange(0, old_es.len() as int)).contains(a.resource_id));
                assert(ids_of(kept_v).contains(a.resource_id));
                assert(es == kept_v);
            }
        }
        removed
    }

    /// Drops every assignment that references `id` as project (`by_project`)
    /// or as resource.
    fn drop_refs(&mut self, id: u128, by_project: bool)
        requires
            sorted_rows(old(self).stored_assignments()),
        ensures
            final(self).stored_projects() == old(self).stored_projects(),
            final(self).stored_resources() == old(self).stored_resources(),
            final(self).stored_assignments() == without_refs(old(self).stored_assignments(), id, by_project),
            sorted_rows(final(self).stored_assignments()),
            forall|k: int|
                0 <= k < final(self).stored_assignments().len() ==> old(self).stored_assignments().contains(
                    #[trigger] final(self).stored_assignments()[k],
                ) && (if by_project {
                    final(self).stored_assignments()[k].project_id
                } else {
                    final(self).stored_assignments()[k].resource_id
                }) != id,
    {
        let ghost old_rows = self.assignments@;
        let mut kept: Vec<Assignment> = Vec::new();
        let mut i: usize = 0;
        while i < self.assignments.len()
            invariant
                i <= old_rows.len(),
                self.assignments@ == old_rows,
                self.projects@ == old(self).projects@,
                self.resources@ == old(self).resources@,
                old_rows == old(self).assignments@,
                sorted_rows(old_rows),
                kept@ == without_refs(old_rows.subrange(0, i as int), id, by_project),
                sorted_rows(kept@),
                forall|k: int|
                    0 <= k < kept@.len() ==> exists|j: int| 0 <= j < i && old_rows[j] == #[trigger] kept@[k],
                forall|k: int|
                    0 <= k < kept@.len() ==> (if by_project {
                        (#[trigger] kept@[k]).project_id
                    } else {
                        kept@[k].resource_id
                    }) != id,
            decreases old_rows.len() - i,
        {
            proof {
                let s = old_rows.subrange(0, i + 1);
                assert(s.drop_last() =~= old_rows.subrange(0, i as int));
                assert(s.last() == old_rows[i as int]);
            }
            let a = self.assignments[i];
            let refers = if by_project { a.project_id == id } else { a.resource_id == id };
            if !refers {
                let ghost before = kept@;
                kept.push(a);
                proof {
                    assert forall|x: int, y: int| 0 <= x < y < kept@.len() implies row_lt(#[trigger] kept@[x], #[trigger] kept@[y]) by {
                        if y == kept@.len() - 1 {
                            assert(kept@[x] == before[x]);
                            let j = choose|j: int| 0 <= j < i && old_rows[j] == #[trigger] before[x];
                            assert(row_lt(old_rows[j], old_rows[i as int]));
                        } else {
                            assert(kept@[x] == before[x] && kept@[y] == before[y]);
                        }
                    }
                    assert forall|k: int| 0 <= k < kept@.len() implies exists|j: int| 0 <= j < i + 1 && old_rows[j] == #[trigger] kept@[k] by {
                        if k < kept@.len() - 1 {
                            assert(kept@[k] == before[k]);
                            let j = choose|j: int| 0 <= j < i && old_rows[j] == #[trigger] before[k];
                            assert(old_rows[j] == kept@[k]);
                        } else {
                            assert(old_rows[i as int] == kept@[k]);
                        }
                    }
                    assert forall|k: int| 0 <= k < kept@.len() implies (if by_project {
                        (#[trigger] kept@[k]).project_id
                    } else {
                        kept@[k].resource_id
                    }) != id by {
                        if k < kept@.len() - 1 {
                            assert(kept@[k] == before[k]);
                        }
                    }
                }
            } else {
                proof {
                    assert forall|k: int| 0 <= k < kept@.len() implies exists|j: int| 0 <= j < i + 1 && old_rows[j] == #[trigger] kept@[k] by {
                        let j = choose|j: int| 0 <= j < i && old_rows[j] == #[trigger] kept@[k];
                        assert(old_rows[j] == kept@[k]);
                    }
                }
            }
            i = i + 1;
        }
        proof {
            assert(old_rows.subrange(0, i as int) =~= old_rows);
            assert forall|k: int| 0 <= k < kept@.len() implies old_rows.contains(#[trigger] kept@[k]) by {
                let j = choose|j: int| 0 <= j < i && old_rows[j] == #[trigger] kept@[k];
            }
        }
        self.assignments = kept;
    }
}

} // verus!
