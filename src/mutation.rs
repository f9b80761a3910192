//! Write operations over a store: create and delete entities, assign and
//! unassign resources to projects by month.
use vstd::prelude::*;

use crate::domain::{Assignment, Project, Resource};
use crate::month::MonthScalar;
use crate::store::{count_of, ids_of, upserted, without_id, without_refs, MemoryStore, StoreError};

verus! {

/// Name of a resource to create.
#[derive(Clone, Debug)]
pub struct CreateResourceInput {
    pub name: String,
}

/// Name of a project to create.
#[derive(Clone, Debug)]
pub struct CreateProjectInput {
    pub name: String,
}

/// A resource, a project and a month to assign the one to the other in.
#[derive(Clone, Copy, Debug)]
pub struct AssignInput {
    pub resource_id: u128,
    pub project_id: u128,
    pub month: MonthScalar,
}

/// A resource, a project and a month whose assignment is to be removed.
#[derive(Clone, Copy, Debug)]
pub struct UnassignInput {
    pub resource_id: u128,
    pub project_id: u128,
    pub month: MonthScalar,
}

pub open spec fn assignment_of(resource_id: u128, project_id: u128, m: MonthScalar) -> Assignment {
    Assignment { resource_id, project_id, year: m.year, month: m.month as i32 }
}

/// Write operations of the service.
pub struct MutationRoot;

impl MutationRoot {
    /// Creates a project under a fresh id.
    pub fn create_project(&self, store: &mut MemoryStore, input: CreateProjectInput) -> (r: Project)
        requires
            old(store).wf(),
        ensures
            final(store).wf(),
            r.name@ == input.name@,
            final(store).stored_projects() == upserted(old(store).stored_projects(), r@),
            final(store).stored_resources() == old(store).stored_resources(),
            final(store).stored_assignments() == old(store).stored_assignments(),
    {
        store.create_project(input.name)
    }

    /// Creates a resource under a fresh id.
    pub fn create_resource(&self, store: &mut MemoryStore, input: CreateResourceInput) -> (r: Resource)
        requires
            old(store).wf(),
        ensures
            final(store).wf(),
            r.name@ == input.name@,
            final(store).stored_resources() == upserted(old(store).stored_resources(), r@),
            final(store).stored_projects() == old(store).stored_projects(),
            final(store).stored_assignments() == old(store).stored_assignments(),
    {
        store.create_resource(input.name)
    }

    /// Deletes a project and its assignments; true when a project was deleted.
    pub fn delete_project(&self, store: &mut MemoryStore, id: u128) -> (r: bool)
        requires
            old(store).wf(),
        ensures
            final(store).wf(),
            r == ids_of(old(store).stored_projects()).contains(id),
            final(store).stored_projects() == without_id(old(store).stored_projects(), id),
            final(store).stored_resources() == old(store).stored_resources(),
            final(store).stored_assignments() == without_refs(old(store).stored_assignments(), id, true),
    {
        store.delete_project(id) > 0
    }

    /// Deletes a resource and its assignments; true when a resource was deleted.
    pub fn delete_resource(&self, store: &mut MemoryStore, id: u128) -> (r: bool)
        requires
            old(store).wf(),
        ensures
            final(store).wf(),
            r == ids_of(old(store).stored_resources()).contains(id),
            final(store).stored_resources() == without_id(old(store).stored_resources(), id),
            final(store).stored_projects() == old(store).stored_projects(),
            final(store).stored_assignments() == without_refs(old(store).stored_assignments(), id, false),
    {
        store.delete_resource(id) > 0
    }

    /// Assigns the resource to the project for the month; assigning again
    /// changes nothing.
    pub fn assign(&self, store: &mut MemoryStore, input: AssignInput) -> (r: Result<Assignment, StoreError>)
        requires
            old(store).wf(),
        ensures
            final(store).wf(),
            final(store).stored_projects() == old(store).stored_projects(),
            final(store).stored_resources() == old(store).stored_resources(),
            (r == Err::<Assignment, StoreError>(StoreError::MissingProject)) <==> !ids_of(
                old(store).stored_projects(),
            ).contains(input.project_id),
            (r == Err::<Assignment, StoreError>(StoreError::MissingResource)) <==> ids_of(
                old(store).stored_projects(),
            ).contains(input.project_id) && !ids_of(old(store).stored_resources()).contains(
                input.resource_id,
            ),
            r is Ok ==> r->Ok_0 == assignment_of(input.resource_id, input.project_id, input.month),
            r is Err ==> final(store).stored_assignments() == old(store).stored_assignments(),
            old(store).stored_assignments().contains(
                assignment_of(input.resource_id, input.project_id, input.month),
            ) ==> final(store).stored_assignments() == old(store).stored_assignments(),
            r is Ok ==> forall|x: Assignment|
                #[trigger] final(store).stored_assignments().contains(x) <==> old(
                    store,
                ).stored_assignments().contains(x) || x == assignment_of(
                    input.resource_id,
                    input.project_id,
                    input.month,
                ),
            r is Ok ==> count_of(
                final(store).stored_assignments(),
                assignment_of(input.resource_id, input.project_id, input.month),
            ) == 1,
    {
        let a = Assignment::of_month(input.resource_id, input.project_id, input.month);
        match store.assign(a) {
            Ok(()) => Ok(a),
            Err(e) => Err(e),
        }
    }

    /// Removes the assignment; true when a row was removed.
    pub fn unassign(&self, store: &mut MemoryStore, input: UnassignInput) -> (r: bool)
        requires
            old(store).wf(),
        ensures
            final(store).wf(),
            final(store).stored_projects() == old(store).stored_projects(),
            final(store).stored_resources() == old(store).stored_resources(),
            r == old(store).stored_assignments().contains(
                assignment_of(input.resource_id, input.project_id, input.month),
            ),
            count_of(
                final(store).stored_assignments(),
                assignment_of(input.resource_id, input.project_id, input.month),
            ) == 0,
            final(store).stored_assignments().len() == old(store).stored_assignments().len() - (if r {
                1int
            } else {
                0int
            }),
            forall|x: Assignment|
                #[trigger] final(store).stored_assignments().contains(x) <==> old(
                    store,
                ).stored_assignments().contains(x) && x != assignment_of(
                    input.resource_id,
                    input.project_id,
                    input.month,
                ),
    {
        let a = Assignment::of_month(input.resource_id, input.project_id, input.month);
        store.unassign(a) > 0
    }
}

} // verus!
