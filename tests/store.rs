use backend_core::domain::{Assignment, AssignmentFilter, Project, Resource};
use backend_core::store::{MemoryStore, StoreError};

fn project(id: u128, name: &str) -> Project {
    Project { id, name: name.to_string() }
}

fn resource(id: u128, name: &str) -> Resource {
    Resource { id, name: name.to_string() }
}

fn month_filter(year: i32, month: i32) -> AssignmentFilter {
    AssignmentFilter { year: Some(year), month: Some(month), ..Default::default() }
}

#[test]
fn repo_create_assign_delete_flow() {
    let mut repo = MemoryStore::new();

    let p = repo.create_project("Test Project".to_string());
    let r = repo.create_resource("Test Resource".to_string());

    let a = Assignment { resource_id: r.id, project_id: p.id, year: 2024, month: 3 };
    repo.assign(a).unwrap();

    let rows = repo.list_assignments(&month_filter(2024, 3));
    assert_eq!(rows.len(), 1);
    assert_eq!(rows[0], a);

    let removed = repo.unassign(a);
    assert_eq!(removed, 1);

    assert_eq!(repo.delete_resource(r.id), 1);
    assert_eq!(repo.delete_project(p.id), 1);
}

#[test]
fn created_ids_are_version_four() {
    let mut repo = MemoryStore::new();
    let p = repo.create_project("A".to_string());
    let q = repo.create_project("B".to_string());
    assert_ne!(p.id, q.id);
    assert_eq!((p.id >> 76) & 0xf, 4);
    assert_eq!((p.id >> 62) & 0x3, 2);
    assert_eq!(repo.list_projects(), vec![p, q]);
}

#[test]
fn assign_twice_leaves_one_row() {
    let mut repo = MemoryStore::new();
    repo.upsert_project(project(1, "P"));
    repo.upsert_resource(resource(2, "R"));
    let a = Assignment { resource_id: 2, project_id: 1, year: 2024, month: 5 };
    assert_eq!(repo.assign(a), Ok(()));
    assert_eq!(repo.assign(a), Ok(()));
    let all = repo.list_assignments(&AssignmentFilter::default());
    assert_eq!(all, vec![a]);
}

#[test]
fn assign_needs_stored_project_and_resource() {
    let mut repo = MemoryStore::new();
    repo.upsert_project(project(1, "P"));
    let a = Assignment { resource_id: 2, project_id: 1, year: 2024, month: 5 };
    assert_eq!(repo.assign(a), Err(StoreError::MissingResource));
    let b = Assignment { resource_id: 2, project_id: 9, year: 2024, month: 5 };
    assert_eq!(repo.assign(b), Err(StoreError::MissingProject));
    assert!(repo.list_assignments(&AssignmentFilter::default()).is_empty());
}

#[test]
fn unassign_counts_removed_rows() {
    let mut repo = MemoryStore::new();
    repo.upsert_project(project(1, "P"));
    repo.upsert_resource(resource(2, "R"));
    let a = Assignment { resource_id: 2, project_id: 1, year: 2024, month: 5 };
    assert_eq!(repo.unassign(a), 0);
    repo.assign(a).unwrap();
    assert_eq!(repo.unassign(a), 1);
    assert_eq!(repo.unassign(a), 0);
    assert!(repo.list_assignments(&AssignmentFilter::default()).is_empty());
}

#[test]
fn delete_cascades_to_assignments() {
    let mut repo = MemoryStore::new();
    repo.upsert_project(project(1, "P1"));
    repo.upsert_project(project(3, "P3"));
    repo.upsert_resource(resource(2, "R2"));
    repo.upsert_resource(resource(4, "R4"));
    repo.assign(Assignment { resource_id: 2, project_id: 1, year: 2024, month: 1 }).unwrap();
    repo.assign(Assignment { resource_id: 4, project_id: 1, year: 2024, month: 2 }).unwrap();
    repo.assign(Assignment { resource_id: 2, project_id: 3, year: 2024, month: 2 }).unwrap();

    assert_eq!(repo.delete_resource(2), 1);
    let left = repo.list_assignments(&AssignmentFilter::default());
    assert_eq!(left, vec![Assignment { resource_id: 4, project_id: 1, year: 2024, month: 2 }]);
    let by_resource = AssignmentFilter { resource_id: Some(2), ..Default::default() };
    assert_eq!(repo.list_assignments(&by_resource).len(), 0);

    assert_eq!(repo.delete_project(1), 1);
    assert!(repo.list_assignments(&AssignmentFilter::default()).is_empty());
    assert_eq!(repo.delete_project(1), 0);
    assert_eq!(repo.list_projects(), vec![project(3, "P3")]);
}

#[test]
fn assignments_come_in_storage_order() {
    let mut repo = MemoryStore::new();
    repo.upsert_project(project(1, "P1"));
    repo.upsert_project(project(3, "P3"));
    repo.upsert_resource(resource(2, "R2"));
    repo.upsert_resource(resource(4, "R4"));
    let late = Assignment { resource_id: 2, project_id: 1, year: 2025, month: 1 };
    let b = Assignment { resource_id: 4, project_id: 3, year: 2024, month: 6 };
    let a = Assignment { resource_id: 4, project_id: 1, year: 2024, month: 6 };
    let c = Assignment { resource_id: 2, project_id: 3, year: 2024, month: 6 };
    let early = Assignment { resource_id: 4, project_id: 3, year: 2024, month: 2 };
    for x in [late, b, a, c, early] {
        repo.assign(x).unwrap();
    }
    assert_eq!(repo.list_assignments(&AssignmentFilter::default()), vec![early, a, c, b, late]);
    assert_eq!(repo.list_assignments(&month_filter(2024, 6)), vec![a, c, b]);
    let f = AssignmentFilter { project_id: Some(3), resource_id: Some(4), ..Default::default() };
    assert_eq!(repo.list_assignments(&f), vec![early, b]);
}

#[test]
fn lookup_by_ids_skips_unknown_and_repeated_ids() {
    let mut repo = MemoryStore::new();
    repo.upsert_project(project(1, "P1"));
    repo.upsert_project(project(3, "P3"));
    assert_eq!(repo.projects(&vec![]), vec![]);
    assert_eq!(repo.projects(&vec![3, 9, 3, 1]), vec![project(1, "P1"), project(3, "P3")]);
    repo.upsert_project(project(3, "Renamed"));
    assert_eq!(repo.projects(&vec![3]), vec![project(3, "Renamed")]);
    assert_eq!(repo.list_projects().len(), 2);
}

#[test]
fn filter_matches_only_present_fields() {
    let a = Assignment { resource_id: 2, project_id: 1, year: 2024, month: 5 };
    assert!(AssignmentFilter::default().matches(&a));
    assert!(month_filter(2024, 5).matches(&a));
    assert!(!month_filter(2024, 6).matches(&a));
    assert!(!AssignmentFilter { project_id: Some(2), ..Default::default() }.matches(&a));
}
