use backend_core::domain::{Assignment, Project, Resource};
use backend_core::matrix::{build_project_matrix, distinct_months, ProjectMonthMatrix, ResourceMonthMatrix};
use backend_core::month::MonthScalar;
use backend_core::mutation::{AssignInput, CreateProjectInput, CreateResourceInput, MutationRoot, UnassignInput};
use backend_core::query::QueryRoot;
use backend_core::resolver::KeyResolver;
use backend_core::store::MemoryStore;

fn months(texts: &[&str]) -> Vec<MonthScalar> {
    texts.iter().map(|t| MonthScalar::parse(t).unwrap()).collect()
}

fn project_cells(m: &ProjectMonthMatrix, project_id: u128) -> Vec<Vec<u128>> {
    let row = m.rows.iter().find(|row| row.project.id == project_id).unwrap();
    row.cells.iter().map(|c| c.resources.iter().map(|r| r.id).collect()).collect()
}

fn resource_cells(m: &ResourceMonthMatrix, resource_id: u128) -> Vec<Vec<u128>> {
    let row = m.rows.iter().find(|row| row.resource.id == resource_id).unwrap();
    row.cells.iter().map(|c| c.projects.iter().map(|p| p.id).collect()).collect()
}

#[test]
fn project_and_resource_month_matrix_includes_all_rows_and_cells() {
    let mut repo = MemoryStore::new();
    let p1 = Project { id: 11, name: "P1".into() };
    let p2 = Project { id: 12, name: "P2".into() };
    let r1 = Resource { id: 21, name: "R1".into() };
    let r2 = Resource { id: 22, name: "R2".into() };
    repo.upsert_project(p1.clone());
    repo.upsert_project(p2.clone());
    repo.upsert_resource(r1.clone());
    repo.upsert_resource(r2.clone());
    repo.assign(Assignment { resource_id: r1.id, project_id: p1.id, year: 2024, month: 3 }).unwrap();
    repo.assign(Assignment { resource_id: r2.id, project_id: p2.id, year: 2024, month: 4 }).unwrap();

    let query = QueryRoot;
    let pm = query.project_month_matrix(&repo, months(&["2024-03", "2024-04"]));
    assert_eq!(pm.months.len(), 2);
    assert_eq!(pm.rows.len(), 2);
    for row in &pm.rows {
        assert_eq!(row.cells.len(), 2);
    }
    let p1_cells = project_cells(&pm, p1.id);
    assert_eq!(p1_cells[0].len(), 1);
    assert_eq!(p1_cells[0][0], r1.id);

    let rm = query.resource_month_matrix(&repo, months(&["2024-03", "2024-04"]));
    assert_eq!(rm.rows.len(), 2);
    for row in &rm.rows {
        assert_eq!(row.cells.len(), 2);
    }
}

#[test]
fn graphql_create_assign_and_query_tables() {
    let mut repo = MemoryStore::new();
    let mutation = MutationRoot;
    let query = QueryRoot;

    let r = mutation.create_resource(&mut repo, CreateResourceInput { name: "Alice".into() });
    assert_eq!(r.name, "Alice");
    let p = mutation.create_project(&mut repo, CreateProjectInput { name: "Alpha".into() });
    assert_eq!(p.name, "Alpha");

    let month = MonthScalar::parse("2024-03").unwrap();
    let a = mutation
        .assign(&mut repo, AssignInput { resource_id: r.id, project_id: p.id, month })
        .unwrap();
    assert_eq!(a, Assignment { resource_id: r.id, project_id: p.id, year: 2024, month: 3 });

    let assigns = query.assignments(&repo);
    assert_eq!(assigns.len(), 1);
    assert_eq!(assigns[0].project_id, p.id);
    assert_eq!(assigns[0].resource_id, r.id);

    let pm = query.project_month_matrix(&repo, vec![month]);
    assert_eq!(pm.months, vec![month]);
    assert_eq!(pm.months[0].as_str(), "2024-03");
    assert!(!pm.rows.is_empty());
    for row in &pm.rows {
        assert_eq!(row.cells.len(), 1);
    }
    assert_eq!(project_cells(&pm, p.id), vec![vec![r.id]]);
    let alice = &pm.rows[0].cells[0].resources[0];
    assert_eq!(alice.name, "Alice");

    let rm = query.resource_month_matrix(&repo, vec![month]);
    assert_eq!(rm.months.len(), 1);
    assert_eq!(resource_cells(&rm, r.id), vec![vec![p.id]]);

    assert!(mutation.delete_resource(&mut repo, r.id));
    assert!(query.resource(&repo, r.id).is_none());

    let input = UnassignInput { resource_id: r.id, project_id: p.id, month };
    assert!(!mutation.unassign(&mut repo, input));

    assert!(mutation.delete_project(&mut repo, p.id));
    assert!(query.projects(&repo).is_empty());
}

#[test]
fn matrix_with_no_months_has_every_row_and_no_cells() {
    let mut repo = MemoryStore::new();
    repo.upsert_project(Project { id: 1, name: "A".into() });
    repo.upsert_project(Project { id: 2, name: "B".into() });
    let pm = QueryRoot.project_month_matrix(&repo, vec![]);
    assert_eq!(pm.rows.len(), 2);
    assert!(pm.rows.iter().all(|row| row.cells.is_empty()));
    assert_eq!(pm.rows[0].project, Project { id: 1, name: "A".into() });
    assert_eq!(pm.rows[1].project, Project { id: 2, name: "B".into() });
}

#[test]
fn matrix_cells_for_single_assignment() {
    let mut repo = MemoryStore::new();
    repo.upsert_project(Project { id: 1, name: "P1".into() });
    repo.upsert_project(Project { id: 2, name: "P2".into() });
    repo.upsert_resource(Resource { id: 10, name: "R1".into() });
    repo.upsert_resource(Resource { id: 20, name: "R2".into() });
    repo.assign(Assignment { resource_id: 10, project_id: 1, year: 2024, month: 3 }).unwrap();
    let ms = months(&["2024-03", "2024-04"]);

    let pm = QueryRoot.project_month_matrix(&repo, ms.clone());
    assert_eq!(project_cells(&pm, 1), vec![vec![10], vec![]]);
    assert_eq!(project_cells(&pm, 2), vec![vec![], vec![]]);
    assert_eq!(pm.rows[0].cells[0].resources, vec![Resource { id: 10, name: "R1".into() }]);

    let rm = QueryRoot.resource_month_matrix(&repo, ms);
    assert_eq!(resource_cells(&rm, 10), vec![vec![1], vec![]]);
    assert_eq!(resource_cells(&rm, 20), vec![vec![], vec![]]);
    assert_eq!(rm.rows[0].cells[0].projects, vec![Project { id: 1, name: "P1".into() }]);
}

#[test]
fn matrix_keeps_repeated_months_and_rows_without_assignments() {
    let mut repo = MemoryStore::new();
    repo.upsert_project(Project { id: 1, name: "P1".into() });
    repo.upsert_project(Project { id: 2, name: "Idle".into() });
    repo.upsert_resource(Resource { id: 10, name: "R1".into() });
    repo.upsert_resource(Resource { id: 20, name: "R2".into() });
    repo.assign(Assignment { resource_id: 20, project_id: 1, year: 2024, month: 5 }).unwrap();
    repo.assign(Assignment { resource_id: 10, project_id: 1, year: 2024, month: 5 }).unwrap();
    let ms = months(&["2024-05", "2023-01", "2024-05"]);
    let pm = QueryRoot.project_month_matrix(&repo, ms.clone());
    assert_eq!(pm.months, ms);
    assert_eq!(pm.rows.len(), 2);
    assert_eq!(project_cells(&pm, 1), vec![vec![10, 20], vec![], vec![10, 20]]);
    assert_eq!(project_cells(&pm, 2), vec![vec![], vec![], vec![]]);
}

#[test]
fn distinct_months_keep_first_occurrence_order() {
    let ms = months(&["2024-05", "2023-01", "2024-05", "2023-01", "2022-12"]);
    assert_eq!(distinct_months(&ms), months(&["2024-05", "2023-01", "2022-12"]));
}

#[test]
fn builder_leaves_out_ids_the_resolver_does_not_know() {
    let projects = vec![Project { id: 1, name: "P1".into() }];
    let scanned = vec![
        Assignment { resource_id: 10, project_id: 1, year: 2024, month: 5 },
        Assignment { resource_id: 30, project_id: 1, year: 2024, month: 5 },
    ];
    let mut known = KeyResolver::new();
    known.load_many(&vec![10, 30]);
    assert_eq!(known.take_batch(), vec![10, 30]);
    known.complete(&vec![(10, "R1".to_string())]);
    let pm = build_project_matrix(months(&["2024-05"]), &projects, &scanned, &known);
    assert_eq!(pm.rows[0].cells[0].resources, vec![Resource { id: 10, name: "R1".into() }]);
}

#[test]
fn lookup_by_id_returns_the_stored_entity() {
    let mut repo = MemoryStore::new();
    repo.upsert_resource(Resource { id: 5, name: "R".into() });
    assert_eq!(QueryRoot.resource(&repo, 5), Some(Resource { id: 5, name: "R".into() }));
    assert_eq!(QueryRoot.project(&repo, 5), None);
    assert_eq!(QueryRoot.resources(&repo).len(), 1);
}
