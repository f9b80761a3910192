//! Projects, resources, the assignment relation between them, and filters over it.
use vstd::prelude::*;

use crate::month::MonthScalar;

verus! {

/// A project: an identifier and a display name.
#[derive(Clone, Debug, PartialEq, Eq)]
pub struct Project {
    pub id: u128,
    pub name: String,
}

/// A resource: an identifier and a display name.
#[derive(Clone, Debug, PartialEq, Eq)]
pub struct Resource {
    pub id: u128,
    pub name: String,
}

impl View for Project {
    type V = (u128, Seq<char>);

    open spec fn view(&self) -> (u128, Seq<char>) {
        (self.id, self.name@)
    }
}

impl View for Resource {
    type V = (u128, Seq<char>);

    open spec fn view(&self) -> (u128, Seq<char>) {
        (self.id, self.name@)
    }
}

impl Project {
    /// A copy with the same identifier and name.
    pub fn duplicate(&self) -> (r: Project)
        ensures
            r@ == self@,
    {
        Project { id: self.id, name: self.name.clone() }
    }
}

impl Resource {
    /// A copy with the same identifier and name.
    pub fn duplicate(&self) -> (r: Resource)
        ensures
            r@ == self@,
    {
        Resource { id: self.id, name: self.name.clone() }
    }
}

pub open spec fn project_views(s: Seq<Project>) -> Seq<(u128, Seq<char>)> {
    s.map_values(|p: Project| p@)
}

pub open spec fn resource_views(s: Seq<Resource>) -> Seq<(u128, Seq<char>)> {
    s.map_values(|r: Resource| r@)
}

/// Allocation of a resource to a project for one calendar month. The tuple is
/// its own identity.
#[derive(Clone, Copy, Debug, PartialEq, Eq, Hash, Structural)]
pub struct Assignment {
    pub resource_id: u128,
    pub project_id: u128,
    pub year: i32,
    pub month: i32,
}

impl Assignment {
    /// Whether the assignment falls in the given calendar month.
    pub open spec fn in_month(&self, m: MonthScalar) -> bool {
        self.year == m.year && self.month == m.month as i32
    }

    /// The assignment of `resource_id` to `project_id` in month `m`.
    pub fn of_month(resource_id: u128, project_id: u128, m: MonthScalar) -> (r: Assignment)
        ensures
            r.resource_id == resource_id,
            r.project_id == project_id,
            r.in_month(m),
    {
        Assignment { resource_id, project_id, year: m.year, month: m.month as i32 }
    }
}

/// Selects assignments: each present field must equal the assignment's own,
/// absent fields match anything.
#[derive(Clone, Copy, Debug, PartialEq, Eq)]
pub struct AssignmentFilter {
    pub resource_id: Option<u128>,
    pub project_id: Option<u128>,
    pub year: Option<i32>,
    pub month: Option<i32>,
}

impl Default for AssignmentFilter {
    fn default() -> (r: AssignmentFilter)
        ensures
            r.resource_id is None,
            r.project_id is None,
            r.year is None,
            r.month is None,
    {
        AssignmentFilter { resource_id: None, project_id: None, year: None, month: None }
    }
}

impl AssignmentFilter {
    pub open spec fn admits(&self, a: Assignment) -> bool {
        &&& (self.resource_id matches Some(v) ==> v == a.resource_id)
        &&& (self.project_id matches Some(v) ==> v == a.project_id)
        &&& (self.year matches Some(v) ==> v == a.year)
        &&& (self.month matches Some(v) ==> v == a.month)
    }

    pub open spec fn for_month_spec(m: MonthScalar) -> AssignmentFilter {
        AssignmentFilter { resource_id: None, project_id: None, year: Some(m.year), month: Some(m.month as i32) }
    }

    /// The filter that selects every assignment of month `m`.
    pub fn for_month(m: MonthScalar) -> (r: AssignmentFilter)
        ensures
            r == AssignmentFilter::for_month_spec(m),
            forall|a: Assignment| r.admits(a) <==> a.in_month(m),
    {
        AssignmentFilter { resource_id: None, project_id: None, year: Some(m.year), month: Some(m.month as i32) }
    }

    /// Whether `a` matches every field that is present.
    pub fn matches(&self, a: &Assignment) -> (r: bool)
        ensures
            r == self.admits(*a),
    {
        let r = match self.resource_id {
            Some(v) => v == a.resource_id,
            None => true,
        };
        let p = match self.project_id {
            Some(v) => v == a.project_id,
            None => true,
        };
        let y = match self.year {
            Some(v) => v == a.year,
            None => true,
        };
        let m = match self.month {
            Some(v) => v == a.month,
            None => true,
        };
        r && p && y && m
    }
}

/// The rows of `rows` that `f` admits, in order.
pub open spec fn select(rows: Seq<Assignment>, f: AssignmentFilter) -> Seq<Assignment>
    decreases rows.len(),
{
    if rows.len() == 0 {
        Seq::empty()
    } else if f.admits(rows.last()) {
        select(rows.drop_last(), f).push(rows.last())
    } else {
        select(rows.drop_last(), f)
    }
}

/// Returns the rows that `f` admits, in their order.
pub fn select_rows(rows: &Vec<Assignment>, f: &AssignmentFilter) -> (r: Vec<Assignment>)
    ensures
        r@ == select(rows@, *f),
{
    let mut out: Vec<Assignment> = Vec::new();
    let mut i: usize = 0;
    while i < rows.len()
        invariant
            i <= rows.len(),
            out@ == select(rows@.subrange(0, i as int), *f),
        decreases rows.len() - i,
    {
        proof {
            assert(rows@.subrange(0, i + 1).drop_last() =~= rows@.subrange(0, i as int));
        }
        if f.matches(&rows[i]) {
            out.push(rows[i]);
        }
        i = i + 1;
    }
    proof {
        assert(rows@.subrange(0, rows.len() as int) =~= rows@);
    }
    out
}

/// `s` without repeats, each kept where it first occurs.
pub open spec fn dedup<A>(s: Seq<A>) -> Seq<A>
    decreases s.len(),
{
    if s.len() == 0 {
        Seq::empty()
    } else if dedup(s.drop_last()).contains(s.last()) {
        dedup(s.drop_last())
    } else {
        dedup(s.drop_last()).push(s.last())
    }
}

/// Dropping repeats keeps exactly the values of `s`, once each.
pub proof fn lemma_dedup<A>(s: Seq<A>)
    ensures
        dedup(s).no_duplicates(),
        dedup(s).to_set() == s.to_set(),
        dedup(s).len() <= s.len(),
        forall|x: A| dedup(s).contains(x) <==> s.contains(x),
    decreases s.len(),
{
    if s.len() > 0 {
        let p = s.drop_last();
        lemma_dedup(p);
        assert(s =~= p.push(s.last()));
        assert forall|x: A| dedup(s).contains(x) <==> s.contains(x) by {
            let d = dedup(p);
            if x == s.last() {
                assert(s[s.len() - 1] == x);
                if !d.contains(x) {
                    assert(d.push(x)[d.len() as int] == x);
                }
            } else {
                if s.contains(x) {
                    let i = choose|i: int| 0 <= i < s.len() && s[i] == x;
                    assert(i < p.len());
                    assert(p[i] == x);
                }
                if p.contains(x) {
                    let i = choose|i: int| 0 <= i < p.len() && p[i] == x;
                    assert(s[i] == x);
                }
                if !d.contains(s.last()) {
                    if d.push(s.last()).contains(x) {
                        let i = choose|i: int| 0 <= i < d.len() + 1 && d.push(s.last())[i] == x;
                        assert(d[i] == x);
                    }
                    if d.contains(x) {
                        let i = choose|i: int| 0 <= i < d.len() && d[i] == x;
                        assert(d.push(s.last())[i] == x);
                    }
                }
            }
        }
        assert(dedup(s).to_set() =~= s.to_set());
    } else {
        assert(dedup(s).to_set() =~= s.to_set());
    }
}

} // verus!
