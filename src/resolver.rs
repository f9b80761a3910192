//! A per-request, memoizing key resolver that gathers the ids asked for while a
//! response is built and hands them out as one deduplicated batch.
//!
//! The resolver decides; the caller performs the batched lookup and reports
//! what came back with [`KeyResolver::complete`] or [`KeyResolver::fail`].
use vstd::prelude::*;

use std::collections::HashMap;

use crate::domain::dedup;

verus! {

broadcast use vstd::std_specs::hash::group_hash_axioms;

pub open spec fn name_view(o: Option<String>) -> Option<Seq<char>> {
    match o {
        Some(s) => Some(s@),
        None => None,
    }
}

pub open spec fn pair_views(found: Seq<(u128, String)>) -> Seq<(u128, Seq<char>)> {
    found.map_values(|e: (u128, String)| (e.0, e.1@))
}

/// The name that the last entry with identifier `id` carries in `found`.
pub open spec fn found_name(found: Seq<(u128, Seq<char>)>, id: u128) -> Option<Seq<char>>
    decreases found.len(),
{
    if found.len() == 0 {
        None
    } else if found.last().0 == id {
        Some(found.last().1)
    } else {
        found_name(found.drop_last(), id)
    }
}

/// The ids of `ids` that are not already queued, in flight or resolved, each
/// once, in the order of their first request.
pub open spec fn fresh_keys(
    ids: Seq<u128>,
    pending: Seq<u128>,
    in_flight: Seq<u128>,
    resolved: Set<u128>,
) -> Seq<u128>
    decreases ids.len(),
{
    if ids.len() == 0 {
        Seq::empty()
    } else {
        let f = fresh_keys(ids.drop_last(), pending, in_flight, resolved);
        let x = ids.last();
        if f.contains(x) || pending.contains(x) || in_flight.contains(x) || resolved.contains(x) {
            f
        } else {
            f.push(x)
        }
    }
}

/// Per-request lookup cache. An id is resolved (to a name, or to not-found),
/// queued for the next batch, in flight in a batch that has been handed out,
/// or unknown.
pub struct KeyResolver {
    cache: HashMap<u128, Option<String>>,
    pending: Vec<u128>,
    in_flight: Vec<u128>,
}

impl KeyResolver {
    /// What each resolved id resolved to: `Some(name)`, or `None` for not found.
    pub closed spec fn resolved(&self) -> Map<u128, Option<Seq<char>>> {
        self.cache@.map_values(|o: Option<String>| name_view(o))
    }

    /// Ids queued for the next batch, in the order they were first asked for.
    pub closed spec fn pending(&self) -> Seq<u128> {
        self.pending@
    }

    /// Ids of batches handed out and not yet completed.
    pub closed spec fn in_flight(&self) -> Seq<u128> {
        self.in_flight@
    }

    proof fn lemma_resolved(&self)
        ensures
            forall|k: u128| #[trigger]
                self.resolved().contains_key(k) <==> self.cache@.contains_key(k),
            forall|k: u128| #[trigger]
                self.cache@.contains_key(k) ==> self.resolved()[k] == name_view(self.cache@[k]),
    {
    }

    pub open spec fn wf(&self) -> bool {
        &&& self.pending().no_duplicates()
        &&& self.in_flight().no_duplicates()
        &&& forall|k: u128| #[trigger]
            self.pending().contains(k) ==> !self.in_flight().contains(k)
                && !self.resolved().contains_key(k)
        &&& forall|k: u128| #[trigger]
            self.in_flight().contains(k) ==> !self.resolved().contains_key(k)
    }

    /// A resolver with nothing resolved or queued.
    pub fn new() -> (r: KeyResolver)
        ensures
            r.wf(),
            r.resolved() == Map::<u128, Option<Seq<char>>>::empty(),
            r.pending() == Seq::<u128>::empty(),
            r.in_flight() == Seq::<u128>::empty(),
    {
        let r = KeyResolver { cache: HashMap::new(), pending: Vec::new(), in_flight: Vec::new() };
        proof {
            assert(r.resolved() =~= Map::<u128, Option<Seq<char>>>::empty());
        }
        r
    }

    /// What `id` resolved to, if it has been resolved in this request.
    pub fn get(&self, id: u128) -> (r: Option<Option<String>>)
        ensures
            r is Some <==> self.resolved().contains_key(id),
            r is Some ==> name_view(r->Some_0) == self.resolved()[id],
    {
        match self.cache.get(&id) {
            Some(v) => match v {
                Some(s) => Some(Some(s.clone())),
                None => Some(None),
            },
            None => None,
        }
    }

    /// Asks for `id`. A resolved id is answered from the cache and nothing is
    /// queued; any other id joins the next batch unless it is already queued or
    /// in flight.
    pub fn load_one(&mut self, id: u128) -> (r: Option<Option<String>>)
        requires
            old(self).wf(),
        ensures
            final(self).wf(),
            final(self).resolved() == old(self).resolved(),
            final(self).in_flight() == old(self).in_flight(),
            r is Some <==> old(self).resolved().contains_key(id),
            r is Some ==> name_view(r->Some_0) == old(self).resolved()[id],
            final(self).pending() == old(self).pending() + fresh_keys(
                seq![id],
                old(self).pending(),
                old(self).in_flight(),
                old(self).resolved().dom(),
            ),
    {
        let r = self.get(id);
        proof {
            let ids = seq![id];
            assert(ids.drop_last() =~= Seq::<u128>::empty());
            assert(ids.last() == id);
            let e = fresh_keys(
                Seq::<u128>::empty(),
                old(self).pending(),
                old(self).in_flight(),
                old(self).resolved().dom(),
            );
            assert(e =~= Seq::<u128>::empty());
            assert(!e.contains(id));
        }
        if r.is_none() && !contains_id(&self.pending, id) && !contains_id(&self.in_flight, id) {
            self.pending.push(id);
            proof {
                assert(self.pending@ =~= old(self).pending@ + seq![id]);
                assert forall|k: u128| #[trigger] self.pending().contains(k) implies !self.in_flight().contains(k)
                    && !self.resolved().contains_key(k) by {
                    if k != id {
                        let i = choose|i: int| 0 <= i < self.pending@.len() && self.pending@[i] == k;
                        assert(old(self).pending@[i] == k);
                        assert(old(self).pending().contains(k));
                    }
                }
            }
        } else {
            proof {
                assert(self.pending@ =~= old(self).pending@ + Seq::<u128>::empty());
            }
        }
        r
    }

    /// Asks for every id of `ids` in turn, as [`KeyResolver::load_one`] does.
    pub fn load_many(&mut self, ids: &Vec<u128>)
        requires
            old(self).wf(),
        ensures
            final(self).wf(),
            final(self).resolved() == old(self).resolved(),
            final(self).in_flight() == old(self).in_flight(),
            final(self).pending() == old(self).pending() + fresh_keys(
                ids@,
                old(self).pending(),
                old(self).in_flight(),
                old(self).resolved().dom(),
            ),
    {
        let ghost pending0 = self.pending();
        let ghost f0 = self.in_flight();
        let ghost r0 = self.resolved();
        let mut i: usize = 0;
        while i < ids.len()
            invariant
                i <= ids.len(),
                self.wf(),
                self.resolved() == r0,
                self.in_flight() == f0,
                self.pending() == pending0 + fresh_keys(ids@.subrange(0, i as int), pending0, f0, r0.dom()),
            decreases ids.len() - i,
        {
            let ghost before = self.pending();
            let ghost fk = fresh_keys(ids@.subrange(0, i as int), pending0, f0, r0.dom());
            let x = ids[i];
            self.load_one(x);
            proof {
                let s = ids@.subrange(0, i + 1);
                assert(s.drop_last() =~= ids@.subrange(0, i as int));
                assert(s.last() == x);
                let single = seq![x];
                assert(single.drop_last() =~= Seq::<u128>::empty());
                assert(fresh_keys(Seq::<u128>::empty(), before, f0, r0.dom()) =~= Seq::<u128>::empty());
                assert(before.contains(x) <==> (pending0.contains(x) || fk.contains(x))) by {
                    if before.contains(x) {
                        let j = choose|j: int| 0 <= j < before.len() && before[j] == x;
                        if j < pending0.len() {
                            assert(pending0[j] == x);
                        } else {
                            assert(fk[j - pending0.len()] == x);
                        }
                    }
                    if pending0.contains(x) {
                        let j = choose|j: int| 0 <= j < pending0.len() && pending0[j] == x;
                        assert(before[j] == x);
                    }
                    if fk.contains(x) {
                        let j = choose|j: int| 0 <= j < fk.len() && fk[j] == x;
                        assert(before[pending0.len() + j] == x);
                    }
                }
                assert(self.pending() =~= pending0 + fresh_keys(s, pending0, f0, r0.dom()));
            }
            i = i + 1;
        }
        proof {
            assert(ids@.subrange(0, ids.len() as int) =~= ids@);
        }
    }

    /// Closes the batch window: hands out the queued ids, which are then in
    /// flight until the batch completes or fails.
    pub fn take_batch(&mut self) -> (r: Vec<u128>)
        requires
            old(self).wf(),
        ensures
            final(self).wf(),
            r@ == old(self).pending(),
            r@.no_duplicates(),
            final(self).pending() == Seq::<u128>::empty(),
            final(self).in_flight() == old(self).in_flight() + old(self).pending(),
            final(self).resolved() == old(self).resolved(),
    {
        let mut batch: Vec<u128> = Vec::new();
        let mut i: usize = 0;
        let ghost f0 = self.in_flight@;
        while i < self.pending.len()
            invariant
                i <= self.pending@.len(),
                self.pending@ == old(self).pending@,
                self.cache@ == old(self).cache@,
                f0 == old(self).in_flight@,
                batch@ == self.pending@.subrange(0, i as int),
                self.in_flight@ == f0 + batch@,
            decreases self.pending@.len() - i,
        {
            let k = self.pending[i];
            self.in_flight.push(k);
            batch.push(k);
            i = i + 1;
            proof {
                assert(batch@ =~= self.pending@.subrange(0, i as int));
            }
        }
        self.pending = Vec::new();
        proof {
            assert(old(self).pending@.subrange(0, old(self).pending@.len() as int) =~= old(self).pending@);
            let fl = self.in_flight@;
            assert(fl.no_duplicates()) by {
                assert forall|a: int, b: int| 0 <= a < b < fl.len() implies fl[a] != fl[b] by {
                    if b >= f0.len() && a < f0.len() {
                        assert(batch@[b - f0.len()] == fl[b]);
                        assert(old(self).pending().contains(fl[b]));
                        assert(f0[a] == fl[a]);
                    }
                }
            }
            assert forall|k: u128| #[trigger] self.in_flight().contains(k) implies !self.resolved().contains_key(k) by {
                let j = choose|j: int| 0 <= j < fl.len() && fl[j] == k;
                if j < f0.len() {
                    assert(f0[j] == k);
                    assert(old(self).in_flight().contains(k));
                } else {
                    assert(batch@[j - f0.len()] == k);
                    assert(old(self).pending().contains(k));
                }
            }
        }
        batch
    }

    /// Records what the batched lookup returned: each id in flight resolves to
    /// the name that `found` gives it, or to not-found.
    pub fn complete(&mut self, found: &Vec<(u128, String)>)
        requires
            old(self).wf(),
        ensures
            final(self).wf(),
            final(self).pending() == old(self).pending(),
            final(self).in_flight() == Seq::<u128>::empty(),
            forall|k: u128| #[trigger]
                final(self).resolved().contains_key(k) <==> old(self).resolved().contains_key(k)
                    || old(self).in_flight().contains(k),
            forall|k: u128| #[trigger]
                old(self).resolved().contains_key(k) ==> final(self).resolved()[k]
                    == old(self).resolved()[k],
            forall|k: u128| #[trigger]
                old(self).in_flight().contains(k) ==> final(self).resolved()[k] == found_name(
                    pair_views(found@),
                    k,
                ),
    {
        let ghost c0 = self.cache@;
        let ghost fl = self.in_flight@;
        proof {
            old(self).lemma_resolved();
        }
        let mut i: usize = 0;
        while i < self.in_flight.len()
            invariant
                i <= fl.len(),
                self.in_flight@ == fl,
                fl == old(self).in_flight@,
                self.pending@ == old(self).pending@,
                c0 == old(self).cache@,
                forall|k: u128| #[trigger] fl.contains(k) ==> !c0.contains_key(k),
                forall|k: u128| #[trigger]
                    self.cache@.contains_key(k) <==> c0.contains_key(k)
                        || fl.subrange(0, i as int).contains(k),
                forall|k: u128| #[trigger]
                    c0.contains_key(k) ==> self.cache@[k] == c0[k],
                forall|k: u128| #[trigger]
                    fl.subrange(0, i as int).contains(k) ==> name_view(self.cache@[k]) == found_name(pair_views(found@), k),
            decreases fl.len() - i,
        {
            let k = self.in_flight[i];
            let v = lookup_name(found, k);
            self.cache.insert(k, v);
            proof {
                assert(fl[i as int] == k);
                assert(fl.contains(k));
                assert forall|q: u128| #[trigger] fl.subrange(0, i + 1).contains(q) <==> fl.subrange(
                    0,
                    i as int,
                ).contains(q) || q == k by {
                    if fl.subrange(0, i + 1).contains(q) && q != k {
                        let j = choose|j: int| 0 <= j < i + 1 && #[trigger] fl.subrange(0, i + 1)[j] == q;
                        assert(fl.subrange(0, i as int)[j] == q);
                    }
                    if fl.subrange(0, i as int).contains(q) {
                        let j = choose|j: int| 0 <= j < i && #[trigger] fl.subrange(0, i as int)[j] == q;
                        assert(fl.subrange(0, i + 1)[j] == q);
                    }
                    if q == k {
                        assert(fl.subrange(0, i + 1)[i as int] == q);
                    }
                }
            }
            i = i + 1;
        }
        self.in_flight = Vec::new();
        proof {
            assert(fl.subrange(0, fl.len() as int) =~= fl);
            self.lemma_resolved();
            assert forall|k: u128| #[trigger] self.pending().contains(k) implies !self.in_flight().contains(k)
                && !self.resolved().contains_key(k) by {
                assert(old(self).pending().contains(k));
            }
        }
    }

    /// Records that the batched lookup failed: the ids in flight go back to
    /// unknown, and nothing is retried.
    pub fn fail(&mut self)
        requires
            old(self).wf(),
        ensures
            final(self).wf(),
            final(self).pending() == old(self).pending(),
            final(self).in_flight() == Seq::<u128>::empty(),
            final(self).resolved() == old(self).resolved(),
    {
        self.in_flight = Vec::new();
    }
}

/// Whether `v` holds `id`.
pub fn contains_id(v: &Vec<u128>, id: u128) -> (r: bool)
    ensures
        r == v@.contains(id),
{
    let mut i: usize = 0;
    while i < v.len()
        invariant
            i <= v.len(),
            forall|j: int| 0 <= j < i ==> v@[j] != id,
        decreases v.len() - i,
    {
        if v[i] == id {
            proof {
                assert(v@[i as int] == id);
            }
            return true;
        }
        i = i + 1;
    }
    false
}

/// The name that the last entry with identifier `id` carries in `found`.
fn lookup_name(found: &Vec<(u128, String)>, id: u128) -> (r: Option<String>)
    ensures
        name_view(r) == found_name(pair_views(found@), id),
{
    let mut r: Option<String> = None;
    let mut i: usize = 0;
    while i < found.len()
        invariant
            i <= found.len(),
            name_view(r) == found_name(pair_views(found@.subrange(0, i as int)), id),
        decreases found.len() - i,
    {
        proof {
            let s = pair_views(found@.subrange(0, i + 1));
            assert(s.drop_last() =~= pair_views(found@.subrange(0, i as int)));
            assert(s.last() == (found@[i as int].0, found@[i as int].1@));
        }
        if found[i].0 == id {
            r = Some(found[i].1.clone());
        }
        i = i + 1;
    }
    proof {
        assert(found@.subrange(0, found.len() as int) =~= found@);
    }
    r
}

/// Asking a resolver that holds nothing yet for any list of ids queues each
/// distinct id exactly once: the one batch that follows requests exactly the
/// distinct ids asked for.
pub proof fn lemma_first_batch_is_distinct_ids(ids: Seq<u128>)
    ensures
        fresh_keys(ids, Seq::empty(), Seq::empty(), Set::empty()) == dedup(ids),
        dedup(ids).no_duplicates(),
        dedup(ids).to_set() == ids.to_set(),
    decreases ids.len(),
{
    crate::domain::lemma_dedup(ids);
    if ids.len() > 0 {
        lemma_first_batch_is_distinct_ids(ids.drop_last());
    }
}

/// Asking again only for ids that are already resolved queues nothing, so the
/// request costs no further lookup.
pub proof fn lemma_resolved_ids_queue_nothing(
    ids: Seq<u128>,
    pending: Seq<u128>,
    in_flight: Seq<u128>,
    resolved: Set<u128>,
)
    requires
        forall|i: int| 0 <= i < ids.len() ==> resolved.contains(#[trigger] ids[i]),
    ensures
        fresh_keys(ids, pending, in_flight, resolved) == Seq::<u128>::empty(),
    decreases ids.len(),
{
    if ids.len() > 0 {
        let p = ids.drop_last();
        assert forall|i: int| 0 <= i < p.len() implies resolved.contains(#[trigger] p[i]) by {
            assert(p[i] == ids[i]);
        }
        lemma_resolved_ids_queue_nothing(p, pending, in_flight, resolved);
        assert(resolved.contains(ids[ids.len() - 1]));
    }
}

} // verus!
