//! An in-memory registry of owners and queues. It keeps the rules of the
//! shared store (last registration wins, only the owner unregisters, stale
//! owners are reclaimed on lookup, queues drain once, in order) and lets
//! them be exercised and proved without touching the filesystem.
use crate::registry::{check_owner, owner_check_spec, OwnerCheck};
use crate::routing::{opt_view, plan_open, plan_spec, route_open, route_spec, ActionKind, OpenAction, OpenPlan};
use crate::text::views;
use std::collections::HashMap;
use vstd::prelude::*;
use vstd::std_specs::hash::group_hash_axioms;

verus! {

broadcast use group_hash_axioms;

/// One ownership record: `root` is owned by the process `owner_pid`.
pub struct OwnershipRecord {
    pub owner_pid: u32,
    pub root: String,
}

/// Records as (root, owner) pairs.
pub open spec fn entries(s: Seq<OwnershipRecord>) -> Seq<(Seq<char>, u32)> {
    s.map_values(|r: OwnershipRecord| (r.root@, r.owner_pid))
}

/// The records of `s` that are not for `root`, in order.
pub open spec fn without(s: Seq<(Seq<char>, u32)>, root: Seq<char>) -> Seq<(Seq<char>, u32)>
    decreases s.len(),
{
    if s.len() == 0 {
        s
    } else if s.last().0 == root {
        without(s.drop_last(), root)
    } else {
        without(s.drop_last(), root).push(s.last())
    }
}

/// The owner recorded for `root`, the latest record winning.
pub open spec fn owner_of(s: Seq<(Seq<char>, u32)>, root: Seq<char>) -> Option<u32>
    decreases s.len(),
{
    if s.len() == 0 {
        None
    } else if s.last().0 == root {
        Some(s.last().1)
    } else {
        owner_of(s.drop_last(), root)
    }
}

/// How many records there are for `root`.
pub open spec fn count_of(s: Seq<(Seq<char>, u32)>, root: Seq<char>) -> nat
    decreases s.len(),
{
    if s.len() == 0 {
        0
    } else if s.last().0 == root {
        count_of(s.drop_last(), root) + 1
    } else {
        count_of(s.drop_last(), root)
    }
}

/// Registering replaces whatever was recorded for the root.
pub open spec fn register_spec(s: Seq<(Seq<char>, u32)>, root: Seq<char>, pid: u32) -> Seq<(Seq<char>, u32)> {
    without(s, root).push((root, pid))
}

/// Unregistering removes the record only when `pid` is its owner.
pub open spec fn unregister_spec(s: Seq<(Seq<char>, u32)>, root: Seq<char>, pid: u32) -> Seq<(Seq<char>, u32)> {
    if owner_of(s, root) == Some(pid) {
        without(s, root)
    } else {
        s
    }
}

/// What a lookup of `root` by `my_pid` finds, with `live` the processes
/// that are running.
pub open spec fn lookup_spec(s: Seq<(Seq<char>, u32)>, root: Seq<char>, my_pid: u32, live: Seq<u32>) -> Option<OwnerCheck> {
    match owner_of(s, root) {
        None => None,
        Some(p) => Some(owner_check_spec(p, my_pid, live.contains(p))),
    }
}

/// The owner a lookup returns.
pub open spec fn find_owner_spec(s: Seq<(Seq<char>, u32)>, root: Seq<char>, my_pid: u32, live: Seq<u32>) -> Option<u32> {
    match lookup_spec(s, root, my_pid, live) {
        None => None,
        Some(c) => c.owner_spec(),
    }
}

/// The records after a lookup: a stale record is gone.
pub open spec fn after_lookup(s: Seq<(Seq<char>, u32)>, root: Seq<char>, my_pid: u32, live: Seq<u32>) -> Seq<(Seq<char>, u32)> {
    if lookup_spec(s, root, my_pid, live) == Some(OwnerCheck::Stale) {
        without(s, root)
    } else {
        s
    }
}

/// What the queue of `pid` holds.
pub open spec fn queued(q: Map<u32, Seq<Seq<char>>>, pid: u32) -> Seq<Seq<char>> {
    if q.contains_key(pid) {
        q[pid]
    } else {
        Seq::empty()
    }
}

/// Appending `path` to the queue of `pid`.
pub open spec fn enqueue_spec(q: Map<u32, Seq<Seq<char>>>, pid: u32, path: Seq<char>) -> Map<u32, Seq<Seq<char>>> {
    q.insert(pid, queued(q, pid).push(path))
}

/// Facts on the records left once those of `root` are dropped.
pub proof fn lemma_without(s: Seq<(Seq<char>, u32)>, root: Seq<char>, other: Seq<char>)
    ensures
        owner_of(without(s, root), root) is None,
        count_of(without(s, root), root) == 0,
        other != root ==> owner_of(without(s, root), other) == owner_of(s, other),
        other != root ==> count_of(without(s, root), other) == count_of(s, other),
    decreases s.len(),
{
    if s.len() > 0 {
        lemma_without(s.drop_last(), root, other);
        let w = without(s.drop_last(), root);
        if s.last().0 != root {
            assert(w.push(s.last()).drop_last() =~= w);
        }
    }
}

proof fn lemma_push(s: Seq<(Seq<char>, u32)>, e: (Seq<char>, u32), other: Seq<char>)
    ensures
        owner_of(s.push(e), e.0) == Some(e.1),
        count_of(s.push(e), e.0) == count_of(s, e.0) + 1,
        other != e.0 ==> owner_of(s.push(e), other) == owner_of(s, other),
        other != e.0 ==> count_of(s.push(e), other) == count_of(s, other),
{
    assert(s.push(e).drop_last() =~= s);
}

/// The records and queues of cooperating processes, held in memory.
pub struct Registry {
    records: Vec<OwnershipRecord>,
    queues: HashMap<u32, Vec<String>>,
}

impl Registry {
    /// The records, as (root, owner) pairs.
    pub closed spec fn records_view(&self) -> Seq<(Seq<char>, u32)> {
        entries(self.records@)
    }

    /// The queues, by recipient.
    pub closed spec fn queues_view(&self) -> Map<u32, Seq<Seq<char>>> {
        self.queues@.map_values(|v: Vec<String>| views(v@))
    }

    /// At most one record per root.
    pub open spec fn wf(&self) -> bool {
        forall|r: Seq<char>| #[trigger] count_of(self.records_view(), r) <= 1
    }

    /// An empty registry.
    pub fn new() -> (r: Registry)
        ensures
            r.wf(),
            r.records_view() == Seq::<(Seq<char>, u32)>::empty(),
            r.queues_view() == Map::<u32, Seq<Seq<char>>>::empty(),
    {
        let r = Registry { records: Vec::new(), queues: HashMap::new() };
        proof {
            assert(r.records_view() =~= Seq::<(Seq<char>, u32)>::empty());
            assert(r.queues_view() =~= Map::<u32, Seq<Seq<char>>>::empty());
        }
        r
    }

    /// The owner recorded for `root`, live or not.
    fn recorded_owner(&self, root: &String) -> (r: Option<u32>)
        ensures
            r == owner_of(self.records_view(), root@),
    {
        let mut i: usize = self.records.len();
        proof {
            assert(self.records_view().take(i as int) =~= self.records_view());
        }
        while i > 0
            invariant
                i <= self.records@.len(),
                owner_of(self.records_view(), root@) == owner_of(self.records_view().take(i as int), root@),
            decreases i,
        {
            let ghost t = self.records_view().take(i as int);
            proof {
                assert(t.drop_last() =~= self.records_view().take(i - 1));
            }
            if self.records[i - 1].root == *root {
                return Some(self.records[i - 1].owner_pid);
            }
            i = i - 1;
        }
        None
    }

    /// Drops every record of `root`.
    fn drop_root(&mut self, root: &String)
        ensures
            final(self).records_view() == without(old(self).records_view(), root@),
            final(self).queues == old(self).queues,
    {
        let mut kept: Vec<OwnershipRecord> = Vec::new();
        let mut i: usize = 0;
        while i < self.records.len()
            invariant
                i <= self.records@.len(),
                entries(kept@) == without(self.records_view().take(i as int), root@),
            decreases self.records@.len() - i,
        {
            let ghost t = self.records_view().take(i + 1);
            proof {
                assert(t.drop_last() =~= self.records_view().take(i as int));
            }
            if self.records[i].root != *root {
                let ghost before = kept@;
                kept.push(
                    OwnershipRecord {
                        owner_pid: self.records[i].owner_pid,
                        root: self.records[i].root.clone(),
                    },
                );
                proof {
                    assert(entries(kept@) =~= entries(before).push(t.last()));
                }
            }
            i = i + 1;
        }
        proof {
            assert(self.records_view().take(self.records@.len() as int) =~= self.records_view());
        }
        self.records = kept;
    }

    /// Records `pid` as the owner of `root`, replacing any earlier owner.
    pub fn register_root(&mut self, root: &str, pid: u32)
        requires
            old(self).wf(),
        ensures
            final(self).wf(),
            final(self).records_view() == register_spec(old(self).records_view(), root@, pid),
            final(self).queues_view() == old(self).queues_view(),
    {
        let key = String::from_str(root);
        self.drop_root(&key);
        let ghost before = self.records@;
        self.records.push(OwnershipRecord { owner_pid: pid, root: key });
        proof {
            assert(self.records_view() =~= entries(before).push((root@, pid)));
            assert forall|r: Seq<char>| #[trigger] count_of(self.records_view(), r) <= 1 by {
                lemma_without(old(self).records_view(), root@, r);
                lemma_push(entries(before), (root@, pid), r);
                assert(count_of(old(self).records_view(), r) <= 1);
            }
        }
    }

    /// Removes the record of `root` if `pid` owns it; leaves it otherwise.
    pub fn unregister_root(&mut self, root: &str, pid: u32)
        requires
            old(self).wf(),
        ensures
            final(self).wf(),
            final(self).records_view() == unregister_spec(old(self).records_view(), root@, pid),
            final(self).queues_view() == old(self).queues_view(),
    {
        let key = String::from_str(root);
        if self.recorded_owner(&key) == Some(pid) {
            self.drop_root(&key);
            proof {
                assert forall|r: Seq<char>| #[trigger] count_of(self.records_view(), r) <= 1 by {
                    lemma_without(old(self).records_view(), root@, r);
                    assert(count_of(old(self).records_view(), r) <= 1);
                }
            }
        }
    }

    /// The live process other than `my_pid` that owns `root`, if any; a
    /// record whose owner is not in `live` is deleted on the way.
    pub fn find_owner(&mut self, root: &str, my_pid: u32, live: &Vec<u32>) -> (r: Option<u32>)
        requires
            old(self).wf(),
        ensures
            final(self).wf(),
            r == find_owner_spec(old(self).records_view(), root@, my_pid, live@),
            final(self).records_view() == after_lookup(old(self).records_view(), root@, my_pid, live@),
            final(self).queues_view() == old(self).queues_view(),
    {
        let key = String::from_str(root);
        match self.recorded_owner(&key) {
            None => None,
            Some(pid) => {
                let alive = is_listed(live, pid);
                let check = check_owner(pid, my_pid, alive);
                if check.is_stale() {
                    self.drop_root(&key);
                    proof {
                        assert forall|r: Seq<char>| #[trigger] count_of(self.records_view(), r) <= 1 by {
                            lemma_without(old(self).records_view(), root@, r);
                            assert(count_of(old(self).records_view(), r) <= 1);
                        }
                    }
                }
                check.owner()
            },
        }
    }

    /// Appends `file_path` to the queue of `target_pid`; an in-memory
    /// append always succeeds.
    pub fn queue_file_for_instance(&mut self, file_path: &str, target_pid: u32) -> (r: bool)
        ensures
            r,
            final(self).queues_view() == enqueue_spec(old(self).queues_view(), target_pid, file_path@),
            final(self).records_view() == old(self).records_view(),
    {
        let mut files: Vec<String> = match self.queues.remove(&target_pid) {
            Some(v) => v,
            None => Vec::new(),
        };
        let ghost before = files@;
        proof {
            assert(views(before) =~= queued(old(self).queues_view(), target_pid));
        }
        files.push(String::from_str(file_path));
        self.queues.insert(target_pid, files);
        proof {
            assert(views(files@) =~= views(before).push(file_path@));
            assert(self.queues_view() =~= old(self).queues_view().insert(
                target_pid,
                queued(old(self).queues_view(), target_pid).push(file_path@),
            ));
        }
        true
    }

    /// Takes every file queued for `pid`, in the order they came, and
    /// leaves its queue empty.
    pub fn take_queued_files(&mut self, pid: u32) -> (r: Vec<String>)
        ensures
            views(r@) == queued(old(self).queues_view(), pid),
            final(self).queues_view() == old(self).queues_view().remove(pid),
            final(self).records_view() == old(self).records_view(),
    {
        let r = match self.queues.remove(&pid) {
            Some(v) => v,
            None => Vec::new(),
        };
        proof {
            assert(views(r@) =~= queued(old(self).queues_view(), pid));
            assert(self.queues_view() =~= old(self).queues_view().remove(pid));
        }
        r
    }
}

/// Two processes register the same root one after the other: the second
/// is the recorded owner, whatever became of the first; any other process
/// that finds it alive is pointed to it; one record of the root remains.
pub proof fn law_last_registration_wins(
    s: Seq<(Seq<char>, u32)>,
    root: Seq<char>,
    a: u32,
    b: u32,
    my_pid: u32,
    live: Seq<u32>,
)
    requires
        a != b,
    ensures
        owner_of(register_spec(register_spec(s, root, a), root, b), root) == Some(b),
        count_of(register_spec(register_spec(s, root, a), root, b), root) == 1,
        live.contains(b) && my_pid != b ==> find_owner_spec(
            register_spec(register_spec(s, root, a), root, b),
            root,
            my_pid,
            live,
        ) == Some(b),
{
    let s1 = register_spec(s, root, a);
    lemma_without(s1, root, root);
    lemma_push(without(s1, root), (root, b), root);
}

/// A process that does not own a root cannot unregister it: the record
/// stays as it was, and a lookup by any other process still finds the
/// owner while it is alive.
pub proof fn law_only_owner_unregisters(
    s: Seq<(Seq<char>, u32)>,
    root: Seq<char>,
    a: u32,
    b: u32,
    my_pid: u32,
    live: Seq<u32>,
)
    requires
        owner_of(s, root) == Some(a),
        a != b,
    ensures
        unregister_spec(s, root, b) == s,
        live.contains(a) && my_pid != a ==> find_owner_spec(unregister_spec(s, root, b), root, my_pid, live)
            == Some(a),
{
}

/// A record whose owner is not alive is no owner: the lookup returns none
/// and deletes the record, and a later registration leaves the new owner
/// as the one record of the root.
pub proof fn law_stale_owner_reclaimed(
    s: Seq<(Seq<char>, u32)>,
    root: Seq<char>,
    dead: u32,
    c: u32,
    my_pid: u32,
    live: Seq<u32>,
)
    requires
        owner_of(s, root) == Some(dead),
        !live.contains(dead),
    ensures
        find_owner_spec(s, root, my_pid, live) is None,
        owner_of(after_lookup(s, root, my_pid, live), root) is None,
        count_of(after_lookup(s, root, my_pid, live), root) == 0,
        owner_of(register_spec(after_lookup(s, root, my_pid, live), root, c), root) == Some(c),
        count_of(register_spec(after_lookup(s, root, my_pid, live), root, c), root) == 1,
{
    let s1 = after_lookup(s, root, my_pid, live);
    lemma_without(s, root, root);
    lemma_without(s1, root, root);
    lemma_push(without(s1, root), (root, c), root);
}

/// Two files queued for a process come out of one drain in the order they
/// were queued, and a second drain right after finds nothing.
pub proof fn law_drain_once_in_order(q: Map<u32, Seq<Seq<char>>>, pid: u32, a: Seq<char>, b: Seq<char>)
    requires
        queued(q, pid).len() == 0,
    ensures
        queued(enqueue_spec(enqueue_spec(q, pid, a), pid, b), pid) == seq![a, b],
        queued(enqueue_spec(enqueue_spec(q, pid, a), pid, b).remove(pid), pid) == Seq::<Seq<char>>::empty(),
{
    let q2 = enqueue_spec(enqueue_spec(q, pid, a), pid, b);
    assert(queued(q2, pid) =~= seq![a, b]);
}

/// The owner the engine learns of for a request: the registry is asked
/// only when the plan calls for it.
pub open spec fn owner_for_request(
    s: Seq<(Seq<char>, u32)>,
    new_root: Option<Seq<char>>,
    current_root: Option<Seq<char>>,
    my_pid: u32,
    live: Seq<u32>,
) -> Option<u32> {
    match (plan_spec(new_root, current_root), new_root) {
        (OpenPlan::AskOwner, Some(r)) => find_owner_spec(s, r, my_pid, live),
        _ => None,
    }
}

/// The records after a request: a lookup may have reclaimed a stale one.
pub open spec fn records_after_request(
    s: Seq<(Seq<char>, u32)>,
    new_root: Option<Seq<char>>,
    current_root: Option<Seq<char>>,
    my_pid: u32,
    live: Seq<u32>,
) -> Seq<(Seq<char>, u32)> {
    match (plan_spec(new_root, current_root), new_root) {
        (OpenPlan::AskOwner, Some(r)) => after_lookup(s, r, my_pid, live),
        _ => s,
    }
}

/// The queues after a request: the path is appended only for a queueing.
pub open spec fn queues_after_request(q: Map<u32, Seq<Seq<char>>>, kind: ActionKind, path: Seq<char>) -> Map<u32, Seq<Seq<char>>> {
    match kind {
        ActionKind::Queue(p) => enqueue_spec(q, p, path),
        _ => q,
    }
}

impl Registry {
    /// Routes a request for `path`, whose root is `new_root`, made to the
    /// process `my_pid` that owns `current_root`: asks the registry when
    /// needed, queues the path to a live owner, and returns the action,
    /// which for a queueing has already been done here.
    pub fn handle_open_request(
        &mut self,
        path: String,
        new_root: &Option<String>,
        current_root: &Option<String>,
        my_pid: u32,
        live: &Vec<u32>,
    ) -> (r: OpenAction)
        requires
            old(self).wf(),
        ensures
            final(self).wf(),
            r.path_view() == path@,
            r.kind() == route_spec(
                opt_view(*new_root),
                opt_view(*current_root),
                owner_for_request(old(self).records_view(), opt_view(*new_root), opt_view(*current_root), my_pid, live@),
            ),
            final(self).records_view() == records_after_request(
                old(self).records_view(),
                opt_view(*new_root),
                opt_view(*current_root),
                my_pid,
                live@,
            ),
            final(self).queues_view() == queues_after_request(old(self).queues_view(), r.kind(), path@),
    {
        let owner = match (plan_open(new_root, current_root), new_root) {
            (OpenPlan::AskOwner, Some(root)) => self.find_owner(root.as_str(), my_pid, live),
            _ => None,
        };
        let action = route_open(path, new_root, current_root, owner);
        match &action {
            OpenAction::QueueToOwner { pid, path } => {
                self.queue_file_for_instance(path.as_str(), *pid);
            },
            _ => {},
        }
        action
    }
}

/// A request for a document of another project, whose root has no live
/// owner, starts a new process with the path and queues nothing.
pub proof fn law_request_unowned_spawns(
    s: Seq<(Seq<char>, u32)>,
    q: Map<u32, Seq<Seq<char>>>,
    path: Seq<char>,
    new_root: Seq<char>,
    current_root: Seq<char>,
    my_pid: u32,
    live: Seq<u32>,
)
    requires
        new_root != current_root,
        find_owner_spec(s, new_root, my_pid, live) is None,
    ensures
        route_spec(
            Some(new_root),
            Some(current_root),
            owner_for_request(s, Some(new_root), Some(current_root), my_pid, live),
        ) == ActionKind::Spawn,
        queues_after_request(q, ActionKind::Spawn, path) == q,
{
}

/// A request for a document of another project, whose root a live process
/// other than this one owns, is queued to that owner and nothing else.
pub proof fn law_request_owned_queued(
    s: Seq<(Seq<char>, u32)>,
    q: Map<u32, Seq<Seq<char>>>,
    path: Seq<char>,
    new_root: Seq<char>,
    current_root: Seq<char>,
    owner: u32,
    my_pid: u32,
    live: Seq<u32>,
)
    requires
        new_root != current_root,
        owner_of(s, new_root) == Some(owner),
        live.contains(owner),
        owner != my_pid,
    ensures
        route_spec(
            Some(new_root),
            Some(current_root),
            owner_for_request(s, Some(new_root), Some(current_root), my_pid, live),
        ) == ActionKind::Queue(owner),
        queued(queues_after_request(q, ActionKind::Queue(owner), path), owner) == queued(q, owner).push(path),
{
}

/// A request for a document of the root this process owns, or of no root
/// when this process owns none, is delivered here: the registry is not
/// asked and nothing is queued.
pub proof fn law_request_same_root_local(
    s: Seq<(Seq<char>, u32)>,
    q: Map<u32, Seq<Seq<char>>>,
    path: Seq<char>,
    root: Option<Seq<char>>,
    my_pid: u32,
    live: Seq<u32>,
)
    ensures
        route_spec(root, root, owner_for_request(s, root, root, my_pid, live)) == ActionKind::Deliver,
        records_after_request(s, root, root, my_pid, live) == s,
        queues_after_request(q, ActionKind::Deliver, path) == q,
{
}

/// Whether `pid` is among `live`.
fn is_listed(live: &Vec<u32>, pid: u32) -> (r: bool)
    ensures
        r == live@.contains(pid),
{
    let mut i: usize = 0;
    while i < live.len()
        invariant
            i <= live@.len(),
            forall|j: int| 0 <= j < i ==> live@[j] != pid,
        decreases live@.len() - i,
    {
        if live[i] == pid {
            return true;
        }
        i = i + 1;
    }
    false
}

} // verus!
