//! The task store: the authoritative flat collection of tasks and every
//! graph-mutating operation on it.
//!
//! A subtask link is a by-identifier weak reference into the same collection.
//! Links may dangle after careless edits elsewhere; every operation here
//! tolerates a stale identifier by skipping it, never by faulting. A status
//! flip is refused while a direct subtask is still `Todo`; that check runs
//! whichever way the flip goes, so even a finished task stays `Done` until
//! its direct subtasks are finished too.

use vstd::prelude::*;

use crate::Status;
use crate::Task;
use crate::TaskError;
use crate::TaskModel;

verus! {

/// The owned, flat collection of tasks. Identifiers are unique across the
/// collection for its entire lifetime.
pub struct Tasks {
    tasks: Vec<Task>,
}

/// The models of a sequence of tasks, in order.
pub open spec fn views_of(v: Seq<Task>) -> Seq<TaskModel> {
    v.map_values(|t: Task| t@)
}

/// True when `s` holds a task with identifier `id`.
pub open spec fn contains_id(s: Seq<TaskModel>, id: u128) -> bool {
    exists|i: int| 0 <= i < s.len() && s[i].id == id
}

/// The index of the task with identifier `id` (unique under [`wf_ids`]).
pub open spec fn idx_of(s: Seq<TaskModel>, id: u128) -> int {
    choose|i: int| 0 <= i < s.len() && s[i].id == id
}

/// Identifiers are pairwise distinct across the collection.
pub open spec fn wf_ids(s: Seq<TaskModel>) -> bool {
    forall|i: int, j: int| 0 <= i < j < s.len() ==> s[i].id != s[j].id
}

/// The opposite status.
pub open spec fn flip(s: Status) -> Status {
    match s {
        Status::Todo => Status::Done,
        Status::Done => Status::Todo,
    }
}

/// Every direct subtask of the task `id` that still resolves is `Done`; a
/// stale reference is vacuously satisfied.
pub open spec fn all_subtasks_done(s: Seq<TaskModel>, id: u128) -> bool
    recommends
        contains_id(s, id),
{
    let t = s[idx_of(s, id)];
    forall|j: int|
        0 <= j < t.subtasks.len() && contains_id(s, #[trigger] t.subtasks[j]) ==> s[idx_of(
            s,
            t.subtasks[j],
        )].status == Status::Done
}

/// The model of a task freshly created with `Todo` status and no subtasks.
pub open spec fn new_model(id: u128, name: Seq<char>, description: Seq<char>) -> TaskModel {
    TaskModel { id, name, description, status: Status::Todo, subtasks: Seq::empty() }
}

/// What a task creation does: the new task is appended, under an identifier
/// that did not occur in the store before the call.
pub open spec fn add_task_post(
    pre: Seq<TaskModel>,
    post: Seq<TaskModel>,
    id: u128,
    name: Seq<char>,
    description: Seq<char>,
) -> bool {
    &&& !contains_id(pre, id)
    &&& post == pre.push(new_model(id, name, description))
}

/// What linking does: if the parent resolves, `child_id` is appended to its
/// subtask list (duplicates allowed, no existence check on the child);
/// otherwise the store is unchanged.
pub open spec fn link_post(
    pre: Seq<TaskModel>,
    post: Seq<TaskModel>,
    parent_id: u128,
    child_id: u128,
) -> bool {
    if contains_id(pre, parent_id) {
        let p = idx_of(pre, parent_id);
        post == pre.update(p, TaskModel { subtasks: pre[p].subtasks.push(child_id), ..pre[p] })
    } else {
        post == pre
    }
}

/// What a subtask creation does: if the parent resolves, the fresh identifier
/// is appended to its subtask list, and the new task is appended either way.
/// The link is made before the new task joins the collection, so a task never
/// holds its own identifier in its subtask list.
pub open spec fn add_subtask_post(
    pre: Seq<TaskModel>,
    post: Seq<TaskModel>,
    parent_id: u128,
    id: u128,
    name: Seq<char>,
    description: Seq<char>,
) -> bool {
    &&& !contains_id(pre, id)
    &&& if contains_id(pre, parent_id) {
        let p = idx_of(pre, parent_id);
        post == pre.update(p, TaskModel { subtasks: pre[p].subtasks.push(id), ..pre[p] }).push(
            new_model(id, name, description),
        )
    } else {
        post == pre.push(new_model(id, name, description))
    }
}

/// What a toggle does: rejected with `NotFound` on a stale identifier,
/// rejected with `BlockedByIncompleteSubtasks` while a direct subtask is
/// still `Todo`, and otherwise the status is flipped in place.
pub open spec fn toggle_post(
    pre: Seq<TaskModel>,
    post: Seq<TaskModel>,
    id: u128,
    r: Result<Status, TaskError>,
) -> bool {
    if !contains_id(pre, id) {
        r == Err::<Status, TaskError>(TaskError::NotFound) && post == pre
    } else if !all_subtasks_done(pre, id) {
        r == Err::<Status, TaskError>(TaskError::BlockedByIncompleteSubtasks) && post == pre
    } else {
        let p = idx_of(pre, id);
        let new_status = flip(pre[p].status);
        r == Ok::<Status, TaskError>(new_status) && post == pre.update(
            p,
            TaskModel { status: new_status, ..pre[p] },
        )
    }
}

/// The predicate that keeps a subtask reference other than `id`.
pub open spec fn not_ref(id: u128) -> spec_fn(u128) -> bool {
    |x: u128| x != id
}

/// `t` with every reference to `id` struck from its subtask list.
pub open spec fn strip_ref(t: TaskModel, id: u128) -> TaskModel {
    TaskModel { subtasks: t.subtasks.filter(not_ref(id)), ..t }
}

/// The predicate that keeps a task other than the one with identifier `id`.
pub open spec fn keeps(id: u128) -> spec_fn(TaskModel) -> bool {
    |t: TaskModel| t.id != id
}

/// The map that strikes `id` from a task's subtask list.
pub open spec fn strips(id: u128) -> spec_fn(TaskModel) -> TaskModel {
    |t: TaskModel| strip_ref(t, id)
}

/// What a deletion does: the task with identifier `id` leaves the collection,
/// every other task is kept in order, and `id` is struck from every remaining
/// subtask list — both effects in the same operation.
pub open spec fn delete_post(
    pre: Seq<TaskModel>,
    post: Seq<TaskModel>,
    id: u128,
    r: Result<(), TaskError>,
) -> bool {
    if contains_id(pre, id) {
        r == Ok::<(), TaskError>(()) && post == pre.filter(keeps(id)).map_values(strips(id))
    } else {
        r == Err::<(), TaskError>(TaskError::NotFound) && post == pre
    }
}

impl View for Tasks {
    type V = Seq<TaskModel>;

    closed spec fn view(&self) -> Seq<TaskModel> {
        views_of(self.tasks@)
    }
}

/// Relies on `uuid::Uuid::new_v4` for a random version-4 identifier (RFC
/// 9562), read out as its 128 bits by `Uuid::as_u128`. Nothing is promised
/// of a random value.
#[verifier::external_body]
fn random_id() -> u128 {
    uuid::Uuid::new_v4().as_u128()
}

impl Tasks {
    /// The store invariant: identifiers are unique for the store's lifetime.
    pub open spec fn wf(&self) -> bool {
        wf_ids(self@)
    }

    /// An empty store.
    pub fn new() -> (r: Tasks)
        ensures
            r@ =~= Seq::<TaskModel>::empty(),
            r.wf(),
    {
        Tasks { tasks: Vec::new() }
    }

    /// A store owning the given tasks, whose identifiers must be distinct.
    pub fn from_list(tasks: Vec<Task>) -> (r: Tasks)
        requires
            wf_ids(views_of(tasks@)),
        ensures
            r@ == views_of(tasks@),
            r.wf(),
    {
        Tasks { tasks }
    }

    /// The tasks, in insertion order (append order across all creates).
    pub fn list(&self) -> (r: &Vec<Task>)
        ensures
            views_of(r@) == self@,
    {
        &self.tasks
    }

    /// Read-only lookup by identifier.
    pub fn find(&self, id: u128) -> (r: Option<&Task>)
        requires
            self.wf(),
        ensures
            r is Some <==> contains_id(self@, id),
            match r {
                Some(t) => 0 <= idx_of(self@, id) < self@.len() && t@ == self@[idx_of(self@, id)]
                    && t@.id == id,
                None => !contains_id(self@, id),
            },
    {
        let n = self.tasks.len();
        for i in 0..n
            invariant
                n == self.tasks.len(),
                self.wf(),
                forall|k: int| 0 <= k < i ==> self@[k].id != id,
        {
            if self.tasks[i].id == id {
                proof {
                    assert(self@[i as int].id == id);
                    lemma_idx_unique(self@, i as int, id);
                }
                return Some(&self.tasks[i]);
            }
        }
        None
    }

    /// An identifier that no task in the store carries. Drawn at random; in
    /// the (overwhelmingly improbable) event of a collision the smallest
    /// free value is taken instead.
    fn fresh_id(&self) -> (id: u128)
        requires
            self.wf(),
        ensures
            !contains_id(self@, id),
    {
        let r = random_id();
        if self.find(r).is_none() {
            return r;
        }
        let n = self.tasks.len();
        let mut c: u128 = 0;
        loop
            invariant
                self.wf(),
                n == self@.len(),
                c <= n,
                forall|d: u128| d < c ==> contains_id(self@, d),
            decreases n as int - c as int,
        {
            if self.find(c).is_none() {
                return c;
            }
            proof {
                assert forall|d: u128| d < c + 1 implies contains_id(self@, d) by {
                    if d < c {
                    } else {
                        assert(d == c);
                    }
                }
                lemma_all_below_contained(self@, (c + 1) as u128);
            }
            c = c + 1;
        }
    }

    /// Creates a task with the given text, `Todo` status, an empty subtask
    /// list and a fresh identifier; appends it; returns the new identifier.
    /// Always succeeds.
    pub fn add_task(&mut self, name: String, description: String) -> (id: u128)
        requires
            old(self).wf(),
        ensures
            final(self).wf(),
            add_task_post(old(self)@, final(self)@, id, name@, description@),
    {
        let id = self.fresh_id();
        self.tasks.push(
            Task { id, name, description, status: Status::Todo, subtasks: Vec::new() },
        );
        proof {
            let pre = old(self)@;
            let post = self@;
            assert(post =~= pre.push(new_model(id, name@, description@)));
            assert forall|i: int, j: int| 0 <= i < j < post.len() implies post[i].id
                != post[j].id by {
                if j < pre.len() {
                } else {
                    assert(post[j].id == id);
                    assert(post[i] == pre[i]);
                }
            }
        }
        id
    }

    /// Appends `child_id` to the subtask list of the task `parent_id` if that
    /// parent resolves; a stale parent is a silent no-op. The child is not
    /// checked for existence, and a repeated call appends a duplicate entry.
    pub fn link_subtask(&mut self, parent_id: u128, child_id: u128)
        requires
            old(self).wf(),
        ensures
            final(self).wf(),
            link_post(old(self)@, final(self)@, parent_id, child_id),
    {
        let ghost pre = self@;
        let n = self.tasks.len();
        for i in 0..n
            invariant
                n == self.tasks.len(),
                pre == old(self)@,
                self@ == pre,
                self.wf(),
                forall|k: int| 0 <= k < i ==> self@[k].id != parent_id,
        {
            if self.tasks[i].id == parent_id {
                self.tasks[i].subtasks.push(child_id);
                proof {
                    assert(pre[i as int].id == parent_id);
                    lemma_idx_unique(pre, i as int, parent_id);
                    let p = idx_of(pre, parent_id);
                    assert(self@ =~= pre.update(
                        p,
                        TaskModel { subtasks: pre[p].subtasks.push(child_id), ..pre[p] },
                    ));
                    assert forall|a: int, b: int| 0 <= a < b < self@.len() implies self@[a].id
                        != self@[b].id by {
                        assert(self@[a].id == pre[a].id && self@[b].id == pre[b].id);
                    }
                }
                return ;
            }
        }
    }

    /// Creates a task as [`Tasks::add_task`] does and links it under
    /// `parent_id` as [`Tasks::link_subtask`] does. If the parent does not
    /// resolve, the task is still created but no link is made.
    pub fn add_subtask(&mut self, parent_id: u128, name: String, description: String) -> (id:
        u128)
        requires
            old(self).wf(),
        ensures
            final(self).wf(),
            add_subtask_post(old(self)@, final(self)@, parent_id, id, name@, description@),
    {
        let ghost pre = self@;
        let id = self.fresh_id();
        self.link_subtask(parent_id, id);
        let ghost mid = self@;
        self.tasks.push(
            Task { id, name, description, status: Status::Todo, subtasks: Vec::new() },
        );
        proof {
            let post = self@;
            assert(post =~= mid.push(new_model(id, name@, description@)));
            assert forall|k: int| 0 <= k < mid.len() implies mid[k].id == pre[k].id by {
                if contains_id(pre, parent_id) {
                    assert(mid == pre.update(
                        idx_of(pre, parent_id),
                        TaskModel {
                            subtasks: pre[idx_of(pre, parent_id)].subtasks.push(id),
                            ..pre[idx_of(pre, parent_id)]
                        },
                    ));
                }
            }
            assert forall|a: int, b: int| 0 <= a < b < post.len() implies post[a].id
                != post[b].id by {
                if b < mid.len() {
                    assert(post[a].id == pre[a].id && post[b].id == pre[b].id);
                } else {
                    assert(post[b].id == id);
                    assert(post[a].id == pre[a].id);
                    if post[a].id == id {
                        assert(contains_id(pre, id));
                    }
                }
            }
        }
        id
    }

    /// True when every direct subtask of the task `id` that resolves is
    /// `Done`; a stale reference is skipped.
    pub fn check_if_subtasks_done(&self, id: u128) -> (r: bool)
        requires
            self.wf(),
            contains_id(self@, id),
        ensures
            r == all_subtasks_done(self@, id),
    {
        let t = self.find(id).unwrap();
        let ghost p = idx_of(self@, id);
        let m = t.subtasks.len();
        for j in 0..m
            invariant
                self.wf(),
                contains_id(self@, id),
                m == t.subtasks.len(),
                t@ == self@[p],
                p == idx_of(self@, id),
                forall|k: int|
                    0 <= k < j && contains_id(self@, #[trigger] self@[p].subtasks[k]) ==> self@[
                        idx_of(self@, self@[p].subtasks[k])
                    ].status == Status::Done,
        {
            let sub_id = t.subtasks[j];
            match self.find(sub_id) {
                Some(sub) => {
                    if sub.status == Status::Todo {
                        assert(!all_subtasks_done(self@, id)) by {
                            assert(contains_id(self@, self@[p].subtasks[j as int]));
                        }
                        return false;
                    }
                },
                None => {},
            }
        }
        true
    }

    /// Flips the status of the task `id` between `Todo` and `Done`. The
    /// completion gate is checked on every attempt, whichever direction the
    /// flip goes: while a direct subtask is still `Todo` the call is rejected
    /// and the store is unchanged. On success the new status is returned.
    pub fn toggle_status(&mut self, id: u128) -> (r: Result<Status, TaskError>)
        requires
            old(self).wf(),
        ensures
            final(self).wf(),
            toggle_post(old(self)@, final(self)@, id, r),
    {
        let ghost pre = self@;
        if self.find(id).is_none() {
            return Err(TaskError::NotFound);
        }
        if !self.check_if_subtasks_done(id) {
            return Err(TaskError::BlockedByIncompleteSubtasks);
        }
        let n = self.tasks.len();
        for i in 0..n
            invariant
                n == self.tasks.len(),
                pre == old(self)@,
                self@ == pre,
                self.wf(),
                contains_id(pre, id),
                all_subtasks_done(pre, id),
                forall|k: int| 0 <= k < i ==> self@[k].id != id,
        {
            if self.tasks[i].id == id {
                let new_status = match self.tasks[i].status {
                    Status::Todo => Status::Done,
                    Status::Done => Status::Todo,
                };
                self.tasks[i].status = new_status;
                proof {
                    assert(pre[i as int].id == id);
                    lemma_idx_unique(pre, i as int, id);
                    let p = idx_of(pre, id);
                    assert(new_status == flip(pre[p].status));
                    assert(self@ =~= pre.update(p, TaskModel { status: new_status, ..pre[p] }));
                    assert forall|a: int, b: int| 0 <= a < b < self@.len() implies self@[a].id
                        != self@[b].id by {
                        assert(self@[a].id == pre[a].id && self@[b].id == pre[b].id);
                    }
                }
                return Ok(new_status);
            }
        }
        proof {
            let p = idx_of(pre, id);
            assert(0 <= p < pre.len() && pre[p].id == id);
            assert(false);
        }
        Err(TaskError::NotFound)
    }

    /// Removes the task `id` from the collection and strikes `id` from every
    /// other task's subtask list, in the same operation; afterwards `id`
    /// resolves to nothing and appears in no subtask list. Deleting a stale
    /// identifier reports `NotFound` and changes nothing.
    pub fn delete_task(&mut self, id: u128) -> (r: Result<(), TaskError>)
        requires
            old(self).wf(),
        ensures
            final(self).wf(),
            delete_post(old(self)@, final(self)@, id, r),
            r is Ok ==> !contains_id(final(self)@, id),
            r is Ok ==> forall|i: int|
                0 <= i < final(self)@.len() ==> !(#[trigger] final(self)@[i]).subtasks.contains(
                    id,
                ),
    {
        let ghost pre = self@;
        if self.find(id).is_none() {
            return Err(TaskError::NotFound);
        }
        let ghost keep = keeps(id);
        let ghost strip = strips(id);
        let mut kept: Vec<Task> = Vec::new();
        let n = self.tasks.len();
        for i in 0..n
            invariant
                n == self.tasks.len(),
                self@ == pre,
                self.wf(),
                contains_id(pre, id),
                keep == keeps(id),
                strip == strips(id),
                views_of(kept@) == pre.take(i as int).filter(keep).map_values(strip),
        {
            let ghost kept0 = kept@;
            proof {
                assert(views_of(kept@) == pre.take(i as int).filter(keep).map_values(strip));
                assert(views_of(kept@).len() == pre.take(i as int).filter(keep).len());
                assert(kept@.len() == pre.take(i as int).filter(keep).len());
            }
            if self.tasks[i].id != id {
                let without = strike_refs(&self.tasks[i].subtasks, id);
                let name = clone_string(&self.tasks[i].name);
                let description = clone_string(&self.tasks[i].description);
                let status = self.tasks[i].status;
                let tid = self.tasks[i].id;
                let t_new = Task { id: tid, name, description, status, subtasks: without };
                proof {
                    assert(pre[i as int] == self.tasks@[i as int]@);
                    assert(t_new@ == strip_ref(pre[i as int], id));
                }
                kept.push(t_new);
            }
            proof {
                reveal(Seq::filter);
                assert(pre.len() == n);
                assert(pre.take(i + 1).drop_last() =~= pre.take(i as int));
                assert(pre.take(i + 1).last() == pre[i as int]);
                assert(pre[i as int] == self.tasks@[i as int]@);
                let f1 = pre.take(i + 1).filter(keep);
                let f0 = pre.take(i as int).filter(keep);
                assert(f1 == if keep(pre[i as int]) {
                    f0.push(pre[i as int])
                } else {
                    f0
                });
                assert(strip(pre[i as int]) == strip_ref(pre[i as int], id));
                let lhs = views_of(kept@);
                let rhs = f1.map_values(strip);
                assert(lhs.len() == kept@.len());
                assert(rhs.len() == f1.len());
                assert(kept@.len() == f1.len());
                assert(lhs.len() == rhs.len());
                assert forall|k: int| 0 <= k < lhs.len() implies lhs[k] == rhs[k] by {
                    assert(lhs[k] == kept@[k]@);
                    assert(rhs[k] == strip(f1[k]));
                    if k < kept0.len() {
                        assert(kept@[k] == kept0[k]);
                        assert(views_of(kept0)[k] == kept0[k]@);
                        assert(views_of(kept0)[k] == f0.map_values(strip)[k]);
                        assert(f0.map_values(strip)[k] == strip(f0[k]));
                        assert(f1[k] == f0[k]);
                    } else {
                        assert(kept@[k]@ == strip_ref(pre[i as int], id));
                        assert(f1[k] == pre[i as int]);
                        assert(strip(pre[i as int]) == strip_ref(pre[i as int], id));
                    }
                }
                assert(views_of(kept@) =~= f1.map_values(strip));
            }
        }
        self.tasks = kept;
        proof {
            assert(pre.take(n as int) =~= pre);
            let post = self@;
            assert(post == pre.filter(keep).map_values(strip));
            broadcast use Seq::lemma_filter_pred;

            assert forall|a: int, b: int| 0 <= a < b < post.len() implies post[a].id
                != post[b].id by {
                let f = pre.filter(keep);
                assert(post[a] == strip(f[a]) && post[b] == strip(f[b]));
                assert(f[a].id == post[a].id && f[b].id == post[b].id);
                lemma_filter_sub_distinct(pre, keep, a, b);
            }
            lemma_delete_cleans(pre, post, id);
        }
        Ok(())
    }
}

/// A store transition made by some task creation: a fresh identifier, the
/// new task appended.
pub open spec fn adds_task(pre: Seq<TaskModel>, post: Seq<TaskModel>, id: u128) -> bool {
    exists|name: Seq<char>, description: Seq<char>|
        add_task_post(pre, post, id, name, description)
}

/// An identifier returned by a creation stays in the store across any chain
/// of further creations.
proof fn lemma_id_persists(states: Seq<Seq<TaskModel>>, ids: Seq<u128>, k: int, m: int)
    requires
        states.len() == ids.len() + 1,
        forall|j: int| 0 <= j < ids.len() ==> adds_task(states[j], #[trigger] states[j + 1], ids[j]),
        0 <= k < m <= ids.len(),
    ensures
        contains_id(states[m], ids[k]),
    decreases m - k,
{
    if m == k + 1 {
        assert(adds_task(states[k], states[k + 1], ids[k]));
        let (n0, d0) = choose|n0: Seq<char>, d0: Seq<char>|
            #[trigger] add_task_post(states[k], states[k + 1], ids[k], n0, d0);
        assert(states[m][states[m].len() - 1].id == ids[k]);
    } else {
        lemma_id_persists(states, ids, k, m - 1);
        let j = m - 1;
        assert(adds_task(states[j], states[j + 1], ids[j]));
        let (n0, d0) = choose|n0: Seq<char>, d0: Seq<char>|
            #[trigger] add_task_post(states[m - 1], states[m], ids[m - 1], n0, d0);
        let w = idx_of(states[m - 1], ids[k]);
        assert(0 <= w < states[m - 1].len() && states[m - 1][w].id == ids[k]);
        assert(states[m][w].id == ids[k]);
    }
}

/// Law: across any sequence of consecutive task creations, the returned
/// identifiers are pairwise distinct.
pub proof fn lemma_add_task_ids_distinct(states: Seq<Seq<TaskModel>>, ids: Seq<u128>)
    requires
        states.len() == ids.len() + 1,
        forall|j: int| 0 <= j < ids.len() ==> adds_task(states[j], #[trigger] states[j + 1], ids[j]),
    ensures
        forall|a: int, b: int| 0 <= a < b < ids.len() ==> ids[a] != ids[b],
{
    assert forall|a: int, b: int| 0 <= a < b < ids.len() implies ids[a] != ids[b] by {
        lemma_id_persists(states, ids, a, b);
        assert(adds_task(states[b], states[b + 1], ids[b]));
        let (n0, d0) = choose|n0: Seq<char>, d0: Seq<char>|
            #[trigger] add_task_post(states[b], states[b + 1], ids[b], n0, d0);
        assert(!contains_id(states[b], ids[b]));
    }
}

/// Law: after a deletion succeeds, the deleted identifier resolves to
/// nothing and appears in no remaining task's subtask list.
pub proof fn lemma_delete_cleans(pre: Seq<TaskModel>, post: Seq<TaskModel>, id: u128)
    requires
        delete_post(pre, post, id, Ok(())),
    ensures
        !contains_id(post, id),
        forall|i: int| 0 <= i < post.len() ==> !(#[trigger] post[i]).subtasks.contains(id),
{
    broadcast use Seq::lemma_filter_pred;

    let f = pre.filter(keeps(id));
    assert(contains_id(pre, id)) by {
        if !contains_id(pre, id) {
            assert(delete_post(pre, post, id, Ok(())));
        }
    }
    assert(post == f.map_values(strips(id)));
    assert forall|i: int| 0 <= i < post.len() implies post[i].id != id by {
        assert(post[i] == strips(id)(f[i]));
        assert(keeps(id)(f[i]));
    }
    assert(!contains_id(post, id));
    assert forall|i: int| 0 <= i < post.len() implies !(#[trigger] post[i]).subtasks.contains(
        id,
    ) by {
        assert(post[i] == strips(id)(f[i]));
        let subs = post[i].subtasks;
        assert forall|j: int| 0 <= j < subs.len() implies subs[j] != id by {
            f[i].subtasks.lemma_filter_pred(not_ref(id), j);
            assert(not_ref(id)(subs[j]));
        }
    }
}

/// Law: linking a child under a parent and then deleting the child leaves
/// the parent's subtask list — like every other — without the child.
pub proof fn lemma_link_then_delete(
    s0: Seq<TaskModel>,
    s1: Seq<TaskModel>,
    s2: Seq<TaskModel>,
    parent_id: u128,
    child_id: u128,
)
    requires
        link_post(s0, s1, parent_id, child_id),
        delete_post(s1, s2, child_id, Ok(())),
    ensures
        forall|i: int|
            0 <= i < s2.len() ==> !(#[trigger] s2[i]).subtasks.contains(child_id),
        contains_id(s2, parent_id) ==> !s2[idx_of(s2, parent_id)].subtasks.contains(child_id),
{
    lemma_delete_cleans(s1, s2, child_id);
}

/// Under distinct identifiers, the index `idx_of` picks is the only match.
proof fn lemma_idx_unique(s: Seq<TaskModel>, i: int, id: u128)
    requires
        wf_ids(s),
        0 <= i < s.len(),
        s[i].id == id,
    ensures
        contains_id(s, id),
        idx_of(s, id) == i,
{
    assert(contains_id(s, id));
    let p = idx_of(s, id);
    assert(0 <= p < s.len() && s[p].id == id);
    if p < i {
        assert(s[p].id != s[i].id);
    }
    if i < p {
        assert(s[i].id != s[p].id);
    }
}

/// Pigeonhole: a store with distinct identifiers that contains every value
/// below `k` has at least `k` tasks.
proof fn lemma_all_below_contained(s: Seq<TaskModel>, k: u128)
    requires
        wf_ids(s),
        forall|d: u128| d < k ==> contains_id(s, d),
    ensures
        s.len() >= k,
    decreases k,
{
    if k > 0 {
        assert(contains_id(s, (k - 1) as u128));
        let w = choose|w: int| 0 <= w < s.len() && s[w].id == (k - 1) as u128;
        let rest = s.remove(w);
        assert(wf_ids(rest)) by {
            assert forall|i: int, j: int| 0 <= i < j < rest.len() implies rest[i].id
                != rest[j].id by {
                let i0 = if i < w {
                    i
                } else {
                    i + 1
                };
                let j0 = if j < w {
                    j
                } else {
                    j + 1
                };
                assert(rest[i] == s[i0] && rest[j] == s[j0]);
            }
        }
        assert forall|d: u128| d < (k - 1) as u128 implies contains_id(rest, d) by {
            assert(contains_id(s, d));
            let v = choose|v: int| 0 <= v < s.len() && s[v].id == d;
            assert(v != w);
            if v < w {
                assert(rest[v] == s[v]);
            } else {
                assert(rest[v - 1] == s[v]);
            }
        }
        lemma_all_below_contained(rest, (k - 1) as u128);
    }
}

/// Under a filter, two distinct positions come from two distinct positions of
/// the original, so distinct identifiers stay distinct.
proof fn lemma_filter_sub_distinct(
    s: Seq<TaskModel>,
    pred: spec_fn(TaskModel) -> bool,
    a: int,
    b: int,
)
    requires
        wf_ids(s),
        0 <= a < b < s.filter(pred).len(),
    ensures
        s.filter(pred)[a].id != s.filter(pred)[b].id,
    decreases s.len(),
{
    reveal(Seq::filter);
    if s.len() == 0 {
    } else {
        let rest = s.drop_last();
        assert(wf_ids(rest)) by {
            assert forall|i: int, j: int| 0 <= i < j < rest.len() implies rest[i].id
                != rest[j].id by {
                assert(rest[i] == s[i] && rest[j] == s[j]);
            }
        }
        if pred(s.last()) && b == s.filter(pred).len() - 1 {
            assert(s.filter(pred)[b] == s.last());
            assert(s.filter(pred)[a] == rest.filter(pred)[a]);
            lemma_filter_element_of(rest, pred, a);
            let w = choose|w: int|
                0 <= w < rest.len() && rest[w] == rest.filter(pred)[a];
            assert(s[w].id != s[s.len() - 1].id);
        } else {
            lemma_filter_sub_distinct(rest, pred, a, b);
        }
    }
}

/// Every element of a filtered sequence occurs in the original.
proof fn lemma_filter_element_of(s: Seq<TaskModel>, pred: spec_fn(TaskModel) -> bool, a: int)
    requires
        0 <= a < s.filter(pred).len(),
    ensures
        exists|w: int| 0 <= w < s.len() && s[w] == s.filter(pred)[a],
    decreases s.len(),
{
    reveal(Seq::filter);
    if s.len() == 0 {
    } else {
        let rest = s.drop_last();
        if pred(s.last()) && a == s.filter(pred).len() - 1 {
            assert(s[s.len() - 1] == s.filter(pred)[a]);
        } else {
            lemma_filter_element_of(rest, pred, a);
            let w = choose|w: int|
                0 <= w < rest.len() && rest[w] == rest.filter(pred)[a];
            assert(s[w] == s.filter(pred)[a]);
        }
    }
}

/// A copy of `v` with every occurrence of `id` struck out.
fn strike_refs(v: &Vec<u128>, id: u128) -> (r: Vec<u128>)
    ensures
        r@ == v@.filter(not_ref(id)),
{
    let ghost pred = not_ref(id);
    let mut r: Vec<u128> = Vec::new();
    let n = v.len();
    for i in 0..n
        invariant
            n == v.len(),
            pred == not_ref(id),
            r@ == v@.take(i as int).filter(pred),
    {
        if v[i] != id {
            r.push(v[i]);
        }
        proof {
            reveal(Seq::filter);
            assert(v@.take(i + 1).drop_last() =~= v@.take(i as int));
            assert(v@.take(i + 1).last() == v@[i as int]);
            assert(r@ =~= v@.take(i + 1).filter(pred));
        }
    }
    proof {
        assert(v@.take(n as int) =~= v@);
    }
    r
}

/// Whether the identifiers of the given tasks are pairwise distinct.
pub fn ids_unique(v: &Vec<Task>) -> (r: bool)
    ensures
        r == wf_ids(views_of(v@)),
{
    let n = v.len();
    for i in 0..n
        invariant
            n == v.len(),
            forall|a: int, b: int| 0 <= a < b < i ==> views_of(v@)[a].id != views_of(v@)[b].id,
            forall|a: int, b: int|
                0 <= a < i && a < b < n ==> views_of(v@)[a].id != views_of(v@)[b].id,
    {
        for j in (i + 1)..n
            invariant
                n == v.len(),
                i < n,
                forall|a: int, b: int|
                    0 <= a < i && a < b < n ==> views_of(v@)[a].id != views_of(v@)[b].id,
                forall|b: int| i < b < j ==> views_of(v@)[i as int].id != views_of(v@)[b].id,
        {
            if v[i].id == v[j].id {
                proof {
                    assert(views_of(v@)[i as int].id == views_of(v@)[j as int].id);
                }
                return false;
            }
        }
    }
    true
}

/// A copy of a string with the same characters.
fn clone_string(s: &String) -> (r: String)
    ensures
        r@ == s@,
{
    s.clone()
}

} // verus!
