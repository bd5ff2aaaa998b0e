//! The task store: push, pop, update and the read-only projections, each
//! verified against the state machine of [`crate::stack`].

use vstd::prelude::*;

verus! {

use vstd::pervasive::VecAdditionalExecFns;
use crate::clock::now_millis;
use crate::error::{Error, ErrorModel};
use crate::models::{
    CreateTaskRequest, Task, TaskModel, TaskStack, UpdateTaskRequest, requested_context,
};
use crate::stack::{
    active, current_of, end_task, has_active, has_id, last_active_index, push_model, set_context,
    spec_pop, spec_push, spec_update, stack_of, wf,
};
use crate::stack::{
    lemma_current_is_max, lemma_has_id_bounds, lemma_last_active_index,
    lemma_last_active_index_unique, lemma_pop_preserves_wf, lemma_push_preserves_wf,
    lemma_update_preserves_wf,
};

/// The change notifier: a capability the store is constructed with and
/// invokes after each mutation commits. Failures of a hook are ignored —
/// they never roll back or fail the mutation.
pub trait DatabaseDelegate {
    fn on_task_created(&self, task: &Task) -> Result<(), Error>;

    fn on_task_popped(&self, task: &Task) -> Result<(), Error>;

    fn on_task_updated(&self, task: &Task) -> Result<(), Error>;

    fn on_stack_updated(&self, stack: &TaskStack) -> Result<(), Error>;
}

/// Whether the rows satisfy the stack invariant [`wf`].
fn check_rows(tasks: &Vec<Task>) -> (r: bool)
    requires
        tasks@.len() < 0x7fff_ffff,
    ensures
        r == wf(tasks.deep_view()),
{
    let ghost ts = tasks.deep_view();
    let n: usize = tasks.len();
    let mut i: usize = 0;
    let mut prev: Option<usize> = None;
    while i < n
        invariant
            i <= n,
            n == ts.len(),
            n < 0x7fff_ffff,
            ts == tasks.deep_view(),
            ts.len() == tasks@.len(),
            forall|k: int| 0 <= k < i ==> (#[trigger] ts[k]).id == k + 1,
            forall|k: int| 0 <= k < i ==> 0 <= (#[trigger] ts[k]).stack_position <= k,
            forall|a: int, b: int|
                0 <= a < b < i && active(#[trigger] ts[a]) && active(#[trigger] ts[b])
                    ==> ts[a].stack_position < ts[b].stack_position,
            prev matches Some(p) ==> {
                &&& p < i
                &&& active(ts[p as int])
                &&& forall|k: int| p < k < i ==> !active(#[trigger] ts[k])
            },
            prev is None ==> forall|k: int| 0 <= k < i ==> !active(#[trigger] ts[k]),
        decreases n - i,
    {
        let t = &tasks[i];
        if t.id != i as i64 + 1 {
            return false;
        }
        if t.stack_position < 0 || t.stack_position as usize > i {
            return false;
        }
        if t.ended_at.is_none() {
            match prev {
                Some(p) => {
                    if tasks[p].stack_position >= t.stack_position {
                        return false;
                    }
                    proof {
                        assert forall|a: int|
                            0 <= a < i && active(ts[a]) && a != p implies ts[a].stack_position < ts[
                            i as int].stack_position by {
                            assert(a < p);
                            assert(ts[a].stack_position < ts[p as int].stack_position);
                        }
                    }
                },
                None => {},
            }
            prev = Some(i);
        }
        i = i + 1;
    }
    true
}

/// The task store. Its mathematical value is the sequence of rows in
/// insertion order; every operation keeps [`wf`] of that sequence.
pub struct Database<D: DatabaseDelegate> {
    tasks: Vec<Task>,
    delegate: D,
}

impl<D: DatabaseDelegate> View for Database<D> {
    type V = Seq<TaskModel>;

    closed spec fn view(&self) -> Seq<TaskModel> {
        self.tasks.deep_view()
    }
}

impl<D: DatabaseDelegate> Database<D> {
    /// A fresh store with no rows, notifying the given delegate.
    pub fn new(delegate: D) -> (db: Database<D>)
        ensures
            db@ == Seq::<TaskModel>::empty(),
            wf(db@),
    {
        let db = Database { tasks: Vec::new(), delegate };
        proof {
            assert(db.tasks.deep_view() =~= Seq::<TaskModel>::empty());
        }
        db
    }

    /// A store over previously persisted rows, in insertion order.
    ///
    /// Construction fails — and no store is handed out — unless the rows
    /// satisfy the stack invariant and leave room to push: ids must be
    /// the row numbers counted from one, and active stack positions must
    /// be within range and strictly increasing.
    pub fn from_rows(tasks: Vec<Task>, delegate: D) -> (r: Result<Database<D>, Error>)
        ensures
            r is Ok <==> wf(tasks.deep_view()) && tasks@.len() < 0x7fff_ffff,
            r matches Ok(db) ==> db@ == tasks.deep_view(),
            r matches Err(e) ==> e@ is Storage,
    {
        if tasks.len() >= 0x7fff_ffff || !check_rows(&tasks) {
            return Err(Error::storage(String::from_str("invalid task rows")));
        }
        Ok(Database { tasks, delegate })
    }

    /// How many rows the store holds, ended tasks included.
    pub fn task_count(&self) -> (n: usize)
        ensures
            n == self@.len(),
    {
        self.tasks.len()
    }

    /// The index of the most recently inserted active row, if any.
    fn find_last_active(&self) -> (r: Option<usize>)
        ensures
            r matches Some(i) ==> {
                &&& i < self@.len()
                &&& i as int == last_active_index(self@)
                &&& active(self@[i as int])
                &&& has_active(self@)
            },
            r is None ==> !has_active(self@),
    {
        let mut i: usize = self.tasks.len();
        while i > 0
            invariant
                i <= self@.len(),
                self@.len() == self.tasks@.len(),
                forall|k: int| i <= k < self@.len() ==> !active(#[trigger] self@[k]),
            decreases i,
        {
            i = i - 1;
            if self.tasks[i].ended_at.is_none() {
                proof {
                    lemma_last_active_index_unique(self@, i as int);
                }
                return Some(i);
            }
        }
        None
    }

    /// The current task: the active task with the greatest stack
    /// position, or none when no task is active.
    pub fn get_current_task(&self) -> (r: Result<Option<Task>, Error>)
        ensures
            r is Ok,
            r->Ok_0.deep_view() == current_of(self@),
    {
        match self.find_last_active() {
            Some(i) => Ok(Some(self.tasks[i].clone())),
            None => Ok(None),
        }
    }

    /// The stack projection: every active task, ordered by descending
    /// stack position, plus the resolved current task.
    pub fn get_task_stack(&self) -> (r: Result<TaskStack, Error>)
        ensures
            r is Ok,
            r->Ok_0.tasks.deep_view() == stack_of(self@),
            r->Ok_0.current_task.deep_view() == current_of(self@),
    {
        let n: usize = self.tasks.len();
        let mut tasks: Vec<Task> = Vec::new();
        proof {
            assert(tasks.deep_view() =~= stack_of(self@.take(0)));
        }
        let mut i: usize = 0;
        while i < n
            invariant
                i <= n,
                n == self@.len(),
                self@.len() == self.tasks@.len(),
                tasks.deep_view() == stack_of(self@.take(i as int)),
            decreases n - i,
        {
            let ghost prev = tasks.deep_view();
            if self.tasks[i].ended_at.is_none() {
                tasks.insert(0, self.tasks[i].clone());
                proof {
                    assert(tasks.deep_view() =~= seq![self@[i as int]] + prev);
                }
            }
            proof {
                let taken = self@.take(i + 1 as int);
                assert(taken.drop_last() =~= self@.take(i as int));
                assert(taken.last() == self@[i as int]);
                assert(tasks.deep_view() == stack_of(taken));
            }
            i = i + 1;
        }
        proof {
            assert(self@.take(n as int) =~= self@);
        }
        let current_task = self.get_current_task().unwrap();
        Ok(TaskStack { tasks, current_task })
    }

    /// The row with the given id; a not-found error when no row has it.
    fn get_task_by_id(&self, id: i64) -> (r: Result<Task, Error>)
        requires
            wf(self@),
        ensures
            r is Ok <==> has_id(self@, id as int),
            r matches Ok(t) ==> 1 <= id <= self@.len() && t@ == self@[id - 1],
            r matches Err(e) ==> e@ == (ErrorModel::NotFound { id: id as int }),
            self@.len() <= usize::MAX,
    {
        proof {
            lemma_has_id_bounds(self@, id as int);
            if self@.len() > 0 {
                assert(self@[self@.len() - 1].id == self@.len());
            }
        }
        let n: usize = self.tasks.len();
        if id < 1 || id > n as i64 {
            return Err(Error::not_found(id));
        }
        Ok(self.tasks[(id - 1) as usize].clone())
    }

    /// Push a new task on top of the stack.
    ///
    /// The new task gets the next id, the stack position one past the
    /// current task's (zero on an empty stack), no end timestamp, and
    /// equal creation and update timestamps. No existing row changes: the
    /// prior task stays active and is outranked only by position.
    pub fn push_task(&mut self, request: CreateTaskRequest) -> (r: Result<Task, Error>)
        requires
            wf(old(self)@),
            old(self)@.len() < 0x7fff_ffff,
        ensures
            r is Ok,
            r matches Ok(t) ==> {
                &&& t@ == push_model(old(self)@, requested_context(request), t@.created_at)
                &&& final(self)@ == spec_push(
                    old(self)@,
                    requested_context(request),
                    t@.created_at,
                )
            },
            wf(final(self)@),
    {
        proof {
            lemma_last_active_index(old(self)@);
            lemma_current_is_max(old(self)@);
        }
        let now: i64 = now_millis();
        let cur = self.get_current_task().unwrap();
        let new_position: i32 = match &cur {
            Some(c) => c.stack_position + 1,
            None => 0,
        };
        let context: String = match request.context {
            Some(c) => c,
            None => String::from_str("New Task"),
        };
        let task = Task {
            id: self.tasks.len() as i64 + 1,
            context,
            stack_position: new_position,
            created_at: now,
            ended_at: None,
            updated_at: now,
        };
        let result = task.clone();
        self.tasks.push(task);
        proof {
            assert(result@ =~= push_model(old(self)@, requested_context(request), now as int));
            assert(self.tasks.deep_view() =~= spec_push(
                old(self)@,
                requested_context(request),
                now as int,
            ));
            lemma_push_preserves_wf(old(self)@, requested_context(request), now as int);
        }
        let _ = self.delegate.on_task_created(&result);
        match self.get_task_stack() {
            Ok(stack) => {
                let _ = self.delegate.on_stack_updated(&stack);
            },
            Err(_) => {},
        }
        Ok(result)
    }

    /// Pop the current task.
    ///
    /// Ends exactly the current task — the active task with the greatest
    /// stack position — by setting its end timestamp, and returns the
    /// ended row. No row is inserted or deleted: the task beneath becomes
    /// current because it is still active with the next-highest position.
    /// On a store with no active task this is a no-op returning none.
    pub fn pop_task(&mut self) -> (r: Result<Option<Task>, Error>)
        requires
            wf(old(self)@),
        ensures
            r is Ok,
            !has_active(old(self)@) ==> r->Ok_0 is None && final(self)@ == old(self)@,
            has_active(old(self)@) ==> {
                &&& r->Ok_0 matches Some(t)
                &&& t@ == end_task(
                    old(self)@[last_active_index(old(self)@)],
                    t@.updated_at,
                )
                &&& t@.ended_at == Some(t@.updated_at)
                &&& final(self)@ == spec_pop(old(self)@, t@.updated_at)
            },
            wf(final(self)@),
    {
        let i: usize = match self.find_last_active() {
            Some(i) => i,
            None => {
                return Ok(None);
            },
        };
        let now: i64 = now_millis();
        let mut t = self.tasks[i].clone();
        t.ended_at = Some(now);
        t.updated_at = now;
        let result = t.clone();
        self.tasks.set(i, t);
        proof {
            assert(result@ =~= end_task(old(self)@[i as int], now as int));
            assert(self.tasks.deep_view() =~= spec_pop(old(self)@, now as int));
            lemma_pop_preserves_wf(old(self)@, now as int);
        }
        let _ = self.delegate.on_task_popped(&result);
        match self.get_task_stack() {
            Ok(stack) => {
                let _ = self.delegate.on_stack_updated(&stack);
            },
            Err(_) => {},
        }
        Ok(Some(result))
    }

    /// Rewrite the context of the task with the given id.
    ///
    /// Changes only that row's context and update timestamp; its id,
    /// stack position and creation and end timestamps, and every other
    /// row, are untouched. Fails with a not-found error — and changes
    /// nothing — exactly when no row carries the id.
    pub fn update_task(&mut self, request: UpdateTaskRequest) -> (r: Result<Task, Error>)
        requires
            wf(old(self)@),
        ensures
            r is Ok <==> has_id(old(self)@, request.id as int),
            r matches Ok(t) ==> {
                &&& t@ == set_context(
                    old(self)@[request.id - 1],
                    request.context@,
                    t@.updated_at,
                )
                &&& final(self)@ == spec_update(
                    old(self)@,
                    request.id as int,
                    request.context@,
                    t@.updated_at,
                )
            },
            r matches Err(e) ==> {
                &&& e@ == (ErrorModel::NotFound { id: request.id as int })
                &&& final(self)@ == old(self)@
            },
            wf(final(self)@),
    {
        let mut t = match self.get_task_by_id(request.id) {
            Ok(t) => t,
            Err(e) => {
                return Err(e);
            },
        };
        proof {
            lemma_has_id_bounds(old(self)@, request.id as int);
        }
        let idx: usize = (request.id - 1) as usize;
        let now: i64 = now_millis();
        t.context = request.context;
        t.updated_at = now;
        let result = t.clone();
        self.tasks.set(idx, t);
        proof {
            assert(result@ =~= set_context(old(self)@[request.id - 1], result@.context, now as int));
            assert(self.tasks.deep_view() =~= spec_update(
                old(self)@,
                request.id as int,
                result@.context,
                now as int,
            ));
            lemma_update_preserves_wf(old(self)@, request.id as int, result@.context, now as int);
        }
        let _ = self.delegate.on_task_updated(&result);
        match self.get_task_stack() {
            Ok(stack) => {
                let _ = self.delegate.on_stack_updated(&stack);
            },
            Err(_) => {},
        }
        Ok(result)
    }
}

} // verus!
