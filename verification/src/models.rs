//! The data types that cross the store boundary: tasks, the stack
//! projection, and the mutation requests.

use vstd::prelude::*;

verus! {

use vstd::string::StrSliceExecFns;
use crate::text::{first_nl, leading_nl, trim_empty, spec_first_line, find_newline,
    all_space_prefix};

/// One stack entry. A task is created by a push, may have its context
/// rewritten by an update, and is ended (never deleted) by a pop.
pub struct Task {
    /// Unique, assigned by the store in insertion order, never reused.
    pub id: i64,
    /// Free-form text; the first line is treated as the title.
    pub context: String,
    /// Depth in the stack, unique among active tasks.
    pub stack_position: i32,
    /// Milliseconds since the Unix epoch.
    pub created_at: i64,
    /// `None` while the task is active; set once by a pop.
    pub ended_at: Option<i64>,
    /// Milliseconds since the Unix epoch, refreshed by every mutation.
    pub updated_at: i64,
}

/// The mathematical value of a [`Task`].
#[verifier::ext_equal]
pub ghost struct TaskModel {
    pub id: int,
    pub context: Seq<char>,
    pub stack_position: int,
    pub created_at: int,
    pub ended_at: Option<int>,
    pub updated_at: int,
}

impl View for Task {
    type V = TaskModel;

    open spec fn view(&self) -> TaskModel {
        TaskModel {
            id: self.id as int,
            context: self.context@,
            stack_position: self.stack_position as int,
            created_at: self.created_at as int,
            ended_at: match self.ended_at {
                Some(t) => Some(t as int),
                None => None,
            },
            updated_at: self.updated_at as int,
        }
    }
}

impl DeepView for Task {
    type V = TaskModel;

    open spec fn deep_view(&self) -> TaskModel {
        self.view()
    }
}

impl Clone for Task {
    fn clone(&self) -> (r: Self)
        ensures
            r@ == self@,
    {
        Task {
            id: self.id,
            context: self.context.clone(),
            stack_position: self.stack_position,
            created_at: self.created_at,
            ended_at: self.ended_at,
            updated_at: self.updated_at,
        }
    }
}

/// The first line of `s` as `str::lines` yields it: up to the first line
/// feed, with a carriage return dropped when the line feed follows one.
pub open spec fn spec_title(s: Seq<char>) -> Seq<char> {
    if trim_empty(spec_first_line(s)) {
        "Untitled Task"@
    } else {
        spec_first_line(s)
    }
}

/// Everything after the first line feed of `s`, with further leading line
/// feeds stripped; empty when `s` has no line feed.
pub open spec fn spec_description(s: Seq<char>) -> Seq<char> {
    let k = first_nl(s);
    if k == s.len() {
        Seq::empty()
    } else {
        s.subrange(k + 1 + leading_nl(s.subrange(k + 1, s.len() as int)), s.len() as int)
    }
}

impl Task {
    /// The first line of the context, or a default label when that line
    /// trims to nothing.
    pub fn title(&self) -> (r: &str)
        ensures
            r@ == spec_title(self.context@),
    {
        let s = self.context.as_str();
        let n: usize = s.unicode_len();
        let k: usize = find_newline(s);
        proof {
            crate::text::lemma_first_nl(s@);
        }
        let end: usize = if k < n && k > 0 && s.get_char(k - 1) == '\r' {
            k - 1
        } else {
            k
        };
        if all_space_prefix(s, end) {
            "Untitled Task"
        } else {
            s.substring_char(0, end)
        }
    }

    /// The context with its first line removed, further stripped of the
    /// line feeds that immediately follow it.
    pub fn description(&self) -> (r: &str)
        ensures
            r@ == spec_description(self.context@),
    {
        let s = self.context.as_str();
        let n: usize = s.unicode_len();
        let k: usize = find_newline(s);
        proof {
            crate::text::lemma_first_nl(s@);
        }
        if k == n {
            let empty = "";
            proof {
                reveal_strlit("");
                assert(empty@ =~= Seq::<char>::empty());
            }
            empty
        } else {
            let mut d: usize = k + 1;
            while d < n && s.get_char(d) == '\n'
                invariant
                    k + 1 <= d <= n,
                    n as int == s@.len(),
                    forall|j: int| k + 1 <= j < d ==> s@[j] == '\n',
                decreases n - d,
            {
                d = d + 1;
            }
            proof {
                let rest = s@.subrange(k + 1, n as int);
                assert forall|j: int| 0 <= j < d - (k + 1) implies rest[j] == '\n' by {
                    assert(rest[j] == s@[k + 1 + j]);
                }
                if d < n {
                    assert(rest[d - (k + 1)] == s@[d as int]);
                }
                crate::text::lemma_leading_nl_unique(rest, d - (k + 1));
            }
            s.substring_char(d, n)
        }
    }

    /// A task is active while it has not been ended by a pop.
    pub fn is_active(&self) -> (r: bool)
        ensures
            r == (self@.ended_at is None),
    {
        self.ended_at.is_none()
    }
}

/// Input of a push: the context for the new task, or none to have the
/// store fall back to a default label.
pub struct CreateTaskRequest {
    pub context: Option<String>,
}

/// The context a push stores: the requested one, or the default label.
pub open spec fn requested_context(request: CreateTaskRequest) -> Seq<char> {
    match request.context {
        Some(c) => c@,
        None => "New Task"@,
    }
}

/// Input of an update: the task to rewrite and its new context.
pub struct UpdateTaskRequest {
    pub id: i64,
    pub context: String,
}

/// The read-only stack projection: the active tasks ordered by descending
/// stack position, and the resolved current task.
pub struct TaskStack {
    pub tasks: Vec<Task>,
    pub current_task: Option<Task>,
}

/// A current task, wrapped for callers that expect exactly one.
pub struct CurrentTaskInfo {
    pub task: Task,
}

} // verus!
