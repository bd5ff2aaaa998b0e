//! The task-stack state machine, stated over sequences of [`TaskModel`]
//! values: the store's invariant, the push/pop/update transitions, the
//! derived current task and stack projection, and the laws they obey.

use vstd::prelude::*;

verus! {

use crate::models::TaskModel;

/// A task is active while it has no end timestamp.
pub open spec fn active(t: TaskModel) -> bool {
    t.ended_at is None
}

/// The store's invariant over its rows, in insertion order:
/// ids are the row numbers counted from one, stack positions are
/// non-negative and bounded by the row number, and among active tasks the
/// positions strictly increase with insertion order — so no two active
/// tasks share a position, and the newest active task holds the maximum.
pub open spec fn wf(ts: Seq<TaskModel>) -> bool {
    &&& forall|i: int| 0 <= i < ts.len() ==> (#[trigger] ts[i]).id == i + 1
    &&& forall|i: int| 0 <= i < ts.len() ==> 0 <= (#[trigger] ts[i]).stack_position <= i
    &&& forall|i: int, j: int|
        0 <= i < j < ts.len() && active(#[trigger] ts[i]) && active(#[trigger] ts[j])
            ==> ts[i].stack_position < ts[j].stack_position
}

/// Whether any task is still active.
pub open spec fn has_active(ts: Seq<TaskModel>) -> bool {
    exists|i: int| 0 <= i < ts.len() && active(#[trigger] ts[i])
}

/// The index of the most recently inserted active task, or -1 if none is.
pub open spec fn last_active_index(ts: Seq<TaskModel>) -> int
    decreases ts.len(),
{
    if ts.len() == 0 {
        -1
    } else if active(ts.last()) {
        ts.len() - 1
    } else {
        last_active_index(ts.drop_last())
    }
}

/// The current task: the active task with the greatest stack position.
pub open spec fn current_of(ts: Seq<TaskModel>) -> Option<TaskModel> {
    if has_active(ts) {
        Some(ts[last_active_index(ts)])
    } else {
        None
    }
}

/// The position a push assigns: one past the current task's, or zero when
/// no task is active.
pub open spec fn next_position(ts: Seq<TaskModel>) -> int {
    match current_of(ts) {
        Some(t) => t.stack_position + 1,
        None => 0,
    }
}

/// The task a push inserts at time `now`.
pub open spec fn push_model(ts: Seq<TaskModel>, context: Seq<char>, now: int) -> TaskModel {
    TaskModel {
        id: ts.len() as int + 1,
        context: context,
        stack_position: next_position(ts),
        created_at: now,
        ended_at: None,
        updated_at: now,
    }
}

/// Push: append the new task; no existing row changes.
pub open spec fn spec_push(ts: Seq<TaskModel>, context: Seq<char>, now: int) -> Seq<TaskModel> {
    ts.push(push_model(ts, context, now))
}

/// A task after a pop ends it at time `now`.
pub open spec fn end_task(t: TaskModel, now: int) -> TaskModel {
    TaskModel { ended_at: Some(now), updated_at: now, ..t }
}

/// Pop: end exactly the current task; insert and delete nothing. Without
/// an active task the store is left unchanged.
pub open spec fn spec_pop(ts: Seq<TaskModel>, now: int) -> Seq<TaskModel> {
    if has_active(ts) {
        ts.update(last_active_index(ts), end_task(ts[last_active_index(ts)], now))
    } else {
        ts
    }
}

/// A task after an update rewrites its context at time `now`.
pub open spec fn set_context(t: TaskModel, context: Seq<char>, now: int) -> TaskModel {
    TaskModel { context: context, updated_at: now, ..t }
}

/// Whether some row carries the given id.
pub open spec fn has_id(ts: Seq<TaskModel>, id: int) -> bool {
    exists|i: int| 0 <= i < ts.len() && (#[trigger] ts[i]).id == id
}

/// Update: rewrite the context and refresh `updated_at` of the row whose
/// id is `id`; an unknown id leaves the store unchanged.
pub open spec fn spec_update(ts: Seq<TaskModel>, id: int, context: Seq<char>, now: int) -> Seq<
    TaskModel,
> {
    if 1 <= id <= ts.len() {
        ts.update(id - 1, set_context(ts[id - 1], context, now))
    } else {
        ts
    }
}

/// The stack projection: the active tasks, most recently inserted first —
/// under [`wf`] that is descending stack position.
pub open spec fn stack_of(ts: Seq<TaskModel>) -> Seq<TaskModel>
    decreases ts.len(),
{
    if ts.len() == 0 {
        Seq::empty()
    } else if active(ts.last()) {
        seq![ts.last()] + stack_of(ts.drop_last())
    } else {
        stack_of(ts.drop_last())
    }
}

/// Where the last active index points: it is an active index, and every
/// later index is inactive; it is -1 exactly when nothing is active.
pub proof fn lemma_last_active_index(ts: Seq<TaskModel>)
    ensures
        has_active(ts) ==> {
            let k = last_active_index(ts);
            &&& 0 <= k < ts.len()
            &&& active(ts[k])
            &&& forall|j: int| k < j < ts.len() ==> !active(#[trigger] ts[j])
        },
        !has_active(ts) ==> last_active_index(ts) == -1,
    decreases ts.len(),
{
    if ts.len() == 0 {
    } else if active(ts.last()) {
    } else {
        let head = ts.drop_last();
        lemma_last_active_index(head);
        assert forall|i: int| 0 <= i < ts.len() && active(#[trigger] ts[i]) implies has_active(
            head,
        ) by {
            if i < ts.len() - 1 {
                assert(active(head[i]));
            }
        }
        if has_active(head) {
            let w = choose|i: int| 0 <= i < head.len() && active(#[trigger] head[i]);
            assert(active(ts[w]));
        }
        if has_active(ts) {
            let k = last_active_index(head);
            assert(ts[k] == head[k]);
            assert forall|j: int| k < j < ts.len() implies !active(#[trigger] ts[j]) by {
                if j < ts.len() - 1 {
                    assert(ts[j] == head[j]);
                }
            }
        }
    }
}

/// The index the last active index points to is unique: any active index
/// with nothing active after it is that index.
pub proof fn lemma_last_active_index_unique(ts: Seq<TaskModel>, k: int)
    requires
        0 <= k < ts.len(),
        active(ts[k]),
        forall|j: int| k < j < ts.len() ==> !active(#[trigger] ts[j]),
    ensures
        last_active_index(ts) == k,
{
    lemma_last_active_index(ts);
}

/// Under the invariant the current task carries the maximum stack
/// position: every other active task sits strictly below it. Together
/// with [`lemma_wf_positions_unique`] this makes the current task the
/// unique position-maximal active task, and `current_of` returns none
/// exactly when no task is active.
pub proof fn lemma_current_is_max(ts: Seq<TaskModel>)
    requires
        wf(ts),
    ensures
        current_of(ts) is Some <==> has_active(ts),
        current_of(ts) matches Some(c) ==> {
            let k = last_active_index(ts);
            &&& 0 <= k < ts.len()
            &&& c == ts[k]
            &&& active(c)
            &&& forall|i: int|
                0 <= i < ts.len() && active(#[trigger] ts[i]) && i != k
                    ==> ts[i].stack_position < c.stack_position
        },
{
    lemma_last_active_index(ts);
    if has_active(ts) {
        let k = last_active_index(ts);
        assert forall|i: int|
            0 <= i < ts.len() && active(#[trigger] ts[i]) && i != k implies ts[i].stack_position
            < ts[k].stack_position by {
            if i > k {
                assert(!active(ts[i]));
            }
        }
    }
}

/// Under the invariant a row with id `id` exists exactly when
/// `1 <= id <= ts.len()`, and it is the row at index `id - 1`.
pub proof fn lemma_has_id_bounds(ts: Seq<TaskModel>, id: int)
    requires
        wf(ts),
    ensures
        has_id(ts, id) <==> 1 <= id <= ts.len(),
        1 <= id <= ts.len() ==> ts[id - 1].id == id,
{
    if 1 <= id <= ts.len() {
        assert(ts[id - 1].id == id);
    }
}

/// Dropping an inactive final row changes neither whether a task is
/// active nor which task is current.
pub proof fn lemma_drop_last_inactive(ts: Seq<TaskModel>)
    requires
        ts.len() > 0,
        !active(ts.last()),
    ensures
        has_active(ts) == has_active(ts.drop_last()),
        current_of(ts) == current_of(ts.drop_last()),
{
    let head = ts.drop_last();
    lemma_last_active_index(head);
    assert forall|i: int| 0 <= i < ts.len() && active(#[trigger] ts[i]) implies has_active(head) by {
        if i < ts.len() - 1 {
            assert(active(head[i]));
        }
    }
    if has_active(head) {
        let w = choose|i: int| 0 <= i < head.len() && active(#[trigger] head[i]);
        assert(active(ts[w]));
        let k = last_active_index(head);
        assert(ts[k] == head[k]);
    }
}

/// Pushing preserves the store's invariant, and the task it inserts is
/// active. Together with [`lemma_pop_preserves_wf`] and
/// [`lemma_update_preserves_wf`] this keeps the invariant — in particular
/// the uniqueness of active stack positions — along every sequence of
/// operations from the empty store.
pub proof fn lemma_push_preserves_wf(ts: Seq<TaskModel>, context: Seq<char>, now: int)
    requires
        wf(ts),
    ensures
        wf(spec_push(ts, context, now)),
        active(push_model(ts, context, now)),
{
    let t = push_model(ts, context, now);
    let s = spec_push(ts, context, now);
    lemma_current_is_max(ts);
    lemma_last_active_index(ts);
    assert forall|i: int| 0 <= i < s.len() implies (#[trigger] s[i]).id == i + 1 by {
        if i < ts.len() {
            assert(s[i] == ts[i]);
        }
    }
    assert forall|i: int| 0 <= i < s.len() implies 0 <= (#[trigger] s[i]).stack_position <= i by {
        if i < ts.len() {
            assert(s[i] == ts[i]);
        }
    }
    assert forall|i: int, j: int|
        0 <= i < j < s.len() && active(#[trigger] s[i]) && active(#[trigger] s[j]) implies
        s[i].stack_position < s[j].stack_position by {
        if j < ts.len() {
            assert(s[i] == ts[i] && s[j] == ts[j]);
        } else {
            assert(s[i] == ts[i]);
        }
    }
}

/// Popping preserves the store's invariant: it only moves one task from
/// active to ended.
pub proof fn lemma_pop_preserves_wf(ts: Seq<TaskModel>, now: int)
    requires
        wf(ts),
    ensures
        wf(spec_pop(ts, now)),
{
    if has_active(ts) {
        lemma_last_active_index(ts);
        let k = last_active_index(ts);
        let s = spec_pop(ts, now);
        assert forall|i: int| 0 <= i < s.len() implies (#[trigger] s[i]).id == i + 1 by {
            if i != k {
                assert(s[i] == ts[i]);
            }
        }
        assert forall|i: int| 0 <= i < s.len() implies 0 <= (#[trigger] s[i]).stack_position
            <= i by {
            if i != k {
                assert(s[i] == ts[i]);
            }
        }
        assert forall|i: int, j: int|
            0 <= i < j < s.len() && active(#[trigger] s[i]) && active(#[trigger] s[j]) implies
            s[i].stack_position < s[j].stack_position by {
            assert(i != k && j != k);
            assert(s[i] == ts[i] && s[j] == ts[j]);
        }
    }
}

/// Updating preserves the store's invariant: it touches neither ids nor
/// positions nor the active set.
pub proof fn lemma_update_preserves_wf(ts: Seq<TaskModel>, id: int, context: Seq<char>, now: int)
    requires
        wf(ts),
    ensures
        wf(spec_update(ts, id, context, now)),
{
    if 1 <= id <= ts.len() {
        let s = spec_update(ts, id, context, now);
        assert forall|i: int| 0 <= i < s.len() implies (#[trigger] s[i]).id == i + 1 by {
            if i != id - 1 {
                assert(s[i] == ts[i]);
            }
        }
        assert forall|i: int| 0 <= i < s.len() implies 0 <= (#[trigger] s[i]).stack_position
            <= i by {
            if i != id - 1 {
                assert(s[i] == ts[i]);
            }
        }
        assert forall|i: int, j: int|
            0 <= i < j < s.len() && active(#[trigger] s[i]) && active(#[trigger] s[j]) implies
            s[i].stack_position < s[j].stack_position by {
            if i != id - 1 {
                assert(s[i] == ts[i]);
            }
            if j != id - 1 {
                assert(s[j] == ts[j]);
            }
        }
    }
}

/// Pushing two tasks and popping ends exactly the second push and nothing
/// else: the store equals the state after the first push with the ended
/// second task appended, the stack projection is the one the first push
/// left (the first task appears once, not twice), and the first task —
/// with the id and stack position it got then — is current again.
pub proof fn lemma_push_push_pop(
    ts: Seq<TaskModel>,
    ca: Seq<char>,
    cb: Seq<char>,
    t1: int,
    t2: int,
    t3: int,
)
    requires
        wf(ts),
    ensures
        ({
            let a = push_model(ts, ca, t1);
            let s1 = spec_push(ts, ca, t1);
            let b = push_model(s1, cb, t2);
            let s2 = spec_push(s1, cb, t2);
            let s3 = spec_pop(s2, t3);
            &&& current_of(s1) == Some(a)
            &&& current_of(s2) == Some(b)
            &&& s3 == s1.push(end_task(b, t3))
            &&& current_of(s3) == Some(a)
            &&& stack_of(s3) == stack_of(s1)
        }),
{
    let a = push_model(ts, ca, t1);
    let s1 = spec_push(ts, ca, t1);
    let b = push_model(s1, cb, t2);
    let s2 = spec_push(s1, cb, t2);
    let s3 = spec_pop(s2, t3);
    assert(active(s1[s1.len() - 1]));
    lemma_last_active_index_unique(s1, s1.len() - 1);
    assert(active(s2[s2.len() - 1]));
    lemma_last_active_index_unique(s2, s2.len() - 1);
    assert(s3 =~= s1.push(end_task(b, t3)));
    assert(s3.drop_last() =~= s1);
    lemma_drop_last_inactive(s3);
    assert(stack_of(s3) == stack_of(s1));
}

/// An update changes only the context and `updated_at` of the addressed
/// row: its id, stack position and timestamps of creation and end are
/// untouched, and every other row is untouched entirely.
pub proof fn lemma_update_isolation(ts: Seq<TaskModel>, id: int, context: Seq<char>, now: int)
    requires
        wf(ts),
        has_id(ts, id),
    ensures
        ({
            let s = spec_update(ts, id, context, now);
            &&& s.len() == ts.len()
            &&& forall|j: int| 0 <= j < ts.len() && j != id - 1 ==> s[j] == ts[j]
            &&& s[id - 1].id == ts[id - 1].id
            &&& s[id - 1].context == context
            &&& s[id - 1].updated_at == now
            &&& s[id - 1].stack_position == ts[id - 1].stack_position
            &&& s[id - 1].created_at == ts[id - 1].created_at
            &&& s[id - 1].ended_at == ts[id - 1].ended_at
        }),
{
    lemma_has_id_bounds(ts, id);
}

/// The stack projection is exactly the active tasks, most recent first.
pub proof fn lemma_stack_of_filter(ts: Seq<TaskModel>)
    ensures
        stack_of(ts) == ts.filter(|t: TaskModel| active(t)).reverse(),
    decreases ts.len(),
{
    reveal(Seq::filter);
    let pred = |t: TaskModel| active(t);
    if ts.len() == 0 {
        assert(stack_of(ts) =~= ts.filter(pred).reverse());
    } else {
        let head = ts.drop_last();
        lemma_stack_of_filter(head);
        head.lemma_filter_len(pred);
        assert(ts.filter(pred) == if pred(ts.last()) {
            head.filter(pred).push(ts.last())
        } else {
            head.filter(pred)
        });
        if active(ts.last()) {
            assert(stack_of(ts) =~= ts.filter(pred).reverse());
        } else {
            assert(stack_of(ts) =~= ts.filter(pred).reverse());
        }
    }
}

/// Properties of the stack projection under the invariant: it is empty
/// exactly when nothing is active, every entry is an active row of the
/// store, every active row appears in it, its stack positions strictly
/// decrease, and its head is the current task.
pub proof fn lemma_stack_of_sorted(ts: Seq<TaskModel>)
    requires
        wf(ts),
    ensures
        ({
            let st = stack_of(ts);
            &&& st.len() > 0 <==> has_active(ts)
            &&& forall|k: int| 0 <= k < st.len() ==> active(#[trigger] st[k])
            &&& forall|k: int|
                0 <= k < st.len() ==> exists|i: int| 0 <= i < ts.len() && ts[i] == #[trigger] st[k]
            &&& forall|i: int| 0 <= i < ts.len() && active(#[trigger] ts[i]) ==> st.contains(ts[i])
            &&& forall|a: int, b: int|
                0 <= a < b < st.len() ==> (#[trigger] st[a]).stack_position > (
                #[trigger] st[b]).stack_position
            &&& st.len() > 0 ==> current_of(ts) == Some(st[0])
        }),
    decreases ts.len(),
{
    let st = stack_of(ts);
    if ts.len() == 0 {
    } else {
        let head = ts.drop_last();
        assert(wf(head)) by {
            assert forall|i: int| 0 <= i < head.len() implies (#[trigger] head[i]) == ts[i] by {}
        }
        lemma_stack_of_sorted(head);
        let sth = stack_of(head);
        if active(ts.last()) {
            assert(st == seq![ts.last()] + sth);
            assert(active(ts[ts.len() - 1]));
            lemma_last_active_index_unique(ts, ts.len() - 1);
            assert(st[0] == ts.last());
            assert forall|k: int| 0 <= k < st.len() implies exists|i: int|
                0 <= i < ts.len() && ts[i] == #[trigger] st[k] by {
                if k == 0 {
                    assert(ts[ts.len() - 1] == st[0]);
                } else {
                    assert(st[k] == sth[k - 1]);
                    let i = choose|i: int| 0 <= i < head.len() && head[i] == sth[k - 1];
                    assert(ts[i] == st[k]);
                }
            }
            assert forall|i: int| 0 <= i < ts.len() && active(#[trigger] ts[i]) implies st.contains(
                ts[i],
            ) by {
                if i == ts.len() - 1 {
                    assert(st[0] == ts[i]);
                } else {
                    assert(active(head[i]));
                    assert(sth.contains(head[i]));
                    let k = choose|k: int| 0 <= k < sth.len() && sth[k] == head[i];
                    assert(st[k + 1] == ts[i]);
                }
            }
            assert forall|a: int, b: int| 0 <= a < b < st.len() implies (
            #[trigger] st[a]).stack_position > (#[trigger] st[b]).stack_position by {
                if a == 0 {
                    assert(st[b] == sth[b - 1]);
                    let i = choose|i: int| 0 <= i < head.len() && head[i] == sth[b - 1];
                    assert(active(sth[b - 1]));
                    assert(ts[i] == st[b] && active(ts[i]));
                    assert(ts[i].stack_position < ts[ts.len() - 1].stack_position);
                } else {
                    assert(st[a] == sth[a - 1] && st[b] == sth[b - 1]);
                }
            }
        } else {
            assert(st == sth);
            lemma_drop_last_inactive(ts);
            assert forall|k: int| 0 <= k < st.len() implies exists|i: int|
                0 <= i < ts.len() && ts[i] == #[trigger] st[k] by {
                let i = choose|i: int| 0 <= i < head.len() && head[i] == sth[k];
                assert(ts[i] == st[k]);
            }
            assert forall|i: int| 0 <= i < ts.len() && active(#[trigger] ts[i]) implies st.contains(
                ts[i],
            ) by {
                if i < ts.len() - 1 {
                    assert(active(head[i]));
                    assert(sth.contains(head[i]));
                }
            }
        }
    }
}

/// No two simultaneously active tasks share a stack position.
pub proof fn lemma_wf_positions_unique(ts: Seq<TaskModel>)
    requires
        wf(ts),
    ensures
        forall|i: int, j: int|
            0 <= i < ts.len() && 0 <= j < ts.len() && i != j && active(#[trigger] ts[i]) && active(
                #[trigger] ts[j],
            ) ==> ts[i].stack_position != ts[j].stack_position,
{
}

} // verus!
