//! The per-window update runtime: periodic tasks produce `Stage` requests,
//! window events merge more, and each window accumulates the most
//! demanding pending stage until a redraw consumes it. Callbacks
//! themselves live with the host event loop; a task carries an opaque
//! callback handle, and the loop feeds each callback's result back in.

use vstd::prelude::*;
use crate::stage::{Stage, StopTask};
use crate::style::Stylesheet;

verus! {

/// A periodic task: its optional window affinity (`None` applies to every
/// window), when it last ran, its clamped run interval in milliseconds,
/// the host's handle for its callback, and whether it asked to stop.
#[derive(Debug, Clone, Copy, PartialEq, Eq, Structural)]
pub struct Task {
    pub window_id: Option<u64>,
    pub last_run: u64,
    pub frequency: u64,
    pub callback: u64,
    pub stopped: bool,
}

/// One live window: its identity and the most demanding stage requested
/// since its pending stage was last consumed.
#[derive(Debug, Clone, Copy, PartialEq, Eq, Structural)]
pub struct WindowState {
    pub id: u64,
    pub pending: Stage,
}

/// The smallest run interval a task may have, in milliseconds.
pub const MIN_FREQUENCY: u64 = 10;

/// The windows a task sequence may be scoped to all exist, window ids are
/// unique, and every interval respects the clamp floor.
pub open spec fn app_wf(tasks: Seq<Task>, windows: Seq<WindowState>) -> bool {
    &&& forall|a: int, b: int|
        0 <= a < b < windows.len() ==> (#[trigger] windows[a].id) != (#[trigger] windows[b].id)
    &&& forall|t: int|
        0 <= t < tasks.len() ==> match (#[trigger] tasks[t]).window_id {
            Some(w) => exists|j: int| 0 <= j < windows.len() && (#[trigger] windows[j]).id == w,
            None => true,
        }
    &&& forall|t: int| 0 <= t < tasks.len() ==> (#[trigger] tasks[t]).frequency >= MIN_FREQUENCY
}

/// The tasks that survive the end of a tick: those that did not stop.
#[verifier::opaque]
pub open spec fn keep_unstopped(ts: Seq<Task>) -> Seq<Task>
    decreases ts.len(),
{
    if ts.len() == 0 {
        Seq::empty()
    } else {
        let rest = keep_unstopped(ts.drop_last());
        if ts.last().stopped {
            rest
        } else {
            rest.push(ts.last())
        }
    }
}

/// The windows that survive closing window `id`.
#[verifier::opaque]
pub open spec fn remove_window_seq(ws: Seq<WindowState>, id: u64) -> Seq<WindowState>
    decreases ws.len(),
{
    if ws.len() == 0 {
        Seq::empty()
    } else {
        let rest = remove_window_seq(ws.drop_last(), id);
        if ws.last().id == id {
            rest
        } else {
            rest.push(ws.last())
        }
    }
}

/// The tasks that survive closing window `id`: all but those scoped to it.
#[verifier::opaque]
pub open spec fn remove_window_tasks(ts: Seq<Task>, id: u64) -> Seq<Task>
    decreases ts.len(),
{
    if ts.len() == 0 {
        Seq::empty()
    } else {
        let rest = remove_window_tasks(ts.drop_last(), id);
        if ts.last().window_id == Some(id) {
            rest
        } else {
            rest.push(ts.last())
        }
    }
}

/// When a task next wants to run, saturating at the largest instant.
pub open spec fn task_wake(t: Task) -> u64 {
    if t.last_run + t.frequency > u64::MAX {
        u64::MAX
    } else {
        (t.last_run + t.frequency) as u64
    }
}

/// The earliest wake time over a task sequence, or `None` when no task is
/// registered and the host should wait for an event instead of polling.
pub open spec fn next_wake_spec(ts: Seq<Task>) -> Option<u64>
    decreases ts.len(),
{
    if ts.len() == 0 {
        None
    } else {
        let w = task_wake(ts.last());
        match next_wake_spec(ts.drop_last()) {
            None => Some(w),
            Some(r) => if w < r {
                Some(w)
            } else {
                Some(r)
            },
        }
    }
}

/// Ending a tick keeps exactly the tasks that did not stop, in
/// registration order: a task that signalled stop is gone and is never
/// invoked again, and every other task survives unchanged.
pub proof fn lemma_keep_unstopped_props(ts: Seq<Task>, res: Seq<Task>)
    requires
        res == keep_unstopped(ts),
    ensures
        forall|j: int| 0 <= j < res.len() ==> !(#[trigger] res[j]).stopped,
        forall|j: int|
            0 <= j < res.len() ==> exists|k: int| 0 <= k < ts.len() && ts[k] == (#[trigger] res[j]),
        forall|k: int|
            0 <= k < ts.len() && !(#[trigger] ts[k]).stopped ==> exists|j: int|
                0 <= j < res.len() && res[j] == ts[k],
    decreases ts.len(),
{
    reveal_with_fuel(keep_unstopped, 2);
    if ts.len() > 0 {
        let rest = keep_unstopped(ts.drop_last());
        lemma_keep_unstopped_props(ts.drop_last(), rest);
        assert forall|k: int|
            0 <= k < ts.len() && !(#[trigger] ts[k]).stopped implies exists|j: int|
                0 <= j < res.len() && res[j] == ts[k] by {
            if k < ts.len() - 1 {
                assert(ts.drop_last()[k] == ts[k]);
                let j = choose|j: int| 0 <= j < rest.len() && rest[j] == ts[k];
                assert(res[j] == ts[k]);
            } else {
                assert(res.last() == ts[k]);
            }
        }
    }
}

/// Closing a window removes every task scoped to it and no other: the
/// survivors are exactly the tasks of other windows and the global tasks,
/// in registration order.
pub proof fn lemma_remove_window_tasks_props(ts: Seq<Task>, id: u64, res: Seq<Task>)
    requires
        res == remove_window_tasks(ts, id),
    ensures
        forall|j: int| 0 <= j < res.len() ==> (#[trigger] res[j]).window_id != Some(id),
        forall|j: int|
            0 <= j < res.len() ==> exists|k: int| 0 <= k < ts.len() && ts[k] == (#[trigger] res[j]),
        forall|k: int|
            0 <= k < ts.len() && (#[trigger] ts[k]).window_id != Some(id) ==> exists|j: int|
                0 <= j < res.len() && res[j] == ts[k],
    decreases ts.len(),
{
    reveal_with_fuel(remove_window_tasks, 2);
    if ts.len() > 0 {
        let rest = remove_window_tasks(ts.drop_last(), id);
        lemma_remove_window_tasks_props(ts.drop_last(), id, rest);
        assert forall|k: int|
            0 <= k < ts.len() && (#[trigger] ts[k]).window_id != Some(id) implies exists|j: int|
                0 <= j < res.len() && res[j] == ts[k] by {
            if k < ts.len() - 1 {
                assert(ts.drop_last()[k] == ts[k]);
                let j = choose|j: int| 0 <= j < rest.len() && rest[j] == ts[k];
                assert(res[j] == ts[k]);
            } else {
                assert(res.last() == ts[k]);
            }
        }
    }
}

/// The windows surviving a close are exactly the others, with their
/// pending stages untouched, and unique identities stay unique.
pub proof fn lemma_remove_window_seq_props(ws: Seq<WindowState>, id: u64, res: Seq<WindowState>)
    requires
        res == remove_window_seq(ws, id),
    ensures
        forall|j: int| 0 <= j < res.len() ==> (#[trigger] res[j]).id != id,
        forall|j: int|
            0 <= j < res.len() ==> exists|k: int| 0 <= k < ws.len() && ws[k] == (#[trigger] res[j]),
        forall|k: int|
            0 <= k < ws.len() && (#[trigger] ws[k]).id != id ==> exists|j: int|
                0 <= j < res.len() && res[j] == ws[k],
    decreases ws.len(),
{
    reveal_with_fuel(remove_window_seq, 2);
    if ws.len() > 0 {
        let rest = remove_window_seq(ws.drop_last(), id);
        lemma_remove_window_seq_props(ws.drop_last(), id, rest);
        assert forall|k: int|
            0 <= k < ws.len() && (#[trigger] ws[k]).id != id implies exists|j: int|
                0 <= j < res.len() && res[j] == ws[k] by {
            if k < ws.len() - 1 {
                assert(ws.drop_last()[k] == ws[k]);
                let j = choose|j: int| 0 <= j < rest.len() && rest[j] == ws[k];
                assert(res[j] == ws[k]);
            } else {
                assert(res.last() == ws[k]);
            }
        }
    }
}

/// If no window has identity `w`, none of the survivors of a close has.
proof fn lemma_remove_keeps_absent(ws: Seq<WindowState>, id: u64, w: u64)
    requires
        forall|k: int| 0 <= k < ws.len() ==> (#[trigger] ws[k]).id != w,
    ensures
        forall|j: int|
            0 <= j < remove_window_seq(ws, id).len() ==> (#[trigger] remove_window_seq(
                ws,
                id,
            )[j]).id != w,
    decreases ws.len(),
{
    reveal_with_fuel(remove_window_seq, 1);
    if ws.len() > 0 {
        assert forall|k: int|
            0 <= k < ws.drop_last().len() implies (#[trigger] ws.drop_last()[k]).id != w by {
            assert(ws.drop_last()[k] == ws[k]);
        }
        lemma_remove_keeps_absent(ws.drop_last(), id, w);
    }
}

/// If some window other than `id` has identity `w`, a survivor has it.
proof fn lemma_remove_keeps_present(ws: Seq<WindowState>, id: u64, w: u64)
    requires
        exists|k: int| 0 <= k < ws.len() && (#[trigger] ws[k]).id == w,
        w != id,
    ensures
        exists|j: int|
            0 <= j < remove_window_seq(ws, id).len() && (#[trigger] remove_window_seq(
                ws,
                id,
            )[j]).id == w,
    decreases ws.len(),
{
    reveal_with_fuel(remove_window_seq, 1);
    let res = remove_window_seq(ws, id);
    let rest = remove_window_seq(ws.drop_last(), id);
    if ws.last().id == w {
        assert(res.last() == ws.last());
    } else {
        let k0 = choose|k: int| 0 <= k < ws.len() && (#[trigger] ws[k]).id == w;
        assert(ws.drop_last()[k0] == ws[k0]);
        lemma_remove_keeps_present(ws.drop_last(), id, w);
        let j0 = choose|j: int| 0 <= j < rest.len() && (#[trigger] rest[j]).id == w;
        if ws.last().id == id {
            assert(res[j0].id == w);
        } else {
            assert(res[j0] == rest[j0]);
        }
    }
}

/// Surviving window identities stay unique.
proof fn lemma_remove_window_seq_unique(ws: Seq<WindowState>, id: u64)
    requires
        forall|a: int, b: int|
            0 <= a < b < ws.len() ==> (#[trigger] ws[a].id) != (#[trigger] ws[b].id),
    ensures
        forall|a: int, b: int|
            0 <= a < b < remove_window_seq(ws, id).len() ==> (#[trigger] remove_window_seq(
                ws,
                id,
            )[a].id) != (#[trigger] remove_window_seq(ws, id)[b].id),
    decreases ws.len(),
{
    reveal_with_fuel(remove_window_seq, 1);
    if ws.len() > 0 {
        assert forall|a: int, b: int|
            0 <= a < b < ws.drop_last().len() implies (#[trigger] ws.drop_last()[a].id) != (
        #[trigger] ws.drop_last()[b].id) by {
            assert(ws.drop_last()[a] == ws[a]);
            assert(ws.drop_last()[b] == ws[b]);
        }
        lemma_remove_window_seq_unique(ws.drop_last(), id);
        let res = remove_window_seq(ws, id);
        let rest = remove_window_seq(ws.drop_last(), id);
        if ws.last().id != id {
            assert forall|k: int|
                0 <= k < ws.drop_last().len() implies (#[trigger] ws.drop_last()[k]).id != ws.last().id by {
                assert(ws.drop_last()[k] == ws[k]);
            }
            lemma_remove_keeps_absent(ws.drop_last(), id, ws.last().id);
            assert forall|a: int, b: int|
                0 <= a < b < res.len() implies (#[trigger] res[a].id) != (#[trigger] res[b].id) by {
                assert(res == rest.push(ws.last()));
                if b < res.len() - 1 {
                    assert(res[a] == rest[a] && res[b] == rest[b]);
                } else {
                    assert(res[a] == rest[a]);
                    assert(res[b] == ws.last());
                }
            }
        }
    }
}

/// Closing a window keeps the runtime well formed: the remaining tasks
/// are scoped to remaining windows, intervals stay clamped, and the
/// remaining identities stay unique.
proof fn lemma_close_preserves_wf(ts: Seq<Task>, ws: Seq<WindowState>, id: u64)
    requires
        app_wf(ts, ws),
    ensures
        app_wf(remove_window_tasks(ts, id), remove_window_seq(ws, id)),
    decreases ts.len(),
{
    reveal_with_fuel(remove_window_tasks, 1);
    lemma_remove_window_seq_unique(ws, id);
    if ts.len() > 0 {
        assert(app_wf(ts.drop_last(), ws)) by {
            assert forall|t: int|
                0 <= t < ts.drop_last().len() implies (ts.drop_last()[t] == ts[t]) by {}
        }
        lemma_close_preserves_wf(ts.drop_last(), ws, id);
        let res = remove_window_tasks(ts, id);
        let rest = remove_window_tasks(ts.drop_last(), id);
        let ws2 = remove_window_seq(ws, id);
        if ts.last().window_id != Some(id) {
            assert(res == rest.push(ts.last()));
            assert forall|t: int|
                0 <= t < res.len() implies match (#[trigger] res[t]).window_id {
                Some(w) => exists|j: int| 0 <= j < ws2.len() && (#[trigger] ws2[j]).id == w,
                None => true,
            } by {
                if t < res.len() - 1 {
                    assert(res[t] == rest[t]);
                } else {
                    assert(res[t] == ts.last());
                    match ts.last().window_id {
                        Some(w) => {
                            assert(w != id);
                            lemma_remove_keeps_present(ws, id, w);
                        },
                        None => {},
                    }
                }
            }
            assert forall|t: int|
                0 <= t < res.len() implies (#[trigger] res[t]).frequency >= MIN_FREQUENCY by {
                if t < res.len() - 1 {
                    assert(res[t] == rest[t]);
                } else {
                    assert(res[t] == ts.last());
                }
            }
        }
    }
}

/// Dropping stopped tasks keeps the runtime well formed.
proof fn lemma_keep_unstopped_wf(ts: Seq<Task>, ws: Seq<WindowState>)
    requires
        app_wf(ts, ws),
    ensures
        app_wf(keep_unstopped(ts), ws),
    decreases ts.len(),
{
    reveal_with_fuel(keep_unstopped, 1);
    if ts.len() > 0 {
        assert(app_wf(ts.drop_last(), ws)) by {
            assert forall|t: int|
                0 <= t < ts.drop_last().len() implies (ts.drop_last()[t] == ts[t]) by {}
        }
        lemma_keep_unstopped_wf(ts.drop_last(), ws);
        let res = keep_unstopped(ts);
        let rest = keep_unstopped(ts.drop_last());
        if !ts.last().stopped {
            assert(res == rest.push(ts.last()));
            assert forall|t: int|
                0 <= t < res.len() implies match (#[trigger] res[t]).window_id {
                Some(w) => exists|j: int| 0 <= j < ws.len() && (#[trigger] ws[j]).id == w,
                None => true,
            } by {
                if t < res.len() - 1 {
                    assert(res[t] == rest[t]);
                } else {
                    assert(res[t] == ts.last());
                }
            }
            assert forall|t: int|
                0 <= t < res.len() implies (#[trigger] res[t]).frequency >= MIN_FREQUENCY by {
                if t < res.len() - 1 {
                    assert(res[t] == rest[t]);
                } else {
                    assert(res[t] == ts.last());
                }
            }
        }
    }
}

/// Well-formedness survives any change that keeps every task's affinity
/// and interval and every window's identity.
proof fn lemma_wf_preserved(
    ts1: Seq<Task>,
    ws1: Seq<WindowState>,
    ts2: Seq<Task>,
    ws2: Seq<WindowState>,
)
    requires
        app_wf(ts1, ws1),
        ts2.len() == ts1.len(),
        forall|t: int|
            0 <= t < ts1.len() ==> (#[trigger] ts2[t]).window_id == ts1[t].window_id
                && ts2[t].frequency == ts1[t].frequency,
        ws2.len() == ws1.len(),
        forall|j: int| 0 <= j < ws1.len() ==> (#[trigger] ws2[j]).id == ws1[j].id,
    ensures
        app_wf(ts2, ws2),
{
    assert forall|t: int|
        0 <= t < ts2.len() implies match (#[trigger] ts2[t]).window_id {
        Some(w) => exists|j: int| 0 <= j < ws2.len() && (#[trigger] ws2[j]).id == w,
        None => true,
    } by {
        assert(ts1[t].window_id == ts2[t].window_id);
        match ts2[t].window_id {
            Some(w) => {
                let j = choose|j: int| 0 <= j < ws1.len() && (#[trigger] ws1[j]).id == w;
                assert(ws2[j].id == w);
            },
            None => {},
        }
    }
}

/// The tasks of `tasks` that did not stop, in order; every survivor is one
/// of the original tasks.
fn filter_unstopped(tasks: &Vec<Task>) -> (kept: Vec<Task>)
    ensures
        kept@ == keep_unstopped(tasks@),
        forall|a: int|
            0 <= a < kept@.len() ==> exists|k: int|
                0 <= k < tasks@.len() && tasks@[k] == (#[trigger] kept@[a]),
{
    let ghost ts0 = tasks@;
    let mut kept: Vec<Task> = Vec::new();
    let n = tasks.len();
    let mut i: usize = 0;
    proof {
        reveal_with_fuel(keep_unstopped, 1);
        assert(keep_unstopped(ts0.take(0)) =~= Seq::<Task>::empty());
    }
    while i < n
        invariant
            n == tasks@.len(),
            ts0 == tasks@,
            i <= n,
            kept@ == keep_unstopped(ts0.take(i as int)),
            forall|a: int|
                0 <= a < kept@.len() ==> exists|k: int|
                    0 <= k < ts0.len() && ts0[k] == (#[trigger] kept@[a]),
        decreases n - i,
    {
        proof {
            reveal_with_fuel(keep_unstopped, 2);
            assert(ts0.take(i as int + 1).drop_last() =~= ts0.take(i as int));
            assert(ts0.take(i as int + 1).last() == ts0[i as int]);
        }
        if !tasks[i].stopped {
            kept.push(tasks[i]);
        }
        i += 1;
    }
    proof {
        assert(ts0.take(n as int) =~= ts0);
    }
    kept
}

/// The tasks of `tasks` not scoped to window `id`, in order; every
/// survivor is one of the original tasks.
fn filter_other_window_tasks(tasks: &Vec<Task>, id: u64) -> (kept: Vec<Task>)
    ensures
        kept@ == remove_window_tasks(tasks@, id),
{
    let ghost ts0 = tasks@;
    let mut kept: Vec<Task> = Vec::new();
    let n = tasks.len();
    let mut i: usize = 0;
    proof {
        reveal_with_fuel(remove_window_tasks, 1);
        assert(remove_window_tasks(ts0.take(0), id) =~= Seq::<Task>::empty());
    }
    while i < n
        invariant
            n == tasks@.len(),
            ts0 == tasks@,
            i <= n,
            kept@ == remove_window_tasks(ts0.take(i as int), id),
        decreases n - i,
    {
        proof {
            reveal_with_fuel(remove_window_tasks, 2);
            assert(ts0.take(i as int + 1).drop_last() =~= ts0.take(i as int));
            assert(ts0.take(i as int + 1).last() == ts0[i as int]);
        }
        let keep = match tasks[i].window_id {
            Some(w) => w != id,
            None => true,
        };
        if keep {
            kept.push(tasks[i]);
        }
        i += 1;
    }
    proof {
        assert(ts0.take(n as int) =~= ts0);
    }
    kept
}

/// The windows of `ws` other than `id`, in order.
fn filter_other_windows(ws: &Vec<WindowState>, id: u64) -> (kept: Vec<WindowState>)
    ensures
        kept@ == remove_window_seq(ws@, id),
{
    let ghost ws0 = ws@;
    let mut kept: Vec<WindowState> = Vec::new();
    let n = ws.len();
    let mut j: usize = 0;
    proof {
        reveal_with_fuel(remove_window_seq, 1);
        assert(remove_window_seq(ws0.take(0), id) =~= Seq::<WindowState>::empty());
    }
    while j < n
        invariant
            n == ws@.len(),
            ws0 == ws@,
            j <= n,
            kept@ == remove_window_seq(ws0.take(j as int), id),
        decreases n - j,
    {
        proof {
            reveal_with_fuel(remove_window_seq, 2);
            assert(ws0.take(j as int + 1).drop_last() =~= ws0.take(j as int));
            assert(ws0.take(j as int + 1).last() == ws0[j as int]);
        }
        if ws[j].id != id {
            kept.push(ws[j]);
        }
        j += 1;
    }
    proof {
        assert(ws0.take(n as int) =~= ws0);
    }
    kept
}

/// The earliest instant at which any of `tasks` next wants to run.
fn compute_next_wake(tasks: &Vec<Task>) -> (next: Option<u64>)
    ensures
        next == next_wake_spec(tasks@),
{
    let mut next: Option<u64> = None;
    let m = tasks.len();
    let mut j: usize = 0;
    proof {
        assert(tasks@.take(0).len() == 0);
    }
    while j < m
        invariant
            m == tasks@.len(),
            j <= m,
            next == next_wake_spec(tasks@.take(j as int)),
        decreases m - j,
    {
        proof {
            assert(tasks@.take(j as int + 1).drop_last() =~= tasks@.take(j as int));
            assert(tasks@.take(j as int + 1).last() == tasks@[j as int]);
        }
        let t = tasks[j];
        let wake = if t.frequency <= u64::MAX - t.last_run {
            t.last_run + t.frequency
        } else {
            u64::MAX
        };
        next = match next {
            None => Some(wake),
            Some(r) => if wake < r {
                Some(wake)
            } else {
                Some(r)
            },
        };
        j += 1;
    }
    proof {
        assert(tasks@.take(m as int) =~= tasks@);
    }
    next
}

/// The application runtime core: the active stylesheet, the registered
/// periodic tasks, the live windows with their pending stages, the
/// currently focused window, and the stage accumulated this tick by
/// globally scoped tasks.
#[derive(Debug, Clone)]
pub struct App {
    pub stylesheet: Stylesheet,
    pub tasks: Vec<Task>,
    pub windows: Vec<WindowState>,
    pub current_window: Option<u64>,
    pub global_accum: Stage,
}

impl App {
    /// Everything the runtime owns is well formed.
    pub open spec fn wf(self) -> bool {
        app_wf(self.tasks@, self.windows@)
    }

    /// Whether a window with identity `id` is live.
    pub open spec fn has_window(self, id: u64) -> bool {
        exists|j: int| 0 <= j < self.windows@.len() && (#[trigger] self.windows@[j]).id == id
    }

    /// Whether task `t` is due at instant `now`.
    pub open spec fn task_due_spec(t: Task, now: u64) -> bool {
        now >= t.last_run + t.frequency
    }

    /// A fresh runtime: no windows, no tasks, an empty stylesheet, and
    /// nothing pending.
    pub fn new() -> (app: App)
        ensures
            app.tasks@.len() == 0,
            app.windows@.len() == 0,
            app.current_window is None,
            app.global_accum == Stage::Idle,
            app.stylesheet.rules@.len() == 0,
            app.wf(),
    {
        App {
            stylesheet: Stylesheet { rules: Vec::new() },
            tasks: Vec::new(),
            windows: Vec::new(),
            current_window: None,
            global_accum: Stage::Idle,
        }
    }

    /// Replace the active stylesheet.
    pub fn use_stylesheet(self, stylesheet: Stylesheet) -> (app: App)
        ensures
            app.stylesheet == stylesheet,
            app.tasks == self.tasks,
            app.windows == self.windows,
            app.current_window == self.current_window,
            app.global_accum == self.global_accum,
    {
        App { stylesheet, ..self }
    }

    /// The currently focused window, if any.
    pub fn current_window(&self) -> (r: Option<u64>)
        ensures
            r == self.current_window,
    {
        self.current_window
    }

    /// Register a new window with no work pending.
    pub fn add_window(&mut self, id: u64)
        requires
            old(self).wf(),
            !old(self).has_window(id),
        ensures
            final(self).windows@ == old(self).windows@.push(
                WindowState { id, pending: Stage::Idle },
            ),
            final(self).tasks == old(self).tasks,
            final(self).stylesheet == old(self).stylesheet,
            final(self).current_window == old(self).current_window,
            final(self).global_accum == old(self).global_accum,
            final(self).wf(),
    {
        self.windows.push(WindowState { id, pending: Stage::Idle });
        proof {
            assert forall|t: int|
                0 <= t < self.tasks@.len() implies match (#[trigger] self.tasks@[t]).window_id {
                Some(w) => exists|j: int|
                    0 <= j < self.windows@.len() && (#[trigger] self.windows@[j]).id == w,
                None => true,
            } by {
                match self.tasks@[t].window_id {
                    Some(w) => {
                        let j = choose|j: int|
                            0 <= j < old(self).windows@.len() && (#[trigger] old(
                                self,
                            ).windows@[j]).id == w;
                        assert(self.windows@[j].id == w);
                    },
                    None => {},
                }
            }
        }
    }

    /// Register a periodic task. An interval below the floor is clamped to
    /// the floor, so no task can force wakes more often than once per
    /// `MIN_FREQUENCY` milliseconds.
    pub fn add_task(&mut self, window_id: Option<u64>, frequency: u64, callback: u64, now: u64)
        requires
            old(self).wf(),
            window_id matches Some(w) ==> old(self).has_window(w),
        ensures
            final(self).tasks@ == old(self).tasks@.push(
                Task {
                    window_id,
                    last_run: now,
                    frequency: if frequency < MIN_FREQUENCY {
                        MIN_FREQUENCY
                    } else {
                        frequency
                    },
                    callback,
                    stopped: false,
                },
            ),
            final(self).windows == old(self).windows,
            final(self).stylesheet == old(self).stylesheet,
            final(self).current_window == old(self).current_window,
            final(self).global_accum == old(self).global_accum,
            final(self).wf(),
    {
        let clamped = if frequency < MIN_FREQUENCY {
            MIN_FREQUENCY
        } else {
            frequency
        };
        self.tasks.push(
            Task { window_id, last_run: now, frequency: clamped, callback, stopped: false },
        );
    }

    /// How many tasks are registered.
    pub fn task_count(&self) -> (n: usize)
        ensures
            n == self.tasks@.len(),
    {
        self.tasks.len()
    }

    /// The callback handle of task `i`.
    pub fn task_callback(&self, i: usize) -> (cb: u64)
        requires
            i < self.tasks@.len(),
        ensures
            cb == self.tasks@[i as int].callback,
    {
        self.tasks[i].callback
    }

    /// Whether task `i` is due at instant `now`: at least its interval has
    /// elapsed since it last ran.
    pub fn task_due(&self, i: usize, now: u64) -> (r: bool)
        requires
            i < self.tasks@.len(),
            self.tasks@[i as int].last_run <= now,
        ensures
            r == Self::task_due_spec(self.tasks@[i as int], now),
    {
        now - self.tasks[i].last_run >= self.tasks[i].frequency
    }

    /// Record that task `i` runs at instant `now`.
    pub fn mark_task_run(&mut self, i: usize, now: u64)
        requires
            old(self).wf(),
            i < old(self).tasks@.len(),
        ensures
            final(self).tasks@ == old(self).tasks@.update(
                i as int,
                Task { last_run: now, ..old(self).tasks@[i as int] },
            ),
            final(self).windows == old(self).windows,
            final(self).stylesheet == old(self).stylesheet,
            final(self).current_window == old(self).current_window,
            final(self).global_accum == old(self).global_accum,
            final(self).wf(),
    {
        let mut t = self.tasks[i];
        t.last_run = now;
        self.tasks.set(i, t);
    }

    /// Merge a requested stage into every window of identity `id`.
    pub fn update_stage(&mut self, id: u64, stage: Stage)
        requires
            old(self).has_window(id),
        ensures
            final(self).windows@.len() == old(self).windows@.len(),
            forall|j: int|
                0 <= j < old(self).windows@.len() ==> (#[trigger] final(self).windows@[j])
                    == (if old(self).windows@[j].id == id {
                    WindowState {
                        id,
                        pending: old(self).windows@[j].pending.spec_max(stage),
                    }
                } else {
                    old(self).windows@[j]
                }),
            final(self).tasks == old(self).tasks,
            final(self).stylesheet == old(self).stylesheet,
            final(self).current_window == old(self).current_window,
            final(self).global_accum == old(self).global_accum,
    {
        let n = self.windows.len();
        let mut j: usize = 0;
        while j < n
            invariant
                n == self.windows@.len(),
                n == old(self).windows@.len(),
                j <= n,
                forall|m: int|
                    j <= m < n ==> (#[trigger] self.windows@[m]) == old(self).windows@[m],
                forall|m: int|
                    0 <= m < j ==> (#[trigger] self.windows@[m]) == (if old(
                        self,
                    ).windows@[m].id == id {
                        WindowState {
                            id,
                            pending: old(self).windows@[m].pending.spec_max(stage),
                        }
                    } else {
                        old(self).windows@[m]
                    }),
                self.tasks == old(self).tasks,
                self.stylesheet == old(self).stylesheet,
                self.current_window == old(self).current_window,
                self.global_accum == old(self).global_accum,
            decreases n - j,
        {
            if self.windows[j].id == id {
                let merged = self.windows[j].pending.max(stage);
                self.windows.set(j, WindowState { id, pending: merged });
            }
            j += 1;
        }
    }

    /// A window was resized (or its scale factor changed): it must at
    /// least re-run layout and repaint.
    pub fn window_resized(&mut self, id: u64)
        requires
            old(self).has_window(id),
        ensures
            final(self).windows@.len() == old(self).windows@.len(),
            forall|j: int|
                0 <= j < old(self).windows@.len() ==> (#[trigger] final(self).windows@[j])
                    == (if old(self).windows@[j].id == id {
                    WindowState {
                        id,
                        pending: old(self).windows@[j].pending.spec_max(Stage::Layout),
                    }
                } else {
                    old(self).windows@[j]
                }),
            final(self).tasks == old(self).tasks,
            final(self).stylesheet == old(self).stylesheet,
            final(self).current_window == old(self).current_window,
            final(self).global_accum == old(self).global_accum,
    {
        self.update_stage(id, Stage::Layout);
    }

    /// Route one task's result: its stage request goes to its window, or
    /// into the global accumulator for an unscoped task, and a stop signal
    /// marks the task for removal at the end of the tick.
    pub fn apply_task_result(&mut self, i: usize, stage: Stage, stop: StopTask)
        requires
            old(self).wf(),
            i < old(self).tasks@.len(),
        ensures
            final(self).tasks@ == old(self).tasks@.update(
                i as int,
                Task {
                    stopped: old(self).tasks@[i as int].stopped || stop == StopTask::Yes,
                    ..old(self).tasks@[i as int]
                },
            ),
            final(self).windows@.len() == old(self).windows@.len(),
            forall|j: int|
                0 <= j < old(self).windows@.len() ==> (#[trigger] final(self).windows@[j])
                    == (if old(self).tasks@[i as int].window_id matches Some(w) && old(
                    self,
                ).windows@[j].id == w {
                    WindowState {
                        id: old(self).windows@[j].id,
                        pending: old(self).windows@[j].pending.spec_max(stage),
                    }
                } else {
                    old(self).windows@[j]
                }),
            final(self).global_accum == (if old(self).tasks@[i as int].window_id is None {
                old(self).global_accum.spec_max(stage)
            } else {
                old(self).global_accum
            }),
            final(self).stylesheet == old(self).stylesheet,
            final(self).current_window == old(self).current_window,
            final(self).wf(),
    {
        match self.tasks[i].window_id {
            Some(w) => {
                proof {
                    assert(self.tasks@[i as int].window_id == Some(w));
                }
                self.update_stage(w, stage);
            },
            None => {
                self.global_accum = self.global_accum.max(stage);
            },
        }
        if matches!(stop, StopTask::Yes) {
            let mut t = self.tasks[i];
            t.stopped = true;
            self.tasks.set(i, t);
        } else {
            proof {
                assert(self.tasks@ =~= self.tasks@.update(i as int, self.tasks@[i as int]));
            }
        }
        proof {
            lemma_wf_preserved(old(self).tasks@, old(self).windows@, self.tasks@, self.windows@);
        }
    }

    /// End the tick: drop every task that stopped, merge the stage the
    /// global tasks accumulated into every window, reset the accumulator,
    /// and report when to wake next — `None` asks the host to wait for an
    /// event rather than poll.
    pub fn finish_tick(&mut self) -> (next: Option<u64>)
        requires
            old(self).wf(),
        ensures
            final(self).tasks@ == keep_unstopped(old(self).tasks@),
            final(self).windows@.len() == old(self).windows@.len(),
            forall|j: int|
                0 <= j < old(self).windows@.len() ==> (#[trigger] final(self).windows@[j])
                    == (WindowState {
                    id: old(self).windows@[j].id,
                    pending: old(self).windows@[j].pending.spec_max(old(self).global_accum),
                }),
            final(self).global_accum == Stage::Idle,
            final(self).stylesheet == old(self).stylesheet,
            final(self).current_window == old(self).current_window,
            next == next_wake_spec(final(self).tasks@),
            final(self).wf(),
    {
        let kept = filter_unstopped(&self.tasks);
        let next = compute_next_wake(&kept);
        let ghost ts0 = self.tasks@;
        self.tasks = kept;
        let accum = self.global_accum;
        let nw = self.windows.len();
        let mut w: usize = 0;
        while w < nw
            invariant
                nw == self.windows@.len(),
                nw == old(self).windows@.len(),
                w <= nw,
                forall|k: int|
                    w <= k < nw ==> (#[trigger] self.windows@[k]) == old(self).windows@[k],
                forall|k: int|
                    0 <= k < w ==> (#[trigger] self.windows@[k]) == (WindowState {
                        id: old(self).windows@[k].id,
                        pending: old(self).windows@[k].pending.spec_max(accum),
                    }),
                self.tasks@ == keep_unstopped(ts0),
                ts0 == old(self).tasks@,
                self.stylesheet == old(self).stylesheet,
                self.current_window == old(self).current_window,
                self.global_accum == old(self).global_accum,
                accum == old(self).global_accum,
            decreases nw - w,
        {
            let cur = self.windows[w];
            self.windows.set(w, WindowState { id: cur.id, pending: cur.pending.max(accum) });
            w += 1;
        }
        self.global_accum = Stage::Idle;
        proof {
            lemma_keep_unstopped_wf(ts0, old(self).windows@);
            lemma_wf_preserved(self.tasks@, old(self).windows@, self.tasks@, self.windows@);
        }
        next
    }

    /// Consume a window's pending stage at redraw: what comes back is the
    /// most demanding stage requested since the last consumption, and the
    /// window starts accumulating again from `Idle`.
    pub fn take_stage(&mut self, id: u64) -> (stage: Stage)
        requires
            old(self).wf(),
            old(self).has_window(id),
        ensures
            final(self).windows@.len() == old(self).windows@.len(),
            forall|j: int|
                0 <= j < old(self).windows@.len() ==> (#[trigger] final(self).windows@[j])
                    == (if old(self).windows@[j].id == id {
                    WindowState { id, pending: Stage::Idle }
                } else {
                    old(self).windows@[j]
                }),
            forall|j: int|
                0 <= j < old(self).windows@.len() && old(self).windows@[j].id == id ==> stage
                    == old(self).windows@[j].pending,
            final(self).tasks == old(self).tasks,
            final(self).stylesheet == old(self).stylesheet,
            final(self).current_window == old(self).current_window,
            final(self).global_accum == old(self).global_accum,
            final(self).wf(),
    {
        let n = self.windows.len();
        let mut j: usize = 0;
        let mut stage = Stage::Idle;
        while j < n
            invariant
                app_wf(old(self).tasks@, old(self).windows@),
                n == self.windows@.len(),
                n == old(self).windows@.len(),
                j <= n,
                forall|m: int|
                    j <= m < n ==> (#[trigger] self.windows@[m]) == old(self).windows@[m],
                forall|m: int|
                    0 <= m < j ==> (#[trigger] self.windows@[m]) == (if old(
                        self,
                    ).windows@[m].id == id {
                        WindowState { id, pending: Stage::Idle }
                    } else {
                        old(self).windows@[m]
                    }),
                forall|m: int|
                    0 <= m < j && (#[trigger] old(self).windows@[m]).id == id ==> stage == old(
                        self,
                    ).windows@[m].pending,
                self.tasks == old(self).tasks,
                self.stylesheet == old(self).stylesheet,
                self.current_window == old(self).current_window,
                self.global_accum == old(self).global_accum,
            decreases n - j,
        {
            if self.windows[j].id == id {
                stage = self.windows[j].pending;
                self.windows.set(j, WindowState { id, pending: Stage::Idle });
            }
            j += 1;
        }
        proof {
            lemma_wf_preserved(old(self).tasks@, old(self).windows@, self.tasks@, self.windows@);
        }
        stage
    }

    /// Process a close request: the window and every task scoped to it are
    /// removed together, and the host is told to exit when no window is
    /// left.
    pub fn close_window(&mut self, id: u64) -> (exit: bool)
        requires
            old(self).wf(),
        ensures
            final(self).windows@ == remove_window_seq(old(self).windows@, id),
            final(self).tasks@ == remove_window_tasks(old(self).tasks@, id),
            exit == (final(self).windows@.len() == 0),
            final(self).stylesheet == old(self).stylesheet,
            final(self).current_window == old(self).current_window,
            final(self).global_accum == old(self).global_accum,
            final(self).wf(),
    {
        let kept_tasks = filter_other_window_tasks(&self.tasks, id);
        let kept_windows = filter_other_windows(&self.windows, id);
        let ghost ts0 = self.tasks@;
        let ghost ws0 = self.windows@;
        self.tasks = kept_tasks;
        self.windows = kept_windows;
        let exit = self.windows.len() == 0;
        proof {
            lemma_close_preserves_wf(ts0, ws0, id);
        }
        exit
    }
}

impl Default for App {
    /// The same empty runtime `App::new` builds.
    fn default() -> (app: App)
        ensures
            app.tasks@.len() == 0,
            app.windows@.len() == 0,
            app.current_window is None,
            app.global_accum == Stage::Idle,
            app.stylesheet.rules@.len() == 0,
            app.wf(),
    {
        App::new()
    }
}

} // verus!
