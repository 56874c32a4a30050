use vstd::prelude::*;

use crate::shared_cell::SharedCell;

verus! {

/// A unit of cooperative work that runs in turns on a shared value.
///
/// On each turn the task gets the cell for the length of one call to `poll`,
/// and it either finishes with a result or stays pending. What a turn does is
/// given by `turn`: the task's next state, the cell's next value, and the
/// result, if the task finished.
pub trait Task<T, R>: Sized {
    /// One turn of the task on the value `value`.
    spec fn turn(self, value: T) -> (Self, T, Option<R>);

    /// Takes one turn with exclusive access to the cell.
    fn poll(&mut self, cell: &mut SharedCell<T>) -> (r: Option<R>)
        requires
            old(cell).inv(),
        ensures
            final(cell).inv(),
            (*final(self), final(cell).value(), r) == old(self).turn(old(cell).value()),
    ;
}

/// The abstract state of a task group: its pending tasks in scan order, the
/// shared value, and the index at which the next scan starts.
pub struct Snapshot<T, K> {
    pub tasks: Seq<K>,
    pub value: T,
    pub cursor: int,
}

/// The index polled at step `k` of a scan that starts at `start`: the scan
/// runs from `start` to the end, then wraps round to the front.
pub open spec fn slot(start: int, k: int, len: int) -> int {
    if start + k < len {
        start + k
    } else {
        start + k - len
    }
}

/// The start of the next scan after one in which no task finished.
pub open spec fn rotate(start: int, len: int) -> int {
    if len == 0 {
        0
    } else {
        (start + 1) % len
    }
}

/// Removes index `i` by moving the last task into its place.
pub open spec fn swap_out<K>(tasks: Seq<K>, i: int) -> Seq<K> {
    tasks.update(i, tasks.last()).drop_last()
}

/// The rest of a scan over `tasks` from step `k` on, with the shared value
/// at `value`: each task polled in turn until one finishes.
pub open spec fn scan<T, R, K: Task<T, R>>(tasks: Seq<K>, value: T, start: int, k: int) -> (
    Snapshot<T, K>,
    Option<R>,
)
    decreases tasks.len() - k,
{
    if k < 0 || k >= tasks.len() || start < 0 || start >= tasks.len() {
        (Snapshot { tasks, value, cursor: rotate(start, tasks.len() as int) }, None)
    } else {
        let i = slot(start, k, tasks.len() as int);
        let (t, v, out) = tasks[i].turn(value);
        match out {
            Some(r) => (Snapshot { tasks: swap_out(tasks, i), value: v, cursor: 0 }, Some(r)),
            None => scan(tasks.update(i, t), v, start, k + 1),
        }
    }
}

/// One call of `advance` on the state `s`.
pub open spec fn step<T, R, K: Task<T, R>>(s: Snapshot<T, K>) -> (Snapshot<T, K>, Option<R>) {
    scan(s.tasks, s.value, s.cursor, 0)
}

/// The state after `n` calls of `advance` from `s`, or after fewer if the
/// group runs out of tasks first.
pub open spec fn settle<T, R, K: Task<T, R>>(s: Snapshot<T, K>, n: nat) -> Snapshot<T, K>
    decreases n,
{
    if n == 0 || s.tasks.len() == 0 {
        s
    } else {
        settle::<T, R, K>(step::<T, R, K>(s).0, (n - 1) as nat)
    }
}

/// Every task of `s` has finished within `n` calls of `advance`.
pub open spec fn drains<T, R, K: Task<T, R>>(s: Snapshot<T, K>, n: nat) -> bool {
    settle::<T, R, K>(s, n).tasks.len() == 0
}

/// The group empties after some number of calls of `advance`.
pub open spec fn terminates<T, R, K: Task<T, R>>(s: Snapshot<T, K>) -> bool {
    exists|n: nat| drains::<T, R, K>(s, n)
}

/// The state in which the group first has no task left.
pub open spec fn finished<T, R, K: Task<T, R>>(s: Snapshot<T, K>) -> Snapshot<T, K> {
    settle::<T, R, K>(s, choose|n: nat| drains::<T, R, K>(s, n))
}

/// A set of tasks that run in turns on one shared value.
pub struct TaskGroup<T, R, K: Task<T, R>> {
    tasks: Vec<K>,
    shared_cell: SharedCell<T>,
    cursor: usize,
    output: core::marker::PhantomData<R>,
}

impl<T, R, K: Task<T, R>> TaskGroup<T, R, K> {
    /// The cell holds its value and the cursor points into the task list.
    pub closed spec fn wf(&self) -> bool {
        &&& self.shared_cell.inv()
        &&& (self.cursor == 0 || self.cursor < self.tasks.len())
    }

    /// The group's abstract state.
    pub closed spec fn view(&self) -> Snapshot<T, K> {
        Snapshot { tasks: self.tasks@, value: self.shared_cell.value(), cursor: self.cursor as int }
    }

    /// Creates a group with no tasks around `value`.
    pub fn new(value: T) -> (r: Self)
        ensures
            r.wf(),
            r.view().tasks.len() == 0,
            r.view().value == value,
            r.view().cursor == 0,
    {
        let shared_cell = SharedCell::new(value);
        let tasks = Vec::new();
        TaskGroup { tasks, shared_cell, cursor: 0, output: core::marker::PhantomData }
    }

    /// Polls the pending tasks once each, round-robin from the cursor, and
    /// stops at the first that finishes: that task leaves the group and its
    /// result is returned. When none finishes the cursor moves on by one.
    pub fn advance(&mut self) -> (r: Option<R>)
        requires
            old(self).wf(),
        ensures
            final(self).wf(),
            (final(self).view(), r) == step(old(self).view()),
    {
        let len = self.tasks.len();
        let start = self.cursor;
        let mut k: usize = 0;
        while k < len
            invariant
                self.shared_cell.inv(),
                self.tasks.len() == len,
                self.cursor == start,
                start == 0 || start < len,
                k <= len,
                scan(self.tasks@, self.shared_cell.value(), start as int, k as int) == step(
                    old(self).view(),
                ),
            decreases len - k,
        {
            let i: usize = if k < len - start {
                start + k
            } else {
                k - (len - start)
            };
            let ghost before = self.tasks@;
            let out = self.tasks[i].poll(&mut self.shared_cell);
            match out {
                Some(r) => {
                    self.tasks.swap_remove(i);
                    assert(self.tasks@ =~= swap_out(before, i as int));
                    self.cursor = 0;
                    return Some(r);
                },
                None => {},
            }
            k = k + 1;
        }
        self.cursor = if start + 1 < len {
            start + 1
        } else {
            0
        };
        proof {
            if len > 0 {
                if start + 1 < len {
                    vstd::arithmetic::div_mod::lemma_small_mod((start + 1) as nat, len as nat);
                } else {
                    vstd::arithmetic::div_mod::lemma_mod_self_0(len as int);
                }
            }
        }
        None
    }

    /// True when no task is pending.
    pub fn is_empty(&self) -> (r: bool)
        ensures
            r == (self.view().tasks.len() == 0),
    {
        self.tasks.len() == 0
    }

    /// Adds `task` at the end of the pending tasks. It first runs on the next
    /// call of `advance` that reaches it.
    pub fn spawn(&mut self, task: K)
        requires
            old(self).wf(),
        ensures
            final(self).wf(),
            final(self).view() == (Snapshot {
                tasks: old(self).view().tasks.push(task),
                ..old(self).view()
            }),
    {
        self.tasks.push(task);
    }

    /// Calls `advance` until no task is left, then gives the value back.
    pub fn finish(self) -> (r: T)
        requires
            self.wf(),
            terminates::<T, R, K>(self.view()),
        ensures
            r == finished::<T, R, K>(self.view()).value,
    {
        let mut group = self;
        let ghost n: nat = choose|n: nat| drains::<T, R, K>(self.view(), n);
        let ghost fuel: nat = n;
        while !group.is_empty()
            invariant
                group.wf(),
                drains::<T, R, K>(group.view(), fuel),
                settle::<T, R, K>(group.view(), fuel) == settle::<T, R, K>(self.view(), n),
            decreases fuel,
        {
            let _ = group.advance();
            proof {
                fuel = (fuel - 1) as nat;
            }
        }
        group.shared_cell.into_inner()
    }

    /// Gives the value back when no task is pending; otherwise hands the
    /// group back unchanged.
    pub fn into_inner(self) -> (r: Result<T, Self>)
        requires
            self.wf(),
        ensures
            self.view().tasks.len() == 0 ==> r == Ok::<T, Self>(self.view().value),
            self.view().tasks.len() > 0 ==> r == Err::<T, Self>(self),
    {
        if self.tasks.len() == 0 {
            Ok(self.shared_cell.into_inner())
        } else {
            Err(self)
        }
    }

    /// Gives the cell back when no task is pending; otherwise hands the
    /// group back unchanged.
    pub fn into_shared_cell(self) -> (r: Result<SharedCell<T>, Self>)
        requires
            self.wf(),
        ensures
            self.view().tasks.len() == 0 ==> (r matches Ok(c) && c.inv() && c.value()
                == self.view().value),
            self.view().tasks.len() > 0 ==> r == Err::<SharedCell<T>, Self>(self),
    {
        if self.tasks.len() == 0 {
            Ok(self.shared_cell)
        } else {
            Err(self)
        }
    }

    /// Drops every pending task without another turn and gives the value back.
    pub fn cancel(self) -> (r: T)
        requires
            self.wf(),
        ensures
            r == self.view().value,
    {
        let TaskGroup { tasks, shared_cell, .. } = self;
        shared_cell.into_inner()
    }
}

} // verus!
