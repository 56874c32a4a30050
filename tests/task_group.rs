use std::cell::Cell;
use std::rc::Rc;

use shared_cell::{CellExt, SharedCell, Task, TaskGroup};

/// Adds `amount` to the counter on its first turn and finishes with `id`.
struct AddOnce {
    id: u32,
    amount: u64,
}

impl Task<u64, u32> for AddOnce {
    fn turn(self, value: u64) -> (Self, u64, Option<u32>) {
        let id = self.id;
        let amount = self.amount;
        (self, value + amount, Some(id))
    }

    fn poll(&mut self, cell: &mut SharedCell<u64>) -> Option<u32> {
        let amount = self.amount;
        cell.with(|v| (v + amount, ()));
        Some(self.id)
    }
}

/// Stays pending for `wait` turns, then adds one and finishes with `id`.
struct AddLater {
    id: u32,
    wait: u32,
}

impl Task<u64, u32> for AddLater {
    fn turn(self, value: u64) -> (Self, u64, Option<u32>) {
        if self.wait > 0 {
            (AddLater { id: self.id, wait: self.wait - 1 }, value, None)
        } else {
            let id = self.id;
            (self, value + 1, Some(id))
        }
    }

    fn poll(&mut self, cell: &mut SharedCell<u64>) -> Option<u32> {
        if self.wait > 0 {
            self.wait -= 1;
            None
        } else {
            cell.with(|v| (v + 1, ()));
            Some(self.id)
        }
    }
}

/// Never finishes and never touches the value.
struct Never;

impl Task<u64, u32> for Never {
    fn turn(self, value: u64) -> (Self, u64, Option<u32>) {
        (self, value, None)
    }

    fn poll(&mut self, _cell: &mut SharedCell<u64>) -> Option<u32> {
        None
    }
}

/// One step of a two-step computation: `Add` raises the value by one and
/// raises the flag; `Double` waits for the flag, then doubles the value.
enum Step {
    Add(Rc<Cell<bool>>),
    Double(Rc<Cell<bool>>),
}

impl Task<u64, &'static str> for Step {
    fn turn(self, value: u64) -> (Self, u64, Option<&'static str>) {
        match self {
            Step::Add(flag) => (Step::Add(flag), value + 1, Some("add")),
            Step::Double(flag) => {
                if flag.get() {
                    (Step::Double(flag), value * 2, Some("double"))
                } else {
                    (Step::Double(flag), value, None)
                }
            }
        }
    }

    fn poll(&mut self, cell: &mut SharedCell<u64>) -> Option<&'static str> {
        match self {
            Step::Add(flag) => {
                cell.with(|v| (v + 1, ()));
                flag.set(true);
                Some("add")
            }
            Step::Double(flag) => {
                if flag.get() {
                    cell.with(|v| (v * 2, ()));
                    Some("double")
                } else {
                    None
                }
            }
        }
    }
}

/// Either kind of counter task, so one group can hold both.
enum Counter {
    Now(AddOnce),
    Later(AddLater),
    Stuck(Never),
}

impl Task<u64, u32> for Counter {
    fn turn(self, value: u64) -> (Self, u64, Option<u32>) {
        match self {
            Counter::Now(t) => {
                let (t, v, r) = t.turn(value);
                (Counter::Now(t), v, r)
            }
            Counter::Later(t) => {
                let (t, v, r) = t.turn(value);
                (Counter::Later(t), v, r)
            }
            Counter::Stuck(t) => {
                let (t, v, r) = t.turn(value);
                (Counter::Stuck(t), v, r)
            }
        }
    }

    fn poll(&mut self, cell: &mut SharedCell<u64>) -> Option<u32> {
        match self {
            Counter::Now(t) => t.poll(cell),
            Counter::Later(t) => t.poll(cell),
            Counter::Stuck(t) => t.poll(cell),
        }
    }
}

fn now(id: u32, amount: u64) -> Counter {
    Counter::Now(AddOnce { id, amount })
}

fn later(id: u32, wait: u32) -> Counter {
    Counter::Later(AddLater { id, wait })
}

#[test]
fn shared_cell_with_gives_exclusive_access() {
    let mut cell = SharedCell::new(5u64);
    let seen = cell.with(|v| (v + 3, v));
    assert_eq!(seen, 5);
    assert_eq!(cell.into_inner(), 8);
}

#[test]
fn cell_ext_with_matches_inherent_with() {
    let mut cell = SharedCell::new(vec![1u8, 2]);
    let len = CellExt::with(&mut cell, |mut v: Vec<u8>| {
        v.push(3);
        let n = v.len();
        (v, n)
    });
    assert_eq!(len, 3);
    assert_eq!(cell.into_inner(), vec![1, 2, 3]);
}

#[test]
fn new_group_is_empty() {
    let group: TaskGroup<u64, u32, Counter> = TaskGroup::new(7);
    assert!(group.is_empty());
    assert_eq!(group.cancel(), 7);
}

#[test]
fn advance_on_empty_group_returns_nothing() {
    let mut group: TaskGroup<u64, u32, Counter> = TaskGroup::new(0);
    assert_eq!(group.advance(), None);
    assert!(group.is_empty());
}

#[test]
fn spawn_does_not_run_the_task() {
    let mut group = TaskGroup::new(0u64);
    group.spawn(now(1, 5));
    assert!(!group.is_empty());
    assert_eq!(group.cancel(), 0);
}

#[test]
fn synchronous_task_finishes_on_first_advance() {
    let mut group = TaskGroup::new(0u64);
    group.spawn(now(4, 2));
    assert_eq!(group.advance(), Some(4));
    assert!(group.is_empty());
    assert_eq!(group.finish(), 2);
}

#[test]
fn draining_returns_each_result_once() {
    let mut group = TaskGroup::new(0u64);
    group.spawn(now(1, 1));
    group.spawn(now(2, 10));
    group.spawn(now(3, 100));
    let mut seen = Vec::new();
    for _ in 0..3 {
        seen.push(group.advance().expect("a ready task"));
    }
    assert!(group.is_empty());
    seen.sort();
    assert_eq!(seen, vec![1, 2, 3]);
    assert_eq!(group.advance(), None);
    assert_eq!(group.finish(), 111);
}

#[test]
fn removal_moves_the_last_task_into_the_gap() {
    let mut group = TaskGroup::new(0u64);
    group.spawn(now(1, 1));
    group.spawn(now(2, 1));
    group.spawn(now(3, 1));
    // Task 1 leaves first; task 3 then takes its place at the front.
    assert_eq!(group.advance(), Some(1));
    assert_eq!(group.advance(), Some(3));
    assert_eq!(group.advance(), Some(2));
    assert!(group.is_empty());
}

#[test]
fn ready_task_is_not_starved_by_a_stuck_one() {
    let mut group = TaskGroup::new(0u64);
    group.spawn(Counter::Stuck(Never));
    group.spawn(now(9, 1));
    assert_eq!(group.advance(), Some(9));
    assert!(!group.is_empty());
    assert_eq!(group.advance(), None);
    assert_eq!(group.cancel(), 1);
}

#[test]
fn scan_start_rotates_after_a_round_with_no_result() {
    let mut group = TaskGroup::new(0u64);
    group.spawn(later(1, 1));
    group.spawn(later(2, 1));
    // Both stay pending; the next scan starts at the second task.
    assert_eq!(group.advance(), None);
    assert_eq!(group.advance(), Some(2));
    assert_eq!(group.advance(), Some(1));
    assert_eq!(group.finish(), 2);
}

#[test]
fn earlier_task_in_scan_order_wins_a_tie() {
    let mut group = TaskGroup::new(0u64);
    group.spawn(now(5, 1));
    group.spawn(now(6, 1));
    assert_eq!(group.advance(), Some(5));
}

#[test]
fn interleaved_increments_lose_no_update() {
    let mut group = TaskGroup::new(0u64);
    group.spawn(later(1, 3));
    group.spawn(later(2, 1));
    let mut results = Vec::new();
    while !group.is_empty() {
        if let Some(r) = group.advance() {
            results.push(r);
        }
    }
    assert_eq!(results, vec![2, 1]);
    assert_eq!(group.finish(), 2);
}

#[test]
fn into_inner_fails_while_tasks_are_pending() {
    let mut group = TaskGroup::new(3u64);
    group.spawn(later(1, 1));
    let group = match group.into_inner() {
        Ok(_) => panic!("reclaimed with a task pending"),
        Err(g) => g,
    };
    assert!(!group.is_empty());
    let mut group = group;
    assert_eq!(group.advance(), None);
    assert_eq!(group.advance(), Some(1));
    match group.into_inner() {
        Ok(v) => assert_eq!(v, 4),
        Err(_) => panic!("group should be empty"),
    }
}

#[test]
fn into_shared_cell_fails_while_tasks_are_pending() {
    let mut group = TaskGroup::new(3u64);
    group.spawn(now(1, 2));
    let mut group = match group.into_shared_cell() {
        Ok(_) => panic!("reclaimed with a task pending"),
        Err(g) => g,
    };
    assert_eq!(group.advance(), Some(1));
    match group.into_shared_cell() {
        Ok(cell) => assert_eq!(cell.into_inner(), 5),
        Err(_) => panic!("group should be empty"),
    }
}

#[test]
fn cancel_discards_pending_work() {
    let mut group = TaskGroup::new(0u64);
    group.spawn(now(1, 5));
    group.spawn(later(2, 4));
    assert_eq!(group.advance(), Some(1));
    assert_eq!(group.advance(), None);
    assert_eq!(group.cancel(), 5);
}

#[test]
fn add_then_double_finishes_at_two() {
    let flag = Rc::new(Cell::new(false));
    let mut group = TaskGroup::new(0u64);
    group.spawn(Step::Double(flag.clone()));
    group.spawn(Step::Add(flag));
    assert_eq!(group.finish(), 2);
}

#[test]
fn two_increments_from_ten_finish_at_twelve() {
    let mut group = TaskGroup::new(10u64);
    group.spawn(now(1, 1));
    group.spawn(now(2, 1));
    assert_eq!(group.finish(), 12);
}
