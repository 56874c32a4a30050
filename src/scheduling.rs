use vstd::multiset::Multiset;
use vstd::prelude::*;

use crate::task_group::{drains, settle, slot, step, scan, swap_out, Snapshot, Task};

verus! {

broadcast use {
    vstd::seq_lib::to_multiset_build,
    vstd::seq_lib::to_multiset_update,
    vstd::seq_lib::lemma_multiset_commutative,
    vstd::seq_lib::to_multiset_contains,
    vstd::multiset::group_multiset_axioms,
    vstd::multiset::group_multiset_properties,
};

/// The cursor of `s` points into its task list, as it does in every group.
pub open spec fn cursor_ok<T, K>(s: Snapshot<T, K>) -> bool {
    s.cursor == 0 || (0 <= s.cursor < s.tasks.len())
}

/// The task finishes on its turn, whatever the shared value.
pub open spec fn always_ready<T, R, K: Task<T, R>>(t: K) -> bool {
    forall|v: T| (#[trigger] t.turn(v)).2 is Some
}

/// The task stays pending on its turn, whatever the shared value.
pub open spec fn pending_turn<T, R, K: Task<T, R>>(t: K) -> bool {
    forall|v: T| (#[trigger] t.turn(v)).2 is None
}

/// What `n` calls of `advance` from `s` return, in order (fewer if the group
/// runs out of tasks first).
pub open spec fn outputs<T, R, K: Task<T, R>>(s: Snapshot<T, K>, n: nat) -> Seq<Option<R>>
    decreases n,
{
    if n == 0 || s.tasks.len() == 0 {
        Seq::empty()
    } else {
        seq![step::<T, R, K>(s).1] + outputs::<T, R, K>(step::<T, R, K>(s).0, (n - 1) as nat)
    }
}

/// The tasks at the cursor of each of `n` successive states from `s`: the
/// order in which tasks leave a group where each finishes on its first turn.
pub open spec fn ready_order<T, R, K: Task<T, R>>(s: Snapshot<T, K>, n: nat) -> Seq<K>
    decreases n,
{
    if n == 0 || s.tasks.len() == 0 {
        Seq::empty()
    } else {
        seq![s.tasks[s.cursor]] + ready_order::<T, R, K>(step::<T, R, K>(s).0, (n - 1) as nat)
    }
}

/// Moving the last task into a removed one's place keeps every other task.
pub proof fn lemma_swap_out_multiset<K>(tasks: Seq<K>, i: int)
    requires
        0 <= i < tasks.len(),
    ensures
        swap_out(tasks, i).to_multiset() == tasks.to_multiset().remove(tasks[i]),
{
    let u = tasks.update(i, tasks.last());
    let a = swap_out(tasks, i).to_multiset();
    let b = tasks.to_multiset().remove(tasks[i]);
    assert(u =~= swap_out(tasks, i).push(tasks.last()));
    assert(u.to_multiset() == a.insert(tasks.last()));
    assert(u.to_multiset() == tasks.to_multiset().insert(tasks.last()).remove(tasks[i]));
    assert(tasks.to_multiset().count(tasks[i]) > 0);
    assert forall|x: K| a.count(x) == b.count(x) by {
        assert(a.insert(tasks.last()).count(x) == a.count(x) + if x == tasks.last() {
            1nat
        } else {
            0nat
        });
    }
    assert(a =~= b);
}

/// When every task finishes on its first turn, a call of `advance` takes the
/// task at the cursor, returns its result and leaves the others in the group.
pub proof fn lemma_ready_step<T, R, K: Task<T, R>>(s: Snapshot<T, K>)
    requires
        cursor_ok(s),
        s.tasks.len() > 0,
        forall|i: int| 0 <= i < s.tasks.len() ==> always_ready::<T, R, K>(#[trigger] s.tasks[i]),
    ensures
        step::<T, R, K>(s) == (
            Snapshot {
                tasks: swap_out(s.tasks, s.cursor),
                value: s.tasks[s.cursor].turn(s.value).1,
                cursor: 0,
            },
            s.tasks[s.cursor].turn(s.value).2,
        ),
        step::<T, R, K>(s).1 is Some,
        step::<T, R, K>(s).0.tasks.to_multiset() == s.tasks.to_multiset().remove(s.tasks[s.cursor]),
        forall|i: int|
            0 <= i < step::<T, R, K>(s).0.tasks.len() ==> always_ready::<T, R, K>(
                #[trigger] step::<T, R, K>(s).0.tasks[i],
            ),
{
    let c = s.cursor;
    assert(always_ready::<T, R, K>(s.tasks[c]));
    assert(s.tasks[c].turn(s.value).2 is Some);
    lemma_swap_out_multiset(s.tasks, c);
    let rest = swap_out(s.tasks, c);
    assert forall|i: int| 0 <= i < rest.len() implies always_ready::<T, R, K>(#[trigger] rest[i]) by {
        if i == c {
            assert(always_ready::<T, R, K>(s.tasks[s.tasks.len() - 1]));
        } else {
            assert(always_ready::<T, R, K>(s.tasks[i]));
        }
    }
}

/// Completion draining: in a group of `n` tasks that each finish on their
/// first turn, `n` calls of `advance` empty the group, and every call returns
/// a result: the one of a task that was in the group, each task exactly once.
pub proof fn lemma_completion_draining<T, R, K: Task<T, R>>(s: Snapshot<T, K>)
    requires
        cursor_ok(s),
        forall|i: int| 0 <= i < s.tasks.len() ==> always_ready::<T, R, K>(#[trigger] s.tasks[i]),
    ensures
        drains::<T, R, K>(s, s.tasks.len()),
        outputs::<T, R, K>(s, s.tasks.len()).len() == s.tasks.len(),
        ready_order::<T, R, K>(s, s.tasks.len()).len() == s.tasks.len(),
        ready_order::<T, R, K>(s, s.tasks.len()).to_multiset() == s.tasks.to_multiset(),
        forall|j: int|
            0 <= j < s.tasks.len() ==> {
                &&& (#[trigger] outputs::<T, R, K>(s, s.tasks.len())[j]) is Some
                &&& outputs::<T, R, K>(s, s.tasks.len())[j] == ready_order::<T, R, K>(
                    s,
                    s.tasks.len(),
                )[j].turn(settle::<T, R, K>(s, j as nat).value).2
            },
    decreases s.tasks.len(),
{
    let n = s.tasks.len();
    if n > 0 {
        lemma_ready_step::<T, R, K>(s);
        let next = step::<T, R, K>(s).0;
        lemma_completion_draining::<T, R, K>(next);
        let m = (n - 1) as nat;
        assert(next.tasks.len() == m);
        let outs = outputs::<T, R, K>(s, n);
        let order = ready_order::<T, R, K>(s, n);
        assert(outs == seq![step::<T, R, K>(s).1] + outputs::<T, R, K>(next, m));
        assert(order == seq![s.tasks[s.cursor]] + ready_order::<T, R, K>(next, m));
        assert forall|j: int| 0 <= j < n implies {
            &&& (#[trigger] outs[j]) is Some
            &&& outs[j] == order[j].turn(settle::<T, R, K>(s, j as nat).value).2
        } by {
            if j > 0 {
                assert(settle::<T, R, K>(s, j as nat) == settle::<T, R, K>(next, (j - 1) as nat));
                assert(outs[j] == outputs::<T, R, K>(next, m)[j - 1]);
                assert(order[j] == ready_order::<T, R, K>(next, m)[j - 1]);
            }
        }
        let first = s.tasks[s.cursor];
        assert(seq![first] =~= Seq::<K>::empty().push(first));
        assert(seq![first].to_multiset() =~= Multiset::<K>::empty().insert(first));
        assert(order.to_multiset() == seq![first].to_multiset().add(
            ready_order::<T, R, K>(next, m).to_multiset(),
        ));
        assert(s.tasks.to_multiset().count(first) > 0);
        assert(order.to_multiset() =~= s.tasks.to_multiset());
    }
}

/// A scan that has not yet polled step `kj` reaches it unless a task polled
/// before finishes; so a task there that is always ready ends the scan with a
/// result, and when every task polled before it stays pending, with its own.
pub proof fn lemma_scan_reaches<T, R, K: Task<T, R>>(
    tasks: Seq<K>,
    value: T,
    start: int,
    k: int,
    kj: int,
)
    requires
        0 <= start < tasks.len(),
        0 <= k <= kj < tasks.len(),
        always_ready::<T, R, K>(tasks[slot(start, kj, tasks.len() as int)]),
    ensures
        scan::<T, R, K>(tasks, value, start, k).1 is Some,
        scan::<T, R, K>(tasks, value, start, k).0.tasks.len() == tasks.len() - 1,
        (forall|m: int|
            k <= m < kj ==> pending_turn::<T, R, K>(
                #[trigger] tasks[slot(start, m, tasks.len() as int)],
            )) ==> exists|w: T|
            scan::<T, R, K>(tasks, value, start, k).1 == tasks[slot(
                start,
                kj,
                tasks.len() as int,
            )].turn(w).2,
    decreases kj - k,
{
    let len = tasks.len() as int;
    let i = slot(start, k, len);
    let (t, v, out) = tasks[i].turn(value);
    if k == kj {
        assert(out is Some);
        assert(scan::<T, R, K>(tasks, value, start, k).1 == tasks[i].turn(value).2);
    } else if out is None {
        let next = tasks.update(i, t);
        assert(next[slot(start, kj, len)] == tasks[slot(start, kj, len)]);
        lemma_scan_reaches::<T, R, K>(next, v, start, k + 1, kj);
        if forall|m: int| k <= m < kj ==> pending_turn::<T, R, K>(#[trigger] tasks[slot(start, m, len)]) {
            assert forall|m: int| k + 1 <= m < kj implies pending_turn::<T, R, K>(
                #[trigger] next[slot(start, m, len)],
            ) by {
                assert(pending_turn::<T, R, K>(tasks[slot(start, m, len)]));
            }
        }
    } else {
        if forall|m: int| k <= m < kj ==> pending_turn::<T, R, K>(#[trigger] tasks[slot(start, m, len)]) {
            assert(pending_turn::<T, R, K>(tasks[slot(start, k, len)]));
            assert(out is None);
        }
    }
}

/// Fair progress: a pending task that finishes whenever it is polled is not
/// starved by the others. The next call of `advance` returns a result and
/// removes one task; and when every other task stays pending on its turn,
/// the result is the ready task's own.
pub proof fn lemma_fair_progress<T, R, K: Task<T, R>>(s: Snapshot<T, K>, j: int)
    requires
        cursor_ok(s),
        0 <= j < s.tasks.len(),
        always_ready::<T, R, K>(s.tasks[j]),
    ensures
        step::<T, R, K>(s).1 is Some,
        step::<T, R, K>(s).0.tasks.len() == s.tasks.len() - 1,
        (forall|i: int|
            0 <= i < s.tasks.len() && i != j ==> pending_turn::<T, R, K>(#[trigger] s.tasks[i]))
            ==> exists|w: T| step::<T, R, K>(s).1 == s.tasks[j].turn(w).2,
{
    let len = s.tasks.len() as int;
    let kj = if j >= s.cursor {
        j - s.cursor
    } else {
        j + len - s.cursor
    };
    assert(slot(s.cursor, kj, len) == j);
    lemma_scan_reaches::<T, R, K>(s.tasks, s.value, s.cursor, 0, kj);
    if forall|i: int| 0 <= i < len && i != j ==> pending_turn::<T, R, K>(#[trigger] s.tasks[i]) {
        assert forall|m: int| 0 <= m < kj implies pending_turn::<T, R, K>(
            #[trigger] s.tasks[slot(s.cursor, m, len)],
        ) by {
            assert(slot(s.cursor, m, len) != j);
        }
    }
}

/// Within `n` turns the task finishes, adding one to the shared counter on
/// the turn on which it finishes and leaving it alone on the turns before.
pub open spec fn adds_one_within<R, K: Task<u64, R>>(t: K, n: nat) -> bool
    decreases n,
{
    n > 0 && forall|v: u64|
        v < u64::MAX ==> {
            let (next, w, out) = #[trigger] t.turn(v);
            ||| out is Some && w == v + 1
            ||| out is None && w == v && adds_one_within::<R, K>(next, (n - 1) as nat)
        }
}

/// The task adds one to the shared counter exactly once, when it finishes.
pub open spec fn adds_one<R, K: Task<u64, R>>(t: K) -> bool {
    exists|n: nat| adds_one_within::<R, K>(t, n)
}

/// One scan over tasks that each add one when they finish: the counter moves
/// only if a task finishes, and then by one.
pub proof fn lemma_scan_adds_one<R, K: Task<u64, R>>(
    tasks: Seq<K>,
    value: u64,
    start: int,
    k: int,
)
    requires
        tasks.len() == 0 || 0 <= start < tasks.len(),
        0 <= k <= tasks.len(),
        tasks.len() > 0 ==> value < u64::MAX,
        forall|i: int| 0 <= i < tasks.len() ==> adds_one::<R, K>(#[trigger] tasks[i]),
    ensures
        ({
            let (s, out) = scan::<u64, R, K>(tasks, value, start, k);
            &&& cursor_ok(s)
            &&& forall|i: int| 0 <= i < s.tasks.len() ==> adds_one::<R, K>(#[trigger] s.tasks[i])
            &&& (out is Some ==> s.value == value + 1 && s.tasks.len() == tasks.len() - 1)
            &&& (out is None ==> s.value == value && s.tasks.len() == tasks.len())
        }),
    decreases tasks.len() - k,
{
    let len = tasks.len() as int;
    if k >= len {
        if len > 0 {
            if start + 1 < len {
                vstd::arithmetic::div_mod::lemma_small_mod((start + 1) as nat, len as nat);
            } else {
                vstd::arithmetic::div_mod::lemma_mod_self_0(len);
            }
        }
    } else {
        let i = slot(start, k, len);
        assert(adds_one::<R, K>(tasks[i]));
        let f = choose|f: nat| adds_one_within::<R, K>(tasks[i], f);
        let (t, v, out) = tasks[i].turn(value);
        match out {
            Some(_) => {
                let rest = swap_out(tasks, i);
                assert forall|j: int| 0 <= j < rest.len() implies adds_one::<R, K>(
                    #[trigger] rest[j],
                ) by {
                    if j == i {
                        assert(adds_one::<R, K>(tasks[len - 1]));
                    } else {
                        assert(adds_one::<R, K>(tasks[j]));
                    }
                }
            },
            None => {
                let next = tasks.update(i, t);
                assert(adds_one_within::<R, K>(t, (f - 1) as nat));
                assert forall|j: int| 0 <= j < next.len() implies adds_one::<R, K>(
                    #[trigger] next[j],
                ) by {
                    if j != i {
                        assert(adds_one::<R, K>(tasks[j]));
                    }
                }
                lemma_scan_adds_one::<R, K>(next, v, start, k + 1);
            },
        }
    }
}

/// No update is lost: when each task of a group adds one to a shared counter
/// on the turn on which it finishes, after any number of calls of `advance`
/// the counter has risen by exactly the number of tasks that have finished,
/// however their turns interleave. Once the group is empty it has risen by
/// the number of tasks it started with.
pub proof fn lemma_no_lost_update<R, K: Task<u64, R>>(s: Snapshot<u64, K>, n: nat)
    requires
        cursor_ok(s),
        s.value + s.tasks.len() <= u64::MAX,
        forall|i: int| 0 <= i < s.tasks.len() ==> adds_one::<R, K>(#[trigger] s.tasks[i]),
    ensures
        settle::<u64, R, K>(s, n).tasks.len() <= s.tasks.len(),
        settle::<u64, R, K>(s, n).value == s.value + s.tasks.len() - settle::<u64, R, K>(
            s,
            n,
        ).tasks.len(),
        drains::<u64, R, K>(s, n) ==> settle::<u64, R, K>(s, n).value == s.value + s.tasks.len(),
    decreases n,
{
    if n > 0 && s.tasks.len() > 0 {
        lemma_scan_adds_one::<R, K>(s.tasks, s.value, s.cursor, 0);
        lemma_no_lost_update::<R, K>(step::<u64, R, K>(s).0, (n - 1) as nat);
    }
}

} // verus!
