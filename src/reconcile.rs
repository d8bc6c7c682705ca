//! Reconciliation: aligning the schedule with the catalog.
use vstd::prelude::*;
use crate::account::{account_id, account_label};
use crate::catalog::{lemma_interval_map, Catalog};
use crate::date::Date;
use crate::jitter::JitterSource;
use crate::schedule::Schedule;

verus! {

/// Why reconciliation was refused.
#[derive(Clone, Copy, Debug, PartialEq, Eq, Structural)]
pub enum ReconcileError {
    /// Some task's first interval would run past the last day number.
    DateOutOfRange,
}

/// Key `k` must be scheduled under the catalog: its task is active and its
/// account is one of `1..=total_account`.
pub open spec fn required(c: &Catalog, k: (Seq<char>, Seq<char>)) -> bool {
    c.is_active(k.1) && exists|n: int|
        1 <= n <= c.total_account && k.0 == #[trigger] account_label(n as nat)
}

/// `after` is what reconciling `before` with `c` on day `today` may give:
/// it keeps the entries of active tasks as they were, drops the others, and
/// adds each missing required entry with a due date in its task's first
/// interval from `today`.
pub open spec fn reconciled(
    before: Map<(Seq<char>, Seq<char>), Date>,
    c: &Catalog,
    today: Date,
    after: Map<(Seq<char>, Seq<char>), Date>,
) -> bool {
    &&& forall|k: (Seq<char>, Seq<char>)| #[trigger]
        after.contains_key(k) <==> (before.contains_key(k) && c.is_active(k.1)) || required(c, k)
    &&& forall|k: (Seq<char>, Seq<char>)|
        before.contains_key(k) && c.is_active(k.1) ==> #[trigger] after[k] == before[k]
    &&& forall|k: (Seq<char>, Seq<char>)|
        after.contains_key(k) && !before.contains_key(k) ==> today.days <= #[trigger] after[k].days
            < today.days + c.intervals()[k.1]
}

/// Some task's interval, counted from `today`, ends past the last day number.
pub open spec fn jitter_overflows(c: &Catalog, today: Date) -> bool {
    exists|n: Seq<char>| #[trigger]
        c.intervals().contains_key(n) && today.days + c.intervals()[n] - 1 > i32::MAX
}

/// Reconciles `schedule` with `catalog` on day `today`: removes the entries
/// of tasks that are absent or have interval `0`, and gives every account
/// `1..=total_account` an entry for each task with a nonzero interval that it
/// lacks, due `today` plus an offset below the interval drawn from `jitter`
/// (no draw for a daily task: it is due `today`). Existing entries of active
/// tasks are never changed.
pub fn reconcile<J: JitterSource>(
    schedule: &mut Schedule,
    catalog: &Catalog,
    today: Date,
    jitter: &mut J,
) -> (r: Result<(), ReconcileError>)
    requires
        old(schedule).wf(),
        catalog.wf(),
    ensures
        final(schedule).wf(),
        r.is_err() <==> jitter_overflows(catalog, today),
        r.is_err() ==> final(schedule)@ == old(schedule)@,
        r.is_ok() ==> reconciled(old(schedule)@, catalog, today, final(schedule)@),
{
    let tasks = &catalog.tasks;
    proof {
        lemma_interval_map(tasks@);
    }
    let mut t: usize = 0;
    while t < tasks.len()
        invariant
            catalog.wf(),
            tasks == &catalog.tasks,
            schedule.wf(),
            schedule@ == old(schedule)@,
            t <= tasks@.len(),
            forall|j: int| 0 <= j < t ==> today.days + (#[trigger] tasks@[j]).interval - 1 <= i32::MAX,
        decreases tasks@.len() - t,
    {
        if today.days as i64 + tasks[t].interval as i64 - 1 > i32::MAX as i64 {
            proof {
                lemma_interval_map(tasks@);
                let w = tasks@[t as int].name@;
                assert(exists|i: int| 0 <= i < tasks@.len() && tasks@[i].name@ == w);
                assert(catalog.intervals().contains_key(w));
                assert(catalog.intervals()[w] == tasks@[t as int].interval);
            }
            return Err(ReconcileError::DateOutOfRange);
        }
        t = t + 1;
    }
    proof {
        assert forall|n: Seq<char>| #[trigger] catalog.intervals().contains_key(n) implies today.days
            + catalog.intervals()[n] - 1 <= i32::MAX by {
            let j = choose|j: int| 0 <= j < tasks@.len() && tasks@[j].name@ == n;
            assert(catalog.intervals()[tasks@[j].name@] == tasks@[j].interval);
        }
    }
    schedule.prune(catalog);
    let ghost pruned = schedule@;
    let ghost start = old(schedule)@;
    let mut t: usize = 0;
    while t < tasks.len()
        invariant
            catalog.wf(),
            tasks == &catalog.tasks,
            t <= tasks@.len(),
            schedule.wf(),
            forall|j: int| 0 <= j < tasks@.len() ==> today.days + (#[trigger] tasks@[j]).interval - 1 <= i32::MAX,
            pruned == start.restrict(Set::new(|k: (Seq<char>, Seq<char>)| catalog.is_active(k.1))),
            forall|k: (Seq<char>, Seq<char>)| #[trigger] schedule@.contains_key(k) ==> pruned.contains_key(k) || required(catalog, k),
            forall|k: (Seq<char>, Seq<char>)| #[trigger] pruned.contains_key(k) ==> schedule@.contains_key(k) && schedule@[k] == pruned[k],
            forall|k: (Seq<char>, Seq<char>)| schedule@.contains_key(k) && !pruned.contains_key(k) ==>
                today.days <= #[trigger] schedule@[k].days < today.days + catalog.intervals()[k.1],
            forall|m: int, n: int| 0 <= m < t && 1 <= n <= catalog.total_account && catalog.is_active(tasks@[m].name@) ==>
                #[trigger] schedule@.contains_key((account_label(n as nat), #[trigger] tasks@[m].name@)),
        decreases tasks@.len() - t,
    {
        let d = tasks[t].interval;
        let ghost name = tasks@[t as int].name@;
        proof {
            lemma_interval_map(tasks@);
            assert(catalog.intervals()[name] == d);
        }
        if d > 0 {
            let limit: u32 = if catalog.total_account < 0 {
                0
            } else {
                catalog.total_account as u32
            };
            let mut n: u32 = 1;
            while n <= limit
                invariant
                    catalog.wf(),
                    tasks == &catalog.tasks,
                    t < tasks@.len(),
                    d == tasks@[t as int].interval,
                    d > 0,
                    name == tasks@[t as int].name@,
                    catalog.is_active(name),
                    catalog.intervals()[name] == d,
                    1 <= n,
                    n <= limit + 1,
                    limit as int == if catalog.total_account < 0 { 0 } else { catalog.total_account as int },
                    schedule.wf(),
                    today.days + d - 1 <= i32::MAX,
                    forall|k: (Seq<char>, Seq<char>)| #[trigger] schedule@.contains_key(k) ==> pruned.contains_key(k) || required(catalog, k),
                    forall|k: (Seq<char>, Seq<char>)| #[trigger] pruned.contains_key(k) ==> schedule@.contains_key(k) && schedule@[k] == pruned[k],
                    forall|k: (Seq<char>, Seq<char>)| schedule@.contains_key(k) && !pruned.contains_key(k) ==>
                        today.days <= #[trigger] schedule@[k].days < today.days + catalog.intervals()[k.1],
                    forall|m: int, n2: int| 0 <= m < t && 1 <= n2 <= catalog.total_account && catalog.is_active(tasks@[m].name@) ==>
                        #[trigger] schedule@.contains_key((account_label(n2 as nat), #[trigger] tasks@[m].name@)),
                    forall|n2: int| 1 <= n2 < n ==> #[trigger] schedule@.contains_key((account_label(n2 as nat), name)),
                decreases limit + 1 - n,
            {
                let id = account_id(n);
                if schedule.due_of(&id, &tasks[t].name).is_none() {
                    let offset: u32 = if d == 1 {
                        0
                    } else {
                        jitter.draw(d)
                    };
                    let ghost k = (id@, name);
                    let ghost prev = schedule@;
                    schedule.set_due(id, tasks[t].name.clone(), Date { days: (today.days as i64 + offset as i64) as i32 });
                    proof {
                        assert(required(catalog, k)) by {
                            let w: int = n as int;
                            assert(1 <= w <= catalog.total_account);
                            assert(k.0 == account_label(w as nat));
                            assert(catalog.is_active(k.1));
                        }
                        assert forall|q: (Seq<char>, Seq<char>)| #[trigger] pruned.contains_key(q) implies q != k by {
                            assert(prev.contains_key(q));
                        }
                    }
                }
                n = n + 1;
            }
        }
        proof {
            assert forall|m: int, n2: int| 0 <= m < t + 1 && 1 <= n2 <= catalog.total_account && catalog.is_active(tasks@[m].name@) implies
                #[trigger] schedule@.contains_key((account_label(n2 as nat), #[trigger] tasks@[m].name@)) by {
                if m == t {
                    assert(d > 0);
                }
            }
        }
        t = t + 1;
    }
    proof {
        let after = schedule@;
        lemma_interval_map(tasks@);
        assert forall|k: (Seq<char>, Seq<char>)| required(catalog, k) implies after.contains_key(k) by {
            let n = choose|n: int| 1 <= n <= catalog.total_account && k.0 == #[trigger] account_label(n as nat);
            let m = choose|m: int| 0 <= m < tasks@.len() && tasks@[m].name@ == k.1;
            assert(after.contains_key((account_label(n as nat), tasks@[m].name@)));
        }
        assert forall|k: (Seq<char>, Seq<char>)| start.contains_key(k) && catalog.is_active(k.1) implies pruned.contains_key(k) by {}
    }
    Ok(())
}

/// Reconciling an already reconciled schedule against the same catalog
/// changes nothing, whatever the day.
pub proof fn lemma_reconcile_idempotent(
    s0: Map<(Seq<char>, Seq<char>), Date>,
    c: &Catalog,
    today: Date,
    s1: Map<(Seq<char>, Seq<char>), Date>,
    later: Date,
    s2: Map<(Seq<char>, Seq<char>), Date>,
)
    requires
        reconciled(s0, c, today, s1),
        reconciled(s1, c, later, s2),
    ensures
        s2 == s1,
{
    assert forall|k: (Seq<char>, Seq<char>)| s1.contains_key(k) implies c.is_active(k.1) by {
        assert((s0.contains_key(k) && c.is_active(k.1)) || required(c, k));
    }
    assert forall|k: (Seq<char>, Seq<char>)| #[trigger] s2.contains_key(k) implies s1.contains_key(k)
        && s2[k] == s1[k] by {
        assert((s1.contains_key(k) && c.is_active(k.1)) || required(c, k));
        if required(c, k) {
            assert(s1.contains_key(k));
        }
    }
    assert forall|k: (Seq<char>, Seq<char>)| #[trigger] s1.contains_key(k) implies s2.contains_key(k) by {
        assert(c.is_active(k.1));
    }
    assert(s2 =~= s1);
}

/// After reconciliation every account `1..=total_account` has an entry for
/// every task with a nonzero interval.
pub proof fn lemma_reconcile_covers(
    s0: Map<(Seq<char>, Seq<char>), Date>,
    c: &Catalog,
    today: Date,
    s1: Map<(Seq<char>, Seq<char>), Date>,
    n: int,
    task: Seq<char>,
)
    requires
        reconciled(s0, c, today, s1),
        1 <= n <= c.total_account,
        c.is_active(task),
    ensures
        s1.contains_key((account_label(n as nat), task)),
{
    assert(required(c, (account_label(n as nat), task)));
}

/// A task that is not in the catalog has no entry after reconciliation.
pub proof fn lemma_reconcile_drops_absent(
    s0: Map<(Seq<char>, Seq<char>), Date>,
    c: &Catalog,
    today: Date,
    s1: Map<(Seq<char>, Seq<char>), Date>,
    account: Seq<char>,
    task: Seq<char>,
)
    requires
        reconciled(s0, c, today, s1),
        !c.intervals().contains_key(task),
    ensures
        !s1.contains_key((account, task)),
{
}

/// A task whose interval is `0` has no entry after reconciliation, for any
/// account.
pub proof fn lemma_reconcile_drops_retired(
    s0: Map<(Seq<char>, Seq<char>), Date>,
    c: &Catalog,
    today: Date,
    s1: Map<(Seq<char>, Seq<char>), Date>,
    account: Seq<char>,
    task: Seq<char>,
)
    requires
        reconciled(s0, c, today, s1),
        c.intervals().contains_key(task),
        c.intervals()[task] == 0,
    ensures
        !s1.contains_key((account, task)),
{
}

/// An entry that reconciliation creates is due within its task's first
/// interval from `today`, and exactly `today` for a daily task.
pub proof fn lemma_reconcile_jitter_bounds(
    s0: Map<(Seq<char>, Seq<char>), Date>,
    c: &Catalog,
    today: Date,
    s1: Map<(Seq<char>, Seq<char>), Date>,
    key: (Seq<char>, Seq<char>),
)
    requires
        reconciled(s0, c, today, s1),
        s1.contains_key(key),
        !s0.contains_key(key),
    ensures
        today.days <= s1[key].days < today.days + c.intervals()[key.1],
        c.intervals()[key.1] == 1 ==> s1[key] == today,
{
    if c.intervals()[key.1] == 1 {
        assert(s1[key].days == today.days);
        assert(s1[key] == Date { days: s1[key].days });
    }
}

} // verus!
