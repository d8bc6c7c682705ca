//! The task catalog: the number of accounts, and each task's repeat interval
//! in days. An interval of `0` retires a task; `1` makes it daily.
use vstd::prelude::*;

verus! {

/// One configured task.
pub struct CatalogTask {
    pub name: String,
    pub interval: u32,
}

/// The configured tasks, each name at most once, and the account count.
pub struct Catalog {
    pub total_account: i32,
    pub tasks: Vec<CatalogTask>,
}

/// Task name to interval, for a list of tasks with distinct names.
pub open spec fn interval_map(s: Seq<CatalogTask>) -> Map<Seq<char>, int>
    decreases s.len(),
{
    if s.len() == 0 {
        Map::empty()
    } else {
        interval_map(s.drop_last()).insert(s.last().name@, s.last().interval as int)
    }
}

/// Task names pairwise distinct.
pub open spec fn distinct_names(s: Seq<CatalogTask>) -> bool {
    forall|i: int, j: int| 0 <= i < j < s.len() ==> s[i].name@ != s[j].name@
}

/// What `interval_map` holds, read off the list position by position.
pub proof fn lemma_interval_map(s: Seq<CatalogTask>)
    requires
        distinct_names(s),
    ensures
        forall|n: Seq<char>|
            interval_map(s).contains_key(n) <==> exists|i: int| 0 <= i < s.len() && s[i].name@ == n,
        forall|i: int|
            0 <= i < s.len() ==> #[trigger] interval_map(s)[s[i].name@] == s[i].interval as int,
    decreases s.len(),
{
    if s.len() > 0 {
        let t = s.drop_last();
        let last = s.last();
        lemma_interval_map(t);
        assert(interval_map(s) == interval_map(t).insert(last.name@, last.interval as int));
        assert forall|i: int| 0 <= i < t.len() implies t[i] == s[i] && t[i].name@ != last.name@ by {
            assert(s[i].name@ != s[s.len() - 1].name@);
        }
        assert forall|n: Seq<char>|
            interval_map(s).contains_key(n) implies exists|i: int|
                0 <= i < s.len() && s[i].name@ == n by {
            if n != last.name@ {
                assert(interval_map(t).contains_key(n));
                let i = choose|i: int| 0 <= i < t.len() && t[i].name@ == n;
                assert(s[i].name@ == n);
            } else {
                assert(s[s.len() - 1].name@ == n);
            }
        }
        assert forall|n: Seq<char>|
            (exists|i: int| 0 <= i < s.len() && s[i].name@ == n) implies interval_map(
                s,
            ).contains_key(n) by {
            let i = choose|i: int| 0 <= i < s.len() && s[i].name@ == n;
            if i < s.len() - 1 {
                assert(t[i].name@ == n);
            }
        }
        assert forall|i: int| 0 <= i < s.len() implies #[trigger] interval_map(s)[s[i].name@]
            == s[i].interval as int by {
            if i < s.len() - 1 {
                assert(interval_map(t)[t[i].name@] == t[i].interval as int);
            }
        }
    }
}

impl Catalog {
    /// Names are distinct.
    pub open spec fn wf(&self) -> bool {
        distinct_names(self.tasks@)
    }

    /// Each task's interval, by name.
    pub open spec fn intervals(&self) -> Map<Seq<char>, int> {
        interval_map(self.tasks@)
    }

    /// Task `name` is in the catalog with a nonzero interval.
    pub open spec fn is_active(&self, name: Seq<char>) -> bool {
        self.intervals().contains_key(name) && self.intervals()[name] > 0
    }

    /// A catalog of `total_account` accounts and no task.
    pub fn new(total_account: i32) -> (r: Catalog)
        ensures
            r.wf(),
            r.total_account == total_account,
            r.intervals() == Map::<Seq<char>, int>::empty(),
    {
        Catalog { total_account, tasks: Vec::new() }
    }

    /// Sets the interval of task `name`, adding the task if it is new.
    pub fn set_interval(&mut self, name: String, interval: u32)
        requires
            old(self).wf(),
        ensures
            final(self).wf(),
            final(self).total_account == old(self).total_account,
            final(self).intervals() == old(self).intervals().insert(name@, interval as int),
    {
        let ghost before = self.tasks@;
        proof {
            lemma_interval_map(before);
        }
        let mut i: usize = 0;
        while i < self.tasks.len()
            invariant
                self.tasks@ == before,
                self.total_account == old(self).total_account,
                before == old(self).tasks@,
                distinct_names(before),
                i <= before.len(),
                forall|j: int| 0 <= j < i ==> before[j].name@ != name@,
            decreases before.len() - i,
        {
            if self.tasks[i].name == name {
                self.tasks.set(i, CatalogTask { name, interval });
                proof {
                    let after = self.tasks@;
                    let want = old(self).intervals().insert(name@, interval as int);
                    assert(distinct_names(after)) by {
                        assert forall|a: int, b: int| 0 <= a < b < after.len() implies after[a].name@
                            != after[b].name@ by {
                            assert(before[a].name@ != before[b].name@);
                        }
                    }
                    lemma_interval_map(after);
                    lemma_interval_map(before);
                    assert forall|j: int| 0 <= j < after.len() && j != i implies after[j] == before[j] by {}
                    assert forall|n: Seq<char>| #[trigger] interval_map(after).contains_key(n) implies want.contains_key(n) && interval_map(after)[n] == want[n] by {
                        let j = choose|j: int| 0 <= j < after.len() && after[j].name@ == n;
                        assert(interval_map(after)[after[j].name@] == after[j].interval as int);
                        if j != i {
                            assert(before[j].name@ == n);
                            assert(interval_map(before)[before[j].name@] == before[j].interval as int);
                        }
                    }
                    assert forall|n: Seq<char>| #[trigger] want.contains_key(n) implies interval_map(after).contains_key(n) by {
                        if n != name@ {
                            let j = choose|j: int| 0 <= j < before.len() && before[j].name@ == n;
                            assert(after[j].name@ == n);
                        } else {
                            assert(after[i as int].name@ == n);
                        }
                    }
                    assert(interval_map(after) =~= want);
                }
                return;
            }
            i = i + 1;
        }
        self.tasks.push(CatalogTask { name, interval });
        proof {
            let after = self.tasks@;
            assert(after.drop_last() =~= before);
            assert(distinct_names(after)) by {
                assert forall|a: int, b: int| 0 <= a < b < after.len() implies after[a].name@
                    != after[b].name@ by {
                    if b < before.len() {
                        assert(before[a].name@ != before[b].name@);
                    }
                }
            }
        }
    }

    /// The interval of task `name`, if the catalog holds it.
    pub fn interval_of(&self, name: &String) -> (r: Option<u32>)
        requires
            self.wf(),
        ensures
            match r {
                Some(d) => self.intervals().contains_key(name@) && self.intervals()[name@] == d as int,
                None => !self.intervals().contains_key(name@),
            },
    {
        proof {
            lemma_interval_map(self.tasks@);
        }
        let mut i: usize = 0;
        while i < self.tasks.len()
            invariant
                self.wf(),
                i <= self.tasks@.len(),
                forall|j: int| 0 <= j < i ==> self.tasks@[j].name@ != name@,
            decreases self.tasks@.len() - i,
        {
            if self.tasks[i].name == *name {
                proof {
                    lemma_interval_map(self.tasks@);
                }
                assert(self.intervals()[self.tasks@[i as int].name@] == self.tasks@[i as int].interval as int);
                return Some(self.tasks[i].interval);
            }
            i = i + 1;
        }
        None
    }
}

} // verus!
