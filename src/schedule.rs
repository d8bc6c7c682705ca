//! The schedule store: for each (account, task) pair at most one due date,
//! kept in a vector sorted by account and then by task.
use vstd::prelude::*;
use crate::catalog::Catalog;
use crate::date::Date;
use crate::order::{compare_text, key_lt, lemma_key_order, lemma_text_order, text_lt};

verus! {

/// The due date of one task for one account.
pub struct Entry {
    pub account: String,
    pub task: String,
    pub due: Date,
}

impl Entry {
    /// The pair that identifies the entry.
    pub open spec fn key(&self) -> (Seq<char>, Seq<char>) {
        (self.account@, self.task@)
    }

    fn duplicate(&self) -> (r: Entry)
        ensures
            r.key() == self.key(),
            r.due == self.due,
    {
        Entry { account: self.account.clone(), task: self.task.clone(), due: self.due }
    }
}

/// (account, task) to due date, for entries with distinct keys.
pub open spec fn entry_map(s: Seq<Entry>) -> Map<(Seq<char>, Seq<char>), Date>
    decreases s.len(),
{
    if s.len() == 0 {
        Map::empty()
    } else {
        entry_map(s.drop_last()).insert(s.last().key(), s.last().due)
    }
}

/// Keys strictly increasing, hence distinct.
pub open spec fn sorted_keys(s: Seq<Entry>) -> bool {
    forall|i: int, j: int| 0 <= i < j < s.len() ==> key_lt(#[trigger] s[i].key(), #[trigger] s[j].key())
}

/// What `entry_map` holds, read off the list position by position.
pub proof fn lemma_entry_map(s: Seq<Entry>)
    requires
        sorted_keys(s),
    ensures
        forall|k: (Seq<char>, Seq<char>)|
            #[trigger] entry_map(s).contains_key(k) <==> exists|i: int| 0 <= i < s.len() && s[i].key() == k,
        forall|i: int| 0 <= i < s.len() ==> #[trigger] entry_map(s)[s[i].key()] == s[i].due,
    decreases s.len(),
{
    if s.len() > 0 {
        let t = s.drop_last();
        let last = s.last();
        lemma_entry_map(t);
        assert(entry_map(s) == entry_map(t).insert(last.key(), last.due));
        assert forall|i: int| 0 <= i < t.len() implies t[i] == s[i] && t[i].key() != last.key() by {
            assert(key_lt(s[i].key(), s[s.len() - 1].key()));
            lemma_key_order(last.key(), last.key(), last.key());
        }
        assert forall|k: (Seq<char>, Seq<char>)|
            entry_map(s).contains_key(k) implies exists|i: int| 0 <= i < s.len() && s[i].key() == k by {
            if k != last.key() {
                assert(entry_map(t).contains_key(k));
                let i = choose|i: int| 0 <= i < t.len() && t[i].key() == k;
                assert(s[i].key() == k);
            } else {
                assert(s[s.len() - 1].key() == k);
            }
        }
        assert forall|k: (Seq<char>, Seq<char>)|
            (exists|i: int| 0 <= i < s.len() && s[i].key() == k) implies entry_map(s).contains_key(k) by {
            let i = choose|i: int| 0 <= i < s.len() && s[i].key() == k;
            if i < s.len() - 1 {
                assert(t[i].key() == k);
            }
        }
        assert forall|i: int| 0 <= i < s.len() implies #[trigger] entry_map(s)[s[i].key()] == s[i].due by {
            if i < s.len() - 1 {
                assert(entry_map(t)[t[i].key()] == t[i].due);
            }
        }
    }
}

/// Account `account` has some task due on `date`.
pub open spec fn has_task_due(
    m: Map<(Seq<char>, Seq<char>), Date>,
    account: Seq<char>,
    date: Date,
) -> bool {
    exists|t: Seq<char>| #[trigger] m.contains_key((account, t)) && m[(account, t)] == date
}

/// The store of due dates.
pub struct Schedule {
    pub entries: Vec<Entry>,
}

impl View for Schedule {
    type V = Map<(Seq<char>, Seq<char>), Date>;

    open spec fn view(&self) -> Map<(Seq<char>, Seq<char>), Date> {
        entry_map(self.entries@)
    }
}

impl Schedule {
    /// Entries sorted by key.
    pub open spec fn wf(&self) -> bool {
        sorted_keys(self.entries@)
    }

    /// An empty schedule.
    pub fn new() -> (r: Schedule)
        ensures
            r.wf(),
            r@ == Map::<(Seq<char>, Seq<char>), Date>::empty(),
    {
        Schedule { entries: Vec::new() }
    }

    /// Where the key (account, task) stands or would stand: `(true, i)` when
    /// entry `i` has it, `(false, i)` when it would be inserted before entry `i`.
    fn locate(&self, account: &String, task: &String) -> (r: (bool, usize))
        requires
            self.wf(),
        ensures
            r.1 <= self.entries@.len(),
            forall|j: int| 0 <= j < r.1 ==> key_lt(#[trigger] self.entries@[j].key(), (account@, task@)),
            r.0 ==> r.1 < self.entries@.len() && self.entries@[r.1 as int].key() == (account@, task@),
            !r.0 ==> forall|j: int| r.1 <= j < self.entries@.len() ==> key_lt((account@, task@), #[trigger] self.entries@[j].key()),
    {
        let ghost k = (account@, task@);
        let mut i: usize = 0;
        while i < self.entries.len()
            invariant
                self.wf(),
                k == (account@, task@),
                i <= self.entries@.len(),
                forall|j: int| 0 <= j < i ==> key_lt(#[trigger] self.entries@[j].key(), k),
            decreases self.entries@.len() - i,
        {
            let e = &self.entries[i];
            let ca = compare_text(&e.account, account);
            let mut c = ca;
            if ca == 0 {
                c = compare_text(&e.task, task);
            }
            proof {
                lemma_text_order(e.account@, account@, e.account@);
            }
            if c == 0 {
                return (true, i);
            }
            if c > 0 {
                proof {
                    assert(key_lt(k, e.key()));
                    assert forall|j: int| i <= j < self.entries@.len() implies key_lt(k, #[trigger] self.entries@[j].key()) by {
                        if j > i {
                            assert(key_lt(self.entries@[i as int].key(), self.entries@[j].key()));
                            lemma_key_order(k, e.key(), self.entries@[j].key());
                        }
                    }
                }
                return (false, i);
            }
            i = i + 1;
        }
        (false, i)
    }

    /// Sets the due date of `task` for `account`, adding the entry if it is new.
    pub fn set_due(&mut self, account: String, task: String, due: Date)
        requires
            old(self).wf(),
        ensures
            final(self).wf(),
            final(self)@ == old(self)@.insert((account@, task@), due),
    {
        let ghost k = (account@, task@);
        let ghost before = self.entries@;
        let (found, i) = self.locate(&account, &task);
        let ghost want = old(self)@.insert(k, due);
        if found {
            self.entries.set(i, Entry { account, task, due });
            proof {
                let after = self.entries@;
                assert forall|j: int| 0 <= j < after.len() implies #[trigger] after[j].key() == before[j].key() by {}
                assert(sorted_keys(after)) by {
                    assert forall|a: int, b: int| 0 <= a < b < after.len() implies key_lt(#[trigger] after[a].key(), #[trigger] after[b].key()) by {
                        assert(key_lt(before[a].key(), before[b].key()));
                    }
                }
                lemma_entry_map(before);
                lemma_entry_map(after);
                assert forall|q: (Seq<char>, Seq<char>)| #[trigger] want.contains_key(q) == entry_map(after).contains_key(q) by {
                    if q == k {
                        assert(after[i as int].key() == q);
                    } else if want.contains_key(q) {
                        assert(old(self)@.contains_key(q));
                        let j = choose|j: int| 0 <= j < before.len() && before[j].key() == q;
                        assert(after[j].key() == q);
                    }
                    if entry_map(after).contains_key(q) {
                        let j = choose|j: int| 0 <= j < after.len() && after[j].key() == q;
                        assert(before[j].key() == q);
                    }
                }
                assert forall|q: (Seq<char>, Seq<char>)| #[trigger] want.contains_key(q) implies want[q] == entry_map(after)[q] by {
                    let j = choose|j: int| 0 <= j < after.len() && after[j].key() == q;
                    assert(entry_map(after)[after[j].key()] == after[j].due);
                    if j != i {
                        assert(entry_map(before)[before[j].key()] == before[j].due);
                        lemma_key_order(k, k, k);
                    }
                }
                assert forall|q: (Seq<char>, Seq<char>)| #[trigger] entry_map(after).contains_key(q) implies want.contains_key(q) && want[q] == entry_map(after)[q] by {
                    assert(want.contains_key(q) == entry_map(after).contains_key(q));
                }
                assert(entry_map(after) =~= want);
            }
        } else {
            self.entries.insert(i, Entry { account, task, due });
            proof {
                let after = self.entries@;
                assert forall|j: int| 0 <= j < i implies #[trigger] after[j] == before[j] by {}
                assert forall|j: int| i < j < after.len() implies #[trigger] after[j] == before[j - 1] by {}
                assert(sorted_keys(after)) by {
                    assert forall|a: int, b: int| 0 <= a < b < after.len() implies key_lt(#[trigger] after[a].key(), #[trigger] after[b].key()) by {
                        if b < i {
                            assert(key_lt(before[a].key(), before[b].key()));
                        } else if b == i {
                            assert(key_lt(before[a].key(), k));
                        } else if a == i {
                            assert(key_lt(k, before[b - 1].key()));
                        } else if a < i {
                            assert(key_lt(before[a].key(), k));
                            assert(key_lt(k, before[b - 1].key()));
                            lemma_key_order(before[a].key(), k, before[b - 1].key());
                        } else {
                            assert(key_lt(before[a - 1].key(), before[b - 1].key()));
                        }
                    }
                }
                lemma_entry_map(before);
                lemma_entry_map(after);
                lemma_key_order(k, k, k);
                assert forall|q: (Seq<char>, Seq<char>)| #[trigger] want.contains_key(q) == entry_map(after).contains_key(q) by {
                    if want.contains_key(q) {
                        if q == k {
                            assert(after[i as int].key() == q);
                        } else {
                            let j = choose|j: int| 0 <= j < before.len() && before[j].key() == q;
                            if j < i {
                                assert(after[j].key() == q);
                            } else {
                                assert(after[j + 1].key() == q);
                            }
                        }
                    }
                    if entry_map(after).contains_key(q) && q != k {
                        let j = choose|j: int| 0 <= j < after.len() && after[j].key() == q;
                        if j < i {
                            assert(before[j].key() == q);
                        } else {
                            assert(before[j - 1].key() == q);
                        }
                    }
                }
                assert forall|q: (Seq<char>, Seq<char>)| #[trigger] want.contains_key(q) implies want[q] == entry_map(after)[q] by {
                    let j = choose|j: int| 0 <= j < after.len() && after[j].key() == q;
                    assert(entry_map(after)[after[j].key()] == after[j].due);
                    if j < i {
                        assert(entry_map(before)[before[j].key()] == before[j].due);
                        assert(key_lt(before[j].key(), k));
                    } else if j > i {
                        assert(entry_map(before)[before[j - 1].key()] == before[j - 1].due);
                        assert(key_lt(k, before[j - 1].key()));
                    }
                }
                assert forall|q: (Seq<char>, Seq<char>)| #[trigger] entry_map(after).contains_key(q) implies want.contains_key(q) && want[q] == entry_map(after)[q] by {
                    assert(want.contains_key(q) == entry_map(after).contains_key(q));
                }
                assert(entry_map(after) =~= want);
            }
        }
    }

    /// Removes the entry of `task` for `account`, if there is one.
    pub fn remove(&mut self, account: &String, task: &String)
        requires
            old(self).wf(),
        ensures
            final(self).wf(),
            final(self)@ == old(self)@.remove((account@, task@)),
    {
        let ghost k = (account@, task@);
        let ghost before = self.entries@;
        let ghost want = old(self)@.remove(k);
        let (found, i) = self.locate(account, task);
        proof {
            lemma_entry_map(before);
            lemma_key_order(k, k, k);
        }
        if !found {
            proof {
                assert forall|q: (Seq<char>, Seq<char>)| #[trigger] old(self)@.contains_key(q) implies q != k by {
                    let j = choose|j: int| 0 <= j < before.len() && before[j].key() == q;
                    if j < i {
                        assert(key_lt(before[j].key(), k));
                    } else {
                        assert(key_lt(k, before[j].key()));
                    }
                }
                assert(old(self)@ =~= want);
            }
            return;
        }
        self.entries.remove(i);
        proof {
            let after = self.entries@;
            assert forall|j: int| 0 <= j < i implies #[trigger] after[j] == before[j] by {}
            assert forall|j: int| i <= j < after.len() implies #[trigger] after[j] == before[j + 1] by {}
            assert(sorted_keys(after)) by {
                assert forall|a: int, b: int| 0 <= a < b < after.len() implies key_lt(#[trigger] after[a].key(), #[trigger] after[b].key()) by {
                    let a2 = if a < i { a } else { a + 1 };
                    let b2 = if b < i { b } else { b + 1 };
                    assert(after[a] == before[a2]);
                    assert(after[b] == before[b2]);
                    assert(key_lt(before[a2].key(), before[b2].key()));
                }
            }
            lemma_entry_map(after);
            assert forall|q: (Seq<char>, Seq<char>)| #[trigger] entry_map(after).contains_key(q) implies want.contains_key(q) && want[q] == entry_map(after)[q] by {
                let j = choose|j: int| 0 <= j < after.len() && after[j].key() == q;
                let j2 = if j < i { j } else { j + 1 };
                assert(after[j] == before[j2]);
                assert(entry_map(after)[after[j].key()] == after[j].due);
                assert(entry_map(before)[before[j2].key()] == before[j2].due);
                if j2 < i {
                    assert(key_lt(before[j2].key(), before[i as int].key()));
                } else {
                    assert(key_lt(before[i as int].key(), before[j2].key()));
                }
            }
            assert forall|q: (Seq<char>, Seq<char>)| #[trigger] want.contains_key(q) implies entry_map(after).contains_key(q) by {
                let j = choose|j: int| 0 <= j < before.len() && before[j].key() == q;
                if j < i {
                    assert(after[j].key() == q);
                } else {
                    assert(after[j - 1].key() == q);
                }
            }
            assert(entry_map(after) =~= want);
        }
    }

    /// Removes every entry whose task is not in the catalog with a nonzero
    /// interval, and keeps the others as they are.
    pub fn prune(&mut self, catalog: &Catalog)
        requires
            old(self).wf(),
            catalog.wf(),
        ensures
            final(self).wf(),
            final(self)@ == old(self)@.restrict(
                Set::new(|k: (Seq<char>, Seq<char>)| catalog.is_active(k.1)),
            ),
    {
        let ghost before = self.entries@;
        let mut kept: Vec<Entry> = Vec::new();
        let ghost mut idx: Seq<int> = Seq::empty();
        let mut i: usize = 0;
        while i < self.entries.len()
            invariant
                self.entries@ == before,
                sorted_keys(before),
                catalog.wf(),
                i <= before.len(),
                kept@.len() == idx.len(),
                forall|m: int| 0 <= m < idx.len() ==> 0 <= #[trigger] idx[m] < i,
                forall|m: int| 0 <= m < idx.len() ==> #[trigger] kept@[m].key() == before[idx[m]].key(),
                forall|m: int| 0 <= m < idx.len() ==> #[trigger] kept@[m].due == before[idx[m]].due,
                forall|m: int| 0 <= m < idx.len() ==> catalog.is_active(#[trigger] before[idx[m]].task@),
                forall|a: int, b: int| 0 <= a < b < idx.len() ==> #[trigger] idx[a] < #[trigger] idx[b],
                forall|j: int| 0 <= j < i && catalog.is_active(#[trigger] before[j].task@) ==> exists|m: int| 0 <= m < idx.len() && idx[m] == j,
            decreases before.len() - i,
        {
            let keep = match catalog.interval_of(&self.entries[i].task) {
                Some(d) => d > 0,
                None => false,
            };
            let ghost prev = idx;
            proof {
                assert(keep == catalog.is_active(before[i as int].task@));
            }
            if keep {
                let e = self.entries[i].duplicate();
                kept.push(e);
                proof {
                    idx = idx.push(i as int);
                    assert(idx[idx.len() - 1] == i);
                    assert forall|m: int| 0 <= m < idx.len() implies catalog.is_active(#[trigger] before[idx[m]].task@) by {
                        if m < prev.len() {
                            assert(idx[m] == prev[m]);
                            assert(catalog.is_active(before[prev[m]].task@));
                        } else {
                            assert(idx[m] == i as int);
                        }
                    }
                }
            }
            proof {
                assert forall|j: int| 0 <= j < i + 1 && catalog.is_active(#[trigger] before[j].task@) implies exists|m: int| 0 <= m < idx.len() && idx[m] == j by {
                    if j < i {
                        let m = choose|m: int| 0 <= m < prev.len() && prev[m] == j;
                        assert(idx[m] == j);
                    } else {
                        assert(idx[idx.len() - 1] == j);
                    }
                }
            }
            i = i + 1;
        }
        proof {
            let s = kept@;
            assert(sorted_keys(s)) by {
                assert forall|a: int, b: int| 0 <= a < b < s.len() implies key_lt(#[trigger] s[a].key(), #[trigger] s[b].key()) by {
                    assert(idx[a] < idx[b]);
                    assert(key_lt(before[idx[a]].key(), before[idx[b]].key()));
                }
            }
            lemma_entry_map(before);
            lemma_entry_map(s);
            let want = old(self)@.restrict(Set::new(|k: (Seq<char>, Seq<char>)| catalog.is_active(k.1)));
            assert forall|q: (Seq<char>, Seq<char>)| #[trigger] entry_map(s).contains_key(q) implies want.contains_key(q) && want[q] == entry_map(s)[q] by {
                let m = choose|m: int| 0 <= m < s.len() && s[m].key() == q;
                let j = idx[m];
                assert(before[j].key() == q);
                assert(entry_map(s)[s[m].key()] == s[m].due);
                assert(entry_map(before)[before[j].key()] == before[j].due);
            }
            assert forall|q: (Seq<char>, Seq<char>)| #[trigger] want.contains_key(q) implies entry_map(s).contains_key(q) by {
                let j = choose|j: int| 0 <= j < before.len() && before[j].key() == q;
                assert(catalog.is_active(before[j].task@));
                let m = choose|m: int| 0 <= m < idx.len() && idx[m] == j;
                assert(s[m].key() == q);
            }
            assert(entry_map(s) =~= want);
        }
        self.entries = kept;
    }

    /// The due date of `task` for `account`, if the schedule holds one.
    pub fn due_of(&self, account: &String, task: &String) -> (r: Option<Date>)
        requires
            self.wf(),
        ensures
            self@.contains_key((account@, task@)) ==> r == Some(self@[(account@, task@)]),
            !self@.contains_key((account@, task@)) ==> r.is_none(),
    {
        proof {
            lemma_entry_map(self.entries@);
        }
        let (found, i) = self.locate(account, task);
        if found {
            Some(self.entries[i].due)
        } else {
            proof {
                let k = (account@, task@);
                if self@.contains_key(k) {
                    let j = choose|j: int| 0 <= j < self.entries@.len() && self.entries@[j].key() == k;
                    lemma_key_order(k, k, k);
                    if j < i {
                        assert(key_lt(self.entries@[j].key(), k));
                    } else {
                        assert(key_lt(k, self.entries@[j].key()));
                    }
                }
            }
            None
        }
    }

    /// The accounts with at least one task due on `date`, each once, in
    /// sorted order.
    #[verifier::rlimit(40)]
    pub fn accounts_due(&self, date: Date) -> (r: Vec<String>)
        requires
            self.wf(),
        ensures
            forall|a: int, b: int| 0 <= a < b < r@.len() ==> text_lt(#[trigger] r@[a]@, #[trigger] r@[b]@),
            forall|i: int| 0 <= i < r@.len() ==> has_task_due(self@, #[trigger] r@[i]@, date),
            forall|k: (Seq<char>, Seq<char>)| #[trigger] self@.contains_key(k) && self@[k] == date ==>
                exists|i: int| 0 <= i < r@.len() && #[trigger] r@[i]@ == k.0,
    {
        let ghost es = self.entries@;
        let mut r: Vec<String> = Vec::new();
        let ghost mut idx: Seq<int> = Seq::empty();
        let mut i: usize = 0;
        while i < self.entries.len()
            invariant
                es == self.entries@,
                sorted_keys(es),
                i <= es.len(),
                r@.len() == idx.len(),
                forall|a: int, b: int| 0 <= a < b < r@.len() ==> text_lt(#[trigger] r@[a]@, #[trigger] r@[b]@),
                forall|m: int| 0 <= m < idx.len() ==> 0 <= #[trigger] idx[m] < i,
                forall|m: int| 0 <= m < idx.len() ==> #[trigger] r@[m]@ == es[idx[m]].account@,
                forall|m: int| 0 <= m < idx.len() ==> es[#[trigger] idx[m]].due == date,
                forall|j: int| 0 <= j < i && (#[trigger] es[j]).due == date ==> exists|m: int|
                    0 <= m < r@.len() && r@[m]@ == es[j].account@,
            decreases es.len() - i,
        {
            let e = &self.entries[i];
            let ghost prev_r = r@;
            if e.due == date {
                let fresh = r.len() == 0 || r[r.len() - 1] != e.account;
                if fresh {
                    proof {
                        if r@.len() > 0 {
                            let l = r@.len() - 1;
                            let jl = idx[l];
                            assert(key_lt(es[jl].key(), es[i as int].key()));
                            lemma_text_order(r@[l]@, e.account@, e.account@);
                            assert forall|a: int| 0 <= a < l implies text_lt(r@[a]@, e.account@) by {
                                lemma_text_order(r@[a]@, r@[l]@, e.account@);
                            }
                        }
                    }
                    r.push(e.account.clone());
                    proof {
                        idx = idx.push(i as int);
                    }
                } else {
                    assert(r@[r@.len() - 1]@ == e.account@);
                }
            }
            proof {
                assert forall|j: int| 0 <= j < i + 1 && (#[trigger] es[j]).due == date implies exists|m: int|
                    0 <= m < r@.len() && r@[m]@ == es[j].account@ by {
                    if j == i {
                        assert(r@[r@.len() - 1]@ == es[j].account@);
                    } else {
                        let m = choose|m: int| 0 <= m < prev_r.len() && prev_r[m]@ == es[j].account@;
                        assert(r@[m] == prev_r[m]);
                    }
                }
            }
            i = i + 1;
        }
        proof {
            lemma_entry_map(es);
            assert forall|m: int| 0 <= m < r@.len() implies has_task_due(self@, #[trigger] r@[m]@, date) by {
                let acc = r@[m]@;
                let j = idx[m];
                assert(self@.contains_key(es[j].key()));
                assert(self@[es[j].key()] == es[j].due);
                assert(es[j].key() == (acc, es[j].task@));
                assert(self@.contains_key((r@[m]@, es[j].task@)));
            }
            assert forall|k: (Seq<char>, Seq<char>)| #[trigger] self@.contains_key(k) && self@[k] == date implies
                exists|m: int| 0 <= m < r@.len() && #[trigger] r@[m]@ == k.0 by {
                let j = choose|j: int| 0 <= j < es.len() && es[j].key() == k;
                assert(self@[es[j].key()] == es[j].due);
                assert(es[j].due == date);
            }
        }
        r
    }

    /// The tasks of `account` due on `date`, in sorted order.
    pub fn tasks_due(&self, account: &String, date: Date) -> (r: Vec<String>)
        requires
            self.wf(),
        ensures
            forall|a: int, b: int| 0 <= a < b < r@.len() ==> text_lt(#[trigger] r@[a]@, #[trigger] r@[b]@),
            forall|i: int| 0 <= i < r@.len() ==>
                #[trigger] self@.contains_key((account@, #[trigger] r@[i]@)) && self@[(account@, r@[i]@)] == date,
            forall|k: (Seq<char>, Seq<char>)| #[trigger] self@.contains_key(k) && k.0 == account@ && self@[k] == date ==>
                exists|i: int| 0 <= i < r@.len() && #[trigger] r@[i]@ == k.1,
    {
        let ghost es = self.entries@;
        let mut r: Vec<String> = Vec::new();
        let ghost mut idx: Seq<int> = Seq::empty();
        let mut i: usize = 0;
        while i < self.entries.len()
            invariant
                es == self.entries@,
                sorted_keys(es),
                i <= es.len(),
                r@.len() == idx.len(),
                forall|m: int| 0 <= m < idx.len() ==> 0 <= #[trigger] idx[m] < i,
                forall|a: int, b: int| 0 <= a < b < idx.len() ==> #[trigger] idx[a] < #[trigger] idx[b],
                forall|m: int| 0 <= m < idx.len() ==> #[trigger] r@[m]@ == es[idx[m]].task@,
                forall|m: int| 0 <= m < idx.len() ==> es[#[trigger] idx[m]].due == date && es[idx[m]].account@ == account@,
                forall|j: int| 0 <= j < i && (#[trigger] es[j]).due == date && es[j].account@ == account@ ==> exists|m: int|
                    0 <= m < idx.len() && idx[m] == j,
            decreases es.len() - i,
        {
            let ghost prev = idx;
            if self.entries[i].due == date && self.entries[i].account == *account {
                r.push(self.entries[i].task.clone());
                proof {
                    idx = idx.push(i as int);
                    assert(idx[idx.len() - 1] == i);
                }
            }
            proof {
                assert forall|j: int| 0 <= j < i + 1 && (#[trigger] es[j]).due == date && es[j].account@ == account@ implies exists|m: int|
                    0 <= m < idx.len() && idx[m] == j by {
                    if j < i {
                        let m = choose|m: int| 0 <= m < prev.len() && prev[m] == j;
                        assert(idx[m] == j);
                    } else {
                        assert(idx[idx.len() - 1] == j);
                    }
                }
            }
            i = i + 1;
        }
        proof {
            lemma_entry_map(es);
            assert forall|a: int, b: int| 0 <= a < b < r@.len() implies text_lt(#[trigger] r@[a]@, #[trigger] r@[b]@) by {
                assert(idx[a] < idx[b]);
                assert(key_lt(es[idx[a]].key(), es[idx[b]].key()));
                lemma_text_order(account@, account@, account@);
            }
            assert forall|m: int| 0 <= m < r@.len() implies
                #[trigger] self@.contains_key((account@, #[trigger] r@[m]@)) && self@[(account@, r@[m]@)] == date by {
                let t = r@[m]@;
                let j = idx[m];
                assert(es[j].key() == (account@, t));
                assert(self@[es[j].key()] == es[j].due);
            }
            assert forall|k: (Seq<char>, Seq<char>)| #[trigger] self@.contains_key(k) && k.0 == account@ && self@[k] == date implies
                exists|m: int| 0 <= m < r@.len() && #[trigger] r@[m]@ == k.1 by {
                let t = k.1;
                let j = choose|j: int| 0 <= j < es.len() && es[j].key() == k;
                assert(self@[es[j].key()] == es[j].due);
                let m = choose|m: int| 0 <= m < idx.len() && idx[m] == j;
                assert(r@[m]@ == t);
            }
        }
        r
    }

    /// Records that `account` did `task` on `today`: the entry's next due
    /// date becomes `today` plus the task's current interval, whatever it
    /// was before. `None`, with the schedule unchanged, where the catalog
    /// lacks the task or the date would pass the last day number.
    pub fn complete(&mut self, catalog: &Catalog, account: &String, task: &String, today: Date) -> (r:
        Option<Date>)
        requires
            old(self).wf(),
            catalog.wf(),
            old(self)@.contains_key((account@, task@)),
        ensures
            final(self).wf(),
            ({
                let iv = catalog.intervals();
                if iv.contains_key(task@) && today.days + iv[task@] <= i32::MAX {
                    let next = Date { days: (today.days + iv[task@]) as i32 };
                    &&& r == Some(next)
                    &&& final(self)@ == old(self)@.insert((account@, task@), next)
                } else {
                    &&& r.is_none()
                    &&& final(self)@ == old(self)@
                }
            }),
    {
        match catalog.interval_of(task) {
            Some(d) => match today.add_days(d) {
                Some(next) => {
                    self.set_due(account.clone(), task.clone(), next);
                    Some(next)
                },
                None => None,
            },
            None => None,
        }
    }
}

} // verus!
