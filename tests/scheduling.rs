use ctask::account::account_id;
use ctask::catalog::Catalog;
use ctask::date::Date;
use ctask::jitter::{RandomJitter, ScriptedJitter};
use ctask::order::compare_text;
use ctask::reconcile::{reconcile, ReconcileError};
use ctask::schedule::Schedule;

fn s(x: &str) -> String {
    x.to_string()
}

fn day(text: &str) -> Date {
    Date::parse(text).expect("a valid date")
}

fn catalog(total: i32, tasks: &[(&str, u32)]) -> Catalog {
    let mut c = Catalog::new(total);
    for (name, interval) in tasks {
        c.set_interval(s(name), *interval);
    }
    c
}

#[test]
fn account_ids_are_zero_padded() {
    assert_eq!(account_id(1), "001");
    assert_eq!(account_id(42), "042");
    assert_eq!(account_id(100), "100");
    assert_eq!(account_id(1234), "1234");
    assert_eq!(account_id(0), "000");
}

#[test]
fn names_compare_by_bytes() {
    assert!(compare_text(&s("001"), &s("002")) < 0);
    assert!(compare_text(&s("b"), &s("a")) > 0);
    assert_eq!(compare_text(&s("water"), &s("water")), 0);
    assert!(compare_text(&s("wat"), &s("water")) < 0);
    assert!(compare_text(&s(""), &s("a")) < 0);
}

#[test]
fn dates_read_and_write_as_year_month_day() {
    let d = day("2024-01-05");
    assert_eq!(d.text(), Some(s("2024-01-05")));
    assert_eq!(day("0001-01-01").days, 1);
    assert_eq!(Date::parse("2024-13-01"), None);
    assert_eq!(Date::parse("water"), None);
    let next = d.add_days(3).unwrap();
    assert_eq!(next.text(), Some(s("2024-01-08")));
    assert_eq!(day("2024-02-28").add_days(1).unwrap().text(), Some(s("2024-02-29")));
    assert_eq!(Date { days: i32::MAX }.add_days(1), None);
    assert_eq!(Date { days: i32::MAX }.text(), None);
}

#[test]
fn catalog_sets_and_reads_intervals() {
    let mut c = catalog(2, &[("water", 3), ("feed", 1)]);
    assert_eq!(c.interval_of(&s("water")), Some(3));
    assert_eq!(c.interval_of(&s("feed")), Some(1));
    assert_eq!(c.interval_of(&s("walk")), None);
    c.set_interval(s("water"), 0);
    assert_eq!(c.interval_of(&s("water")), Some(0));
    assert_eq!(c.tasks.len(), 2);
}

#[test]
fn schedule_keeps_one_date_per_pair() {
    let mut sch = Schedule::new();
    sch.set_due(s("002"), s("water"), Date { days: 10 });
    sch.set_due(s("001"), s("water"), Date { days: 11 });
    sch.set_due(s("001"), s("feed"), Date { days: 10 });
    sch.set_due(s("001"), s("water"), Date { days: 10 });
    assert_eq!(sch.entries.len(), 3);
    assert_eq!(sch.due_of(&s("001"), &s("water")), Some(Date { days: 10 }));
    assert_eq!(sch.due_of(&s("003"), &s("water")), None);
    let order: Vec<(String, String)> =
        sch.entries.iter().map(|e| (e.account.clone(), e.task.clone())).collect();
    assert_eq!(
        order,
        vec![(s("001"), s("feed")), (s("001"), s("water")), (s("002"), s("water"))]
    );
}

#[test]
fn due_selection_is_sorted_and_exact() {
    let mut sch = Schedule::new();
    sch.set_due(s("003"), s("water"), Date { days: 5 });
    sch.set_due(s("001"), s("water"), Date { days: 5 });
    sch.set_due(s("001"), s("feed"), Date { days: 5 });
    sch.set_due(s("002"), s("water"), Date { days: 6 });
    sch.set_due(s("001"), s("walk"), Date { days: 7 });
    assert_eq!(sch.accounts_due(Date { days: 5 }), vec![s("001"), s("003")]);
    assert_eq!(sch.accounts_due(Date { days: 6 }), vec![s("002")]);
    assert!(sch.accounts_due(Date { days: 8 }).is_empty());
    assert_eq!(sch.tasks_due(&s("001"), Date { days: 5 }), vec![s("feed"), s("water")]);
    assert!(sch.tasks_due(&s("002"), Date { days: 5 }).is_empty());
}

#[test]
fn reconcile_fills_empty_schedule() {
    let c = catalog(2, &[("water", 3)]);
    let today = day("2024-01-01");
    let mut sch = Schedule::new();
    assert_eq!(reconcile(&mut sch, &c, today, &mut RandomJitter), Ok(()));
    assert_eq!(sch.entries.len(), 2);
    for acc in ["001", "002"] {
        let due = sch.due_of(&s(acc), &s("water")).unwrap();
        assert!(due.days >= today.days && due.days < today.days + 3);
    }
}

#[test]
fn reconcile_uses_scripted_offsets() {
    let c = catalog(2, &[("water", 3)]);
    let today = Date { days: 100 };
    let mut sch = Schedule::new();
    let mut j = ScriptedJitter::new(vec![2, 4]);
    reconcile(&mut sch, &c, today, &mut j).unwrap();
    assert_eq!(sch.due_of(&s("001"), &s("water")), Some(Date { days: 102 }));
    assert_eq!(sch.due_of(&s("002"), &s("water")), Some(Date { days: 101 }));
    assert_eq!(j.next, 2);
}

#[test]
fn reconcile_daily_task_is_due_today_without_a_draw() {
    let c = catalog(3, &[("feed", 1)]);
    let today = Date { days: 500 };
    let mut sch = Schedule::new();
    let mut j = ScriptedJitter::new(vec![7, 7, 7]);
    reconcile(&mut sch, &c, today, &mut j).unwrap();
    for acc in ["001", "002", "003"] {
        assert_eq!(sch.due_of(&s(acc), &s("feed")), Some(today));
    }
    assert_eq!(j.next, 0);
}

#[test]
fn reconcile_twice_changes_nothing() {
    let c = catalog(3, &[("water", 5), ("feed", 1), ("walk", 2)]);
    let today = Date { days: 1000 };
    let mut sch = Schedule::new();
    reconcile(&mut sch, &c, today, &mut RandomJitter).unwrap();
    let first: Vec<(String, String, i32)> =
        sch.entries.iter().map(|e| (e.account.clone(), e.task.clone(), e.due.days)).collect();
    reconcile(&mut sch, &c, today, &mut RandomJitter).unwrap();
    let second: Vec<(String, String, i32)> =
        sch.entries.iter().map(|e| (e.account.clone(), e.task.clone(), e.due.days)).collect();
    assert_eq!(first, second);
    assert_eq!(first.len(), 9);
}

#[test]
fn reconcile_covers_every_account_and_active_task() {
    let c = catalog(4, &[("water", 3), ("retired", 0), ("feed", 1)]);
    let mut sch = Schedule::new();
    reconcile(&mut sch, &c, Date { days: 10 }, &mut RandomJitter).unwrap();
    for n in 1..=4u32 {
        assert!(sch.due_of(&account_id(n), &s("water")).is_some());
        assert!(sch.due_of(&account_id(n), &s("feed")).is_some());
        assert!(sch.due_of(&account_id(n), &s("retired")).is_none());
    }
    assert_eq!(sch.entries.len(), 8);
}

#[test]
fn reconcile_prunes_removed_tasks() {
    let mut sch = Schedule::new();
    sch.set_due(s("001"), s("water"), Date { days: 3 });
    sch.set_due(s("001"), s("gone"), Date { days: 3 });
    sch.set_due(s("009"), s("gone"), Date { days: 4 });
    let c = catalog(1, &[("water", 3)]);
    reconcile(&mut sch, &c, Date { days: 3 }, &mut RandomJitter).unwrap();
    assert_eq!(sch.due_of(&s("001"), &s("gone")), None);
    assert_eq!(sch.due_of(&s("009"), &s("gone")), None);
    assert_eq!(sch.due_of(&s("001"), &s("water")), Some(Date { days: 3 }));
    assert_eq!(sch.entries.len(), 1);
}

#[test]
fn reconcile_zero_interval_removes_task_only() {
    let mut sch = Schedule::new();
    sch.set_due(s("001"), s("water"), Date { days: 20 });
    sch.set_due(s("001"), s("feed"), Date { days: 21 });
    sch.set_due(s("005"), s("water"), Date { days: 22 });
    let c = catalog(1, &[("water", 0), ("feed", 4)]);
    reconcile(&mut sch, &c, Date { days: 20 }, &mut RandomJitter).unwrap();
    assert_eq!(sch.due_of(&s("001"), &s("water")), None);
    assert_eq!(sch.due_of(&s("005"), &s("water")), None);
    assert_eq!(sch.due_of(&s("001"), &s("feed")), Some(Date { days: 21 }));
    assert_eq!(sch.entries.len(), 1);
}

#[test]
fn reconcile_keeps_existing_entries_and_stale_accounts() {
    let mut sch = Schedule::new();
    sch.set_due(s("001"), s("water"), Date { days: 1 });
    sch.set_due(s("007"), s("water"), Date { days: 2 });
    let c = catalog(2, &[("water", 3)]);
    let mut j = ScriptedJitter::new(vec![1]);
    reconcile(&mut sch, &c, Date { days: 50 }, &mut j).unwrap();
    assert_eq!(sch.due_of(&s("001"), &s("water")), Some(Date { days: 1 }));
    assert_eq!(sch.due_of(&s("002"), &s("water")), Some(Date { days: 51 }));
    assert_eq!(sch.due_of(&s("007"), &s("water")), Some(Date { days: 2 }));
}

#[test]
fn reconcile_with_no_accounts_creates_nothing() {
    for total in [0, -3] {
        let c = catalog(total, &[("water", 3)]);
        let mut sch = Schedule::new();
        reconcile(&mut sch, &c, Date { days: 50 }, &mut RandomJitter).unwrap();
        assert!(sch.entries.is_empty());
    }
}

#[test]
fn reconcile_refuses_intervals_past_the_last_day() {
    let c = catalog(1, &[("water", 3)]);
    let mut sch = Schedule::new();
    sch.set_due(s("001"), s("gone"), Date { days: 3 });
    let today = Date { days: i32::MAX - 1 };
    assert_eq!(
        reconcile(&mut sch, &c, today, &mut RandomJitter),
        Err(ReconcileError::DateOutOfRange)
    );
    assert_eq!(sch.due_of(&s("001"), &s("gone")), Some(Date { days: 3 }));
    let edge = Date { days: i32::MAX - 2 };
    assert_eq!(reconcile(&mut sch, &c, edge, &mut RandomJitter), Ok(()));
}

#[test]
fn complete_moves_due_date_from_today() {
    let c = catalog(1, &[("water", 3)]);
    let mut sch = Schedule::new();
    sch.set_due(s("001"), s("water"), day("2024-01-01"));
    let next = sch.complete(&c, &s("001"), &s("water"), day("2024-01-05")).unwrap();
    assert_eq!(next.text(), Some(s("2024-01-08")));
    assert_eq!(sch.due_of(&s("001"), &s("water")), Some(next));
}

#[test]
fn complete_ignores_previous_due_date() {
    let c = catalog(1, &[("water", 7)]);
    let mut a = Schedule::new();
    a.set_due(s("001"), s("water"), Date { days: 3 });
    let mut b = Schedule::new();
    b.set_due(s("001"), s("water"), Date { days: 90 });
    let today = Date { days: 40 };
    assert_eq!(a.complete(&c, &s("001"), &s("water"), today), Some(Date { days: 47 }));
    assert_eq!(b.complete(&c, &s("001"), &s("water"), today), Some(Date { days: 47 }));
}

#[test]
fn complete_fails_without_interval_or_room() {
    let c = catalog(1, &[("water", 3)]);
    let mut sch = Schedule::new();
    sch.set_due(s("001"), s("feed"), Date { days: 3 });
    sch.set_due(s("001"), s("water"), Date { days: 3 });
    assert_eq!(sch.complete(&c, &s("001"), &s("feed"), Date { days: 5 }), None);
    assert_eq!(sch.due_of(&s("001"), &s("feed")), Some(Date { days: 3 }));
    assert_eq!(sch.complete(&c, &s("001"), &s("water"), Date { days: i32::MAX - 1 }), None);
    assert_eq!(sch.due_of(&s("001"), &s("water")), Some(Date { days: 3 }));
}

#[test]
fn scenario_water_every_three_days_for_two_accounts() {
    let c = catalog(2, &[("water", 3)]);
    let today = day("2024-03-10");
    let mut sch = Schedule::new();
    reconcile(&mut sch, &c, today, &mut RandomJitter).unwrap();
    let accounts: Vec<String> = sch.entries.iter().map(|e| e.account.clone()).collect();
    assert_eq!(accounts, vec![s("001"), s("002")]);
    for e in sch.entries.iter() {
        assert_eq!(e.task, "water");
        assert!(e.due.days >= today.days && e.due.days < today.days + 3);
    }
}

#[test]
fn scenario_retiring_water_leaves_other_tasks() {
    let mut sch = Schedule::new();
    sch.set_due(s("001"), s("water"), Date { days: 30 });
    sch.set_due(s("001"), s("feed"), Date { days: 31 });
    let mut c = catalog(1, &[("water", 3), ("feed", 2)]);
    reconcile(&mut sch, &c, Date { days: 30 }, &mut RandomJitter).unwrap();
    assert_eq!(sch.entries.len(), 2);
    c.set_interval(s("water"), 0);
    reconcile(&mut sch, &c, Date { days: 30 }, &mut RandomJitter).unwrap();
    assert_eq!(sch.due_of(&s("001"), &s("water")), None);
    assert_eq!(sch.due_of(&s("001"), &s("feed")), Some(Date { days: 31 }));
}

#[test]
fn remove_drops_only_the_named_entry() {
    let mut sch = Schedule::new();
    sch.set_due(s("001"), s("water"), Date { days: 1 });
    sch.set_due(s("001"), s("feed"), Date { days: 2 });
    sch.set_due(s("002"), s("water"), Date { days: 3 });
    sch.remove(&s("001"), &s("water"));
    sch.remove(&s("003"), &s("water"));
    assert_eq!(sch.due_of(&s("001"), &s("water")), None);
    assert_eq!(sch.due_of(&s("001"), &s("feed")), Some(Date { days: 2 }));
    assert_eq!(sch.due_of(&s("002"), &s("water")), Some(Date { days: 3 }));
    assert_eq!(sch.entries.len(), 2);
}
