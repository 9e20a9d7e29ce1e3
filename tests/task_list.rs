use todolist::{
    check, delete, edit, extract_task, fill, get_file_path, get_name_path, get_path, load,
    parse_i32, partition_file_name, ret_last_task_id, ret_name, ret_name_loop, save_tasks,
    to_datetime, trim_text, DateTimeOption, NameSource, NameStep, Stamp, Task, TaskError,
    TaskStatus, Tasks, WallTime,
};

fn stamp(year: i32, month: u32, day: u32, hour: u32, minute: u32, second: u32, offset: i32) -> Stamp {
    Stamp { local: WallTime { year, month, day, hour, minute, second }, offset }
}

fn sample_task(id: i32, name: &str) -> Task {
    let created = stamp(2024, 1, 5, 9, 8, 7, 3600);
    Task {
        time_created: created,
        last_time_modified: stamp(2024, 2, 29, 23, 59, 59, 3600),
        time_finished: DateTimeOption::Unset,
        name: name.to_string(),
        id,
        status: TaskStatus::Active,
    }
}

fn assert_same_task(a: &Task, b: &Task) {
    assert_eq!(a.id, b.id);
    assert_eq!(a.name, b.name);
    assert_eq!(a.status, b.status);
    assert_eq!(a.time_created, b.time_created);
    assert_eq!(a.last_time_modified, b.last_time_modified);
    assert_eq!(a.time_finished, b.time_finished);
}

#[test]
fn show_writes_the_record_line() {
    let t = sample_task(1, "buy milk");
    assert_eq!(
        t.show(),
        "{ Task ID: 1, Name: buy milk, Status: Active, Created: 2024/01/05 09:08:07, Last Modified: 2024/02/29 23:59:59, Finished: Not completed }"
    );
}

#[test]
fn round_trip_of_an_active_task() {
    let t = sample_task(7, "write report");
    let back = Task::from_str(&t.show(), 3600).unwrap();
    assert_same_task(&t, &back);
}

#[test]
fn round_trip_of_a_completed_task_with_odd_name() {
    let mut t = sample_task(-12, "a,b }{ c");
    t.status = TaskStatus::Completed;
    t.time_finished = DateTimeOption::DateTime(stamp(999, 12, 31, 0, 0, 0, -18000));
    t.time_created = stamp(999, 1, 1, 1, 1, 1, -18000);
    t.last_time_modified = stamp(2000, 2, 29, 12, 0, 0, -18000);
    let line = t.show();
    assert!(line.contains("Finished: 0999/12/31 00:00:00"));
    let back = Task::from_str(&line, -18000).unwrap();
    assert_same_task(&t, &back);
}

#[test]
fn reading_takes_the_given_offset() {
    let t = sample_task(3, "x");
    let back = Task::from_str(&t.show(), 7200).unwrap();
    assert_eq!(back.time_created.offset, 7200);
    assert_eq!(back.time_created.local, t.time_created.local);
}

#[test]
fn missing_name_field_is_malformed() {
    let line = "{ Task ID: 1, Status: Active, Created: 2024/01/05 09:08:07, Last Modified: 2024/01/05 09:08:07, Finished: Not completed }";
    assert!(matches!(Task::from_str(line, 0), Err(TaskError::MalformedRecord)));
}

#[test]
fn bad_id_or_timestamp_is_malformed() {
    let bad_id = "{ Task ID: one, Name: a, Status: Active, Created: 2024/01/05 09:08:07, Last Modified: 2024/01/05 09:08:07, Finished: Not completed }";
    assert!(matches!(Task::from_str(bad_id, 0), Err(TaskError::MalformedRecord)));
    let bad_date = "{ Task ID: 1, Name: a, Status: Active, Created: yesterday, Last Modified: 2024/01/05 09:08:07, Finished: Not completed }";
    assert!(matches!(Task::from_str(bad_date, 0), Err(TaskError::MalformedRecord)));
    assert!(matches!(Task::from_str("", 0), Err(TaskError::MalformedRecord)));
    let name_with_separator = "{ Task ID: 1, Name: a, b, Status: Active, Created: 2024/01/05 09:08:07, Last Modified: 2024/01/05 09:08:07, Finished: Not completed }";
    assert!(matches!(Task::from_str(name_with_separator, 0), Err(TaskError::MalformedRecord)));
}

#[test]
fn unknown_status_reads_active_and_bad_finish_reads_unset() {
    let line = "{ Task ID: 4, Name: a, Status: Paused, Created: 2024/01/05 09:08:07, Last Modified: 2024/01/05 09:08:07, Finished: someday }";
    let t = Task::from_str(line, 0).unwrap();
    assert_eq!(t.status, TaskStatus::Active);
    assert_eq!(t.time_finished, DateTimeOption::Unset);
    assert_eq!(t.id, 4);
}

#[test]
fn status_text_both_ways() {
    assert_eq!(TaskStatus::Completed.show(), "Completed");
    assert_eq!(TaskStatus::from("Deleted"), TaskStatus::Deleted);
    assert_eq!(TaskStatus::from("Completed"), TaskStatus::Completed);
    assert_eq!(TaskStatus::from("Active"), TaskStatus::Active);
    assert_eq!(TaskStatus::from("other"), TaskStatus::Active);
}

#[test]
fn finish_time_text_both_ways() {
    assert_eq!(DateTimeOption::Unset.show(), "Not completed");
    let s = stamp(2023, 7, 4, 5, 6, 7, 0);
    assert_eq!(DateTimeOption::DateTime(s).show(), "2023/07/04 05:06:07");
    assert_eq!(DateTimeOption::from("Not completed", 0), DateTimeOption::Unset);
    assert_eq!(DateTimeOption::from("2023/07/04 05:06:07", 0), DateTimeOption::DateTime(s));
}

#[test]
fn timestamps_parse_and_reject() {
    assert_eq!(to_datetime("2024/02/29 23:59:59", 60), Some(stamp(2024, 2, 29, 23, 59, 59, 60)));
    assert_eq!(to_datetime("2023/02/29 10:00:00", 0), None);
    assert_eq!(to_datetime("not a date", 0), None);
    assert_eq!(stamp(5, 3, 4, 1, 2, 3, 0).show(), "0005/03/04 01:02:03");
}

#[test]
fn clock_gives_a_valid_time() {
    let now = Stamp::now();
    assert!((1..=12).contains(&now.local.month));
    assert!(now.local.hour < 24);
    assert!(now.offset.abs() < 86400);
}

#[test]
fn new_task_is_active_and_unfinished() {
    let t = Task::from_name_id("buy milk".to_string(), 9);
    assert_eq!(t.id, 9);
    assert_eq!(t.name, "buy milk");
    assert_eq!(t.status, TaskStatus::Active);
    assert_eq!(t.time_finished, DateTimeOption::Unset);
    assert_eq!(t.time_created, t.last_time_modified);
}

#[test]
fn set_renames_and_keeps_the_rest() {
    let mut t = sample_task(2, "old");
    let created = t.time_created;
    t.set("new".to_string());
    assert_eq!(t.name, "new");
    assert_eq!(t.time_created, created);
    assert_eq!(t.id, 2);
    let mut u = sample_task(2, "old");
    let at = stamp(2030, 3, 3, 3, 3, 3, 3600);
    u.set_at("renamed".to_string(), at);
    assert_eq!(u.last_time_modified, at);
    assert_eq!(u.name, "renamed");
}

#[test]
fn add_to_empty_store() {
    let mut tasks = Tasks::new();
    let id = tasks.add("buy milk".to_string());
    assert_eq!(id, 1);
    assert_eq!(tasks.active.len(), 1);
    assert_eq!(tasks.active[0].id, 1);
    assert_eq!(tasks.active[0].status, TaskStatus::Active);
    assert_eq!(tasks.active[0].time_finished, DateTimeOption::Unset);
    assert_eq!(tasks.active[0].name, "buy milk");
}

#[test]
fn complete_moves_the_task() {
    let mut tasks = Tasks::new();
    tasks.add("buy milk".to_string());
    let created = tasks.active[0].time_created;
    assert_eq!(tasks.complete(1), Ok(()));
    assert!(tasks.active.is_empty());
    assert_eq!(tasks.completed.len(), 1);
    let t = &tasks.completed[0];
    assert_eq!(t.id, 1);
    assert_eq!(t.status, TaskStatus::Completed);
    assert!(matches!(t.time_finished, DateTimeOption::DateTime(_)));
    assert_eq!(t.time_created, created);
    assert_eq!(t.name, "buy milk");
}

#[test]
fn check_finishes_at_the_given_time() {
    let mut tasks = Tasks::new();
    tasks.active.push(sample_task(5, "a"));
    tasks.active.push(sample_task(6, "b"));
    let at = stamp(2025, 5, 5, 5, 5, 5, 0);
    assert_eq!(check(&mut tasks, 6, at), Ok(()));
    assert_eq!(tasks.active.len(), 1);
    assert_eq!(tasks.active[0].id, 5);
    assert_eq!(tasks.completed[0].time_finished, DateTimeOption::DateTime(at));
}

#[test]
fn delete_moves_the_task_unfinished() {
    let mut tasks = Tasks::new();
    tasks.add("a".to_string());
    tasks.add("b".to_string());
    assert_eq!(delete(&mut tasks, 1), Ok(()));
    assert_eq!(tasks.active.len(), 1);
    assert_eq!(tasks.active[0].id, 2);
    assert!(tasks.active.iter().all(|t| t.id != 1));
    assert_eq!(tasks.deleted.len(), 1);
    assert_eq!(tasks.deleted[0].id, 1);
    assert_eq!(tasks.deleted[0].status, TaskStatus::Deleted);
    assert_eq!(tasks.deleted[0].time_finished, DateTimeOption::Unset);
    assert!(tasks.completed.is_empty());
}

#[test]
fn missing_id_is_not_found_and_changes_nothing() {
    let mut tasks = Tasks::new();
    tasks.add("a".to_string());
    assert_eq!(extract_task(&tasks.active, 42), Err(TaskError::NotFound));
    assert_eq!(tasks.complete(42), Err(TaskError::NotFound));
    assert_eq!(delete(&mut tasks, 42), Err(TaskError::NotFound));
    assert_eq!(tasks.rename(42, "z".to_string()), Err(TaskError::NotFound));
    assert_eq!(tasks.active.len(), 1);
    assert_eq!(tasks.active[0].name, "a");
    assert!(tasks.completed.is_empty());
    assert!(tasks.deleted.is_empty());
}

#[test]
fn ids_stay_unique_and_below_next_id() {
    let mut tasks = Tasks::new();
    for name in ["a", "b", "c", "d"] {
        tasks.add(name.to_string());
    }
    check(&mut tasks, 2, stamp(2024, 1, 1, 0, 0, 0, 0)).unwrap();
    delete(&mut tasks, 4).unwrap();
    let e = tasks.add("e".to_string());
    assert_eq!(e, 5);
    let mut ids: Vec<i32> = tasks
        .active
        .iter()
        .chain(tasks.completed.iter())
        .chain(tasks.deleted.iter())
        .map(|t| t.id)
        .collect();
    let next = tasks.next_id();
    assert!(ids.iter().all(|&i| (i as i64) < next));
    ids.sort();
    ids.dedup();
    assert_eq!(ids.len(), 5);
    assert_eq!(next, 6);
    assert_eq!(tasks.last_id(), 5);
}

#[test]
fn last_id_is_the_largest_not_the_latest() {
    let mut tasks = Tasks::new();
    assert_eq!(ret_last_task_id(&tasks), 0);
    assert_eq!(tasks.next_id(), 1);
    tasks.active.push(sample_task(3, "a"));
    tasks.completed.push(sample_task(8, "b"));
    tasks.active.push(sample_task(2, "c"));
    assert_eq!(ret_last_task_id(&tasks), 8);
    assert_eq!(tasks.next_id(), 9);
}

#[test]
fn edit_renames_the_first_match() {
    let mut active = vec![sample_task(1, "a"), sample_task(2, "b")];
    let at = stamp(2026, 6, 6, 6, 6, 6, 0);
    assert_eq!(edit(&mut active, 2, "bee".to_string(), at), Ok(()));
    assert_eq!(active[1].name, "bee");
    assert_eq!(active[1].last_time_modified, at);
    assert_eq!(active[0].name, "a");
    assert_eq!(extract_task(&active, 2), Ok(1));
}

#[test]
fn save_then_load_an_empty_store() {
    let tasks = Tasks::new();
    let a = save_tasks(&tasks.active);
    let c = save_tasks(&tasks.completed);
    let d = save_tasks(&tasks.deleted);
    assert_eq!(a, "");
    let mut loaded = Tasks::new();
    assert_eq!(load(&mut loaded, &a, &c, &d, 0), Ok(()));
    assert!(loaded.active.is_empty());
    assert!(loaded.completed.is_empty());
    assert!(loaded.deleted.is_empty());
}

#[test]
fn save_then_load_a_partition() {
    let list = vec![sample_task(1, "a"), sample_task(2, "b")];
    let text = save_tasks(&list);
    assert_eq!(text.lines().count(), 2);
    assert!(text.ends_with("}\n"));
    let back = fill(&text, 3600).unwrap();
    assert_eq!(back.len(), 2);
    assert_same_task(&back[0], &list[0]);
    assert_same_task(&back[1], &list[1]);
}

#[test]
fn blank_line_is_skipped() {
    let line = sample_task(1, "a").show();
    let text = format!("{}\n   \n", line);
    let back = fill(&text, 3600).unwrap();
    assert_eq!(back.len(), 1);
    assert_eq!(back[0].id, 1);
}

#[test]
fn partition_with_a_bad_line_fails_whole() {
    let good = sample_task(1, "a").show();
    let bad = "{ Task ID: 2, Status: Active, Created: 2024/01/05 09:08:07, Last Modified: 2024/01/05 09:08:07, Finished: Not completed }";
    let text = format!("{}\n{}\n", good, bad);
    assert_eq!(fill(&text, 0).err(), Some(TaskError::MalformedRecord));
    let mut tasks = Tasks::new();
    assert_eq!(load(&mut tasks, &text, "", "", 0), Err(TaskError::MalformedRecord));
    assert!(tasks.active.is_empty());
}

#[test]
fn load_appends_each_partition() {
    let mut t = sample_task(3, "done");
    t.status = TaskStatus::Completed;
    t.time_finished = DateTimeOption::DateTime(stamp(2024, 3, 1, 0, 0, 0, 3600));
    let completed = save_tasks(&vec![t]);
    let active = save_tasks(&vec![sample_task(4, "todo")]);
    let mut tasks = Tasks::new();
    assert_eq!(load(&mut tasks, &active, &completed, "", 3600), Ok(()));
    assert_eq!(tasks.active.len(), 1);
    assert_eq!(tasks.completed.len(), 1);
    assert_eq!(tasks.completed[0].status, TaskStatus::Completed);
    assert_eq!(tasks.next_id(), 5);
}

#[test]
fn integers_parse_like_std() {
    assert_eq!(parse_i32("42"), Some(42));
    assert_eq!(parse_i32("-7"), Some(-7));
    assert_eq!(parse_i32("+5"), Some(5));
    assert_eq!(parse_i32("2147483647"), Some(i32::MAX));
    assert_eq!(parse_i32("-2147483648"), Some(i32::MIN));
    assert_eq!(parse_i32("2147483648"), None);
    assert_eq!(parse_i32("99999999999999999999"), None);
    assert_eq!(parse_i32("4a"), None);
    assert_eq!(parse_i32("-"), None);
    assert_eq!(parse_i32(""), None);
}

#[test]
fn trimming_matches_std() {
    assert_eq!(trim_text("  a b \t\n"), "a b");
    assert_eq!(trim_text("\u{3000}x\u{a0}"), "x");
    assert_eq!(trim_text("   "), "");
}

#[test]
fn file_names_and_paths() {
    assert_eq!(partition_file_name(TaskStatus::Active), "Active.txt");
    assert_eq!(partition_file_name(TaskStatus::Completed), "Completed.txt");
    assert_eq!(partition_file_name(TaskStatus::Deleted), "Deleted.txt");
    assert_eq!(get_path(Some("/home/me")), "/home/me/data");
    assert_eq!(get_path(None), "C:\\todolist/data");
    assert_eq!(get_file_path("/d", "Active.txt"), "/d/Active.txt");
    assert_eq!(get_name_path("/d"), "/d/names.txt");
}

#[test]
fn name_source_and_retries() {
    assert_eq!(ret_name(true), NameSource::Stored);
    assert_eq!(ret_name(false), NameSource::AskNew);
    assert!(matches!(ret_name_loop(5, 0, None), NameStep::Retry));
    assert!(matches!(ret_name_loop(5, 4, None), NameStep::Retry));
    assert!(matches!(ret_name_loop(5, 5, None), NameStep::GiveUp));
    assert!(matches!(ret_name_loop(0, 0, None), NameStep::GiveUp));
    match ret_name_loop(5, 2, Some("Ada".to_string())) {
        NameStep::Done(n) => assert_eq!(n, "Ada"),
        _ => panic!("expected the name"),
    }
}
