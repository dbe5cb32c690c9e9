use schedule::{
    all_days, idx_to_day, string_to_day, to_string, DayOfWeek, List, SchedulerError, Task,
    TaskAttribute, TaskEntry, Time,
};

fn t(h: usize, m: usize) -> Time {
    Time::from_parts(h, m).unwrap()
}

fn day_of(list: &List, day: DayOfWeek) -> Vec<TaskEntry> {
    list.all_tasks().into_iter().filter(|e| e.0 == day).collect()
}

#[test]
fn later_added_earlier_time_comes_first() {
    let mut list = List::new();
    let a = list.add_task(DayOfWeek::Mon, "Task 1".to_string(), t(5, 45), "first".to_string());
    let b = list.add_task(DayOfWeek::Mon, "Task 2".to_string(), t(2, 45), "second".to_string());
    assert_eq!(a, 0);
    assert_eq!(b, 1);
    let mon = day_of(&list, DayOfWeek::Mon);
    assert_eq!(mon.len(), 2);
    assert_eq!(mon[0], (DayOfWeek::Mon, 1, "Task 2".to_string(), t(2, 45), "second".to_string()));
    assert_eq!(mon[1], (DayOfWeek::Mon, 0, "Task 1".to_string(), t(5, 45), "first".to_string()));
    assert_eq!(mon[0].3.to_string(), "02:45");
    assert_eq!(mon[1].3.to_string(), "05:45");
}

#[test]
fn remove_first_task_leaves_second() {
    let mut list = List::new();
    let a = list.add_task(DayOfWeek::Mon, "Task 1".to_string(), t(5, 45), "first".to_string());
    list.add_task(DayOfWeek::Mon, "Task 2".to_string(), t(2, 45), "second".to_string());
    assert!(list.remove_task(a));
    let mon = day_of(&list, DayOfWeek::Mon);
    assert_eq!(mon.len(), 1);
    assert_eq!(mon[0].2, "Task 2");
    assert_eq!(mon[0].1, 1);
}

#[test]
fn remove_by_identifier_one() {
    let mut list = List::new();
    list.add_task(DayOfWeek::Mon, "Task 1".to_string(), t(5, 45), "first".to_string());
    list.add_task(DayOfWeek::Mon, "Task 2".to_string(), t(2, 45), "second".to_string());
    assert!(list.remove_task(1));
    let mon = day_of(&list, DayOfWeek::Mon);
    assert_eq!(mon.len(), 1);
    assert_eq!(mon[0].1, 0);
    assert_eq!(mon[0].2, "Task 1");
}

#[test]
fn edit_time_repositions() {
    let mut list = List::new();
    let id = list.add_task(DayOfWeek::Tue, "Standup".to_string(), t(9, 0), "daily sync".to_string());
    assert_eq!(list.edit_task(id, TaskAttribute::Time, "09.30".to_string()), Ok(()));
    let tue = day_of(&list, DayOfWeek::Tue);
    assert_eq!(tue.len(), 1);
    assert_eq!(tue[0].1, id);
    assert_eq!(tue[0].3.to_string(), "09:30");
    let other = list.add_task(DayOfWeek::Tue, "Lunch".to_string(), t(12, 0), "".to_string());
    assert_eq!(list.edit_task(id, TaskAttribute::Time, "13.15".to_string()), Ok(()));
    let tue = day_of(&list, DayOfWeek::Tue);
    assert_eq!(tue.iter().map(|e| e.1).collect::<Vec<_>>(), vec![other, id]);
}

#[test]
fn parse_errors_and_success() {
    assert_eq!(Time::new("25.00".to_string()), Err(SchedulerError::InvalidTime));
    assert_eq!(Time::new("9-30".to_string()), Err(SchedulerError::InvalidTimeFormat));
    let ok = Time::new("9.30".to_string()).unwrap();
    assert_eq!(ok, t(9, 30));
    assert_eq!(ok.hour(), 9);
    assert_eq!(ok.minute(), 30);
}

#[test]
fn edit_day_moves_task() {
    let mut list = List::new();
    let early = list.add_task(DayOfWeek::Tue, "Early".to_string(), t(8, 0), "".to_string());
    let late = list.add_task(DayOfWeek::Tue, "Late".to_string(), t(18, 0), "".to_string());
    let id = list.add_task(DayOfWeek::Mon, "Gym".to_string(), t(10, 0), "legs".to_string());
    assert_eq!(list.edit_task(id, TaskAttribute::Day, "Tuesday".to_string()), Ok(()));
    assert!(day_of(&list, DayOfWeek::Mon).is_empty());
    let tue = day_of(&list, DayOfWeek::Tue);
    assert_eq!(tue.iter().map(|e| e.1).collect::<Vec<_>>(), vec![early, id, late]);
    assert_eq!(tue[1], (DayOfWeek::Tue, id, "Gym".to_string(), t(10, 0), "legs".to_string()));
    assert_eq!(list.get_task(id), Some((DayOfWeek::Tue, 1)));
    let next = list.add_task(DayOfWeek::Wed, "x".to_string(), t(1, 0), "".to_string());
    assert_eq!(next, 3);
}

#[test]
fn edit_unknown_id_on_empty_store() {
    let mut list = List::new();
    assert_eq!(
        list.edit_task(999, TaskAttribute::Title, "x".to_string()),
        Err(SchedulerError::NotFound)
    );
    assert!(list.all_tasks().is_empty());
    assert_eq!(list.add_task(DayOfWeek::Sun, "a".to_string(), t(0, 0), "".to_string()), 0);
}

#[test]
fn unknown_id_changes_nothing() {
    let mut list = List::new();
    list.add_task(DayOfWeek::Fri, "a".to_string(), t(7, 5), "d".to_string());
    list.add_task(DayOfWeek::Sat, "b".to_string(), t(6, 5), "e".to_string());
    let before = list.all_tasks();
    assert!(!list.remove_task(42));
    assert_eq!(list.edit_task(42, TaskAttribute::Day, "Monday".to_string()), Err(SchedulerError::NotFound));
    assert_eq!(list.edit_task(42, TaskAttribute::Time, "1.00".to_string()), Err(SchedulerError::NotFound));
    assert_eq!(list.edit_task(42, TaskAttribute::Desc, "z".to_string()), Err(SchedulerError::NotFound));
    assert_eq!(list.all_tasks(), before);
    assert_eq!(list.get_task(42), None);
}

#[test]
fn failed_edits_change_nothing() {
    let mut list = List::new();
    let id = list.add_task(DayOfWeek::Thu, "a".to_string(), t(7, 5), "d".to_string());
    let before = list.all_tasks();
    assert_eq!(list.edit_task(id, TaskAttribute::Time, "7:30".to_string()), Err(SchedulerError::InvalidTimeFormat));
    assert_eq!(list.edit_task(id, TaskAttribute::Time, "7.60".to_string()), Err(SchedulerError::InvalidTime));
    assert_eq!(list.edit_task(id, TaskAttribute::Day, "Thursdayy".to_string()), Err(SchedulerError::UnresolvedDay));
    assert_eq!(list.edit_task(id, TaskAttribute::Day, "thursday".to_string()), Err(SchedulerError::UnresolvedDay));
    assert_eq!(list.all_tasks(), before);
}

#[test]
fn edit_title_and_description_in_place() {
    let mut list = List::new();
    let a = list.add_task(DayOfWeek::Wed, "a".to_string(), t(1, 0), "x".to_string());
    let b = list.add_task(DayOfWeek::Wed, "b".to_string(), t(2, 0), "y".to_string());
    assert_eq!(list.edit_task(a, TaskAttribute::Title, "alpha".to_string()), Ok(()));
    assert_eq!(list.edit_task(b, TaskAttribute::Desc, "why".to_string()), Ok(()));
    let wed = day_of(&list, DayOfWeek::Wed);
    assert_eq!(wed[0], (DayOfWeek::Wed, a, "alpha".to_string(), t(1, 0), "x".to_string()));
    assert_eq!(wed[1], (DayOfWeek::Wed, b, "b".to_string(), t(2, 0), "why".to_string()));
}

#[test]
fn equal_times_keep_insertion_order() {
    let mut list = List::new();
    let a = list.add_task(DayOfWeek::Mon, "a".to_string(), t(9, 0), "".to_string());
    let b = list.add_task(DayOfWeek::Mon, "b".to_string(), t(9, 0), "".to_string());
    let c = list.add_task(DayOfWeek::Mon, "c".to_string(), t(8, 0), "".to_string());
    let d = list.add_task(DayOfWeek::Mon, "d".to_string(), t(9, 0), "".to_string());
    let ids: Vec<usize> = day_of(&list, DayOfWeek::Mon).iter().map(|e| e.1).collect();
    assert_eq!(ids, vec![c, a, b, d]);
    assert_eq!(list.edit_task(b, TaskAttribute::Title, "bee".to_string()), Ok(()));
    assert_eq!(list.edit_task(a, TaskAttribute::Time, "9.00".to_string()), Ok(()));
    let ids: Vec<usize> = day_of(&list, DayOfWeek::Mon).iter().map(|e| e.1).collect();
    assert_eq!(ids, vec![c, a, b, d]);
}

#[test]
fn every_add_keeps_day_sorted_and_ids_unique() {
    let mut list = List::new();
    let mut seen = Vec::new();
    for k in 0..60usize {
        let day = idx_to_day(k % 7).unwrap();
        let time = t((k * 7) % 24, (k * 13) % 60);
        let id = list.add_task(day, format!("task {}", k), time, String::new());
        assert!(!seen.contains(&id));
        seen.push(id);
        let entries = day_of(&list, day);
        for w in entries.windows(2) {
            assert!(w[0].3 <= w[1].3);
        }
    }
    let mut ids: Vec<usize> = list.all_tasks().iter().map(|e| e.1).collect();
    ids.sort();
    ids.dedup();
    assert_eq!(ids.len(), 60);
}

#[test]
fn removal_keeps_order_of_the_rest() {
    let mut list = List::new();
    let ids: Vec<usize> = (0..5usize)
        .map(|k| list.add_task(DayOfWeek::Fri, k.to_string(), t(10 - k, 0), String::new()))
        .collect();
    assert!(list.remove_task(ids[2]));
    let left: Vec<usize> = day_of(&list, DayOfWeek::Fri).iter().map(|e| e.1).collect();
    assert_eq!(left, vec![ids[4], ids[3], ids[1], ids[0]]);
    assert!(!list.remove_task(ids[2]));
}

#[test]
fn all_tasks_lists_days_in_week_order() {
    let mut list = List::default();
    list.add_task(DayOfWeek::Sun, "sun".to_string(), t(1, 0), String::new());
    list.add_task(DayOfWeek::Mon, "mon".to_string(), t(23, 0), String::new());
    list.add_task(DayOfWeek::Wed, "wed".to_string(), t(0, 0), String::new());
    let days: Vec<DayOfWeek> = list.all_tasks().iter().map(|e| e.0).collect();
    assert_eq!(days, vec![DayOfWeek::Mon, DayOfWeek::Wed, DayOfWeek::Sun]);
}

#[test]
fn round_trip_every_time() {
    for h in 0..24usize {
        for m in 0..60usize {
            let time = t(h, m);
            let text = time.to_string().replace(':', ".");
            assert_eq!(Time::new(text), Ok(time));
        }
    }
}

#[test]
fn time_parse_edge_cases() {
    assert_eq!(Time::new("".to_string()), Err(SchedulerError::InvalidTimeFormat));
    assert_eq!(Time::new("930".to_string()), Err(SchedulerError::InvalidTimeFormat));
    assert_eq!(Time::new("1.2.3".to_string()), Err(SchedulerError::InvalidTimeFormat));
    assert_eq!(Time::new(".".to_string()), Err(SchedulerError::InvalidTime));
    assert_eq!(Time::new("9.".to_string()), Err(SchedulerError::InvalidTime));
    assert_eq!(Time::new("a.30".to_string()), Err(SchedulerError::InvalidTime));
    assert_eq!(Time::new("-1.30".to_string()), Err(SchedulerError::InvalidTime));
    assert_eq!(Time::new(" 9.30".to_string()), Err(SchedulerError::InvalidTime));
    assert_eq!(Time::new("24.00".to_string()), Err(SchedulerError::InvalidTime));
    assert_eq!(Time::new("23.60".to_string()), Err(SchedulerError::InvalidTime));
    assert_eq!(Time::new("99999999999999999999999.00".to_string()), Err(SchedulerError::InvalidTime));
    assert_eq!(Time::new("23.59".to_string()), Ok(t(23, 59)));
    assert_eq!(Time::new("0.0".to_string()), Ok(t(0, 0)));
    assert_eq!(Time::new("+5.07".to_string()), Ok(t(5, 7)));
    assert_eq!(Time::new("5.7".to_string()), Ok(t(5, 7)));
    assert_eq!(Time::new("0009.030".to_string()), Ok(t(9, 30)));
}

#[test]
fn time_render_and_order() {
    assert_eq!(t(5, 7).to_string(), "05:07");
    assert_eq!(t(23, 59).to_string(), "23:59");
    assert_eq!(t(0, 0).to_string(), "00:00");
    assert!(t(2, 59).at_or_before(&t(3, 0)));
    assert!(t(3, 0).at_or_before(&t(3, 0)));
    assert!(!t(3, 1).at_or_before(&t(3, 0)));
    assert_eq!(Time::from_parts(24, 0), Err(SchedulerError::InvalidTime));
    assert_eq!(Time::from_parts(0, 60), Err(SchedulerError::InvalidTime));
}

#[test]
fn day_names_and_order() {
    let names = ["Monday", "Tuesday", "Wednesday", "Thursday", "Friday", "Saturday", "Sunday"];
    let days = all_days();
    assert_eq!(days.len(), 7);
    for (k, day) in days.iter().enumerate() {
        assert_eq!(day.to_string(), names[k]);
        assert_eq!(to_string(*day), names[k]);
        assert_eq!(string_to_day(names[k].to_string()), Some(*day));
        assert_eq!(idx_to_day(k), Some(*day));
        assert_eq!(day.ordinal() as usize, k);
    }
    assert_eq!(idx_to_day(7), None);
    assert_eq!(string_to_day("Mon".to_string()), None);
    assert_eq!(string_to_day("".to_string()), None);
}

#[test]
fn task_field_edits() {
    let mut task = Task {
        id: 3,
        day: DayOfWeek::Sat,
        title: "a".to_string(),
        time: t(1, 2),
        desc: "b".to_string(),
    };
    task.edit_title("title".to_string());
    task.edit_desc("desc".to_string());
    task.edit_time(t(4, 5));
    assert_eq!(task.title, "title");
    assert_eq!(task.desc, "desc");
    assert_eq!(task.time, t(4, 5));
    assert_eq!(task.id, 3);
    assert_eq!(task.day, DayOfWeek::Sat);
}
