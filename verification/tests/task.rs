use rustask::task::{
    display_diff, now_deadline, parse_deadline, Deadline, DeadlineParseError, Priority,
    TaskBuilder,
};

#[test]
fn urgent_filter() {
    let task = TaskBuilder::new("task".to_string())
        .priority(Priority::Urgent)
        .build();
    assert_eq!(task.select(), true);
}

#[test]
fn high_filter() {
    let task = TaskBuilder::new("task".to_string())
        .priority(Priority::High)
        .build();
    assert_eq!(task.select(), true);
}

#[test]
fn priority_tokens_parse_case_insensitively() {
    assert_eq!(Priority::parse("urgent"), Ok(Priority::Urgent));
    assert_eq!(Priority::parse("URGENT"), Ok(Priority::Urgent));
    assert_eq!(Priority::parse("High"), Ok(Priority::High));
    assert_eq!(Priority::parse("normal"), Ok(Priority::Normal));
    assert_eq!(Priority::parse("lOw"), Ok(Priority::Low));
    assert_eq!(Priority::parse("NOTE"), Ok(Priority::Note));
}

#[test]
fn unknown_priority_token_is_invalid() {
    assert!(Priority::parse("banana").is_err());
    assert!(Priority::parse("").is_err());
    assert!(Priority::parse("urgently").is_err());
}

#[test]
fn urgency_without_deadline_is_zero() {
    let task = TaskBuilder::new("task".to_string()).build();
    let now = Deadline { secs: 1_000_000 };
    assert_eq!(task.urgency(&now), 0);
}

#[test]
fn urgency_at_and_after_deadline_is_full() {
    let now = Deadline { secs: 1_000_000 };
    let due_now = TaskBuilder::new("task".to_string())
        .deadline(Deadline { secs: 1_000_000 })
        .build();
    assert_eq!(due_now.urgency(&now), 10080);
    let overdue = TaskBuilder::new("task".to_string())
        .deadline(Deadline { secs: 999_000 })
        .build();
    assert_eq!(overdue.urgency(&now), 10080);
}

#[test]
fn urgency_one_week_out_is_zero() {
    let now = Deadline { secs: 0 };
    let week = TaskBuilder::new("task".to_string())
        .deadline(Deadline { secs: 7 * 24 * 60 * 60 })
        .build();
    assert_eq!(week.urgency(&now), 0);
    let beyond = TaskBuilder::new("task".to_string())
        .deadline(Deadline {
            secs: 30 * 24 * 60 * 60,
        })
        .build();
    assert_eq!(beyond.urgency(&now), 0);
}

#[test]
fn urgency_ramps_by_whole_minutes() {
    let now = Deadline { secs: 0 };
    let hour_out = TaskBuilder::new("task".to_string())
        .deadline(Deadline { secs: 3600 })
        .build();
    assert_eq!(hour_out.urgency(&now), 10080 - 60);
    let day_out = TaskBuilder::new("task".to_string())
        .deadline(Deadline { secs: 24 * 60 * 60 })
        .build();
    assert_eq!(day_out.urgency(&now), 10080 - 1440);
}

#[test]
fn choose_with_always_selects_top_ranks() {
    let now = Deadline { secs: 0 };
    let urgent = TaskBuilder::new("task".to_string())
        .priority(Priority::Urgent)
        .build();
    let high = TaskBuilder::new("task".to_string())
        .priority(Priority::High)
        .build();
    assert!(urgent.choose_with(&now, 10079));
    assert!(high.choose_with(&now, 10079));
}

#[test]
fn choose_with_zero_draw_selects_everything() {
    let now = Deadline { secs: 0 };
    let note = TaskBuilder::new("task".to_string())
        .priority(Priority::Note)
        .build();
    let low = TaskBuilder::new("task".to_string())
        .priority(Priority::Low)
        .build();
    let plain = TaskBuilder::new("task".to_string()).build();
    assert!(note.choose_with(&now, 0));
    assert!(low.choose_with(&now, 0));
    assert!(plain.choose_with(&now, 0));
}

#[test]
fn choose_with_thresholds_are_exact() {
    let now = Deadline { secs: 0 };
    let normal = TaskBuilder::new("task".to_string())
        .priority(Priority::Normal)
        .build();
    assert!(normal.choose_with(&now, 3359));
    assert!(!normal.choose_with(&now, 3360));
    let low = TaskBuilder::new("task".to_string())
        .priority(Priority::Low)
        .build();
    assert!(low.choose_with(&now, 2015));
    assert!(!low.choose_with(&now, 2016));
    let note = TaskBuilder::new("task".to_string())
        .priority(Priority::Note)
        .build();
    assert!(note.choose_with(&now, 1259));
    assert!(!note.choose_with(&now, 1260));
}

#[test]
fn choose_with_adds_urgency_to_the_base() {
    let now = Deadline { secs: 0 };
    let overdue_note = TaskBuilder::new("task".to_string())
        .priority(Priority::Note)
        .deadline(Deadline { secs: -60 })
        .build();
    assert!(overdue_note.choose_with(&now, 10079));
    // Six days out: 1440 minutes of urgency on top of the base of 1260.
    let six_days_note = TaskBuilder::new("task".to_string())
        .priority(Priority::Note)
        .deadline(Deadline {
            secs: 6 * 24 * 60 * 60,
        })
        .build();
    assert!(six_days_note.choose_with(&now, 1260 + 1440 - 1));
    assert!(!six_days_note.choose_with(&now, 1260 + 1440));
    // An imminent deadline caps the threshold at certainty.
    let hour_note = TaskBuilder::new("task".to_string())
        .priority(Priority::Note)
        .deadline(Deadline { secs: 3600 })
        .build();
    assert!(hour_note.choose_with(&now, 10079));
}

#[test]
fn task_order_ranks_before_descriptions() {
    let a = TaskBuilder::new("zzz".to_string())
        .priority(Priority::Urgent)
        .build();
    let b = TaskBuilder::new("aaa".to_string())
        .priority(Priority::Note)
        .build();
    assert!(a.le(&b));
    assert!(!b.le(&a));
}

#[test]
fn task_order_breaks_ties_by_description() {
    let a = TaskBuilder::new("apple".to_string())
        .priority(Priority::Normal)
        .build();
    let b = TaskBuilder::new("banana".to_string())
        .priority(Priority::Normal)
        .build();
    assert!(a.le(&b));
    assert!(!b.le(&a));
    assert!(a.le(&a));
}

#[test]
fn absent_priority_orders_as_normal() {
    let bare = TaskBuilder::new("mmm".to_string()).build();
    let normal_a = TaskBuilder::new("aaa".to_string())
        .priority(Priority::Normal)
        .build();
    let normal_z = TaskBuilder::new("zzz".to_string())
        .priority(Priority::Normal)
        .build();
    let low = TaskBuilder::new("aaa".to_string())
        .priority(Priority::Low)
        .build();
    assert!(normal_a.le(&bare));
    assert!(bare.le(&normal_z));
    assert!(bare.le(&low));
    assert!(!low.le(&bare));
}

#[test]
fn deadlines_do_not_affect_order() {
    let near = TaskBuilder::new("bbb".to_string())
        .deadline(Deadline { secs: 10 })
        .build();
    let far = TaskBuilder::new("aaa".to_string())
        .deadline(Deadline { secs: 1_000_000_000 })
        .build();
    assert!(far.le(&near));
    assert!(!near.le(&far));
}

#[test]
fn deadline_accepts_date_and_datetime() {
    assert!(parse_deadline("2021-02-28").is_ok());
    assert!(parse_deadline("2021-02-28 23:59").is_ok());
    assert!(parse_deadline("2020-02-29").is_ok());
    assert!(parse_deadline("2000-02-29").is_ok());
}

#[test]
fn deadline_rejects_malformed_strings() {
    assert!(matches!(
        parse_deadline("soon"),
        Err(DeadlineParseError::ParseError { .. })
    ));
    assert!(matches!(
        parse_deadline("2021-2-8"),
        Err(DeadlineParseError::ParseError { .. })
    ));
    assert!(matches!(
        parse_deadline("2021-02-28T10:00"),
        Err(DeadlineParseError::ParseError { .. })
    ));
    assert!(matches!(
        parse_deadline(""),
        Err(DeadlineParseError::ParseError { .. })
    ));
}

#[test]
fn deadline_rejects_impossible_dates_and_times() {
    assert!(matches!(
        parse_deadline("2021-02-30"),
        Err(DeadlineParseError::ParseError { .. })
    ));
    assert!(matches!(
        parse_deadline("2021-13-01"),
        Err(DeadlineParseError::ParseError { .. })
    ));
    assert!(matches!(
        parse_deadline("2021-02-29"),
        Err(DeadlineParseError::ParseError { .. })
    ));
    assert!(matches!(
        parse_deadline("1900-02-29"),
        Err(DeadlineParseError::ParseError { .. })
    ));
    assert!(matches!(
        parse_deadline("2021-02-28 24:00"),
        Err(DeadlineParseError::ParseError { .. })
    ));
    assert!(matches!(
        parse_deadline("2021-02-28 23:60"),
        Err(DeadlineParseError::ParseError { .. })
    ));
    assert!(matches!(
        parse_deadline("2021-00-10"),
        Err(DeadlineParseError::ParseError { .. })
    ));
    assert!(matches!(
        parse_deadline("2021-01-00"),
        Err(DeadlineParseError::ParseError { .. })
    ));
}

#[test]
fn parsed_deadlines_order_with_the_calendar() {
    let earlier = parse_deadline("2021-03-01").unwrap();
    let later = parse_deadline("2021-03-02 08:30").unwrap();
    assert!(earlier.secs < later.secs);
}

#[test]
fn now_deadline_is_recent() {
    let a = now_deadline();
    let b = now_deadline();
    assert!(a.secs <= b.secs);
    assert!(a.secs > 1_500_000_000);
}

#[test]
fn relative_time_phrases() {
    assert_eq!(display_diff(0), "in moments");
    assert_eq!(display_diff(-1), "overdue by moments");
    assert_eq!(display_diff(15 * 60), "in moments");
    assert_eq!(display_diff(16 * 60), "in 16 minutes");
    assert_eq!(display_diff(3600), "in 1 hour");
    assert_eq!(display_diff(2 * 3600), "in 2 hours");
    assert_eq!(display_diff(24 * 3600), "in 1 day");
    assert_eq!(display_diff(-3 * 24 * 3600), "overdue by 3 days");
    assert_eq!(display_diff(8 * 24 * 3600), "in 1 week");
    assert_eq!(display_diff(15 * 24 * 3600), "in 2 weeks");
    assert_eq!(display_diff(-14 * 24 * 3600), "overdue by 2 weeks");
}
