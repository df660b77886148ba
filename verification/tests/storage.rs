use rustask::error::RustaskError;
use rustask::project::Project;
use rustask::storage::{load_tasks, store_tasks};
use rustask::task::{now_deadline, Priority, TaskBuilder};

#[test]
fn store_load() {
    let mut p = vec![
        Project::new("proj0".to_string()),
        Project::new("proj1".to_string()),
    ];

    p[0].push(
        TaskBuilder::new("urgent".to_string())
            .priority(Priority::Urgent)
            .build(),
    );
    p[0].push(
        TaskBuilder::new("high2".to_string())
            .priority(Priority::High)
            .deadline(now_deadline())
            .build(),
    );
    p[1].push(
        TaskBuilder::new("normal".to_string())
            .priority(Priority::Normal)
            .deadline(now_deadline())
            .build(),
    );
    p[1].push(
        TaskBuilder::new("low".to_string())
            .priority(Priority::Low)
            .deadline(now_deadline())
            .build(),
    );
    p[1].push(
        TaskBuilder::new("note".to_string())
            .priority(Priority::Note)
            .deadline(now_deadline())
            .build(),
    );
    p[1].push(
        TaskBuilder::new("another_default".to_string())
            .deadline(now_deadline())
            .build(),
    );
    p[1].push(TaskBuilder::new("default".to_string()).build());

    let stored = store_tasks(&p);
    let new_p = load_tasks(&stored).unwrap();

    assert_eq!(p, new_p);
}

#[test]
fn empty_collection_round_trips() {
    let p: Vec<Project> = vec![];
    assert_eq!(store_tasks(&p), "0\n");
    assert_eq!(load_tasks("0\n").unwrap(), p);
}

#[test]
fn loading_re_sorts_projects() {
    let mut p = vec![
        Project::new("zeta".to_string()),
        Project::new("alpha".to_string()),
    ];
    p[0].push(TaskBuilder::new("one".to_string()).build());
    p[1].push(TaskBuilder::new("two".to_string()).build());

    let loaded = load_tasks(&store_tasks(&p)).unwrap();
    assert_eq!(loaded[0].name, "alpha");
    assert_eq!(loaded[1].name, "zeta");
    assert_eq!(loaded[0].tasks()[0].description, "two");
    assert_eq!(loaded[1].tasks()[0].description, "one");
}

#[test]
fn awkward_characters_round_trip() {
    let mut p = vec![Project::new("sp ace\nand newline".to_string())];
    p[0].push(
        TaskBuilder::new("42 7 - s n \n mixed ünïcødé".to_string())
            .priority(Priority::Low)
            .build(),
    );
    let loaded = load_tasks(&store_tasks(&p)).unwrap();
    assert_eq!(p, loaded);
}

#[test]
fn negative_timestamps_round_trip() {
    let mut p = vec![Project::new("past".to_string())];
    p[0].push(
        TaskBuilder::new("ancient".to_string())
            .deadline(rustask::task::Deadline { secs: -12345 })
            .build(),
    );
    let loaded = load_tasks(&store_tasks(&p)).unwrap();
    assert_eq!(p, loaded);
}

#[test]
fn corrupt_text_is_a_format_failure() {
    assert_eq!(
        load_tasks("not a collection").unwrap_err(),
        RustaskError::SerializationError
    );
    assert_eq!(load_tasks("").unwrap_err(), RustaskError::SerializationError);
    assert_eq!(
        load_tasks("1\n").unwrap_err(),
        RustaskError::SerializationError
    );
    // A valid collection followed by trailing garbage is refused whole.
    assert_eq!(
        load_tasks("0\nextra").unwrap_err(),
        RustaskError::SerializationError
    );
}
