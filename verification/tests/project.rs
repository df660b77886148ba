use rustask::error::RustaskError;
use rustask::project::Project;
use rustask::task::{Priority, TaskBuilder, TaskPatch};

#[test]
fn create() {
    let p = Project::new(String::from("project"));
    assert_eq!(p.name, String::from("project"));
    assert_eq!(p.tasks.len(), 0);
}

#[test]
fn rename() {
    let mut p = Project::new(String::from("project"));
    assert_eq!(p.name, String::from("project"));
    assert_eq!(p.tasks.len(), 0);
    p.rename(String::from("another_project"));
    assert_eq!(p.name, String::from("another_project"));
    assert_eq!(p.tasks.len(), 0);
}

#[test]
fn push() {
    let mut p = Project::new(String::from("project"));
    let task = TaskBuilder::new("task".to_string()).build();
    p.push(task.clone());

    assert_eq!(p.tasks.len(), 1);
    assert_eq!(p.tasks[0], task);
}

#[test]
fn remove_out_of_bounds() {
    let mut p = Project::new(String::from("project"));

    assert_eq!(p.remove(0).unwrap_err(), RustaskError::OutOfBounds(0));
}

#[test]
fn remove() {
    let mut p = Project::new(String::from("project"));
    let task = TaskBuilder::new("task".to_string()).build();
    p.push(task.clone());

    assert_eq!(p.remove(0).unwrap(), task);
}

#[test]
fn edit_out_of_bounds() {
    let mut p = Project::new(String::from("project"));
    let task = TaskBuilder::new("task".to_string()).build();
    p.push(task);

    assert_eq!(
        p.edit(1, TaskPatch::empty()).unwrap_err(),
        RustaskError::OutOfBounds(1)
    );
}

#[test]
fn edit() {
    let mut p = Project::new(String::from("project"));
    let task = TaskBuilder::new("task".to_string()).build();
    p.push(task.clone());

    assert_eq!(p.edit(0, TaskPatch::empty()), Ok(()));
    assert_eq!(p.tasks[0], task);
}

#[test]
fn tasks() {
    let mut p = Project::new(String::from("project"));
    assert_eq!(p.tasks().len(), 0);
    let task = TaskBuilder::new("task".to_string()).build();
    p.push(task.clone());
    assert_eq!(p.tasks().len(), 1);
    assert_eq!(p.tasks()[0], task);
}

#[test]
fn push_keeps_tasks_sorted() {
    let mut p = Project::new(String::from("project"));
    p.push(
        TaskBuilder::new("banana".to_string())
            .priority(Priority::Low)
            .build(),
    );
    p.push(
        TaskBuilder::new("apple".to_string())
            .priority(Priority::Low)
            .build(),
    );
    p.push(
        TaskBuilder::new("zebra".to_string())
            .priority(Priority::Urgent)
            .build(),
    );
    assert_eq!(p.tasks[0].description, "zebra");
    assert_eq!(p.tasks[1].description, "apple");
    assert_eq!(p.tasks[2].description, "banana");
}

#[test]
fn edit_resorts_on_rank_change() {
    let mut p = Project::new(String::from("project"));
    p.push(
        TaskBuilder::new("first".to_string())
            .priority(Priority::Urgent)
            .build(),
    );
    p.push(
        TaskBuilder::new("second".to_string())
            .priority(Priority::Note)
            .build(),
    );
    let patch = TaskPatch {
        description: None,
        priority: Some(Priority::Urgent),
        deadline: None,
    };
    assert_eq!(p.edit(1, patch), Ok(()));
    assert_eq!(p.tasks[0].description, "first");
    assert_eq!(p.tasks[1].description, "second");
    assert_eq!(p.tasks[1].priority, Some(Priority::Urgent));
}

#[test]
fn summary_line() {
    let mut p = Project::new(String::from("work"));
    assert_eq!(p.summary(), "work: 0 tasks");
    p.push(TaskBuilder::new("task".to_string()).build());
    assert_eq!(p.summary(), "work: 1 task");
    p.push(TaskBuilder::new("other".to_string()).build());
    assert_eq!(p.summary(), "work: 2 tasks");
}
