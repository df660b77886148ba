use rustask::error::RustaskError;
use rustask::project::Project;
use rustask::storage::store_tasks;
use rustask::task::{Deadline, Priority, TaskBuilder};
use rustask::{add_task, edit_task, list, list_all, move_task, remove_task, rename};

fn work_project() -> Vec<Project> {
    let mut projs: Vec<Project> = Vec::new();
    add_task(
        &mut projs,
        TaskBuilder::new("write report".to_string())
            .priority(Priority::Normal)
            .build(),
        "work".to_string(),
    )
    .unwrap();
    add_task(
        &mut projs,
        TaskBuilder::new("fix bug".to_string())
            .priority(Priority::Urgent)
            .build(),
        "work".to_string(),
    )
    .unwrap();
    projs
}

#[test]
fn listing_follows_sort_order_and_removal_shifts_indices() {
    let mut projs = work_project();
    let ls = list_all(&projs, Some("work".to_string())).unwrap();
    assert_eq!(ls.len(), 1);
    assert_eq!(ls[0].name, "work");
    assert_eq!(ls[0].count, 2);
    assert_eq!(ls[0].entries.len(), 2);
    assert_eq!(ls[0].entries[0].index, 0);
    assert_eq!(ls[0].entries[0].task.description, "fix bug");
    assert_eq!(ls[0].entries[1].index, 1);
    assert_eq!(ls[0].entries[1].task.description, "write report");

    let removed = remove_task(&mut projs, 0, "work".to_string()).unwrap();
    assert_eq!(removed.description, "fix bug");
    assert_eq!(projs.len(), 1);
    assert_eq!(projs[0].len(), 1);
    assert_eq!(projs[0].tasks()[0].description, "write report");
}

#[test]
fn removing_the_last_task_prunes_the_project() {
    let mut projs: Vec<Project> = Vec::new();
    add_task(
        &mut projs,
        TaskBuilder::new("only".to_string()).build(),
        "solo".to_string(),
    )
    .unwrap();
    add_task(
        &mut projs,
        TaskBuilder::new("kept".to_string()).build(),
        "other".to_string(),
    )
    .unwrap();
    assert_eq!(projs.len(), 2);

    let removed = remove_task(&mut projs, 0, "solo".to_string()).unwrap();
    assert_eq!(removed.description, "only");
    assert_eq!(projs.len(), 1);
    assert_eq!(projs[0].name, "other");
}

#[test]
fn removing_a_non_last_task_keeps_the_project() {
    let mut projs = work_project();
    remove_task(&mut projs, 1, "work".to_string()).unwrap();
    assert_eq!(projs.len(), 1);
    assert_eq!(projs[0].name, "work");
    assert_eq!(projs[0].len(), 1);
}

#[test]
fn empty_patch_leaves_the_task_unchanged() {
    let mut projs = work_project();
    let before = store_tasks(&projs);
    edit_task(&mut projs, 0, "work".to_string(), None, None, None).unwrap();
    assert_eq!(store_tasks(&projs), before);
}

#[test]
fn empty_patch_keeps_equal_tasks_in_place() {
    let mut projs: Vec<Project> = Vec::new();
    // Two tasks with the same priority and description: only their
    // deadlines tell them apart, and deadlines are no sort key.
    add_task(
        &mut projs,
        TaskBuilder::new("twin".to_string())
            .priority(Priority::Normal)
            .deadline(Deadline { secs: 100 })
            .build(),
        "p".to_string(),
    )
    .unwrap();
    add_task(
        &mut projs,
        TaskBuilder::new("twin".to_string())
            .priority(Priority::Normal)
            .deadline(Deadline { secs: 200 })
            .build(),
        "p".to_string(),
    )
    .unwrap();
    assert_eq!(projs[0].tasks()[0].deadline, Some(Deadline { secs: 100 }));
    assert_eq!(projs[0].tasks()[1].deadline, Some(Deadline { secs: 200 }));

    let before = store_tasks(&projs);
    edit_task(&mut projs, 0, "p".to_string(), None, None, None).unwrap();
    assert_eq!(projs[0].tasks()[0].deadline, Some(Deadline { secs: 100 }));
    assert_eq!(projs[0].tasks()[1].deadline, Some(Deadline { secs: 200 }));
    assert_eq!(store_tasks(&projs), before);
}

#[test]
fn key_preserving_patch_keeps_position() {
    let mut projs: Vec<Project> = Vec::new();
    add_task(
        &mut projs,
        TaskBuilder::new("twin".to_string())
            .deadline(Deadline { secs: 100 })
            .build(),
        "p".to_string(),
    )
    .unwrap();
    add_task(
        &mut projs,
        TaskBuilder::new("twin".to_string())
            .deadline(Deadline { secs: 200 })
            .build(),
        "p".to_string(),
    )
    .unwrap();
    // Setting an absent priority to Normal keeps the effective rank,
    // so the edited task must not move past its equal twin.
    edit_task(
        &mut projs,
        0,
        "p".to_string(),
        None,
        Some(Priority::Normal),
        None,
    )
    .unwrap();
    assert_eq!(projs[0].tasks()[0].deadline, Some(Deadline { secs: 100 }));
    assert_eq!(projs[0].tasks()[0].priority, Some(Priority::Normal));
    assert_eq!(projs[0].tasks()[1].deadline, Some(Deadline { secs: 200 }));
}

#[test]
fn priority_only_patch_keeps_description_and_deadline() {
    let mut projs: Vec<Project> = Vec::new();
    add_task(
        &mut projs,
        TaskBuilder::new("chore".to_string())
            .priority(Priority::Note)
            .deadline(Deadline { secs: 123_456 })
            .build(),
        "home".to_string(),
    )
    .unwrap();
    edit_task(
        &mut projs,
        0,
        "home".to_string(),
        None,
        Some(Priority::Urgent),
        None,
    )
    .unwrap();
    let t = &projs[0].tasks()[0];
    assert_eq!(t.description, "chore");
    assert_eq!(t.priority, Some(Priority::Urgent));
    assert_eq!(t.deadline, Some(Deadline { secs: 123_456 }));
}

#[test]
fn renaming_to_a_taken_name_fails_and_changes_nothing() {
    let mut projs = work_project();
    add_task(
        &mut projs,
        TaskBuilder::new("dishes".to_string()).build(),
        "personal".to_string(),
    )
    .unwrap();
    let before = store_tasks(&projs);

    let r = rename(&mut projs, "work".to_string(), "personal".to_string());
    assert_eq!(
        r.unwrap_err(),
        RustaskError::ProjectNameTaken("personal".to_string())
    );
    assert_eq!(store_tasks(&projs), before);
}

#[test]
fn renaming_re_sorts_the_collection() {
    let mut projs = work_project();
    add_task(
        &mut projs,
        TaskBuilder::new("dishes".to_string()).build(),
        "att".to_string(),
    )
    .unwrap();
    assert_eq!(projs[0].name, "att");
    rename(&mut projs, "att".to_string(), "zzz".to_string()).unwrap();
    assert_eq!(projs[0].name, "work");
    assert_eq!(projs[1].name, "zzz");
}

#[test]
fn moving_the_last_task_empties_and_prunes_the_source() {
    let mut projs: Vec<Project> = Vec::new();
    add_task(
        &mut projs,
        TaskBuilder::new("wander".to_string())
            .priority(Priority::Low)
            .build(),
        "a".to_string(),
    )
    .unwrap();
    add_task(
        &mut projs,
        TaskBuilder::new("stay".to_string())
            .priority(Priority::Urgent)
            .build(),
        "b".to_string(),
    )
    .unwrap();

    move_task(&mut projs, "a".to_string(), 0, "b".to_string()).unwrap();
    assert_eq!(projs.len(), 1);
    assert_eq!(projs[0].name, "b");
    assert_eq!(projs[0].len(), 2);
    assert_eq!(projs[0].tasks()[0].description, "stay");
    assert_eq!(projs[0].tasks()[1].description, "wander");
}

#[test]
fn commands_fail_on_a_missing_project() {
    let mut projs = work_project();
    let before = store_tasks(&projs);
    assert_eq!(
        remove_task(&mut projs, 0, "nope".to_string()).unwrap_err(),
        RustaskError::ProjectNotFound("nope".to_string())
    );
    assert_eq!(
        edit_task(&mut projs, 0, "nope".to_string(), None, None, None).unwrap_err(),
        RustaskError::ProjectNotFound("nope".to_string())
    );
    assert_eq!(
        rename(&mut projs, "nope".to_string(), "other".to_string()).unwrap_err(),
        RustaskError::ProjectNotFound("nope".to_string())
    );
    assert_eq!(
        move_task(&mut projs, "nope".to_string(), 0, "work".to_string()).unwrap_err(),
        RustaskError::ProjectNotFound("nope".to_string())
    );
    assert_eq!(
        list_all(&projs, Some("nope".to_string())).unwrap_err(),
        RustaskError::ProjectNotFound("nope".to_string())
    );
    assert_eq!(
        list(&projs, Some("nope".to_string())).unwrap_err(),
        RustaskError::ProjectNotFound("nope".to_string())
    );
    assert_eq!(store_tasks(&projs), before);
}

#[test]
fn commands_fail_on_an_out_of_range_index() {
    let mut projs = work_project();
    let before = store_tasks(&projs);
    assert_eq!(
        remove_task(&mut projs, 2, "work".to_string()).unwrap_err(),
        RustaskError::OutOfBounds(2)
    );
    assert_eq!(
        edit_task(&mut projs, 5, "work".to_string(), None, None, None).unwrap_err(),
        RustaskError::OutOfBounds(5)
    );
    assert_eq!(
        move_task(&mut projs, "work".to_string(), 9, "work".to_string()).unwrap_err(),
        RustaskError::OutOfBounds(9)
    );
    assert_eq!(store_tasks(&projs), before);
}

#[test]
fn adding_creates_projects_in_sorted_order() {
    let mut projs: Vec<Project> = Vec::new();
    add_task(
        &mut projs,
        TaskBuilder::new("one".to_string()).build(),
        "mid".to_string(),
    )
    .unwrap();
    add_task(
        &mut projs,
        TaskBuilder::new("two".to_string()).build(),
        "zz".to_string(),
    )
    .unwrap();
    add_task(
        &mut projs,
        TaskBuilder::new("three".to_string()).build(),
        "aa".to_string(),
    )
    .unwrap();
    assert_eq!(projs[0].name, "aa");
    assert_eq!(projs[1].name, "mid");
    assert_eq!(projs[2].name, "zz");
}

#[test]
fn selective_listing_always_shows_top_ranks() {
    let mut projs: Vec<Project> = Vec::new();
    add_task(
        &mut projs,
        TaskBuilder::new("now".to_string())
            .priority(Priority::Urgent)
            .build(),
        "work".to_string(),
    )
    .unwrap();
    add_task(
        &mut projs,
        TaskBuilder::new("soon".to_string())
            .priority(Priority::High)
            .build(),
        "work".to_string(),
    )
    .unwrap();
    for _ in 0..20 {
        let ls = list(&projs, Some("work".to_string())).unwrap();
        assert_eq!(ls.len(), 1);
        assert_eq!(ls[0].count, 2);
        let shown: Vec<&str> = ls[0]
            .entries
            .iter()
            .map(|e| e.task.description.as_str())
            .collect();
        assert!(shown.contains(&"now"));
        assert!(shown.contains(&"soon"));
    }
}

#[test]
fn full_listing_covers_every_project() {
    let projs = {
        let mut projs = work_project();
        add_task(
            &mut projs,
            TaskBuilder::new("dishes".to_string()).build(),
            "home".to_string(),
        )
        .unwrap();
        projs
    };
    let ls = list_all(&projs, None).unwrap();
    assert_eq!(ls.len(), 2);
    assert_eq!(ls[0].name, "home");
    assert_eq!(ls[1].name, "work");
    assert_eq!(ls[0].entries.len(), 1);
    assert_eq!(ls[1].entries.len(), 2);
}
