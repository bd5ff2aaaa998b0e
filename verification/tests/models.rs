use stackwatch::models::Task;

fn create_test_task(context: &str, ended_at: Option<i64>) -> Task {
    Task {
        id: 1,
        context: context.to_string(),
        stack_position: 0,
        created_at: 0,
        ended_at,
        updated_at: 0,
    }
}

#[test]
fn test_task_title_single_line() {
    let task = create_test_task("My Task", None);
    assert_eq!(task.title(), "My Task");
}

#[test]
fn test_task_title_multi_line() {
    let task = create_test_task("My Task\nThis is a description\nWith multiple lines", None);
    assert_eq!(task.title(), "My Task");
}

#[test]
fn test_task_title_empty() {
    let task = create_test_task("", None);
    assert_eq!(task.title(), "Untitled Task");
}

#[test]
fn test_task_title_only_newlines() {
    let task = create_test_task("\n\n", None);
    assert_eq!(task.title(), "Untitled Task");
}

#[test]
fn test_task_description_single_line() {
    let task = create_test_task("My Task", None);
    assert_eq!(task.description(), "");
}

#[test]
fn test_task_description_multi_line() {
    let task = create_test_task("My Task\nThis is a description\nWith multiple lines", None);
    assert_eq!(
        task.description(),
        "This is a description\nWith multiple lines"
    );
}

#[test]
fn test_task_description_with_leading_whitespace() {
    let task = create_test_task("My Task\n  This is indented\n    More indented", None);
    assert_eq!(task.description(), "  This is indented\n    More indented");
}

#[test]
fn test_task_description_empty_after_title() {
    let task = create_test_task("My Task\n", None);
    assert_eq!(task.description(), "");
}

#[test]
fn test_task_description_with_trailing_whitespace() {
    let task = create_test_task("My Task\n  Description with spaces  \n  ", None);
    assert_eq!(task.description(), "  Description with spaces  \n  ");
}

#[test]
fn test_task_is_active_true() {
    let task = create_test_task("Active Task", None);
    assert!(task.is_active());
}

#[test]
fn test_task_is_active_false() {
    let task = create_test_task("Completed Task", Some(1));
    assert!(!task.is_active());
}

#[test]
fn test_task_title_and_description_with_blank_lines() {
    let task = create_test_task(
        "My Task\n\nDescription after blank line\n\nMore content",
        None,
    );
    assert_eq!(task.title(), "My Task");
    assert_eq!(
        task.description(),
        "Description after blank line\n\nMore content"
    );
}

#[test]
fn test_task_title_with_special_characters() {
    let task = create_test_task("Task with ç‰¹æ®Šæ–‡å­— and Ã©mojis ðŸŽ‰", None);
    assert_eq!(task.title(), "Task with ç‰¹æ®Šæ–‡å­— and Ã©mojis ðŸŽ‰");
}

#[test]
fn test_task_title_carriage_return() {
    let task = create_test_task("My Task\r\nDetails", None);
    assert_eq!(task.title(), "My Task");
}

#[test]
fn test_task_title_whitespace_only_line() {
    let task = create_test_task("   \t \nBody", None);
    assert_eq!(task.title(), "Untitled Task");
}
