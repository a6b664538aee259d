use bevytor::asset_browser::EnterDirectoryCommand;
use bevytor::commands::{
    Command, CommandAny, CommandExecuteDirection, CommandQueue, CommandType,
};

fn enter(previous: &str, new: &str) -> CommandAny {
    CommandAny::EnterDirectory(EnterDirectoryCommand {
        previous_selected_directory: previous.to_string(),
        new_selected_directory: new.to_string(),
    })
}

fn new_path(command: &CommandAny) -> String {
    match command {
        CommandAny::EnterDirectory(c) => c.new_selected_directory.clone(),
        _ => panic!("not an enter directory command"),
    }
}

#[test]
fn new_queue_is_empty() {
    let queue = CommandQueue::new();
    assert_eq!(queue.items.len(), 0);
    assert_eq!(queue.pointer, None);
}

#[test]
fn insert_into_empty_queue_points_at_first() {
    let mut queue = CommandQueue::new();
    queue.insert(enter("root", "root/a"));
    assert_eq!(queue.items.len(), 1);
    assert_eq!(queue.pointer, Some(0));
}

#[test]
fn insert_after_undos_drops_the_redo_tail() {
    let mut queue = CommandQueue::new();
    for name in ["a", "b", "c", "d", "e"] {
        queue.insert(enter("root", name));
    }
    assert_eq!(queue.items.len(), 5);
    assert_eq!(queue.pointer, Some(4));
    assert!(queue.undo().is_some());
    assert!(queue.undo().is_some());
    assert_eq!(queue.items.len(), 5);
    assert_eq!(queue.pointer, Some(2));
    queue.insert(enter("root", "f"));
    assert_eq!(queue.items.len(), 4);
    assert_eq!(queue.pointer, Some(3));
    let names: Vec<String> = queue.items.iter().map(new_path).collect();
    assert_eq!(names, vec!["a", "b", "c", "f"]);
}

#[test]
fn insert_after_undoing_everything_starts_over() {
    let mut queue = CommandQueue::new();
    queue.insert(enter("root", "a"));
    queue.insert(enter("root", "b"));
    assert!(queue.undo().is_some());
    assert!(queue.undo().is_some());
    assert_eq!(queue.pointer, None);
    assert_eq!(queue.items.len(), 2);
    queue.insert(enter("root", "c"));
    assert_eq!(queue.items.len(), 1);
    assert_eq!(queue.pointer, Some(0));
    assert_eq!(new_path(&queue.items[0]), "c");
}

#[test]
fn undo_then_redo_returns_to_the_same_state() {
    let mut queue = CommandQueue::new();
    queue.insert(enter("root", "a"));
    queue.insert(enter("a", "b"));
    let undone = queue.undo().expect("a command to undo");
    assert_eq!(undone.mode, CommandExecuteDirection::Undo);
    assert_eq!(new_path(&undone.inner), "b");
    assert_eq!(queue.pointer, Some(0));
    let redone = queue.redo().expect("a command to redo");
    assert_eq!(redone.mode, CommandExecuteDirection::Redo);
    assert_eq!(new_path(&redone.inner), "b");
    assert_eq!(queue.pointer, Some(1));
    assert_eq!(queue.items.len(), 2);
    assert_eq!(new_path(&queue.items[0]), "a");
    assert_eq!(new_path(&queue.items[1]), "b");
}

#[test]
fn undo_on_empty_queue_does_nothing() {
    let mut queue = CommandQueue::new();
    assert!(queue.undo().is_none());
    assert_eq!(queue.pointer, None);
    assert_eq!(queue.items.len(), 0);
}

#[test]
fn redo_past_the_end_does_nothing() {
    let mut queue = CommandQueue::new();
    assert!(queue.redo().is_none());
    queue.insert(enter("root", "a"));
    assert!(queue.redo().is_none());
    assert_eq!(queue.pointer, Some(0));
    assert_eq!(queue.items.len(), 1);
}

#[test]
fn undo_event_carries_the_command_kind() {
    let mut queue = CommandQueue::new();
    queue.insert(enter("root", "a"));
    let event = queue.undo().expect("a command to undo");
    assert_eq!(event.command_type(), CommandType::EnterDirectory);
    assert_eq!(event.consume().command_type(), CommandType::EnterDirectory);
}
