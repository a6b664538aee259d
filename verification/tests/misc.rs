use bevytor::commands::{
    process_commands_system, undo_redo_system, CommandAny, CommandExecuteDirection,
    CommandExecutedEvent, CommandQueue,
};
use bevytor::asset_browser::EnterDirectoryCommand;
use bevytor::editor::{run_if_post_initializing_assets, EditorStateLabel};
use bevytor::scene::CreateSceneCommand;
use bevytor::text::append_decimal;
use bevytor::widgets::shorten_label;

fn executed(new: &str) -> CommandExecutedEvent {
    CommandExecutedEvent {
        inner: CommandAny::EnterDirectory(EnterDirectoryCommand {
            previous_selected_directory: "root".to_string(),
            new_selected_directory: new.to_string(),
        }),
    }
}

fn decimal(n: usize) -> String {
    let mut text = String::new();
    append_decimal(&mut text, n);
    text
}

#[test]
fn systems_wait_for_the_assets() {
    assert!(!run_if_post_initializing_assets(EditorStateLabel::InitializingAssets));
    assert!(run_if_post_initializing_assets(EditorStateLabel::PostInitializingAssets));
}

#[test]
fn numbers_are_written_in_decimal() {
    assert_eq!(decimal(0), "0");
    assert_eq!(decimal(7), "7");
    assert_eq!(decimal(10), "10");
    assert_eq!(decimal(1234567890), "1234567890");
    assert_eq!(decimal(usize::MAX), usize::MAX.to_string());
    let mut text = "n = ".to_string();
    append_decimal(&mut text, 42);
    assert_eq!(text, "n = 42");
}

#[test]
fn queue_describes_itself() {
    let mut queue = CommandQueue::new();
    assert_eq!(queue.to_string(), "CommandQueue length: 0, pointer position: None");
    for i in 0..12 {
        queue.insert(executed(&format!("d{}", i)).consume());
    }
    assert_eq!(queue.to_string(), "CommandQueue length: 12, pointer position: Some(11)");
    queue.undo();
    assert_eq!(queue.to_string(), "CommandQueue length: 12, pointer position: Some(10)");
}

#[test]
fn executed_events_are_recorded_in_order() {
    let mut queue = CommandQueue::new();
    process_commands_system(&mut queue, &vec![executed("a"), executed("b"), executed("c")]);
    assert_eq!(queue.items.len(), 3);
    assert_eq!(queue.pointer, Some(2));
    process_commands_system(&mut queue, &vec![]);
    assert_eq!(queue.items.len(), 3);
    assert_eq!(queue.pointer, Some(2));
    queue.undo();
    queue.undo();
    process_commands_system(&mut queue, &vec![executed("d"), executed("e")]);
    assert_eq!(queue.items.len(), 3);
    assert_eq!(queue.pointer, Some(2));
    match &queue.items[1] {
        CommandAny::EnterDirectory(c) => assert_eq!(c.new_selected_directory, "d"),
        _ => panic!("expected an enter directory command"),
    }
}

#[test]
fn shortcuts_need_the_modifier() {
    let mut queue = CommandQueue::new();
    process_commands_system(&mut queue, &vec![executed("a"), executed("b")]);
    assert!(undo_redo_system(false, true, true, &mut queue).is_empty());
    assert_eq!(queue.pointer, Some(1));
    assert!(undo_redo_system(true, false, false, &mut queue).is_empty());
    assert_eq!(queue.pointer, Some(1));
}

#[test]
fn undo_shortcut_undoes_and_redo_shortcut_redoes() {
    let mut queue = CommandQueue::new();
    process_commands_system(&mut queue, &vec![executed("a"), executed("b")]);
    let events = undo_redo_system(true, true, false, &mut queue);
    assert_eq!(events.len(), 1);
    assert_eq!(events[0].mode, CommandExecuteDirection::Undo);
    assert_eq!(queue.pointer, Some(0));
    let events = undo_redo_system(true, false, true, &mut queue);
    assert_eq!(events.len(), 1);
    assert_eq!(events[0].mode, CommandExecuteDirection::Redo);
    assert_eq!(queue.pointer, Some(1));
    assert!(undo_redo_system(true, false, true, &mut queue).is_empty());
}

#[test]
fn both_shortcuts_in_one_frame_undo_and_then_redo() {
    let mut queue = CommandQueue::new();
    process_commands_system(&mut queue, &vec![executed("a")]);
    let events = undo_redo_system(true, true, true, &mut queue);
    assert_eq!(events.len(), 2);
    assert_eq!(events[0].mode, CommandExecuteDirection::Undo);
    assert_eq!(events[1].mode, CommandExecuteDirection::Redo);
    assert_eq!(queue.pointer, Some(0));
    let mut empty = CommandQueue::new();
    assert!(undo_redo_system(true, true, true, &mut empty).is_empty());
}

#[test]
fn queue_with_a_stray_pointer_is_mended_by_insert() {
    let mut queue = CommandQueue { items: vec![], pointer: Some(5) };
    assert!(queue.undo().is_none());
    assert!(queue.redo().is_none());
    queue.insert(CommandAny::CreateScene(CreateSceneCommand { scene: None }));
    assert_eq!(queue.items.len(), 1);
    assert_eq!(queue.pointer, Some(0));
}

#[test]
fn long_label_is_cut_and_dotted() {
    assert_eq!(shorten_label("a_very_long_label.png", 10), "a_very_l...");
    assert_eq!(shorten_label("abcdef", 3), "a...");
    assert_eq!(shorten_label("abcdef", 2), "ab...");
    assert_eq!(shorten_label("abcdef", 0), "...");
    assert_eq!(shorten_label("héllo wörld", 6), "héll...");
}

#[test]
fn label_that_fits_is_kept() {
    assert_eq!(shorten_label("abc", 5), "abc");
    assert_eq!(shorten_label("abc", 3), "a...");
    assert_eq!(shorten_label("", 0), "");
    assert_eq!(shorten_label("abcdef", 8), "abcdef");
    assert_eq!(shorten_label("abcdef", 7), "abcde...");
}
