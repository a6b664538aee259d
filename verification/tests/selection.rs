use bevytor::asset_browser::{
    enter_directory, replay_directory, select_directory_system, selection_setup, take_selection,
    EnterDirectoryCommand, SelectedDirectory, Selection, SelectionCommand, SelectionError,
};
use bevytor::assets::AssetType;
use bevytor::commands::{
    process_commands_system, Command, CommandAny, CommandExecuteDirection, CommandQueue,
    CommandType, UndoRedoCommandEvent,
};
use bevytor::directory::AssetDirectory;

fn sample_tree() -> AssetDirectory {
    let mut root = AssetDirectory::new("root".to_string());
    assert!(root.try_insert("root/a", true, 0, 0));
    assert!(root.try_insert("root/b", true, 0, 0));
    assert!(root.try_insert("root/a/x", true, 0, 0));
    assert!(root.try_insert("root/a/x/deep", true, 0, 0));
    assert!(root.try_insert("root/a/pic.png", false, 1, 2));
    assert!(root.try_insert("root/a/x/level.ron", false, 0, 0));
    root
}

fn enter(previous: &str, new: &str) -> EnterDirectoryCommand {
    EnterDirectoryCommand {
        previous_selected_directory: previous.to_string(),
        new_selected_directory: new.to_string(),
    }
}

fn replay(previous: &str, new: &str, mode: CommandExecuteDirection) -> UndoRedoCommandEvent {
    UndoRedoCommandEvent { inner: CommandAny::EnterDirectory(enter(previous, new)), mode }
}

#[test]
fn default_selection_is_the_dummy() {
    let selected = SelectedDirectory::default();
    assert_eq!(selected.get_path(), "");
    assert_eq!(selected.details().get_name(), "Dummy");
    assert!(selected.details().children_directories.is_empty());
    assert!(selected.details().assets.is_empty());
}

#[test]
fn selection_is_a_copy_one_level_deep() {
    let root = sample_tree();
    let a = root.find_by_path("root/a").expect("root/a");
    let selected = SelectedDirectory::from(a);
    let details = selected.details();
    assert_eq!(details.get_name(), "a");
    assert_eq!(details.get_path(), "root/a");
    assert_eq!(details.children_directories.len(), 1);
    assert_eq!(details.children_directories[0].get_name(), "x");
    assert_eq!(details.children_directories[0].get_path(), "root/a/x");
    assert!(details.children_directories[0].children_directories.is_empty());
    assert!(details.children_directories[0].assets.is_empty());
    assert_eq!(details.assets.len(), 1);
    match &details.assets[0] {
        AssetType::Image(image) => {
            assert_eq!(image.path, "root/a/pic.png");
            assert_eq!(image.bevy_handle, 1);
            assert_eq!(image.egui_texture_id, 2);
        }
        AssetType::Scene(_) => panic!("expected an image"),
    }
}

#[test]
fn clone_of_a_selection_is_the_same_selection() {
    let root = sample_tree();
    let selected = SelectedDirectory::from(&root);
    let copy = selected.clone();
    assert!(copy == selected);
    assert_eq!(copy.get_path(), "root");
    assert_eq!(copy.details().children_directories.len(), 2);
    assert_eq!(copy.details().children_directories[1].get_path(), "root/b");
    assert!(copy != SelectedDirectory::default());
}

#[test]
fn setup_selects_the_root_and_asks_for_it() {
    let root = sample_tree();
    let (selected, command) = selection_setup(&root);
    assert_eq!(selected.get_path(), "root");
    assert_eq!(command.new_selected_directory, "root");
    assert_eq!(command.previous_selected_directory, "root");
    let mut selected = selected;
    assert!(matches!(enter_directory(&mut selected, &root, &command), Ok(None)));
}

#[test]
fn entering_another_directory_selects_it_and_is_recorded() {
    let root = sample_tree();
    let mut selected = SelectedDirectory::from(&root);
    let event = enter_directory(&mut selected, &root, &enter("root", "root/a/x"))
        .expect("a known directory")
        .expect("an executed event");
    assert_eq!(selected.get_path(), "root/a/x");
    assert_eq!(selected.details().assets.len(), 1);
    assert_eq!(event.inner.command_type(), CommandType::EnterDirectory);
    match event.consume() {
        CommandAny::EnterDirectory(c) => {
            assert_eq!(c.previous_selected_directory, "root");
            assert_eq!(c.new_selected_directory, "root/a/x");
        }
        _ => panic!("expected an enter directory command"),
    }
}

#[test]
fn selecting_the_selected_directory_again_changes_and_records_nothing() {
    let root = sample_tree();
    let mut selected = SelectedDirectory::from(root.find_by_path("root/a").expect("root/a"));
    let mut queue = CommandQueue::new();
    let report = select_directory_system(&vec![enter("root", "root/a")], &vec![], &mut selected, &root);
    assert!(report.executed.is_empty());
    assert_eq!(report.unknown_entered, 0);
    process_commands_system(&mut queue, &report.executed);
    assert_eq!(queue.items.len(), 0);
    assert_eq!(queue.pointer, None);
    assert_eq!(selected.get_path(), "root/a");
    assert!(matches!(enter_directory(&mut selected, &root, &enter("root/a", "root/a")), Ok(None)));
}

#[test]
fn entering_an_unknown_directory_fails_and_keeps_the_selection() {
    let root = sample_tree();
    let mut selected = SelectedDirectory::from(&root);
    let result = enter_directory(&mut selected, &root, &enter("root", "root/nowhere"));
    assert!(matches!(result, Err(SelectionError::UnknownDirectory)));
    assert_eq!(selected.get_path(), "root");
    assert_eq!(take_selection(&mut selected, &root, "nowhere"), Err(SelectionError::UnknownDirectory));
    assert_eq!(take_selection(&mut selected, &root, "root/b"), Ok(()));
    assert_eq!(selected.get_path(), "root/b");
}

#[test]
fn undo_goes_to_the_previous_directory_and_redo_to_the_new_one() {
    let root = sample_tree();
    let mut selected = SelectedDirectory::from(root.find_by_path("root/a").expect("root/a"));
    let undone = replay_directory(&mut selected, &root, &replay("root/b", "root/a", CommandExecuteDirection::Undo));
    assert_eq!(undone, Ok(true));
    assert_eq!(selected.get_path(), "root/b");
    let redone = replay_directory(&mut selected, &root, &replay("root/b", "root/a", CommandExecuteDirection::Redo));
    assert_eq!(redone, Ok(true));
    assert_eq!(selected.get_path(), "root/a");
}

#[test]
fn replay_passes_over_other_commands_and_fails_on_unknown_paths() {
    let root = sample_tree();
    let mut selected = SelectedDirectory::from(&root);
    let other = UndoRedoCommandEvent {
        inner: CommandAny::CreateScene(bevytor::scene::CreateSceneCommand { scene: None }),
        mode: CommandExecuteDirection::Undo,
    };
    assert_eq!(replay_directory(&mut selected, &root, &other), Ok(false));
    assert_eq!(selected.get_path(), "root");
    let lost = replay("gone", "root/a", CommandExecuteDirection::Undo);
    assert_eq!(replay_directory(&mut selected, &root, &lost), Err(SelectionError::UnknownDirectory));
    assert_eq!(selected.get_path(), "root");
}

#[test]
fn system_carries_out_commands_then_replays() {
    let root = sample_tree();
    let mut selected = SelectedDirectory::default();
    let commands = vec![
        enter("", "root"),
        enter("root", "root"),
        enter("root", "root/zzz"),
        enter("root", "root/a"),
    ];
    let replays = vec![
        replay("root", "root/a", CommandExecuteDirection::Undo),
        replay("nowhere", "root/a", CommandExecuteDirection::Undo),
        replay("root", "root/b", CommandExecuteDirection::Redo),
    ];
    let report = select_directory_system(&commands, &replays, &mut selected, &root);
    assert_eq!(report.executed.len(), 2);
    assert_eq!(report.unknown_entered, 1);
    assert_eq!(report.unknown_replayed, 1);
    assert_eq!(selected.get_path(), "root/b");
    let recorded: Vec<String> = report
        .executed
        .iter()
        .map(|e| match e.consume() {
            CommandAny::EnterDirectory(c) => c.new_selected_directory,
            _ => panic!("expected an enter directory command"),
        })
        .collect();
    assert_eq!(recorded, vec!["root", "root/a"]);
    let mut queue = CommandQueue::new();
    process_commands_system(&mut queue, &report.executed);
    assert_eq!(queue.items.len(), 2);
    assert_eq!(queue.pointer, Some(1));
}

#[test]
fn selection_in_the_browser_becomes_a_command() {
    let root = sample_tree();
    let selected = SelectedDirectory::from(&root);
    match selected.selection_command(Selection::Directory("root/a".to_string())) {
        SelectionCommand::Directory(command) => {
            assert_eq!(command.previous_selected_directory, "root");
            assert_eq!(command.new_selected_directory, "root/a");
        }
        SelectionCommand::Asset => panic!("expected a directory command"),
    }
    let asset = AssetType::try_create("root/a/pic.png", 1, 2).expect("an image");
    assert!(matches!(selected.selection_command(Selection::Asset(asset)), SelectionCommand::Asset));
    let command = selected.enter_command("root/b".to_string());
    assert_eq!(command.previous_selected_directory, "root");
    assert_eq!(command.new_selected_directory, "root/b");
    let copy = command.clone();
    assert_eq!(copy.new_selected_directory, "root/b");
    assert_eq!(copy.command_type(), CommandType::EnterDirectory);
}
