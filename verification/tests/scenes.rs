use std::collections::HashMap;

use bevytor::asset_browser::EnterDirectoryCommand;
use bevytor::commands::{
    Command, CommandAny, CommandExecuteDirection, CommandQueue, CommandType, UndoRedoCommandEvent,
};
use bevytor::editor::ShowCreateSceneWidgetContext;
use bevytor::scene::{
    clone_scene, create_and_save_scene, replay_scene, save_scene_if_absent, CreateSceneCommand,
    OpenSceneCommand, SceneFileAction, SceneReplay, SceneTarget, SelectedScene,
};

/// Does on an in-memory disk what the host does on the real one. Says
/// whether a file was written.
fn perform(files: &mut HashMap<String, String>, action: &SceneFileAction) -> bool {
    match action {
        SceneFileAction::Nothing => false,
        SceneFileAction::Write { path, contents, .. } => {
            files.insert(path.clone(), contents.clone());
            true
        }
        SceneFileAction::Remove { path } => {
            files.remove(path);
            false
        }
    }
}

/// One request to create a scene, from the command to the history.
fn create(files: &mut HashMap<String, String>, queue: &mut CommandQueue, name: &str) -> &'static str {
    let command = CreateSceneCommand::new("assets", name);
    let target = command.target().expect("a target");
    let exists = files.contains_key(&target.path);
    let action = create_and_save_scene(target.path, target.parent, exists).expect("an action");
    let written = perform(files, &action);
    match command.executed_event(action.saved(written)) {
        Some(event) => {
            queue.insert(event.consume());
            "created"
        }
        None => "already exists",
    }
}

#[test]
fn scene_path_lies_in_the_scenes_folder_of_the_asset_root() {
    let command = CreateSceneCommand::new("game/assets", "level1.scn");
    let scene = command.scene.as_ref().expect("a scene");
    assert_eq!(scene.name, "level1.scn");
    assert_eq!(scene.path, "game/assets/scenes/level1.scn");
    let target = command.target().expect("a target");
    assert_eq!(target.path, "game/assets/scenes/level1.scn");
    assert_eq!(target.parent, "game/assets/scenes");
}

#[test]
fn command_without_scene_has_no_target() {
    assert!(CreateSceneCommand { scene: None }.target().is_none());
}

#[test]
fn absent_scene_file_is_written() {
    let target = SceneTarget { path: "assets/scenes/a.scn".to_string(), parent: "assets/scenes".to_string() };
    match save_scene_if_absent(target, false, "()".to_string()) {
        SceneFileAction::Write { parent, path, contents } => {
            assert_eq!(parent, "assets/scenes");
            assert_eq!(path, "assets/scenes/a.scn");
            assert_eq!(contents, "()");
        }
        _ => panic!("expected a write"),
    }
}

#[test]
fn present_scene_file_is_left_alone() {
    let target = SceneTarget { path: "assets/scenes/a.scn".to_string(), parent: "assets/scenes".to_string() };
    assert!(matches!(save_scene_if_absent(target, true, "()".to_string()), SceneFileAction::Nothing));
}

#[test]
fn new_scene_file_holds_an_empty_scene() {
    let action = create_and_save_scene("assets/scenes/a.scn".to_string(), "assets/scenes".to_string(), false)
        .expect("an action");
    match action {
        SceneFileAction::Write { parent, path, contents } => {
            assert_eq!(parent, "assets/scenes");
            assert_eq!(path, "assets/scenes/a.scn");
            assert_eq!(contents, "[]");
        }
        _ => panic!("expected a write"),
    }
    let again = create_and_save_scene("assets/scenes/a.scn".to_string(), "assets/scenes".to_string(), true)
        .expect("an action");
    assert!(matches!(again, SceneFileAction::Nothing));
}

#[test]
fn only_a_successful_write_counts_as_saved() {
    let write = SceneFileAction::Write {
        parent: "p".to_string(),
        path: "p/f".to_string(),
        contents: String::new(),
    };
    assert!(write.saved(true));
    assert!(!write.saved(false));
    assert!(!SceneFileAction::Nothing.saved(true));
    assert!(!SceneFileAction::Remove { path: "p/f".to_string() }.saved(true));
}

#[test]
fn creating_the_same_scene_twice_writes_once() {
    let mut files = HashMap::new();
    let mut queue = CommandQueue::new();
    assert_eq!(create(&mut files, &mut queue, "level1.scn"), "created");
    assert_eq!(files.len(), 1);
    let content = files.get("assets/scenes/level1.scn").expect("the scene file").clone();
    assert_eq!(queue.items.len(), 1);
    files.insert("assets/scenes/level1.scn".to_string(), format!("{} edited", content));
    assert_eq!(create(&mut files, &mut queue, "level1.scn"), "already exists");
    assert_eq!(files.len(), 1);
    assert_eq!(files.get("assets/scenes/level1.scn"), Some(&format!("{} edited", content)));
    assert_eq!(queue.items.len(), 1);
    assert_eq!(queue.pointer, Some(0));
}

#[test]
fn failed_write_is_not_recorded() {
    let command = CreateSceneCommand::new("assets", "level1.scn");
    assert!(command.executed_event(false).is_none());
    let event = command.executed_event(true).expect("an event");
    assert_eq!(event.inner.command_type(), CommandType::CreateScene);
    match event.consume() {
        CommandAny::CreateScene(c) => assert_eq!(c.scene.expect("a scene").path, "assets/scenes/level1.scn"),
        _ => panic!("expected a create scene command"),
    }
}

#[test]
fn undo_of_a_creation_removes_the_file_and_redo_makes_it_again() {
    let command = CreateSceneCommand::new("assets", "level1.scn");
    let undo = UndoRedoCommandEvent { inner: command.recreate(), mode: CommandExecuteDirection::Undo };
    match replay_scene(&undo) {
        SceneReplay::Remove { path } => assert_eq!(path, "assets/scenes/level1.scn"),
        _ => panic!("expected a removal"),
    }
    let redo = UndoRedoCommandEvent { inner: command.recreate(), mode: CommandExecuteDirection::Redo };
    match replay_scene(&redo) {
        SceneReplay::Create { target } => {
            assert_eq!(target.path, "assets/scenes/level1.scn");
            assert_eq!(target.parent, "assets/scenes");
        }
        _ => panic!("expected a creation"),
    }
}

#[test]
fn replay_of_other_commands_asks_nothing_of_the_scene_files() {
    let other = CommandAny::EnterDirectory(EnterDirectoryCommand {
        previous_selected_directory: "a".to_string(),
        new_selected_directory: "b".to_string(),
    });
    let event = UndoRedoCommandEvent { inner: other, mode: CommandExecuteDirection::Undo };
    assert!(matches!(replay_scene(&event), SceneReplay::Nothing));
    let empty = UndoRedoCommandEvent {
        inner: CommandAny::CreateScene(CreateSceneCommand { scene: None }),
        mode: CommandExecuteDirection::Undo,
    };
    assert!(matches!(replay_scene(&empty), SceneReplay::Nothing));
    let empty = UndoRedoCommandEvent {
        inner: CommandAny::CreateScene(CreateSceneCommand { scene: None }),
        mode: CommandExecuteDirection::Redo,
    };
    assert!(matches!(replay_scene(&empty), SceneReplay::Nothing));
}

#[test]
fn closed_dialog_ignores_clicks() {
    let mut context = ShowCreateSceneWidgetContext::default();
    assert!(!context.show_widget);
    assert_eq!(context.scene_name, "new_scene.scn.ron");
    assert!(CreateSceneCommand::widget("game/assets", &mut context, true, false).is_none());
    assert!(!context.show_widget);
}

#[test]
fn create_click_gives_the_command_and_closes_the_dialog() {
    let mut context = ShowCreateSceneWidgetContext { show_widget: true, scene_name: "level2.scn.ron".to_string() };
    let command = CreateSceneCommand::widget("game/assets", &mut context, true, false).expect("a command");
    assert_eq!(command.scene.expect("a scene").path, "game/assets/scenes/level2.scn.ron");
    assert!(!context.show_widget);
    assert_eq!(context.scene_name, "level2.scn.ron");
}

#[test]
fn cancel_click_closes_the_dialog_without_a_command() {
    let mut context = ShowCreateSceneWidgetContext { show_widget: true, scene_name: "x".to_string() };
    assert!(CreateSceneCommand::widget("game/assets", &mut context, false, true).is_none());
    assert!(!context.show_widget);
}

#[test]
fn open_dialog_without_clicks_stays_open() {
    let mut context = ShowCreateSceneWidgetContext { show_widget: true, scene_name: "x".to_string() };
    assert!(CreateSceneCommand::widget("game/assets", &mut context, false, false).is_none());
    assert!(context.show_widget);
}

#[test]
fn open_scene_command_is_recreated_whole() {
    let next = CreateSceneCommand::new("assets", "next.scn").scene;
    let previous = CreateSceneCommand::new("assets", "previous.scn").scene;
    let command = OpenSceneCommand { next, previous };
    assert_eq!(command.command_type(), CommandType::OpenScene);
    match command.recreate() {
        CommandAny::OpenScene(copy) => {
            assert_eq!(copy.next.expect("next").path, "assets/scenes/next.scn");
            assert_eq!(copy.previous.expect("previous").name, "previous.scn");
        }
        _ => panic!("expected an open scene command"),
    }
}

#[test]
fn selected_scene_starts_empty() {
    let selected = SelectedScene::default();
    assert!(selected.descriptor.is_none());
    assert!(selected.clone().descriptor.is_none());
    let scene = CreateSceneCommand::new("assets", "a.scn").scene;
    assert_eq!(clone_scene(&scene).expect("a scene").path, "assets/scenes/a.scn");
}
