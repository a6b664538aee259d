//! Scenes: the selected scene and the commands that create and open one.

use vstd::prelude::*;
use crate::assets::{SceneAssetDescriptor, SceneAssetView};
use crate::commands::{
    Command, CommandAny, CommandAnyView, CommandExecuteDirection, CommandExecutedEvent,
    CommandType, UndoRedoCommandEvent, UndoRedoView,
};
use crate::editor::ShowCreateSceneWidgetContext;
use crate::path::{parent, parent_of};

verus! {

/// The model of an optional scene descriptor.
pub open spec fn scene_view_of(scene: Option<SceneAssetDescriptor>) -> Option<SceneAssetView> {
    match scene {
        Some(descriptor) => Some(descriptor@),
        None => None,
    }
}

/// A copy of an optional scene descriptor.
pub fn clone_scene(scene: &Option<SceneAssetDescriptor>) -> (copy: Option<SceneAssetDescriptor>)
    ensures
        scene_view_of(copy) == scene_view_of(*scene),
{
    match scene {
        Some(descriptor) => Some(descriptor.clone()),
        None => None,
    }
}

/// The scene that is open in the editor, if any.
#[derive(Debug)]
pub struct SelectedScene {
    pub descriptor: Option<SceneAssetDescriptor>,
}

impl Default for SelectedScene {
    fn default() -> (selected: Self)
        ensures
            selected.descriptor is None,
    {
        SelectedScene { descriptor: None }
    }
}

impl Clone for SelectedScene {
    fn clone(&self) -> (copy: Self)
        ensures
            scene_view_of(copy.descriptor) == scene_view_of(self.descriptor),
    {
        SelectedScene { descriptor: clone_scene(&self.descriptor) }
    }
}

/// Asks for a scene file to be created.
#[derive(Debug)]
pub struct CreateSceneCommand {
    /// The scene to create; a command without one does nothing.
    pub scene: Option<SceneAssetDescriptor>,
}

/// The model of a `CreateSceneCommand`.
pub struct CreateSceneView {
    pub scene: Option<SceneAssetView>,
}

impl View for CreateSceneCommand {
    type V = CreateSceneView;

    open spec fn view(&self) -> CreateSceneView {
        CreateSceneView { scene: scene_view_of(self.scene) }
    }
}

impl Clone for CreateSceneCommand {
    fn clone(&self) -> (copy: Self)
        ensures
            copy@ == self@,
    {
        CreateSceneCommand { scene: clone_scene(&self.scene) }
    }
}

impl Command for CreateSceneCommand {
    open spec fn as_any(&self) -> CommandAnyView {
        CommandAnyView::CreateScene(self@)
    }

    fn recreate(&self) -> (copy: CommandAny) {
        CommandAny::CreateScene(self.clone())
    }

    fn command_type(&self) -> (tag: CommandType) {
        CommandType::CreateScene
    }
}

/// Asks for another scene to be opened. It names the scene that was open
/// before, so that it can be undone.
#[derive(Debug)]
pub struct OpenSceneCommand {
    /// The scene to open.
    pub next: Option<SceneAssetDescriptor>,
    /// The scene that was open when the command was made.
    pub previous: Option<SceneAssetDescriptor>,
}

/// The model of an `OpenSceneCommand`.
pub struct OpenSceneView {
    pub next: Option<SceneAssetView>,
    pub previous: Option<SceneAssetView>,
}

impl View for OpenSceneCommand {
    type V = OpenSceneView;

    open spec fn view(&self) -> OpenSceneView {
        OpenSceneView { next: scene_view_of(self.next), previous: scene_view_of(self.previous) }
    }
}

impl Clone for OpenSceneCommand {
    fn clone(&self) -> (copy: Self)
        ensures
            copy@ == self@,
    {
        OpenSceneCommand { next: clone_scene(&self.next), previous: clone_scene(&self.previous) }
    }
}

impl Command for OpenSceneCommand {
    open spec fn as_any(&self) -> CommandAnyView {
        CommandAnyView::OpenScene(self@)
    }

    fn recreate(&self) -> (copy: CommandAny) {
        CommandAny::OpenScene(self.clone())
    }

    fn command_type(&self) -> (tag: CommandType) {
        CommandType::OpenScene
    }
}

/// The path of the scene called `scene_name` below the asset root: the
/// root, the folder `scenes`, and the name.
pub open spec fn scene_path_of(asset_root: Seq<char>, scene_name: Seq<char>) -> Seq<char> {
    asset_root + "/scenes/"@ + scene_name
}

impl CreateSceneCommand {
    /// The command that creates the scene called `scene_name` in the folder
    /// of scenes below `asset_root`.
    pub fn new(asset_root: &str, scene_name: &str) -> (command: CreateSceneCommand)
        ensures
            command@.scene == Some(
                SceneAssetView {
                    name: scene_name@,
                    path: scene_path_of(asset_root@, scene_name@),
                },
            ),
    {
        let mut path = asset_root.to_owned();
        path.append("/scenes/");
        path.append(scene_name);
        CreateSceneCommand {
            scene: Some(SceneAssetDescriptor { name: scene_name.to_owned(), path }),
        }
    }

    /// What the dialog does with the clicks of one frame. A closed dialog
    /// does nothing. A click on `Create` gives the command for the name typed
    /// in, below `asset_root`, and closes the dialog; a click on `Cancel`
    /// closes it.
    pub fn widget(
        asset_root: &str,
        widget_context: &mut ShowCreateSceneWidgetContext,
        create_clicked: bool,
        cancel_clicked: bool,
    ) -> (command: Option<CreateSceneCommand>)
        ensures
            final(widget_context).scene_name == old(widget_context).scene_name,
            final(widget_context).show_widget == (old(widget_context).show_widget
                && !create_clicked && !cancel_clicked),
            command is Some <==> old(widget_context).show_widget && create_clicked,
            command is Some ==> command->0@.scene == Some(
                SceneAssetView {
                    name: old(widget_context).scene_name@,
                    path: scene_path_of(asset_root@, old(widget_context).scene_name@),
                },
            ),
    {
        if !widget_context.show_widget {
            return None;
        }
        let mut create_scene_command = None;
        if create_clicked {
            create_scene_command = Some(
                CreateSceneCommand::new(asset_root, widget_context.scene_name.as_str()),
            );
        }
        if create_clicked || cancel_clicked {
            widget_context.show_widget = false;
        }
        create_scene_command
    }

    /// The file that the command asks for and the directory to hold it.
    /// `None` for a command without a scene, or when the path of the scene
    /// has no parent.
    pub fn target(&self) -> (target: Option<SceneTarget>)
        ensures
            match target {
                Some(t) => Some(t@) == scene_target_of(self@),
                None => scene_target_of(self@) is None,
            },
    {
        match &self.scene {
            Some(scene_descriptor) => {
                match parent(scene_descriptor.path.as_str()) {
                    Some(parent_path) => Some(
                        SceneTarget { path: scene_descriptor.path.clone(), parent: parent_path },
                    ),
                    None => None,
                }
            },
            None => None,
        }
    }

    /// The event that records the command, if the scene file was saved.
    pub fn executed_event(&self, saved: bool) -> (event: Option<CommandExecutedEvent>)
        ensures
            match event {
                Some(e) => saved && e.inner@ == CommandAnyView::CreateScene(self@),
                None => !saved,
            },
    {
        if saved {
            Some(CommandExecutedEvent { inner: self.recreate() })
        } else {
            None
        }
    }
}

/// A scene file and the directory that holds it.
#[derive(Debug)]
pub struct SceneTarget {
    /// Path of the scene file.
    pub path: String,
    /// Path of the directory of the scene file.
    pub parent: String,
}

/// The model of a `SceneTarget`.
pub struct SceneTargetView {
    pub path: Seq<char>,
    pub parent: Seq<char>,
}

impl View for SceneTarget {
    type V = SceneTargetView;

    open spec fn view(&self) -> SceneTargetView {
        SceneTargetView { path: self.path@, parent: self.parent@ }
    }
}

/// The file that a command asks for, with its directory.
pub open spec fn scene_target_of(command: CreateSceneView) -> Option<SceneTargetView> {
    match command.scene {
        Some(scene) => match parent_of(scene.path) {
            Some(parent) => Some(SceneTargetView { path: scene.path, parent }),
            None => None,
        },
        None => None,
    }
}

/// What is to be done on disk.
#[derive(Debug)]
pub enum SceneFileAction {
    /// Nothing.
    Nothing,
    /// Make the directory `parent` with all that leads to it, and write
    /// `contents` to the new file `path`.
    Write { parent: String, path: String, contents: String },
    /// Remove the file `path`.
    Remove { path: String },
}

/// The model of a `SceneFileAction`.
pub enum SceneFileActionView {
    Nothing,
    Write { parent: Seq<char>, path: Seq<char>, contents: Seq<char> },
    Remove { path: Seq<char> },
}

impl View for SceneFileAction {
    type V = SceneFileActionView;

    open spec fn view(&self) -> SceneFileActionView {
        match self {
            SceneFileAction::Nothing => SceneFileActionView::Nothing,
            SceneFileAction::Write { parent, path, contents } => SceneFileActionView::Write {
                parent: parent@,
                path: path@,
                contents: contents@,
            },
            SceneFileAction::Remove { path } => SceneFileActionView::Remove { path: path@ },
        }
    }
}

impl SceneFileActionView {
    /// What is to be done for a scene file to be there: nothing where a file
    /// is there already, whatever it holds; else write the contents.
    pub open spec fn create_if_absent(
        target: SceneTargetView,
        target_exists: bool,
        contents: Seq<char>,
    ) -> SceneFileActionView {
        if target_exists {
            SceneFileActionView::Nothing
        } else {
            SceneFileActionView::Write { parent: target.parent, path: target.path, contents }
        }
    }

    /// The files, by path, after the action was carried out on `files`.
    pub open spec fn applied_to(self, files: Map<Seq<char>, Seq<char>>) -> Map<
        Seq<char>,
        Seq<char>,
    > {
        match self {
            SceneFileActionView::Nothing => files,
            SceneFileActionView::Write { path, contents, .. } => files.insert(path, contents),
            SceneFileActionView::Remove { path } => files.remove(path),
        }
    }
}

impl SceneFileAction {
    /// Whether a scene was saved: the action was to write, and the writing
    /// went well.
    pub fn saved(&self, succeeded: bool) -> (saved: bool)
        ensures
            saved == (self@ is Write && succeeded),
    {
        match self {
            SceneFileAction::Write { .. } => succeeded,
            _ => false,
        }
    }
}

/// What is to be done for the scene file `target` to be there, given whether
/// a file is at its path already and what a new scene file holds.
pub fn save_scene_if_absent(target: SceneTarget, target_exists: bool, contents: String) -> (action:
    SceneFileAction)
    ensures
        action@ == SceneFileActionView::create_if_absent(target@, target_exists, contents@),
{
    if target_exists {
        SceneFileAction::Nothing
    } else {
        SceneFileAction::Write { parent: target.parent, path: target.path, contents }
    }
}

/// The engine's registry of reflected types; opaque here.
#[verifier::external_type_specification]
#[verifier::external_body]
pub struct ExTypeRegistry(bevy::reflect::TypeRegistryArc);

/// The engine's scene of entities and components; opaque here.
#[verifier::external_type_specification]
#[verifier::external_body]
pub struct ExDynamicScene(bevy::scene::DynamicScene);

/// A registry with the types that bevy registers by default, from
/// `TypeRegistryArc::default`. Nothing is claimed of it.
#[verifier::external_body]
fn default_type_registry() -> (type_registry: bevy::reflect::TypeRegistryArc) {
    bevy::reflect::TypeRegistryArc::default()
}

/// The scene that `DynamicScene::from_world` of bevy collects from a world
/// without entities, fresh from `World::new`. Nothing is claimed of the
/// scene.
#[verifier::external_body]
fn empty_scene(type_registry: &bevy::reflect::TypeRegistryArc) -> (scene: bevy::scene::DynamicScene) {
    bevy::scene::DynamicScene::from_world(&bevy::ecs::world::World::new(), type_registry)
}

/// The text that `DynamicScene::serialize_ron` of bevy writes for a scene,
/// or `None` where it gives an error. Nothing is claimed of the text.
#[verifier::external_body]
fn serialize_scene(
    scene: &bevy::scene::DynamicScene,
    type_registry: &bevy::reflect::TypeRegistryArc,
) -> (document: Option<String>) {
    scene.serialize_ron(type_registry).ok()
}

/// The text of a scene that holds nothing, as the engine writes it, or
/// `None` when the engine cannot write it.
fn serialize_empty_scene() -> (document: Option<String>) {
    let type_registry = default_type_registry();
    let scene = empty_scene(&type_registry);
    serialize_scene(&scene, &type_registry)
}

/// Why a scene could not be made.
#[derive(Clone, Copy, Debug, PartialEq, Eq, Structural)]
pub enum SceneError {
    /// The engine could not write out an empty scene.
    Serialization,
}

/// What is to be done for a new, empty scene to be at `path` in the
/// directory `parent`: nothing where a file is there already; else write
/// the text of an empty scene. Fails only where that text cannot be had.
pub fn create_and_save_scene(path: String, parent: String, target_exists: bool) -> (r: Result<
    SceneFileAction,
    SceneError,
>)
    ensures
        match r {
            Ok(action) => if target_exists {
                action@ is Nothing
            } else {
                action@ matches SceneFileActionView::Write { parent: to_make, path: to_write, .. }
                    && to_make == parent@ && to_write == path@
            },
            Err(error) => !target_exists && error == SceneError::Serialization,
        },
{
    if target_exists {
        // A file that is there is left alone, whatever the engine would
        // write: the engine is not asked.
        return Ok(SceneFileAction::Nothing);
    }
    match serialize_empty_scene() {
        Some(contents) => {
            Ok(save_scene_if_absent(SceneTarget { path, parent }, target_exists, contents))
        },
        None => Err(SceneError::Serialization),
    }
}

/// What an undo/redo event asks of the scene files.
#[derive(Debug)]
pub enum SceneReplay {
    /// Nothing: the event carries another kind of command, or no scene.
    Nothing,
    /// Remove the scene file.
    Remove { path: String },
    /// Make the scene file again, if it is not there.
    Create { target: SceneTarget },
}

/// The model of a `SceneReplay`.
pub enum SceneReplayView {
    Nothing,
    Remove { path: Seq<char> },
    Create { target: SceneTargetView },
}

impl View for SceneReplay {
    type V = SceneReplayView;

    open spec fn view(&self) -> SceneReplayView {
        match self {
            SceneReplay::Nothing => SceneReplayView::Nothing,
            SceneReplay::Remove { path } => SceneReplayView::Remove { path: path@ },
            SceneReplay::Create { target } => SceneReplayView::Create { target: target@ },
        }
    }
}

/// What an undo/redo event asks of the scene files: an undo of a
/// `CreateSceneCommand` removes the file of its scene, a redo makes it again.
pub open spec fn scene_replay_of(event: UndoRedoView) -> SceneReplayView {
    match event.inner {
        CommandAnyView::CreateScene(command) => match event.mode {
            CommandExecuteDirection::Undo => match command.scene {
                Some(scene) => SceneReplayView::Remove { path: scene.path },
                None => SceneReplayView::Nothing,
            },
            CommandExecuteDirection::Redo => match scene_target_of(command) {
                Some(target) => SceneReplayView::Create { target },
                None => SceneReplayView::Nothing,
            },
        },
        _ => SceneReplayView::Nothing,
    }
}

/// Reads an undo/redo event for what it asks of the scene files. Events
/// that carry another kind of command ask for nothing. Whatever is then done
/// on disk, nothing is recorded: the command is in the history already.
pub fn replay_scene(event: &UndoRedoCommandEvent) -> (replay: SceneReplay)
    ensures
        replay@ == scene_replay_of(event@),
{
    match event.inner.as_create_scene() {
        Some(create_scene_event) => {
            match event.mode {
                CommandExecuteDirection::Undo => match &create_scene_event.scene {
                    Some(scene_descriptor) => SceneReplay::Remove {
                        path: scene_descriptor.path.clone(),
                    },
                    None => SceneReplay::Nothing,
                },
                CommandExecuteDirection::Redo => match create_scene_event.target() {
                    Some(target) => SceneReplay::Create { target },
                    None => SceneReplay::Nothing,
                },
            }
        },
        None => SceneReplay::Nothing,
    }
}

/// Asking twice for the same scene file writes it once: whatever files
/// were there, after the first request the second finds the file and does
/// nothing, so the file holds what it held after the first request, and no
/// second command is recorded.
pub proof fn lemma_create_scene_twice(
    files: Map<Seq<char>, Seq<char>>,
    target: SceneTargetView,
    first_contents: Seq<char>,
    second_contents: Seq<char>,
)
    ensures
        ({
            let first = SceneFileActionView::create_if_absent(
                target,
                files.dom().contains(target.path),
                first_contents,
            );
            let after_first = first.applied_to(files);
            let second = SceneFileActionView::create_if_absent(
                target,
                after_first.dom().contains(target.path),
                second_contents,
            );
            &&& after_first.dom().contains(target.path)
            &&& !files.dom().contains(target.path) ==> first is Write && after_first[target.path]
                == first_contents
            &&& files.dom().contains(target.path) ==> first is Nothing && after_first == files
            &&& second is Nothing
            &&& second.applied_to(after_first) == after_first
        }),
{
}

} // verus!
