//! State of the editor as a whole.

use vstd::prelude::*;

verus! {

/// The stages of the editor's start.
#[derive(Clone, Copy, Debug, PartialEq, Eq, Hash, Structural)]
pub enum EditorStateLabel {
    /// The assets of the editor and of the game are being loaded and cannot
    /// be used yet.
    InitializingAssets,
    /// The assets are there.
    PostInitializingAssets,
}

/// Whether what depends on the assets may run.
pub fn run_if_post_initializing_assets(editor_state: EditorStateLabel) -> (run: bool)
    ensures
        run == (editor_state == EditorStateLabel::PostInitializingAssets),
{
    editor_state == EditorStateLabel::PostInitializingAssets
}

/// What the dialog that creates a scene shows.
#[derive(Debug)]
pub struct ShowCreateSceneWidgetContext {
    /// Whether the dialog is open.
    pub show_widget: bool,
    /// The name typed in for the new scene.
    pub scene_name: String,
}

impl Default for ShowCreateSceneWidgetContext {
    fn default() -> (context: Self)
        ensures
            !context.show_widget,
            context.scene_name@ == "new_scene.scn.ron"@,
    {
        ShowCreateSceneWidgetContext {
            show_widget: false,
            scene_name: "new_scene.scn.ron".to_owned(),
        }
    }
}

} // verus!
