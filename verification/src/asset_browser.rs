//! The asset browser: which directory is selected, and the command that
//! changes the selection.

use vstd::prelude::*;
use crate::assets::AssetType;
use crate::commands::{
    executed_views_of, undo_redo_views_of, Command, CommandAny, CommandAnyView,
    CommandExecuteDirection, CommandExecutedEvent, CommandType, QueueView, UndoRedoCommandEvent,
    UndoRedoView,
};
use crate::directory::{lemma_views_of, views_of, AssetDirectory, DirectoryView};

verus! {

/// What a click in the browser picked.
#[derive(Debug)]
pub enum Selection {
    /// The directory at this path.
    Directory(String),
    /// This asset.
    Asset(AssetType),
}

/// The command that a selection gives rise to.
#[derive(Debug)]
pub enum SelectionCommand {
    Directory(EnterDirectoryCommand),
    Asset,
}

/// Asks for another directory to be selected. It names the directory that
/// was selected before, so that it can be undone.
#[derive(Debug)]
pub struct EnterDirectoryCommand {
    /// Path of the directory that was selected when the command was made.
    pub previous_selected_directory: String,
    /// Path of the directory to select.
    pub new_selected_directory: String,
}

/// The model of an `EnterDirectoryCommand`.
pub struct EnterDirectoryView {
    pub previous_selected_directory: Seq<char>,
    pub new_selected_directory: Seq<char>,
}

impl View for EnterDirectoryCommand {
    type V = EnterDirectoryView;

    open spec fn view(&self) -> EnterDirectoryView {
        EnterDirectoryView {
            previous_selected_directory: self.previous_selected_directory@,
            new_selected_directory: self.new_selected_directory@,
        }
    }
}

impl Clone for EnterDirectoryCommand {
    fn clone(&self) -> (copy: Self)
        ensures
            copy@ == self@,
    {
        EnterDirectoryCommand {
            previous_selected_directory: self.previous_selected_directory.clone(),
            new_selected_directory: self.new_selected_directory.clone(),
        }
    }
}

impl Command for EnterDirectoryCommand {
    open spec fn as_any(&self) -> CommandAnyView {
        CommandAnyView::EnterDirectory(self@)
    }

    fn recreate(&self) -> (copy: CommandAny) {
        CommandAny::EnterDirectory(self.clone())
    }

    fn command_type(&self) -> (tag: CommandType) {
        CommandType::EnterDirectory
    }
}

impl DirectoryView {
    /// The directory by itself: its name and path, with nothing in it.
    pub open spec fn bare(self) -> DirectoryView {
        DirectoryView {
            name: self.name,
            path: self.path,
            children: Seq::empty(),
            assets: Seq::empty(),
        }
    }

    /// The directory one level deep: its name, its path, its assets, and its
    /// child directories by themselves.
    pub open spec fn shallow(self) -> DirectoryView {
        DirectoryView {
            name: self.name,
            path: self.path,
            children: Seq::new(self.children.len(), |i: int| self.children[i].bare()),
            assets: self.assets,
        }
    }

    /// Whether the directory goes no deeper than one level.
    pub open spec fn is_shallow(self) -> bool {
        forall|i: int|
            0 <= i < self.children.len() ==> #[trigger] self.children[i] == self.children[i].bare()
    }

    /// A one-level copy is one level deep, and taking one of it again
    /// changes nothing.
    pub proof fn lemma_shallow(self)
        ensures
            self.shallow().is_shallow(),
            self.shallow().shallow() == self.shallow(),
            self.is_shallow() ==> self.shallow() == self,
    {
        assert(self.shallow().shallow().children =~= self.shallow().children);
        if self.is_shallow() {
            assert(self.shallow().children =~= self.children);
        }
    }
}

/// A one-level copy of the directory that is selected in the browser.
#[derive(Debug)]
pub struct SelectedDirectory {
    details: AssetDirectory,
}

impl PartialEq for SelectedDirectory {
    /// Two selections are the same when they select the same directory.
    fn eq(&self, other: &Self) -> (same: bool) {
        self.details == other.details
    }
}

impl Eq for SelectedDirectory {

}

impl vstd::std_specs::cmp::PartialEqSpecImpl for SelectedDirectory {
    open spec fn obeys_eq_spec() -> bool {
        true
    }

    open spec fn eq_spec(&self, other: &Self) -> bool {
        self@.path == other@.path
    }
}

impl View for SelectedDirectory {
    type V = DirectoryView;

    closed spec fn view(&self) -> DirectoryView {
        self.details@
    }
}

/// The selection before any directory was selected: a directory called
/// `Dummy`, with an empty path and nothing in it.
pub open spec fn dummy_selection() -> DirectoryView {
    DirectoryView { name: "Dummy"@, path: Seq::empty(), children: Seq::empty(), assets: Seq::empty() }
}

impl SelectedDirectory {
    /// The copy never goes deeper than one level.
    #[verifier::type_invariant]
    spec fn one_level(self) -> bool {
        self.details@.is_shallow()
    }
}

impl Default for SelectedDirectory {
    fn default() -> (selected: Self)
        ensures
            selected@ == dummy_selection(),
    {
        let selected = SelectedDirectory {
            details: AssetDirectory {
                name: "Dummy".to_owned(),
                path: String::new(),
                children_directories: Vec::new(),
                assets: Vec::new(),
            },
        };
        proof {
            selected.details.lemma_view();
            assert(selected@.children =~= Seq::empty());
            assert(selected@.assets =~= Seq::empty());
        }
        selected
    }
}

impl SelectedDirectory {
    /// A one-level copy of `other`: its name, its path, copies of its assets,
    /// and its child directories by name and path only.
    pub fn from(other: &AssetDirectory) -> (selected: Self)
        ensures
            selected@ == other@.shallow(),
    {
        let mut children_directories: Vec<AssetDirectory> = Vec::new();
        let mut i: usize = 0;
        proof {
            other.lemma_view();
        }
        while i < other.children_directories.len()
            invariant
                0 <= i <= other.children_directories.len(),
                other@.children == views_of(other.children_directories@),
                other@.children.len() == other.children_directories@.len(),
                children_directories@.len() == i,
                forall|j: int|
                    0 <= j < i ==> (#[trigger] children_directories@[j])@
                        == other@.children[j].bare(),
            decreases other.children_directories.len() - i,
        {
            let child = &other.children_directories[i];
            let copy = AssetDirectory {
                name: child.name.clone(),
                path: child.path.clone(),
                children_directories: Vec::new(),
                assets: Vec::new(),
            };
            proof {
                child.lemma_view();
                copy.lemma_view();
                lemma_views_of(other.children_directories@);
                assert(copy@.children =~= Seq::empty());
                assert(copy@.assets =~= Seq::empty());
            }
            children_directories.push(copy);
            i = i + 1;
        }
        let mut assets: Vec<AssetType> = Vec::new();
        let mut k: usize = 0;
        while k < other.assets.len()
            invariant
                0 <= k <= other.assets.len(),
                assets@.len() == k,
                forall|j: int| 0 <= j < k ==> (#[trigger] assets@[j])@ == other.assets@[j]@,
            decreases other.assets.len() - k,
        {
            assets.push(other.assets[k].clone());
            k = k + 1;
        }
        let details = AssetDirectory {
            name: other.name.clone(),
            path: other.path.clone(),
            children_directories,
            assets,
        };
        proof {
            details.lemma_view();
            lemma_views_of(details.children_directories@);
            assert(details@.children =~= other@.shallow().children);
            assert(details@.assets =~= other@.shallow().assets);
            other@.lemma_shallow();
        }
        SelectedDirectory { details }
    }

    /// The path of the selected directory.
    pub fn get_path(&self) -> (path: String)
        ensures
            path@ == self@.path,
    {
        self.details.get_path()
    }

    /// The selected directory, one level deep.
    pub fn details(&self) -> (details: &AssetDirectory)
        ensures
            details@ == self@,
            details@.is_shallow(),
    {
        proof {
            use_type_invariant(self);
        }
        &self.details
    }

    /// The command that asks to go from the selected directory to the one at
    /// `new_selected_directory`.
    pub fn enter_command(&self, new_selected_directory: String) -> (command:
        EnterDirectoryCommand)
        ensures
            command@ == (EnterDirectoryView {
                previous_selected_directory: self@.path,
                new_selected_directory: new_selected_directory@,
            }),
    {
        EnterDirectoryCommand {
            previous_selected_directory: self.get_path(),
            new_selected_directory,
        }
    }

    /// The command that a selection in the browser gives rise to: a
    /// directory asks to be entered, an asset asks for nothing yet.
    pub fn selection_command(&self, selection: Selection) -> (command: SelectionCommand)
        ensures
            match selection {
                Selection::Directory(path) => command matches SelectionCommand::Directory(enter)
                    && enter@ == (EnterDirectoryView {
                    previous_selected_directory: self@.path,
                    new_selected_directory: path@,
                }),
                Selection::Asset(_) => command is Asset,
            },
    {
        match selection {
            Selection::Directory(path) => SelectionCommand::Directory(self.enter_command(path)),
            Selection::Asset(_) => SelectionCommand::Asset,
        }
    }
}

impl Clone for SelectedDirectory {
    fn clone(&self) -> (copy: Self)
        ensures
            copy@ == self@,
    {
        proof {
            use_type_invariant(self);
            self@.lemma_shallow();
        }
        Self::from(&self.details)
    }
}

/// Why a directory could not be selected.
#[derive(Clone, Copy, Debug, PartialEq, Eq, Structural)]
pub enum SelectionError {
    /// The tree has no directory with the path that was asked for.
    UnknownDirectory,
}

/// The path that an undo/redo event asks to select: the new directory of an
/// `EnterDirectoryCommand` on a redo, its previous one on an undo. `None`
/// for an event that carries another kind of command.
pub open spec fn replay_target(event: UndoRedoView) -> Option<Seq<char>> {
    match event.inner {
        CommandAnyView::EnterDirectory(command) => Some(
            match event.mode {
                CommandExecuteDirection::Redo => command.new_selected_directory,
                CommandExecuteDirection::Undo => command.previous_selected_directory,
            },
        ),
        _ => None,
    }
}

/// The selection after the directory at `target` was selected from the tree:
/// a one-level copy of it, or the old selection when the tree has no such
/// directory.
pub open spec fn selection_taken(
    selected: DirectoryView,
    root: DirectoryView,
    target: Seq<char>,
) -> DirectoryView {
    match root.find(target) {
        Some(dir) => dir.shallow(),
        None => selected,
    }
}

/// The selection after a command asked for the directory at its new path:
/// nothing changes when that directory is the selected one already.
pub open spec fn selection_entered(
    selected: DirectoryView,
    root: DirectoryView,
    command: EnterDirectoryView,
) -> DirectoryView {
    if selected.path == command.new_selected_directory {
        selected
    } else {
        selection_taken(selected, root, command.new_selected_directory)
    }
}

/// Whether a command changes the selection and is therefore to be recorded:
/// it asks for another directory than the selected one, and the tree has it.
pub open spec fn is_executed(
    selected: DirectoryView,
    root: DirectoryView,
    command: EnterDirectoryView,
) -> bool {
    selected.path != command.new_selected_directory && root.has_path(
        command.new_selected_directory,
    )
}

/// Selects the directory at `target` from the tree. Fails, and leaves the
/// selection as it is, when the tree has no directory with that path.
pub fn take_selection(selected: &mut SelectedDirectory, root: &AssetDirectory, target: &str) -> (r:
    Result<(), SelectionError>)
    ensures
        final(selected)@ == selection_taken(old(selected)@, root@, target@),
        r is Ok <==> root@.has_path(target@),
{
    match root.find_by_path(target) {
        Some(dir) => {
            *selected = SelectedDirectory::from(dir);
            Ok(())
        },
        None => Err(SelectionError::UnknownDirectory),
    }
}

/// Carries out a command that asks for a directory to be selected. A command
/// for the directory that is selected already does nothing and gives no
/// event. Otherwise the directory is selected, and the event to record the
/// command is given. Fails, and leaves the selection as it is, when the tree
/// has no directory with the path asked for.
pub fn enter_directory(
    selected: &mut SelectedDirectory,
    root: &AssetDirectory,
    command: &EnterDirectoryCommand,
) -> (r: Result<Option<CommandExecutedEvent>, SelectionError>)
    ensures
        final(selected)@ == selection_entered(old(selected)@, root@, command@),
        match r {
            Ok(Some(event)) => is_executed(old(selected)@, root@, command@) && event.inner@
                == CommandAnyView::EnterDirectory(command@),
            Ok(None) => old(selected)@.path == command@.new_selected_directory,
            Err(_) => old(selected)@.path != command@.new_selected_directory && !root@.has_path(
                command@.new_selected_directory,
            ),
        },
{
    let current = selected.get_path();
    if current == command.new_selected_directory {
        return Ok(None);
    }
    match take_selection(selected, root, command.new_selected_directory.as_str()) {
        Ok(()) => Ok(Some(CommandExecutedEvent { inner: command.recreate() })),
        Err(error) => Err(error),
    }
}

/// Applies an undo or a redo that carries an `EnterDirectoryCommand`: the
/// new directory is selected on a redo, the previous one on an undo. Events
/// of another kind are passed over. Says whether the event was of its kind.
/// Fails, and leaves the selection as it is, when the tree has no directory
/// with the path to go to. Nothing is given to record: what an undo or a redo
/// applies is in the history already.
pub fn replay_directory(
    selected: &mut SelectedDirectory,
    root: &AssetDirectory,
    event: &UndoRedoCommandEvent,
) -> (r: Result<bool, SelectionError>)
    ensures
        final(selected)@ == match replay_target(event@) {
            Some(target) => selection_taken(old(selected)@, root@, target),
            None => old(selected)@,
        },
        match r {
            Ok(applied) => applied == (replay_target(event@) is Some) && (applied
                ==> root@.has_path(replay_target(event@)->0)),
            Err(_) => replay_target(event@) is Some && !root@.has_path(replay_target(event@)->0),
        },
{
    match event.inner.as_enter_directory() {
        Some(command) => {
            let target = match event.mode {
                CommandExecuteDirection::Redo => &command.new_selected_directory,
                CommandExecuteDirection::Undo => &command.previous_selected_directory,
            };
            match take_selection(selected, root, target.as_str()) {
                Ok(()) => Ok(true),
                Err(error) => Err(error),
            }
        },
        None => Ok(false),
    }
}

/// The selection of the browser when the tree has just been loaded: the
/// root, one level deep, and the command that asks for the root.
pub fn selection_setup(root_directory: &AssetDirectory) -> (r: (
    SelectedDirectory,
    EnterDirectoryCommand,
))
    ensures
        r.0@ == root_directory@.shallow(),
        r.1@ == (EnterDirectoryView {
            previous_selected_directory: root_directory@.path,
            new_selected_directory: root_directory@.path,
        }),
{
    let currently_selected_directory = SelectedDirectory::from(root_directory);
    let select_command = EnterDirectoryCommand {
        new_selected_directory: root_directory.get_path(),
        previous_selected_directory: currently_selected_directory.get_path(),
    };
    (currently_selected_directory, select_command)
}

/// A command for the directory that is selected already leaves the selection
/// as it is, is not to be recorded, and so leaves the history as it is.
pub proof fn lemma_idempotent_selection(
    selected: DirectoryView,
    root: DirectoryView,
    command: EnterDirectoryView,
    queue: QueueView,
)
    requires
        command.new_selected_directory == selected.path,
    ensures
        selection_entered(selected, root, command) == selected,
        !is_executed(selected, root, command),
        executed_commands(selected, root, seq![command]) == Seq::<CommandAnyView>::empty(),
        queue.insert_all(executed_commands(selected, root, seq![command])) == queue,
{
    let one = seq![command];
    assert(one.drop_last() =~= Seq::empty());
    assert(one.last() == command);
    assert(executed_commands(selected, root, one.drop_last()) == Seq::<CommandAnyView>::empty());
}

/// Applying undo/redo events gives nothing to record: whatever the events
/// are, a run without commands leaves the history as it is.
pub proof fn lemma_replay_is_not_recorded(
    selected: DirectoryView,
    root: DirectoryView,
    queue: QueueView,
)
    ensures
        executed_commands(selected, root, Seq::empty()) == Seq::<CommandAnyView>::empty(),
        queue.insert_all(executed_commands(selected, root, Seq::empty())) == queue,
{
}

/// The selection after the commands were carried out one after another.
pub open spec fn selection_entered_all(
    selected: DirectoryView,
    root: DirectoryView,
    commands: Seq<EnterDirectoryView>,
) -> DirectoryView
    decreases commands.len(),
{
    if commands.len() == 0 {
        selected
    } else {
        selection_entered(
            selection_entered_all(selected, root, commands.drop_last()),
            root,
            commands.last(),
        )
    }
}

/// The commands to record after the commands were carried out one after
/// another: those that changed the selection, in order.
pub open spec fn executed_commands(
    selected: DirectoryView,
    root: DirectoryView,
    commands: Seq<EnterDirectoryView>,
) -> Seq<CommandAnyView>
    decreases commands.len(),
{
    if commands.len() == 0 {
        Seq::empty()
    } else {
        let before = executed_commands(selected, root, commands.drop_last());
        if is_executed(
            selection_entered_all(selected, root, commands.drop_last()),
            root,
            commands.last(),
        ) {
            before.push(CommandAnyView::EnterDirectory(commands.last()))
        } else {
            before
        }
    }
}

/// How many of the commands asked for a directory that the tree does not
/// have, and were passed over.
pub open spec fn unknown_commands(
    selected: DirectoryView,
    root: DirectoryView,
    commands: Seq<EnterDirectoryView>,
) -> nat
    decreases commands.len(),
{
    if commands.len() == 0 {
        0
    } else {
        let before = selection_entered_all(selected, root, commands.drop_last());
        let missing: nat = if before.path != commands.last().new_selected_directory
            && !root.has_path(commands.last().new_selected_directory) {
            1
        } else {
            0
        };
        unknown_commands(selected, root, commands.drop_last()) + missing
    }
}

/// The selection after the undo/redo events were applied one after another.
pub open spec fn selection_replayed_all(
    selected: DirectoryView,
    root: DirectoryView,
    events: Seq<UndoRedoView>,
) -> DirectoryView
    decreases events.len(),
{
    if events.len() == 0 {
        selected
    } else {
        let before = selection_replayed_all(selected, root, events.drop_last());
        match replay_target(events.last()) {
            Some(target) => selection_taken(before, root, target),
            None => before,
        }
    }
}

/// How many of the undo/redo events asked for a directory that the tree does
/// not have, and were passed over.
pub open spec fn unknown_replays(root: DirectoryView, events: Seq<UndoRedoView>) -> nat
    decreases events.len(),
{
    if events.len() == 0 {
        0
    } else {
        let missing: nat = match replay_target(events.last()) {
            Some(target) => if root.has_path(target) {
                0
            } else {
                1
            },
            None => 0,
        };
        unknown_replays(root, events.drop_last()) + missing
    }
}

/// The models of a sequence of commands.
pub open spec fn enter_views_of(commands: Seq<EnterDirectoryCommand>) -> Seq<EnterDirectoryView> {
    Seq::new(commands.len(), |i: int| commands[i]@)
}

/// What one run of `select_directory_system` did.
#[derive(Debug)]
pub struct SelectionReport {
    /// The events to send to the history: one for each command that changed
    /// the selection, in order.
    pub executed: Vec<CommandExecutedEvent>,
    /// How many commands named a directory that the tree does not have.
    /// They changed nothing.
    pub unknown_entered: usize,
    /// How many undo/redo events named a directory that the tree does not
    /// have. They changed nothing.
    pub unknown_replayed: usize,
}

/// Carries out the commands that ask for a directory, in order, and then
/// applies the undo/redo events, in order. A command or an event that names
/// a directory unknown to the tree is passed over and counted.
pub fn select_directory_system(
    normal_events: &Vec<EnterDirectoryCommand>,
    undo_redo_events: &Vec<UndoRedoCommandEvent>,
    selected_directory: &mut SelectedDirectory,
    root_directory: &AssetDirectory,
) -> (report: SelectionReport)
    ensures
        final(selected_directory)@ == selection_replayed_all(
            selection_entered_all(
                old(selected_directory)@,
                root_directory@,
                enter_views_of(normal_events@),
            ),
            root_directory@,
            undo_redo_views_of(undo_redo_events@),
        ),
        executed_views_of(report.executed@) == executed_commands(
            old(selected_directory)@,
            root_directory@,
            enter_views_of(normal_events@),
        ),
        report.unknown_entered == unknown_commands(
            old(selected_directory)@,
            root_directory@,
            enter_views_of(normal_events@),
        ),
        report.unknown_replayed == unknown_replays(
            root_directory@,
            undo_redo_views_of(undo_redo_events@),
        ),
{
    let ghost start = selected_directory@;
    let ghost root = root_directory@;
    let ghost commands = enter_views_of(normal_events@);
    let ghost replays = undo_redo_views_of(undo_redo_events@);
    let mut executed: Vec<CommandExecutedEvent> = Vec::new();
    let mut unknown: usize = 0;
    let mut i: usize = 0;
    proof {
        assert(commands.take(0) =~= Seq::empty());
        assert(executed_views_of(executed@) =~= Seq::empty());
    }
    while i < normal_events.len()
        invariant
            0 <= i <= normal_events.len(),
            root == root_directory@,
            commands == enter_views_of(normal_events@),
            selected_directory@ == selection_entered_all(start, root, commands.take(i as int)),
            executed_views_of(executed@) == executed_commands(
                start,
                root,
                commands.take(i as int),
            ),
            unknown == unknown_commands(start, root, commands.take(i as int)),
            unknown <= i,
        decreases normal_events.len() - i,
    {
        let ghost executed_before = executed_views_of(executed@);
        proof {
            assert(commands.take(i + 1).drop_last() =~= commands.take(i as int));
            assert(commands.take(i + 1).last() == normal_events@[i as int]@);
        }
        match enter_directory(selected_directory, root_directory, &normal_events[i]) {
            Ok(Some(event)) => {
                executed.push(event);
                assert(executed_views_of(executed@) =~= executed_before.push(
                    CommandAnyView::EnterDirectory(normal_events@[i as int]@),
                ));
            },
            Ok(None) => {},
            Err(_) => {
                unknown = unknown + 1;
            },
        }
        i = i + 1;
    }
    let ghost entered = selected_directory@;
    let mut unknown_replayed: usize = 0;
    let mut k: usize = 0;
    proof {
        assert(commands.take(i as int) =~= commands);
        assert(replays.take(0) =~= Seq::empty());
    }
    while k < undo_redo_events.len()
        invariant
            0 <= k <= undo_redo_events.len(),
            root == root_directory@,
            replays == undo_redo_views_of(undo_redo_events@),
            selected_directory@ == selection_replayed_all(entered, root, replays.take(k as int)),
            unknown_replayed == unknown_replays(root, replays.take(k as int)),
            unknown_replayed <= k,
        decreases undo_redo_events.len() - k,
    {
        proof {
            assert(replays.take(k + 1).drop_last() =~= replays.take(k as int));
            assert(replays.take(k + 1).last() == undo_redo_events@[k as int]@);
        }
        match replay_directory(selected_directory, root_directory, &undo_redo_events[k]) {
            Ok(_) => {},
            Err(_) => {
                unknown_replayed = unknown_replayed + 1;
            },
        }
        k = k + 1;
    }
    proof {
        assert(replays.take(k as int) =~= replays);
    }
    SelectionReport { executed, unknown_entered: unknown, unknown_replayed }
}

} // verus!
