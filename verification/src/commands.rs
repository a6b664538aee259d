//! The undo/redo core: commands, the events that carry them, and the history
//! that records them.

use vstd::prelude::*;
use crate::asset_browser::{EnterDirectoryCommand, EnterDirectoryView};
use crate::scene::{CreateSceneCommand, CreateSceneView, OpenSceneCommand, OpenSceneView};
use crate::text::{append_decimal, decimal};

verus! {

/// The tag by which the kind of a command is told.
#[derive(Clone, Copy, Debug, PartialEq, Eq, Structural)]
pub enum CommandType {
    EnterDirectory,
    CreateScene,
    OpenScene,
}

/// What the history asks of a command: that it can be made anew, for the
/// history to keep and for an undo or a redo to send out, and that it tells
/// its kind.
pub trait Command {
    /// The command as a value of the model, whatever its kind.
    spec fn as_any(&self) -> CommandAnyView;

    /// A new command equal to this one.
    fn recreate(&self) -> (copy: CommandAny)
        ensures
            copy@ == self.as_any(),
    ;

    /// The kind of the command.
    fn command_type(&self) -> (tag: CommandType)
        ensures
            tag == self.as_any().command_type(),
    ;
}

/// A command of any kind.
#[derive(Debug)]
pub enum CommandAny {
    EnterDirectory(EnterDirectoryCommand),
    CreateScene(CreateSceneCommand),
    OpenScene(OpenSceneCommand),
}

/// The model of a `CommandAny`.
pub enum CommandAnyView {
    EnterDirectory(EnterDirectoryView),
    CreateScene(CreateSceneView),
    OpenScene(OpenSceneView),
}

impl CommandAnyView {
    /// The kind of the command.
    pub open spec fn command_type(self) -> CommandType {
        match self {
            CommandAnyView::EnterDirectory(_) => CommandType::EnterDirectory,
            CommandAnyView::CreateScene(_) => CommandType::CreateScene,
            CommandAnyView::OpenScene(_) => CommandType::OpenScene,
        }
    }
}

impl View for CommandAny {
    type V = CommandAnyView;

    open spec fn view(&self) -> CommandAnyView {
        match self {
            CommandAny::EnterDirectory(command) => CommandAnyView::EnterDirectory(command@),
            CommandAny::CreateScene(command) => CommandAnyView::CreateScene(command@),
            CommandAny::OpenScene(command) => CommandAnyView::OpenScene(command@),
        }
    }
}

impl Command for CommandAny {
    open spec fn as_any(&self) -> CommandAnyView {
        self@
    }

    fn recreate(&self) -> (copy: CommandAny) {
        match self {
            CommandAny::EnterDirectory(command) => command.recreate(),
            CommandAny::CreateScene(command) => command.recreate(),
            CommandAny::OpenScene(command) => command.recreate(),
        }
    }

    fn command_type(&self) -> (tag: CommandType) {
        match self {
            CommandAny::EnterDirectory(command) => command.command_type(),
            CommandAny::CreateScene(command) => command.command_type(),
            CommandAny::OpenScene(command) => command.command_type(),
        }
    }
}

impl CommandAny {
    /// The command as a change of directory, if it is one.
    pub fn as_enter_directory(&self) -> (command: Option<&EnterDirectoryCommand>)
        ensures
            match command {
                Some(inner) => self@ == CommandAnyView::EnterDirectory(inner@),
                None => self@.command_type() != CommandType::EnterDirectory,
            },
    {
        match self {
            CommandAny::EnterDirectory(command) => Some(command),
            _ => None,
        }
    }

    /// The command as the creation of a scene, if it is one.
    pub fn as_create_scene(&self) -> (command: Option<&CreateSceneCommand>)
        ensures
            match command {
                Some(inner) => self@ == CommandAnyView::CreateScene(inner@),
                None => self@.command_type() != CommandType::CreateScene,
            },
    {
        match self {
            CommandAny::CreateScene(command) => Some(command),
            _ => None,
        }
    }

    /// The command as the opening of a scene, if it is one.
    pub fn as_open_scene(&self) -> (command: Option<&OpenSceneCommand>)
        ensures
            match command {
                Some(inner) => self@ == CommandAnyView::OpenScene(inner@),
                None => self@.command_type() != CommandType::OpenScene,
            },
    {
        match self {
            CommandAny::OpenScene(command) => Some(command),
            _ => None,
        }
    }
}

/// How a command taken from the history is to be applied again.
#[derive(Clone, Copy, Debug, PartialEq, Eq, Structural)]
pub enum CommandExecuteDirection {
    Undo,
    Redo,
}

/// Tells the history that a command was carried out and is to be recorded.
#[derive(Debug)]
pub struct CommandExecutedEvent {
    pub inner: CommandAny,
}

impl CommandExecutedEvent {
    /// A new command equal to the one the event carries.
    pub fn consume(&self) -> (command: CommandAny)
        ensures
            command@ == self.inner@,
    {
        self.inner.recreate()
    }
}

/// Tells whoever carries out commands to apply one again, backwards or
/// forwards. What is applied on this event is not recorded anew.
#[derive(Debug)]
pub struct UndoRedoCommandEvent {
    pub inner: CommandAny,
    pub mode: CommandExecuteDirection,
}

/// The model of an `UndoRedoCommandEvent`.
pub struct UndoRedoView {
    pub inner: CommandAnyView,
    pub mode: CommandExecuteDirection,
}

impl View for UndoRedoCommandEvent {
    type V = UndoRedoView;

    open spec fn view(&self) -> UndoRedoView {
        UndoRedoView { inner: self.inner@, mode: self.mode }
    }
}

impl UndoRedoCommandEvent {
    /// A new command equal to the one the event carries.
    pub fn consume(&self) -> (command: CommandAny)
        ensures
            command@ == self.inner@,
    {
        self.inner.recreate()
    }

    /// The kind of the command the event carries.
    pub fn command_type(&self) -> (tag: CommandType)
        ensures
            tag == self.inner@.command_type(),
    {
        self.inner.command_type()
    }
}

/// The history of commands, with a pointer to the one that an undo would
/// take back.
#[derive(Debug)]
pub struct CommandQueue {
    /// The recorded commands, oldest first.
    pub items: Vec<CommandAny>,
    /// Index of the last command that is in effect; `None` when none is.
    pub pointer: Option<usize>,
}

/// The model of a `CommandQueue`.
pub struct QueueView {
    pub items: Seq<CommandAnyView>,
    pub pointer: Option<nat>,
}

/// The models of a sequence of commands.
pub open spec fn command_views_of(items: Seq<CommandAny>) -> Seq<CommandAnyView> {
    Seq::new(items.len(), |i: int| items[i]@)
}

impl View for CommandQueue {
    type V = QueueView;

    open spec fn view(&self) -> QueueView {
        QueueView {
            items: command_views_of(self.items@),
            pointer: match self.pointer {
                Some(p) => Some(p as nat),
                None => None,
            },
        }
    }
}

impl QueueView {
    /// The history in which nothing is recorded.
    pub open spec fn empty() -> QueueView {
        QueueView { items: Seq::empty(), pointer: None }
    }

    /// The pointer is empty or points at a recorded command.
    pub open spec fn wf(self) -> bool {
        match self.pointer {
            Some(p) => p < self.items.len(),
            None => true,
        }
    }

    /// How many of the recorded commands are in effect: those up to the
    /// pointer.
    pub open spec fn applied(self) -> nat {
        match self.pointer {
            Some(p) => if p < self.items.len() {
                p + 1
            } else {
                self.items.len()
            },
            None => 0,
        }
    }

    /// The history after `command` was recorded: what lies behind the
    /// pointer is dropped, the command comes last and the pointer is on it.
    pub open spec fn insert(self, command: CommandAnyView) -> QueueView {
        let kept = self.items.take(self.applied() as int);
        QueueView { items: kept.push(command), pointer: Some(kept.len()) }
    }

    /// The event that an undo sends out, if there is a command to take
    /// back.
    pub open spec fn undo_event(self) -> Option<UndoRedoView> {
        match self.pointer {
            Some(p) => if p < self.items.len() {
                Some(UndoRedoView { inner: self.items[p as int], mode: CommandExecuteDirection::Undo })
            } else {
                None
            },
            None => None,
        }
    }

    /// The history after an undo: the pointer steps back, the commands
    /// stay. Unchanged when there is nothing to undo.
    pub open spec fn undo(self) -> QueueView {
        match self.pointer {
            Some(p) => if p < self.items.len() {
                QueueView {
                    pointer: if p > 0 {
                        Some((p - 1) as nat)
                    } else {
                        None
                    },
                    ..self
                }
            } else {
                self
            },
            None => self,
        }
    }

    /// The index that a redo would move the pointer to.
    pub open spec fn next_index(self) -> nat {
        match self.pointer {
            Some(p) => p + 1,
            None => 0,
        }
    }

    /// The event that a redo sends out, if a command lies behind the
    /// pointer.
    pub open spec fn redo_event(self) -> Option<UndoRedoView> {
        if self.next_index() < self.items.len() {
            Some(
                UndoRedoView {
                    inner: self.items[self.next_index() as int],
                    mode: CommandExecuteDirection::Redo,
                },
            )
        } else {
            None
        }
    }

    /// The history after a redo: the pointer steps forward, the commands
    /// stay. Unchanged when there is nothing to redo.
    pub open spec fn redo(self) -> QueueView {
        if self.next_index() < self.items.len() {
            QueueView { pointer: Some(self.next_index()), ..self }
        } else {
            self
        }
    }

    /// The history in a line of text: how many commands it holds and where
    /// the pointer is.
    pub open spec fn described(self) -> Seq<char> {
        "CommandQueue length: "@ + decimal(self.items.len()) + ", pointer position: "@
            + match self.pointer {
            Some(p) => "Some("@ + decimal(p) + ")"@,
            None => "None"@,
        }
    }

    /// The history after the commands were recorded one after another.
    pub open spec fn insert_all(self, commands: Seq<CommandAnyView>) -> QueueView
        decreases commands.len(),
    {
        if commands.len() == 0 {
            self
        } else {
            self.insert_all(commands.drop_last()).insert(commands.last())
        }
    }

    /// The history after `count` undos.
    pub open spec fn undo_times(self, count: nat) -> QueueView
        decreases count,
    {
        if count == 0 {
            self
        } else {
            self.undo_times((count - 1) as nat).undo()
        }
    }
}

/// Recording always leaves the pointer on the command just recorded, which
/// is the last one.
pub proof fn lemma_insert_points_at_last(queue: QueueView, command: CommandAnyView)
    ensures
        queue.insert(command).wf(),
        queue.insert(command).items.len() == queue.applied() + 1,
        queue.insert(command).pointer == Some(queue.applied()),
        queue.insert(command).items.last() == command,
        queue.insert(command).applied() == queue.insert(command).items.len(),
{
}

/// Starting from nothing, recording commands keeps all of them in effect.
pub proof fn lemma_insert_all_from_empty(commands: Seq<CommandAnyView>)
    ensures
        QueueView::empty().insert_all(commands).items == commands,
        QueueView::empty().insert_all(commands).applied() == commands.len(),
        QueueView::empty().insert_all(commands).wf(),
    decreases commands.len(),
{
    if commands.len() > 0 {
        let front = commands.drop_last();
        lemma_insert_all_from_empty(front);
        let before = QueueView::empty().insert_all(front);
        assert(before.items.take(before.applied() as int) =~= front);
        assert(front.push(commands.last()) =~= commands);
    }
}

/// Undos leave the recorded commands alone and take one command out of
/// effect each, as long as one is left.
pub proof fn lemma_undo_times(queue: QueueView, count: nat)
    requires
        queue.wf(),
    ensures
        queue.undo_times(count).wf(),
        queue.undo_times(count).items == queue.items,
        queue.undo_times(count).applied() == if count <= queue.applied() {
            queue.applied() - count
        } else {
            0
        },
    decreases count,
{
    if count > 0 {
        lemma_undo_times(queue, (count - 1) as nat);
    }
}

/// After `commands.len()` commands were recorded and `undos` of them undone,
/// recording one more leaves the commands that were still in effect followed
/// by the new one, with the pointer on it: the undone ones are gone.
pub proof fn lemma_insert_after_undos(
    commands: Seq<CommandAnyView>,
    undos: nat,
    command: CommandAnyView,
)
    requires
        undos <= commands.len(),
    ensures
        ({
            let queue = QueueView::empty().insert_all(commands).undo_times(undos).insert(command);
            &&& queue.items.len() == (commands.len() - undos) + 1
            &&& queue.pointer == Some((queue.items.len() - 1) as nat)
            &&& queue.items == commands.take(commands.len() - undos).push(command)
        }),
{
    lemma_insert_all_from_empty(commands);
    lemma_undo_times(QueueView::empty().insert_all(commands), undos);
}

/// An undo followed by a redo gives back the history as it was, commands
/// and pointer, whenever there was a command to undo; the two events carry
/// the command the pointer was on, first backwards and then forwards.
pub proof fn lemma_undo_then_redo(queue: QueueView)
    requires
        queue.wf(),
        queue.pointer is Some,
    ensures
        queue.undo().redo() == queue,
        queue.undo_event() == Some(
            UndoRedoView {
                inner: queue.items[queue.pointer->0 as int],
                mode: CommandExecuteDirection::Undo,
            },
        ),
        queue.undo().redo_event() == Some(
            UndoRedoView {
                inner: queue.items[queue.pointer->0 as int],
                mode: CommandExecuteDirection::Redo,
            },
        ),
{
}

/// A redo followed by an undo gives back the history as it was, whenever
/// there was a command to redo.
pub proof fn lemma_redo_then_undo(queue: QueueView)
    requires
        queue.wf(),
        queue.redo_event() is Some,
    ensures
        queue.redo().undo() == queue,
        queue.redo().undo_event() == Some(
            UndoRedoView { inner: queue.redo_event()->0.inner, mode: CommandExecuteDirection::Undo },
        ),
{
}

/// Whatever the history held, once a command is recorded an undo followed by
/// a redo returns to the history as it was right after the recording: the
/// pointer is back on the command and no command was added or lost.
pub proof fn lemma_insert_undo_redo(queue: QueueView, command: CommandAnyView)
    ensures
        queue.insert(command).undo().redo() == queue.insert(command),
        queue.insert(command).undo().items == queue.insert(command).items,
        queue.insert(command).undo_event() == Some(
            UndoRedoView { inner: command, mode: CommandExecuteDirection::Undo },
        ),
        queue.insert(command).undo().redo_event() == Some(
            UndoRedoView { inner: command, mode: CommandExecuteDirection::Redo },
        ),
{
    lemma_insert_points_at_last(queue, command);
    lemma_undo_then_redo(queue.insert(command));
}

impl CommandQueue {
    /// A history in which nothing is recorded.
    pub fn new() -> (queue: CommandQueue)
        ensures
            queue@ == QueueView::empty(),
    {
        let queue = CommandQueue { items: Vec::new(), pointer: None };
        assert(queue@.items =~= Seq::empty());
        queue
    }

    /// The history in a line of text: how many commands it holds and where
    /// the pointer is.
    pub fn to_string(&self) -> (text: String)
        ensures
            text@ == self@.described(),
    {
        let mut text = "CommandQueue length: ".to_owned();
        append_decimal(&mut text, self.items.len());
        text.append(", pointer position: ");
        match self.pointer {
            Some(p) => {
                text.append("Some(");
                append_decimal(&mut text, p);
                text.append(")");
            },
            None => {
                text.append("None");
            },
        }
        assert(text@ =~= self@.described());
        text
    }

    /// Records `command` as the last one in effect. The commands behind the
    /// pointer, which were undone, are dropped.
    pub fn insert(&mut self, command: CommandAny)
        ensures
            final(self)@ == old(self)@.insert(command@),
            final(self)@.wf(),
    {
        let ghost before = self@;
        match self.pointer {
            Some(ptr) => {
                if self.items.len() > 0 && ptr < self.items.len() - 1 {
                    self.items.truncate(ptr + 1);
                }
            },
            None => {
                self.items.clear();
            },
        }
        assert(command_views_of(self.items@) =~= before.items.take(before.applied() as int));
        self.items.push(command);
        self.pointer = Some(self.items.len() - 1);
        assert(self@.items =~= before.insert(command@).items);
    }

    /// Takes the last command in effect back: gives the event that carries a
    /// copy of it, to be applied backwards, and moves the pointer one step
    /// back. Gives `None` and changes nothing when no command is in effect.
    pub fn undo(&mut self) -> (event: Option<UndoRedoCommandEvent>)
        ensures
            final(self)@ == old(self)@.undo(),
            match event {
                Some(e) => old(self)@.undo_event() == Some(e@),
                None => old(self)@.undo_event() is None,
            },
            old(self)@.wf() ==> final(self)@.wf(),
    {
        match self.pointer {
            Some(ptr) => {
                if ptr < self.items.len() {
                    let inner = self.items[ptr].recreate();
                    self.pointer = if ptr > 0 {
                        Some(ptr - 1)
                    } else {
                        None
                    };
                    Some(UndoRedoCommandEvent { inner, mode: CommandExecuteDirection::Undo })
                } else {
                    None
                }
            },
            None => None,
        }
    }

    /// Applies the command behind the pointer again: gives the event that
    /// carries a copy of it, to be applied forwards, and moves the pointer
    /// onto it. Gives `None` and changes nothing when no command lies behind
    /// the pointer.
    pub fn redo(&mut self) -> (event: Option<UndoRedoCommandEvent>)
        ensures
            final(self)@ == old(self)@.redo(),
            match event {
                Some(e) => old(self)@.redo_event() == Some(e@),
                None => old(self)@.redo_event() is None,
            },
            old(self)@.wf() ==> final(self)@.wf(),
    {
        let post_redo_index = match self.pointer {
            Some(ptr) => {
                if ptr < self.items.len() {
                    ptr + 1
                } else {
                    return None;
                }
            },
            None => 0,
        };
        if post_redo_index < self.items.len() {
            let inner = self.items[post_redo_index].recreate();
            self.pointer = Some(post_redo_index);
            Some(UndoRedoCommandEvent { inner, mode: CommandExecuteDirection::Redo })
        } else {
            None
        }
    }
}

/// The models of a sequence of executed events: the commands they carry.
pub open spec fn executed_views_of(events: Seq<CommandExecutedEvent>) -> Seq<CommandAnyView> {
    Seq::new(events.len(), |i: int| events[i].inner@)
}

/// The models of a sequence of undo/redo events.
pub open spec fn undo_redo_views_of(events: Seq<UndoRedoCommandEvent>) -> Seq<UndoRedoView> {
    Seq::new(events.len(), |i: int| events[i]@)
}

/// Records the commands of the executed events, in the order the events
/// came in.
pub fn process_commands_system(queue: &mut CommandQueue, commands: &Vec<CommandExecutedEvent>)
    ensures
        final(queue)@ == old(queue)@.insert_all(executed_views_of(commands@)),
        commands@.len() > 0 ==> final(queue)@.wf(),
{
    let ghost all = executed_views_of(commands@);
    let mut i: usize = 0;
    assert(all.take(0) =~= Seq::empty());
    while i < commands.len()
        invariant
            0 <= i <= commands.len(),
            all == executed_views_of(commands@),
            queue@ == old(queue)@.insert_all(all.take(i as int)),
            i > 0 ==> queue@.wf(),
        decreases commands.len() - i,
    {
        proof {
            assert(all.take(i + 1).drop_last() =~= all.take(i as int));
            assert(all.take(i + 1).last() == commands@[i as int].inner@);
        }
        queue.insert(commands[i].consume());
        i = i + 1;
    }
    assert(all.take(i as int) =~= all);
}

impl QueueView {
    /// The history after the keyboard shortcuts of one frame were obeyed:
    /// with the modifier held, a fresh press of the undo key undoes, and
    /// then a fresh press of the redo key redoes.
    pub open spec fn after_shortcuts(
        self,
        modifier_pressed: bool,
        undo_just_pressed: bool,
        redo_just_pressed: bool,
    ) -> QueueView {
        let undone = if modifier_pressed && undo_just_pressed {
            self.undo()
        } else {
            self
        };
        if modifier_pressed && redo_just_pressed {
            undone.redo()
        } else {
            undone
        }
    }

    /// The events that obeying the shortcuts sends out, in order.
    pub open spec fn shortcut_events(
        self,
        modifier_pressed: bool,
        undo_just_pressed: bool,
        redo_just_pressed: bool,
    ) -> Seq<UndoRedoView> {
        let undo_wanted = modifier_pressed && undo_just_pressed;
        let undone = if undo_wanted {
            self.undo()
        } else {
            self
        };
        let first = if undo_wanted && self.undo_event() is Some {
            seq![self.undo_event()->0]
        } else {
            Seq::empty()
        };
        if modifier_pressed && redo_just_pressed && undone.redo_event() is Some {
            first.push(undone.redo_event()->0)
        } else {
            first
        }
    }
}

/// Obeys the undo and redo shortcuts of one frame, given what the keyboard
/// reports: whether the modifier key is held and whether the undo key and
/// the redo key went down in this frame. Gives the events to send out.
pub fn undo_redo_system(
    modifier_pressed: bool,
    undo_just_pressed: bool,
    redo_just_pressed: bool,
    queue: &mut CommandQueue,
) -> (events: Vec<UndoRedoCommandEvent>)
    ensures
        final(queue)@ == old(queue)@.after_shortcuts(
            modifier_pressed,
            undo_just_pressed,
            redo_just_pressed,
        ),
        undo_redo_views_of(events@) == old(queue)@.shortcut_events(
            modifier_pressed,
            undo_just_pressed,
            redo_just_pressed,
        ),
        old(queue)@.wf() ==> final(queue)@.wf(),
{
    let mut events: Vec<UndoRedoCommandEvent> = Vec::new();
    if modifier_pressed && undo_just_pressed {
        match queue.undo() {
            Some(event) => {
                events.push(event);
            },
            None => {},
        }
    }
    if modifier_pressed && redo_just_pressed {
        match queue.redo() {
            Some(event) => {
                events.push(event);
            },
            None => {},
        }
    }
    assert(undo_redo_views_of(events@) =~= old(queue)@.shortcut_events(
        modifier_pressed,
        undo_just_pressed,
        redo_just_pressed,
    ));
    events
}

} // verus!
