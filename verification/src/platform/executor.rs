//! Decisions of plan execution, apart from the input and timing they drive.
//!
//! The caller runs the loop: it asks [`ExecutorState::next_step`] what to do,
//! performs the actions of [`command_actions`] for a command, reports back with
//! [`ExecutorState::command_done`], and saves or reports progress when told to.

use vstd::prelude::*;
use crate::painting::{PaintCommand, CommandView};

verus! {

/// How plan execution ended.
pub enum ExecutionResult {
    /// All commands were executed.
    Completed { commands_executed: usize },
    /// The user cancelled.
    Cancelled { commands_executed: usize, total_commands: usize },
    /// An input action failed.
    Error { commands_executed: usize, error: String },
}

/// One action of the input driver, or a pause.
pub enum InputAction {
    MoveTo { x: i32, y: i32 },
    Click,
    ShiftClick,
    SelectAll,
    TypeText { text: String },
    PressReturn,
    Sleep { ms: u64 },
}

/// The mathematical value of an input action.
pub enum ActionView {
    MoveTo { x: i32, y: i32 },
    Click,
    ShiftClick,
    SelectAll,
    TypeText { text: Seq<char> },
    PressReturn,
    Sleep { ms: u64 },
}

impl View for InputAction {
    type V = ActionView;

    open spec fn view(&self) -> ActionView {
        match self {
            InputAction::MoveTo { x, y } => ActionView::MoveTo { x: *x, y: *y },
            InputAction::Click => ActionView::Click,
            InputAction::ShiftClick => ActionView::ShiftClick,
            InputAction::SelectAll => ActionView::SelectAll,
            InputAction::TypeText { text } => ActionView::TypeText { text: text@ },
            InputAction::PressReturn => ActionView::PressReturn,
            InputAction::Sleep { ms } => ActionView::Sleep { ms: *ms },
        }
    }
}

/// The views of a sequence of actions.
pub open spec fn actions_view(a: Seq<InputAction>) -> Seq<ActionView> {
    a.map_values(|x: InputAction| x@)
}

/// What executing a command does: a move, a click or a shift-click as such; a hex
/// color is selected by clicking the hex field, selecting all, typing the code and
/// pressing return, with pauses of 30, 20, 20 and 30 ms after each; a palette
/// position is moved to and clicked; a delay is a pause.
pub open spec fn command_actions_of(c: CommandView) -> Seq<ActionView> {
    match c {
        CommandView::MoveTo { x, y } => seq![ActionView::MoveTo { x, y }],
        CommandView::Click => seq![ActionView::Click],
        CommandView::ShiftClick => seq![ActionView::ShiftClick],
        CommandView::SelectColorByHex { hex } => seq![
            ActionView::Click,
            ActionView::Sleep { ms: 30 },
            ActionView::SelectAll,
            ActionView::Sleep { ms: 20 },
            ActionView::TypeText { text: hex },
            ActionView::Sleep { ms: 20 },
            ActionView::PressReturn,
            ActionView::Sleep { ms: 30 },
        ],
        CommandView::SelectColorByClick { x, y } => seq![ActionView::MoveTo { x, y }, ActionView::Click],
        CommandView::Delay { ms } => seq![ActionView::Sleep { ms: ms as u64 }],
    }
}

/// The actions that carry out one paint command, in order.
pub fn command_actions(cmd: &PaintCommand) -> (actions: Vec<InputAction>)
    ensures
        actions_view(actions@) == command_actions_of(cmd@),
{
    let actions = match cmd {
        PaintCommand::MoveTo { x, y } => vec![InputAction::MoveTo { x: *x, y: *y }],
        PaintCommand::Click => vec![InputAction::Click],
        PaintCommand::ShiftClick => vec![InputAction::ShiftClick],
        PaintCommand::SelectColorByHex { hex } => vec![
            InputAction::Click,
            InputAction::Sleep { ms: 30 },
            InputAction::SelectAll,
            InputAction::Sleep { ms: 20 },
            InputAction::TypeText { text: hex.clone() },
            InputAction::Sleep { ms: 20 },
            InputAction::PressReturn,
            InputAction::Sleep { ms: 30 },
        ],
        PaintCommand::SelectColorByClick { x, y } => vec![
            InputAction::MoveTo { x: *x, y: *y },
            InputAction::Click,
        ],
        PaintCommand::Delay { ms } => vec![InputAction::Sleep { ms: *ms as u64 }],
    };
    assert(actions_view(actions@) =~= command_actions_of(cmd@));
    actions
}

/// What the executor does next.
pub enum Step {
    /// Execute command `index`.
    Run { index: usize },
    /// Stop: the user cancelled.
    Cancel,
    /// Stop: every command has run.
    Finish,
}

/// After a command ran: what to do before the next one.
pub struct Checkpoint {
    /// Save the session now.
    pub save: bool,
    /// Report progress now.
    pub report: bool,
    /// Commands of the plan done so far, counted from its start.
    pub progress: usize,
}

/// Progress through a plan.
pub struct ExecutorState {
    /// Number of commands in the plan.
    pub total: usize,
    /// Index of the next command.
    pub next: usize,
    /// Commands executed in this run.
    pub executed: usize,
    /// Hex code of the color selected last, if any.
    pub current_color: Option<String>,
    /// Save the session every this many commands (0: never).
    pub save_interval: usize,
    /// Report progress every this many commands (0: never).
    pub progress_interval: usize,
}

/// The mathematical value of an executor state: the current color as text.
pub struct ExecView {
    pub total: usize,
    pub next: usize,
    pub executed: usize,
    pub current_color: Option<Seq<char>>,
    pub save_interval: usize,
    pub progress_interval: usize,
}

impl View for ExecutorState {
    type V = ExecView;

    open spec fn view(&self) -> ExecView {
        ExecView {
            total: self.total,
            next: self.next,
            executed: self.executed,
            current_color: match self.current_color {
                Some(c) => Some(c@),
                None => None,
            },
            save_interval: self.save_interval,
            progress_interval: self.progress_interval,
        }
    }
}

/// The state after one more command ran: the next index and the count of
/// executed commands go up by one, and a hex color selection becomes the current
/// color.
pub open spec fn after_command(v: ExecView, c: CommandView) -> ExecView {
    ExecView {
        next: (v.next + 1) as usize,
        executed: (v.executed + 1) as usize,
        current_color: match c {
            CommandView::SelectColorByHex { hex } => Some(hex),
            _ => v.current_color,
        },
        ..v
    }
}

/// The state after the commands `cmds` ran one after the other.
pub open spec fn after_commands(v: ExecView, cmds: Seq<CommandView>) -> ExecView
    decreases cmds.len(),
{
    if cmds.len() == 0 {
        v
    } else {
        after_command(after_commands(v, cmds.drop_last()), cmds.last())
    }
}

/// The hex code of the last color selection by hex among `cmds`, or `color` if
/// there is none.
pub open spec fn last_hex(cmds: Seq<CommandView>, color: Option<Seq<char>>) -> Option<Seq<char>>
    decreases cmds.len(),
{
    if cmds.len() == 0 {
        color
    } else {
        match cmds.last() {
            CommandView::SelectColorByHex { hex } => Some(hex),
            _ => last_hex(cmds.drop_last(), color),
        }
    }
}

impl ExecutorState {
    /// The run has executed one command for each index it passed since `start`.
    pub open spec fn counts(&self, start: usize) -> bool {
        &&& start <= self.next || (start > self.total && self.next == start)
        &&& self.executed == self.next - start || (start > self.total && self.executed == 0)
    }

    /// A run over `total` commands from index `start`.
    pub fn new(total: usize, start: usize, save_interval: usize, progress_interval: usize) -> (s: Self)
        ensures
            s.total == total,
            s.next == start,
            s.executed == 0,
            s.current_color is None,
            s.save_interval == save_interval,
            s.progress_interval == progress_interval,
            s.counts(start),
    {
        ExecutorState {
            total,
            next: start,
            executed: 0,
            current_color: None,
            save_interval,
            progress_interval,
        }
    }

    /// What to do next: finish once past the last command; otherwise cancel if the
    /// user stopped the run, else run the next command.
    pub fn next_step(&self, keep_going: bool) -> (step: Step)
        ensures
            self.next >= self.total ==> step is Finish,
            self.next < self.total && !keep_going ==> step is Cancel,
            self.next < self.total && keep_going ==> step == (Step::Run { index: self.next }),
    {
        if self.next >= self.total {
            Step::Finish
        } else if !keep_going {
            Step::Cancel
        } else {
            Step::Run { index: self.next }
        }
    }

    /// Record that the next command ran, which was `cmd`: it counts as executed, a
    /// hex color selection becomes the current color, and the checkpoint says
    /// whether to save and report (every `save_interval` and `progress_interval`
    /// executed commands).
    pub fn command_done(&mut self, cmd: &PaintCommand) -> (cp: Checkpoint)
        requires
            old(self).next < old(self).total,
            old(self).executed < old(self).total,
        ensures
            final(self)@ == after_command(old(self)@, cmd@),
            !(*cmd is SelectColorByHex) ==> final(self).current_color == old(self).current_color,
            cp.progress == final(self).next,
            cp.save == (final(self).save_interval > 0 && final(self).executed % final(self).save_interval == 0),
            cp.report == (final(self).progress_interval > 0 && final(self).executed % final(self).progress_interval == 0),
    {
        if let PaintCommand::SelectColorByHex { hex } = cmd {
            self.current_color = Some(hex.clone());
        }
        self.executed = self.executed + 1;
        self.next = self.next + 1;
        let save = self.save_interval > 0 && self.executed % self.save_interval == 0;
        let report = self.progress_interval > 0 && self.executed % self.progress_interval == 0;
        Checkpoint { save, report, progress: self.next }
    }

    /// The result when the user cancelled.
    pub fn cancelled(&self) -> (r: ExecutionResult)
        ensures
            r == (ExecutionResult::Cancelled {
                commands_executed: self.executed,
                total_commands: self.total,
            }),
    {
        ExecutionResult::Cancelled { commands_executed: self.executed, total_commands: self.total }
    }

    /// The result when an input action failed.
    pub fn failed(&self, error: String) -> (r: ExecutionResult)
        ensures
            r matches ExecutionResult::Error { commands_executed, error: e }
                && commands_executed == self.executed && e == error,
    {
        ExecutionResult::Error { commands_executed: self.executed, error }
    }

    /// The result when every command ran.
    pub fn completed(&self) -> (r: ExecutionResult)
        ensures
            r == (ExecutionResult::Completed { commands_executed: self.executed }),
    {
        ExecutionResult::Completed { commands_executed: self.executed }
    }
}

/// Each executed command advances the run by one: a run from `start` that stays
/// counted keeps executing exactly one command per index it passes, and one that
/// finishes has executed every command from `start` on.
pub proof fn run_counts_commands(s: ExecutorState, t: ExecutorState, start: usize)
    requires
        s.counts(start),
        s.next < s.total,
        t.total == s.total,
        t.next == s.next + 1,
        t.executed == s.executed + 1,
    ensures
        t.counts(start),
        t.next >= t.total ==> t.executed == t.total - start,
{
}

/// A run is the executor's steps one after the other: from a state at index
/// `v.next`, after the commands `cmds` ran the run stands at index
/// `v.next + cmds.len()`, has executed `cmds.len()` more commands, and its current
/// color is the last one selected by hex. So a run from `start` that executes the
/// plan's commands up to index `k` (the one whose action failed, or the end) has
/// executed `k - start` commands: what `failed` and `completed` report, and the
/// progress a session records.
pub proof fn run_is_the_steps_in_turn(v: ExecView, cmds: Seq<CommandView>)
    requires
        v.next + cmds.len() <= usize::MAX,
        v.executed + cmds.len() <= usize::MAX,
    ensures
        after_commands(v, cmds).next == v.next + cmds.len(),
        after_commands(v, cmds).executed == v.executed + cmds.len(),
        after_commands(v, cmds).current_color == last_hex(cmds, v.current_color),
        after_commands(v, cmds).total == v.total,
        after_commands(v, cmds).save_interval == v.save_interval,
        after_commands(v, cmds).progress_interval == v.progress_interval,
    decreases cmds.len(),
{
    if cmds.len() > 0 {
        run_is_the_steps_in_turn(v, cmds.drop_last());
    }
}

} // verus!
