//! Running one step of the tool under a progress handle: a piece of work, or
//! a sequence of external commands that stops at the first that fails.
//!
//! The commands themselves are spawned by the caller. A `CommandStep` says
//! which command is to run now and takes what it reported; from that it
//! decides whether the next one runs or the step is over. A command that
//! cannot even be started has nothing to report: that is no failure of the
//! step but the end of the whole run, and the caller's to deal with.

use crate::console::command::{
    command_line, command_views, CommandDescriptor, CommandView, ProcessOutput, ProcessOutputView,
};
use crate::console::error::{bare, CauseView, Error, ErrorView};
use crate::console::progress::{
    ended, started, Config, ProgressGroup, ProgressHandle, ProgressView, Status,
};
use vstd::prelude::*;

verus! {

/// Runs `execute` under the handle: the handle is started, the work is done,
/// and the handle ends as succeeded or failed with the work. The result of
/// the work is returned as it is.
pub fn run_tracked<T, E: FnOnce() -> Result<T, Error>>(
    handle: &mut ProgressHandle,
    execute: E,
) -> (result: Result<T, Error>)
    requires
        call_requires(execute, ()),
    ensures
        call_ensures(execute, (), result),
        final(handle)@ == (ProgressView {
            status: ended(started(old(handle)@.status), result is Ok),
            ..old(handle)@
        }),
{
    handle.start();
    let result = execute();
    match &result {
        Ok(_) => handle.finish(),
        Err(_) => handle.fail(),
    }
    result
}

/// Runs `execute` as the step `title`: a progress handle with that label
/// runs while the work is done and ends as the work ends. Whether the tool
/// is silent or not, the result of the work is returned as it is.
pub fn run_step<T, E: FnOnce() -> Result<T, Error>>(
    config: &Config,
    title: &str,
    execute: E,
) -> (result: Result<T, Error>)
    requires
        call_requires(execute, ()),
    ensures
        call_ensures(execute, (), result),
{
    let mut spinner = ProgressHandle::new(config, title);
    run_tracked(&mut spinner, execute)
}

/// A step of commands, in specifications.
pub struct CommandStepView {
    /// The commands of the step, in their order.
    pub commands: Seq<CommandView>,
    /// Whether a spinner shows the step and its commands.
    pub visible: bool,
    /// The handle of the step.
    pub parent: ProgressView,
    /// The handles of the commands that were handed out, in their order.
    pub children: Seq<ProgressView>,
    /// How many commands were handed out to be spawned.
    pub spawned: nat,
    /// How the step ended; `None` while a command is awaited.
    pub outcome: Option<Result<(), ErrorView>>,
}

/// The handle of a command that was just handed out.
pub open spec fn running_child(command: CommandView, visible: bool) -> ProgressView {
    ProgressView {
        label: command_line(command.program, command.arguments),
        status: Status::Running,
        visible,
    }
}

/// The step as it begins: with no commands it has succeeded at once, else
/// its first command is handed out.
pub open spec fn begun(
    title: Seq<char>,
    visible: bool,
    commands: Seq<CommandView>,
) -> CommandStepView {
    let parent = ProgressView { label: title, status: Status::Running, visible };
    if commands.len() == 0 {
        CommandStepView {
            commands,
            visible,
            parent: ProgressView { status: Status::Succeeded, ..parent },
            children: Seq::empty(),
            spawned: 0,
            outcome: Some(Ok(())),
        }
    } else {
        CommandStepView {
            commands,
            visible,
            parent,
            children: seq![running_child(commands[0], visible)],
            spawned: 1,
            outcome: None,
        }
    }
}

/// A handle after its step has ended.
pub open spec fn ended_handle(handle: ProgressView, success: bool) -> ProgressView {
    ProgressView { status: ended(handle.status, success), ..handle }
}

/// The step after the awaited command has reported `output`. A failure ends
/// the step with what the command wrote to its standard error; a success
/// hands out the next command, or ends the step after the last. A step that
/// is over stays as it is.
pub open spec fn advanced(step: CommandStepView, output: ProcessOutputView) -> CommandStepView {
    if step.outcome is Some || step.children.len() == 0 {
        step
    } else {
        let last = step.children.len() - 1;
        let reported = step.children.update(
            last,
            ended_handle(step.children[last], output.success),
        );
        if !output.success {
            CommandStepView {
                parent: ended_handle(step.parent, false),
                children: reported,
                outcome: Some(Err(bare(CauseView::CommandFailed { stderr: output.stderr }))),
                ..step
            }
        } else if step.spawned < step.commands.len() {
            CommandStepView {
                children: reported.push(
                    running_child(step.commands[step.spawned as int], step.visible),
                ),
                spawned: step.spawned + 1,
                ..step
            }
        } else {
            CommandStepView {
                parent: ended_handle(step.parent, true),
                children: reported,
                outcome: Some(Ok(())),
                ..step
            }
        }
    }
}

/// The step after the commands have reported these outputs, one after the
/// other.
pub open spec fn advanced_through(
    step: CommandStepView,
    outputs: Seq<ProcessOutputView>,
) -> CommandStepView
    decreases outputs.len(),
{
    if outputs.len() == 0 {
        step
    } else {
        advanced(advanced_through(step, outputs.drop_last()), outputs.last())
    }
}

/// The views of a list of handles.
pub open spec fn handle_views(handles: Seq<ProgressHandle>) -> Seq<ProgressView> {
    Seq::new(handles.len(), |i: int| handles[i]@)
}

/// An outcome in specifications.
pub open spec fn ending_view(outcome: Option<Result<(), Error>>) -> Option<Result<(), ErrorView>> {
    match outcome {
        None => None,
        Some(Ok(())) => Some(Ok(())),
        Some(Err(e)) => Some(Err(e@)),
    }
}

/// A step that runs a sequence of commands, one at a time.
pub struct CommandStep {
    group: ProgressGroup,
    parent: ProgressHandle,
    children: Vec<ProgressHandle>,
    commands: Vec<CommandDescriptor>,
    spawned: usize,
    outcome: Option<Result<(), Error>>,
}

impl View for CommandStep {
    type V = CommandStepView;

    closed spec fn view(&self) -> CommandStepView {
        CommandStepView {
            commands: command_views(self.commands@),
            visible: self.group is Visible,
            parent: self.parent@,
            children: handle_views(self.children@),
            spawned: self.spawned as nat,
            outcome: ending_view(self.outcome),
        }
    }
}

/// Begins the step `title`, which runs `commands` in their order: the handle
/// of the step is started, and the first command is handed out under a handle
/// of its own. With no commands the step has succeeded at once.
pub fn run_step_with_commands(
    config: &Config,
    title: &str,
    commands: Vec<CommandDescriptor>,
) -> (step: CommandStep)
    ensures
        step@ == begun(title@, !config.silent, command_views(commands@)),
{
    let group = ProgressGroup::new(config);
    let mut parent = ProgressHandle::new_in(&group, title);
    parent.start();
    let mut children: Vec<ProgressHandle> = Vec::new();
    if commands.len() == 0 {
        parent.finish();
        let step =
            CommandStep { group, parent, children, commands, spawned: 0, outcome: Some(Ok(())) };
        assert(step@.children =~= Seq::<ProgressView>::empty());
        step
    } else {
        let mut child = ProgressHandle::new_in(&group, commands[0].info().as_str());
        child.start();
        children.push(child);
        let step = CommandStep { group, parent, children, commands, spawned: 1, outcome: None };
        assert(step@.children =~= seq![
            running_child(command_views(commands@)[0], !config.silent),
        ]);
        step
    }
}

impl CommandStep {
    /// The command that is to be spawned now; `None` once the step is over.
    pub fn pending(&self) -> (command: Option<&CommandDescriptor>)
        ensures
            match command {
                Some(c) => self@.outcome is None && 1 <= self@.spawned <= self@.commands.len()
                    && c@ == self@.commands[self@.spawned - 1],
                None => self@.outcome is Some || self@.spawned == 0 || self@.spawned
                    > self@.commands.len(),
            },
    {
        if self.outcome.is_none() && self.spawned >= 1 && self.spawned <= self.commands.len() {
            Some(&self.commands[self.spawned - 1])
        } else {
            None
        }
    }

    /// How many commands were handed out to be spawned.
    pub fn spawned(&self) -> (count: usize)
        ensures
            count == self@.spawned,
    {
        self.spawned
    }

    /// Whether the step is over.
    pub fn is_finished(&self) -> (over: bool)
        ensures
            over == self@.outcome is Some,
    {
        self.outcome.is_some()
    }

    /// Where the step stands.
    pub fn status(&self) -> (status: Status)
        ensures
            status == self@.parent.status,
    {
        self.parent.status()
    }

    /// Where the commands stand that were handed out, in their order.
    pub fn command_statuses(&self) -> (statuses: Vec<Status>)
        ensures
            statuses@ == self@.children.map_values(|child: ProgressView| child.status),
    {
        let mut statuses: Vec<Status> = Vec::new();
        let mut i: usize = 0;
        while i < self.children.len()
            invariant
                i <= self.children.len(),
                statuses@.len() == i,
                forall|k: int| 0 <= k < i ==> statuses@[k] == self.children@[k]@.status,
            decreases self.children.len() - i,
        {
            statuses.push(self.children[i].status());
            i += 1;
        }
        assert(statuses@ =~= self@.children.map_values(|child: ProgressView| child.status));
        statuses
    }

    /// Takes what the awaited command has reported. Where it failed, its
    /// handle and that of the step are marked failed and the step is over,
    /// with what the command wrote to its standard error as the error; no
    /// further command is handed out. Where it succeeded, its handle is
    /// marked succeeded, and the next command is handed out under a handle
    /// of its own; after the last one the step has succeeded.
    pub fn advance(self, output: ProcessOutput) -> (next: CommandStep)
        ensures
            next@ == advanced(self@, output@),
    {
        let CommandStep { group, parent, children, commands, spawned, outcome } = self;
        let mut parent = parent;
        let mut children = children;
        if outcome.is_some() || children.len() == 0 {
            return CommandStep { group, parent, children, commands, spawned, outcome };
        }
        let ghost before = handle_views(children@);
        let ghost last = before.len() - 1;
        let mut child = match children.pop() {
            Some(child) => child,
            None => {
                return CommandStep { group, parent, children, commands, spawned, outcome };
            },
        };
        child.end(output.success);
        children.push(child);
        assert(handle_views(children@) =~= before.update(
            last,
            ended_handle(before[last], output.success),
        ));
        if !output.success {
            parent.fail();
            CommandStep {
                group,
                parent,
                children,
                commands,
                spawned,
                outcome: Some(Err(Error::from_stderr(output.stderr))),
            }
        } else if spawned < commands.len() {
            let ghost reported = handle_views(children@);
            let mut child = ProgressHandle::new_in(&group, commands[spawned].info().as_str());
            child.start();
            children.push(child);
            assert(handle_views(children@) =~= reported.push(
                running_child(command_views(commands@)[spawned as int], group is Visible),
            ));
            CommandStep { group, parent, children, commands, spawned: spawned + 1, outcome: None }
        } else {
            parent.finish();
            CommandStep { group, parent, children, commands, spawned, outcome: Some(Ok(())) }
        }
    }

    /// How the step ended; `None` while a command is awaited.
    pub fn into_outcome(self) -> (outcome: Option<Result<(), Error>>)
        ensures
            ending_view(outcome) == self@.outcome,
    {
        self.outcome
    }
}

/// Whether the handles of the first `count` commands stand at succeeded.
pub open spec fn succeeded_up_to(children: Seq<ProgressView>, count: int) -> bool {
    forall|k: int| 0 <= k < count ==> (#[trigger] children[k]).status == Status::Succeeded
}

/// While the commands succeed, each report hands out the next command: the
/// step goes on, the handles of the commands that have reported stand at
/// succeeded, and that of the awaited command and that of the step run.
pub proof fn lemma_successes_advance(
    title: Seq<char>,
    visible: bool,
    commands: Seq<CommandView>,
    outputs: Seq<ProcessOutputView>,
)
    requires
        outputs.len() < commands.len(),
        forall|j: int| 0 <= j < outputs.len() ==> (#[trigger] outputs[j]).success,
    ensures
        advanced_through(begun(title, visible, commands), outputs).outcome is None,
        advanced_through(begun(title, visible, commands), outputs).spawned == outputs.len() + 1,
        advanced_through(begun(title, visible, commands), outputs).children.len() == outputs.len()
            + 1,
        advanced_through(begun(title, visible, commands), outputs).commands == commands,
        advanced_through(begun(title, visible, commands), outputs).parent.status == Status::Running,
        advanced_through(begun(title, visible, commands), outputs).children.last().status
            == Status::Running,
        succeeded_up_to(
            advanced_through(begun(title, visible, commands), outputs).children,
            outputs.len() as int,
        ),
    decreases outputs.len(),
{
    if outputs.len() > 0 {
        let earlier = outputs.drop_last();
        assert forall|j: int| 0 <= j < earlier.len() implies (#[trigger] earlier[j]).success by {
            assert(earlier[j] == outputs[j]);
        }
        lemma_successes_advance(title, visible, commands, earlier);
        assert(outputs.last() == outputs[outputs.len() - 1]);
    }
}

/// A step that is over stays as it is, whatever is reported to it.
pub proof fn lemma_over_stays_over(step: CommandStepView, outputs: Seq<ProcessOutputView>)
    requires
        step.outcome is Some,
    ensures
        advanced_through(step, outputs) == step,
    decreases outputs.len(),
{
    if outputs.len() > 0 {
        lemma_over_stays_over(step, outputs.drop_last());
    }
}

/// Reporting one list of outputs and then another is reporting both in a
/// row.
pub proof fn lemma_advanced_through_split(
    step: CommandStepView,
    first: Seq<ProcessOutputView>,
    second: Seq<ProcessOutputView>,
)
    ensures
        advanced_through(step, first + second) == advanced_through(
            advanced_through(step, first),
            second,
        ),
    decreases second.len(),
{
    if second.len() == 0 {
        assert(first + second =~= first);
    } else {
        assert((first + second).drop_last() =~= first + second.drop_last());
        assert((first + second).last() == second.last());
        lemma_advanced_through_split(step, first, second.drop_last());
    }
}

/// Fail fast: where the command at index `first` is the first to report
/// failure, the step is over with what that command wrote to its standard
/// error, and the commands after it were never handed out, however many more
/// reports come in. The handle of the failed command and that of the step
/// stand at failed, those of the commands before it at succeeded.
pub proof fn lemma_first_failure_ends_the_step(
    title: Seq<char>,
    visible: bool,
    commands: Seq<CommandView>,
    outputs: Seq<ProcessOutputView>,
    first: int,
)
    requires
        0 <= first < commands.len(),
        first < outputs.len(),
        !outputs[first].success,
        forall|j: int| 0 <= j < first ==> (#[trigger] outputs[j]).success,
    ensures
        advanced_through(begun(title, visible, commands), outputs).spawned == first + 1,
        advanced_through(begun(title, visible, commands), outputs).outcome == Some(
            Err::<(), ErrorView>(bare(CauseView::CommandFailed { stderr: outputs[first].stderr })),
        ),
        advanced_through(begun(title, visible, commands), outputs).parent.status == Status::Failed,
        advanced_through(begun(title, visible, commands), outputs).children.len() == first + 1,
        advanced_through(begun(title, visible, commands), outputs).children[first].status
            == Status::Failed,
        succeeded_up_to(advanced_through(begun(title, visible, commands), outputs).children, first),
{
    let start = begun(title, visible, commands);
    let before = outputs.take(first);
    let upto = outputs.take(first + 1);
    let after = outputs.skip(first + 1);
    assert forall|j: int| 0 <= j < before.len() implies (#[trigger] before[j]).success by {
        assert(before[j] == outputs[j]);
    }
    lemma_successes_advance(title, visible, commands, before);
    assert(upto.drop_last() =~= before);
    assert(upto.last() == outputs[first]);
    let failed = advanced_through(start, upto);
    assert(failed == advanced(advanced_through(start, before), outputs[first]));
    assert(outputs =~= upto + after);
    lemma_advanced_through_split(start, upto, after);
    lemma_over_stays_over(failed, after);
}

/// Where every command reports success, all of them were handed out, the
/// handle of each stands at succeeded, and the step has succeeded.
pub proof fn lemma_all_successes_finish(
    title: Seq<char>,
    visible: bool,
    commands: Seq<CommandView>,
    outputs: Seq<ProcessOutputView>,
)
    requires
        outputs.len() == commands.len(),
        forall|j: int| 0 <= j < outputs.len() ==> (#[trigger] outputs[j]).success,
    ensures
        advanced_through(begun(title, visible, commands), outputs).spawned == commands.len(),
        advanced_through(begun(title, visible, commands), outputs).outcome == Some(
            Ok::<(), ErrorView>(()),
        ),
        advanced_through(begun(title, visible, commands), outputs).parent.status
            == Status::Succeeded,
        advanced_through(begun(title, visible, commands), outputs).children.len()
            == commands.len(),
        succeeded_up_to(
            advanced_through(begun(title, visible, commands), outputs).children,
            commands.len() as int,
        ),
{
    if outputs.len() > 0 {
        let earlier = outputs.drop_last();
        assert forall|j: int| 0 <= j < earlier.len() implies (#[trigger] earlier[j]).success by {
            assert(earlier[j] == outputs[j]);
        }
        lemma_successes_advance(title, visible, commands, earlier);
        assert(outputs.last() == outputs[outputs.len() - 1]);
    }
}

} // verus!
