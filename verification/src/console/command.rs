//! Commands as the tool hands them to its caller, and what the caller
//! reports of a command that has run.

use vstd::prelude::*;
use vstd::string::StringExecFns;

verus! {

/// A command, in specifications.
pub struct CommandView {
    pub program: Seq<char>,
    pub arguments: Seq<Seq<char>>,
}

/// One external command: the program and its arguments.
#[derive(Debug, PartialEq, Eq)]
pub struct CommandDescriptor {
    pub program: String,
    pub arguments: Vec<String>,
}

impl View for CommandDescriptor {
    type V = CommandView;

    open spec fn view(&self) -> CommandView {
        CommandView {
            program: self.program@,
            arguments: Seq::new(self.arguments@.len(), |i: int| self.arguments@[i]@),
        }
    }
}

/// What a command that has run and exited reports, in specifications.
pub struct ProcessOutputView {
    pub success: bool,
    pub stderr: Seq<u8>,
}

/// What a command that has run and exited reports: whether its exit status
/// says success, and the bytes it wrote to its standard error.
#[derive(Debug, PartialEq, Eq)]
pub struct ProcessOutput {
    pub success: bool,
    pub stderr: Vec<u8>,
}

impl View for ProcessOutput {
    type V = ProcessOutputView;

    open spec fn view(&self) -> ProcessOutputView {
        ProcessOutputView { success: self.success, stderr: self.stderr@ }
    }
}

/// The views of a list of texts.
pub open spec fn text_views(texts: Seq<String>) -> Seq<Seq<char>> {
    Seq::new(texts.len(), |i: int| texts[i]@)
}

/// The views of a list of commands.
pub open spec fn command_views(commands: Seq<CommandDescriptor>) -> Seq<CommandView> {
    Seq::new(commands.len(), |i: int| commands[i]@)
}

/// A command as one line: the program, then each argument after a space.
pub open spec fn command_line(program: Seq<char>, arguments: Seq<Seq<char>>) -> Seq<char>
    decreases arguments.len(),
{
    if arguments.len() == 0 {
        program
    } else {
        command_line(program, arguments.drop_last()) + " "@ + arguments.last()
    }
}

impl CommandDescriptor {
    /// The command as one line, as a progress indicator shows it.
    pub fn info(&self) -> (line: String)
        ensures
            line@ == command_line(self@.program, self@.arguments),
    {
        let mut line = self.program.clone();
        let mut i: usize = 0;
        assert(self@.arguments.take(0) =~= Seq::<Seq<char>>::empty());
        while i < self.arguments.len()
            invariant
                i <= self.arguments.len(),
                line@ == command_line(self@.program, self@.arguments.take(i as int)),
            decreases self.arguments.len() - i,
        {
            proof {
                let next = self@.arguments.take(i + 1);
                assert(next.drop_last() =~= self@.arguments.take(i as int));
                assert(next.last() == self.arguments@[i as int]@);
            }
            line.append(" ");
            line.append(self.arguments[i].as_str());
            i += 1;
        }
        assert(self@.arguments.take(self@.arguments.len() as int) =~= self@.arguments);
        line
    }
}

} // verus!
