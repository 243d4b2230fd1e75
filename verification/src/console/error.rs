//! The errors of the tool: what went wrong first, and the steps that were
//! under way when it did.

use crate::path::{rendered, TreePath};
use vstd::prelude::*;
use vstd::string::StringExecFns;
use vstd::utf8::{decode_utf8, valid_utf8};

verus! {

/// The class of an error.
#[derive(Debug, Clone, Copy, PartialEq, Eq, Structural)]
pub enum ErrorKind {
    /// A directory or bundle that has to be there is missing.
    Validation,
    /// A command ran and reported failure.
    Process,
    /// An operation on the file tree failed.
    Io,
}

/// What went wrong, in specifications.
pub enum CauseView {
    ListFailed { directory: Seq<Seq<char>> },
    BundleNotFound { searched: Seq<Seq<char>> },
    MissingHeaders { headers: Seq<Seq<char>> },
    CreateFailed { directory: Seq<Seq<char>> },
    ReadFailed { directory: Seq<Seq<char>> },
    CopyFailed { from: Seq<Seq<char>>, to: Seq<Seq<char>> },
    CommandFailed { stderr: Seq<u8> },
    InvalidName { what: Seq<char> },
    OperationFailed { doing: Seq<char>, reason: Seq<char> },
}

/// What went wrong.
#[derive(Debug, PartialEq, Eq)]
pub enum Cause {
    /// The directory could not be listed: it is none.
    ListFailed { directory: TreePath },
    /// No entry of the searched directory is a bundle.
    BundleNotFound { searched: TreePath },
    /// The slice has no header directory that could be removed.
    MissingHeaders { headers: TreePath },
    /// The namespace directory could not be created.
    CreateFailed { directory: TreePath },
    /// The directory of generated headers could not be read.
    ReadFailed { directory: TreePath },
    /// A header could not be copied.
    CopyFailed { from: TreePath, to: TreePath },
    /// A command exited with failure; these are the bytes it wrote to its
    /// standard error.
    CommandFailed { stderr: Vec<u8> },
    /// A path that was given cannot be written as text; `what` says which.
    InvalidName { what: String },
    /// The operating system refused an operation; `doing` says which, and
    /// `reason` is what the system said.
    OperationFailed { doing: String, reason: String },
}

impl View for Cause {
    type V = CauseView;

    open spec fn view(&self) -> CauseView {
        match self {
            Cause::ListFailed { directory } => CauseView::ListFailed { directory: directory@ },
            Cause::BundleNotFound { searched } => CauseView::BundleNotFound { searched: searched@ },
            Cause::MissingHeaders { headers } => CauseView::MissingHeaders { headers: headers@ },
            Cause::CreateFailed { directory } => CauseView::CreateFailed { directory: directory@ },
            Cause::ReadFailed { directory } => CauseView::ReadFailed { directory: directory@ },
            Cause::CopyFailed { from, to } => CauseView::CopyFailed { from: from@, to: to@ },
            Cause::CommandFailed { stderr } => CauseView::CommandFailed { stderr: stderr@ },
            Cause::InvalidName { what } => CauseView::InvalidName { what: what@ },
            Cause::OperationFailed { doing, reason } => CauseView::OperationFailed {
                doing: doing@,
                reason: reason@,
            },
        }
    }
}

/// A step that was under way when an error came up, in specifications.
pub enum ContextView {
    Inspecting,
    Slice(Seq<Seq<char>>),
    Bundle,
}

/// A step that was under way when an error came up.
#[derive(Debug, PartialEq, Eq)]
pub enum Context {
    /// Looking for the slices of the bundle.
    Inspecting,
    /// Patching the slice at this path.
    Slice(TreePath),
    /// Patching the bundle that the toolchain has made.
    Bundle,
}

impl View for Context {
    type V = ContextView;

    open spec fn view(&self) -> ContextView {
        match self {
            Context::Inspecting => ContextView::Inspecting,
            Context::Slice(path) => ContextView::Slice(path@),
            Context::Bundle => ContextView::Bundle,
        }
    }
}

/// An error, in specifications.
pub struct ErrorView {
    pub cause: CauseView,
    pub contexts: Seq<ContextView>,
}

/// An error: its cause, and the steps that were under way, innermost first.
#[derive(Debug, PartialEq, Eq)]
pub struct Error {
    pub cause: Cause,
    pub contexts: Vec<Context>,
}

impl View for Error {
    type V = ErrorView;

    open spec fn view(&self) -> ErrorView {
        ErrorView {
            cause: self.cause@,
            contexts: Seq::new(self.contexts@.len(), |i: int| self.contexts@[i]@),
        }
    }
}

/// The error of this cause with no step around it.
pub open spec fn bare(cause: CauseView) -> ErrorView {
    ErrorView { cause, contexts: Seq::empty() }
}

/// The error `inner` as it leaves the step `context`.
pub open spec fn within(inner: ErrorView, context: ContextView) -> ErrorView {
    ErrorView { cause: inner.cause, contexts: inner.contexts.push(context) }
}

/// The class of a cause.
pub open spec fn kind_of(cause: CauseView) -> ErrorKind {
    match cause {
        CauseView::ListFailed { .. } => ErrorKind::Io,
        CauseView::BundleNotFound { .. } => ErrorKind::Validation,
        CauseView::MissingHeaders { .. } => ErrorKind::Validation,
        CauseView::CreateFailed { .. } => ErrorKind::Io,
        CauseView::ReadFailed { .. } => ErrorKind::Io,
        CauseView::CopyFailed { .. } => ErrorKind::Io,
        CauseView::CommandFailed { .. } => ErrorKind::Process,
        CauseView::InvalidName { .. } => ErrorKind::Validation,
        CauseView::OperationFailed { .. } => ErrorKind::Io,
    }
}

/// The text that `String::from_utf8_lossy` makes of these bytes.
pub uninterp spec fn utf8_lossy(bytes: Seq<u8>) -> Seq<char>;

/// Whether the lossy text of these bytes is known: bytes that are valid
/// UTF-8 are decoded as they are.
pub open spec fn lossless(bytes: Seq<u8>) -> bool {
    valid_utf8(bytes) ==> utf8_lossy(bytes) == decode_utf8(bytes)
}

/// Whether the text of this cause is known as far as it comes from bytes.
pub open spec fn text_known(cause: CauseView) -> bool {
    cause matches CauseView::CommandFailed { stderr } ==> lossless(stderr)
}

/// The text of a cause.
pub open spec fn cause_text(cause: CauseView) -> Seq<char> {
    match cause {
        CauseView::ListFailed { directory } => "Failed to read directory "@ + rendered(directory),
        CauseView::BundleNotFound { searched } => "failed to find .xcframework in "@ + rendered(
            searched,
        ),
        CauseView::MissingHeaders { headers } => "Failed to remove unpatched directory "@
            + rendered(headers),
        CauseView::CreateFailed { directory } => "Failed to create empty patched directory "@
            + rendered(directory),
        CauseView::ReadFailed { directory } => "Failed to read from the generated header directory "@
            + rendered(directory),
        CauseView::CopyFailed { from, to } => "Failed to copy header file from "@ + rendered(from)
            + " to "@ + rendered(to),
        CauseView::CommandFailed { stderr } => utf8_lossy(stderr),
        CauseView::InvalidName { what } => what + " has an invalid name!"@,
        CauseView::OperationFailed { doing, reason } => doing + ": "@ + reason,
    }
}

/// The text of a step.
pub open spec fn context_text(context: ContextView) -> Seq<char> {
    match context {
        ContextView::Inspecting => "Failed to get subframework components"@,
        ContextView::Slice(path) => "Failed to patch "@ + rendered(path),
        ContextView::Bundle => "Failed to patch the XCFramework"@,
    }
}

/// The text of an error: the steps, outermost first, each followed by a
/// colon, and then the cause.
pub open spec fn message_text(cause: CauseView, contexts: Seq<ContextView>) -> Seq<char>
    decreases contexts.len(),
{
    if contexts.len() == 0 {
        cause_text(cause)
    } else {
        context_text(contexts.last()) + ": "@ + message_text(cause, contexts.drop_last())
    }
}

/// Decodes bytes as UTF-8 with `String::from_utf8_lossy`, which puts the
/// replacement character in the place of what is not valid. The result is
/// named, not described, but for this: bytes that are valid UTF-8 come out
/// as the text they encode.
#[verifier::external_body]
fn decode_lossy(bytes: &Vec<u8>) -> (text: String)
    ensures
        text@ == utf8_lossy(bytes@),
        valid_utf8(bytes@) ==> text@ == decode_utf8(bytes@),
{
    String::from_utf8_lossy(bytes).into_owned()
}

impl Cause {
    /// The class of the cause.
    pub fn kind(&self) -> (kind: ErrorKind)
        ensures
            kind == kind_of(self@),
    {
        match self {
            Cause::ListFailed { .. } => ErrorKind::Io,
            Cause::BundleNotFound { .. } => ErrorKind::Validation,
            Cause::MissingHeaders { .. } => ErrorKind::Validation,
            Cause::CreateFailed { .. } => ErrorKind::Io,
            Cause::ReadFailed { .. } => ErrorKind::Io,
            Cause::CopyFailed { .. } => ErrorKind::Io,
            Cause::CommandFailed { .. } => ErrorKind::Process,
            Cause::InvalidName { .. } => ErrorKind::Validation,
            Cause::OperationFailed { .. } => ErrorKind::Io,
        }
    }

    /// The cause as text.
    pub fn message(&self) -> (text: String)
        ensures
            text@ == cause_text(self@),
            text_known(self@),
    {
        match self {
            Cause::ListFailed { directory } => {
                let mut text = String::from_str("Failed to read directory ");
                text.append(directory.display().as_str());
                text
            },
            Cause::BundleNotFound { searched } => {
                let mut text = String::from_str("failed to find .xcframework in ");
                text.append(searched.display().as_str());
                text
            },
            Cause::MissingHeaders { headers } => {
                let mut text = String::from_str("Failed to remove unpatched directory ");
                text.append(headers.display().as_str());
                text
            },
            Cause::CreateFailed { directory } => {
                let mut text = String::from_str("Failed to create empty patched directory ");
                text.append(directory.display().as_str());
                text
            },
            Cause::ReadFailed { directory } => {
                let mut text = String::from_str(
                    "Failed to read from the generated header directory ",
                );
                text.append(directory.display().as_str());
                text
            },
            Cause::CopyFailed { from, to } => {
                let mut text = String::from_str("Failed to copy header file from ");
                text.append(from.display().as_str());
                text.append(" to ");
                text.append(to.display().as_str());
                text
            },
            Cause::CommandFailed { stderr } => decode_lossy(stderr),
            Cause::InvalidName { what } => {
                let mut text = what.clone();
                text.append(" has an invalid name!");
                text
            },
            Cause::OperationFailed { doing, reason } => {
                let mut text = doing.clone();
                text.append(": ");
                text.append(reason.as_str());
                text
            },
        }
    }
}

impl Context {
    /// The step as text.
    pub fn message(&self) -> (text: String)
        ensures
            text@ == context_text(self@),
    {
        match self {
            Context::Inspecting => String::from_str("Failed to get subframework components"),
            Context::Slice(path) => {
                let mut text = String::from_str("Failed to patch ");
                text.append(path.display().as_str());
                text
            },
            Context::Bundle => String::from_str("Failed to patch the XCFramework"),
        }
    }
}

impl Error {
    /// The error of this cause, with no step around it.
    pub fn new(cause: Cause) -> (error: Error)
        ensures
            error@ == bare(cause@),
    {
        let error = Error { cause, contexts: Vec::new() };
        assert(error@.contexts =~= Seq::<ContextView>::empty());
        error
    }

    /// The error that a command gives when it exits with failure after
    /// writing `stderr` to its standard error.
    pub fn from_stderr(stderr: Vec<u8>) -> (error: Error)
        ensures
            error@ == bare(CauseView::CommandFailed { stderr: stderr@ }),
    {
        Error::new(Cause::CommandFailed { stderr })
    }

    /// The same error as it leaves the step `context`.
    pub fn context(self, context: Context) -> (error: Error)
        ensures
            error@ == within(self@, context@),
    {
        let mut error = self;
        error.contexts.push(context);
        assert(error@.contexts =~= self@.contexts.push(context@));
        error
    }

    /// The class of the error, which is that of its cause.
    pub fn kind(&self) -> (kind: ErrorKind)
        ensures
            kind == kind_of(self@.cause),
    {
        self.cause.kind()
    }

    /// The error as text: the steps, outermost first, and then the cause.
    pub fn message(&self) -> (text: String)
        ensures
            text@ == message_text(self@.cause, self@.contexts),
            text_known(self@.cause),
    {
        let mut text = String::new();
        let mut i: usize = self.contexts.len();
        proof {
            let whole = message_text(self@.cause, self@.contexts);
            assert(self@.contexts.take(i as int) =~= self@.contexts);
            assert(text@ + whole =~= whole);
        }
        while i > 0
            invariant
                i <= self.contexts.len(),
                text@ + message_text(self@.cause, self@.contexts.take(i as int)) == message_text(
                    self@.cause,
                    self@.contexts,
                ),
            decreases i,
        {
            proof {
                let shown = self@.contexts.take(i as int);
                assert(shown.drop_last() =~= self@.contexts.take(i - 1));
                assert(shown.last() == self.contexts@[i - 1]@);
                let step = context_text(shown.last()) + ": "@;
                let rest = message_text(self@.cause, shown.drop_last());
                assert(message_text(self@.cause, shown) == step + rest);
                assert(text@ + (step + rest) =~= (text@ + context_text(shown.last()) + ": "@)
                    + rest);
            }
            i -= 1;
            text.append(self.contexts[i].message().as_str());
            text.append(": ");
        }
        proof {
            assert(self@.contexts.take(0) =~= Seq::<ContextView>::empty());
        }
        text.append(self.cause.message().as_str());
        text
    }
}

} // verus!
