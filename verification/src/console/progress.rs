//! Progress handles: one per step, shown by a spinner unless the tool runs
//! silent. A handle goes from pending to running and from there to succeeded
//! or failed; what is on the screen follows.

use vstd::prelude::*;

verus! {

/// `indicatif::ProgressBar`, a spinner or bar on the terminal. It is held
/// and handed on; nothing is known of what is inside.
#[verifier::external_type_specification]
#[verifier::external_body]
pub struct ExProgressBar(indicatif::ProgressBar);

/// `indicatif::MultiProgress`, which draws several bars below each other.
/// It is held and handed on; nothing is known of what is inside.
#[verifier::external_type_specification]
#[verifier::external_body]
pub struct ExMultiProgress(indicatif::MultiProgress);

/// `indicatif::ProgressBar::new_spinner` makes a spinner that draws to the
/// standard error. Nothing is claimed of it.
pub assume_specification[ indicatif::ProgressBar::new_spinner ]() -> (bar: indicatif::ProgressBar)
;

/// `indicatif::ProgressBar::finish` marks the bar as done and draws it once
/// more. Nothing is claimed of it.
pub assume_specification[ indicatif::ProgressBar::finish ](bar: &indicatif::ProgressBar)
;

/// `indicatif::ProgressBar::abandon` marks the bar as done where it stands
/// and draws it once more. Nothing is claimed of it.
pub assume_specification[ indicatif::ProgressBar::abandon ](bar: &indicatif::ProgressBar)
;

/// `indicatif::MultiProgress::new` makes a group of bars that draws to the
/// standard error. Nothing is claimed of it.
pub assume_specification[ indicatif::MultiProgress::new ]() -> (group: indicatif::MultiProgress)
;

/// `indicatif::MultiProgress::add` puts the bar below the others of the group
/// and hands it back. Nothing is claimed of it.
pub assume_specification[ indicatif::MultiProgress::add ](
    group: &indicatif::MultiProgress,
    bar: indicatif::ProgressBar,
) -> (added: indicatif::ProgressBar)
;

/// Calls `indicatif::ProgressBar::set_message`, which stores the text that
/// the bar shows and draws it. Nothing is claimed of it.
#[verifier::external_body]
fn set_label(bar: &indicatif::ProgressBar, label: &str) {
    bar.set_message(label.to_owned());
}

/// Calls `indicatif::ProgressBar::enable_steady_tick`, which lets a
/// background thread redraw the bar at this interval. Nothing is claimed of
/// it.
#[verifier::external_body]
fn tick_every(bar: &indicatif::ProgressBar, milliseconds: u64) {
    bar.enable_steady_tick(std::time::Duration::from_millis(milliseconds));
}

/// How the tool reports.
#[derive(Debug, Clone, Copy)]
pub struct Config {
    /// Whether progress is kept off the screen.
    pub silent: bool,
}

/// Where a step stands.
#[derive(Debug, Clone, Copy, PartialEq, Eq, Structural)]
pub enum Status {
    Pending,
    Running,
    Succeeded,
    Failed,
}

/// The status after a start: a pending step runs, any other stays as it is.
pub open spec fn started(status: Status) -> Status {
    if status == Status::Pending {
        Status::Running
    } else {
        status
    }
}

/// The status after an end: a running step has succeeded or failed, any
/// other stays as it is.
pub open spec fn ended(status: Status, success: bool) -> Status {
    if status == Status::Running {
        if success {
            Status::Succeeded
        } else {
            Status::Failed
        }
    } else {
        status
    }
}

/// What shows a handle on the screen, if anything does.
pub enum Indicator {
    /// Nothing: the tool runs silent.
    Hidden,
    /// A spinner.
    Visible(indicatif::ProgressBar),
}

/// What keeps the spinners of one step together on the screen, if anything
/// is shown.
pub enum ProgressGroup {
    /// Nothing: the tool runs silent.
    Hidden,
    /// A group of spinners.
    Visible(indicatif::MultiProgress),
}

impl ProgressGroup {
    /// The group of a step under this configuration.
    pub fn new(config: &Config) -> (group: ProgressGroup)
        ensures
            group is Visible == !config.silent,
    {
        if config.silent {
            ProgressGroup::Hidden
        } else {
            ProgressGroup::Visible(indicatif::MultiProgress::new())
        }
    }
}

/// A handle, in specifications.
pub struct ProgressView {
    pub label: Seq<char>,
    pub status: Status,
    pub visible: bool,
}

/// The progress of one step: its label, where it stands, and the spinner
/// that shows it.
pub struct ProgressHandle {
    label: String,
    status: Status,
    indicator: Indicator,
}

impl View for ProgressHandle {
    type V = ProgressView;

    closed spec fn view(&self) -> ProgressView {
        ProgressView {
            label: self.label@,
            status: self.status,
            visible: self.indicator is Visible,
        }
    }
}

impl ProgressHandle {
    /// A pending handle with this label, shown unless the tool runs silent.
    pub fn new(config: &Config, label: &str) -> (handle: ProgressHandle)
        ensures
            handle@ == (ProgressView {
                label: label@,
                status: Status::Pending,
                visible: !config.silent,
            }),
    {
        let indicator = if config.silent {
            Indicator::Hidden
        } else {
            let bar = indicatif::ProgressBar::new_spinner();
            set_label(&bar, label);
            Indicator::Visible(bar)
        };
        ProgressHandle { label: label.to_owned(), status: Status::Pending, indicator }
    }

    /// A pending handle with this label, shown among the spinners of `group`
    /// where the group shows any.
    pub fn new_in(group: &ProgressGroup, label: &str) -> (handle: ProgressHandle)
        ensures
            handle@ == (ProgressView {
                label: label@,
                status: Status::Pending,
                visible: group is Visible,
            }),
    {
        let indicator = match group {
            ProgressGroup::Hidden => Indicator::Hidden,
            ProgressGroup::Visible(bars) => {
                let bar = bars.add(indicatif::ProgressBar::new_spinner());
                set_label(&bar, label);
                Indicator::Visible(bar)
            },
        };
        ProgressHandle { label: label.to_owned(), status: Status::Pending, indicator }
    }

    /// Where the step stands.
    pub fn status(&self) -> (status: Status)
        ensures
            status == self@.status,
    {
        self.status
    }

    /// The label of the step.
    pub fn label(&self) -> (label: &String)
        ensures
            label@ == self@.label,
    {
        &self.label
    }

    /// Whether a spinner shows the step.
    pub fn is_visible(&self) -> (visible: bool)
        ensures
            visible == self@.visible,
    {
        match &self.indicator {
            Indicator::Hidden => false,
            Indicator::Visible(_) => true,
        }
    }

    /// Lets a pending step run: its spinner starts to turn. A step that is
    /// not pending stays as it is.
    pub fn start(&mut self)
        ensures
            final(self)@ == (ProgressView { status: started(old(self)@.status), ..old(self)@ }),
    {
        match self.status {
            Status::Pending => {
                match &self.indicator {
                    Indicator::Hidden => {},
                    Indicator::Visible(bar) => {
                        tick_every(bar, 80);
                    },
                }
                self.status = Status::Running;
            },
            _ => {},
        }
    }

    /// Ends a running step as succeeded or as failed: its spinner comes to
    /// rest. A step that does not run stays as it is.
    pub fn end(&mut self, success: bool)
        ensures
            final(self)@ == (ProgressView {
                status: ended(old(self)@.status, success),
                ..old(self)@
            }),
    {
        match self.status {
            Status::Running => {
                match &self.indicator {
                    Indicator::Hidden => {},
                    Indicator::Visible(bar) => {
                        if success {
                            bar.finish();
                        } else {
                            bar.abandon();
                        }
                    },
                }
                self.status = if success {
                    Status::Succeeded
                } else {
                    Status::Failed
                };
            },
            _ => {},
        }
    }

    /// Ends a running step as succeeded.
    pub fn finish(&mut self)
        ensures
            final(self)@ == (ProgressView { status: ended(old(self)@.status, true), ..old(self)@ }),
    {
        self.end(true);
    }

    /// Ends a running step as failed.
    pub fn fail(&mut self)
        ensures
            final(self)@ == (ProgressView {
                status: ended(old(self)@.status, false),
                ..old(self)@
            }),
    {
        self.end(false);
    }
}

} // verus!
