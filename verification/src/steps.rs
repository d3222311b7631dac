//! The top-level run modes and the interactive workflow's step
//! machine: a closed set of orchestration steps and a pure transition
//! function, in place of open-ended state dispatch.

use vstd::prelude::*;

verus! {

use vstd::string::StringExecFns;

/// How a run proceeds, decided from what the boot medium offers.
#[derive(Debug, Clone, Copy, PartialEq, Eq, Structural)]
pub enum RunMode {
    /// A staged configuration file drives the run with no prompting.
    UnattendedInstaller,
    /// The interactive collaborator chooses the disks.
    InteractiveInstaller,
    /// No boot medium: nothing to install from.
    Recovery,
}

/// Decides the run mode: a missing boot-medium mount path means
/// recovery; with the medium present, a staged configuration selects
/// the unattended run and its absence the interactive one.
pub fn detect_run_mode(media_exists: bool, json_config: &Option<String>) -> (r: RunMode)
    ensures
        !media_exists ==> r == RunMode::Recovery,
        media_exists && json_config is Some ==> r == RunMode::UnattendedInstaller,
        media_exists && json_config is None ==> r == RunMode::InteractiveInstaller,
{
    if !media_exists {
        RunMode::Recovery
    } else if json_config.is_some() {
        RunMode::UnattendedInstaller
    } else {
        RunMode::InteractiveInstaller
    }
}

/// One step of the installation workflow.
#[derive(Debug)]
pub enum InstallerStep {
    Start,
    SelectInstallDisk(Option<String>),
    SelectPersistDisk,
    Install,
    Done,
}

/// The mathematical value of a step.
#[verifier::ext_equal]
pub ghost enum StepView {
    Start,
    SelectInstallDisk(Option<Seq<char>>),
    SelectPersistDisk,
    Install,
    Done,
}

/// The mathematical value of a step.
pub open spec fn step_view(s: InstallerStep) -> StepView {
    match s {
        InstallerStep::Start => StepView::Start,
        InstallerStep::SelectInstallDisk(d) => StepView::SelectInstallDisk(
            match d {
                Option::Some(p) => Option::Some(p@),
                Option::None => Option::None,
            },
        ),
        InstallerStep::SelectPersistDisk => StepView::SelectPersistDisk,
        InstallerStep::Install => StepView::Install,
        InstallerStep::Done => StepView::Done,
    }
}

impl View for InstallerStep {
    type V = StepView;

    open spec fn view(&self) -> StepView {
        step_view(*self)
    }
}

/// The views of a step history, in order.
pub open spec fn steps_view(ss: Seq<InstallerStep>) -> Seq<StepView> {
    Seq::new(ss.len(), |i: int| ss[i]@)
}

/// The step that follows `cur`, given the configured install-disk
/// override: the workflow runs start, install-disk selection,
/// persist-disk selection, installation, done, and stays done.
pub open spec fn next_step_spec(cur: StepView, configured: Option<Seq<char>>) -> StepView {
    match cur {
        StepView::Start => StepView::SelectInstallDisk(Option::None),
        StepView::SelectInstallDisk(_) => StepView::SelectPersistDisk,
        StepView::SelectPersistDisk => StepView::Install,
        StepView::Install => StepView::Done,
        StepView::Done => StepView::Done,
    }
}

/// What the history records when leaving `cur`: leaving install-disk
/// selection records the disk the configuration settled on; every
/// other step records itself.
pub open spec fn recorded_step_spec(cur: StepView, configured: Option<Seq<char>>) -> StepView {
    match cur {
        StepView::SelectInstallDisk(_) => StepView::SelectInstallDisk(configured),
        _ => cur,
    }
}

/// The interactive workflow: the step it is at and the steps it has
/// left behind, oldest first.
#[derive(Debug)]
pub struct App {
    pub steps: Vec<InstallerStep>,
    pub current_step: InstallerStep,
}

/// The configured install-disk override, as text.
pub open spec fn configured_view(configured: Option<String>) -> Option<Seq<char>> {
    match configured {
        Option::Some(p) => Option::Some(p@),
        Option::None => Option::None,
    }
}

impl App {
    /// A workflow at its start, with no history.
    pub fn new() -> (r: App)
        ensures
            r.current_step@ == StepView::Start,
            r.steps@.len() == 0,
    {
        App { steps: Vec::new(), current_step: InstallerStep::Start }
    }

    /// Advances the workflow one step: the step left behind is
    /// recorded in the history (install-disk selection records the
    /// configured choice), and the current step becomes its successor.
    pub fn next_step(&mut self, configured_install_disk: &Option<String>) -> (r: ())
        ensures
            final(self).current_step@ == next_step_spec(
                old(self).current_step@,
                configured_view(*configured_install_disk),
            ),
            steps_view(final(self).steps@) =~= steps_view(old(self).steps@).push(
                recorded_step_spec(
                    old(self).current_step@,
                    configured_view(*configured_install_disk),
                ),
            ),
    {
        let (recorded, next): (InstallerStep, InstallerStep) = match &self.current_step {
            InstallerStep::Start => (InstallerStep::Start, InstallerStep::SelectInstallDisk(None)),
            InstallerStep::SelectInstallDisk(_) => {
                let chosen: Option<String> = match configured_install_disk {
                    Some(p) => Some(p.clone()),
                    None => None,
                };
                (InstallerStep::SelectInstallDisk(chosen), InstallerStep::SelectPersistDisk)
            },
            InstallerStep::SelectPersistDisk => (
                InstallerStep::SelectPersistDisk,
                InstallerStep::Install,
            ),
            InstallerStep::Install => (InstallerStep::Install, InstallerStep::Done),
            InstallerStep::Done => (InstallerStep::Done, InstallerStep::Done),
        };
        self.steps.push(recorded);
        self.current_step = next;
    }
}

/// The cursor of the disk-selection table: which inventory row is
/// highlighted.
#[derive(Debug)]
pub struct DiskSelection {
    pub selected: Option<usize>,
}

impl DiskSelection {
    /// A selection with no row highlighted yet.
    pub fn new() -> (r: DiskSelection)
        ensures
            r.selected is None,
    {
        DiskSelection { selected: None }
    }

    /// Moves the highlight one row down, wrapping from the last row to
    /// the first; with nothing highlighted yet, highlights the first.
    pub fn next(&mut self, device_count: usize)
        requires
            device_count >= 1,
        ensures
            final(self).selected == Some(
                match old(self).selected {
                    Option::Some(i) => if i >= device_count - 1 {
                        0usize
                    } else {
                        (i + 1) as usize
                    },
                    Option::None => 0usize,
                },
            ),
    {
        let i = match self.selected {
            Some(i) => {
                if i >= device_count - 1 {
                    0
                } else {
                    i + 1
                }
            },
            None => 0,
        };
        self.selected = Some(i);
    }

    /// Moves the highlight one row up, wrapping from the first row to
    /// the last; with nothing highlighted yet, highlights the first.
    pub fn previous(&mut self, device_count: usize)
        requires
            device_count >= 1,
        ensures
            final(self).selected == Some(
                match old(self).selected {
                    Option::Some(i) => if i == 0 {
                        (device_count - 1) as usize
                    } else {
                        (i - 1) as usize
                    },
                    Option::None => 0usize,
                },
            ),
    {
        let i = match self.selected {
            Some(i) => {
                if i == 0 {
                    device_count - 1
                } else {
                    i - 1
                }
            },
            None => 0,
        };
        self.selected = Some(i);
    }
}

} // verus!
