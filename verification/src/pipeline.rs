//! The control flow of one frame.
//!
//! A frame is a fixed script of device actions. The library decides which
//! action comes next and what a failure means; the caller performs each
//! action on its device and reports how it went.

use vstd::prelude::*;

verus! {

/// One of the four compute stages, in the order in which they run.
#[derive(Clone, Copy, Debug, PartialEq, Eq, Structural)]
pub enum Stage {
    Element,
    Binning,
    Coarse,
    Fine,
}

/// Something the caller does on its device.
#[derive(Clone, Copy, Debug, PartialEq, Eq, Structural)]
pub enum Action {
    /// Allocate the host-readable buffer that receives the image.
    AllocateImage { size: u64 },
    /// Open the command recording.
    BeginRecording,
    /// Record the dispatch of a stage between two timestamp queries.
    Dispatch { stage: Stage },
    /// Record the copy of the rendered image to the host-readable buffer.
    CopyImage,
    /// Close the command recording.
    FinishRecording,
    /// Submit the commands with a fence that signals their completion.
    Submit,
    /// Wait on the fence.
    WaitFence,
    /// Reap the timestamps of the stages.
    ReapTimestamps,
    /// Read the bin buffer back for diagnostics.
    ReadBins,
    /// Read the command list buffer back for diagnostics.
    ReadCommands,
    /// Read the image back.
    ReadImage,
}

/// A device action failed. Such a failure ends the frame.
#[derive(Clone, Copy, Debug, PartialEq, Eq, Structural)]
pub struct DeviceError {
    /// The action that failed.
    pub action: Action,
}

/// Where a frame stands.
#[derive(Clone, Copy, Debug, PartialEq, Eq, Structural)]
pub enum Status {
    /// The action at this place of the script comes next.
    Running { step: usize },
    /// Every action succeeded and the image is in the host-readable buffer.
    Done,
    /// An action failed; there is no image.
    Failed { error: DeviceError },
}

/// The bytes of an image of four bytes for each pixel, in rows without
/// padding.
pub open spec fn image_bytes(width: u32, height: u32) -> nat {
    (width * height * 4) as nat
}

/// The actions of a frame, in order.
pub open spec fn script(size: u64, diagnostics: bool) -> Seq<Action> {
    let render = seq![
        Action::AllocateImage { size },
        Action::BeginRecording,
        Action::Dispatch { stage: Stage::Element },
        Action::Dispatch { stage: Stage::Binning },
        Action::Dispatch { stage: Stage::Coarse },
        Action::Dispatch { stage: Stage::Fine },
        Action::CopyImage,
        Action::FinishRecording,
        Action::Submit,
        Action::WaitFence,
        Action::ReapTimestamps,
    ];
    if diagnostics {
        render + seq![Action::ReadBins, Action::ReadCommands, Action::ReadImage]
    } else {
        render + seq![Action::ReadImage]
    }
}

/// The status after the action at hand went as `ok` says: after a success
/// the next place of the script or, at its end, `Done`; after a failure
/// `Failed` with the action that failed. A frame that is done or has failed
/// stays as it is.
pub open spec fn status_after(actions: Seq<Action>, status: Status, ok: bool) -> Status {
    match status {
        Status::Running { step } => if step >= actions.len() {
            status
        } else if !ok {
            Status::Failed { error: DeviceError { action: actions[step as int] } }
        } else if step + 1 == actions.len() {
            Status::Done
        } else {
            Status::Running { step: (step + 1) as usize }
        },
        _ => status,
    }
}

/// The status after a run of outcomes, from the start of the script.
pub open spec fn status_after_all(actions: Seq<Action>, outcomes: Seq<bool>) -> Status
    decreases outcomes.len(),
{
    if outcomes.len() == 0 {
        Status::Running { step: 0 }
    } else {
        status_after(actions, status_after_all(actions, outcomes.drop_last()), outcomes.last())
    }
}

/// The size of the buffer of an image: four bytes for each pixel. None when
/// the size does not fit in 64 bits.
pub fn image_buffer_size(width: u32, height: u32) -> (r: Option<u64>)
    ensures
        match r {
            Some(size) => size == image_bytes(width, height),
            None => image_bytes(width, height) > u64::MAX,
        },
{
    assert(width * height <= 0xffff_ffff * 0xffff_ffff) by (nonlinear_arith)
        requires
            0 <= width <= 0xffff_ffff,
            0 <= height <= 0xffff_ffff,
    ;
    let pixels: u64 = (width as u64) * (height as u64);
    pixels.checked_mul(4)
}

/// The frame's script and the place it has reached.
#[derive(Clone, Copy, Debug, PartialEq, Eq, Structural)]
pub struct Frame {
    size: u64,
    diagnostics: bool,
    status: Status,
}

impl Frame {
    /// The actions of this frame.
    pub closed spec fn actions(&self) -> Seq<Action> {
        script(self.size, self.diagnostics)
    }

    /// Where the frame stands.
    pub closed spec fn status_spec(&self) -> Status {
        self.status
    }

    /// A frame that is running is at a place within its script.
    pub closed spec fn wf(&self) -> bool {
        match self.status {
            Status::Running { step } => step < script(self.size, self.diagnostics).len(),
            _ => true,
        }
    }

    /// True when the frame has an image to show: when it is done.
    pub open spec fn image_valid_spec(&self) -> bool {
        self.status_spec() is Done
    }

    /// A frame for an image buffer of `size` bytes, at its first action.
    /// With `diagnostics` the bin and command list buffers are read back
    /// before the image.
    pub fn new(size: u64, diagnostics: bool) -> (r: Frame)
        ensures
            r.wf(),
            r.actions() == script(size, diagnostics),
            r.status_spec() == (Status::Running { step: 0 }),
    {
        Frame { size, diagnostics, status: Status::Running { step: 0 } }
    }

    pub fn status(&self) -> (r: Status)
        ensures
            r == self.status_spec(),
    {
        self.status
    }

    /// True when the frame has an image to show.
    pub fn image_valid(&self) -> (r: bool)
        ensures
            r == self.image_valid_spec(),
    {
        match self.status {
            Status::Done => true,
            _ => false,
        }
    }

    /// The action to perform next; none once the frame is done or has
    /// failed.
    pub fn next_action(&self) -> (r: Option<Action>)
        requires
            self.wf(),
        ensures
            r == match self.status_spec() {
                Status::Running { step } => Some(self.actions()[step as int]),
                _ => None,
            },
    {
        let step: usize = match self.status {
            Status::Running { step } => step,
            _ => {
                return None;
            },
        };
        let action = if step == 0 {
            Action::AllocateImage { size: self.size }
        } else if step == 1 {
            Action::BeginRecording
        } else if step == 2 {
            Action::Dispatch { stage: Stage::Element }
        } else if step == 3 {
            Action::Dispatch { stage: Stage::Binning }
        } else if step == 4 {
            Action::Dispatch { stage: Stage::Coarse }
        } else if step == 5 {
            Action::Dispatch { stage: Stage::Fine }
        } else if step == 6 {
            Action::CopyImage
        } else if step == 7 {
            Action::FinishRecording
        } else if step == 8 {
            Action::Submit
        } else if step == 9 {
            Action::WaitFence
        } else if step == 10 {
            Action::ReapTimestamps
        } else if self.diagnostics && step == 11 {
            Action::ReadBins
        } else if self.diagnostics && step == 12 {
            Action::ReadCommands
        } else {
            Action::ReadImage
        };
        Some(action)
    }

    /// Takes the outcome of the action at hand: true for a success, false
    /// for a failure.
    pub fn advance(&mut self, ok: bool)
        requires
            old(self).wf(),
        ensures
            final(self).wf(),
            final(self).actions() == old(self).actions(),
            final(self).status_spec() == status_after(old(self).actions(), old(self).status_spec(), ok),
    {
        let action = match self.next_action() {
            Some(action) => action,
            None => {
                return ;
            },
        };
        let step: usize = match self.status {
            Status::Running { step } => step,
            _ => 0,
        };
        let last: usize = if self.diagnostics {
            13
        } else {
            11
        };
        if !ok {
            self.status = Status::Failed { error: DeviceError { action } };
        } else if step == last {
            self.status = Status::Done;
        } else {
            self.status = Status::Running { step: step + 1 };
        }
    }

    /// The four stages are dispatched one after the other, the element stage
    /// first, then binning, coarse and fine, whatever else the script holds.
    pub proof fn lemma_stage_order(size: u64, diagnostics: bool)
        ensures
            script(size, diagnostics)[2] == (Action::Dispatch { stage: Stage::Element }),
            script(size, diagnostics)[3] == (Action::Dispatch { stage: Stage::Binning }),
            script(size, diagnostics)[4] == (Action::Dispatch { stage: Stage::Coarse }),
            script(size, diagnostics)[5] == (Action::Dispatch { stage: Stage::Fine }),
            forall|i: int|
                0 <= i < script(size, diagnostics).len() && i != 2 && i != 3 && i != 4 && i != 5
                    ==> !((#[trigger] script(size, diagnostics)[i]) is Dispatch),
    {
    }

    /// A failure is final: from any status a failed action leaves no valid
    /// image, and no later outcome brings one.
    pub proof fn lemma_failure_is_final(actions: Seq<Action>, status: Status, later: bool)
        ensures
            !(status_after(actions, status, false) is Done) || status is Done,
            status is Failed ==> status_after(actions, status, later) == status,
            status is Running && status->step < actions.len() ==> status_after(
                actions,
                status,
                false,
            ) == (Status::Failed { error: DeviceError { action: actions[status->step as int] } }),
    {
    }

    /// The image is valid only after every action of the script succeeded:
    /// a run of outcomes ends in `Done` exactly when it holds as many
    /// outcomes as the script has actions and all of them are successes, or
    /// goes on after such a run.
    pub proof fn lemma_done_needs_all(actions: Seq<Action>, outcomes: Seq<bool>)
        requires
            actions.len() > 0,
            actions.len() <= usize::MAX,
        ensures
            status_after_all(actions, outcomes) is Done <==> outcomes.len() >= actions.len()
                && forall|i: int| 0 <= i < actions.len() ==> #[trigger] outcomes[i],
            status_after_all(actions, outcomes) is Running ==> status_after_all(
                actions,
                outcomes,
            )->step == outcomes.len() && outcomes.len() < actions.len() && forall|i: int|
                0 <= i < outcomes.len() ==> #[trigger] outcomes[i],
            status_after_all(actions, outcomes) is Failed ==> exists|i: int|
                0 <= i < outcomes.len() && i < actions.len() && !#[trigger] outcomes[i],
        decreases outcomes.len(),
    {
        if outcomes.len() > 0 {
            let front = outcomes.drop_last();
            Self::lemma_done_needs_all(actions, front);
            let before = status_after_all(actions, front);
            assert(forall|i: int| 0 <= i < front.len() ==> front[i] == outcomes[i]);
            if before is Failed {
                let i = choose|i: int| 0 <= i < front.len() && i < actions.len() && !front[i];
                assert(!outcomes[i]);
            }
            if before is Running && !outcomes.last() {
                assert(!outcomes[outcomes.len() - 1]);
            }
        }
    }
}

} // verus!
