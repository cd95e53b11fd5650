use piet_gpu::pipeline::{image_buffer_size, Action, DeviceError, Frame, Stage, Status};

fn run(frame: &mut Frame, outcomes: &[bool]) -> Vec<Action> {
    let mut done = Vec::new();
    for ok in outcomes {
        match frame.next_action() {
            Some(action) => done.push(action),
            None => break,
        }
        frame.advance(*ok);
    }
    done
}

#[test]
fn image_buffer_is_four_bytes_a_pixel() {
    assert_eq!(image_buffer_size(2048, 1536), Some(2048 * 1536 * 4));
    assert_eq!(image_buffer_size(0, 77), Some(0));
    assert_eq!(image_buffer_size(1, 1), Some(4));
    assert_eq!(image_buffer_size(0xffff_ffff, 0xffff_ffff), None);
    assert_eq!(image_buffer_size(0x8000_0000, 0x8000_0000), None);
    assert_eq!(image_buffer_size(0x8000_0000, 0x7fff_ffff), Some(0xffff_fffe_0000_0000));
}

#[test]
fn a_frame_runs_its_script_in_order() {
    let mut frame = Frame::new(64, false);
    assert_eq!(frame.status(), Status::Running { step: 0 });
    let done = run(&mut frame, &[true; 20]);
    assert_eq!(
        done,
        vec![
            Action::AllocateImage { size: 64 },
            Action::BeginRecording,
            Action::Dispatch { stage: Stage::Element },
            Action::Dispatch { stage: Stage::Binning },
            Action::Dispatch { stage: Stage::Coarse },
            Action::Dispatch { stage: Stage::Fine },
            Action::CopyImage,
            Action::FinishRecording,
            Action::Submit,
            Action::WaitFence,
            Action::ReapTimestamps,
            Action::ReadImage,
        ]
    );
    assert_eq!(frame.status(), Status::Done);
    assert!(frame.image_valid());
    assert_eq!(frame.next_action(), None);
}

#[test]
fn diagnostics_read_the_bins_and_the_commands_before_the_image() {
    let mut frame = Frame::new(8, true);
    let done = run(&mut frame, &[true; 14]);
    assert_eq!(done.len(), 14);
    assert_eq!(&done[11..], &[Action::ReadBins, Action::ReadCommands, Action::ReadImage]);
    assert!(frame.image_valid());
}

#[test]
fn the_image_is_not_valid_before_the_last_action() {
    let mut frame = Frame::new(8, false);
    run(&mut frame, &[true; 11]);
    assert_eq!(frame.status(), Status::Running { step: 11 });
    assert!(!frame.image_valid());
    assert_eq!(frame.next_action(), Some(Action::ReadImage));
}

#[test]
fn a_failed_allocation_ends_the_frame_without_an_image() {
    let mut frame = Frame::new(1 << 40, true);
    let done = run(&mut frame, &[false, true, true]);
    assert_eq!(done, vec![Action::AllocateImage { size: 1 << 40 }]);
    let error = DeviceError { action: Action::AllocateImage { size: 1 << 40 } };
    assert_eq!(frame.status(), Status::Failed { error });
    assert!(!frame.image_valid());
    assert_eq!(frame.next_action(), None);
    frame.advance(true);
    assert_eq!(frame.status(), Status::Failed { error });
    assert!(!frame.image_valid());
}

#[test]
fn a_failure_at_any_step_is_final() {
    for diagnostics in [false, true] {
        let steps = if diagnostics { 14 } else { 12 };
        for fail_at in 0..steps {
            let mut frame = Frame::new(16, diagnostics);
            let mut outcomes = vec![true; steps + 2];
            outcomes[fail_at] = false;
            let done = run(&mut frame, &outcomes);
            assert_eq!(done.len(), fail_at + 1);
            assert_eq!(frame.status(), Status::Failed { error: DeviceError { action: done[fail_at] } });
            assert!(!frame.image_valid());
        }
    }
}

#[test]
fn a_finished_frame_ignores_further_outcomes() {
    let mut frame = Frame::new(16, false);
    run(&mut frame, &[true; 12]);
    frame.advance(false);
    assert_eq!(frame.status(), Status::Done);
    assert!(frame.image_valid());
}
