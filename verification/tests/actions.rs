use storage::actions::{
    choices, long_enough, permitted, plan, upload_step, MeasurementAction, Permission, Plan,
    UploadAction, UploadEvent, UploadState, MIN_SECONDS, SAMPLE_RATE,
};

const BOTH: Permission = Permission { upload: true, store: true };
const SEND: Permission = Permission { upload: true, store: false };
const KEEP: Permission = Permission { upload: false, store: true };
const DROP: Permission = Permission { upload: false, store: false };

#[test]
fn short_measurements_are_dropped() {
    assert_eq!(MIN_SECONDS * SAMPLE_RATE, 20_000);
    assert!(!long_enough(0));
    assert!(!long_enough(19_999));
    assert!(long_enough(20_000));
    assert!(long_enough(usize::MAX));
}

#[test]
fn setting_decides_what_is_permitted() {
    for asked in [BOTH, SEND, KEEP, DROP] {
        assert_eq!(permitted(MeasurementAction::Ask, asked), asked);
        assert_eq!(permitted(MeasurementAction::Auto, asked), BOTH);
        assert_eq!(permitted(MeasurementAction::Store, asked), KEEP);
        assert_eq!(permitted(MeasurementAction::Upload, asked), SEND);
        assert_eq!(permitted(MeasurementAction::Discard, asked), DROP);
    }
}

#[test]
fn choices_follow_what_the_device_can_do() {
    assert_eq!(choices(true, true), [BOTH, SEND, KEEP, DROP]);
    assert_eq!(choices(true, false), [SEND, DROP]);
    assert_eq!(choices(false, true), [KEEP, DROP]);
    assert_eq!(choices(false, false), [DROP]);
}

#[test]
fn unsent_measurement_is_stored() {
    assert_eq!(plan(BOTH, false, true), Plan { store: true, upload_stored: false });
    assert_eq!(plan(BOTH, true, true), Plan { store: false, upload_stored: true });
    assert_eq!(plan(BOTH, true, false), Plan { store: false, upload_stored: false });
    assert_eq!(plan(KEEP, false, true), Plan { store: true, upload_stored: false });
    assert_eq!(plan(KEEP, true, true), Plan { store: true, upload_stored: false });
    assert_eq!(plan(SEND, false, true), Plan { store: false, upload_stored: false });
    assert_eq!(plan(SEND, true, true), Plan { store: false, upload_stored: true });
    assert_eq!(plan(DROP, true, true), Plan { store: false, upload_stored: false });
    assert_eq!(plan(DROP, false, false), Plan { store: false, upload_stored: false });
}

#[test]
fn stored_measurement_is_read_sent_and_deleted() {
    let mut step = upload_step(UploadState::Walking, UploadEvent::Measurement);
    assert_eq!(step, (UploadState::Loading, UploadAction::Load));
    step = upload_step(step.0, UploadEvent::Loaded);
    assert_eq!(step, (UploadState::Sending, UploadAction::Send));
    step = upload_step(step.0, UploadEvent::Sent);
    assert_eq!(step, (UploadState::Deleting, UploadAction::Delete));
    step = upload_step(step.0, UploadEvent::Deleted);
    assert_eq!(step, (UploadState::Walking, UploadAction::NextFile));
    step = upload_step(step.0, UploadEvent::NoMoreFiles);
    assert_eq!(step, (UploadState::Finished(true), UploadAction::Finish(true)));
    step = upload_step(step.0, UploadEvent::Measurement);
    assert_eq!(step, (UploadState::Finished(true), UploadAction::Finish(true)));
}

#[test]
fn other_files_and_unreadable_ones_are_passed_by() {
    assert_eq!(
        upload_step(UploadState::Walking, UploadEvent::OtherFile),
        (UploadState::Walking, UploadAction::NextFile)
    );
    assert_eq!(
        upload_step(UploadState::Loading, UploadEvent::LoadFailed),
        (UploadState::Walking, UploadAction::NextFile)
    );
    assert_eq!(
        upload_step(UploadState::Deleting, UploadEvent::DeleteFailed),
        (UploadState::Walking, UploadAction::NextFile)
    );
}

#[test]
fn failed_sending_stops_the_work() {
    let failed = (UploadState::Finished(false), UploadAction::Finish(false));
    assert_eq!(upload_step(UploadState::Sending, UploadEvent::SendFailed), failed);
    assert_eq!(upload_step(UploadState::Walking, UploadEvent::DirectoryFailed), failed);
    assert_eq!(upload_step(UploadState::Walking, UploadEvent::Sent), failed);
    assert_eq!(upload_step(UploadState::Sending, UploadEvent::Deleted), failed);
    assert_eq!(upload_step(UploadState::Finished(false), UploadEvent::NoMoreFiles), failed);
}
