//! What is done with a measurement once it is taken: whether it is kept at
//! all, whether it is sent, and whether it is stored.

use vstd::prelude::*;

verus! {

/// The number of samples taken in a second.
pub const SAMPLE_RATE: usize = 1000;

/// The number of seconds that a measurement must last to be kept.
pub const MIN_SECONDS: usize = 20;

/// What the device is set to do with a measurement.
#[derive(Clone, Copy, PartialEq, Eq, Debug)]
pub enum MeasurementAction {
    /// Ask each time.
    Ask,
    /// Send it; store it where it cannot be sent.
    Auto,
    /// Store it.
    Store,
    /// Send it.
    Upload,
    /// Drop it.
    Discard,
}

/// What may be done with a measurement.
#[derive(Clone, Copy, PartialEq, Eq, Debug)]
pub struct Permission {
    pub upload: bool,
    pub store: bool,
}

/// What is to be done once the attempt to send a measurement is over.
#[derive(Clone, Copy, PartialEq, Eq, Debug)]
pub struct Plan {
    /// Store the measurement.
    pub store: bool,
    /// Send the measurements that were stored earlier.
    pub upload_stored: bool,
}

/// A measurement of fewer samples is dropped.
pub open spec fn spec_long_enough(samples: int) -> bool {
    samples >= MIN_SECONDS * SAMPLE_RATE
}

/// Tells whether a measurement of this many samples is kept.
pub fn long_enough(samples: usize) -> (res: bool)
    ensures
        res == spec_long_enough(samples as int),
{
    samples >= MIN_SECONDS * SAMPLE_RATE
}

/// What may be done with a measurement under the given setting; `asked`
/// is what the user chose, and counts only where the setting is to ask.
pub open spec fn spec_permitted(action: MeasurementAction, asked: Permission) -> Permission {
    match action {
        MeasurementAction::Ask => asked,
        MeasurementAction::Auto => Permission { upload: true, store: true },
        MeasurementAction::Store => Permission { upload: false, store: true },
        MeasurementAction::Upload => Permission { upload: true, store: false },
        MeasurementAction::Discard => Permission { upload: false, store: false },
    }
}

/// Tells what may be done with a measurement under the given setting.
pub fn permitted(action: MeasurementAction, asked: Permission) -> (res: Permission)
    ensures
        res == spec_permitted(action, asked),
{
    match action {
        MeasurementAction::Ask => asked,
        MeasurementAction::Auto => Permission { upload: true, store: true },
        MeasurementAction::Store => Permission { upload: false, store: true },
        MeasurementAction::Upload => Permission { upload: true, store: false },
        MeasurementAction::Discard => Permission { upload: false, store: false },
    }
}

/// The choices that the user is given, in the order in which they are
/// shown: to send or store, where both can be done; to send, where the
/// network is set up; to store, where there is a storage; and to drop the
/// measurement, always.
pub open spec fn spec_choices(network: bool, storage: bool) -> Seq<Permission> {
    let both = if network && storage {
        seq![Permission { upload: true, store: true }]
    } else {
        Seq::empty()
    };
    let send = if network {
        seq![Permission { upload: true, store: false }]
    } else {
        Seq::empty()
    };
    let keep = if storage {
        seq![Permission { upload: false, store: true }]
    } else {
        Seq::empty()
    };
    both + send + keep + seq![Permission { upload: false, store: false }]
}

/// Lists the choices that the user is given.
pub fn choices(network: bool, storage: bool) -> (res: Vec<Permission>)
    ensures
        res@ == spec_choices(network, storage),
{
    let mut res: Vec<Permission> = Vec::new();
    if network && storage {
        res.push(Permission { upload: true, store: true });
    }
    if network {
        res.push(Permission { upload: true, store: false });
    }
    if storage {
        res.push(Permission { upload: false, store: true });
    }
    res.push(Permission { upload: false, store: false });
    assert(res@ =~= spec_choices(network, storage));
    res
}

/// What is to be done once the attempt to send is over: `sent` says
/// whether the measurement arrived, and `backlog` whether measurements
/// that were stored earlier wait to be sent. A measurement that was not
/// sent is stored, where that is permitted; after one that was sent, the
/// backlog is sent too.
pub open spec fn spec_plan(permission: Permission, sent: bool, backlog: bool) -> Plan {
    let arrived = permission.upload && sent;
    Plan { store: permission.store && !arrived, upload_stored: arrived && backlog }
}

/// Tells what is to be done once the attempt to send is over.
pub fn plan(permission: Permission, sent: bool, backlog: bool) -> (res: Plan)
    ensures
        res == spec_plan(permission, sent, backlog),
{
    let arrived = permission.upload && sent;
    Plan { store: permission.store && !arrived, upload_stored: arrived && backlog }
}

/// A measurement that was not sent is never dropped where it may be
/// stored, and none is both stored and followed by the backlog.
pub proof fn lemma_plan(permission: Permission, sent: bool, backlog: bool)
    ensures
        permission.store && !sent ==> spec_plan(permission, sent, backlog).store,
        !(spec_plan(permission, sent, backlog).store && spec_plan(
            permission,
            sent,
            backlog,
        ).upload_stored),
        !permission.store ==> !spec_plan(permission, sent, backlog).store,
{
}

/// Where the sending of the stored measurements stands.
#[derive(Clone, Copy, PartialEq, Eq, Debug)]
pub enum UploadState {
    /// Between two files.
    Walking,
    /// A measurement is being read from its file.
    Loading,
    /// The measurement is being sent.
    Sending,
    /// The file of the measurement that was sent is being deleted.
    Deleting,
    /// The work is over; `true` where every measurement that was read was
    /// sent.
    Finished(bool),
}

/// What happened to what was asked for last.
#[derive(Clone, Copy, PartialEq, Eq, Debug)]
pub enum UploadEvent {
    /// The next file holds a measurement.
    Measurement,
    /// The next file holds something else.
    OtherFile,
    /// There is no further file.
    NoMoreFiles,
    /// The directory could not be read.
    DirectoryFailed,
    /// The measurement was read.
    Loaded,
    /// The measurement could not be read.
    LoadFailed,
    /// The measurement arrived.
    Sent,
    /// The measurement did not arrive.
    SendFailed,
    /// The file was deleted.
    Deleted,
    /// The file could not be deleted.
    DeleteFailed,
}

/// What is to be done next.
#[derive(Clone, Copy, PartialEq, Eq, Debug)]
pub enum UploadAction {
    /// Look at the next file.
    NextFile,
    /// Read the measurement from the file.
    Load,
    /// Send the measurement.
    Send,
    /// Delete the file.
    Delete,
    /// Stop; `true` where every measurement that was read was sent.
    Finish(bool),
}

/// The next state and what is to be done, after `event` in `state`. A
/// file that holds no measurement is passed by, and so is one that cannot
/// be read. A measurement that was read is sent, and its file is deleted
/// once it arrived, and only then; whether or not the file could be
/// deleted, the next file follows. Where a measurement does not arrive or
/// the directory cannot be read, the work stops and has failed. An event
/// that does not answer what was asked for stops it too.
pub open spec fn spec_upload_step(state: UploadState, event: UploadEvent) -> (
    UploadState,
    UploadAction,
) {
    match (state, event) {
        (UploadState::Walking, UploadEvent::Measurement) => (
            UploadState::Loading,
            UploadAction::Load,
        ),
        (UploadState::Walking, UploadEvent::OtherFile) => (
            UploadState::Walking,
            UploadAction::NextFile,
        ),
        (UploadState::Walking, UploadEvent::NoMoreFiles) => (
            UploadState::Finished(true),
            UploadAction::Finish(true),
        ),
        (UploadState::Loading, UploadEvent::Loaded) => (UploadState::Sending, UploadAction::Send),
        (UploadState::Loading, UploadEvent::LoadFailed) => (
            UploadState::Walking,
            UploadAction::NextFile,
        ),
        (UploadState::Sending, UploadEvent::Sent) => (UploadState::Deleting, UploadAction::Delete),
        (UploadState::Deleting, UploadEvent::Deleted) => (
            UploadState::Walking,
            UploadAction::NextFile,
        ),
        (UploadState::Deleting, UploadEvent::DeleteFailed) => (
            UploadState::Walking,
            UploadAction::NextFile,
        ),
        (UploadState::Finished(success), _) => (
            UploadState::Finished(success),
            UploadAction::Finish(success),
        ),
        _ => (UploadState::Finished(false), UploadAction::Finish(false)),
    }
}

/// Tells the next state and what is to be done, after `event` in `state`.
pub fn upload_step(state: UploadState, event: UploadEvent) -> (res: (UploadState, UploadAction))
    ensures
        res == spec_upload_step(state, event),
{
    match (state, event) {
        (UploadState::Walking, UploadEvent::Measurement) => (
            UploadState::Loading,
            UploadAction::Load,
        ),
        (UploadState::Walking, UploadEvent::OtherFile) => (
            UploadState::Walking,
            UploadAction::NextFile,
        ),
        (UploadState::Walking, UploadEvent::NoMoreFiles) => (
            UploadState::Finished(true),
            UploadAction::Finish(true),
        ),
        (UploadState::Loading, UploadEvent::Loaded) => (UploadState::Sending, UploadAction::Send),
        (UploadState::Loading, UploadEvent::LoadFailed) => (
            UploadState::Walking,
            UploadAction::NextFile,
        ),
        (UploadState::Sending, UploadEvent::Sent) => (UploadState::Deleting, UploadAction::Delete),
        (UploadState::Deleting, UploadEvent::Deleted) => (
            UploadState::Walking,
            UploadAction::NextFile,
        ),
        (UploadState::Deleting, UploadEvent::DeleteFailed) => (
            UploadState::Walking,
            UploadAction::NextFile,
        ),
        (UploadState::Finished(success), _) => (
            UploadState::Finished(success),
            UploadAction::Finish(success),
        ),
        _ => (UploadState::Finished(false), UploadAction::Finish(false)),
    }
}

/// A file is deleted only once its measurement arrived, the work ends well
/// only when there is no further file, and once it is over it stays over.
pub proof fn lemma_upload_step(state: UploadState, event: UploadEvent)
    ensures
        spec_upload_step(state, event).1 == UploadAction::Delete ==> state == UploadState::Sending
            && event == UploadEvent::Sent,
        spec_upload_step(state, event).1 == UploadAction::Finish(true) ==> (state
            == UploadState::Walking && event == UploadEvent::NoMoreFiles) || state
            == UploadState::Finished(true),
        state matches UploadState::Finished(success) ==> spec_upload_step(state, event)
            == (state, UploadAction::Finish(success)),
        spec_upload_step(state, event).1 == UploadAction::Send ==> state == UploadState::Loading
            && event == UploadEvent::Loaded,
{
}

} // verus!
