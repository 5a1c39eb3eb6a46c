//! The hotplug event source as the event loop sees it: what the system's
//! notifications mean, and the mailbox from which the loop polls them.

use crate::device::{device_path_to_device_id, instance_path, DeviceId};
use crate::error::{PollEventError, TryRecvError, Win32Error};
use crate::ioapi::{connection_log, log_line};
use crate::text::{text_until_nul, until_nul, uppercase_of, utf16_lossy};
use vstd::prelude::*;

verus! {

/// Window message that tells of a change in the hardware.
pub const WM_DEVICECHANGE: u32 = 537;

/// Kind of change: a device has arrived.
pub const DBT_DEVICEARRIVAL: u32 = 32768;

/// Kind of change: a device has been removed.
pub const DBT_DEVICEREMOVECOMPLETE: u32 = 32772;

/// Kind of broadcast that names a device interface.
pub const DBT_DEVTYP_DEVICEINTERFACE: u32 = 5;

/// A hotplug event, with the raw path of the device interface.
#[derive(Debug)]
pub enum UsbConnectionEvent {
    Connected(String),
    Disconnected(String),
}

/// A hotplug event as the contracts see it.
pub enum EventView {
    Connected(Seq<char>),
    Disconnected(Seq<char>),
}

impl View for UsbConnectionEvent {
    type V = EventView;

    open spec fn view(&self) -> EventView {
        match self {
            UsbConnectionEvent::Connected(path) => EventView::Connected(path@),
            UsbConnectionEvent::Disconnected(path) => EventView::Disconnected(path@),
        }
    }
}

/// What a window message asks of the notification callback.
#[derive(Debug, Clone, Copy, PartialEq, Eq, Structural)]
pub enum Notification {
    /// A device arrived: publish a connection, where the broadcast names a
    /// device interface.
    Arrival,
    /// A device was removed: publish a disconnection, where the broadcast
    /// names a device interface.
    Removal,
    /// A change in the hardware that is of no interest.
    OtherChange,
    /// No change in the hardware: the message goes to the default handler.
    NotForUs,
}

/// The low 32 bits of a message parameter.
pub open spec fn low_bits(wparam: usize) -> u32 {
    (wparam as nat % 0x1_0000_0000) as u32
}

/// What a window message asks for.
pub open spec fn notification_of(msg: u32, wparam: usize) -> Notification {
    if msg != WM_DEVICECHANGE {
        Notification::NotForUs
    } else if low_bits(wparam) == DBT_DEVICEARRIVAL {
        Notification::Arrival
    } else if low_bits(wparam) == DBT_DEVICEREMOVECOMPLETE {
        Notification::Removal
    } else {
        Notification::OtherChange
    }
}

/// Classifies a window message by its number and its first parameter.
pub fn window_proc(msg: u32, wparam: usize) -> (n: Notification)
    ensures
        n == notification_of(msg, wparam),
{
    if msg != WM_DEVICECHANGE {
        return Notification::NotForUs;
    }
    let kind = (wparam as u64 % 0x1_0000_0000) as u32;
    if kind == DBT_DEVICEARRIVAL {
        Notification::Arrival
    } else if kind == DBT_DEVICEREMOVECOMPLETE {
        Notification::Removal
    } else {
        Notification::OtherChange
    }
}

/// What the thread of the source does after it has waited for a message.
#[derive(Debug, Clone, Copy, PartialEq, Eq, Structural)]
pub enum PumpStep {
    /// The wait failed: the thread ends with the system's error.
    Failed,
    /// The message loop was told to end: the thread ends cleanly.
    Finished,
    /// A message came: hand it to the window procedure and wait again.
    Dispatch,
}

/// Decides how the message loop goes on after the system's wait for a
/// message returned `result`: -1 tells of a failure, 0 of the end of the
/// loop, and everything else of a message.
pub fn pump_step(result: i32) -> (step: PumpStep)
    ensures
        result == -1 ==> step == PumpStep::Failed,
        result == 0 ==> step == PumpStep::Finished,
        result != -1 && result != 0 ==> step == PumpStep::Dispatch,
{
    if result == -1 {
        PumpStep::Failed
    } else if result == 0 {
        PumpStep::Finished
    } else {
        PumpStep::Dispatch
    }
}

/// The raw path that a broadcast carries: the text of the units of `name`
/// in front of its first zero.
pub fn get_device_id(name: &[u16]) -> (path: String)
    ensures
        path@ == utf16_lossy(until_nul(name@)),
{
    text_until_nul(name)
}

/// The event to publish when a device arrived: a connection with the raw
/// path, where the broadcast names a device interface.
pub fn handle_device_arrival(device_type: u32, path: String) -> (e: Option<UsbConnectionEvent>)
    ensures
        device_type == DBT_DEVTYP_DEVICEINTERFACE ==> e == Some(
            UsbConnectionEvent::Connected(path),
        ),
        device_type != DBT_DEVTYP_DEVICEINTERFACE ==> e is None,
{
    if device_type != DBT_DEVTYP_DEVICEINTERFACE {
        return None;
    }
    Some(UsbConnectionEvent::Connected(path))
}

/// The event to publish when a device was removed: a disconnection with
/// the raw path, where the broadcast names a device interface.
pub fn handle_device_removal(device_type: u32, path: String) -> (e: Option<UsbConnectionEvent>)
    ensures
        device_type == DBT_DEVTYP_DEVICEINTERFACE ==> e == Some(
            UsbConnectionEvent::Disconnected(path),
        ),
        device_type != DBT_DEVTYP_DEVICEINTERFACE ==> e is None,
{
    if device_type != DBT_DEVTYP_DEVICEINTERFACE {
        return None;
    }
    Some(UsbConnectionEvent::Disconnected(path))
}

/// The mailbox between the hotplug source and the event loop: what the
/// source has published and the loop has not yet taken.
#[derive(Debug)]
pub struct UsbConnectionCallbacksHandle {
    /// How the source ended, once it has ended and the loop has not yet
    /// been told.
    pub finished: Option<Result<(), Win32Error>>,
    /// The events that wait, the oldest first.
    pub events: Vec<UsbConnectionEvent>,
    /// Whether the source has dropped its end of the event channel.
    pub disconnected: bool,
}

/// What one poll of the mailbox gives.
pub open spec fn polled(
    finished: Option<Result<(), Win32Error>>,
    events: Seq<UsbConnectionEvent>,
    disconnected: bool,
) -> Result<UsbConnectionEvent, PollEventError> {
    match finished {
        Some(Ok(_)) => Err(PollEventError::ThreadFinished),
        Some(Err(e)) => Err(PollEventError::Win32Error(e)),
        None => if events.len() > 0 {
            Ok(events[0])
        } else if disconnected {
            Err(PollEventError::ThreadRecvError(TryRecvError::Disconnected))
        } else {
            Err(PollEventError::ThreadRecvError(TryRecvError::Empty))
        },
    }
}

impl UsbConnectionCallbacksHandle {
    /// An empty mailbox of a source that runs.
    pub fn new() -> (h: UsbConnectionCallbacksHandle)
        ensures
            h.finished is None,
            h.events@.len() == 0,
            !h.disconnected,
    {
        UsbConnectionCallbacksHandle { finished: None, events: Vec::new(), disconnected: false }
    }

    /// Takes the next thing out of the mailbox without waiting. The end
    /// of the source comes first: a clean end as "thread finished", a
    /// failed one as the system error. Else the oldest event is handed
    /// out; where none waits, the poll says that the mailbox is empty, or
    /// that the source is gone.
    pub fn poll_events(&mut self) -> (r: Result<UsbConnectionEvent, PollEventError>)
        ensures
            r == polled(old(self).finished, old(self).events@, old(self).disconnected),
            final(self).finished is None,
            final(self).disconnected == old(self).disconnected,
            final(self).events@ == if old(self).finished is None && old(self).events@.len() > 0 {
                old(self).events@.drop_first()
            } else {
                old(self).events@
            },
    {
        match self.finished.take() {
            Some(Ok(_)) => {
                return Err(PollEventError::ThreadFinished);
            },
            Some(Err(e)) => {
                return Err(PollEventError::Win32Error(e));
            },
            None => {},
        }
        if self.events.len() > 0 {
            let ghost before = self.events@;
            let event = self.events.remove(0);
            proof {
                assert(self.events@ =~= before.drop_first());
            }
            Ok(event)
        } else if self.disconnected {
            Err(PollEventError::ThreadRecvError(TryRecvError::Disconnected))
        } else {
            Err(PollEventError::ThreadRecvError(TryRecvError::Empty))
        }
    }
}

/// What the event loop does after it has polled the hotplug source.
#[derive(Debug)]
pub enum LoopStep {
    /// A device arrived: note the line in the log, ask the system about
    /// the device and take it up in the topology.
    Arrived { device_id: DeviceId, log: String },
    /// A device left: note the line in the log and take the device out
    /// of the topology.
    Left { device_id: DeviceId, log: String },
    /// Nothing waits: go on with the next round.
    Idle,
    /// The source ran to its end: leave the loop.
    Stop,
    /// The source failed: leave the loop with the error.
    Abort(PollEventError),
}

/// What the event loop does after a poll, as the contracts see it.
pub enum StepView {
    Arrived { device_id: Seq<char>, log: Seq<char> },
    Left { device_id: Seq<char>, log: Seq<char> },
    Idle,
    Stop,
    Abort(PollEventError),
}

impl View for LoopStep {
    type V = StepView;

    open spec fn view(&self) -> StepView {
        match self {
            LoopStep::Arrived { device_id, log } => StepView::Arrived {
                device_id: device_id@,
                log: log@,
            },
            LoopStep::Left { device_id, log } => StepView::Left {
                device_id: device_id@,
                log: log@,
            },
            LoopStep::Idle => StepView::Idle,
            LoopStep::Stop => StepView::Stop,
            LoopStep::Abort(e) => StepView::Abort(*e),
        }
    }
}

/// The identity of the device that a raw path names.
pub open spec fn path_id(path: Seq<char>) -> Seq<char> {
    uppercase_of(instance_path(path))
}

/// The step that follows a poll: an event names its device and its log
/// line; an empty mailbox lets the loop go on; the end of the source
/// stops the loop, and every other failure aborts it.
pub open spec fn step_of(polled: Result<UsbConnectionEvent, PollEventError>) -> StepView {
    match polled {
        Ok(UsbConnectionEvent::Connected(path)) => StepView::Arrived {
            device_id: path_id(path@),
            log: log_line(true, path_id(path@)),
        },
        Ok(UsbConnectionEvent::Disconnected(path)) => StepView::Left {
            device_id: path_id(path@),
            log: log_line(false, path_id(path@)),
        },
        Err(PollEventError::ThreadFinished) => StepView::Stop,
        Err(PollEventError::ThreadRecvError(TryRecvError::Empty)) => StepView::Idle,
        Err(e) => StepView::Abort(e),
    }
}

/// Decides what the event loop does after it has polled the hotplug
/// source.
pub fn next_step(polled: Result<UsbConnectionEvent, PollEventError>) -> (step: LoopStep)
    ensures
        step@ == step_of(polled),
{
    match polled {
        Ok(UsbConnectionEvent::Connected(path)) => {
            let device_id = device_path_to_device_id(path.as_str());
            let log = connection_log(true, &device_id);
            LoopStep::Arrived { device_id: device_id, log: log }
        },
        Ok(UsbConnectionEvent::Disconnected(path)) => {
            let device_id = device_path_to_device_id(path.as_str());
            let log = connection_log(false, &device_id);
            LoopStep::Left { device_id: device_id, log: log }
        },
        Err(PollEventError::ThreadFinished) => LoopStep::Stop,
        Err(PollEventError::ThreadRecvError(TryRecvError::Empty)) => LoopStep::Idle,
        Err(e) => LoopStep::Abort(e),
    }
}

} // verus!
