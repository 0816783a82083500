//! The end of a connection: one task reads from it and one writes to it, and
//! neither outlives the other for long.
use vstd::prelude::*;

verus! {

/// How long the writer may go on once the reader has ended, in milliseconds.
pub const DRAIN_MILLISECONDS: u64 = 1000;

/// Where the end of a connection stands.
#[derive(Clone, Copy, Debug, PartialEq, Eq, Structural)]
pub enum TaskState {
    /// Both tasks run.
    Running,
    /// The reader has ended, and the writer may still send what is queued.
    Draining,
    /// The writer was stopped and is waited for.
    StoppingWriter,
    /// The reader was stopped and is waited for.
    StoppingReader,
    Closed,
}

/// What happens to the tasks of a connection.
#[derive(Clone, Copy, Debug, PartialEq, Eq, Structural)]
pub enum TaskEvent {
    ReaderEnded,
    WriterEnded,
    /// The time that the writer had is over.
    DrainExpired,
}

/// What is done about the tasks of a connection.
#[derive(Clone, Copy, Debug, PartialEq, Eq, Structural)]
pub enum TaskAction {
    Wait,
    /// The client leaves its sessions, and the writer is given some time.
    CleanUpAndDrain,
    StopWriter,
    StopReader,
    /// The client leaves its sessions.
    CleanUp,
}

/// What follows from an event.
pub open spec fn after_event(state: TaskState, event: TaskEvent) -> (TaskState, TaskAction) {
    match (state, event) {
        (TaskState::Running, TaskEvent::ReaderEnded) => (
            TaskState::Draining,
            TaskAction::CleanUpAndDrain,
        ),
        (TaskState::Running, TaskEvent::WriterEnded) => (
            TaskState::StoppingReader,
            TaskAction::StopReader,
        ),
        (TaskState::Draining, TaskEvent::WriterEnded) => (TaskState::Closed, TaskAction::Wait),
        (TaskState::Draining, TaskEvent::DrainExpired) => (
            TaskState::StoppingWriter,
            TaskAction::StopWriter,
        ),
        (TaskState::StoppingWriter, TaskEvent::WriterEnded) => (
            TaskState::Closed,
            TaskAction::Wait,
        ),
        (TaskState::StoppingReader, TaskEvent::ReaderEnded) => (
            TaskState::Closed,
            TaskAction::CleanUp,
        ),
        _ => (state, TaskAction::Wait),
    }
}

/// Decides what is done about the tasks of a connection.
pub fn wait_for_connection_tasks(state: &mut TaskState, event: TaskEvent) -> (action: TaskAction)
    ensures
        after_event(*old(state), event) == (*final(state), action),
{
    match (*state, event) {
        (TaskState::Running, TaskEvent::ReaderEnded) => {
            *state = TaskState::Draining;
            TaskAction::CleanUpAndDrain
        },
        (TaskState::Running, TaskEvent::WriterEnded) => {
            *state = TaskState::StoppingReader;
            TaskAction::StopReader
        },
        (TaskState::Draining, TaskEvent::WriterEnded) => {
            *state = TaskState::Closed;
            TaskAction::Wait
        },
        (TaskState::Draining, TaskEvent::DrainExpired) => {
            *state = TaskState::StoppingWriter;
            TaskAction::StopWriter
        },
        (TaskState::StoppingWriter, TaskEvent::WriterEnded) => {
            *state = TaskState::Closed;
            TaskAction::Wait
        },
        (TaskState::StoppingReader, TaskEvent::ReaderEnded) => {
            *state = TaskState::Closed;
            TaskAction::CleanUp
        },
        _ => TaskAction::Wait,
    }
}

/// The state after some events.
pub open spec fn state_after(events: Seq<TaskEvent>) -> TaskState
    decreases events.len(),
{
    if events.len() == 0 {
        TaskState::Running
    } else {
        after_event(state_after(events.drop_last()), events.last()).0
    }
}

/// Whether an action makes the client leave its sessions.
pub open spec fn cleans_up(action: TaskAction) -> bool {
    action is CleanUpAndDrain || action is CleanUp
}

/// How often the client was made to leave its sessions.
pub open spec fn cleanups(events: Seq<TaskEvent>) -> nat
    decreases events.len(),
{
    if events.len() == 0 {
        0
    } else {
        let before = cleanups(events.drop_last());
        if cleans_up(after_event(state_after(events.drop_last()), events.last()).1) {
            before + 1
        } else {
            before
        }
    }
}

/// Whatever happens to the tasks of a connection, its client is made to leave
/// its sessions at most once, and has been once the connection is closed.
pub proof fn law_cleaned_up_once(events: Seq<TaskEvent>)
    ensures
        cleanups(events) <= 1,
        cleanups(events) == 1 <==> state_after(events) is Draining || state_after(
            events,
        ) is StoppingWriter || state_after(events) is Closed,
    decreases events.len(),
{
    if events.len() > 0 {
        law_cleaned_up_once(events.drop_last());
    }
}

/// A connection is closed once both of its tasks have ended.
pub proof fn law_closed_once_both_ended(events: Seq<TaskEvent>)
    ensures
        events.contains(TaskEvent::ReaderEnded) && events.contains(TaskEvent::WriterEnded) <==>
            state_after(events) is Closed,
        !events.contains(TaskEvent::ReaderEnded) && !events.contains(TaskEvent::WriterEnded) <==>
            state_after(events) is Running,
        state_after(events) is StoppingReader ==> events.contains(TaskEvent::WriterEnded),
        state_after(events) is Draining || state_after(events) is StoppingWriter
            ==> events.contains(TaskEvent::ReaderEnded),
    decreases events.len(),
{
    if events.len() > 0 {
        let before = events.drop_last();
        law_closed_once_both_ended(before);
        assert(events =~= before.push(events.last()));
        assert forall|e: TaskEvent|
            events.contains(e) <==> before.contains(e) || e == events.last() by {
            if before.contains(e) {
                let i = choose|i: int| 0 <= i < before.len() && before[i] == e;
                assert(events[i] == e);
            }
            if e == events.last() {
                assert(events[events.len() - 1] == e);
            }
            if events.contains(e) {
                let i = choose|i: int| 0 <= i < events.len() && events[i] == e;
                assert(i < before.len() ==> before[i] == e);
            }
        }
    }
}

/// The writer is stopped only after its time is over, and the reader only once
/// nothing more can be written.
pub proof fn law_nothing_is_stopped_early(state: TaskState, event: TaskEvent)
    ensures
        after_event(state, event).1 is StopWriter <==> state is Draining && event is DrainExpired,
        after_event(state, event).1 is StopReader <==> state is Running && event is WriterEnded,
{
}

} // verus!
