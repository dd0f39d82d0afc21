//! Decision logic of the progressive render worker.
//!
//! The worker thread itself performs the renders and owns the channels;
//! what it decides — that only the newest queued request survives, and
//! that a Preview pass is followed by a Final pass unless a newer request
//! or a cancellation intervenes — is specified here.

use vstd::prelude::*;

verus! {

/// Keep only the newest of the requests that piled up while the worker
/// was busy: rapid pan/zoom events never build a backlog.
pub fn coalesce_latest<T>(pending: Vec<T>) -> (r: Option<T>)
    ensures
        pending@.len() == 0 <==> r is None,
        pending@.len() > 0 ==> r == Some(pending@.last()),
{
    let mut pending = pending;
    pending.pop()
}

/// What the worker does next for the request it currently holds.
#[derive(Debug, Clone, Copy, PartialEq, Eq, Structural)]
pub enum WorkerAction {
    /// Render the cheap low-resolution preview pass.
    RenderPreview,
    /// Publish the preview, then check for newer requests.
    PublishPreview,
    /// Render the full-resolution final pass with configured AA.
    RenderFinal,
    /// Publish the final result; the request is complete.
    PublishFinal,
    /// Drop the current work and start over with the newest request.
    RestartWithNewest,
    /// Nothing left to do for this request; wait for the next one.
    AwaitRequest,
}

/// What just happened in the worker loop.
#[derive(Debug, Clone, Copy, PartialEq, Eq, Structural)]
pub enum WorkerEvent {
    /// A request was taken from the queue (after coalescing).
    RequestTaken,
    /// The preview pass finished; `cancelled` reports its cancelled flag.
    PreviewDone { cancelled: bool },
    /// The preview was published; `newer_waiting` reports whether a newer
    /// request has arrived meanwhile.
    PreviewPublished { newer_waiting: bool },
    /// The final pass finished; `cancelled` reports its cancelled flag.
    FinalDone { cancelled: bool },
}

/// One decision of the progressive pipeline: preview first, then — unless
/// a newer request or a cancellation intervened — the final pass.
///
/// A cancelled pass abandons the request (a newer one is on its way); a
/// published final completes it.
pub fn pipeline_step(event: WorkerEvent) -> (action: WorkerAction)
    ensures
        action == match event {
            WorkerEvent::RequestTaken => WorkerAction::RenderPreview,
            WorkerEvent::PreviewDone { cancelled } => if cancelled {
                WorkerAction::AwaitRequest
            } else {
                WorkerAction::PublishPreview
            },
            WorkerEvent::PreviewPublished { newer_waiting } => if newer_waiting {
                WorkerAction::RestartWithNewest
            } else {
                WorkerAction::RenderFinal
            },
            WorkerEvent::FinalDone { cancelled } => if cancelled {
                WorkerAction::AwaitRequest
            } else {
                WorkerAction::PublishFinal
            },
        },
{
    match event {
        WorkerEvent::RequestTaken => WorkerAction::RenderPreview,
        WorkerEvent::PreviewDone { cancelled } => {
            if cancelled {
                WorkerAction::AwaitRequest
            } else {
                WorkerAction::PublishPreview
            }
        },
        WorkerEvent::PreviewPublished { newer_waiting } => {
            if newer_waiting {
                WorkerAction::RestartWithNewest
            } else {
                WorkerAction::RenderFinal
            }
        },
        WorkerEvent::FinalDone { cancelled } => {
            if cancelled {
                WorkerAction::AwaitRequest
            } else {
                WorkerAction::PublishFinal
            }
        },
    }
}

} // verus!
