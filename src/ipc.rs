use crate::proto::{
    decode_request, infos_view, malformed_text, request_decoding, Request, RequestView, Response,
    ResponseView, ServiceInfo,
};
use tokio::sync::oneshot::Sender;
use vstd::prelude::*;
use vstd::string::StringExecFns;

verus! {

#[verifier::external_type_specification]
#[verifier::external_body]
#[verifier::reject_recursive_types(T)]
pub struct ExSender<T>(Sender<T>);

/// What the control server hands to the supervisor: a request, where a
/// status query carries the channel that takes the snapshot back.
pub enum IpcCommand {
    Start(String),
    Stop(String),
    Restart(String),
    Status(Sender<Vec<ServiceInfo>>),
    Poweroff,
    Reboot,
    SoftReboot,
}

pub open spec fn invalid_request_text() -> Seq<char> {
    "invalid request: "@ + malformed_text()
}

pub open spec fn internal_error_text() -> Seq<char> {
    "internal error"@
}

pub open spec fn no_status_text() -> Seq<char> {
    "Failed to get status"@
}

/// Decodes a request read from a client, or gives the response that
/// refuses it.
pub fn parse_request(bytes: &[u8]) -> (r: Result<Request, Response>)
    ensures
        match r {
            Ok(v) => request_decoding(bytes@, Some(v@)),
            Err(resp) => request_decoding(bytes@, None) && resp@ == ResponseView::Error(
                invalid_request_text(),
            ),
        },
{
    match decode_request(bytes) {
        Ok(v) => Ok(v),
        Err(e) => {
            let text = String::from_str("invalid request: ").concat(e.message().as_str());
            Err(Response::Error(text))
        },
    }
}

/// The command that carries `req` to the supervisor; a status query carries
/// `reply`, which other commands drop.
pub fn command_for(req: Request, reply: Sender<Vec<ServiceInfo>>) -> (r: IpcCommand)
    ensures
        match (req, r) {
            (Request::Start(a), IpcCommand::Start(b)) => a@ == b@,
            (Request::Stop(a), IpcCommand::Stop(b)) => a@ == b@,
            (Request::Restart(a), IpcCommand::Restart(b)) => a@ == b@,
            (Request::Status, IpcCommand::Status(_)) => true,
            (Request::Poweroff, IpcCommand::Poweroff) => true,
            (Request::Reboot, IpcCommand::Reboot) => true,
            (Request::SoftReboot, IpcCommand::SoftReboot) => true,
            _ => false,
        },
{
    match req {
        Request::Start(n) => IpcCommand::Start(n),
        Request::Stop(n) => IpcCommand::Stop(n),
        Request::Restart(n) => IpcCommand::Restart(n),
        Request::Status => IpcCommand::Status(reply),
        Request::Poweroff => IpcCommand::Poweroff,
        Request::Reboot => IpcCommand::Reboot,
        Request::SoftReboot => IpcCommand::SoftReboot,
    }
}

/// The response to `req` once its command was offered to the supervisor's
/// queue: an internal error where the queue refused it; for a status query,
/// the snapshot that came back; success otherwise.
pub fn process_request(req: &Request, queued: bool, report: Option<Vec<ServiceInfo>>) -> (r:
    Response)
    ensures
        !queued ==> r@ == ResponseView::Error(internal_error_text()),
        queued && req@ == RequestView::Status ==> match report {
            Some(v) => r@ == ResponseView::StatusReport(infos_view(v@)),
            None => r@ == ResponseView::Error(no_status_text()),
        },
        queued && req@ != RequestView::Status ==> r@ == ResponseView::Success,
{
    if !queued {
        return Response::Error(String::from_str("internal error"));
    }
    match req {
        Request::Status => match report {
            Some(v) => Response::StatusReport(v),
            None => Response::Error(String::from_str("Failed to get status")),
        },
        _ => Response::Success,
    }
}

} // verus!
