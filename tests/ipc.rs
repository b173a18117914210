use sima::ipc::{command_for, parse_request, process_request, IpcCommand};
use sima::proto::{encode_request, Request, Response, ServiceInfo};

#[test]
fn parse_accepts_encoded_request() {
    let bytes = encode_request(&Request::Start("a".to_string()));
    match parse_request(&bytes) {
        Ok(Request::Start(n)) => assert_eq!(n, "a"),
        _ => panic!("expected Start"),
    }
}

#[test]
fn parse_refuses_garbage_with_error_response() {
    match parse_request(&[42, 1, 2]) {
        Err(Response::Error(m)) => assert_eq!(m, "invalid request: malformed message"),
        _ => panic!("expected an error response"),
    }
}

#[test]
fn queue_refusal_is_internal_error() {
    match process_request(&Request::Stop("a".to_string()), false, None) {
        Response::Error(m) => assert_eq!(m, "internal error"),
        _ => panic!("expected internal error"),
    }
}

#[test]
fn queued_commands_succeed() {
    assert!(matches!(process_request(&Request::Reboot, true, None), Response::Success));
    assert!(matches!(process_request(&Request::Start("x".to_string()), true, None), Response::Success));
}

#[test]
fn status_returns_report_or_error() {
    let infos = vec![ServiceInfo { name: "a".to_string(), pid: Some(3), running: true }];
    match process_request(&Request::Status, true, Some(infos)) {
        Response::StatusReport(v) => {
            assert_eq!(v.len(), 1);
            assert_eq!(v[0].name, "a");
        }
        _ => panic!("expected a report"),
    }
    match process_request(&Request::Status, true, None) {
        Response::Error(m) => assert_eq!(m, "Failed to get status"),
        _ => panic!("expected an error"),
    }
}

#[test]
fn commands_mirror_requests() {
    let (tx, _rx) = tokio::sync::oneshot::channel();
    assert!(matches!(command_for(Request::Restart("r".to_string()), tx), IpcCommand::Restart(n) if n == "r"));
    let (tx, _rx) = tokio::sync::oneshot::channel();
    assert!(matches!(command_for(Request::Status, tx), IpcCommand::Status(_)));
    let (tx, _rx) = tokio::sync::oneshot::channel();
    assert!(matches!(command_for(Request::SoftReboot, tx), IpcCommand::SoftReboot));
}
