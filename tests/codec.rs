use sima::proto::{
    decode, decode_request, decode_response, encode, encode_request, encode_response, Request,
    Response, ServiceInfo,
};

fn info(name: &str, pid: Option<i32>, running: bool) -> ServiceInfo {
    ServiceInfo { name: name.to_string(), pid, running }
}

fn same_info(a: &ServiceInfo, b: &ServiceInfo) -> bool {
    a.name == b.name && a.pid == b.pid && a.running == b.running
}

fn all_requests() -> Vec<Request> {
    vec![
        Request::Start("a".to_string()),
        Request::Stop("sshd".to_string()),
        Request::Restart("ünïcode-svc".to_string()),
        Request::Start(String::new()),
        Request::Status,
        Request::Poweroff,
        Request::Reboot,
        Request::SoftReboot,
    ]
}

#[test]
fn request_bytes_are_exact() {
    assert_eq!(encode_request(&Request::Start("a".to_string())), vec![0u8, 1, b'a']);
    assert_eq!(encode_request(&Request::Stop("ab".to_string())), vec![1u8, 2, b'a', b'b']);
    assert_eq!(encode_request(&Request::Restart("x".to_string())), vec![2u8, 1, b'x']);
    assert_eq!(encode_request(&Request::Status), vec![3u8]);
    assert_eq!(encode_request(&Request::Poweroff), vec![4u8]);
    assert_eq!(encode_request(&Request::Reboot), vec![5u8]);
    assert_eq!(encode_request(&Request::SoftReboot), vec![6u8]);
}

#[test]
fn request_bytes_match_postcard() {
    let name = "web-server".to_string();
    let ours = encode_request(&Request::Stop(name.clone()));
    let theirs = postcard::to_allocvec(&(1u32, name)).unwrap();
    assert_eq!(ours, theirs);
}

#[test]
fn long_name_uses_multibyte_length() {
    let name = "n".repeat(200);
    let bytes = encode_request(&Request::Start(name.clone()));
    assert_eq!(&bytes[..3], &[0u8, 0xc8, 0x01]);
    assert_eq!(bytes.len(), 3 + 200);
    let theirs = postcard::to_allocvec(&(0u32, name)).unwrap();
    assert_eq!(bytes, theirs);
}

#[test]
fn requests_round_trip() {
    for r in all_requests() {
        let bytes = encode_request(&r);
        let back = decode_request(&bytes).unwrap();
        assert_eq!(encode_request(&back), bytes);
        match (&r, &back) {
            (Request::Start(a), Request::Start(b))
            | (Request::Stop(a), Request::Stop(b))
            | (Request::Restart(a), Request::Restart(b)) => assert_eq!(a, b),
            (Request::Status, Request::Status)
            | (Request::Poweroff, Request::Poweroff)
            | (Request::Reboot, Request::Reboot)
            | (Request::SoftReboot, Request::SoftReboot) => {}
            _ => panic!("variant changed"),
        }
    }
}

#[test]
fn status_report_bytes_match_postcard() {
    let infos = vec![info("a", Some(300), true), info("b", None, false), info("c", Some(-1), true)];
    let ours = encode_response(&Response::StatusReport(infos));
    let theirs = postcard::to_allocvec(&(
        2u32,
        vec![
            ("a".to_string(), Some(300i32), true),
            ("b".to_string(), None, false),
            ("c".to_string(), Some(-1i32), true),
        ],
    ))
    .unwrap();
    assert_eq!(ours, theirs);
    assert_eq!(&ours[..7], &[2u8, 3, 1, b'a', 1, 0xd8, 0x04]);
}

#[test]
fn responses_round_trip() {
    let cases = vec![
        Response::Success,
        Response::Error("internal error".to_string()),
        Response::StatusReport(vec![]),
        Response::StatusReport(vec![
            info("a", Some(1234), true),
            info("b", None, false),
            info("c", Some(i32::MAX), true),
            info("d", Some(i32::MIN), true),
        ]),
    ];
    for r in cases {
        let bytes = encode_response(&r);
        let back = decode_response(&bytes).unwrap();
        assert_eq!(encode_response(&back), bytes);
        match (&r, &back) {
            (Response::Success, Response::Success) => {}
            (Response::Error(a), Response::Error(b)) => assert_eq!(a, b),
            (Response::StatusReport(a), Response::StatusReport(b)) => {
                assert_eq!(a.len(), b.len());
                for (x, y) in a.iter().zip(b.iter()) {
                    assert!(same_info(x, y));
                }
            }
            _ => panic!("variant changed"),
        }
    }
}

#[test]
fn generic_encode_and_decode_agree_with_concrete() {
    let r = Request::Restart("db".to_string());
    assert_eq!(encode(&r), encode_request(&r));
    let back: Request = decode(&encode(&r)).unwrap();
    assert_eq!(encode(&back), encode(&r));
    let resp = Response::Error("boom".to_string());
    let back: Response = decode(&encode(&resp)).unwrap();
    assert_eq!(encode(&back), encode(&resp));
}

#[test]
fn trailing_bytes_are_ignored() {
    let mut bytes = encode_request(&Request::Stop("a".to_string()));
    bytes.extend_from_slice(&[9, 9, 9]);
    match decode_request(&bytes) {
        Ok(Request::Stop(n)) => assert_eq!(n, "a"),
        _ => panic!("expected Stop"),
    }
}

#[test]
fn malformed_requests_are_refused() {
    assert!(decode_request(&[]).is_err());
    assert!(decode_request(&[7]).is_err());
    assert!(decode_request(&[0]).is_err());
    assert!(decode_request(&[0, 5, b'a']).is_err());
    assert!(decode_request(&[0, 0x80, 0x00]).is_err());
    assert!(decode_request(&[0, 2, 0xff, 0xfe]).is_err());
}

#[test]
fn malformed_responses_are_refused() {
    assert!(decode_response(&[]).is_err());
    assert!(decode_response(&[3]).is_err());
    assert!(decode_response(&[2, 1, 1, b'a', 2]).is_err());
    assert!(decode_response(&[2, 1, 1, b'a', 0, 2]).is_err());
    assert!(decode_response(&[2, 1, 1, b'a', 1, 0xff, 0xff, 0xff, 0xff, 0x7f, 1]).is_err());
    assert!(decode_response(&[2, 2, 1, b'a', 0, 1]).is_err());
}
