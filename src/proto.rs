use vstd::prelude::*;
use vstd::slice::{slice_subrange, slice_to_vec};
use vstd::utf8::{encode_utf8, encode_utf8_decode_utf8, encode_utf8_valid_utf8, valid_utf8};

verus! {

/// Filesystem path of the control socket.
pub const SOCKET_PATH: &'static str = "/run/sima.sock";

/// The externally visible projection of one service's state.
#[derive(Debug, Clone)]
pub struct ServiceInfo {
    pub name: String,
    pub pid: Option<i32>,
    pub running: bool,
}

/// Mathematical value of a `ServiceInfo`.
pub struct ServiceInfoView {
    pub name: Seq<char>,
    pub pid: Option<i32>,
    pub running: bool,
}

impl View for ServiceInfo {
    type V = ServiceInfoView;

    open spec fn view(&self) -> ServiceInfoView {
        ServiceInfoView { name: self.name@, pid: self.pid, running: self.running }
    }
}

/// A control request, as a client sends it.
#[derive(Debug, Clone)]
pub enum Request {
    Start(String),
    Stop(String),
    Restart(String),
    Status,
    Poweroff,
    Reboot,
    SoftReboot,
}

/// Mathematical value of a `Request`.
pub enum RequestView {
    Start(Seq<char>),
    Stop(Seq<char>),
    Restart(Seq<char>),
    Status,
    Poweroff,
    Reboot,
    SoftReboot,
}

impl View for Request {
    type V = RequestView;

    open spec fn view(&self) -> RequestView {
        match self {
            Request::Start(n) => RequestView::Start(n@),
            Request::Stop(n) => RequestView::Stop(n@),
            Request::Restart(n) => RequestView::Restart(n@),
            Request::Status => RequestView::Status,
            Request::Poweroff => RequestView::Poweroff,
            Request::Reboot => RequestView::Reboot,
            Request::SoftReboot => RequestView::SoftReboot,
        }
    }
}

/// The answer to a control request.
#[derive(Debug, Clone)]
pub enum Response {
    Success,
    Error(String),
    StatusReport(Vec<ServiceInfo>),
}

/// Mathematical value of a `Response`.
pub enum ResponseView {
    Success,
    Error(Seq<char>),
    StatusReport(Seq<ServiceInfoView>),
}

/// Values of a list of `ServiceInfo`.
pub open spec fn infos_view(v: Seq<ServiceInfo>) -> Seq<ServiceInfoView> {
    v.map_values(|i: ServiceInfo| i@)
}

impl View for Response {
    type V = ResponseView;

    open spec fn view(&self) -> ResponseView {
        match self {
            Response::Success => ResponseView::Success,
            Response::Error(m) => ResponseView::Error(m@),
            Response::StatusReport(v) => ResponseView::StatusReport(infos_view(v@)),
        }
    }
}

/// Why bytes are not a message.
#[derive(Debug, PartialEq, Eq, Structural, Clone, Copy)]
pub enum DecodeError {
    /// No message of the expected kind is encoded at the start of the bytes.
    Malformed,
}

impl DecodeError {
    /// Text describing the error.
    pub fn message(&self) -> (r: String)
        ensures
            r@ == malformed_text(),
    {
        String::from_str("malformed message")
    }
}

pub open spec fn malformed_text() -> Seq<char> {
    "malformed message"@
}

/// `p` occurs in `s` starting at `pos`.
pub open spec fn prefix_at(p: Seq<u8>, s: Seq<u8>, pos: int) -> bool {
    &&& 0 <= pos
    &&& pos + p.len() <= s.len()
    &&& s.subrange(pos, pos + p.len()) == p
}

/// LEB128 encoding of a natural number: seven bits per byte, least
/// significant group first, the high bit set on every byte but the last.
pub open spec fn varint(n: nat) -> Seq<u8>
    decreases n,
{
    if n < 128 {
        seq![n as u8]
    } else {
        seq![(n % 128 + 128) as u8] + varint(n / 128)
    }
}

proof fn lemma_varint_len(n: nat)
    ensures
        varint(n).len() >= 1,
        n < 128 ==> varint(n).len() == 1,
        n >= 128 ==> varint(n)[0] >= 128,
        n < 128 ==> varint(n)[0] == n,
{
}

/// The first byte of an encoding found at `pos`, and the encoding of the
/// remaining groups right after it.
proof fn lemma_varint_split(n: nat, s: Seq<u8>, pos: int)
    requires
        prefix_at(varint(n), s, pos),
    ensures
        s[pos] == varint(n)[0],
        n < 128 <==> s[pos] < 128,
        n < 128 ==> s[pos] == n,
        n >= 128 ==> s[pos] == n % 128 + 128 && prefix_at(varint(n / 128), s, pos + 1),
{
    lemma_varint_len(n);
    let v = varint(n);
    assert(s.subrange(pos, pos + v.len())[0] == s[pos]);
    if n >= 128 {
        let t = varint(n / 128);
        assert(v =~= seq![(n % 128 + 128) as u8] + t);
        assert(s.subrange(pos + 1, pos + 1 + t.len()) =~= v.subrange(1, v.len() as int));
        assert(v.subrange(1, v.len() as int) =~= t);
    }
}

/// Two encodings found at one position encode the same number.
proof fn lemma_varint_unique(a: nat, b: nat, s: Seq<u8>, pos: int)
    requires
        prefix_at(varint(a), s, pos),
        prefix_at(varint(b), s, pos),
    ensures
        a == b,
    decreases a,
{
    lemma_varint_split(a, s, pos);
    lemma_varint_split(b, s, pos);
    if a >= 128 && b >= 128 {
        lemma_varint_unique(a / 128, b / 128, s, pos + 1);
    }
}

/// Appends the encoding of `n`.
fn write_varint(out: &mut Vec<u8>, n: u64)
    ensures
        final(out)@ == old(out)@ + varint(n as nat),
    decreases n,
{
    if n < 128 {
        out.push(n as u8);
        assert(final(out)@ =~= old(out)@ + varint(n as nat));
    } else {
        out.push((n % 128 + 128) as u8);
        write_varint(out, n / 128);
        assert(final(out)@ =~= old(out)@ + varint(n as nat));
    }
}

/// Reads the encoding of a number at `pos`: the number and the position
/// after it, where one up to `u64::MAX` is encoded there.
fn read_varint(b: &[u8], pos: usize) -> (r: Option<(u64, usize)>)
    ensures
        match r {
            Some((n, end)) => pos < end <= b@.len() && b@.subrange(pos as int, end as int) == varint(
                n as nat,
            ),
            None => forall|n: nat| n <= u64::MAX ==> !prefix_at(varint(n), b@, pos as int),
        },
    decreases b@.len() - pos,
{
    if pos >= b.len() {
        proof {
            assert forall|n: nat| n <= u64::MAX implies !prefix_at(varint(n), b@, pos as int) by {
                lemma_varint_len(n);
            }
        }
        return None;
    }
    let byte = b[pos];
    if byte < 128 {
        proof {
            assert(b@.subrange(pos as int, pos + 1) =~= varint(byte as nat));
        }
        return Some((byte as u64, pos + 1));
    }
    let low: u64 = (byte - 128) as u64;
    match read_varint(b, pos + 1) {
        None => {
            proof {
                assert forall|n: nat| n <= u64::MAX implies !prefix_at(varint(n), b@, pos as int) by {
                    if prefix_at(varint(n), b@, pos as int) {
                        lemma_varint_split(n, b@, pos as int);
                    }
                }
            }
            None
        },
        Some((rest, end)) => {
            if rest == 0 || rest > (u64::MAX - low) / 128 {
                proof {
                    assert(prefix_at(varint(rest as nat), b@, pos + 1));
                    assert forall|n: nat| n <= u64::MAX implies !prefix_at(varint(n), b@, pos as int) by {
                        if prefix_at(varint(n), b@, pos as int) {
                            lemma_varint_split(n, b@, pos as int);
                            lemma_varint_unique(n / 128, rest as nat, b@, pos + 1);
                            assert(n % 128 == low);
                            assert(n == (n / 128) * 128 + n % 128);
                            assert(rest * 128 + low <= u64::MAX) by (nonlinear_arith)
                                requires n == rest * 128 + low, n <= u64::MAX;
                            assert(rest <= (u64::MAX - low) / 128) by (nonlinear_arith)
                                requires rest * 128 + low <= u64::MAX, low < 128;
                        }
                    }
                }
                None
            } else {
                proof {
                    assert(rest * 128 + low <= u64::MAX) by (nonlinear_arith)
                        requires rest <= (u64::MAX - low) / 128, low < 128;
                }
                let n: u64 = rest * 128 + low;
                proof {
                    assert(n >= 128);
                    assert(n / 128 == rest && n % 128 == low) by (nonlinear_arith)
                        requires n == rest * 128 + low, low < 128;
                    assert(b@.subrange(pos as int, end as int) =~= seq![byte] + b@.subrange(pos + 1, end as int));
                    assert(varint(n as nat) =~= seq![byte] + varint(rest as nat));
                }
                Some((n, end))
            }
        },
    }
}

/// A concatenation occurs at `pos` exactly when its first part does and its
/// second part follows.
proof fn lemma_prefix_concat(a: Seq<u8>, c: Seq<u8>, s: Seq<u8>, pos: int)
    ensures
        prefix_at(a + c, s, pos) <==> (prefix_at(a, s, pos) && prefix_at(c, s, pos + a.len())),
{
    if prefix_at(a + c, s, pos) {
        assert(s.subrange(pos, pos + a.len()) =~= (a + c).subrange(0, a.len() as int));
        assert(s.subrange(pos + a.len(), pos + a.len() + c.len()) =~= (a + c).subrange(
            a.len() as int,
            (a + c).len() as int,
        ));
        assert((a + c).subrange(0, a.len() as int) =~= a);
        assert((a + c).subrange(a.len() as int, (a + c).len() as int) =~= c);
    }
    if prefix_at(a, s, pos) && prefix_at(c, s, pos + a.len()) {
        assert(s.subrange(pos, pos + (a + c).len()) =~= s.subrange(pos, pos + a.len()) + s.subrange(
            pos + a.len(),
            pos + a.len() + c.len(),
        ));
        assert(s.subrange(pos, pos + (a + c).len()) =~= a + c);
    }
}

/// Encoding of a string: the length of its UTF-8 form, then that form.
pub open spec fn str_bytes(s: Seq<char>) -> Seq<u8> {
    varint(encode_utf8(s).len()) + encode_utf8(s)
}

/// Two string encodings found at one position encode the same string.
proof fn lemma_str_unique(a: Seq<char>, c: Seq<char>, s: Seq<u8>, pos: int)
    requires
        prefix_at(str_bytes(a), s, pos),
        prefix_at(str_bytes(c), s, pos),
    ensures
        a == c,
{
    let ea = encode_utf8(a);
    let ec = encode_utf8(c);
    lemma_prefix_concat(varint(ea.len()), ea, s, pos);
    lemma_prefix_concat(varint(ec.len()), ec, s, pos);
    lemma_varint_unique(ea.len(), ec.len(), s, pos);
    let p = pos + varint(ea.len()).len();
    assert(ea == s.subrange(p, p + ea.len()));
    assert(ec == s.subrange(p, p + ec.len()));
    encode_utf8_decode_utf8(a);
    encode_utf8_decode_utf8(c);
}

/// Relies on `String::from_utf8`: it succeeds exactly on valid UTF-8, and
/// the UTF-8 form of the string it returns is its input.
#[verifier::external_body]
fn string_from_utf8(bytes: Vec<u8>) -> (r: Option<String>)
    ensures
        match r {
            Some(s) => encode_utf8(s@) == bytes@,
            None => !valid_utf8(bytes@),
        },
{
    String::from_utf8(bytes).ok()
}

/// Appends `bytes`.
fn write_bytes(out: &mut Vec<u8>, bytes: &[u8])
    ensures
        final(out)@ == old(out)@ + bytes@,
{
    let mut i: usize = 0;
    while i < bytes.len()
        invariant
            i <= bytes@.len(),
            out@ == old(out)@ + bytes@.subrange(0, i as int),
        decreases bytes@.len() - i,
    {
        out.push(bytes[i]);
        i = i + 1;
        assert(out@ =~= old(out)@ + bytes@.subrange(0, i as int));
    }
    assert(bytes@.subrange(0, i as int) =~= bytes@);
}

/// Appends the encoding of `s`.
fn write_str(out: &mut Vec<u8>, s: &String)
    ensures
        final(out)@ == old(out)@ + str_bytes(s@),
{
    let bytes = s.as_str().as_bytes();
    write_varint(out, bytes.len() as u64);
    write_bytes(out, bytes);
    assert(final(out)@ =~= old(out)@ + str_bytes(s@));
}

/// Reads an encoded string at `pos`: the string and the position after it,
/// where a string is encoded there.
fn read_str(b: &[u8], pos: usize) -> (r: Option<(String, usize)>)
    ensures
        match r {
            Some((s, end)) => pos <= end <= b@.len() && b@.subrange(pos as int, end as int)
                == str_bytes(s@),
            None => forall|t: Seq<char>| !prefix_at(str_bytes(t), b@, pos as int),
        },
{
    let len = b.len();
    match read_varint(b, pos) {
        None => {
            proof {
                assert forall|t: Seq<char>| !prefix_at(str_bytes(t), b@, pos as int) by {
                    let e = encode_utf8(t);
                    lemma_prefix_concat(varint(e.len()), e, b@, pos as int);
                    if prefix_at(str_bytes(t), b@, pos as int) {
                        assert(e.len() <= len);
                        assert(e.len() <= u64::MAX);
                    }
                }
            }
            None
        },
        Some((n, p1)) => {
            if n > (b.len() - p1) as u64 {
                proof {
                    assert forall|t: Seq<char>| !prefix_at(str_bytes(t), b@, pos as int) by {
                        let e = encode_utf8(t);
                        lemma_prefix_concat(varint(e.len()), e, b@, pos as int);
                        if prefix_at(str_bytes(t), b@, pos as int) {
                            lemma_varint_unique(e.len(), n as nat, b@, pos as int);
                        }
                    }
                }
                return None;
            }
            let end: usize = p1 + n as usize;
            let bytes = slice_to_vec(slice_subrange(b, p1, end));
            match string_from_utf8(bytes) {
                None => {
                    proof {
                        assert forall|t: Seq<char>| !prefix_at(str_bytes(t), b@, pos as int) by {
                            let e = encode_utf8(t);
                            lemma_prefix_concat(varint(e.len()), e, b@, pos as int);
                            if prefix_at(str_bytes(t), b@, pos as int) {
                                lemma_varint_unique(e.len(), n as nat, b@, pos as int);
                                assert(e == b@.subrange(p1 as int, end as int));
                                encode_utf8_valid_utf8(t);
                            }
                        }
                    }
                    None
                },
                Some(s) => {
                    proof {
                        assert(b@.subrange(pos as int, end as int) =~= b@.subrange(pos as int, p1 as int)
                            + b@.subrange(p1 as int, end as int));
                    }
                    Some((s, end))
                },
            }
        },
    }
}

/// Zigzag form of a signed number: non-negative numbers to even ones,
/// negative numbers to odd ones.
pub open spec fn zigzag(v: i32) -> nat {
    if v >= 0 {
        (2 * v) as nat
    } else {
        (-2 * v - 1) as nat
    }
}

/// Encoding of an optional PID: a tag byte, then the zigzag form.
pub open spec fn pid_bytes(p: Option<i32>) -> Seq<u8> {
    match p {
        None => seq![0u8],
        Some(v) => seq![1u8] + varint(zigzag(v)),
    }
}

/// Encoding of a flag: one byte, 0 or 1.
pub open spec fn bool_bytes(b: bool) -> Seq<u8> {
    seq![if b { 1u8 } else { 0u8 }]
}

/// Encoding of one `ServiceInfo`: its fields in order.
pub open spec fn info_bytes(i: ServiceInfoView) -> Seq<u8> {
    str_bytes(i.name) + pid_bytes(i.pid) + bool_bytes(i.running)
}

/// Encodings of a list of `ServiceInfo`, one after the other.
pub open spec fn infos_bytes(s: Seq<ServiceInfoView>) -> Seq<u8>
    decreases s.len(),
{
    if s.len() == 0 {
        Seq::empty()
    } else {
        infos_bytes(s.drop_last()) + info_bytes(s.last())
    }
}

proof fn lemma_first_byte(p: Seq<u8>, s: Seq<u8>, pos: int)
    requires
        prefix_at(p, s, pos),
        p.len() >= 1,
    ensures
        s[pos] == p[0],
{
    assert(s.subrange(pos, pos + p.len())[0] == s[pos]);
}

proof fn lemma_pid_unique(a: Option<i32>, c: Option<i32>, s: Seq<u8>, pos: int)
    requires
        prefix_at(pid_bytes(a), s, pos),
        prefix_at(pid_bytes(c), s, pos),
    ensures
        a == c,
{
    lemma_first_byte(pid_bytes(a), s, pos);
    lemma_first_byte(pid_bytes(c), s, pos);
    if a is Some && c is Some {
        let (x, y) = (a->0, c->0);
        lemma_prefix_concat(seq![1u8], varint(zigzag(x)), s, pos);
        lemma_prefix_concat(seq![1u8], varint(zigzag(y)), s, pos);
        lemma_varint_unique(zigzag(x), zigzag(y), s, pos + 1);
    }
}

proof fn lemma_info_unique(a: ServiceInfoView, c: ServiceInfoView, s: Seq<u8>, pos: int)
    requires
        prefix_at(info_bytes(a), s, pos),
        prefix_at(info_bytes(c), s, pos),
    ensures
        a == c,
{
    lemma_prefix_concat(str_bytes(a.name) + pid_bytes(a.pid), bool_bytes(a.running), s, pos);
    lemma_prefix_concat(str_bytes(c.name) + pid_bytes(c.pid), bool_bytes(c.running), s, pos);
    lemma_prefix_concat(str_bytes(a.name), pid_bytes(a.pid), s, pos);
    lemma_prefix_concat(str_bytes(c.name), pid_bytes(c.pid), s, pos);
    lemma_str_unique(a.name, c.name, s, pos);
    let p1 = pos + str_bytes(a.name).len();
    lemma_pid_unique(a.pid, c.pid, s, p1);
    let p2 = p1 + pid_bytes(a.pid).len();
    lemma_first_byte(bool_bytes(a.running), s, p2);
    lemma_first_byte(bool_bytes(c.running), s, p2);
}

/// Appends the encoding of `p`.
fn write_pid(out: &mut Vec<u8>, p: Option<i32>)
    ensures
        final(out)@ == old(out)@ + pid_bytes(p),
{
    match p {
        None => {
            out.push(0u8);
            assert(final(out)@ =~= old(out)@ + pid_bytes(p));
        },
        Some(v) => {
            out.push(1u8);
            let z: u64 = if v >= 0 {
                (v as u64) * 2
            } else {
                ((-(v as i64)) as u64) * 2 - 1
            };
            write_varint(out, z);
            assert(final(out)@ =~= old(out)@ + pid_bytes(p));
        },
    }
}

/// Reads an encoded optional PID at `pos`.
fn read_pid(b: &[u8], pos: usize) -> (r: Option<(Option<i32>, usize)>)
    ensures
        match r {
            Some((p, end)) => pos <= end <= b@.len() && b@.subrange(pos as int, end as int)
                == pid_bytes(p),
            None => forall|p: Option<i32>| !prefix_at(pid_bytes(p), b@, pos as int),
        },
{
    if pos >= b.len() {
        return None;
    }
    let tag = b[pos];
    if tag == 0 {
        assert(b@.subrange(pos as int, pos + 1) =~= pid_bytes(None));
        return Some((None, pos + 1));
    }
    if tag != 1 {
        proof {
            assert forall|p: Option<i32>| !prefix_at(pid_bytes(p), b@, pos as int) by {
                if prefix_at(pid_bytes(p), b@, pos as int) {
                    lemma_first_byte(pid_bytes(p), b@, pos as int);
                }
            }
        }
        return None;
    }
    match read_varint(b, pos + 1) {
        None => {
            proof {
                assert forall|p: Option<i32>| !prefix_at(pid_bytes(p), b@, pos as int) by {
                    if prefix_at(pid_bytes(p), b@, pos as int) {
                        lemma_first_byte(pid_bytes(p), b@, pos as int);
                        lemma_prefix_concat(seq![1u8], varint(zigzag(p->0)), b@, pos as int);
                    }
                }
            }
            None
        },
        Some((z, end)) => {
            if z > 0xffff_ffff {
                proof {
                    assert forall|p: Option<i32>| !prefix_at(pid_bytes(p), b@, pos as int) by {
                        if prefix_at(pid_bytes(p), b@, pos as int) {
                            lemma_first_byte(pid_bytes(p), b@, pos as int);
                            lemma_prefix_concat(seq![1u8], varint(zigzag(p->0)), b@, pos as int);
                            lemma_varint_unique(zigzag(p->0), z as nat, b@, pos + 1);
                        }
                    }
                }
                return None;
            }
            let v: i32 = if z % 2 == 0 {
                (z / 2) as i32
            } else {
                (-((z / 2) as i64) - 1) as i32
            };
            proof {
                assert(zigzag(v) == z);
                assert(b@.subrange(pos as int, end as int) =~= seq![1u8] + b@.subrange(pos + 1, end as int));
            }
            Some((Some(v), end))
        },
    }
}

/// Appends the encoding of `i`.
fn write_info(out: &mut Vec<u8>, i: &ServiceInfo)
    ensures
        final(out)@ == old(out)@ + info_bytes(i@),
{
    write_str(out, &i.name);
    write_pid(out, i.pid);
    out.push(if i.running { 1u8 } else { 0u8 });
    assert(final(out)@ =~= old(out)@ + info_bytes(i@));
}

/// Reads an encoded `ServiceInfo` at `pos`.
fn read_info(b: &[u8], pos: usize) -> (r: Option<(ServiceInfo, usize)>)
    ensures
        match r {
            Some((i, end)) => pos <= end <= b@.len() && b@.subrange(pos as int, end as int)
                == info_bytes(i@),
            None => forall|i: ServiceInfoView| !prefix_at(info_bytes(i), b@, pos as int),
        },
{
    let (name, p1) = match read_str(b, pos) {
        Some(x) => x,
        None => {
            proof {
                assert forall|i: ServiceInfoView| !prefix_at(info_bytes(i), b@, pos as int) by {
                    lemma_prefix_concat(str_bytes(i.name) + pid_bytes(i.pid), bool_bytes(i.running), b@, pos as int);
                    lemma_prefix_concat(str_bytes(i.name), pid_bytes(i.pid), b@, pos as int);
                }
            }
            return None;
        },
    };
    proof {
        assert(prefix_at(str_bytes(name@), b@, pos as int));
    }
    let (pid, p2) = match read_pid(b, p1) {
        Some(x) => x,
        None => {
            proof {
                assert forall|i: ServiceInfoView| !prefix_at(info_bytes(i), b@, pos as int) by {
                    lemma_prefix_concat(str_bytes(i.name) + pid_bytes(i.pid), bool_bytes(i.running), b@, pos as int);
                    lemma_prefix_concat(str_bytes(i.name), pid_bytes(i.pid), b@, pos as int);
                    if prefix_at(info_bytes(i), b@, pos as int) {
                        lemma_str_unique(i.name, name@, b@, pos as int);
                    }
                }
            }
            return None;
        },
    };
    proof {
        assert(prefix_at(pid_bytes(pid), b@, p1 as int));
    }
    if p2 >= b.len() || b[p2] > 1 {
        proof {
            assert forall|i: ServiceInfoView| !prefix_at(info_bytes(i), b@, pos as int) by {
                lemma_prefix_concat(str_bytes(i.name) + pid_bytes(i.pid), bool_bytes(i.running), b@, pos as int);
                lemma_prefix_concat(str_bytes(i.name), pid_bytes(i.pid), b@, pos as int);
                if prefix_at(info_bytes(i), b@, pos as int) {
                    lemma_str_unique(i.name, name@, b@, pos as int);
                    lemma_pid_unique(i.pid, pid, b@, p1 as int);
                    lemma_first_byte(bool_bytes(i.running), b@, p2 as int);
                }
            }
        }
        return None;
    }
    let running = b[p2] == 1;
    let info = ServiceInfo { name, pid, running };
    proof {
        assert(b@.subrange(pos as int, p2 + 1) =~= b@.subrange(pos as int, p1 as int) + b@.subrange(
            p1 as int,
            p2 as int,
        ) + b@.subrange(p2 as int, p2 + 1));
        assert(b@.subrange(p2 as int, p2 + 1) =~= bool_bytes(running));
    }
    Some((info, p2 + 1))
}

proof fn lemma_prefix_shrink(a: Seq<u8>, a2: Seq<u8>, s: Seq<u8>, pos: int)
    requires
        prefix_at(a, s, pos),
        a2.len() <= a.len(),
        a.subrange(0, a2.len() as int) == a2,
    ensures
        prefix_at(a2, s, pos),
{
    assert(s.subrange(pos, pos + a2.len()) =~= s.subrange(pos, pos + a.len()).subrange(0, a2.len() as int));
}

proof fn lemma_infos_step(s: Seq<ServiceInfoView>, i: int)
    requires
        0 <= i < s.len(),
    ensures
        infos_bytes(s.take(i + 1)) == infos_bytes(s.take(i)) + info_bytes(s[i]),
{
    assert(s.take(i + 1).drop_last() =~= s.take(i));
}

proof fn lemma_infos_take(s: Seq<ServiceInfoView>, j: int)
    requires
        0 <= j <= s.len(),
    ensures
        infos_bytes(s.take(j)).len() <= infos_bytes(s).len(),
        infos_bytes(s).subrange(0, infos_bytes(s.take(j)).len() as int) == infos_bytes(s.take(j)),
    decreases s.len(),
{
    if j == s.len() {
        assert(s.take(j) =~= s);
        assert(infos_bytes(s).subrange(0, infos_bytes(s).len() as int) =~= infos_bytes(s));
    } else {
        lemma_infos_take(s.drop_last(), j);
        assert(s.drop_last().take(j) =~= s.take(j));
        let l = infos_bytes(s.take(j)).len() as int;
        assert(infos_bytes(s).subrange(0, l) =~= infos_bytes(s.drop_last()).subrange(0, l));
    }
}

/// Where the encodings of a list occur at `pos`, the encoding of its item
/// `i` occurs right after those of the items before it.
proof fn lemma_infos_item(s: Seq<ServiceInfoView>, i: int, b: Seq<u8>, pos: int)
    requires
        0 <= i < s.len(),
        prefix_at(infos_bytes(s), b, pos),
    ensures
        prefix_at(infos_bytes(s.take(i)), b, pos),
        prefix_at(info_bytes(s[i]), b, pos + infos_bytes(s.take(i)).len()),
{
    lemma_infos_take(s, i + 1);
    lemma_prefix_shrink(infos_bytes(s), infos_bytes(s.take(i + 1)), b, pos);
    lemma_infos_step(s, i);
    lemma_prefix_concat(infos_bytes(s.take(i)), info_bytes(s[i]), b, pos);
}

proof fn lemma_infos_unique(a: Seq<ServiceInfoView>, c: Seq<ServiceInfoView>, b: Seq<u8>, pos: int)
    requires
        a.len() == c.len(),
        prefix_at(infos_bytes(a), b, pos),
        prefix_at(infos_bytes(c), b, pos),
    ensures
        a == c,
    decreases a.len(),
{
    if a.len() > 0 {
        let n = a.len() - 1;
        lemma_infos_item(a, n, b, pos);
        lemma_infos_item(c, n, b, pos);
        assert(a.take(n) =~= a.drop_last());
        assert(c.take(n) =~= c.drop_last());
        lemma_infos_unique(a.drop_last(), c.drop_last(), b, pos);
        lemma_info_unique(a[n], c[n], b, pos + infos_bytes(a.take(n)).len());
        assert forall|i: int| 0 <= i < a.len() implies a[i] == c[i] by {
            if i < n {
                assert(a.drop_last()[i] == c.drop_last()[i]);
            }
        }
        assert(a =~= c);
    } else {
        assert(a =~= c);
    }
}

/// Reads `count` encoded `ServiceInfo` values, one after the other, at `pos`.
fn read_infos(b: &[u8], pos: usize, count: u64) -> (r: Option<(Vec<ServiceInfo>, usize)>)
    requires
        pos <= b@.len(),
    ensures
        match r {
            Some((v, end)) => pos <= end <= b@.len() && v@.len() == count && b@.subrange(
                pos as int,
                end as int,
            ) == infos_bytes(infos_view(v@)),
            None => forall|s: Seq<ServiceInfoView>|
                s.len() == count ==> !prefix_at(infos_bytes(s), b@, pos as int),
        },
{
    let mut v: Vec<ServiceInfo> = Vec::new();
    let mut p: usize = pos;
    let mut i: u64 = 0;
    proof {
        assert(b@.subrange(pos as int, pos as int) =~= infos_bytes(infos_view(v@)));
    }
    while i < count
        invariant
            pos <= p <= b@.len(),
            i <= count,
            v@.len() == i,
            b@.subrange(pos as int, p as int) == infos_bytes(infos_view(v@)),
            forall|s: Seq<ServiceInfoView>|
                s.len() == count && prefix_at(infos_bytes(s), b@, pos as int) ==> s.take(i as int)
                    == infos_view(v@),
        decreases count - i,
    {
        match read_info(b, p) {
            None => {
                proof {
                    assert forall|s: Seq<ServiceInfoView>|
                        s.len() == count implies !prefix_at(infos_bytes(s), b@, pos as int) by {
                        if prefix_at(infos_bytes(s), b@, pos as int) {
                            lemma_infos_item(s, i as int, b@, pos as int);
                        }
                    }
                }
                return None;
            },
            Some((info, e)) => {
                let ghost old_v = infos_view(v@);
                let ghost old_p = p;
                proof {
                    assert(prefix_at(info_bytes(info@), b@, p as int));
                }
                v.push(info);
                p = e;
                proof {
                    assert(infos_view(v@) =~= old_v.push(info@));
                    assert(infos_view(v@).drop_last() =~= old_v);
                    assert(b@.subrange(pos as int, p as int) =~= b@.subrange(pos as int, old_p as int)
                        + b@.subrange(old_p as int, p as int));
                    assert forall|s: Seq<ServiceInfoView>|
                        s.len() == count && prefix_at(infos_bytes(s), b@, pos as int) implies s.take(
                        i + 1,
                    ) == infos_view(v@) by {
                        lemma_infos_item(s, i as int, b@, pos as int);
                        lemma_info_unique(s[i as int], info@, b@, old_p as int);
                        assert(s.take(i + 1) =~= s.take(i as int).push(s[i as int]));
                    }
                }
                i = i + 1;
            },
        }
    }
    Some((v, p))
}

/// Encoding of a request: a variant tag, then the variant's name if any.
pub open spec fn request_bytes(r: RequestView) -> Seq<u8> {
    match r {
        RequestView::Start(n) => seq![0u8] + str_bytes(n),
        RequestView::Stop(n) => seq![1u8] + str_bytes(n),
        RequestView::Restart(n) => seq![2u8] + str_bytes(n),
        RequestView::Status => seq![3u8],
        RequestView::Poweroff => seq![4u8],
        RequestView::Reboot => seq![5u8],
        RequestView::SoftReboot => seq![6u8],
    }
}

/// Encoding of a response: a variant tag, then the variant's contents.
pub open spec fn response_bytes(r: ResponseView) -> Seq<u8> {
    match r {
        ResponseView::Success => seq![0u8],
        ResponseView::Error(m) => seq![1u8] + str_bytes(m),
        ResponseView::StatusReport(v) => seq![2u8] + varint(v.len()) + infos_bytes(v),
    }
}

/// What decoding `b` as a request may give: the request whose encoding
/// starts `b`, or nothing where no request's encoding does.
pub open spec fn request_decoding(b: Seq<u8>, d: Option<RequestView>) -> bool {
    match d {
        Some(v) => prefix_at(request_bytes(v), b, 0),
        None => forall|x: RequestView| !prefix_at(#[trigger] request_bytes(x), b, 0),
    }
}

/// What decoding `b` as a response may give: the response whose encoding
/// starts `b`, or nothing where no response's encoding does.
pub open spec fn response_decoding(b: Seq<u8>, d: Option<ResponseView>) -> bool {
    match d {
        Some(v) => prefix_at(response_bytes(v), b, 0),
        None => forall|x: ResponseView| !prefix_at(#[trigger] response_bytes(x), b, 0),
    }
}

proof fn lemma_request_unique(a: RequestView, c: RequestView, s: Seq<u8>)
    requires
        prefix_at(request_bytes(a), s, 0),
        prefix_at(request_bytes(c), s, 0),
    ensures
        a == c,
{
    lemma_first_byte(request_bytes(a), s, 0);
    lemma_first_byte(request_bytes(c), s, 0);
    match (a, c) {
        (RequestView::Start(x), RequestView::Start(y)) | (RequestView::Stop(x), RequestView::Stop(y))
        | (RequestView::Restart(x), RequestView::Restart(y)) => {
            lemma_prefix_concat(request_bytes(a).take(1), str_bytes(x), s, 0);
            lemma_prefix_concat(request_bytes(c).take(1), str_bytes(y), s, 0);
            assert(request_bytes(a) =~= request_bytes(a).take(1) + str_bytes(x));
            assert(request_bytes(c) =~= request_bytes(c).take(1) + str_bytes(y));
            lemma_str_unique(x, y, s, 1);
        },
        _ => {},
    }
}

proof fn lemma_response_unique(a: ResponseView, c: ResponseView, s: Seq<u8>)
    requires
        prefix_at(response_bytes(a), s, 0),
        prefix_at(response_bytes(c), s, 0),
    ensures
        a == c,
{
    lemma_first_byte(response_bytes(a), s, 0);
    lemma_first_byte(response_bytes(c), s, 0);
    match (a, c) {
        (ResponseView::Error(x), ResponseView::Error(y)) => {
            lemma_prefix_concat(seq![1u8], str_bytes(x), s, 0);
            lemma_prefix_concat(seq![1u8], str_bytes(y), s, 0);
            lemma_str_unique(x, y, s, 1);
        },
        (ResponseView::StatusReport(x), ResponseView::StatusReport(y)) => {
            lemma_prefix_concat(seq![2u8] + varint(x.len()), infos_bytes(x), s, 0);
            lemma_prefix_concat(seq![2u8] + varint(y.len()), infos_bytes(y), s, 0);
            lemma_prefix_concat(seq![2u8], varint(x.len()), s, 0);
            lemma_prefix_concat(seq![2u8], varint(y.len()), s, 0);
            lemma_varint_unique(x.len(), y.len(), s, 1);
            lemma_infos_unique(x, y, s, (1 + varint(x.len()).len()) as int);
        },
        _ => {},
    }
}

/// Decoding the encoding of a request gives that request back.
pub proof fn lemma_decode_encode_request(x: RequestView, d: Option<RequestView>)
    requires
        request_decoding(request_bytes(x), d),
    ensures
        d == Some(x),
{
    let b = request_bytes(x);
    assert(b.subrange(0, b.len() as int) =~= b);
    if let Some(v) = d {
        lemma_request_unique(v, x, b);
    }
}

/// Encoding what was decoded from the encoding of a request gives the same
/// bytes.
pub proof fn lemma_encode_decode_request(x: RequestView, d: Option<RequestView>)
    requires
        request_decoding(request_bytes(x), d),
    ensures
        d matches Some(v) && request_bytes(v) == request_bytes(x),
{
    lemma_decode_encode_request(x, d);
}

/// Decoding the encoding of a response gives that response back.
pub proof fn lemma_decode_encode_response(x: ResponseView, d: Option<ResponseView>)
    requires
        response_decoding(response_bytes(x), d),
    ensures
        d == Some(x),
{
    let b = response_bytes(x);
    assert(b.subrange(0, b.len() as int) =~= b);
    if let Some(v) = d {
        lemma_response_unique(v, x, b);
    }
}

/// Encoding what was decoded from the encoding of a response gives the same
/// bytes.
pub proof fn lemma_encode_decode_response(x: ResponseView, d: Option<ResponseView>)
    requires
        response_decoding(response_bytes(x), d),
    ensures
        d matches Some(v) && response_bytes(v) == response_bytes(x),
{
    lemma_decode_encode_response(x, d);
}

proof fn lemma_infos_len(s: Seq<ServiceInfoView>)
    ensures
        infos_bytes(s).len() >= s.len(),
    decreases s.len(),
{
    if s.len() > 0 {
        lemma_infos_len(s.drop_last());
    }
}

/// Encodes a request.
pub fn encode_request(msg: &Request) -> (r: Vec<u8>)
    ensures
        r@ == request_bytes(msg@),
{
    let mut out: Vec<u8> = Vec::new();
    match msg {
        Request::Start(n) => {
            out.push(0u8);
            write_str(&mut out, n);
        },
        Request::Stop(n) => {
            out.push(1u8);
            write_str(&mut out, n);
        },
        Request::Restart(n) => {
            out.push(2u8);
            write_str(&mut out, n);
        },
        Request::Status => out.push(3u8),
        Request::Poweroff => out.push(4u8),
        Request::Reboot => out.push(5u8),
        Request::SoftReboot => out.push(6u8),
    }
    assert(out@ =~= request_bytes(msg@));
    out
}

/// Decodes the request encoded at the start of `b`; bytes after it are
/// ignored.
pub fn decode_request(b: &[u8]) -> (r: Result<Request, DecodeError>)
    ensures
        request_decoding(
            b@,
            match r {
                Ok(v) => Some(v@),
                Err(_) => None,
            },
        ),
{
    if b.len() == 0 {
        return Err(DecodeError::Malformed);
    }
    let tag = b[0];
    if tag <= 2 {
        match read_str(b, 1) {
            None => {
                proof {
                    assert forall|x: RequestView| !prefix_at(#[trigger] request_bytes(x), b@, 0) by {
                        if prefix_at(request_bytes(x), b@, 0) {
                            lemma_first_byte(request_bytes(x), b@, 0);
                            match x {
                                RequestView::Start(n) | RequestView::Stop(n) | RequestView::Restart(n) => {
                                    assert(request_bytes(x) =~= request_bytes(x).take(1) + str_bytes(n));
                                    lemma_prefix_concat(request_bytes(x).take(1), str_bytes(n), b@, 0);
                                },
                                _ => {},
                            }
                        }
                    }
                }
                Err(DecodeError::Malformed)
            },
            Some((n, end)) => {
                let r = if tag == 0 {
                    Request::Start(n)
                } else if tag == 1 {
                    Request::Stop(n)
                } else {
                    Request::Restart(n)
                };
                proof {
                    assert(b@.subrange(0, end as int) =~= seq![tag] + b@.subrange(1, end as int));
                    assert(request_bytes(r@) =~= seq![tag] + str_bytes(n@));
                }
                Ok(r)
            },
        }
    } else if tag <= 6 {
        let r = if tag == 3 {
            Request::Status
        } else if tag == 4 {
            Request::Poweroff
        } else if tag == 5 {
            Request::Reboot
        } else {
            Request::SoftReboot
        };
        assert(b@.subrange(0, 1) =~= request_bytes(r@));
        Ok(r)
    } else {
        proof {
            assert forall|x: RequestView| !prefix_at(#[trigger] request_bytes(x), b@, 0) by {
                if prefix_at(request_bytes(x), b@, 0) {
                    lemma_first_byte(request_bytes(x), b@, 0);
                }
            }
        }
        Err(DecodeError::Malformed)
    }
}

/// Encodes a response.
pub fn encode_response(msg: &Response) -> (r: Vec<u8>)
    ensures
        r@ == response_bytes(msg@),
{
    let mut out: Vec<u8> = Vec::new();
    match msg {
        Response::Success => {
            out.push(0u8);
            assert(out@ =~= response_bytes(msg@));
        },
        Response::Error(m) => {
            out.push(1u8);
            write_str(&mut out, m);
            assert(out@ =~= response_bytes(msg@));
        },
        Response::StatusReport(v) => {
            out.push(2u8);
            write_varint(&mut out, v.len() as u64);
            let ghost head = out@;
            let mut i: usize = 0;
            while i < v.len()
                invariant
                    i <= v@.len(),
                    out@ == head + infos_bytes(infos_view(v@).take(i as int)),
                decreases v@.len() - i,
            {
                write_info(&mut out, &v[i]);
                proof {
                    lemma_infos_step(infos_view(v@), i as int);
                }
                i = i + 1;
                assert(out@ =~= head + infos_bytes(infos_view(v@).take(i as int)));
            }
            assert(infos_view(v@).take(i as int) =~= infos_view(v@));
            assert(out@ =~= response_bytes(msg@));
        },
    }
    out
}

/// Decodes the response encoded at the start of `b`; bytes after it are
/// ignored.
pub fn decode_response(b: &[u8]) -> (r: Result<Response, DecodeError>)
    ensures
        response_decoding(
            b@,
            match r {
                Ok(v) => Some(v@),
                Err(_) => None,
            },
        ),
{
    let len = b.len();
    if len == 0 {
        return Err(DecodeError::Malformed);
    }
    let tag = b[0];
    if tag == 0 {
        assert(b@.subrange(0, 1) =~= response_bytes(ResponseView::Success));
        Ok(Response::Success)
    } else if tag == 1 {
        match read_str(b, 1) {
            None => {
                proof {
                    assert forall|x: ResponseView| !prefix_at(#[trigger] response_bytes(x), b@, 0) by {
                        if prefix_at(response_bytes(x), b@, 0) {
                            lemma_first_byte(response_bytes(x), b@, 0);
                            if let ResponseView::Error(m) = x {
                                lemma_prefix_concat(seq![1u8], str_bytes(m), b@, 0);
                            }
                        }
                    }
                }
                Err(DecodeError::Malformed)
            },
            Some((m, end)) => {
                proof {
                    assert(b@.subrange(0, end as int) =~= seq![1u8] + b@.subrange(1, end as int));
                    assert(response_bytes(ResponseView::Error(m@)) =~= seq![1u8] + str_bytes(m@));
                }
                Ok(Response::Error(m))
            },
        }
    } else if tag == 2 {
        match read_varint(b, 1) {
            None => {
                proof {
                    assert forall|x: ResponseView| !prefix_at(#[trigger] response_bytes(x), b@, 0) by {
                        if prefix_at(response_bytes(x), b@, 0) {
                            lemma_first_byte(response_bytes(x), b@, 0);
                            if let ResponseView::StatusReport(v) = x {
                                lemma_prefix_concat(seq![2u8] + varint(v.len()), infos_bytes(v), b@, 0);
                                lemma_prefix_concat(seq![2u8], varint(v.len()), b@, 0);
                                lemma_infos_len(v);
                                assert(v.len() <= len);
                                assert(v.len() <= u64::MAX);
                            }
                        }
                    }
                }
                Err(DecodeError::Malformed)
            },
            Some((count, p)) => {
                match read_infos(b, p, count) {
                    None => {
                        proof {
                            assert forall|x: ResponseView| !prefix_at(#[trigger] response_bytes(x), b@, 0) by {
                                if prefix_at(response_bytes(x), b@, 0) {
                                    lemma_first_byte(response_bytes(x), b@, 0);
                                    if let ResponseView::StatusReport(v) = x {
                                        lemma_prefix_concat(seq![2u8] + varint(v.len()), infos_bytes(v), b@, 0);
                                        lemma_prefix_concat(seq![2u8], varint(v.len()), b@, 0);
                                        lemma_varint_unique(v.len(), count as nat, b@, 1);
                                    }
                                }
                            }
                        }
                        Err(DecodeError::Malformed)
                    },
                    Some((v, end)) => {
                        proof {
                            assert(b@.subrange(0, end as int) =~= seq![2u8] + b@.subrange(1, p as int)
                                + b@.subrange(p as int, end as int));
                            assert(response_bytes(ResponseView::StatusReport(infos_view(v@))) =~= seq![2u8]
                                + varint(count as nat) + infos_bytes(infos_view(v@)));
                        }
                        Ok(Response::StatusReport(v))
                    },
                }
            },
        }
    } else {
        proof {
            assert forall|x: ResponseView| !prefix_at(#[trigger] response_bytes(x), b@, 0) by {
                if prefix_at(response_bytes(x), b@, 0) {
                    lemma_first_byte(response_bytes(x), b@, 0);
                }
            }
        }
        Err(DecodeError::Malformed)
    }
}

/// A message of the control protocol: a value with a byte encoding.
pub trait Message: Sized + View {
    /// The encoding of a message's value.
    spec fn wire(v: Self::V) -> Seq<u8>;

    /// What decoding `b` may give: the message whose encoding starts `b`,
    /// or nothing where no message's encoding does.
    spec fn decoding(b: Seq<u8>, d: Option<Self::V>) -> bool;

    fn to_wire(&self) -> (r: Vec<u8>)
        ensures
            r@ == Self::wire(self@),
    ;

    fn from_wire(b: &[u8]) -> (r: Result<Self, DecodeError>)
        ensures
            Self::decoding(
                b@,
                match r {
                    Ok(v) => Some(v@),
                    Err(_) => None,
                },
            ),
    ;
}

impl Message for Request {
    open spec fn wire(v: RequestView) -> Seq<u8> {
        request_bytes(v)
    }

    open spec fn decoding(b: Seq<u8>, d: Option<RequestView>) -> bool {
        request_decoding(b, d)
    }

    fn to_wire(&self) -> (r: Vec<u8>) {
        encode_request(self)
    }

    fn from_wire(b: &[u8]) -> (r: Result<Request, DecodeError>) {
        decode_request(b)
    }
}

impl Message for Response {
    open spec fn wire(v: ResponseView) -> Seq<u8> {
        response_bytes(v)
    }

    open spec fn decoding(b: Seq<u8>, d: Option<ResponseView>) -> bool {
        response_decoding(b, d)
    }

    fn to_wire(&self) -> (r: Vec<u8>) {
        encode_response(self)
    }

    fn from_wire(b: &[u8]) -> (r: Result<Response, DecodeError>) {
        decode_response(b)
    }
}

/// Encodes a message.
pub fn encode<T: Message>(msg: &T) -> (r: Vec<u8>)
    ensures
        r@ == T::wire(msg@),
{
    msg.to_wire()
}

/// Decodes the message encoded at the start of `bytes`.
pub fn decode<T: Message>(bytes: &[u8]) -> (r: Result<T, DecodeError>)
    ensures
        T::decoding(
            bytes@,
            match r {
                Ok(v) => Some(v@),
                Err(_) => None,
            },
        ),
{
    T::from_wire(bytes)
}

} // verus!
