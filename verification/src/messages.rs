//! The wire protocol: length-prefixed binary messages.
//!
//! A message on the wire is a little-endian 32-bit byte length followed by
//! that many bytes of payload.  The payload is a tagged union: one tag
//! byte, then each string field as a little-endian 32-bit length followed
//! by its UTF-8 bytes.  Requests carry get/set/delete commands; responses
//! carry a value, a bare success, or a failure code.
//!
//! [`spec_request_payload`] and [`spec_response_payload`] define the
//! payloads; the serializers are proved to produce exactly the framed
//! encoding, and the decoders to accept exactly it, so a round trip
//! through the wire returns the message that was sent.

use vstd::prelude::*;
use vstd::utf8::{decode_utf8, decode_utf8_encode_utf8, encode_utf8, valid_utf8};

use crate::error::Error;

verus! {

/// A request from a client: get, set or delete one key.
#[derive(Debug, PartialEq, Eq, Clone)]
pub enum Request {
    Get { key: String },
    Put { key: String, value: String },
    Delete { key: String },
}

/// The mathematical value of a [`Request`].
pub enum RequestModel {
    Get(Seq<char>),
    Put(Seq<char>, Seq<char>),
    Delete(Seq<char>),
}

impl View for Request {
    type V = RequestModel;

    open spec fn view(&self) -> RequestModel {
        match self {
            Request::Get { key } => RequestModel::Get(key@),
            Request::Put { key, value } => RequestModel::Put(key@, value@),
            Request::Delete { key } => RequestModel::Delete(key@),
        }
    }
}

/// The failure codes a server can answer with.
#[derive(Debug, PartialEq, Eq, Clone, Copy, Structural)]
pub enum ErrorCode {
    NotFound,
    Unknown,
}

/// A response from the server: a value, a bare success, or a failure.
#[derive(Debug, PartialEq, Eq, Clone)]
pub enum Response {
    GetValue { value: String },
    Success,
    Failure { code: ErrorCode },
}

/// The mathematical value of a [`Response`].
pub enum ResponseModel {
    GetValue(Seq<char>),
    Success,
    Failure(ErrorCode),
}

impl View for Response {
    type V = ResponseModel;

    open spec fn view(&self) -> ResponseModel {
        match self {
            Response::GetValue { value } => ResponseModel::GetValue(value@),
            Response::Success => ResponseModel::Success,
            Response::Failure { code } => ResponseModel::Failure(*code),
        }
    }
}

// ---------------------------------------------------------------------------
// The encoding
// ---------------------------------------------------------------------------

/// A 32-bit length in little-endian byte order.
pub open spec fn le32(n: int) -> Seq<u8> {
    seq![
        (n % 256) as u8,
        ((n / 256) % 256) as u8,
        ((n / 65536) % 256) as u8,
        ((n / 16777216) % 256) as u8,
    ]
}

/// One string field: its UTF-8 byte length, then its UTF-8 bytes.
pub open spec fn field_bytes(s: Seq<char>) -> Seq<u8> {
    le32(encode_utf8(s).len() as int) + encode_utf8(s)
}

/// The payload of a request, before framing.
pub open spec fn spec_request_payload(r: RequestModel) -> Seq<u8> {
    match r {
        RequestModel::Get(k) => seq![0u8] + field_bytes(k),
        RequestModel::Put(k, v) => seq![1u8] + field_bytes(k) + field_bytes(v),
        RequestModel::Delete(k) => seq![2u8] + field_bytes(k),
    }
}

/// The byte for a failure code.
pub open spec fn code_byte(c: ErrorCode) -> u8 {
    match c {
        ErrorCode::NotFound => 0u8,
        ErrorCode::Unknown => 1u8,
    }
}

/// The key a request speaks of.
pub open spec fn req_key(r: RequestModel) -> Seq<char> {
    match r {
        RequestModel::Get(k) => k,
        RequestModel::Put(k, v) => k,
        RequestModel::Delete(k) => k,
    }
}

/// The payload of a response, before framing.
pub open spec fn spec_response_payload(r: ResponseModel) -> Seq<u8> {
    match r {
        ResponseModel::GetValue(v) => seq![0u8] + field_bytes(v),
        ResponseModel::Success => seq![1u8],
        ResponseModel::Failure(c) => seq![2u8, code_byte(c)],
    }
}

/// A framed message: the payload's length, then the payload.
pub open spec fn spec_frame(payload: Seq<u8>) -> Seq<u8> {
    le32(payload.len() as int) + payload
}


/// The value of four little-endian bytes.
pub open spec fn le32_val(b0: u8, b1: u8, b2: u8, b3: u8) -> int {
    b0 + 256 * (b1 + 256 * (b2 + 256 * b3))
}

/// Reading back the four bytes of an encoded length yields the length.
pub proof fn lemma_le32_roundtrip(n: int)
    requires
        0 <= n <= u32::MAX,
    ensures
        le32_val(le32(n)[0], le32(n)[1], le32(n)[2], le32(n)[3]) == n,
{
    let b = le32(n);
    assert((n % 256) + 256 * (((n / 256) % 256) + 256 * (((n / 65536) % 256) + 256 * ((n
        / 16777216) % 256))) == n) by (nonlinear_arith)
        requires
            0 <= n <= 0xffffffffint,
    ;
}

/// Encoding the value of four bytes yields the bytes again.
pub proof fn lemma_le32_of_val(b0: u8, b1: u8, b2: u8, b3: u8)
    ensures
        0 <= le32_val(b0, b1, b2, b3) <= u32::MAX,
        le32(le32_val(b0, b1, b2, b3)) == seq![b0, b1, b2, b3],
{
    let v = le32_val(b0, b1, b2, b3);
    assert(v % 256 == b0 && (v / 256) % 256 == b1 && (v / 65536) % 256 == b2 && (v / 16777216)
        % 256 == b3 && 0 <= v <= 0xffffffffint) by (nonlinear_arith)
        requires
            v == b0 + 256 * (b1 + 256 * (b2 + 256 * b3)),
            0 <= b0 < 256,
            0 <= b1 < 256,
            0 <= b2 < 256,
            0 <= b3 < 256,
    ;
    assert(le32(v) =~= seq![b0, b1, b2, b3]);
}

/// A well-framed buffer equals the frame of its own payload.
proof fn lemma_frame_of(b: Seq<u8>, payload: Seq<u8>)
    requires
        b.len() >= 4,
        payload =~= b.subrange(4, b.len() as int),
        b.len() - 4 == le32_val(b[0], b[1], b[2], b[3]),
    ensures
        b == spec_frame(payload),
{
    lemma_le32_of_val(b[0], b[1], b[2], b[3]);
    assert(le32(payload.len() as int) == seq![b[0], b[1], b[2], b[3]]);
    assert(spec_frame(payload) =~= b) by {
        assert forall|j: int| 0 <= j < b.len() implies spec_frame(payload)[j] == b[j] by {
            if j < 4 {
                assert(spec_frame(payload)[j] == le32(payload.len() as int)[j]);
                assert(le32(payload.len() as int)[j] == seq![b[0], b[1], b[2], b[3]][j]);
            } else {
                assert(spec_frame(payload)[j] == payload[j - 4]);
                assert(payload[j - 4] == b.subrange(4, b.len() as int)[j - 4]);
            }
        }
    }
}

/// Every field of the message fits a 32-bit length.
pub open spec fn request_fits(r: RequestModel) -> bool {
    match r {
        RequestModel::Get(k) => encode_utf8(k).len() + 5 <= u32::MAX,
        RequestModel::Put(k, v) => encode_utf8(k).len() + encode_utf8(v).len() + 9 <= u32::MAX,
        RequestModel::Delete(k) => encode_utf8(k).len() + 5 <= u32::MAX,
    }
}

/// The tag byte of a request payload.
pub open spec fn req_tag(r: RequestModel) -> u8 {
    match r {
        RequestModel::Get(k) => 0u8,
        RequestModel::Put(k, v) => 1u8,
        RequestModel::Delete(k) => 2u8,
    }
}

/// The length prefix and tag of a fitting framed request.
#[verifier::spinoff_prover]
#[verifier::rlimit(100)]
proof fn lemma_request_frame_len_facts(b: Seq<u8>, r: RequestModel)
    requires
        request_fits(r),
        b == spec_frame(spec_request_payload(r)),
    ensures
        b.len() == 4 + spec_request_payload(r).len(),
        spec_request_payload(r).len() >= 5,
        spec_request_payload(r).len() <= u32::MAX,
        le32_val(b[0], b[1], b[2], b[3]) == spec_request_payload(r).len(),
        b[4] == req_tag(r),
        forall|j: int| 0 <= j < spec_request_payload(r).len() ==> b[4 + j]
            == spec_request_payload(r)[j],
        r matches RequestModel::Get(k) ==> b.len() == 9 + encode_utf8(k).len(),
        r matches RequestModel::Delete(k) ==> b.len() == 9 + encode_utf8(k).len(),
        r matches RequestModel::Put(k, v) ==> b.len() == 13 + encode_utf8(k).len()
            + encode_utf8(v).len(),
{
    let p = spec_request_payload(r);
    lemma_le32_roundtrip(p.len() as int);
    assert(le32(p.len() as int) == seq![b[0], b[1], b[2], b[3]]) by {
        assert forall|j: int| 0 <= j < 4 implies le32(p.len() as int)[j] == b[j] by {
            assert(b[j] == spec_frame(p)[j]);
        }
        assert(le32(p.len() as int) =~= seq![b[0], b[1], b[2], b[3]]);
    }
    assert forall|j: int| 0 <= j < p.len() implies b[4 + j] == p[j] by {
        assert(spec_frame(p)[4 + j] == p[j]);
    }
    assert(b[4int + 0] == p[0int]);
}

/// Where the key field of a fitting framed request sits.
#[verifier::spinoff_prover]
#[verifier::rlimit(100)]
proof fn lemma_request_frame_key_field(b: Seq<u8>, r: RequestModel)
    requires
        request_fits(r),
        b == spec_frame(spec_request_payload(r)),
    ensures
        b.subrange(5, 9 + encode_utf8(req_key(r)).len() as int) == field_bytes(req_key(r)),
{
    lemma_request_frame_len_facts(b, r);
    let p = spec_request_payload(r);
    let k = req_key(r);
    let fk = field_bytes(k);
    assert(b.subrange(5, 9 + encode_utf8(k).len() as int) =~= fk) by {
        assert forall|j: int| 0 <= j < fk.len() implies b.subrange(
            5,
            9 + encode_utf8(k).len() as int,
        )[j] == fk[j] by {
            assert(b[4 + (1 + j)] == p[1 + j]);
            assert(p[1 + j] == fk[j]);
            assert(b.subrange(5, 9 + encode_utf8(k).len() as int)[j] == b[5 + j]);
        }
    }
}

/// One index of a set-request payload's value field.
proof fn lemma_put_payload_value_index(k2: Seq<char>, v: Seq<char>, j: int)
    requires
        0 <= j < field_bytes(v).len(),
    ensures
        spec_request_payload(RequestModel::Put(k2, v))[1 + field_bytes(k2).len() + j]
            == field_bytes(v)[j],
{
    let fk = field_bytes(k2);
    let fv = field_bytes(v);
    assert((seq![1u8] + fk + fv)[1 + fk.len() + j] == fv[j]);
}

/// Where the value field of a fitting framed set request sits.
#[verifier::spinoff_prover]
#[verifier::rlimit(100)]
proof fn lemma_request_frame_value_field(b: Seq<u8>, k2: Seq<char>, v: Seq<char>)
    requires
        request_fits(RequestModel::Put(k2, v)),
        b == spec_frame(spec_request_payload(RequestModel::Put(k2, v))),
    ensures
        b.subrange(9 + encode_utf8(k2).len() as int, b.len() as int) == field_bytes(v),
{
    let r = RequestModel::Put(k2, v);
    lemma_request_frame_len_facts(b, r);
    let p = spec_request_payload(r);
    let fv = field_bytes(v);
    let nk = field_bytes(k2).len() as int;
    let lo = 9 + encode_utf8(k2).len() as int;
    assert(nk == 4 + encode_utf8(k2).len());
    assert(b.len() == lo + fv.len());
    assert(b.subrange(lo, b.len() as int) =~= fv) by {
        assert forall|j: int| 0 <= j < fv.len() implies b.subrange(lo, b.len() as int)[j]
            == fv[j] by {
            lemma_put_payload_value_index(k2, v, j);
            assert(b[4 + (1 + nk + j)] == p[1 + nk + j]);
            assert(b.subrange(lo, b.len() as int)[j] == b[lo + j]);
        }
    }
}

/// Two fields laid down at the same spot have the same length: their
/// four length bytes coincide.
proof fn lemma_same_field_prefix(b: Seq<u8>, at: int, s1: Seq<char>, s2: Seq<char>)
    requires
        0 <= at,
        at + 4 + encode_utf8(s1).len() <= b.len(),
        at + 4 + encode_utf8(s2).len() <= b.len(),
        b.subrange(at, at + 4 + encode_utf8(s1).len() as int) == field_bytes(s1),
        b.subrange(at, at + 4 + encode_utf8(s2).len() as int) == field_bytes(s2),
        encode_utf8(s1).len() <= u32::MAX,
        encode_utf8(s2).len() <= u32::MAX,
    ensures
        encode_utf8(s1).len() == encode_utf8(s2).len(),
{
    let n1 = encode_utf8(s1).len() as int;
    let n2 = encode_utf8(s2).len() as int;
    assert forall|j: int| 0 <= j < 4 implies le32(n1)[j] == b[at + j] && le32(n2)[j] == b[at
        + j] by {
        assert(b.subrange(at, at + 4 + n1)[j] == b[at + j]);
        assert(field_bytes(s1)[j] == le32(n1)[j]);
        assert(b.subrange(at, at + 4 + n2)[j] == b[at + j]);
        assert(field_bytes(s2)[j] == le32(n2)[j]);
    }
    lemma_le32_roundtrip(n1);
    lemma_le32_roundtrip(n2);
    assert(le32_val(b[at], b[at + 1], b[at + 2], b[at + 3]) == n1);
    assert(le32_val(b[at], b[at + 1], b[at + 2], b[at + 3]) == n2);
}

/// A buffer holds a well-formed request when it is the frame of some
/// fitting request's payload.
pub open spec fn is_request_frame(b: Seq<u8>) -> bool {
    exists|r: RequestModel|
        #![auto]
        request_fits(r) && b == spec_frame(spec_request_payload(r))
}

/// A buffer whose prefix disagrees with its length is no request frame.
proof fn lemma_not_frame_bad_len(b: Seq<u8>, n: int)
    requires
        b.len() >= 4 ==> n == 4 + le32_val(b[0], b[1], b[2], b[3]),
        b.len() < 4 || n != b.len() || b.len() < 5,
    ensures
        !is_request_frame(b),
{
    if is_request_frame(b) {
        let r = choose|r: RequestModel|
            #![auto]
            request_fits(r) && b == spec_frame(spec_request_payload(r));
        lemma_request_frame_len_facts(b, r);
    }
}

/// A buffer with an unknown tag byte is no request frame.
proof fn lemma_not_frame_bad_tag(b: Seq<u8>)
    requires
        b.len() >= 5,
        b[4] != 0 && b[4] != 1 && b[4] != 2,
    ensures
        !is_request_frame(b),
{
    if is_request_frame(b) {
        let r = choose|r: RequestModel|
            #![auto]
            request_fits(r) && b == spec_frame(spec_request_payload(r));
        lemma_request_frame_len_facts(b, r);
    }
}

/// A buffer whose first field does not parse is no request frame.
proof fn lemma_not_frame_first_field(b: Seq<u8>)
    requires
        forall|s: Seq<char>|
            !(5 + 4 + encode_utf8(s).len() <= b.len() && encode_utf8(s).len() <= u32::MAX
                && b.subrange(5, 5 + 4 + encode_utf8(s).len() as int) == field_bytes(s)),
    ensures
        !is_request_frame(b),
{
    if is_request_frame(b) {
        let r = choose|r: RequestModel|
            #![auto]
            request_fits(r) && b == spec_frame(spec_request_payload(r));
        lemma_request_frame_len_facts(b, r);
        lemma_request_frame_key_field(b, r);
        let rk = req_key(r);
        assert(5 + 4 + encode_utf8(rk).len() <= b.len());
        assert(b.subrange(5, 9 + encode_utf8(rk).len() as int) == field_bytes(rk));
    }
}

/// A get or delete frame ends exactly where its key field ends.
proof fn lemma_not_frame_get_trailing(b: Seq<u8>, end: int, k1: Seq<char>)
    requires
        b.len() >= 5,
        b[4] == 0 || b[4] == 2,
        5 < end <= b.len(),
        b.subrange(5, end) == field_bytes(k1),
        encode_utf8(k1).len() == end - 9,
        end != b.len(),
    ensures
        !is_request_frame(b),
{
    if is_request_frame(b) {
        let r = choose|r: RequestModel|
            #![auto]
            request_fits(r) && b == spec_frame(spec_request_payload(r));
        lemma_request_frame_len_facts(b, r);
        lemma_request_frame_key_field(b, r);
        let rk = req_key(r);
        match r {
            RequestModel::Put(k2, v2) => {
                assert(b[4] == 1);
            }
            RequestModel::Get(k2) => {
                assert(b.len() == 9 + encode_utf8(k2).len());
                lemma_same_field_prefix(b, 5, k1, k2);
            }
            RequestModel::Delete(k2) => {
                assert(b.len() == 9 + encode_utf8(k2).len());
                lemma_same_field_prefix(b, 5, k1, k2);
            }
        }
    }
}

/// A set frame whose second field does not parse after the first is no
/// request frame.
proof fn lemma_not_frame_put_second(b: Seq<u8>, mid: int, k1: Seq<char>)
    requires
        b.len() >= 5,
        b[4] == 1,
        5 < mid <= b.len(),
        b.subrange(5, mid) == field_bytes(k1),
        encode_utf8(k1).len() == mid - 9,
        forall|s: Seq<char>|
            !(mid + 4 + encode_utf8(s).len() <= b.len() && encode_utf8(s).len() <= u32::MAX
                && b.subrange(mid, mid + 4 + encode_utf8(s).len() as int) == field_bytes(s)),
    ensures
        !is_request_frame(b),
{
    if is_request_frame(b) {
        let r = choose|r: RequestModel|
            #![auto]
            request_fits(r) && b == spec_frame(spec_request_payload(r));
        lemma_request_frame_len_facts(b, r);
        lemma_request_frame_key_field(b, r);
        match r {
            RequestModel::Put(k2, v2) => {
                lemma_request_frame_value_field(b, k2, v2);
                lemma_same_field_prefix(b, 5, k1, k2);
                assert(mid == 9 + encode_utf8(k2).len());
                assert(mid + 4 + encode_utf8(v2).len() <= b.len());
                assert(b.subrange(mid, mid + 4 + encode_utf8(v2).len() as int)
                    == field_bytes(v2));
            }
            _ => {
                assert(b[4] != 1);
            }
        }
    }
}

/// A set frame ends exactly where its value field ends.
proof fn lemma_not_frame_put_trailing(b: Seq<u8>, mid: int, k1: Seq<char>, end: int, v1: Seq<char>)
    requires
        b.len() >= 5,
        b[4] == 1,
        5 < mid <= b.len(),
        b.subrange(5, mid) == field_bytes(k1),
        encode_utf8(k1).len() == mid - 9,
        mid < end <= b.len(),
        b.subrange(mid, end) == field_bytes(v1),
        encode_utf8(v1).len() == end - mid - 4,
        end != b.len(),
    ensures
        !is_request_frame(b),
{
    if is_request_frame(b) {
        let r = choose|r: RequestModel|
            #![auto]
            request_fits(r) && b == spec_frame(spec_request_payload(r));
        lemma_request_frame_len_facts(b, r);
        lemma_request_frame_key_field(b, r);
        match r {
            RequestModel::Put(k2, v2) => {
                lemma_request_frame_value_field(b, k2, v2);
                lemma_same_field_prefix(b, 5, k1, k2);
                assert(mid == 9 + encode_utf8(k2).len());
                assert(b.subrange(mid, b.len() as int) == field_bytes(v2));
                lemma_same_field_prefix(b, mid, v1, v2);
            }
            _ => {
                assert(b[4] != 1);
            }
        }
    }
}

/// Every field of the response fits a 32-bit length.
pub open spec fn response_fits(r: ResponseModel) -> bool {
    match r {
        ResponseModel::GetValue(v) => encode_utf8(v).len() + 5 <= u32::MAX,
        ResponseModel::Success => true,
        ResponseModel::Failure(c) => true,
    }
}

/// The tag byte of a response payload.
pub open spec fn resp_tag(r: ResponseModel) -> u8 {
    match r {
        ResponseModel::GetValue(v) => 0u8,
        ResponseModel::Success => 1u8,
        ResponseModel::Failure(c) => 2u8,
    }
}

/// A buffer holds a well-formed response when it is the frame of some
/// fitting response's payload.
pub open spec fn is_response_frame(b: Seq<u8>) -> bool {
    exists|r: ResponseModel|
        #![auto]
        response_fits(r) && b == spec_frame(spec_response_payload(r))
}

/// The length prefix, tag and field of a fitting framed response.
#[verifier::spinoff_prover]
#[verifier::rlimit(100)]
proof fn lemma_response_frame_facts(b: Seq<u8>, r: ResponseModel)
    requires
        response_fits(r),
        b == spec_frame(spec_response_payload(r)),
    ensures
        b.len() == 4 + spec_response_payload(r).len(),
        spec_response_payload(r).len() >= 1,
        spec_response_payload(r).len() <= u32::MAX,
        le32_val(b[0], b[1], b[2], b[3]) == spec_response_payload(r).len(),
        b[4] == resp_tag(r),
        r matches ResponseModel::GetValue(v) ==> b.len() == 9 + encode_utf8(v).len()
            && b.subrange(5, b.len() as int) == field_bytes(v),
        r matches ResponseModel::Success ==> b.len() == 5,
        r matches ResponseModel::Failure(c) ==> b.len() == 6 && b[5] == code_byte(c),
{
    let p = spec_response_payload(r);
    lemma_le32_roundtrip(p.len() as int);
    assert(le32(p.len() as int) == seq![b[0], b[1], b[2], b[3]]) by {
        assert forall|j: int| 0 <= j < 4 implies le32(p.len() as int)[j] == b[j] by {
            assert(b[j] == spec_frame(p)[j]);
        }
        assert(le32(p.len() as int) =~= seq![b[0], b[1], b[2], b[3]]);
    }
    assert forall|j: int| 0 <= j < p.len() implies b[4 + j] == p[j] by {
        assert(spec_frame(p)[4 + j] == p[j]);
    }
    assert(b[4int + 0] == p[0int]);
    match r {
        ResponseModel::GetValue(v) => {
            let fv = field_bytes(v);
            assert(b.subrange(5, b.len() as int) =~= fv) by {
                assert forall|j: int| 0 <= j < fv.len() implies b.subrange(
                    5,
                    b.len() as int,
                )[j] == fv[j] by {
                    assert(b[4 + (1 + j)] == p[1 + j]);
                    assert(p[1 + j] == fv[j]);
                    assert(b.subrange(5, b.len() as int)[j] == b[5 + j]);
                }
            }
        }
        ResponseModel::Failure(c) => {
            assert(b[4int + 1] == p[1int]);
        }
        _ => {}
    }
}

/// A buffer that fails the response length or tag checks is no response
/// frame.
proof fn lemma_not_resp_frame_shape(b: Seq<u8>, n: int)
    requires
        b.len() >= 4 ==> n == 4 + le32_val(b[0], b[1], b[2], b[3]),
        (b.len() < 4 || n != b.len() || b.len() < 5) || (b.len() >= 5 && b[4] != 0 && b[4] != 1
            && b[4] != 2) || (b.len() >= 5 && b[4] == 1 && b.len() != 5) || (b.len() >= 5 && b[4]
            == 2 && b.len() != 6) || (b.len() == 6 && b[4] == 2 && b[5] != 0 && b[5] != 1),
    ensures
        !is_response_frame(b),
{
    if is_response_frame(b) {
        let r = choose|r: ResponseModel|
            #![auto]
            response_fits(r) && b == spec_frame(spec_response_payload(r));
        lemma_response_frame_facts(b, r);
        match r {
            ResponseModel::Failure(c) => {
                assert(b[5] == code_byte(c));
                assert(code_byte(c) == 0 || code_byte(c) == 1);
            }
            _ => {}
        }
    }
}

/// A response frame whose value field does not parse, or does not end
/// the buffer, is no response frame.
proof fn lemma_not_resp_frame_value(b: Seq<u8>, bad_end: Option<(Seq<char>, int)>)
    requires
        b.len() >= 5,
        b[4] == 0,
        match bad_end {
            Some((v1, end)) => 5 < end <= b.len() && b.subrange(5, end) == field_bytes(v1)
                && encode_utf8(v1).len() == end - 9 && end != b.len(),
            None => forall|s: Seq<char>|
                !(5 + 4 + encode_utf8(s).len() <= b.len() && encode_utf8(s).len() <= u32::MAX
                    && b.subrange(5, 5 + 4 + encode_utf8(s).len() as int) == field_bytes(s)),
        },
    ensures
        !is_response_frame(b),
{
    if is_response_frame(b) {
        let r = choose|r: ResponseModel|
            #![auto]
            response_fits(r) && b == spec_frame(spec_response_payload(r));
        lemma_response_frame_facts(b, r);
        match r {
            ResponseModel::GetValue(v2) => {
                match bad_end {
                    Some((v1, end)) => {
                        lemma_same_field_prefix(b, 5, v1, v2);
                    }
                    None => {
                        assert(5 + 4 + encode_utf8(v2).len() <= b.len());
                        assert(b.subrange(5, 9 + encode_utf8(v2).len() as int)
                            == field_bytes(v2));
                    }
                }
            }
            _ => {
                assert(b[4] != 0);
            }
        }
    }
}

// ---------------------------------------------------------------------------
// The framed buffer
// ---------------------------------------------------------------------------

/// One framed message held in a flat, self-contained byte buffer: the
/// length prefix followed by the payload, exactly as it travels.
#[derive(Debug, PartialEq, Eq, Clone)]
pub struct OwnedFlatBuffer {
    pub bytes: Vec<u8>,
}

impl OwnedFlatBuffer {
    /// The raw bytes of the framed message, prefix included.
    pub fn data(&self) -> (r: &Vec<u8>)
        ensures
            r@ == self.bytes@,
    {
        &self.bytes
    }
}

// ---------------------------------------------------------------------------
// Serialization
// ---------------------------------------------------------------------------

/// Append a 32-bit length, little-endian.
fn push_le32(out: &mut Vec<u8>, n: u32)
    ensures
        final(out)@ == old(out)@ + le32(n as int),
{
    out.push((n % 256) as u8);
    out.push((n / 256 % 256) as u8);
    out.push((n / 65536 % 256) as u8);
    out.push((n / 16777216 % 256) as u8);
    proof {
        assert(final(out)@ =~= old(out)@ + le32(n as int));
    }
}

/// Append one string field.
fn push_field(out: &mut Vec<u8>, s: &str)
    requires
        old(out)@.len() + 4 + encode_utf8(s@).len() <= usize::MAX,
        encode_utf8(s@).len() <= u32::MAX,
    ensures
        final(out)@ == old(out)@ + field_bytes(s@),
{
    let b = s.as_bytes();
    push_le32(out, b.len() as u32);
    out.extend_from_slice(b);
    proof {
        assert(final(out)@ =~= old(out)@ + field_bytes(s@));
    }
}

/// Frame a payload.
fn frame(payload: Vec<u8>) -> (r: OwnedFlatBuffer)
    requires
        payload@.len() <= u32::MAX,
    ensures
        r.bytes@ == spec_frame(payload@),
{
    let mut bytes: Vec<u8> = Vec::new();
    push_le32(&mut bytes, payload.len() as u32);
    let ghost pv = payload@;
    let mut p = payload;
    bytes.append(&mut p);
    proof {
        assert(bytes@ =~= spec_frame(pv));
    }
    OwnedFlatBuffer { bytes }
}

/// Serialize a get request.
pub fn serialize_request_get(key: &str) -> (r: OwnedFlatBuffer)
    requires
        encode_utf8(key@).len() + 5 <= u32::MAX,
    ensures
        r.bytes@ == spec_frame(spec_request_payload(RequestModel::Get(key@))),
{
    let mut payload: Vec<u8> = Vec::new();
    payload.push(0u8);
    push_field(&mut payload, key);
    proof {
        assert(payload@ =~= spec_request_payload(RequestModel::Get(key@)));
    }
    frame(payload)
}

/// Serialize a set request.
pub fn serialize_request_set(key: &str, val: &str) -> (r: OwnedFlatBuffer)
    requires
        encode_utf8(key@).len() + encode_utf8(val@).len() + 9 <= u32::MAX,
    ensures
        r.bytes@ == spec_frame(spec_request_payload(RequestModel::Put(key@, val@))),
{
    let mut payload: Vec<u8> = Vec::new();
    payload.push(1u8);
    push_field(&mut payload, key);
    push_field(&mut payload, val);
    proof {
        assert(payload@ =~= spec_request_payload(RequestModel::Put(key@, val@)));
    }
    frame(payload)
}

/// Serialize a delete request.
pub fn serialize_request_delete(key: &str) -> (r: OwnedFlatBuffer)
    requires
        encode_utf8(key@).len() + 5 <= u32::MAX,
    ensures
        r.bytes@ == spec_frame(spec_request_payload(RequestModel::Delete(key@))),
{
    let mut payload: Vec<u8> = Vec::new();
    payload.push(2u8);
    push_field(&mut payload, key);
    proof {
        assert(payload@ =~= spec_request_payload(RequestModel::Delete(key@)));
    }
    frame(payload)
}

/// Serialize a value-carrying response.
pub fn serialize_response_value(val: &str) -> (r: OwnedFlatBuffer)
    requires
        encode_utf8(val@).len() + 5 <= u32::MAX,
    ensures
        r.bytes@ == spec_frame(spec_response_payload(ResponseModel::GetValue(val@))),
{
    let mut payload: Vec<u8> = Vec::new();
    payload.push(0u8);
    push_field(&mut payload, val);
    proof {
        assert(payload@ =~= spec_response_payload(ResponseModel::GetValue(val@)));
    }
    frame(payload)
}

/// Serialize a bare success response.
pub fn serialize_response_success() -> (r: OwnedFlatBuffer)
    ensures
        r.bytes@ == spec_frame(spec_response_payload(ResponseModel::Success)),
{
    let mut payload: Vec<u8> = Vec::new();
    payload.push(1u8);
    proof {
        assert(payload@ =~= spec_response_payload(ResponseModel::Success));
    }
    frame(payload)
}

/// Serialize a failure response.
pub fn serialize_response_failure(code: ErrorCode) -> (r: OwnedFlatBuffer)
    ensures
        r.bytes@ == spec_frame(spec_response_payload(ResponseModel::Failure(code))),
{
    let mut payload: Vec<u8> = Vec::new();
    payload.push(2u8);
    match code {
        ErrorCode::NotFound => payload.push(0u8),
        ErrorCode::Unknown => payload.push(1u8),
    }
    proof {
        assert(payload@ =~= spec_response_payload(ResponseModel::Failure(code)));
    }
    frame(payload)
}

/// Serialize any response.  Fails exactly when the one unframeable case
/// holds: a value whose bytes do not fit the 32-bit length prefix.
pub fn serialize_response(resp: &Response) -> (r: Result<OwnedFlatBuffer, Error>)
    ensures
        match r {
            Ok(b) => response_fits(resp@) && b.bytes@ == spec_frame(
                spec_response_payload(resp@),
            ),
            Err(e) => e == Error::ProtocolError,
        },
        r is Err <==> (resp@ matches ResponseModel::GetValue(v) && encode_utf8(v).len() + 5
            > u32::MAX),
{
    match resp {
        Response::GetValue { value } => {
            let n = value.as_str().as_bytes().len();
            if n > 0xffffffff - 5 {
                return Err(Error::ProtocolError);
            }
            Ok(serialize_response_value(value.as_str()))
        }
        Response::Success => Ok(serialize_response_success()),
        Response::Failure { code } => Ok(serialize_response_failure(*code)),
    }
}

// ---------------------------------------------------------------------------
// Reading a frame
// ---------------------------------------------------------------------------

/// Extract one framed message from the front of a byte buffer: the length
/// prefix names the payload size; prefix and payload together make the
/// message.  Fails when the buffer is too short for the prefix or the
/// payload it announces.
pub fn read(input: &Vec<u8>) -> (res: Result<(OwnedFlatBuffer, usize), Error>)
    ensures
        match res {
            Ok((b, n)) => {
                &&& 4 <= n <= input@.len()
                &&& b.bytes@ == input@.take(n as int)
                &&& n as int == 4 + le32_val(input@[0], input@[1], input@[2], input@[3])
            }
            Err(e) => e == Error::ProtocolError && (input@.len() < 4 || input@.len() < 4
                + le32_val(input@[0], input@[1], input@[2], input@[3])),
        },
{
    if input.len() < 4 {
        return Err(Error::ProtocolError);
    }
    let b0 = input[0] as u32;
    let b1 = input[1] as u32;
    let b2 = input[2] as u32;
    let b3 = input[3] as u32;
    let size: u32 = b0 + 256 * b1 + 65536 * b2 + 16777216 * b3;
    proof {
        assert(size as int == le32_val(input@[0], input@[1], input@[2], input@[3]));
    }
    if ((input.len() - 4) as u64) < (size as u64) {
        return Err(Error::ProtocolError);
    }
    let total: usize = 4 + (size as usize);
    let mut bytes: Vec<u8> = Vec::new();
    let mut i: usize = 0;
    while i < total
        invariant
            i <= total,
            total <= input@.len(),
            bytes@ == input@.take(i as int),
        decreases total - i,
    {
        bytes.push(input[i]);
        proof {
            assert(bytes@ =~= input@.take(i as int + 1));
        }
        i += 1;
    }
    Ok((OwnedFlatBuffer { bytes }, total))
}

// ---------------------------------------------------------------------------
// Decoding
// ---------------------------------------------------------------------------

/// Relies on `String::from_utf8`: it succeeds exactly on valid UTF-8 and
/// decodes those bytes to the characters they encode.
#[verifier::external_body]
pub(crate) fn bytes_to_string(v: Vec<u8>) -> (r: Option<String>)
    ensures
        r is Some <==> valid_utf8(v@),
        r matches Some(s) ==> s@ == decode_utf8(v@),
{
    match String::from_utf8(v) {
        Ok(s) => Some(s),
        Err(_) => None,
    }
}

/// No field fits where even a length prefix does not.
proof fn lemma_no_field_short(bytes: Seq<u8>, at: int)
    requires
        at + 4 > bytes.len(),
    ensures
        forall|s: Seq<char>|
            !(at + 4 + encode_utf8(s).len() <= bytes.len() && encode_utf8(s).len() <= u32::MAX
                && bytes.subrange(at, at + 4 + encode_utf8(s).len() as int) == field_bytes(s)),
{
}

/// No field fits whose announced length exceeds the bytes remaining.
#[verifier::spinoff_prover]
#[verifier::rlimit(100)]
proof fn lemma_no_field_announced(bytes: Seq<u8>, at: int, flen: int)
    requires
        0 <= at,
        at + 4 <= bytes.len(),
        flen == le32_val(bytes[at], bytes[at + 1], bytes[at + 2], bytes[at + 3]),
        bytes.len() - at - 4 < flen,
    ensures
        forall|s: Seq<char>|
            !(at + 4 + encode_utf8(s).len() <= bytes.len() && encode_utf8(s).len() <= u32::MAX
                && bytes.subrange(at, at + 4 + encode_utf8(s).len() as int) == field_bytes(s)),
{
    assert forall|s: Seq<char>| at + 4 + encode_utf8(s).len() <= bytes.len()
        && encode_utf8(s).len() <= u32::MAX implies bytes.subrange(
        at,
        at + 4 + encode_utf8(s).len() as int,
    ) != field_bytes(s) by {
        let fb = field_bytes(s);
        let n = encode_utf8(s).len() as int;
        if bytes.subrange(at, at + 4 + n) == fb {
            lemma_le32_roundtrip(n);
            assert(fb[0] == le32(n)[0] && fb[1] == le32(n)[1] && fb[2] == le32(n)[2] && fb[3]
                == le32(n)[3]);
            assert(bytes.subrange(at, at + 4 + n)[0] == bytes[at]);
            assert(bytes.subrange(at, at + 4 + n)[1] == bytes[at + 1]);
            assert(bytes.subrange(at, at + 4 + n)[2] == bytes[at + 2]);
            assert(bytes.subrange(at, at + 4 + n)[3] == bytes[at + 3]);
            assert(flen == n);
        }
    }
}

/// No field fits whose announced bytes are not valid UTF-8.
#[verifier::spinoff_prover]
#[verifier::rlimit(100)]
proof fn lemma_no_field_utf8(bytes: Seq<u8>, at: int, flen: int, fbv: Seq<u8>)
    requires
        0 <= at,
        at + 4 <= bytes.len(),
        flen == le32_val(bytes[at], bytes[at + 1], bytes[at + 2], bytes[at + 3]),
        at + 4 + flen <= bytes.len(),
        fbv == bytes.subrange(at + 4, at + 4 + flen),
        !valid_utf8(fbv),
    ensures
        forall|s: Seq<char>|
            !(at + 4 + encode_utf8(s).len() <= bytes.len() && encode_utf8(s).len() <= u32::MAX
                && bytes.subrange(at, at + 4 + encode_utf8(s).len() as int) == field_bytes(s)),
{
    assert forall|s: Seq<char>| at + 4 + encode_utf8(s).len() <= bytes.len()
        && encode_utf8(s).len() <= u32::MAX implies bytes.subrange(
        at,
        at + 4 + encode_utf8(s).len() as int,
    ) != field_bytes(s) by {
        let n = encode_utf8(s).len() as int;
        if bytes.subrange(at, at + 4 + n) == field_bytes(s) {
            lemma_le32_roundtrip(n);
            assert(bytes.subrange(at, at + 4 + n)[0] == bytes[at]);
            assert(bytes.subrange(at, at + 4 + n)[1] == bytes[at + 1]);
            assert(bytes.subrange(at, at + 4 + n)[2] == bytes[at + 2]);
            assert(bytes.subrange(at, at + 4 + n)[3] == bytes[at + 3]);
            assert(field_bytes(s)[0] == le32(n)[0] && field_bytes(s)[1] == le32(n)[1]
                && field_bytes(s)[2] == le32(n)[2] && field_bytes(s)[3] == le32(n)[3]);
            assert(flen == n);
            assert forall|j: int| 0 <= j < n implies fbv[j] == encode_utf8(s)[j] by {
                assert(bytes.subrange(at, at + 4 + n)[4 + j] == encode_utf8(s)[j]);
                assert(bytes.subrange(at + 4, at + 4 + n)[j] == bytes[at + 4 + j]);
                assert(bytes.subrange(at, at + 4 + n)[4 + j] == bytes[at + 4 + j]);
            }
            assert(fbv =~= encode_utf8(s));
            vstd::utf8::encode_utf8_valid_utf8(s);
        }
    }
}

/// Read the string field at `at`; on success return it and the offset
/// just after it.
#[verifier::spinoff_prover]
#[verifier::rlimit(100)]
fn read_field(bytes: &Vec<u8>, at: usize) -> (r: Option<(String, usize)>)
    ensures
        match r {
            Some((s, end)) => {
                &&& at < end <= bytes@.len()
                &&& bytes@.subrange(at as int, end as int) == field_bytes(s@)
            }
            None => forall|s: Seq<char>|
                !(at + 4 + encode_utf8(s).len() <= bytes@.len() && encode_utf8(s).len()
                    <= u32::MAX && bytes@.subrange(
                    at as int,
                    at as int + 4 + encode_utf8(s).len(),
                ) == field_bytes(s)),
        },
{
    if bytes.len() < 4 || bytes.len() - 4 < at {
        proof {
            lemma_no_field_short(bytes@, at as int);
        }
        return None;
    }
    let b0 = bytes[at] as u32;
    let b1 = bytes[at + 1] as u32;
    let b2 = bytes[at + 2] as u32;
    let b3 = bytes[at + 3] as u32;
    let flen: u32 = b0 + 256 * b1 + 65536 * b2 + 16777216 * b3;
    proof {
        assert(flen as int == le32_val(bytes@[at as int], bytes@[at as int + 1], bytes@[at as int
            + 2], bytes@[at as int + 3]));
    }
    if ((bytes.len() - at - 4) as u64) < (flen as u64) {
        proof {
            lemma_no_field_announced(bytes@, at as int, flen as int);
        }
        return None;
    }
    let end: usize = at + 4 + (flen as usize);
    let mut fb: Vec<u8> = Vec::new();
    let mut i: usize = at + 4;
    while i < end
        invariant
            at + 4 <= i <= end,
            end <= bytes@.len(),
            fb@ == bytes@.subrange(at as int + 4, i as int),
        decreases end - i,
    {
        fb.push(bytes[i]);
        proof {
            assert(fb@ =~= bytes@.subrange(at as int + 4, i as int + 1));
        }
        i += 1;
    }
    let ghost fbv = fb@;
    match bytes_to_string(fb) {
        Some(s) => {
            proof {
                decode_utf8_encode_utf8(fbv);
                assert(encode_utf8(s@) == fbv);
                lemma_le32_roundtrip(flen as int);
                assert(bytes@.subrange(at as int, end as int) =~= field_bytes(s@));
            }
            Some((s, end))
        }
        None => {
            proof {
                lemma_no_field_utf8(bytes@, at as int, flen as int, fbv);
            }
            None
        }
    }
}

/// Decode a framed request: succeeds, with the request sent, exactly
/// when the buffer is the frame of a fitting request.
#[verifier::rlimit(100)]
pub fn decode_request(buf: &OwnedFlatBuffer) -> (res: Result<Request, Error>)
    ensures
        match res {
            Ok(req) => request_fits(req@) && buf.bytes@ == spec_frame(
                spec_request_payload(req@),
            ),
            Err(e) => e == Error::ProtocolError && !is_request_frame(buf.bytes@),
        },
{
    let b = &buf.bytes;
    match read(b) {
        Err(_) => {
            proof {
                lemma_not_frame_bad_len(b@, 4 + le32_val(b@[0], b@[1], b@[2], b@[3]));
            }
            Err(Error::ProtocolError)
        }
        Ok((_m, n)) => {
            if n != b.len() || b.len() < 5 {
                proof {
                    lemma_not_frame_bad_len(b@, n as int);
                }
                return Err(Error::ProtocolError);
            }
            let tag = b[4];
            if tag == 0 || tag == 2 {
                match read_field(b, 5) {
                    Some((key, end)) => {
                        if end != b.len() {
                            proof {
                                assert(field_bytes(key@).len() == 4 + encode_utf8(key@).len());
                                assert(encode_utf8(key@).len() == end - 9);
                                lemma_not_frame_get_trailing(b@, end as int, key@);
                            }
                            return Err(Error::ProtocolError);
                        }
                        let req = if tag == 0 {
                            Request::Get { key }
                        } else {
                            Request::Delete { key }
                        };
                        proof {
                            let bl = b@.len() as int;
                            let payload = spec_request_payload(req@);
                            assert(b@.subrange(5, bl) == field_bytes(req_key(req@)));
                            assert(payload =~= b@.subrange(4, bl)) by {
                                assert forall|j: int| 0 <= j < payload.len() implies payload[j]
                                    == b@.subrange(4, bl)[j] by {
                                    if j == 0 {
                                        assert(b@.subrange(4, bl)[0] == b@[4]);
                                    } else {
                                        assert(payload[j] == field_bytes(req_key(req@))[j - 1]);
                                        assert(b@.subrange(5, bl)[j - 1] == b@[4 + j]);
                                        assert(b@.subrange(4, bl)[j] == b@[4 + j]);
                                    }
                                }
                            }
                            lemma_frame_of(b@, payload);
                            lemma_le32_of_val(b@[0], b@[1], b@[2], b@[3]);
                            assert(payload.len() <= u32::MAX);
                        }
                        Ok(req)
                    }
                    None => {
                        proof {
                            lemma_not_frame_first_field(b@);
                        }
                        Err(Error::ProtocolError)
                    }
                }
            } else if tag == 1 {
                match read_field(b, 5) {
                    Some((key, mid)) => {
                        match read_field(b, mid) {
                            Some((value, end)) => {
                                if end != b.len() {
                                    proof {
                                        assert(field_bytes(key@).len() == 4 + encode_utf8(
                                            key@,
                                        ).len());
                                        assert(field_bytes(value@).len() == 4 + encode_utf8(
                                            value@,
                                        ).len());
                                        assert(encode_utf8(key@).len() == mid - 9);
                                        assert(encode_utf8(value@).len() == end - mid - 4);
                                        lemma_not_frame_put_trailing(
                                            b@,
                                            mid as int,
                                            key@,
                                            end as int,
                                            value@,
                                        );
                                    }
                                    return Err(Error::ProtocolError);
                                }
                                let req = Request::Put { key, value };
                                proof {
                                    let bl = b@.len() as int;
                                    let payload = spec_request_payload(req@);
                                    let fk = field_bytes(key@);
                                    let fv = field_bytes(value@);
                                    assert(b@.subrange(5, mid as int) == fk);
                                    assert(b@.subrange(mid as int, bl) == fv);
                                    assert(mid as int == 5 + fk.len());
                                    assert(payload =~= b@.subrange(4, bl)) by {
                                        assert forall|j: int| 0 <= j < payload.len() implies
                                            payload[j] == b@.subrange(4, bl)[j] by {
                                            assert(b@.subrange(4, bl)[j] == b@[4 + j]);
                                            if j == 0 {
                                            } else if j <= fk.len() {
                                                assert(payload[j] == fk[j - 1]);
                                                assert(b@.subrange(5, mid as int)[j - 1]
                                                    == b@[4 + j]);
                                            } else {
                                                assert(payload[j] == fv[j - 1 - fk.len()]);
                                                assert(b@.subrange(mid as int, bl)[j - 1
                                                    - fk.len()] == b@[4 + j]);
                                            }
                                        }
                                    }
                                    lemma_frame_of(b@, payload);
                                    lemma_le32_of_val(b@[0], b@[1], b@[2], b@[3]);
                                    assert(payload.len() <= u32::MAX);
                                }
                                Ok(req)
                            }
                            None => {
                                proof {
                                    assert(field_bytes(key@).len() == 4 + encode_utf8(
                                        key@,
                                    ).len());
                                    assert(encode_utf8(key@).len() == mid - 9);
                                    lemma_not_frame_put_second(b@, mid as int, key@);
                                }
                                Err(Error::ProtocolError)
                            }
                        }
                    }
                    None => {
                        proof {
                            lemma_not_frame_first_field(b@);
                        }
                        Err(Error::ProtocolError)
                    }
                }
            } else {
                proof {
                    lemma_not_frame_bad_tag(b@);
                }
                Err(Error::ProtocolError)
            }
        }
    }
}

/// Decode a framed response: succeeds, with the response sent, exactly
/// when the buffer is the frame of a fitting response.
#[verifier::rlimit(100)]
pub fn decode_response(buf: &OwnedFlatBuffer) -> (res: Result<Response, Error>)
    ensures
        match res {
            Ok(resp) => response_fits(resp@) && buf.bytes@ == spec_frame(
                spec_response_payload(resp@),
            ),
            Err(e) => e == Error::ProtocolError && !is_response_frame(buf.bytes@),
        },
{
    let b = &buf.bytes;
    match read(b) {
        Err(_) => {
            proof {
                lemma_not_resp_frame_shape(b@, 4 + le32_val(b@[0], b@[1], b@[2], b@[3]));
            }
            Err(Error::ProtocolError)
        }
        Ok((_m, n)) => {
            if n != b.len() || b.len() < 5 {
                proof {
                    lemma_not_resp_frame_shape(b@, n as int);
                }
                return Err(Error::ProtocolError);
            }
            let tag = b[4];
            if tag == 0 {
                match read_field(b, 5) {
                    Some((value, end)) => {
                        if end != b.len() {
                            proof {
                                assert(field_bytes(value@).len() == 4 + encode_utf8(
                                    value@,
                                ).len());
                                lemma_not_resp_frame_value(
                                    b@,
                                    Some((value@, end as int)),
                                );
                            }
                            return Err(Error::ProtocolError);
                        }
                        let resp = Response::GetValue { value };
                        proof {
                            let bl = b@.len() as int;
                            let payload = spec_response_payload(resp@);
                            assert(b@.subrange(5, bl) == field_bytes(value@));
                            assert(payload =~= b@.subrange(4, bl)) by {
                                assert forall|j: int| 0 <= j < payload.len() implies payload[j]
                                    == b@.subrange(4, bl)[j] by {
                                    if j == 0 {
                                        assert(b@.subrange(4, bl)[0] == b@[4]);
                                    } else {
                                        assert(payload[j] == field_bytes(value@)[j - 1]);
                                        assert(b@.subrange(5, bl)[j - 1] == b@[4 + j]);
                                        assert(b@.subrange(4, bl)[j] == b@[4 + j]);
                                    }
                                }
                            }
                            lemma_frame_of(b@, payload);
                            lemma_le32_of_val(b@[0], b@[1], b@[2], b@[3]);
                            assert(payload.len() <= u32::MAX);
                        }
                        Ok(resp)
                    }
                    None => {
                        proof {
                            lemma_not_resp_frame_value(b@, None);
                        }
                        Err(Error::ProtocolError)
                    }
                }
            } else if tag == 1 {
                if b.len() != 5 {
                    proof {
                        lemma_not_resp_frame_shape(b@, n as int);
                    }
                    return Err(Error::ProtocolError);
                }
                proof {
                    let payload = spec_response_payload(ResponseModel::Success);
                    assert(payload =~= b@.subrange(4, 5)) by {
                        assert(b@.subrange(4, 5)[0] == b@[4]);
                    }
                    lemma_frame_of(b@, payload);
                }
                Ok(Response::Success)
            } else if tag == 2 {
                if b.len() != 6 {
                    proof {
                        lemma_not_resp_frame_shape(b@, n as int);
                    }
                    return Err(Error::ProtocolError);
                }
                let cb = b[5];
                if cb == 0 || cb == 1 {
                    let code = if cb == 0 {
                        ErrorCode::NotFound
                    } else {
                        ErrorCode::Unknown
                    };
                    proof {
                        let payload = spec_response_payload(ResponseModel::Failure(code));
                        assert(payload =~= b@.subrange(4, 6)) by {
                            assert(b@.subrange(4, 6)[0] == b@[4]);
                            assert(b@.subrange(4, 6)[1] == b@[5]);
                        }
                        lemma_frame_of(b@, payload);
                    }
                    Ok(Response::Failure { code })
                } else {
                    proof {
                        lemma_not_resp_frame_shape(b@, n as int);
                    }
                    Err(Error::ProtocolError)
                }
            } else {
                proof {
                    lemma_not_resp_frame_shape(b@, n as int);
                }
                Err(Error::ProtocolError)
            }
        }
    }
}

/// The wire encoding of requests is injective: a round trip over the wire
/// identifies the request that was sent.  (The serializers produce
/// `spec_frame(spec_request_payload(r))`, and the decoder accepts exactly
/// such buffers, returning a request with the same model.)
pub proof fn lemma_frame_injective(p1: Seq<u8>, p2: Seq<u8>)
    requires
        spec_frame(p1) == spec_frame(p2),
    ensures
        p1 == p2,
{
    let f1 = spec_frame(p1);
    let f2 = spec_frame(p2);
    assert(f1.len() == 4 + p1.len() && f2.len() == 4 + p2.len());
    assert(p1 =~= p2) by {
        assert forall|j: int| 0 <= j < p1.len() implies p1[j] == p2[j] by {
            assert(f1[4 + j] == p1[j]);
            assert(f2[4 + j] == p2[j]);
        }
    }
}

#[verifier::spinoff_prover]
#[verifier::rlimit(100)]
pub proof fn lemma_request_payload_injective(r1: RequestModel, r2: RequestModel)
    requires
        request_fits(r1),
        request_fits(r2),
        spec_request_payload(r1) == spec_request_payload(r2),
    ensures
        r1 == r2,
{
    let p1 = spec_request_payload(r1);
    let p2 = spec_request_payload(r2);
    match (r1, r2) {
        (RequestModel::Get(k1), RequestModel::Get(k2)) => {
            lemma_field_bytes_injective_tail(k1, k2, p1, 0u8);
        }
        (RequestModel::Delete(k1), RequestModel::Delete(k2)) => {
            lemma_field_bytes_injective_tail(k1, k2, p1, 2u8);
        }
        (RequestModel::Put(k1, v1), RequestModel::Put(k2, v2)) => {
            lemma_put_payload_injective(k1, v1, k2, v2);
        }
        _ => {
            assert(p1[0] == p2[0]);
        }
    }
}

/// Helper: equal set-request payloads carry equal keys and values.
#[verifier::rlimit(100)]
proof fn lemma_put_payload_injective(
    k1: Seq<char>,
    v1: Seq<char>,
    k2: Seq<char>,
    v2: Seq<char>,
)
    requires
        encode_utf8(k1).len() + encode_utf8(v1).len() + 9 <= u32::MAX,
        encode_utf8(k2).len() + encode_utf8(v2).len() + 9 <= u32::MAX,
        seq![1u8] + field_bytes(k1) + field_bytes(v1) == seq![1u8] + field_bytes(k2)
            + field_bytes(v2),
    ensures
        k1 == k2,
        v1 == v2,
{
    let p1 = seq![1u8] + field_bytes(k1) + field_bytes(v1);
    let p2 = seq![1u8] + field_bytes(k2) + field_bytes(v2);
    let n1 = encode_utf8(k1).len() as int;
    let n2 = encode_utf8(k2).len() as int;
    let m1 = encode_utf8(v1).len() as int;
    let m2 = encode_utf8(v2).len() as int;
    assert(n1 == n2) by {
        assert(p1[1] == field_bytes(k1)[0] && p1[2] == field_bytes(k1)[1] && p1[3]
            == field_bytes(k1)[2] && p1[4] == field_bytes(k1)[3]);
        assert(p2[1] == field_bytes(k2)[0] && p2[2] == field_bytes(k2)[1] && p2[3]
            == field_bytes(k2)[2] && p2[4] == field_bytes(k2)[3]);
        lemma_le32_roundtrip(n1);
        lemma_le32_roundtrip(n2);
    }
    assert(encode_utf8(k1) =~= encode_utf8(k2)) by {
        assert forall|j: int| 0 <= j < n1 implies encode_utf8(k1)[j] == encode_utf8(k2)[j] by {
            assert(p1[5 + j] == field_bytes(k1)[4 + j]);
            assert(field_bytes(k1)[4 + j] == encode_utf8(k1)[j]);
            assert(p2[5 + j] == field_bytes(k2)[4 + j]);
            assert(field_bytes(k2)[4 + j] == encode_utf8(k2)[j]);
        }
    }
    lemma_encode_utf8_injective(k1, k2);
    let base = 5 + n1;
    assert(m1 == m2) by {
        assert(p1.len() == 1 + 4 + n1 + 4 + m1);
        assert(p2.len() == 1 + 4 + n2 + 4 + m2);
    }
    assert(encode_utf8(v1) =~= encode_utf8(v2)) by {
        assert forall|j: int| 0 <= j < m1 implies encode_utf8(v1)[j] == encode_utf8(v2)[j] by {
            assert(p1[base + 4 + j] == field_bytes(v1)[4 + j]);
            assert(field_bytes(v1)[4 + j] == encode_utf8(v1)[j]);
            assert(p2[base + 4 + j] == field_bytes(v2)[4 + j]);
            assert(field_bytes(v2)[4 + j] == encode_utf8(v2)[j]);
        }
    }
    lemma_encode_utf8_injective(v1, v2);
}

/// Helper: equal `tag + field` payloads carry equal strings.
proof fn lemma_field_bytes_injective_tail(
    k1: Seq<char>,
    k2: Seq<char>,
    p: Seq<u8>,
    t: u8,
)
    requires
        p == seq![t] + field_bytes(k1),
        p == seq![t] + field_bytes(k2),
    ensures
        k1 == k2,
{
    assert(field_bytes(k1) =~= field_bytes(k2)) by {
        assert(p.len() == 1 + field_bytes(k1).len());
        assert(p.len() == 1 + field_bytes(k2).len());
        assert forall|j: int| 0 <= j < field_bytes(k1).len() implies field_bytes(k1)[j]
            == field_bytes(k2)[j] by {
            assert(p[1 + j] == field_bytes(k1)[j]);
            assert(p[1 + j] == field_bytes(k2)[j]);
        }
    }
    assert(encode_utf8(k1) =~= encode_utf8(k2)) by {
        let n1 = encode_utf8(k1).len() as int;
        let n2 = encode_utf8(k2).len() as int;
        assert(4 + n1 == 4 + n2);
        assert forall|j: int| 0 <= j < n1 implies encode_utf8(k1)[j] == encode_utf8(k2)[j] by {
            assert(field_bytes(k1)[4 + j] == encode_utf8(k1)[j]);
            assert(field_bytes(k2)[4 + j] == encode_utf8(k2)[j]);
        }
    }
    lemma_encode_utf8_injective(k1, k2);
}

/// UTF-8 encoding is injective: decode inverts it.
proof fn lemma_encode_utf8_injective(s1: Seq<char>, s2: Seq<char>)
    requires
        encode_utf8(s1) == encode_utf8(s2),
    ensures
        s1 == s2,
{
    vstd::utf8::encode_utf8_decode_utf8(s1);
    vstd::utf8::encode_utf8_decode_utf8(s2);
}


} // verus!
