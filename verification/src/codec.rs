//! The connection codec: binary application messages and JSON signaling
//! envelopes.
//!
//! Application payloads are length-free fixed frames in the little-endian
//! fixed-int layout that `bincode`'s plain `serialize`/`deserialize` use: a
//! unit enum variant is its 32-bit variant index, and bytes after a decoded
//! value are tolerated. Signaling envelopes are JSON text in the canonical
//! form this module emits: no insignificant whitespace, fields in a fixed
//! order, identities as decimal integers, and the opaque signal payload
//! embedded verbatim.

use vstd::prelude::*;

use crate::protocol::{ClientMessage, DecodeError, ServerMessage};

verus! {

/// The little-endian four-byte layout of a 32-bit value.
pub open spec fn u32_le_bytes(x: u32) -> Seq<u8> {
    seq![
        (x & 0xff) as u8,
        ((x >> 8) & 0xff) as u8,
        ((x >> 16) & 0xff) as u8,
        ((x >> 24) & 0xff) as u8,
    ]
}

/// The value whose little-endian layout opens the byte sequence `b`.
pub open spec fn le_u32_val(b: Seq<u8>) -> int {
    b[0] + 0x100 * b[1] + 0x10000 * b[2] + 0x1000000 * b[3]
}

/// Reading four little-endian bytes back gives the value they came from.
pub proof fn lemma_u32_le_round(x: u32)
    ensures
        le_u32_val(u32_le_bytes(x)) == x as int,
{
    assert((((x & 0xff) as u8) as u64) + 0x100u64 * ((((x >> 8) & 0xff) as u8) as u64)
        + 0x10000u64 * ((((x >> 16) & 0xff) as u8) as u64) + 0x1000000u64 * ((((x >> 24)
        & 0xff) as u8) as u64) == x as u64) by (bit_vector);
}

/// Relies on bincode's `serialize` with its default configuration
/// (little-endian, fixed-width integers): a `u32` becomes exactly its four
/// little-endian bytes, and writing into a fresh vector cannot fail.
#[verifier::external_body]
fn fixint_u32_bytes(x: u32) -> (r: Vec<u8>)
    ensures
        r@ == u32_le_bytes(x),
{
    bincode::serialize(&x).unwrap()
}

/// Relies on bincode's `deserialize` with its default configuration
/// (little-endian, fixed-width integers, trailing bytes allowed): a `u32`
/// is read from the first four bytes, and fewer than four bytes are the
/// only decode failure.
#[verifier::external_body]
fn fixint_u32_parse(b: &Vec<u8>) -> (r: Option<u32>)
    ensures
        match r {
            None => b@.len() < 4,
            Some(x) => b@.len() >= 4 && x as int == le_u32_val(b@),
        },
{
    bincode::deserialize::<u32>(b.as_slice()).ok()
}

/// The wire frame of a client's application payload: the 32-bit index of
/// its variant, little-endian.
pub open spec fn client_message_bytes(m: ClientMessage) -> Seq<u8> {
    u32_le_bytes(0)
}

/// The wire frame of a server-relayed application payload: the 32-bit index
/// of its variant, little-endian.
pub open spec fn server_message_bytes(m: ServerMessage) -> Seq<u8> {
    u32_le_bytes(0)
}

/// Frame a client application payload for the wire.
pub fn encode_client_message(m: &ClientMessage) -> (r: Vec<u8>)
    ensures
        r@ == client_message_bytes(*m),
{
    fixint_u32_bytes(0)
}

/// Frame a server application payload for the wire.
pub fn encode_server_message(m: &ServerMessage) -> (r: Vec<u8>)
    ensures
        r@ == server_message_bytes(*m),
{
    fixint_u32_bytes(0)
}

/// Read a client application payload: succeeds exactly on frames that open
/// with a known variant index, tolerating trailing bytes as the frame
/// layout does.
pub fn decode_client_message(b: &Vec<u8>) -> (r: Result<ClientMessage, DecodeError>)
    ensures
        r is Ok <==> b@.len() >= 4 && le_u32_val(b@) == 0,
        r matches Ok(m) ==> m == ClientMessage::HelloFromClient,
        b@.len() < 4 ==> r == Err::<ClientMessage, DecodeError>(DecodeError::Truncated),
        b@.len() >= 4 && le_u32_val(b@) != 0 ==> r == Err::<ClientMessage, DecodeError>(
            DecodeError::Unrecognized,
        ),
{
    match fixint_u32_parse(b) {
        None => Err(DecodeError::Truncated),
        Some(tag) => {
            if tag == 0 {
                Ok(ClientMessage::HelloFromClient)
            } else {
                Err(DecodeError::Unrecognized)
            }
        },
    }
}

/// Read a server application payload: succeeds exactly on frames that open
/// with a known variant index, tolerating trailing bytes as the frame
/// layout does.
pub fn decode_server_message(b: &Vec<u8>) -> (r: Result<ServerMessage, DecodeError>)
    ensures
        r is Ok <==> b@.len() >= 4 && le_u32_val(b@) == 0,
        r matches Ok(m) ==> m == ServerMessage::HelloFromServer,
        b@.len() < 4 ==> r == Err::<ServerMessage, DecodeError>(DecodeError::Truncated),
        b@.len() >= 4 && le_u32_val(b@) != 0 ==> r == Err::<ServerMessage, DecodeError>(
            DecodeError::Unrecognized,
        ),
{
    match fixint_u32_parse(b) {
        None => Err(DecodeError::Truncated),
        Some(tag) => {
            if tag == 0 {
                Ok(ServerMessage::HelloFromServer)
            } else {
                Err(DecodeError::Unrecognized)
            }
        },
    }
}

/// An application payload framed and read back is itself; reading also
/// tolerates any bytes after the frame.
pub proof fn lemma_client_message_round_trip(m: ClientMessage, tail: Seq<u8>)
    ensures
        client_message_bytes(m).len() >= 4,
        le_u32_val(client_message_bytes(m) + tail) == 0,
        le_u32_val(client_message_bytes(m)) == 0,
{
    lemma_u32_le_round(0);
    assert((client_message_bytes(m) + tail)[0] == client_message_bytes(m)[0]);
    assert((client_message_bytes(m) + tail)[1] == client_message_bytes(m)[1]);
    assert((client_message_bytes(m) + tail)[2] == client_message_bytes(m)[2]);
    assert((client_message_bytes(m) + tail)[3] == client_message_bytes(m)[3]);
}

/// The server-side twin of the application round trip.
pub proof fn lemma_server_message_round_trip(m: ServerMessage, tail: Seq<u8>)
    ensures
        server_message_bytes(m).len() >= 4,
        le_u32_val(server_message_bytes(m) + tail) == 0,
        le_u32_val(server_message_bytes(m)) == 0,
{
    lemma_u32_le_round(0);
    assert((server_message_bytes(m) + tail)[0] == server_message_bytes(m)[0]);
    assert((server_message_bytes(m) + tail)[1] == server_message_bytes(m)[1]);
    assert((server_message_bytes(m) + tail)[2] == server_message_bytes(m)[2]);
    assert((server_message_bytes(m) + tail)[3] == server_message_bytes(m)[3]);
}

/// Whether `b` is the code of a decimal digit.
pub open spec fn is_digit(b: u8) -> bool {
    48 <= b <= 57
}

/// The decimal digits of `n`, most significant first.
pub open spec fn dec_digits(n: int) -> Seq<u8>
    recommends
        n >= 0,
    decreases n,
{
    if n < 10 {
        seq![(48 + n) as u8]
    } else {
        dec_digits(n / 10).push((48 + n % 10) as u8)
    }
}

/// The value of a digit string, most significant first; the empty string
/// counts as zero.
pub open spec fn dec_val(s: Seq<u8>) -> int
    decreases s.len(),
{
    if s.len() == 0 {
        0
    } else {
        dec_val(s.drop_last()) * 10 + (s.last() - 48)
    }
}

/// The digits of a non-negative number are digits, at least one of them.
pub proof fn lemma_dec_digits_are_digits(n: int)
    requires
        n >= 0,
    ensures
        dec_digits(n).len() >= 1,
        forall|i: int| 0 <= i < dec_digits(n).len() ==> is_digit(#[trigger] dec_digits(n)[i]),
    decreases n,
{
    if n >= 10 {
        lemma_dec_digits_are_digits(n / 10);
    }
}

/// Reading a number's digits back gives the number.
pub proof fn lemma_dec_round_trip(n: int)
    requires
        n >= 0,
    ensures
        dec_val(dec_digits(n)) == n,
    decreases n,
{
    if n < 10 {
        assert(dec_digits(n).drop_last() =~= Seq::<u8>::empty());
        assert(dec_val(Seq::<u8>::empty()) == 0);
        assert(dec_digits(n).last() == (48 + n) as u8);
        assert(dec_val(dec_digits(n)) == 0 * 10 + ((48 + n) as u8 - 48));
    } else {
        lemma_dec_round_trip(n / 10);
        assert(dec_digits(n).drop_last() =~= dec_digits(n / 10));
        assert(dec_digits(n).last() == (48 + n % 10) as u8);
        assert(dec_val(dec_digits(n)) == (n / 10) * 10 + ((48 + n % 10) as u8 - 48));
        assert(n == (n / 10) * 10 + n % 10);
    }
}

/// A digit string's value is non-negative.
pub proof fn lemma_dec_val_nonneg(s: Seq<u8>)
    requires
        forall|i: int| 0 <= i < s.len() ==> is_digit(#[trigger] s[i]),
    ensures
        dec_val(s) >= 0,
    decreases s.len(),
{
    if s.len() > 0 {
        lemma_dec_val_nonneg(s.drop_last());
    }
}

/// Render `n` in decimal.
pub fn render_u64(n: u64) -> (r: Vec<u8>)
    ensures
        r@ == dec_digits(n as int),
    decreases n,
{
    if n < 10 {
        let mut v: Vec<u8> = Vec::new();
        v.push(48 + n as u8);
        proof {
            assert(v@ =~= dec_digits(n as int));
        }
        v
    } else {
        let mut v = render_u64(n / 10);
        v.push(48 + (n % 10) as u8);
        proof {
            assert(v@ =~= dec_digits(n as int));
        }
        v
    }
}

/// The bytes of `"KeepAlive"`.
pub open spec fn lit_keepalive() -> Seq<u8> {
    seq![34u8, 75u8, 101u8, 101u8, 112u8, 65u8, 108u8, 105u8, 118u8, 101u8, 34u8]
}

fn lit_keepalive_vec() -> (r: Vec<u8>)
    ensures
        r@ == lit_keepalive(),
{
    let mut v: Vec<u8> = Vec::new();
    v.push(34);
    v.push(75);
    v.push(101);
    v.push(101);
    v.push(112);
    v.push(65);
    v.push(108);
    v.push(105);
    v.push(118);
    v.push(101);
    v.push(34);
    proof {
        assert(v@ =~= lit_keepalive());
    }
    v
}

/// The bytes of `{"Signal":{"receiver":`.
pub open spec fn lit_signal_req() -> Seq<u8> {
    seq![123u8, 34u8, 83u8, 105u8, 103u8, 110u8, 97u8, 108u8, 34u8, 58u8, 123u8, 34u8, 114u8, 101u8, 99u8, 101u8, 105u8, 118u8, 101u8, 114u8, 34u8, 58u8]
}

fn lit_signal_req_vec() -> (r: Vec<u8>)
    ensures
        r@ == lit_signal_req(),
{
    let mut v: Vec<u8> = Vec::new();
    v.push(123);
    v.push(34);
    v.push(83);
    v.push(105);
    v.push(103);
    v.push(110);
    v.push(97);
    v.push(108);
    v.push(34);
    v.push(58);
    v.push(123);
    v.push(34);
    v.push(114);
    v.push(101);
    v.push(99);
    v.push(101);
    v.push(105);
    v.push(118);
    v.push(101);
    v.push(114);
    v.push(34);
    v.push(58);
    proof {
        assert(v@ =~= lit_signal_req());
    }
    v
}

/// The bytes of `{"Signal":{"sender":`.
pub open spec fn lit_signal_evt() -> Seq<u8> {
    seq![123u8, 34u8, 83u8, 105u8, 103u8, 110u8, 97u8, 108u8, 34u8, 58u8, 123u8, 34u8, 115u8, 101u8, 110u8, 100u8, 101u8, 114u8, 34u8, 58u8]
}

fn lit_signal_evt_vec() -> (r: Vec<u8>)
    ensures
        r@ == lit_signal_evt(),
{
    let mut v: Vec<u8> = Vec::new();
    v.push(123);
    v.push(34);
    v.push(83);
    v.push(105);
    v.push(103);
    v.push(110);
    v.push(97);
    v.push(108);
    v.push(34);
    v.push(58);
    v.push(123);
    v.push(34);
    v.push(115);
    v.push(101);
    v.push(110);
    v.push(100);
    v.push(101);
    v.push(114);
    v.push(34);
    v.push(58);
    proof {
        assert(v@ =~= lit_signal_evt());
    }
    v
}

/// The bytes of `{"IdAssigned":`.
pub open spec fn lit_id_assigned() -> Seq<u8> {
    seq![123u8, 34u8, 73u8, 100u8, 65u8, 115u8, 115u8, 105u8, 103u8, 110u8, 101u8, 100u8, 34u8, 58u8]
}

fn lit_id_assigned_vec() -> (r: Vec<u8>)
    ensures
        r@ == lit_id_assigned(),
{
    let mut v: Vec<u8> = Vec::new();
    v.push(123);
    v.push(34);
    v.push(73);
    v.push(100);
    v.push(65);
    v.push(115);
    v.push(115);
    v.push(105);
    v.push(103);
    v.push(110);
    v.push(101);
    v.push(100);
    v.push(34);
    v.push(58);
    proof {
        assert(v@ =~= lit_id_assigned());
    }
    v
}

/// The bytes of `{"NewPeer":`.
pub open spec fn lit_new_peer() -> Seq<u8> {
    seq![123u8, 34u8, 78u8, 101u8, 119u8, 80u8, 101u8, 101u8, 114u8, 34u8, 58u8]
}

fn lit_new_peer_vec() -> (r: Vec<u8>)
    ensures
        r@ == lit_new_peer(),
{
    let mut v: Vec<u8> = Vec::new();
    v.push(123);
    v.push(34);
    v.push(78);
    v.push(101);
    v.push(119);
    v.push(80);
    v.push(101);
    v.push(101);
    v.push(114);
    v.push(34);
    v.push(58);
    proof {
        assert(v@ =~= lit_new_peer());
    }
    v
}

/// The bytes of `{"PeerLeft":`.
pub open spec fn lit_peer_left() -> Seq<u8> {
    seq![123u8, 34u8, 80u8, 101u8, 101u8, 114u8, 76u8, 101u8, 102u8, 116u8, 34u8, 58u8]
}

fn lit_peer_left_vec() -> (r: Vec<u8>)
    ensures
        r@ == lit_peer_left(),
{
    let mut v: Vec<u8> = Vec::new();
    v.push(123);
    v.push(34);
    v.push(80);
    v.push(101);
    v.push(101);
    v.push(114);
    v.push(76);
    v.push(101);
    v.push(102);
    v.push(116);
    v.push(34);
    v.push(58);
    proof {
        assert(v@ =~= lit_peer_left());
    }
    v
}

/// The bytes of `,"data":`.
pub open spec fn lit_data_mid() -> Seq<u8> {
    seq![44u8, 34u8, 100u8, 97u8, 116u8, 97u8, 34u8, 58u8]
}

fn lit_data_mid_vec() -> (r: Vec<u8>)
    ensures
        r@ == lit_data_mid(),
{
    let mut v: Vec<u8> = Vec::new();
    v.push(44);
    v.push(34);
    v.push(100);
    v.push(97);
    v.push(116);
    v.push(97);
    v.push(34);
    v.push(58);
    proof {
        assert(v@ =~= lit_data_mid());
    }
    v
}

/// The bytes of `}`.
pub open spec fn lit_close_one() -> Seq<u8> {
    seq![125u8]
}

fn lit_close_one_vec() -> (r: Vec<u8>)
    ensures
        r@ == lit_close_one(),
{
    let mut v: Vec<u8> = Vec::new();
    v.push(125);
    proof {
        assert(v@ =~= lit_close_one());
    }
    v
}

/// The bytes of `}}`.
pub open spec fn lit_close_two() -> Seq<u8> {
    seq![125u8, 125u8]
}

fn lit_close_two_vec() -> (r: Vec<u8>)
    ensures
        r@ == lit_close_two(),
{
    let mut v: Vec<u8> = Vec::new();
    v.push(125);
    v.push(125);
    proof {
        assert(v@ =~= lit_close_two());
    }
    v
}

/// Whether the bytes of `b` are exactly those of `lit`.
fn bytes_eq(b: &Vec<u8>, lit: &Vec<u8>) -> (r: bool)
    ensures
        r == (b@ == lit@),
{
    if b.len() != lit.len() {
        return false;
    }
    let mut i: usize = 0;
    while i < b.len()
        invariant
            i <= b.len(),
            b.len() == lit.len(),
            forall|j: int| 0 <= j < i ==> b@[j] == lit@[j],
        decreases b.len() - i,
    {
        if b[i] != lit[i] {
            return false;
        }
        i = i + 1;
    }
    proof {
        assert(b@ =~= lit@);
    }
    true
}

/// Whether the bytes of `b` from `at` on open with those of `lit`.
fn bytes_eq_at(b: &Vec<u8>, at: usize, lit: &Vec<u8>) -> (r: bool)
    requires
        at + lit@.len() <= b@.len(),
    ensures
        r == (b@.subrange(at as int, at as int + lit@.len() as int) == lit@),
{
    let n = b.len();
    let mut i: usize = 0;
    while i < lit.len()
        invariant
            i <= lit.len(),
            at + lit@.len() <= b@.len(),
            n == b@.len(),
            forall|j: int| 0 <= j < i ==> b@[at + j] == lit@[j],
        decreases lit.len() - i,
    {
        if b[at + i] != lit[i] {
            proof {
                assert(b@.subrange(at as int, at as int + lit@.len() as int)[i as int]
                    != lit@[i as int]);
            }
            return false;
        }
        i = i + 1;
    }
    proof {
        assert(b@.subrange(at as int, at as int + lit@.len() as int) =~= lit@);
    }
    true
}

/// Copy the bytes of `b` in `[from, to)`.
fn copy_range(b: &Vec<u8>, from: usize, to: usize) -> (r: Vec<u8>)
    requires
        from <= to <= b@.len(),
    ensures
        r@ == b@.subrange(from as int, to as int),
{
    let mut r: Vec<u8> = Vec::new();
    let mut i: usize = from;
    while i < to
        invariant
            from <= i <= to <= b@.len(),
            r@ =~= b@.subrange(from as int, i as int),
        decreases to - i,
    {
        r.push(b[i]);
        proof {
            assert(r@ =~= b@.subrange(from as int, i + 1 as int));
        }
        i = i + 1;
    }
    r
}

/// The first index at or after `from` that does not hold a digit.
pub open spec fn digits_end(b: Seq<u8>, from: int) -> int
    recommends
        0 <= from,
    decreases b.len() - from,
{
    if from < b.len() && from >= 0 && is_digit(b[from]) {
        digits_end(b, from + 1)
    } else {
        from
    }
}

/// What characterises `digits_end`: digits up to it, none at it.
pub proof fn lemma_digits_end_char(b: Seq<u8>, from: int, e: int)
    requires
        0 <= from <= e <= b.len(),
        forall|j: int| from <= j < e ==> is_digit(#[trigger] b[j]),
        e == b.len() || !is_digit(b[e]),
    ensures
        digits_end(b, from) == e,
    decreases e - from,
{
    if from < e {
        lemma_digits_end_char(b, from + 1, e);
    }
}

/// The canonical wire text of a signaling envelope from a peer.
pub open spec fn request_bytes(m: crate::protocol::RequestModel) -> Seq<u8> {
    match m {
        crate::protocol::RequestModel::KeepAlive => lit_keepalive(),
        crate::protocol::RequestModel::Signal { receiver, data } => lit_signal_req()
            + dec_digits(receiver as int) + lit_data_mid() + data + lit_close_two(),
    }
}

/// Whether `b` has the shape of a peer-addressed signal envelope: the fixed
/// head, a receiver identity in decimal that fits 64 bits, the data marker,
/// at least one payload byte, and the closing braces.
pub open spec fn is_signal_req(b: Seq<u8>) -> bool {
    let h = lit_signal_req().len() as int;
    let e = digits_end(b, h);
    &&& b.len() >= h
    &&& b.subrange(0, h) == lit_signal_req()
    &&& e > h
    &&& dec_val(b.subrange(h, e)) <= u64::MAX
    &&& b.len() >= e + 11
    &&& b.subrange(e, e + 8) == lit_data_mid()
    &&& b.subrange(b.len() - 2, b.len() as int) == lit_close_two()
}

/// The receiver identity a signal envelope names.
pub open spec fn signal_req_receiver(b: Seq<u8>) -> int {
    let h = lit_signal_req().len() as int;
    dec_val(b.subrange(h, digits_end(b, h)))
}

/// The opaque payload a signal envelope carries, verbatim.
pub open spec fn signal_req_data(b: Seq<u8>) -> Seq<u8> {
    let h = lit_signal_req().len() as int;
    b.subrange(digits_end(b, h) + 8, b.len() - 2)
}

/// The envelope a text frame holds, if it holds one: the keepalive literal,
/// or a well-shaped peer-addressed signal. Anything else is malformed.
pub open spec fn parse_request_spec(b: Seq<u8>) -> Option<crate::protocol::RequestModel> {
    if b == lit_keepalive() {
        Some(crate::protocol::RequestModel::KeepAlive)
    } else if is_signal_req(b) {
        Some(
            crate::protocol::RequestModel::Signal {
                receiver: signal_req_receiver(b) as u64,
                data: signal_req_data(b),
            },
        )
    } else {
        None
    }
}

/// Read one signaling envelope. Succeeds on exactly the byte strings that
/// `parse_request_spec` accepts; everything else is a recoverable decode
/// error that must not end the connection.
pub fn parse_request(b: &Vec<u8>) -> (r: Result<crate::protocol::PeerRequest, DecodeError>)
    ensures
        match r {
            Ok(req) => parse_request_spec(b@) == Some(req@),
            Err(e) => parse_request_spec(b@) is None && e == DecodeError::Unrecognized,
        },
{
    let ka = lit_keepalive_vec();
    if bytes_eq(b, &ka) {
        return Ok(crate::protocol::PeerRequest::KeepAlive);
    }
    let head = lit_signal_req_vec();
    let h = head.len();
    let n = b.len();
    if n < h {
        return Err(DecodeError::Unrecognized);
    }
    if !bytes_eq_at(b, 0, &head) {
        return Err(DecodeError::Unrecognized);
    }
    let mut e: usize = h;
    let mut v: u64 = 0;
    let mut overflow = false;
    while e < n && b[e] >= 48 && b[e] <= 57
        invariant
            h <= e <= n,
            n == b@.len(),
            forall|j: int| h <= j < e ==> is_digit(#[trigger] b@[j]),
            !overflow ==> v as int == dec_val(b@.subrange(h as int, e as int)),
            overflow ==> dec_val(b@.subrange(h as int, e as int)) > u64::MAX,
        decreases n - e,
    {
        let d = b[e];
        let ghost pre = b@.subrange(h as int, e as int);
        proof {
            assert(b@.subrange(h as int, e + 1 as int).drop_last() =~= pre);
            assert(b@.subrange(h as int, e + 1 as int).last() == b@[e as int]);
            assert(dec_val(b@.subrange(h as int, e + 1 as int)) == dec_val(pre) * 10 + (b@[e
                as int] - 48));
        }
        if !overflow {
            let dv = (d - 48) as u64;
            if v > (u64::MAX - dv) / 10 {
                proof {
                    let m = u64::MAX as int;
                    assert(m - dv == 10 * ((m - dv) / 10) + (m - dv) % 10);
                    assert(v as int * 10 >= ((m - dv) / 10 + 1) * 10) by (nonlinear_arith)
                        requires
                            v as int >= (m - dv as int) / 10 + 1,
                    ;
                    assert(dec_val(b@.subrange(h as int, e + 1 as int)) > m);
                }
                overflow = true;
            } else {
                proof {
                    let m = u64::MAX as int;
                    assert(m - dv == 10 * ((m - dv) / 10) + (m - dv) % 10);
                    assert(v as int * 10 <= ((m - dv) / 10) * 10) by (nonlinear_arith)
                        requires
                            v as int <= (m - dv as int) / 10,
                    ;
                }
                v = v * 10 + dv;
            }
        } else {
            proof {
                lemma_dec_val_nonneg(pre);
                assert(dec_val(pre) * 10 >= dec_val(pre)) by (nonlinear_arith)
                    requires
                        dec_val(pre) >= 0,
                ;
                assert(dec_val(pre) * 10 >= dec_val(pre) + 9 * dec_val(pre)) by (nonlinear_arith);
                assert(dec_val(b@.subrange(h as int, e + 1 as int)) > u64::MAX);
            }
        }
        e = e + 1;
    }
    proof {
        lemma_digits_end_char(b@, h as int, e as int);
    }
    if e == h {
        return Err(DecodeError::Unrecognized);
    }
    if overflow {
        return Err(DecodeError::Unrecognized);
    }
    if n - e < 11 {
        return Err(DecodeError::Unrecognized);
    }
    let mid = lit_data_mid_vec();
    if !bytes_eq_at(b, e, &mid) {
        return Err(DecodeError::Unrecognized);
    }
    let close = lit_close_two_vec();
    if !bytes_eq_at(b, n - 2, &close) {
        return Err(DecodeError::Unrecognized);
    }
    let data = copy_range(b, e + 8, n - 2);
    let req = crate::protocol::PeerRequest::Signal { receiver: v, data };
    proof {
        assert(is_signal_req(b@));
        assert(b@ != lit_keepalive());
    }
    Ok(req)
}

/// Write one signaling envelope in the canonical form the parser reads.
pub fn encode_request(req: &crate::protocol::PeerRequest) -> (r: Vec<u8>)
    ensures
        r@ == request_bytes(req@),
{
    match req {
        crate::protocol::PeerRequest::KeepAlive => lit_keepalive_vec(),
        crate::protocol::PeerRequest::Signal { receiver, data } => {
            let mut out = lit_signal_req_vec();
            let mut ds = render_u64(*receiver);
            out.append(&mut ds);
            let mut mid = lit_data_mid_vec();
            out.append(&mut mid);
            let mut payload = crate::protocol::clone_bytes(data);
            out.append(&mut payload);
            let mut close = lit_close_two_vec();
            out.append(&mut close);
            proof {
                assert(out@ =~= request_bytes(req@));
            }
            out
        },
    }
}

/// An envelope written canonically and read back is itself. The one shape
/// this does not cover is a signal with an empty payload, which the wire
/// grammar does not admit: a payload is JSON text, never empty.
pub proof fn lemma_request_round_trip(m: crate::protocol::RequestModel)
    requires
        m matches crate::protocol::RequestModel::Signal { receiver, data } ==> data.len() >= 1,
    ensures
        parse_request_spec(request_bytes(m)) == Some(m),
{
    match m {
        crate::protocol::RequestModel::KeepAlive => {
        },
        crate::protocol::RequestModel::Signal { receiver, data } => {
            let b = request_bytes(m);
            let head = lit_signal_req();
            let h = head.len() as int;
            let dd = dec_digits(receiver as int);
            let k = dd.len() as int;
            lemma_dec_digits_are_digits(receiver as int);
            lemma_dec_round_trip(receiver as int);
            assert(b.len() == h + k + 8 + data.len() + 2);
            assert(b != lit_keepalive()) by {
                assert(b[0] == 123);
                assert(lit_keepalive()[0] == 34);
            }
            assert(b.subrange(0, h) =~= head);
            assert(b.subrange(h, h + k) =~= dd);
            assert forall|j: int| h <= j < h + k implies is_digit(#[trigger] b[j]) by {
                assert(b[j] == dd[j - h]);
            }
            assert(b[h + k] == lit_data_mid()[0]);
            assert(!is_digit(b[h + k]));
            lemma_digits_end_char(b, h, h + k);
            assert(b.subrange(h + k, h + k + 8) =~= lit_data_mid());
            assert(b.subrange(b.len() - 2, b.len() as int) =~= lit_close_two());
            assert(dec_val(b.subrange(h, h + k)) == receiver as int);
            assert(is_signal_req(b));
            assert(signal_req_receiver(b) == receiver as int);
            assert(signal_req_data(b) =~= data);
        },
    }
}

/// The wire form of a server-to-peer event. Announcements and signals are
/// JSON text; a relayed application message is its bytes, verbatim.
pub open spec fn event_bytes(e: crate::protocol::EventModel) -> Seq<u8> {
    match e {
        crate::protocol::EventModel::IdAssigned { id } => lit_id_assigned() + dec_digits(
            id as int,
        ) + lit_close_one(),
        crate::protocol::EventModel::NewPeer { id } => lit_new_peer() + dec_digits(id as int)
            + lit_close_one(),
        crate::protocol::EventModel::PeerLeft { id } => lit_peer_left() + dec_digits(id as int)
            + lit_close_one(),
        crate::protocol::EventModel::Signal { sender, data } => lit_signal_evt() + dec_digits(
            sender as int,
        ) + lit_data_mid() + data + lit_close_two(),
        crate::protocol::EventModel::Application { data } => data,
    }
}

/// One frame bound for a peer's transport: signaling as text, relayed
/// application payloads as binary.
#[derive(PartialEq, Eq, Debug)]
pub enum WireFrame {
    Text(Vec<u8>),
    Binary(Vec<u8>),
}

/// Write one server-to-peer event for the wire: its bytes, in the frame
/// kind the transport distinguishes.
pub fn encode_event(e: &crate::protocol::PeerEvent) -> (r: WireFrame)
    ensures
        match r {
            WireFrame::Text(b) => b@ == event_bytes(e@) && !(e@ is Application),
            WireFrame::Binary(b) => b@ == event_bytes(e@) && e@ is Application,
        },
{
    match e {
        crate::protocol::PeerEvent::IdAssigned(id) => {
            let mut out = lit_id_assigned_vec();
            let mut ds = render_u64(*id);
            out.append(&mut ds);
            let mut close = lit_close_one_vec();
            out.append(&mut close);
            proof {
                assert(out@ =~= event_bytes(e@));
            }
            WireFrame::Text(out)
        },
        crate::protocol::PeerEvent::NewPeer(id) => {
            let mut out = lit_new_peer_vec();
            let mut ds = render_u64(*id);
            out.append(&mut ds);
            let mut close = lit_close_one_vec();
            out.append(&mut close);
            proof {
                assert(out@ =~= event_bytes(e@));
            }
            WireFrame::Text(out)
        },
        crate::protocol::PeerEvent::PeerLeft(id) => {
            let mut out = lit_peer_left_vec();
            let mut ds = render_u64(*id);
            out.append(&mut ds);
            let mut close = lit_close_one_vec();
            out.append(&mut close);
            proof {
                assert(out@ =~= event_bytes(e@));
            }
            WireFrame::Text(out)
        },
        crate::protocol::PeerEvent::Signal { sender, data } => {
            let mut out = lit_signal_evt_vec();
            let mut ds = render_u64(*sender);
            out.append(&mut ds);
            let mut mid = lit_data_mid_vec();
            out.append(&mut mid);
            let mut payload = crate::protocol::clone_bytes(data);
            out.append(&mut payload);
            let mut close = lit_close_two_vec();
            out.append(&mut close);
            proof {
                assert(out@ =~= event_bytes(e@));
            }
            WireFrame::Text(out)
        },
        crate::protocol::PeerEvent::Application { data } => {
            WireFrame::Binary(crate::protocol::clone_bytes(data))
        },
    }
}

} // verus!
