use nanorand::Rng;
use vstd::prelude::*;
use vstd::utf8::encode_utf8;

use crate::proto::{
    close_code_of, close_code_value, opcode_byte, opcode_of, CloseCode, CloseReason, OpCode,
    ProtocolError,
};

verus! {

/// WebSocket frame parser and serializer.
#[derive(Debug)]
pub struct Parser;

/// The unsigned number that a sequence of bytes spells, most significant first.
pub open spec fn be_num(s: Seq<u8>) -> nat
    decreases s.len(),
{
    if s.len() == 0 {
        0
    } else {
        be_num(s.drop_last()) * 256 + s.last() as nat
    }
}

/// The `k` low bytes of `n`, most significant first.
pub open spec fn be_bytes(n: nat, k: nat) -> Seq<u8>
    decreases k,
{
    if k == 0 {
        Seq::empty()
    } else {
        be_bytes(n / 256, (k - 1) as nat).push((n % 256) as u8)
    }
}

pub open spec fn pow256(k: nat) -> nat
    decreases k,
{
    if k == 0 {
        1
    } else {
        256 * pow256((k - 1) as nat)
    }
}

/// Bytes of `data` xored, position by position, with the four-byte key repeated.
pub open spec fn masked(data: Seq<u8>, key: Seq<u8>) -> Seq<u8> {
    Seq::new(data.len(), |i: int| data[i] ^ key[i % 4])
}

pub open spec fn unmasked(data: Seq<u8>, key: Option<Seq<u8>>) -> Seq<u8> {
    match key {
        Some(k) => masked(data, k),
        None => data,
    }
}

/// Number of extended-length bytes that the seven-bit length code announces.
pub open spec fn ext_len(code: u8) -> nat {
    if code == 126 {
        2
    } else if code == 127 {
        8
    } else {
        0
    }
}

/// Payload length announced by a header whose length bytes are all present.
pub open spec fn payload_len_of(s: Seq<u8>) -> nat {
    let code = (s[1] % 128) as u8;
    if code == 126 {
        be_num(s.subrange(2, 4))
    } else if code == 127 {
        be_num(s.subrange(2, 10))
    } else {
        code as nat
    }
}

/// What the header at the start of `s` says: `Ok(None)` while bytes are missing, else
/// `(header length, fin, opcode, payload length, mask key)`.
pub open spec fn header_spec(s: Seq<u8>, server: bool, max_size: nat) -> Result<
    Option<(nat, bool, OpCode, nat, Option<Seq<u8>>)>,
    ProtocolError,
> {
    if s.len() < 2 {
        Ok(None)
    } else {
        let is_masked = s[1] >= 128;
        let raw = (s[0] % 16) as u8;
        let idx = 2 + ext_len((s[1] % 128) as u8);
        if !is_masked && server {
            Err(ProtocolError::UnmaskedFrame)
        } else if is_masked && !server {
            Err(ProtocolError::MaskedFrame)
        } else if opcode_of(raw) == OpCode::Bad {
            Err(ProtocolError::InvalidOpcode(raw))
        } else if s.len() < idx {
            Ok(None)
        } else if payload_len_of(s) > max_size {
            Err(ProtocolError::Overflow)
        } else if server && s.len() < idx + 4 {
            Ok(None)
        } else {
            Ok(
                Some(
                    (
                        if server {
                            idx + 4
                        } else {
                            idx
                        },
                        s[0] >= 128,
                        opcode_of(raw),
                        payload_len_of(s),
                        if server {
                            Some(s.subrange(idx as int, idx + 4 as int))
                        } else {
                            None
                        },
                    ),
                ),
            )
        }
    }
}

/// A parsed frame as values: `(fin, opcode, payload)`.
pub type FrameSpec = Result<Option<(bool, OpCode, Option<Seq<u8>>)>, ProtocolError>;

/// The outcome of parsing the buffer `s`, and what stays in the buffer afterwards.
pub open spec fn parse_spec(s: Seq<u8>, server: bool, max_size: nat) -> (FrameSpec, Seq<u8>) {
    match header_spec(s, server, max_size) {
        Err(e) => (Err(e), s),
        Ok(None) => (Ok(None), s),
        Ok(Some((idx, fin, op, len, key))) => {
            if s.len() < idx + len {
                (Ok(None), s)
            } else {
                let rest = s.skip(idx as int);
                if len == 0 {
                    (Ok(Some((fin, op, None))), rest)
                } else if (op == OpCode::Ping || op == OpCode::Pong) && len > 125 {
                    (Err(ProtocolError::InvalidLength(len as usize)), rest)
                } else if op == OpCode::Close && len > 125 {
                    (Ok(Some((true, OpCode::Close, None))), rest)
                } else {
                    (
                        Ok(Some((fin, op, Some(unmasked(rest.take(len as int), key))))),
                        rest.skip(len as int),
                    )
                }
            }
        },
    }
}

pub open spec fn frame_view(r: Result<Option<(bool, OpCode, Option<Vec<u8>>)>, ProtocolError>) -> FrameSpec {
    match r {
        Err(e) => Err(e),
        Ok(None) => Ok(None),
        Ok(Some((fin, op, None))) => Ok(Some((fin, op, None))),
        Ok(Some((fin, op, Some(p)))) => Ok(Some((fin, op, Some(p@)))),
    }
}

proof fn lemma_be_num_step(s: Seq<u8>, a: int, i: int)
    requires
        0 <= a <= i < s.len(),
    ensures
        be_num(s.subrange(a, i + 1)) == be_num(s.subrange(a, i)) * 256 + s[i] as nat,
        be_num(s.subrange(a, i)) < pow256((i - a) as nat) ==> be_num(s.subrange(a, i + 1)) < pow256(
            (i + 1 - a) as nat,
        ),
{
    assert(s.subrange(a, i + 1).drop_last() =~= s.subrange(a, i));
    let n = be_num(s.subrange(a, i));
    assert(pow256((i + 1 - a) as nat) == 256 * pow256((i - a) as nat));
    if n < pow256((i - a) as nat) {
        assert(n * 256 + (s[i] as nat) < pow256((i + 1 - a) as nat)) by (nonlinear_arith)
            requires
                n < pow256((i - a) as nat),
                s[i] < 256,
                pow256((i + 1 - a) as nat) == 256 * pow256((i - a) as nat),
        ;
    }
}

/// Reads `k` bytes of `s` from `at` as a big-endian number.
fn read_be(s: &[u8], at: usize, k: usize) -> (r: u64)
    requires
        at + k <= s@.len(),
        k <= 8,
    ensures
        r as nat == be_num(s@.subrange(at as int, at + k)),
{
    let total = s.len();
    let end: usize = at + k;
    let mut acc: u64 = 0;
    let mut i: usize = at;
    proof {
        assert(s@.subrange(at as int, at as int) =~= Seq::<u8>::empty());
    }
    while i < end
        invariant
            end == at + k,
            at <= i <= at + k,
            at + k <= s@.len(),
            k <= 8,
            acc as nat == be_num(s@.subrange(at as int, i as int)),
            acc < pow256((i - at) as nat),
        decreases end - i,
    {
        proof {
            lemma_be_num_step(s@, at as int, i as int);
            lemma_pow256_le8((i + 1 - at) as nat);
        }
        acc = acc * 256 + s[i] as u64;
        i = i + 1;
    }
    acc
}

proof fn lemma_pow256_le8(k: nat)
    requires
        k <= 8,
    ensures
        pow256(k) <= 0x1_0000_0000_0000_0000,
{
    reveal_with_fuel(pow256, 9);
}

impl Parser {
    fn parse_metadata(src: &[u8], server: bool, max_size: usize) -> (r: Result<
        Option<(usize, bool, OpCode, usize, Option<[u8; 4]>)>,
        ProtocolError,
    >)
        ensures
            match header_spec(src@, server, max_size as nat) {
                Err(e) => r == Err::<Option<(usize, bool, OpCode, usize, Option<[u8; 4]>)>, ProtocolError>(e),
                Ok(None) => r.is_ok() && r.unwrap().is_none(),
                Ok(Some((idx, fin, op, len, key))) => r.is_ok() && r.unwrap().is_some() && ({
                    let (ri, rf, ro, rl, rk) = r.unwrap().unwrap();
                    &&& ri == idx
                    &&& rf == fin
                    &&& ro == op
                    &&& rl == len
                    &&& rk.is_some() == key.is_some()
                    &&& rk.is_some() ==> rk.unwrap()@ == key.unwrap()
                }),
            },
    {
        let chunk_len = src.len();
        if chunk_len < 2 {
            return Ok(None);
        }
        let first = src[0];
        let second = src[1];
        let finished = first >= 128;
        let is_masked = second >= 128;
        if !is_masked && server {
            return Err(ProtocolError::UnmaskedFrame);
        } else if is_masked && !server {
            return Err(ProtocolError::MaskedFrame);
        }
        let raw = first % 16;
        let opcode = OpCode::from_u8(raw);
        if let OpCode::Bad = opcode {
            return Err(ProtocolError::InvalidOpcode(raw));
        }
        let code = second % 128;
        let mut idx: usize = 2;
        let length: usize;
        if code == 126 {
            if chunk_len < 4 {
                return Ok(None);
            }
            let n = read_be(src, 2, 2);
            if n > max_size as u64 {
                return Err(ProtocolError::Overflow);
            }
            length = n as usize;
            idx = 4;
        } else if code == 127 {
            if chunk_len < 10 {
                return Ok(None);
            }
            let n = read_be(src, 2, 8);
            if n > max_size as u64 {
                return Err(ProtocolError::Overflow);
            }
            length = n as usize;
            idx = 10;
        } else {
            length = code as usize;
            if length > max_size {
                return Err(ProtocolError::Overflow);
            }
        }
        let mask = if server {
            if chunk_len < idx + 4 {
                return Ok(None);
            }
            let key: [u8; 4] = [src[idx], src[idx + 1], src[idx + 2], src[idx + 3]];
            proof {
                assert(key@ =~= src@.subrange(idx as int, idx + 4));
            }
            idx = idx + 4;
            Some(key)
        } else {
            None
        };
        Ok(Some((idx, finished, opcode, length, mask)))
    }

    /// Parses one frame from the start of `src`. On a whole frame the header is taken out
    /// of `src` and the payload, unmasked, is split off it; while bytes are missing `src`
    /// stays as it was.
    pub fn parse(src: &mut Vec<u8>, server: bool, max_size: usize) -> (r: Result<
        Option<(bool, OpCode, Option<Vec<u8>>)>,
        ProtocolError,
    >)
        ensures
            frame_view(r) == parse_spec(old(src)@, server, max_size as nat).0,
            final(src)@ == parse_spec(old(src)@, server, max_size as nat).1,
    {
        let ghost s0 = src@;
        let (idx, finished, opcode, length, mask) = match Parser::parse_metadata(
            src.as_slice(),
            server,
            max_size,
        ) {
            Err(e) => return Err(e),
            Ok(None) => return Ok(None),
            Ok(Some(res)) => res,
        };
        if src.len() < idx || src.len() - idx < length {
            return Ok(None);
        }
        let mut body = src.split_off(idx);
        std::mem::swap(src, &mut body);
        proof {
            assert(src@ =~= s0.skip(idx as int));
        }
        if length == 0 {
            return Ok(Some((finished, opcode, None)));
        }
        match opcode {
            OpCode::Ping | OpCode::Pong => {
                if length > 125 {
                    return Err(ProtocolError::InvalidLength(length));
                }
            },
            OpCode::Close => {
                if length > 125 {
                    return Ok(Some((true, OpCode::Close, None)));
                }
            },
            _ => {},
        }
        if let Some(key) = mask {
            apply_mask(src, length, &key);
        }
        let mut rest = src.split_off(length);
        std::mem::swap(src, &mut rest);
        proof {
            assert(rest@ =~= unmasked(s0.skip(idx as int).take(length as int), parse_header_key(mask)));
            assert(src@ =~= s0.skip(idx as int).skip(length as int));
        }
        Ok(Some((finished, opcode, Some(rest))))
    }
}

pub open spec fn parse_header_key(k: Option<[u8; 4]>) -> Option<Seq<u8>> {
    match k {
        Some(a) => Some(a@),
        None => None,
    }
}

/// Xors the first `len` bytes of `buf` with the key, repeated.
pub fn apply_mask(buf: &mut Vec<u8>, len: usize, key: &[u8; 4])
    requires
        len <= old(buf)@.len(),
    ensures
        final(buf)@ == masked(old(buf)@.take(len as int), key@) + old(buf)@.skip(len as int),
{
    let ghost b0 = buf@;
    let mut i: usize = 0;
    while i < len
        invariant
            0 <= i <= len,
            len <= b0.len(),
            buf@.len() == b0.len(),
            forall|j: int| 0 <= j < i ==> buf@[j] == b0[j] ^ key@[j % 4],
            forall|j: int| i <= j < b0.len() ==> buf@[j] == b0[j],
        decreases len - i,
    {
        let b = buf[i] ^ key[i % 4];
        buf.set(i, b);
        i = i + 1;
    }
    assert(buf@ =~= masked(b0.take(len as int), key@) + b0.skip(len as int));
}


/// The seven-bit length code of the second header byte.
pub open spec fn length_code(n: nat) -> u8 {
    if n < 126 {
        n as u8
    } else if n <= 65535 {
        126
    } else {
        127
    }
}

/// The extended length bytes that follow the second header byte.
pub open spec fn length_ext(n: nat) -> Seq<u8> {
    if n < 126 {
        Seq::empty()
    } else if n <= 65535 {
        be_bytes(n, 2)
    } else {
        be_bytes(n, 8)
    }
}

/// A 32-bit mask as the four key bytes it is sent as, least significant first.
pub open spec fn mask_key(m: u32) -> Seq<u8> {
    seq![
        (m % 256) as u8,
        ((m / 256) % 256) as u8,
        ((m / 65536) % 256) as u8,
        ((m / 16777216) % 256) as u8,
    ]
}

/// First header byte: the fin bit and the opcode.
pub open spec fn first_byte(op: OpCode, fin: bool) -> u8 {
    ((if fin {
        128int
    } else {
        0int
    }) + opcode_byte(op) as int) as u8
}

/// Second header byte: the mask bit and the length code.
pub open spec fn second_byte(is_masked: bool, n: nat) -> u8 {
    ((if is_masked {
        128int
    } else {
        0int
    }) + length_code(n) as int) as u8
}

/// The bytes of one frame: header, mask key if any, and the payload, masked if a key is given.
pub open spec fn frame_bytes(p: Seq<u8>, op: OpCode, fin: bool, mask: Option<u32>) -> Seq<u8> {
    seq![first_byte(op, fin), second_byte(mask.is_some(), p.len())] + length_ext(p.len()) + match mask {
        Some(m) => mask_key(m) + masked(p, mask_key(m)),
        None => p,
    }
}

/// The payload of a close frame for a reason: the code, big-endian, then the description.
pub open spec fn close_payload(reason: Option<CloseReason>) -> Seq<u8> {
    match reason {
        None => Seq::empty(),
        Some(r) => be_bytes(close_code_value(r.code) as nat, 2) + match r.description {
            Some(d) => encode_utf8(d@),
            None => Seq::empty(),
        },
    }
}

/// What `String::from_utf8_lossy` makes of some bytes.
pub uninterp spec fn utf8_lossy(b: Seq<u8>) -> Seq<char>;

/// Relies on `String::from_utf8_lossy`: the text decoded from the bytes, which for valid
/// UTF-8 is exactly the text the bytes encode.
#[verifier::external_body]
fn lossy_text(b: &[u8]) -> (r: String)
    ensures
        r@ == utf8_lossy(b@),
        (exists|cs: Seq<char>| encode_utf8(cs) == b@) ==> encode_utf8(r@) == b@,
{
    String::from_utf8_lossy(b).into_owned()
}

/// Relies on nanorand's `WyRand`, seeded from system entropy: any value may come back.
#[verifier::external_body]
fn random_mask() -> (r: u32) {
    nanorand::WyRand::new().generate::<u32>()
}

/// Appends the `k` low bytes of `n`, most significant first.
fn push_be(dst: &mut Vec<u8>, n: u64, k: usize)
    requires
        k <= 8,
    ensures
        final(dst)@ == old(dst)@ + be_bytes(n as nat, k as nat),
    decreases k,
{
    if k == 0 {
        assert(old(dst)@ + be_bytes(n as nat, 0) =~= old(dst)@);
        return;
    }
    push_be(dst, n / 256, k - 1);
    dst.push((n % 256) as u8);
    assert(dst@ =~= old(dst)@ + be_bytes(n as nat, k as nat));
}

/// Appends the payload, xored with the key if one is given.
fn extend_masked(dst: &mut Vec<u8>, payload: &[u8], key: Option<[u8; 4]>)
    ensures
        final(dst)@ == old(dst)@ + unmasked(payload@, parse_header_key(key)),
{
    let ghost d0 = dst@;
    let mut i: usize = 0;
    while i < payload.len()
        invariant
            0 <= i <= payload@.len(),
            dst@ == d0 + unmasked(payload@, parse_header_key(key)).take(i as int),
        decreases payload@.len() - i,
    {
        let b = match key {
            Some(k) => payload[i] ^ k[i % 4],
            None => payload[i],
        };
        dst.push(b);
        i = i + 1;
        assert(unmasked(payload@, parse_header_key(key)).take(i as int) =~= unmasked(
            payload@,
            parse_header_key(key),
        ).take(i - 1).push(b));
    }
    assert(unmasked(payload@, parse_header_key(key)).take(i as int) =~= unmasked(
        payload@,
        parse_header_key(key),
    ));
}

impl Parser {
    /// Writes one frame with the given mask, or none, to the end of `dst`.
    pub fn write_frame(dst: &mut Vec<u8>, payload: &[u8], op: OpCode, fin: bool, mask: Option<u32>)
        ensures
            final(dst)@ == old(dst)@ + frame_bytes(payload@, op, fin, mask),
    {
        let ghost d0 = dst@;
        let payload_len = payload.len();
        let one: u8 = if fin {
            128 + op.to_u8()
        } else {
            op.to_u8()
        };
        let two: u8 = if mask.is_some() {
            128
        } else {
            0
        };
        let extra: usize = if mask.is_some() {
            4
        } else {
            0
        };
        if payload_len < 126 {
            dst.reserve(payload_len.saturating_add(2 + extra));
            dst.push(one);
            dst.push(two + payload_len as u8);
        } else if payload_len <= 65535 {
            dst.reserve(payload_len.saturating_add(4 + extra));
            dst.push(one);
            dst.push(two + 126);
            push_be(dst, payload_len as u64, 2);
        } else {
            dst.reserve(payload_len.saturating_add(10 + extra));
            dst.push(one);
            dst.push(two + 127);
            push_be(dst, payload_len as u64, 8);
        }
        let ghost d1 = dst@;
        assert(d1 =~= d0 + seq![first_byte(op, fin), second_byte(mask.is_some(), payload@.len())]
            + length_ext(payload@.len()));
        match mask {
            Some(m) => {
                let key: [u8; 4] = [
                    (m % 256) as u8,
                    ((m / 256) % 256) as u8,
                    ((m / 65536) % 256) as u8,
                    ((m / 16777216) % 256) as u8,
                ];
                assert(key@ =~= mask_key(m));
                dst.push(key[0]);
                dst.push(key[1]);
                dst.push(key[2]);
                dst.push(key[3]);
                extend_masked(dst, payload, Some(key));
            },
            None => {
                extend_masked(dst, payload, None);
            },
        }
        assert(dst@ =~= d0 + frame_bytes(payload@, op, fin, mask));
    }

    /// Writes one frame to the end of `dst`; with `mask`, under a fresh random key.
    pub fn write_message(dst: &mut Vec<u8>, pl: Vec<u8>, op: OpCode, fin: bool, mask: bool)
        ensures
            !mask ==> final(dst)@ == old(dst)@ + frame_bytes(pl@, op, fin, None),
            mask ==> exists|m: u32| final(dst)@ == old(dst)@ + frame_bytes(pl@, op, fin, Some(m)),
    {
        if mask {
            let m = random_mask();
            Parser::write_frame(dst, pl.as_slice(), op, fin, Some(m));
        } else {
            Parser::write_frame(dst, pl.as_slice(), op, fin, None);
        }
    }

    /// Writes a close frame: with a reason, its code big-endian and then its description.
    pub fn write_close(dst: &mut Vec<u8>, reason: Option<CloseReason>, mask: bool)
        ensures
            !mask ==> final(dst)@ == old(dst)@ + frame_bytes(
                close_payload(reason),
                OpCode::Close,
                true,
                None,
            ),
            mask ==> exists|m: u32|
                final(dst)@ == old(dst)@ + frame_bytes(
                    close_payload(reason),
                    OpCode::Close,
                    true,
                    Some(m),
                ),
    {
        let payload = match reason {
            None => Vec::new(),
            Some(r) => {
                let mut payload: Vec<u8> = Vec::new();
                push_be(&mut payload, r.code.to_u16() as u64, 2);
                if let Some(description) = r.description {
                    let bytes = description.as_str().as_bytes();
                    let ghost p0 = payload@;
                    let mut i: usize = 0;
                    while i < bytes.len()
                        invariant
                            0 <= i <= bytes@.len(),
                            payload@ == p0 + bytes@.take(i as int),
                        decreases bytes@.len() - i,
                    {
                        payload.push(bytes[i]);
                        i = i + 1;
                        assert(bytes@.take(i as int) =~= bytes@.take(i - 1).push(bytes@[i - 1]));
                    }
                    assert(bytes@.take(i as int) =~= bytes@);
                }
                proof {
                    assert(payload@ =~= close_payload(reason));
                }
                payload
            },
        };
        proof {
            assert(payload@ =~= close_payload(reason));
        }
        Parser::write_message(dst, payload, OpCode::Close, true, mask)
    }

    /// Reads a close frame's payload: a big-endian code, then an optional description.
    pub fn parse_close_payload(payload: &[u8]) -> (r: Option<CloseReason>)
        ensures
            payload@.len() < 2 <==> r.is_none(),
            r.is_some() ==> r.unwrap().code == close_code_of(
                (payload@[0] as nat * 256 + payload@[1] as nat) as u16,
            ),
            r.is_some() ==> (r.unwrap().description.is_none() <==> payload@.len() == 2),
            r.is_some() && payload@.len() > 2 ==> r.unwrap().description.unwrap()@ == utf8_lossy(
                payload@.skip(2),
            ),
            payload@.len() > 2 && (exists|cs: Seq<char>| encode_utf8(cs) == payload@.skip(2))
                ==> encode_utf8(r.unwrap().description.unwrap()@) == payload@.skip(2),
    {
        if payload.len() >= 2 {
            let raw_code: u16 = (payload[0] as u16) * 256 + payload[1] as u16;
            let code = CloseCode::from_u16(raw_code);
            let description = if payload.len() > 2 {
                let (_, tail) = payload.split_at(2);
                assert(tail@ =~= payload@.skip(2));
                Some(lossy_text(tail))
            } else {
                None
            };
            Some(CloseReason { code, description })
        } else {
            None
        }
    }
}


proof fn lemma_be_bytes(n: nat, k: nat)
    requires
        n < pow256(k),
    ensures
        be_bytes(n, k).len() == k,
        be_num(be_bytes(n, k)) == n,
    decreases k,
{
    if k > 0 {
        let q = n / 256;
        assert(q < pow256((k - 1) as nat)) by (nonlinear_arith)
            requires
                n < 256 * pow256((k - 1) as nat),
                q == n / 256,
        ;
        lemma_be_bytes(q, (k - 1) as nat);
        assert(be_bytes(n, k).drop_last() =~= be_bytes(q, (k - 1) as nat));
        assert(q * 256 + n % 256 == n) by (nonlinear_arith)
            requires
                q == n / 256,
        ;
    }
}

proof fn lemma_xor_twice(a: u8, b: u8)
    ensures
        (a ^ b) ^ b == a,
{
    assert((a ^ b) ^ b == a) by (bit_vector);
}

proof fn lemma_unmask_masked(p: Seq<u8>, key: Seq<u8>)
    requires
        key.len() == 4,
    ensures
        masked(masked(p, key), key) == p,
{
    assert forall|i: int| 0 <= i < p.len() implies #[trigger] masked(masked(p, key), key)[i]
        == p[i] by {
        lemma_xor_twice(p[i], key[i % 4]);
    }
    assert(masked(masked(p, key), key) =~= p);
}

/// A frame written by `write_frame` parses back, on the side that expects its masking, to
/// the fin bit, opcode and payload it was written with, and leaves whatever followed it.
/// This holds for every opcode but `Bad`, for payloads within the size limit, and for
/// control frames within the control-frame limit.
#[verifier::spinoff_prover]
#[verifier::rlimit(60)]
pub proof fn lemma_round_trip(
    p: Seq<u8>,
    op: OpCode,
    fin: bool,
    mask: Option<u32>,
    max_size: nat,
    rest: Seq<u8>,
)
    requires
        p.len() <= usize::MAX,
        p.len() <= max_size,
        op != OpCode::Bad,
        op == OpCode::Ping || op == OpCode::Pong || op == OpCode::Close ==> p.len() <= 125,
    ensures
        parse_spec(frame_bytes(p, op, fin, mask) + rest, mask.is_some(), max_size) == (
            Ok::<Option<(bool, OpCode, Option<Seq<u8>>)>, ProtocolError>(
                Some(
                    (
                        fin,
                        op,
                        if p.len() == 0 {
                            None
                        } else {
                            Some(p)
                        },
                    ),
                ),
            ),
            rest,
        ),
{
    let n = p.len();
    let b = frame_bytes(p, op, fin, mask) + rest;
    let server = mask.is_some();
    let ext = length_ext(n);
    reveal_with_fuel(pow256, 9);
    if n < 126 {
        assert(ext.len() == 0);
    } else if n <= 65535 {
        lemma_be_bytes(n, 2);
    } else {
        lemma_be_bytes(n, 8);
    }
    let code = length_code(n);
    assert(b[0] == first_byte(op, fin));
    assert(b[1] == second_byte(server, n));
    assert((b[1] % 128) as u8 == code);
    assert((b[0] % 16) as u8 == opcode_byte(op));
    assert(opcode_of(opcode_byte(op)) == op);
    let idx = 2 + ext_len(code);
    assert(ext.len() == ext_len(code));
    assert(b.subrange(2, idx as int) =~= ext);
    if n >= 126 && n <= 65535 {
        assert(b.subrange(2, 4) =~= ext);
    } else if n > 65535 {
        assert(b.subrange(2, 10) =~= ext);
    }
    assert(payload_len_of(b) == n);
    let hdr = if server {
        idx + 4
    } else {
        idx
    };
    let tail = b.skip(hdr as int);
    match mask {
        Some(m) => {
            let k = mask_key(m);
            assert(b.subrange(idx as int, idx + 4 as int) =~= k);
            assert(tail =~= masked(p, k) + rest);
            assert(tail.take(n as int) =~= masked(p, k));
            lemma_unmask_masked(p, k);
            assert(tail.skip(n as int) =~= rest);
        },
        None => {
            assert(tail =~= p + rest);
            assert(tail.take(n as int) =~= p);
            assert(tail.skip(n as int) =~= rest);
        },
    }
    assert(header_spec(b, server, max_size) == Ok::<
        Option<(nat, bool, OpCode, nat, Option<Seq<u8>>)>,
        ProtocolError,
    >(
        Some(
            (
                hdr,
                fin,
                op,
                n,
                match mask {
                    Some(m) => Some(mask_key(m)),
                    None => None,
                },
            ),
        ),
    ));
}

} // verus!
