//! Field-level wire format: the Remaining Length varint, big-endian
//! integers, length-prefixed strings and byte blocks.
use vstd::prelude::*;
use vstd::slice::{slice_subrange, slice_to_vec};
use vstd::utf8::{decode_utf8, encode_utf8, valid_utf8};

verus! {

/// Why a byte sequence is not (yet) a packet.
#[derive(Debug, Clone, Copy, PartialEq, Eq, Structural)]
pub enum DecodeError {
    /// More bytes are needed before the packet can be decoded.
    Incomplete,
    MalformedHeader,
    MalformedLength,
    MalformedUtf8,
    MalformedPayload,
    UnsupportedPacket,
}

/// The largest value that the Remaining Length field can carry.
pub const MAX_REMAINING_LENGTH: u32 = 268435455;

// ---------------------------------------------------------------------------
// Remaining Length
// ---------------------------------------------------------------------------

/// The Remaining Length encoding of `n`: seven bits per byte, least
/// significant group first, the high bit set on every byte but the last.
pub open spec fn rl_bytes(n: nat) -> Seq<u8>
    decreases n,
{
    if n < 128 {
        seq![n as u8]
    } else {
        seq![(n % 128 + 128) as u8] + rl_bytes(n / 128)
    }
}

/// Reads a Remaining Length that starts at byte `i` of `s`, where at most
/// four bytes may be used in all: the value and the index just after it.
pub open spec fn rl_parse_from(s: Seq<u8>, i: nat) -> Result<(nat, nat), DecodeError>
    decreases 4 - i,
{
    if i >= 4 {
        Err(DecodeError::MalformedLength)
    } else if s.len() <= i {
        Err(DecodeError::Incomplete)
    } else if s[i as int] < 128 {
        Ok((s[i as int] as nat, i + 1))
    } else {
        match rl_parse_from(s, i + 1) {
            Ok((v, n)) => Ok(((s[i as int] - 128) as nat + 128 * v, n)),
            Err(e) => Err(e),
        }
    }
}

/// Reads the Remaining Length at the start of `s`: its value and the
/// number of bytes it takes.
pub open spec fn rl_parse(s: Seq<u8>) -> Result<(nat, nat), DecodeError> {
    rl_parse_from(s, 0)
}

pub open spec fn pow128(k: nat) -> nat
    decreases k,
{
    if k == 0 {
        1
    } else {
        128 * pow128((k - 1) as nat)
    }
}

proof fn lemma_rl_parse_from_bound(s: Seq<u8>, i: nat)
    requires
        i <= 4,
    ensures
        rl_parse_from(s, i) matches Ok((v, n)) ==> i < n <= 4 && n <= s.len() && v < pow128(
            (n - i) as nat,
        ),
    decreases 4 - i,
{
    reveal_with_fuel(pow128, 2);
    if i < 4 && s.len() > i && s[i as int] >= 128 {
        lemma_rl_parse_from_bound(s, i + 1);
        if let Ok((v, n)) = rl_parse_from(s, i + 1) {
            let k = (n - (i + 1)) as nat;
            let b = (s[i as int] - 128) as nat;
            let p = pow128(k);
            assert(pow128((n - i) as nat) == 128 * p);
            assert(b + 128 * v < 128 * p) by (nonlinear_arith)
                requires
                    b < 128,
                    v < p,
            ;
        }
    }
}

fn decode_rl_from(buf: &[u8], i: usize) -> (r: Result<(u32, usize), DecodeError>)
    requires
        i <= 4,
    ensures
        match (r, rl_parse_from(buf@, i as nat)) {
            (Ok((v, n)), Ok((sv, sn))) => v as nat == sv && n as nat == sn,
            (Err(e), Err(se)) => e == se,
            _ => false,
        },
    decreases 4 - i,
{
    proof {
        lemma_rl_parse_from_bound(buf@, i as nat);
    }
    if i >= 4 {
        Err(DecodeError::MalformedLength)
    } else if buf.len() <= i {
        Err(DecodeError::Incomplete)
    } else if buf[i] < 128 {
        Ok((buf[i] as u32, i + 1))
    } else {
        match decode_rl_from(buf, i + 1) {
            Ok((v, n)) => {
                proof {
                    lemma_rl_parse_from_bound(buf@, (i + 1) as nat);
                    reveal_with_fuel(pow128, 4);
                }
                Ok(((buf[i] - 128) as u32 + 128 * v, n))
            },
            Err(e) => Err(e),
        }
    }
}

/// Decodes the Remaining Length at the start of `buf`: its value and the
/// number of bytes it takes.
pub fn decode_remaining_length(buf: &[u8]) -> (r: Result<(u32, usize), DecodeError>)
    ensures
        r matches Ok((v, n)) ==> 1 <= n <= 4 && n <= buf@.len() && v <= MAX_REMAINING_LENGTH,
        match (r, rl_parse(buf@)) {
            (Ok((v, n)), Ok((sv, sn))) => v as nat == sv && n as nat == sn,
            (Err(e), Err(se)) => e == se,
            _ => false,
        },
{
    proof {
        lemma_rl_parse_from_bound(buf@, 0);
        reveal_with_fuel(pow128, 5);
    }
    decode_rl_from(buf, 0)
}

/// Appends the Remaining Length encoding of `n` to `out`.
pub fn encode_remaining_length(n: u32, out: &mut Vec<u8>)
    ensures
        final(out)@ == old(out)@ + rl_bytes(n as nat),
{
    let mut rem: u32 = n;
    while rem >= 128
        invariant
            out@ + rl_bytes(rem as nat) == old(out)@ + rl_bytes(n as nat),
        decreases rem,
    {
        let ghost before = out@;
        out.push((rem % 128 + 128) as u8);
        proof {
            assert(rl_bytes(rem as nat) == seq![(rem % 128 + 128) as u8] + rl_bytes((rem / 128) as nat));
            assert(out@ + rl_bytes((rem / 128) as nat) =~= before + rl_bytes(rem as nat));
        }
        rem = rem / 128;
    }
    out.push(rem as u8);
    proof {
        assert(rl_bytes(rem as nat) == seq![rem as u8]);
    }
    assert(out@ =~= old(out)@ + rl_bytes(n as nat));
}

// ---------------------------------------------------------------------------
// Integers, strings and byte blocks
// ---------------------------------------------------------------------------

/// The two big-endian bytes of `v`.
pub open spec fn u16_bytes(v: u16) -> Seq<u8> {
    seq![(v / 256) as u8, (v % 256) as u8]
}

/// A length-prefixed block of bytes.
pub open spec fn block_bytes(b: Seq<u8>) -> Seq<u8> {
    u16_bytes(b.len() as u16) + b
}

/// A UTF-8 string on the wire: its byte length, then its bytes.
pub open spec fn string_bytes(s: Seq<char>) -> Seq<u8> {
    block_bytes(encode_utf8(s))
}

/// A string fits in a length-prefixed field.
pub open spec fn string_fits(s: Seq<char>) -> bool {
    encode_utf8(s).len() <= 65535
}

/// Takes a big-endian u16 off the front of `s`.
pub open spec fn take_u16(s: Seq<u8>) -> Result<(u16, Seq<u8>), DecodeError> {
    if s.len() < 2 {
        Err(DecodeError::MalformedPayload)
    } else {
        Ok(((s[0] as int * 256 + s[1] as int) as u16, s.subrange(2, s.len() as int)))
    }
}

/// Takes a length-prefixed block of bytes off the front of `s`.
pub open spec fn take_block(s: Seq<u8>) -> Result<(Seq<u8>, Seq<u8>), DecodeError> {
    match take_u16(s) {
        Err(e) => Err(e),
        Ok((n, rest)) => if rest.len() < n {
            Err(DecodeError::MalformedPayload)
        } else {
            Ok((rest.subrange(0, n as int), rest.subrange(n as int, rest.len() as int)))
        },
    }
}

/// Takes a length-prefixed UTF-8 string off the front of `s`.
pub open spec fn take_string(s: Seq<u8>) -> Result<(Seq<char>, Seq<u8>), DecodeError> {
    match take_block(s) {
        Err(e) => Err(e),
        Ok((raw, rest)) => if valid_utf8(raw) {
            Ok((decode_utf8(raw), rest))
        } else {
            Err(DecodeError::MalformedUtf8)
        },
    }
}

/// The part of `buf` from `pos` up to `end`.
pub open spec fn window(buf: Seq<u8>, pos: int, end: int) -> Seq<u8> {
    buf.subrange(pos, end)
}

/// Relies on String::from_utf8: it succeeds exactly on well-formed UTF-8,
/// and the string then holds the characters that the bytes encode.
#[verifier::external_body]
fn string_from_utf8(bytes: Vec<u8>) -> (r: Option<String>)
    ensures
        match r {
            Some(s) => valid_utf8(bytes@) && s@ == decode_utf8(bytes@),
            None => !valid_utf8(bytes@),
        },
{
    String::from_utf8(bytes).ok()
}

pub fn read_u16(buf: &[u8], pos: usize, end: usize) -> (r: Result<(u16, usize), DecodeError>)
    requires
        pos <= end <= buf@.len(),
    ensures
        match (r, take_u16(window(buf@, pos as int, end as int))) {
            (Ok((v, np)), Ok((sv, rest))) => v == sv && pos <= np <= end && rest == window(
                buf@,
                np as int,
                end as int,
            ),
            (Err(e), Err(se)) => e == se,
            _ => false,
        },
{
    if end - pos < 2 {
        Err(DecodeError::MalformedPayload)
    } else {
        let v: u16 = (buf[pos] as u16) * 256 + buf[pos + 1] as u16;
        assert(window(buf@, pos as int, end as int).subrange(2, (end - pos) as int) =~= window(
            buf@,
            (pos + 2) as int,
            end as int,
        ));
        Ok((v, pos + 2))
    }
}

pub fn read_block(buf: &[u8], pos: usize, end: usize) -> (r: Result<(Vec<u8>, usize), DecodeError>)
    requires
        pos <= end <= buf@.len(),
    ensures
        match (r, take_block(window(buf@, pos as int, end as int))) {
            (Ok((v, np)), Ok((sv, rest))) => v@ == sv && pos <= np <= end && rest == window(
                buf@,
                np as int,
                end as int,
            ),
            (Err(e), Err(se)) => e == se,
            _ => false,
        },
{
    match read_u16(buf, pos, end) {
        Err(e) => Err(e),
        Ok((n, p)) => {
            if end - p < n as usize {
                Err(DecodeError::MalformedPayload)
            } else {
                let np: usize = p + n as usize;
                let bytes = slice_to_vec(slice_subrange(buf, p, np));
                assert(bytes@ =~= window(buf@, p as int, end as int).subrange(0, n as int));
                assert(window(buf@, np as int, end as int) =~= window(
                    buf@,
                    p as int,
                    end as int,
                ).subrange(n as int, (end - p) as int));
                Ok((bytes, np))
            }
        },
    }
}

pub fn read_string(buf: &[u8], pos: usize, end: usize) -> (r: Result<(String, usize), DecodeError>)
    requires
        pos <= end <= buf@.len(),
    ensures
        match (r, take_string(window(buf@, pos as int, end as int))) {
            (Ok((v, np)), Ok((sv, rest))) => v@ == sv && pos <= np <= end && rest == window(
                buf@,
                np as int,
                end as int,
            ),
            (Err(e), Err(se)) => e == se,
            _ => false,
        },
{
    match read_block(buf, pos, end) {
        Err(e) => Err(e),
        Ok((bytes, np)) => match string_from_utf8(bytes) {
            Some(s) => Ok((s, np)),
            None => Err(DecodeError::MalformedUtf8),
        },
    }
}

pub fn write_u16(v: u16, out: &mut Vec<u8>)
    ensures
        final(out)@ == old(out)@ + u16_bytes(v),
{
    out.push((v / 256) as u8);
    out.push((v % 256) as u8);
    assert(out@ =~= old(out)@ + u16_bytes(v));
}

pub fn write_all(src: &[u8], out: &mut Vec<u8>)
    ensures
        final(out)@ == old(out)@ + src@,
{
    let mut i: usize = 0;
    while i < src.len()
        invariant
            i <= src@.len(),
            out@ == old(out)@ + src@.subrange(0, i as int),
        decreases src@.len() - i,
    {
        out.push(src[i]);
        i = i + 1;
        assert(out@ =~= old(out)@ + src@.subrange(0, i as int));
    }
    assert(src@.subrange(0, i as int) =~= src@);
}

pub fn write_block(b: &[u8], out: &mut Vec<u8>)
    requires
        b@.len() <= 65535,
    ensures
        final(out)@ == old(out)@ + block_bytes(b@),
{
    write_u16(b.len() as u16, out);
    write_all(b, out);
    assert(out@ =~= old(out)@ + block_bytes(b@));
}

pub fn write_string(s: &str, out: &mut Vec<u8>)
    requires
        string_fits(s@),
    ensures
        final(out)@ == old(out)@ + string_bytes(s@),
{
    let b = s.as_bytes();
    write_block(b, out);
}

} // verus!
