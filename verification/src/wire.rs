//! The primitives of the wire format: single bytes, little-endian integers,
//! length-prefixed strings and byte blocks. Each has an encoder and a parser
//! over mathematical byte sequences, and executable code proved against them.
use vstd::bytes::*;
use vstd::prelude::*;
use vstd::slice::*;
use vstd::utf8::*;

verus! {

/// Why a byte buffer could not be decoded.
#[derive(Copy, Clone, PartialEq, Eq, Debug, Structural)]
pub enum DecodeError {
    /// The buffer ends before the value does.
    Truncated,
    /// A byte that should name an enum variant names none.
    UnknownTag,
    /// The bytes of a string are not UTF-8.
    InvalidUtf8,
    /// A channel has no name.
    EmptyName,
}

/// Why a value could not be encoded.
#[derive(Copy, Clone, PartialEq, Eq, Debug, Structural)]
pub enum EncodeError {
    /// A channel has no name.
    EmptyName,
    /// A string is longer than its 32-bit length prefix can say.
    StringTooLong,
    /// The body of a frame is longer than its length prefix can say.
    FrameTooLong,
    /// The buffer handed in cannot hold the encoding.
    BufferTooSmall,
}

/// The result of a parser: the value and the bytes that follow it.
pub type Parsed<T> = Result<(T, Seq<u8>), DecodeError>;

/// The parser read `value`, and `rest` follows it.
#[verifier::inline]
pub open spec fn yields<T>(parsed: Parsed<T>, value: T, rest: Seq<u8>) -> bool {
    parsed == Ok::<(T, Seq<u8>), DecodeError>((value, rest))
}

/// The parser failed with `error`.
#[verifier::inline]
pub open spec fn fails<T>(parsed: Parsed<T>, error: DecodeError) -> bool {
    parsed == Err::<(T, Seq<u8>), DecodeError>(error)
}

/// A `u32` on the wire: four bytes, least significant first.
pub open spec fn enc_u32(x: u32) -> Seq<u8> {
    spec_u32_to_le_bytes(x)
}

/// A `u64` on the wire: eight bytes, least significant first.
pub open spec fn enc_u64(x: u64) -> Seq<u8> {
    spec_u64_to_le_bytes(x)
}

/// Whether a string is short enough for its length prefix.
pub open spec fn str_fits(s: Seq<char>) -> bool {
    encode_utf8(s).len() <= u32::MAX
}

/// A string on the wire: the number of its UTF-8 bytes as a little-endian
/// `u32`, then the bytes.
pub open spec fn enc_str(s: Seq<char>) -> Seq<u8> {
    enc_u32(encode_utf8(s).len() as u32) + encode_utf8(s)
}

/// Whether a block of bytes is short enough for its length prefix.
pub open spec fn block_fits(d: Seq<u8>) -> bool {
    d.len() <= u64::MAX
}

/// A block of bytes on the wire: its length as a little-endian `u64`, then
/// the bytes.
pub open spec fn enc_block(d: Seq<u8>) -> Seq<u8> {
    enc_u64(d.len() as u64) + d
}

/// The parser of one byte.
pub open spec fn parse_u8(b: Seq<u8>) -> Parsed<u8> {
    if b.len() < 1 {
        Err(DecodeError::Truncated)
    } else {
        Ok((b[0], b.skip(1)))
    }
}

/// The parser of a little-endian `u32`.
pub open spec fn parse_u32(b: Seq<u8>) -> Parsed<u32> {
    if b.len() < 4 {
        Err(DecodeError::Truncated)
    } else {
        Ok((spec_u32_from_le_bytes(b.take(4)), b.skip(4)))
    }
}

/// The parser of a little-endian `u64`.
pub open spec fn parse_u64(b: Seq<u8>) -> Parsed<u64> {
    if b.len() < 8 {
        Err(DecodeError::Truncated)
    } else {
        Ok((spec_u64_from_le_bytes(b.take(8)), b.skip(8)))
    }
}

/// The parser of a length-prefixed string.
pub open spec fn parse_str(b: Seq<u8>) -> Parsed<Seq<char>> {
    match parse_u32(b) {
        Err(e) => Err(e),
        Ok((n, r)) => if r.len() < n {
            Err(DecodeError::Truncated)
        } else if !valid_utf8(r.take(n as int)) {
            Err(DecodeError::InvalidUtf8)
        } else {
            Ok((decode_utf8(r.take(n as int)), r.skip(n as int)))
        },
    }
}

/// The parser of a length-prefixed block of bytes.
pub open spec fn parse_block(b: Seq<u8>) -> Parsed<Seq<u8>> {
    match parse_u64(b) {
        Err(e) => Err(e),
        Ok((n, r)) => if r.len() < n {
            Err(DecodeError::Truncated)
        } else {
            Ok((r.take(n as int), r.skip(n as int)))
        },
    }
}

/// A `u32` that was written is read back, whatever follows it.
pub proof fn lemma_parse_enc_u32(x: u32, rest: Seq<u8>)
    ensures
        enc_u32(x).len() == 4,
        yields(parse_u32(enc_u32(x) + rest), x, rest),
{
    lemma_auto_spec_u32_to_from_le_bytes();
    let b = enc_u32(x) + rest;
    assert(b.take(4) =~= enc_u32(x));
    assert(b.skip(4) =~= rest);
}

/// A `u64` that was written is read back, whatever follows it.
pub proof fn lemma_parse_enc_u64(x: u64, rest: Seq<u8>)
    ensures
        enc_u64(x).len() == 8,
        yields(parse_u64(enc_u64(x) + rest), x, rest),
{
    lemma_auto_spec_u64_to_from_le_bytes();
    let b = enc_u64(x) + rest;
    assert(b.take(8) =~= enc_u64(x));
    assert(b.skip(8) =~= rest);
}

/// A string that was written is read back, whatever follows it.
pub proof fn lemma_parse_enc_str(s: Seq<char>, rest: Seq<u8>)
    requires
        str_fits(s),
    ensures
        yields(parse_str(enc_str(s) + rest), s, rest),
{
    let body = encode_utf8(s);
    let n = body.len() as u32;
    lemma_parse_enc_u32(n, body + rest);
    assert(enc_str(s) + rest =~= enc_u32(n) + (body + rest));
    assert((body + rest).take(n as int) =~= body);
    assert((body + rest).skip(n as int) =~= rest);
    encode_utf8_valid_utf8(s);
    encode_utf8_decode_utf8(s);
}

/// A block that was written is read back, whatever follows it.
pub proof fn lemma_parse_enc_block(d: Seq<u8>, rest: Seq<u8>)
    requires
        block_fits(d),
    ensures
        yields(parse_block(enc_block(d) + rest), d, rest),
{
    let n = d.len() as u64;
    lemma_parse_enc_u64(n, d + rest);
    assert(enc_block(d) + rest =~= enc_u64(n) + (d + rest));
    assert((d + rest).take(n as int) =~= d);
    assert((d + rest).skip(n as int) =~= rest);
}

/// The beginning of two sequences, one after the other: a beginning of the
/// first, or the first and a beginning of the second.
pub proof fn lemma_take_concat(a: Seq<u8>, b: Seq<u8>, k: int)
    requires
        0 <= k <= a.len() + b.len(),
    ensures
        k <= a.len() ==> (a + b).take(k) == a.take(k),
        k >= a.len() ==> (a + b).take(k) == a + b.take(k - a.len()),
{
    if k <= a.len() {
        assert((a + b).take(k) =~= a.take(k));
    }
    if k >= a.len() {
        assert((a + b).take(k) =~= a + b.take(k - a.len()));
    }
}

/// A string of which a part is missing is not read: the parser says that
/// the buffer ends too early.
pub proof fn lemma_truncated_str(s: Seq<char>, k: int)
    requires
        str_fits(s),
        0 <= k < enc_str(s).len(),
    ensures
        fails(parse_str(enc_str(s).take(k)), DecodeError::Truncated),
{
    let body = encode_utf8(s);
    let n = body.len() as u32;
    lemma_auto_spec_u32_to_from_le_bytes();
    lemma_take_concat(enc_u32(n), body, k);
    if k >= 4 {
        lemma_parse_enc_u32(n, body.take(k - 4));
    }
}

/// A block of bytes of which a part is missing is not read: the parser says
/// that the buffer ends too early.
pub proof fn lemma_truncated_block(d: Seq<u8>, k: int)
    requires
        block_fits(d),
        0 <= k < enc_block(d).len(),
    ensures
        fails(parse_block(enc_block(d).take(k)), DecodeError::Truncated),
{
    let n = d.len() as u64;
    lemma_auto_spec_u64_to_from_le_bytes();
    lemma_take_concat(enc_u64(n), d, k);
    if k >= 8 {
        lemma_parse_enc_u64(n, d.take(k - 8));
    }
}

/// Calls `String::from_utf8`. Trusted: it succeeds exactly on valid UTF-8, and
/// the string it returns consists of the bytes handed in.
#[verifier::external_body]
pub(crate) fn string_from_utf8(bytes: Vec<u8>) -> (r: Option<String>)
    ensures
        r.is_some() == valid_utf8(bytes@),
        r matches Some(s) ==> encode_utf8(s@) == bytes@,
{
    String::from_utf8(bytes).ok()
}

/// Reads one byte at `pos`.
pub fn read_u8(input: &[u8], pos: usize) -> (r: Result<(u8, usize), DecodeError>)
    requires
        pos <= input@.len(),
    ensures
        match r {
            Ok((v, next)) => next == pos + 1 && next <= input@.len() && yields(
                parse_u8(input@.skip(pos as int)),
                v,
                input@.skip(next as int),
            ),
            Err(e) => fails(parse_u8(input@.skip(pos as int)), e),
        },
{
    if input.len() - pos < 1 {
        return Err(DecodeError::Truncated);
    }
    assert(input@.skip(pos as int).skip(1) =~= input@.skip(pos + 1));
    Ok((input[pos], pos + 1))
}

/// Reads a little-endian `u32` at `pos`.
pub fn read_u32(input: &[u8], pos: usize) -> (r: Result<(u32, usize), DecodeError>)
    requires
        pos <= input@.len(),
    ensures
        match r {
            Ok((v, next)) => next == pos + 4 && next <= input@.len() && yields(
                parse_u32(input@.skip(pos as int)),
                v,
                input@.skip(next as int),
            ),
            Err(e) => fails(parse_u32(input@.skip(pos as int)), e),
        },
{
    if input.len() - pos < 4 {
        return Err(DecodeError::Truncated);
    }
    let part = slice_subrange(input, pos, pos + 4);
    assert(input@.skip(pos as int).take(4) =~= part@);
    assert(input@.skip(pos as int).skip(4) =~= input@.skip(pos + 4));
    Ok((u32_from_le_bytes(part), pos + 4))
}

/// Reads a little-endian `u64` at `pos`.
pub fn read_u64(input: &[u8], pos: usize) -> (r: Result<(u64, usize), DecodeError>)
    requires
        pos <= input@.len(),
    ensures
        match r {
            Ok((v, next)) => next == pos + 8 && next <= input@.len() && yields(
                parse_u64(input@.skip(pos as int)),
                v,
                input@.skip(next as int),
            ),
            Err(e) => fails(parse_u64(input@.skip(pos as int)), e),
        },
{
    if input.len() - pos < 8 {
        return Err(DecodeError::Truncated);
    }
    let part = slice_subrange(input, pos, pos + 8);
    assert(input@.skip(pos as int).take(8) =~= part@);
    assert(input@.skip(pos as int).skip(8) =~= input@.skip(pos + 8));
    Ok((u64_from_le_bytes(part), pos + 8))
}

/// Reads a length-prefixed string at `pos`.
pub fn read_str(input: &[u8], pos: usize) -> (r: Result<(String, usize), DecodeError>)
    requires
        pos <= input@.len(),
    ensures
        match r {
            Ok((s, next)) => pos <= next <= input@.len() && yields(
                parse_str(input@.skip(pos as int)),
                s@,
                input@.skip(next as int),
            ),
            Err(e) => fails(parse_str(input@.skip(pos as int)), e),
        },
{
    let (n, start) = match read_u32(input, pos) {
        Ok(v) => v,
        Err(e) => { return Err(e); },
    };
    if input.len() - start < n as usize {
        return Err(DecodeError::Truncated);
    }
    let end: usize = start + n as usize;
    let part = slice_subrange(input, start, end);
    assert(input@.skip(start as int).take(n as int) =~= part@);
    assert(input@.skip(start as int).skip(n as int) =~= input@.skip(end as int));
    match string_from_utf8(slice_to_vec(part)) {
        Some(s) => {
            proof {
                encode_utf8_decode_utf8(s@);
            }
            Ok((s, end))
        },
        None => Err(DecodeError::InvalidUtf8),
    }
}

/// Reads a length-prefixed block of bytes at `pos`.
pub fn read_block(input: &[u8], pos: usize) -> (r: Result<(Vec<u8>, usize), DecodeError>)
    requires
        pos <= input@.len(),
    ensures
        match r {
            Ok((d, next)) => pos <= next <= input@.len() && yields(
                parse_block(input@.skip(pos as int)),
                d@,
                input@.skip(next as int),
            ),
            Err(e) => fails(parse_block(input@.skip(pos as int)), e),
        },
{
    let (n, start) = match read_u64(input, pos) {
        Ok(v) => v,
        Err(e) => { return Err(e); },
    };
    if ((input.len() - start) as u64) < n {
        return Err(DecodeError::Truncated);
    }
    let end: usize = start + n as usize;
    let part = slice_subrange(input, start, end);
    assert(input@.skip(start as int).take(n as int) =~= part@);
    assert(input@.skip(start as int).skip(n as int) =~= input@.skip(end as int));
    Ok((slice_to_vec(part), end))
}

/// Appends one byte.
pub fn write_u8(out: &mut Vec<u8>, b: u8)
    ensures
        final(out)@ == old(out)@.push(b),
{
    out.push(b);
}

/// Appends a `u32`, little-endian.
pub fn write_u32(out: &mut Vec<u8>, x: u32)
    ensures
        final(out)@ == old(out)@ + enc_u32(x),
{
    let mut v = u32_to_le_bytes(x);
    out.append(&mut v);
}

/// Appends a `u64`, little-endian.
pub fn write_u64(out: &mut Vec<u8>, x: u64)
    ensures
        final(out)@ == old(out)@ + enc_u64(x),
{
    let mut v = u64_to_le_bytes(x);
    out.append(&mut v);
}

/// Whether a string can be written: its UTF-8 form has at most `u32::MAX`
/// bytes.
pub fn str_can_be_written(s: &str) -> (r: bool)
    ensures
        r == str_fits(s@),
{
    s.as_bytes().len() <= 0xffff_ffff
}

/// Appends a length-prefixed string.
pub fn write_str(out: &mut Vec<u8>, s: &str)
    requires
        str_fits(s@),
    ensures
        final(out)@ == old(out)@ + enc_str(s@),
{
    let bytes = s.as_bytes();
    write_u32(out, bytes.len() as u32);
    let mut v = slice_to_vec(bytes);
    out.append(&mut v);
    assert(out@ =~= old(out)@ + enc_str(s@));
}

/// Appends a length-prefixed block of bytes.
pub fn write_block(out: &mut Vec<u8>, d: &[u8])
    ensures
        final(out)@ == old(out)@ + enc_block(d@),
{
    write_u64(out, d.len() as u64);
    let mut v = slice_to_vec(d);
    out.append(&mut v);
    assert(out@ =~= old(out)@ + enc_block(d@));
}

} // verus!
