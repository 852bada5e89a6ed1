//! A hand-rolled wire codec.
//!
//! It exists because the network model corrupts bytes: every decode path is
//! bounds-checked and checksum-guarded, and a malformed frame produces an error
//! rather than a panic or a wild allocation.

use crate::bytes::{
    get_u32, get_u64, law_le_u32_onto, law_le_u32_round_trip, law_le_u64_onto,
    law_le_u64_round_trip, le_u32, le_u64, of_le_u32, of_le_u64, put_u32, put_u64,
};
use crate::text::{decimal, opt_text, own, put_num, utf8_text};
use vstd::prelude::*;
use vstd::slice::slice_subrange;
use vstd::utf8::{
    decode_utf8, decode_utf8_encode_utf8, encode_utf8, encode_utf8_decode_utf8, encode_utf8_valid_utf8,
    valid_utf8,
};

verus! {

/// Refuse to allocate for an implausible length field. A corrupted `u32` would
/// otherwise ask for gigabytes.
pub const MAX_FIELD: usize = 1_048_576;

/// Why a sequence of bytes is not a message.
#[derive(Clone, Copy, Debug, PartialEq, Eq, Structural)]
pub enum DecodeError {
    Truncated,
    BadTag(u8),
    BadUtf8,
    BadChecksum,
    TooLong,
    TrailingBytes,
}

impl DecodeError {
    /// The error in words.
    pub open spec fn words(self) -> Seq<char> {
        match self {
            DecodeError::Truncated => "truncated"@,
            DecodeError::BadTag(t) => "unknown tag "@ + decimal(t as nat),
            DecodeError::BadUtf8 => "invalid utf-8"@,
            DecodeError::BadChecksum => "checksum mismatch"@,
            DecodeError::TooLong => "length field out of range"@,
            DecodeError::TrailingBytes => "trailing bytes"@,
        }
    }

    /// The error in words.
    pub fn text(&self) -> (r: String)
        ensures
            r@ == self.words(),
    {
        match self {
            DecodeError::Truncated => own("truncated"),
            DecodeError::BadTag(t) => {
                let mut s = own("unknown tag ");
                put_num(&mut s, *t as u64);
                s
            },
            DecodeError::BadUtf8 => own("invalid utf-8"),
            DecodeError::BadChecksum => own("checksum mismatch"),
            DecodeError::TooLong => own("length field out of range"),
            DecodeError::TrailingBytes => own("trailing bytes"),
        }
    }
}

/// What reading one value from a buffer gives: the value or the error, and the
/// position after it.
pub struct Parsed<T> {
    pub out: Result<T, DecodeError>,
    pub pos: int,
}

/// A value read successfully.
pub open spec fn parsed<T>(v: T, pos: int) -> Parsed<T> {
    Parsed { out: Ok(v), pos }
}

/// A value that could not be read.
pub open spec fn failed<T>(e: DecodeError, pos: int) -> Parsed<T> {
    Parsed { out: Err(e), pos }
}

/// Read one value and go on with it; an error ends the reading.
pub open spec fn bind<A, B>(p: Parsed<A>, f: spec_fn(A, int) -> Parsed<B>) -> Parsed<B> {
    match p.out {
        Ok(v) => f(v, p.pos),
        Err(e) => failed(e, p.pos),
    }
}

/// The next `n` bytes.
pub open spec fn parse_take(b: Seq<u8>, p: int, n: int) -> Parsed<Seq<u8>> {
    if p + n > b.len() {
        failed(DecodeError::Truncated, p)
    } else {
        parsed(b.subrange(p, p + n), p + n)
    }
}

/// The next byte.
pub open spec fn parse_u8(b: Seq<u8>, p: int) -> Parsed<u8> {
    bind(parse_take(b, p, 1), |s: Seq<u8>, q: int| parsed(s[0], q))
}

/// The next 32-bit number.
pub open spec fn parse_u32(b: Seq<u8>, p: int) -> Parsed<u32> {
    bind(parse_take(b, p, 4), |s: Seq<u8>, q: int| parsed(of_le_u32(s), q))
}

/// The next 64-bit number.
pub open spec fn parse_u64(b: Seq<u8>, p: int) -> Parsed<u64> {
    bind(parse_take(b, p, 8), |s: Seq<u8>, q: int| parsed(of_le_u64(s), q))
}

/// The next length-prefixed byte string, where it is no longer than `limit`.
pub open spec fn parse_blob(b: Seq<u8>, p: int, limit: usize) -> Parsed<Seq<u8>> {
    bind(
        parse_u32(b, p),
        |n: u32, q: int|
            if n > limit {
                failed(DecodeError::TooLong, q)
            } else {
                parse_take(b, q, n as int)
            },
    )
}

/// The next length-prefixed byte string of a field.
pub open spec fn parse_bytes(b: Seq<u8>, p: int) -> Parsed<Seq<u8>> {
    parse_blob(b, p, MAX_FIELD)
}

/// The next length-prefixed text.
pub open spec fn parse_str(b: Seq<u8>, p: int) -> Parsed<Seq<char>> {
    bind(
        parse_bytes(b, p),
        |s: Seq<u8>, q: int|
            if valid_utf8(s) {
                parsed(decode_utf8(s), q)
            } else {
                failed(DecodeError::BadUtf8, q)
            },
    )
}

/// The next optional text.
pub open spec fn parse_opt(b: Seq<u8>, p: int) -> Parsed<Option<Seq<char>>> {
    bind(
        parse_u8(b, p),
        |t: u8, q: int|
            if t == 0 {
                parsed(None, q)
            } else if t == 1 {
                bind(parse_str(b, q), |s: Seq<char>, r: int| parsed(Some(s), r))
            } else {
                failed(DecodeError::BadTag(t), q)
            },
    )
}

/// The bytes of a length-prefixed byte string.
pub open spec fn enc_bytes(b: Seq<u8>) -> Seq<u8> {
    le_u32(b.len() as u32) + b
}

/// The bytes of a text.
pub open spec fn enc_str(s: Seq<char>) -> Seq<u8> {
    enc_bytes(encode_utf8(s))
}

/// The bytes of an optional text.
pub open spec fn enc_opt(s: Option<Seq<char>>) -> Seq<u8> {
    match s {
        None => seq![0u8],
        Some(t) => seq![1u8] + enc_str(t),
    }
}

/// Whether a text is short enough to be read back.
pub open spec fn fits(s: Seq<char>) -> bool {
    encode_utf8(s).len() <= MAX_FIELD
}

/// Whether `b` holds exactly the bytes `e` at position `p`.
pub open spec fn at(b: Seq<u8>, p: int, e: Seq<u8>) -> bool {
    0 <= p && p + e.len() <= b.len() && b.subrange(p, p + e.len()) == e
}

pub proof fn lemma_at_split(b: Seq<u8>, p: int, e: Seq<u8>, f: Seq<u8>)
    requires
        at(b, p, e + f),
    ensures
        at(b, p, e),
        at(b, p + e.len(), f),
{
    let w = b.subrange(p, p + (e + f).len());
    assert(b.subrange(p, p + e.len()) =~= w.subrange(0, e.len() as int));
    assert(b.subrange(p + e.len(), p + e.len() + f.len()) =~= w.subrange(
        e.len() as int,
        (e + f).len() as int,
    ));
    assert((e + f).subrange(0, e.len() as int) =~= e);
    assert((e + f).subrange(e.len() as int, (e + f).len() as int) =~= f);
}

pub proof fn lemma_parse_u8(b: Seq<u8>, p: int, v: u8)
    requires
        at(b, p, seq![v]),
    ensures
        parse_u8(b, p) == parsed(v, p + 1),
{
}

/// A 32-bit number is read back as it was written.
pub proof fn lemma_parse_u32(b: Seq<u8>, p: int, v: u32)
    requires
        at(b, p, le_u32(v)),
    ensures
        parse_u32(b, p) == parsed(v, p + 4),
{
    law_le_u32_round_trip(v);
}

/// A 64-bit number is read back as it was written.
pub proof fn lemma_parse_u64(b: Seq<u8>, p: int, v: u64)
    requires
        at(b, p, le_u64(v)),
    ensures
        parse_u64(b, p) == parsed(v, p + 8),
{
    law_le_u64_round_trip(v);
}

/// A byte string is read back as it was written, under any limit it keeps to.
pub proof fn lemma_parse_blob(b: Seq<u8>, p: int, v: Seq<u8>, limit: usize)
    requires
        at(b, p, enc_bytes(v)),
        v.len() <= limit,
        v.len() <= u32::MAX,
    ensures
        parse_blob(b, p, limit) == parsed(v, p + enc_bytes(v).len()),
        enc_bytes(v).len() == 4 + v.len(),
{
    lemma_at_split(b, p, le_u32(v.len() as u32), v);
    lemma_parse_u32(b, p, v.len() as u32);
}

/// A field is read back as it was written.
pub proof fn lemma_parse_bytes(b: Seq<u8>, p: int, v: Seq<u8>)
    requires
        at(b, p, enc_bytes(v)),
        v.len() <= MAX_FIELD,
    ensures
        parse_bytes(b, p) == parsed(v, p + enc_bytes(v).len()),
        enc_bytes(v).len() == 4 + v.len(),
{
    lemma_parse_blob(b, p, v, MAX_FIELD);
}

/// A text is read back as it was written.
pub proof fn lemma_parse_str(b: Seq<u8>, p: int, v: Seq<char>)
    requires
        at(b, p, enc_str(v)),
        fits(v),
    ensures
        parse_str(b, p) == parsed(v, p + enc_str(v).len()),
{
    lemma_parse_bytes(b, p, encode_utf8(v));
    encode_utf8_valid_utf8(v);
    encode_utf8_decode_utf8(v);
}

/// An optional text is read back as it was written.
pub proof fn lemma_parse_opt(b: Seq<u8>, p: int, v: Option<Seq<char>>)
    requires
        at(b, p, enc_opt(v)),
        v is Some ==> fits(v->Some_0),
    ensures
        parse_opt(b, p) == parsed(v, p + enc_opt(v).len()),
{
    match v {
        None => {
            lemma_parse_u8(b, p, 0);
        },
        Some(t) => {
            lemma_at_split(b, p, seq![1u8], enc_str(t));
            lemma_parse_u8(b, p, 1);
            lemma_parse_str(b, p + 1, t);
        },
    }
}

pub proof fn lemma_at_join(b: Seq<u8>, p: int, e: Seq<u8>, f: Seq<u8>)
    requires
        at(b, p, e),
        at(b, p + e.len(), f),
    ensures
        at(b, p, e + f),
{
    let w = b.subrange(p, p + (e + f).len());
    assert(w.subrange(0, e.len() as int) =~= b.subrange(p, p + e.len()));
    assert(w.subrange(e.len() as int, w.len() as int) =~= b.subrange(
        p + e.len(),
        p + e.len() + f.len(),
    ));
    assert(w =~= w.subrange(0, e.len() as int) + w.subrange(e.len() as int, w.len() as int));
}

/// A byte that was read stands where it was read.
pub proof fn lemma_read_u8(b: Seq<u8>, p: int)
    requires
        0 <= p,
        parse_u8(b, p).out is Ok,
    ensures
        parse_u8(b, p).pos == p + 1,
        at(b, p, seq![parse_u8(b, p).out->Ok_0]),
{
    assert(b.subrange(p, p + 1) =~= seq![b[p]]);
}

/// The bytes of a 32-bit number that was read stand where it was read.
pub proof fn lemma_read_u32(b: Seq<u8>, p: int)
    requires
        0 <= p,
        parse_u32(b, p).out is Ok,
    ensures
        parse_u32(b, p).pos == p + 4,
        at(b, p, le_u32(parse_u32(b, p).out->Ok_0)),
{
    law_le_u32_onto(b.subrange(p, p + 4));
}

/// The bytes of a 64-bit number that was read stand where it was read.
pub proof fn lemma_read_u64(b: Seq<u8>, p: int)
    requires
        0 <= p,
        parse_u64(b, p).out is Ok,
    ensures
        parse_u64(b, p).pos == p + 8,
        at(b, p, le_u64(parse_u64(b, p).out->Ok_0)),
{
    law_le_u64_onto(b.subrange(p, p + 8));
}

/// The bytes of a text that was read stand where it was read.
pub proof fn lemma_read_str(b: Seq<u8>, p: int)
    requires
        0 <= p,
        parse_str(b, p).out is Ok,
    ensures
        parse_str(b, p).pos == p + enc_str(parse_str(b, p).out->Ok_0).len(),
        at(b, p, enc_str(parse_str(b, p).out->Ok_0)),
        fits(parse_str(b, p).out->Ok_0),
{
    let n = parse_u32(b, p).out->Ok_0;
    let s = parse_bytes(b, p).out->Ok_0;
    lemma_read_u32(b, p);
    decode_utf8_encode_utf8(s);
    assert(s.len() == n);
    assert(s.len() as u32 == n);
    lemma_at_join(b, p, le_u32(n), s);
}

/// The bytes of an optional text that was read stand where it was read.
pub proof fn lemma_read_opt(b: Seq<u8>, p: int)
    requires
        0 <= p,
        parse_opt(b, p).out is Ok,
    ensures
        parse_opt(b, p).pos == p + enc_opt(parse_opt(b, p).out->Ok_0).len(),
        at(b, p, enc_opt(parse_opt(b, p).out->Ok_0)),
        match parse_opt(b, p).out->Ok_0 {
            None => true,
            Some(s) => fits(s),
        },
{
    lemma_read_u8(b, p);
    let t = parse_u8(b, p).out->Ok_0;
    if t == 1 {
        lemma_read_str(b, p + 1);
        lemma_at_join(b, p, seq![1u8], enc_str(parse_str(b, p + 1).out->Ok_0));
    }
}

/// Writes values one after another.
#[derive(Default)]
pub struct Enc {
    buf: Vec<u8>,
}

impl View for Enc {
    type V = Seq<u8>;

    closed spec fn view(&self) -> Seq<u8> {
        self.buf@
    }
}

impl Enc {
    pub fn new() -> (r: Enc)
        ensures
            r@ == Seq::<u8>::empty(),
    {
        Enc { buf: Vec::new() }
    }

    pub fn u8(&mut self, v: u8) -> (r: &mut Self)
        ensures
            r@ == old(self)@ + seq![v],
            *final(self) == *final(r),
    {
        self.buf.push(v);
        assert(self.buf@ =~= old(self).buf@ + seq![v]);
        self
    }

    pub fn u32(&mut self, v: u32) -> (r: &mut Self)
        ensures
            r@ == old(self)@ + le_u32(v),
            *final(self) == *final(r),
    {
        put_u32(&mut self.buf, v);
        self
    }

    pub fn u64(&mut self, v: u64) -> (r: &mut Self)
        ensures
            r@ == old(self)@ + le_u64(v),
            *final(self) == *final(r),
    {
        put_u64(&mut self.buf, v);
        self
    }

    pub fn bytes(&mut self, b: &[u8]) -> (r: &mut Self)
        ensures
            r@ == old(self)@ + enc_bytes(b@),
            *final(self) == *final(r),
    {
        put_u32(&mut self.buf, b.len() as u32);
        self.buf.extend_from_slice(b);
        assert(self.buf@ =~= old(self).buf@ + enc_bytes(b@));
        self
    }

    pub fn str(&mut self, s: &str) -> (r: &mut Self)
        ensures
            r@ == old(self)@ + enc_str(s@),
            *final(self) == *final(r),
    {
        self.bytes(s.as_bytes())
    }

    pub fn opt_str(&mut self, s: Option<&str>) -> (r: &mut Self)
        ensures
            r@ == old(self)@ + enc_opt(
                match s {
                    Some(t) => Some(t@),
                    None => None,
                },
            ),
            *final(self) == *final(r),
    {
        match s {
            None => self.u8(0),
            Some(v) => {
                let r = self.u8(1).str(v);
                assert(r@ =~= old(self)@ + (seq![1u8] + enc_str(v@)));
                r
            },
        }
    }

    pub fn into_vec(self) -> (r: Vec<u8>)
        ensures
            r@ == self@,
    {
        self.buf
    }

    pub fn as_slice(&self) -> (r: &[u8])
        ensures
            r@ == self@,
    {
        self.buf.as_slice()
    }
}

/// Reads values one after another.
pub struct Dec<'a> {
    buf: &'a [u8],
    pos: usize,
}

impl<'a> Dec<'a> {
    /// What is being read.
    pub closed spec fn all(&self) -> Seq<u8> {
        self.buf@
    }

    /// How much of it has been read.
    pub closed spec fn at(&self) -> int {
        self.pos as int
    }

    /// The position never leaves the buffer.
    pub open spec fn wf(&self) -> bool {
        0 <= self.at() <= self.all().len()
    }

    pub fn new(buf: &'a [u8]) -> (r: Dec<'a>)
        ensures
            r.wf(),
            r.all() == buf@,
            r.at() == 0,
    {
        Dec { buf, pos: 0 }
    }

    fn take(&mut self, n: usize) -> (r: Result<&'a [u8], DecodeError>)
        requires
            old(self).wf(),
        ensures
            final(self).wf(),
            final(self).all() == old(self).all(),
            ({
                let p = parse_take(old(self).all(), old(self).at(), n as int);
                &&& final(self).at() == p.pos
                &&& match r {
                    Ok(s) => p.out == Ok::<Seq<u8>, DecodeError>(s@),
                    Err(e) => p.out == Err::<Seq<u8>, DecodeError>(e),
                }
            }),
    {
        if n > self.buf.len() - self.pos {
            return Err(DecodeError::Truncated);
        }
        let s = slice_subrange(self.buf, self.pos, self.pos + n);
        self.pos = self.pos + n;
        Ok(s)
    }

    pub fn u8(&mut self) -> (r: Result<u8, DecodeError>)
        requires
            old(self).wf(),
        ensures
            final(self).wf(),
            final(self).all() == old(self).all(),
            (Parsed { out: r, pos: final(self).at() }) == parse_u8(old(self).all(), old(self).at()),
    {
        match self.take(1) {
            Ok(s) => Ok(s[0]),
            Err(e) => Err(e),
        }
    }

    pub fn u32(&mut self) -> (r: Result<u32, DecodeError>)
        requires
            old(self).wf(),
        ensures
            final(self).wf(),
            final(self).all() == old(self).all(),
            (Parsed { out: r, pos: final(self).at() }) == parse_u32(
                old(self).all(),
                old(self).at(),
            ),
    {
        match self.take(4) {
            Ok(s) => {
                assert(s@.subrange(0, 4) =~= s@);
                Ok(get_u32(s, 0))
            },
            Err(e) => Err(e),
        }
    }

    pub fn u64(&mut self) -> (r: Result<u64, DecodeError>)
        requires
            old(self).wf(),
        ensures
            final(self).wf(),
            final(self).all() == old(self).all(),
            (Parsed { out: r, pos: final(self).at() }) == parse_u64(
                old(self).all(),
                old(self).at(),
            ),
    {
        match self.take(8) {
            Ok(s) => {
                assert(s@.subrange(0, 8) =~= s@);
                Ok(get_u64(s, 0))
            },
            Err(e) => Err(e),
        }
    }

    /// The next length-prefixed byte string, where it is no longer than `limit`.
    pub fn blob(&mut self, limit: usize) -> (r: Result<&'a [u8], DecodeError>)
        requires
            old(self).wf(),
        ensures
            final(self).wf(),
            final(self).all() == old(self).all(),
            ({
                let p = parse_blob(old(self).all(), old(self).at(), limit);
                &&& final(self).at() == p.pos
                &&& match r {
                    Ok(s) => p.out == Ok::<Seq<u8>, DecodeError>(s@),
                    Err(e) => p.out == Err::<Seq<u8>, DecodeError>(e),
                }
            }),
    {
        match self.u32() {
            Ok(n) => {
                if n as usize > limit {
                    return Err(DecodeError::TooLong);
                }
                self.take(n as usize)
            },
            Err(e) => Err(e),
        }
    }

    pub fn bytes(&mut self) -> (r: Result<&'a [u8], DecodeError>)
        requires
            old(self).wf(),
        ensures
            final(self).wf(),
            final(self).all() == old(self).all(),
            ({
                let p = parse_bytes(old(self).all(), old(self).at());
                &&& final(self).at() == p.pos
                &&& match r {
                    Ok(s) => p.out == Ok::<Seq<u8>, DecodeError>(s@),
                    Err(e) => p.out == Err::<Seq<u8>, DecodeError>(e),
                }
            }),
    {
        self.blob(MAX_FIELD)
    }

    pub fn string(&mut self) -> (r: Result<String, DecodeError>)
        requires
            old(self).wf(),
        ensures
            final(self).wf(),
            final(self).all() == old(self).all(),
            ({
                let p = parse_str(old(self).all(), old(self).at());
                &&& final(self).at() == p.pos
                &&& match r {
                    Ok(s) => p.out == Ok::<Seq<char>, DecodeError>(s@),
                    Err(e) => p.out == Err::<Seq<char>, DecodeError>(e),
                }
            }),
    {
        match self.bytes() {
            Ok(b) => match utf8_text(b) {
                Some(s) => Ok(own(s)),
                None => Err(DecodeError::BadUtf8),
            },
            Err(e) => Err(e),
        }
    }

    pub fn opt_string(&mut self) -> (r: Result<Option<String>, DecodeError>)
        requires
            old(self).wf(),
        ensures
            final(self).wf(),
            final(self).all() == old(self).all(),
            ({
                let p = parse_opt(old(self).all(), old(self).at());
                &&& final(self).at() == p.pos
                &&& match r {
                    Ok(s) => p.out == Ok::<Option<Seq<char>>, DecodeError>(opt_text(s)),
                    Err(e) => p.out == Err::<Option<Seq<char>>, DecodeError>(e),
                }
            }),
    {
        match self.u8() {
            Ok(0) => Ok(None),
            Ok(1) => match self.string() {
                Ok(s) => Ok(Some(s)),
                Err(e) => Err(e),
            },
            Ok(t) => Err(DecodeError::BadTag(t)),
            Err(e) => Err(e),
        }
    }

    pub fn remaining(&self) -> (r: usize)
        requires
            self.wf(),
        ensures
            r == self.all().len() - self.at(),
    {
        self.buf.len() - self.pos
    }

    pub fn finish(self) -> (r: Result<(), DecodeError>)
        requires
            self.wf(),
        ensures
            r == if self.at() == self.all().len() {
                Ok::<(), DecodeError>(())
            } else {
                Err(DecodeError::TrailingBytes)
            },
    {
        if self.remaining() == 0 {
            Ok(())
        } else {
            Err(DecodeError::TrailingBytes)
        }
    }
}

// ---- checksums -----------------------------------------------------------

/// One bit of the checksum: shift right, and fold the polynomial in where a
/// one fell out.
pub open spec fn crc_bit(c: u32) -> u32 {
    if c & 1 == 1 {
        (c >> 1) ^ 0xEDB8_8320
    } else {
        c >> 1
    }
}

/// `n` bits of the checksum.
pub open spec fn crc_bits(c: u32, n: nat) -> u32
    decreases n,
{
    if n == 0 {
        c
    } else {
        crc_bit(crc_bits(c, (n - 1) as nat))
    }
}

/// The checksum register after the bytes of `data`, starting from all ones.
pub open spec fn crc_register(data: Seq<u8>) -> u32
    decreases data.len(),
{
    if data.len() == 0 {
        0xFFFF_FFFF
    } else {
        crc_bits(crc_register(data.drop_last()) ^ data.last() as u32, 8)
    }
}

/// CRC-32 (IEEE).
pub open spec fn crc_of(data: Seq<u8>) -> u32 {
    !crc_register(data)
}

/// CRC-32 (IEEE), computed bitwise. Small and obviously correct; the volumes
/// here do not justify a table.
pub fn crc32(data: &[u8]) -> (r: u32)
    ensures
        r == crc_of(data@),
{
    let mut crc: u32 = 0xFFFF_FFFF;
    let mut i: usize = 0;
    while i < data.len()
        invariant
            i <= data@.len(),
            crc == crc_register(data@.take(i as int)),
        decreases data@.len() - i,
    {
        let ghost before = crc;
        crc = crc ^ (data[i] as u32);
        let ghost start = crc;
        let mut k: u32 = 0;
        while k < 8
            invariant
                k <= 8,
                crc == crc_bits(start, k as nat),
            decreases 8 - k,
        {
            let mask: u32 = if crc & 1 == 1 {
                0xFFFF_FFFF
            } else {
                0
            };
            proof {
                assert(0xEDB8_8320u32 & 0xFFFF_FFFFu32 == 0xEDB8_8320u32) by (bit_vector);
                assert(0xEDB8_8320u32 & 0u32 == 0u32) by (bit_vector);
                assert((crc >> 1) ^ 0u32 == crc >> 1) by (bit_vector);
            }
            crc = (crc >> 1) ^ (0xEDB8_8320 & mask);
            k += 1;
        }
        proof {
            let next = data@.take(i + 1);
            assert(next.drop_last() =~= data@.take(i as int));
            assert(next.last() == data@[i as int]);
        }
        i += 1;
    }
    assert(data@.take(i as int) =~= data@);
    !crc
}

proof fn lemma_crc_bits_injective(a: u32, b: u32, n: nat)
    requires
        a != b,
    ensures
        crc_bits(a, n) != crc_bits(b, n),
    decreases n,
{
    if n > 0 {
        lemma_crc_bits_injective(a, b, (n - 1) as nat);
        let (x, y) = (crc_bits(a, (n - 1) as nat), crc_bits(b, (n - 1) as nat));
        assert(x != y ==> (if x & 1 == 1 {
            (x >> 1) ^ 0xEDB8_8320u32
        } else {
            x >> 1
        }) != (if y & 1 == 1 {
            (y >> 1) ^ 0xEDB8_8320u32
        } else {
            y >> 1
        })) by (bit_vector);
    }
}

proof fn lemma_register_differs(a: Seq<u8>, b: Seq<u8>, i: int)
    requires
        a.len() == b.len(),
        0 <= i < a.len(),
        a[i] != b[i],
        forall|j: int| 0 <= j < a.len() && j != i ==> a[j] == b[j],
    ensures
        crc_register(a) != crc_register(b),
    decreases a.len(),
{
    let (ra, rb) = (crc_register(a.drop_last()), crc_register(b.drop_last()));
    let (la, lb) = (a.last() as u32, b.last() as u32);
    if i == a.len() - 1 {
        assert(a.drop_last() =~= b.drop_last());
        assert(la != lb ==> ra ^ la != ra ^ lb) by (bit_vector);
    } else {
        lemma_register_differs(a.drop_last(), b.drop_last(), i);
        assert(ra != rb ==> ra ^ la != rb ^ la) by (bit_vector);
    }
    lemma_crc_bits_injective(ra ^ la, rb ^ lb, 8);
}

/// The checksum tells apart any two payloads of one length that differ in
/// exactly one byte.
pub proof fn law_crc_detects_one_byte(a: Seq<u8>, b: Seq<u8>, i: int)
    requires
        a.len() == b.len(),
        0 <= i < a.len(),
        a[i] != b[i],
        forall|j: int| 0 <= j < a.len() && j != i ==> a[j] == b[j],
    ensures
        crc_of(a) != crc_of(b),
{
    lemma_register_differs(a, b, i);
    let (x, y) = (crc_register(a), crc_register(b));
    assert(x != y ==> !x != !y) by (bit_vector);
}

/// A payload behind its checksum.
pub open spec fn framed(payload: Seq<u8>) -> Seq<u8> {
    le_u32(crc_of(payload)) + payload
}

/// What a frame carries.
pub open spec fn unframed(b: Seq<u8>) -> Result<Seq<u8>, DecodeError> {
    if b.len() < 4 {
        Err(DecodeError::Truncated)
    } else if crc_of(b.skip(4)) != of_le_u32(b.take(4)) {
        Err(DecodeError::BadChecksum)
    } else {
        Ok(b.skip(4))
    }
}

/// Wrap a payload in a checksummed frame, so a corrupted message is detected
/// at the edge instead of being interpreted.
pub fn frame(payload: &[u8]) -> (r: Vec<u8>)
    ensures
        r@ == framed(payload@),
{
    let mut out: Vec<u8> = Vec::new();
    put_u32(&mut out, crc32(payload));
    out.extend_from_slice(payload);
    assert(out@ =~= framed(payload@));
    out
}

/// Check a frame and give what it carries.
pub fn unframe(bytes: &[u8]) -> (r: Result<&[u8], DecodeError>)
    ensures
        match r {
            Ok(p) => unframed(bytes@) == Ok::<Seq<u8>, DecodeError>(p@),
            Err(e) => unframed(bytes@) == Err::<Seq<u8>, DecodeError>(e),
        },
{
    if bytes.len() < 4 {
        return Err(DecodeError::Truncated);
    }
    let expect: u32 = get_u32(bytes, 0);
    assert(bytes@.subrange(0, 4) =~= bytes@.take(4));
    let payload = slice_subrange(bytes, 4, bytes.len());
    assert(payload@ =~= bytes@.skip(4));
    if crc32(payload) != expect {
        return Err(DecodeError::BadChecksum);
    }
    Ok(payload)
}

/// A frame gives back the payload it was made from.
pub proof fn law_frame_round_trip(payload: Seq<u8>)
    ensures
        unframed(framed(payload)) == Ok::<Seq<u8>, DecodeError>(payload),
{
    let b = framed(payload);
    assert(b.take(4) =~= le_u32(crc_of(payload)));
    assert(b.skip(4) =~= payload);
    law_le_u32_round_trip(crc_of(payload));
}

/// A frame with any one byte changed is refused for its checksum.
pub proof fn law_frame_detects_corruption(payload: Seq<u8>, i: int, v: u8)
    requires
        0 <= i < framed(payload).len(),
        v != framed(payload)[i],
    ensures
        unframed(framed(payload).update(i, v)) == Err::<Seq<u8>, DecodeError>(
            DecodeError::BadChecksum,
        ),
{
    let b = framed(payload);
    let c = b.update(i, v);
    law_frame_round_trip(payload);
    assert(b.take(4) =~= le_u32(crc_of(payload)));
    assert(b.skip(4) =~= payload);
    if i < 4 {
        assert(c.skip(4) =~= payload);
        assert(c.take(4)[i] != b.take(4)[i]);
        law_le_u32_onto(c.take(4));
        law_le_u32_onto(b.take(4));
    } else {
        assert(c.take(4) =~= b.take(4));
        law_crc_detects_one_byte(c.skip(4), payload, i - 4);
    }
}

} // verus!
