//! The replicated log, its on-disk format, and recovery.
//!
//! # On-disk format
//!
//! The log is a sequence of self-describing records:
//!
//! ```text
//! +----------+----------+---------------------+
//! | len: u32 | crc: u32 | payload: len bytes  |
//! +----------+----------+---------------------+
//! ```
//!
//! Recovery reads records until one does not check out and then stops,
//! reporting how many bytes were good. Everything after that point is
//! discarded and the file is truncated back. This is the only safe rule: a
//! crash can tear the tail of the file, and a record that survives *after* a
//! damaged one is not evidence that the damaged one ever completed.
//!
//! A lost write followed by a landed one leaves a zero-filled hole, which
//! presents as `len == 0` and stops recovery at exactly the right place. The
//! index of every record is also checked against the expected next index, so a
//! hole that happens to contain plausible bytes still cannot be spliced in.
//!
//! # Hard state
//!
//! The current term and the vote are updated in place rather than appended, so
//! a single fixed location would be destroyed by a torn write. They live in two
//! alternating 64-byte slots, each with its own sequence number and checksum;
//! recovery takes the valid slot with the highest sequence. A torn write can
//! therefore destroy at most the newer slot, and the older one is still a
//! consistent -- if slightly stale -- state.

use crate::bytes::{le_u32, le_u64, put_u32};
use crate::kvstore::codec::{
    at, bind, crc32, crc_of, enc_opt, enc_str, failed, fits, lemma_at_join, lemma_at_split,
    lemma_parse_opt, lemma_parse_str, lemma_parse_u32, lemma_parse_u64, lemma_parse_u8, lemma_read_opt,
    lemma_read_str, lemma_read_u32, lemma_read_u64, lemma_read_u8, parse_opt, parse_str, parse_u32,
    parse_u64, parse_u8, parsed, Dec, DecodeError, Enc, Parsed,
};
use crate::text::{copy_opt, opt_text, same_opt, same_str};
use vstd::prelude::*;

verus! {

/// Log indices are 1-based; 0 means "before the beginning".
pub const NO_INDEX: u64 = 0;

/// A record longer than this is corruption, not data.
pub const MAX_RECORD: usize = 1_048_576;

// ---- operations ----------------------------------------------------------

/// What a client can ask of the store.
#[derive(Debug, PartialEq, Eq)]
pub enum Op {
    /// Committed by a new leader to carry its term over the commit threshold.
    Noop,
    Get { key: String },
    Put { key: String, value: String },
    Delete { key: String },
    /// Compare-and-set: the operation that makes lost updates visible.
    Cas { key: String, expect: Option<String>, value: String },
}

/// An operation, its strings as sequences of characters.
pub enum OpView {
    Noop,
    Get { key: Seq<char> },
    Put { key: Seq<char>, value: Seq<char> },
    Delete { key: Seq<char> },
    Cas { key: Seq<char>, expect: Option<Seq<char>>, value: Seq<char> },
}

impl View for Op {
    type V = OpView;

    open spec fn view(&self) -> OpView {
        match self {
            Op::Noop => OpView::Noop,
            Op::Get { key } => OpView::Get { key: key@ },
            Op::Put { key, value } => OpView::Put { key: key@, value: value@ },
            Op::Delete { key } => OpView::Delete { key: key@ },
            Op::Cas { key, expect, value } => OpView::Cas {
                key: key@,
                expect: opt_text(*expect),
                value: value@,
            },
        }
    }
}

impl OpView {
    /// The key an operation is about.
    pub open spec fn key(self) -> Option<Seq<char>> {
        match self {
            OpView::Noop => None,
            OpView::Get { key } => Some(key),
            OpView::Put { key, .. } => Some(key),
            OpView::Delete { key } => Some(key),
            OpView::Cas { key, .. } => Some(key),
        }
    }

    /// The bytes of an operation: a tag, then its strings.
    pub open spec fn bytes(self) -> Seq<u8> {
        match self {
            OpView::Noop => seq![0u8],
            OpView::Get { key } => seq![1u8] + enc_str(key),
            OpView::Put { key, value } => seq![2u8] + enc_str(key) + enc_str(value),
            OpView::Delete { key } => seq![3u8] + enc_str(key),
            OpView::Cas { key, expect, value } => seq![4u8] + enc_str(key) + enc_opt(expect)
                + enc_str(value),
        }
    }

    /// Whether every string is short enough to be read back.
    pub open spec fn fits(self) -> bool {
        match self {
            OpView::Noop => true,
            OpView::Get { key } => fits(key),
            OpView::Put { key, value } => fits(key) && fits(value),
            OpView::Delete { key } => fits(key),
            OpView::Cas { key, expect, value } => fits(key) && (expect is Some ==> fits(
                expect->Some_0,
            )) && fits(value),
        }
    }
}

/// The next operation in a buffer.
#[verifier::opaque]
pub open spec fn parse_op(b: Seq<u8>, p: int) -> Parsed<OpView> {
    bind(
        parse_u8(b, p),
        |tag: u8, q: int|
            if tag == 0 {
                parsed(OpView::Noop, q)
            } else if tag == 1 {
                bind(parse_str(b, q), |key: Seq<char>, r: int| parsed(OpView::Get { key }, r))
            } else if tag == 2 {
                bind(
                    parse_str(b, q),
                    |key: Seq<char>, r: int|
                        bind(
                            parse_str(b, r),
                            |value: Seq<char>, s: int| parsed(OpView::Put { key, value }, s),
                        ),
                )
            } else if tag == 3 {
                bind(parse_str(b, q), |key: Seq<char>, r: int| parsed(OpView::Delete { key }, r))
            } else if tag == 4 {
                bind(
                    parse_str(b, q),
                    |key: Seq<char>, r: int|
                        bind(
                            parse_opt(b, r),
                            |expect: Option<Seq<char>>, s: int|
                                bind(
                                    parse_str(b, s),
                                    |value: Seq<char>, t: int|
                                        parsed(OpView::Cas { key, expect, value }, t),
                                ),
                        ),
                )
            } else {
                failed(DecodeError::BadTag(tag), q)
            },
    )
}

/// An operation is read back as it was written.
pub proof fn lemma_parse_op(b: Seq<u8>, p: int, v: OpView)
    requires
        at(b, p, v.bytes()),
        v.fits(),
    ensures
        parse_op(b, p) == parsed(v, p + v.bytes().len()),
{
    reveal(parse_op);
    match v {
        OpView::Noop => {
            lemma_parse_u8(b, p, 0);
        },
        OpView::Get { key } => {
            lemma_at_split(b, p, seq![1u8], enc_str(key));
            lemma_parse_u8(b, p, 1);
            lemma_parse_str(b, p + 1, key);
        },
        OpView::Put { key, value } => {
            lemma_at_split(b, p, seq![2u8] + enc_str(key), enc_str(value));
            lemma_at_split(b, p, seq![2u8], enc_str(key));
            lemma_parse_u8(b, p, 2);
            lemma_parse_str(b, p + 1, key);
            lemma_parse_str(b, p + 1 + enc_str(key).len(), value);
        },
        OpView::Delete { key } => {
            lemma_at_split(b, p, seq![3u8], enc_str(key));
            lemma_parse_u8(b, p, 3);
            lemma_parse_str(b, p + 1, key);
        },
        OpView::Cas { key, expect, value } => {
            let (e1, e2, e3) = (enc_str(key), enc_opt(expect), enc_str(value));
            lemma_at_split(b, p, seq![4u8] + e1 + e2, e3);
            lemma_at_split(b, p, seq![4u8] + e1, e2);
            lemma_at_split(b, p, seq![4u8], e1);
            lemma_parse_u8(b, p, 4);
            lemma_parse_str(b, p + 1, key);
            lemma_parse_opt(b, p + 1 + e1.len(), expect);
            lemma_parse_str(b, p + 1 + e1.len() + e2.len(), value);
        },
    }
}

/// The bytes of an operation that was read stand where it was read.
pub proof fn lemma_read_op(b: Seq<u8>, p: int)
    requires
        0 <= p,
        parse_op(b, p).out is Ok,
    ensures
        parse_op(b, p).pos == p + parse_op(b, p).out->Ok_0.bytes().len(),
        at(b, p, parse_op(b, p).out->Ok_0.bytes()),
        parse_op(b, p).out->Ok_0.fits(),
{
    reveal(parse_op);
    lemma_read_u8(b, p);
    let tag = parse_u8(b, p).out->Ok_0;
    if tag == 1 || tag == 3 {
        lemma_read_str(b, p + 1);
        lemma_at_join(b, p, seq![tag], enc_str(parse_str(b, p + 1).out->Ok_0));
    } else if tag == 2 {
        lemma_read_str(b, p + 1);
        let k = enc_str(parse_str(b, p + 1).out->Ok_0);
        let q = p + 1 + k.len();
        lemma_read_str(b, q);
        lemma_at_join(b, p, seq![2u8], k);
        lemma_at_join(b, p, seq![2u8] + k, enc_str(parse_str(b, q).out->Ok_0));
    } else if tag == 4 {
        lemma_read_str(b, p + 1);
        let k = enc_str(parse_str(b, p + 1).out->Ok_0);
        let q = p + 1 + k.len();
        lemma_read_opt(b, q);
        let x = enc_opt(parse_opt(b, q).out->Ok_0);
        let r = q + x.len();
        lemma_read_str(b, r);
        lemma_at_join(b, p, seq![4u8], k);
        lemma_at_join(b, p, seq![4u8] + k, x);
        lemma_at_join(b, p, seq![4u8] + k + x, enc_str(parse_str(b, r).out->Ok_0));
    }
}

impl Clone for Op {
    fn clone(&self) -> (r: Op)
        ensures
            r@ == self@,
    {
        match self {
            Op::Noop => Op::Noop,
            Op::Get { key } => Op::Get { key: key.clone() },
            Op::Put { key, value } => Op::Put { key: key.clone(), value: value.clone() },
            Op::Delete { key } => Op::Delete { key: key.clone() },
            Op::Cas { key, expect, value } => Op::Cas {
                key: key.clone(),
                expect: copy_opt(expect),
                value: value.clone(),
            },
        }
    }
}

impl Op {
    /// The key the operation is about; a no-op is about none.
    pub fn key(&self) -> (r: Option<&str>)
        ensures
            match r {
                Some(k) => self@.key() == Some(k@),
                None => self@.key() is None,
            },
    {
        match self {
            Op::Noop => None,
            Op::Get { key } => Some(key.as_str()),
            Op::Put { key, .. } => Some(key.as_str()),
            Op::Delete { key } => Some(key.as_str()),
            Op::Cas { key, .. } => Some(key.as_str()),
        }
    }

    pub fn is_read_only(&self) -> (r: bool)
        ensures
            r == (self@ is Get),
    {
        match self {
            Op::Get { .. } => true,
            _ => false,
        }
    }

    /// Whether two operations are the same.
    pub fn same(&self, other: &Op) -> (r: bool)
        ensures
            r == (self@ == other@),
    {
        match (self, other) {
            (Op::Noop, Op::Noop) => true,
            (Op::Get { key: a }, Op::Get { key: b }) => same_str(a.as_str(), b.as_str()),
            (Op::Put { key: a, value: v }, Op::Put { key: b, value: w }) => same_str(
                a.as_str(),
                b.as_str(),
            ) && same_str(v.as_str(), w.as_str()),
            (Op::Delete { key: a }, Op::Delete { key: b }) => same_str(a.as_str(), b.as_str()),
            (Op::Cas { key: a, expect: x, value: v }, Op::Cas { key: b, expect: y, value: w }) => {
                same_str(a.as_str(), b.as_str()) && same_opt(x, y) && same_str(
                    v.as_str(),
                    w.as_str(),
                )
            },
            _ => false,
        }
    }

    pub fn encode_into(&self, e: &mut Enc)
        ensures
            final(e)@ == old(e)@ + self@.bytes(),
    {
        match self {
            Op::Noop => {
                e.u8(0);
            },
            Op::Get { key } => {
                e.u8(1).str(key.as_str());
            },
            Op::Put { key, value } => {
                e.u8(2).str(key.as_str()).str(value.as_str());
            },
            Op::Delete { key } => {
                e.u8(3).str(key.as_str());
            },
            Op::Cas { key, expect, value } => {
                let want = match expect {
                    Some(s) => Some(s.as_str()),
                    None => None,
                };
                e.u8(4).str(key.as_str()).opt_str(want).str(value.as_str());
            },
        }
        assert(e@ =~= old(e)@ + self@.bytes());
    }

    pub fn decode_from(d: &mut Dec) -> (r: Result<Op, DecodeError>)
        requires
            old(d).wf(),
        ensures
            final(d).wf(),
            final(d).all() == old(d).all(),
            ({
                let p = parse_op(old(d).all(), old(d).at());
                &&& final(d).at() == p.pos
                &&& match r {
                    Ok(v) => p.out == Ok::<OpView, DecodeError>(v@),
                    Err(e) => p.out == Err::<OpView, DecodeError>(e),
                }
            }),
    {
        proof {
            reveal(parse_op);
        }
        let tag: u8 = match d.u8() {
            Ok(t) => t,
            Err(e) => return Err(e),
        };
        if tag == 0 {
            return Ok(Op::Noop);
        }
        if tag > 4 {
            return Err(DecodeError::BadTag(tag));
        }
        let key = match d.string() {
            Ok(s) => s,
            Err(e) => return Err(e),
        };
        if tag == 1 {
            return Ok(Op::Get { key });
        }
        if tag == 3 {
            return Ok(Op::Delete { key });
        }
        if tag == 2 {
            return match d.string() {
                Ok(value) => Ok(Op::Put { key, value }),
                Err(e) => Err(e),
            };
        }
        let expect = match d.opt_string() {
            Ok(s) => s,
            Err(e) => return Err(e),
        };
        match d.string() {
            Ok(value) => Ok(Op::Cas { key, expect, value }),
            Err(e) => Err(e),
        }
    }
}

/// A client operation together with the identity needed to make retries
/// idempotent.
#[derive(Debug, PartialEq, Eq)]
pub struct Command {
    pub client: u32,
    pub seq: u64,
    pub op: Op,
}

/// A command, its strings as sequences of characters.
pub struct CommandView {
    pub client: u32,
    pub seq: u64,
    pub op: OpView,
}

impl View for Command {
    type V = CommandView;

    open spec fn view(&self) -> CommandView {
        CommandView { client: self.client, seq: self.seq, op: self.op@ }
    }
}

impl CommandView {
    /// The command a new leader commits first.
    pub open spec fn noop() -> CommandView {
        CommandView { client: u32::MAX, seq: 0, op: OpView::Noop }
    }

    /// The bytes of a command.
    pub open spec fn bytes(self) -> Seq<u8> {
        le_u32(self.client) + le_u64(self.seq) + self.op.bytes()
    }
}

/// The next command in a buffer.
#[verifier::opaque]
pub open spec fn parse_command(b: Seq<u8>, p: int) -> Parsed<CommandView> {
    bind(
        parse_u32(b, p),
        |client: u32, q: int|
            bind(
                parse_u64(b, q),
                |seq: u64, r: int|
                    bind(
                        parse_op(b, r),
                        |op: OpView, s: int| parsed(CommandView { client, seq, op }, s),
                    ),
            ),
    )
}

/// A command is read back as it was written.
pub proof fn lemma_parse_command(b: Seq<u8>, p: int, v: CommandView)
    requires
        at(b, p, v.bytes()),
        v.op.fits(),
    ensures
        parse_command(b, p) == parsed(v, p + v.bytes().len()),
{
    reveal(parse_command);
    lemma_at_split(b, p, le_u32(v.client) + le_u64(v.seq), v.op.bytes());
    lemma_at_split(b, p, le_u32(v.client), le_u64(v.seq));
    lemma_parse_u32(b, p, v.client);
    lemma_parse_u64(b, p + 4, v.seq);
    lemma_parse_op(b, p + 12, v.op);
}

/// The bytes of a command that was read stand where it was read.
pub proof fn lemma_read_command(b: Seq<u8>, p: int)
    requires
        0 <= p,
        parse_command(b, p).out is Ok,
    ensures
        parse_command(b, p).pos == p + parse_command(b, p).out->Ok_0.bytes().len(),
        at(b, p, parse_command(b, p).out->Ok_0.bytes()),
        parse_command(b, p).out->Ok_0.op.fits(),
{
    reveal(parse_command);
    lemma_read_u32(b, p);
    lemma_read_u64(b, p + 4);
    lemma_read_op(b, p + 12);
    let v = parse_command(b, p).out->Ok_0;
    lemma_at_join(b, p, le_u32(v.client), le_u64(v.seq));
    lemma_at_join(b, p, le_u32(v.client) + le_u64(v.seq), v.op.bytes());
}

impl Clone for Command {
    fn clone(&self) -> (r: Command)
        ensures
            r@ == self@,
    {
        Command { client: self.client, seq: self.seq, op: self.op.clone() }
    }
}

impl Command {
    pub fn noop() -> (r: Command)
        ensures
            r@ == CommandView::noop(),
    {
        Command { client: u32::MAX, seq: 0, op: Op::Noop }
    }

    pub fn is_noop(&self) -> (r: bool)
        ensures
            r == (self@.op is Noop),
    {
        match self.op {
            Op::Noop => true,
            _ => false,
        }
    }

    /// Whether two commands are the same.
    pub fn same(&self, other: &Command) -> (r: bool)
        ensures
            r == (self@ == other@),
    {
        self.client == other.client && self.seq == other.seq && self.op.same(&other.op)
    }

    pub fn encode_into(&self, e: &mut Enc)
        ensures
            final(e)@ == old(e)@ + self@.bytes(),
    {
        e.u32(self.client).u64(self.seq);
        self.op.encode_into(e);
        assert(e@ =~= old(e)@ + self@.bytes());
    }

    pub fn decode_from(d: &mut Dec) -> (r: Result<Command, DecodeError>)
        requires
            old(d).wf(),
        ensures
            final(d).wf(),
            final(d).all() == old(d).all(),
            ({
                let p = parse_command(old(d).all(), old(d).at());
                &&& final(d).at() == p.pos
                &&& match r {
                    Ok(v) => p.out == Ok::<CommandView, DecodeError>(v@),
                    Err(e) => p.out == Err::<CommandView, DecodeError>(e),
                }
            }),
    {
        proof {
            reveal(parse_command);
        }
        let client: u32 = match d.u32() {
            Ok(v) => v,
            Err(e) => return Err(e),
        };
        let seq: u64 = match d.u64() {
            Ok(v) => v,
            Err(e) => return Err(e),
        };
        match Op::decode_from(d) {
            Ok(op) => Ok(Command { client, seq, op }),
            Err(e) => Err(e),
        }
    }
}

/// One slot of the replicated log.
#[derive(Debug, PartialEq, Eq)]
pub struct Entry {
    pub term: u64,
    pub index: u64,
    pub cmd: Command,
}

/// A log entry, its strings as sequences of characters.
pub struct EntryView {
    pub term: u64,
    pub index: u64,
    pub cmd: CommandView,
}

impl View for Entry {
    type V = EntryView;

    open spec fn view(&self) -> EntryView {
        EntryView { term: self.term, index: self.index, cmd: self.cmd@ }
    }
}

/// The views of a list of entries.
pub open spec fn entry_views(es: Seq<Entry>) -> Seq<EntryView> {
    es.map_values(|e: Entry| e@)
}

/// A payload behind its length and its checksum.
pub open spec fn sealed(payload: Seq<u8>) -> Seq<u8> {
    le_u32(payload.len() as u32) + le_u32(crc_of(payload)) + payload
}

impl EntryView {
    /// The bytes of an entry.
    pub open spec fn bytes(self) -> Seq<u8> {
        le_u64(self.term) + le_u64(self.index) + self.cmd.bytes()
    }

    /// The full on-disk record.
    pub open spec fn record(self) -> Seq<u8> {
        sealed(self.bytes())
    }

    /// Whether recovery can read the entry's record back.
    pub open spec fn storable(self) -> bool {
        self.cmd.op.fits() && self.bytes().len() <= MAX_RECORD
    }
}

/// The next entry in a buffer.
#[verifier::opaque]
pub open spec fn parse_entry(b: Seq<u8>, p: int) -> Parsed<EntryView> {
    bind(
        parse_u64(b, p),
        |term: u64, q: int|
            bind(
                parse_u64(b, q),
                |index: u64, r: int|
                    bind(
                        parse_command(b, r),
                        |cmd: CommandView, s: int| parsed(EntryView { term, index, cmd }, s),
                    ),
            ),
    )
}

/// An entry is read back as it was written.
pub proof fn lemma_parse_entry(b: Seq<u8>, p: int, v: EntryView)
    requires
        at(b, p, v.bytes()),
        v.cmd.op.fits(),
    ensures
        parse_entry(b, p) == parsed(v, p + v.bytes().len()),
{
    reveal(parse_entry);
    lemma_at_split(b, p, le_u64(v.term) + le_u64(v.index), v.cmd.bytes());
    lemma_at_split(b, p, le_u64(v.term), le_u64(v.index));
    lemma_parse_u64(b, p, v.term);
    lemma_parse_u64(b, p + 8, v.index);
    lemma_parse_command(b, p + 16, v.cmd);
}

/// The bytes of an entry that was read stand where it was read.
pub proof fn lemma_read_entry(b: Seq<u8>, p: int)
    requires
        0 <= p,
        parse_entry(b, p).out is Ok,
    ensures
        parse_entry(b, p).pos == p + parse_entry(b, p).out->Ok_0.bytes().len(),
        at(b, p, parse_entry(b, p).out->Ok_0.bytes()),
        parse_entry(b, p).out->Ok_0.cmd.op.fits(),
{
    reveal(parse_entry);
    lemma_read_u64(b, p);
    lemma_read_u64(b, p + 8);
    lemma_read_command(b, p + 16);
    let v = parse_entry(b, p).out->Ok_0;
    lemma_at_join(b, p, le_u64(v.term), le_u64(v.index));
    lemma_at_join(b, p, le_u64(v.term) + le_u64(v.index), v.cmd.bytes());
}

impl Clone for Entry {
    fn clone(&self) -> (r: Entry)
        ensures
            r@ == self@,
    {
        Entry { term: self.term, index: self.index, cmd: self.cmd.clone() }
    }
}

/// Put a payload behind its length and its checksum.
fn seal(payload: &[u8]) -> (r: Vec<u8>)
    ensures
        r@ == sealed(payload@),
{
    let mut out: Vec<u8> = Vec::new();
    put_u32(&mut out, payload.len() as u32);
    put_u32(&mut out, crc32(payload));
    out.extend_from_slice(payload);
    assert(out@ =~= sealed(payload@));
    out
}

impl Entry {
    /// Whether two entries are the same.
    pub fn same(&self, other: &Entry) -> (r: bool)
        ensures
            r == (self@ == other@),
    {
        self.term == other.term && self.index == other.index && self.cmd.same(&other.cmd)
    }

    pub fn encode_into(&self, e: &mut Enc)
        ensures
            final(e)@ == old(e)@ + self@.bytes(),
    {
        e.u64(self.term).u64(self.index);
        self.cmd.encode_into(e);
        assert(e@ =~= old(e)@ + self@.bytes());
    }

    pub fn decode_from(d: &mut Dec) -> (r: Result<Entry, DecodeError>)
        requires
            old(d).wf(),
        ensures
            final(d).wf(),
            final(d).all() == old(d).all(),
            ({
                let p = parse_entry(old(d).all(), old(d).at());
                &&& final(d).at() == p.pos
                &&& match r {
                    Ok(v) => p.out == Ok::<EntryView, DecodeError>(v@),
                    Err(e) => p.out == Err::<EntryView, DecodeError>(e),
                }
            }),
    {
        proof {
            reveal(parse_entry);
        }
        let term: u64 = match d.u64() {
            Ok(v) => v,
            Err(e) => return Err(e),
        };
        let index: u64 = match d.u64() {
            Ok(v) => v,
            Err(e) => return Err(e),
        };
        match Command::decode_from(d) {
            Ok(cmd) => Ok(Entry { term, index, cmd }),
            Err(e) => Err(e),
        }
    }

    /// The full on-disk record, header included.
    pub fn to_record(&self) -> (r: Vec<u8>)
        ensures
            r@ == self@.record(),
    {
        let mut payload = Enc::new();
        self.encode_into(&mut payload);
        assert(payload@ =~= self@.bytes());
        seal(payload.as_slice())
    }
}

/// A copy of `es[from..to]`.
pub fn copy_entries(es: &[Entry], from: usize, to: usize) -> (r: Vec<Entry>)
    requires
        from <= to <= es@.len(),
    ensures
        entry_views(r@) == entry_views(es@).subrange(from as int, to as int),
{
    let mut out: Vec<Entry> = Vec::new();
    let mut i: usize = from;
    while i < to
        invariant
            from <= i <= to <= es@.len(),
            out@.len() == i - from,
            forall|j: int| 0 <= j < out@.len() ==> (#[trigger] out@[j])@ == es@[from + j]@,
        decreases to - i,
    {
        out.push(es[i].clone());
        i += 1;
    }
    assert(entry_views(out@) =~= entry_views(es@).subrange(from as int, to as int));
    out
}

// ---- the in-memory log ---------------------------------------------------

/// The in-memory log. Index 1 is the first entry; index 0 is the fixed
/// "empty" position with term 0.
#[derive(Debug, Default, PartialEq, Eq)]
pub struct RaftLog {
    entries: Vec<Entry>,
    /// Byte offset of each entry's record within the log region. Maintained
    /// incrementally: recomputing it would re-encode the whole log on every
    /// append, which turns replication into quadratic work.
    offsets: Vec<usize>,
    end: usize,
    /// Last index covered by the snapshot; entries at or below it have been
    /// compacted away. Zero means nothing has been compacted.
    snapshot_index: u64,
    /// Term of the entry at `snapshot_index`, kept because log matching still
    /// has to answer questions about that one boundary index long after the
    /// entry itself is gone.
    snapshot_term: u64,
}

/// The log as a mathematical value.
#[verifier::ext_equal]
pub struct LogView {
    pub entries: Seq<EntryView>,
    pub offsets: Seq<usize>,
    pub end: usize,
    pub snapshot_index: u64,
    pub snapshot_term: u64,
}

impl View for RaftLog {
    type V = LogView;

    closed spec fn view(&self) -> LogView {
        LogView {
            entries: entry_views(self.entries@),
            offsets: self.offsets@,
            end: self.end,
            snapshot_index: self.snapshot_index,
            snapshot_term: self.snapshot_term,
        }
    }
}

/// Whether entries carry consecutive indices from `first` on, and terms that
/// never decrease.
pub open spec fn contiguous(es: Seq<EntryView>, first: int) -> bool {
    &&& forall|i: int| 0 <= i < es.len() ==> (#[trigger] es[i]).index == first + i
    &&& forall|i: int, j: int|
        0 <= i <= j < es.len() ==> (#[trigger] es[i]).term <= (#[trigger] es[j]).term
}

/// `a + b`, or the largest offset there is.
pub open spec fn capped(a: int) -> usize {
    if a > usize::MAX {
        usize::MAX
    } else {
        a as usize
    }
}

/// How many leading entries have a term of at most `term`.
pub open spec fn count_at_most(es: Seq<EntryView>, term: u64) -> nat
    decreases es.len(),
{
    if es.len() == 0 || es.last().term <= term {
        es.len()
    } else {
        count_at_most(es.drop_last(), term)
    }
}

impl LogView {
    /// A log holds consecutive entries from one past its snapshot, with terms
    /// that never decrease.
    pub open spec fn wf(self) -> bool {
        &&& self.snapshot_index < u64::MAX
        &&& self.offsets.len() == self.entries.len()
        &&& contiguous(self.entries, self.snapshot_index + 1)
    }

    /// The empty log.
    pub open spec fn empty() -> LogView {
        LogView::starting(0, 0)
    }

    /// A log with no entries behind a snapshot.
    pub open spec fn starting(index: u64, term: u64) -> LogView {
        LogView {
            entries: Seq::empty(),
            offsets: Seq::empty(),
            end: 0,
            snapshot_index: index,
            snapshot_term: term,
        }
    }

    /// Lowest index still held as an entry.
    pub open spec fn first_index(self) -> int {
        self.snapshot_index + 1
    }

    /// Highest index the log knows of.
    pub open spec fn last_index(self) -> u64 {
        if self.entries.len() == 0 {
            self.snapshot_index
        } else {
            self.entries.last().index
        }
    }

    pub open spec fn last_term(self) -> u64 {
        if self.entries.len() == 0 {
            self.snapshot_term
        } else {
            self.entries.last().term
        }
    }

    /// The entry at `index`, where the log still holds it.
    pub open spec fn get(self, index: u64) -> Option<EntryView> {
        if self.first_index() <= index <= self.last_index() {
            Some(self.entries[index - self.first_index()])
        } else {
            None
        }
    }

    /// The term at `index`, as far as the log can say.
    pub open spec fn term_at(self, index: u64) -> Option<u64> {
        if index == NO_INDEX {
            Some(0)
        } else if index == self.snapshot_index {
            Some(self.snapshot_term)
        } else {
            match self.get(index) {
                Some(e) => Some(e.term),
                None => None,
            }
        }
    }

    /// Whether the log holds an entry with this index and term.
    pub open spec fn matches(self, index: u64, term: u64) -> bool {
        self.term_at(index) == Some(term)
    }

    /// Whether `e` may come next.
    pub open spec fn accepts(self, e: EntryView) -> bool {
        e.index == self.last_index() + 1 && e.term >= self.last_term()
    }

    /// The log with `e` at its end.
    pub open spec fn append(self, e: EntryView) -> LogView {
        LogView {
            entries: self.entries.push(e),
            offsets: self.offsets.push(self.end),
            end: capped(self.end + e.record().len()),
            ..self
        }
    }

    /// The log with all of `es` at its end, in order.
    pub open spec fn append_all(self, es: Seq<EntryView>) -> LogView
        decreases es.len(),
    {
        if es.len() == 0 {
            self
        } else {
            self.append_all(es.drop_last()).append(es.last())
        }
    }

    /// The log without `index` and everything after it; the snapshot stays.
    pub open spec fn truncate_from(self, index: u64) -> LogView {
        if index > self.last_index() || self.entries.len() == 0 {
            self
        } else {
            let i = if index < self.first_index() {
                0
            } else {
                index - self.first_index()
            };
            LogView {
                entries: self.entries.take(i),
                offsets: self.offsets.take(i),
                end: self.offsets[i],
                ..self
            }
        }
    }

    /// The log without the entries up to `index`, which a snapshot covers.
    pub open spec fn compact_to(self, index: u64, term: u64) -> LogView {
        if index <= self.snapshot_index || index > self.last_index() {
            self
        } else {
            let n = index - self.snapshot_index;
            LogView {
                entries: self.entries.skip(n),
                offsets: self.offsets.skip(n),
                snapshot_index: index,
                snapshot_term: term,
                ..self
            }
        }
    }

    /// Up to `max` entries from `index` on.
    pub open spec fn slice_from(self, index: u64, max: nat) -> Seq<EntryView> {
        if self.first_index() <= index <= self.last_index() {
            let start = index - self.first_index();
            let end = if start + max < self.entries.len() {
                start + max
            } else {
                self.entries.len() as int
            };
            self.entries.subrange(start, end)
        } else {
            Seq::empty()
        }
    }

    /// Whether a log ending at this index and term is at least as recent.
    pub open spec fn is_up_to_date(self, index: u64, term: u64) -> bool {
        term > self.last_term() || (term == self.last_term() && index >= self.last_index())
    }

    /// Highest index whose entry was created in `term` or earlier.
    pub open spec fn last_index_with_term_at_most(self, term: u64) -> u64 {
        (self.snapshot_index + count_at_most(self.entries, term)) as u64
    }

    /// Where the record for `index` begins; past the end, where the log ends.
    pub open spec fn byte_offset_of(self, index: u64) -> usize {
        if index < self.first_index() {
            0
        } else if index - self.first_index() < self.offsets.len() {
            self.offsets[index - self.first_index()]
        } else {
            self.end
        }
    }
}

/// The last index of a well-formed log counts its entries.
pub proof fn lemma_last_index(l: LogView)
    requires
        l.wf(),
    ensures
        l.last_index() == l.snapshot_index + l.entries.len(),
{
}

/// Appending an accepted entry keeps a log well formed.
pub proof fn law_append_keeps_wf(l: LogView, e: EntryView)
    requires
        l.wf(),
        l.accepts(e),
        l.entries.len() == 0 || e.term >= l.entries.last().term,
    ensures
        l.append(e).wf(),
        l.append(e).last_index() == e.index,
        l.append(e).last_term() == e.term,
{
    let m = l.append(e);
    lemma_last_index(l);
    assert forall|i: int, j: int| 0 <= i <= j < m.entries.len() implies (
    #[trigger] m.entries[i]).term <= (#[trigger] m.entries[j]).term by {
        if j == l.entries.len() && i < j {
            assert(l.entries[i].term <= l.entries.last().term);
        }
    }
}

/// Truncation keeps a log well formed and leaves exactly the entries below the
/// cut.
pub proof fn law_truncate(l: LogView, index: u64)
    requires
        l.wf(),
        index >= l.first_index(),
    ensures
        l.truncate_from(index).wf(),
        forall|k: u64| #[trigger]
            l.truncate_from(index).get(k) == if k < index {
                l.get(k)
            } else {
                None
            },
{
    let m = l.truncate_from(index);
    lemma_last_index(l);
    assert(m.wf());
    lemma_last_index(m);
}

/// Truncation keeps a log well formed wherever it cuts.
pub proof fn lemma_truncate_wf(l: LogView, index: u64)
    requires
        l.wf(),
    ensures
        l.truncate_from(index).wf(),
        l.truncate_from(index).snapshot_index == l.snapshot_index,
        l.truncate_from(index).snapshot_term == l.snapshot_term,
{
    lemma_last_index(l);
}

/// Compaction keeps a log well formed and every entry above the snapshot, with
/// its byte offset, as it was.
pub proof fn law_compact(l: LogView, index: u64, term: u64)
    requires
        l.wf(),
        index < u64::MAX,
    ensures
        l.compact_to(index, term).wf(),
        l.compact_to(index, term).last_index() == l.last_index(),
        forall|k: u64|
            k >= l.compact_to(index, term).first_index() ==> #[trigger] l.compact_to(index, term).get(k)
                == l.get(k) && l.compact_to(index, term).byte_offset_of(k) == l.byte_offset_of(k),
{
    let m = l.compact_to(index, term);
    lemma_last_index(l);
    if m != l {
        let n = index - l.snapshot_index;
        assert forall|i: int| 0 <= i < m.entries.len() implies (#[trigger] m.entries[i]).index
            == m.snapshot_index + 1 + i by {
            assert(m.entries[i] == l.entries[i + n]);
        }
        assert forall|i: int, j: int| 0 <= i <= j < m.entries.len() implies (
        #[trigger] m.entries[i]).term <= (#[trigger] m.entries[j]).term by {
            assert(m.entries[i] == l.entries[i + n] && m.entries[j] == l.entries[j + n]);
        }
        lemma_last_index(m);
    }
}

proof fn lemma_count_at_most(es: Seq<EntryView>, term: u64)
    ensures
        count_at_most(es, term) <= es.len(),
        count_at_most(es, term) > 0 ==> es[count_at_most(es, term) - 1].term <= term,
        forall|i: int| count_at_most(es, term) <= i < es.len() ==> (#[trigger] es[i]).term > term,
    decreases es.len(),
{
    if es.len() > 0 && es.last().term > term {
        lemma_count_at_most(es.drop_last(), term);
        assert forall|i: int| count_at_most(es, term) <= i < es.len() implies (
        #[trigger] es[i]).term > term by {
            if i < es.len() - 1 {
                assert(es.drop_last()[i] == es[i]);
            }
        }
    }
}

impl Clone for RaftLog {
    fn clone(&self) -> (r: RaftLog)
        ensures
            r@ == self@,
    {
        let mut offsets: Vec<usize> = Vec::new();
        offsets.extend_from_slice(self.offsets.as_slice());
        let entries = copy_entries(self.entries.as_slice(), 0, self.entries.len());
        assert(entry_views(self.entries@).subrange(0, self.entries@.len() as int) =~= entry_views(
            self.entries@,
        ));
        assert(offsets@ =~= self.offsets@);
        RaftLog {
            entries,
            offsets,
            end: self.end,
            snapshot_index: self.snapshot_index,
            snapshot_term: self.snapshot_term,
        }
    }
}

impl RaftLog {
    pub fn new() -> (r: RaftLog)
        ensures
            r@ == LogView::empty(),
            r@.wf(),
    {
        let r = RaftLog {
            entries: Vec::new(),
            offsets: Vec::new(),
            end: 0,
            snapshot_index: 0,
            snapshot_term: 0,
        };
        assert(r@ =~= LogView::empty());
        r
    }

    pub fn from_entries(entries: Vec<Entry>) -> (r: RaftLog)
        requires
            contiguous(entry_views(entries@), 1),
        ensures
            r@.wf(),
            r@ == LogView::empty().append_all(entry_views(entries@)),
            r@.entries == entry_views(entries@),
    {
        RaftLog::from_snapshot(0, 0, entries)
    }

    /// Build a log that begins after a snapshot at `(index, term)`, laid out
    /// from the start of the log region.
    pub fn from_snapshot(index: u64, term: u64, entries: Vec<Entry>) -> (r: RaftLog)
        requires
            index < u64::MAX,
            contiguous(entry_views(entries@), index + 1),
            entries@.len() > 0 ==> entries@[0].term >= term,
        ensures
            r@.wf(),
            r@ == LogView::starting(index, term).append_all(entry_views(entries@)),
            r@.entries == entry_views(entries@),
    {
        let mut log = RaftLog {
            entries: Vec::new(),
            offsets: Vec::new(),
            end: 0,
            snapshot_index: index,
            snapshot_term: term,
        };
        let ghost all = entry_views(entries@);
        assert(log@ =~= LogView::starting(index, term));
        let mut i: usize = 0;
        while i < entries.len()
            invariant
                i <= entries@.len(),
                all == entry_views(entries@),
                index < u64::MAX,
                contiguous(all, index + 1),
                entries@.len() > 0 ==> entries@[0].term >= term,
                log@.wf(),
                log@ == LogView::starting(index, term).append_all(all.take(i as int)),
                log@.entries == all.take(i as int),
                log@.snapshot_index == index,
                log@.snapshot_term == term,
            decreases entries@.len() - i,
        {
            proof {
                lemma_last_index(log@);
                assert(all[i as int] == entries@[i as int]@);
                if i > 0 {
                    assert(log@.entries.last() == all[i - 1]);
                    assert(all[i - 1].term <= all[i as int].term);
                }
                let next = all.take(i + 1);
                assert(next.drop_last() =~= all.take(i as int));
                assert(next.last() == all[i as int]);
            }
            log.append(entries[i].clone());
            i += 1;
            assert(log@.entries =~= all.take(i as int));
        }
        assert(all.take(i as int) =~= all);
        log
    }

    /// Last index the snapshot covers. Entries at or below it are gone.
    pub fn snapshot_index(&self) -> (r: u64)
        ensures
            r == self@.snapshot_index,
    {
        self.snapshot_index
    }

    pub fn snapshot_term(&self) -> (r: u64)
        ensures
            r == self@.snapshot_term,
    {
        self.snapshot_term
    }

    /// Lowest index still held as an entry.
    pub fn first_index(&self) -> (r: u64)
        requires
            self@.wf(),
        ensures
            r == self@.first_index(),
    {
        self.snapshot_index + 1
    }

    /// Discard every entry up to and including `index`, which the snapshot now
    /// covers. The caller must have made that snapshot durable first.
    pub fn compact_to(&mut self, index: u64, term: u64)
        requires
            old(self)@.wf(),
            index < u64::MAX,
        ensures
            final(self)@ == old(self)@.compact_to(index, term),
            final(self)@.wf(),
    {
        proof {
            lemma_last_index(self@);
            law_compact(self@, index, term);
        }
        if index <= self.snapshot_index || index > self.last_index() {
            return;
        }
        assert(index - self@.snapshot_index <= self.entries.len());
        let drop_count: usize = (index - self.snapshot_index) as usize;
        let kept = self.entries.split_off(drop_count);
        let kept_offsets = self.offsets.split_off(drop_count);
        self.entries = kept;
        self.offsets = kept_offsets;
        self.snapshot_index = index;
        self.snapshot_term = term;
        assert(self@ =~= old(self)@.compact_to(index, term));
    }

    /// Rebuild a log from a recovered file: entries, their byte offsets within
    /// the log region, and where the valid region ends.
    pub fn from_parts(
        snapshot_index: u64,
        snapshot_term: u64,
        entries: Vec<Entry>,
        offsets: Vec<usize>,
        end: usize,
    ) -> (r: RaftLog)
        requires
            snapshot_index < u64::MAX,
            entries@.len() == offsets@.len(),
            contiguous(entry_views(entries@), snapshot_index + 1),
        ensures
            r@ == (LogView {
                entries: entry_views(entries@),
                offsets: offsets@,
                end,
                snapshot_index,
                snapshot_term,
            }),
            r@.wf(),
    {
        RaftLog { entries, offsets, end, snapshot_index, snapshot_term }
    }

    pub fn is_empty(&self) -> (r: bool)
        ensures
            r == (self@.entries.len() == 0),
    {
        self.entries.is_empty()
    }

    pub fn len(&self) -> (r: usize)
        ensures
            r == self@.entries.len(),
    {
        self.entries.len()
    }

    pub fn last_index(&self) -> (r: u64)
        ensures
            r == self@.last_index(),
    {
        let n: usize = self.entries.len();
        if n == 0 {
            self.snapshot_index
        } else {
            self.entries[n - 1].index
        }
    }

    pub fn last_term(&self) -> (r: u64)
        ensures
            r == self@.last_term(),
    {
        let n: usize = self.entries.len();
        if n == 0 {
            self.snapshot_term
        } else {
            self.entries[n - 1].term
        }
    }

    pub fn get(&self, index: u64) -> (r: Option<&Entry>)
        requires
            self@.wf(),
        ensures
            match r {
                Some(e) => self@.get(index) == Some(e@),
                None => self@.get(index) is None,
            },
    {
        proof {
            lemma_last_index(self@);
        }
        if index < self.first_index() || index > self.last_index() {
            return None;
        }
        assert(index - self@.first_index() < self.entries.len());
        Some(&self.entries[(index - self.first_index()) as usize])
    }

    /// Term of the entry at `index`, or `None` if the log cannot say.
    ///
    /// Index 0 is term 0 by definition, and the snapshot boundary keeps its
    /// term after the entry is compacted away. Anything below that boundary is
    /// genuinely unknown, which is not the same as absent: callers must not
    /// read `None` as a mismatch.
    pub fn term_at(&self, index: u64) -> (r: Option<u64>)
        requires
            self@.wf(),
        ensures
            r == self@.term_at(index),
    {
        if index == NO_INDEX {
            return Some(0);
        }
        if index == self.snapshot_index {
            return Some(self.snapshot_term);
        }
        match self.get(index) {
            Some(e) => Some(e.term),
            None => None,
        }
    }

    /// Raft's log matching check: do I have this entry, with this term?
    pub fn matches(&self, index: u64, term: u64) -> (r: bool)
        requires
            self@.wf(),
        ensures
            r == self@.matches(index, term),
    {
        match self.term_at(index) {
            Some(t) => t == term,
            None => false,
        }
    }

    /// Add an entry at the end. Entries are contiguous and terms never
    /// decrease.
    pub fn append(&mut self, entry: Entry)
        requires
            old(self)@.wf(),
            old(self)@.accepts(entry@),
        ensures
            final(self)@ == old(self)@.append(entry@),
            final(self)@.wf(),
    {
        proof {
            law_append_keeps_wf(self@, entry@);
        }
        let len: usize = entry.to_record().len();
        self.offsets.push(self.end);
        self.end = if len > usize::MAX - self.end {
            usize::MAX
        } else {
            self.end + len
        };
        self.entries.push(entry);
        assert(self@ =~= old(self)@.append(entry@));
    }

    /// Discard `index` and everything after it. Never cuts into the snapshot.
    pub fn truncate_from(&mut self, index: u64)
        requires
            old(self)@.wf(),
        ensures
            final(self)@ == old(self)@.truncate_from(index),
            final(self)@.wf(),
    {
        proof {
            lemma_last_index(self@);
            lemma_truncate_wf(self@, index);
        }
        let first: u64 = self.first_index();
        let from: u64 = if index < first {
            first
        } else {
            index
        };
        if from <= self.last_index() {
            let i: usize = (from - first) as usize;
            self.end = self.offsets[i];
            self.entries.truncate(i);
            self.offsets.truncate(i);
        }
        assert(self@ =~= old(self)@.truncate_from(index));
    }

    /// Up to `max` entries starting at `index`.
    pub fn slice_from(&self, index: u64, max: usize) -> (r: Vec<Entry>)
        requires
            self@.wf(),
        ensures
            entry_views(r@) == self@.slice_from(index, max as nat),
    {
        proof {
            lemma_last_index(self@);
        }
        if index < self.first_index() || index > self.last_index() {
            let none: Vec<Entry> = Vec::new();
            assert(entry_views(none@) =~= Seq::empty());
            return none;
        }
        let start: usize = (index - self.first_index()) as usize;
        let end: usize = if max < self.entries.len() - start {
            start + max
        } else {
            self.entries.len()
        };
        copy_entries(self.entries.as_slice(), start, end)
    }

    pub fn entries(&self) -> (r: &[Entry])
        ensures
            entry_views(r@) == self@.entries,
    {
        self.entries.as_slice()
    }

    /// The election restriction: is a candidate with this last entry at least
    /// as up to date as this log? A candidate that fails this must not win, or
    /// committed entries could be lost.
    pub fn is_up_to_date(&self, cand_last_index: u64, cand_last_term: u64) -> (r: bool)
        ensures
            r == self@.is_up_to_date(cand_last_index, cand_last_term),
    {
        let my_index: u64 = self.last_index();
        let my_term: u64 = self.last_term();
        cand_last_term > my_term || (cand_last_term == my_term && cand_last_index >= my_index)
    }

    /// Highest index whose entry was created in term `term` or earlier.
    ///
    /// Terms along a log never decrease, so this is a partition point.
    pub fn last_index_with_term_at_most(&self, term: u64) -> (r: u64)
        requires
            self@.wf(),
        ensures
            r == self@.last_index_with_term_at_most(term),
    {
        let mut lo: usize = 0;
        let mut hi: usize = self.entries.len();
        while lo < hi
            invariant
                lo <= hi <= self.entries@.len(),
                self@.wf(),
                lo > 0 ==> self.entries@[lo - 1].term <= term,
                hi < self.entries@.len() ==> self.entries@[hi as int].term > term,
            decreases hi - lo,
        {
            let mid: usize = lo + (hi - lo) / 2;
            if self.entries[mid].term <= term {
                lo = mid + 1;
            } else {
                hi = mid;
            }
        }
        proof {
            let es = self@.entries;
            lemma_count_at_most(es, term);
            let c = count_at_most(es, term) as int;
            if c < lo {
                assert(es[c].term <= es[lo - 1].term);
            }
            if c > lo {
                assert(es[lo as int].term <= es[c - 1].term);
            }
            lemma_last_index(self@);
        }
        self.snapshot_index + lo as u64
    }

    /// Total bytes this log occupies on disk, for keeping the file length and
    /// the in-memory log in step.
    pub fn byte_len(&self) -> (r: usize)
        ensures
            r == self@.end,
    {
        self.end
    }

    /// Byte offset at which the record for `index` begins. `last_index() + 1`
    /// gives the end of the log, which is where the next record goes.
    pub fn byte_offset_of(&self, index: u64) -> (r: usize)
        requires
            self@.wf(),
        ensures
            r == self@.byte_offset_of(index),
    {
        if index < self.first_index() {
            return 0;
        }
        let i: u64 = index - self.first_index();
        if i < self.offsets.len() as u64 {
            self.offsets[i as usize]
        } else {
            self.end
        }
    }
}

} // verus!
