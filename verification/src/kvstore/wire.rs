//! Everything that travels on the wire.

use crate::bytes::{le_u32, le_u64};
use crate::kvstore::codec::{
    at, bind, failed, frame, framed, law_frame_detects_corruption, law_frame_round_trip, lemma_at_split,
    lemma_parse_u32, lemma_parse_u64, lemma_parse_u8, parse_u32, parse_u64, parse_u8, parsed, unframe,
    unframed, Dec, DecodeError, Enc, Parsed,
};
use crate::kvstore::log::{copy_entries, entry_views, lemma_parse_entry, parse_entry, Entry, EntryView};
use crate::kvstore::machine::{lemma_parse_client, parse_client, ClientMsg, ClientMsgView};
use crate::simcore::NodeId;
use vstd::prelude::*;

verus! {

/// More entries than this in one message is corruption, not replication.
pub const MAX_ENTRIES: u32 = 4_096;

/// What Raft nodes say to each other.
#[derive(Debug, PartialEq, Eq)]
pub enum RaftMsg {
    RequestVote { term: u64, candidate: NodeId, last_index: u64, last_term: u64 },
    RequestVoteResp { term: u64, granted: bool },
    AppendEntries {
        term: u64,
        leader: NodeId,
        prev_index: u64,
        prev_term: u64,
        entries: Vec<Entry>,
        leader_commit: u64,
    },
    AppendEntriesResp {
        term: u64,
        success: bool,
        /// Highest log index this node has made *durable* and knows to agree
        /// with the leader.
        match_index: u64,
        /// Where the leader should back up to on failure.
        conflict_index: u64,
    },
}

/// A Raft message, as a mathematical value.
pub enum RaftMsgView {
    RequestVote { term: u64, candidate: NodeId, last_index: u64, last_term: u64 },
    RequestVoteResp { term: u64, granted: bool },
    AppendEntries {
        term: u64,
        leader: NodeId,
        prev_index: u64,
        prev_term: u64,
        entries: Seq<EntryView>,
        leader_commit: u64,
    },
    AppendEntriesResp { term: u64, success: bool, match_index: u64, conflict_index: u64 },
}

impl View for RaftMsg {
    type V = RaftMsgView;

    open spec fn view(&self) -> RaftMsgView {
        match self {
            RaftMsg::RequestVote { term, candidate, last_index, last_term } => {
                RaftMsgView::RequestVote {
                    term: *term,
                    candidate: *candidate,
                    last_index: *last_index,
                    last_term: *last_term,
                }
            },
            RaftMsg::RequestVoteResp { term, granted } => RaftMsgView::RequestVoteResp {
                term: *term,
                granted: *granted,
            },
            RaftMsg::AppendEntries {
                term,
                leader,
                prev_index,
                prev_term,
                entries,
                leader_commit,
            } => RaftMsgView::AppendEntries {
                term: *term,
                leader: *leader,
                prev_index: *prev_index,
                prev_term: *prev_term,
                entries: entry_views(entries@),
                leader_commit: *leader_commit,
            },
            RaftMsg::AppendEntriesResp { term, success, match_index, conflict_index } => {
                RaftMsgView::AppendEntriesResp {
                    term: *term,
                    success: *success,
                    match_index: *match_index,
                    conflict_index: *conflict_index,
                }
            },
        }
    }
}

impl Clone for RaftMsg {
    fn clone(&self) -> (r: RaftMsg)
        ensures
            r@ == self@,
    {
        match self {
            RaftMsg::RequestVote { term, candidate, last_index, last_term } => {
                RaftMsg::RequestVote {
                    term: *term,
                    candidate: *candidate,
                    last_index: *last_index,
                    last_term: *last_term,
                }
            },
            RaftMsg::RequestVoteResp { term, granted } => RaftMsg::RequestVoteResp {
                term: *term,
                granted: *granted,
            },
            RaftMsg::AppendEntries {
                term,
                leader,
                prev_index,
                prev_term,
                entries,
                leader_commit,
            } => {
                let copy = copy_entries(entries.as_slice(), 0, entries.len());
                assert(entry_views(copy@) =~= entry_views(entries@));
                RaftMsg::AppendEntries {
                    term: *term,
                    leader: *leader,
                    prev_index: *prev_index,
                    prev_term: *prev_term,
                    entries: copy,
                    leader_commit: *leader_commit,
                }
            },
            RaftMsg::AppendEntriesResp { term, success, match_index, conflict_index } => {
                RaftMsg::AppendEntriesResp {
                    term: *term,
                    success: *success,
                    match_index: *match_index,
                    conflict_index: *conflict_index,
                }
            },
        }
    }
}

/// A truth value as a byte.
pub open spec fn flag(b: bool) -> u8 {
    if b {
        1
    } else {
        0
    }
}

/// The bytes of a list of entries.
pub open spec fn entries_bytes(es: Seq<EntryView>) -> Seq<u8>
    decreases es.len(),
{
    if es.len() == 0 {
        Seq::empty()
    } else {
        entries_bytes(es.drop_last()) + es.last().bytes()
    }
}

/// The next `n` entries in a buffer, after those already read.
pub open spec fn parse_entries(b: Seq<u8>, p: int, n: nat, got: Seq<EntryView>) -> Parsed<
    Seq<EntryView>,
>
    decreases n,
{
    if n == 0 {
        parsed(got, p)
    } else {
        let e = parse_entry(b, p);
        match e.out {
            Ok(v) => parse_entries(b, e.pos, (n - 1) as nat, got.push(v)),
            Err(x) => failed(x, e.pos),
        }
    }
}

proof fn lemma_entries_at(b: Seq<u8>, p: int, es: Seq<EntryView>, k: int)
    requires
        at(b, p, entries_bytes(es)),
        0 <= k < es.len(),
    ensures
        at(b, p + entries_bytes(es.take(k)).len(), es[k].bytes()),
        entries_bytes(es.take(k + 1)).len() == entries_bytes(es.take(k)).len()
            + es[k].bytes().len(),
    decreases es.len(),
{
    let d = es.drop_last();
    lemma_at_split(b, p, entries_bytes(d), es.last().bytes());
    let t = es.take(k + 1);
    assert(t.drop_last() =~= es.take(k));
    assert(t.last() == es[k]);
    if k == es.len() - 1 {
        assert(es.take(k) =~= d);
    } else {
        lemma_entries_at(b, p, d, k);
        assert(d.take(k) =~= es.take(k));
    }
}

proof fn lemma_parse_entries(b: Seq<u8>, p: int, es: Seq<EntryView>, k: int)
    requires
        at(b, p, entries_bytes(es)),
        0 <= k <= es.len(),
        forall|i: int| 0 <= i < es.len() ==> (#[trigger] es[i]).cmd.op.fits(),
    ensures
        parse_entries(
            b,
            p + entries_bytes(es.take(k)).len(),
            (es.len() - k) as nat,
            es.take(k),
        ) == parsed(es, p + entries_bytes(es).len()),
    decreases es.len() - k,
{
    if k == es.len() {
        assert(es.take(k) =~= es);
    } else {
        lemma_entries_at(b, p, es, k);
        lemma_parse_entry(b, p + entries_bytes(es.take(k)).len(), es[k]);
        assert(es.take(k).push(es[k]) =~= es.take(k + 1));
        lemma_parse_entries(b, p, es, k + 1);
    }
}

impl RaftMsgView {
    pub open spec fn term(self) -> u64 {
        match self {
            RaftMsgView::RequestVote { term, .. } => term,
            RaftMsgView::RequestVoteResp { term, .. } => term,
            RaftMsgView::AppendEntries { term, .. } => term,
            RaftMsgView::AppendEntriesResp { term, .. } => term,
        }
    }

    /// The bytes of a Raft message.
    pub open spec fn bytes(self) -> Seq<u8> {
        match self {
            RaftMsgView::RequestVote { term, candidate, last_index, last_term } => seq![1u8]
                + le_u64(term) + le_u32(candidate.0) + le_u64(last_index) + le_u64(last_term),
            RaftMsgView::RequestVoteResp { term, granted } => seq![2u8] + le_u64(term)
                + seq![flag(granted)],
            RaftMsgView::AppendEntries {
                term,
                leader,
                prev_index,
                prev_term,
                entries,
                leader_commit,
            } => seq![3u8] + le_u64(term) + le_u32(leader.0) + le_u64(prev_index)
                + le_u64(prev_term) + le_u64(leader_commit) + le_u32(entries.len() as u32)
                + entries_bytes(entries),
            RaftMsgView::AppendEntriesResp { term, success, match_index, conflict_index } => {
                seq![4u8] + le_u64(term) + seq![flag(success)] + le_u64(match_index)
                    + le_u64(conflict_index)
            },
        }
    }

    /// Whether the message can be read back.
    pub open spec fn fits(self) -> bool {
        match self {
            RaftMsgView::AppendEntries { entries, .. } => entries.len() <= MAX_ENTRIES && forall|
                i: int,
            |
                0 <= i < entries.len() ==> (#[trigger] entries[i]).cmd.op.fits(),
            _ => true,
        }
    }
}

/// The rest of a vote request.
pub open spec fn parse_request_vote(b: Seq<u8>, p: int) -> Parsed<RaftMsgView> {
    bind(
        parse_u64(b, p),
        |term: u64, q: int|
            bind(
                parse_u32(b, q),
                |candidate: u32, r: int|
                    bind(
                        parse_u64(b, r),
                        |last_index: u64, s: int|
                            bind(
                                parse_u64(b, s),
                                |last_term: u64, t: int|
                                    parsed(
                                        RaftMsgView::RequestVote {
                                            term,
                                            candidate: NodeId(candidate),
                                            last_index,
                                            last_term,
                                        },
                                        t,
                                    ),
                            ),
                    ),
            ),
    )
}

/// The rest of a vote response.
pub open spec fn parse_vote_resp(b: Seq<u8>, p: int) -> Parsed<RaftMsgView> {
    bind(
        parse_u64(b, p),
        |term: u64, q: int|
            bind(
                parse_u8(b, q),
                |g: u8, r: int| parsed(RaftMsgView::RequestVoteResp { term, granted: g != 0 }, r),
            ),
    )
}

/// The rest of an append.
pub open spec fn parse_append(b: Seq<u8>, p: int) -> Parsed<RaftMsgView> {
    bind(
        parse_u64(b, p),
        |term: u64, q: int|
            bind(
                parse_u32(b, q),
                |leader: u32, r: int|
                    bind(
                        parse_u64(b, r),
                        |prev_index: u64, s: int|
                            bind(
                                parse_u64(b, s),
                                |prev_term: u64, t: int|
                                    bind(
                                        parse_u64(b, t),
                                        |leader_commit: u64, u: int|
                                            bind(
                                                parse_u32(b, u),
                                                |count: u32, v: int|
                                                    if count > MAX_ENTRIES {
                                                        failed(DecodeError::TooLong, v)
                                                    } else {
                                                        bind(
                                                            parse_entries(
                                                                b,
                                                                v,
                                                                count as nat,
                                                                Seq::empty(),
                                                            ),
                                                            |entries: Seq<EntryView>, w: int|
                                                                parsed(
                                                                    RaftMsgView::AppendEntries {
                                                                        term,
                                                                        leader: NodeId(leader),
                                                                        prev_index,
                                                                        prev_term,
                                                                        entries,
                                                                        leader_commit,
                                                                    },
                                                                    w,
                                                                ),
                                                        )
                                                    },
                                            ),
                                    ),
                            ),
                    ),
            ),
    )
}

/// The rest of an append response.
pub open spec fn parse_append_resp(b: Seq<u8>, p: int) -> Parsed<RaftMsgView> {
    bind(
        parse_u64(b, p),
        |term: u64, q: int|
            bind(
                parse_u8(b, q),
                |ok: u8, r: int|
                    bind(
                        parse_u64(b, r),
                        |match_index: u64, s: int|
                            bind(
                                parse_u64(b, s),
                                |conflict_index: u64, t: int|
                                    parsed(
                                        RaftMsgView::AppendEntriesResp {
                                            term,
                                            success: ok != 0,
                                            match_index,
                                            conflict_index,
                                        },
                                        t,
                                    ),
                            ),
                    ),
            ),
    )
}

/// The next Raft message in a buffer.
#[verifier::opaque]
pub open spec fn parse_raft(b: Seq<u8>, p: int) -> Parsed<RaftMsgView> {
    bind(
        parse_u8(b, p),
        |tag: u8, q: int|
            if tag == 1 {
                parse_request_vote(b, q)
            } else if tag == 2 {
                parse_vote_resp(b, q)
            } else if tag == 3 {
                parse_append(b, q)
            } else if tag == 4 {
                parse_append_resp(b, q)
            } else {
                failed(DecodeError::BadTag(tag), q)
            },
    )
}

/// A Raft message is read back as it was written.
#[verifier::spinoff_prover]
#[verifier::rlimit(40)]
pub proof fn lemma_parse_raft(b: Seq<u8>, p: int, v: RaftMsgView)
    requires
        at(b, p, v.bytes()),
        v.fits(),
    ensures
        parse_raft(b, p) == parsed(v, p + v.bytes().len()),
{
    reveal(parse_raft);
    match v {
        RaftMsgView::RequestVote { term, candidate, last_index, last_term } => {
            let (e1, e2, e3, e4, e5) = (
                seq![1u8],
                le_u64(term),
                le_u32(candidate.0),
                le_u64(last_index),
                le_u64(last_term),
            );
            lemma_at_split(b, p, e1 + e2 + e3 + e4, e5);
            lemma_at_split(b, p, e1 + e2 + e3, e4);
            lemma_at_split(b, p, e1 + e2, e3);
            lemma_at_split(b, p, e1, e2);
            lemma_parse_u8(b, p, 1);
            lemma_parse_u64(b, p + 1, term);
            lemma_parse_u32(b, p + 9, candidate.0);
            lemma_parse_u64(b, p + 13, last_index);
            lemma_parse_u64(b, p + 21, last_term);
        },
        RaftMsgView::RequestVoteResp { term, granted } => {
            let (e1, e2, e3) = (seq![2u8], le_u64(term), seq![flag(granted)]);
            lemma_at_split(b, p, e1 + e2, e3);
            lemma_at_split(b, p, e1, e2);
            lemma_parse_u8(b, p, 2);
            lemma_parse_u64(b, p + 1, term);
            lemma_parse_u8(b, p + 9, flag(granted));
        },
        RaftMsgView::AppendEntries {
            term,
            leader,
            prev_index,
            prev_term,
            entries,
            leader_commit,
        } => {
            lemma_parse_append(b, p, term, leader, prev_index, prev_term, entries, leader_commit);
        },
        RaftMsgView::AppendEntriesResp { term, success, match_index, conflict_index } => {
            let (e1, e2, e3, e4, e5) = (
                seq![4u8],
                le_u64(term),
                seq![flag(success)],
                le_u64(match_index),
                le_u64(conflict_index),
            );
            lemma_at_split(b, p, e1 + e2 + e3 + e4, e5);
            lemma_at_split(b, p, e1 + e2 + e3, e4);
            lemma_at_split(b, p, e1 + e2, e3);
            lemma_at_split(b, p, e1, e2);
            lemma_parse_u8(b, p, 4);
            lemma_parse_u64(b, p + 1, term);
            lemma_parse_u8(b, p + 9, flag(success));
            lemma_parse_u64(b, p + 10, match_index);
            lemma_parse_u64(b, p + 18, conflict_index);
        },
    }
}

#[verifier::spinoff_prover]
#[verifier::rlimit(40)]
proof fn lemma_parse_append(
    b: Seq<u8>,
    p: int,
    term: u64,
    leader: NodeId,
    prev_index: u64,
    prev_term: u64,
    entries: Seq<EntryView>,
    leader_commit: u64,
)
    requires
        ({
            let v = RaftMsgView::AppendEntries {
                term,
                leader,
                prev_index,
                prev_term,
                entries,
                leader_commit,
            };
            at(b, p, v.bytes()) && v.fits()
        }),
    ensures
        ({
            let v = RaftMsgView::AppendEntries {
                term,
                leader,
                prev_index,
                prev_term,
                entries,
                leader_commit,
            };
            &&& parse_u8(b, p) == parsed(3u8, p + 1)
            &&& parse_append(b, p + 1) == parsed(v, p + v.bytes().len())
        }),
{
    let (e1, e2, e3, e4, e5, e6, e7, e8) = (
        seq![3u8],
        le_u64(term),
        le_u32(leader.0),
        le_u64(prev_index),
        le_u64(prev_term),
        le_u64(leader_commit),
        le_u32(entries.len() as u32),
        entries_bytes(entries),
    );
    lemma_at_split(b, p, e1 + e2 + e3 + e4 + e5 + e6 + e7, e8);
    lemma_at_split(b, p, e1 + e2 + e3 + e4 + e5 + e6, e7);
    lemma_at_split(b, p, e1 + e2 + e3 + e4 + e5, e6);
    lemma_at_split(b, p, e1 + e2 + e3 + e4, e5);
    lemma_at_split(b, p, e1 + e2 + e3, e4);
    lemma_at_split(b, p, e1 + e2, e3);
    lemma_at_split(b, p, e1, e2);
    lemma_parse_u8(b, p, 3);
    lemma_parse_u64(b, p + 1, term);
    lemma_parse_u32(b, p + 9, leader.0);
    lemma_parse_u64(b, p + 13, prev_index);
    lemma_parse_u64(b, p + 21, prev_term);
    lemma_parse_u64(b, p + 29, leader_commit);
    lemma_parse_u32(b, p + 37, entries.len() as u32);
    assert(entries.take(0) =~= Seq::empty());
    lemma_parse_entries(b, p + 41, entries, 0);
}

impl RaftMsg {
    pub fn term(&self) -> (r: u64)
        ensures
            r == self@.term(),
    {
        match self {
            RaftMsg::RequestVote { term, .. } => *term,
            RaftMsg::RequestVoteResp { term, .. } => *term,
            RaftMsg::AppendEntries { term, .. } => *term,
            RaftMsg::AppendEntriesResp { term, .. } => *term,
        }
    }

    pub fn encode_into(&self, e: &mut Enc)
        ensures
            final(e)@ == old(e)@ + self@.bytes(),
    {
        match self {
            RaftMsg::RequestVote { term, candidate, last_index, last_term } => {
                e.u8(1).u64(*term).u32(candidate.0).u64(*last_index).u64(*last_term);
            },
            RaftMsg::RequestVoteResp { term, granted } => {
                e.u8(2).u64(*term).u8(byte_of(*granted));
            },
            RaftMsg::AppendEntries {
                term,
                leader,
                prev_index,
                prev_term,
                entries,
                leader_commit,
            } => {
                e.u8(3).u64(*term).u32(leader.0).u64(*prev_index).u64(*prev_term).u64(
                    *leader_commit,
                ).u32(entries.len() as u32);
                let ghost head = e@;
                let ghost v = entry_views(entries@);
                let mut i: usize = 0;
                assert(head + entries_bytes(v.take(0)) =~= head);
                while i < entries.len()
                    invariant
                        i <= entries@.len(),
                        v == entry_views(entries@),
                        e@ == head + entries_bytes(v.take(i as int)),
                    decreases entries@.len() - i,
                {
                    let ghost before = e@;
                    entries[i].encode_into(e);
                    proof {
                        let t = v.take(i + 1);
                        assert(t.drop_last() =~= v.take(i as int));
                        assert(t.last() == entries@[i as int]@);
                        assert(e@ =~= head + entries_bytes(t));
                    }
                    i += 1;
                }
                assert(v.take(i as int) =~= v);
            },
            RaftMsg::AppendEntriesResp { term, success, match_index, conflict_index } => {
                e.u8(4).u64(*term).u8(byte_of(*success)).u64(*match_index).u64(*conflict_index);
            },
        }
        assert(e@ =~= old(e)@ + self@.bytes());
    }

    #[verifier::spinoff_prover]
    #[verifier::rlimit(40)]
    pub fn decode_from(d: &mut Dec) -> (r: Result<RaftMsg, DecodeError>)
        requires
            old(d).wf(),
        ensures
            final(d).wf(),
            final(d).all() == old(d).all(),
            ({
                let p = parse_raft(old(d).all(), old(d).at());
                &&& final(d).at() == p.pos
                &&& match r {
                    Ok(v) => p.out == Ok::<RaftMsgView, DecodeError>(v@),
                    Err(e) => p.out == Err::<RaftMsgView, DecodeError>(e),
                }
            }),
    {
        proof {
            reveal(parse_raft);
        }
        let tag: u8 = match d.u8() {
            Ok(t) => t,
            Err(e) => return Err(e),
        };
        if tag == 0 || tag > 4 {
            return Err(DecodeError::BadTag(tag));
        }
        if tag == 3 {
            return decode_append(d);
        }
        let term: u64 = match d.u64() {
            Ok(v) => v,
            Err(e) => return Err(e),
        };
        if tag == 1 {
            let candidate: u32 = match d.u32() {
                Ok(v) => v,
                Err(e) => return Err(e),
            };
            let last_index: u64 = match d.u64() {
                Ok(v) => v,
                Err(e) => return Err(e),
            };
            return match d.u64() {
                Ok(last_term) => Ok(
                    RaftMsg::RequestVote {
                        term,
                        candidate: NodeId(candidate),
                        last_index,
                        last_term,
                    },
                ),
                Err(e) => Err(e),
            };
        }
        let mark: u8 = match d.u8() {
            Ok(v) => v,
            Err(e) => return Err(e),
        };
        if tag == 2 {
            return Ok(RaftMsg::RequestVoteResp { term, granted: mark != 0 });
        }
        let match_index: u64 = match d.u64() {
            Ok(v) => v,
            Err(e) => return Err(e),
        };
        match d.u64() {
            Ok(conflict_index) => Ok(
                RaftMsg::AppendEntriesResp {
                    term,
                    success: mark != 0,
                    match_index,
                    conflict_index,
                },
            ),
            Err(e) => Err(e),
        }
    }
}

fn byte_of(b: bool) -> (r: u8)
    ensures
        r == flag(b),
{
    if b {
        1
    } else {
        0
    }
}

#[verifier::spinoff_prover]
#[verifier::rlimit(40)]
fn decode_append(d: &mut Dec) -> (r: Result<RaftMsg, DecodeError>)
    requires
        old(d).wf(),
    ensures
        final(d).wf(),
        final(d).all() == old(d).all(),
        ({
            let p = parse_append(old(d).all(), old(d).at());
            &&& final(d).at() == p.pos
            &&& match r {
                Ok(v) => p.out == Ok::<RaftMsgView, DecodeError>(v@),
                Err(e) => p.out == Err::<RaftMsgView, DecodeError>(e),
            }
        }),
{
    let term: u64 = match d.u64() {
        Ok(v) => v,
        Err(e) => return Err(e),
    };
    let leader: u32 = match d.u32() {
        Ok(v) => v,
        Err(e) => return Err(e),
    };
    let prev_index: u64 = match d.u64() {
        Ok(v) => v,
        Err(e) => return Err(e),
    };
    let prev_term: u64 = match d.u64() {
        Ok(v) => v,
        Err(e) => return Err(e),
    };
    let leader_commit: u64 = match d.u64() {
        Ok(v) => v,
        Err(e) => return Err(e),
    };
    let count: u32 = match d.u32() {
        Ok(v) => v,
        Err(e) => return Err(e),
    };
    // A corrupted count must not make us allocate wildly; entries are bounded
    // by what could plausibly be in one message.
    if count > MAX_ENTRIES {
        return Err(DecodeError::TooLong);
    }
    match decode_entries(d, count) {
        Ok(entries) => Ok(
            RaftMsg::AppendEntries {
                term,
                leader: NodeId(leader),
                prev_index,
                prev_term,
                entries,
                leader_commit,
            },
        ),
        Err(e) => Err(e),
    }
}

fn decode_entries(d: &mut Dec, count: u32) -> (r: Result<Vec<Entry>, DecodeError>)
    requires
        old(d).wf(),
    ensures
        final(d).wf(),
        final(d).all() == old(d).all(),
        ({
            let p = parse_entries(old(d).all(), old(d).at(), count as nat, Seq::empty());
            &&& final(d).at() == p.pos
            &&& match r {
                Ok(v) => p.out == Ok::<Seq<EntryView>, DecodeError>(entry_views(v@)),
                Err(e) => p.out == Err::<Seq<EntryView>, DecodeError>(e),
            }
        }),
{
    let ghost expect = parse_entries(d.all(), d.at(), count as nat, Seq::empty());
    let mut out: Vec<Entry> = Vec::new();
    let mut left: u32 = count;
    assert(entry_views(out@) =~= Seq::empty());
    while left > 0
        invariant
            d.wf(),
            d.all() == old(d).all(),
            expect == parse_entries(old(d).all(), old(d).at(), count as nat, Seq::empty()),
            expect == parse_entries(d.all(), d.at(), left as nat, entry_views(out@)),
        decreases left,
    {
        let ghost before = entry_views(out@);
        match Entry::decode_from(d) {
            Ok(e) => {
                let ghost v = e@;
                out.push(e);
                assert(entry_views(out@) =~= before.push(v));
            },
            Err(e) => return Err(e),
        }
        left = left - 1;
    }
    Ok(out)
}

// ---- the outermost layer -------------------------------------------------

/// Everything that travels on the wire.
#[derive(Debug, PartialEq, Eq)]
pub enum Message {
    Raft(RaftMsg),
    Client(ClientMsg),
}

/// A message, as a mathematical value.
pub enum MessageView {
    Raft(RaftMsgView),
    Client(ClientMsgView),
}

impl View for Message {
    type V = MessageView;

    open spec fn view(&self) -> MessageView {
        match self {
            Message::Raft(m) => MessageView::Raft(m@),
            Message::Client(m) => MessageView::Client(m@),
        }
    }
}

impl Clone for Message {
    fn clone(&self) -> (r: Message)
        ensures
            r@ == self@,
    {
        match self {
            Message::Raft(m) => Message::Raft(m.clone()),
            Message::Client(m) => Message::Client(m.clone()),
        }
    }
}

impl MessageView {
    /// The payload of a message's frame.
    pub open spec fn payload(self) -> Seq<u8> {
        match self {
            MessageView::Raft(m) => seq![1u8] + m.bytes(),
            MessageView::Client(m) => seq![2u8] + m.bytes(),
        }
    }

    /// The message as it travels.
    pub open spec fn wire(self) -> Seq<u8> {
        framed(self.payload())
    }

    /// Whether the message can be read back.
    pub open spec fn fits(self) -> bool {
        match self {
            MessageView::Raft(m) => m.fits(),
            MessageView::Client(m) => m.fits(),
        }
    }
}

/// The message a payload holds, where it holds exactly one.
pub open spec fn parse_message(b: Seq<u8>) -> Result<MessageView, DecodeError> {
    let p = bind(
        parse_u8(b, 0),
        |tag: u8, q: int|
            if tag == 1 {
                bind(parse_raft(b, q), |m: RaftMsgView, r: int| parsed(MessageView::Raft(m), r))
            } else if tag == 2 {
                bind(
                    parse_client(b, q),
                    |m: ClientMsgView, r: int| parsed(MessageView::Client(m), r),
                )
            } else {
                failed(DecodeError::BadTag(tag), q)
            },
    );
    match p.out {
        Ok(m) => if p.pos == b.len() {
            Ok(m)
        } else {
            Err(DecodeError::TrailingBytes)
        },
        Err(e) => Err(e),
    }
}

/// The message that arrived.
pub open spec fn decoded(bytes: Seq<u8>) -> Result<MessageView, DecodeError> {
    match unframed(bytes) {
        Ok(payload) => parse_message(payload),
        Err(e) => Err(e),
    }
}

impl Message {
    pub fn encode(&self) -> (r: Vec<u8>)
        ensures
            r@ == self@.wire(),
    {
        let mut e = Enc::new();
        match self {
            Message::Raft(m) => {
                e.u8(1);
                m.encode_into(&mut e);
            },
            Message::Client(m) => {
                e.u8(2);
                m.encode_into(&mut e);
            },
        }
        assert(e@ =~= self@.payload());
        frame(e.as_slice())
    }

    pub fn decode(bytes: &[u8]) -> (r: Result<Message, DecodeError>)
        ensures
            match r {
                Ok(m) => decoded(bytes@) == Ok::<MessageView, DecodeError>(m@),
                Err(e) => decoded(bytes@) == Err::<MessageView, DecodeError>(e),
            },
    {
        let payload = match unframe(bytes) {
            Ok(p) => p,
            Err(e) => return Err(e),
        };
        let mut d = Dec::new(payload);
        let tag: u8 = match d.u8() {
            Ok(t) => t,
            Err(e) => return Err(e),
        };
        let msg = if tag == 1 {
            match RaftMsg::decode_from(&mut d) {
                Ok(m) => Message::Raft(m),
                Err(e) => return Err(e),
            }
        } else if tag == 2 {
            match ClientMsg::decode_from(&mut d) {
                Ok(m) => Message::Client(m),
                Err(e) => return Err(e),
            }
        } else {
            return Err(DecodeError::BadTag(tag));
        };
        match d.finish() {
            Ok(_) => Ok(msg),
            Err(e) => Err(e),
        }
    }
}

/// A message is decoded to what was encoded, as long as its texts, its number
/// of entries and its hints are within what the format can carry.
pub proof fn law_message_round_trip(m: MessageView)
    requires
        m.fits(),
    ensures
        decoded(m.wire()) == Ok::<MessageView, DecodeError>(m),
{
    let b = m.payload();
    law_frame_round_trip(b);
    match m {
        MessageView::Raft(x) => {
            assert(b.subrange(0, b.len() as int) =~= seq![1u8] + x.bytes());
            lemma_at_split(b, 0, seq![1u8], x.bytes());
            lemma_parse_u8(b, 0, 1);
            lemma_parse_raft(b, 1, x);
        },
        MessageView::Client(x) => {
            assert(b.subrange(0, b.len() as int) =~= seq![2u8] + x.bytes());
            lemma_at_split(b, 0, seq![2u8], x.bytes());
            lemma_parse_u8(b, 0, 2);
            lemma_parse_client(b, 1, x);
        },
    }
}

/// A message with any one byte changed on the way is refused.
pub proof fn law_corrupted_message_is_refused(m: MessageView, i: int, v: u8)
    requires
        0 <= i < m.wire().len(),
        v != m.wire()[i],
    ensures
        decoded(m.wire().update(i, v)) == Err::<MessageView, DecodeError>(DecodeError::BadChecksum),
{
    law_frame_detects_corruption(m.payload(), i, v);
}

} // verus!
