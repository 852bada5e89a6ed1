//! Where the log lies in its file: what a node writes is what it reads back.

use crate::kvstore::codec::at;
use crate::kvstore::log::{capped, contiguous, lemma_last_index, EntryView, LogView};
use crate::kvstore::raft::lemma_append_all_entries;
use crate::kvstore::raft_model::{tail_from, RaftView, LOG_REGION};
use crate::kvstore::recovery::{law_written_log_recovers, records, recovered};
use crate::sim_io::effect::{Effect, IoState};
use crate::sim_io::storage::FILE_WAL;
use crate::simcore::disk::{applied, applied_all, overwritten, resized, WriteView};
use vstd::prelude::*;

verus! {

/// Whether a log knows where each of its records begins, and where they end, as
/// far as offsets go.
#[verifier::opaque]
pub open spec fn aligned(l: LogView) -> bool {
    &&& l.snapshot_index == 0
    &&& l.offsets.len() == l.entries.len()
    &&& l.end == capped(records(l.entries).len() as int)
    &&& forall|i: int|
        0 <= i < l.entries.len() ==> #[trigger] l.offsets[i] == capped(
            records(l.entries.take(i)).len() as int,
        )
}

/// An empty log is aligned, and stays so however it grows.
pub proof fn law_appending_keeps_offsets(l: LogView, es: Seq<EntryView>)
    ensures
        aligned(LogView::empty()),
        aligned(l) ==> aligned(l.append_all(es)),
    decreases es.len(),
{
    reveal(aligned);
    if aligned(l) && es.len() > 0 {
        law_appending_keeps_offsets(l, es.drop_last());
        lemma_append_aligned(l.append_all(es.drop_last()), es.last());
    }
}

pub proof fn lemma_append_aligned(l: LogView, e: EntryView)
    requires
        aligned(l),
    ensures
        aligned(l.append(e)),
{
    reveal(aligned);
    let t = l.append(e);
    assert(t.entries.drop_last() =~= l.entries);
    assert forall|i: int| 0 <= i < t.entries.len() implies #[trigger] t.offsets[i] == capped(
        records(t.entries.take(i)).len() as int,
    ) by {
        if i < l.entries.len() {
            assert(t.entries.take(i) =~= l.entries.take(i));
            assert(t.offsets[i] == l.offsets[i]);
        } else {
            assert(t.entries.take(i) =~= l.entries);
        }
    }
}

/// A log that is cut back still knows where its records lie.
pub proof fn law_truncating_keeps_offsets(l: LogView, index: u64)
    requires
        aligned(l),
        l.wf(),
    ensures
        aligned(l.truncate_from(index)),
{
    reveal(aligned);
    let t = l.truncate_from(index);
    let n = t.entries.len() as int;
    lemma_last_index(l);
    if t.entries.len() < l.entries.len() {
        assert(t.entries =~= l.entries.take(n));
        assert(l.offsets[n] == capped(records(l.entries.take(n)).len() as int));
        assert forall|i: int| 0 <= i < n implies #[trigger] t.offsets[i] == capped(
            records(t.entries.take(i)).len() as int,
        ) by {
            assert(t.entries.take(i) =~= l.entries.take(i));
            assert(t.offsets[i] == l.offsets[i]);
        }
    } else {
        assert(t.entries =~= l.entries);
    }
}

/// The record of an index begins where the records before it end.
pub proof fn law_byte_offsets_line_up(l: LogView, index: u64)
    requires
        aligned(l),
        l.wf(),
        1 <= index <= l.last_index() + 1,
    ensures
        l.byte_offset_of(index) == capped(records(l.entries.take(index - 1)).len() as int),
{
    reveal(aligned);
    lemma_last_index(l);
    let k = index - 1;
    if k < l.entries.len() {
        assert(l.offsets[k] == capped(records(l.entries.take(k)).len() as int));
    } else {
        assert(l.entries.take(k) =~= l.entries);
    }
}

/// In a log built from entries whose records can be counted, the record of an
/// index begins at the total length of the records before it: the first at zero,
/// and the next one to come where all of them end.
pub proof fn law_offsets_of_a_built_log(es: Seq<EntryView>, index: u64)
    requires
        contiguous(es, 1),
        records(es).len() <= usize::MAX,
        1 <= index <= es.len() + 1,
    ensures
        ({
            let l = LogView::empty().append_all(es);
            &&& l.last_index() == es.len()
            &&& l.byte_offset_of(index) == records(es.take(index - 1)).len()
            &&& l.byte_offset_of(1) == 0
            &&& l.end == records(es).len()
            &&& index == l.last_index() + 1 ==> l.byte_offset_of(index) == l.end
        }),
{
    let l = LogView::empty().append_all(es);
    law_appending_keeps_offsets(LogView::empty(), es);
    lemma_append_all_entries(LogView::empty(), es);
    assert(l.entries =~= es);
    reveal(aligned);
    if es.len() > 0 {
        assert(es[es.len() - 1].index == es.len());
        assert(l.offsets[0] == capped(records(es.take(0)).len() as int));
        assert(es.take(0) =~= Seq::<EntryView>::empty());
    }
    let k = index - 1;
    lemma_records_join(es, k);
    if k < es.len() {
        assert(l.offsets[k] == capped(records(es.take(k)).len() as int));
    } else {
        assert(es.take(k) =~= es);
    }
}

/// The changes to its file by which a node brings it up to its log, from an
/// index on.
pub open spec fn log_writes(l: LogView, from: u64, truncated: bool) -> Seq<WriteView> {
    let offset = capped(LOG_REGION + l.byte_offset_of(from));
    let bytes = records(tail_from(l, from));
    let first = if truncated {
        seq![WriteView::SetLen(offset)]
    } else {
        Seq::empty()
    };
    first.push(
        if bytes.len() == 0 {
            WriteView::SetLen(offset)
        } else {
            WriteView::Data { offset, bytes }
        },
    )
}

/// A change of the write-ahead file as an effect of its node.
pub open spec fn wal_effect(w: WriteView) -> Effect {
    match w {
        WriteView::Data { offset, bytes } => Effect::WriteAt { file: FILE_WAL, offset, bytes },
        WriteView::SetLen(len) => Effect::SetLen { file: FILE_WAL, len },
    }
}

/// A node that persists its log issues exactly those changes, in that order.
pub proof fn law_these_are_the_writes(
    r: RaftView,
    io: IoState,
    batch: u64,
    from: u64,
    truncated: bool,
)
    ensures
        r.write_log_from(io, batch, from, truncated).io.log == io.log + log_writes(
            r.log,
            from,
            truncated,
        ).map_values(|w: WriteView| wal_effect(w)),
{
    let out = r.write_log_from(io, batch, from, truncated).io.log;
    let ws = log_writes(r.log, from, truncated).map_values(|w: WriteView| wal_effect(w));
    assert(out =~= io.log + ws);
}

/// Whether a file holds the records of entries where the log belongs.
pub open spec fn stored(file: Seq<u8>, es: Seq<EntryView>) -> bool {
    es.len() == 0 || at(file, LOG_REGION as int, records(es))
}

proof fn lemma_records_join(es: Seq<EntryView>, k: int)
    requires
        0 <= k <= es.len(),
    ensures
        records(es.take(k)) + records(es.skip(k)) == records(es),
    decreases es.len() - k,
{
    if k == es.len() {
        assert(es.take(k) =~= es);
        assert(records(es) + Seq::<u8>::empty() =~= records(es));
    } else {
        let last = es.last();
        let d = es.drop_last();
        lemma_records_join(d, k);
        assert(d.take(k) =~= es.take(k));
        assert(es.skip(k).drop_last() =~= d.skip(k));
        assert(es.skip(k).last() == last);
        assert(records(es.take(k)) + (records(d.skip(k)) + last.record()) =~= (records(d.take(k))
            + records(d.skip(k))) + last.record());
    }
}

proof fn lemma_writes(file: Seq<u8>, l: LogView, from: u64, truncated: bool)
    ensures
        ({
            let offset = capped(LOG_REGION + l.byte_offset_of(from));
            let bytes = records(tail_from(l, from));
            let cut = if truncated {
                resized(file, offset as nat)
            } else {
                file
            };
            applied_all(file, log_writes(l, from, truncated)) == if bytes.len() == 0 {
                resized(cut, offset as nat)
            } else {
                overwritten(cut, offset as int, bytes)
            }
        }),
{
    let offset = capped(LOG_REGION + l.byte_offset_of(from));
    let bytes = records(tail_from(l, from));
    let ws = log_writes(l, from, truncated);
    let d = ws.drop_last();
    assert(ws.last() == if bytes.len() == 0 {
        WriteView::SetLen(offset)
    } else {
        WriteView::Data { offset, bytes }
    });
    assert(applied_all(file, ws) == applied(applied_all(file, d), ws.last()));
    if truncated {
        assert(d =~= seq![WriteView::SetLen(offset)]);
        assert(d.drop_last() =~= Seq::<WriteView>::empty());
        assert(applied_all(file, d) == applied(applied_all(file, d.drop_last()), d.last()));
        assert(applied_all(file, d) == resized(file, offset as nat));
    } else {
        assert(d =~= Seq::<WriteView>::empty());
        assert(applied_all(file, d) == file);
    }
}

/// A file with `head` at a place, after `tail` was put behind it.
proof fn lemma_joined(file: Seq<u8>, p: int, head: Seq<u8>, tail: Seq<u8>, truncated: bool)
    requires
        0 <= p,
        head.len() == 0 || at(file, p, head),
        p + head.len() + tail.len() <= usize::MAX,
    ensures
        ({
            let offset = p + head.len();
            let cut = if truncated {
                resized(file, offset as nat)
            } else {
                file
            };
            let after = if tail.len() == 0 {
                resized(cut, offset as nat)
            } else {
                overwritten(cut, offset as int, tail)
            };
            &&& at(after, p, head + tail)
            &&& after.len() <= file.len() || after.len() == offset + tail.len()
            &&& (truncated || file.len() <= offset + tail.len()) ==> after.len() == offset
                + tail.len()
        }),
{
    let offset = p + head.len();
    let cut = if truncated {
        resized(file, offset as nat)
    } else {
        file
    };
    let after = if tail.len() == 0 {
        resized(cut, offset as nat)
    } else {
        overwritten(cut, offset as int, tail)
    };
    let all = head + tail;
    assert(after.len() >= p + all.len());
    assert forall|i: int| 0 <= i < all.len() implies after[p + i] == #[trigger] all[i] by {
        if i < head.len() {
            assert(file.subrange(p, offset)[i] == head[i]);
        }
    }
    assert(after.subrange(p, p + all.len()) =~= all);
}

/// A file that holds the log up to some index holds all of it once the rest was
/// written; and recovery then reads back exactly the log, where the file ends
/// with it, and at least the log otherwise.
pub proof fn law_written_log_is_read_back(file: Seq<u8>, l: LogView, from: u64, truncated: bool)
    requires
        aligned(l),
        l.wf(),
        1 <= from <= l.last_index() + 1,
        stored(file, l.entries.take(from - 1)),
        forall|i: int| 0 <= i < l.entries.len() ==> (#[trigger] l.entries[i]).storable(),
        LOG_REGION + records(l.entries).len() <= usize::MAX,
        file.len() <= usize::MAX,
    ensures
        ({
            let after = applied_all(file, log_writes(l, from, truncated));
            let end = LOG_REGION + records(l.entries).len();
            let got = recovered(RaftView::log_bytes(after), 1);
            &&& stored(after, l.entries)
            &&& got.entries.len() >= l.entries.len()
            &&& got.entries.take(l.entries.len() as int) == l.entries
            &&& (truncated || file.len() <= end) ==> {
                &&& after.len() == end
                &&& got.entries == l.entries
                &&& !got.damaged
            }
        }),
{
    reveal(aligned);
    lemma_last_index(l);
    law_byte_offsets_line_up(l, from);
    let k = from - 1;
    let (head, tail, all) = (
        records(l.entries.take(k)),
        records(l.entries.skip(k)),
        records(l.entries),
    );
    lemma_records_join(l.entries, k);
    assert(tail_from(l, from) =~= l.entries.skip(k));
    lemma_writes(file, l, from, truncated);
    if k == 0 {
        assert(l.entries.take(k) =~= Seq::<EntryView>::empty());
    }
    lemma_joined(file, LOG_REGION as int, head, tail, truncated);
    let after = applied_all(file, log_writes(l, from, truncated));
    assert(at(after, LOG_REGION as int, all));
    lemma_region(after, l.entries);
}

proof fn lemma_region(after: Seq<u8>, es: Seq<EntryView>)
    requires
        at(after, LOG_REGION as int, records(es)),
        after.len() <= usize::MAX,
        contiguous(es, 1),
        forall|i: int| 0 <= i < es.len() ==> (#[trigger] es[i]).storable(),
    ensures
        ({
            let got = recovered(RaftView::log_bytes(after), 1);
            &&& got.entries.len() >= es.len()
            &&& got.entries.take(es.len() as int) == es
            &&& after.len() == LOG_REGION + records(es).len() ==> got.entries == es && !got.damaged
        }),
{
    let region = RaftView::log_bytes(after);
    let all = records(es);
    assert(region.subrange(0, all.len() as int) =~= after.subrange(
        LOG_REGION as int,
        LOG_REGION + all.len(),
    ));
    law_written_log_recovers(region, es, 1);
}

} // verus!
