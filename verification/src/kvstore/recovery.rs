//! What a node finds on its disk after a crash: the intact part of the log,
//! the newest snapshot and the newest hard state.

use crate::bytes::{
    copy_range, get_u32, get_u64, law_le_u32_onto, law_le_u32_round_trip, law_le_u64_round_trip, le_u32,
    le_u64, of_le_u32, of_le_u64, put_u32,
};
use crate::kvstore::codec::{
    at, crc32, crc_of, enc_bytes, lemma_at_split, lemma_parse_blob, lemma_parse_u64, parse_blob, parse_u64,
    Dec, Enc,
};
use crate::kvstore::log::{
    contiguous, entry_views, lemma_parse_entry, lemma_read_entry, parse_entry, sealed, Entry, EntryView,
    MAX_RECORD,
};
use crate::simcore::NodeId;
use vstd::prelude::*;
use vstd::slice::slice_subrange;

verus! {

// ---- the log file --------------------------------------------------------

/// The payload of the sealed block at `p`, where it is whole, not empty, no
/// longer than `limit`, and matches its checksum.
pub open spec fn unseal(b: Seq<u8>, p: int, limit: int) -> Option<Seq<u8>> {
    if p + 8 > b.len() {
        None
    } else {
        let n = of_le_u32(b.subrange(p, p + 4)) as int;
        if n == 0 || n > limit || p + 8 + n > b.len() {
            None
        } else {
            let payload = b.subrange(p + 8, p + 8 + n);
            if crc_of(payload) == of_le_u32(b.subrange(p + 4, p + 8)) {
                Some(payload)
            } else {
                None
            }
        }
    }
}

/// The intact record at `p` and the position after it.
pub open spec fn record_at(b: Seq<u8>, p: int) -> Option<(EntryView, int)> {
    match unseal(b, p, MAX_RECORD as int) {
        None => None,
        Some(payload) => {
            let e = parse_entry(payload, 0);
            match e.out {
                Ok(entry) => if e.pos == payload.len() {
                    Some((entry, p + 8 + payload.len()))
                } else {
                    None
                },
                Err(_) => None,
            }
        },
    }
}

/// Whether `e` is the record that must come after `es` in a file whose first
/// record has index `first`.
pub open spec fn comes_next(first: u64, es: Seq<EntryView>, e: EntryView) -> bool {
    if es.len() == 0 {
        e.index == first
    } else {
        e.index == es.last().index + 1 && e.term >= es.last().term
    }
}

/// What survived on disk.
#[derive(Debug)]
pub struct RecoveredLog {
    pub entries: Vec<Entry>,
    /// Byte offset of each entry, relative to the start of the log region.
    pub offsets: Vec<usize>,
    /// Bytes that form a valid prefix. The file should be truncated here.
    pub valid_bytes: usize,
    /// Whether anything was discarded (a torn tail, a hole, or corruption).
    pub damaged: bool,
}

/// What survived on disk, as a mathematical value.
#[verifier::ext_equal]
pub struct RecoveredView {
    pub entries: Seq<EntryView>,
    pub offsets: Seq<usize>,
    pub valid_bytes: usize,
    pub damaged: bool,
}

impl View for RecoveredLog {
    type V = RecoveredView;

    open spec fn view(&self) -> RecoveredView {
        RecoveredView {
            entries: entry_views(self.entries@),
            offsets: self.offsets@,
            valid_bytes: self.valid_bytes,
            damaged: self.damaged,
        }
    }
}

impl RecoveredView {
    /// Nothing read yet.
    pub open spec fn start() -> RecoveredView {
        RecoveredView {
            entries: Seq::empty(),
            offsets: Seq::empty(),
            valid_bytes: 0,
            damaged: false,
        }
    }

    /// One more intact record, which ends at `end`.
    pub open spec fn with(self, e: EntryView, end: int) -> RecoveredView {
        RecoveredView {
            entries: self.entries.push(e),
            offsets: self.offsets.push(self.valid_bytes),
            valid_bytes: end as usize,
            damaged: self.damaged,
        }
    }
}

/// Go on reading records from where `got` ends, up to the first that is not
/// intact or not the next one.
pub open spec fn recover_on(b: Seq<u8>, first: u64, got: RecoveredView) -> RecoveredView
    decreases b.len() - got.valid_bytes,
{
    if b.len() > usize::MAX || got.valid_bytes >= b.len() {
        got
    } else {
        match record_at(b, got.valid_bytes as int) {
            Some((e, end)) => if comes_next(first, got.entries, e) {
                recover_on(b, first, got.with(e, end))
            } else {
                RecoveredView { damaged: true, ..got }
            },
            None => RecoveredView { damaged: true, ..got },
        }
    }
}

/// What a log file holds whose first record must have index `first`.
pub open spec fn recovered(b: Seq<u8>, first: u64) -> RecoveredView {
    recover_on(b, first, RecoveredView::start())
}

/// Whether `got` describes consecutive entries from `first`.
pub open spec fn recovery_wf(got: RecoveredView, first: u64) -> bool {
    &&& got.offsets.len() == got.entries.len()
    &&& contiguous(got.entries, first as int)
}

proof fn lemma_with_wf(got: RecoveredView, first: u64, e: EntryView, end: int)
    requires
        recovery_wf(got, first),
        comes_next(first, got.entries, e),
    ensures
        recovery_wf(got.with(e, end), first),
{
    let es = got.entries.push(e);
    assert forall|i: int, j: int| 0 <= i <= j < es.len() implies (#[trigger] es[i]).term <= (
    #[trigger] es[j]).term by {
        if j == got.entries.len() && i < j {
            assert(got.entries[i].term <= got.entries.last().term);
        }
    }
}

proof fn lemma_recover_on_wf(b: Seq<u8>, first: u64, got: RecoveredView)
    requires
        recovery_wf(got, first),
        got.valid_bytes <= b.len(),
    ensures
        recovery_wf(recover_on(b, first, got), first),
        recover_on(b, first, got).valid_bytes <= b.len(),
    decreases b.len() - got.valid_bytes,
{
    if b.len() <= usize::MAX && got.valid_bytes < b.len() {
        if let Some((e, end)) = record_at(b, got.valid_bytes as int) {
            if comes_next(first, got.entries, e) {
                lemma_with_wf(got, first, e, end);
                lemma_recover_on_wf(b, first, got.with(e, end));
            }
        }
    }
}

/// Whatever the bytes, recovery gives consecutive entries from the expected
/// index with terms that never decrease, an offset for each, and a valid
/// length within the file.
pub proof fn law_recovery_is_contiguous(b: Seq<u8>, first: u64)
    ensures
        recovery_wf(recovered(b, first), first),
        recovered(b, first).valid_bytes <= b.len(),
{
    lemma_recover_on_wf(b, first, RecoveredView::start());
}

/// The records of `es`, one after another.
pub open spec fn records(es: Seq<EntryView>) -> Seq<u8>
    decreases es.len(),
{
    if es.len() == 0 {
        Seq::empty()
    } else {
        records(es.drop_last()) + es.last().record()
    }
}

pub proof fn lemma_unseal(b: Seq<u8>, p: int, payload: Seq<u8>, limit: int)
    requires
        at(b, p, sealed(payload)),
        0 < payload.len() <= limit,
        limit <= u32::MAX,
    ensures
        unseal(b, p, limit) == Some(payload),
        sealed(payload).len() == payload.len() + 8,
{
    let head = le_u32(payload.len() as u32);
    let sum = le_u32(crc_of(payload));
    lemma_at_split(b, p, head + sum, payload);
    lemma_at_split(b, p, head, sum);
    law_le_u32_round_trip(payload.len() as u32);
    law_le_u32_round_trip(crc_of(payload));
}

/// An intact record is read back as it was written.
pub proof fn law_record_round_trip(b: Seq<u8>, p: int, e: EntryView)
    requires
        at(b, p, e.record()),
        e.storable(),
    ensures
        record_at(b, p) == Some((e, p + e.record().len())),
{
    let payload = e.bytes();
    assert(payload.len() >= 16);
    lemma_unseal(b, p, payload, MAX_RECORD as int);
    assert(payload.subrange(0, payload.len() as int) =~= payload);
    lemma_parse_entry(payload, 0, e);
}

proof fn lemma_records_split(es: Seq<EntryView>, k: int)
    requires
        0 <= k < es.len(),
    ensures
        records(es.take(k + 1)) == records(es.take(k)) + es[k].record(),
        records(es.take(k + 1)).len() <= records(es).len(),
        records(es).take(records(es.take(k + 1)).len() as int) == records(es.take(k + 1)),
    decreases es.len(),
{
    let t = es.take(k + 1);
    assert(t.drop_last() =~= es.take(k));
    assert(t.last() == es[k]);
    if k + 1 == es.len() {
        assert(t =~= es);
        assert(records(es).take(records(es).len() as int) =~= records(es));
    } else {
        let d = es.drop_last();
        lemma_records_split(d, k);
        assert(d.take(k + 1) =~= t);
        assert(d.take(k) =~= es.take(k));
        assert(records(es).take(records(t).len() as int) =~= records(d).take(
            records(t).len() as int,
        ));
    }
}

proof fn lemma_recover_written(
    b: Seq<u8>,
    es: Seq<EntryView>,
    first: u64,
    k: int,
    got: RecoveredView,
)
    requires
        b.len() <= usize::MAX,
        contiguous(es, first as int),
        forall|i: int| 0 <= i < es.len() ==> (#[trigger] es[i]).storable(),
        at(b, 0, records(es)),
        0 <= k <= es.len(),
        got.entries == es.take(k),
        got.valid_bytes == records(es.take(k)).len(),
        !got.damaged,
    ensures
        recover_on(b, first, got).entries.len() >= es.len(),
        recover_on(b, first, got).entries.take(es.len() as int) == es,
        recover_on(b, first, got).valid_bytes >= records(es).len(),
        b.len() == records(es).len() ==> recover_on(b, first, got).entries == es && recover_on(
            b,
            first,
            got,
        ).valid_bytes == b.len() && !recover_on(b, first, got).damaged,
    decreases es.len() - k,
{
    if k == es.len() {
        assert(es.take(k) =~= es);
        lemma_recover_extends(b, first, got);
        assert(es.take(es.len() as int) =~= es);
    } else {
        lemma_records_split(es, k);
        let p = records(es.take(k)).len() as int;
        let all = records(es);
        assert(at(b, p, es[k].record())) by {
            let upto = records(es.take(k + 1));
            assert(b.subrange(0, all.len() as int) == all);
            assert(b.subrange(p, p + es[k].record().len()) =~= all.take(upto.len() as int).subrange(
                p,
                upto.len() as int,
            ));
            assert(upto.subrange(p, upto.len() as int) =~= es[k].record());
        }
        law_record_round_trip(b, p, es[k]);
        if k > 0 {
            assert(got.entries.last() == es[k - 1]);
            assert(es[k - 1].term <= es[k].term);
        }
        let next = got.with(es[k], p + es[k].record().len());
        assert(next.entries =~= es.take(k + 1));
        lemma_recover_written(b, es, first, k + 1, next);
    }
}

/// A file that begins with the records of consecutive entries gives those
/// entries back, whatever follows them; a file that holds nothing else is
/// reported whole.
pub proof fn law_written_log_recovers(b: Seq<u8>, es: Seq<EntryView>, first: u64)
    requires
        b.len() <= usize::MAX,
        contiguous(es, first as int),
        forall|i: int| 0 <= i < es.len() ==> (#[trigger] es[i]).storable(),
        at(b, 0, records(es)),
    ensures
        recovered(b, first).entries.len() >= es.len(),
        recovered(b, first).entries.take(es.len() as int) == es,
        recovered(b, first).valid_bytes >= records(es).len(),
        b.len() == records(es).len() ==> recovered(b, first).entries == es && recovered(
            b,
            first,
        ).valid_bytes == b.len() && !recovered(b, first).damaged,
{
    assert(es.take(0) =~= Seq::<EntryView>::empty());
    lemma_recover_written(b, es, first, 0, RecoveredView::start());
}

/// The bytes of the record read at `p` are the record of the entry it holds.
proof fn lemma_read_record(b: Seq<u8>, p: int)
    requires
        0 <= p,
        record_at(b, p) is Some,
    ensures
        ({
            let (e, end) = record_at(b, p)->Some_0;
            p < end <= b.len() && b.subrange(p, end) == e.record() && e.storable()
        }),
{
    let (e, end) = record_at(b, p)->Some_0;
    let payload = unseal(b, p, MAX_RECORD as int)->Some_0;
    lemma_read_entry(payload, 0);
    assert(payload.subrange(0, payload.len() as int) =~= payload);
    assert(e.bytes() == payload);
    law_le_u32_onto(b.subrange(p, p + 4));
    law_le_u32_onto(b.subrange(p + 4, p + 8));
    assert(b.subrange(p, end) =~= b.subrange(p, p + 4) + b.subrange(p + 4, p + 8) + payload);
}

proof fn lemma_recover_kept(b: Seq<u8>, first: u64, got: RecoveredView)
    requires
        b.len() <= usize::MAX,
        got.valid_bytes <= b.len(),
        b.take(got.valid_bytes as int) == records(got.entries),
        forall|i: int| 0 <= i < got.entries.len() ==> (#[trigger] got.entries[i]).storable(),
    ensures
        ({
            let all = recover_on(b, first, got);
            &&& all.valid_bytes <= b.len()
            &&& b.take(all.valid_bytes as int) == records(all.entries)
            &&& forall|i: int| 0 <= i < all.entries.len() ==> (#[trigger] all.entries[i]).storable()
        }),
    decreases b.len() - got.valid_bytes,
{
    if got.valid_bytes < b.len() {
        let p = got.valid_bytes as int;
        if let Some((e, end)) = record_at(b, p) {
            lemma_read_record(b, p);
            if comes_next(first, got.entries, e) {
                let more = got.with(e, end);
                assert(more.entries.drop_last() =~= got.entries);
                assert(b.take(end) =~= b.take(p) + b.subrange(p, end));
                lemma_recover_kept(b, first, more);
            }
        }
    }
}

/// What recovery keeps of a file is exactly what writing its entries gives:
/// the bytes it calls valid are the records of the entries it returns, and
/// each of them can be written and read again.
pub proof fn law_recovery_keeps_written_records(b: Seq<u8>, first: u64)
    requires
        b.len() <= usize::MAX,
    ensures
        recovered(b, first).valid_bytes <= b.len(),
        b.take(recovered(b, first).valid_bytes as int) == records(recovered(b, first).entries),
        forall|i: int|
            0 <= i < recovered(b, first).entries.len() ==> (#[trigger] recovered(
                b,
                first,
            ).entries[i]).storable(),
{
    assert(b.take(0) =~= records(Seq::<EntryView>::empty()));
    lemma_recover_kept(b, first, RecoveredView::start());
}

proof fn lemma_recover_extends(b: Seq<u8>, first: u64, got: RecoveredView)
    ensures
        recover_on(b, first, got).entries.len() >= got.entries.len(),
        recover_on(b, first, got).entries.take(got.entries.len() as int) == got.entries,
        recover_on(b, first, got).valid_bytes >= got.valid_bytes,
        got.valid_bytes == b.len() ==> recover_on(b, first, got) == got,
    decreases b.len() - got.valid_bytes,
{
    assert(got.entries.take(got.entries.len() as int) =~= got.entries);
    if b.len() <= usize::MAX && got.valid_bytes < b.len() {
        if let Some((e, end)) = record_at(b, got.valid_bytes as int) {
            if comes_next(first, got.entries, e) {
                let next = got.with(e, end);
                lemma_recover_extends(b, first, next);
                assert(recover_on(b, first, got).entries.take(got.entries.len() as int)
                    =~= recover_on(b, first, next).entries.take(next.entries.len() as int).take(
                    got.entries.len() as int,
                ));
                assert(next.entries.take(got.entries.len() as int) =~= got.entries);
            }
        }
    }
}

proof fn lemma_record_local(a: Seq<u8>, b: Seq<u8>, p: int, k: int)
    requires
        0 <= p,
        k <= a.len(),
        k <= b.len(),
        a.take(k) == b.take(k),
        record_at(a, p) is Some,
        record_at(a, p)->Some_0.1 <= k,
    ensures
        record_at(b, p) == record_at(a, p),
{
    let n = of_le_u32(a.subrange(p, p + 4)) as int;
    assert forall|x: int, y: int| 0 <= x <= y <= k implies #[trigger] a.subrange(x, y)
        == b.subrange(x, y) by {
        assert(a.subrange(x, y) =~= a.take(k).subrange(x, y));
        assert(b.subrange(x, y) =~= b.take(k).subrange(x, y));
    }
    assert(a.subrange(p, p + 4) == b.subrange(p, p + 4));
    assert(a.subrange(p + 4, p + 8) == b.subrange(p + 4, p + 8));
    assert(a.subrange(p + 8, p + 8 + n) == b.subrange(p + 8, p + 8 + n));
}

/// Where the record of entry `i` ends.
pub open spec fn record_end(x: RecoveredView, i: int) -> int {
    if i + 1 < x.offsets.len() {
        x.offsets[i + 1] as int
    } else {
        x.valid_bytes as int
    }
}

proof fn lemma_damage_local(a: Seq<u8>, b: Seq<u8>, first: u64, k: int, got: RecoveredView)
    requires
        a.len() <= usize::MAX,
        b.len() <= usize::MAX,
        0 <= k <= a.len(),
        k <= b.len(),
        a.take(k) == b.take(k),
        recovery_wf(got, first),
        got.valid_bytes <= k,
    ensures
        ({
            let (x, y) = (recover_on(a, first, got), recover_on(b, first, got));
            forall|i: int|
                got.entries.len() <= i < x.entries.len() && #[trigger] record_end(x, i) <= k ==> i
                    < y.entries.len() && y.entries[i] == x.entries[i]
        }),
    decreases a.len() - got.valid_bytes,
{
    let (x, y) = (recover_on(a, first, got), recover_on(b, first, got));
    lemma_recover_on_wf(a, first, got);
    if got.valid_bytes < a.len() {
        if let Some((e, end)) = record_at(a, got.valid_bytes as int) {
            if comes_next(first, got.entries, e) {
                let next = got.with(e, end);
                let n = got.entries.len() as int;
                lemma_with_wf(got, first, e, end);
                lemma_recover_extends(a, first, next);
                lemma_offsets(a, first, next);
                lemma_recover_on_wf(a, first, next);
                if end <= k {
                    lemma_record_local(a, b, got.valid_bytes as int, k);
                    lemma_damage_local(a, b, first, k, next);
                    lemma_recover_extends(b, first, next);
                    assert(x.entries[n] == x.entries.take(n + 1)[n]);
                    assert(y.entries[n] == y.entries.take(n + 1)[n]);
                    assert forall|i: int|
                        n <= i < x.entries.len() && #[trigger] record_end(x, i) <= k implies i
                        < y.entries.len() && y.entries[i] == x.entries[i] by {
                        if i > n {
                            assert(next.entries.len() <= i);
                        }
                    }
                }
            }
        }
    }
}

/// The bounds of what recovery still adds: every later offset is at or past
/// where it went on from.
proof fn lemma_offsets(b: Seq<u8>, first: u64, got: RecoveredView)
    requires
        recovery_wf(got, first),
        got.valid_bytes <= b.len(),
    ensures
        recover_on(b, first, got).valid_bytes >= got.valid_bytes,
        forall|i: int|
            got.offsets.len() <= i < recover_on(b, first, got).offsets.len()
                ==> #[trigger] recover_on(b, first, got).offsets[i] >= got.valid_bytes,
        recover_on(b, first, got).offsets.len() >= got.offsets.len(),
        recover_on(b, first, got).offsets.take(got.offsets.len() as int) == got.offsets,
    decreases b.len() - got.valid_bytes,
{
    assert(got.offsets.take(got.offsets.len() as int) =~= got.offsets);
    if b.len() <= usize::MAX && got.valid_bytes < b.len() {
        if let Some((e, end)) = record_at(b, got.valid_bytes as int) {
            if comes_next(first, got.entries, e) {
                let next = got.with(e, end);
                lemma_with_wf(got, first, e, end);
                lemma_offsets(b, first, next);
                let x = recover_on(b, first, got);
                let n = got.offsets.len() as int;
                assert(x.offsets.take(n) =~= x.offsets.take(n + 1).take(n));
                assert(next.offsets.take(n) =~= got.offsets);
                assert(x.offsets[n] == x.offsets.take(n + 1)[n]);
            }
        }
    }
}

/// Damage is local: two files that agree on their first `k` bytes give back
/// the same entries as far as their records end within those bytes. A torn
/// tail, a hole or a flipped bit past `k` costs nothing before it.
pub proof fn law_damage_is_local(a: Seq<u8>, b: Seq<u8>, first: u64, k: int)
    requires
        a.len() <= usize::MAX,
        b.len() <= usize::MAX,
        0 <= k <= a.len(),
        k <= b.len(),
        a.take(k) == b.take(k),
    ensures
        ({
            let (x, y) = (recovered(a, first), recovered(b, first));
            forall|i: int|
                0 <= i < x.entries.len() && #[trigger] record_end(x, i) <= k ==> i
                    < y.entries.len() && y.entries[i] == x.entries[i]
        }),
{
    lemma_damage_local(a, b, first, k, RecoveredView::start());
}

/// A block of zeros is no record: a lost write stops recovery where it began.
pub proof fn law_zero_hole_stops_recovery(b: Seq<u8>, p: int)
    requires
        0 <= p,
        p + 4 <= b.len(),
        forall|j: int| p <= j < p + 4 ==> b[j] == 0,
    ensures
        record_at(b, p) is None,
{
    let s = b.subrange(p, p + 4);
    assert(s[0] == 0 && s[1] == 0 && s[2] == 0 && s[3] == 0);
    assert((0u8 as u32) | ((0u8 as u32) << 8) | ((0u8 as u32) << 16) | ((0u8 as u32) << 24) == 0)
        by (bit_vector);
}

/// Check a sealed block.
fn unseal_at(b: &[u8], p: usize, limit: usize) -> (r: Option<&[u8]>)
    requires
        p <= b@.len(),
    ensures
        match r {
            Some(s) => unseal(b@, p as int, limit as int) == Some(s@),
            None => unseal(b@, p as int, limit as int) is None,
        },
        r is Some ==> p + 8 + r->Some_0@.len() <= b@.len() <= usize::MAX,
{
    if b.len() - p < 8 {
        return None;
    }
    let n: usize = get_u32(b, p) as usize;
    let crc: u32 = get_u32(b, p + 4);
    if n == 0 || n > limit || n > b.len() - p - 8 {
        return None;
    }
    let payload = slice_subrange(b, p + 8, p + 8 + n);
    if crc32(payload) != crc {
        return None;
    }
    Some(payload)
}

/// Read one record.
fn read_record(b: &[u8], p: usize) -> (r: Option<(Entry, usize)>)
    requires
        p <= b@.len(),
    ensures
        match r {
            Some((e, end)) => record_at(b@, p as int) == Some((e@, end as int)) && p < end
                <= b@.len(),
            None => record_at(b@, p as int) is None,
        },
{
    let payload = match unseal_at(b, p, MAX_RECORD) {
        Some(s) => s,
        None => return None,
    };
    let mut d = Dec::new(payload);
    let entry = match Entry::decode_from(&mut d) {
        Ok(e) => e,
        Err(_) => return None,
    };
    match d.finish() {
        Ok(_) => Some((entry, p + 8 + payload.len())),
        Err(_) => None,
    }
}

/// Read a log file, stopping at the first record that is not intact.
///
/// `first_index` is the index the first record must carry: 1 for a log that has
/// never been compacted, one past the snapshot otherwise.
pub fn recover_log_from(bytes: &[u8], first_index: u64) -> (r: RecoveredLog)
    ensures
        r@ == recovered(bytes@, first_index),
        recovery_wf(r@, first_index),
        r.valid_bytes <= bytes@.len(),
{
    let mut out = RecoveredLog {
        entries: Vec::new(),
        offsets: Vec::new(),
        valid_bytes: 0,
        damaged: false,
    };
    assert(out@ =~= RecoveredView::start());
    proof {
        law_recovery_is_contiguous(bytes@, first_index);
    }
    let total: usize = bytes.len();
    while out.valid_bytes < total
        invariant
            out.valid_bytes <= bytes@.len(),
            total == bytes@.len(),
            recovery_wf(out@, first_index),
            recovered(bytes@, first_index) == recover_on(bytes@, first_index, out@),
            recovery_wf(recovered(bytes@, first_index), first_index),
            recovered(bytes@, first_index).valid_bytes <= bytes@.len(),
        decreases bytes@.len() - out.valid_bytes,
    {
        let ghost before = out@;
        let (entry, end) = match read_record(bytes, out.valid_bytes) {
            Some(x) => x,
            None => {
                out.damaged = true;
                return out;
            },
        };
        // Even an intact record is rejected if it is not the one that should
        // come next: reordered or duplicated writes must not be spliced in.
        let n: usize = out.entries.len();
        let expected = if n == 0 {
            entry.index == first_index
        } else {
            let last = &out.entries[n - 1];
            last.index < u64::MAX && entry.index == last.index + 1 && entry.term >= last.term
        };
        assert(n > 0 ==> before.entries.last() == out.entries@[n - 1]@);
        if !expected {
            out.damaged = true;
            return out;
        }
        proof {
            lemma_with_wf(before, first_index, entry@, end as int);
        }
        let ghost e = entry@;
        out.entries.push(entry);
        let pos: usize = out.valid_bytes;
        out.offsets.push(pos);
        out.valid_bytes = end;
        assert(out@ =~= before.with(e, end as int));
    }
    out
}

/// Read a log file that has never been compacted.
pub fn recover_log(bytes: &[u8]) -> (r: RecoveredLog)
    ensures
        r@ == recovered(bytes@, 1),
        recovery_wf(r@, 1),
        r.valid_bytes <= bytes@.len(),
{
    recover_log_from(bytes, 1)
}

/// The index that the first record of a file claims, and never less than one.
pub open spec fn claimed_first(b: Seq<u8>) -> u64 {
    if b.len() < 24 || of_le_u32(b.subrange(0, 4)) < 16 {
        1
    } else {
        let i = of_le_u64(b.subrange(16, 24));
        if i == 0 {
            1
        } else {
            i
        }
    }
}

/// Read a log file whose first record may be at any index.
///
/// The write-ahead file is append-only, so after a compaction it still begins
/// with entries the snapshot has since absorbed. Recovery has to read from
/// whatever index the file actually starts at and let the caller discard the
/// part the snapshot covers -- the alternative, rewriting the file to start at
/// the new first index, would mean a window where the only durable copy of the
/// live entries is being overwritten.
pub fn recover_log_any_start(bytes: &[u8]) -> (r: RecoveredLog)
    ensures
        r@ == recovered(bytes@, claimed_first(bytes@)),
        recovery_wf(r@, claimed_first(bytes@)),
        r.valid_bytes <= bytes@.len(),
{
    // The index sits after term in the payload: len, crc, then term, index.
    let mut first: u64 = 1;
    if bytes.len() >= 24 && get_u32(bytes, 0) >= 16 {
        let i: u64 = get_u64(bytes, 16);
        if i > 0 {
            first = i;
        }
    }
    recover_log_from(bytes, first)
}

// ---- snapshots -----------------------------------------------------------

/// A snapshot larger than this is corruption, not data.
pub const MAX_SNAPSHOT: usize = 67_108_864;

/// A point-in-time image of the state machine, plus where it sits in the log.
///
/// The `data` blob is opaque here: this module knows how to store a snapshot
/// durably and how to tell a good one from a torn one, and nothing about what
/// the application put inside it.
#[derive(Debug, PartialEq, Eq)]
pub struct Snapshot {
    /// Monotonic write counter, used to pick the newer of the two files.
    pub seq: u64,
    /// Last log index this image includes.
    pub index: u64,
    /// Term of the entry at `index`.
    pub term: u64,
    pub data: Vec<u8>,
}

/// A snapshot as a mathematical value.
pub struct SnapshotView {
    pub seq: u64,
    pub index: u64,
    pub term: u64,
    pub data: Seq<u8>,
}

impl View for Snapshot {
    type V = SnapshotView;

    open spec fn view(&self) -> SnapshotView {
        SnapshotView { seq: self.seq, index: self.index, term: self.term, data: self.data@ }
    }
}

impl Clone for Snapshot {
    fn clone(&self) -> (r: Snapshot)
        ensures
            r@ == self@,
    {
        let data = copy_range(self.data.as_slice(), 0, self.data.len());
        assert(data@ =~= self.data@);
        Snapshot { seq: self.seq, index: self.index, term: self.term, data }
    }
}

impl SnapshotView {
    /// The contents of a snapshot's file before it is sealed.
    pub open spec fn body(self) -> Seq<u8> {
        le_u64(self.seq) + le_u64(self.index) + le_u64(self.term) + enc_bytes(self.data)
    }

    /// Whether this image is to be preferred over `other`: it covers more of
    /// the log, or as much and was not written earlier.
    pub open spec fn at_least(self, other: SnapshotView) -> bool {
        self.index > other.index || (self.index == other.index && self.seq >= other.seq)
    }
}

/// The snapshot a file holds, where it is intact.
pub open spec fn snapshot_in(b: Seq<u8>) -> Option<SnapshotView> {
    match unseal(b, 0, MAX_SNAPSHOT as int) {
        None => None,
        Some(body) => {
            let (s, i, t, d) = (
                parse_u64(body, 0),
                parse_u64(body, 8),
                parse_u64(body, 16),
                parse_blob(body, 24, MAX_SNAPSHOT),
            );
            if s.out is Ok && i.out is Ok && t.out is Ok && d.out is Ok {
                Some(
                    SnapshotView {
                        seq: s.out->Ok_0,
                        index: i.out->Ok_0,
                        term: t.out->Ok_0,
                        data: d.out->Ok_0,
                    },
                )
            } else {
                None
            }
        },
    }
}

/// The better of two snapshot files, and which of them holds it.
pub open spec fn picked_snapshot(a: Seq<u8>, b: Seq<u8>) -> Option<(SnapshotView, usize)> {
    match (snapshot_in(a), snapshot_in(b)) {
        (Some(x), Some(y)) => Some(
            if x.at_least(y) {
                (x, 0usize)
            } else {
                (y, 1usize)
            },
        ),
        (Some(x), None) => Some((x, 0usize)),
        (None, Some(y)) => Some((y, 1usize)),
        (None, None) => None,
    }
}

/// A snapshot file gives back the snapshot it was made from, whatever follows
/// it; and one that is cut short anywhere gives back nothing.
#[verifier::spinoff_prover]
#[verifier::rlimit(40)]
pub proof fn law_snapshot_round_trip(s: SnapshotView, more: Seq<u8>, cut: int)
    requires
        28 + s.data.len() <= MAX_SNAPSHOT,
        0 <= cut < sealed(s.body()).len(),
    ensures
        snapshot_in(sealed(s.body())) == Some(s),
        snapshot_in(sealed(s.body()) + more) == Some(s),
        snapshot_in(sealed(s.body()).take(cut)) is None,
{
    let file = sealed(s.body());
    assert(file.subrange(0, file.len() as int) =~= file);
    lemma_snapshot_read(s, file);
    assert((file + more).subrange(0, file.len() as int) =~= file);
    lemma_snapshot_read(s, file + more);
    let body = s.body();
    let short = file.take(cut);
    if cut >= 8 {
        law_le_u32_round_trip(body.len() as u32);
        assert(body.len() == 28 + s.data.len());
        assert(short.subrange(0, 4) =~= le_u32(body.len() as u32));
        assert(file.len() == 8 + body.len());
    }
}

#[verifier::spinoff_prover]
#[verifier::rlimit(40)]
proof fn lemma_snapshot_read(s: SnapshotView, b: Seq<u8>)
    requires
        28 + s.data.len() <= MAX_SNAPSHOT,
        at(b, 0, sealed(s.body())),
    ensures
        snapshot_in(b) == Some(s),
{
    let body = s.body();
    assert(enc_bytes(s.data).len() == 4 + s.data.len());
    lemma_unseal(b, 0, body, MAX_SNAPSHOT as int);
    assert(body.subrange(0, body.len() as int) =~= body);
    let (e1, e2, e3, e4) = (le_u64(s.seq), le_u64(s.index), le_u64(s.term), enc_bytes(s.data));
    lemma_at_split(body, 0, e1 + e2 + e3, e4);
    lemma_at_split(body, 0, e1 + e2, e3);
    lemma_at_split(body, 0, e1, e2);
    lemma_parse_u64(body, 0, s.seq);
    lemma_parse_u64(body, 8, s.index);
    lemma_parse_u64(body, 16, s.term);
    lemma_parse_blob(body, 24, s.data, MAX_SNAPSHOT);
}

/// A damaged snapshot file never hides the other one.
pub proof fn law_damaged_snapshot_falls_back(a: Seq<u8>, b: Seq<u8>)
    ensures
        snapshot_in(a) is None ==> picked_snapshot(a, b) == match snapshot_in(b) {
            Some(s) => Some((s, 1usize)),
            None => None,
        },
        snapshot_in(b) is None ==> picked_snapshot(a, b) == match snapshot_in(a) {
            Some(s) => Some((s, 0usize)),
            None => None,
        },
        picked_snapshot(a, b) is Some ==> ({
            let best = picked_snapshot(a, b)->Some_0.0;
            (snapshot_in(a) is Some ==> best.at_least(snapshot_in(a)->Some_0)) && (snapshot_in(
                b,
            ) is Some ==> best.at_least(snapshot_in(b)->Some_0))
        }),
{
}

impl Snapshot {
    pub fn encode(&self) -> (r: Vec<u8>)
        ensures
            r@ == sealed(self@.body()),
    {
        let mut payload = Enc::new();
        payload.u64(self.seq).u64(self.index).u64(self.term).bytes(self.data.as_slice());
        assert(payload@ =~= self@.body());
        let body = payload.as_slice();
        let mut out: Vec<u8> = Vec::new();
        put_u32(&mut out, body.len() as u32);
        put_u32(&mut out, crc32(body));
        out.extend_from_slice(body);
        assert(out@ =~= sealed(self@.body()));
        out
    }

    /// Decode a snapshot file, returning `None` if it is absent or damaged.
    pub fn decode(bytes: &[u8]) -> (r: Option<Snapshot>)
        ensures
            match r {
                Some(s) => snapshot_in(bytes@) == Some(s@),
                None => snapshot_in(bytes@) is None,
            },
    {
        let body = match unseal_at(bytes, 0, MAX_SNAPSHOT) {
            Some(s) => s,
            None => return None,
        };
        let mut d = Dec::new(body);
        let seq: u64 = match d.u64() {
            Ok(v) => v,
            Err(_) => return None,
        };
        let index: u64 = match d.u64() {
            Ok(v) => v,
            Err(_) => return None,
        };
        let term: u64 = match d.u64() {
            Ok(v) => v,
            Err(_) => return None,
        };
        let data = match d.blob(MAX_SNAPSHOT) {
            Ok(v) => copy_range(v, 0, v.len()),
            Err(_) => return None,
        };
        proof {
            let p = parse_blob(body@, 24, MAX_SNAPSHOT);
            assert(data@ =~= p.out->Ok_0);
        }
        Some(Snapshot { seq, index, term, data })
    }
}

/// Like [`pick_snapshot`], but also reports which input held it: 0 for `a`,
/// 1 for `b`. A node has to know which file holds its only good snapshot so
/// that it never writes the next one over it.
pub fn pick_snapshot_with_source(a: &[u8], b: &[u8]) -> (r: Option<(Snapshot, usize)>)
    ensures
        match r {
            Some((s, from)) => picked_snapshot(a@, b@) == Some((s@, from)),
            None => picked_snapshot(a@, b@) is None,
        },
{
    match (Snapshot::decode(a), Snapshot::decode(b)) {
        (Some(x), Some(y)) => {
            if x.index > y.index || (x.index == y.index && x.seq >= y.seq) {
                Some((x, 0))
            } else {
                Some((y, 1))
            }
        },
        (Some(x), None) => Some((x, 0)),
        (None, Some(y)) => Some((y, 1)),
        (None, None) => None,
    }
}

/// Choose the better of the two snapshot files that is intact.
///
/// Ordered by covered index first and sequence number only as a tie-break. The
/// sequence number records write order, and write order is not the same as
/// recency of content: snapshots arrive over a network that reorders, so an
/// older snapshot can quite easily be written after a newer one. Preferring the
/// higher index keeps the better image; a torn write still fails to decode and
/// falls through to the other file, which is what the two files are for.
pub fn pick_snapshot(a: &[u8], b: &[u8]) -> (r: Option<Snapshot>)
    ensures
        match r {
            Some(s) => picked_snapshot(a@, b@) is Some && picked_snapshot(a@, b@)->Some_0.0 == s@,
            None => picked_snapshot(a@, b@) is None,
        },
{
    match pick_snapshot_with_source(a, b) {
        Some((s, _)) => Some(s),
        None => None,
    }
}

// ---- hard state ----------------------------------------------------------

/// Size of one hard-state slot. Larger than the data so the layout can grow,
/// and a round number of bytes so slots never share a sector.
pub const SLOT_SIZE: usize = 64;

/// The state file holds exactly two slots.
pub const STATE_FILE_SIZE: usize = 128;

/// How a slot says that no vote was cast.
pub const NO_VOTE: u32 = 4_294_967_295;

/// The bytes of a slot that hold data.
pub const SLOT_BODY: usize = 20;

/// What a node must not forget: its term and its vote.
#[derive(Clone, Copy, Debug, PartialEq, Eq, Structural)]
pub struct HardState {
    pub term: u64,
    pub voted_for: Option<NodeId>,
    /// Monotonic write counter, used to pick the newer of the two slots.
    pub seq: u64,
}

impl Default for HardState {
    fn default() -> (r: HardState)
        ensures
            r == HardState::blank(),
    {
        HardState { term: 0, voted_for: None, seq: 0 }
    }
}

impl HardState {
    /// The state of a node that has never written one.
    pub open spec fn blank() -> HardState {
        HardState { term: 0, voted_for: None, seq: 0 }
    }

    /// The data bytes of a slot.
    pub open spec fn body(self) -> Seq<u8> {
        le_u64(self.seq) + le_u64(self.term) + le_u32(
            match self.voted_for {
                Some(n) => n.0,
                None => NO_VOTE,
            },
        )
    }

    /// A whole slot: data, checksum, and zeros to the end.
    pub open spec fn slot(self) -> Seq<u8> {
        self.body() + le_u32(crc_of(self.body())) + Seq::new(40, |i: int| 0u8)
    }

    /// Encode into a fixed-size slot.
    pub fn to_slot(self) -> (r: [u8; SLOT_SIZE])
        ensures
            r@ == self.slot(),
    {
        let mut body = Enc::new();
        let vote: u32 = match self.voted_for {
            Some(n) => n.0,
            None => NO_VOTE,
        };
        body.u64(self.seq).u64(self.term).u32(vote);
        assert(body@ =~= self.body());
        let mut data = body.into_vec();
        let sum: u32 = crc32(data.as_slice());
        put_u32(&mut data, sum);
        let mut slot = [0u8;SLOT_SIZE];
        let mut i: usize = 0;
        while i < data.len()
            invariant
                i <= data@.len(),
                data@.len() == 24,
                slot@.len() == 64,
                forall|j: int| 0 <= j < 64 ==> #[trigger] slot@[j] == if j < i {
                    data@[j]
                } else {
                    0u8
                },
            decreases data@.len() - i,
        {
            slot[i] = data[i];
            i += 1;
        }
        assert(slot@ =~= self.slot());
        slot
    }

    fn from_slot(slot: &[u8]) -> (r: Option<HardState>)
        ensures
            r == slot_state(slot@),
    {
        if slot.len() < SLOT_SIZE {
            return None;
        }
        let body = slice_subrange(slot, 0, SLOT_BODY);
        assert(body@ =~= slot@.take(20));
        if crc32(body) != get_u32(slot, SLOT_BODY) {
            return None;
        }
        let seq: u64 = get_u64(body, 0);
        let term: u64 = get_u64(body, 8);
        let vote: u32 = get_u32(body, 16);
        assert(slot@.subrange(0, 8) =~= body@.subrange(0, 8));
        assert(slot@.subrange(8, 16) =~= body@.subrange(8, 16));
        assert(slot@.subrange(16, 20) =~= body@.subrange(16, 20));
        let voted_for = if vote == NO_VOTE {
            None
        } else {
            Some(NodeId(vote))
        };
        Some(HardState { term, voted_for, seq })
    }

    /// Which slot the next write goes to. Alternating means an interrupted
    /// write can only ever damage the slot that is not currently authoritative.
    pub fn slot_offset(seq: u64) -> (r: usize)
        ensures
            r == offset_of_slot(seq),
    {
        (seq % 2) as usize * SLOT_SIZE
    }
}

/// Where the slot for `seq` begins.
pub open spec fn offset_of_slot(seq: u64) -> int {
    (seq % 2) * SLOT_SIZE
}

/// The state a slot holds, where it is intact.
pub open spec fn slot_state(s: Seq<u8>) -> Option<HardState> {
    if s.len() < SLOT_SIZE || crc_of(s.take(20)) != of_le_u32(s.subrange(20, 24)) {
        None
    } else {
        let vote = of_le_u32(s.subrange(16, 20));
        Some(
            HardState {
                seq: of_le_u64(s.subrange(0, 8)),
                term: of_le_u64(s.subrange(8, 16)),
                voted_for: if vote == NO_VOTE {
                    None
                } else {
                    Some(NodeId(vote))
                },
            },
        )
    }
}

/// The state in slot `i` of a file, where there is one.
pub open spec fn slot_in(b: Seq<u8>, i: int) -> Option<HardState> {
    if (i + 1) * SLOT_SIZE > b.len() {
        None
    } else {
        slot_state(b.subrange(i * SLOT_SIZE, (i + 1) * SLOT_SIZE))
    }
}

/// The newer of a state and what a slot holds.
pub open spec fn newer(best: HardState, slot: Option<HardState>) -> HardState {
    match slot {
        Some(hs) => if hs.seq >= best.seq {
            hs
        } else {
            best
        },
        None => best,
    }
}

/// The hard state a file holds: the newest slot that checks out.
pub open spec fn recovered_state(b: Seq<u8>) -> HardState {
    newer(newer(HardState::blank(), slot_in(b, 0)), slot_in(b, 1))
}

/// Recover hard state, preferring the newest slot that checks out.
pub fn recover_hard_state(bytes: &[u8]) -> (r: HardState)
    ensures
        r == recovered_state(bytes@),
{
    let mut best = HardState { term: 0, voted_for: None, seq: 0 };
    if bytes.len() >= SLOT_SIZE {
        let first = slice_subrange(bytes, 0, SLOT_SIZE);
        if let Some(hs) = HardState::from_slot(first) {
            if hs.seq >= best.seq {
                best = hs;
            }
        }
    }
    if bytes.len() >= STATE_FILE_SIZE {
        let second = slice_subrange(bytes, SLOT_SIZE, STATE_FILE_SIZE);
        if let Some(hs) = HardState::from_slot(second) {
            if hs.seq >= best.seq {
                best = hs;
            }
        }
    }
    best
}

/// A slot gives back the state it was made from. (A vote for the node whose
/// number marks "no vote" is the one state a slot cannot hold.)
pub proof fn law_slot_round_trip(hs: HardState)
    requires
        hs.voted_for != Some(NodeId(NO_VOTE)),
    ensures
        slot_state(hs.slot()) == Some(hs),
        hs.slot().len() == SLOT_SIZE,
{
    let s = hs.slot();
    let vote = match hs.voted_for {
        Some(n) => n.0,
        None => NO_VOTE,
    };
    assert(s.take(20) =~= hs.body());
    assert(s.subrange(0, 8) =~= le_u64(hs.seq));
    assert(s.subrange(8, 16) =~= le_u64(hs.term));
    assert(s.subrange(16, 20) =~= le_u32(vote));
    assert(s.subrange(20, 24) =~= le_u32(crc_of(hs.body())));
    law_le_u64_round_trip(hs.seq);
    law_le_u64_round_trip(hs.term);
    law_le_u32_round_trip(vote);
    law_le_u32_round_trip(crc_of(hs.body()));
}

/// A state file after slot `i` was overwritten with `s`.
pub open spec fn with_slot(b: Seq<u8>, i: int, s: Seq<u8>) -> Seq<u8> {
    if i == 0 {
        s + b.subrange(64, 128)
    } else {
        b.subrange(0, 64) + s
    }
}

/// Writing a newer state into its slot makes recovery return it; and however
/// that write is torn, as long as the slot then fails its checksum, recovery
/// still returns what the other slot held.
pub proof fn law_hard_state_survives_torn_write(b: Seq<u8>, hs: HardState, torn: Seq<u8>)
    requires
        b.len() == STATE_FILE_SIZE,
        hs.voted_for != Some(NodeId(NO_VOTE)),
        torn.len() == SLOT_SIZE,
        slot_state(torn) is None,
        slot_in(b, 1 - (hs.seq % 2)) is Some,
        slot_in(b, 1 - (hs.seq % 2))->Some_0.seq < hs.seq,
    ensures
        recovered_state(with_slot(b, (hs.seq % 2) as int, hs.slot())) == hs,
        recovered_state(with_slot(b, (hs.seq % 2) as int, torn)) == slot_in(
            b,
            1 - (hs.seq % 2),
        )->Some_0,
{
    law_slot_round_trip(hs);
    let i = (hs.seq % 2) as int;
    let (good, bad) = (with_slot(b, i, hs.slot()), with_slot(b, i, torn));
    if i == 0 {
        assert(good.subrange(0, 64) =~= hs.slot());
        assert(good.subrange(64, 128) =~= b.subrange(64, 128));
        assert(bad.subrange(0, 64) =~= torn);
        assert(bad.subrange(64, 128) =~= b.subrange(64, 128));
    } else {
        assert(good.subrange(64, 128) =~= hs.slot());
        assert(good.subrange(0, 64) =~= b.subrange(0, 64));
        assert(bad.subrange(64, 128) =~= torn);
        assert(bad.subrange(0, 64) =~= b.subrange(0, 64));
    }
}

} // verus!
