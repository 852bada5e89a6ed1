//! What a disk does with what it is given.

use crate::simcore::disk::{
    applied, applied_all, crash_file, crash_write, crash_writes, latency_of, overwritten,
    platter_order, resized, DiskConfig, DiskStats, DiskView, FileId, FileView, IoResult, Wreck, WriteView,
};
use crate::simcore::rng::{law_range_in_bounds, law_shuffle_permutes, Rng};
use crate::simcore::world::WorldView;
use crate::simcore::world_laws::law_delays_count_from_now;
use crate::simcore::scheduler::{EventView, FiredView};
use crate::simcore::NodeId;
use vstd::prelude::*;

verus! {

/// What is written can be read: the bytes stand where they were put, those
/// around them are as they were, and a gap before them is zero.
pub proof fn law_writes_are_read_back(buf: Seq<u8>, offset: int, bytes: Seq<u8>)
    requires
        0 <= offset,
        offset + bytes.len() <= usize::MAX,
    ensures
        ({
            let after = overwritten(buf, offset, bytes);
            &&& after.len() >= offset + bytes.len()
            &&& after.len() >= buf.len()
            &&& after.len() == buf.len() || after.len() == offset + bytes.len()
            &&& after.subrange(offset, offset + bytes.len()) == bytes
            &&& forall|i: int|
                0 <= i < buf.len() && !(offset <= i < offset + bytes.len()) ==> #[trigger] after[i]
                    == buf[i]
            &&& forall|i: int| buf.len() <= i < offset ==> #[trigger] after[i] == 0
        }),
{
    let after = overwritten(buf, offset, bytes);
    assert(after.subrange(offset, offset + bytes.len()) =~= bytes);
}

/// Setting a length keeps what lies inside it and fills up with zeros.
pub proof fn law_lengths_are_set(buf: Seq<u8>, len: nat)
    ensures
        resized(buf, len).len() == len,
        forall|i: int| 0 <= i < len && i < buf.len() ==> #[trigger] resized(buf, len)[i] == buf[i],
        forall|i: int| buf.len() <= i < len ==> #[trigger] resized(buf, len)[i] == 0,
        resized(buf, buf.len()) == buf,
{
    assert(resized(buf, buf.len()) =~= buf);
}

/// Operations have numbers of their own, complete within the disk's latency
/// where it is never slow, and fail exactly as often as the disk does: never
/// where errors never happen, and always where they always do.
pub proof fn law_operations_complete(d: DiskView, rng: Rng, w: WriteView, file: FileId)
    requires
        d.next_op < u64::MAX,
        d.cfg.write_latency.0 <= d.cfg.write_latency.1,
        d.cfg.sync_latency.0 <= d.cfg.sync_latency.1,
    ensures
        ({
            let (a, r, one) = d.issue(rng, w, file);
            let (b, q, two) = d.sync(rng, file);
            &&& one.op == d.next_op && a.next_op == d.next_op + 1
            &&& two.op == d.next_op && b.next_op == d.next_op + 1
            &&& d.cfg.slow_ppm == 0 ==> d.cfg.write_latency.0 <= one.delay <= d.cfg.write_latency.1
            &&& d.cfg.slow_ppm == 0 ==> d.cfg.sync_latency.0 <= two.delay <= d.cfg.sync_latency.1
            &&& d.cfg.io_error_ppm == 0 ==> one.result == IoResult::Done && two.result
                == IoResult::Done
            &&& d.cfg.io_error_ppm >= 1_000_000 ==> one.result == IoResult::Error && two.result
                == IoResult::Error
            &&& a.cfg == d.cfg && b.cfg == d.cfg
        }),
{
    law_range_in_bounds(rng, d.cfg.write_latency.0, d.cfg.write_latency.1);
    law_range_in_bounds(rng, d.cfg.sync_latency.0, d.cfg.sync_latency.1);
}

/// A slow operation takes its usual time as often as the factor says.
pub proof fn law_slowness_is_a_factor(cfg: DiskConfig, rng: Rng, base: (u64, u64))
    requires
        base.0 <= base.1,
        cfg.slow_ppm >= 1_000_000,
        base.1 * cfg.slow_factor <= u64::MAX,
    ensures
        base.0 * cfg.slow_factor <= latency_of(cfg, rng, base).0 <= base.1 * cfg.slow_factor,
{
    law_range_in_bounds(rng, base.0, base.1);
    let d = rng.skewed_of(base.0, base.1).0;
    let f = cfg.slow_factor;
    assert(base.0 * f <= d * f <= base.1 * f) by (nonlinear_arith)
        requires
            base.0 <= d <= base.1,
            f >= 0,
    ;
}

/// What is counted: an operation that fails is an error and nothing else; one
/// that is done is a write, with its bytes, or a sync.
pub proof fn law_operations_are_counted(d: DiskView, rng: Rng, w: WriteView, file: FileId)
    requires
        d.stats.writes < u64::MAX && d.stats.syncs < u64::MAX && d.stats.errors < u64::MAX,
        w matches WriteView::Data { offset, bytes } ==> d.stats.bytes_written + bytes.len() <= u64::MAX,
    ensures
        ({
            let (a, r, one) = d.issue(rng, w, file);
            let (b, q, two) = d.sync(rng, file);
            let size = match w {
                WriteView::Data { offset, bytes } => bytes.len() as int,
                WriteView::SetLen(_) => 0,
            };
            &&& one.result == IoResult::Error ==> a.stats.errors == d.stats.errors + 1
                && a.stats.writes == d.stats.writes && a.stats.bytes_written == d.stats.bytes_written
            &&& one.result == IoResult::Done ==> a.stats.errors == d.stats.errors && a.stats.writes
                == d.stats.writes + 1 && a.stats.bytes_written == d.stats.bytes_written + size
            &&& two.result == IoResult::Error ==> b.stats.errors == d.stats.errors + 1
                && b.stats.syncs == d.stats.syncs
            &&& two.result == IoResult::Done ==> b.stats.errors == d.stats.errors && b.stats.syncs
                == d.stats.syncs + 1
        }),
{
}

/// A write waits for a sync: until then it is pending, behind what was pending
/// before it, and readers see it though it is not durable.
pub proof fn law_writes_wait_for_a_sync(f: FileView, w: WriteView)
    requires
        f.wf(),
    ensures
        f.write(w).durable == f.durable,
        f.write(w).pending.len() == f.pending.len() + 1,
        f.write(w).pending.last() == w,
        f.write(w).pending.drop_last() == f.pending,
        f.write(w).cache == applied(f.cache, w),
        f.write(w).sync().durable == applied(f.cache, w),
        f.sync().durable == f.cache,
        f.sync().cache == f.cache,
        f.sync().pending.len() == 0,
        f.sync().sync() == f.sync(),
{
    assert(f.write(w).pending.drop_last() =~= f.pending);
    assert(f.sync().sync() =~= f.sync());
}

proof fn lemma_none_lost(cfg: DiskConfig, at: Wreck, ws: Seq<WriteView>)
    requires
        cfg.lost_write_ppm == 0,
        cfg.torn_write_ppm == 0,
    ensures
        crash_writes(cfg, at, ws).durable == applied_all(at.durable, ws),
        crash_writes(cfg, at, ws).stats == at.stats,
    decreases ws.len(),
{
    if ws.len() > 0 {
        lemma_none_lost(cfg, at, ws.drop_last());
    }
}

/// A disk that loses, tears and reorders nothing brings every write through a
/// crash, synced or not.
pub proof fn law_a_faithful_disk_loses_nothing(
    cfg: DiskConfig,
    f: FileView,
    stats: DiskStats,
    rng: Rng,
)
    requires
        f.wf(),
        cfg.lost_write_ppm == 0,
        cfg.torn_write_ppm == 0,
        !cfg.reorder_unsynced,
    ensures
        crash_file(cfg, f, stats, rng).0.durable == f.cache,
        crash_file(cfg, f, stats, rng).0.cache == f.cache,
        crash_file(cfg, f, stats, rng).0.pending.len() == 0,
        crash_file(cfg, f, stats, rng).1 == stats,
{
    let (ws, r) = platter_order(cfg, rng, f.pending);
    lemma_none_lost(cfg, Wreck { durable: f.durable, stats, rng: r }, ws);
}

/// What reaches the platter is what was pending, each write as often as it was:
/// in the order it was written, unless the disk reorders.
pub proof fn law_the_platter_gets_what_was_pending(cfg: DiskConfig, rng: Rng, ws: Seq<WriteView>)
    requires
        ws.len() <= u64::MAX,
    ensures
        platter_order(cfg, rng, ws).0.to_multiset() == ws.to_multiset(),
        !cfg.reorder_unsynced ==> platter_order(cfg, rng, ws).0 == ws,
        !cfg.reorder_unsynced ==> platter_order(cfg, rng, ws).1 == rng,
        cfg.reorder_unsynced ==> platter_order(cfg, rng, ws) == rng.shuffled(ws, ws.len() - 1),
{
    law_shuffle_permutes(rng, ws);
}

/// A crash says of each pending write whether it was lost or torn: one that is
/// lost leaves no mark, one that lands whole is not counted as either, and a
/// length that is set is never torn.
pub proof fn law_losses_are_counted(cfg: DiskConfig, at: Wreck, w: WriteView)
    requires
        at.stats.writes_lost < u64::MAX,
        at.stats.writes_torn < u64::MAX,
    ensures
        ({
            let b = crash_write(cfg, at, w);
            let lost = b.stats.writes_lost - at.stats.writes_lost;
            let torn = b.stats.writes_torn - at.stats.writes_torn;
            &&& 0 <= lost && 0 <= torn && lost + torn <= 1
            &&& lost == 1 ==> b.durable == at.durable
            &&& lost == 0 && torn == 0 ==> b.durable == applied(at.durable, w)
            &&& torn == 1 ==> w is Data && cfg.torn_write_ppm > 0
            &&& cfg.lost_write_ppm >= 1_000_000 ==> lost == 1
            &&& cfg.lost_write_ppm == 0 && w is SetLen ==> lost == 0
            &&& cfg.lost_write_ppm == 0 && cfg.torn_write_ppm == 0 ==> lost == 0 && torn == 0
            &&& cfg.torn_write_ppm >= 1_000_000 && w is Data ==> lost + torn == 1
        }),
{
}

/// A write that is issued in the world lands on the disk of its node and on no
/// other, and its completion comes to that node, once its delay has passed.
pub proof fn law_the_world_writes_for_a_node(w: WorldView, node: NodeId, file: FileId, k: WriteView)
    requires
        w.wf(),
        w.has(node),
        w.sched.now + w.disks[node.0 as int].issue(w.rng, k, file).2.delay <= u64::MAX,
        w.sched.now + w.disks[node.0 as int].sync(w.rng, file).2.delay <= u64::MAX,
    ensures
        ({
            let i = node.0 as int;
            let (a, b) = (w.disk_write(node, file, k), w.disk_sync(node, file));
            let (one, two) = (w.disks[i].issue(w.rng, k, file), w.disks[i].sync(w.rng, file));
            &&& a.disks[i] == one.0 && b.disks[i] == two.0
            &&& forall|j: int|
                0 <= j < w.disks.len() && j != i ==> #[trigger] a.disks[j] == w.disks[j]
                    && b.disks[j] == w.disks[j]
            &&& a.sched.queue.contains(
                FiredView {
                    time: (w.sched.now + one.2.delay) as u64,
                    id: w.sched.next_id,
                    event: EventView::Storage { node, op: w.next_op(node), result: one.2.result },
                },
            )
            &&& b.sched.queue.contains(
                FiredView {
                    time: (w.sched.now + two.2.delay) as u64,
                    id: w.sched.next_id,
                    event: EventView::Storage { node, op: w.next_op(node), result: two.2.result },
                },
            )
            &&& a.up == w.up && b.up == w.up && a.net == w.net && b.net == w.net
        }),
{
    reveal(WorldView::disk_write);
    reveal(WorldView::disk_sync);
    let i = node.0 as int;
    let (one, two) = (w.disks[i].issue(w.rng, k, file), w.disks[i].sync(w.rng, file));
    law_delays_count_from_now(
        w.sched,
        one.2.delay,
        EventView::Storage { node, op: one.2.op, result: one.2.result },
    );
    law_delays_count_from_now(
        w.sched,
        two.2.delay,
        EventView::Storage { node, op: two.2.op, result: two.2.result },
    );
}

/// Appending writes behind everything a reader sees.
pub proof fn law_appending_goes_to_the_end(w: WorldView, node: NodeId, file: FileId, bytes: Seq<u8>)
    requires
        w.disks[node.0 as int].file(file).cache.len() + bytes.len() <= usize::MAX,
    ensures
        applied(w.disks[node.0 as int].file(file).cache, w.appending(node, file, bytes))
            == w.disks[node.0 as int].file(file).cache + bytes,
{
    let cache = w.disks[node.0 as int].file(file).cache;
    assert(applied(cache, w.appending(node, file, bytes)) =~= cache + bytes);
}

} // verus!
