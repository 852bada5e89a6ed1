//! A simulated disk with an honest crash model.
//!
//! The single most important thing this file does is refuse to pretend that a
//! completed write is a durable write. Every file has two images:
//!
//! * `durable` -- what survives a crash: the content as of the last completed
//!   `fsync`, plus whatever the crash model decides to keep of the rest.
//! * `cache`   -- what a reader sees right now, i.e. the page cache.
//!
//! A write lands in `cache` and is remembered as *pending* until an `fsync`
//! that was issued after it completes. If the node crashes first, each pending
//! write is independently lost, torn (applied as a partial prefix), or applied
//! in full. Writes may also be reapplied out of order, which leaves zero-filled
//! holes -- exactly the shape of corruption a naive log reader mishandles.

use crate::bytes::copy_range;
use crate::count::{add_capped, bump, capped_u64, count_up, mul_capped, times};
use crate::simcore::rng::{law_below_in_range, Rng};
use crate::simcore::Nanos;
use vstd::prelude::*;

verus! {

pub type OpId = u64;

/// Files are identified by a small integer chosen by the application layer.
pub type FileId = u32;

/// The sector size the torn-write model rounds to. Real drives tear at sector
/// granularity most of the time; the model also tears mid-sector sometimes,
/// because assuming otherwise is how people write log readers that break.
pub const SECTOR: usize = 512;

/// How an operation on the device ended.
#[derive(Clone, Copy, Debug, PartialEq, Eq, Structural)]
pub enum IoResult {
    Done,
    /// The device rejected the operation. The data was not written.
    Error,
}

impl IoResult {
    pub fn is_ok(self) -> (r: bool)
        ensures
            r == (self == IoResult::Done),
    {
        match self {
            IoResult::Done => true,
            IoResult::Error => false,
        }
    }
}

/// How a disk behaves.
#[derive(Clone, Copy, Debug, PartialEq, Eq)]
pub struct DiskConfig {
    pub write_latency: (Nanos, Nanos),
    pub sync_latency: (Nanos, Nanos),
    /// Probability a given operation fails outright.
    pub io_error_ppm: u32,
    /// Probability an unsynced write is torn rather than applied whole.
    pub torn_write_ppm: u32,
    /// Probability an unsynced write is lost entirely on crash.
    pub lost_write_ppm: u32,
    /// Whether unsynced writes may reach the platter out of order.
    pub reorder_unsynced: bool,
    /// Probability an operation hits a latency spike.
    pub slow_ppm: u32,
    pub slow_factor: u64,
}

impl Default for DiskConfig {
    fn default() -> (r: DiskConfig)
        ensures
            r == DiskConfig::standard(),
    {
        DiskConfig {
            write_latency: (20_000, 500_000),
            sync_latency: (200_000, 8_000_000),
            io_error_ppm: 0,
            torn_write_ppm: 0,
            lost_write_ppm: 0,
            reorder_unsynced: false,
            slow_ppm: 0,
            slow_factor: 20,
        }
    }
}

impl DiskConfig {
    /// A disk that keeps its promises and never fails.
    pub open spec fn standard() -> DiskConfig {
        DiskConfig {
            write_latency: (20_000, 500_000),
            sync_latency: (200_000, 8_000_000),
            io_error_ppm: 0,
            torn_write_ppm: 0,
            lost_write_ppm: 0,
            reorder_unsynced: false,
            slow_ppm: 0,
            slow_factor: 20,
        }
    }

    /// A disk that never lies and never fails: used to prove that a failing
    /// seed really does depend on storage faults.
    pub fn reliable() -> (r: DiskConfig)
        ensures
            r == DiskConfig::standard(),
    {
        DiskConfig::default()
    }

    /// A disk that fails, and loses, tears and reorders what was not synced.
    pub open spec fn harsh() -> DiskConfig {
        DiskConfig {
            io_error_ppm: 2_000,
            torn_write_ppm: 150_000,
            lost_write_ppm: 300_000,
            reorder_unsynced: true,
            slow_ppm: 10_000,
            ..DiskConfig::standard()
        }
    }

    pub fn hostile() -> (r: DiskConfig)
        ensures
            r == DiskConfig::harsh(),
    {
        let mut cfg = DiskConfig::default();
        cfg.io_error_ppm = 2_000;
        cfg.torn_write_ppm = 150_000;
        cfg.lost_write_ppm = 300_000;
        cfg.reorder_unsynced = true;
        cfg.slow_ppm = 10_000;
        cfg
    }
}

/// A change to a file.
#[derive(Debug)]
pub enum WriteKind {
    /// Overwrite (and zero-extend to reach) `offset..offset+len`.
    Data { offset: usize, bytes: Vec<u8> },
    /// Set the file length, zero-extending if it grows.
    SetLen(usize),
}

/// A change to a file, as a mathematical value.
pub enum WriteView {
    Data { offset: usize, bytes: Seq<u8> },
    SetLen(usize),
}

impl View for WriteKind {
    type V = WriteView;

    open spec fn view(&self) -> WriteView {
        match self {
            WriteKind::Data { offset, bytes } => WriteView::Data {
                offset: *offset,
                bytes: bytes@,
            },
            WriteKind::SetLen(len) => WriteView::SetLen(*len),
        }
    }
}

impl Clone for WriteKind {
    fn clone(&self) -> (r: WriteKind)
        ensures
            r@ == self@,
    {
        match self {
            WriteKind::Data { offset, bytes } => {
                let copy = copy_range(bytes.as_slice(), 0, bytes.len());
                assert(copy@ =~= bytes@);
                WriteKind::Data { offset: *offset, bytes: copy }
            },
            WriteKind::SetLen(len) => WriteKind::SetLen(*len),
        }
    }
}

/// A buffer of a given length: cut off, or filled up with zeros.
pub open spec fn resized(buf: Seq<u8>, len: nat) -> Seq<u8> {
    Seq::new(
        len,
        |i: int|
            if i < buf.len() {
                buf[i]
            } else {
                0u8
            },
    )
}

/// A buffer overwritten from `offset` on, with zeros before `offset` where it
/// was shorter. A write that would end past the largest offset changes nothing.
pub open spec fn overwritten(buf: Seq<u8>, offset: int, bytes: Seq<u8>) -> Seq<u8> {
    let end = offset + bytes.len();
    if end > usize::MAX {
        buf
    } else {
        Seq::new(
            if buf.len() < end {
                end as nat
            } else {
                buf.len()
            },
            |i: int|
                if offset <= i < end {
                    bytes[i - offset]
                } else if i < buf.len() {
                    buf[i]
                } else {
                    0u8
                },
        )
    }
}

/// A buffer after one change.
pub open spec fn applied(buf: Seq<u8>, w: WriteView) -> Seq<u8> {
    match w {
        WriteView::Data { offset, bytes } => overwritten(buf, offset as int, bytes),
        WriteView::SetLen(len) => resized(buf, len as nat),
    }
}

/// A buffer after a list of changes, in order.
pub open spec fn applied_all(buf: Seq<u8>, ws: Seq<WriteView>) -> Seq<u8>
    decreases ws.len(),
{
    if ws.len() == 0 {
        buf
    } else {
        applied(applied_all(buf, ws.drop_last()), ws.last())
    }
}

/// The views of a list of changes.
pub open spec fn write_views(ws: Seq<WriteKind>) -> Seq<WriteView> {
    ws.map_values(|w: WriteKind| w@)
}

fn apply(buf: &mut Vec<u8>, kind: &WriteKind)
    ensures
        final(buf)@ == applied(old(buf)@, kind@),
{
    match kind {
        WriteKind::Data { offset, bytes } => {
            if bytes.len() > usize::MAX - *offset {
                return;
            }
            let end: usize = *offset + bytes.len();
            if buf.len() < end {
                // A write past EOF leaves a zero-filled hole if an earlier
                // write was lost. That is the real behaviour, and the log
                // reader has to cope with it.
                buf.resize(end, 0);
            }
            let ghost base = buf@;
            let mut i: usize = 0;
            while i < bytes.len()
                invariant
                    i <= bytes@.len(),
                    end == *offset + bytes@.len(),
                    end <= base.len(),
                    buf@.len() == base.len(),
                    forall|j: int|
                        0 <= j < buf@.len() ==> #[trigger] buf@[j] == if *offset <= j < *offset + i {
                            bytes@[j - *offset]
                        } else {
                            base[j]
                        },
                decreases bytes@.len() - i,
            {
                buf[*offset + i] = bytes[i];
                i += 1;
            }
            assert(buf@ =~= applied(old(buf)@, kind@));
        },
        WriteKind::SetLen(len) => {
            buf.resize(*len, 0);
            assert(buf@ =~= applied(old(buf)@, kind@));
        },
    }
}

/// One simulated file.
#[derive(Debug)]
pub struct SimFile {
    pub durable: Vec<u8>,
    pub cache: Vec<u8>,
    /// Writes that have landed in the cache but are not yet covered by a
    /// completed sync, in the order they were issued.
    pub pending: Vec<WriteKind>,
}

/// One simulated file, as a mathematical value.
#[verifier::ext_equal]
pub struct FileView {
    pub durable: Seq<u8>,
    pub cache: Seq<u8>,
    pub pending: Seq<WriteView>,
}

impl View for SimFile {
    type V = FileView;

    open spec fn view(&self) -> FileView {
        FileView {
            durable: self.durable@,
            cache: self.cache@,
            pending: write_views(self.pending@),
        }
    }
}

impl FileView {
    /// A file nothing was ever written to.
    pub open spec fn blank() -> FileView {
        FileView { durable: Seq::empty(), cache: Seq::empty(), pending: Seq::empty() }
    }

    /// What readers see is what is durable, with the pending writes applied.
    pub open spec fn wf(self) -> bool {
        self.cache == applied_all(self.durable, self.pending)
    }

    /// The file after a write.
    pub open spec fn write(self, w: WriteView) -> FileView {
        FileView { cache: applied(self.cache, w), pending: self.pending.push(w), ..self }
    }

    /// The file after a sync.
    pub open spec fn sync(self) -> FileView {
        FileView {
            durable: applied_all(self.durable, self.pending),
            pending: Seq::empty(),
            ..self
        }
    }
}

/// What a disk has done and suffered.
#[derive(Clone, Copy, Debug, PartialEq, Eq)]
pub struct DiskStats {
    pub writes: u64,
    pub syncs: u64,
    pub errors: u64,
    pub crashes: u64,
    pub bytes_written: u64,
    pub writes_lost: u64,
    pub writes_torn: u64,
}

impl Default for DiskStats {
    fn default() -> (r: DiskStats)
        ensures
            r == DiskStats::zero(),
    {
        DiskStats {
            writes: 0,
            syncs: 0,
            errors: 0,
            crashes: 0,
            bytes_written: 0,
            writes_lost: 0,
            writes_torn: 0,
        }
    }
}

impl DiskStats {
    /// Nothing has happened yet.
    pub open spec fn zero() -> DiskStats {
        DiskStats {
            writes: 0,
            syncs: 0,
            errors: 0,
            crashes: 0,
            bytes_written: 0,
            writes_lost: 0,
            writes_torn: 0,
        }
    }
}

/// The outcome of issuing an operation: it completes at `now + delay`, and
/// `result` is what the completion will carry.
#[derive(Clone, Copy, Debug, PartialEq, Eq)]
pub struct Issued {
    pub op: OpId,
    pub delay: Nanos,
    pub result: IoResult,
}

/// A simulated disk.
#[derive(Debug)]
pub struct Disk {
    cfg: DiskConfig,
    /// The files, by ascending id.
    files: Vec<(FileId, SimFile)>,
    next_op: OpId,
    stats: DiskStats,
}

/// A simulated disk, as a mathematical value.
#[verifier::ext_equal]
pub struct DiskView {
    pub cfg: DiskConfig,
    pub files: Seq<(FileId, FileView)>,
    pub next_op: OpId,
    pub stats: DiskStats,
}

/// The views of a list of files.
pub open spec fn file_views(files: Seq<(FileId, SimFile)>) -> Seq<(FileId, FileView)> {
    files.map_values(|f: (FileId, SimFile)| (f.0, f.1@))
}

/// Where a file stands, or would stand, among files in ascending order.
pub open spec fn file_place(files: Seq<(FileId, FileView)>, id: FileId) -> int
    decreases files.len(),
{
    if files.len() == 0 || files.last().0 < id {
        files.len() as int
    } else {
        file_place(files.drop_last(), id)
    }
}

/// The file with this id, where there is one.
pub open spec fn file_of(files: Seq<(FileId, FileView)>, id: FileId) -> Option<FileView> {
    let p = file_place(files, id);
    if p < files.len() && files[p].0 == id {
        Some(files[p].1)
    } else {
        None
    }
}

/// The files with one of them set.
pub open spec fn file_put(files: Seq<(FileId, FileView)>, id: FileId, f: FileView) -> Seq<
    (FileId, FileView),
> {
    let p = file_place(files, id);
    if p < files.len() && files[p].0 == id {
        files.update(p, (id, f))
    } else {
        files.insert(p, (id, f))
    }
}

/// How long an operation takes.
pub open spec fn latency_of(cfg: DiskConfig, rng: Rng, base: (Nanos, Nanos)) -> (Nanos, Rng) {
    let (d, r) = rng.skewed_of(base.0, base.1);
    let (slow, q) = r.chance_of(cfg.slow_ppm);
    (
        if slow {
            times(d, cfg.slow_factor)
        } else {
            d
        },
        q,
    )
}

/// How much of a torn write lands: never all of it. Usually it ends at one of
/// the sector boundaries inside the write, sometimes at an arbitrary byte.
pub open spec fn torn_length(rng: Rng, len: nat) -> (nat, Rng) {
    if len == 0 {
        (0, rng)
    } else if len > SECTOR {
        let (aligned, r) = rng.chance_of(800_000);
        if aligned {
            let (k, q) = r.below_of(((len + SECTOR - 1) / (SECTOR as int)) as u64);
            ((k * SECTOR) as nat, q)
        } else {
            let (k, q) = r.below_of(len as u64);
            (k as nat, q)
        }
    } else {
        let (k, q) = rng.below_of(len as u64);
        (k as nat, q)
    }
}

/// What a crash has made of a file so far.
pub struct Wreck {
    pub durable: Seq<u8>,
    pub stats: DiskStats,
    pub rng: Rng,
}

/// What a crash makes of one pending write: it is lost, torn or applied.
pub open spec fn crash_write(cfg: DiskConfig, at: Wreck, w: WriteView) -> Wreck {
    let (lost, r) = at.rng.chance_of(cfg.lost_write_ppm);
    if lost {
        Wreck {
            durable: at.durable,
            stats: DiskStats { writes_lost: bump(at.stats.writes_lost), ..at.stats },
            rng: r,
        }
    } else {
        match w {
            WriteView::SetLen(_) => Wreck { durable: applied(at.durable, w), rng: r, ..at },
            WriteView::Data { offset, bytes } => {
                let (torn, q) = r.chance_of(cfg.torn_write_ppm);
                if !torn {
                    Wreck { durable: applied(at.durable, w), rng: q, ..at }
                } else {
                    let (keep, z) = torn_length(q, bytes.len());
                    if keep > 0 {
                        Wreck {
                            durable: overwritten(at.durable, offset as int, bytes.take(keep as int)),
                            stats: DiskStats { writes_torn: bump(at.stats.writes_torn), ..at.stats },
                            rng: z,
                        }
                    } else {
                        Wreck {
                            durable: at.durable,
                            stats: DiskStats { writes_lost: bump(at.stats.writes_lost), ..at.stats },
                            rng: z,
                        }
                    }
                }
            },
        }
    }
}

/// What a crash makes of a list of pending writes.
pub open spec fn crash_writes(cfg: DiskConfig, at: Wreck, ws: Seq<WriteView>) -> Wreck
    decreases ws.len(),
{
    if ws.len() == 0 {
        at
    } else {
        crash_write(cfg, crash_writes(cfg, at, ws.drop_last()), ws.last())
    }
}

/// The order in which pending writes reach the platter.
pub open spec fn platter_order(cfg: DiskConfig, rng: Rng, ws: Seq<WriteView>) -> (
    Seq<WriteView>,
    Rng,
) {
    if cfg.reorder_unsynced {
        rng.shuffled(ws, ws.len() - 1)
    } else {
        (ws, rng)
    }
}

/// What a crash makes of one file.
pub open spec fn crash_file(cfg: DiskConfig, f: FileView, stats: DiskStats, rng: Rng) -> (
    FileView,
    DiskStats,
    Rng,
) {
    let (ws, r) = platter_order(cfg, rng, f.pending);
    let w = crash_writes(cfg, Wreck { durable: f.durable, stats, rng: r }, ws);
    (
        FileView { durable: w.durable, cache: w.durable, pending: Seq::empty() },
        w.stats,
        w.rng,
    )
}

/// What a crash makes of the first `n` files.
pub open spec fn crash_files(
    cfg: DiskConfig,
    files: Seq<(FileId, FileView)>,
    n: nat,
    stats: DiskStats,
    rng: Rng,
) -> (Seq<(FileId, FileView)>, DiskStats, Rng)
    decreases n,
{
    if n == 0 {
        (files, stats, rng)
    } else {
        let (fs, s, r) = crash_files(cfg, files, (n - 1) as nat, stats, rng);
        let (f, t, q) = crash_file(cfg, fs[n - 1].1, s, r);
        (fs.update(n - 1, (fs[n - 1].0, f)), t, q)
    }
}

impl DiskView {
    /// A disk with nothing on it.
    pub open spec fn blank(cfg: DiskConfig) -> DiskView {
        DiskView { cfg, files: Seq::empty(), next_op: 1, stats: DiskStats::zero() }
    }

    /// The file with this id; a file nothing was written to is blank.
    pub open spec fn file(self, id: FileId) -> FileView {
        match file_of(self.files, id) {
            Some(f) => f,
            None => FileView::blank(),
        }
    }

    /// Issue a write.
    pub open spec fn issue(self, rng: Rng, w: WriteView, file: FileId) -> (DiskView, Rng, Issued) {
        let op = self.next_op;
        let (delay, r) = latency_of(self.cfg, rng, self.cfg.write_latency);
        let (fails, q) = r.chance_of(self.cfg.io_error_ppm);
        if fails {
            (
                DiskView {
                    next_op: bump(op),
                    stats: DiskStats { errors: bump(self.stats.errors), ..self.stats },
                    ..self
                },
                q,
                Issued { op, delay, result: IoResult::Error },
            )
        } else {
            (
                DiskView {
                    next_op: bump(op),
                    stats: DiskStats {
                        writes: bump(self.stats.writes),
                        bytes_written: match w {
                            WriteView::Data { bytes, .. } => capped_u64(
                                self.stats.bytes_written + bytes.len(),
                            ),
                            WriteView::SetLen(_) => self.stats.bytes_written,
                        },
                        ..self.stats
                    },
                    files: file_put(self.files, file, self.file(file).write(w)),
                    ..self
                },
                q,
                Issued { op, delay, result: IoResult::Done },
            )
        }
    }

    /// Issue a sync.
    pub open spec fn sync(self, rng: Rng, file: FileId) -> (DiskView, Rng, Issued) {
        let op = self.next_op;
        let (delay, r) = latency_of(self.cfg, rng, self.cfg.sync_latency);
        let (fails, q) = r.chance_of(self.cfg.io_error_ppm);
        if fails {
            (
                DiskView {
                    next_op: bump(op),
                    stats: DiskStats { errors: bump(self.stats.errors), ..self.stats },
                    ..self
                },
                q,
                Issued { op, delay, result: IoResult::Error },
            )
        } else {
            (
                DiskView {
                    next_op: bump(op),
                    stats: DiskStats { syncs: bump(self.stats.syncs), ..self.stats },
                    files: file_put(self.files, file, self.file(file).sync()),
                    ..self
                },
                q,
                Issued { op, delay, result: IoResult::Done },
            )
        }
    }

    /// Lose power.
    pub open spec fn crash(self, rng: Rng) -> (DiskView, Rng) {
        let stats = DiskStats { crashes: bump(self.stats.crashes), ..self.stats };
        let (files, s, r) = crash_files(self.cfg, self.files, self.files.len(), stats, rng);
        (DiskView { files, stats: s, ..self }, r)
    }

    /// What readers see of every file is what is durable with the pending
    /// writes applied, and files are in order.
    pub open spec fn wf(self) -> bool {
        &&& forall|i: int| 0 <= i < self.files.len() ==> (#[trigger] self.files[i]).1.wf()
        &&& forall|i: int, j: int|
            0 <= i < j < self.files.len() ==> (#[trigger] self.files[i]).0 < (
            #[trigger] self.files[j]).0
    }
}

proof fn lemma_file_place(files: Seq<(FileId, FileView)>, id: FileId)
    ensures
        0 <= file_place(files, id) <= files.len(),
        file_place(files, id) > 0 ==> files[file_place(files, id) - 1].0 < id,
        forall|i: int| file_place(files, id) <= i < files.len() ==> (#[trigger] files[i]).0 >= id,
    decreases files.len(),
{
    if files.len() > 0 && files.last().0 >= id {
        lemma_file_place(files.drop_last(), id);
        assert forall|i: int| file_place(files, id) <= i < files.len() implies (
        #[trigger] files[i]).0 >= id by {
            if i < files.len() - 1 {
                assert(files.drop_last()[i] == files[i]);
            }
        }
    }
}

proof fn lemma_put_again(files: Seq<(FileId, FileView)>, id: FileId, f: FileView, g: FileView)
    ensures
        file_put(files, id, g) == file_put(files, id, f).update(file_place(files, id), (id, g)),
{
    lemma_file_place(files, id);
    assert(file_put(files, id, g) =~= file_put(files, id, f).update(
        file_place(files, id),
        (id, g),
    ));
}

fn find_place(files: &Vec<(FileId, SimFile)>, id: FileId) -> (r: usize)
    ensures
        r == file_place(file_views(files@), id),
        r <= files@.len(),
{
    let ghost v = file_views(files@);
    let mut p: usize = files.len();
    assert(v.take(p as int) =~= v);
    while p > 0 && files[p - 1].0 >= id
        invariant
            p <= files@.len(),
            v == file_views(files@),
            file_place(v, id) == file_place(v.take(p as int), id),
        decreases p,
    {
        proof {
            let t = v.take(p as int);
            assert(t.last() == v[p - 1]);
            assert(t.drop_last() =~= v.take(p - 1));
        }
        p -= 1;
    }
    proof {
        if p > 0 {
            assert(v.take(p as int).last() == v[p - 1]);
        }
    }
    p
}

/// How much of a torn write actually landed. Usually a sector boundary,
/// sometimes an arbitrary byte offset.
fn tear_length(rng: &mut Rng, len: usize) -> (r: usize)
    ensures
        (r as nat, *final(rng)) == torn_length(*old(rng), len as nat),
        len > 0 ==> r < len,
        len == 0 ==> r == 0,
{
    if len == 0 {
        return 0;
    }
    if len > SECTOR && rng.chance_ppm(800_000) {
        // Every sector that the write begins, so that even the last boundary
        // lies before its end.
        let sectors: usize = (len - 1) / SECTOR + 1;
        assert(sectors == (len + SECTOR - 1) / (SECTOR as int));
        let k: u64 = rng.below(sectors as u64);
        assert(k * SECTOR < len) by (nonlinear_arith)
            requires
                k <= (len - 1) / 512,
                len > 0,
                SECTOR == 512,
        ;
        k as usize * SECTOR
    } else {
        rng.below(len as u64) as usize
    }
}

impl View for Disk {
    type V = DiskView;

    closed spec fn view(&self) -> DiskView {
        DiskView {
            cfg: self.cfg,
            files: file_views(self.files@),
            next_op: self.next_op,
            stats: self.stats,
        }
    }
}

impl Clone for SimFile {
    fn clone(&self) -> (r: SimFile)
        ensures
            r@ == self@,
    {
        let mut pending: Vec<WriteKind> = Vec::new();
        let mut i: usize = 0;
        while i < self.pending.len()
            invariant
                i <= self.pending@.len(),
                pending@.len() == i,
                forall|j: int| 0 <= j < i ==> (#[trigger] pending@[j])@ == self.pending@[j]@,
            decreases self.pending@.len() - i,
        {
            pending.push(self.pending[i].clone());
            i += 1;
        }
        let durable = copy_range(self.durable.as_slice(), 0, self.durable.len());
        let cache = copy_range(self.cache.as_slice(), 0, self.cache.len());
        let r = SimFile { durable, cache, pending };
        assert(r@ =~= self@);
        r
    }
}

impl Clone for Disk {
    fn clone(&self) -> (r: Disk)
        ensures
            r@ == self@,
    {
        let mut files: Vec<(FileId, SimFile)> = Vec::new();
        let mut i: usize = 0;
        while i < self.files.len()
            invariant
                i <= self.files@.len(),
                files@.len() == i,
                forall|j: int|
                    0 <= j < i ==> (#[trigger] files@[j]).0 == self.files@[j].0 && files@[j].1@
                        == self.files@[j].1@,
            decreases self.files@.len() - i,
        {
            files.push((self.files[i].0, self.files[i].1.clone()));
            i += 1;
        }
        let r = Disk { cfg: self.cfg, files, next_op: self.next_op, stats: self.stats };
        assert(r@ =~= self@);
        r
    }
}

impl Disk {
    pub fn new(cfg: DiskConfig) -> (r: Disk)
        ensures
            r@ == DiskView::blank(cfg),
    {
        let r = Disk { cfg, files: Vec::new(), next_op: 1, stats: DiskStats::default() };
        assert(r@ =~= DiskView::blank(cfg));
        r
    }

    pub fn config(&self) -> (r: &DiskConfig)
        ensures
            *r == self@.cfg,
    {
        &self.cfg
    }

    pub fn stats(&self) -> (r: DiskStats)
        ensures
            r == self@.stats,
    {
        self.stats
    }

    /// The file with this id, made blank where there was none.
    fn file(&mut self, id: FileId) -> (p: usize)
        ensures
            p == file_place(old(self)@.files, id),
            p < final(self).files@.len(),
            final(self)@ == (DiskView {
                files: file_put(old(self)@.files, id, old(self)@.file(id)),
                ..old(self)@
            }),
            final(self).files@[p as int].0 == id,
            final(self).files@[p as int].1@ == old(self)@.file(id),
    {
        let p: usize = find_place(&self.files, id);
        proof {
            lemma_file_place(self@.files, id);
        }
        if p < self.files.len() && self.files[p].0 == id {
            assert(self@.files.update(p as int, (id, self@.file(id))) =~= self@.files);
        } else {
            let blank = SimFile { durable: Vec::new(), cache: Vec::new(), pending: Vec::new() };
            assert(blank@ =~= FileView::blank());
            self.files.insert(p, (id, blank));
            assert(self@.files =~= old(self)@.files.insert(p as int, (id, FileView::blank())));
        }
        p
    }

    fn latency(&self, rng: &mut Rng, base: (Nanos, Nanos)) -> (r: Nanos)
        ensures
            (r, *final(rng)) == latency_of(self@.cfg, *old(rng), base),
    {
        let d: u64 = rng.skewed(base.0, base.1);
        if rng.chance_ppm(self.cfg.slow_ppm) {
            mul_capped(d, self.cfg.slow_factor)
        } else {
            d
        }
    }

    fn issue(&mut self, rng: &mut Rng, kind: WriteKind, file: FileId) -> (r: Issued)
        ensures
            (final(self)@, *final(rng), r) == old(self)@.issue(*old(rng), kind@, file),
    {
        let op: u64 = self.next_op;
        self.next_op = count_up(op);
        let delay: u64 = self.latency(rng, self.cfg.write_latency);
        // Decide failure at issue time so the data never reaches the cache.
        if rng.chance_ppm(self.cfg.io_error_ppm) {
            self.stats.errors = count_up(self.stats.errors);
            return Issued { op, delay, result: IoResult::Error };
        }
        self.stats.writes = count_up(self.stats.writes);
        if let WriteKind::Data { bytes, .. } = &kind {
            self.stats.bytes_written = add_capped(self.stats.bytes_written, bytes.len() as u64);
        }
        let ghost before = self@;
        let p: usize = self.file(file);
        let ghost mid = self.files@;
        let ghost w = kind@;
        proof {
            lemma_file_place(before.files, file);
        }
        apply(&mut self.files[p].1.cache, &kind);
        self.files[p].1.pending.push(kind);
        proof {
            let f = self.files@[p as int].1@;
            assert(f =~= before.file(file).write(w));
            lemma_put_again(before.files, file, before.file(file), f);
            assert(self@.files =~= file_views(mid).update(p as int, (file, f)));
        }
        Issued { op, delay, result: IoResult::Done }
    }

    /// Overwrite bytes at `offset`, extending the file if needed.
    pub fn write_at(&mut self, rng: &mut Rng, file: FileId, offset: usize, bytes: &[u8]) -> (r:
        Issued)
        ensures
            (final(self)@, *final(rng), r) == old(self)@.issue(
                *old(rng),
                WriteView::Data { offset, bytes: bytes@ },
                file,
            ),
    {
        let copy = copy_range(bytes, 0, bytes.len());
        assert(copy@ =~= bytes@);
        self.issue(rng, WriteKind::Data { offset, bytes: copy }, file)
    }

    /// Append to the end of the file as it currently appears in cache.
    pub fn append(&mut self, rng: &mut Rng, file: FileId, bytes: &[u8]) -> (r: Issued)
        ensures
            (final(self)@, *final(rng), r) == old(self)@.issue(
                *old(rng),
                WriteView::Data { offset: old(self)@.file(file).cache.len() as usize, bytes: bytes@ },
                file,
            ),
    {
        let offset: usize = self.len(file);
        self.write_at(rng, file, offset, bytes)
    }

    /// Set the file length (used to discard a conflicting log suffix).
    pub fn set_len(&mut self, rng: &mut Rng, file: FileId, len: usize) -> (r: Issued)
        ensures
            (final(self)@, *final(rng), r) == old(self)@.issue(
                *old(rng),
                WriteView::SetLen(len),
                file,
            ),
    {
        self.issue(rng, WriteKind::SetLen(len), file)
    }

    /// Make everything written *before this call* durable once the returned
    /// operation completes. Writes issued afterwards are not covered, which is
    /// the guarantee a real `fsync` gives.
    ///
    /// It takes effect immediately in the model rather than at completion time:
    /// the ordering guarantee is what matters, and the caller must not act until
    /// completion regardless, because a crash before completion may still lose
    /// data.
    pub fn sync(&mut self, rng: &mut Rng, file: FileId) -> (r: Issued)
        ensures
            (final(self)@, *final(rng), r) == old(self)@.sync(*old(rng), file),
    {
        let op: u64 = self.next_op;
        self.next_op = count_up(op);
        let delay: u64 = self.latency(rng, self.cfg.sync_latency);
        if rng.chance_ppm(self.cfg.io_error_ppm) {
            self.stats.errors = count_up(self.stats.errors);
            return Issued { op, delay, result: IoResult::Error };
        }
        self.stats.syncs = count_up(self.stats.syncs);
        let ghost before = self@;
        let p: usize = self.file(file);
        let ghost mid = self.files@;
        proof {
            lemma_file_place(before.files, file);
        }
        let mut covered: Vec<WriteKind> = Vec::new();
        core::mem::swap(&mut self.files[p].1.pending, &mut covered);
        let ghost ws = write_views(covered@);
        let ghost f0 = before.file(file);
        assert(ws == f0.pending);
        assert(write_views(self.files@[p as int].1.pending@) =~= Seq::empty());
        let mut i: usize = 0;
        while i < covered.len()
            invariant
                i <= covered@.len(),
                ws == write_views(covered@),
                p < self.files@.len(),
                self.files@.len() == mid.len(),
                forall|j: int| 0 <= j < mid.len() && j != p ==> self.files@[j] == mid[j],
                self.files@[p as int].0 == file,
                self.files@[p as int].1@ == (FileView {
                    durable: applied_all(f0.durable, ws.take(i as int)),
                    cache: f0.cache,
                    pending: Seq::empty(),
                }),
                self.cfg == before.cfg,
                self.next_op == before.next_op,
                self.stats == before.stats,
            decreases covered@.len() - i,
        {
            apply(&mut self.files[p].1.durable, &covered[i]);
            proof {
                let t = ws.take(i + 1);
                assert(t.drop_last() =~= ws.take(i as int));
                assert(t.last() == covered@[i as int]@);
            }
            i += 1;
        }
        proof {
            assert(ws.take(i as int) =~= ws);
            assert(self.files@[p as int].1@ =~= f0.sync());
            lemma_put_again(before.files, file, f0, f0.sync());
            assert(self@.files =~= file_views(mid).update(p as int, (file, f0.sync())));
        }
        Issued { op, delay, result: IoResult::Done }
    }

    /// Read the whole file as the running node sees it (page cache view).
    pub fn read_all(&self, file: FileId) -> (r: Vec<u8>)
        ensures
            r@ == self@.file(file).cache,
    {
        let p: usize = find_place(&self.files, file);
        if p < self.files.len() && self.files[p].0 == file {
            let f = &self.files[p].1;
            let r = copy_range(f.cache.as_slice(), 0, f.cache.len());
            assert(r@ =~= f.cache@);
            r
        } else {
            Vec::new()
        }
    }

    pub fn len(&self, file: FileId) -> (r: usize)
        ensures
            r == self@.file(file).cache.len(),
    {
        let p: usize = find_place(&self.files, file);
        if p < self.files.len() && self.files[p].0 == file {
            self.files[p].1.cache.len()
        } else {
            0
        }
    }

    /// What is guaranteed to survive a crash right now. For the durability
    /// checker only -- no simulated node may look at this.
    pub fn durable_image(&self, file: FileId) -> (r: Vec<u8>)
        ensures
            r@ == self@.file(file).durable,
    {
        let p: usize = find_place(&self.files, file);
        if p < self.files.len() && self.files[p].0 == file {
            let f = &self.files[p].1;
            let r = copy_range(f.durable.as_slice(), 0, f.durable.len());
            assert(r@ =~= f.durable@);
            r
        } else {
            Vec::new()
        }
    }

    pub fn has_unsynced(&self, file: FileId) -> (r: bool)
        ensures
            r == (self@.file(file).pending.len() > 0),
    {
        let p: usize = find_place(&self.files, file);
        if p < self.files.len() && self.files[p].0 == file {
            self.files[p].1.pending.len() > 0
        } else {
            false
        }
    }

    /// Power loss. Pending writes are resolved by the fault model, the page
    /// cache evaporates, and the file is left in whatever state that produced.
    pub fn crash(&mut self, rng: &mut Rng)
        ensures
            (final(self)@, *final(rng)) == old(self)@.crash(*old(rng)),
    {
        self.stats.crashes = count_up(self.stats.crashes);
        let ghost start = self@;
        let ghost r0 = *rng;
        let n: usize = self.files.len();
        let mut k: usize = 0;
        while k < n
            invariant
                k <= n,
                n == self.files@.len(),
                n == start.files.len(),
                self.cfg == start.cfg,
                self.next_op == start.next_op,
                (self@.files, self.stats, *rng) == crash_files(
                    start.cfg,
                    start.files,
                    k as nat,
                    start.stats,
                    r0,
                ),
            decreases n - k,
        {
            let ghost before = self.files@;
            let ghost f0 = self.files@[k as int].1@;
            let ghost s0 = self.stats;
            let ghost q0 = *rng;
            self.crash_one(rng, k);
            proof {
                let (f, t, q) = crash_file(start.cfg, f0, s0, q0);
                assert(self@.files =~= file_views(before).update(k as int, (before[k as int].0, f)));
            }
            k += 1;
        }
    }

    fn crash_one(&mut self, rng: &mut Rng, k: usize)
        requires
            k < old(self).files@.len(),
        ensures
            final(self).cfg == old(self).cfg,
            final(self).next_op == old(self).next_op,
            final(self).files@.len() == old(self).files@.len(),
            forall|j: int|
                0 <= j < old(self).files@.len() && j != k ==> final(self).files@[j] == old(
                    self,
                ).files@[j],
            final(self).files@[k as int].0 == old(self).files@[k as int].0,
            (final(self).files@[k as int].1@, final(self).stats, *final(rng)) == crash_file(
                old(self).cfg,
                old(self).files@[k as int].1@,
                old(self).stats,
                *old(rng),
            ),
    {
        let ghost cfg = self.cfg;
        let ghost f0 = self.files@[k as int].1@;
        let mut pending: Vec<WriteKind> = Vec::new();
        core::mem::swap(&mut self.files[k].1.pending, &mut pending);
        let ghost given = pending@;
        let ghost g0 = *rng;
        let count: usize = pending.len();
        assert(count == given.len());
        if self.cfg.reorder_unsynced {
            rng.shuffle(&mut pending);
            proof {
                lemma_shuffle_views(g0, given, count - 1);
            }
        }
        let ghost ws = write_views(pending@);
        let ghost at0 = Wreck { durable: f0.durable, stats: self.stats, rng: *rng };
        assert((ws, *rng) == platter_order(cfg, g0, f0.pending));
        let mut i: usize = 0;
        while i < pending.len()
            invariant
                i <= pending@.len(),
                ws == write_views(pending@),
                self.cfg == cfg,
                self.next_op == old(self).next_op,
                k < self.files@.len(),
                self.files@.len() == old(self).files@.len(),
                forall|j: int|
                    0 <= j < self.files@.len() && j != k ==> self.files@[j] == old(self).files@[j],
                self.files@[k as int].0 == old(self).files@[k as int].0,
                self.files@[k as int].1.pending@.len() == 0,
                (Wreck {
                    durable: self.files@[k as int].1.durable@,
                    stats: self.stats,
                    rng: *rng,
                }) == crash_writes(cfg, at0, ws.take(i as int)),
            decreases pending@.len() - i,
        {
            proof {
                let t = ws.take(i + 1);
                assert(t.drop_last() =~= ws.take(i as int));
                assert(t.last() == pending@[i as int]@);
            }
            if rng.chance_ppm(self.cfg.lost_write_ppm) {
                self.stats.writes_lost = count_up(self.stats.writes_lost);
            } else {
                match &pending[i] {
                    WriteKind::Data { offset, bytes } => {
                        if rng.chance_ppm(self.cfg.torn_write_ppm) {
                            let keep: usize = tear_length(rng, bytes.len());
                            if keep > 0 {
                                self.stats.writes_torn = count_up(self.stats.writes_torn);
                                let part = copy_range(bytes.as_slice(), 0, keep);
                                assert(part@ =~= bytes@.take(keep as int));
                                let torn = WriteKind::Data { offset: *offset, bytes: part };
                                apply(&mut self.files[k].1.durable, &torn);
                            } else {
                                self.stats.writes_lost = count_up(self.stats.writes_lost);
                            }
                        } else {
                            apply(&mut self.files[k].1.durable, &pending[i]);
                        }
                    },
                    WriteKind::SetLen(_) => {
                        apply(&mut self.files[k].1.durable, &pending[i]);
                    },
                }
            }
            i += 1;
        }
        assert(ws.take(i as int) =~= ws);
        let survived = copy_range(
            self.files[k].1.durable.as_slice(),
            0,
            self.files[k].1.durable.len(),
        );
        assert(survived@ =~= self.files@[k as int].1.durable@);
        self.files[k].1.cache = survived;
        proof {
            let f = self.files@[k as int].1@;
            assert(f.pending =~= Seq::empty());
            assert(f =~= crash_file(cfg, f0, old(self).stats, g0).0);
        }
    }
}

proof fn lemma_shuffle_views(r: Rng, s: Seq<WriteKind>, i: int)
    requires
        i < s.len() <= u64::MAX,
    ensures
        r.shuffled(write_views(s), i) == (write_views(r.shuffled(s, i).0), r.shuffled(s, i).1),
    decreases i,
{
    if i > 0 {
        let (j, q) = r.below_of((i + 1) as u64);
        law_below_in_range(r, (i + 1) as u64);
        let t = s.update(i, s[j as int]).update(j as int, s[i]);
        let v = write_views(s);
        assert(write_views(t) =~= v.update(i, v[j as int]).update(j as int, v[i]));
        lemma_shuffle_views(q, t, i - 1);
    }
}

// ---- what the model promises ---------------------------------------------

proof fn lemma_put_wf(files: Seq<(FileId, FileView)>, id: FileId, f: FileView)
    requires
        forall|i: int| 0 <= i < files.len() ==> (#[trigger] files[i]).1.wf(),
        forall|i: int, j: int|
            0 <= i < j < files.len() ==> (#[trigger] files[i]).0 < (#[trigger] files[j]).0,
        f.wf(),
    ensures
        ({
            let r = file_put(files, id, f);
            &&& forall|i: int| 0 <= i < r.len() ==> (#[trigger] r[i]).1.wf()
            &&& forall|i: int, j: int|
                0 <= i < j < r.len() ==> (#[trigger] r[i]).0 < (#[trigger] r[j]).0
            &&& file_of(r, id) == Some(f)
            &&& forall|k: FileId| k != id ==> #[trigger] file_of(r, k) == file_of(files, k)
        }),
{
    let p = file_place(files, id);
    let r = file_put(files, id, f);
    lemma_file_place(files, id);
    let hit = p < files.len() && files[p].0 == id;
    assert forall|i: int| 0 <= i < r.len() implies (#[trigger] r[i]).1.wf() by {
        if !hit && i > p {
            assert(r[i] == files[i - 1]);
        }
    }
    assert forall|i: int, j: int| 0 <= i < j < r.len() implies (#[trigger] r[i]).0 < (
    #[trigger] r[j]).0 by {
        if !hit {
            if i < p && j == p {
                assert(files[i].0 <= files[p - 1].0);
            }
            if i == p {
                assert(files[j - 1].0 >= id);
                if files[j - 1].0 == id {
                    assert(j - 1 == p || files[p].0 < files[j - 1].0);
                }
            }
        }
    }
    lemma_file_of(r, id);
    assert(r[p] == (id, f));
    assert forall|k: FileId| k != id implies #[trigger] file_of(r, k) == file_of(files, k) by {
        lemma_file_of(r, k);
        lemma_file_of(files, k);
        if exists|i: int| 0 <= i < files.len() && (#[trigger] files[i]).0 == k {
            let i = choose|i: int| 0 <= i < files.len() && (#[trigger] files[i]).0 == k;
            let j = if hit || i < p {
                i
            } else {
                i + 1
            };
            assert(r[j] == files[i]);
        }
        if exists|i: int| 0 <= i < r.len() && (#[trigger] r[i]).0 == k {
            let i = choose|i: int| 0 <= i < r.len() && (#[trigger] r[i]).0 == k;
            assert(i != p);
            let j = if hit || i < p {
                i
            } else {
                i - 1
            };
            assert(r[i] == files[j]);
        }
    }
}

proof fn lemma_file_of(files: Seq<(FileId, FileView)>, id: FileId)
    requires
        forall|i: int, j: int|
            0 <= i < j < files.len() ==> (#[trigger] files[i]).0 < (#[trigger] files[j]).0,
    ensures
        forall|i: int|
            0 <= i < files.len() && (#[trigger] files[i]).0 == id ==> file_of(files, id) == Some(
                files[i].1,
            ),
        (forall|i: int| 0 <= i < files.len() ==> (#[trigger] files[i]).0 != id) ==> file_of(
            files,
            id,
        ) is None,
{
    let p = file_place(files, id);
    lemma_file_place(files, id);
    assert forall|i: int| 0 <= i < files.len() && (#[trigger] files[i]).0 == id implies file_of(
        files,
        id,
    ) == Some(files[i].1) by {
        if i < p {
            if i < p - 1 {
                assert(files[i].0 < files[p - 1].0);
            }
        } else if i > p {
            assert(files[p].0 < files[i].0);
        }
    }
}

/// Writing keeps a disk well formed, touches no other file, and shows in what
/// readers see at once; a rejected write changes no file at all.
pub proof fn law_write(d: DiskView, rng: Rng, w: WriteView, file: FileId)
    requires
        d.wf(),
    ensures
        d.issue(rng, w, file).0.wf(),
        d.issue(rng, w, file).2.result == IoResult::Error ==> d.issue(rng, w, file).0.files
            == d.files,
        d.issue(rng, w, file).2.result == IoResult::Done ==> {
            let e = d.issue(rng, w, file).0;
            &&& e.file(file).cache == applied(d.file(file).cache, w)
            &&& e.file(file).durable == d.file(file).durable
            &&& forall|k: FileId| k != file ==> #[trigger] e.file(k) == d.file(k)
        },
{
    let f = d.file(file);
    lemma_file_of(d.files, file);
    assert(f.wf()) by {
        if exists|i: int| 0 <= i < d.files.len() && (#[trigger] d.files[i]).0 == file {
            let i = choose|i: int| 0 <= i < d.files.len() && (#[trigger] d.files[i]).0 == file;
            assert(d.files[i].1.wf());
        }
    }
    assert(f.write(w).pending.drop_last() =~= f.pending);
    lemma_put_wf(d.files, file, f.write(w));
    let e = d.issue(rng, w, file).0;
    if e.files != d.files || d.issue(rng, w, file).2.result == IoResult::Done {
        assert forall|k: FileId| k != file implies #[trigger] e.file(k) == d.file(k) by {
            assert(file_of(file_put(d.files, file, f.write(w)), k) == file_of(d.files, k));
        }
    }
}

/// A sync that succeeds makes exactly what readers see durable; one that is
/// rejected changes no file.
pub proof fn law_sync(d: DiskView, rng: Rng, file: FileId)
    requires
        d.wf(),
    ensures
        d.sync(rng, file).0.wf(),
        d.sync(rng, file).2.result == IoResult::Error ==> d.sync(rng, file).0.files == d.files,
        d.sync(rng, file).2.result == IoResult::Done ==> {
            let e = d.sync(rng, file).0;
            &&& e.file(file).durable == d.file(file).cache
            &&& e.file(file).cache == d.file(file).cache
            &&& e.file(file).pending.len() == 0
            &&& forall|k: FileId| k != file ==> #[trigger] e.file(k) == d.file(k)
        },
{
    let f = d.file(file);
    lemma_file_of(d.files, file);
    assert(f.wf()) by {
        if exists|i: int| 0 <= i < d.files.len() && (#[trigger] d.files[i]).0 == file {
            let i = choose|i: int| 0 <= i < d.files.len() && (#[trigger] d.files[i]).0 == file;
            assert(d.files[i].1.wf());
        }
    }
    lemma_put_wf(d.files, file, f.sync());
    let e = d.sync(rng, file).0;
    if d.sync(rng, file).2.result == IoResult::Done {
        assert forall|k: FileId| k != file implies #[trigger] e.file(k) == d.file(k) by {
            assert(file_of(file_put(d.files, file, f.sync()), k) == file_of(d.files, k));
        }
    }
}

proof fn lemma_crash_files(
    cfg: DiskConfig,
    files: Seq<(FileId, FileView)>,
    n: nat,
    stats: DiskStats,
    rng: Rng,
)
    requires
        n <= files.len(),
    ensures
        ({
            let r = crash_files(cfg, files, n, stats, rng).0;
            &&& r.len() == files.len()
            &&& forall|i: int| 0 <= i < files.len() ==> (#[trigger] r[i]).0 == files[i].0
            &&& forall|i: int|
                0 <= i < n ==> (#[trigger] r[i]).1.wf() && r[i].1.pending.len() == 0
                    && r[i].1.cache == r[i].1.durable && (files[i].1.pending.len() == 0
                    ==> r[i].1.durable == files[i].1.durable)
            &&& forall|i: int| n <= i < files.len() ==> #[trigger] r[i] == files[i]
        }),
    decreases n,
{
    if n > 0 {
        lemma_crash_files(cfg, files, (n - 1) as nat, stats, rng);
        let (fs, s, r) = crash_files(cfg, files, (n - 1) as nat, stats, rng);
        let f = fs[n - 1].1;
        let (g, t, q) = crash_file(cfg, f, s, r);
        assert(fs[n - 1] == files[n - 1]);
        if f.pending.len() == 0 {
            assert(platter_order(cfg, r, f.pending).0.len() == 0);
        }
    }
}

/// Power loss leaves every file in a state where what readers see is what is
/// durable, and a file with nothing pending exactly as it was: what was synced
/// survives.
pub proof fn law_synced_data_survives_a_crash(d: DiskView, rng: Rng, file: FileId)
    requires
        d.wf(),
    ensures
        d.crash(rng).0.wf(),
        d.crash(rng).0.file(file).cache == d.crash(rng).0.file(file).durable,
        d.crash(rng).0.file(file).pending.len() == 0,
        d.file(file).pending.len() == 0 ==> d.crash(rng).0.file(file).cache == d.file(file).cache,
{
    let stats = DiskStats { crashes: bump(d.stats.crashes), ..d.stats };
    lemma_crash_files(d.cfg, d.files, d.files.len(), stats, rng);
    let e = d.crash(rng).0;
    assert forall|i: int, j: int| 0 <= i < j < e.files.len() implies (#[trigger] e.files[i]).0 < (
    #[trigger] e.files[j]).0 by {
        assert(d.files[i].0 < d.files[j].0);
    }
    lemma_file_of(d.files, file);
    lemma_file_of(e.files, file);
    if exists|i: int| 0 <= i < d.files.len() && (#[trigger] d.files[i]).0 == file {
        let i = choose|i: int| 0 <= i < d.files.len() && (#[trigger] d.files[i]).0 == file;
        assert(e.files[i].0 == file);
        assert(d.files[i].1.wf());
    } else {
        assert forall|i: int| 0 <= i < e.files.len() implies (#[trigger] e.files[i]).0 != file by {
            assert(d.files[i].0 != file);
        }
    }
}

proof fn lemma_all_lost(cfg: DiskConfig, at: Wreck, ws: Seq<WriteView>)
    requires
        cfg.lost_write_ppm >= 1_000_000,
    ensures
        crash_writes(cfg, at, ws).durable == at.durable,
    decreases ws.len(),
{
    if ws.len() > 0 {
        lemma_all_lost(cfg, at, ws.drop_last());
    }
}

/// Where every unsynced write is lost, a crash leaves exactly what was durable.
pub proof fn law_lost_writes_leave_what_was_durable(
    cfg: DiskConfig,
    f: FileView,
    stats: DiskStats,
    rng: Rng,
)
    requires
        cfg.lost_write_ppm >= 1_000_000,
    ensures
        crash_file(cfg, f, stats, rng).0.cache == f.durable,
{
    let (ws, r) = platter_order(cfg, rng, f.pending);
    lemma_all_lost(cfg, Wreck { durable: f.durable, stats, rng: r }, ws);
}

/// A torn write never lands whole.
pub proof fn law_a_tear_is_partial(rng: Rng, len: nat)
    requires
        0 < len <= u64::MAX,
    ensures
        torn_length(rng, len).0 < len,
{
    law_below_in_range(rng, len as u64);
    if len > SECTOR {
        let (aligned, r) = rng.chance_of(800_000);
        let n = (len + SECTOR - 1) / (SECTOR as int);
        law_below_in_range(r, len as u64);
        law_below_in_range(r, n as u64);
        let k = r.below_of(n as u64).0;
        assert(k * SECTOR < len) by (nonlinear_arith)
            requires
                k < (len + 511) / 512,
                SECTOR == 512,
        ;
    }
}

/// What a crash makes of a pending write: it is lost, or lands whole, or a part
/// of it that is neither nothing nor everything lands, from its beginning on;
/// and where every write is torn, none of any length lands whole.
pub proof fn law_torn_writes_land_in_part(cfg: DiskConfig, at: Wreck, offset: usize, bytes: Seq<u8>)
    requires
        bytes.len() <= u64::MAX,
    ensures
        ({
            let after = crash_write(cfg, at, WriteView::Data { offset, bytes }).durable;
            ||| after == at.durable
            ||| after == overwritten(at.durable, offset as int, bytes) && (cfg.torn_write_ppm
                < 1_000_000 || bytes.len() == 0)
            ||| exists|k: int|
                0 < k < bytes.len() && after == overwritten(
                    at.durable,
                    offset as int,
                    #[trigger] bytes.take(k),
                )
        }),
{
    let (lost, r) = at.rng.chance_of(cfg.lost_write_ppm);
    let (torn, q) = r.chance_of(cfg.torn_write_ppm);
    if !lost && torn && bytes.len() > 0 {
        law_a_tear_is_partial(q, bytes.len());
        let k = torn_length(q, bytes.len()).0 as int;
        if k > 0 {
            assert(crash_write(cfg, at, WriteView::Data { offset, bytes }).durable == overwritten(
                at.durable,
                offset as int,
                bytes.take(k),
            ));
        }
    }
}

/// Where every unsynced write is torn and none is lost, a crash leaves of a
/// lone pending write a prefix that is not the whole of it.
pub proof fn law_a_lone_torn_write_leaves_a_prefix(
    cfg: DiskConfig,
    f: FileView,
    stats: DiskStats,
    rng: Rng,
    offset: usize,
    bytes: Seq<u8>,
)
    requires
        cfg.torn_write_ppm >= 1_000_000,
        cfg.lost_write_ppm == 0,
        f.pending == seq![WriteView::Data { offset, bytes }],
        0 < bytes.len() <= u64::MAX,
    ensures
        ({
            let after = crash_file(cfg, f, stats, rng).0.cache;
            after == f.durable || exists|k: int|
                0 < k < bytes.len() && after == overwritten(
                    f.durable,
                    offset as int,
                    #[trigger] bytes.take(k),
                )
        }),
{
    let (ws, r) = platter_order(cfg, rng, f.pending);
    let w = WriteView::Data { offset, bytes };
    let at = Wreck { durable: f.durable, stats, rng: r };
    assert(ws =~= f.pending);
    assert(ws.drop_last() =~= Seq::<WriteView>::empty());
    assert(ws.last() == w);
    assert(crash_writes(cfg, at, ws.drop_last()) == at);
    assert(crash_writes(cfg, at, ws) == crash_write(cfg, at, w));
    law_torn_writes_land_in_part(cfg, at, offset, bytes);
}

} // verus!
