//! Event tracing and the determinism fingerprint.
//!
//! Two separate streams live here, and keeping them separate is the point:
//!
//! * [`Trace::log`] produces human-readable lines and is filtered by level.
//!   Turning it up costs time and memory, so sweeps run with it off.
//! * [`Trace::observe`] folds a *significant* event into a 64-bit rolling
//!   fingerprint. It is never filtered, so a silent sweep run and a verbose
//!   replay of the same seed produce the identical fingerprint. If they ever
//!   differ, the simulator itself is non-deterministic and every bug report it
//!   produced is suspect.

use crate::bytes::{le_u64, put_u64};
use crate::count::{add_capped, bump, capped_u64, count_up};
use crate::simcore::{Nanos, NodeId, MICROS, MILLIS};
use crate::text::{
    decimal, decimal_str, digit, digit_str, hex, hex_str, own, pad_left, pad_left_str, pad_right, pad_right_str,
    put_num,
};
use vstd::prelude::*;
use vstd::string::*;
use vstd::utf8::encode_utf8;

verus! {

/// How much is logged.
#[derive(Clone, Copy, PartialEq, Eq, PartialOrd, Ord, Debug, Structural)]
pub enum Level {
    Off,
    Error,
    Warn,
    Info,
    Debug,
}

impl Default for Level {
    fn default() -> (r: Level)
        ensures
            r == Level::Off,
    {
        Level::Off
    }
}

/// The lower-case form of an ASCII letter; any other character is its own.
pub open spec fn lower(c: char) -> char {
    match c {
        'A' => 'a',
        'B' => 'b',
        'C' => 'c',
        'D' => 'd',
        'E' => 'e',
        'F' => 'f',
        'G' => 'g',
        'H' => 'h',
        'I' => 'i',
        'J' => 'j',
        'K' => 'k',
        'L' => 'l',
        'M' => 'm',
        'N' => 'n',
        'O' => 'o',
        'P' => 'p',
        'Q' => 'q',
        'R' => 'r',
        'S' => 's',
        'T' => 't',
        'U' => 'u',
        'V' => 'v',
        'W' => 'w',
        'X' => 'x',
        'Y' => 'y',
        'Z' => 'z',
        _ => c,
    }
}

fn lower_char(c: char) -> (r: char)
    ensures
        r == lower(c),
{
    match c {
        'A' => 'a',
        'B' => 'b',
        'C' => 'c',
        'D' => 'd',
        'E' => 'e',
        'F' => 'f',
        'G' => 'g',
        'H' => 'h',
        'I' => 'i',
        'J' => 'j',
        'K' => 'k',
        'L' => 'l',
        'M' => 'm',
        'N' => 'n',
        'O' => 'o',
        'P' => 'p',
        'Q' => 'q',
        'R' => 'r',
        'S' => 's',
        'T' => 't',
        'U' => 'u',
        'V' => 'v',
        'W' => 'w',
        'X' => 'x',
        'Y' => 'y',
        'Z' => 'z',
        _ => c,
    }
}

/// A text in ASCII lower case.
pub open spec fn lowered(s: Seq<char>) -> Seq<char> {
    s.map_values(|c: char| lower(c))
}

fn lowered_is(s: &str, word: &str) -> (r: bool)
    ensures
        r == (lowered(s@) == word@),
{
    let n: usize = s.unicode_len();
    if n != word.unicode_len() {
        return false;
    }
    let mut i: usize = 0;
    while i < n
        invariant
            i <= n,
            n == s@.len(),
            n == word@.len(),
            forall|j: int| 0 <= j < i ==> lower(s@[j]) == word@[j],
        decreases n - i,
    {
        if lower_char(s.get_char(i)) != word.get_char(i) {
            assert(lowered(s@)[i as int] != word@[i as int]);
            return false;
        }
        i += 1;
    }
    assert(lowered(s@) =~= word@);
    true
}

impl Level {
    /// The place of a level in the order from silent to verbose.
    pub open spec fn rank(self) -> nat {
        match self {
            Level::Off => 0,
            Level::Error => 1,
            Level::Warn => 2,
            Level::Info => 3,
            Level::Debug => 4,
        }
    }

    /// What a level is called.
    pub open spec fn label(self) -> Seq<char> {
        match self {
            Level::Off => "off"@,
            Level::Error => "error"@,
            Level::Warn => "warn"@,
            Level::Info => "info"@,
            Level::Debug => "debug"@,
        }
    }

    /// What a level is called in a log line.
    pub open spec fn mark(self) -> Seq<char> {
        match self {
            Level::Off => "OFF"@,
            Level::Error => "ERR"@,
            Level::Warn => "WRN"@,
            Level::Info => "INF"@,
            Level::Debug => "DBG"@,
        }
    }

    fn position(self) -> (r: u8)
        ensures
            r == self.rank(),
    {
        match self {
            Level::Off => 0,
            Level::Error => 1,
            Level::Warn => 2,
            Level::Info => 3,
            Level::Debug => 4,
        }
    }

    /// The level with this name, in upper or lower case.
    pub open spec fn named(s: Seq<char>) -> Option<Level> {
        let name = lowered(s);
        if name == "off"@ {
            Some(Level::Off)
        } else if name == "error"@ {
            Some(Level::Error)
        } else if name == "warn"@ {
            Some(Level::Warn)
        } else if name == "info"@ {
            Some(Level::Info)
        } else if name == "debug"@ {
            Some(Level::Debug)
        } else {
            None
        }
    }

    /// The level with this name, in upper or lower case.
    pub fn parse(s: &str) -> (r: Option<Level>)
        ensures
            r == Level::named(s@),
            match r {
                Some(l) => lowered(s@) == l.label(),
                None => forall|l: Level| lowered(s@) != #[trigger] l.label(),
            },
    {
        if lowered_is(s, "off") {
            Some(Level::Off)
        } else if lowered_is(s, "error") {
            Some(Level::Error)
        } else if lowered_is(s, "warn") {
            Some(Level::Warn)
        } else if lowered_is(s, "info") {
            Some(Level::Info)
        } else if lowered_is(s, "debug") {
            Some(Level::Debug)
        } else {
            None
        }
    }

    fn tag(self) -> (r: &'static str)
        ensures
            r@ == self.mark(),
    {
        match self {
            Level::Off => "OFF",
            Level::Error => "ERR",
            Level::Warn => "WRN",
            Level::Info => "INF",
            Level::Debug => "DBG",
        }
    }
}

/// One line of the log.
#[derive(Debug)]
pub struct Record {
    pub time: Nanos,
    pub node: Option<NodeId>,
    pub level: Level,
    pub category: &'static str,
    pub message: String,
}

/// One line of the log, its strings as sequences of characters.
pub struct RecordView {
    pub time: Nanos,
    pub node: Option<NodeId>,
    pub level: Level,
    pub category: Seq<char>,
    pub message: Seq<char>,
}

impl View for Record {
    type V = RecordView;

    open spec fn view(&self) -> RecordView {
        RecordView {
            time: self.time,
            node: self.node,
            level: self.level,
            category: self.category@,
            message: self.message@,
        }
    }
}

impl Clone for Record {
    fn clone(&self) -> (r: Record)
        ensures
            r@ == self@,
    {
        Record {
            time: self.time,
            node: self.node,
            level: self.level,
            category: self.category,
            message: self.message.clone(),
        }
    }
}

/// A number below 1000 in three digits.
pub open spec fn three_digits(n: nat) -> Seq<char> {
    digit(n / 100 % 10) + digit(n / 10 % 10) + digit(n % 10)
}

impl RecordView {
    /// The line as it is printed.
    pub open spec fn line(self) -> Seq<char> {
        let ms = (self.time / MILLIS) as nat;
        let us = (self.time % MILLIS / MICROS) as nat;
        let node = match self.node {
            Some(n) => " n"@ + pad_right(decimal(n.0 as nat), 2),
            None => "  -  "@,
        };
        "["@ + pad_left(decimal(ms), 7) + "."@ + three_digits(us) + "ms]"@ + node + " "@
            + self.level.mark() + " "@ + pad_right(self.category, 9) + " "@ + self.message
    }
}

impl Record {
    pub fn render(&self) -> (r: String)
        ensures
            r@ == self@.line(),
    {
        let ms: u64 = self.time / MILLIS;
        let us: u64 = self.time % MILLIS / MICROS;
        let mut s = own("[");
        s.append(pad_left_str(decimal_str(ms).as_str(), 7).as_str());
        s.append(".");
        let mut frac = own(digit_str(us / 100 % 10));
        frac.append(digit_str(us / 10 % 10));
        frac.append(digit_str(us % 10));
        s.append(frac.as_str());
        s.append("ms]");
        let node = match self.node {
            Some(n) => {
                let mut t = own(" n");
                t.append(pad_right_str(decimal_str(n.0 as u64).as_str(), 2).as_str());
                t
            },
            None => own("  -  "),
        };
        s.append(node.as_str());
        s.append(" ");
        s.append(self.level.tag());
        s.append(" ");
        s.append(pad_right_str(self.category, 9).as_str());
        s.append(" ");
        s.append(self.message.as_str());
        s
    }
}

/// FNV-1a. Chosen for being trivially portable and order-sensitive; this is a
/// fingerprint for divergence detection, not a security primitive.
#[derive(Clone, Copy, Debug, PartialEq, Eq, Structural)]
pub struct Fingerprint(pub u64);

/// Where a fingerprint starts.
pub const FNV_OFFSET: u64 = 0xcbf2_9ce4_8422_2325;

/// What a fingerprint is multiplied by at every byte.
pub const FNV_PRIME: u64 = 0x0000_0100_0000_01b3;

/// A fingerprint with bytes folded in.
pub open spec fn fnv(h: u64, bytes: Seq<u8>) -> u64
    decreases bytes.len(),
{
    if bytes.len() == 0 {
        h
    } else {
        (fnv(h, bytes.drop_last()) ^ (bytes.last() as u64)).wrapping_mul(FNV_PRIME)
    }
}

impl Fingerprint {
    /// The fingerprint of nothing.
    pub open spec fn start() -> Fingerprint {
        Fingerprint(FNV_OFFSET)
    }

    /// The fingerprint with bytes folded in.
    pub open spec fn fed(self, bytes: Seq<u8>) -> Fingerprint {
        Fingerprint(fnv(self.0, bytes))
    }

    /// The fingerprint with numbers folded in.
    pub open spec fn fed_all(self, args: Seq<u64>) -> Fingerprint
        decreases args.len(),
    {
        if args.len() == 0 {
            self
        } else {
            self.fed_all(args.drop_last()).fed(le_u64(args.last()))
        }
    }

    /// The fingerprint with one event folded in.
    pub open spec fn observed(
        self,
        time: Nanos,
        node: Option<NodeId>,
        tag: Seq<char>,
        args: Seq<u64>,
    ) -> Fingerprint {
        let n = match node {
            Some(n) => n.0 as u64,
            None => u64::MAX,
        };
        self.fed(le_u64(time)).fed(le_u64(n)).fed(encode_utf8(tag)).fed_all(args)
    }

    pub fn new() -> (r: Fingerprint)
        ensures
            r == Fingerprint::start(),
    {
        Fingerprint(FNV_OFFSET)
    }

    pub fn feed_bytes(&mut self, bytes: &[u8])
        ensures
            *final(self) == old(self).fed(bytes@),
    {
        let mut i: usize = 0;
        while i < bytes.len()
            invariant
                i <= bytes@.len(),
                self.0 == fnv(old(self).0, bytes@.take(i as int)),
            decreases bytes@.len() - i,
        {
            self.0 = (self.0 ^ (bytes[i] as u64)).wrapping_mul(FNV_PRIME);
            i += 1;
            assert(bytes@.take(i as int).drop_last() =~= bytes@.take(i - 1));
        }
        assert(bytes@.take(i as int) =~= bytes@);
    }

    pub fn feed_u64(&mut self, v: u64)
        ensures
            *final(self) == old(self).fed(le_u64(v)),
    {
        let mut b: Vec<u8> = Vec::new();
        put_u64(&mut b, v);
        assert(b@ =~= le_u64(v));
        self.feed_bytes(b.as_slice());
    }

    /// The fingerprint in sixteen hexadecimal digits.
    pub open spec fn label(self) -> Seq<char> {
        hex(self.0 as nat, 16)
    }

    /// The fingerprint in sixteen hexadecimal digits.
    pub fn text(&self) -> (r: String)
        ensures
            r@ == self.label(),
    {
        hex_str(self.0, 16)
    }
}

impl Default for Fingerprint {
    fn default() -> (r: Fingerprint)
        ensures
            r == Fingerprint::start(),
    {
        Fingerprint::new()
    }
}

/// The log and the fingerprint of a run.
#[derive(Debug)]
pub struct Trace {
    pub level: Level,
    pub records: Vec<Record>,
    pub max_records: usize,
    pub dropped: u64,
    pub fingerprint: Fingerprint,
    pub observed: u64,
}

/// The log and the fingerprint of a run, as a mathematical value.
#[verifier::ext_equal]
pub struct TraceView {
    pub level: Level,
    pub records: Seq<RecordView>,
    pub max_records: usize,
    pub dropped: u64,
    pub fingerprint: Fingerprint,
    pub observed: u64,
}

/// The views of a list of records.
pub open spec fn record_views(rs: Seq<Record>) -> Seq<RecordView> {
    rs.map_values(|r: Record| r@)
}

impl View for Trace {
    type V = TraceView;

    open spec fn view(&self) -> TraceView {
        TraceView {
            level: self.level,
            records: record_views(self.records@),
            max_records: self.max_records,
            dropped: self.dropped,
            fingerprint: self.fingerprint,
            observed: self.observed,
        }
    }
}

impl TraceView {
    /// A trace nothing has happened in.
    pub open spec fn blank(level: Level) -> TraceView {
        TraceView {
            level,
            records: Seq::empty(),
            max_records: 200_000,
            dropped: 0,
            fingerprint: Fingerprint::start(),
            observed: 0,
        }
    }

    /// The same trace with its log switched off and emptied.
    pub open spec fn silent(self) -> TraceView {
        TraceView { level: Level::Off, records: Seq::empty(), dropped: 0, ..self }
    }

    /// Whether lines of a level are kept.
    pub open spec fn enabled(self, level: Level) -> bool {
        level.rank() <= self.level.rank() && self.level != Level::Off
    }

    /// The trace after a line; the oldest half is dropped where it is full.
    pub open spec fn log(self, r: RecordView) -> TraceView {
        if !self.enabled(r.level) {
            self
        } else if self.records.len() >= self.max_records {
            let half = self.records.len() / 2;
            TraceView {
                records: self.records.skip(half as int).push(r),
                dropped: capped_u64(self.dropped + half),
                ..self
            }
        } else {
            TraceView { records: self.records.push(r), ..self }
        }
    }

    /// The trace after a significant event.
    pub open spec fn observe(
        self,
        time: Nanos,
        node: Option<NodeId>,
        tag: Seq<char>,
        args: Seq<u64>,
    ) -> TraceView {
        TraceView {
            fingerprint: self.fingerprint.observed(time, node, tag, args),
            observed: bump(self.observed),
            ..self
        }
    }
}

/// Lines, each ended.
pub open spec fn record_lines(rs: Seq<RecordView>) -> Seq<char>
    decreases rs.len(),
{
    if rs.len() == 0 {
        ""@
    } else {
        record_lines(rs.drop_last()) + rs.last().line() + "\n"@
    }
}

impl Default for Trace {
    fn default() -> (r: Trace)
        ensures
            r@ == TraceView::blank(Level::Off),
    {
        Trace::new(Level::Off)
    }
}

impl Clone for Trace {
    fn clone(&self) -> (r: Trace)
        ensures
            r@ == self@,
    {
        let mut records: Vec<Record> = Vec::new();
        let mut i: usize = 0;
        while i < self.records.len()
            invariant
                i <= self.records@.len(),
                records@.len() == i,
                forall|j: int| 0 <= j < i ==> (#[trigger] records@[j])@ == self.records@[j]@,
            decreases self.records@.len() - i,
        {
            records.push(self.records[i].clone());
            i += 1;
        }
        let r = Trace {
            level: self.level,
            records,
            max_records: self.max_records,
            dropped: self.dropped,
            fingerprint: self.fingerprint,
            observed: self.observed,
        };
        assert(r@ =~= self@);
        r
    }
}

impl TraceView {
    /// The whole log.
    pub open spec fn text(self) -> Seq<char> {
        (if self.dropped > 0 {
            "... "@ + decimal(self.dropped as nat) + " earlier records dropped ...\n"@
        } else {
            ""@
        }) + record_lines(self.records)
    }
}

impl Trace {
    pub fn new(level: Level) -> (r: Trace)
        ensures
            r@ == TraceView::blank(level),
    {
        let r = Trace {
            level,
            records: Vec::new(),
            // A runaway simulation must not exhaust memory before the checker
            // gets to run; keep the newest window and count what was dropped.
            max_records: 200_000,
            dropped: 0,
            fingerprint: Fingerprint::new(),
            observed: 0,
        };
        assert(r@ =~= TraceView::blank(level));
        r
    }

    pub fn level(&self) -> (r: Level)
        ensures
            r == self@.level,
    {
        self.level
    }

    pub fn set_level(&mut self, level: Level)
        ensures
            final(self)@ == (TraceView { level, ..old(self)@ }),
    {
        self.level = level;
    }

    pub fn enabled(&self, level: Level) -> (r: bool)
        ensures
            r == self@.enabled(level),
    {
        level.position() <= self.level.position() && self.level != Level::Off
    }

    pub fn log(
        &mut self,
        level: Level,
        time: Nanos,
        node: Option<NodeId>,
        category: &'static str,
        message: &str,
    )
        ensures
            final(self)@ == old(self)@.log(
                RecordView { time, node, level, category: category@, message: message@ },
            ),
    {
        if !self.enabled(level) {
            return;
        }
        let n: usize = self.records.len();
        if n >= self.max_records {
            // Drop the oldest half rather than one at a time, so this stays
            // amortised cheap instead of moving everything at each record.
            let half: usize = n / 2;
            let kept = self.records.split_off(half);
            self.records = kept;
            self.dropped = add_capped(self.dropped, half as u64);
        }
        self.records.push(Record { time, node, level, category, message: own(message) });
        assert(self@ =~= old(self)@.log(
            RecordView { time, node, level, category: category@, message: message@ },
        ));
    }

    /// Fold a significant, behaviour-defining event into the fingerprint.
    /// Never filtered: the fingerprint must not depend on the log level.
    pub fn observe(&mut self, time: Nanos, node: Option<NodeId>, tag: &'static str, args: &[u64])
        ensures
            final(self)@ == old(self)@.observe(time, node, tag@, args@),
    {
        self.observed = count_up(self.observed);
        let n: u64 = match node {
            Some(n) => n.0 as u64,
            None => u64::MAX,
        };
        self.fingerprint.feed_u64(time);
        self.fingerprint.feed_u64(n);
        self.fingerprint.feed_bytes(tag.as_bytes());
        let ghost base = self.fingerprint;
        let mut i: usize = 0;
        while i < args.len()
            invariant
                i <= args@.len(),
                self.fingerprint == base.fed_all(args@.take(i as int)),
                self.level == old(self).level,
                self.records == old(self).records,
                self.max_records == old(self).max_records,
                self.dropped == old(self).dropped,
                self.observed == bump(old(self).observed),
            decreases args@.len() - i,
        {
            self.fingerprint.feed_u64(args[i]);
            i += 1;
            assert(args@.take(i as int).drop_last() =~= args@.take(i - 1));
        }
        assert(args@.take(i as int) =~= args@);
    }

    pub fn fingerprint(&self) -> (r: Fingerprint)
        ensures
            r == self@.fingerprint,
    {
        self.fingerprint
    }

    pub fn observed_count(&self) -> (r: u64)
        ensures
            r == self@.observed,
    {
        self.observed
    }

    pub fn records(&self) -> (r: &[Record])
        ensures
            record_views(r@) == self@.records,
    {
        self.records.as_slice()
    }

    pub fn dropped(&self) -> (r: u64)
        ensures
            r == self@.dropped,
    {
        self.dropped
    }

    fn render_from(&self, start: usize) -> (r: String)
        requires
            start <= self.records@.len(),
        ensures
            r@ == record_lines(self@.records.skip(start as int)),
    {
        let ghost all = self@.records.skip(start as int);
        let mut out = own("");
        let mut i: usize = start;
        while i < self.records.len()
            invariant
                start <= i <= self.records@.len(),
                all == self@.records.skip(start as int),
                out@ == record_lines(all.take(i - start)),
            decreases self.records@.len() - i,
        {
            out.append(self.records[i].render().as_str());
            out.append("\n");
            proof {
                let t = all.take(i + 1 - start);
                assert(t.drop_last() =~= all.take(i - start));
                assert(t.last() == self.records@[i as int]@);
            }
            i += 1;
        }
        assert(all.take(i - start) =~= all);
        out
    }

    pub fn render(&self) -> (r: String)
        ensures
            r@ == self@.text(),
    {
        let mut out = own("");
        if self.dropped > 0 {
            out = own("... ");
            put_num(&mut out, self.dropped);
            out.append(" earlier records dropped ...\n");
        }
        out.append(self.render_from(0).as_str());
        assert(self@.records.skip(0) =~= self@.records);
        out
    }

    /// The last `n` records, for printing context around a failure.
    pub fn tail(&self, n: usize) -> (r: String)
        ensures
            r@ == record_lines(
                self@.records.skip(
                    if self@.records.len() > n {
                        self@.records.len() - n
                    } else {
                        0
                    },
                ),
            ),
    {
        let total: usize = self.records.len();
        let start: usize = if total > n {
            total - n
        } else {
            0
        };
        self.render_from(start)
    }
}

/// Logging, at whatever level, leaves the fingerprint alone; and what an event
/// does to the fingerprint depends on nothing that was logged.
pub proof fn law_fingerprint_ignores_the_log(
    a: TraceView,
    b: TraceView,
    r: RecordView,
    time: Nanos,
    node: Option<NodeId>,
    tag: Seq<char>,
    args: Seq<u64>,
)
    requires
        a.fingerprint == b.fingerprint,
    ensures
        a.log(r).fingerprint == a.fingerprint,
        a.log(r).observed == a.observed,
        a.observe(time, node, tag, args).fingerprint == b.observe(time, node, tag, args).fingerprint,
{
}

/// The log never grows past its bound, and always keeps the newest line.
pub proof fn law_log_is_bounded(t: TraceView, r: RecordView)
    requires
        t.max_records >= 2,
        t.records.len() <= t.max_records,
    ensures
        t.log(r).records.len() <= t.max_records,
        t.enabled(r.level) ==> t.log(r).records.last() == r,
        !t.enabled(r.level) ==> t.log(r) == t,
{
}

} // verus!
