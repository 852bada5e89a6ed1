//! Command line options, and the configurations they stand for.
//!
//! An option is `--name value`, `--name=value` or a bare `--name`; a bare one
//! is read as switched on. Nothing here prints or exits: what is wrong with a
//! command line is returned as a sentence.

use crate::count::{mul_capped, times};
use crate::harness::config::SimConfig;
use crate::harness::sweep::SweepConfig;
use crate::harness::workload::WorkloadConfig;
use crate::kvstore::bug::InjectedBug;
use crate::kvstore::raft_model::RaftConfig;
use crate::kvstore::table::KeyTable;
use crate::simcore::faults::FaultConfig;
use crate::simcore::trace::Level;
use crate::simcore::MILLIS;
use crate::text::{own, quoted, quoted_str, texts};
use vstd::prelude::*;
use vstd::string::StrSliceExecFns;

verus! {

#[derive(Debug)]
pub struct Args {
    pub flags: KeyTable<String>,
}

impl View for Args {
    type V = Map<Seq<char>, Seq<char>>;

    open spec fn view(&self) -> Map<Seq<char>, Seq<char>> {
        self.flags@
    }
}

/// Whether a word begins like an option.
pub open spec fn dashed(s: Seq<char>) -> bool {
    s.len() >= 2 && s[0] == '-' && s[1] == '-'
}

/// The first place, from `i` on, of a character.
pub open spec fn place_of_char(s: Seq<char>, c: char, i: int) -> Option<int>
    decreases s.len() - i,
{
    if i >= s.len() {
        None
    } else if s[i] == c {
        Some(i)
    } else {
        place_of_char(s, c, i + 1)
    }
}

/// The options the words from place `i` on stand for, on top of those found
/// already. An option is switched on unless the next word is its value.
pub open spec fn options(
    argv: Seq<Seq<char>>,
    i: int,
    found: Map<Seq<char>, Seq<char>>,
) -> Result<Map<Seq<char>, Seq<char>>, Seq<char>>
    decreases argv.len() - i,
{
    if i >= argv.len() {
        Ok(found)
    } else if !dashed(argv[i]) {
        Err("unexpected argument "@ + quoted(argv[i]))
    } else {
        let name = argv[i].skip(2);
        match place_of_char(name, '=', 0) {
            Some(k) => options(argv, i + 1, found.insert(name.take(k), name.skip(k + 1))),
            None => if i + 1 < argv.len() && !dashed(argv[i + 1]) {
                options(argv, i + 2, found.insert(name, argv[i + 1]))
            } else {
                options(argv, i + 1, found.insert(name, "true"@))
            },
        }
    }
}

// ---- numbers -----------------------------------------------------------------

/// The value of a digit, where a character is one.
pub open spec fn digit_value(c: char) -> Option<nat> {
    if '0' <= c && c <= '9' {
        Some((c as nat - '0' as nat) as nat)
    } else {
        None
    }
}

/// The number the characters from place `i` on continue `n` to. Underscores
/// are skipped; anything else but a digit, and a number too large, is refused.
pub open spec fn number_from(s: Seq<char>, i: int, n: nat, digits: bool) -> Option<u64>
    decreases s.len() - i,
{
    if i >= s.len() {
        if digits {
            Some(n as u64)
        } else {
            None
        }
    } else if s[i] == '_' {
        number_from(s, i + 1, n, digits)
    } else {
        match digit_value(s[i]) {
            Some(d) => if n * 10 + d <= u64::MAX {
                number_from(s, i + 1, n * 10 + d, true)
            } else {
                None
            },
            None => None,
        }
    }
}

/// The first place from `i` on that holds something other than an underscore.
pub open spec fn past_underscores(s: Seq<char>, i: int) -> int
    decreases s.len() - i,
{
    if i < s.len() && s[i] == '_' {
        past_underscores(s, i + 1)
    } else {
        i
    }
}

/// The number a word stands for. A sign in front of it is allowed, and
/// underscores anywhere.
pub open spec fn number_in(s: Seq<char>) -> Option<u64> {
    let p = past_underscores(s, 0);
    if p < s.len() && s[p] == '+' {
        number_from(s, p + 1, 0, false)
    } else {
        number_from(s, p, 0, false)
    }
}

fn digit_of(c: char) -> (r: Option<u64>)
    ensures
        match r {
            Some(d) => digit_value(c) == Some(d as nat) && d <= 9,
            None => digit_value(c) is None,
        },
{
    if '0' <= c && c <= '9' {
        Some(c as u64 - '0' as u64)
    } else {
        None
    }
}

/// Read a number.
pub fn parse_number(s: &str) -> (r: Option<u64>)
    ensures
        r == number_in(s@),
{
    let len: usize = s.unicode_len();
    let mut p: usize = 0;
    while p < len && s.get_char(p) == '_'
        invariant
            p <= len == s@.len(),
            past_underscores(s@, 0) == past_underscores(s@, p as int),
        decreases len - p,
    {
        p += 1;
    }
    if p < len && s.get_char(p) == '+' {
        p += 1;
    }
    let mut i: usize = p;
    let mut n: u64 = 0;
    let mut digits = false;
    while i < len
        invariant
            p <= i <= len == s@.len(),
            number_in(s@) == number_from(s@, i as int, n as nat, digits),
        decreases len - i,
    {
        let c = s.get_char(i);
        if c != '_' {
            let d: u64 = match digit_of(c) {
                Some(d) => d,
                None => {
                    return None;
                },
            };
            if n > u64::MAX / 10 || n * 10 > u64::MAX - d {
                return None;
            }
            n = n * 10 + d;
            digits = true;
        }
        i += 1;
    }
    if digits {
        Some(n)
    } else {
        None
    }
}

// ---- reading options ---------------------------------------------------------

/// What is wrong with an option that ought to be a number.
pub open spec fn complaint(m: Map<Seq<char>, Seq<char>>, key: Seq<char>) -> Option<Seq<char>> {
    if m.contains_key(key) && number_in(m[key]) is None {
        Some("--"@ + key + " expects a number, got "@ + quoted(m[key]))
    } else {
        None
    }
}

/// The number an option was given.
pub open spec fn number_at(m: Map<Seq<char>, Seq<char>>, key: Seq<char>) -> Option<u64> {
    if m.contains_key(key) {
        number_in(m[key])
    } else {
        None
    }
}

/// The number an option was given, or else another.
pub open spec fn number_or(m: Map<Seq<char>, Seq<char>>, key: Seq<char>, other: u64) -> u64 {
    match number_at(m, key) {
        Some(n) => n,
        None => other,
    }
}

/// A count, as far as counts go.
pub open spec fn as_count(n: u64) -> usize {
    if n <= usize::MAX {
        n as usize
    } else {
        usize::MAX
    }
}

/// The count an option was given, or else another.
pub open spec fn count_or(m: Map<Seq<char>, Seq<char>>, key: Seq<char>, other: usize) -> usize {
    match number_at(m, key) {
        Some(n) => as_count(n),
        None => other,
    }
}

/// What is wrong with the level that was asked for.
pub open spec fn level_complaint(m: Map<Seq<char>, Seq<char>>) -> Option<Seq<char>> {
    if m.contains_key("trace"@) && Level::named(m["trace"@]) is None {
        Some("--trace expects off|error|warn|info|debug, got "@ + quoted(m["trace"@]))
    } else {
        None
    }
}

/// The level that was asked for.
pub open spec fn level_at(m: Map<Seq<char>, Seq<char>>) -> Option<Level> {
    if m.contains_key("trace"@) {
        Level::named(m["trace"@])
    } else {
        None
    }
}

/// What is wrong with the defect that was asked for.
pub open spec fn bug_complaint(m: Map<Seq<char>, Seq<char>>) -> Option<Seq<char>> {
    if m.contains_key("bug"@) && InjectedBug::named(m["bug"@]) is None {
        Some(
            "unknown --bug "@ + quoted(m["bug"@])
                + "; try one of: ack-before-sync, commit-any-term, vote-before-sync, no-dedup, truncate-on-any-append"@,
        )
    } else {
        None
    }
}

/// The first thing that is wrong.
pub open spec fn either(a: Option<Seq<char>>, b: Option<Seq<char>>) -> Option<Seq<char>> {
    if a is Some {
        a
    } else {
        b
    }
}

/// What is wrong with the options of a run, in the order they are looked at.
pub open spec fn run_complaint(m: Map<Seq<char>, Seq<char>>) -> Option<Seq<char>> {
    either(
        complaint(m, "seed"@),
        either(
            complaint(m, "servers"@),
            either(
                complaint(m, "clients"@),
                either(
                    complaint(m, "keys"@),
                    either(
                        complaint(m, "duration"@),
                        either(
                            complaint(m, "settle"@),
                            either(
                                complaint(m, "drain"@),
                                either(
                                    level_complaint(m),
                                    either(
                                        bug_complaint(m),
                                        either(
                                            complaint(m, "max-batch"@),
                                            either(
                                                complaint(m, "max-events"@),
                                                complaint(m, "check-durability-every"@),
                                            ),
                                        ),
                                    ),
                                ),
                            ),
                        ),
                    ),
                ),
            ),
        ),
    )
}

/// A number that is at least one.
pub open spec fn positive(n: u64) -> u64 {
    if n == 0 {
        1
    } else {
        n
    }
}

/// What a run is before options change it.
pub open spec fn base_of(m: Map<Seq<char>, Seq<char>>) -> SimConfig {
    let seed = number_or(m, "seed"@, 1);
    if m.contains_key("benign"@) {
        SimConfig::perfect(seed)
    } else {
        SimConfig { seed, ..SimConfig::standard() }
    }
}

/// The run that options stand for.
pub open spec fn run_asked_for(m: Map<Seq<char>, Seq<char>>) -> SimConfig {
    let c = base_of(m);
    SimConfig {
        servers: count_or(m, "servers"@, c.servers),
        clients: count_or(m, "clients"@, c.clients),
        workload: WorkloadConfig { keys: count_or(m, "keys"@, c.workload.keys), ..c.workload },
        duration: times(number_or(m, "duration"@, c.duration / MILLIS), MILLIS),
        settle: times(number_or(m, "settle"@, c.settle / MILLIS), MILLIS),
        drain: times(number_or(m, "drain"@, c.drain / MILLIS), MILLIS),
        trace_level: match level_at(m) {
            Some(l) => l,
            None => c.trace_level,
        },
        check_liveness: c.check_liveness && !m.contains_key("no-liveness"@) && !m.contains_key(
            "quorum-loss"@,
        ),
        raft: RaftConfig {
            bug: if m.contains_key("bug"@) {
                InjectedBug::named(m["bug"@])->Some_0
            } else {
                c.raft.bug
            },
            max_batch: match number_at(m, "max-batch"@) {
                Some(n) => as_count(positive(n)),
                None => c.raft.max_batch,
            },
            ..c.raft
        },
        faults: FaultConfig {
            allow_quorum_loss: c.faults.allow_quorum_loss || m.contains_key("quorum-loss"@),
            ..c.faults
        },
        max_events: number_or(m, "max-events"@, c.max_events),
        check_durability_every: match number_at(m, "check-durability-every"@) {
            Some(n) => positive(n),
            None => c.check_durability_every,
        },
        ..c
    }.normalised()
}

fn is_dashed(s: &str) -> (r: bool)
    ensures
        r == dashed(s@),
{
    s.unicode_len() >= 2 && s.get_char(0) == '-' && s.get_char(1) == '-'
}

fn find_char(s: &str, c: char) -> (r: Option<usize>)
    ensures
        match r {
            Some(k) => place_of_char(s@, c, 0) == Some(k as int) && k < s@.len(),
            None => place_of_char(s@, c, 0) is None,
        },
{
    let len: usize = s.unicode_len();
    let mut i: usize = 0;
    while i < len
        invariant
            i <= len == s@.len(),
            place_of_char(s@, c, 0) == place_of_char(s@, c, i as int),
        decreases len - i,
    {
        if s.get_char(i) == c {
            return Some(i);
        }
        i += 1;
    }
    None
}

fn to_count(n: u64) -> (r: usize)
    ensures
        r == as_count(n),
{
    if n <= usize::MAX as u64 {
        n as usize
    } else {
        usize::MAX
    }
}

fn at_least_one(n: u64) -> (r: u64)
    ensures
        r == positive(n),
{
    if n == 0 {
        1
    } else {
        n
    }
}

impl Args {
    /// The table is in order.
    pub open spec fn wf(&self) -> bool {
        self.flags.wf()
    }

    pub fn parse(argv: &[String]) -> (r: Result<Args, String>)
        ensures
            match r {
                Ok(a) => a.wf() && options(texts(argv@), 0, Map::empty()) == Ok::<
                    Map<Seq<char>, Seq<char>>,
                    Seq<char>,
                >(a@),
                Err(e) => options(texts(argv@), 0, Map::empty()) == Err::<
                    Map<Seq<char>, Seq<char>>,
                    Seq<char>,
                >(e@),
            },
    {
        let ghost words = texts(argv@);
        let mut flags: KeyTable<String> = KeyTable::new();
        let n: usize = argv.len();
        let mut i: usize = 0;
        while i < n
            invariant
                i <= n == argv@.len(),
                words == texts(argv@),
                flags.wf(),
                options(words, 0, Map::empty()) == options(words, i as int, flags@),
            decreases n - i,
        {
            let arg = argv[i].as_str();
            assert(words[i as int] == arg@);
            if !is_dashed(arg) {
                let mut s = own("unexpected argument ");
                s.append(quoted_str(arg).as_str());
                return Err(s);
            }
            let len: usize = arg.unicode_len();
            let name = arg.substring_char(2, len);
            assert(name@ =~= arg@.skip(2));
            match find_char(name, '=') {
                Some(k) => {
                    let m: usize = name.unicode_len();
                    let key = name.substring_char(0, k);
                    let value = name.substring_char(k + 1, m);
                    assert(key@ =~= name@.take(k as int));
                    assert(value@ =~= name@.skip(k + 1));
                    flags.insert(own(key), own(value));
                    i += 1;
                },
                None => {
                    // A flag is a boolean unless the next token is a value.
                    if i + 1 < n && !is_dashed(argv[i + 1].as_str()) {
                        assert(words[i + 1] == argv@[i + 1]@);
                        flags.insert(own(name), argv[i + 1].clone());
                        i += 2;
                    } else {
                        assert(i + 1 < n ==> words[i + 1] == argv@[i + 1]@);
                        flags.insert(own(name), own("true"));
                        i += 1;
                    }
                },
            }
        }
        Ok(Args { flags })
    }

    pub fn get(&self, key: &str) -> (r: Option<&str>)
        requires
            self.wf(),
        ensures
            match r {
                Some(v) => self@.contains_key(key@) && self@[key@] == v@,
                None => !self@.contains_key(key@),
            },
    {
        match self.flags.get(key) {
            Some(v) => Some(v.as_str()),
            None => None,
        }
    }

    pub fn has(&self, key: &str) -> (r: bool)
        requires
            self.wf(),
        ensures
            r == self@.contains_key(key@),
    {
        self.flags.get(key).is_some()
    }

    /// The number an option was given, or what is wrong with it.
    pub fn opt_u64(&self, key: &str) -> (r: Result<Option<u64>, String>)
        requires
            self.wf(),
        ensures
            match r {
                Ok(n) => complaint(self@, key@) is None && n == number_at(self@, key@),
                Err(e) => complaint(self@, key@) == Some(e@),
            },
    {
        let raw = match self.get(key) {
            Some(raw) => raw,
            None => {
                return Ok(None);
            },
        };
        match parse_number(raw) {
            Some(n) => Ok(Some(n)),
            None => {
                let mut s = own("--");
                s.append(key);
                s.append(" expects a number, got ");
                s.append(quoted_str(raw).as_str());
                Err(s)
            },
        }
    }

    pub fn u64(&self, key: &str, default: u64) -> (r: Result<u64, String>)
        requires
            self.wf(),
        ensures
            match r {
                Ok(n) => complaint(self@, key@) is None && n == number_or(self@, key@, default),
                Err(e) => complaint(self@, key@) == Some(e@),
            },
    {
        match self.opt_u64(key) {
            Ok(Some(n)) => Ok(n),
            Ok(None) => Ok(default),
            Err(e) => Err(e),
        }
    }

    pub fn usize(&self, key: &str, default: usize) -> (r: Result<usize, String>)
        requires
            self.wf(),
        ensures
            match r {
                Ok(n) => complaint(self@, key@) is None && n == count_or(self@, key@, default),
                Err(e) => complaint(self@, key@) == Some(e@),
            },
    {
        match self.opt_u64(key) {
            Ok(Some(n)) => Ok(to_count(n)),
            Ok(None) => Ok(default),
            Err(e) => Err(e),
        }
    }

    pub fn level(&self) -> (r: Result<Option<Level>, String>)
        requires
            self.wf(),
        ensures
            match r {
                Ok(l) => level_complaint(self@) is None && l == level_at(self@),
                Err(e) => level_complaint(self@) == Some(e@),
            },
    {
        let raw = match self.get("trace") {
            Some(raw) => raw,
            None => {
                return Ok(None);
            },
        };
        match Level::parse(raw) {
            Some(l) => Ok(Some(l)),
            None => {
                let mut s = own("--trace expects off|error|warn|info|debug, got ");
                s.append(quoted_str(raw).as_str());
                Err(s)
            },
        }
    }

    fn bug(&self, default: InjectedBug) -> (r: Result<InjectedBug, String>)
        requires
            self.wf(),
        ensures
            match r {
                Ok(b) => bug_complaint(self@) is None && b == (if self@.contains_key("bug"@) {
                    InjectedBug::named(self@["bug"@])->Some_0
                } else {
                    default
                }),
                Err(e) => bug_complaint(self@) == Some(e@),
            },
    {
        let name = match self.get("bug") {
            Some(name) => name,
            None => {
                return Ok(default);
            },
        };
        match InjectedBug::parse(name) {
            Some(b) => Ok(b),
            None => {
                let mut s = own("unknown --bug ");
                s.append(quoted_str(name).as_str());
                s.append(
                    "; try one of: ack-before-sync, commit-any-term, vote-before-sync, no-dedup, truncate-on-any-append",
                );
                Err(s)
            },
        }
    }
}

/// The run that options ask for.
pub fn config(args: &Args) -> (r: Result<SimConfig, String>)
    requires
        args.wf(),
    ensures
        match r {
            Ok(cfg) => run_complaint(args@) is None && cfg == run_asked_for(args@),
            Err(e) => run_complaint(args@) == Some(e@),
        },
{
    let seed: u64 = match args.u64("seed", 1) {
        Ok(n) => n,
        Err(e) => {
            return Err(e);
        },
    };
    let mut cfg = if args.has("benign") {
        SimConfig::benign(seed)
    } else {
        SimConfig::with_seed(seed)
    };
    cfg.servers = match args.usize("servers", cfg.servers) {
        Ok(n) => n,
        Err(e) => {
            return Err(e);
        },
    };
    cfg.clients = match args.usize("clients", cfg.clients) {
        Ok(n) => n,
        Err(e) => {
            return Err(e);
        },
    };
    cfg.workload.keys = match args.usize("keys", cfg.workload.keys) {
        Ok(n) => n,
        Err(e) => {
            return Err(e);
        },
    };
    cfg.duration = match args.u64("duration", cfg.duration / MILLIS) {
        Ok(n) => mul_capped(n, MILLIS),
        Err(e) => {
            return Err(e);
        },
    };
    cfg.settle = match args.u64("settle", cfg.settle / MILLIS) {
        Ok(n) => mul_capped(n, MILLIS),
        Err(e) => {
            return Err(e);
        },
    };
    cfg.drain = match args.u64("drain", cfg.drain / MILLIS) {
        Ok(n) => mul_capped(n, MILLIS),
        Err(e) => {
            return Err(e);
        },
    };
    match args.level() {
        Ok(Some(l)) => cfg.trace_level = l,
        Ok(None) => {},
        Err(e) => {
            return Err(e);
        },
    }
    if args.has("no-liveness") {
        cfg.check_liveness = false;
    }
    cfg.raft.bug = match args.bug(cfg.raft.bug) {
        Ok(b) => b,
        Err(e) => {
            return Err(e);
        },
    };
    match args.opt_u64("max-batch") {
        Ok(Some(n)) => cfg.raft.max_batch = to_count(at_least_one(n)),
        Ok(None) => {},
        Err(e) => {
            return Err(e);
        },
    }
    if args.has("quorum-loss") {
        // Let the injector take down a majority. Safety must still hold;
        // progress plainly cannot, so the liveness check stands down.
        cfg.faults.allow_quorum_loss = true;
        cfg.check_liveness = false;
    }
    cfg.max_events = match args.u64("max-events", cfg.max_events) {
        Ok(n) => n,
        Err(e) => {
            return Err(e);
        },
    };
    match args.opt_u64("check-durability-every") {
        Ok(Some(n)) => cfg.check_durability_every = at_least_one(n),
        Ok(None) => {},
        Err(e) => {
            return Err(e);
        },
    }
    cfg.normalise();
    Ok(cfg)
}

/// What is wrong with the options of a sweep.
pub open spec fn sweep_complaint(m: Map<Seq<char>, Seq<char>>) -> Option<Seq<char>> {
    either(
        run_complaint(m),
        either(
            complaint(m, "from"@),
            either(
                complaint(m, "seeds"@),
                either(complaint(m, "threads"@), complaint(m, "stop-after"@)),
            ),
        ),
    )
}

/// The sweep that options ask for, on `threads` threads where they do not say.
pub fn sweep_config(args: &Args, threads: usize) -> (r: Result<SweepConfig, String>)
    requires
        args.wf(),
    ensures
        match r {
            Ok(cfg) => sweep_complaint(args@) is None && cfg == (SweepConfig {
                base: run_asked_for(args@),
                start_seed: number_or(args@, "from"@, 1),
                count: number_or(args@, "seeds"@, 200),
                threads: count_or(args@, "threads"@, threads),
                stop_after: count_or(args@, "stop-after"@, 0),
                verbose: args@.contains_key("verbose"@),
            }),
            Err(e) => sweep_complaint(args@) == Some(e@),
        },
{
    let base = match config(args) {
        Ok(c) => c,
        Err(e) => {
            return Err(e);
        },
    };
    let start_seed: u64 = match args.u64("from", 1) {
        Ok(n) => n,
        Err(e) => {
            return Err(e);
        },
    };
    let count: u64 = match args.u64("seeds", 200) {
        Ok(n) => n,
        Err(e) => {
            return Err(e);
        },
    };
    let threads: usize = match args.usize("threads", threads) {
        Ok(n) => n,
        Err(e) => {
            return Err(e);
        },
    };
    let stop_after: usize = match args.usize("stop-after", 0) {
        Ok(n) => n,
        Err(e) => {
            return Err(e);
        },
    };
    Ok(SweepConfig { base, start_seed, count, threads, stop_after, verbose: args.has("verbose") })
}

} // verus!
