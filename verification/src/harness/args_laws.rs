//! What options stand for.

use crate::harness::args::{
    base_of, dashed, digit_value, number_at, number_from, number_in, options, past_underscores,
    place_of_char, run_asked_for, run_complaint, sweep_complaint,
};
use crate::kvstore::bug::InjectedBug;
use crate::simcore::trace::Level;
use crate::text::{decimal, digit};
use vstd::prelude::*;

verus! {

/// Each option sets what it names, in the unit it is given in, and what no
/// option names is as it is without any.
pub proof fn law_options_set_what_they_name(m: Map<Seq<char>, Seq<char>>, n: u64)
    requires
        n <= 0xFFFF_FFFF,
    ensures
        ({
            let c = run_asked_for(m);
            let b = base_of(m);
            &&& number_at(m, "seed"@) == Some(n) ==> c.seed == n
            &&& number_at(m, "servers"@) == Some(n) ==> c.servers == n
            &&& number_at(m, "servers"@) is None ==> c.servers == b.servers
            &&& number_at(m, "clients"@) == Some(n) ==> c.clients == n
            &&& number_at(m, "clients"@) is None ==> c.clients == b.clients
            &&& number_at(m, "keys"@) == Some(n) ==> c.workload.keys == n
            &&& number_at(m, "keys"@) is None ==> c.workload == b.workload
            &&& number_at(m, "duration"@) == Some(n) ==> c.duration == n * 1_000_000
            &&& number_at(m, "settle"@) == Some(n) ==> c.settle == n * 1_000_000
            &&& number_at(m, "drain"@) == Some(n) ==> c.drain == n * 1_000_000
            &&& number_at(m, "max-events"@) == Some(n) ==> c.max_events == n
            &&& number_at(m, "max-events"@) is None ==> c.max_events == b.max_events
            &&& number_at(m, "max-batch"@) == Some(n) && n > 0 ==> c.raft.max_batch == n
            &&& number_at(m, "max-batch"@) == Some(0u64) ==> c.raft.max_batch == 1
            &&& number_at(m, "max-batch"@) is None ==> c.raft.max_batch == b.raft.max_batch
            &&& number_at(m, "check-durability-every"@) == Some(n) && n > 0
                ==> c.check_durability_every == n
            &&& number_at(m, "check-durability-every"@) is None ==> c.check_durability_every
                == b.check_durability_every
            &&& m.contains_key("no-liveness"@) || m.contains_key("quorum-loss"@) ==> !c.check_liveness
            &&& !m.contains_key("no-liveness"@) && !m.contains_key("quorum-loss"@) ==> c.check_liveness
                == b.check_liveness
            &&& m.contains_key("quorum-loss"@) ==> c.faults.allow_quorum_loss
            &&& c.net == b.net && c.disk == b.disk
            &&& c.check_every == b.check_every && c.linearizability_budget == b.linearizability_budget
            &&& c.faults.window.1 == c.duration
        }),
{
    assert(n * 1_000_000 <= u64::MAX);
}

proof fn lemma_digit(d: nat)
    requires
        d < 10,
    ensures
        digit(d).len() == 1,
        digit_value(digit(d)[0]) == Some(d),
        digit(d)[0] != '_',
        digit(d)[0] != '+',
{
    reveal_strlit("0");
    reveal_strlit("1");
    reveal_strlit("2");
    reveal_strlit("3");
    reveal_strlit("4");
    reveal_strlit("5");
    reveal_strlit("6");
    reveal_strlit("7");
    reveal_strlit("8");
    reveal_strlit("9");
}

/// Whether a text is all digits.
pub open spec fn all_digits(s: Seq<char>) -> bool {
    forall|i: int| 0 <= i < s.len() ==> digit_value(#[trigger] s[i]) is Some && s[i] != '_' && s[i] != '+'
}

proof fn lemma_decimal(n: nat)
    ensures
        decimal(n).len() > 0,
        all_digits(decimal(n)),
    decreases n,
{
    if n < 10 {
        lemma_digit(n);
    } else {
        lemma_decimal(n / 10);
        lemma_digit(n % 10);
        let (a, b) = (decimal(n / 10), digit(n % 10));
        assert forall|i: int| 0 <= i < (a + b).len() implies digit_value(#[trigger] (a + b)[i]) is Some
            && (a + b)[i] != '_' && (a + b)[i] != '+' by {
            if i < a.len() {
                assert((a + b)[i] == a[i]);
            } else {
                assert((a + b)[i] == b[0]);
            }
        }
    }
}

/// Reading one more digit.
proof fn lemma_number_push(s: Seq<char>, d: nat, i: int, n: nat, digits: bool, v: u64)
    requires
        d < 10,
        0 <= i <= s.len(),
        n <= u64::MAX,
        number_from(s, i, n, digits) == Some(v),
        v * 10 + d <= u64::MAX,
    ensures
        number_from(s + digit(d), i, n, digits) == Some((v * 10 + d) as u64),
    decreases s.len() - i,
{
    lemma_digit(d);
    let t = s + digit(d);
    if i < s.len() {
        assert(t[i] == s[i]);
        if s[i] == '_' {
            lemma_number_push(s, d, i + 1, n, digits, v);
        } else {
            let x = digit_value(s[i])->Some_0;
            lemma_number_push(s, d, i + 1, n * 10 + x, true, v);
        }
    } else {
        assert(t[i] == digit(d)[0]);
        assert(n == v);
        assert(number_from(t, i + 1, n * 10 + d, true) == Some((n * 10 + d) as u64));
    }
}

/// A number that is written out is read back.
pub proof fn law_numbers_are_read_back(n: u64)
    ensures
        number_in(decimal(n as nat)) == Some(n),
{
    let s = decimal(n as nat);
    lemma_decimal(n as nat);
    assert(s[0] != '_' && s[0] != '+');
    assert(past_underscores(s, 0) == 0);
    lemma_read(n);
}

proof fn lemma_read(n: u64)
    ensures
        number_from(decimal(n as nat), 0, 0, false) == Some(n),
    decreases n,
{
    let s = decimal(n as nat);
    if n < 10 {
        lemma_digit(n as nat);
        assert(number_from(s, 1, n as nat, true) == Some(n));
    } else {
        lemma_read(n / 10);
        lemma_decimal((n / 10) as nat);
        lemma_number_push(decimal((n / 10) as nat), (n % 10) as nat, 0, 0, false, n / 10);
    }
}

/// Whether an option is there and not a number.
pub open spec fn no_number(m: Map<Seq<char>, Seq<char>>, key: Seq<char>) -> bool {
    m.contains_key(key) && number_in(m[key]) is None
}

/// Options are complained about exactly where one that ought to be a number is
/// not, or a level or a defect is unknown.
pub proof fn law_bad_options_are_complained_about(m: Map<Seq<char>, Seq<char>>)
    ensures
        ({
            let bad = no_number(m, "seed"@) || no_number(m, "servers"@) || no_number(m, "clients"@)
                || no_number(m, "keys"@) || no_number(m, "duration"@) || no_number(m, "settle"@)
                || no_number(m, "drain"@) || no_number(m, "max-batch"@) || no_number(
                m,
                "max-events"@,
            ) || no_number(m, "check-durability-every"@) || (m.contains_key("trace"@)
                && Level::named(m["trace"@]) is None) || (m.contains_key("bug"@)
                && InjectedBug::named(m["bug"@]) is None);
            let worse = no_number(m, "from"@) || no_number(m, "seeds"@) || no_number(m, "threads"@)
                || no_number(m, "stop-after"@);
            &&& run_complaint(m) is Some <==> bad
            &&& sweep_complaint(m) is Some <==> bad || worse
        }),
{
}

proof fn lemma_no_such(s: Seq<char>, c: char, i: int)
    requires
        0 <= i,
        !s.contains(c),
    ensures
        place_of_char(s, c, i) is None,
    decreases s.len() - i,
{
    if i < s.len() {
        assert(s.contains(s[i]));
        lemma_no_such(s, c, i + 1);
    }
}

proof fn lemma_such(s: Seq<char>, c: char, i: int, k: int)
    requires
        0 <= i <= k < s.len(),
        s[k] == c,
        forall|j: int| i <= j < k ==> s[j] != c,
    ensures
        place_of_char(s, c, i) == Some(k),
    decreases k - i,
{
    if i < k {
        lemma_such(s, c, i + 1, k);
    }
}

/// An option is given in one of three ways: by itself, which switches it on; with
/// the next word as its value; or with its value behind an equals sign.
pub proof fn law_options_are_given_in_three_ways(name: Seq<char>, value: Seq<char>)
    requires
        !name.contains('='),
        !dashed(value),
    ensures
        options(seq!["--"@ + name], 0, Map::empty()) == Ok::<Map<Seq<char>, Seq<char>>, Seq<char>>(
            map![name => "true"@],
        ),
        options(seq!["--"@ + name, value], 0, Map::empty()) == Ok::<
            Map<Seq<char>, Seq<char>>,
            Seq<char>,
        >(map![name => value]),
        options(seq!["--"@ + name + "="@ + value], 0, Map::empty()) == Ok::<
            Map<Seq<char>, Seq<char>>,
            Seq<char>,
        >(map![name => value]),
{
    reveal_strlit("--");
    reveal_strlit("=");
    let w = "--"@ + name;
    assert(w.skip(2) =~= name);
    assert(dashed(w));
    lemma_no_such(name, '=', 0);
    let a = seq![w];
    assert(a[0] == w);
    assert(options(a, 1, map![name => "true"@]) == Ok::<Map<Seq<char>, Seq<char>>, Seq<char>>(
        map![name => "true"@],
    ));
    assert(Map::<Seq<char>, Seq<char>>::empty().insert(name, "true"@) =~= map![name => "true"@]);
    let b = seq![w, value];
    assert(b[0] == w && b[1] == value);
    assert(Map::<Seq<char>, Seq<char>>::empty().insert(name, value) =~= map![name => value]);
    assert(options(b, 2, map![name => value]) == Ok::<Map<Seq<char>, Seq<char>>, Seq<char>>(
        map![name => value],
    ));
    let x = "--"@ + name + "="@ + value;
    let c = seq![x];
    assert(c[0] == x);
    assert(dashed(x));
    let rest = x.skip(2);
    assert(rest =~= name + "="@ + value);
    let k = name.len() as int;
    assert(rest[k] == '=');
    assert forall|j: int| 0 <= j < k implies rest[j] != '=' by {
        assert(rest[j] == name[j]);
        assert(name.contains(name[j]));
    }
    lemma_such(rest, '=', 0, k);
    assert(rest.take(k) =~= name);
    assert(rest.skip(k + 1) =~= value);
    assert(options(c, 1, map![name => value]) == Ok::<Map<Seq<char>, Seq<char>>, Seq<char>>(
        map![name => value],
    ));
}

/// A word that belongs to no option is refused.
pub proof fn law_stray_words_are_refused(argv: Seq<Seq<char>>, i: int, m: Map<Seq<char>, Seq<char>>)
    requires
        0 <= i < argv.len(),
        !dashed(argv[i]),
    ensures
        options(argv, i, m) is Err,
{
}

} // verus!
