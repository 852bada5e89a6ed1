//! Deliberate defects, for proving that the checkers can still see anything.

use crate::text::same_str;
use vstd::prelude::*;

verus! {

/// A defect that can be switched on. A harness that has never failed is
/// indistinguishable from one that cannot fail.
#[derive(Clone, Copy, Debug, PartialEq, Eq, Structural)]
pub enum InjectedBug {
    Off,
    /// Acknowledge entries before they are synced.
    AckBeforeSync,
    /// Commit entries of earlier terms by counting replicas.
    CommitAnyTerm,
    /// Reveal a vote before it is durable.
    VoteBeforeSync,
    /// Apply a retried command a second time.
    NoDedup,
    /// Cut the log back to the length of every append that arrives.
    TruncateOnAnyAppend,
}

impl Default for InjectedBug {
    fn default() -> (r: InjectedBug)
        ensures
            r == InjectedBug::Off,
    {
        InjectedBug::Off
    }
}

impl InjectedBug {
    /// What the defect is called on the command line.
    pub open spec fn label(self) -> Seq<char> {
        match self {
            InjectedBug::Off => "none"@,
            InjectedBug::AckBeforeSync => "ack-before-sync"@,
            InjectedBug::CommitAnyTerm => "commit-any-term"@,
            InjectedBug::VoteBeforeSync => "vote-before-sync"@,
            InjectedBug::NoDedup => "no-dedup"@,
            InjectedBug::TruncateOnAnyAppend => "truncate-on-any-append"@,
        }
    }

    /// Every defect there is.
    pub const ALL: [InjectedBug; 5] = [
        InjectedBug::AckBeforeSync,
        InjectedBug::CommitAnyTerm,
        InjectedBug::VoteBeforeSync,
        InjectedBug::NoDedup,
        InjectedBug::TruncateOnAnyAppend,
    ];

    /// What the defect is called on the command line.
    pub fn name(self) -> (r: &'static str)
        ensures
            r@ == self.label(),
    {
        match self {
            InjectedBug::Off => "none",
            InjectedBug::AckBeforeSync => "ack-before-sync",
            InjectedBug::CommitAnyTerm => "commit-any-term",
            InjectedBug::VoteBeforeSync => "vote-before-sync",
            InjectedBug::NoDedup => "no-dedup",
            InjectedBug::TruncateOnAnyAppend => "truncate-on-any-append",
        }
    }

    /// The defect with this name.
    pub open spec fn named(s: Seq<char>) -> Option<InjectedBug> {
        if s == "none"@ {
            Some(InjectedBug::Off)
        } else if s == "ack-before-sync"@ {
            Some(InjectedBug::AckBeforeSync)
        } else if s == "commit-any-term"@ {
            Some(InjectedBug::CommitAnyTerm)
        } else if s == "vote-before-sync"@ {
            Some(InjectedBug::VoteBeforeSync)
        } else if s == "no-dedup"@ {
            Some(InjectedBug::NoDedup)
        } else if s == "truncate-on-any-append"@ {
            Some(InjectedBug::TruncateOnAnyAppend)
        } else {
            None
        }
    }

    /// The defect with this name.
    pub fn parse(s: &str) -> (r: Option<InjectedBug>)
        ensures
            r == InjectedBug::named(s@),
            match r {
                Some(b) => b.label() == s@,
                None => forall|b: InjectedBug| (#[trigger] b.label()) != s@,
            },
    {
        if same_str(s, "none") {
            Some(InjectedBug::Off)
        } else if same_str(s, "ack-before-sync") {
            Some(InjectedBug::AckBeforeSync)
        } else if same_str(s, "commit-any-term") {
            Some(InjectedBug::CommitAnyTerm)
        } else if same_str(s, "vote-before-sync") {
            Some(InjectedBug::VoteBeforeSync)
        } else if same_str(s, "no-dedup") {
            Some(InjectedBug::NoDedup)
        } else if same_str(s, "truncate-on-any-append") {
            Some(InjectedBug::TruncateOnAnyAppend)
        } else {
            None
        }
    }
}

/// No two defects share a name.
pub proof fn law_bug_names_differ(a: InjectedBug, b: InjectedBug)
    requires
        a.label() == b.label(),
    ensures
        a == b,
{
    reveal_strlit("none");
    reveal_strlit("ack-before-sync");
    reveal_strlit("commit-any-term");
    reveal_strlit("vote-before-sync");
    reveal_strlit("no-dedup");
    reveal_strlit("truncate-on-any-append");
    assert("none"@.len() == 4);
    assert("ack-before-sync"@[0] == 'a');
    assert("commit-any-term"@[0] == 'c');
    assert("vote-before-sync"@[0] == 'v');
    assert("no-dedup"@.len() == 8);
    assert("truncate-on-any-append"@[0] == 't');
    assert("none"@[0] == 'n');
    assert("no-dedup"@[0] == 'n');
}

} // verus!
