//! How far a scan has come, and when it says so.

use vstd::prelude::*;
use vstd::string::StringExecFns;
use crate::names::{decimal, push_decimal};

verus! {

/// Progress messages are at least this many milliseconds apart.
pub const PROGRESS_INTERVAL_MS: u64 = 200;

/// Partial snapshots are at least this many milliseconds apart.
pub const SNAPSHOT_INTERVAL_MS: u64 = 10_000;

/// How far a scan has come.
#[derive(Clone, Copy, Debug, PartialEq, Eq, Structural)]
pub struct Progress {
    /// The number of files handled so far.
    pub done: usize,
    /// The number of files the scan handles in all.
    pub total: usize,
    /// `done` as a share of `total`, in percent.
    pub percent: u8,
}

impl Progress {
    /// The progress as a text: the two counts with a `/` between them, and
    /// the percentage in brackets.
    pub open spec fn label_text(self) -> Seq<char> {
        decimal(self.done as nat) + seq!['/'] + decimal(self.total as nat) + seq![' ', '(']
            + decimal(self.percent as nat) + seq!['%', ')']
    }

    /// The progress as a text, such as `3/9 (33%)`.
    pub fn label(&self) -> (r: String)
        ensures
            r@ == self.label_text(),
    {
        proof {
            reveal_strlit("/");
            reveal_strlit(" (");
            reveal_strlit("%)");
            assert("/"@ =~= seq!['/']);
            assert(" ("@ =~= seq![' ', '(']);
            assert("%)"@ =~= seq!['%', ')']);
        }
        let mut text = String::new();
        push_decimal(&mut text, self.done as u64);
        text.append("/");
        push_decimal(&mut text, self.total as u64);
        text.append(" (");
        push_decimal(&mut text, self.percent as u64);
        text.append("%)");
        assert(text@ =~= self.label_text());
        text
    }
}

/// `done` as a share of `total` in percent, rounded to the nearest whole
/// number, halves up. A scan of no files is complete.
pub open spec fn percent_of(done: nat, total: nat) -> nat {
    if total == 0 || done >= total {
        100
    } else {
        (200 * done + total) / (2 * total)
    }
}

/// A share is at most 100 percent.
pub proof fn lemma_percent_bound(done: nat, total: nat)
    ensures
        percent_of(done, total) <= 100,
{
    if total > 0 && done < total {
        assert((200 * done + total) / (2 * total) <= 100) by (nonlinear_arith)
            requires
                total > 0,
                done < total,
        ;
    }
}

/// `done` as a share of `total`, in percent.
pub fn percent(done: usize, total: usize) -> (r: u8)
    ensures
        r == percent_of(done as nat, total as nat),
        r <= 100,
{
    proof {
        lemma_percent_bound(done as nat, total as nat);
    }
    if total == 0 || done >= total {
        100
    } else {
        let d: u128 = done as u128;
        let t: u128 = total as u128;
        let q: u128 = (200 * d + t) / (2 * t);
        q as u8
    }
}

/// Whether at least `interval` milliseconds lie between `last` and `now`.
/// A clock that went backwards lets nothing fall due.
pub open spec fn is_due(last: u64, now: u64, interval: u64) -> bool {
    now >= last && now - last >= interval
}

pub(crate) fn due(last: u64, now: u64, interval: u64) -> (r: bool)
    ensures
        r == is_due(last, now, interval),
{
    now >= last && now - last >= interval
}

} // verus!
