//! The report of a progress tracker whose voter order is broken.

use vstd::prelude::*;
use crate::encoding::{append_decimal, dec_text};

verus! {

/// An entry as the report shows it: its position, node ID and progress.
pub type EntryAt<ID> = (usize, ID, u64);

/// Why the voters of a progress tracker are out of order.
#[derive(Debug, PartialEq, Eq)]
pub enum VoterOrderError<ID> {
    /// Two neighbouring voters above the quorum-accepted value are in
    /// ascending order.
    NotDescending {
        quorum_accepted: u64,
        previous_entry: EntryAt<ID>,
        out_of_order_entry: EntryAt<ID>,
        voter_progress: Vec<(ID, u64)>,
        learner_progress: Vec<(ID, u64)>,
    },
    /// A voter above the quorum-accepted value follows one that is not.
    AfterUnsortedSuffix {
        quorum_accepted: u64,
        out_of_order_entry: EntryAt<ID>,
        voter_progress: Vec<(ID, u64)>,
        learner_progress: Vec<(ID, u64)>,
    },
}

/// An entry of a report with its ID taken by its view.
pub open spec fn entry_at_view<ID: View>(e: EntryAt<ID>) -> (usize, ID::V, u64) {
    (e.0, e.1@, e.2)
}

/// ID and progress pairs with each ID taken by its view.
pub open spec fn pairs_view<ID: View>(s: Seq<(ID, u64)>) -> Seq<(ID::V, u64)> {
    s.map_values(|p: (ID, u64)| (p.0@, p.1))
}

/// `(a, b, c)`.
pub open spec fn triple_text(e: EntryAt<u64>) -> Seq<char> {
    "("@ + dec_text(e.0 as nat) + ", "@ + dec_text(e.1 as nat) + ", "@ + dec_text(e.2 as nat) + ")"@
}

/// `(a, b)`.
pub open spec fn pair_text(p: (u64, u64)) -> Seq<char> {
    "("@ + dec_text(p.0 as nat) + ", "@ + dec_text(p.1 as nat) + ")"@
}

/// The pairs written one after another, separated by `", "`.
pub open spec fn pairs_join(s: Seq<(u64, u64)>) -> Seq<char>
    decreases s.len(),
{
    if s.len() == 0 {
        seq![]
    } else if s.len() == 1 {
        pair_text(s[0])
    } else {
        pairs_join(s.drop_last()) + ", "@ + pair_text(s.last())
    }
}

/// `[(a, b), (c, d), ...]`.
pub open spec fn pairs_text(s: Seq<(u64, u64)>) -> Seq<char> {
    "["@ + pairs_join(s) + "]"@
}

/// The message of a [`VoterOrderError`].
pub open spec fn voter_order_message(e: VoterOrderError<u64>) -> Seq<char> {
    match e {
        VoterOrderError::NotDescending {
            quorum_accepted,
            previous_entry,
            out_of_order_entry,
            voter_progress,
            learner_progress,
        } => "voter progress above quorum_accepted is not descending: quorum_accepted="@ + dec_text(
            quorum_accepted as nat,
        ) + ", previous_entry="@ + triple_text(previous_entry) + ", out_of_order_entry="@ + triple_text(
            out_of_order_entry,
        ) + ", voter_progress="@ + pairs_text(voter_progress@) + ", learner_progress="@ + pairs_text(
            learner_progress@,
        ),
        VoterOrderError::AfterUnsortedSuffix {
            quorum_accepted,
            out_of_order_entry,
            voter_progress,
            learner_progress,
        } => "voter progress above quorum_accepted appears after the unsorted suffix: quorum_accepted="@ + dec_text(
            quorum_accepted as nat,
        ) + ", out_of_order_entry="@ + triple_text(out_of_order_entry) + ", voter_progress="@ + pairs_text(
            voter_progress@,
        ) + ", learner_progress="@ + pairs_text(learner_progress@),
    }
}

fn append_triple(out: &mut String, e: EntryAt<u64>)
    ensures
        final(out)@ == old(out)@ + triple_text(e),
{
    out.append("(");
    append_decimal(out, e.0 as u64);
    out.append(", ");
    append_decimal(out, e.1);
    out.append(", ");
    append_decimal(out, e.2);
    out.append(")");
    assert(out@ =~= old(out)@ + triple_text(e));
}

fn append_pair(out: &mut String, p: (u64, u64))
    ensures
        final(out)@ == old(out)@ + pair_text(p),
{
    out.append("(");
    append_decimal(out, p.0);
    out.append(", ");
    append_decimal(out, p.1);
    out.append(")");
    assert(out@ =~= old(out)@ + pair_text(p));
}

fn append_pairs(out: &mut String, s: &Vec<(u64, u64)>)
    ensures
        final(out)@ == old(out)@ + pairs_text(s@),
{
    out.append("[");
    let ghost start = out@;
    let mut i: usize = 0;
    while i < s.len()
        invariant
            0 <= i <= s@.len(),
            out@ == start + pairs_join(s@.take(i as int)),
        decreases s@.len() - i,
    {
        if i > 0 {
            out.append(", ");
        }
        append_pair(out, s[i]);
        proof {
            let t = s@.take(i + 1);
            assert(t.drop_last() =~= s@.take(i as int));
            assert(t.last() == s@[i as int]);
            if i == 0 {
                assert(pairs_join(t) == pair_text(t[0]));
            }
        }
        i = i + 1;
        assert(out@ =~= start + pairs_join(s@.take(i as int)));
    }
    assert(s@.take(s@.len() as int) =~= s@);
    out.append("]");
    assert(out@ =~= old(out)@ + pairs_text(s@));
}

impl VoterOrderError<u64> {
    /// The text of this error.
    pub fn message(&self) -> (r: String)
        ensures
            r@ == voter_order_message(*self),
    {
        let mut out = String::new();
        match self {
            VoterOrderError::NotDescending {
                quorum_accepted,
                previous_entry,
                out_of_order_entry,
                voter_progress,
                learner_progress,
            } => {
                out.append("voter progress above quorum_accepted is not descending: quorum_accepted=");
                append_decimal(&mut out, *quorum_accepted);
                out.append(", previous_entry=");
                append_triple(&mut out, *previous_entry);
                out.append(", out_of_order_entry=");
                append_triple(&mut out, *out_of_order_entry);
                out.append(", voter_progress=");
                append_pairs(&mut out, voter_progress);
                out.append(", learner_progress=");
                append_pairs(&mut out, learner_progress);
            },
            VoterOrderError::AfterUnsortedSuffix {
                quorum_accepted,
                out_of_order_entry,
                voter_progress,
                learner_progress,
            } => {
                out.append("voter progress above quorum_accepted appears after the unsorted suffix: quorum_accepted=");
                append_decimal(&mut out, *quorum_accepted);
                out.append(", out_of_order_entry=");
                append_triple(&mut out, *out_of_order_entry);
                out.append(", voter_progress=");
                append_pairs(&mut out, voter_progress);
                out.append(", learner_progress=");
                append_pairs(&mut out, learner_progress);
            },
        }
        assert(out@ =~= voter_order_message(*self));
        out
    }
}

} // verus!
