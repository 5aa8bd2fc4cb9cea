//! Running totals by label.

use crate::text_map::TextMap;
use vstd::prelude::*;

verus! {

/// One more, unless the counter is full.
pub open spec fn one_more(n: u64) -> u64 {
    if n == u64::MAX {
        n
    } else {
        (n + 1) as u64
    }
}

/// `n` more, unless the counter is full.
pub open spec fn raised(a: u64, n: nat) -> u64 {
    if a + n > u64::MAX {
        u64::MAX
    } else {
        (a + n) as u64
    }
}

/// How often a label has been counted.
pub open spec fn count_of(counts: Map<Seq<char>, u64>, label: Seq<char>) -> u64 {
    if counts.contains_key(label) {
        counts[label]
    } else {
        0
    }
}

/// The totals after a label has been counted once more.
pub open spec fn counted(counts: Map<Seq<char>, u64>, label: Seq<char>) -> Map<Seq<char>, u64> {
    counts.insert(label, one_more(count_of(counts, label)))
}

/// The totals after the first `n` labels have been counted.
pub open spec fn all_counted(
    counts: Map<Seq<char>, u64>,
    labels: Seq<Seq<char>>,
    n: nat,
) -> Map<Seq<char>, u64>
    decreases n,
{
    if n == 0 {
        counts
    } else {
        counted(all_counted(counts, labels, (n - 1) as nat), labels[n - 1])
    }
}

/// Counts a label once more, and says how often it has been counted.
pub fn count(counts: &mut TextMap<u64>, label: &str) -> (n: u64)
    ensures
        final(counts)@ == counted(old(counts)@, label@),
        n == one_more(count_of(old(counts)@, label@)),
{
    let before: u64 = match counts.get(label) {
        Some(n) => *n,
        None => 0,
    };
    let n: u64 = before.saturating_add(1);
    counts.insert(label.to_owned(), n);
    n
}

/// How often a label occurs among the first `n`.
pub open spec fn occurrences(labels: Seq<Seq<char>>, n: nat, label: Seq<char>) -> nat
    decreases n,
{
    if n == 0 {
        0
    } else {
        occurrences(labels, (n - 1) as nat, label) + if labels[n - 1] == label {
            1nat
        } else {
            0
        }
    }
}

/// Counting labels adds to each total how often its label occurs.
pub proof fn law_totals_add_up(
    counts: Map<Seq<char>, u64>,
    labels: Seq<Seq<char>>,
    n: nat,
    label: Seq<char>,
)
    requires
        n <= labels.len(),
    ensures
        count_of(all_counted(counts, labels, n), label) == raised(
            count_of(counts, label),
            occurrences(labels, n, label),
        ),
    decreases n,
{
    if n > 0 {
        law_totals_add_up(counts, labels, (n - 1) as nat, label);
    }
}

} // verus!
