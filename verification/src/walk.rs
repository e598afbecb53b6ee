//! Admission of what a directory walk reports, and the running totals.

use vstd::prelude::*;
use crate::entry::{FileEntry, Stats};

verus! {

/// What the walk found at one directory entry.
#[derive(Debug)]
pub enum WalkOutcome {
    /// The root itself could not be opened.
    RootUnreadable,
    /// An entry below the root could not be listed.
    Unlisted,
    /// A directory, a symbolic link or a special file.
    NotRegular,
    /// A regular file whose metadata could not be read.
    NoMetadata,
    /// A regular file with its length.
    Regular(FileEntry),
}

/// Why a scan gives no report.
#[derive(Clone, Copy, Debug, PartialEq, Eq, Structural)]
pub enum ScanError {
    /// The root does not exist or cannot be traversed.
    RootUnreadable,
}

/// Whether the walk failed at its root.
pub open spec fn root_failed(outcomes: Seq<WalkOutcome>) -> bool {
    exists|k: int| 0 <= k < outcomes.len() && (#[trigger] outcomes[k]) is RootUnreadable
}

/// Decides whether the scan goes on: every failure is passed over but that of
/// the root itself.
pub fn root_verdict(outcomes: &Vec<WalkOutcome>) -> (verdict: Result<(), ScanError>)
    ensures
        verdict is Err == root_failed(outcomes@),
        verdict is Err ==> verdict->Err_0 == ScanError::RootUnreadable,
{
    let mut k: usize = 0;
    while k < outcomes.len()
        invariant
            0 <= k <= outcomes.len(),
            forall|m: int| 0 <= m < k ==> !((#[trigger] outcomes@[m]) is RootUnreadable),
        decreases outcomes.len() - k,
    {
        match &outcomes[k] {
            WalkOutcome::RootUnreadable => {
                return Err(ScanError::RootUnreadable);
            },
            _ => {},
        }
        k = k + 1;
    }
    Ok(())
}

/// Whether the walk yields this entry: regular files only, and no empty ones
/// when `noempty` is set.
pub open spec fn admits(outcome: WalkOutcome, noempty: bool) -> bool {
    match outcome {
        WalkOutcome::Regular(entry) => !(noempty && entry.length == 0),
        _ => false,
    }
}

/// The files that a walk yields, in the order of the walk.
pub open spec fn yielded(outcomes: Seq<WalkOutcome>, noempty: bool) -> Seq<FileEntry>
    decreases outcomes.len(),
{
    if outcomes.len() == 0 {
        Seq::empty()
    } else if admits(outcomes.last(), noempty) {
        yielded(outcomes.drop_last(), noempty).push(outcomes.last()->Regular_0)
    } else {
        yielded(outcomes.drop_last(), noempty)
    }
}

/// The sum of the lengths of `entries`.
pub open spec fn total_length(entries: Seq<FileEntry>) -> nat
    decreases entries.len(),
{
    if entries.len() == 0 {
        0
    } else {
        total_length(entries.drop_last()) + entries.last().length as nat
    }
}

/// The files yielded by a part of a walk are no more, and no longer in total,
/// than those yielded by the whole.
pub proof fn lemma_yielded_prefix(outcomes: Seq<WalkOutcome>, noempty: bool, k: int)
    requires
        0 <= k <= outcomes.len(),
    ensures
        yielded(outcomes.take(k), noempty).len() <= yielded(outcomes, noempty).len(),
        yielded(outcomes, noempty).len() <= outcomes.len(),
        total_length(yielded(outcomes.take(k), noempty)) <= total_length(
            yielded(outcomes, noempty),
        ),
    decreases outcomes.len(),
{
    if k == outcomes.len() {
        assert(outcomes.take(k) == outcomes);
        if outcomes.len() > 0 {
            lemma_yielded_prefix(outcomes.drop_last(), noempty, k - 1);
        }
    } else {
        lemma_yielded_prefix(outcomes.drop_last(), noempty, k);
        assert(outcomes.drop_last().take(k) == outcomes.take(k));
        if admits(outcomes.last(), noempty) {
            assert(yielded(outcomes, noempty).drop_last() == yielded(
                outcomes.drop_last(),
                noempty,
            ));
        }
    }
}

/// Decides whether the walk yields `outcome`, and hands out the file if so.
pub fn accept(outcome: &WalkOutcome, noempty: bool) -> (entry: Option<FileEntry>)
    ensures
        entry is Some == admits(*outcome, noempty),
        entry is Some ==> entry->Some_0 == outcome->Regular_0,
{
    match outcome {
        WalkOutcome::Regular(entry) => {
            if noempty && entry.length == 0 {
                None
            } else {
                Some(entry.duplicate())
            }
        },
        _ => None,
    }
}

/// Whether the totals in `stats` can take the files of this walk without
/// running over: the condition under which `yield_entries` may be called.
pub open spec fn totals_fit(outcomes: Seq<WalkOutcome>, noempty: bool, stats: Stats) -> bool {
    &&& stats.file_count + yielded(outcomes, noempty).len() <= u64::MAX
    &&& stats.total_size + total_length(yielded(outcomes, noempty)) <= u64::MAX
}

/// Tests whether the totals in `stats` can take the files of this walk.
pub fn can_yield(outcomes: &Vec<WalkOutcome>, noempty: bool, stats: &Stats) -> (fits: bool)
    ensures
        fits == totals_fit(outcomes@, noempty, *stats),
{
    let mut count: u64 = stats.file_count;
    let mut size: u64 = stats.total_size;
    let mut k: usize = 0;
    while k < outcomes.len()
        invariant
            0 <= k <= outcomes.len(),
            count == stats.file_count + yielded(outcomes@.take(k as int), noempty).len(),
            size == stats.total_size + total_length(yielded(outcomes@.take(k as int), noempty)),
        decreases outcomes.len() - k,
    {
        proof {
            assert(outcomes@.take(k as int + 1).drop_last() == outcomes@.take(k as int));
            assert(outcomes@.take(k as int + 1).last() == outcomes@[k as int]);
            lemma_yielded_prefix(outcomes@, noempty, k as int + 1);
        }
        match &outcomes[k] {
            WalkOutcome::Regular(entry) => {
                if !(noempty && entry.length == 0) {
                    proof {
                        let seen = yielded(outcomes@.take(k as int), noempty);
                        assert(seen.push(*entry).drop_last() == seen);
                    }
                    if count == u64::MAX || entry.length > u64::MAX - size {
                        return false;
                    }
                    count = count + 1;
                    size = size + entry.length;
                }
            },
            _ => {},
        }
        k = k + 1;
    }
    proof {
        assert(outcomes@.take(outcomes.len() as int) == outcomes@);
    }
    true
}

/// Runs the walk's admission over `outcomes`: returns the yielded files in
/// order and counts each of them, with its length, in `stats`.
pub fn yield_entries(outcomes: &Vec<WalkOutcome>, noempty: bool, stats: &mut Stats) -> (entries:
    Vec<FileEntry>)
    requires
        totals_fit(outcomes@, noempty, *old(stats)),
    ensures
        entries@ == yielded(outcomes@, noempty),
        final(stats).file_count == old(stats).file_count + entries@.len(),
        final(stats).total_size == old(stats).total_size + total_length(entries@),
        final(stats).duplicate_count == old(stats).duplicate_count,
{
    let mut entries: Vec<FileEntry> = Vec::new();
    let mut k: usize = 0;
    while k < outcomes.len()
        invariant
            0 <= k <= outcomes.len(),
            entries@ == yielded(outcomes@.take(k as int), noempty),
            stats.file_count == old(stats).file_count + entries@.len(),
            stats.total_size == old(stats).total_size + total_length(entries@),
            stats.duplicate_count == old(stats).duplicate_count,
            old(stats).file_count + yielded(outcomes@, noempty).len() <= u64::MAX,
            old(stats).total_size + total_length(yielded(outcomes@, noempty)) <= u64::MAX,
        decreases outcomes.len() - k,
    {
        proof {
            assert(outcomes@.take(k as int + 1).drop_last() == outcomes@.take(k as int));
            assert(outcomes@.take(k as int + 1).last() == outcomes@[k as int]);
            lemma_yielded_prefix(outcomes@, noempty, k as int + 1);
        }
        match accept(&outcomes[k], noempty) {
            Some(entry) => {
                proof {
                    assert(entries@.push(entry).drop_last() == entries@);
                }
                stats.record_file(entry.length);
                entries.push(entry);
            },
            None => {},
        }
        k = k + 1;
    }
    proof {
        assert(outcomes@.take(outcomes.len() as int) == outcomes@);
    }
    entries
}

} // verus!
