//! Size buckets: the yielded files grouped by exact length.

use vstd::prelude::*;
use crate::classify::{classify, key_lt, lemma_positions_carry_key, partitions, positions_of, Class};
use crate::entry::{FileEntry, Stats};
use crate::walk::{totals_fit, total_length, yield_entries, yielded, WalkOutcome};

verus! {

/// The files of one length, in the order of the walk.
#[derive(Debug)]
pub struct SizeBucket {
    pub length: u64,
    pub entries: Vec<FileEntry>,
}

/// The entries of the given length, in order.
pub open spec fn of_length(entries: Seq<FileEntry>, length: u64) -> Seq<FileEntry>
    decreases entries.len(),
{
    if entries.len() == 0 {
        Seq::empty()
    } else if entries.last().length == length {
        of_length(entries.drop_last(), length).push(entries.last())
    } else {
        of_length(entries.drop_last(), length)
    }
}

/// `buckets` holds `entries` by size: each bucket holds every entry of its
/// length and at least one, every entry has its bucket, and the buckets stand
/// in strictly increasing order of length.
pub open spec fn bucketed(buckets: Seq<SizeBucket>, entries: Seq<FileEntry>) -> bool {
    &&& forall|i: int| 0 <= i < buckets.len() ==>
            (#[trigger] buckets[i]).entries@ == of_length(entries, buckets[i].length)
    &&& forall|i: int| 0 <= i < buckets.len() ==> (#[trigger] buckets[i]).entries@.len() > 0
    &&& forall|i: int, j: int| 0 <= i < j < buckets.len() ==>
            (#[trigger] buckets[i]).length < (#[trigger] buckets[j]).length
    &&& forall|k: int| 0 <= k < entries.len() ==> has_bucket(buckets, (#[trigger] entries[k]).length)
}

/// Whether one of `buckets` is for `length`.
pub open spec fn has_bucket(buckets: Seq<SizeBucket>, length: u64) -> bool {
    exists|i: int| 0 <= i < buckets.len() && (#[trigger] buckets[i]).length == length
}

impl SizeBucket {
    /// Whether the bucket can hold duplicates at all: a file that shares its
    /// length with no other needs neither its identity resolved nor its
    /// content hashed.
    pub fn may_hold_duplicates(&self) -> (worth: bool)
        ensures
            worth == (self.entries@.len() >= 2),
    {
        self.entries.len() >= 2
    }
}

/// Every entry stands in the listing of its own length.
pub proof fn lemma_entry_in_its_length(entries: Seq<FileEntry>, k: int) -> (j: int)
    requires
        0 <= k < entries.len(),
    ensures
        0 <= j < of_length(entries, entries[k].length).len(),
        of_length(entries, entries[k].length)[j] == entries[k],
    decreases entries.len(),
{
    let rest = entries.drop_last();
    if k == entries.len() - 1 {
        of_length(rest, entries[k].length).len() as int
    } else {
        assert(rest[k] == entries[k]);
        lemma_entry_in_its_length(rest, k)
    }
}

/// Every entry of a listing by length has that length.
pub proof fn lemma_listing_has_length(entries: Seq<FileEntry>, length: u64, j: int)
    requires
        0 <= j < of_length(entries, length).len(),
    ensures
        of_length(entries, length)[j].length == length,
    decreases entries.len(),
{
    let rest = entries.drop_last();
    if !(entries.last().length == length && j == of_length(rest, length).len()) {
        lemma_listing_has_length(rest, length, j);
    }
}

/// Bucketing loses and mixes nothing: every entry stands in one bucket, that
/// of its own length, and every entry of a bucket has the bucket's length.
pub proof fn lemma_buckets_cover(buckets: Seq<SizeBucket>, entries: Seq<FileEntry>, k: int) -> (place: (
    int,
    int,
))
    requires
        bucketed(buckets, entries),
        0 <= k < entries.len(),
    ensures
        0 <= place.0 < buckets.len(),
        0 <= place.1 < buckets[place.0].entries@.len(),
        buckets[place.0].length == entries[k].length,
        buckets[place.0].entries@[place.1] == entries[k],
        forall|i: int, j: int| 0 <= i < buckets.len() && 0 <= j < buckets[i].entries@.len() ==> (
        #[trigger] buckets[i].entries@[j]).length == buckets[i].length,
{
    assert(has_bucket(buckets, entries[k].length));
    let i = choose|i: int| 0 <= i < buckets.len() && (#[trigger] buckets[i]).length == entries[k].length;
    let j = lemma_entry_in_its_length(entries, k);
    assert forall|a: int, b: int| 0 <= a < buckets.len() && 0 <= b < buckets[a].entries@.len() implies (
    #[trigger] buckets[a].entries@[b]).length == buckets[a].length by {
        lemma_listing_has_length(entries, buckets[a].length, b);
    }
    (i, j)
}

/// Every bucket of one bucketing stands in every other bucketing of the same
/// entries, with the same entries in the same order.
pub proof fn lemma_bucket_in_every_bucketing(
    first: Seq<SizeBucket>,
    second: Seq<SizeBucket>,
    entries: Seq<FileEntry>,
    b: int,
) -> (c: int)
    requires
        bucketed(first, entries),
        bucketed(second, entries),
        0 <= b < first.len(),
    ensures
        0 <= c < second.len(),
        second[c].length == first[b].length,
        second[c].entries@ == first[b].entries@,
{
    let length = first[b].length;
    assert(first[b].entries@.len() > 0);
    let k = lemma_listing_has_source(entries, length, 0);
    assert(has_bucket(second, entries[k].length));
    choose|c: int| 0 <= c < second.len() && (#[trigger] second[c]).length == length
}

/// Every entry of a listing by length is one of the entries.
pub proof fn lemma_listing_has_source(entries: Seq<FileEntry>, length: u64, j: int) -> (k: int)
    requires
        0 <= j < of_length(entries, length).len(),
    ensures
        0 <= k < entries.len(),
        entries[k] == of_length(entries, length)[j],
        entries[k].length == length,
    decreases entries.len(),
{
    let rest = entries.drop_last();
    if entries.last().length == length && j == of_length(rest, length).len() {
        entries.len() - 1
    } else {
        let k = lemma_listing_has_source(rest, length, j);
        assert(rest[k] == entries[k]);
        k
    }
}

/// Two bucketings of the same entries agree on their first `n` lengths.
proof fn lemma_bucketings_agree_up_to(
    first: Seq<SizeBucket>,
    second: Seq<SizeBucket>,
    entries: Seq<FileEntry>,
    n: int,
)
    requires
        bucketed(first, entries),
        bucketed(second, entries),
        0 <= n <= first.len(),
    ensures
        n <= second.len(),
        forall|m: int| 0 <= m < n ==> (#[trigger] first[m]).length == second[m].length,
    decreases n,
{
    if n > 0 {
        let last = n - 1;
        lemma_bucketings_agree_up_to(first, second, entries, last);
        let c = lemma_bucket_in_every_bucketing(first, second, entries, last);
        if c < last {
            assert(first[c].length == second[c].length);
            assert(first[c].length < first[last].length);
        }
        if c > last {
            assert(second[last].length < second[c].length);
            let b = lemma_bucket_in_every_bucketing(second, first, entries, last);
            if b < last {
                assert(first[b].length == second[b].length);
                assert(second[b].length < second[last].length);
            } else if b > last {
                assert(first[last].length < first[b].length);
            }
        }
        assert(c == last);
    }
}

/// The buckets are determined by the entries: two bucketings of the same
/// entries hold the same buckets in the same order, each with the same entries
/// in the same order.
pub proof fn lemma_buckets_are_determined(
    first: Seq<SizeBucket>,
    second: Seq<SizeBucket>,
    entries: Seq<FileEntry>,
)
    requires
        bucketed(first, entries),
        bucketed(second, entries),
    ensures
        first.len() == second.len(),
        forall|b: int| 0 <= b < first.len() ==> (#[trigger] first[b]).length == second[b].length,
        forall|b: int| 0 <= b < first.len() ==> (#[trigger] first[b]).entries@ == second[b].entries@,
{
    lemma_bucketings_agree_up_to(first, second, entries, first.len() as int);
    lemma_bucketings_agree_up_to(second, first, entries, second.len() as int);
}

/// The number of entries in all buckets together.
pub open spec fn total_entries(buckets: Seq<SizeBucket>) -> nat
    decreases buckets.len(),
{
    if buckets.len() == 0 {
        0
    } else {
        total_entries(buckets.drop_last()) + buckets.last().entries@.len()
    }
}

/// The lengths of the buckets, in order.
pub open spec fn lengths_of(buckets: Seq<SizeBucket>) -> Seq<u64> {
    Seq::new(buckets.len(), |i: int| buckets[i].length)
}

/// How many entries the listings of these lengths hold together.
pub open spec fn held(lengths: Seq<u64>, entries: Seq<FileEntry>) -> nat
    decreases lengths.len(),
{
    if lengths.len() == 0 {
        0
    } else {
        held(lengths.drop_last(), entries) + of_length(entries, lengths.last()).len()
    }
}

/// How often a length stands among `lengths`.
pub open spec fn occurrences(lengths: Seq<u64>, length: u64) -> nat
    decreases lengths.len(),
{
    if lengths.len() == 0 {
        0
    } else {
        occurrences(lengths.drop_last(), length) + (if lengths.last() == length {
            1nat
        } else {
            0nat
        })
    }
}

/// One more entry adds to the listings as often as its length stands among
/// the lengths.
proof fn lemma_held_grows(lengths: Seq<u64>, entries: Seq<FileEntry>)
    requires
        entries.len() > 0,
    ensures
        held(lengths, entries) == held(lengths, entries.drop_last()) + occurrences(
            lengths,
            entries.last().length,
        ),
    decreases lengths.len(),
{
    if lengths.len() > 0 {
        lemma_held_grows(lengths.drop_last(), entries);
    }
}

/// A length that stands nowhere among the lengths occurs no times.
proof fn lemma_absent_length(lengths: Seq<u64>, length: u64)
    requires
        forall|i: int| 0 <= i < lengths.len() ==> lengths[i] != length,
    ensures
        occurrences(lengths, length) == 0,
    decreases lengths.len(),
{
    if lengths.len() > 0 {
        let rest = lengths.drop_last();
        assert forall|i: int| 0 <= i < rest.len() implies rest[i] != length by {
            assert(rest[i] == lengths[i]);
        }
        lemma_absent_length(rest, length);
    }
}

/// Among strictly increasing lengths, one that stands there occurs once.
proof fn lemma_length_stands_once(lengths: Seq<u64>, length: u64)
    requires
        forall|i: int, j: int| 0 <= i < j < lengths.len() ==> lengths[i] < lengths[j],
        lengths.contains(length),
    ensures
        occurrences(lengths, length) == 1,
    decreases lengths.len(),
{
    let rest = lengths.drop_last();
    let at = choose|i: int| 0 <= i < lengths.len() && lengths[i] == length;
    assert forall|i: int, j: int| 0 <= i < j < rest.len() implies rest[i] < rest[j] by {
        assert(rest[i] == lengths[i]);
        assert(rest[j] == lengths[j]);
    }
    if lengths.last() == length {
        assert forall|i: int| 0 <= i < rest.len() implies rest[i] != length by {
            assert(rest[i] == lengths[i]);
            assert(lengths[i] < lengths[lengths.len() - 1]);
        }
        lemma_absent_length(rest, length);
    } else {
        assert(rest[at] == length);
        lemma_length_stands_once(rest, length);
    }
}

/// The listings of no entries hold nothing.
proof fn lemma_held_of_none(lengths: Seq<u64>)
    ensures
        held(lengths, Seq::<FileEntry>::empty()) == 0,
    decreases lengths.len(),
{
    if lengths.len() > 0 {
        lemma_held_of_none(lengths.drop_last());
    }
}

/// Where every entry's length is among strictly increasing lengths, the
/// listings of those lengths hold each entry once.
proof fn lemma_held_is_all(lengths: Seq<u64>, entries: Seq<FileEntry>)
    requires
        forall|i: int, j: int| 0 <= i < j < lengths.len() ==> lengths[i] < lengths[j],
        forall|k: int| 0 <= k < entries.len() ==> lengths.contains((#[trigger] entries[k]).length),
    ensures
        held(lengths, entries) == entries.len(),
    decreases entries.len(),
{
    if entries.len() == 0 {
        assert(entries =~= Seq::<FileEntry>::empty());
        lemma_held_of_none(lengths);
    } else {
        let rest = entries.drop_last();
        assert forall|k: int| 0 <= k < rest.len() implies lengths.contains((#[trigger] rest[k]).length) by {
            assert(rest[k] == entries[k]);
        }
        lemma_held_is_all(lengths, rest);
        lemma_held_grows(lengths, entries);
        assert(lengths.contains(entries[entries.len() - 1].length));
        lemma_length_stands_once(lengths, entries.last().length);
    }
}

/// Buckets that are the listings of their lengths hold what those listings
/// hold.
proof fn lemma_total_is_held(buckets: Seq<SizeBucket>, entries: Seq<FileEntry>)
    requires
        forall|i: int| 0 <= i < buckets.len() ==> (#[trigger] buckets[i]).entries@ == of_length(
            entries,
            buckets[i].length,
        ),
    ensures
        total_entries(buckets) == held(lengths_of(buckets), entries),
    decreases buckets.len(),
{
    if buckets.len() > 0 {
        let rest = buckets.drop_last();
        assert forall|i: int| 0 <= i < rest.len() implies (#[trigger] rest[i]).entries@ == of_length(
            entries,
            rest[i].length,
        ) by {
            assert(rest[i] == buckets[i]);
        }
        lemma_total_is_held(rest, entries);
        assert(lengths_of(buckets).drop_last() =~= lengths_of(rest));
        assert(lengths_of(buckets).last() == buckets.last().length);
        assert(buckets.last() == buckets[buckets.len() - 1]);
    }
}

/// The buckets hold each entry once: their sizes add up to the number of
/// entries.
pub proof fn lemma_buckets_hold_all(buckets: Seq<SizeBucket>, entries: Seq<FileEntry>)
    requires
        bucketed(buckets, entries),
    ensures
        total_entries(buckets) == entries.len(),
{
    let lengths = lengths_of(buckets);
    lemma_total_is_held(buckets, entries);
    assert forall|k: int| 0 <= k < entries.len() implies lengths.contains((#[trigger] entries[k]).length) by {
        assert(has_bucket(buckets, entries[k].length));
        let i = choose|i: int| 0 <= i < buckets.len() && (#[trigger] buckets[i]).length == entries[k].length;
        assert(lengths[i] == entries[k].length);
    }
    assert forall|i: int, j: int| 0 <= i < j < lengths.len() implies lengths[i] < lengths[j] by {
        assert(buckets[i].length < buckets[j].length);
    }
    lemma_held_is_all(lengths, entries);
}

/// The key under which an entry is bucketed.
pub open spec fn size_keys(entries: Seq<FileEntry>) -> Seq<Option<(u64, u64)>> {
    Seq::new(entries.len(), |k: int| Some((entries[k].length, 0u64)))
}

/// The positions that carry a length are the positions of the entries of that
/// length.
pub proof fn lemma_positions_of_length(entries: Seq<FileEntry>, length: u64)
    requires
        entries.len() <= usize::MAX,
    ensures
        positions_of(size_keys(entries), (length, 0u64)).len() == of_length(entries, length).len(),
        forall|j: int| 0 <= j < of_length(entries, length).len() ==> (#[trigger] positions_of(
            size_keys(entries),
            (length, 0u64),
        )[j]) < entries.len(),
        forall|j: int| 0 <= j < of_length(entries, length).len() ==> entries[(#[trigger] positions_of(
            size_keys(entries),
            (length, 0u64),
        )[j]) as int] == of_length(entries, length)[j],
    decreases entries.len(),
{
    if entries.len() > 0 {
        let rest = entries.drop_last();
        lemma_positions_of_length(rest, length);
        assert(size_keys(entries).drop_last() == size_keys(rest));
        assert(size_keys(entries).last() == Some((entries.last().length, 0u64)));
        let here = positions_of(size_keys(entries), (length, 0u64));
        let before = positions_of(size_keys(rest), (length, 0u64));
        assert forall|j: int| 0 <= j < of_length(entries, length).len() implies (#[trigger] here[j])
            < entries.len() && entries[here[j] as int] == of_length(entries, length)[j] by {
            if j < of_length(rest, length).len() {
                assert(here[j] == before[j]);
                assert(rest[before[j] as int] == entries[before[j] as int]);
            }
        }
    }
}

/// Groups `entries` by exact length.
pub fn bucket_by_size(entries: &Vec<FileEntry>) -> (buckets: Vec<SizeBucket>)
    ensures
        bucketed(buckets@, entries@),
        forall|i: int, j: int| 0 <= i < buckets@.len() && 0 <= j < buckets@[i].entries@.len() ==> (
        #[trigger] buckets@[i].entries@[j]).length == buckets@[i].length,
        total_entries(buckets@) == entries@.len(),
{
    let mut keys: Vec<Option<(u64, u64)>> = Vec::new();
    let mut k: usize = 0;
    while k < entries.len()
        invariant
            0 <= k <= entries.len(),
            keys@.len() == k,
            forall|m: int| 0 <= m < k ==> keys@[m] == Some((entries@[m].length, 0u64)),
        decreases entries.len() - k,
    {
        keys.push(Some((entries[k].length, 0u64)));
        k = k + 1;
    }
    proof {
        assert(keys@ =~= size_keys(entries@));
    }
    let classes: Vec<Class> = classify(&keys);
    proof {
        assert forall|b: int| 0 <= b < classes@.len() implies (#[trigger] classes@[b]).key.1 == 0 by {
            lemma_positions_carry_key(keys@, classes@[b].key);
            let p = positions_of(keys@, classes@[b].key)[0];
            assert(keys@[p as int] == Some(classes@[b].key));
        }
    }
    let mut buckets: Vec<SizeBucket> = Vec::new();
    let mut i: usize = 0;
    while i < classes.len()
        invariant
            0 <= i <= classes.len(),
            entries@.len() <= usize::MAX,
            keys@ == size_keys(entries@),
            partitions(classes@, keys@),
            buckets@.len() == i,
            forall|b: int| 0 <= b < i ==> (#[trigger] buckets@[b]).length == classes@[b].key.0,
            forall|b: int| 0 <= b < classes.len() ==> (#[trigger] classes@[b]).key.1 == 0,
            forall|b: int| 0 <= b < i ==> (#[trigger] buckets@[b]).entries@ == of_length(
                entries@,
                buckets@[b].length,
            ),
            forall|b: int| 0 <= b < i ==> (#[trigger] buckets@[b]).entries@.len() > 0,
        decreases classes.len() - i,
    {
        let length: u64 = classes[i].key.0;
        proof {
            assert(classes@[i as int].key == (length, 0u64));
            lemma_positions_of_length(entries@, length);
        }
        let mut members: Vec<FileEntry> = Vec::new();
        let mut j: usize = 0;
        while j < classes[i].members.len()
            invariant
                0 <= i < classes.len(),
                0 <= j <= classes@[i as int].members@.len(),
                classes@[i as int].members@ == positions_of(size_keys(entries@), (length, 0u64)),
                classes@[i as int].members@.len() == of_length(entries@, length).len(),
                forall|m: int| 0 <= m < of_length(entries@, length).len() ==> (#[trigger] positions_of(
                    size_keys(entries@),
                    (length, 0u64),
                )[m]) < entries@.len(),
                forall|m: int| 0 <= m < of_length(entries@, length).len() ==> entries@[(
                #[trigger] positions_of(size_keys(entries@), (length, 0u64))[m]) as int]
                    == of_length(entries@, length)[m],
                members@.len() == j,
                forall|m: int| 0 <= m < j ==> members@[m] == of_length(entries@, length)[m],
            decreases classes@[i as int].members@.len() - j,
        {
            let p: usize = classes[i].members[j];
            proof {
                assert(p == positions_of(size_keys(entries@), (length, 0u64))[j as int]);
            }
            members.push(entries[p].duplicate());
            j = j + 1;
        }
        proof {
            assert(members@ =~= of_length(entries@, length));
        }
        buckets.push(SizeBucket { length, entries: members });
        i = i + 1;
    }
    proof {
        assert forall|k: int| 0 <= k < entries@.len() implies has_bucket(
            buckets@,
            (#[trigger] entries@[k]).length,
        ) by {
            assert(keys@[k] is Some);
            let c = choose|c: int| 0 <= c < classes@.len() && Some((#[trigger] classes@[c]).key) == keys@[k];
            assert(buckets@[c].length == entries@[k].length);
        }
        assert forall|a: int, b: int| 0 <= a < b < buckets@.len() implies (#[trigger] buckets@[a]).length
            < (#[trigger] buckets@[b]).length by {
            assert(key_lt(classes@[a].key, classes@[b].key));
        }
        assert forall|i: int, j: int| 0 <= i < buckets@.len() && 0 <= j < buckets@[i].entries@.len() implies (
        #[trigger] buckets@[i].entries@[j]).length == buckets@[i].length by {
            lemma_listing_has_length(entries@, buckets@[i].length, j);
        }
        lemma_buckets_hold_all(buckets@, entries@);
    }
    buckets
}

/// Builds the size buckets of a walk: the yielded files, grouped by exact
/// length, with each of them counted in `stats`.
pub fn collect_paths(outcomes: &Vec<WalkOutcome>, noempty: bool, stats: &mut Stats) -> (buckets: Vec<
    SizeBucket,
>)
    requires
        totals_fit(outcomes@, noempty, *old(stats)),
    ensures
        bucketed(buckets@, yielded(outcomes@, noempty)),
        forall|i: int, j: int| 0 <= i < buckets@.len() && 0 <= j < buckets@[i].entries@.len() ==> (
        #[trigger] buckets@[i].entries@[j]).length == buckets@[i].length,
        total_entries(buckets@) == yielded(outcomes@, noempty).len(),
        final(stats).file_count == old(stats).file_count + total_entries(buckets@),
        final(stats).file_count == old(stats).file_count + yielded(outcomes@, noempty).len(),
        final(stats).total_size == old(stats).total_size + total_length(yielded(outcomes@, noempty)),
        final(stats).duplicate_count == old(stats).duplicate_count,
{
    let entries = yield_entries(outcomes, noempty, stats);
    bucket_by_size(&entries)
}

} // verus!
