//! Duplicate grouping: hashed files with the same length and the same digest
//! form a group, the groups come out in key order, and the paths of a group
//! in ascending order, each once.

use vstd::prelude::*;
use crate::classify::{
    classify,
    key_lt,
    lemma_positions_carry_key,
    lemma_positions_complete,
    partitions,
    positions_of,
    Class,
};
use crate::entry::FileEntry;
use crate::order::{
    ascending,
    insert_path,
    lemma_ascending_is_determined,
    lemma_text_irreflexive,
    lists,
};

verus! {

/// A file that went to hashing, with its digest, or `None` where it could not
/// be read.
#[derive(Debug)]
pub struct Hashed {
    pub entry: FileEntry,
    pub digest: Option<u64>,
}

/// What two files must share to be reported as duplicates.
#[derive(Clone, Copy, Debug, PartialEq, Eq, Structural)]
pub struct DuplicateKey {
    pub length: u64,
    pub hash: u64,
}

/// The paths of the files that share one key.
#[derive(Debug)]
pub struct DuplicateGroup {
    pub key: DuplicateKey,
    pub paths: Vec<String>,
}

/// Whether a hashed file has this length and this digest.
pub open spec fn has_key(item: Hashed, key: DuplicateKey) -> bool {
    item.entry.length == key.length && item.digest == Some(key.hash)
}

/// Whether a file with this key has this path.
pub open spec fn has_path(items: Seq<Hashed>, key: DuplicateKey, text: Seq<char>) -> bool {
    exists|p: int| 0 <= p < items.len() && has_key(#[trigger] items[p], key) && items[p].entry.path@ == text
}

/// Whether two files with different paths have this key.
pub open spec fn shared(items: Seq<Hashed>, key: DuplicateKey) -> bool {
    exists|p: int, q: int|
        0 <= p < items.len() && 0 <= q < items.len() && has_key(#[trigger] items[p], key) && has_key(
            #[trigger] items[q],
            key,
        ) && items[p].entry.path@ != items[q].entry.path@
}

/// Keys are ordered by length, then by hash.
pub open spec fn key_before(a: DuplicateKey, b: DuplicateKey) -> bool {
    a.length < b.length || (a.length == b.length && a.hash < b.hash)
}

/// Whether one of `groups` is for `key`.
pub open spec fn has_group(groups: Seq<DuplicateGroup>, key: DuplicateKey) -> bool {
    exists|i: int| 0 <= i < groups.len() && (#[trigger] groups[i]).key == key
}

/// `groups` is the duplicate report for `items`: each group lists its paths in
/// strictly ascending order; it lists a path exactly when a file with the
/// group's key has it; the groups stand in strictly increasing key order; and
/// a key has a group exactly when two files with different paths share it.
pub open spec fn grouped(groups: Seq<DuplicateGroup>, items: Seq<Hashed>) -> bool {
    &&& forall|i: int| 0 <= i < groups.len() ==> ascending((#[trigger] groups[i]).paths@)
    &&& forall|i: int, text: Seq<char>|
        #![trigger lists(groups[i].paths@, text)]
        #![trigger has_path(items, groups[i].key, text)]
        0 <= i < groups.len() ==> (lists(groups[i].paths@, text) <==> has_path(items, groups[i].key, text))
    &&& forall|i: int, j: int| 0 <= i < j < groups.len() ==>
            key_before((#[trigger] groups[i]).key, (#[trigger] groups[j]).key)
    &&& forall|key: DuplicateKey|
        #![trigger has_group(groups, key)]
        #![trigger shared(items, key)]
        has_group(groups, key) <==> shared(items, key)
}

/// The number of paths in all groups together.
pub open spec fn total_members(groups: Seq<DuplicateGroup>) -> nat
    decreases groups.len(),
{
    if groups.len() == 0 {
        0
    } else {
        total_members(groups.drop_last()) + groups.last().paths@.len()
    }
}

/// The key under which a hashed file is grouped, if it was read.
pub open spec fn digest_keys(items: Seq<Hashed>) -> Seq<Option<(u64, u64)>> {
    Seq::new(
        items.len(),
        |k: int|
            match items[k].digest {
                Some(hash) => Some((items[k].entry.length, hash)),
                None => None,
            },
    )
}

/// An ascending list of the paths of a key holds two or more exactly when two
/// files with different paths share the key.
pub proof fn lemma_shared_means_two(items: Seq<Hashed>, key: DuplicateKey, paths: Seq<String>)
    requires
        ascending(paths),
        forall|text: Seq<char>| #[trigger] lists(paths, text) <==> has_path(items, key, text),
    ensures
        shared(items, key) <==> paths.len() >= 2,
{
    if shared(items, key) {
        let (p, q) = choose|p: int, q: int|
            0 <= p < items.len() && 0 <= q < items.len() && has_key(#[trigger] items[p], key) && has_key(
                #[trigger] items[q],
                key,
            ) && items[p].entry.path@ != items[q].entry.path@;
        assert(has_path(items, key, items[p].entry.path@));
        assert(has_path(items, key, items[q].entry.path@));
        assert(lists(paths, items[p].entry.path@));
        assert(lists(paths, items[q].entry.path@));
    }
    if paths.len() >= 2 {
        assert(paths[0]@ != paths[1]@) by {
            lemma_text_irreflexive(paths[0]@);
        }
        assert(lists(paths, paths[0]@));
        assert(lists(paths, paths[1]@));
        assert(has_path(items, key, paths[0]@));
        assert(has_path(items, key, paths[1]@));
        let p = choose|p: int| 0 <= p < items.len() && has_key(#[trigger] items[p], key) && items[p].entry.path@ == paths[0]@;
        let q = choose|q: int| 0 <= q < items.len() && has_key(#[trigger] items[q], key) && items[q].entry.path@ == paths[1]@;
        assert(has_key(items[p], key) && has_key(items[q], key) && items[p].entry.path@ != items[q].entry.path@);
    }
}

/// Whether one of the first `n` members has this path.
pub open spec fn member_has_path(items: Seq<Hashed>, members: Seq<usize>, n: int, text: Seq<char>) -> bool {
    exists|m: int| 0 <= m < n && items[(#[trigger] members[m]) as int].entry.path@ == text
}

/// The paths of the files at `members`, ascending and each once.
fn sorted_paths(items: &Vec<Hashed>, members: &Vec<usize>) -> (paths: Vec<String>)
    requires
        forall|m: int| 0 <= m < members@.len() ==> (#[trigger] members@[m]) < items@.len(),
    ensures
        ascending(paths@),
        forall|text: Seq<char>| #[trigger] lists(paths@, text) <==> member_has_path(
            items@,
            members@,
            members@.len() as int,
            text,
        ),
{
    let mut paths: Vec<String> = Vec::new();
    let mut j: usize = 0;
    while j < members.len()
        invariant
            0 <= j <= members@.len(),
            forall|m: int| 0 <= m < members@.len() ==> (#[trigger] members@[m]) < items@.len(),
            ascending(paths@),
            forall|text: Seq<char>| #[trigger] lists(paths@, text) <==> member_has_path(
                items@,
                members@,
                j as int,
                text,
            ),
        decreases members@.len() - j,
    {
        let p: usize = members[j];
        let ghost before = paths@;
        insert_path(&mut paths, &items[p].entry.path);
        proof {
            assert forall|text: Seq<char>| #[trigger] lists(paths@, text) <==> member_has_path(
                items@,
                members@,
                j as int + 1,
                text,
            ) by {
                assert(lists(before, text) <==> member_has_path(items@, members@, j as int, text));
                if member_has_path(items@, members@, j as int, text) {
                    let m = choose|m: int| 0 <= m < j && items@[(#[trigger] members@[m]) as int].entry.path@ == text;
                    assert(items@[members@[m] as int].entry.path@ == text);
                }
                if text == items@[p as int].entry.path@ {
                    assert(items@[members@[j as int] as int].entry.path@ == text);
                }
                if member_has_path(items@, members@, j as int + 1, text) {
                    let m = choose|m: int| 0 <= m < j + 1 && items@[(#[trigger] members@[m]) as int].entry.path@ == text;
                    if m < j {
                        assert(member_has_path(items@, members@, j as int, text));
                    }
                }
            }
        }
        j = j + 1;
    }
    paths
}

/// The members of a class are the files with its key.
proof fn lemma_members_are_files_with_key(items: Seq<Hashed>, key: DuplicateKey, text: Seq<char>)
    requires
        items.len() <= usize::MAX,
    ensures
        member_has_path(
            items,
            positions_of(digest_keys(items), (key.length, key.hash)),
            positions_of(digest_keys(items), (key.length, key.hash)).len() as int,
            text,
        ) <==> has_path(items, key, text),
{
    let keys = digest_keys(items);
    let members = positions_of(keys, (key.length, key.hash));
    lemma_positions_carry_key(keys, (key.length, key.hash));
    if member_has_path(items, members, members.len() as int, text) {
        let m = choose|m: int| 0 <= m < members.len() && items[(#[trigger] members[m]) as int].entry.path@ == text;
        let p = members[m] as int;
        assert(keys[p] == Some((key.length, key.hash)));
        assert(has_key(items[p], key));
    }
    if has_path(items, key, text) {
        let p = choose|p: int| 0 <= p < items.len() && has_key(#[trigger] items[p], key) && items[p].entry.path@ == text;
        assert(keys[p] == Some((key.length, key.hash)));
        let m = lemma_positions_complete(keys, (key.length, key.hash), p);
        assert(items[members[m] as int].entry.path@ == text);
    }
}

/// Groups the hashed files by length and digest and reports every key that two
/// or more different paths share, in key order, with its paths in ascending
/// order and each once. Files that could not be read are in no group.
pub fn group_duplicates(items: &Vec<Hashed>) -> (groups: Vec<DuplicateGroup>)
    ensures
        grouped(groups@, items@),
{
    let mut keys: Vec<Option<(u64, u64)>> = Vec::new();
    let mut k: usize = 0;
    while k < items.len()
        invariant
            0 <= k <= items.len(),
            keys@.len() == k,
            forall|m: int| 0 <= m < k ==> keys@[m] == digest_keys(items@)[m],
        decreases items.len() - k,
    {
        let key: Option<(u64, u64)> = match items[k].digest {
            Some(hash) => Some((items[k].entry.length, hash)),
            None => None,
        };
        keys.push(key);
        k = k + 1;
    }
    proof {
        assert(keys@ =~= digest_keys(items@));
    }
    let classes: Vec<Class> = classify(&keys);
    let mut groups: Vec<DuplicateGroup> = Vec::new();
    let mut i: usize = 0;
    while i < classes.len()
        invariant
            0 <= i <= classes.len(),
            items@.len() <= usize::MAX,
            keys@ == digest_keys(items@),
            partitions(classes@, keys@),
            forall|g: int| 0 <= g < groups@.len() ==> ascending((#[trigger] groups@[g]).paths@),
            forall|g: int, text: Seq<char>|
                #![trigger lists(groups@[g].paths@, text)]
                #![trigger has_path(items@, groups@[g].key, text)]
                0 <= g < groups@.len() ==> (lists(groups@[g].paths@, text) <==> has_path(
                    items@,
                    groups@[g].key,
                    text,
                )),
            forall|g: int| 0 <= g < groups@.len() ==> shared(items@, (#[trigger] groups@[g]).key),
            forall|a: int, b: int| 0 <= a < b < groups@.len() ==> key_before(
                (#[trigger] groups@[a]).key,
                (#[trigger] groups@[b]).key,
            ),
            forall|g: int, c: int| 0 <= g < groups@.len() && i <= c < classes@.len() ==> key_lt(
                ((#[trigger] groups@[g]).key.length, groups@[g].key.hash),
                (#[trigger] classes@[c]).key,
            ),
            forall|c: int| 0 <= c < i && shared(
                items@,
                (DuplicateKey { length: (#[trigger] classes@[c]).key.0, hash: classes@[c].key.1 }),
            ) ==> has_group(
                groups@,
                (DuplicateKey { length: classes@[c].key.0, hash: classes@[c].key.1 }),
            ),
        decreases classes.len() - i,
    {
        let key = DuplicateKey { length: classes[i].key.0, hash: classes[i].key.1 };
        proof {
            assert(classes@[i as int].key == (key.length, key.hash));
            lemma_positions_carry_key(keys@, (key.length, key.hash));
        }
        let paths = sorted_paths(items, &classes[i].members);
        proof {
            assert forall|text: Seq<char>| #[trigger] lists(paths@, text) <==> has_path(items@, key, text) by {
                lemma_members_are_files_with_key(items@, key, text);
            }
            lemma_shared_means_two(items@, key, paths@);
        }
        let ghost before = groups@;
        if paths.len() >= 2 {
            proof {
                assert forall|c: int| i < c < classes@.len() implies key_lt(
                    (key.length, key.hash),
                    (#[trigger] classes@[c]).key,
                ) by {
                    assert(key_lt(classes@[i as int].key, classes@[c].key));
                }
            }
            groups.push(DuplicateGroup { key, paths });
            proof {
                let last = groups@.len() - 1;
                assert(groups@[last].key == key);
                assert forall|g: int| 0 <= g < last implies groups@[g] == before[g] by {}
                assert forall|a: int, b: int| 0 <= a < b < groups@.len() implies key_before(
                    (#[trigger] groups@[a]).key,
                    (#[trigger] groups@[b]).key,
                ) by {
                    if b == last {
                        assert(groups@[a] == before[a]);
                        assert(key_lt((before[a].key.length, before[a].key.hash), classes@[i as int].key));
                    }
                }
            }
        }
        proof {
            assert forall|c: int| 0 <= c < i + 1 && shared(
                items@,
                (DuplicateKey { length: (#[trigger] classes@[c]).key.0, hash: classes@[c].key.1 }),
            ) implies has_group(
                groups@,
                (DuplicateKey { length: classes@[c].key.0, hash: classes@[c].key.1 }),
            ) by {
                let wanted = DuplicateKey { length: classes@[c].key.0, hash: classes@[c].key.1 };
                if c < i {
                    assert(has_group(before, wanted));
                    let g = choose|g: int| 0 <= g < before.len() && (#[trigger] before[g]).key == wanted;
                    assert(groups@[g].key == wanted);
                } else {
                    assert(wanted == key);
                    assert(groups@[groups@.len() - 1].key == wanted);
                }
            }
        }
        i = i + 1;
    }
    proof {
        assert forall|key: DuplicateKey|
            #![trigger has_group(groups@, key)]
            #![trigger shared(items@, key)]
            has_group(groups@, key) <==> shared(items@, key) by {
            if shared(items@, key) {
                let (p, q) = choose|p: int, q: int|
                    0 <= p < items@.len() && 0 <= q < items@.len() && has_key(#[trigger] items@[p], key)
                        && has_key(#[trigger] items@[q], key) && items@[p].entry.path@ != items@[q].entry.path@;
                assert(keys@[p] == Some((key.length, key.hash)));
                let c = choose|c: int| 0 <= c < classes@.len() && Some((#[trigger] classes@[c]).key) == keys@[p];
                assert(DuplicateKey { length: classes@[c].key.0, hash: classes@[c].key.1 } == key);
            }
            if has_group(groups@, key) {
                let g = choose|g: int| 0 <= g < groups@.len() && (#[trigger] groups@[g]).key == key;
                assert(shared(items@, groups@[g].key));
            }
        }
    }
    groups
}

/// Counts the duplicate files: the sizes of all groups together, or `None`
/// where that is more than a `u64` holds.
pub fn count_duplicates(groups: &Vec<DuplicateGroup>) -> (count: Option<u64>)
    ensures
        count is Some == (total_members(groups@) <= u64::MAX),
        count is Some ==> count->Some_0 == total_members(groups@),
{
    let mut count: u64 = 0;
    let mut i: usize = 0;
    while i < groups.len()
        invariant
            0 <= i <= groups.len(),
            count == total_members(groups@.take(i as int)),
        decreases groups.len() - i,
    {
        proof {
            assert(groups@.take(i as int + 1).drop_last() == groups@.take(i as int));
            lemma_total_members_grows(groups@, i as int + 1);
        }
        let size: usize = groups[i].paths.len();
        if size as u64 > u64::MAX - count {
            return None;
        }
        count = count + size as u64;
        i = i + 1;
    }
    proof {
        assert(groups@.take(groups.len() as int) == groups@);
    }
    Some(count)
}

/// The first groups hold no more files than all of them.
pub proof fn lemma_total_members_grows(groups: Seq<DuplicateGroup>, n: int)
    requires
        0 <= n <= groups.len(),
    ensures
        total_members(groups.take(n)) <= total_members(groups),
    decreases groups.len(),
{
    if n == groups.len() {
        assert(groups.take(n) == groups);
    } else {
        lemma_total_members_grows(groups.drop_last(), n);
        assert(groups.drop_last().take(n) == groups.take(n));
    }
}

/// Every member of a reported group is the path of a hashed file with the
/// group's length and the group's digest, and a group has at least two
/// members.
pub proof fn lemma_members_share_key(
    groups: Seq<DuplicateGroup>,
    items: Seq<Hashed>,
    g: int,
    j: int,
) -> (p: int)
    requires
        grouped(groups, items),
        0 <= g < groups.len(),
        0 <= j < groups[g].paths@.len(),
    ensures
        groups[g].paths@.len() >= 2,
        0 <= p < items.len(),
        items[p].entry.path@ == groups[g].paths@[j]@,
        items[p].entry.length == groups[g].key.length,
        items[p].digest == Some(groups[g].key.hash),
{
    let key = groups[g].key;
    assert(has_group(groups, key));
    assert forall|text: Seq<char>| #[trigger] lists(groups[g].paths@, text) <==> has_path(items, key, text) by {}
    lemma_shared_means_two(items, key, groups[g].paths@);
    assert(lists(groups[g].paths@, groups[g].paths@[j]@));
    assert(has_path(items, key, groups[g].paths@[j]@));
    choose|p: int| 0 <= p < items.len() && has_key(#[trigger] items[p], key) && items[p].entry.path@ == groups[g].paths@[j]@
}

/// Two hashed files that differ in length or in digest, or of which one could
/// not be read, never belong to the same group.
pub proof fn lemma_different_files_never_share_group(
    groups: Seq<DuplicateGroup>,
    items: Seq<Hashed>,
    a: int,
    b: int,
    g: int,
)
    requires
        grouped(groups, items),
        0 <= a < items.len(),
        0 <= b < items.len(),
        0 <= g < groups.len(),
        items[a].entry.length != items[b].entry.length || items[a].digest != items[b].digest
            || items[a].digest is None,
    ensures
        !(has_key(items[a], groups[g].key) && has_key(items[b], groups[g].key)),
{
}

/// Two hashed files with different paths, the same length and the same digest
/// are reported: one group has their key and lists both paths.
pub proof fn lemma_duplicates_are_reported(
    groups: Seq<DuplicateGroup>,
    items: Seq<Hashed>,
    a: int,
    b: int,
) -> (g: int)
    requires
        grouped(groups, items),
        0 <= a < items.len(),
        0 <= b < items.len(),
        items[a].digest is Some,
        items[a].digest == items[b].digest,
        items[a].entry.length == items[b].entry.length,
        items[a].entry.path@ != items[b].entry.path@,
    ensures
        0 <= g < groups.len(),
        has_key(items[a], groups[g].key),
        lists(groups[g].paths@, items[a].entry.path@),
        lists(groups[g].paths@, items[b].entry.path@),
{
    let key = DuplicateKey { length: items[a].entry.length, hash: items[a].digest->Some_0 };
    assert(has_key(items[a], key) && has_key(items[b], key));
    assert(shared(items, key));
    assert(has_group(groups, key));
    let g = choose|g: int| 0 <= g < groups.len() && (#[trigger] groups[g]).key == key;
    assert(has_path(items, groups[g].key, items[a].entry.path@));
    assert(has_path(items, groups[g].key, items[b].entry.path@));
    g
}

/// A group lists no path twice.
pub proof fn lemma_group_paths_distinct(
    groups: Seq<DuplicateGroup>,
    items: Seq<Hashed>,
    g: int,
    i: int,
    j: int,
)
    requires
        grouped(groups, items),
        0 <= g < groups.len(),
        0 <= i < j < groups[g].paths@.len(),
    ensures
        groups[g].paths@[i]@ != groups[g].paths@[j]@,
{
    lemma_text_irreflexive(groups[g].paths@[i]@);
}

/// Where no path was hashed under two keys, no path stands in two groups.
pub proof fn lemma_path_in_one_group(
    groups: Seq<DuplicateGroup>,
    items: Seq<Hashed>,
    g: int,
    h: int,
    i: int,
    j: int,
)
    requires
        grouped(groups, items),
        forall|p: int, q: int|
            0 <= p < items.len() && 0 <= q < items.len() && (#[trigger] items[p]).entry.path@ == (
            #[trigger] items[q]).entry.path@ ==> items[p].digest == items[q].digest
                && items[p].entry.length == items[q].entry.length,
        0 <= g < h < groups.len(),
        0 <= i < groups[g].paths@.len(),
        0 <= j < groups[h].paths@.len(),
    ensures
        groups[g].paths@[i]@ != groups[h].paths@[j]@,
{
    let p = lemma_members_share_key(groups, items, g, i);
    let q = lemma_members_share_key(groups, items, h, j);
    assert(key_before(groups[g].key, groups[h].key));
}

/// Every group of one report for some files stands in every other report for
/// the same files.
proof fn lemma_group_in_every_report(
    first: Seq<DuplicateGroup>,
    second: Seq<DuplicateGroup>,
    items: Seq<Hashed>,
    g: int,
) -> (h: int)
    requires
        grouped(first, items),
        grouped(second, items),
        0 <= g < first.len(),
    ensures
        0 <= h < second.len(),
        second[h].key == first[g].key,
{
    let key = first[g].key;
    assert(has_group(first, key));
    assert(shared(items, key));
    assert(has_group(second, key));
    choose|h: int| 0 <= h < second.len() && (#[trigger] second[h]).key == key
}

/// Two reports for the same files agree on their first `n` keys.
proof fn lemma_reports_agree_up_to(
    first: Seq<DuplicateGroup>,
    second: Seq<DuplicateGroup>,
    items: Seq<Hashed>,
    n: int,
)
    requires
        grouped(first, items),
        grouped(second, items),
        0 <= n <= first.len(),
    ensures
        n <= second.len(),
        forall|m: int| 0 <= m < n ==> (#[trigger] first[m]).key == second[m].key,
    decreases n,
{
    if n > 0 {
        let last = n - 1;
        lemma_reports_agree_up_to(first, second, items, last);
        let h = lemma_group_in_every_report(first, second, items, last);
        if h < last {
            assert(first[h].key == second[h].key);
            assert(key_before(first[h].key, first[last].key));
        }
        if h > last {
            assert(key_before(second[last].key, second[h].key));
            let g = lemma_group_in_every_report(second, first, items, last);
            if g < last {
                assert(first[g].key == second[g].key);
                assert(key_before(second[g].key, second[last].key));
            } else if g > last {
                assert(key_before(first[last].key, first[g].key));
            }
        }
        assert(h == last);
    }
}

/// The report is determined by the hashed files: two reports for the same
/// files hold the same groups in the same order, each with the same paths in
/// the same order. Scanning an unchanged tree again changes nothing.
pub proof fn lemma_report_is_determined(
    first: Seq<DuplicateGroup>,
    second: Seq<DuplicateGroup>,
    items: Seq<Hashed>,
)
    requires
        grouped(first, items),
        grouped(second, items),
    ensures
        first.len() == second.len(),
        forall|g: int| 0 <= g < first.len() ==> (#[trigger] first[g]).key == second[g].key,
        forall|g: int| 0 <= g < first.len() ==> (#[trigger] first[g]).paths@.len() == second[g].paths@.len(),
        forall|g: int, j: int| 0 <= g < first.len() && 0 <= j < first[g].paths@.len() ==> (
        #[trigger] first[g].paths@[j])@ == second[g].paths@[j]@,
        total_members(first) == total_members(second),
{
    lemma_reports_agree_up_to(first, second, items, first.len() as int);
    lemma_reports_agree_up_to(second, first, items, second.len() as int);
    assert forall|g: int| 0 <= g < first.len() implies (#[trigger] first[g]).paths@.len()
        == second[g].paths@.len() && (forall|j: int| 0 <= j < first[g].paths@.len() ==> (
    #[trigger] first[g].paths@[j])@ == second[g].paths@[j]@) by {
        assert(first[g].key == second[g].key);
        assert forall|text: Seq<char>| #[trigger] lists(first[g].paths@, text) <==> lists(
            second[g].paths@,
            text,
        ) by {
            assert(lists(first[g].paths@, text) <==> has_path(items, first[g].key, text));
            assert(lists(second[g].paths@, text) <==> has_path(items, second[g].key, text));
        }
        lemma_ascending_is_determined(first[g].paths@, second[g].paths@);
    }
    lemma_same_sizes_same_total(first, second);
}

/// Reports with the same group sizes hold the same number of paths.
proof fn lemma_same_sizes_same_total(first: Seq<DuplicateGroup>, second: Seq<DuplicateGroup>)
    requires
        first.len() == second.len(),
        forall|g: int| 0 <= g < first.len() ==> (#[trigger] first[g]).paths@.len() == second[g].paths@.len(),
    ensures
        total_members(first) == total_members(second),
    decreases first.len(),
{
    if first.len() > 0 {
        let a = first.drop_last();
        let b = second.drop_last();
        assert forall|g: int| 0 <= g < a.len() implies (#[trigger] a[g]).paths@.len() == b[g].paths@.len() by {
            assert(a[g] == first[g]);
            assert(b[g] == second[g]);
        }
        lemma_same_sizes_same_total(a, b);
        assert(first.last() == first[first.len() - 1]);
    }
}

} // verus!
