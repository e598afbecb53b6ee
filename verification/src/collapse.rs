//! Hard-link collapsing: of the paths of one size bucket that lead to the
//! same storage object, only the first is carried forward.

use vstd::prelude::*;
use crate::entry::{FileEntry, FileIdentity};

verus! {

/// A file of a bucket with the identity that was resolved for it, or `None`
/// where its metadata could not be read.
#[derive(Debug)]
pub struct Resolved {
    pub entry: FileEntry,
    pub identity: Option<FileIdentity>,
}

/// Whether a position before `k` resolved to `identity`.
pub open spec fn resolved_before(items: Seq<Resolved>, k: int, identity: FileIdentity) -> bool {
    exists|j: int| 0 <= j < k && j < items.len() && (#[trigger] items[j]).identity == Some(identity)
}

/// Position `k` stands for its storage object: its identity is known and no
/// earlier position has the same.
pub open spec fn is_representative(items: Seq<Resolved>, k: int) -> bool {
    &&& 0 <= k < items.len()
    &&& items[k].identity is Some
    &&& !resolved_before(items, k, items[k].identity->Some_0)
}

/// The representative positions, in increasing order.
pub open spec fn representative_positions(items: Seq<Resolved>) -> Seq<int>
    decreases items.len(),
{
    if items.len() == 0 {
        Seq::empty()
    } else if is_representative(items, items.len() - 1) {
        representative_positions(items.drop_last()).push(items.len() - 1)
    } else {
        representative_positions(items.drop_last())
    }
}

/// The entries at the representative positions, in order.
pub open spec fn representatives(items: Seq<Resolved>) -> Seq<FileEntry> {
    Seq::new(
        representative_positions(items).len(),
        |j: int| items[representative_positions(items)[j]].entry,
    )
}

/// What of a bucket goes on to hashing: its representatives, or nothing where
/// fewer than two storage objects are left.
pub open spec fn to_hash(items: Seq<Resolved>) -> Seq<FileEntry> {
    if representative_positions(items).len() < 2 {
        Seq::empty()
    } else {
        representatives(items)
    }
}

/// Being a representative depends only on the positions up to one's own.
pub proof fn lemma_representative_in_prefix(items: Seq<Resolved>, n: int, k: int)
    requires
        0 <= k < n <= items.len(),
    ensures
        is_representative(items.take(n), k) == is_representative(items, k),
{
    let part = items.take(n);
    assert(part[k] == items[k]);
    if part[k].identity is Some {
        let identity = part[k].identity->Some_0;
        if resolved_before(part, k, identity) {
            let j = choose|j: int| 0 <= j < k && j < part.len() && (#[trigger] part[j]).identity == Some(identity);
            assert(items[j] == part[j]);
        }
        if resolved_before(items, k, identity) {
            let j = choose|j: int| 0 <= j < k && j < items.len() && (#[trigger] items[j]).identity == Some(identity);
            assert(items[j] == part[j]);
        }
    }
}

/// The listed positions are exactly the representative ones, each once and in
/// increasing order.
pub proof fn lemma_representative_positions(items: Seq<Resolved>)
    ensures
        forall|j: int| 0 <= j < representative_positions(items).len() ==> is_representative(
            items,
            #[trigger] representative_positions(items)[j],
        ),
        forall|a: int, b: int| 0 <= a < b < representative_positions(items).len() ==>
            (#[trigger] representative_positions(items)[a]) < (#[trigger] representative_positions(items)[b]),
        forall|k: int| is_representative(items, k) ==> representative_positions(items).contains(k),
        representative_positions(items).len() <= items.len(),
    decreases items.len(),
{
    if items.len() > 0 {
        let rest = items.drop_last();
        let n = items.len() - 1;
        assert(rest == items.take(n));
        lemma_representative_positions(rest);
        let here = representative_positions(items);
        let before = representative_positions(rest);
        assert forall|j: int| 0 <= j < here.len() implies is_representative(items, #[trigger] here[j]) by {
            if j < before.len() {
                assert(here[j] == before[j]);
                assert(is_representative(rest, before[j]));
                lemma_representative_in_prefix(items, n, before[j]);
            }
        }
        assert forall|a: int, b: int| 0 <= a < b < here.len() implies (#[trigger] here[a]) < (#[trigger] here[b]) by {
            assert(here[a] == before[a]);
            assert(is_representative(rest, before[a]));
            if b < before.len() {
                assert(here[b] == before[b]);
            }
        }
        assert forall|k: int| is_representative(items, k) implies here.contains(k) by {
            if k < n {
                lemma_representative_in_prefix(items, n, k);
                assert(before.contains(k));
                let j = choose|j: int| 0 <= j < before.len() && before[j] == k;
                assert(here[j] == k);
            } else {
                assert(here[here.len() - 1] == k);
            }
        }
    }
}

/// Whatever goes on to hashing is the entry of a representative position, and
/// entries that go on in this order stand in the bucket in this order.
pub proof fn lemma_selected_is_representative(items: Seq<Resolved>, j: int) -> (k: int)
    requires
        0 <= j < to_hash(items).len(),
    ensures
        is_representative(items, k),
        to_hash(items)[j] == items[k].entry,
        k == representative_positions(items)[j],
{
    lemma_representative_positions(items);
    representative_positions(items)[j]
}

/// Two paths to one storage object are never both carried forward: of the
/// positions that resolved to the same identity, at most one is a
/// representative, so at most one of them is hashed.
pub proof fn lemma_hard_links_collapse(items: Seq<Resolved>, a: int, b: int)
    requires
        0 <= a < items.len(),
        0 <= b < items.len(),
        a != b,
        items[a].identity is Some,
        items[a].identity == items[b].identity,
    ensures
        !(is_representative(items, a) && is_representative(items, b)),
        !(representative_positions(items).contains(a) && representative_positions(items).contains(b)),
{
    lemma_representative_positions(items);
    let identity = items[a].identity->Some_0;
    if a < b {
        assert(resolved_before(items, b, identity));
    } else {
        assert(resolved_before(items, a, identity));
    }
}

/// A bucket whose paths all lead to one storage object sends nothing on to
/// hashing: hard links alone make no duplicates.
pub proof fn lemma_links_alone_are_skipped(items: Seq<Resolved>)
    requires
        forall|a: int, b: int| 0 <= a < items.len() && 0 <= b < items.len() && (#[trigger] items[a]).identity is Some
            && (#[trigger] items[b]).identity is Some ==> items[a].identity == items[b].identity,
    ensures
        to_hash(items) == Seq::<FileEntry>::empty(),
{
    lemma_representative_positions(items);
    let positions = representative_positions(items);
    if positions.len() >= 2 {
        let a = positions[0];
        let b = positions[1];
        assert(is_representative(items, a));
        assert(is_representative(items, b));
        assert(items[a].identity == items[b].identity);
        lemma_hard_links_collapse(items, a, b);
    }
}

fn same_identity(a: &Option<FileIdentity>, b: &FileIdentity) -> (same: bool)
    ensures
        same == (*a == Some(*b)),
{
    match a {
        Some(identity) => identity.device == b.device && identity.inode == b.inode,
        None => false,
    }
}

/// Selects what of a bucket is hashed: the first path of each storage object,
/// in the order of the bucket, and nothing at all where fewer than two storage
/// objects are left.
pub fn collapse_hard_links(items: &Vec<Resolved>) -> (selected: Vec<FileEntry>)
    ensures
        selected@ == to_hash(items@),
{
    let mut selected: Vec<FileEntry> = Vec::new();
    let mut k: usize = 0;
    while k < items.len()
        invariant
            0 <= k <= items.len(),
            selected@ == representatives(items@.take(k as int)),
            selected@.len() == representative_positions(items@.take(k as int)).len(),
        decreases items.len() - k,
    {
        let ghost seen = items@.take(k as int);
        let ghost next = items@.take(k as int + 1);
        proof {
            assert(next.drop_last() == seen);
            assert(next[k as int] == items@[k as int]);
        }
        let mut fresh: bool = false;
        match items[k].identity {
            Some(identity) => {
                let mut j: usize = 0;
                let mut found: bool = false;
                while j < k && !found
                    invariant
                        0 <= j <= k < items.len(),
                        found ==> resolved_before(items@, k as int, identity),
                        !found ==> forall|m: int| 0 <= m < j ==> (#[trigger] items@[m]).identity != Some(identity),
                    decreases k - j + (if found { 0int } else { 1int }),
                {
                    if same_identity(&items[j].identity, &identity) {
                        found = true;
                    } else {
                        j = j + 1;
                    }
                }
                fresh = !found;
            },
            None => {},
        }
        proof {
            lemma_representative_in_prefix(items@, k as int + 1, k as int);
            assert(fresh == is_representative(items@, k as int));
            let here = representative_positions(next);
            let before = representative_positions(seen);
            lemma_representative_positions(seen);
            assert forall|j: int| 0 <= j < before.len() implies next[#[trigger] before[j]] == seen[before[j]] by {
                assert(is_representative(seen, before[j]));
            }
            if fresh {
                assert(representatives(next) =~= representatives(seen).push(items@[k as int].entry));
            } else {
                assert(representatives(next) =~= representatives(seen));
            }
        }
        if fresh {
            selected.push(items[k].entry.duplicate());
        }
        k = k + 1;
    }
    proof {
        assert(items@.take(items.len() as int) == items@);
    }
    if selected.len() < 2 {
        Vec::new()
    } else {
        selected
    }
}

} // verus!
