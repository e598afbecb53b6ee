//! Grouping the positions of a sequence by a two-part key, in key order.
//! A position may carry no key; it then belongs to no class.

use vstd::prelude::*;

verus! {

/// The positions of a sequence that carry one key.
#[derive(Debug)]
pub struct Class {
    pub key: (u64, u64),
    pub members: Vec<usize>,
}

/// Keys are ordered by their first part, then by their second.
pub open spec fn key_lt(a: (u64, u64), b: (u64, u64)) -> bool {
    a.0 < b.0 || (a.0 == b.0 && a.1 < b.1)
}

/// The positions of `keys` that hold `key`, in increasing order.
pub open spec fn positions_of(keys: Seq<Option<(u64, u64)>>, key: (u64, u64)) -> Seq<usize>
    decreases keys.len(),
{
    if keys.len() == 0 {
        Seq::empty()
    } else if keys.last() == Some(key) {
        positions_of(keys.drop_last(), key).push((keys.len() - 1) as usize)
    } else {
        positions_of(keys.drop_last(), key)
    }
}

/// `classes` partitions the positions of `keys` by key: one class for each key
/// that occurs, holding all its positions in increasing order, and the classes
/// in strictly increasing key order.
pub open spec fn partitions(classes: Seq<Class>, keys: Seq<Option<(u64, u64)>>) -> bool {
    &&& forall|i: int| 0 <= i < classes.len() ==>
            (#[trigger] classes[i]).members@ == positions_of(keys, classes[i].key)
    &&& forall|i: int| 0 <= i < classes.len() ==> (#[trigger] classes[i]).members@.len() > 0
    &&& forall|i: int, j: int| 0 <= i < j < classes.len() ==>
            key_lt((#[trigger] classes[i]).key, (#[trigger] classes[j]).key)
    &&& forall|k: int| 0 <= k < keys.len() && (#[trigger] keys[k]) is Some ==>
            exists|i: int| 0 <= i < classes.len() && Some((#[trigger] classes[i]).key) == keys[k]
}

/// A key that does not occur has no positions.
pub proof fn lemma_absent_key(keys: Seq<Option<(u64, u64)>>, key: (u64, u64))
    requires
        forall|k: int| 0 <= k < keys.len() ==> keys[k] != Some(key),
    ensures
        positions_of(keys, key) == Seq::<usize>::empty(),
    decreases keys.len(),
{
    if keys.len() > 0 {
        let rest = keys.drop_last();
        assert forall|k: int| 0 <= k < rest.len() implies rest[k] != Some(key) by {
            assert(rest[k] == keys[k]);
        }
        lemma_absent_key(rest, key);
    }
}

/// Every listed position lies in the sequence and carries the key, and the
/// positions are listed in increasing order.
pub proof fn lemma_positions_carry_key(keys: Seq<Option<(u64, u64)>>, key: (u64, u64))
    requires
        keys.len() <= usize::MAX,
    ensures
        forall|j: int| 0 <= j < positions_of(keys, key).len() ==> (#[trigger] positions_of(keys, key)[j])
            < keys.len(),
        forall|j: int| 0 <= j < positions_of(keys, key).len() ==> keys[(#[trigger] positions_of(
            keys,
            key,
        )[j]) as int] == Some(key),
        forall|a: int, b: int| 0 <= a < b < positions_of(keys, key).len() ==> (#[trigger] positions_of(
            keys,
            key,
        )[a]) < (#[trigger] positions_of(keys, key)[b]),
    decreases keys.len(),
{
    if keys.len() > 0 {
        let rest = keys.drop_last();
        lemma_positions_carry_key(rest, key);
        let here = positions_of(keys, key);
        let before = positions_of(rest, key);
        assert forall|j: int| 0 <= j < here.len() implies (#[trigger] here[j]) < keys.len()
            && keys[here[j] as int] == Some(key) by {
            if j < before.len() {
                assert(here[j] == before[j]);
                assert(rest[before[j] as int] == keys[before[j] as int]);
            }
        }
        assert forall|a: int, b: int| 0 <= a < b < here.len() implies (#[trigger] here[a])
            < (#[trigger] here[b]) by {
            assert(here[a] == before[a]);
            if b < before.len() {
                assert(here[b] == before[b]);
            }
        }
    }
}

/// Every position that carries the key is listed.
pub proof fn lemma_positions_complete(keys: Seq<Option<(u64, u64)>>, key: (u64, u64), k: int) -> (j: int)
    requires
        keys.len() <= usize::MAX,
        0 <= k < keys.len(),
        keys[k] == Some(key),
    ensures
        0 <= j < positions_of(keys, key).len(),
        positions_of(keys, key)[j] == k,
    decreases keys.len(),
{
    let rest = keys.drop_last();
    if k == keys.len() - 1 {
        positions_of(rest, key).len() as int
    } else {
        assert(rest[k] == keys[k]);
        lemma_positions_complete(rest, key, k)
    }
}

fn key_less(a: (u64, u64), b: (u64, u64)) -> (r: bool)
    ensures
        r == key_lt(a, b),
{
    a.0 < b.0 || (a.0 == b.0 && a.1 < b.1)
}

/// Partitions the positions of `keys` by key.
pub fn classify(keys: &Vec<Option<(u64, u64)>>) -> (classes: Vec<Class>)
    ensures
        partitions(classes@, keys@),
{
    let mut classes: Vec<Class> = Vec::new();
    let mut k: usize = 0;
    while k < keys.len()
        invariant
            0 <= k <= keys.len(),
            partitions(classes@, keys@.take(k as int)),
        decreases keys.len() - k,
    {
        let ghost seen = keys@.take(k as int);
        let ghost next = keys@.take(k as int + 1);
        proof {
            assert(next.drop_last() == seen);
            assert(next.last() == keys@[k as int]);
        }
        match keys[k] {
            None => {
                proof {
                    assert forall|q: (u64, u64)| positions_of(next, q) == positions_of(seen, q) by {}
                    assert forall|m: int| 0 <= m < next.len() && (#[trigger] next[m]) is Some implies exists|
                        i: int,
                    | 0 <= i < classes@.len() && Some((#[trigger] classes@[i]).key) == next[m] by {
                        assert(seen[m] == next[m]);
                    }
                }
            },
            Some(key) => {
                proof {
                    assert(next =~= seen.push(Some(key)));
                }
                insert_position(&mut classes, key, k, Ghost(seen), Ghost(next));
            },
        }
        k = k + 1;
    }
    proof {
        assert(keys@.take(keys.len() as int) == keys@);
    }
    classes
}

/// Adds position `k`, which carries `key`, to a partition of the positions
/// before it.
fn insert_position(
    classes: &mut Vec<Class>,
    key: (u64, u64),
    k: usize,
    Ghost(seen): Ghost<Seq<Option<(u64, u64)>>>,
    Ghost(next): Ghost<Seq<Option<(u64, u64)>>>,
)
    requires
        partitions(old(classes)@, seen),
        seen.len() == k,
        next == seen.push(Some(key)),
    ensures
        partitions(final(classes)@, next),
{
    let mut p: usize = 0;
    let mut end: usize = classes.len();
    while p < end
        invariant
            0 <= p <= end <= classes.len(),
            *classes == *old(classes),
            partitions(classes@, seen),
            forall|i: int| 0 <= i < p ==> key_lt((#[trigger] classes[i]).key, key),
            forall|i: int| end <= i < classes.len() ==> !key_lt((#[trigger] classes[i]).key, key),
        decreases end - p,
    {
        let mid: usize = p + (end - p) / 2;
        if key_less(classes[mid].key, key) {
            proof {
                assert forall|i: int| 0 <= i < mid + 1 implies key_lt((#[trigger] classes[i]).key, key) by {
                    if i < mid {
                        assert(key_lt(classes[i].key, classes[mid as int].key));
                    }
                }
            }
            p = mid + 1;
        } else {
            proof {
                assert forall|i: int| mid <= i < classes.len() implies !key_lt(
                    (#[trigger] classes[i]).key,
                    key,
                ) by {
                    if i > mid {
                        assert(key_lt(classes[mid as int].key, classes[i].key));
                    }
                }
            }
            end = mid;
        }
    }
    let ghost before = classes@;
    proof {
        assert(next.drop_last() == seen);
        assert(next.last() == Some(key));
        assert forall|q: (u64, u64)| q != key implies positions_of(next, q) == positions_of(
            seen,
            q,
        ) by {}
    }
    if p < classes.len() && classes[p].key.0 == key.0 && classes[p].key.1 == key.1 {
        classes[p].members.push(k);
        proof {
            assert(before[p as int].key == key);
            assert(classes@.len() == before.len());
            assert forall|i: int| 0 <= i < classes@.len() && i != p implies classes@[i]
                == before[i] by {}
            assert forall|i: int| 0 <= i < classes@.len() implies (#[trigger] classes@[i]).key
                == before[i].key by {}
            assert forall|i: int| 0 <= i < classes@.len() implies (#[trigger] classes@[i]).members@
                == positions_of(next, classes@[i].key) by {
                if i != p {
                    assert(before[i].key != key) by {
                        if i < p {
                            assert(key_lt(before[i].key, before[p as int].key));
                        } else {
                            assert(key_lt(before[p as int].key, before[i].key));
                        }
                    }
                }
            }
            assert forall|m: int| 0 <= m < next.len() && (#[trigger] next[m]) is Some implies exists|
                i: int,
            | 0 <= i < classes@.len() && Some((#[trigger] classes@[i]).key) == next[m] by {
                if m < k {
                    assert(seen[m] == next[m]);
                    let i = choose|i: int|
                        0 <= i < before.len() && Some((#[trigger] before[i]).key) == seen[m];
                    assert(Some(classes@[i].key) == next[m]);
                } else {
                    assert(Some(classes@[p as int].key) == next[m]);
                }
            }
        }
    } else {
        let mut members: Vec<usize> = Vec::new();
        members.push(k);
        classes.insert(p, Class { key, members });
        proof {
            assert forall|i: int| 0 <= i < before.len() implies (#[trigger] before[i]).key
                != key by {
                if i < p {
                } else if i > p {
                    assert(key_lt(before[p as int].key, before[i].key));
                }
            }
            assert forall|m: int| 0 <= m < seen.len() implies seen[m] != Some(key) by {
                let i = choose|i: int|
                    0 <= i < before.len() && Some((#[trigger] before[i]).key) == seen[m];
            }
            lemma_absent_key(seen, key);
            assert(classes@[p as int].members@ == positions_of(next, key));
            assert forall|i: int| 0 <= i < classes@.len() implies (#[trigger] classes@[i]).members@
                == positions_of(next, classes@[i].key) && classes@[i].members@.len() > 0 by {
                if i < p {
                    assert(classes@[i] == before[i]);
                } else if i > p {
                    assert(classes@[i] == before[i - 1]);
                }
            }
            assert forall|i: int, j: int| 0 <= i < j < classes@.len() implies key_lt(
                (#[trigger] classes@[i]).key,
                (#[trigger] classes@[j]).key,
            ) by {
                let a = if i < p { i } else { i - 1 };
                let b = if j < p { j } else { j - 1 };
                if i != p {
                    assert(classes@[i] == before[a]);
                }
                if j != p {
                    assert(classes@[j] == before[b]);
                }
                if i == p {
                    assert(!key_lt(before[p as int].key, key));
                    if b > p {
                        assert(key_lt(before[p as int].key, before[b].key));
                    }
                }
            }
            assert forall|m: int| 0 <= m < next.len() && (#[trigger] next[m]) is Some implies exists|
                i: int,
            | 0 <= i < classes@.len() && Some((#[trigger] classes@[i]).key) == next[m] by {
                if m < k {
                    assert(seen[m] == next[m]);
                    let i = choose|i: int|
                        0 <= i < before.len() && Some((#[trigger] before[i]).key) == seen[m];
                    let i2 = if i < p { i } else { i + 1 };
                    assert(classes@[i2] == before[i]);
                    assert(Some(classes@[i2].key) == next[m]);
                } else {
                    assert(Some(classes@[p as int].key) == next[m]);
                }
            }
        }
    }
}

} // verus!
