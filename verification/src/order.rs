//! The order of paths: by their text, code point by code point, a proper
//! beginning before what it begins.

use vstd::prelude::*;

verus! {

/// Whether text `a` stands before text `b`.
pub open spec fn text_before(a: Seq<char>, b: Seq<char>) -> bool
    decreases a.len(),
{
    if b.len() == 0 {
        false
    } else if a.len() == 0 {
        true
    } else if a[0] != b[0] {
        (a[0] as u32) < (b[0] as u32)
    } else {
        text_before(a.skip(1), b.skip(1))
    }
}

/// The paths stand in strictly ascending order, so none stands twice.
pub open spec fn ascending(paths: Seq<String>) -> bool {
    forall|i: int, j: int| 0 <= i < j < paths.len() ==> text_before((#[trigger] paths[i])@, (#[trigger] paths[j])@)
}

/// Whether one of `paths` has this text.
pub open spec fn lists(paths: Seq<String>, text: Seq<char>) -> bool {
    exists|j: int| 0 <= j < paths.len() && (#[trigger] paths[j])@ == text
}

/// No text stands before itself.
pub proof fn lemma_text_irreflexive(a: Seq<char>)
    ensures
        !text_before(a, a),
    decreases a.len(),
{
    if a.len() > 0 {
        lemma_text_irreflexive(a.skip(1));
    }
}

/// What stands before a text stands before all that the text stands before.
pub proof fn lemma_text_transitive(a: Seq<char>, b: Seq<char>, c: Seq<char>)
    requires
        text_before(a, b),
        text_before(b, c),
    ensures
        text_before(a, c),
    decreases a.len(),
{
    if a.len() > 0 && a[0] == b[0] && b[0] == c[0] {
        lemma_text_transitive(a.skip(1), b.skip(1), c.skip(1));
    }
}

/// Of two texts that stand before each other neither way, each is the other.
pub proof fn lemma_text_total(a: Seq<char>, b: Seq<char>)
    requires
        !text_before(a, b),
        !text_before(b, a),
    ensures
        a == b,
    decreases a.len(),
{
    if a.len() > 0 && b.len() > 0 {
        assert(a[0] == b[0]) by {
            vstd::utf8::char_u32_cast(a[0], a[0] as u32);
            vstd::utf8::char_u32_cast(b[0], b[0] as u32);
        }
        lemma_text_total(a.skip(1), b.skip(1));
        assert(a.len() == a.skip(1).len() + 1);
        assert(b.len() == b.skip(1).len() + 1);
        assert forall|i: int| 0 <= i < a.len() implies a[i] == b[i] by {
            if i > 0 {
                assert(a.skip(1)[i - 1] == a[i]);
                assert(b.skip(1)[i - 1] == b[i]);
            }
        }
    }
    assert(a.len() == b.len());
    assert(a =~= b);
}

/// Two texts never stand before each other both ways.
pub proof fn lemma_text_asymmetric(a: Seq<char>, b: Seq<char>)
    requires
        text_before(a, b),
    ensures
        !text_before(b, a),
{
    if text_before(b, a) {
        lemma_text_transitive(a, b, a);
        lemma_text_irreflexive(a);
    }
}

/// Two ascending lists of the same texts agree on their first `n` places.
pub proof fn lemma_ascending_agree_up_to(first: Seq<String>, second: Seq<String>, n: int)
    requires
        ascending(first),
        ascending(second),
        forall|text: Seq<char>| #[trigger] lists(first, text) <==> lists(second, text),
        0 <= n <= first.len(),
    ensures
        n <= second.len(),
        forall|m: int| 0 <= m < n ==> (#[trigger] first[m])@ == second[m]@,
    decreases n,
{
    if n > 0 {
        let last = n - 1;
        lemma_ascending_agree_up_to(first, second, last);
        assert(lists(first, first[last]@));
        let h = choose|h: int| 0 <= h < second.len() && (#[trigger] second[h])@ == first[last]@;
        if h < last {
            assert(first[h]@ == second[h]@);
            assert(text_before(first[h]@, first[last]@));
            lemma_text_irreflexive(first[last]@);
        }
        if h > last {
            assert(text_before(second[last]@, second[h]@));
            assert(lists(second, second[last]@));
            assert(lists(first, second[last]@));
            let g = choose|g: int| 0 <= g < first.len() && (#[trigger] first[g])@ == second[last]@;
            if g < last {
                assert(first[g]@ == second[g]@);
                assert(text_before(second[g]@, second[last]@));
                lemma_text_irreflexive(second[last]@);
            } else if g == last {
                lemma_text_irreflexive(first[last]@);
            } else {
                assert(text_before(first[last]@, first[g]@));
                lemma_text_asymmetric(first[last]@, second[last]@);
            }
        }
        assert(h == last);
    }
}

/// An ascending list is determined by the texts it lists.
pub proof fn lemma_ascending_is_determined(first: Seq<String>, second: Seq<String>)
    requires
        ascending(first),
        ascending(second),
        forall|text: Seq<char>| #[trigger] lists(first, text) <==> lists(second, text),
    ensures
        first.len() == second.len(),
        forall|m: int| 0 <= m < first.len() ==> (#[trigger] first[m])@ == second[m]@,
{
    lemma_ascending_agree_up_to(first, second, first.len() as int);
    assert forall|text: Seq<char>| #[trigger] lists(second, text) <==> lists(first, text) by {
        assert(lists(first, text) <==> lists(second, text));
    }
    lemma_ascending_agree_up_to(second, first, second.len() as int);
}

/// `<` on `String`: strings are ordered lexicographically by their bytes,
/// which orders them by code point, a proper prefix first.
#[verifier::external_body]
fn path_before(a: &String, b: &String) -> (before: bool)
    ensures
        before == text_before(a@, b@),
{
    a < b
}

/// Puts `path` at its place in an ascending list, unless the list has it
/// already. Returns whether the list grew.
pub fn insert_path(paths: &mut Vec<String>, path: &String) -> (added: bool)
    requires
        ascending(old(paths)@),
    ensures
        ascending(final(paths)@),
        forall|text: Seq<char>| #[trigger] lists(final(paths)@, text) <==> (lists(old(paths)@, text) || text == path@),
        added == !lists(old(paths)@, path@),
        final(paths)@.len() == old(paths)@.len() + (if added { 1int } else { 0int }),
{
    let mut lo: usize = 0;
    let mut hi: usize = paths.len();
    while lo < hi
        invariant
            0 <= lo <= hi <= paths.len(),
            *paths == *old(paths),
            ascending(paths@),
            forall|i: int| 0 <= i < lo ==> text_before((#[trigger] paths@[i])@, path@),
            forall|i: int| hi <= i < paths.len() ==> !text_before((#[trigger] paths@[i])@, path@),
        decreases hi - lo,
    {
        let mid: usize = lo + (hi - lo) / 2;
        if path_before(&paths[mid], path) {
            proof {
                assert forall|i: int| 0 <= i < mid + 1 implies text_before((#[trigger] paths@[i])@, path@) by {
                    if i < mid {
                        lemma_text_transitive(paths@[i]@, paths@[mid as int]@, path@);
                    }
                }
            }
            lo = mid + 1;
        } else {
            proof {
                assert forall|i: int| mid <= i < paths.len() implies !text_before(
                    (#[trigger] paths@[i])@,
                    path@,
                ) by {
                    if i > mid && text_before(paths@[i]@, path@) {
                        lemma_text_transitive(paths@[mid as int]@, paths@[i]@, path@);
                    }
                }
            }
            hi = mid;
        }
    }
    let ghost before = paths@;
    if lo < paths.len() && !path_before(path, &paths[lo]) {
        proof {
            lemma_text_total(path@, before[lo as int]@);
            assert(lists(before, path@));
        }
        false
    } else {
        paths.insert(lo, path.clone());
        proof {
            let after = paths@;
            assert forall|j: int| lo <= j < before.len() implies text_before(path@, (#[trigger] before[j])@) by {
                if j > lo {
                    lemma_text_transitive(path@, before[lo as int]@, before[j]@);
                }
            }
            if lists(before, path@) {
                let j = choose|j: int| 0 <= j < before.len() && (#[trigger] before[j])@ == path@;
                lemma_text_irreflexive(path@);
            }
            assert forall|i: int, j: int| 0 <= i < j < after.len() implies text_before(
                (#[trigger] after[i])@,
                (#[trigger] after[j])@,
            ) by {
                if i < lo {
                    assert(after[i] == before[i]);
                } else if i > lo {
                    assert(after[i] == before[i - 1]);
                }
                if j < lo {
                    assert(after[j] == before[j]);
                } else if j > lo {
                    assert(after[j] == before[j - 1]);
                }
            }
            assert forall|text: Seq<char>| #[trigger] lists(after, text) <==> (lists(before, text) || text
                == path@) by {
                if lists(after, text) {
                    let j = choose|j: int| 0 <= j < after.len() && (#[trigger] after[j])@ == text;
                    if j < lo {
                        assert(before[j]@ == text);
                    } else if j > lo {
                        assert(before[j - 1]@ == text);
                    }
                }
                if lists(before, text) {
                    let j = choose|j: int| 0 <= j < before.len() && (#[trigger] before[j])@ == text;
                    let place = if j < lo { j } else { j + 1 };
                    assert(after[place]@ == text);
                }
                if text == path@ {
                    assert(after[lo as int]@ == text);
                }
            }
        }
        true
    }
}

} // verus!
