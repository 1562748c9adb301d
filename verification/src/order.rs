//! Ascending listings of sets of sizes: the order in which buckets are taken.

use vstd::prelude::*;

verus! {

/// Each value is below all that follow it.
pub open spec fn is_ascending(values: Seq<u64>) -> bool {
    forall|i: int, j: int| 0 <= i < j < values.len() ==> values[i] < values[j]
}

/// `values` holds the members of `of` and nothing else.
pub open spec fn lists(values: Seq<u64>, of: Set<u64>) -> bool {
    forall|value: u64| values.contains(value) <==> of.contains(value)
}

/// The members of `of`, ascending.
pub open spec fn ascending(of: Set<u64>) -> Seq<u64> {
    choose|values: Seq<u64>| is_ascending(values) && lists(values, of)
}

/// A set has at most one ascending listing.
pub proof fn lemma_ascending_listing_is_unique(first: Seq<u64>, second: Seq<u64>, of: Set<u64>)
    requires
        is_ascending(first),
        is_ascending(second),
        lists(first, of),
        lists(second, of),
    ensures
        first == second,
    decreases first.len(),
{
    if first.len() == 0 {
        if second.len() > 0 {
            assert(second.contains(second[0]));
            assert(first.contains(second[0]));
        }
        assert(first =~= second);
    } else {
        let top = first.last();
        assert(first.contains(first[first.len() - 1]));
        assert(second.contains(top));
        let at = choose|at: int| 0 <= at < second.len() && second[at] == top;
        if at < second.len() - 1 {
            let above = second[second.len() - 1];
            assert(second.contains(above));
            assert(first.contains(above));
            let k = choose|k: int| 0 <= k < first.len() && first[k] == above;
            assert(first[k] <= first[first.len() - 1]);
            assert(second[at] < second[second.len() - 1]);
        }
        let rest = of.remove(top);
        let first_rest = first.drop_last();
        let second_rest = second.drop_last();
        assert forall|value: u64| first_rest.contains(value) <==> rest.contains(value) by {
            if first_rest.contains(value) {
                let k = choose|k: int| 0 <= k < first_rest.len() && first_rest[k] == value;
                assert(first[k] == value);
                assert(first[k] < first[first.len() - 1]);
                assert(first.contains(value));
            }
            if rest.contains(value) {
                assert(first.contains(value));
                let k = choose|k: int| 0 <= k < first.len() && first[k] == value;
                assert(first_rest[k] == value);
            }
        }
        assert forall|value: u64| second_rest.contains(value) <==> rest.contains(value) by {
            if second_rest.contains(value) {
                let k = choose|k: int| 0 <= k < second_rest.len() && second_rest[k] == value;
                assert(second[k] == value);
                assert(second[k] < second[second.len() - 1]);
                assert(second.contains(value));
            }
            if rest.contains(value) {
                assert(second.contains(value));
                let k = choose|k: int| 0 <= k < second.len() && second[k] == value;
                assert(second_rest[k] == value);
            }
        }
        lemma_ascending_listing_is_unique(first_rest, second_rest, rest);
        assert(first =~= first_rest.push(top));
        assert(second =~= second_rest.push(top));
    }
}

/// A finite set of sizes that is not empty has a greatest member.
proof fn lemma_has_greatest(of: Set<u64>)
    requires
        of.finite(),
        of.len() > 0,
    ensures
        exists|top: u64| of.contains(top) && forall|other: u64| of.contains(other) ==> other <= top,
    decreases of.len(),
{
    let picked = of.choose();
    let rest = of.remove(picked);
    if rest.len() == 0 {
        assert forall|other: u64| of.contains(other) implies other <= picked by {
            if other != picked {
                assert(rest.contains(other));
            }
        }
    } else {
        lemma_has_greatest(rest);
        let top = choose|top: u64|
            rest.contains(top) && forall|other: u64| rest.contains(other) ==> other <= top;
        let greatest = if picked > top {
            picked
        } else {
            top
        };
        assert forall|other: u64| of.contains(other) implies other <= greatest by {
            if other != picked {
                assert(rest.contains(other));
            }
        }
        assert(of.contains(greatest));
    }
}

/// Every finite set of sizes has an ascending listing.
pub proof fn lemma_ascending_exists(of: Set<u64>)
    requires
        of.finite(),
    ensures
        is_ascending(ascending(of)),
        lists(ascending(of), of),
    decreases of.len(),
{
    if of.len() == 0 {
        let none = Seq::<u64>::empty();
        assert(is_ascending(none));
        assert forall|value: u64| none.contains(value) <==> of.contains(value) by {
            if of.contains(value) {
                assert(of.remove(value).len() + 1 == of.len());
            }
        }
        assert(lists(none, of));
    } else {
        lemma_has_greatest(of);
        let top = choose|top: u64|
            of.contains(top) && forall|other: u64| of.contains(other) ==> other <= top;
        let rest = of.remove(top);
        lemma_ascending_exists(rest);
        let below = ascending(rest);
        let all = below.push(top);
        assert forall|i: int, j: int| 0 <= i < j < all.len() implies all[i] < all[j] by {
            assert(below.contains(below[i]));
            assert(rest.contains(below[i]));
            if j < below.len() {
                assert(all[i] == below[i] && all[j] == below[j]);
            }
        }
        assert forall|value: u64| all.contains(value) <==> of.contains(value) by {
            if all.contains(value) {
                let k = choose|k: int| 0 <= k < all.len() && all[k] == value;
                if k < below.len() {
                    assert(below.contains(below[k]));
                }
            }
            if of.contains(value) {
                if value == top {
                    assert(all[below.len() as int] == top);
                } else {
                    assert(rest.contains(value));
                    assert(below.contains(value));
                    let k = choose|k: int| 0 <= k < below.len() && below[k] == value;
                    assert(all[k] == value);
                }
            }
        }
        assert(is_ascending(all) && lists(all, of));
    }
}

/// An ascending listing of a set is the set's ascending listing.
pub proof fn lemma_ascending_listing(values: Seq<u64>, of: Set<u64>)
    requires
        is_ascending(values),
        lists(values, of),
    ensures
        values == ascending(of),
{
    lemma_ascending_listing_is_unique(values, ascending(of), of);
}

/// Merges two ascending sequences into the ascending listing of what
/// either holds.
fn merge(left: &Vec<u64>, right: &Vec<u64>) -> (merged: Vec<u64>)
    requires
        is_ascending(left@),
        is_ascending(right@),
    ensures
        is_ascending(merged@),
        forall|value: u64|
            merged@.contains(value) <==> left@.contains(value) || right@.contains(value),
{
    let mut merged: Vec<u64> = Vec::new();
    let mut i: usize = 0;
    let mut j: usize = 0;
    while i < left.len() || j < right.len()
        invariant
            i <= left@.len(),
            j <= right@.len(),
            is_ascending(left@),
            is_ascending(right@),
            is_ascending(merged@),
            forall|k: int|
                0 <= k < merged@.len() && i < left@.len() ==> #[trigger] merged@[k] < left@[i as int],
            forall|k: int|
                0 <= k < merged@.len() && j < right@.len() ==> #[trigger] merged@[k]
                    < right@[j as int],
            forall|k: int|
                0 <= k < merged@.len() ==> left@.take(i as int).contains(#[trigger] merged@[k])
                    || right@.take(j as int).contains(merged@[k]),
            forall|k: int| 0 <= k < i ==> merged@.contains(#[trigger] left@[k]),
            forall|k: int| 0 <= k < j ==> merged@.contains(#[trigger] right@[k]),
        decreases left@.len() - i + right@.len() - j,
    {
        let ghost before = merged@;
        let ghost old_i = i;
        let ghost old_j = j;
        let take_left = i < left.len() && (j >= right.len() || left[i] <= right[j]);
        let take_right = j < right.len() && (i >= left.len() || right[j] <= left[i]);
        let value = if take_left {
            left[i]
        } else {
            right[j]
        };
        merged.push(value);
        if take_left {
            i += 1;
        }
        if take_right {
            j += 1;
        }
        proof {
            assert(merged@ == before.push(value));
            assert(merged@[before.len() as int] == value);
            assert forall|a: int, b: int| 0 <= a < b < merged@.len() implies merged@[a]
                < merged@[b] by {
                if b == before.len() {
                    assert(merged@[a] == before[a]);
                } else {
                    assert(merged@[a] == before[a] && merged@[b] == before[b]);
                }
            }
            assert forall|k: int|
                0 <= k < merged@.len() && i < left@.len() implies #[trigger] merged@[k]
                < left@[i as int] by {
                if k < before.len() {
                    assert(merged@[k] == before[k]);
                    if old_i < i {
                        assert(left@[old_i as int] < left@[i as int]);
                    }
                } else if take_left {
                    assert(left@[old_i as int] < left@[i as int]);
                }
            }
            assert forall|k: int|
                0 <= k < merged@.len() && j < right@.len() implies #[trigger] merged@[k]
                < right@[j as int] by {
                if k < before.len() {
                    assert(merged@[k] == before[k]);
                    if old_j < j {
                        assert(right@[old_j as int] < right@[j as int]);
                    }
                } else if take_right {
                    assert(right@[old_j as int] < right@[j as int]);
                }
            }
            assert forall|k: int| 0 <= k < merged@.len() implies left@.take(i as int).contains(
                #[trigger] merged@[k],
            ) || right@.take(j as int).contains(merged@[k]) by {
                if k < before.len() {
                    assert(merged@[k] == before[k]);
                    if left@.take(old_i as int).contains(before[k]) {
                        let at = choose|at: int|
                            0 <= at < old_i && left@.take(old_i as int)[at] == before[k];
                        assert(left@.take(i as int)[at] == before[k]);
                    } else {
                        let at = choose|at: int|
                            0 <= at < old_j && right@.take(old_j as int)[at] == before[k];
                        assert(right@.take(j as int)[at] == before[k]);
                    }
                } else if take_left {
                    assert(left@.take(i as int)[old_i as int] == value);
                } else {
                    assert(right@.take(j as int)[old_j as int] == value);
                }
            }
            assert forall|k: int| 0 <= k < i implies merged@.contains(#[trigger] left@[k]) by {
                if k < old_i {
                    let at = choose|at: int| 0 <= at < before.len() && before[at] == left@[k];
                    assert(merged@[at] == left@[k]);
                }
            }
            assert forall|k: int| 0 <= k < j implies merged@.contains(#[trigger] right@[k]) by {
                if k < old_j {
                    let at = choose|at: int| 0 <= at < before.len() && before[at] == right@[k];
                    assert(merged@[at] == right@[k]);
                }
            }
        }
    }
    proof {
        assert(left@.take(i as int) == left@);
        assert(right@.take(j as int) == right@);
        assert forall|value: u64|
            merged@.contains(value) <==> left@.contains(value) || right@.contains(value) by {
            if left@.contains(value) {
                let k = choose|k: int| 0 <= k < left@.len() && left@[k] == value;
                assert(merged@.contains(left@[k]));
            }
            if right@.contains(value) {
                let k = choose|k: int| 0 <= k < right@.len() && right@[k] == value;
                assert(merged@.contains(right@[k]));
            }
        }
    }
    merged
}

/// The distinct values of `values`, ascending.
pub fn sort_ascending(values: &[u64]) -> (sorted: Vec<u64>)
    ensures
        is_ascending(sorted@),
        forall|value: u64| sorted@.contains(value) <==> values@.contains(value),
    decreases values@.len(),
{
    let len = values.len();
    if len == 0 {
        return Vec::new();
    }
    if len == 1 {
        let mut sorted: Vec<u64> = Vec::new();
        sorted.push(values[0]);
        assert(sorted@ =~= values@);
        return sorted;
    }
    let mid = len / 2;
    let left = sort_ascending(&values[0..mid]);
    let right = sort_ascending(&values[mid..len]);
    let sorted = merge(&left, &right);
    proof {
        let front = values@.subrange(0, mid as int);
        let back = values@.subrange(mid as int, len as int);
        assert forall|value: u64| sorted@.contains(value) <==> values@.contains(value) by {
            if front.contains(value) {
                let k = choose|k: int| 0 <= k < front.len() && front[k] == value;
                assert(values@[k] == value);
            }
            if back.contains(value) {
                let k = choose|k: int| 0 <= k < back.len() && back[k] == value;
                assert(values@[mid + k] == value);
            }
            if values@.contains(value) {
                let k = choose|k: int| 0 <= k < values@.len() && values@[k] == value;
                if k < mid {
                    assert(front[k] == value);
                } else {
                    assert(back[k - mid] == value);
                }
            }
        }
    }
    sorted
}

} // verus!
