//! Puts the records of the stored parts into the list that completes an upload.
//!
//! Parts are stored in whatever order their uploads end. The backend takes
//! them in the order of their numbers, one record for each number from 1 to
//! the number of parts.

use crate::part::CompletedPart;
use vstd::seq_lib::{to_multiset_contains, to_multiset_len};
use vstd::prelude::*;

verus! {

broadcast use vstd::seq_lib::group_to_multiset_ensures;

/// No record has a greater part number than a record after it.
pub open spec fn sorted(parts: Seq<CompletedPart>) -> bool {
    forall|i: int, j: int|
        0 <= i <= j < parts.len() ==> (#[trigger] parts[i]).part_number <= (
        #[trigger] parts[j]).part_number
}

/// Every record has a smaller part number than the records after it.
pub open spec fn ascending(parts: Seq<CompletedPart>) -> bool {
    forall|i: int, j: int|
        0 <= i < j < parts.len() ==> (#[trigger] parts[i]).part_number < (
        #[trigger] parts[j]).part_number
}

/// The list is what completes an upload of `count` parts: the record of part
/// `i + 1` stands at index `i`.
pub open spec fn in_order(parts: Seq<CompletedPart>, count: int) -> bool {
    &&& parts.len() == count
    &&& forall|i: int| 0 <= i < parts.len() ==> (#[trigger] parts[i]).part_number == i + 1
}

/// The two lists hold the same records, each as often as the other.
pub open spec fn rearranged(a: Seq<CompletedPart>, b: Seq<CompletedPart>) -> bool {
    a.to_multiset() == b.to_multiset()
}

/// The records are those of parts 1 to `count`, one for each, in some order.
pub open spec fn can_finalize(parts: Seq<CompletedPart>, count: int) -> bool {
    exists|list: Seq<CompletedPart>| #[trigger] rearranged(list, parts) && in_order(list, count)
}

/// A list that completes an upload is sorted, its part numbers ascend, and
/// none of them occurs twice.
pub proof fn lemma_in_order(parts: Seq<CompletedPart>, count: int)
    requires
        in_order(parts, count),
    ensures
        parts.len() == count,
        sorted(parts),
        ascending(parts),
        forall|i: int, j: int|
            0 <= i < parts.len() && 0 <= j < parts.len() && i != j ==> (
            #[trigger] parts[i]).part_number != (#[trigger] parts[j]).part_number,
{
}

/// A list sorted by part number and a list with ascending part numbers that
/// hold the same records are one and the same list. So the order of a list in
/// which no number occurs twice is fixed by its records, and sorting it again
/// changes nothing.
pub proof fn lemma_order_unique(a: Seq<CompletedPart>, b: Seq<CompletedPart>)
    requires
        sorted(a),
        ascending(b),
        rearranged(a, b),
    ensures
        a == b,
    decreases a.len(),
{
    assert(a.len() == b.len()) by {
        to_multiset_len(a);
        to_multiset_len(b);
    }
    if a.len() == 0 {
        assert(a =~= b);
    } else {
        assert(a.contains(a[0]));
        assert(b.contains(a[0])) by {
            to_multiset_contains(a, a[0]);
            to_multiset_contains(b, a[0]);
        }
        let k = choose|k: int| 0 <= k < b.len() && b[k] == a[0];
        assert(b.contains(b[0]));
        assert(a.contains(b[0])) by {
            to_multiset_contains(a, b[0]);
            to_multiset_contains(b, b[0]);
        }
        let m = choose|m: int| 0 <= m < a.len() && a[m] == b[0];
        assert(a[0].part_number <= a[m].part_number);
        assert(k == 0);
        let a1 = a.remove(0);
        let b1 = b.remove(0);
        assert forall|i: int, j: int| 0 <= i <= j < a1.len() implies (#[trigger] a1[i]).part_number
            <= (#[trigger] a1[j]).part_number by {
            assert(a1[i] == a[i + 1] && a1[j] == a[j + 1]);
        }
        assert forall|i: int, j: int| 0 <= i < j < b1.len() implies (#[trigger] b1[i]).part_number
            < (#[trigger] b1[j]).part_number by {
            assert(b1[i] == b[i + 1] && b1[j] == b[j + 1]);
        }
        lemma_order_unique(a1, b1);
        assert(a =~= seq![a[0]] + a1);
        assert(b =~= seq![b[0]] + b1);
    }
}

/// The records are those of parts 1 to `count`, one for each: there are
/// `count` of them, each bears a number from 1 to `count`, and no two bear
/// the same.
pub open spec fn one_for_each(parts: Seq<CompletedPart>, count: int) -> bool {
    &&& parts.len() == count
    &&& forall|i: int| 0 <= i < parts.len() ==> 1 <= (#[trigger] parts[i]).part_number <= count
    &&& forall|i: int, j: int|
        0 <= i < j < parts.len() ==> (#[trigger] parts[i]).part_number != (
        #[trigger] parts[j]).part_number
}

/// How many records at the front of a list have a part number of at most `n`.
spec fn place(list: Seq<CompletedPart>, n: int) -> int
    decreases list.len(),
{
    if list.len() == 0 || list[0].part_number > n {
        0
    } else {
        1 + place(list.drop_first(), n)
    }
}

/// In a sorted list the records with a part number of at most `n` are those
/// at the front.
proof fn lemma_place(list: Seq<CompletedPart>, n: int)
    requires
        sorted(list),
    ensures
        0 <= place(list, n) <= list.len(),
        forall|i: int| 0 <= i < place(list, n) ==> (#[trigger] list[i]).part_number <= n,
        forall|i: int| place(list, n) <= i < list.len() ==> (#[trigger] list[i]).part_number > n,
    decreases list.len(),
{
    if list.len() > 0 {
        let rest = list.drop_first();
        assert forall|i: int, j: int| 0 <= i <= j < rest.len() implies (
        #[trigger] rest[i]).part_number <= (#[trigger] rest[j]).part_number by {
            assert(rest[i] == list[i + 1] && rest[j] == list[j + 1]);
        }
        lemma_place(rest, n);
        if list[0].part_number > n {
            assert forall|i: int| 0 <= i < list.len() implies (#[trigger] list[i]).part_number
                > n by {
                assert(list[0].part_number <= list[i].part_number);
            }
        } else {
            assert forall|i: int| 0 <= i < place(list, n) implies (
            #[trigger] list[i]).part_number <= n by {
                if i > 0 {
                    assert(list[i] == rest[i - 1]);
                }
            }
            assert forall|i: int| place(list, n) <= i < list.len() implies (
            #[trigger] list[i]).part_number > n by {
                assert(list[i] == rest[i - 1]);
            }
        }
    }
}

/// Every list of records can be put in the order of its part numbers.
proof fn lemma_sorted_exists(parts: Seq<CompletedPart>)
    ensures
        exists|list: Seq<CompletedPart>| sorted(list) && #[trigger] rearranged(list, parts),
    decreases parts.len(),
{
    if parts.len() == 0 {
        assert(sorted(parts) && rearranged(parts, parts));
    } else {
        let rest = parts.drop_last();
        let last = parts.last();
        lemma_sorted_exists(rest);
        let before = choose|list: Seq<CompletedPart>| sorted(list) && #[trigger] rearranged(
            list,
            rest,
        );
        lemma_place(before, last.part_number as int);
        let j = place(before, last.part_number as int);
        let out = before.insert(j, last);
        assert forall|a: int, b: int| 0 <= a <= b < out.len() implies (
        #[trigger] out[a]).part_number <= (#[trigger] out[b]).part_number by {
            let pa = if a < j {
                before[a]
            } else if a == j {
                last
            } else {
                before[a - 1]
            };
            let pb = if b < j {
                before[b]
            } else if b == j {
                last
            } else {
                before[b - 1]
            };
            assert(out[a] == pa && out[b] == pb);
        }
        assert(rest.push(last) =~= parts);
        assert(sorted(out) && rearranged(out, parts));
    }
}

/// The numbers of a list that ascends are at least one apart.
proof fn lemma_ascending_bounds(list: Seq<CompletedPart>, i: int)
    requires
        ascending(list),
        0 <= i < list.len(),
    ensures
        list[i].part_number >= list[0].part_number + i,
        list[i].part_number <= list[list.len() - 1].part_number - (list.len() - 1 - i),
{
    lemma_ascending_low(list, i);
    lemma_ascending_high(list, i);
}

proof fn lemma_ascending_low(list: Seq<CompletedPart>, i: int)
    requires
        ascending(list),
        0 <= i < list.len(),
    ensures
        list[i].part_number >= list[0].part_number + i,
    decreases i,
{
    if i > 0 {
        lemma_ascending_low(list, i - 1);
        assert(list[i - 1].part_number < list[i].part_number);
    }
}

proof fn lemma_ascending_high(list: Seq<CompletedPart>, i: int)
    requires
        ascending(list),
        0 <= i < list.len(),
    ensures
        list[i].part_number <= list[list.len() - 1].part_number - (list.len() - 1 - i),
    decreases list.len() - i,
{
    if i < list.len() - 1 {
        lemma_ascending_high(list, i + 1);
        assert(list[i].part_number < list[i + 1].part_number);
    }
}

/// Records that are those of parts 1 to `count`, one for each, can be made
/// into the list that completes an upload, in whatever order they came.
pub proof fn lemma_one_for_each(parts: Seq<CompletedPart>, count: int)
    requires
        one_for_each(parts, count),
    ensures
        can_finalize(parts, count),
{
    lemma_sorted_exists(parts);
    let list = choose|list: Seq<CompletedPart>| sorted(list) && #[trigger] rearranged(list, parts);
    to_multiset_len(list);
    to_multiset_len(parts);
    assert(parts.no_duplicates()) by {
        assert forall|i: int, j: int|
            0 <= i < parts.len() && 0 <= j < parts.len() && i != j implies parts[i]
            != parts[j] by {
            if i < j {
                assert(parts[i].part_number != parts[j].part_number);
            } else {
                assert(parts[j].part_number != parts[i].part_number);
            }
        }
    }
    parts.lemma_multiset_has_no_duplicates();
    list.lemma_multiset_has_no_duplicates_conv();
    assert forall|i: int| 0 <= i < list.len() implies 1 <= (#[trigger] list[i]).part_number
        <= count by {
        assert(list.contains(list[i]));
        to_multiset_contains(list, list[i]);
        to_multiset_contains(parts, list[i]);
        let k = choose|k: int| 0 <= k < parts.len() && parts[k] == list[i];
        assert(1 <= parts[k].part_number <= count);
    }
    assert forall|i: int, j: int| 0 <= i < j < list.len() implies (
    #[trigger] list[i]).part_number < (#[trigger] list[j]).part_number by {
        assert(list[i].part_number <= list[j].part_number);
        if list[i].part_number == list[j].part_number {
            assert(list[i] != list[j]);
            assert(list.contains(list[i]) && list.contains(list[j]));
            to_multiset_contains(list, list[i]);
            to_multiset_contains(parts, list[i]);
            to_multiset_contains(list, list[j]);
            to_multiset_contains(parts, list[j]);
            let p = choose|p: int| 0 <= p < parts.len() && parts[p] == list[i];
            let q = choose|q: int| 0 <= q < parts.len() && parts[q] == list[j];
            if p < q {
                assert(parts[p].part_number != parts[q].part_number);
            } else {
                assert(parts[q].part_number != parts[p].part_number);
            }
        }
    }
    assert forall|i: int| 0 <= i < list.len() implies (#[trigger] list[i]).part_number == i
        + 1 by {
        lemma_ascending_bounds(list, i);
        assert(1 <= list[0].part_number);
        assert(list[list.len() - 1].part_number <= count);
    }
    assert(rearranged(list, parts) && in_order(list, count));
}

/// Only records that are those of parts 1 to `count`, one for each, can be
/// made into the list that completes an upload.
pub proof fn lemma_finalize_needs_each(parts: Seq<CompletedPart>, count: int)
    requires
        can_finalize(parts, count),
    ensures
        one_for_each(parts, count),
{
    let list = choose|list: Seq<CompletedPart>| #[trigger]
        rearranged(list, parts) && in_order(list, count);
    to_multiset_len(list);
    to_multiset_len(parts);
    assert(list.no_duplicates()) by {
        assert forall|i: int, j: int|
            0 <= i < list.len() && 0 <= j < list.len() && i != j implies list[i] != list[j] by {
            assert(list[i].part_number == i + 1 && list[j].part_number == j + 1);
        }
    }
    list.lemma_multiset_has_no_duplicates();
    parts.lemma_multiset_has_no_duplicates_conv();
    assert forall|i: int| 0 <= i < parts.len() implies 1 <= (#[trigger] parts[i]).part_number
        <= count by {
        assert(parts.contains(parts[i]));
        to_multiset_contains(parts, parts[i]);
        to_multiset_contains(list, parts[i]);
        let k = choose|k: int| 0 <= k < list.len() && list[k] == parts[i];
        assert(list[k].part_number == k + 1);
    }
    assert forall|i: int, j: int| 0 <= i < j < parts.len() implies (
    #[trigger] parts[i]).part_number != (#[trigger] parts[j]).part_number by {
        assert(parts[i] != parts[j]);
        assert(parts.contains(parts[i]) && parts.contains(parts[j]));
        to_multiset_contains(parts, parts[i]);
        to_multiset_contains(list, parts[i]);
        to_multiset_contains(parts, parts[j]);
        to_multiset_contains(list, parts[j]);
        let a = choose|a: int| 0 <= a < list.len() && list[a] == parts[i];
        let b = choose|b: int| 0 <= b < list.len() && list[b] == parts[j];
        assert(list[a].part_number == a + 1 && list[b].part_number == b + 1);
    }
}

/// The last place in a sorted list at which a record with this part number
/// can stand: no record before it has a greater number, every record after it
/// has.
fn slot(parts: &Vec<CompletedPart>, part_number: i32) -> (j: usize)
    requires
        sorted(parts@),
    ensures
        j <= parts.len(),
        forall|i: int| 0 <= i < j ==> (#[trigger] parts[i]).part_number <= part_number,
        forall|i: int| j <= i < parts.len() ==> (#[trigger] parts[i]).part_number > part_number,
{
    let mut j: usize = parts.len();
    while j > 0 && parts[j - 1].part_number > part_number
        invariant
            j <= parts.len(),
            sorted(parts@),
            forall|i: int| j <= i < parts.len() ==> (#[trigger] parts[i]).part_number > part_number,
        decreases j,
    {
        j -= 1;
    }
    j
}

/// Sorts the records by part number. A list that is sorted comes back as it
/// was. Each record is put in its place from the end of those sorted so far,
/// so records that come nearly in order are sorted in little more than one
/// pass.
pub fn sort_parts(parts: Vec<CompletedPart>) -> (out: Vec<CompletedPart>)
    ensures
        sorted(out@),
        rearranged(out@, parts@),
        sorted(parts@) ==> out@ == parts@,
{
    let ghost all = parts@;
    let mut out: Vec<CompletedPart> = Vec::new();
    assert(all.take(0) =~= out@);
    for part in it: parts
        invariant
            it.seq() == all,
            sorted(out@),
            out@.to_multiset() == all.take(it.index() as int).to_multiset(),
            sorted(all) ==> out@ == all.take(it.index() as int),
    {
        let ghost n = it.index() as int;
        let ghost sorted_before = out@;
        let j = slot(&out, part.part_number);
        out.insert(j, part);
        proof {
            assert(all.take(n + 1) =~= all.take(n).push(part));
            assert forall|a: int, b: int| 0 <= a <= b < out@.len() implies (
            #[trigger] out@[a]).part_number <= (#[trigger] out@[b]).part_number by {
                let pa = if a < j {
                    sorted_before[a]
                } else if a == j {
                    part
                } else {
                    sorted_before[a - 1]
                };
                let pb = if b < j {
                    sorted_before[b]
                } else if b == j {
                    part
                } else {
                    sorted_before[b - 1]
                };
                assert(out@[a] == pa && out@[b] == pb);
            }
            if sorted(all) {
                if j < n {
                    assert(sorted_before[n - 1] == all[n - 1]);
                    assert(all[n - 1].part_number <= all[n].part_number);
                }
                assert(out@ =~= all.take(n + 1));
            }
        }
    }
    assert(all.take(all.len() as int) =~= all);
    out
}

/// Makes the list that completes an upload of `count` parts out of the records
/// of the parts stored, given in any order: the records sorted by part
/// number. There is such a list only if the records are those of parts 1 to
/// `count`, one for each; else nothing must be completed.
pub fn assemble(parts: Vec<CompletedPart>, count: i32) -> (r: Option<Vec<CompletedPart>>)
    ensures
        r matches Some(list) ==> in_order(list@, count as int) && rearranged(list@, parts@),
        r is Some <==> can_finalize(parts@, count as int),
{
    let out = sort_parts(parts);
    let mut ok = count >= 0 && out.len() <= i32::MAX as usize && out.len() == count as usize;
    let mut i: usize = 0;
    while ok && i < out.len()
        invariant
            i <= out@.len(),
            ok ==> out@.len() == count,
            ok ==> forall|k: int| 0 <= k < i ==> (#[trigger] out@[k]).part_number == k + 1,
            !ok ==> !in_order(out@, count as int),
        decreases out.len() - i + if ok { 1int } else { 0int },
    {
        if out[i].part_number != (i + 1) as i32 {
            ok = false;
        } else {
            i += 1;
        }
    }
    if ok {
        assert(rearranged(out@, parts@) && in_order(out@, count as int));
        Some(out)
    } else {
        proof {
            if can_finalize(parts@, count as int) {
                let list = choose|list: Seq<CompletedPart>| #[trigger]
                    rearranged(list, parts@) && in_order(list, count as int);
                lemma_order_unique(out@, list);
            }
        }
        None
    }
}

} // verus!
