//! Selection of the nearest rows from a list of distances.
//!
//! Rows are named by their position in the list. A row ranks before another
//! when its distance is smaller, or when the distances are equal and it
//! comes first.

use vstd::prelude::*;

verus! {

/// Row `i` ranks before row `j` under the distances `d`: it is nearer, or
/// equally near and earlier.
pub open spec fn ranks_before(d: Seq<u64>, i: int, j: int) -> bool {
    d[i] < d[j] || (d[i] == d[j] && i < j)
}

/// `order` lists the `k` nearest rows under `d`, or all of them where there
/// are fewer than `k`, each once, from the nearest on.
pub open spec fn is_nearest(d: Seq<u64>, k: nat, order: Seq<usize>) -> bool {
    &&& order.len() == if k <= d.len() { k } else { d.len() }
    &&& forall|a: int| 0 <= a < order.len() ==> (#[trigger] order[a]) < d.len()
    &&& forall|a: int, b: int|
        0 <= a < b < order.len() ==> ranks_before(d, #[trigger] order[a] as int, #[trigger] order[b] as int)
    &&& forall|a: int, j: usize|
        0 <= a < order.len() && j < d.len() && !order.contains(j)
            ==> #[trigger] ranks_before(d, order[a] as int, j as int)
}

/// What one more row does to a selection: `row` enters at `slot` if that is
/// within the first `k` places, and the last row leaves where the selection
/// has grown beyond `k`.
spec fn enter(order: Seq<usize>, k: nat, slot: int, row: usize) -> Seq<usize> {
    if slot < k {
        let grown = order.insert(slot, row);
        if grown.len() > k {
            grown.drop_last()
        } else {
            grown
        }
    } else {
        order
    }
}

/// The `k` nearest rows under `distances`, from the nearest on; all rows
/// where there are fewer than `k`.
///
/// One pass over the list keeps the best rows found so far in order.
pub fn nearest_rows(distances: &[u64], k: usize) -> (order: Vec<usize>)
    ensures
        is_nearest(distances@, k as nat, order@),
{
    let mut best: Vec<usize> = Vec::new();
    let mut row: usize = 0;
    assert(distances@.take(0) =~= Seq::empty());
    while row < distances.len()
        invariant
            row <= distances.len(),
            is_nearest(distances@.take(row as int), k as nat, best@),
        decreases distances.len() - row,
    {
        let ghost seen = distances@.take(row + 1);
        let ghost kept = best@;
        assert(seen.drop_last() =~= distances@.take(row as int));
        let mut slot: usize = best.len();
        while slot > 0 && distances[best[slot - 1]] > distances[row]
            invariant
                row < distances.len(),
                best@ == kept,
                slot <= best.len(),
                forall|a: int| 0 <= a < best.len() ==> (#[trigger] best[a]) < row,
                forall|a: int| slot <= a < best.len() ==> distances[best[a] as int] > distances[row as int],
            decreases slot,
        {
            slot -= 1;
        }
        proof {
            assert forall|a: int| 0 <= a < slot implies seen[kept[a] as int] <= seen.last() by {
                if a < slot - 1 {
                    assert(ranks_before(seen.drop_last(), kept[a] as int, kept[slot - 1] as int));
                }
            }
            lemma_enter(seen, k as nat, kept, slot as int);
        }
        if slot < k {
            best.insert(slot, row);
            if best.len() > k {
                best.pop();
            }
        }
        row += 1;
    }
    assert(distances@.take(row as int) =~= distances@);
    best
}

/// The distances and `k` leave one selection only: two lists that both are
/// the `k` nearest rows are the same list.
pub proof fn lemma_selection_unique(d: Seq<u64>, k: nat, first: Seq<usize>, second: Seq<usize>)
    requires
        is_nearest(d, k, first),
        is_nearest(d, k, second),
    ensures
        first == second,
{
    lemma_selections_agree(d, k, first, second, first.len());
    assert(first =~= second);
}

proof fn lemma_selections_agree(d: Seq<u64>, k: nat, first: Seq<usize>, second: Seq<usize>, upto: nat)
    requires
        is_nearest(d, k, first),
        is_nearest(d, k, second),
        upto <= first.len(),
    ensures
        forall|a: int| 0 <= a < upto ==> first[a] == second[a],
    decreases upto,
{
    if upto > 0 {
        lemma_selections_agree(d, k, first, second, (upto - 1) as nat);
        let a = upto - 1;
        lemma_no_earlier_rival(d, k, first, second, a);
        lemma_no_earlier_rival(d, k, second, first, a);
    }
}

/// Where two selections agree before place `at`, the row of the first at
/// that place does not rank before the row of the second: it would be
/// missing from the second selection.
proof fn lemma_no_earlier_rival(d: Seq<u64>, k: nat, first: Seq<usize>, second: Seq<usize>, at: int)
    requires
        is_nearest(d, k, first),
        is_nearest(d, k, second),
        0 <= at < first.len(),
        forall|a: int| 0 <= a < at ==> first[a] == second[a],
    ensures
        !ranks_before(d, first[at] as int, second[at] as int),
{
    let row = first[at];
    if !ranks_before(d, row as int, second[at] as int) {
    } else if second.contains(row) {
        let b = choose|b: int| 0 <= b < second.len() && second[b] == row;
        if b < at {
            assert(ranks_before(d, first[b] as int, first[at] as int));
        } else if b > at {
            assert(ranks_before(d, second[at] as int, second[b] as int));
        }
    } else {
        assert(ranks_before(d, second[at] as int, row as int));
    }
}

proof fn lemma_enter(d: Seq<u64>, k: nat, order: Seq<usize>, slot: int)
    requires
        1 <= d.len() <= usize::MAX,
        is_nearest(d.drop_last(), k, order),
        0 <= slot <= order.len(),
        forall|a: int| 0 <= a < slot ==> d[order[a] as int] <= d.last(),
        forall|a: int| slot <= a < order.len() ==> d[order[a] as int] > d.last(),
    ensures
        is_nearest(d, k, enter(order, k, slot, (d.len() - 1) as usize)),
{
    let before = d.drop_last();
    let row = (d.len() - 1) as usize;
    let after = enter(order, k, slot, row);
    assert forall|a: int| 0 <= a < order.len() implies d[order[a] as int] == before[order[a] as int]
        && order[a] != row by {}
    assert(!order.contains(row)) by {
        if order.contains(row) {
            let a = choose|a: int| 0 <= a < order.len() && order[a] == row;
            assert(order[a] < before.len());
        }
    }
    if slot < k {
        let grown = order.insert(slot, row);
        assert(grown.len() == order.len() + 1);
        assert forall|a: int| 0 <= a < grown.len() implies #[trigger] grown[a] == (if a < slot {
            order[a]
        } else if a == slot {
            row
        } else {
            order[a - 1]
        }) by {}
        assert forall|a: int, b: int| 0 <= a < b < grown.len() implies ranks_before(
            d,
            #[trigger] grown[a] as int,
            #[trigger] grown[b] as int,
        ) by {
            if a < slot && b > slot {
                assert(ranks_before(before, order[a] as int, order[b - 1] as int));
            } else if a < slot && b < slot {
                assert(ranks_before(before, order[a] as int, order[b] as int));
            } else if a > slot {
                assert(ranks_before(before, order[a - 1] as int, order[b - 1] as int));
            }
        }
        assert forall|j: usize| j < d.len() && !(#[trigger] grown.contains(j)) implies j
            < before.len() && !order.contains(j) by {
            if j == row {
                assert(grown[slot] == row);
            }
            if j < before.len() && order.contains(j) {
                let a = choose|a: int| 0 <= a < order.len() && order[a] == j;
                if a < slot {
                    assert(grown[a] == j);
                } else {
                    assert(grown[a + 1] == j);
                }
            }
        }
        if grown.len() > k {
            // The selection was full: its last row leaves.
            let last = grown.len() - 1;
            assert(after =~= grown.take(last));
            assert forall|a: int, j: usize|
                0 <= a < after.len() && j < d.len() && !after.contains(j)
                implies #[trigger] ranks_before(d, after[a] as int, j as int) by {
                if grown.contains(j) {
                    let b = choose|b: int| 0 <= b < grown.len() && grown[b] == j;
                    if b < last {
                        assert(after[b] == j);
                    }
                    assert(ranks_before(d, grown[a] as int, grown[b] as int));
                } else {
                    // A row that was left out before ranks after the row that leaves now.
                    assert(ranks_before(before, order[order.len() - 1] as int, j as int));
                    assert(ranks_before(d, grown[last] as int, j as int));
                    if a != last {
                        assert(ranks_before(d, grown[a] as int, grown[last] as int));
                    }
                }
            }
        } else {
            assert(after =~= grown);
            assert(order.len() == before.len());
            assert forall|a: int, j: usize|
                0 <= a < after.len() && j < d.len() && !after.contains(j)
                implies #[trigger] ranks_before(d, after[a] as int, j as int) by {
                if j != row {
                    lemma_full_selection_holds_all(before, k, order, j);
                }
            }
        }
    } else {
        assert(after == order);
        assert(order.len() == k);
        assert forall|a: int, j: usize|
            0 <= a < after.len() && j < d.len() && !after.contains(j)
            implies #[trigger] ranks_before(d, after[a] as int, j as int) by {
            if j != row {
                assert(ranks_before(before, order[a] as int, j as int));
            }
        }
    }
}

/// A selection as long as the list leaves no row out.
proof fn lemma_full_selection_holds_all(d: Seq<u64>, k: nat, order: Seq<usize>, j: usize)
    requires
        is_nearest(d, k, order),
        order.len() == d.len(),
        d.len() <= usize::MAX,
        j < d.len(),
    ensures
        order.contains(j),
{
    // The rows of a selection are distinct and lie below `d.len()`; as many
    // of them as there are rows must take every row.
    assert(order.no_duplicates()) by {
        assert forall|a: int, b: int| 0 <= a < order.len() && 0 <= b < order.len() && a != b implies order[a]
            != order[b] by {
            if a < b {
                assert(ranks_before(d, order[a] as int, order[b] as int));
            } else {
                assert(ranks_before(d, order[b] as int, order[a] as int));
            }
        }
    }
    order.unique_seq_to_set();
    lemma_rows_below(d.len());
    let all = rows_below(d.len());
    assert(order.to_set().subset_of(all)) by {
        assert forall|x: usize| order.to_set().contains(x) implies all.contains(x) by {
            let a = choose|a: int| 0 <= a < order.len() && order[a] == x;
            assert(order[a] < d.len());
        }
    }
    vstd::set_lib::lemma_subset_equality(order.to_set(), all);
    assert(all.contains(j));
    assert(order.to_set().contains(j));
}

/// The rows of a list of `n` distances.
spec fn rows_below(n: nat) -> Set<usize> {
    Set::new(|x: usize| x < n)
}

proof fn lemma_rows_below(n: nat)
    requires
        n <= usize::MAX,
    ensures
        rows_below(n).finite(),
        rows_below(n).len() == n,
    decreases n,
{
    if n == 0 {
        assert(rows_below(n) =~= Set::empty());
    } else {
        lemma_rows_below((n - 1) as nat);
        assert(rows_below(n) =~= rows_below((n - 1) as nat).insert((n - 1) as usize));
    }
}

} // verus!
