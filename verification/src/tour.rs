//! The nearest-neighbor tour builder.
//!
//! `nearest_neighbor` consumes a square table of distance keys for `n`
//! points and produces a closed tour of `n + 1` indices: it starts at
//! index 0, repeatedly moves to the unvisited index with the smallest key
//! from the current one (the lowest index wins a tie), and finally returns
//! to index 0.  Alongside the tour it reports the key of every edge it
//! walked, so a caller can account the tour's total length edge by edge.

use vstd::prelude::*;

verus! {

/// The table of distance keys, one row per point, as a mathematical value.
pub open spec fn key_table(rows: Seq<Vec<u64>>) -> Seq<Seq<u64>> {
    rows.map_values(|r: Vec<u64>| r@)
}

/// Every row of the table has as many entries as there are rows.
pub open spec fn square_table(t: Seq<Seq<u64>>) -> bool {
    forall|i: int| 0 <= i < t.len() ==> #[trigger] t[i].len() == t.len()
}

/// Index `j` occurs among the first `k` entries of the tour.
pub open spec fn appears_before(tour: Seq<usize>, k: int, j: usize) -> bool {
    exists|m: int| 0 <= m < k && tour[m] == j
}

/// Entry `k` of the tour is the greedy choice after the first `k` entries:
/// an index not seen so far whose key from the previous entry is minimal,
/// and the smallest such index where several keys are equally minimal.
pub open spec fn greedy_step(t: Seq<Seq<u64>>, tour: Seq<usize>, k: int) -> bool {
    let prev = tour[k - 1] as int;
    let cur = tour[k];
    &&& (cur as int) < t.len()
    &&& !appears_before(tour, k, cur)
    &&& forall|j: usize| #![trigger appears_before(tour, k, j)]
            (j as int) < t.len() && !appears_before(tour, k, j) ==> (t[prev][cur as int]
                < t[prev][j as int] || (t[prev][cur as int] == t[prev][j as int] && cur <= j))
}

/// The whole shape of a nearest-neighbor tour over table `t`: it has one
/// entry per point plus the closing one, begins and ends at index 0, and
/// every interior entry is the greedy choice of its step.
pub open spec fn is_nn_tour(t: Seq<Seq<u64>>, tour: Seq<usize>) -> bool {
    let n = t.len() as int;
    &&& tour.len() == n + 1
    &&& tour[0] == 0usize
    &&& tour[n] == 0usize
    &&& forall|k: int| 1 <= k < n ==> #[trigger] greedy_step(t, tour, k)
}

/// Among the unvisited indices, find the one with the smallest key,
/// preferring the lowest index when keys are equal.
fn select_nearest(row: &Vec<u64>, visited: &Vec<bool>) -> (r: usize)
    requires
        row@.len() == visited@.len(),
        exists|j: int| 0 <= j < visited@.len() && !visited@[j],
    ensures
        (r as int) < row@.len(),
        !visited@[r as int],
        forall|j: int|
            0 <= j < row@.len() && !visited@[j] ==> (row@[r as int] < row@[j] || (row@[r as int]
                == row@[j] && r <= j)),
{
    let n = row.len();
    let mut start: usize = 0;
    while start < n && visited[start]
        invariant
            n == visited@.len(),
            start <= n,
            forall|j: int| 0 <= j < start ==> visited@[j],
        decreases n - start,
    {
        start += 1;
    }
    assert(start < n) by {
        if start == n {
            let j = choose|j: int| 0 <= j < visited@.len() && !visited@[j];
            assert(visited@[j]);
        }
    }
    let mut best: usize = start;
    let mut i: usize = start + 1;
    while i < n
        invariant
            n == visited@.len(),
            n == row@.len(),
            (best as int) < i <= n,
            !visited@[best as int],
            forall|j: int|
                0 <= j < i && !visited@[j] ==> (row@[best as int] < row@[j] || (row@[best as int]
                    == row@[j] && best <= j)),
        decreases n - i,
    {
        if !visited[i] && row[i] < row[best] {
            best = i;
        }
        i += 1;
    }
    best
}

/// Appending an entry to the tour does not change which indices occur
/// among its first `k` entries.
proof fn lemma_push_preserves_appears(tour: Seq<usize>, x: usize, k: int, j: usize)
    requires
        0 <= k <= tour.len(),
    ensures
        appears_before(tour.push(x), k, j) == appears_before(tour, k, j),
{
    if appears_before(tour, k, j) {
        let m = choose|m: int| 0 <= m < k && tour[m] == j;
        assert(tour.push(x)[m] == j);
    }
    if appears_before(tour.push(x), k, j) {
        let m = choose|m: int| 0 <= m < k && tour.push(x)[m] == j;
        assert(tour[m] == j);
    }
}

/// Appending an entry to the tour leaves every already justified greedy
/// step justified.
proof fn lemma_push_preserves_greedy(t: Seq<Seq<u64>>, tour: Seq<usize>, x: usize, k: int)
    requires
        1 <= k < tour.len(),
        greedy_step(t, tour, k),
    ensures
        greedy_step(t, tour.push(x), k),
{
    let pushed = tour.push(x);
    lemma_push_preserves_appears(tour, x, k, tour[k]);
    assert forall|j: usize|
        (j as int) < t.len() && !appears_before(pushed, k, j) implies (t[pushed[k - 1] as int][pushed[k] as int]
        < t[pushed[k - 1] as int][j as int] || (t[pushed[k - 1] as int][pushed[k] as int]
        == t[pushed[k - 1] as int][j as int] && pushed[k] <= j)) by {
        lemma_push_preserves_appears(tour, x, k, j);
        assert(!appears_before(tour, k, j));
    }
}

/// Build the nearest-neighbor tour over a square table of distance keys.
///
/// Returns the tour as a sequence of `n + 1` point indices together with
/// the `n` keys of the edges walked, in tour order: entry `k` of the key
/// list is the table entry for the edge from tour entry `k` to tour entry
/// `k + 1`.  The first `n` tour entries visit every index exactly once.
pub fn nearest_neighbor(keys: &Vec<Vec<u64>>) -> (res: (Vec<usize>, Vec<u64>))
    requires
        keys@.len() >= 1,
        square_table(key_table(keys@)),
    ensures
        is_nn_tour(key_table(keys@), res.0@),
        res.0@.len() == keys@.len() + 1,
        res.1@.len() == keys@.len(),
        forall|k: int|
            0 <= k < keys@.len() ==> res.1@[k] == key_table(keys@)[res.0@[k] as int][res.0@[k
                + 1] as int],
        forall|k1: int, k2: int|
            0 <= k1 < k2 < keys@.len() ==> res.0@[k1] != res.0@[k2],
        forall|i: usize| (i as int) < keys@.len() ==> appears_before(res.0@, keys@.len() as int, i),
{
    let ghost t = key_table(keys@);
    let n = keys.len();
    let mut visited: Vec<bool> = Vec::new();
    let mut fill: usize = 0;
    while fill < n
        invariant
            fill <= n,
            visited@.len() == fill,
            forall|j: int| 0 <= j < fill ==> !visited@[j],
        decreases n - fill,
    {
        visited.push(false);
        fill += 1;
    }
    let mut tour: Vec<usize> = Vec::new();
    let mut edge_keys: Vec<u64> = Vec::new();
    tour.push(0);
    visited[0] = true;
    assert(tour@[0] == 0usize);
    assert(appears_before(tour@, 1, 0usize));
    let mut step: usize = 1;
    while step < n
        invariant
            n == keys@.len(),
            n >= 1,
            t == key_table(keys@),
            square_table(t),
            visited@.len() == n,
            1 <= step <= n,
            tour@.len() == step,
            edge_keys@.len() == step - 1,
            tour@[0] == 0usize,
            forall|k: int| 0 <= k < step ==> (#[trigger] tour@[k] as int) < n,
            forall|j: usize|
                (j as int) < n ==> (visited@[j as int] <==> appears_before(
                    tour@,
                    step as int,
                    j,
                )),
            forall|k: int| 1 <= k < step ==> #[trigger] greedy_step(t, tour@, k),
            forall|k: int|
                0 <= k < step - 1 ==> edge_keys@[k] == t[tour@[k] as int][tour@[k + 1] as int],
        decreases n - step,
    {
        let cur = tour[step - 1];
        let row = &keys[cur];
        proof {
            assert(t[cur as int].len() == n);
            // some index is still unvisited: the first n entries so far
            // cannot cover all of 0..n, for there are only `step` of them
            assert(exists|j: int| 0 <= j < visited@.len() && !visited@[j]) by {
                lemma_short_prefix_misses_one(tour@, n as int);
                let j = choose|j: usize|
                    (j as int) < n && !appears_before(tour@, tour@.len() as int, j);
                assert(!visited@[j as int]);
            }
        }
        let m = select_nearest(row, &visited);
        let ghost old_tour = tour@;
        edge_keys.push(row[m]);
        tour.push(m);
        visited[m] = true;
        step += 1;
        proof {
            assert forall|k: int| 1 <= k < step implies #[trigger] greedy_step(t, tour@, k) by {
                if k < step - 1 {
                    lemma_push_preserves_greedy(t, old_tour, m, k);
                } else {
                    // the entry just appended is the greedy choice: the
                    // selection scanned exactly the unvisited indices
                    assert(tour@[k - 1] == cur);
                    assert(tour@[k] == m);
                    assert(!appears_before(old_tour, k, m));
                    lemma_push_preserves_appears(old_tour, m, k, m);
                    assert forall|j: usize|
                        (j as int) < t.len() && !appears_before(tour@, k, j) implies (t[cur as int][m as int]
                        < t[cur as int][j as int] || (t[cur as int][m as int]
                        == t[cur as int][j as int] && m <= j)) by {
                        lemma_push_preserves_appears(old_tour, m, k, j);
                        assert(!appears_before(old_tour, k, j));
                    }
                }
            }
            assert forall|j: usize|
                (j as int) < n implies (visited@[j as int] <==> appears_before(
                tour@,
                step as int,
                j,
            )) by {
                lemma_push_preserves_appears(old_tour, m, step - 1, j);
                if j == m {
                    assert(tour@[step - 1] == m);
                } else {
                    assert(appears_before(tour@, step as int, j) ==> appears_before(
                        tour@,
                        step - 1,
                        j,
                    ) || tour@[step - 1] == j) by {
                        if appears_before(tour@, step as int, j) {
                            let w = choose|w: int| 0 <= w < step && tour@[w] == j;
                            if w < step - 1 {
                                assert(appears_before(tour@, step - 1, j));
                            }
                        }
                    }
                }
            }
        }
    }
    let last = tour[n - 1];
    proof {
        assert((tour@[n - 1] as int) < n);
        assert(t[last as int] == keys@[last as int]@);
        assert(t[last as int].len() == n);
    }
    let closing = keys[last][0];
    edge_keys.push(closing);
    let ghost old_tour = tour@;
    tour.push(0);
    proof {
        assert forall|k: int| 1 <= k < n implies #[trigger] greedy_step(t, tour@, k) by {
            lemma_push_preserves_greedy(t, old_tour, 0usize, k);
        }
        assert(is_nn_tour(t, tour@));
        assert forall|k1: int, k2: int| 0 <= k1 < k2 < n implies tour@[k1] != tour@[k2] by {
            assert(greedy_step(t, old_tour, k2) || k2 == 0);
            if k2 >= 1 {
                assert(!appears_before(old_tour, k2, old_tour[k2]));
                assert(old_tour[k1] == old_tour[k2] ==> appears_before(
                    old_tour,
                    k2,
                    old_tour[k2],
                ));
            }
        }
        assert forall|i: usize| (i as int) < n implies appears_before(tour@, n as int, i) by {
            lemma_nn_prefix_covers(t, tour@);
        }
    }
    (tour, edge_keys)
}

/// Fewer tour entries than points leaves some index unseen.
proof fn lemma_short_prefix_misses_one(tour: Seq<usize>, n: int)
    requires
        tour.len() < n <= usize::MAX,
    ensures
        exists|j: usize| (j as int) < n && !appears_before(tour, tour.len() as int, j),
    decreases n,
{
    let k = tour.len() as int;
    let seen = Set::new(|j: usize| (j as int) < n && appears_before(tour, k, j));
    let all = Set::new(|j: usize| (j as int) < n);
    if forall|j: usize| (j as int) < n ==> #[trigger] appears_before(tour, k, j) {
        assert(all.subset_of(tour.take(k).to_set())) by {
            assert forall|j: usize| all.contains(j) implies tour.take(k).to_set().contains(
                j,
            ) by {
                assert(appears_before(tour, k, j));
                let m = choose|m: int| 0 <= m < k && tour[m] == j;
                assert(tour.take(k)[m] == j);
                assert(tour.take(k).contains(j));
            }
        }
        assert(all.len() > tour.take(k).to_set().len()) by {
            lemma_usize_range_len(n);
            tour.take(k).lemma_cardinality_of_set();
            vstd::seq_lib::seq_to_set_is_finite::<usize>(tour.take(k));
        }
        vstd::set_lib::lemma_len_subset(all, tour.take(k).to_set());
        assert(false);
    }
}

/// The set of indices below `n` has exactly `n` elements.
proof fn lemma_usize_range_len(n: int)
    requires
        0 <= n <= usize::MAX,
    ensures
        Set::new(|j: usize| (j as int) < n).finite(),
        Set::new(|j: usize| (j as int) < n).len() == n,
    decreases n,
{
    let all = Set::new(|j: usize| (j as int) < n);
    if n == 0 {
        assert(all =~= Set::empty());
    } else {
        lemma_usize_range_len(n - 1);
        let prev = Set::new(|j: usize| (j as int) < n - 1);
        assert(all =~= prev.insert((n - 1) as usize));
    }
}

/// A nearest-neighbor tour reaches every index among its first `n`
/// entries.
pub proof fn lemma_nn_prefix_covers(t: Seq<Seq<u64>>, tour: Seq<usize>)
    requires
        is_nn_tour(t, tour),
        1 <= t.len() <= usize::MAX,
    ensures
        forall|i: usize| (i as int) < t.len() ==> appears_before(tour, t.len() as int, i),
{
    let n = t.len() as int;
    assert forall|i: usize| (i as int) < n implies appears_before(tour, n, i) by {
        if !appears_before(tour, n, i) {
            lemma_nn_entries_in_range(t, tour);
            let front = tour.take(n);
            assert(front.no_duplicates()) by {
                assert forall|k1: int, k2: int|
                    0 <= k1 < front.len() && 0 <= k2 < front.len() && k1 != k2 implies front[k1]
                    != front[k2] by {
                    let lo = if k1 < k2 {
                        k1
                    } else {
                        k2
                    };
                    let hi = if k1 < k2 {
                        k2
                    } else {
                        k1
                    };
                    if hi >= 1 {
                        assert(greedy_step(t, tour, hi) || hi == 0);
                        assert(!appears_before(tour, hi, tour[hi]));
                        assert(tour[lo] == tour[hi] ==> appears_before(tour, hi, tour[hi]));
                    }
                }
            }
            front.unique_seq_to_set();
            let seen = front.to_set();
            let all = Set::new(|j: usize| (j as int) < n);
            assert(seen.subset_of(all)) by {
                assert forall|j: usize| seen.contains(j) implies all.contains(j) by {
                    let m = choose|m: int| 0 <= m < front.len() && front[m] == j;
                    assert(tour[m] == j);
                }
            }
            assert(!seen.contains(i)) by {
                if seen.contains(i) {
                    let m = choose|m: int| 0 <= m < front.len() && front[m] == i;
                    assert(appears_before(tour, n, i));
                }
            }
            lemma_usize_range_len(n);
            vstd::seq_lib::seq_to_set_is_finite::<usize>(front);
            vstd::set_lib::lemma_len_subset(seen.insert(i), all);
            assert(seen.insert(i).subset_of(all));
            assert(seen.insert(i).len() == n + 1);
            assert(false);
        }
    }
}

/// Every entry of a nearest-neighbor tour is an index below `n`.
proof fn lemma_nn_entries_in_range(t: Seq<Seq<u64>>, tour: Seq<usize>)
    requires
        is_nn_tour(t, tour),
        t.len() >= 1,
    ensures
        forall|k: int| 0 <= k < tour.len() ==> (#[trigger] tour[k] as int) < t.len(),
{
    let n = t.len() as int;
    assert forall|k: int| 0 <= k < tour.len() implies (#[trigger] tour[k] as int) < n by {
        if k == 0 || k == n {
            assert(tour[k] == 0usize);
        } else {
            assert(greedy_step(t, tour, k));
        }
    }
}

/// The nearest-neighbor tour over a given table is unique: its contract
/// pins the result, so two tours built from the same keys are identical.
pub proof fn lemma_nn_tour_unique(t: Seq<Seq<u64>>, a: Seq<usize>, b: Seq<usize>)
    requires
        is_nn_tour(t, a),
        is_nn_tour(t, b),
    ensures
        a == b,
{
    let n = t.len() as int;
    if n >= 1 {
        lemma_nn_prefix_eq(t, a, b, n);
    }
    assert(a =~= b);
}

/// The first `k` entries of any two nearest-neighbor tours over the same
/// table agree, because every greedy choice is forced.
proof fn lemma_nn_prefix_eq(t: Seq<Seq<u64>>, a: Seq<usize>, b: Seq<usize>, k: int)
    requires
        is_nn_tour(t, a),
        is_nn_tour(t, b),
        1 <= k <= t.len(),
    ensures
        forall|m: int| 0 <= m < k ==> a[m] == b[m],
    decreases k,
{
    let n = t.len() as int;
    if k > 1 {
        lemma_nn_prefix_eq(t, a, b, k - 1);
        assert(greedy_step(t, a, k - 1));
        assert(greedy_step(t, b, k - 1));
        assert forall|j: usize|
            #![trigger appears_before(a, k - 1, j)]
            #![trigger appears_before(b, k - 1, j)]
            appears_before(a, k - 1, j) == appears_before(b, k - 1, j) by {
            if appears_before(a, k - 1, j) {
                let m = choose|m: int| 0 <= m < k - 1 && a[m] == j;
                assert(b[m] == j);
            }
            if appears_before(b, k - 1, j) {
                let m = choose|m: int| 0 <= m < k - 1 && b[m] == j;
                assert(a[m] == j);
            }
        }
        let ca = a[k - 1];
        let cb = b[k - 1];
        let prev = a[k - 2] as int;
        assert(b[k - 2] as int == prev);
        if ca != cb {
            assert(!appears_before(a, k - 1, cb));
            assert(!appears_before(b, k - 1, ca));
            assert(t[prev][ca as int] < t[prev][cb as int] || (t[prev][ca as int]
                == t[prev][cb as int] && ca <= cb));
            assert(t[prev][cb as int] < t[prev][ca as int] || (t[prev][cb as int]
                == t[prev][ca as int] && cb <= ca));
            assert(false);
        }
    }
}

} // verus!
