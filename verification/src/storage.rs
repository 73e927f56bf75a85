//! The network's stored values as the epoch reads them: weights and bonds
//! as rows of `(uid, u16 proportion)` pairs, stake per uid, and the block at
//! which each uid was registered.

use crate::fixed::ONE;
use crate::sparse::{rows, unit_row, unit_sparse};
use crate::sums::proportions;
use crate::vector::{lemma_u16_proportion_unit, spec_u16_proportion_to_fixed, u16_proportion_to_fixed};
use vstd::prelude::*;

verus! {

/// The rows of a stored matrix, in the order the store hands them out:
/// `(uid_i, [(uid_j, proportion), ...])`.
pub type StoredRows = Vec<(u16, Vec<(u16, u16)>)>;

/// Stored `u16` proportions converted to fixed-point entries.
pub open spec fn converted(entries: Seq<(u16, u16)>) -> Seq<(u16, i64)> {
    Seq::new(
        entries.len(),
        |k: int| (entries[k].0, spec_u16_proportion_to_fixed(entries[k].1 as int) as i64),
    )
}

/// Row `i` of the sparse matrix read from the first `r` stored rows: the
/// converted entries of every stored row of uid `i`, in order.
pub open spec fn gathered_row(stored: Seq<(u16, Vec<(u16, u16)>)>, i: int, r: int) -> Seq<
    (u16, i64),
>
    decreases r,
{
    if r <= 0 {
        Seq::empty()
    } else {
        gathered_row(stored, i, r - 1) + (if stored[r - 1].0 as int == i {
            converted(stored[r - 1].1@)
        } else {
            Seq::empty()
        })
    }
}

/// The sparse matrix with `n` rows read from the stored rows.
pub open spec fn spec_sparse_from_store(stored: Seq<(u16, Vec<(u16, u16)>)>, n: int) -> Seq<
    Seq<(u16, i64)>,
> {
    Seq::new(n as nat, |i: int| gathered_row(stored, i, stored.len() as int))
}

/// The last proportion that a stored row gives for column `j`, if any.
pub open spec fn last_entry(entries: Seq<(u16, u16)>, j: int) -> Option<u16>
    decreases entries.len(),
{
    if entries.len() == 0 {
        None
    } else if entries.last().0 as int == j {
        Some(entries.last().1)
    } else {
        last_entry(entries.drop_last(), j)
    }
}

/// Entry `(i, j)` of the dense matrix read from the first `r` stored rows:
/// the last proportion stored for it, converted, or zero.
pub open spec fn dense_entry(stored: Seq<(u16, Vec<(u16, u16)>)>, i: int, j: int, r: int) -> int
    decreases r,
{
    if r <= 0 {
        0
    } else if stored[r - 1].0 as int == i && last_entry(stored[r - 1].1@, j) is Some {
        spec_u16_proportion_to_fixed(last_entry(stored[r - 1].1@, j)->0 as int)
    } else {
        dense_entry(stored, i, j, r - 1)
    }
}

/// The dense `n` by `n` matrix read from the stored rows.
pub open spec fn spec_dense_from_store(stored: Seq<(u16, Vec<(u16, u16)>)>, n: int) -> Seq<
    Seq<i64>,
> {
    Seq::new(
        n as nat,
        |i: int| Seq::new(n as nat, |j: int| dense_entry(stored, i, j, stored.len() as int) as i64),
    )
}

/// Stored rows as the network keeps them: each uid has at most one row,
/// the uid of every nonempty row is below `n`, and a row lists each column
/// below `n` at most once.
pub open spec fn stored_rows_wf(stored: Seq<(u16, Vec<(u16, u16)>)>, n: int) -> bool {
    &&& forall|a: int, b: int|
        0 <= a < b < stored.len() ==> #[trigger] stored[a].0 != #[trigger] stored[b].0
    &&& forall|a: int| 0 <= a < stored.len() && (#[trigger] stored[a]).1@.len() > 0 ==> stored[a].0 < n
    &&& forall|a: int, k: int|
        0 <= a < stored.len() && 0 <= k < stored[a].1@.len() ==> (
        #[trigger] stored[a].1@[k]).0 < n
    &&& forall|a: int, k1: int, k2: int|
        0 <= a < stored.len() && 0 <= k1 < k2 < stored[a].1@.len() ==> #[trigger] stored[a].1@[k1].0
            != #[trigger] stored[a].1@[k2].0
    &&& forall|a: int| 0 <= a < stored.len() ==> (#[trigger] stored[a]).1@.len() <= n
}

/// Every uid of a nonempty stored row is below `n`.
pub open spec fn stored_uids_below(stored: Seq<(u16, Vec<(u16, u16)>)>, n: int) -> bool {
    forall|a: int| 0 <= a < stored.len() && (#[trigger] stored[a]).1@.len() > 0 ==> stored[a].0 < n
}

/// Every uid of a nonempty stored row, and every column index, is below
/// `n`.
pub open spec fn stored_indices_below(stored: Seq<(u16, Vec<(u16, u16)>)>, n: int) -> bool {
    &&& stored_uids_below(stored, n)
    &&& forall|a: int, k: int|
        0 <= a < stored.len() && 0 <= k < stored[a].1@.len() ==> (
        #[trigger] stored[a].1@[k]).0 < n
}

pub proof fn lemma_gathered_row_none(stored: Seq<(u16, Vec<(u16, u16)>)>, i: int, r: int)
    requires
        0 <= r <= stored.len(),
        forall|a: int| 0 <= a < r ==> (#[trigger] stored[a]).0 as int != i,
    ensures
        gathered_row(stored, i, r) =~= Seq::<(u16, i64)>::empty(),
    decreases r,
{
    if r > 0 {
        lemma_gathered_row_none(stored, i, r - 1);
    }
}

/// Read from well-formed stored rows, each row is a unit row with at most
/// `n` entries.
pub proof fn lemma_gathered_row_unit(stored: Seq<(u16, Vec<(u16, u16)>)>, n: int, i: int, r: int)
    requires
        stored_rows_wf(stored, n),
        0 <= n,
        0 <= r <= stored.len(),
    ensures
        unit_row(gathered_row(stored, i, r), n),
        gathered_row(stored, i, r).len() <= n,
    decreases r,
{
    if r > 0 {
        let last = stored[r - 1];
        if last.0 as int == i {
            assert forall|a: int| 0 <= a < r - 1 implies (#[trigger] stored[a]).0 as int != i by {
                assert(stored[a].0 != stored[r - 1].0);
            }
            lemma_gathered_row_none(stored, i, r - 1);
            let c = converted(last.1@);
            assert(gathered_row(stored, i, r) =~= c);
            assert(stored[r - 1].1@.len() <= n);
            assert forall|k: int| 0 <= k < c.len() implies (#[trigger] c[k]).0 < n && 0 <= c[k].1
                <= ONE by {
                assert(stored[r - 1].1@[k].0 < n);
                lemma_u16_proportion_unit(last.1@[k].1 as int);
            }
            assert forall|x: int, y: int| 0 <= x < y < c.len() implies #[trigger] c[x].0
                != #[trigger] c[y].0 by {
                assert(stored[r - 1].1@[x].0 != stored[r - 1].1@[y].0);
            }
        } else {
            lemma_gathered_row_unit(stored, n, i, r - 1);
            assert(gathered_row(stored, i, r) =~= gathered_row(stored, i, r - 1));
        }
    }
}

/// The sparse matrix read from well-formed stored rows is a unit matrix.
pub proof fn lemma_sparse_from_store_unit(stored: Seq<(u16, Vec<(u16, u16)>)>, n: int)
    requires
        stored_rows_wf(stored, n),
        0 <= n,
    ensures
        unit_sparse(spec_sparse_from_store(stored, n), n),
        forall|i: int|
            0 <= i < n ==> (#[trigger] spec_sparse_from_store(stored, n)[i]).len() <= n,
{
    assert forall|i: int| 0 <= i < n implies unit_row(
        #[trigger] spec_sparse_from_store(stored, n)[i],
        n,
    ) && spec_sparse_from_store(stored, n)[i].len() <= n by {
        lemma_gathered_row_unit(stored, n, i, stored.len() as int);
    }
}

/// The sparse matrix with `n` rows read from stored rows: row `i` holds the
/// stored proportions of uid `i` as fixed-point numbers.
pub fn sparse_from_store(n: u16, stored: &StoredRows) -> (r: Vec<Vec<(u16, i64)>>)
    requires
        stored_uids_below(stored@, n as int),
    ensures
        rows(r@) == spec_sparse_from_store(stored@, n as int),
{
    let mut matrix: Vec<Vec<(u16, i64)>> = Vec::new();
    let mut c: usize = 0;
    while c < n as usize
        invariant
            0 <= c <= n,
            matrix@.len() == c,
            forall|x: int| 0 <= x < c ==> (#[trigger] matrix@[x])@ == Seq::<(u16, i64)>::empty(),
        decreases n - c,
    {
        matrix.push(Vec::new());
        c = c + 1;
    }
    let mut r: usize = 0;
    while r < stored.len()
        invariant
            0 <= r <= stored.len(),
            stored_uids_below(stored@, n as int),
            matrix@.len() == n,
            forall|x: int|
                0 <= x < n ==> (#[trigger] matrix@[x])@ == gathered_row(stored@, x, r as int),
        decreases stored.len() - r,
    {
        let uid_i = stored[r].0;
        let entries = &stored[r].1;
        if entries.len() > 0 {
            proof {
                assert(stored@[r as int].0 < n);
            }
            let ghost before = matrix@;
            let mut k: usize = 0;
            while k < entries.len()
                invariant
                    0 <= k <= entries.len(),
                    entries@ == stored@[r as int].1@,
                    uid_i == stored@[r as int].0,
                    uid_i < n,
                    matrix@.len() == n,
                    before.len() == n,
                    forall|x: int| 0 <= x < n && x != uid_i ==> #[trigger] matrix@[x] == before[x],
                    matrix@[uid_i as int]@ == before[uid_i as int]@ + converted(
                        entries@.take(k as int),
                    ),
                decreases entries.len() - k,
            {
                let (uid_j, w) = entries[k];
                let v = u16_proportion_to_fixed(w);
                matrix[uid_i as usize].push((uid_j, v));
                proof {
                    assert(converted(entries@.take(k as int + 1)) =~= converted(
                        entries@.take(k as int),
                    ).push((uid_j, v)));
                }
                k = k + 1;
            }
            proof {
                assert(entries@.take(entries@.len() as int) =~= entries@);
            }
        }
        proof {
            assert forall|x: int| 0 <= x < n implies (#[trigger] matrix@[x])@ == gathered_row(
                stored@,
                x,
                r as int + 1,
            ) by {
                if x == uid_i as int && entries@.len() > 0 {
                } else {
                    assert(gathered_row(stored@, x, r as int + 1) =~= gathered_row(
                        stored@,
                        x,
                        r as int,
                    ));
                }
            }
        }
        r = r + 1;
    }
    proof {
        assert(rows(matrix@) =~= spec_sparse_from_store(stored@, n as int));
    }
    matrix
}

/// Entry `(i, j)` of the dense matrix after the first `r` stored rows and
/// the first `k` entries of stored row `r`.
pub open spec fn dense_partial(
    stored: Seq<(u16, Vec<(u16, u16)>)>,
    i: int,
    j: int,
    r: int,
    k: int,
) -> int {
    if stored[r].0 as int == i && last_entry(stored[r].1@.take(k), j) is Some {
        spec_u16_proportion_to_fixed(last_entry(stored[r].1@.take(k), j)->0 as int)
    } else {
        dense_entry(stored, i, j, r)
    }
}

proof fn lemma_last_entry_take_step(entries: Seq<(u16, u16)>, j: int, k: int)
    requires
        0 <= k < entries.len(),
    ensures
        last_entry(entries.take(k + 1), j) == (if entries[k].0 as int == j {
            Some(entries[k].1)
        } else {
            last_entry(entries.take(k), j)
        }),
{
    assert(entries.take(k + 1).drop_last() =~= entries.take(k));
}

/// The dense `n` by `n` matrix read from stored rows: entry `(i, j)` holds
/// the last proportion stored for it as a fixed-point number, or zero.
pub fn dense_from_store(n: u16, stored: &StoredRows) -> (r: Vec<Vec<i64>>)
    requires
        stored_indices_below(stored@, n as int),
    ensures
        r@.len() == n,
        forall|i: int| 0 <= i < n ==> (#[trigger] r@[i])@ == spec_dense_from_store(stored@, n as int)[i],
{
    let mut matrix: Vec<Vec<i64>> = Vec::new();
    let mut c: usize = 0;
    while c < n as usize
        invariant
            0 <= c <= n,
            matrix@.len() == c,
            forall|x: int| 0 <= x < c ==> (#[trigger] matrix@[x])@.len() == n,
            forall|x: int, y: int| 0 <= x < c && 0 <= y < n ==> #[trigger] matrix@[x]@[y] == 0,
        decreases n - c,
    {
        let mut row: Vec<i64> = Vec::new();
        let mut d: usize = 0;
        while d < n as usize
            invariant
                0 <= d <= n,
                row@.len() == d,
                forall|y: int| 0 <= y < d ==> #[trigger] row@[y] == 0,
            decreases n - d,
        {
            row.push(0);
            d = d + 1;
        }
        matrix.push(row);
        c = c + 1;
    }
    let mut r: usize = 0;
    while r < stored.len()
        invariant
            0 <= r <= stored.len(),
            stored_indices_below(stored@, n as int),
            matrix@.len() == n,
            forall|x: int| 0 <= x < n ==> (#[trigger] matrix@[x])@.len() == n,
            forall|x: int, y: int|
                0 <= x < n && 0 <= y < n ==> #[trigger] matrix@[x]@[y] == dense_entry(
                    stored@,
                    x,
                    y,
                    r as int,
                ),
        decreases stored.len() - r,
    {
        let uid_i = stored[r].0;
        let entries = &stored[r].1;
        if entries.len() == 0 {
            proof {
                assert forall|x: int, y: int| 0 <= x < n && 0 <= y < n implies #[trigger] matrix@[x]@[y]
                    == dense_entry(stored@, x, y, r as int + 1) by {
                    assert(last_entry(stored@[r as int].1@, y) is None);
                }
            }
            r = r + 1;
            continue;
        }
        proof {
            assert(stored@[r as int].0 < n);
        }
        let mut k: usize = 0;
        while k < entries.len()
            invariant
                0 <= k <= entries.len(),
                0 <= r < stored.len(),
                entries@ == stored@[r as int].1@,
                uid_i == stored@[r as int].0,
                uid_i < n,
                stored_indices_below(stored@, n as int),
                matrix@.len() == n,
                forall|x: int| 0 <= x < n ==> (#[trigger] matrix@[x])@.len() == n,
                forall|x: int, y: int|
                    0 <= x < n && 0 <= y < n ==> #[trigger] matrix@[x]@[y] == dense_partial(
                        stored@,
                        x,
                        y,
                        r as int,
                        k as int,
                    ),
            decreases entries.len() - k,
        {
            let (uid_j, w) = entries[k];
            proof {
                assert(stored@[r as int].1@[k as int].0 < n);
            }
            let v = u16_proportion_to_fixed(w);
            let ghost before = matrix@;
            matrix[uid_i as usize].set(uid_j as usize, v);
            proof {
                assert forall|x: int, y: int| 0 <= x < n && 0 <= y < n implies #[trigger] matrix@[x]@[y]
                    == dense_partial(
                    stored@,
                    x,
                    y,
                    r as int,
                    k as int + 1,
                ) by {
                    lemma_last_entry_take_step(entries@, y, k as int);
                    if x != uid_i as int {
                        assert(matrix@[x] == before[x]);
                    }
                }
            }
            k = k + 1;
        }
        proof {
            assert(entries@.take(entries@.len() as int) =~= entries@);
        }
        r = r + 1;
    }
    proof {
        assert forall|i: int| 0 <= i < n implies (#[trigger] matrix@[i])@ == spec_dense_from_store(
            stored@,
            n as int,
        )[i] by {
            assert(matrix@[i]@ =~= spec_dense_from_store(stored@, n as int)[i]);
        }
    }
    matrix
}

proof fn lemma_dense_entry_unit(stored: Seq<(u16, Vec<(u16, u16)>)>, i: int, j: int, r: int)
    ensures
        0 <= dense_entry(stored, i, j, r) <= ONE,
    decreases r,
{
    if r > 0 {
        if stored[r - 1].0 as int == i && last_entry(stored[r - 1].1@, j) is Some {
            lemma_u16_proportion_unit(last_entry(stored[r - 1].1@, j)->0 as int);
        } else {
            lemma_dense_entry_unit(stored, i, j, r - 1);
        }
    }
}

/// The dense matrix read from stored rows is `n` by `n` with entries in
/// `[0, 1]`.
pub proof fn lemma_dense_from_store_unit(stored: Seq<(u16, Vec<(u16, u16)>)>, n: int)
    requires
        0 <= n,
    ensures
        spec_dense_from_store(stored, n).len() == n,
        crate::dense::rect(spec_dense_from_store(stored, n), n),
        crate::dense::unit_dense(spec_dense_from_store(stored, n)),
{
    let m = spec_dense_from_store(stored, n);
    assert forall|i: int, j: int| 0 <= i < m.len() && 0 <= j < m[i].len() implies 0
        <= #[trigger] m[i][j] <= ONE by {
        lemma_dense_entry_unit(stored, i, j, stored.len() as int);
    }
}

} // verus!
