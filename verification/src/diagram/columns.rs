//! Packs instructions into columns.
use vstd::prelude::*;

verus! {

/// Whether two inclusive ranges of rows share a row. A range may be empty.
pub open spec fn overlap(a: (usize, usize), b: (usize, usize)) -> bool {
    a.0 <= a.1 && b.0 <= b.1 && a.0 <= b.1 && b.0 <= a.1
}

/// The first column behind those of the ranges before `k` that overlap the
/// range at `i`.
pub open spec fn height(r: Seq<(usize, usize)>, i: nat, k: nat) -> nat
    decreases i, k,
{
    if k == 0 || k > i {
        0
    } else {
        let rest = height(r, i, (k - 1) as nat);
        let last = height(r, (k - 1) as nat, (k - 1) as nat) + 1;
        if overlap(r[k - 1], r[i as int]) && last > rest {
            last
        } else {
            rest
        }
    }
}

/// The column of the range at `i`: right behind the last column that holds an
/// earlier range that overlaps it.
pub open spec fn column(r: Seq<(usize, usize)>, i: nat) -> nat {
    height(r, i, i)
}

/// The columns of all ranges.
pub open spec fn columns(r: Seq<(usize, usize)>) -> Seq<nat> {
    Seq::new(r.len(), |i: int| column(r, i as nat))
}

proof fn lemma_height(r: Seq<(usize, usize)>, i: nat, k: nat)
    requires
        k <= i < r.len(),
    ensures
        forall|j: int|
            0 <= j < k && #[trigger] overlap(r[j], r[i as int]) ==> height(r, i, k) > column(
                r,
                j as nat,
            ),
        height(r, i, k) == 0 || exists|j: int|
            0 <= j < k && #[trigger] overlap(r[j], r[i as int]) && height(r, i, k) == column(
                r,
                j as nat,
            ) + 1,
    decreases k,
{
    if k > 0 {
        lemma_height(r, i, (k - 1) as nat);
        if overlap(r[k - 1], r[i as int]) {
            assert(height(r, i, k) > column(r, (k - 1) as nat));
        }
    }
}

/// Ranges that overlap never share a column, and keep their order.
pub proof fn lemma_columns_in_order(r: Seq<(usize, usize)>, i: nat, j: nat)
    requires
        i < j < r.len(),
        overlap(r[i as int], r[j as int]),
    ensures
        column(r, i) < column(r, j),
{
    lemma_height(r, j, j);
}

/// No other arrangement that keeps the order of overlapping ranges puts any
/// of them into an earlier column.
pub proof fn lemma_columns_least(r: Seq<(usize, usize)>, other: Seq<nat>, i: nat)
    requires
        i < r.len() == other.len(),
        forall|a: int, b: int|
            0 <= a < b < r.len() && overlap(#[trigger] r[a], #[trigger] r[b]) ==> other[a] < other[b],
    ensures
        column(r, i) <= other[i as int],
    decreases i,
{
    lemma_height(r, i, i);
    if column(r, i) > 0 {
        let j = choose|j: int|
            0 <= j < i && #[trigger] overlap(r[j], r[i as int]) && height(r, i, i) == column(
                r,
                j as nat,
            ) + 1;
        lemma_columns_least(r, other, j as nat);
        assert(overlap(r[j], r[i as int]));
    }
}

/// A range is in no later column than its place in the list.
pub proof fn lemma_column_bound(r: Seq<(usize, usize)>, i: nat)
    requires
        i < r.len(),
    ensures
        column(r, i) <= i,
{
    lemma_columns_least(r, Seq::new(r.len(), |k: int| k as nat), i);
}

/// The first column behind those of the ranges before `k` on a row.
spec fn top(r: Seq<(usize, usize)>, w: int, k: nat) -> nat
    decreases k,
{
    if k == 0 {
        0
    } else {
        let rest = top(r, w, (k - 1) as nat);
        let last = column(r, (k - 1) as nat) + 1;
        if r[k - 1].0 <= w <= r[k - 1].1 && last > rest {
            last
        } else {
            rest
        }
    }
}

proof fn lemma_top(r: Seq<(usize, usize)>, w: int, k: nat)
    requires
        k <= r.len(),
    ensures
        forall|j: int|
            0 <= j < k && (#[trigger] r[j]).0 <= w <= r[j].1 ==> top(r, w, k) > column(r, j as nat),
        top(r, w, k) == 0 || exists|j: int|
            0 <= j < k && (#[trigger] r[j]).0 <= w <= r[j].1 && top(r, w, k) == column(r, j as nat)
                + 1,
    decreases k,
{
    if k > 0 {
        lemma_top(r, w, (k - 1) as nat);
        assert(r[k - 1] == r[k - 1]);
    }
}

/// The largest first free column on the rows of a range is its column.
proof fn lemma_peak(r: Seq<(usize, usize)>, i: nat, col: nat)
    requires
        i < r.len(),
        forall|w: int| r[i as int].0 <= w <= r[i as int].1 ==> #[trigger] top(r, w, i) <= col,
        col == 0 || exists|w: int|
            r[i as int].0 <= w <= r[i as int].1 && #[trigger] top(r, w, i) == col,
    ensures
        col == column(r, i),
{
    lemma_height(r, i, i);
    if col > 0 {
        let w = choose|w: int|
            r[i as int].0 <= w <= r[i as int].1 && #[trigger] top(r, w, i) == col;
        lemma_top(r, w, i);
        let j = choose|j: int|
            0 <= j < i && (#[trigger] r[j]).0 <= w <= r[j].1 && top(r, w, i) == column(r, j as nat)
                + 1;
        assert(overlap(r[j], r[i as int]));
    }
    if column(r, i) > 0 {
        let j = choose|j: int|
            0 <= j < i && #[trigger] overlap(r[j], r[i as int]) && height(r, i, i) == column(
                r,
                j as nat,
            ) + 1;
        let w: int = if r[j].0 > r[i as int].0 {
            r[j].0 as int
        } else {
            r[i as int].0 as int
        };
        lemma_top(r, w, i);
        assert(top(r, w, i) > column(r, j as nat));
    }
}

/// Each range goes into the first column that no earlier range overlapping
/// it has reached.
pub fn pack(ranges: &Vec<(usize, usize)>, rows: usize) -> (r: Vec<usize>)
    requires
        forall|i: int|
            0 <= i < ranges.len() && (#[trigger] ranges@[i]).0 <= ranges@[i].1 ==> ranges@[i].1 < rows,
    ensures
        nats(r@) == columns(ranges@),
        r.len() == ranges.len(),
        forall|i: int| 0 <= i < r.len() ==> #[trigger] r@[i] <= i,
{
    let ghost r = ranges@;
    let mut free: Vec<usize> = Vec::new();
    while free.len() < rows
        invariant
            free.len() <= rows,
            forall|w: int| 0 <= w < free.len() ==> free@[w] == 0,
        decreases rows - free.len(),
    {
        free.push(0);
    }
    let mut cols: Vec<usize> = Vec::new();
    assert forall|w: int| 0 <= w < rows implies #[trigger] free@[w] == top(r, w, 0) by {}
    while cols.len() < ranges.len()
        invariant
            r == ranges@,
            free.len() == rows,
            cols.len() <= r.len(),
            forall|i: int|
                0 <= i < r.len() && (#[trigger] r[i]).0 <= r[i].1 ==> r[i].1 < rows,
            forall|w: int| 0 <= w < rows ==> #[trigger] free@[w] == top(r, w, cols@.len()),
            forall|i: int| 0 <= i < cols.len() ==> #[trigger] cols@[i] == column(r, i as nat),
        decreases ranges.len() - cols.len(),
    {
        let i: usize = cols.len();
        let (lo, hi) = ranges[i];
        let mut col: usize = 0;
        if lo <= hi {
            let mut w: usize = lo;
            while w <= hi
                invariant
                    r == ranges@,
                    i < r.len(),
                    (lo, hi) == r[i as int],
                    lo <= w <= hi + 1,
                    hi < rows,
                    free.len() == rows,
                    forall|x: int| 0 <= x < rows ==> #[trigger] free@[x] == top(r, x, i as nat),
                    forall|x: int| lo <= x < w ==> #[trigger] free@[x] <= col,
                    col == 0 || exists|x: int| lo <= x < w && #[trigger] free@[x] == col,
                decreases hi + 1 - w,
            {
                if free[w] > col {
                    col = free[w];
                    assert(free@[w as int] == col);
                }
                w = w + 1;
            }
            proof {
                assert forall|x: int| lo <= x <= hi implies #[trigger] top(r, x, i as nat) <= col by {
                    assert(free@[x] == top(r, x, i as nat));
                }
                if col != 0 {
                    let x = choose|x: int| lo <= x < w && #[trigger] free@[x] == col;
                    assert(top(r, x, i as nat) == col);
                }
            }
        }
        proof {
            lemma_peak(r, i as nat, col as nat);
            lemma_column_bound(r, i as nat);
        }
        let ghost before = free@;
        if lo <= hi {
            let mut w: usize = lo;
            while w <= hi
                invariant
                    lo <= w <= hi + 1,
                    hi < rows,
                    col <= i < cols.len() + 1 <= ranges.len(),
                    free.len() == rows == before.len(),
                    forall|x: int|
                        0 <= x < rows ==> #[trigger] free@[x] == (if lo <= x < w {
                            (col + 1) as usize
                        } else {
                            before[x]
                        }),
                decreases hi + 1 - w,
            {
                free.set(w, col + 1);
                w = w + 1;
            }
        }
        cols.push(col);
        proof {
            assert forall|w: int| 0 <= w < rows implies #[trigger] free@[w] == top(
                r,
                w,
                (i + 1) as nat,
            ) by {
                assert(before[w] == top(r, w, i as nat));
            }
        }
    }
    proof {
        assert(nats(cols@) =~= columns(r));
        assert forall|i: int| 0 <= i < cols.len() implies #[trigger] cols@[i] <= i by {
            lemma_column_bound(r, i as nat);
        }
    }
    cols
}

/// Machine numbers as natural ones.
pub open spec fn nats(cols: Seq<usize>) -> Seq<nat> {
    cols.map_values(|c: usize| c as nat)
}

/// The places before `k` in column `c`.
pub open spec fn members(cols: Seq<nat>, c: nat, k: nat) -> Seq<nat>
    decreases k,
{
    if k == 0 {
        Seq::empty()
    } else if cols[k - 1] == c {
        members(cols, c, (k - 1) as nat).push((k - 1) as nat)
    } else {
        members(cols, c, (k - 1) as nat)
    }
}

/// How many columns the first `k` places take.
pub open spec fn extent(cols: Seq<nat>, k: nat) -> nat
    decreases k,
{
    if k == 0 {
        0
    } else {
        let rest = extent(cols, (k - 1) as nat);
        if cols[k - 1] >= rest {
            cols[k - 1] + 1
        } else {
            rest
        }
    }
}

pub proof fn lemma_members(cols: Seq<nat>, c: nat, k: nat)
    requires
        k <= cols.len(),
    ensures
        forall|m: int|
            0 <= m < members(cols, c, k).len() ==> (#[trigger] members(cols, c, k)[m]) < k
                && cols[members(cols, c, k)[m] as int] == c,
    decreases k,
{
    if k > 0 {
        lemma_members(cols, c, (k - 1) as nat);
        let rest = members(cols, c, (k - 1) as nat);
        let all = members(cols, c, k);
        assert forall|m: int| 0 <= m < all.len() implies (#[trigger] all[m]) < k && cols[all[m] as int]
            == c by {
            if m < rest.len() {
                assert(all[m] == rest[m]);
            }
        }
    }
}

proof fn lemma_extent(cols: Seq<nat>, k: nat)
    requires
        k <= cols.len(),
    ensures
        forall|i: int| 0 <= i < k ==> (#[trigger] cols[i]) < extent(cols, k),
    decreases k,
{
    if k > 0 {
        lemma_extent(cols, (k - 1) as nat);
    }
}

/// The places in each column, in order.
pub fn group_by_column(cols: &Vec<usize>) -> (r: Vec<Vec<usize>>)
    requires
        forall|i: int| 0 <= i < cols.len() ==> #[trigger] cols@[i] < usize::MAX,
    ensures
        r.len() == extent(nats(cols@), cols@.len()),
        forall|c: int|
            0 <= c < r.len() ==> nats((#[trigger] r@[c])@) == members(
                nats(cols@),
                c as nat,
                cols@.len(),
            ),
{
    let ghost all = nats(cols@);
    let mut size: usize = 0;
    let mut i: usize = 0;
    while i < cols.len()
        invariant
            all == nats(cols@),
            forall|i: int| 0 <= i < cols.len() ==> #[trigger] cols@[i] < usize::MAX,
            i <= cols.len(),
            size == extent(all, i as nat),
        decreases cols.len() - i,
    {
        if cols[i] >= size {
            size = cols[i] + 1;
        }
        i = i + 1;
    }
    let mut groups: Vec<Vec<usize>> = Vec::new();
    while groups.len() < size
        invariant
            groups.len() <= size,
            forall|c: int| 0 <= c < groups.len() ==> (#[trigger] groups@[c])@ == Seq::<usize>::empty(),
        decreases size - groups.len(),
    {
        groups.push(Vec::new());
    }
    assert(nats(Seq::empty()) =~= Seq::empty());
    let mut k: usize = 0;
    while k < cols.len()
        invariant
            all == nats(cols@),
            k <= cols.len(),
            size == groups.len() == extent(all, all.len()),
            forall|c: int|
                0 <= c < groups.len() ==> nats((#[trigger] groups@[c])@) == members(
                    all,
                    c as nat,
                    k as nat,
                ),
        decreases cols.len() - k,
    {
        proof {
            lemma_extent(all, all.len());
            assert(all[k as int] == cols@[k as int]);
        }
        let c: usize = cols[k];
        let ghost before = groups@;
        groups[c].push(k);
        proof {
            assert(nats(before[c as int]@.push(k)) =~= nats(before[c as int]@).push(k as nat));
        }
        k = k + 1;
    }
    groups
}

} // verus!
