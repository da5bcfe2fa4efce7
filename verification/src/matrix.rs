//! Square grids of entries and the moves that do not compute with the
//! entries: dropping a row and a column, transposing, and the sign a
//! cofactor carries.
//!
//! A grid is a plain array of rows, `[[T; N]; N]`, for any copyable entry
//! type `T`. Nothing here adds or multiplies entries, so every contract is
//! an exact statement about which entry of the argument lands where. The
//! model of a grid is the sequence of its rows, each a sequence of entries.

use vstd::prelude::*;

verus! {

/// The rows of a grid as a sequence of sequences.
pub open spec fn grid<T, const N: usize>(m: [[T; N]; N]) -> Seq<Seq<T>> {
    Seq::new(N as nat, |i: int| m@[i]@)
}

/// `g` has `n` rows of `n` entries each.
pub open spec fn is_square<T>(g: Seq<Seq<T>>, n: nat) -> bool {
    &&& g.len() == n
    &&& forall|i: int| 0 <= i < n ==> (#[trigger] g[i]).len() == n
}

/// The index that a requested row or column actually denotes in a grid
/// whose last valid index is `last`: requests below zero denote the first
/// line, requests beyond the end denote the last.
pub open spec fn clamped(requested: int, last: int) -> int {
    if requested < 0 {
        0
    } else if requested > last {
        last
    } else {
        requested
    }
}

/// Where the `i`-th surviving line sat before the line `gap` was removed.
pub open spec fn before_removal(i: int, gap: int) -> int {
    if i < gap {
        i
    } else {
        i + 1
    }
}

/// `g` with row `row` struck out, and entry `col` struck out of every
/// remaining row.
pub open spec fn submatrix<T>(g: Seq<Seq<T>>, row: int, col: int) -> Seq<Seq<T>> {
    g.remove(row).map_values(|line: Seq<T>| line.remove(col))
}

/// `g` mirrored along its main diagonal: entry `(i, j)` of the result is
/// entry `(j, i)` of `g`.
pub open spec fn transposed<T>(g: Seq<Seq<T>>) -> Seq<Seq<T>> {
    Seq::new(g.len(), |i: int| Seq::new(g.len(), |j: int| g[j][i]))
}

/// `(-1)` raised to `row + col`: `1` where the sum is even, `-1` where it
/// is odd.
pub open spec fn alternating_sign(row: int, col: int) -> int {
    if (row + col) % 2 == 0 {
        1
    } else {
        -1
    }
}


/// Striking a line out of a square grid leaves a square grid one smaller,
/// and each entry that stays is found in `g` by stepping over the
/// struck-out row and column.
pub proof fn lemma_submatrix_entries<T>(g: Seq<Seq<T>>, n: nat, row: int, col: int)
    requires
        is_square(g, n),
        0 <= row < n,
        0 <= col < n,
    ensures
        is_square(submatrix(g, row, col), (n - 1) as nat),
        forall|i: int, j: int|
            0 <= i < n - 1 && 0 <= j < n - 1 ==> #[trigger] submatrix(g, row, col)[i][j]
                == g[before_removal(i, row)][before_removal(j, col)],
{
    let s = submatrix(g, row, col);
    assert forall|i: int| 0 <= i < n - 1 implies (#[trigger] s[i]).len() == n - 1 by {
        assert(g.remove(row)[i] == g[before_removal(i, row)]);
    }
    assert forall|i: int, j: int| 0 <= i < n - 1 && 0 <= j < n - 1 implies #[trigger] s[i][j]
        == g[before_removal(i, row)][before_removal(j, col)] by {
        assert(g.remove(row)[i] == g[before_removal(i, row)]);
    }
}

/// Transposing a square grid twice gives the grid back.
pub proof fn lemma_transposed_twice<T>(g: Seq<Seq<T>>, n: nat)
    requires
        is_square(g, n),
    ensures
        transposed(transposed(g)) == g,
{
    assert(transposed(transposed(g)) =~~= g);
}

/// Striking out row `row` and column `col` of the transpose is the same as
/// striking out row `col` and column `row` of the grid itself and
/// transposing what is left.
pub proof fn lemma_submatrix_of_transposed<T>(g: Seq<Seq<T>>, n: nat, row: int, col: int)
    requires
        is_square(g, n),
        0 <= row < n,
        0 <= col < n,
    ensures
        submatrix(transposed(g), row, col) == transposed(submatrix(g, col, row)),
{
    let t = transposed(g);
    assert(is_square(t, n));
    lemma_submatrix_entries(t, n, row, col);
    lemma_submatrix_entries(g, n, col, row);
    let a = submatrix(t, row, col);
    let b = transposed(submatrix(g, col, row));
    assert(a.len() == b.len());
    assert forall|i: int| 0 <= i < a.len() implies #[trigger] a[i] =~= b[i] by {
        assert forall|j: int| 0 <= j < n - 1 implies a[i][j] == b[i][j] by {
            assert(a[i][j] == t[before_removal(i, row)][before_removal(j, col)]);
            assert(submatrix(g, col, row)[j][i] == g[before_removal(j, col)][before_removal(
                i,
                row,
            )]);
        }
    }
    assert(a =~= b);
}

/// The cofactor signs form a checkerboard: the sign at `(row, col)` is the
/// sign at `(col, row)`, and it flips with every step along a row or a
/// column.
pub proof fn lemma_alternating_sign(row: int, col: int)
    ensures
        alternating_sign(row, col) == alternating_sign(col, row),
        alternating_sign(row + 1, col) == -alternating_sign(row, col),
        alternating_sign(row, col + 1) == -alternating_sign(row, col),
        alternating_sign(0, 0) == 1,
{
}

/// The vector `v` without the element at `idx`; what came after it moves
/// up by one place.
pub fn remove_idx<T: Clone>(v: Vec<T>, idx: usize) -> (r: Vec<T>)
    requires
        idx < v@.len(),
    ensures
        r@ == v@.remove(idx as int),
{
    let mut v = v;
    v.remove(idx);
    v
}

/// The sign of the cofactor at `(row, col)`, as `1` or `-1`. The indices
/// are taken as given, also where they lie outside the grid.
pub fn cofactor_sign(row: i32, col: i32) -> (s: i32)
    ensures
        s == alternating_sign(row as int, col as int),
{
    let sum: i64 = row as i64 + col as i64;
    if sum % 2 == 0 {
        1
    } else {
        -1
    }
}

/// The clamped index as a machine integer.
fn clamp_index(requested: i32, last: usize) -> (r: usize)
    requires
        last <= 3,
    ensures
        r as int == clamped(requested as int, last as int),
{
    if requested < 0 {
        0
    } else if requested as i64 > last as i64 {
        last
    } else {
        requested as usize
    }
}

/// The entries of an array, in order, as a vector.
fn line_of<T: Copy, const N: usize>(a: &[T; N]) -> (v: Vec<T>)
    ensures
        v@ == a@,
{
    let mut v: Vec<T> = Vec::new();
    let mut k: usize = 0;
    while k < N
        invariant
            k <= N,
            v@ == a@.take(k as int),
        decreases N - k,
    {
        v.push(a[k]);
        k += 1;
    }
    v
}

/// Operations on 2x2 grids. A 2x2 grid is where striking out lines ends:
/// what is left of it is a single entry.
pub struct M2 {}

/// Operations on 3x3 grids.
pub struct M3 {}

impl M3 {
    /// The 2x2 grid left when row `row` and column `col` of `m` are struck
    /// out. An index outside `0..=2` is taken as the nearest valid one.
    pub fn sub<T: Copy>(m: [[T; 3]; 3], row: i32, col: i32) -> (r: [[T; 2]; 2])
        ensures
            grid(r) == submatrix(grid(m), clamped(row as int, 2), clamped(col as int, 2)),
    {
        let row_i = clamp_index(row, 2);
        let col_j = clamp_index(col, 2);
        let rows = remove_idx(line_of(&m), row_i);
        let r0 = remove_idx(line_of(&rows[0]), col_j);
        let r1 = remove_idx(line_of(&rows[1]), col_j);
        let r = [[r0[0], r0[1]], [r1[0], r1[1]]];
        assert(grid(r) =~~= submatrix(grid(m), row_i as int, col_j as int));
        r
    }
}

/// Operations on 4x4 grids.
pub struct M4 {}

impl M4 {
    /// The transpose of `m`.
    pub fn t<T: Copy>(m: [[T; 4]; 4]) -> (r: [[T; 4]; 4])
        ensures
            grid(r) == transposed(grid(m)),
    {
        let r = [
            [m[0][0], m[1][0], m[2][0], m[3][0]],
            [m[0][1], m[1][1], m[2][1], m[3][1]],
            [m[0][2], m[1][2], m[2][2], m[3][2]],
            [m[0][3], m[1][3], m[2][3], m[3][3]],
        ];
        assert(grid(r) =~~= transposed(grid(m)));
        r
    }

    /// The 3x3 grid left when row `row` and column `col` of `m` are struck
    /// out. An index outside `0..=3` is taken as the nearest valid one.
    pub fn sub<T: Copy>(m: [[T; 4]; 4], row: i32, col: i32) -> (r: [[T; 3]; 3])
        ensures
            grid(r) == submatrix(grid(m), clamped(row as int, 3), clamped(col as int, 3)),
    {
        let row_i = clamp_index(row, 3);
        let col_j = clamp_index(col, 3);
        let rows = remove_idx(line_of(&m), row_i);
        let r0 = remove_idx(line_of(&rows[0]), col_j);
        let r1 = remove_idx(line_of(&rows[1]), col_j);
        let r2 = remove_idx(line_of(&rows[2]), col_j);
        let r = [[r0[0], r0[1], r0[2]], [r1[0], r1[1], r1[2]], [r2[0], r2[1], r2[2]]];
        assert(grid(r) =~~= submatrix(grid(m), row_i as int, col_j as int));
        r
    }
}

} // verus!
