//! Structural column storage of a Jacobian and deterministic column coloring.

use vstd::prelude::*;

use faer::sparse::SymbolicSparseColMat;

use crate::deps::strictly_sorted;
use crate::order::{lemma_distinct_bounded, views};

verus! {

#[verifier::external_type_specification]
#[verifier::external_body]
#[verifier::reject_recursive_types(Inner)]
pub struct ExSymbolicSparseColMat<Inner>(
    faer::sparse::csc_symbolic::generic::SymbolicSparseColMat<Inner>,
);

#[verifier::external_type_specification]
#[verifier::external_body]
#[verifier::reject_recursive_types(I)]
#[verifier::reject_recursive_types(Rows)]
#[verifier::reject_recursive_types(Cols)]
pub struct ExSymbolicColumnsOwn<I, Rows, Cols>(faer::sparse::csc_symbolic::Own<I, Rows, Cols>);

/// Column offsets stored in a symbolic column-major matrix.
pub uninterp spec fn csc_col_ptr(matrix: SymbolicSparseColMat<usize>) -> Seq<usize>;

/// Row indices stored in a symbolic column-major matrix.
pub uninterp spec fn csc_row_idx(matrix: SymbolicSparseColMat<usize>) -> Seq<usize>;

/// `(rows, columns)` of a symbolic column-major matrix.
pub uninterp spec fn csc_shape(matrix: SymbolicSparseColMat<usize>) -> (usize, usize);

/// `(row, column)` positions stored in a symbolic column-major matrix: the
/// pairs `(row_idx[a], c)` with `col_ptr[c] <= a < col_ptr[c + 1]`.
pub open spec fn csc_entries(matrix: SymbolicSparseColMat<usize>) -> Set<(usize, usize)> {
    Set::new(
        |entry: (usize, usize)|
            entry.1 < csc_shape(matrix).1 && stored_in_column(
                csc_col_ptr(matrix),
                csc_row_idx(matrix),
                entry.1 as int,
                entry.0,
            ),
    )
}

/// Row lists of columns `0..c`, one after the other.
pub open spec fn flatten(rows: Seq<Seq<usize>>, c: int) -> Seq<usize>
    decreases c,
{
    if c <= 0 {
        Seq::empty()
    } else {
        flatten(rows, c - 1) + rows[c - 1]
    }
}

/// Row `r` appears among the row indices `row_idx[col_ptr[c]..col_ptr[c + 1]]`
/// of column `c`.
pub open spec fn stored_in_column(col_ptr: Seq<usize>, row_idx: Seq<usize>, c: int, r: usize) -> bool {
    exists|a: int| col_ptr[c] <= a < col_ptr[c + 1] && row_idx[a] == r
}

/// Builds faer's symbolic column-major structure with
/// `SymbolicSparseColMat::<usize>::new_checked`, without per-column counts.
///
/// faer's checks panic unless both dimensions fit an `isize`, `col_ptr`
/// holds `ncols + 1` nondecreasing offsets whose last one lies within
/// `row_idx`, and the row indices of every column increase strictly and stay
/// below `nrows`; those are the `requires`. The structure stores the given
/// dimensions, offsets and row indices as they are.
#[verifier::external_body]
fn symbolic_structure(nrows: usize, ncols: usize, col_ptr: Vec<usize>, row_idx: Vec<usize>) -> (matrix: SymbolicSparseColMat<usize>)
    requires
        nrows <= isize::MAX,
        ncols <= isize::MAX,
        col_ptr@.len() == ncols + 1,
        forall|j: int| 0 <= j < ncols ==> #[trigger] col_ptr@[j] <= col_ptr@[j + 1],
        col_ptr@[ncols as int] <= row_idx@.len(),
        forall|j: int, a: int, b: int|
            #![trigger col_ptr@[j], row_idx@[a], row_idx@[b]]
            0 <= j < ncols && col_ptr@[j] <= a < b < col_ptr@[j + 1] ==> row_idx@[a] < row_idx@[b],
        forall|j: int, a: int|
            #![trigger col_ptr@[j], row_idx@[a]]
            0 <= j < ncols && col_ptr@[j] <= a < col_ptr@[j + 1] ==> row_idx@[a] < nrows,
    ensures
        csc_shape(matrix).0 == nrows,
        csc_shape(matrix).1 == ncols,
        csc_col_ptr(matrix) == col_ptr@,
        csc_row_idx(matrix) == row_idx@,
{
    SymbolicSparseColMat::<usize>::new_checked(nrows, ncols, col_ptr, None, row_idx)
}

/// Row `rows[c][i]` of column `c` lists column `n`, for some `i < i_end`.
pub open spec fn reached(
    dependencies: Seq<Seq<usize>>,
    rows: Seq<Seq<usize>>,
    c: int,
    i_end: int,
    n: int,
) -> bool {
    exists|i: int, k: int|
        0 <= i < i_end && 0 <= k < dependencies[rows[c][i] as int].len()
            && #[trigger] dependencies[rows[c][i] as int][k] == n
}

/// Column `c` conflicts with column `n`: some row listed for `c` depends on `n`.
pub open spec fn adjacent(dependencies: Seq<Seq<usize>>, rows: Seq<Seq<usize>>, c: int, n: int) -> bool {
    reached(dependencies, rows, c, rows[c].len() as int, n)
}

/// Number of colors in use: one more than the largest assigned color.
pub open spec fn color_count(colors: Seq<Option<nat>>) -> nat
    decreases colors.len(),
{
    if colors.len() == 0 {
        0
    } else {
        let k = color_count(colors.drop_last());
        match colors.last() {
            Some(x) => if x + 1 > k {
                (x + 1) as nat
            } else {
                k
            },
            None => k,
        }
    }
}

/// Colors held by columns of `colors` that conflict with column `c`.
pub open spec fn neighbor_colors(
    dependencies: Seq<Seq<usize>>,
    rows: Seq<Seq<usize>>,
    colors: Seq<Option<nat>>,
    c: int,
) -> Set<nat> {
    Set::new(
        |x: nat|
            exists|n: int|
                0 <= n < colors.len() && colors[n] == Some(x) && #[trigger] adjacent(
                    dependencies,
                    rows,
                    c,
                    n,
                ),
    )
}

/// Smallest color from `x` on that `used` lacks, or `limit` when every color
/// of `x..limit` is used.
pub open spec fn first_free(used: Set<nat>, x: nat, limit: nat) -> nat
    decreases limit - x,
{
    if x >= limit {
        limit
    } else if !used.contains(x) {
        x
    } else {
        first_free(used, x + 1, limit)
    }
}

/// Greedy colors of columns `0..m`, in column order: a column without rows
/// gets none; any other column the smallest color held by no earlier column
/// it conflicts with, opening a new color when all are taken.
pub open spec fn greedy_colors(dependencies: Seq<Seq<usize>>, rows: Seq<Seq<usize>>, m: int) -> Seq<
    Option<nat>,
>
    decreases m,
{
    if m <= 0 {
        Seq::empty()
    } else {
        let prev = greedy_colors(dependencies, rows, m - 1);
        if rows[m - 1].len() == 0 {
            prev.push(None)
        } else {
            prev.push(
                Some(
                    first_free(
                        neighbor_colors(dependencies, rows, prev, m - 1),
                        0,
                        color_count(prev),
                    ),
                ),
            )
        }
    }
}

proof fn lemma_first_free_bounds(used: Set<nat>, x: nat, limit: nat)
    ensures
        x <= limit ==> x <= first_free(used, x, limit) <= limit,
        first_free(used, x, limit) == limit || !used.contains(first_free(used, x, limit)),
    decreases limit - x,
{
    if x < limit && used.contains(x) {
        lemma_first_free_bounds(used, x + 1, limit);
    }
}

proof fn lemma_first_free_is(used: Set<nat>, x: nat, limit: nat, p: nat)
    requires
        x <= p <= limit,
        forall|y: nat| x <= y < p ==> #[trigger] used.contains(y),
        p == limit || !used.contains(p),
    ensures
        first_free(used, x, limit) == p,
    decreases p - x,
{
    if x < p {
        lemma_first_free_is(used, x + 1, limit, p);
    }
}

proof fn lemma_color_count_bounds(colors: Seq<Option<nat>>)
    ensures
        forall|n: int, x: nat| 0 <= n < colors.len() && colors[n] == Some(x) ==> x < color_count(
            colors,
        ),
    decreases colors.len(),
{
    if colors.len() > 0 {
        lemma_color_count_bounds(colors.drop_last());
        assert forall|n: int, x: nat| 0 <= n < colors.len() && colors[n] == Some(x) implies x
            < color_count(colors) by {
            if n < colors.len() - 1 {
                assert(colors.drop_last()[n] == colors[n]);
            }
        }
    }
}

proof fn lemma_greedy_prefix(dependencies: Seq<Seq<usize>>, rows: Seq<Seq<usize>>, m: int, m2: int)
    requires
        0 <= m <= m2,
    ensures
        greedy_colors(dependencies, rows, m2).len() == m2,
        forall|n: int|
            0 <= n < m ==> #[trigger] greedy_colors(dependencies, rows, m2)[n] == greedy_colors(
                dependencies,
                rows,
                m,
            )[n],
    decreases m2,
{
    if m2 > 0 {
        if m < m2 {
            lemma_greedy_prefix(dependencies, rows, m, m2 - 1);
        } else {
            lemma_greedy_prefix(dependencies, rows, m2 - 1, m2 - 1);
        }
    }
}

proof fn lemma_first_free_below(used: Set<nat>, x: nat, limit: nat, y: nat)
    requires
        x <= y < first_free(used, x, limit),
    ensures
        used.contains(y),
    decreases limit - x,
{
    if x < limit && used.contains(x) && y > x {
        lemma_first_free_below(used, x + 1, limit, y);
    }
}

/// Greedy coloring is least-free: a column with rows gets a color that no
/// earlier column it conflicts with holds, and every smaller color is held by
/// some earlier column it conflicts with. A new color is thus opened only when
/// each color in use is taken by a conflicting earlier column.
pub proof fn lemma_greedy_color_is_least_free(
    dependencies: Seq<Seq<usize>>,
    rows: Seq<Seq<usize>>,
    m: int,
    c: int,
    y: nat,
)
    requires
        0 <= c < m,
        rows[c].len() > 0,
    ensures
        greedy_colors(dependencies, rows, m)[c] is Some,
        forall|n: int|
            0 <= n < c && adjacent(dependencies, rows, c, n) ==> #[trigger] greedy_colors(
                dependencies,
                rows,
                m,
            )[n] != greedy_colors(dependencies, rows, m)[c],
        y < greedy_colors(dependencies, rows, m)[c]->0 ==> exists|n: int|
            0 <= n < c && adjacent(dependencies, rows, c, n) && #[trigger] greedy_colors(
                dependencies,
                rows,
                m,
            )[n] == Some(y),
{
    let all = greedy_colors(dependencies, rows, m);
    let prev = greedy_colors(dependencies, rows, c);
    lemma_greedy_prefix(dependencies, rows, c + 1, m);
    lemma_greedy_prefix(dependencies, rows, c, c + 1);
    lemma_greedy_prefix(dependencies, rows, c, m);
    let used = neighbor_colors(dependencies, rows, prev, c);
    let limit = color_count(prev);
    let k = first_free(used, 0, limit);
    assert(greedy_colors(dependencies, rows, c + 1)[c] == Some(k));
    assert(all[c] == Some(k));
    lemma_first_free_bounds(used, 0, limit);
    lemma_color_count_bounds(prev);
    assert forall|n: int|
        0 <= n < c && adjacent(dependencies, rows, c, n) implies #[trigger] all[n] != all[c] by {
        assert(all[n] == prev[n]);
        if all[n] == all[c] {
            assert(used.contains(k));
        }
    }
    if y < k {
        lemma_first_free_below(used, 0, limit, y);
        let n = choose|n: int|
            0 <= n < prev.len() && prev[n] == Some(y) && #[trigger] adjacent(dependencies, rows, c, n);
        assert(all[n] == prev[n]);
    }
}

/// The color that greedy coloring gives column `column`, given the colors of
/// the columns before it and the number of colors in use.
fn pick_color(
    inputs: usize,
    dependencies: &[Vec<usize>],
    rows: &[Vec<usize>],
    column_colors: &Vec<Option<usize>>,
    count: usize,
    column: usize,
) -> (color: usize)
    requires
        rows@.len() <= inputs,
        forall|c: int, i: int|
            0 <= c < rows@.len() && 0 <= i < rows@[c]@.len() ==> #[trigger] rows@[c]@[i]
                < dependencies@.len(),
        forall|c: int, i: int, k: int|
            0 <= c < rows@.len() && 0 <= i < rows@[c]@.len() && 0 <= k
                < dependencies@[rows@[c]@[i] as int]@.len()
                ==> #[trigger] dependencies@[rows@[c]@[i] as int]@[k] < inputs,
        column < rows@.len(),
        column_colors@.len() == inputs,
        greedy_colors(views(dependencies@), views(rows@), column as int).len() == column,
        forall|n: int|
            0 <= n < inputs ==> match #[trigger] column_colors@[n] {
                Some(x) => n < column && greedy_colors(views(dependencies@), views(rows@), column as int)[n]
                    == Some(x as nat),
                None => n >= column || greedy_colors(views(dependencies@), views(rows@), column as int)[n]
                    == None::<nat>,
            },
        count == color_count(greedy_colors(views(dependencies@), views(rows@), column as int)),
    ensures
        color <= count,
        color == first_free(
            neighbor_colors(
                views(dependencies@),
                views(rows@),
                greedy_colors(views(dependencies@), views(rows@), column as int),
                column as int,
            ),
            0,
            count as nat,
        ),
{
    let ghost deps = views(dependencies@);
    let ghost rs = views(rows@);
    let ghost prev = greedy_colors(deps, rs, column as int);
    proof {
        lemma_color_count_bounds(prev);
    }
    let entries = &rows[column];
    assert(entries@ == rs[column as int]);
    let mut forbidden: Vec<bool> = Vec::with_capacity(count);
    let mut x: usize = 0;
    while x < count
        invariant
            x <= count,
            forbidden@.len() == x,
            forall|y: int| 0 <= y < x ==> !(#[trigger] forbidden@[y]),
        decreases count - x,
    {
        forbidden.push(false);
        x = x + 1;
    }
    let mut i: usize = 0;
    while i < entries.len()
        invariant
            deps == views(dependencies@),
            rs == views(rows@),
            entries@ == rs[column as int],
            rows@.len() <= inputs,
            column < rows@.len(),
            forall|c: int, i: int|
                0 <= c < rows@.len() && 0 <= i < rows@[c]@.len() ==> #[trigger] rows@[c]@[i]
                    < dependencies@.len(),
            forall|c: int, i: int, k: int|
                0 <= c < rows@.len() && 0 <= i < rows@[c]@.len() && 0 <= k
                    < dependencies@[rows@[c]@[i] as int]@.len()
                    ==> #[trigger] dependencies@[rows@[c]@[i] as int]@[k] < inputs,
            column_colors@.len() == inputs,
            prev.len() == column,
            forall|n: int|
                0 <= n < inputs ==> match #[trigger] column_colors@[n] {
                    Some(x) => n < column && prev[n] == Some(x as nat),
                    None => n >= column || prev[n] == None::<nat>,
                },
            forall|n: int, x: nat| 0 <= n < prev.len() && prev[n] == Some(x) ==> x < color_count(prev),
            count == color_count(prev),
            forbidden@.len() == count,
            i <= entries@.len(),
            forall|y: int|
                0 <= y < forbidden@.len() ==> (#[trigger] forbidden@[y] <==> exists|n: int|
                    0 <= n < inputs && column_colors@[n] == Some(y as usize) && reached(
                        deps,
                        rs,
                        column as int,
                        i as int,
                        n,
                    )),
        decreases entries@.len() - i,
    {
        let row = entries[i];
        let neighbors = &dependencies[row];
        assert(neighbors@ == deps[rs[column as int][i as int] as int]);
        let mut k: usize = 0;
        while k < neighbors.len()
            invariant
                deps == views(dependencies@),
                rs == views(rows@),
                entries@ == rs[column as int],
                column < rows@.len(),
                i < entries@.len(),
                row == entries@[i as int],
                neighbors@ == deps[row as int],
                forall|k: int| 0 <= k < neighbors@.len() ==> #[trigger] neighbors@[k] < inputs,
                column_colors@.len() == inputs,
                prev.len() == column,
                forall|n: int|
                    0 <= n < inputs ==> match #[trigger] column_colors@[n] {
                        Some(x) => n < column && prev[n] == Some(x as nat),
                        None => n >= column || prev[n] == None::<nat>,
                    },
                forall|n: int, x: nat|
                    0 <= n < prev.len() && prev[n] == Some(x) ==> x < color_count(prev),
                count == color_count(prev),
                forbidden@.len() == count,
                k <= neighbors@.len(),
                forall|y: int|
                    0 <= y < forbidden@.len() ==> (#[trigger] forbidden@[y] <==> exists|n: int|
                        0 <= n < inputs && column_colors@[n] == Some(y as usize) && (reached(
                            deps,
                            rs,
                            column as int,
                            i as int,
                            n,
                        ) || exists|k2: int| 0 <= k2 < k && neighbors@[k2] == n)),
            decreases neighbors@.len() - k,
        {
            let neighbor = neighbors[k];
            let ghost before = forbidden@;
            match column_colors[neighbor] {
                Some(color) => {
                    proof {
                        assert(prev[neighbor as int] == Some(color as nat));
                    }
                    forbidden.set(color, true);
                },
                None => {},
            }
            proof {
                let found = column_colors@[neighbor as int];
                assert forall|y: int| 0 <= y < forbidden@.len() implies (
                #[trigger] forbidden@[y] <==> exists|n: int|
                    0 <= n < inputs && column_colors@[n] == Some(y as usize) && (reached(
                        deps,
                        rs,
                        column as int,
                        i as int,
                        n,
                    ) || exists|k2: int| 0 <= k2 < k + 1 && neighbors@[k2] == n)) by {
                    if before[y] {
                        assert(forbidden@[y]);
                        let n = choose|n: int|
                            0 <= n < inputs && column_colors@[n] == Some(y as usize) && (reached(
                                deps,
                                rs,
                                column as int,
                                i as int,
                                n,
                            ) || exists|k2: int| 0 <= k2 < k && neighbors@[k2] == n);
                        if !reached(deps, rs, column as int, i as int, n) {
                            let k2 = choose|k2: int| 0 <= k2 < k && neighbors@[k2] == n;
                            assert(0 <= k2 < k + 1 && neighbors@[k2] == n);
                        }
                    } else if found == Some(y as usize) {
                        assert(forbidden@[y]);
                        assert(neighbors@[k as int] == neighbor);
                        assert(0 <= k < k + 1 && neighbors@[k as int] == neighbor as int);
                        assert(column_colors@[neighbor as int] == Some(y as usize));
                    } else {
                        assert(!forbidden@[y]);
                        if exists|n: int|
                            0 <= n < inputs && column_colors@[n] == Some(y as usize) && (reached(
                                deps,
                                rs,
                                column as int,
                                i as int,
                                n,
                            ) || exists|k2: int| 0 <= k2 < k + 1 && neighbors@[k2] == n) {
                            let n = choose|n: int|
                                0 <= n < inputs && column_colors@[n] == Some(y as usize) && (
                                reached(deps, rs, column as int, i as int, n) || exists|k2: int|
                                    0 <= k2 < k + 1 && neighbors@[k2] == n);
                            if !reached(deps, rs, column as int, i as int, n) {
                                let k2 = choose|k2: int| 0 <= k2 < k + 1 && neighbors@[k2] == n;
                                if k2 < k {
                                    assert(0 <= k2 < k && neighbors@[k2] == n);
                                    assert(before[y]);
                                } else {
                                    assert(n == neighbor);
                                }
                            } else {
                                assert(before[y]);
                            }
                        }
                    }
                }
            }
            k = k + 1;
        }
        proof {
            assert forall|y: int| 0 <= y < forbidden@.len() implies (#[trigger] forbidden@[y]
                <==> exists|n: int|
                0 <= n < inputs && column_colors@[n] == Some(y as usize) && reached(
                    deps,
                    rs,
                    column as int,
                    i as int + 1,
                    n,
                )) by {
                if forbidden@[y] {
                    let n = choose|n: int|
                        0 <= n < inputs && column_colors@[n] == Some(y as usize) && (reached(
                            deps,
                            rs,
                            column as int,
                            i as int,
                            n,
                        ) || exists|k2: int| 0 <= k2 < k && neighbors@[k2] == n);
                    if reached(deps, rs, column as int, i as int, n) {
                        let (i2, k2) = choose|i2: int, k2: int|
                            0 <= i2 < i && 0 <= k2 < deps[rs[column as int][i2] as int].len()
                                && #[trigger] deps[rs[column as int][i2] as int][k2] == n;
                        assert(reached(deps, rs, column as int, i as int + 1, n));
                    } else {
                        let k2 = choose|k2: int| 0 <= k2 < k && neighbors@[k2] == n;
                        assert(deps[rs[column as int][i as int] as int][k2] == n);
                        assert(reached(deps, rs, column as int, i as int + 1, n));
                    }
                }
                if exists|n: int|
                    0 <= n < inputs && column_colors@[n] == Some(y as usize) && reached(
                        deps,
                        rs,
                        column as int,
                        i as int + 1,
                        n,
                    ) {
                    let n = choose|n: int|
                        0 <= n < inputs && column_colors@[n] == Some(y as usize) && reached(
                            deps,
                            rs,
                            column as int,
                            i as int + 1,
                            n,
                        );
                    let (i2, k2) = choose|i2: int, k2: int|
                        0 <= i2 < i + 1 && 0 <= k2 < deps[rs[column as int][i2] as int].len()
                            && #[trigger] deps[rs[column as int][i2] as int][k2] == n;
                    if i2 < i {
                        assert(reached(deps, rs, column as int, i as int, n));
                    } else {
                        assert(neighbors@[k2] == n);
                    }
                }
            }
        }
        i = i + 1;
    }
    let ghost used = neighbor_colors(deps, rs, prev, column as int);
    proof {
        assert forall|y: int| 0 <= y < forbidden@.len() implies (#[trigger] forbidden@[y]
            <==> used.contains(y as nat)) by {
            if forbidden@[y] {
                let n = choose|n: int|
                    0 <= n < inputs && column_colors@[n] == Some(y as usize) && reached(
                        deps,
                        rs,
                        column as int,
                        entries@.len() as int,
                        n,
                    );
                assert(adjacent(deps, rs, column as int, n));
                assert(prev[n] == Some(y as nat));
            }
            if used.contains(y as nat) {
                let n = choose|n: int|
                    0 <= n < prev.len() && prev[n] == Some(y as nat) && #[trigger] adjacent(
                        deps,
                        rs,
                        column as int,
                        n,
                    );
                match column_colors@[n] {
                    Some(x) => {},
                    None => {},
                }
                assert(column_colors@[n] == Some(y as usize));
            }
        }
    }
    let mut color: usize = 0;
    while color < forbidden.len() && forbidden[color]
        invariant
            color <= forbidden@.len(),
            forall|y: int| 0 <= y < color ==> #[trigger] forbidden@[y],
        decreases forbidden@.len() - color,
    {
        color = color + 1;
    }
    proof {
        assert forall|y: nat| 0 <= y < color implies #[trigger] used.contains(y) by {
            assert(forbidden@[y as int]);
        }
        lemma_first_free_is(used, 0, count as nat, color as nat);
    }
    color
}

/// Colors columns so that columns sharing a row never share a color.
///
/// `rows[c]` lists the rows that depend on column `c`, for the first
/// `rows.len()` of the `inputs` columns, and `dependencies[r]` the columns
/// row `r` depends on. Columns are visited in order; a column without rows is left out, any other takes the smallest
/// color that no earlier conflicting column holds. Returns, per color, the
/// columns holding it in increasing order.
pub fn color_columns(inputs: usize, dependencies: &[Vec<usize>], rows: &[Vec<usize>]) -> (colors:
    Vec<Vec<usize>>)
    requires
        rows@.len() <= inputs,
        forall|c: int, i: int|
            0 <= c < rows@.len() && 0 <= i < rows@[c]@.len() ==> #[trigger] rows@[c]@[i]
                < dependencies@.len(),
        forall|c: int, i: int, k: int|
            0 <= c < rows@.len() && 0 <= i < rows@[c]@.len() && 0 <= k
                < dependencies@[rows@[c]@[i] as int]@.len()
                ==> #[trigger] dependencies@[rows@[c]@[i] as int]@[k] < inputs,
    ensures
        colors@.len() == color_count(
            greedy_colors(views(dependencies@), views(rows@), rows@.len() as int),
        ),
        forall|k: int|
            0 <= k < colors@.len() ==> strictly_sorted(#[trigger] colors@[k]@) && colors@[k]@.len()
                > 0,
        forall|k: int, c: usize|
            0 <= k < colors@.len() ==> (#[trigger] colors@[k]@.contains(c) <==> c < rows@.len()
                && greedy_colors(views(dependencies@), views(rows@), rows@.len() as int)[c as int]
                == Some(k as nat)),
{
    let ghost deps = views(dependencies@);
    let ghost rs = views(rows@);
    let mut column_colors: Vec<Option<usize>> = Vec::with_capacity(inputs);
    let mut t: usize = 0;
    while t < inputs
        invariant
            t <= inputs,
            column_colors@.len() == t,
            forall|n: int| 0 <= n < t ==> #[trigger] column_colors@[n] == None::<usize>,
        decreases inputs - t,
    {
        column_colors.push(None);
        t = t + 1;
    }
    let mut colors: Vec<Vec<usize>> = Vec::new();
    let mut column: usize = 0;
    while column < rows.len()
        invariant
            deps == views(dependencies@),
            rs == views(rows@),
            rows@.len() <= inputs,
            forall|c: int, i: int|
                0 <= c < rows@.len() && 0 <= i < rows@[c]@.len() ==> #[trigger] rows@[c]@[i]
                    < dependencies@.len(),
            forall|c: int, i: int, k: int|
                0 <= c < rows@.len() && 0 <= i < rows@[c]@.len() && 0 <= k
                    < dependencies@[rows@[c]@[i] as int]@.len()
                    ==> #[trigger] dependencies@[rows@[c]@[i] as int]@[k] < inputs,
            column <= rows@.len(),
            column_colors@.len() == inputs,
            greedy_colors(deps, rs, column as int).len() == column,
            forall|n: int|
                0 <= n < inputs ==> match #[trigger] column_colors@[n] {
                    Some(x) => n < column && greedy_colors(deps, rs, column as int)[n] == Some(
                        x as nat,
                    ),
                    None => n >= column || greedy_colors(deps, rs, column as int)[n] == None::<nat>,
                },
            colors@.len() == color_count(greedy_colors(deps, rs, column as int)),
            forall|k: int|
                0 <= k < colors@.len() ==> strictly_sorted(#[trigger] colors@[k]@)
                    && colors@[k]@.len() > 0,
            forall|k: int, c: usize|
                0 <= k < colors@.len() ==> (#[trigger] colors@[k]@.contains(c) <==> c < column
                    && greedy_colors(deps, rs, column as int)[c as int] == Some(k as nat)),
        decreases rows@.len() - column,
    {
        let ghost prev = greedy_colors(deps, rs, column as int);
        let ghost next = greedy_colors(deps, rs, column as int + 1);
        proof {
            lemma_greedy_prefix(deps, rs, column as int, column as int + 1);
            lemma_color_count_bounds(prev);
        }
        let entries = &rows[column];
        assert(entries@ == rs[column as int]);
        if entries.len() == 0 {
            assert(next == prev.push(None::<nat>));
            assert(next.drop_last() =~= prev);
            assert(color_count(next) == color_count(prev));
            proof {
                assert forall|n: int| 0 <= n < column implies #[trigger] next[n] == prev[n] by {}
                assert forall|k: int, c: usize| 0 <= k < colors@.len() implies (
                #[trigger] colors@[k]@.contains(c) <==> c < column + 1 && next[c as int] == Some(
                    k as nat,
                )) by {
                    if c < column {
                        assert(next[c as int] == prev[c as int]);
                    }
                }
            }
        } else {
            let color = pick_color(inputs, dependencies, rows, &column_colors, colors.len(), column);
            proof {
                assert(next[column as int] == Some(color as nat));
            }
            let ghost old_colors = colors@;
            if color == colors.len() {
                colors.push(Vec::new());
            }
            let mut class: Vec<usize> = Vec::new();
            colors.set_and_swap(color, &mut class);
            class.push(column);
            colors.set_and_swap(color, &mut class);
            column_colors.set(column, Some(color));
            proof {
                assert(next.drop_last() =~= prev);
                assert(color_count(next) == colors@.len());
                assert forall|n: int| 0 <= n < column implies #[trigger] next[n] == prev[n] by {}
                assert forall|n: int|
                    0 <= n < inputs implies match #[trigger] column_colors@[n] {
                    Some(x) => n < column + 1 && next[n] == Some(x as nat),
                    None => n >= column + 1 || next[n] == None::<nat>,
                } by {
                    if n < column {
                        assert(next[n] == prev[n]);
                    }
                }
                assert forall|k: int|
                    0 <= k < colors@.len() implies strictly_sorted(#[trigger] colors@[k]@)
                    && colors@[k]@.len() > 0 by {
                    if k == color {
                        let old_class = if color == old_colors.len() {
                            Seq::<usize>::empty()
                        } else {
                            old_colors[k]@
                        };
                        assert(colors@[k]@ =~= old_class.push(column));
                        if color < old_colors.len() {
                            assert forall|a: int| 0 <= a < old_colors[k]@.len() implies #[trigger] old_colors[k]@[a]
                                < column by {
                                assert(old_colors[k]@.contains(old_colors[k]@[a]));
                            }
                        }
                    } else {
                        assert(colors@[k] == old_colors[k]);
                    }
                }
                assert forall|k: int, c: usize| 0 <= k < colors@.len() implies (
                #[trigger] colors@[k]@.contains(c) <==> c < column + 1 && next[c as int] == Some(
                    k as nat,
                )) by {
                    if c < column {
                        assert(next[c as int] == prev[c as int]);
                    }
                    let old_class = if k == old_colors.len() {
                        Seq::<usize>::empty()
                    } else {
                        old_colors[k]@
                    };
                    if k < old_colors.len() {
                        assert(old_colors[k]@.contains(c) <==> c < column && prev[c as int] == Some(
                            k as nat,
                        ));
                    }
                    if k == color {
                        assert(colors@[k]@ =~= old_class.push(column));
                        if c == column {
                            assert(colors@[k]@[old_class.len() as int] == column);
                        }
                        if colors@[k]@.contains(c) && c != column {
                            let a = choose|a: int| 0 <= a < colors@[k]@.len() && colors@[k]@[a] == c;
                            assert(old_class[a] == c);
                            assert(old_colors[k]@.contains(c));
                        }
                        if c < column && prev[c as int] == Some(k as nat) {
                            assert(old_colors[k]@.contains(c));
                            let a = choose|a: int|
                                0 <= a < old_colors[k]@.len() && old_colors[k]@[a] == c;
                            assert(colors@[k]@[a] == c);
                        }
                    } else {
                        assert(colors@[k] == old_colors[k]);
                        if c == column {
                            assert(!old_colors[k]@.contains(c));
                        }
                    }
                }
            }
        }
        column = column + 1;
    }
    colors
}

/// Rows among `0..m` that depend on column `c`, in increasing order.
pub open spec fn rows_of(dependencies: Seq<Seq<usize>>, c: usize, m: int) -> Seq<usize>
    decreases m,
{
    if m <= 0 {
        Seq::empty()
    } else if dependencies[m - 1].contains(c) {
        rows_of(dependencies, c, m - 1).push((m - 1) as usize)
    } else {
        rows_of(dependencies, c, m - 1)
    }
}

/// For each of `inputs` columns, the rows that depend on it.
pub open spec fn column_rows(dependencies: Seq<Seq<usize>>, inputs: nat) -> Seq<Seq<usize>> {
    Seq::new(inputs, |c: int| rows_of(dependencies, c as usize, dependencies.len() as int))
}

/// Greedy colors of all columns of a dependency structure.
pub open spec fn structure_colors(dependencies: Seq<Seq<usize>>, inputs: nat) -> Seq<Option<nat>> {
    greedy_colors(dependencies, column_rows(dependencies, inputs), inputs as int)
}

/// Every row lists distinct columns below `inputs`.
pub open spec fn valid_dependencies(dependencies: Seq<Seq<usize>>, inputs: nat) -> bool {
    forall|r: int|
        0 <= r < dependencies.len() ==> (#[trigger] dependencies[r]).no_duplicates() && forall|
            k: int,
        | 0 <= k < dependencies[r].len() ==> #[trigger] dependencies[r][k] < inputs
}

/// Some row lists both columns `a` and `b`.
pub open spec fn share_row(dependencies: Seq<Seq<usize>>, a: usize, b: usize) -> bool {
    exists|r: int|
        0 <= r < dependencies.len() && #[trigger] dependencies[r].contains(a)
            && dependencies[r].contains(b)
}

proof fn lemma_rows_of(dependencies: Seq<Seq<usize>>, c: usize, m: int)
    requires
        0 <= m <= dependencies.len(),
        m <= usize::MAX + 1,
    ensures
        strictly_sorted(rows_of(dependencies, c, m)),
        forall|r: usize|
            #[trigger] rows_of(dependencies, c, m).contains(r) <==> r < m
                && dependencies[r as int].contains(c),
        forall|i: int|
            0 <= i < rows_of(dependencies, c, m).len() ==> #[trigger] rows_of(dependencies, c, m)[i]
                < m,
    decreases m,
{
    if m > 0 {
        lemma_rows_of(dependencies, c, m - 1);
        let prev = rows_of(dependencies, c, m - 1);
        if dependencies[m - 1].contains(c) {
            let next = prev.push((m - 1) as usize);
            assert forall|r: usize| #[trigger] next.contains(r) <==> r < m && dependencies[r as int].contains(c) by {
                if r == m - 1 {
                    assert(next[prev.len() as int] == r);
                }
                if next.contains(r) && r != m - 1 {
                    let i = choose|i: int| 0 <= i < next.len() && next[i] == r;
                    assert(prev[i] == r);
                }
                if prev.contains(r) {
                    let i = choose|i: int| 0 <= i < prev.len() && prev[i] == r;
                    assert(next[i] == r);
                }
            }
        }
    }
}

proof fn lemma_column_rows(dependencies: Seq<Seq<usize>>, inputs: nat)
    requires
        dependencies.len() <= usize::MAX,
    ensures
        column_rows(dependencies, inputs).len() == inputs,
        forall|c: int|
            0 <= c < inputs ==> strictly_sorted(#[trigger] column_rows(dependencies, inputs)[c]),
        forall|c: int, r: usize|
            0 <= c < inputs ==> (#[trigger] column_rows(dependencies, inputs)[c].contains(r) <==> r
                < dependencies.len() && dependencies[r as int].contains(c as usize)),
        forall|c: int, i: int|
            0 <= c < inputs && 0 <= i < column_rows(dependencies, inputs)[c].len()
                ==> #[trigger] column_rows(dependencies, inputs)[c][i] < dependencies.len(),
{
    assert forall|c: int| 0 <= c < inputs implies {
        &&& strictly_sorted(#[trigger] column_rows(dependencies, inputs)[c])
        &&& forall|r: usize|
            #[trigger] column_rows(dependencies, inputs)[c].contains(r) <==> r < dependencies.len()
                && dependencies[r as int].contains(c as usize)
        &&& forall|i: int|
            0 <= i < column_rows(dependencies, inputs)[c].len() ==> #[trigger] column_rows(
                dependencies,
                inputs,
            )[c][i] < dependencies.len()
    } by {
        lemma_rows_of(dependencies, c as usize, dependencies.len() as int);
    }
}

/// Under the row lists of a dependency structure, two columns conflict
/// exactly when some row lists both.
proof fn lemma_adjacent_shares_row(dependencies: Seq<Seq<usize>>, inputs: nat, c: int, n: int)
    requires
        dependencies.len() <= usize::MAX,
        0 <= c < inputs,
        0 <= n <= usize::MAX,
    ensures
        adjacent(dependencies, column_rows(dependencies, inputs), c, n) <==> share_row(
            dependencies,
            c as usize,
            n as usize,
        ),
{
    let rs = column_rows(dependencies, inputs);
    lemma_column_rows(dependencies, inputs);
    if adjacent(dependencies, rs, c, n) {
        let (i, k) = choose|i: int, k: int|
            0 <= i < rs[c].len() && 0 <= k < dependencies[rs[c][i] as int].len()
                && #[trigger] dependencies[rs[c][i] as int][k] == n;
        let r = rs[c][i];
        assert(rs[c].contains(r));
        assert(dependencies[r as int].contains(n as usize));
    }
    if share_row(dependencies, c as usize, n as usize) {
        let r = choose|r: int|
            0 <= r < dependencies.len() && #[trigger] dependencies[r].contains(c as usize)
                && dependencies[r].contains(n as usize);
        assert(rs[c].contains(r as usize));
        let i = choose|i: int| 0 <= i < rs[c].len() && rs[c][i] == r as usize;
        let k = choose|k: int| 0 <= k < dependencies[r].len() && dependencies[r][k] == n as usize;
        assert(dependencies[rs[c][i] as int][k] == n);
    }
}

/// Columns of one color never share a row: each color class can be probed
/// with a single seed.
pub proof fn lemma_coloring_separates_columns(
    dependencies: Seq<Seq<usize>>,
    inputs: nat,
    a: int,
    b: int,
)
    requires
        dependencies.len() <= usize::MAX,
        inputs <= usize::MAX,
        0 <= a < inputs,
        0 <= b < inputs,
        a != b,
        structure_colors(dependencies, inputs)[a] is Some,
        structure_colors(dependencies, inputs)[a] == structure_colors(dependencies, inputs)[b],
    ensures
        !share_row(dependencies, a as usize, b as usize),
{
    let rs = column_rows(dependencies, inputs);
    let (lo, hi) = if a < b {
        (a, b)
    } else {
        (b, a)
    };
    lemma_greedy_prefix(dependencies, rs, hi + 1, inputs as int);
    lemma_greedy_prefix(dependencies, rs, hi, hi + 1);
    lemma_greedy_prefix(dependencies, rs, hi, inputs as int);
    let prev = greedy_colors(dependencies, rs, hi);
    let x = structure_colors(dependencies, inputs)[lo]->0;
    assert(prev[lo] == Some(x));
    assert(rs[hi].len() != 0);
    let used = neighbor_colors(dependencies, rs, prev, hi);
    lemma_first_free_bounds(used, 0, color_count(prev));
    lemma_color_count_bounds(prev);
    if share_row(dependencies, a as usize, b as usize) {
        let r = choose|r: int|
            0 <= r < dependencies.len() && #[trigger] dependencies[r].contains(a as usize)
                && dependencies[r].contains(b as usize);
        assert(share_row(dependencies, hi as usize, lo as usize)) by {
            assert(dependencies[r].contains(hi as usize) && dependencies[r].contains(lo as usize));
        }
        lemma_adjacent_shares_row(dependencies, inputs, hi, lo);
        assert(used.contains(x));
        assert(greedy_colors(dependencies, rs, hi + 1)[hi] == Some(
            first_free(used, 0, color_count(prev)),
        ));
    }
}

/// The coloring of a dependency structure is least-free: a column's color is
/// held by no earlier column sharing a row with it, and every smaller color is
/// held by some earlier column sharing a row with it.
pub proof fn lemma_coloring_is_minimal(dependencies: Seq<Seq<usize>>, inputs: nat, c: int, y: nat)
    requires
        dependencies.len() <= usize::MAX,
        inputs <= usize::MAX,
        0 <= c < inputs,
        structure_colors(dependencies, inputs)[c] is Some,
    ensures
        forall|n: int|
            0 <= n < c && share_row(dependencies, c as usize, n as usize) ==> #[trigger] structure_colors(
                dependencies,
                inputs,
            )[n] != structure_colors(dependencies, inputs)[c],
        y < structure_colors(dependencies, inputs)[c]->0 ==> exists|n: int|
            0 <= n < c && share_row(dependencies, c as usize, n as usize)
                && #[trigger] structure_colors(dependencies, inputs)[n] == Some(y),
{
    let rs = column_rows(dependencies, inputs);
    let all = structure_colors(dependencies, inputs);
    lemma_coloring_covers_columns(dependencies, inputs, c);
    lemma_column_rows(dependencies, inputs);
    let r = choose|r: int| 0 <= r < dependencies.len() && #[trigger] dependencies[r].contains(c as usize);
    assert(rs[c].contains(r as usize));
    lemma_greedy_color_is_least_free(dependencies, rs, inputs as int, c, y);
    assert forall|n: int|
        0 <= n < c && share_row(dependencies, c as usize, n as usize) implies #[trigger] all[n]
        != all[c] by {
        lemma_adjacent_shares_row(dependencies, inputs, c, n);
    }
    if y < all[c]->0 {
        let n = choose|n: int|
            0 <= n < c && adjacent(dependencies, rs, c, n) && #[trigger] all[n] == Some(y);
        lemma_adjacent_shares_row(dependencies, inputs, c, n);
    }
}

/// A column receives a color exactly when some row depends on it.
pub proof fn lemma_coloring_covers_columns(dependencies: Seq<Seq<usize>>, inputs: nat, c: int)
    requires
        dependencies.len() <= usize::MAX,
        0 <= c < inputs,
    ensures
        structure_colors(dependencies, inputs)[c] is Some <==> exists|r: int|
            0 <= r < dependencies.len() && #[trigger] dependencies[r].contains(c as usize),
{
    let rs = column_rows(dependencies, inputs);
    lemma_greedy_prefix(dependencies, rs, c + 1, inputs as int);
    lemma_greedy_prefix(dependencies, rs, c, c + 1);
    lemma_column_rows(dependencies, inputs);
    if rs[c].len() > 0 {
        let r = rs[c][0];
        assert(rs[c].contains(r));
        assert(dependencies[r as int].contains(c as usize));
    }
    if exists|r: int| 0 <= r < dependencies.len() && #[trigger] dependencies[r].contains(c as usize) {
        let r = choose|r: int| 0 <= r < dependencies.len() && #[trigger] dependencies[r].contains(c as usize);
        assert(rs[c].contains(r as usize));
    }
}

proof fn lemma_full_row_prefix(dependencies: Seq<Seq<usize>>, inputs: nat, r: int, m: int)
    requires
        dependencies.len() <= usize::MAX,
        inputs <= usize::MAX,
        0 <= r < dependencies.len(),
        forall|c: int| 0 <= c < inputs ==> #[trigger] dependencies[r].contains(c as usize),
        0 <= m <= inputs,
    ensures
        greedy_colors(dependencies, column_rows(dependencies, inputs), m).len() == m,
        color_count(greedy_colors(dependencies, column_rows(dependencies, inputs), m)) == m,
        forall|c: int|
            0 <= c < m ==> #[trigger] greedy_colors(dependencies, column_rows(dependencies, inputs), m)[c]
                == Some(c as nat),
    decreases m,
{
    if m > 0 {
        let rs = column_rows(dependencies, inputs);
        lemma_full_row_prefix(dependencies, inputs, r, m - 1);
        lemma_column_rows(dependencies, inputs);
        let prev = greedy_colors(dependencies, rs, m - 1);
        let next = greedy_colors(dependencies, rs, m);
        assert(dependencies[r].contains((m - 1) as usize));
        assert(rs[m - 1].contains(r as usize));
        let row_list = rs[m - 1];
        let i = choose|i: int| 0 <= i < row_list.len() && row_list[i] == r as usize;
        let used = neighbor_colors(dependencies, rs, prev, m - 1);
        assert forall|y: nat| 0 <= y < m - 1 implies #[trigger] used.contains(y) by {
            assert(dependencies[r].contains(y as usize));
            let k = choose|k: int| 0 <= k < dependencies[r].len() && dependencies[r][k] == y as usize;
            assert(dependencies[rs[m - 1][i] as int][k] == y);
            assert(adjacent(dependencies, rs, m - 1, y as int));
            assert(prev[y as int] == Some(y));
        }
        lemma_first_free_is(used, 0, (m - 1) as nat, (m - 1) as nat);
        assert(next.drop_last() =~= prev);
        assert forall|c: int| 0 <= c < m implies #[trigger] next[c] == Some(c as nat) by {
            if c < m - 1 {
                assert(next[c] == prev[c]);
            }
        }
    }
}

/// When one row depends on every column, each column gets a color of its
/// own, equal to its index.
pub proof fn lemma_full_row_colors(dependencies: Seq<Seq<usize>>, inputs: nat, r: int)
    requires
        dependencies.len() <= usize::MAX,
        inputs <= usize::MAX,
        valid_dependencies(dependencies, inputs),
        0 <= r < dependencies.len(),
        dependencies[r].len() == inputs,
    ensures
        color_count(structure_colors(dependencies, inputs)) == inputs,
        forall|c: int| 0 <= c < inputs ==> #[trigger] structure_colors(dependencies, inputs)[c] == Some(c as nat),
{
    lemma_distinct_bounded(dependencies[r], inputs);
    lemma_full_row_prefix(dependencies, inputs, r, inputs as int);
}

/// Which outputs (rows) may depend on which inputs (columns), in faer's
/// symbolic column-major form, together with a column coloring in which no
/// two columns of one color share a row.
pub struct Sparsity {
    symbolic: SymbolicSparseColMat<usize>,
    colors: Vec<Vec<usize>>,
}

impl Sparsity {
    /// The symbolic column-major structure.
    pub closed spec fn structure(&self) -> SymbolicSparseColMat<usize> {
        self.symbolic
    }

    /// The color classes, each listing its columns in increasing order.
    pub closed spec fn classes(&self) -> Seq<Seq<usize>> {
        views(self.colors@)
    }

    /// Structure and coloring of `dependencies[r]`, the columns among
    /// `0..inputs` that row `r` depends on.
    ///
    /// When some row depends on every column, every column gets a color of
    /// its own directly; otherwise columns are colored greedily.
    #[verifier::rlimit(40)]
    #[verifier::spinoff_prover]
    pub fn new(inputs: usize, dependencies: &[Vec<usize>]) -> (sparsity: Self)
        requires
            inputs <= isize::MAX,
            dependencies@.len() <= isize::MAX,
            valid_dependencies(views(dependencies@), inputs as nat),
        ensures
            csc_shape(sparsity.structure()).0 == dependencies@.len(),
            csc_shape(sparsity.structure()).1 == inputs,
            csc_row_idx(sparsity.structure()) == flatten(
                column_rows(views(dependencies@), inputs as nat),
                inputs as int,
            ),
            csc_col_ptr(sparsity.structure()) == Seq::new(
                inputs as nat + 1,
                |c: int| flatten(column_rows(views(dependencies@), inputs as nat), c).len() as usize,
            ),
            forall|entry: (usize, usize)|
                #[trigger] csc_entries(sparsity.structure()).contains(entry) <==> entry.1 < inputs
                    && entry.0 < dependencies@.len() && dependencies@[entry.0 as int]@.contains(
                    entry.1,
                ),
            sparsity.classes().len() == color_count(
                structure_colors(views(dependencies@), inputs as nat),
            ),
            forall|k: int|
                0 <= k < sparsity.classes().len() ==> strictly_sorted(
                    #[trigger] sparsity.classes()[k],
                ) && sparsity.classes()[k].len() > 0,
            forall|k: int, c: usize|
                0 <= k < sparsity.classes().len() ==> (#[trigger] sparsity.classes()[k].contains(c)
                    <==> c < inputs && structure_colors(views(dependencies@), inputs as nat)[c as int]
                    == Some(k as nat)),
    {
        let ghost deps = views(dependencies@);
        let ghost rs = column_rows(deps, inputs as nat);
        proof {
            lemma_column_rows(deps, inputs as nat);
        }
        let mut rows: Vec<Vec<usize>> = Vec::with_capacity(inputs);
        let mut t: usize = 0;
        while t < inputs
            invariant
                t <= inputs,
                rows@.len() == t,
                forall|c: int| 0 <= c < t ==> (#[trigger] rows@[c])@ == Seq::<usize>::empty(),
            decreases inputs - t,
        {
            rows.push(Vec::new());
            t = t + 1;
        }
        let mut row: usize = 0;
        while row < dependencies.len()
            invariant
                deps == views(dependencies@),
                valid_dependencies(deps, inputs as nat),
                row <= dependencies@.len(),
                rows@.len() == inputs,
                forall|c: int| 0 <= c < inputs ==> (#[trigger] rows@[c])@ == rows_of(deps, c as usize, row as int),
            decreases dependencies@.len() - row,
        {
            let columns = &dependencies[row];
            assert(columns@ == deps[row as int]);
            let mut k: usize = 0;
            while k < columns.len()
                invariant
                    deps == views(dependencies@),
                    valid_dependencies(deps, inputs as nat),
                    row < dependencies@.len(),
                    columns@ == deps[row as int],
                    k <= columns@.len(),
                    rows@.len() == inputs,
                    forall|c: int|
                        0 <= c < inputs ==> (#[trigger] rows@[c])@ == if columns@.take(k as int).contains(
                            c as usize,
                        ) {
                            rows_of(deps, c as usize, row as int).push(row)
                        } else {
                            rows_of(deps, c as usize, row as int)
                        },
                decreases columns@.len() - k,
            {
                let column = columns[k];
                assert(column < inputs);
                let ghost before = rows@;
                proof {
                    if columns@.take(k as int).contains(column) {
                        let j = choose|j: int| 0 <= j < k && columns@.take(k as int)[j] == column;
                        assert(columns@[j] == columns@[k as int]);
                    }
                }
                let mut list: Vec<usize> = Vec::new();
                rows.set_and_swap(column, &mut list);
                list.push(row);
                rows.set_and_swap(column, &mut list);
                proof {
                    assert forall|c: int|
                        0 <= c < inputs implies (#[trigger] rows@[c])@ == if columns@.take(
                        k as int + 1,
                    ).contains(c as usize) {
                        rows_of(deps, c as usize, row as int).push(row)
                    } else {
                        rows_of(deps, c as usize, row as int)
                    } by {
                        let next = columns@.take(k as int + 1);
                        assert(next =~= columns@.take(k as int).push(column));
                        if c == column {
                            assert(next[k as int] == column);
                        } else {
                            assert(rows@[c] == before[c]);
                            if next.contains(c as usize) {
                                let j = choose|j: int| 0 <= j < next.len() && next[j] == c as usize;
                                assert(columns@.take(k as int)[j] == c as usize);
                            }
                            if columns@.take(k as int).contains(c as usize) {
                                let j = choose|j: int|
                                    0 <= j < k && columns@.take(k as int)[j] == c as usize;
                                assert(next[j] == c as usize);
                            }
                        }
                    }
                }
                k = k + 1;
            }
            assert(columns@.take(columns@.len() as int) =~= columns@);
            row = row + 1;
        }
        proof {
            assert forall|c: int| 0 <= c < inputs implies (#[trigger] rows@[c])@ == rs[c] by {}
            assert(views(rows@) =~= rs);
        }
        let mut full = false;
        let mut r: usize = 0;
        while r < dependencies.len()
            invariant
                deps == views(dependencies@),
                r <= dependencies@.len(),
                full ==> exists|q: int| 0 <= q < deps.len() && #[trigger] deps[q].len() == inputs,
            decreases dependencies@.len() - r,
        {
            if dependencies[r].len() == inputs {
                assert(deps[r as int].len() == inputs);
                full = true;
            }
            r = r + 1;
        }
        let colors = if full {
            let mut singles: Vec<Vec<usize>> = Vec::with_capacity(inputs);
            let mut c: usize = 0;
            while c < inputs
                invariant
                    c <= inputs,
                    singles@.len() == c,
                    forall|k: int| 0 <= k < c ==> (#[trigger] singles@[k])@ == seq![k as usize],
                decreases inputs - c,
            {
                singles.push(vec![c]);
                c = c + 1;
            }
            proof {
                let q = choose|q: int| 0 <= q < deps.len() && #[trigger] deps[q].len() == inputs;
                lemma_full_row_colors(deps, inputs as nat, q);
                assert forall|k: int, c: usize| 0 <= k < singles@.len() implies (
                #[trigger] singles@[k]@.contains(c) <==> c < inputs && structure_colors(
                    deps,
                    inputs as nat,
                )[c as int] == Some(k as nat)) by {
                    if c < inputs {
                        assert(structure_colors(deps, inputs as nat)[c as int] == Some(c as nat));
                    }
                    if singles@[k]@.contains(c) {
                        assert(singles@[k]@[0] == k);
                    }
                    if c == k {
                        assert(singles@[k]@[0] == c);
                    }
                }
                assert forall|k: int| 0 <= k < singles@.len() implies strictly_sorted(#[trigger] singles@[k]@) by {}
            }
            singles
        } else {
            proof {
                assert forall|c: int, i: int, k: int|
                    0 <= c < inputs && 0 <= i < rows@[c]@.len() && 0 <= k
                        < dependencies@[rows@[c]@[i] as int]@.len()
                        implies #[trigger] dependencies@[rows@[c]@[i] as int]@[k] < inputs by {
                    assert(rows@[c]@[i] < dependencies@.len());
                    assert(deps[rows@[c]@[i] as int][k] < inputs);
                }
            }
            color_columns(inputs, dependencies, rows.as_slice())
        };
        let mut pointers: Vec<usize> = Vec::with_capacity(inputs + 1);
        let mut indices: Vec<usize> = Vec::new();
        pointers.push(0);
        let mut c: usize = 0;
        while c < inputs
            invariant
                c <= inputs,
                rows@.len() == inputs,
                views(rows@) == rs,
                forall|j: int|
                    0 <= j < inputs ==> strictly_sorted(#[trigger] rs[j]) && forall|i: int|
                        0 <= i < rs[j].len() ==> #[trigger] rs[j][i] < dependencies@.len(),
                pointers@.len() == c + 1,
                pointers@[0] == 0,
                pointers@[c as int] == indices@.len(),
                forall|j: int| 0 <= j < c ==> #[trigger] pointers@[j] <= pointers@[j + 1],
                forall|j: int|
                    0 <= j < c ==> indices@.subrange(pointers@[j] as int, #[trigger] pointers@[j + 1] as int)
                        == rs[j],
                forall|j: int| 0 <= j <= c ==> #[trigger] pointers@[j] <= indices@.len(),
                indices@ == flatten(rs, c as int),
                forall|j: int| 0 <= j <= c ==> #[trigger] pointers@[j] == flatten(rs, j).len(),
            decreases inputs - c,
        {
            let entries = &rows[c];
            assert(entries@ == rs[c as int]);
            let ghost start = indices@.len();
            let ghost before = indices@;
            let mut i: usize = 0;
            while i < entries.len()
                invariant
                    i <= entries@.len(),
                    indices@.len() == start + i,
                    indices@.subrange(0, start as int) == before,
                    indices@.subrange(start as int, start + i) == entries@.subrange(0, i as int),
                decreases entries@.len() - i,
            {
                indices.push(entries[i]);
                assert(indices@.subrange(0, start as int) =~= before);
                assert(indices@.subrange(start as int, start + i + 1) =~= entries@.subrange(0, i as int + 1));
                i = i + 1;
            }
            assert(entries@.subrange(0, entries@.len() as int) =~= entries@);
            assert(indices@ =~= before + entries@) by {
                assert(indices@ =~= indices@.subrange(0, start as int) + indices@.subrange(
                    start as int,
                    indices@.len() as int,
                ));
            }
            pointers.push(indices.len());
            proof {
                assert forall|j: int|
                    0 <= j < c + 1 implies indices@.subrange(pointers@[j] as int, #[trigger] pointers@[j + 1] as int)
                    == rs[j] by {
                    if j < c {
                        assert(indices@.subrange(pointers@[j] as int, pointers@[j + 1] as int)
                            =~= before.subrange(pointers@[j] as int, pointers@[j + 1] as int));
                    }
                }
            }
            c = c + 1;
        }
        proof {
            assert forall|j: int, a: int, b: int|
                #![trigger pointers@[j], indices@[a], indices@[b]]
                0 <= j < inputs && pointers@[j] <= a < b < pointers@[j + 1] implies indices@[a]
                < indices@[b] by {
                let column = indices@.subrange(pointers@[j] as int, pointers@[j + 1] as int);
                assert(column[a - pointers@[j]] == indices@[a]);
                assert(column[b - pointers@[j]] == indices@[b]);
            }
            assert forall|j: int, a: int|
                #![trigger pointers@[j], indices@[a]]
                0 <= j < inputs && pointers@[j] <= a < pointers@[j + 1] implies indices@[a]
                < dependencies@.len() by {
                let column = indices@.subrange(pointers@[j] as int, pointers@[j + 1] as int);
                assert(column[a - pointers@[j]] == indices@[a]);
            }
        }
        let ghost pointer_view = pointers@;
        let ghost index_view = indices@;
        let symbolic = symbolic_structure(dependencies.len(), inputs, pointers, indices);
        proof {
            assert(pointer_view =~= Seq::new(
                inputs as nat + 1,
                |c: int| flatten(rs, c).len() as usize,
            ));
            assert forall|entry: (usize, usize)|
                #[trigger] csc_entries(symbolic).contains(entry) <==> entry.1 < inputs && entry.0
                    < dependencies@.len() && dependencies@[entry.0 as int]@.contains(entry.1) by {
                if entry.1 < inputs {
                    let j = entry.1 as int;
                    let column = index_view.subrange(pointer_view[j] as int, pointer_view[j + 1] as int);
                    assert(column == rs[j]);
                    if stored_in_column(pointer_view, index_view, j, entry.0) {
                        let a = choose|a: int|
                            pointer_view[j] <= a < pointer_view[j + 1] && index_view[a] == entry.0;
                        assert(column[a - pointer_view[j]] == entry.0);
                        assert(rs[j].contains(entry.0));
                    }
                    if entry.0 < dependencies@.len() && dependencies@[entry.0 as int]@.contains(entry.1) {
                        assert(deps[entry.0 as int].contains(entry.1));
                        assert(rs[j].contains(entry.0));
                        let b = choose|b: int| 0 <= b < rs[j].len() && rs[j][b] == entry.0;
                        assert(index_view[pointer_view[j] + b] == entry.0);
                    }
                }
            }
        }
        Sparsity { symbolic, colors }
    }

    /// The symbolic column-major structure.
    pub fn symbolic(&self) -> (symbolic: &SymbolicSparseColMat<usize>)
        ensures
            *symbolic == self.structure(),
    {
        &self.symbolic
    }

    /// The color classes, each listing its columns in increasing order.
    pub fn colors(&self) -> (colors: &[Vec<usize>])
        ensures
            views(colors@) == self.classes(),
    {
        self.colors.as_slice()
    }
}

} // verus!
