//! Sparse Jacobian structure and column coloring tests.

use mercury::{color_columns, Sparsity};

fn transpose(inputs: usize, dependencies: &[Vec<usize>]) -> Vec<Vec<usize>> {
    let mut rows = vec![Vec::new(); inputs];
    for (row, columns) in dependencies.iter().enumerate() {
        for &column in columns {
            rows[column].push(row);
        }
    }
    rows
}

#[test]
fn greedy_coloring_reuses_colors_of_non_conflicting_columns() {
    let dependencies = vec![vec![0, 1], vec![1, 2], vec![3]];
    let rows = transpose(4, &dependencies);
    let colors = color_columns(4, &dependencies, &rows);
    assert_eq!(colors, vec![vec![0, 2, 3], vec![1]]);
}

#[test]
fn columns_without_rows_get_no_color() {
    let dependencies = vec![vec![2], vec![0, 2]];
    let rows = transpose(4, &dependencies);
    let colors = color_columns(4, &dependencies, &rows);
    assert_eq!(colors, vec![vec![0], vec![2]]);
    assert!(color_columns(3, &[], &transpose(3, &[])).is_empty());
}

#[test]
fn conflicting_columns_never_share_a_color() {
    let dependencies = vec![vec![0, 1, 4], vec![1, 2], vec![2, 3], vec![0, 3, 4]];
    let rows = transpose(5, &dependencies);
    let colors = color_columns(5, &dependencies, &rows);
    for class in &colors {
        for row in &dependencies {
            let shared = class.iter().filter(|column| row.contains(column)).count();
            assert!(shared <= 1);
        }
    }
    let mut colored: Vec<usize> = colors.concat();
    colored.sort_unstable();
    assert_eq!(colored, vec![0, 1, 2, 3, 4]);
}

#[test]
fn sparsity_stores_column_structure_and_colors() {
    let dependencies = vec![vec![0, 1], vec![1, 2], vec![3]];
    let sparsity = Sparsity::new(4, &dependencies);
    assert_eq!(sparsity.symbolic().nrows(), 3);
    assert_eq!(sparsity.symbolic().ncols(), 4);
    assert_eq!(sparsity.symbolic().col_ptr(), &[0, 1, 3, 4, 5]);
    assert_eq!(sparsity.symbolic().row_idx(), &[0, 0, 1, 1, 2]);
    assert_eq!(sparsity.colors(), &[vec![0, 2, 3], vec![1]]);
}

#[test]
fn a_full_row_gives_every_column_its_own_color() {
    let dependencies = vec![vec![1], vec![2, 0, 1]];
    let sparsity = Sparsity::new(3, &dependencies);
    assert_eq!(sparsity.colors(), &[vec![0], vec![1], vec![2]]);
    assert_eq!(sparsity.symbolic().col_ptr(), &[0, 1, 3, 4]);
    assert_eq!(sparsity.symbolic().row_idx(), &[1, 0, 1, 1]);
    let rows = transpose(3, &dependencies);
    assert_eq!(
        color_columns(3, &dependencies, &rows),
        vec![vec![0], vec![1], vec![2]]
    );
}

#[test]
fn empty_structures_have_no_entries() {
    let sparsity = Sparsity::new(2, &[]);
    assert_eq!(sparsity.symbolic().nrows(), 0);
    assert_eq!(sparsity.symbolic().ncols(), 2);
    assert_eq!(sparsity.symbolic().col_ptr(), &[0, 0, 0]);
    assert!(sparsity.symbolic().row_idx().is_empty());
    assert_eq!(sparsity.symbolic().col_nnz(), None);
    assert!(sparsity.colors().is_empty());
}

#[test]
fn only_listed_columns_are_colored() {
    // Row lists for the first two of four columns.
    let dependencies = vec![vec![0, 3], vec![1]];
    let rows = vec![vec![0], vec![1]];
    assert_eq!(color_columns(4, &dependencies, &rows), vec![vec![0, 1]]);
}
