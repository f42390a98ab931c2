//! Checked sizes, shape checks and constructor errors.

use mercury::{
    check_batch, check_len, check_len_product, check_lstsq_shapes, check_square_system,
    checked_entries, implicit_shape, DenseSolve, Error, LinalgError, Shape,
};

#[test]
fn check_len_reports_both_lengths() {
    assert_eq!(check_len("point", 3, 3), Ok(()));
    assert_eq!(
        check_len("point", 2, 3),
        Err(Error::Dimension { buffer: "point", expected: 3, actual: 2 })
    );
}

#[test]
fn products_of_lengths_are_checked_for_overflow() {
    assert_eq!(check_len_product("Jacobian", 6, 2, 3), Ok(()));
    assert_eq!(
        check_len_product("Jacobian", 5, 2, 3),
        Err(Error::Dimension { buffer: "Jacobian", expected: 6, actual: 5 })
    );
    assert_eq!(
        check_len_product("Jacobian", 0, usize::MAX, 2),
        Err(Error::SizeOverflow)
    );
    assert_eq!(check_len_product("empty", 0, 0, usize::MAX), Ok(()));
}

#[test]
fn entry_counts_must_fit_one_allocation() {
    assert_eq!(checked_entries::<f64>(3, 4), Ok(12));
    assert_eq!(checked_entries::<f64>(usize::MAX, 2), Err(Error::SizeOverflow));
    assert_eq!(
        checked_entries::<f64>(usize::MAX / 4, 1),
        Err(Error::SizeOverflow)
    );
    assert_eq!(checked_entries::<u8>(usize::MAX / 4, 1), Ok(usize::MAX / 4));
}

#[test]
fn batches_check_seeds_before_outputs() {
    assert_eq!(check_batch("seeds", "products", 2, 3, 1, 6, 2), Ok(()));
    assert_eq!(
        check_batch("seeds", "products", 2, 3, 1, 5, 7),
        Err(Error::Dimension { buffer: "seeds", expected: 6, actual: 5 })
    );
    assert_eq!(
        check_batch("seeds", "products", 2, 3, 1, 6, 7),
        Err(Error::Dimension { buffer: "products", expected: 2, actual: 7 })
    );
    assert_eq!(
        check_batch("seeds", "products", usize::MAX, 2, 1, 0, 0),
        Err(Error::SizeOverflow)
    );
    assert_eq!(
        check_batch("seeds", "products", 2, 0, usize::MAX, 0, 0),
        Err(Error::SizeOverflow)
    );
}

#[test]
fn square_systems_and_least_squares_shapes_are_checked() {
    assert_eq!(check_square_system(3, 3, 3), Ok(3));
    assert_eq!(
        check_square_system(3, 2, 3),
        Err(LinalgError::DimensionMismatch { rows: 3, cols: 2 })
    );
    assert_eq!(
        check_square_system(3, 3, 4),
        Err(LinalgError::DimensionMismatch { rows: 4, cols: 1 })
    );
    assert_eq!(check_lstsq_shapes(4, 2, 4, 2, 4, 2), Ok((4, 2)));
    assert_eq!(
        check_lstsq_shapes(4, 2, 4, 3, 4, 2),
        Err(LinalgError::DimensionMismatch { rows: 4, cols: 3 })
    );
    assert_eq!(
        check_lstsq_shapes(4, 2, 4, 2, 5, 2),
        Err(LinalgError::DimensionMismatch { rows: 5, cols: 1 })
    );
    assert_eq!(
        check_lstsq_shapes(4, 2, 4, 2, 4, 1),
        Err(LinalgError::DimensionMismatch { rows: 1, cols: 1 })
    );
}

#[test]
fn dense_solves_need_positive_representable_dimensions() {
    assert_eq!(
        DenseSolve::new(0).err(),
        Some(Error::Domain("a solve needs at least one unknown"))
    );
    assert_eq!(DenseSolve::new(usize::MAX).err(), Some(Error::SizeOverflow));
    let solve = DenseSolve::new(3).unwrap();
    assert_eq!(solve.dimension(), 3);
    assert_eq!(solve.shape(), Shape { inputs: 12, outputs: 3 });
}

#[test]
fn implicit_solves_map_parameters_to_unknowns() {
    assert_eq!(
        implicit_shape(Shape { inputs: 5, outputs: 2 }, 2),
        Ok(Shape { inputs: 3, outputs: 2 })
    );
    let domain = Err(Error::Domain(
        "residual dimensions must describe R([z, q]) with one output per unknown",
    ));
    assert_eq!(implicit_shape(Shape { inputs: 5, outputs: 2 }, 0), domain);
    assert_eq!(implicit_shape(Shape { inputs: 5, outputs: 3 }, 2), domain);
    assert_eq!(implicit_shape(Shape { inputs: 1, outputs: 2 }, 2), domain);
}
