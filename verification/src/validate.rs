use vstd::prelude::*;
use crate::error::MathError;
use crate::text::{decimal, decimal_string, push_decimal};

verus! {

/// `"<a>x<b>"`, the text of a shape.
pub open spec fn shape_text(rows: nat, cols: nat) -> Seq<char> {
    decimal(rows) + seq!['x'] + decimal(cols)
}

/// The error is a dimension mismatch with exactly these two texts.
pub open spec fn is_dimension_mismatch(e: MathError, expected: Seq<char>, found: Seq<char>) -> bool {
    match e {
        MathError::DimensionMismatch { expected: x, found: y } => x@ == expected && y@ == found,
        _ => false,
    }
}

/// The error is an invalid-input error with this context and message.
pub open spec fn is_invalid_input(e: MathError, context: Seq<char>, message: Seq<char>) -> bool {
    match e {
        MathError::InvalidInput { context: c, message: m } => c@ == context && m@ == message,
        _ => false,
    }
}

/// The error is an empty-input error with this context.
pub open spec fn is_empty_input(e: MathError, context: Seq<char>) -> bool {
    match e {
        MathError::EmptyInput { context: c } => c@ == context,
        _ => false,
    }
}

/// Fails with `EmptyInput` exactly when `values` is empty.
pub fn ensure_non_empty<T>(values: &[T], context: &'static str) -> (r: Result<(), MathError>)
    ensures
        r is Ok <==> values@.len() > 0,
        r matches Err(e) ==> is_empty_input(e, context@),
{
    if values.len() == 0 {
        return Err(MathError::EmptyInput { context });
    }
    Ok(())
}

/// Fails with a dimension mismatch exactly when the two slices differ in length.
pub fn ensure_same_len<T, U>(left: &[T], right: &[U], context: &'static str) -> (r: Result<(), MathError>)
    ensures
        r is Ok <==> left@.len() == right@.len(),
        r matches Err(e) ==> is_dimension_mismatch(
            e,
            "matching lengths in "@ + context@,
            decimal(left@.len()) + " vs "@ + decimal(right@.len()),
        ),
{
    if left.len() != right.len() {
        let mut expected = String::from_str("matching lengths in ");
        expected.append(context);
        let mut found = decimal_string(left.len());
        found.append(" vs ");
        push_decimal(&mut found, right.len());
        return Err(MathError::DimensionMismatch { expected, found });
    }
    Ok(())
}

/// Fails with a dimension mismatch exactly when `candidate` has a different
/// length from `reference`, reporting `"<n> values in <context>"` against
/// `"<m> values"`.
pub fn ensure_same_dimension<T>(reference: &[T], candidate: &[T], context: &'static str) -> (r: Result<(), MathError>)
    ensures
        r is Ok <==> reference@.len() == candidate@.len(),
        r matches Err(e) ==> is_dimension_mismatch(
            e,
            decimal(reference@.len()) + " values in "@ + context@,
            decimal(candidate@.len()) + " values"@,
        ),
{
    if reference.len() != candidate.len() {
        let mut expected = decimal_string(reference.len());
        expected.append(" values in ");
        expected.append(context);
        let mut found = decimal_string(candidate.len());
        found.append(" values");
        return Err(MathError::DimensionMismatch { expected, found });
    }
    Ok(())
}

/// Appends `"<rows>x<cols>"`.
fn push_shape(s: &mut String, rows: usize, cols: usize)
    ensures
        final(s)@ == old(s)@ + shape_text(rows as nat, cols as nat),
{
    push_decimal(s, rows);
    s.append("x");
    push_decimal(s, cols);
    proof {
        reveal_strlit("x");
    }
    assert(final(s)@ =~= old(s)@ + shape_text(rows as nat, cols as nat));
}

/// Fails with a dimension mismatch unless the shape is the expected one.
pub fn ensure_shape(
    rows: usize,
    cols: usize,
    expected_rows: usize,
    expected_cols: usize,
    context: &'static str,
) -> (r: Result<(), MathError>)
    ensures
        r is Ok <==> (rows == expected_rows && cols == expected_cols),
        r matches Err(e) ==> is_dimension_mismatch(
            e,
            shape_text(expected_rows as nat, expected_cols as nat) + " in "@ + context@,
            shape_text(rows as nat, cols as nat),
        ),
{
    if rows != expected_rows || cols != expected_cols {
        let mut expected = String::new();
        push_shape(&mut expected, expected_rows, expected_cols);
        expected.append(" in ");
        expected.append(context);
        let mut found = String::new();
        push_shape(&mut found, rows, cols);
        assert(found@ =~= shape_text(rows as nat, cols as nat));
        return Err(MathError::DimensionMismatch { expected, found });
    }
    Ok(())
}

/// Fails with a dimension mismatch unless `rows == cols`.
pub fn ensure_square(rows: usize, cols: usize, context: &'static str) -> (r: Result<(), MathError>)
    ensures
        r is Ok <==> rows == cols,
        r matches Err(e) ==> is_dimension_mismatch(
            e,
            "square matrix in "@ + context@,
            shape_text(rows as nat, cols as nat),
        ),
{
    if rows != cols {
        let mut expected = String::from_str("square matrix in ");
        expected.append(context);
        let mut found = String::new();
        push_shape(&mut found, rows, cols);
        assert(found@ =~= shape_text(rows as nat, cols as nat));
        return Err(MathError::DimensionMismatch { expected, found });
    }
    Ok(())
}

/// Fails with `InvalidInput` unless `index < len`.
pub fn ensure_bounds(index: usize, len: usize, context: &'static str) -> (r: Result<(), MathError>)
    ensures
        r is Ok <==> index < len,
        r matches Err(e) ==> is_invalid_input(
            e,
            context@,
            "index "@ + decimal(index as nat) + " out of bounds for length "@ + decimal(len as nat),
        ),
{
    if index >= len {
        let mut message = String::from_str("index ");
        push_decimal(&mut message, index);
        message.append(" out of bounds for length ");
        push_decimal(&mut message, len);
        return Err(MathError::InvalidInput { context, message });
    }
    Ok(())
}

} // verus!
