use math_lib::plot::escape_xml;
use math_lib::text::decimal_string;
use math_lib::validate::{
    ensure_bounds, ensure_non_empty, ensure_same_dimension, ensure_same_len, ensure_shape, ensure_square,
};
use math_lib::{Color, MathError};

#[test]
fn escape_xml_replaces_markup_characters() {
    assert_eq!(escape_xml("a < b & c > \"d\" 'e'"), "a &lt; b &amp; c &gt; &quot;d&quot; &apos;e&apos;");
    assert_eq!(escape_xml("plain text"), "plain text");
    assert_eq!(escape_xml(""), "");
    assert_eq!(escape_xml("&amp;"), "&amp;amp;");
}

#[test]
fn colors_render_as_css_hex() {
    assert_eq!(Color::blue().css(), "#1f77b4");
    assert_eq!(Color::red().css(), "#d62728");
    assert_eq!(Color::green().css(), "#2ca02c");
    assert_eq!(Color::orange().css(), "#ff7f0e");
    assert_eq!(Color::purple().css(), "#9467bd");
    assert_eq!(Color::gray().css(), "#787878");
    assert_eq!(Color(0, 10, 255).css(), "#000aff");
}

#[test]
fn decimal_strings() {
    assert_eq!(decimal_string(0), "0");
    assert_eq!(decimal_string(9), "9");
    assert_eq!(decimal_string(10), "10");
    assert_eq!(decimal_string(1234567890), "1234567890");
}

#[test]
fn validation_messages() {
    let empty: [i32; 0] = [];
    assert_eq!(ensure_non_empty(&empty, "mean"), Err(MathError::EmptyInput { context: "mean" }));
    assert_eq!(ensure_non_empty(&[1], "mean"), Ok(()));
    assert_eq!(
        ensure_same_len(&[1, 2], &[1], "pairs"),
        Err(MathError::DimensionMismatch {
            expected: "matching lengths in pairs".to_string(),
            found: "2 vs 1".to_string(),
        })
    );
    assert_eq!(ensure_same_len(&[1], &[2], "pairs"), Ok(()));
    assert_eq!(
        ensure_shape(2, 3, 3, 2, "solve"),
        Err(MathError::DimensionMismatch {
            expected: "3x2 in solve".to_string(),
            found: "2x3".to_string(),
        })
    );
    assert_eq!(ensure_shape(2, 2, 2, 2, "solve"), Ok(()));
    assert_eq!(
        ensure_square(2, 3, "det"),
        Err(MathError::DimensionMismatch {
            expected: "square matrix in det".to_string(),
            found: "2x3".to_string(),
        })
    );
    assert_eq!(
        ensure_bounds(5, 5, "row"),
        Err(MathError::InvalidInput {
            context: "row",
            message: "index 5 out of bounds for length 5".to_string(),
        })
    );
    assert_eq!(ensure_bounds(4, 5, "row"), Ok(()));
}

#[test]
fn error_messages_read_like_sentences() {
    assert_eq!(
        MathError::DimensionMismatch { expected: "2x2".to_string(), found: "3x3".to_string() }.message(),
        "dimension mismatch: expected 2x2, found 3x3"
    );
    assert_eq!(
        MathError::InvalidInput { context: "solve", message: "bad".to_string() }.message(),
        "invalid input in solve: bad"
    );
    assert_eq!(
        MathError::InvalidDomain { context: "sqrt", message: "negative".to_string() }.message(),
        "domain error in sqrt: negative"
    );
    assert_eq!(
        MathError::InvalidRange { context: "plot", message: "empty".to_string() }.message(),
        "range error in plot: empty"
    );
    assert_eq!(MathError::SingularMatrix.message(), "matrix is singular");
    assert_eq!(MathError::InvalidGraph { message: "cycle".to_string() }.message(), "invalid graph: cycle");
    assert_eq!(MathError::EmptyInput { context: "mean" }.message(), "mean requires at least one value");
    assert_eq!(
        MathError::Statistics { context: "t-test", message: "n < 2".to_string() }.message(),
        "statistics error in t-test: n < 2"
    );
    assert_eq!(MathError::Io("disk full".to_string()).message(), "i/o error: disk full");
}

#[test]
fn same_dimension_reports_both_lengths() {
    assert_eq!(
        ensure_same_dimension(&[1.0, 2.0, 3.0], &[1.0], "RK4 step"),
        Err(MathError::DimensionMismatch {
            expected: "3 values in RK4 step".to_string(),
            found: "1 values".to_string(),
        })
    );
    assert_eq!(ensure_same_dimension(&[1.0, 2.0], &[3.0, 4.0], "Euler step"), Ok(()));
}
