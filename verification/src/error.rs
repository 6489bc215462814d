use vstd::prelude::*;

verus! {

/// The error reported by every fallible operation of the library.
#[derive(Debug, Clone, PartialEq, Eq)]
pub enum MathError {
    DimensionMismatch { expected: String, found: String },
    InvalidInput { context: &'static str, message: String },
    InvalidDomain { context: &'static str, message: String },
    InvalidRange { context: &'static str, message: String },
    SingularMatrix,
    InvalidGraph { message: String },
    EmptyInput { context: &'static str },
    Statistics { context: &'static str, message: String },
    Io(String),
}

/// The human-readable description of an error.
pub open spec fn error_text(e: MathError) -> Seq<char> {
    match e {
        MathError::DimensionMismatch { expected, found } =>
            "dimension mismatch: expected "@ + expected@ + ", found "@ + found@,
        MathError::InvalidInput { context, message } => "invalid input in "@ + context@ + ": "@ + message@,
        MathError::InvalidDomain { context, message } => "domain error in "@ + context@ + ": "@ + message@,
        MathError::InvalidRange { context, message } => "range error in "@ + context@ + ": "@ + message@,
        MathError::SingularMatrix => "matrix is singular"@,
        MathError::InvalidGraph { message } => "invalid graph: "@ + message@,
        MathError::EmptyInput { context } => context@ + " requires at least one value"@,
        MathError::Statistics { context, message } => "statistics error in "@ + context@ + ": "@ + message@,
        MathError::Io(message) => "i/o error: "@ + message@,
    }
}

/// `prefix`, then `a`, then `middle`, then `b`, as a new string.
fn joined_text(prefix: &str, a: &str, middle: &str, b: &str) -> (r: String)
    ensures
        r@ == prefix@ + a@ + middle@ + b@,
{
    let mut s = String::from_str(prefix);
    s.append(a);
    s.append(middle);
    s.append(b);
    s
}

impl MathError {
    /// The human-readable description of the error.
    pub fn message(&self) -> (r: String)
        ensures
            r@ == error_text(*self),
    {
        let r = match self {
            MathError::DimensionMismatch { expected, found } => {
                let r = joined_text("dimension mismatch: expected ", expected.as_str(), ", found ", found.as_str());
                assert(r@ =~= error_text(*self));
                r
            },
            MathError::InvalidInput { context, message } => {
                let r = joined_text("invalid input in ", context, ": ", message.as_str());
                assert(r@ =~= error_text(*self));
                r
            },
            MathError::InvalidDomain { context, message } => {
                let r = joined_text("domain error in ", context, ": ", message.as_str());
                assert(r@ =~= error_text(*self));
                r
            },
            MathError::InvalidRange { context, message } => {
                let r = joined_text("range error in ", context, ": ", message.as_str());
                assert(r@ =~= error_text(*self));
                r
            },
            MathError::SingularMatrix => String::from_str("matrix is singular"),
            MathError::InvalidGraph { message } => {
                let mut r = String::from_str("invalid graph: ");
                r.append(message.as_str());
                r
            },
            MathError::EmptyInput { context } => {
                let mut r = String::from_str(context);
                r.append(" requires at least one value");
                r
            },
            MathError::Statistics { context, message } => {
                let r = joined_text("statistics error in ", context, ": ", message.as_str());
                assert(r@ =~= error_text(*self));
                r
            },
            MathError::Io(message) => {
                let mut r = String::from_str("i/o error: ");
                r.append(message.as_str());
                r
            },
        };
        r
    }
}

} // verus!
