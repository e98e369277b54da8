//! Errors from building a calibration curve.

use vstd::prelude::*;

verus! {

/// Why no calibration curve could be built.
#[derive(Clone, Debug, PartialEq, Eq)]
pub enum CalibrationError {
    /// The solution's expression could not be parsed.
    ParseFailed(String),
    /// The expression parsed but could not be evaluated at some ADC count.
    EvalFailed(String),
    /// The solution defers to an interactive generator and has no formula.
    NotAnExpression(String),
    /// A `table(...)` lookup referenced an `.inc` file we have no content for.
    MissingIncludeFile(String),
    /// Inputs that cannot describe a curve (such as two identical voltages).
    DegenerateInputs(String),
}

/// A [`CalibrationError`], with its text as a sequence of characters.
pub enum ErrorView {
    ParseFailed(Seq<char>),
    EvalFailed(Seq<char>),
    NotAnExpression(Seq<char>),
    MissingIncludeFile(Seq<char>),
    DegenerateInputs(Seq<char>),
}

impl View for CalibrationError {
    type V = ErrorView;

    open spec fn view(&self) -> ErrorView {
        match self {
            CalibrationError::ParseFailed(m) => ErrorView::ParseFailed(m@),
            CalibrationError::EvalFailed(m) => ErrorView::EvalFailed(m@),
            CalibrationError::NotAnExpression(m) => ErrorView::NotAnExpression(m@),
            CalibrationError::MissingIncludeFile(m) => ErrorView::MissingIncludeFile(m@),
            CalibrationError::DegenerateInputs(m) => ErrorView::DegenerateInputs(m@),
        }
    }
}

/// A result, with the text of its error as a sequence of characters.
pub open spec fn told<T>(r: Result<T, CalibrationError>) -> Result<T, ErrorView> {
    match r {
        Ok(v) => Ok(v),
        Err(e) => Err(e@),
    }
}

/// What an error says to the operator.
pub open spec fn message_of(e: ErrorView) -> Seq<char> {
    match e {
        ErrorView::ParseFailed(m) => "calibration formula parse failed: "@ + m,
        ErrorView::EvalFailed(m) => "calibration formula failed: "@ + m,
        ErrorView::NotAnExpression(g) => "this preset uses the '"@ + g
            + "' generator and has no formula to evaluate"@,
        ErrorView::MissingIncludeFile(name) => "preset needs the lookup file '"@ + name
            + "', which is not available"@,
        ErrorView::DegenerateInputs(m) => m,
    }
}

impl CalibrationError {
    /// What the error says to the operator.
    pub fn message(&self) -> (r: String)
        ensures
            r@ == message_of(self@),
    {
        match self {
            CalibrationError::ParseFailed(m) => {
                String::from_str("calibration formula parse failed: ").concat(m.as_str())
            },
            CalibrationError::EvalFailed(m) => {
                String::from_str("calibration formula failed: ").concat(m.as_str())
            },
            CalibrationError::NotAnExpression(g) => {
                String::from_str("this preset uses the '").concat(g.as_str()).concat(
                    "' generator and has no formula to evaluate",
                )
            },
            CalibrationError::MissingIncludeFile(name) => {
                String::from_str("preset needs the lookup file '").concat(name.as_str()).concat(
                    "', which is not available",
                )
            },
            CalibrationError::DegenerateInputs(m) => String::from_str(m.as_str()),
        }
    }
}

/// Each kind of error says its own words, with its text where it belongs.
pub proof fn law_messages_carry_their_text(m: Seq<char>)
    ensures
        message_of(ErrorView::ParseFailed(m)) == "calibration formula parse failed: "@ + m,
        message_of(ErrorView::EvalFailed(m)) == "calibration formula failed: "@ + m,
        message_of(ErrorView::NotAnExpression(m)) == "this preset uses the '"@ + m
            + "' generator and has no formula to evaluate"@,
        message_of(ErrorView::MissingIncludeFile(m)) == "preset needs the lookup file '"@ + m
            + "', which is not available"@,
        message_of(ErrorView::DegenerateInputs(m)) == m,
{
}

/// An error is seen as what it is, with its own text, and a result as its value
/// or its error.
pub proof fn law_an_error_is_seen_as_what_it_is<T>(m: String, value: T)
    ensures
        CalibrationError::ParseFailed(m)@ == ErrorView::ParseFailed(m@),
        CalibrationError::EvalFailed(m)@ == ErrorView::EvalFailed(m@),
        CalibrationError::NotAnExpression(m)@ == ErrorView::NotAnExpression(m@),
        CalibrationError::MissingIncludeFile(m)@ == ErrorView::MissingIncludeFile(m@),
        CalibrationError::DegenerateInputs(m)@ == ErrorView::DegenerateInputs(m@),
        told(Ok::<T, CalibrationError>(value)) == Ok::<T, ErrorView>(value),
        told(Err::<T, CalibrationError>(CalibrationError::DegenerateInputs(m))) == Err::<
            T,
            ErrorView,
        >(ErrorView::DegenerateInputs(m@)),
{
}

} // verus!
