//! The closed error taxonomy of the enforcement engine. Every variant
//! carries a human-readable message and the span of the offending operation;
//! enforcement functions never panic and never log, they only return these.

use vstd::prelude::*;

verus! {

use crate::span::Span;
use vstd::string::StringExecFns;

/// What a failed enforcement call reports to the caller.
#[derive(Debug)]
pub enum ExpressionError {
    /// The operand variant combination is unsupported for the operator; the
    /// message embeds both operands' display form joined by the operator's
    /// symbol.
    IncompatibleTypes { message: String, span: Span },
    /// An unresolved literal's text cannot be parsed under the sibling's
    /// concrete type.
    LiteralParse { message: String, span: Span },
    /// A statically-determined zero divisor.
    DivisionByZero { message: String, span: Span },
    /// Statically provable arithmetic overflow, under the checked policy.
    Overflow { message: String, span: Span },
}

/// The fixed message of a division-by-zero report.
pub open spec fn division_by_zero_message() -> Seq<char> {
    "division by zero"@
}

/// The fixed message of an overflow report.
pub open spec fn overflow_message() -> Seq<char> {
    "arithmetic overflow"@
}

impl ExpressionError {
    /// The span the error is tied to.
    pub open spec fn spec_span(self) -> Span {
        match self {
            ExpressionError::IncompatibleTypes { span, .. } => span,
            ExpressionError::LiteralParse { span, .. } => span,
            ExpressionError::DivisionByZero { span, .. } => span,
            ExpressionError::Overflow { span, .. } => span,
        }
    }

    /// The characters of the error's message.
    pub open spec fn spec_message(self) -> Seq<char> {
        match self {
            ExpressionError::IncompatibleTypes { message, .. } => message@,
            ExpressionError::LiteralParse { message, .. } => message@,
            ExpressionError::DivisionByZero { message, .. } => message@,
            ExpressionError::Overflow { message, .. } => message@,
        }
    }

    pub fn incompatible_types(message: String, span: Span) -> (e: ExpressionError)
        ensures
            e == (ExpressionError::IncompatibleTypes { message, span }),
    {
        ExpressionError::IncompatibleTypes { message, span }
    }

    pub fn literal_parse(message: String, span: Span) -> (e: ExpressionError)
        ensures
            e == (ExpressionError::LiteralParse { message, span }),
    {
        ExpressionError::LiteralParse { message, span }
    }

    pub fn division_by_zero(span: Span) -> (e: ExpressionError)
        ensures
            e matches ExpressionError::DivisionByZero { message, span: sp } && message@
                == division_by_zero_message() && sp == span,
    {
        ExpressionError::DivisionByZero { message: String::from_str("division by zero"), span }
    }

    pub fn overflow(span: Span) -> (e: ExpressionError)
        ensures
            e matches ExpressionError::Overflow { message, span: sp } && message@
                == overflow_message() && sp == span,
    {
        ExpressionError::Overflow { message: String::from_str("arithmetic overflow"), span }
    }

    /// The error's span, for callers that surface diagnostics.
    pub fn span_of(&self) -> (s: Span)
        ensures
            s == self.spec_span(),
    {
        match self {
            ExpressionError::IncompatibleTypes { span, .. } => *span,
            ExpressionError::LiteralParse { span, .. } => *span,
            ExpressionError::DivisionByZero { span, .. } => *span,
            ExpressionError::Overflow { span, .. } => *span,
        }
    }

    /// The error's message, for callers that surface diagnostics.
    pub fn message_of(&self) -> (m: &String)
        ensures
            m@ == self.spec_message(),
    {
        match self {
            ExpressionError::IncompatibleTypes { message, .. } => message,
            ExpressionError::LiteralParse { message, .. } => message,
            ExpressionError::DivisionByZero { message, .. } => message,
            ExpressionError::Overflow { message, .. } => message,
        }
    }
}

} // verus!
