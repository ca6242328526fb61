use vstd::prelude::*;

use crate::text::{decimal, push_decimal};

verus! {

/// Errors produced by renormalization-group operations.
#[derive(Debug, Clone)]
pub enum RgError {
    /// Input data is too short for the requested block size.
    InsufficientData { needed: usize, got: usize },
    /// A coupling vector length mismatch.
    CouplingMismatch { expected: usize, got: usize },
    /// Numerical divergence during RG flow integration.
    Divergence { step: usize, message: String },
    /// Fixed-point finder did not converge.
    NoConvergence { iterations: usize },
    /// Invalid scale parameters (e.g. non-positive, output >= input).
    InvalidScale { detail: String },
}

impl RgError {
    /// The human-readable text of the error.
    pub open spec fn text(&self) -> Seq<char> {
        match self {
            RgError::InsufficientData { needed, got } => "insufficient data: need "@ + decimal(
                *needed as nat,
            ) + " samples, got "@ + decimal(*got as nat),
            RgError::CouplingMismatch { expected, got } => "coupling mismatch: expected "@
                + decimal(*expected as nat) + ", got "@ + decimal(*got as nat),
            RgError::Divergence { step, message } => "divergence at step "@ + decimal(
                *step as nat,
            ) + ": "@ + message@,
            RgError::NoConvergence { iterations } => "fixed-point finder did not converge in "@
                + decimal(*iterations as nat) + " iterations"@,
            RgError::InvalidScale { detail } => "invalid scale: "@ + detail@,
        }
    }

    /// Renders the error as text.
    pub fn describe(&self) -> (s: String)
        ensures
            s@ == self.text(),
    {
        let mut s = String::new();
        match self {
            RgError::InsufficientData { needed, got } => {
                s.append("insufficient data: need ");
                push_decimal(&mut s, *needed);
                s.append(" samples, got ");
                push_decimal(&mut s, *got);
            },
            RgError::CouplingMismatch { expected, got } => {
                s.append("coupling mismatch: expected ");
                push_decimal(&mut s, *expected);
                s.append(", got ");
                push_decimal(&mut s, *got);
            },
            RgError::Divergence { step, message } => {
                s.append("divergence at step ");
                push_decimal(&mut s, *step);
                s.append(": ");
                s.append(message.as_str());
            },
            RgError::NoConvergence { iterations } => {
                s.append("fixed-point finder did not converge in ");
                push_decimal(&mut s, *iterations);
                s.append(" iterations");
            },
            RgError::InvalidScale { detail } => {
                s.append("invalid scale: ");
                s.append(detail.as_str());
            },
        }
        s
    }
}

} // verus!
