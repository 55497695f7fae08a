//! Errors of the baseline estimators. The estimators themselves compute
//! per-feature means and standard deviations in floating point and live
//! with the application.

use vstd::prelude::*;

verus! {

/// Every error a baseline estimator can produce
#[derive(Debug, Clone, PartialEq, Eq)]
pub enum BaselineError {
    /// Estimator was scored before being fit
    NotFitted,
    /// An array shape did not match what the estimator expected
    DimensionMismatch(String),
    /// Fit was attempted with zero observations
    EmptyLearningWindow(String),
    /// Constructor was given an out-of-range parameter
    InvalidParameter(String),
    /// Observation values were malformed, NaN or inf
    InvalidObservation(String),
}


/// A learning-window batch of `nrows` observations of `ncols` features may
/// be fitted only when it has at least one row, at least one column, and
/// only finite values, checked in that order
pub fn validate_batch(nrows: usize, ncols: usize, all_finite: bool) -> (r: Result<(), BaselineError>)
    ensures
        nrows == 0 ==> r matches Err(BaselineError::EmptyLearningWindow(_)),
        nrows > 0 && ncols == 0 ==> r matches Err(BaselineError::DimensionMismatch(_)),
        nrows > 0 && ncols > 0 && !all_finite ==> r matches Err(BaselineError::InvalidObservation(_)),
        r is Ok <==> nrows > 0 && ncols > 0 && all_finite,
{
    if nrows == 0 {
        return Err(
            BaselineError::EmptyLearningWindow(
                String::from_str("cannot fit on zero observations, need at least one sample"),
            ),
        );
    }
    if ncols == 0 {
        return Err(
            BaselineError::DimensionMismatch(
                String::from_str(
                    "cannot fit on zero-feature observations, need at least one column",
                ),
            ),
        );
    }
    if !all_finite {
        return Err(
            BaselineError::InvalidObservation(
                String::from_str("observations contain non-finite values, NaN or inf"),
            ),
        );
    }
    Ok(())
}

/// One observation of `len` values may be scored against a baseline fitted
/// on `expected_dim` features only when the lengths agree and every value
/// is finite, checked in that order
pub fn validate_observation(len: usize, expected_dim: usize, all_finite: bool) -> (r: Result<(), BaselineError>)
    ensures
        len != expected_dim ==> r matches Err(BaselineError::DimensionMismatch(_)),
        len == expected_dim && !all_finite ==> r matches Err(BaselineError::InvalidObservation(_)),
        r is Ok <==> len == expected_dim && all_finite,
{
    if len != expected_dim {
        let mut msg = String::from_str("observation len ");
        msg.append(len.to_string().as_str());
        msg.append(" does not match fitted feature dimension ");
        msg.append(expected_dim.to_string().as_str());
        return Err(BaselineError::DimensionMismatch(msg));
    }
    if !all_finite {
        return Err(
            BaselineError::InvalidObservation(
                String::from_str("observation contains non-finite values, NaN or inf"),
            ),
        );
    }
    Ok(())
}

/// A batch of `ncols` features may be scored against a baseline fitted on
/// `expected_dim` features only when the widths agree and every value is
/// finite, checked in that order
pub fn validate_batch_for_score(ncols: usize, expected_dim: usize, all_finite: bool) -> (r: Result<(), BaselineError>)
    ensures
        ncols != expected_dim ==> r matches Err(BaselineError::DimensionMismatch(_)),
        ncols == expected_dim && !all_finite ==> r matches Err(BaselineError::InvalidObservation(_)),
        r is Ok <==> ncols == expected_dim && all_finite,
{
    if ncols != expected_dim {
        let mut msg = String::from_str("batch feature dim ");
        msg.append(ncols.to_string().as_str());
        msg.append(" does not match fitted feature dimension ");
        msg.append(expected_dim.to_string().as_str());
        return Err(BaselineError::DimensionMismatch(msg));
    }
    if !all_finite {
        return Err(
            BaselineError::InvalidObservation(
                String::from_str("observations contain non-finite values, NaN or inf"),
            ),
        );
    }
    Ok(())
}

/// The sorted positions a symmetric trim keeps: dropping `per_tail`
/// samples from each end of `n_samples` leaves `per_tail .. n_samples -
/// per_tail`, defined only when at least one sample survives
pub fn trimmed_range(n_samples: usize, per_tail: usize) -> (r: Option<(usize, usize)>)
    ensures
        r is Some <==> 2 * per_tail < n_samples,
        r matches Some((lo, hi)) ==> lo == per_tail && hi == n_samples - per_tail && lo < hi,
{
    if per_tail >= n_samples {
        return None;
    }
    let rest = n_samples - per_tail;
    if per_tail >= rest {
        None
    } else {
        Some((per_tail, rest))
    }
}

} // verus!
