//! Plain data the baseline store persists beside its audit log, and the
//! validation a baseline record must pass before it is written.

use vstd::prelude::*;

use crate::audit::{i64_bits, stored_to_ns, StorageError};

verus! {

/// An operator-tagged maintenance window
#[derive(Debug, Clone, PartialEq, Eq)]
pub struct MaintenanceWindow {
    /// Auto-assigned identifier, stable across opens
    pub id: i64,
    /// Monotonic timestamp at which the window started
    pub start_ns: u64,
    /// Monotonic timestamp at which the window ended, `None` while still active
    pub end_ns: Option<u64>,
    /// Free-text note the operator attached to the window
    pub note: Option<String>,
}

/// A baseline record may be stored only when its mean and standard
/// deviation vectors both have `feature_dim` entries; otherwise the write
/// is refused with `InvalidArgument`, the mean checked first
pub fn check_baseline_dims(feature_dim: usize, mean_len: usize, std_len: usize) -> (r: Result<(), StorageError>)
    ensures
        r is Ok <==> (mean_len == feature_dim && std_len == feature_dim),
        r matches Err(e) ==> e is InvalidArgument,
{
    if mean_len != feature_dim {
        let mut msg = String::from_str("mean length ");
        msg.append(mean_len.to_string().as_str());
        msg.append(" does not match feature_dim ");
        msg.append(feature_dim.to_string().as_str());
        return Err(StorageError::InvalidArgument(msg));
    }
    if std_len != feature_dim {
        let mut msg = String::from_str("std length ");
        msg.append(std_len.to_string().as_str());
        msg.append(" does not match feature_dim ");
        msg.append(feature_dim.to_string().as_str());
        return Err(StorageError::InvalidArgument(msg));
    }
    Ok(())
}


/// The integer fields of a stored baseline row, decoded
#[derive(Debug, Clone, Copy, PartialEq, Eq, Structural)]
pub struct BaselineRowFields {
    /// Number of features
    pub feature_dim: usize,
    /// Timestamp at which the baseline was fitted
    pub fitted_at_ns: u64,
    /// Number of observations behind the fit
    pub sample_count: u64,
}

/// Decode the integer fields of a stored baseline row. A negative (or, on
/// a narrow target, oversized) feature width or a negative sample count is
/// field-level corruption and is refused with `CorruptRow`; the timestamp
/// is read back from its signed form.
pub fn decode_baseline_fields(feature_dim: i64, fitted_at_ns: i64, sample_count: i64) -> (r: Result<BaselineRowFields, StorageError>)
    ensures
        r is Ok <==> (0 <= feature_dim <= usize::MAX && sample_count >= 0),
        r matches Err(e) ==> e is CorruptRow,
        r matches Ok(f) ==> f.feature_dim == feature_dim && f.sample_count == sample_count
            && f.fitted_at_ns == i64_bits(fitted_at_ns),
{
    if feature_dim < 0 || feature_dim as u64 > usize::MAX as u64 {
        let mut msg = String::from_str("feature_dim out of range: ");
        msg.append(feature_dim.to_string().as_str());
        return Err(StorageError::CorruptRow(msg));
    }
    if sample_count < 0 {
        let mut msg = String::from_str("negative sample_count: ");
        msg.append(sample_count.to_string().as_str());
        return Err(StorageError::CorruptRow(msg));
    }
    Ok(
        BaselineRowFields {
            feature_dim: feature_dim as usize,
            fitted_at_ns: stored_to_ns(fitted_at_ns),
            sample_count: sample_count as u64,
        },
    )
}

} // verus!
