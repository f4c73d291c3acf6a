//! The settings of a run, and the faults in them that keep it from
//! starting.

use vstd::prelude::*;

verus! {

/// Why a run cannot start.
#[derive(Clone, Copy, Debug, PartialEq, Eq)]
pub enum SettingsError {
    /// Neither a dataset file nor a directory of datasets was given.
    NoInput,
    /// `k` is zero or negative.
    KNotPositive,
    /// The dimension of the dataset is zero.
    DimensionNotPositive,
    /// The dataset has no more points than `k`, so that some point lacks a
    /// `k`-th nearest neighbour.
    TooFewPoints,
}

impl SettingsError {
    /// What to tell the user.
    pub fn message(&self) -> (text: &'static str)
        ensures
            text@ == match *self {
                SettingsError::NoInput => "You must pass either dataset file or test datasets path!"@,
                SettingsError::KNotPositive => "K value must be bigger than 0!"@,
                SettingsError::DimensionNotPositive => "Dataset dimension must be bigger than 0!"@,
                SettingsError::TooFewPoints => "Number of coordinates must be bigger than k value!"@,
            },
    {
        match self {
            SettingsError::NoInput => "You must pass either dataset file or test datasets path!",
            SettingsError::KNotPositive => "K value must be bigger than 0!",
            SettingsError::DimensionNotPositive => "Dataset dimension must be bigger than 0!",
            SettingsError::TooFewPoints => "Number of coordinates must be bigger than k value!",
        }
    }
}

/// Checks the settings of a run before anything is computed: an input must
/// be named, and `k` and the dimension must be positive. Of several faults
/// the first in this order is reported.
pub fn parse_args(
    has_dataset_file: bool,
    has_datasets_path: bool,
    k_value: i32,
    dataset_dimension: usize,
) -> (checked: Result<(), SettingsError>)
    ensures
        checked == if !has_dataset_file && !has_datasets_path {
            Err::<(), SettingsError>(SettingsError::NoInput)
        } else if k_value <= 0 {
            Err(SettingsError::KNotPositive)
        } else if dataset_dimension == 0 {
            Err(SettingsError::DimensionNotPositive)
        } else {
            Ok(())
        },
{
    if !has_datasets_path && !has_dataset_file {
        return Err(SettingsError::NoInput);
    }
    if k_value <= 0 {
        return Err(SettingsError::KNotPositive);
    }
    if dataset_dimension == 0 {
        return Err(SettingsError::DimensionNotPositive);
    }
    Ok(())
}

/// Checks that a dataset of `points` points can be clustered with the given
/// `k`: `k` must be positive and smaller than the number of points.
pub fn check_point_count(points: usize, k_value: i32) -> (checked: Result<(), SettingsError>)
    ensures
        checked == if k_value <= 0 {
            Err::<(), SettingsError>(SettingsError::KNotPositive)
        } else if points <= k_value {
            Err(SettingsError::TooFewPoints)
        } else {
            Ok(())
        },
{
    if k_value <= 0 {
        return Err(SettingsError::KNotPositive);
    }
    if points <= k_value as usize {
        return Err(SettingsError::TooFewPoints);
    }
    Ok(())
}

} // verus!
