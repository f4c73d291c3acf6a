//! What the plots of a run show.

use vstd::prelude::*;

verus! {

/// What a plot shows.
#[derive(Clone, Copy, Debug, PartialEq, Eq)]
pub enum PlotType {
    OriginalDataset,
    NbcResult,
}

impl PlotType {
    /// The caption of the plot.
    pub fn as_str(&self) -> (caption: &'static str)
        ensures
            caption@ == match *self {
                PlotType::OriginalDataset => "Original clustered dataset"@,
                PlotType::NbcResult => "NBC results"@,
            },
    {
        match self {
            PlotType::OriginalDataset => "Original clustered dataset",
            PlotType::NbcResult => "NBC results",
        }
    }
}

} // verus!
