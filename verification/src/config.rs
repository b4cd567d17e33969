//! What an allocation run is told: the strategy and its targets.

use vstd::prelude::*;
use crate::hours::Hours;

verus! {

/// The strategy by which slots are cut.
#[derive(Clone, Copy, Debug, PartialEq, Eq, Structural)]
pub enum Algorithm {
    /// Reach a number of slots.
    TargetHC,
    /// Keep each slot at or under an hourly rate.
    TargetPPH,
}

impl Default for Algorithm {
    fn default() -> (r: Algorithm)
        ensures
            r == Algorithm::TargetPPH,
    {
        Algorithm::TargetPPH
    }
}

/// The settings of one allocation run.
#[derive(Clone, Copy, Debug)]
pub struct AlgorithmConfig {
    pub algorithm: Algorithm,
    pub target_pph: i32,
    pub total_hours: Hours,
    pub target_hc: i32,
    pub max_aisle_count: i32,
    pub min_aisle_count: i32,
}

impl Default for AlgorithmConfig {
    fn default() -> (r: AlgorithmConfig)
        ensures
            r.algorithm == Algorithm::TargetPPH,
            r.target_pph == 250,
            r.total_hours.spec_millis() == 6500,
            r.target_hc == 30,
            r.max_aisle_count == 3,
            r.min_aisle_count == 2,
    {
        AlgorithmConfig {
            algorithm: Algorithm::TargetPPH,
            target_pph: 250,
            total_hours: Hours::default(),
            target_hc: 30,
            max_aisle_count: 3,
            min_aisle_count: 2,
        }
    }
}

} // verus!
