//! The two recoverable failures of the library.

use vstd::prelude::*;

verus! {

/// Why a location code or a configuration value was refused, by offending part.
#[derive(Clone, Copy, Debug, PartialEq, Eq, Structural)]
pub enum FormatError {
    /// The code holds no `-` between cluster and aisle.
    Dash,
    /// What stands before the `-` is not one upper-case letter.
    Cluster,
    /// The code holds no `.` between aisle and level.
    Dot,
    /// The aisle is not a run of decimal digits that fits 32 bits.
    Aisle,
    /// What follows the `.` is not exactly two characters.
    LevelColumn,
    /// The level is not a decimal digit.
    Level,
    /// The column is not an upper-case letter.
    Column,
    /// The configured working time is not positive.
    TotalHours,
}

impl FormatError {
    /// The text shown for each failure.
    pub open spec fn message_spec(self) -> Seq<char> {
        match self {
            FormatError::Dash => "expected format 'A-1.1A'"@,
            FormatError::Cluster => "missing cluster"@,
            FormatError::Dot => "expected format '1.1A'"@,
            FormatError::Aisle => "invalid aisle"@,
            FormatError::LevelColumn => "expected format '1A'"@,
            FormatError::Level => "invalid level"@,
            FormatError::Column => "invalid column"@,
            FormatError::TotalHours => "total hours must be positive"@,
        }
    }

    /// The text shown for this failure.
    pub fn message(&self) -> (r: String)
        ensures
            r@ == self.message_spec(),
    {
        match self {
            FormatError::Dash => "expected format 'A-1.1A'".to_owned(),
            FormatError::Cluster => "missing cluster".to_owned(),
            FormatError::Dot => "expected format '1.1A'".to_owned(),
            FormatError::Aisle => "invalid aisle".to_owned(),
            FormatError::LevelColumn => "expected format '1A'".to_owned(),
            FormatError::Level => "invalid level".to_owned(),
            FormatError::Column => "invalid column".to_owned(),
            FormatError::TotalHours => "total hours must be positive".to_owned(),
        }
    }
}

/// Why a manually composed slot was refused.
#[derive(Clone, Copy, Debug, PartialEq, Eq, Structural)]
pub enum Rejected {
    /// An aisle of the candidate is locked.
    LockedAisle,
    /// The candidate lists no aisle, or its cluster or an end aisle is not
    /// part of the floor's pairing.
    Unplaced,
    /// A neighbouring pair on either side forbids the slot.
    NotAllowed,
    /// Locking was asked for a candidate that is locked already.
    AlreadyLocked,
}

impl Rejected {
    /// The text shown for each refusal.
    pub open spec fn message_spec(self) -> Seq<char> {
        match self {
            Rejected::LockedAisle => "Stow slot contains locked aisles"@,
            Rejected::Unplaced => "Stow slot is not on the floor"@,
            Rejected::NotAllowed => "Stow slot is not allowed to be created"@,
            Rejected::AlreadyLocked => "Stow slot is already locked"@,
        }
    }

    /// The text shown for this failure.
    pub fn message(&self) -> (r: String)
        ensures
            r@ == self.message_spec(),
    {
        match self {
            Rejected::LockedAisle => "Stow slot contains locked aisles".to_owned(),
            Rejected::Unplaced => "Stow slot is not on the floor".to_owned(),
            Rejected::NotAllowed => "Stow slot is not allowed to be created".to_owned(),
            Rejected::AlreadyLocked => "Stow slot is already locked".to_owned(),
        }
    }
}

} // verus!
