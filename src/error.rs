//! Configuration errors: why a region could not be built.
use vstd::prelude::*;

verus! {

/// A field of a region's configuration.
#[derive(Clone, Copy, Debug, PartialEq, Eq, Structural)]
pub enum Field {
    Base,
    Size,
    Width,
    Rows,
    Cols,
    BankWidth,
    BankDepth,
    Banks,
    Method,
    File,
}

/// Why a region's configuration was refused. Each names the region.
#[derive(Debug)]
pub enum ConfigError {
    /// A field that must be an integer is missing or is not one.
    NotInteger { region: String, field: Field },
    /// A field that must be nonzero is zero.
    Zero { region: String, field: Field },
    /// `banks` is not a two-dimensional sequence of names.
    BanksNotNames { region: String },
    /// `banks` holds no bank.
    NoBanks { region: String },
    /// The init method is missing or unknown.
    UnknownInitMethod { region: String },
    /// The `hex` init method has no `file`.
    HexFileRequired { region: String },
    /// The `hex` init file could not be expanded.
    HexFileExpansion { region: String, message: String },
    /// The `hex` init file does not exist.
    HexFileMissing { region: String, path: String },
    /// A Direct region's size differs from its array's: `rows * cols * width`.
    SizeMismatch { region: String, size: usize, rows: usize, cols: usize, width: usize },
    /// A Banked region has a number of bank rows other than the one its geometry gives.
    BankRowsMismatch { region: String, rows: usize, expected: usize },
    /// A row of banks of a Banked region has a number of banks other than the one its
    /// geometry gives.
    BankColsMismatch { region: String, row: usize, cols: usize, expected: usize },
    /// The first bank's depth differs from `bank_depth`.
    BankDepthMismatch { region: String, depth: usize, bank_depth: usize },
    /// The region runs past the end of the address space.
    OutOfAddressSpace { region: String },
}

impl ConfigError {
    /// The region that the error names.
    pub open spec fn region_spec(&self) -> Seq<char> {
        match self {
            ConfigError::NotInteger { region, .. } => region@,
            ConfigError::Zero { region, .. } => region@,
            ConfigError::BanksNotNames { region } => region@,
            ConfigError::NoBanks { region } => region@,
            ConfigError::UnknownInitMethod { region } => region@,
            ConfigError::HexFileRequired { region } => region@,
            ConfigError::HexFileExpansion { region, .. } => region@,
            ConfigError::HexFileMissing { region, .. } => region@,
            ConfigError::SizeMismatch { region, .. } => region@,
            ConfigError::BankRowsMismatch { region, .. } => region@,
            ConfigError::BankColsMismatch { region, .. } => region@,
            ConfigError::BankDepthMismatch { region, .. } => region@,
            ConfigError::OutOfAddressSpace { region } => region@,
        }
    }

    /// The region that the error names.
    pub fn region(&self) -> (r: &String)
        ensures
            r@ == self.region_spec(),
    {
        match self {
            ConfigError::NotInteger { region, .. } => region,
            ConfigError::Zero { region, .. } => region,
            ConfigError::BanksNotNames { region } => region,
            ConfigError::NoBanks { region } => region,
            ConfigError::UnknownInitMethod { region } => region,
            ConfigError::HexFileRequired { region } => region,
            ConfigError::HexFileExpansion { region, .. } => region,
            ConfigError::HexFileMissing { region, .. } => region,
            ConfigError::SizeMismatch { region, .. } => region,
            ConfigError::BankRowsMismatch { region, .. } => region,
            ConfigError::BankColsMismatch { region, .. } => region,
            ConfigError::BankDepthMismatch { region, .. } => region,
            ConfigError::OutOfAddressSpace { region } => region,
        }
    }
}

} // verus!
