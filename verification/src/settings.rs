//! The settings of a run, and what they are where nothing is said.

use vstd::prelude::*;
use crate::size::{parse_size, parsed};

verus! {

/// The capacity of a bucket where none is given: fifteen million bytes.
pub const DEFAULT_CAPACITY: u64 = 15_000_000;

/// The settings of one run.
pub struct Config {
    /// The directory whose files are packed.
    pub source_directory: String,
    /// The directory below which the numbered bucket directories are made.
    pub link_destination: String,
    /// The most bytes that a bucket may hold.
    pub bucket_capacity: u64,
    /// Whether the directories below the source are searched too.
    pub recursive: bool,
    /// Whether the plan is only printed.
    pub dry_run: bool,
    /// Whether each link is named as it is made.
    pub verbose: bool,
}

/// Why settings cannot be used.
#[derive(Debug, Clone, Copy, PartialEq, Eq)]
pub enum ConfigError {
    /// The capacity is no size.
    InvalidFormat,
    /// The capacity is zero.
    ZeroCapacity,
}

/// What `given` holds, or `fallback` where it holds nothing.
pub open spec fn or_default(given: Option<String>, fallback: Seq<char>) -> Seq<char> {
    match given {
        Some(text) => text@,
        None => fallback,
    }
}

/// The capacity that the text stands for, or the default where there is no
/// text; nothing where the text is no size.
pub open spec fn capacity_of(given: Option<&str>) -> Option<u64> {
    match given {
        Some(text) => parsed(text@),
        None => Some(DEFAULT_CAPACITY),
    }
}

impl Config {
    /// Whether these are the settings of a run about which nothing was said:
    /// from `.` to `part`, fifteen million bytes to a bucket, every switch off.
    pub open spec fn is_default(&self) -> bool {
        &&& self.source_directory@ == "."@
        &&& self.link_destination@ == "part"@
        &&& self.bucket_capacity == DEFAULT_CAPACITY
        &&& !self.recursive
        &&& !self.dry_run
        &&& !self.verbose
    }

    /// Puts the settings of a run together. What is not given takes its
    /// default. The capacity is given as a size in text, and must not be
    /// zero.
    pub fn assemble(
        source_directory: Option<String>,
        link_destination: Option<String>,
        bucket_capacity: Option<&str>,
        recursive: bool,
        dry_run: bool,
        verbose: bool,
    ) -> (result: Result<Config, ConfigError>)
        ensures
            match result {
                Ok(config) => {
                    &&& config.source_directory@ == or_default(source_directory, "."@)
                    &&& config.link_destination@ == or_default(link_destination, "part"@)
                    &&& capacity_of(bucket_capacity) == Some(config.bucket_capacity)
                    &&& config.bucket_capacity > 0
                    &&& config.recursive == recursive
                    &&& config.dry_run == dry_run
                    &&& config.verbose == verbose
                },
                Err(ConfigError::InvalidFormat) => capacity_of(bucket_capacity) is None,
                Err(ConfigError::ZeroCapacity) => capacity_of(bucket_capacity) == Some(0u64),
            },
    {
        let capacity = match bucket_capacity {
            Some(text) => match parse_size(text) {
                Ok(bytes) => bytes,
                Err(_) => {
                    return Err(ConfigError::InvalidFormat);
                },
            },
            None => DEFAULT_CAPACITY,
        };
        if capacity == 0 {
            return Err(ConfigError::ZeroCapacity);
        }
        let source_directory = match source_directory {
            Some(text) => text,
            None => String::from_str("."),
        };
        let link_destination = match link_destination {
            Some(text) => text,
            None => String::from_str("part"),
        };
        Ok(
            Config {
                source_directory,
                link_destination,
                bucket_capacity: capacity,
                recursive,
                dry_run,
                verbose,
            },
        )
    }
}

impl Default for Config {
    fn default() -> (config: Config)
        ensures
            config.is_default(),
    {
        Config {
            source_directory: String::from_str("."),
            link_destination: String::from_str("part"),
            bucket_capacity: DEFAULT_CAPACITY,
            recursive: false,
            dry_run: false,
            verbose: false,
        }
    }
}

} // verus!
