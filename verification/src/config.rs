//! The settings of a run and what they decide before any work starts.

use crate::export::FailurePolicy;
use crate::slice::{parse_slice, slice_of, Bound};
use std::path::PathBuf;
use vstd::prelude::*;

verus! {

/// A path of the file system, carried through opaquely.
#[verifier::external_type_specification]
#[verifier::external_body]
pub struct ExPathBuf(PathBuf);

/// Extension of the file that holds the stored index of an input file.
pub const INDEX_EXTENSION: &'static str = "idx.dat";

/// Number of worker threads where none is given.
pub const DEFAULT_THREADS: usize = 4;

/// Number of documents in a batch where none is given.
pub const DEFAULT_BATCH: usize = 100;

/// Why the settings of a run were refused.
#[derive(Clone, Copy, Debug, PartialEq, Eq, Structural)]
pub enum ConfigError {
    /// The range is not of the form `start..end` with `start <= end`.
    InvalidSlice,
    /// The range reaches past the end of the index.
    SliceOutOfBounds,
    /// A batch has to hold at least one document.
    ZeroBatch,
    /// One aggregated file was asked for, but the output path is a
    /// directory.
    OutputIsDirectory,
}

impl ConfigError {
    /// The message for this failure.
    pub open spec fn text(self) -> Seq<char> {
        match self {
            ConfigError::InvalidSlice => "Invalid slice format"@,
            ConfigError::SliceOutOfBounds => "Slice reaches past the end of the index"@,
            ConfigError::ZeroBatch => "Batch size must be at least 1"@,
            ConfigError::OutputIsDirectory => "Output path must be a file when using --single"@,
        }
    }

    /// The message for this failure.
    pub fn message(&self) -> (text: String)
        ensures
            text@ == self.text(),
    {
        match self {
            ConfigError::InvalidSlice => String::from_str("Invalid slice format"),
            ConfigError::SliceOutOfBounds => String::from_str(
                "Slice reaches past the end of the index",
            ),
            ConfigError::ZeroBatch => String::from_str("Batch size must be at least 1"),
            ConfigError::OutputIsDirectory => String::from_str(
                "Output path must be a file when using --single",
            ),
        }
    }
}

/// How the documents leave the program.
#[derive(Clone, Copy, Debug, PartialEq, Eq, Structural)]
pub enum OutputMode {
    /// One file for each document, inside the output directory.
    PerDocument,
    /// One file that holds every document as an item of one array.
    Single,
}

/// Where the boundary index of a run comes from.
#[derive(Clone, Copy, Debug, PartialEq, Eq, Structural)]
pub enum IndexSource {
    /// Read the stored index.
    Stored,
    /// Scan the input and store the index that results.
    Scan,
}

/// The settings of a run.
#[derive(Debug)]
pub struct Args {
    /// The input file to read.
    pub input: PathBuf,
    /// The output directory, or the output file of an aggregated run.
    pub output: PathBuf,
    /// The number of worker threads.
    pub threads: usize,
    /// How many documents a worker holds in memory at a time.
    pub batch: usize,
    /// Scan the input again even where a stored index exists.
    pub inspect: bool,
    /// Write indented output.
    pub pretty: bool,
    /// Restrict the run to a range of positions of the index.
    pub slice: Option<String>,
    /// A script to run on each document.
    pub script: Option<PathBuf>,
    /// Write every document into one file, as the items of one array.
    pub single: bool,
    /// Leave out and report a document that fails, where the run would
    /// otherwise end at the first failure.
    pub skip_failed: bool,
}

impl Args {
    /// The range that the settings select, as a model.
    pub open spec fn selected(&self) -> Result<(Bound, Bound), ConfigError> {
        match self.slice {
            Some(text) => slice_of(text@),
            None => Ok((Bound::Unbounded, Bound::Unbounded)),
        }
    }

    /// Settings for an input and an output with every option left at its
    /// default.
    pub fn new(input: PathBuf, output: PathBuf) -> (args: Args)
        ensures
            args.input == input,
            args.output == output,
            args.threads == DEFAULT_THREADS,
            args.batch == DEFAULT_BATCH,
            !args.inspect,
            !args.pretty,
            args.slice is None,
            args.script is None,
            !args.single,
            !args.skip_failed,
    {
        Args {
            input,
            output,
            threads: DEFAULT_THREADS,
            batch: DEFAULT_BATCH,
            inspect: false,
            pretty: false,
            slice: None,
            script: None,
            single: false,
            skip_failed: false,
        }
    }

    /// The range of positions that the run is restricted to: the whole
    /// index where no range is given.
    pub fn range(&self) -> (r: Result<(Bound, Bound), ConfigError>)
        ensures
            r == self.selected(),
    {
        match &self.slice {
            Some(text) => parse_slice(text.as_str()),
            None => Ok((Bound::Unbounded, Bound::Unbounded)),
        }
    }

    /// The size of a batch, which may not be zero.
    pub fn batch_size(&self) -> (r: Result<usize, ConfigError>)
        ensures
            r == (if self.batch == 0 {
                Err::<usize, ConfigError>(ConfigError::ZeroBatch)
            } else {
                Ok::<usize, ConfigError>(self.batch)
            }),
    {
        if self.batch == 0 {
            Err(ConfigError::ZeroBatch)
        } else {
            Ok(self.batch)
        }
    }

    /// How the documents leave the program. One aggregated file cannot be
    /// written where the output path is a directory.
    pub fn output_mode(&self, output_is_dir: bool) -> (r: Result<OutputMode, ConfigError>)
        ensures
            r == (if self.single && output_is_dir {
                Err::<OutputMode, ConfigError>(ConfigError::OutputIsDirectory)
            } else if self.single {
                Ok::<OutputMode, ConfigError>(OutputMode::Single)
            } else {
                Ok::<OutputMode, ConfigError>(OutputMode::PerDocument)
            }),
    {
        if self.single && output_is_dir {
            Err(ConfigError::OutputIsDirectory)
        } else if self.single {
            Ok(OutputMode::Single)
        } else {
            Ok(OutputMode::PerDocument)
        }
    }

    /// What the run does when a document fails: it ends at the first
    /// failure, unless the settings ask to skip failed documents.
    pub fn failure_policy(&self) -> (r: FailurePolicy)
        ensures
            r == (if self.skip_failed {
                FailurePolicy::Skip
            } else {
                FailurePolicy::Abort
            }),
    {
        if self.skip_failed {
            FailurePolicy::Skip
        } else {
            FailurePolicy::Abort
        }
    }

    /// Whether the output is indented: only files of single documents are,
    /// the one aggregated array is always written compact.
    pub fn indents(&self) -> (r: bool)
        ensures
            r == (self.pretty && !self.single),
    {
        self.pretty && !self.single
    }

    /// Whether the output directory has to be created first.
    pub fn creates_output_dir(&self, output_exists: bool) -> (r: bool)
        ensures
            r == (!output_exists && !self.single),
    {
        !output_exists && !self.single
    }

    /// Where the index comes from: a stored index is used where there is
    /// one, unless a fresh scan was asked for.
    pub fn index_source(&self, stored_index_exists: bool) -> (r: IndexSource)
        ensures
            r == (if stored_index_exists && !self.inspect {
                IndexSource::Stored
            } else {
                IndexSource::Scan
            }),
    {
        if stored_index_exists && !self.inspect {
            IndexSource::Stored
        } else {
            IndexSource::Scan
        }
    }
}

} // verus!
