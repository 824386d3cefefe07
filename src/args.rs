//! The run configuration.

use vstd::prelude::*;

verus! {

/// How a run is configured: the trial counts and the documents to measure.
#[derive(Debug, PartialEq, Eq)]
pub struct Args {
    /// Times the fragment's code runs within one trial.
    pub iterations: u32,
    /// Trials measured for each fragment.
    pub samples: u32,
    /// Whether the written scripts are kept after the run.
    pub keep: bool,
    /// The documents to measure.
    pub paths: Vec<String>,
}

/// Why a configuration is refused.
#[derive(Debug, Clone, Copy, PartialEq, Eq)]
pub enum ConfigError {
    /// No trial would be measured.
    ZeroSamples,
    /// Fewer than four trials: the reference positions of the outlier
    /// trimming would fall past the end of the samples.
    TooFewSamples,
    /// A trial would not run the code at all.
    ZeroIterations,
}

impl Args {
    /// Accepts a configuration with at least four samples and at least one
    /// iteration; the sample count is reported before the iteration count.
    pub fn check(&self) -> (r: Result<(), ConfigError>)
        ensures
            r is Ok <==> self.samples >= 4 && self.iterations >= 1,
            r == Err::<(), ConfigError>(ConfigError::ZeroSamples) <==> self.samples == 0,
            r == Err::<(), ConfigError>(ConfigError::TooFewSamples) <==> 1 <= self.samples < 4,
            r == Err::<(), ConfigError>(ConfigError::ZeroIterations) <==> self.samples >= 4
                && self.iterations == 0,
    {
        if self.samples == 0 {
            Err(ConfigError::ZeroSamples)
        } else if self.samples < 4 {
            Err(ConfigError::TooFewSamples)
        } else if self.iterations == 0 {
            Err(ConfigError::ZeroIterations)
        } else {
            Ok(())
        }
    }
}

} // verus!
