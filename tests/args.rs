use jsbm::{Args, ConfigError};

fn args(iterations: u32, samples: u32) -> Args {
    Args { iterations, samples, keep: false, paths: vec!["a.js".to_string()] }
}

#[test]
fn defaults_are_accepted() {
    assert_eq!(args(1, 1000).check(), Ok(()));
}

#[test]
fn zero_samples_refused() {
    assert_eq!(args(1, 0).check(), Err(ConfigError::ZeroSamples));
    assert_eq!(args(0, 0).check(), Err(ConfigError::ZeroSamples));
}

#[test]
fn too_few_samples_refused() {
    assert_eq!(args(1, 1).check(), Err(ConfigError::TooFewSamples));
    assert_eq!(args(0, 3).check(), Err(ConfigError::TooFewSamples));
    assert_eq!(args(1, 4).check(), Ok(()));
}

#[test]
fn zero_iterations_refused() {
    assert_eq!(args(0, 5).check(), Err(ConfigError::ZeroIterations));
}
