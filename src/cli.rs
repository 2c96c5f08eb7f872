use vstd::prelude::*;
use crate::config::ConfigError;

verus! {

/// The command-line arguments: the configuration file, whether statistics
/// are printed, and an optional output path.
#[derive(Debug)]
pub struct Cli {
    pub config: String,
    pub stats: bool,
    pub path: Option<String>,
}

impl Cli {
    /// Checks the arguments against what exists on disk: `config_exists`
    /// says whether the configuration file exists, `path_exists` whether
    /// the output path exists (it is not looked at when no path is given).
    pub fn validate_args(&self, config_exists: bool, path_exists: bool) -> (r: Result<(), ConfigError>)
        ensures
            !config_exists ==> r == Err::<(), ConfigError>(ConfigError::ConfigFileNotFound),
            config_exists && self.path is Some && !path_exists ==> r == Err::<(), ConfigError>(
                ConfigError::OutputPathNotFound,
            ),
            r is Ok <==> config_exists && (self.path is None || path_exists),
    {
        if !config_exists {
            return Err(ConfigError::ConfigFileNotFound);
        }
        if self.path.is_some() && !path_exists {
            return Err(ConfigError::OutputPathNotFound);
        }
        Ok(())
    }
}

} // verus!
