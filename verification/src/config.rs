//! The credential with which the data source is asked.

use vstd::prelude::*;

verus! {

/// What the run needs to know to reach the data source.
#[derive(Clone, Debug, PartialEq, Eq)]
pub struct Config {
    pub polygon_key: String,
}

impl Config {
    /// Picks the key: the one from the environment where there is one, else
    /// what the key file holds, and the error of reading that file where it
    /// could not be read.
    pub fn resolve<E>(env_key: Option<String>, file_key: Result<String, E>) -> (r: Result<
        Config,
        E,
    >)
        ensures
            r == match env_key {
                Some(key) => Ok::<Config, E>(Config { polygon_key: key }),
                None => match file_key {
                    Ok(key) => Ok::<Config, E>(Config { polygon_key: key }),
                    Err(error) => Err::<Config, E>(error),
                },
            },
    {
        match env_key {
            Some(key) => Ok(Config { polygon_key: key }),
            None => match file_key {
                Ok(key) => Ok(Config { polygon_key: key }),
                Err(error) => Err(error),
            },
        }
    }
}

} // verus!
