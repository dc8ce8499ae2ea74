//! Run configuration and its validation.

use vstd::prelude::*;
use crate::pattern::{regex_valid, Pattern};

verus! {

/// How frames are transformed before they are emitted.
#[derive(Clone, Copy, Debug, PartialEq, Eq, Structural)]
pub enum TokenMode {
    Raw,
    Compact,
    Parsed,
}

/// How frame payloads are compressed.
#[derive(Clone, Copy, Debug, PartialEq, Eq, Structural)]
pub enum CompressionMode {
    Plain,
}

/// The settings of one run. Paths are held as text.
pub struct Cli {
    pub json: bool,
    pub socket: Option<String>,
    pub bind: Option<String>,
    pub cols: u16,
    pub rows: u16,
    pub idle: u64,
    pub token_mode: TokenMode,
    pub prompt_regex: Vec<String>,
    pub buffer: usize,
    pub overflow_timeout: u64,
    pub record: Option<String>,
    pub capsule: bool,
    pub sandbox_profile: Option<String>,
    pub state_dir: Option<String>,
    pub compress: CompressionMode,
    pub verbose: bool,
    pub command: String,
    pub args: Vec<String>,
}

/// Why a configuration was refused.
pub enum ConfigError {
    /// A window dimension is zero.
    InvalidWindowSize,
    /// The idle timeout is zero.
    InvalidIdleTimeout,
    /// The back-pressure budget is zero.
    InvalidBufferSize,
    /// A prompt pattern does not compile; it is carried along.
    InvalidPromptPattern(String),
}

/// Whether every pattern of `ps` compiles.
pub open spec fn all_patterns_valid(ps: Seq<String>) -> bool {
    forall|i: int| 0 <= i < ps.len() ==> regex_valid(#[trigger] ps[i]@)
}

/// Relies on `Duration::from_millis`.
#[verifier::external_body]
fn duration_from_millis(ms: u64) -> std::time::Duration {
    std::time::Duration::from_millis(ms)
}

impl Cli {
    /// The idle threshold as a duration.
    pub fn idle_duration(&self) -> std::time::Duration {
        duration_from_millis(self.idle)
    }

    /// The grace period before a forced kill on overflow, as a duration.
    pub fn overflow_timeout(&self) -> std::time::Duration {
        duration_from_millis(self.overflow_timeout)
    }

    /// Checks, in this order, the window size, the idle timeout, the buffer
    /// budget and every prompt pattern; reports the first that fails.
    pub fn validate(&self) -> (r: Result<(), ConfigError>)
        ensures
            r is Ok <==> (self.cols > 0 && self.rows > 0 && self.idle > 0 && self.buffer > 0
                && all_patterns_valid(self.prompt_regex@)),
            (r matches Err(ConfigError::InvalidWindowSize)) <==> (self.cols == 0 || self.rows == 0),
            (r matches Err(ConfigError::InvalidIdleTimeout)) <==> (self.cols > 0 && self.rows > 0
                && self.idle == 0),
            (r matches Err(ConfigError::InvalidBufferSize)) <==> (self.cols > 0 && self.rows > 0
                && self.idle > 0 && self.buffer == 0),
            r matches Err(ConfigError::InvalidPromptPattern(p)) ==> exists|i: int|
                0 <= i < self.prompt_regex@.len() && self.prompt_regex@[i]@ == p@ && !regex_valid(p@)
                    && all_patterns_valid(self.prompt_regex@.take(i)),
    {
        if self.cols == 0 || self.rows == 0 {
            return Err(ConfigError::InvalidWindowSize);
        }
        if self.idle == 0 {
            return Err(ConfigError::InvalidIdleTimeout);
        }
        if self.buffer == 0 {
            return Err(ConfigError::InvalidBufferSize);
        }
        let mut i: usize = 0;
        while i < self.prompt_regex.len()
            invariant
                i <= self.prompt_regex@.len(),
                self.cols > 0 && self.rows > 0 && self.idle > 0 && self.buffer > 0,
                all_patterns_valid(self.prompt_regex@.take(i as int)),
            decreases self.prompt_regex@.len() - i,
        {
            match Pattern::new(self.prompt_regex[i].as_str()) {
                Ok(_) => {},
                Err(e) => {
                    assert(self.prompt_regex@[i as int]@ == e.pattern@);
                    assert(!all_patterns_valid(self.prompt_regex@)) by {
                        assert(!regex_valid(self.prompt_regex@[i as int]@));
                    }
                    return Err(ConfigError::InvalidPromptPattern(e.pattern));
                },
            }
            assert forall|j: int| 0 <= j < i + 1 implies regex_valid(
                #[trigger] self.prompt_regex@.take(i + 1)[j]@,
            ) by {
                if j < i {
                    assert(self.prompt_regex@.take(i + 1)[j] == self.prompt_regex@.take(i as int)[j]);
                }
            }
            i = i + 1;
        }
        assert(self.prompt_regex@.take(i as int) == self.prompt_regex@);
        Ok(())
    }
}

} // verus!
