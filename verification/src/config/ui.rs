//! Terminal UI and visual feedback configuration.

use vstd::prelude::*;

verus! {

/// Visual feedback configuration for terminal reporting.
#[derive(Debug, Clone, Copy, PartialEq, Eq, Structural)]
pub struct UIConfig {
    /// Line threshold to trigger the 'lemon' warning.
    pub lemon_threshold: usize,
    /// Line threshold to trigger the 'bitter' error status.
    pub bitter_threshold: usize,
}

pub fn default_lemon_threshold() -> (r: usize)
    ensures
        r == 200,
{
    200
}

pub fn default_bitter_threshold() -> (r: usize)
    ensures
        r == 400,
{
    400
}

impl Default for UIConfig {
    fn default() -> (r: Self)
        ensures
            r.lemon_threshold == 200 && r.bitter_threshold == 400,
    {
        UIConfig { lemon_threshold: 200, bitter_threshold: 400 }
    }
}

/// The mark that a file's length earns in the terminal report.
#[derive(Debug, Clone, Copy, PartialEq, Eq, Structural)]
pub enum LengthMark {
    /// Within the lemon threshold.
    Plain,
    /// Above the lemon threshold.
    Lemon,
    /// Above the bitter threshold.
    Bitter,
}

impl UIConfig {
    /// How a file of `lines` lines is marked: bitter above the bitter
    /// threshold, else lemon above the lemon threshold.
    pub fn length_mark(&self, lines: usize) -> (r: LengthMark)
        ensures
            r == if lines > self.bitter_threshold {
                LengthMark::Bitter
            } else if lines > self.lemon_threshold {
                LengthMark::Lemon
            } else {
                LengthMark::Plain
            },
    {
        if lines > self.bitter_threshold {
            LengthMark::Bitter
        } else if lines > self.lemon_threshold {
            LengthMark::Lemon
        } else {
            LengthMark::Plain
        }
    }
}

} // verus!
