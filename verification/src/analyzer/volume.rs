//! Line counting and file volume metrics.

use vstd::prelude::*;
use crate::text::{chars_of, lines_of, split_lines};

verus! {

/// Count the number of source lines in the content.
pub fn count_lines(content: &str) -> (r: usize)
    ensures
        r == lines_of(content@).len(),
{
    let chars = chars_of(content);
    let lines = split_lines(&chars);
    lines.len()
}

} // verus!
