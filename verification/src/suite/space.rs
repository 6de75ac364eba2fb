//! The spacing scale: `space.<n>` is `n` steps of a quarter rem, the 4-pixel grid at the
//! default root size.

use vstd::prelude::*;

verus! {

/// Every spacing token with its name below `space` and its size in quarter-rem steps.
pub const SCALE: [(&'static str, u32); 11] = [
    ("0", 0),
    ("1", 1),
    ("2", 2),
    ("3", 3),
    ("4", 4),
    ("6", 6),
    ("8", 8),
    ("12", 12),
    ("16", 16),
    ("24", 24),
    ("32", 32),
];

} // verus!
