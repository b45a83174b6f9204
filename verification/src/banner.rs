//! The startup banner: the project wordmark in ASCII art.
//!
//! It is printed on standard error, so piped machine output stays clean.
use vstd::prelude::*;

verus! {

/// The wordmark, drawn in ASCII.
pub const BANNER: &'static str = r#"
                   __                         __
   ____ ___  ___  / /_____ _      ____ ______/ /_
  / __ `__ \/ _ \/ __/ __ `/_____/ __ `/ ___/ __/
 / / / / / /  __/ /_/ /_/ /_____/ /_/ (__  ) /_
/_/ /_/ /_/\___/\__/\__,_/      \__,_/____/\__/

"#;

/// The line printed under the wordmark.
pub const TAGLINE: &'static str = "Polyglot static analyzer - symbol extraction, cross-language dependency graphs, SCC analysis";

} // verus!
