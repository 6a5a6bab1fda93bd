//! A passphrase generator in the XKCD style: words drawn from a dictionary,
//! case transforms, separators, digit and symbol padding, and an estimate
//! of the result's strength.

pub mod bit_flags;
pub mod cli;
pub mod describe;
pub mod estimate;
pub mod parse;
pub mod prelude;
pub mod random;
pub mod settings;
pub mod text;
