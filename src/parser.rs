use vstd::prelude::*;
use crate::parser::error::PError;
use crate::parser::token::LqToken;

pub mod common;
pub mod error;
pub mod token;

verus! {

/// A lexed token sequence; parsers read it from a cursor index.
pub type Input<'a> = &'a [LqToken<'a>];

/// What a parser returns: the cursor after what it read, with the value read;
/// or why it failed, the cursor then being left where it was.
pub type PResult<O> = Result<(usize, O), PError>;

} // verus!
