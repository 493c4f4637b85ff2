//! The outcome of an exchange over the link.
use vstd::prelude::*;

verus! {

/// What an exchange gave: its data, or the news that the console asked for a reset.
#[derive(Debug, PartialEq, Eq)]
pub enum SendResult<T> {
    Data(T),
    Reset,
}

} // verus!
