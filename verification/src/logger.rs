//! Message severities of the older in-tree logger.

use vstd::prelude::*;

verus! {

/// A message's severity, `Debug` the lowest.
#[derive(Clone, Copy, Debug, PartialEq, Eq, Structural)]
pub enum Level {
    Debug,
    Info,
    Warn,
}

/// The rank of a severity.
pub open spec fn level_rank(l: Level) -> i64 {
    match l {
        Level::Debug => 0,
        Level::Info => 1,
        Level::Warn => 2,
    }
}

impl Level {
    /// The severity's rank, as a signed number.
    pub fn to_i64(&self) -> (r: Option<i64>)
        ensures
            r == Option::Some(level_rank(*self)),
    {
        match self {
            Level::Debug => Option::Some(0),
            Level::Info => Option::Some(1),
            Level::Warn => Option::Some(2),
        }
    }

    /// The severity's rank, as an unsigned number.
    pub fn to_u64(&self) -> (r: Option<u64>)
        ensures
            r == Option::Some(level_rank(*self) as u64),
    {
        match self.to_i64() {
            Option::Some(v) => Option::Some(v as u64),
            Option::None => Option::None,
        }
    }
}

} // verus!
