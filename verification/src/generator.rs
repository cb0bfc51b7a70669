//! The corpus producer's startup configuration: where to write, how many
//! matrices, and the size range to draw from.
//!
//! The producer itself -- random entries, file writes -- is an external
//! collaborator; what is verified here is how its arguments are read.  The
//! text it writes is [`crate::codec::matrix_text`].

use vstd::prelude::*;

use crate::errors::ErrorKind;
use crate::numbers::{parsed_u16, parsed_usize};

verus! {

/// The producer's configuration.
pub struct GenConfig {
    pub path: String,
    pub count: usize,
    pub min_size: u16,
    pub max_size: u16,
}

/// Reads the argument list `[program, path, count, min_size, max_size]`.
/// Anything else -- a wrong argument count, or a field that is not a
/// numeral of its type -- is a configuration error.
pub fn parse_args(args: Vec<String>) -> (r: Result<GenConfig, ErrorKind>)
    ensures
        r is Ok <==> (args@.len() == 5 && parsed_usize(args@[2]@) is Some && parsed_u16(args@[3]@)
            is Some && parsed_u16(args@[4]@) is Some),
        r matches Ok(c) ==> c.path@ == args@[1]@ && parsed_usize(args@[2]@) == Some(c.count)
            && parsed_u16(args@[3]@) == Some(c.min_size) && parsed_u16(args@[4]@) == Some(
            c.max_size,
        ),
        r matches Err(e) ==> e == ErrorKind::Config,
{
    if args.len() != 5 {
        return Err(ErrorKind::Config);
    }
    let count = match crate::numbers::parse_usize(args[2].as_str()) {
        Some(c) => c,
        None => {
            return Err(ErrorKind::Config);
        },
    };
    let min_size = match crate::numbers::parse_u16(args[3].as_str()) {
        Some(m) => m,
        None => {
            return Err(ErrorKind::Config);
        },
    };
    let max_size = match crate::numbers::parse_u16(args[4].as_str()) {
        Some(m) => m,
        None => {
            return Err(ErrorKind::Config);
        },
    };
    Ok(GenConfig { path: args[1].clone(), count, min_size, max_size })
}

} // verus!
