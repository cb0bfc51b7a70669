//! The server's startup configuration: a corpus path and a listening port,
//! read once from the argument list and immutable from then on.

use vstd::prelude::*;

use crate::errors::ErrorKind;
use crate::numbers::parsed_u16;

verus! {

/// The server's configuration.
pub struct Config {
    pub path: String,
    pub port: u16,
}

/// Reads the argument list `[program, path, port]`.  Anything else -- a
/// wrong argument count, or a port that is not a 16-bit numeral -- is a
/// configuration error.
pub fn parse_args(args: Vec<String>) -> (r: Result<Config, ErrorKind>)
    ensures
        r is Ok <==> (args@.len() == 3 && parsed_u16(args@[2]@) is Some),
        r matches Ok(c) ==> c.path@ == args@[1]@ && parsed_u16(args@[2]@) == Some(c.port),
        r matches Err(e) ==> e == ErrorKind::Config,
{
    if args.len() != 3 {
        return Err(ErrorKind::Config);
    }
    let port = match crate::numbers::parse_u16(args[2].as_str()) {
        Some(p) => p,
        None => {
            return Err(ErrorKind::Config);
        },
    };
    Ok(Config { path: args[1].clone(), port })
}

} // verus!
