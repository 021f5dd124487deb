//! Configuration of the delivery transport.  Loading it from a
//! configuration file is the embedding program's business; the library only
//! carries the values.

use vstd::prelude::*;

verus! {

/// What the mail transport needs to know.
#[derive(Clone, Debug)]
pub struct Config {
    pub recipient: String,
    pub smtp_server: String,
    pub smtp_username: String,
    pub smtp_password: String,
}

} // verus!
