//! The connection handshake options message.
use std::collections::HashMap;
use vstd::prelude::*;

verus! {

/// The options a client sends when it opens a connection, by option name.
pub struct Startup {
    pub options: HashMap<String, String>,
}

} // verus!
