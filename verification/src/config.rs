//! Configuration of the server.

use vstd::prelude::*;

verus! {

/// The settings the server runs with.
pub struct Config {
    pub ai_service_auth_token: String,
}

/// Hands out the configuration.
pub struct ConfigService {}

impl ConfigService {
    pub fn new() -> (service: Self)
        ensures
            service == (ConfigService {}),
    {
        ConfigService {}
    }
}

} // verus!
