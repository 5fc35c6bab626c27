//! What the server shares between its handlers, and how booting fails.

use std::sync::Arc;
use vstd::prelude::*;

use crate::ai::AIService;
use crate::config::ConfigService;

verus! {

/// The services every request handler can reach.
#[derive(Clone)]
pub struct AppState {
    pub config_service: Arc<ConfigService>,
    pub ai_service: Arc<AIService>,
}

/// Why the server could not start or stopped serving.
#[derive(Debug)]
pub enum BootError {
    Bind { address: String, error: String },
    Server { error: String },
}

/// Calls `Arc::clone`, which gives another pointer to the same value.
/// Claimed: the new pointer points to a value equal to the old one.
#[verifier::external_body]
fn share<T>(shared: &Arc<T>) -> (copy: Arc<T>)
    ensures
        copy == *shared,
{
    Arc::clone(shared)
}

/// Builds the services once: the configuration, and the generator that reads
/// its token from that same configuration. Never fails.
pub fn create_app_state() -> (res: Result<AppState, BootError>)
    ensures
        res matches Ok(state) && *state.config_service == (ConfigService {}) && state.ai_service.config()
            == state.config_service,
{
    let config_service = Arc::new(ConfigService::new());
    let ai_service = Arc::new(AIService::new(share(&config_service)));
    Ok(AppState { config_service: share(&config_service), ai_service: share(&ai_service) })
}

} // verus!
