//! Process configuration, loaded by the surrounding program and echoed into
//! the library where the simulation needs it.

use vstd::prelude::*;

verus! {

pub struct Config {
    pub ws_port: i32,
    pub chain_id: u32,
    pub provider_http_url: String,
    pub provider_ws_url: String,
    pub secret_key: String,
    pub fee_manager_address: String,
    pub game_pool_address: String,
    pub multiplier: u32,
    pub no_entry_fee: bool,
}

} // verus!
