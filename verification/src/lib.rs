pub mod hexcodec;
pub mod events;
pub mod store;
pub mod laws;
pub mod tracker;

use vstd::prelude::*;

verus! {

/// The configuration record the environment hands the process.
pub struct Args {
    pub db_url: String,
    pub rpc_url: String,
    pub rpc_user: String,
    pub rpc_password: String,
    pub network: String,
}

/// Returns the starting block height for a named network.
pub fn first_block_for_network(network: &String) -> (r: u64)
    ensures
        network@ == "mainnet"@ ==> r == 912690,
        network@ != "mainnet"@ && network@ == "signet"@ ==> r == 230000,
        network@ != "mainnet"@ && network@ != "signet"@ ==> r == 0,
{
    if *network == String::from_str("mainnet") {
        912690
    } else if *network == String::from_str("signet") {
        230000
    } else {
        0
    }
}

} // verus!
