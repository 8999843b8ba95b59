use vstd::prelude::*;

verus! {

/// The addresses of the services that the daemon talks to.
pub struct Config {
    pub info_management_address: String,
    pub flowdeploy_backend_address: String,
    pub pgsql_address: String,
}

} // verus!
