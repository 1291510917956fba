//! The liveness report: the service is healthy exactly when both the
//! outbound connectivity probe and the store probe succeeded.  The
//! probes themselves are I/O and run outside this crate; their plain
//! boolean outcomes and a pre-formatted timestamp are handed in.

use vstd::prelude::*;

verus! {

/// The health report returned by `GET /health`.
#[derive(Clone, Debug, PartialEq)]
pub struct ServerHealth {
    pub name: String,
    pub version: String,
    pub status: String,
    pub internet_connection: bool,
    pub database_functionality: bool,
    pub documentation: String,
    pub source_code: String,
    pub last_updated: String,
}

/// Builds the health report: `status` is `healthy` exactly when both
/// sub-checks passed, and the boolean details echo the probe results.
pub fn health(
    version: &str,
    internet_connection: bool,
    database_functionality: bool,
    last_updated: &str,
) -> (r: ServerHealth)
    ensures
        r.status@ == (if internet_connection && database_functionality {
            "healthy"@
        } else {
            "unhealthy"@
        }),
        r.internet_connection == internet_connection,
        r.database_functionality == database_functionality,
        r.version@ == version@,
        r.last_updated@ == last_updated@,
        r.name@ == "besinveri-api"@,
        r.documentation@ == "https://github.com/karahanbuhan/besinveri-api"@,
        r.source_code@ == "https://github.com/karahanbuhan/besinveri-api"@,
{
    let status = if internet_connection && database_functionality {
        "healthy"
    } else {
        "unhealthy"
    };
    ServerHealth {
        name: "besinveri-api".to_owned(),
        version: version.to_owned(),
        status: status.to_owned(),
        internet_connection: internet_connection,
        database_functionality: database_functionality,
        documentation: "https://github.com/karahanbuhan/besinveri-api".to_owned(),
        source_code: "https://github.com/karahanbuhan/besinveri-api".to_owned(),
        last_updated: last_updated.to_owned(),
    }
}

} // verus!
