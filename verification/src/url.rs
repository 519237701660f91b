//! The query URLs of the two API endpoints, assembled around a caller-
//! supplied key so that no credential lives in the library.

use vstd::prelude::*;

verus! {

/// The station-list URL for the given API key.
pub fn station_list_url(key: &str) -> (u: String)
    ensures
        u@ == "https://vps267042.vps.ovh.ca/scrapi/stations?page=1,2,3,4,5,6,7,8,9,10,11counter&key="@
            + key@,
{
    let mut u = String::from_str(
        "https://vps267042.vps.ovh.ca/scrapi/stations?page=1,2,3,4,5,6,7,8,9,10,11counter&key=",
    );
    u.append(key);
    u
}

/// The flow-history URL for a station over a date range, for the given API
/// key.
pub fn flow_history_url(id: &str, start_date: &str, end_date: &str, key: &str) -> (u: String)
    ensures
        u@ == "https://vps267042.vps.ovh.ca/scrapi/station/"@ + id@ + "/flow/?startDate="@
            + start_date@ + "&endDate="@ + end_date@ + "&resultType=history&key="@ + key@,
{
    let mut u = String::from_str("https://vps267042.vps.ovh.ca/scrapi/station/");
    u.append(id);
    u.append("/flow/?startDate=");
    u.append(start_date);
    u.append("&endDate=");
    u.append(end_date);
    u.append("&resultType=history&key=");
    u.append(key);
    u
}

} // verus!
