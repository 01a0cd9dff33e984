//! Per-user traffic accounting.
//!
//! Two proxy servers count what each user sends and receives. At regular intervals, and on request,
//! the counters are fetched, told apart by user ([`xray`], [`hysteria`], [`users`], [`samples`])
//! and written to a database ([`lark`], [`refresh`]); a query reports the records and each user's
//! sum over the month ([`report`]). [`worker`] decides when to refresh and whom to answer.
//!
//! [`store`], [`outcome`] and [`ledger`] state what the database holds after a refresh, and what a
//! query makes of it.
use vstd::prelude::*;

pub mod calendar;
pub mod casts;
pub mod hysteria;
pub mod json;
pub mod lark;
pub mod ledger;
pub mod listing;
pub mod outcome;
pub mod refresh;
pub mod report;
pub mod samples;
pub mod store;
pub mod text;
pub mod users;
pub mod worker;
pub mod xray;

verus! {

/// The configuration of the service.
#[derive(Debug)]
pub struct Config {
    /// What queries are to give as the header `Authorization`.
    pub token: String,
    pub lark: lark::Config,
}

/// The address of the database in a file.
pub fn db_url(path: &str) -> (url: String)
    ensures
        url@ == "sqlite://"@ + path@,
{
    let mut url = "sqlite://".to_owned();
    url.append(path);
    url
}

} // verus!
