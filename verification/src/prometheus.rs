//! The metrics backend as this crate sees it: the address of a range query
//! and the shape of the answer.

use crate::config::Config;
use crate::decimal::Decimal;
use crate::labels::LabelSet;
use vstd::prelude::*;
use vstd::string::*;

verus! {

/// The address of the range query for `query` on the backend at `host`, from
/// the instant `from` to the instant `to` in steps of one minute.
pub open spec fn range_query_url(
    host: Seq<char>,
    query: Seq<char>,
    from: Seq<char>,
    to: Seq<char>,
) -> Seq<char> {
    host + "/api/v1/query_range?query="@ + query + "&start="@ + from + "&end="@ + to + "&step=1m"@
}

/// A backend and the query to send to it.
pub struct Prometheus {
    host_base_path: String,
    query: String,
}

impl View for Prometheus {
    type V = (Seq<char>, Seq<char>);

    /// The base address and the query, in that order.
    closed spec fn view(&self) -> (Seq<char>, Seq<char>) {
        (self.host_base_path@, self.query@)
    }
}

impl Prometheus {
    /// The backend and query that `config` names.
    pub fn new(config: Config) -> (r: Prometheus)
        ensures
            r@ == config@,
    {
        Prometheus { host_base_path: config.base_url().clone(), query: config.query().clone() }
    }

    /// The address to fetch for the samples between the instants `from` and
    /// `to`.
    pub fn range_url(&self, from: &str, to: &str) -> (r: String)
        ensures
            r@ == range_query_url(self@.0, self@.1, from@, to@),
    {
        let mut url = self.host_base_path.clone();
        url.append("/api/v1/query_range?query=");
        url.append(self.query.as_str());
        url.append("&start=");
        url.append(from);
        url.append("&end=");
        url.append(to);
        url.append("&step=1m");
        url
    }
}

/// One sample: the time it was taken, in seconds since the epoch, and its
/// value as the backend wrote it.
#[derive(Clone, Debug)]
pub struct QueryValue(pub Decimal, pub String);

/// One series: its labels and its samples in the order received.
#[derive(Clone, Debug)]
pub struct QueryResult {
    pub metric: LabelSet,
    pub values: Vec<QueryValue>,
}

/// The series of an answer, in the order received.
#[derive(Clone, Debug)]
pub struct QueryData {
    pub result_type: String,
    pub result: Vec<QueryResult>,
}

/// A whole answer of the backend.
#[derive(Clone, Debug)]
pub struct QueryResponse {
    pub status: String,
    pub data: QueryData,
}

impl QueryResponse {
    /// Whether the backend ran the query: the answer's status is `success`.
    pub fn is_success(&self) -> (r: bool)
        ensures
            r == (self.status@ == "success"@),
    {
        let success = "success".to_owned();
        self.status == success
    }
}

} // verus!
