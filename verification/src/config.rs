//! What the command line configures: the backend to ask and the query to run.

use vstd::prelude::*;
use vstd::string::*;

verus! {

/// The backend's base address and the query to chart.
pub struct Config {
    base_url: String,
    query: String,
}

impl View for Config {
    type V = (Seq<char>, Seq<char>);

    /// The base address and the query, in that order.
    closed spec fn view(&self) -> (Seq<char>, Seq<char>) {
        (self.base_url@, self.query@)
    }
}

impl Config {
    /// Reads the configuration from the program's arguments: the program's
    /// name, the base address and the query. Any other number of arguments
    /// is refused.
    pub fn new(args: &[String]) -> (r: Result<Config, &'static str>)
        ensures
            match r {
                Ok(c) => args@.len() == 3 && c@ == (args@[1]@, args@[2]@),
                Err(e) => args@.len() != 3 && e@ == "wrong args"@,
            },
    {
        if args.len() != 3 {
            return Err("wrong args");
        }
        let base_url = args[1].clone();
        let query = args[2].clone();
        Ok(Config { base_url, query })
    }

    /// The backend's base address.
    pub fn base_url(&self) -> (r: &String)
        ensures
            r@ == self@.0,
    {
        &self.base_url
    }

    /// The query to chart.
    pub fn query(&self) -> (r: &String)
        ensures
            r@ == self@.1,
    {
        &self.query
    }
}

} // verus!
