//! The shape of a dashboard definition: named rows of widgets, each widget
//! one query against one backend.

use vstd::prelude::*;

verus! {

/// One panel of a dashboard.
#[derive(Clone, PartialEq, Debug)]
pub enum Widget {
    /// A chart of the query's series over time.
    TimeSeries { name: String, query: String, source: String },
    /// The query's latest value.
    Stat { name: String, query: String, source: String },
}

/// One row of panels.
#[derive(Clone, Debug)]
pub struct Row {
    pub widgets: Vec<Widget>,
}

/// A named dashboard.
#[derive(Clone, Debug)]
pub struct Dashboard {
    pub name: String,
    pub rows: Vec<Row>,
}

} // verus!
