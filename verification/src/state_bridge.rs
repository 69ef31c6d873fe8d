//! The boundary to what is kept: an append-only log, one record per line.

use crate::state::AppState;
use crate::text::push_char;
use vstd::prelude::*;

verus! {

/// The name of the log inside the data directory.
pub const LOG_FILE: &'static str = "observations.jsonl";

/// Where the log is. The file is made on the first write and is only ever
/// appended to.
#[derive(Clone, Debug)]
pub struct StateBridge {
    dir: String,
}

impl View for StateBridge {
    type V = Seq<char>;

    /// The directory that holds the log.
    closed spec fn view(&self) -> Seq<char> {
        self.dir@
    }
}

/// What is appended to the log for `line`: the line and a line feed.
pub open spec fn framed(line: Seq<char>) -> Seq<char> {
    line.push('\n')
}

impl StateBridge {
    /// The bridge to the log in the state's data directory.
    pub fn new(state: &AppState) -> (bridge: Self)
        ensures
            bridge@ == state.data_dir@,
    {
        StateBridge { dir: state.data_dir.clone() }
    }

    /// The directory that holds the log.
    pub fn dir(&self) -> (r: &str)
        ensures
            r@ == self@,
    {
        self.dir.as_str()
    }

    /// The name of the log inside its directory.
    pub fn file_name(&self) -> (r: &'static str)
        ensures
            r@ == LOG_FILE@,
    {
        LOG_FILE
    }

    /// What is to be appended to the log, in one write, to record `line`.
    pub fn record_jsonl(&self, line: &str) -> (payload: String)
        ensures
            payload@ == framed(line@),
    {
        let mut payload = line.to_owned();
        push_char(&mut payload, '\n');
        payload
    }
}

} // verus!
