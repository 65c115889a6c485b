//! The commands of the tool and their arguments, as plain values.

use vstd::prelude::*;

verus! {

/// The tool's arguments: where the configuration and the state are kept, and
/// what to do.
#[derive(Clone, Debug)]
pub struct CliArgs {
    pub config: String,
    pub state: String,
    pub command: Commands,
}

#[derive(Clone, Debug)]
pub enum Commands {
    Render(Render),
    AddPr(AddPr),
}

/// Render the changelog of the release in progress.
#[derive(Clone, Debug)]
pub struct Render {
    pub version: Option<String>,
}

/// Add pull requests to the release in progress: those given by number, or
/// those merged since a moment or since a reference's commit.
#[derive(Clone, Debug)]
pub struct AddPr {
    pub since_timestamp: Option<u64>,
    pub since_ref: Option<String>,
    pub prs: Vec<u64>,
}

/// Which pull requests an `AddPr` asks for.
#[derive(Clone, Debug)]
pub enum PrSelection {
    /// Each of these numbers, looked up one by one.
    Numbers(Vec<u64>),
    /// Those merged after this many seconds since the epoch.
    SinceTimestamp(u64),
    /// Those merged after the commit time of this reference.
    SinceRef(String),
}

impl AddPr {
    /// The selection: a reference wins over a moment, and either over the
    /// numbers.
    pub fn selection(&self) -> (r: PrSelection)
        ensures
            self.since_ref matches Some(g) ==> (r matches PrSelection::SinceRef(h) && h@ == g@),
            self.since_ref is None ==> (self.since_timestamp matches Some(t) ==> r == PrSelection::SinceTimestamp(t)),
            self.since_ref is None && self.since_timestamp is None ==> (r matches PrSelection::Numbers(v) && v@ == self.prs@),
    {
        match &self.since_ref {
            Some(g) => PrSelection::SinceRef(g.clone()),
            None => match self.since_timestamp {
                Some(t) => PrSelection::SinceTimestamp(t),
                None => PrSelection::Numbers(self.prs.clone()),
            },
        }
    }
}

} // verus!
