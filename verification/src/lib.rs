//! Reconstruction engine for an unknown labeled multigraph ("the
//! library") explored through an oracle: plans of door openings and
//! marking probes come back as event streams, equivalent conjecture
//! nodes are merged under a union-find discipline, and the final merged
//! conjecture is emitted as a guess map.

use vstd::prelude::*;

pub mod engine;
pub mod graph;
pub mod layered;
pub mod union_find;

verus! {

/// Named problem instances offered by the oracle, each with a fixed
/// room count and, for the layered instances, a layer count.
#[derive(Clone, Copy, PartialEq, Eq, Structural, Debug)]
pub enum Problem {
    Probatio,
    Primus,
    Secundus,
    Tertius,
    Quartus,
    Quintus,
    Aleph,
    Beth,
    Gimel,
    Daleth,
    He,
    Vau,
    Zain,
    Hhet,
    Teth,
    Iod,
}

impl Problem {
    /// Wire name of the problem.
    pub open spec fn spec_name(self) -> Seq<char> {
        match self {
            Problem::Probatio => "probatio"@,
            Problem::Primus => "primus"@,
            Problem::Secundus => "secundus"@,
            Problem::Tertius => "tertius"@,
            Problem::Quartus => "quartus"@,
            Problem::Quintus => "quintus"@,
            Problem::Aleph => "aleph"@,
            Problem::Beth => "beth"@,
            Problem::Gimel => "gimel"@,
            Problem::Daleth => "daleth"@,
            Problem::He => "he"@,
            Problem::Vau => "vau"@,
            Problem::Zain => "zain"@,
            Problem::Hhet => "hhet"@,
            Problem::Teth => "teth"@,
            Problem::Iod => "iod"@,
        }
    }

    pub fn to_str(&self) -> (r: &str)
        ensures
            r@ == self.spec_name(),
    {
        match self {
            Problem::Probatio => "probatio",
            Problem::Primus => "primus",
            Problem::Secundus => "secundus",
            Problem::Tertius => "tertius",
            Problem::Quartus => "quartus",
            Problem::Quintus => "quintus",
            Problem::Aleph => "aleph",
            Problem::Beth => "beth",
            Problem::Gimel => "gimel",
            Problem::Daleth => "daleth",
            Problem::He => "he",
            Problem::Vau => "vau",
            Problem::Zain => "zain",
            Problem::Hhet => "hhet",
            Problem::Teth => "teth",
            Problem::Iod => "iod",
        }
    }

    /// Number of rooms of the hidden library.
    pub open spec fn spec_size(self) -> int {
        match self {
            Problem::Probatio => 3,
            Problem::Primus => 6,
            Problem::Secundus => 12,
            Problem::Tertius => 18,
            Problem::Quartus => 24,
            Problem::Quintus => 30,
            Problem::Aleph => 12,
            Problem::Beth => 24,
            Problem::Gimel => 36,
            Problem::Daleth => 48,
            Problem::He => 60,
            Problem::Vau => 18,
            Problem::Zain => 36,
            Problem::Hhet => 54,
            Problem::Teth => 72,
            Problem::Iod => 90,
        }
    }

    pub fn problem_size(&self) -> (n: usize)
        ensures
            n == self.spec_size(),
            1 <= n <= 90,
    {
        match self {
            Problem::Probatio => 3,
            Problem::Primus => 6,
            Problem::Secundus => 12,
            Problem::Tertius => 18,
            Problem::Quartus => 24,
            Problem::Quintus => 30,
            Problem::Aleph => 12,
            Problem::Beth => 24,
            Problem::Gimel => 36,
            Problem::Daleth => 48,
            Problem::He => 60,
            Problem::Vau => 18,
            Problem::Zain => 36,
            Problem::Hhet => 54,
            Problem::Teth => 72,
            Problem::Iod => 90,
        }
    }

    /// Layer count `L` for layered instances (`N = L * G` canonical
    /// rooms repeated over `L` layers); 1 for the plain instances.
    pub open spec fn spec_layers(self) -> int {
        match self {
            Problem::Probatio => 1,
            Problem::Primus => 1,
            Problem::Secundus => 1,
            Problem::Tertius => 1,
            Problem::Quartus => 1,
            Problem::Quintus => 1,
            Problem::Aleph => 2,
            Problem::Beth => 2,
            Problem::Gimel => 2,
            Problem::Daleth => 2,
            Problem::He => 2,
            Problem::Vau => 3,
            Problem::Zain => 3,
            Problem::Hhet => 3,
            Problem::Teth => 3,
            Problem::Iod => 3,
        }
    }

    pub fn layer_count(&self) -> (l: usize)
        ensures
            l == self.spec_layers(),
            1 <= l <= 3,
            self.spec_size() % self.spec_layers() == 0,
    {
        match self {
            Problem::Probatio => 1,
            Problem::Primus => 1,
            Problem::Secundus => 1,
            Problem::Tertius => 1,
            Problem::Quartus => 1,
            Problem::Quintus => 1,
            Problem::Aleph => 2,
            Problem::Beth => 2,
            Problem::Gimel => 2,
            Problem::Daleth => 2,
            Problem::He => 2,
            Problem::Vau => 3,
            Problem::Zain => 3,
            Problem::Hhet => 3,
            Problem::Teth => 3,
            Problem::Iod => 3,
        }
    }
}

/// Which oracle backend a run talks to; decides the dump directory.
#[derive(Clone, Copy, PartialEq, Eq, Structural, Debug)]
pub enum BackendType {
    Mock,
    Official,
}

impl BackendType {
    pub open spec fn spec_directory(self) -> Seq<char> {
        match self {
            BackendType::Mock => "mock"@,
            BackendType::Official => "graph-dump"@,
        }
    }

    pub fn directory(&self) -> (r: &str)
        ensures
            r@ == self.spec_directory(),
    {
        match self {
            BackendType::Mock => "mock",
            BackendType::Official => "graph-dump",
        }
    }
}

/// One side of a connection: a door on a room of the guess map.
#[derive(Clone, Copy, PartialEq, Eq, Structural, Debug)]
pub struct Vertex {
    pub room: usize,
    pub door: usize,
}

/// An undirected door pairing of the guess map, listed once.
#[derive(Clone, Copy, PartialEq, Eq, Structural, Debug)]
pub struct Connection {
    pub from: Vertex,
    pub to: Vertex,
}

/// The full candidate map handed to the oracle's guess endpoint.
#[derive(Clone, Debug)]
pub struct GuessRequestMap {
    pub rooms: Vec<u8>,
    pub starting_room: usize,
    pub connections: Vec<Connection>,
}

/// The oracle's verdict on a guess.
#[derive(Clone, Copy, PartialEq, Eq, Structural, Debug)]
pub struct GuessResponse {
    pub correct: bool,
}

/// One observation of an exploration event stream.
#[derive(Clone, Copy, PartialEq, Eq, Structural, Debug)]
pub enum Event {
    VisitRoom { label: u8 },
    Overwrite { label: u8 },
    OpenDoor { door: usize },
}

/// One action of an exploration plan: open a door, or overwrite the
/// current room's label with charcoal.
#[derive(Clone, Copy, PartialEq, Eq, Structural, Debug)]
pub enum ExploreQuery {
    Open { door: usize },
    Charcoal { label: u8 },
}

impl ExploreQuery {
    pub fn open(door: usize) -> (r: Self)
        ensures
            r == (ExploreQuery::Open { door }),
    {
        Self::Open { door }
    }

    pub fn charcoal(label: u8) -> (r: Self)
        ensures
            r == (ExploreQuery::Charcoal { label }),
    {
        Self::Charcoal { label }
    }
}

/// Failures the engine surfaces instead of repairing: transport-level
/// malformed event streams and fatal conjecture-invariant violations.
#[derive(Clone, Copy, PartialEq, Eq, Structural, Debug)]
pub enum EngineError {
    /// An event stream does not fit its plan, or carries an
    /// out-of-range label or door.
    MalformedEvents,
    /// An event replay ran into a door the conjecture holds closed.
    ClosedDoor,
    /// A probe marked no node: it proves nothing, a protocol error.
    EmptyMarkSet,
    /// After a closure sweep some class still disagrees on a door.
    InconsistentGroups,
    /// The guess builder found no unused reverse door for a pairing.
    MissingReverseDoor,
    /// The merged conjecture has a different number of reachable
    /// classes than the problem's room count.
    WrongRoomCount,
    /// A door's target class carries no dense room index.
    UnindexedClass,
    /// The oracle rejected the submitted guess map.
    GuessRejected,
}

} // verus!
