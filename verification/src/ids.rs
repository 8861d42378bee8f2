//! Operation and object identities.
use vstd::prelude::*;

verus! {

/// An operation identity: the peer that created it and its counter on that peer.
#[derive(Clone, Copy, Debug, PartialEq, Eq, Structural, Hash, PartialOrd, Ord)]
pub struct ID {
    pub peer: u64,
    pub counter: i32,
}

/// Strict order on identities: by peer, then by counter.
pub open spec fn id_lt(a: ID, b: ID) -> bool {
    a.peer < b.peer || (a.peer == b.peer && a.counter < b.counter)
}

/// Executable strict order on identities.
pub fn id_less(a: ID, b: ID) -> (r: bool)
    ensures
        r == id_lt(a, b),
{
    a.peer < b.peer || (a.peer == b.peer && a.counter < b.counter)
}

impl ID {
    pub fn new(peer: u64, counter: i32) -> (r: ID)
        ensures
            r.peer == peer,
            r.counter == counter,
    {
        ID { peer, counter }
    }
}

/// A node identity: the identity of the operation that created the node.
#[derive(Clone, Copy, Debug, PartialEq, Eq, Structural, Hash, PartialOrd, Ord)]
pub struct GraphNodeId {
    pub peer: u64,
    pub counter: i32,
}

/// An edge identity: the identity of the operation that created the edge.
#[derive(Clone, Copy, Debug, PartialEq, Eq, Structural, Hash, PartialOrd, Ord)]
pub struct GraphEdgeId {
    pub peer: u64,
    pub counter: i32,
}

impl GraphNodeId {
    pub open spec fn spec_id(self) -> ID {
        ID { peer: self.peer, counter: self.counter }
    }

    pub fn new(peer: u64, counter: i32) -> (r: GraphNodeId)
        ensures
            r.peer == peer,
            r.counter == counter,
    {
        GraphNodeId { peer, counter }
    }

    #[verifier::when_used_as_spec(spec_id)]
    pub fn id(self) -> (r: ID)
        ensures
            r == self.spec_id(),
    {
        ID { peer: self.peer, counter: self.counter }
    }

    pub fn from_id(id: ID) -> (r: GraphNodeId)
        ensures
            r.spec_id() == id,
    {
        GraphNodeId { peer: id.peer, counter: id.counter }
    }
}

impl GraphEdgeId {
    pub open spec fn spec_id(self) -> ID {
        ID { peer: self.peer, counter: self.counter }
    }

    pub fn new(peer: u64, counter: i32) -> (r: GraphEdgeId)
        ensures
            r.peer == peer,
            r.counter == counter,
    {
        GraphEdgeId { peer, counter }
    }

    #[verifier::when_used_as_spec(spec_id)]
    pub fn id(self) -> (r: ID)
        ensures
            r == self.spec_id(),
    {
        ID { peer: self.peer, counter: self.counter }
    }

    pub fn from_id(id: ID) -> (r: GraphEdgeId)
        ensures
            r.spec_id() == id,
    {
        GraphEdgeId { peer: id.peer, counter: id.counter }
    }
}

pub open spec fn node_of(id: ID) -> GraphNodeId {
    GraphNodeId { peer: id.peer, counter: id.counter }
}

pub open spec fn edge_of(id: ID) -> GraphEdgeId {
    GraphEdgeId { peer: id.peer, counter: id.counter }
}

/// The writer of an order register: its Lamport clock and peer.
/// Registers are ordered by Lamport clock first, then by peer.
#[derive(Clone, Copy, Debug, PartialEq, Eq, Structural, Hash)]
pub struct IdLp {
    pub lamport: u32,
    pub peer: u64,
}

pub open spec fn idlp_lt(a: IdLp, b: IdLp) -> bool {
    a.lamport < b.lamport || (a.lamport == b.lamport && a.peer < b.peer)
}

pub fn idlp_less(a: IdLp, b: IdLp) -> (r: bool)
    ensures
        r == idlp_lt(a, b),
{
    a.lamport < b.lamport || (a.lamport == b.lamport && a.peer < b.peer)
}

/// A complete operation identity: peer, counter and Lamport clock.
#[derive(Clone, Copy, Debug, PartialEq, Eq, Structural, Hash)]
pub struct IdFull {
    pub peer: u64,
    pub counter: i32,
    pub lamport: u32,
}

impl IdFull {
    pub fn new(peer: u64, counter: i32, lamport: u32) -> (r: IdFull)
        ensures
            r == (IdFull { peer, counter, lamport }),
    {
        IdFull { peer, counter, lamport }
    }

    pub fn idlp(self) -> (r: IdLp)
        ensures
            r == (IdLp { lamport: self.lamport, peer: self.peer }),
    {
        IdLp { lamport: self.lamport, peer: self.peer }
    }
}

} // verus!
