//! The routing-element data model.
//!
//! One `RoutingElement` is a single parsed update record from a
//! routing-table snapshot: announce or withdraw, the observing peer, the
//! destination network and, when the advertisement carried one that can be
//! flattened to a plain sequence, the AS path in receiver-to-origin order.

use vstd::prelude::*;

verus! {

/// The kind of an update record.
#[derive(Clone, Copy, Debug, PartialEq, Eq, Structural)]
pub enum ElemType {
    Announce,
    Withdraw,
}

/// An IP address, v4 or v6, held as its numeric value.
#[derive(Clone, Copy, Debug, PartialEq, Eq, Structural)]
pub enum IpAddress {
    V4(u32),
    V6(u128),
}

/// A destination network: address family, network address and prefix length.
///
/// A prefix length of zero is the default route of its family.
#[derive(Clone, Copy, Debug, PartialEq, Eq, Structural)]
pub enum Network {
    V4 { addr: u32, prefix_len: u8 },
    V6 { addr: u128, prefix_len: u8 },
}

impl Network {
    pub open spec fn spec_prefix_len(self) -> u8 {
        match self {
            Network::V4 { prefix_len, .. } => prefix_len,
            Network::V6 { prefix_len, .. } => prefix_len,
        }
    }

    #[verifier::when_used_as_spec(spec_prefix_len)]
    pub fn prefix_len(self) -> (r: u8)
        ensures
            r == self.spec_prefix_len(),
    {
        match self {
            Network::V4 { prefix_len, .. } => prefix_len,
            Network::V6 { prefix_len, .. } => prefix_len,
        }
    }

    pub open spec fn spec_is_v4(self) -> bool {
        self is V4
    }

    #[verifier::when_used_as_spec(spec_is_v4)]
    pub fn is_v4(self) -> (r: bool)
        ensures
            r == self.spec_is_v4(),
    {
        match self {
            Network::V4 { .. } => true,
            Network::V6 { .. } => false,
        }
    }

    /// Whether this network is the default route of its family.
    pub open spec fn spec_is_default(self) -> bool {
        self.spec_prefix_len() == 0
    }

    #[verifier::when_used_as_spec(spec_is_default)]
    pub fn is_default(self) -> (r: bool)
        ensures
            r == self.spec_is_default(),
    {
        self.prefix_len() == 0
    }
}

/// One parsed update record of a routing-table snapshot.
#[derive(Clone, Debug)]
pub struct RoutingElement {
    /// Announce or withdraw.
    pub elem_type: ElemType,
    /// IP address of the observing collector peer.
    pub peer_ip: IpAddress,
    /// AS number of the observing collector peer.
    pub peer_asn: u32,
    /// Destination network of the update.
    pub prefix: Network,
    /// AS path in receiver-to-origin order; `None` when the advertisement
    /// carried no path or one that cannot be flattened to a plain sequence.
    pub as_path: Option<Vec<u32>>,
}

impl RoutingElement {
    /// The AS path as a mathematical sequence, when present.
    pub open spec fn path(self) -> Option<Seq<u32>> {
        match self.as_path {
            Some(p) => Some(p@),
            None => None,
        }
    }

    /// Whether the element carries a usable, non-empty AS path.
    pub open spec fn has_path(self) -> bool {
        self.path() matches Some(p) && p.len() > 0
    }
}

/// The AS path with runs of consecutive equal AS numbers collapsed to one.
///
/// Route advertisements repeat an AS number for path prepending; the
/// collapsed form keeps one copy of each run, preserving order.
pub open spec fn collapse(s: Seq<u32>) -> Seq<u32>
    decreases s.len(),
{
    if s.len() <= 1 {
        s
    } else {
        let rest = collapse(s.drop_last());
        if s.last() == s[s.len() - 2] {
            rest
        } else {
            rest.push(s.last())
        }
    }
}

/// Collapse runs of consecutive equal AS numbers in a path to one entry.
pub fn collapse_path(path: &Vec<u32>) -> (r: Vec<u32>)
    ensures
        r@ == collapse(path@),
{
    let mut r: Vec<u32> = Vec::new();
    let mut i: usize = 0;
    while i < path.len()
        invariant
            i <= path@.len(),
            r@ == collapse(path@.take(i as int)),
        decreases path@.len() - i,
    {
        proof {
            assert(path@.take(i + 1).drop_last() =~= path@.take(i as int));
        }
        if i == 0 || path[i] != path[i - 1] {
            r.push(path[i]);
        }
        i = i + 1;
    }
    proof {
        assert(path@.take(path@.len() as int) =~= path@);
    }
    r
}

/// Collapsing keeps the endpoints of a non-empty path.
pub proof fn lemma_collapse_endpoints(s: Seq<u32>)
    requires
        s.len() > 0,
    ensures
        collapse(s).len() > 0,
        collapse(s).last() == s.last(),
        collapse(s).first() == s.first(),
    decreases s.len(),
{
    if s.len() > 1 {
        lemma_collapse_endpoints(s.drop_last());
    }
}

} // verus!
