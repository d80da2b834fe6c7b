//! A minimal OpenStreetMap document model: nodes carrying coordinates,
//! and ways referring to nodes by id.
//!
//! Coordinates are integer nanodegrees, as everywhere in this crate.

use vstd::prelude::*;

verus! {

/// A map node: an id and a position in nanodegrees.
pub struct OsmNode {
    pub id: String,
    pub lat_nano: i64,
    pub lon_nano: i64,
}

/// A reference from a way to a node, by id.
pub struct OsmNd {
    pub node_ref: String,
}

/// A key/value tag of a way.
pub struct OsmTag {
    pub k: String,
    pub v: String,
}

/// An ordered run of node references with tags.
pub struct OsmWay {
    pub id: String,
    pub nds: Vec<OsmNd>,
    pub tags: Vec<OsmTag>,
}

/// A whole document: nodes and ways.
pub struct OsmDocument {
    pub nodes: Vec<OsmNode>,
    pub ways: Vec<OsmWay>,
}

/// Index of the first node at or after `i` whose id is `id`.
pub open spec fn find_node_from(nodes: Seq<OsmNode>, id: Seq<char>, i: int) -> Option<int>
    decreases nodes.len() - i when 0 <= i <= nodes.len()
{
    if i >= nodes.len() {
        None
    } else if nodes[i].id@ == id {
        Some(i)
    } else {
        find_node_from(nodes, id, i + 1)
    }
}

pub proof fn lemma_find_node_from(nodes: Seq<OsmNode>, id: Seq<char>, i: int)
    requires
        0 <= i <= nodes.len(),
    ensures
        find_node_from(nodes, id, i) is Some ==> {
            let x = find_node_from(nodes, id, i)->Some_0;
            &&& i <= x < nodes.len()
            &&& nodes[x].id@ == id
        },
    decreases nodes.len() - i,
{
    if i < nodes.len() && nodes[i].id@ != id {
        lemma_find_node_from(nodes, id, i + 1);
    }
}

/// Whether a way's node references all resolve in a document.
pub open spec fn way_resolves(way: OsmWay, osm: OsmDocument) -> bool {
    forall|i: int|
        0 <= i < way.nds@.len() ==> find_node_from(
            osm.nodes@,
            (#[trigger] way.nds@[i]).node_ref@,
            0,
        ) is Some
}

impl OsmDocument {
    pub fn new() -> (d: OsmDocument)
        ensures
            d.nodes@.len() == 0,
            d.ways@.len() == 0,
    {
        OsmDocument { nodes: Vec::new(), ways: Vec::new() }
    }

    /// The first node with the given id, which must exist.
    fn node(&self, id: &String) -> (r: &OsmNode)
        requires
            find_node_from(self.nodes@, id@, 0) is Some,
        ensures
            *r == self.nodes@[find_node_from(self.nodes@, id@, 0)->Some_0],
    {
        let n = self.nodes.len();
        let mut i: usize = 0;
        proof {
            lemma_find_node_from(self.nodes@, id@, 0);
        }
        while i < n
            invariant
                0 <= i <= n == self.nodes@.len(),
                find_node_from(self.nodes@, id@, 0) == find_node_from(self.nodes@, id@, i as int),
                find_node_from(self.nodes@, id@, 0) is Some,
            decreases n - i,
        {
            if self.nodes[i].id == *id {
                return &self.nodes[i];
            }
            i = i + 1;
        }
        proof {
            assert(find_node_from(self.nodes@, id@, n as int) is None);
            assert(false);
        }
        &self.nodes[0]
    }
}

impl OsmWay {
    /// The way's nodes, in reference order; every reference must
    /// resolve.
    pub fn points<'a>(&'a self, osm: &'a OsmDocument) -> (r: Vec<&'a OsmNode>)
        requires
            way_resolves(*self, *osm),
        ensures
            r@.len() == self.nds@.len(),
            forall|i: int|
                0 <= i < r@.len() ==> *(#[trigger] r@[i]) == osm.nodes@[find_node_from(
                    osm.nodes@,
                    self.nds@[i].node_ref@,
                    0,
                )->Some_0],
    {
        let mut r: Vec<&'a OsmNode> = Vec::new();
        let n = self.nds.len();
        let mut i: usize = 0;
        while i < n
            invariant
                0 <= i <= n == self.nds@.len(),
                way_resolves(*self, *osm),
                r@.len() == i,
                forall|j: int|
                    0 <= j < i ==> *(#[trigger] r@[j]) == osm.nodes@[find_node_from(
                        osm.nodes@,
                        self.nds@[j].node_ref@,
                        0,
                    )->Some_0],
            decreases n - i,
        {
            let node = osm.node(&self.nds[i].node_ref);
            r.push(node);
            i = i + 1;
        }
        r
    }

    /// The first node of the way, if it has any reference.
    pub fn start<'a>(&'a self, osm: &'a OsmDocument) -> (r: Option<&'a OsmNode>)
        requires
            way_resolves(*self, *osm),
        ensures
            self.nds@.len() == 0 <==> r is None,
            self.nds@.len() > 0 ==> *(r->Some_0) == osm.nodes@[find_node_from(
                osm.nodes@,
                self.nds@[0].node_ref@,
                0,
            )->Some_0],
    {
        if self.nds.len() == 0 {
            None
        } else {
            Some(osm.node(&self.nds[0].node_ref))
        }
    }

    /// The last node of the way, if it has any reference.
    pub fn end<'a>(&'a self, osm: &'a OsmDocument) -> (r: Option<&'a OsmNode>)
        requires
            way_resolves(*self, *osm),
        ensures
            self.nds@.len() == 0 <==> r is None,
            self.nds@.len() > 0 ==> *(r->Some_0) == osm.nodes@[find_node_from(
                osm.nodes@,
                self.nds@[self.nds@.len() - 1].node_ref@,
                0,
            )->Some_0],
    {
        if self.nds.len() == 0 {
            None
        } else {
            Some(osm.node(&self.nds[self.nds.len() - 1].node_ref))
        }
    }
}

} // verus!
