//! Variation graphs as the RDF view reads them: nodes with their sequences
//! and the handles on the right of their forward side, and embedded paths as
//! sequences of handles; and the vocabulary of that view.

use vstd::prelude::*;
use crate::utils::chars_are;

verus! {

pub const RDF_TYPE: &'static str = "http://www.w3.org/1999/02/22-rdf-syntax-ns#type";
pub const RDF_VALUE: &'static str = "http://www.w3.org/1999/02/22-rdf-syntax-ns#value";

pub const VG_NODE: &'static str = "http://biohackathon.org/resource/vg#Node";
pub const VG_PATH: &'static str = "http://biohackathon.org/resource/vg#Path";
pub const VG_STEP: &'static str = "http://biohackathon.org/resource/vg#Step";
pub const VG_RANK: &'static str = "http://biohackathon.org/resource/vg#rank";
pub const VG_POSITION: &'static str = "http://biohackathon.org/resource/vg#position";
pub const VG_PATH_PRED: &'static str = "http://biohackathon.org/resource/vg#path";
pub const VG_LINKS_FORWARD_TO_FORWARD: &'static str =
    "http://biohackathon.org/resource/vg#linksForwardToForward";
pub const VG_LINKS_FORWARD_TO_REVERSE: &'static str =
    "http://biohackathon.org/resource/vg#linksForwardToReverse";
pub const VG_LINKS_REVERSE_TO_FORWARD: &'static str =
    "http://biohackathon.org/resource/vg#linksReverseToForward";
pub const VG_LINKS_REVERSE_TO_REVERSE: &'static str =
    "http://biohackathon.org/resource/vg#linksReverseToReverse";
pub const VG_LINKS: &'static str = "http://biohackathon.org/resource/vg#links";
pub const VG_REVERSE_OF_NODE: &'static str = "http://biohackathon.org/resource/vg#reverseOfNode";
pub const VG_NODE_PRED: &'static str = "http://biohackathon.org/resource/vg#node";

pub const FALDO_REGION: &'static str = "http://biohackathon.org/resource/faldo#Region";
pub const FALDO_EXACT_POSITION: &'static str =
    "http://biohackathon.org/resource/faldo#ExactPosition";
pub const FALDO_POSITION: &'static str = "http://biohackathon.org/resource/faldo#Position";
pub const FALDO_BEGIN: &'static str = "http://biohackathon.org/resource/faldo#begin";
pub const FALDO_END: &'static str = "http://biohackathon.org/resource/faldo#end";
pub const FALDO_REFERENCE: &'static str = "http://biohackathon.org/resource/faldo#reference";
pub const FALDO_POSITION_PRED: &'static str = "http://biohackathon.org/resource/faldo#position";

/// One side of a node: its id, read forward or in reverse.
#[derive(Clone, Copy, Debug, PartialEq, Eq, Structural)]
pub struct Handle {
    pub id: u64,
    pub is_reverse: bool,
}

impl Handle {
    pub fn forward(id: u64) -> (r: Self)
        ensures
            r == (Handle { id, is_reverse: false }),
    {
        Handle { id, is_reverse: false }
    }
}

/// The bound on the length of a node's sequence and of a path: no
/// allocation holds more bytes than `isize::MAX`.
pub const MAX_LEN: u64 = 0x7fff_ffff_ffff_ffff;

#[derive(Debug)]
struct GraphNode {
    id: u64,
    sequence: String,
    right_neighbors: Vec<Handle>,
}

#[derive(Debug)]
struct GraphPath {
    name: String,
    steps: Vec<Handle>,
}

/// A node as the view sees it.
pub struct NodeView {
    pub id: u64,
    pub sequence: Seq<char>,
    pub right_neighbors: Seq<Handle>,
}

/// A path as the view sees it: its name and its steps, first to last.
pub struct PathView {
    pub name: Seq<char>,
    pub steps: Seq<Handle>,
}

/// A graph as the view sees it: its nodes in the order they were added, and
/// its paths in the order they were added.
pub struct GraphView {
    pub nodes: Seq<NodeView>,
    pub paths: Seq<PathView>,
}

impl GraphView {
    pub open spec fn has_node(self, id: u64) -> bool {
        exists|i: int| 0 <= i < self.nodes.len() && #[trigger] self.nodes[i].id == id
    }

    /// The index of the node with this id.
    pub open spec fn node_ix(self, id: u64) -> int {
        choose|i: int| 0 <= i < self.nodes.len() && #[trigger] self.nodes[i].id == id
    }

    /// The sequence of the node with this id.
    pub open spec fn node_seq(self, id: u64) -> Seq<char> {
        self.nodes[self.node_ix(id)].sequence
    }

    /// The number of bases of the node with this id.
    pub open spec fn node_len(self, id: u64) -> nat {
        self.node_seq(id).len()
    }

    /// The handles on the right of the forward side of the node with this id.
    pub open spec fn right_neighbors(self, id: u64) -> Seq<Handle> {
        self.nodes[self.node_ix(id)].right_neighbors
    }

    pub open spec fn has_path(self, name: Seq<char>) -> bool {
        exists|p: int| 0 <= p < self.paths.len() && #[trigger] self.paths[p].name == name
    }

    /// The index of the path with this name.
    pub open spec fn path_ix(self, name: Seq<char>) -> int {
        choose|p: int| 0 <= p < self.paths.len() && #[trigger] self.paths[p].name == name
    }

    /// Node ids and path names are unique, sequences are within the
    /// allocation limit, and every path has steps, each on a node of the
    /// graph.
    pub open spec fn wf(self) -> bool {
        &&& forall|i: int, j: int|
            0 <= i < self.nodes.len() && 0 <= j < self.nodes.len() && i != j
                ==> #[trigger] self.nodes[i].id != #[trigger] self.nodes[j].id
        &&& forall|i: int|
            0 <= i < self.nodes.len() ==> #[trigger] self.nodes[i].sequence.len()
                <= MAX_LEN
        &&& forall|p: int, q: int|
            0 <= p < self.paths.len() && 0 <= q < self.paths.len() && p != q
                ==> #[trigger] self.paths[p].name != #[trigger] self.paths[q].name
        &&& forall|p: int|
            0 <= p < self.paths.len() ==> 0 < #[trigger] self.paths[p].steps.len() <= MAX_LEN
        &&& forall|p: int, k: int|
            0 <= p < self.paths.len() && 0 <= k < self.paths[p].steps.len() ==> self.has_node(
                #[trigger] self.paths[p].steps[k].id,
            )
    }
}

/// A variation graph: nodes with sequences and right-hand neighbours, and
/// named paths through them.
pub struct VariationGraph {
    nodes: Vec<GraphNode>,
    paths: Vec<GraphPath>,
}

spec fn node_view(n: GraphNode) -> NodeView {
    NodeView { id: n.id, sequence: n.sequence@, right_neighbors: n.right_neighbors@ }
}

spec fn path_view(p: GraphPath) -> PathView {
    PathView { name: p.name@, steps: p.steps@ }
}

impl View for VariationGraph {
    type V = GraphView;

    closed spec fn view(&self) -> GraphView {
        GraphView {
            nodes: self.nodes@.map_values(|n: GraphNode| node_view(n)),
            paths: self.paths@.map_values(|p: GraphPath| path_view(p)),
        }
    }
}

impl VariationGraph {
    #[verifier::type_invariant]
    pub open spec fn inv(&self) -> bool {
        self@.wf()
    }

    /// The empty graph.
    pub fn new() -> (r: Self)
        ensures
            r@.nodes.len() == 0,
            r@.paths.len() == 0,
    {
        let r = VariationGraph { nodes: Vec::new(), paths: Vec::new() };
        assert(r@.nodes =~= Seq::<NodeView>::empty());
        assert(r@.paths =~= Seq::<PathView>::empty());
        r
    }

    /// Where the node with this id stands, if there is one.
    pub fn find_node(&self, id: u64) -> (r: Option<usize>)
        ensures
            r is None <==> !self@.has_node(id),
            r matches Some(i) ==> i < self@.nodes.len() && i == self@.node_ix(id),
    {
        proof {
            use_type_invariant(self);
        }
        let mut i: usize = 0;
        while i < self.nodes.len()
            invariant
                i <= self.nodes@.len(),
                self@.wf(),
                self@.nodes.len() == self.nodes@.len(),
                forall|j: int| 0 <= j < i ==> #[trigger] self@.nodes[j].id != id,
            decreases self.nodes.len() - i,
        {
            assert(self@.nodes[i as int].id == self.nodes@[i as int].id);
            if self.nodes[i].id == id {
                assert(self@.has_node(id));
                let ghost k = self@.node_ix(id);
                assert(self@.nodes[k].id == self@.nodes[i as int].id);
                assert(k == i);
                return Some(i);
            }
            i = i + 1;
        }
        None
    }

    /// Adds a node with its sequence; refused where the id is taken or the
    /// sequence is longer than an allocation can be.
    pub fn add_node(&mut self, id: u64, sequence: String) -> (r: bool)
        ensures
            r == (!old(self)@.has_node(id) && sequence@.len() <= MAX_LEN),
            r ==> final(self)@.nodes == old(self)@.nodes.push(
                NodeView { id, sequence: sequence@, right_neighbors: Seq::empty() },
            ),
            r ==> final(self)@.paths == old(self)@.paths,
            !r ==> final(self)@ == old(self)@,
    {
        proof {
            use_type_invariant(&*self);
        }
        if self.find_node(id).is_some() {
            return false;
        }
        let n = sequence.as_str().unicode_len();
        if n as u64 > MAX_LEN {
            return false;
        }
        let node = GraphNode { id, sequence, right_neighbors: Vec::new() };
        let ghost old_view = self@;
        let mut whole = VariationGraph::new();
        std::mem::swap(&mut whole, self);
        let VariationGraph { nodes: mut nodes, paths } = whole;
        assert(paths@.map_values(|p: GraphPath| path_view(p)) == old_view.paths);
        nodes.push(node);
        let ghost new_nodes = nodes@.map_values(|n: GraphNode| node_view(n));
        assert(new_nodes =~= old_view.nodes.push(node_view(node)));
        proof {
            let g = GraphView { nodes: new_nodes, paths: old_view.paths };
            assert forall|p: int, k: int|
                0 <= p < g.paths.len() && 0 <= k < g.paths[p].steps.len() implies g.has_node(
                #[trigger] g.paths[p].steps[k].id,
            ) by {
                let sid = g.paths[p].steps[k].id;
                assert(old_view.has_node(sid));
                let w = choose|i: int|
                    0 <= i < old_view.nodes.len() && #[trigger] old_view.nodes[i].id == sid;
                assert(g.nodes[w].id == sid);
            }
            assert(g.wf());
        }
        *self = VariationGraph { nodes, paths };
        assert(self@.nodes =~= new_nodes);
        true
    }

    /// Records a handle on the right of the forward side of a node; refused
    /// where there is no node with this id.
    pub fn add_right_neighbor(&mut self, id: u64, neighbor: Handle) -> (r: bool)
        ensures
            r == old(self)@.has_node(id),
            r ==> final(self)@.nodes == old(self)@.nodes.update(
                old(self)@.node_ix(id),
                NodeView {
                    id,
                    sequence: old(self)@.node_seq(id),
                    right_neighbors: old(self)@.right_neighbors(id).push(neighbor),
                },
            ),
            r ==> final(self)@.paths == old(self)@.paths,
            !r ==> final(self)@ == old(self)@,
    {
        proof {
            use_type_invariant(&*self);
        }
        let found = self.find_node(id);
        if found.is_none() {
            return false;
        }
        let i = found.unwrap();
        let ghost old_view = self@;
        let mut whole = VariationGraph::new();
        std::mem::swap(&mut whole, self);
        let VariationGraph { nodes: mut nodes, paths } = whole;
        assert(paths@.map_values(|p: GraphPath| path_view(p)) == old_view.paths);
        assert(node_view(nodes@[i as int]) == old_view.nodes[i as int]);
        let mut neighbors = nodes[i].right_neighbors.clone();
        assert(neighbors@ =~= nodes@[i as int].right_neighbors@);
        neighbors.push(neighbor);
        let node = GraphNode { id, sequence: nodes[i].sequence.clone(), right_neighbors: neighbors };
        nodes.set(i, node);
        let ghost new_nodes = nodes@.map_values(|n: GraphNode| node_view(n));
        let ghost nv = NodeView {
            id,
            sequence: old_view.node_seq(id),
            right_neighbors: old_view.right_neighbors(id).push(neighbor),
        };
        assert(new_nodes =~= old_view.nodes.update(i as int, nv));
        proof {
            let g = GraphView { nodes: new_nodes, paths: old_view.paths };
            assert forall|a: int, b: int|
                0 <= a < g.nodes.len() && 0 <= b < g.nodes.len() && a != b
                    implies #[trigger] g.nodes[a].id != #[trigger] g.nodes[b].id by {
                assert(old_view.nodes[a].id != old_view.nodes[b].id);
            }
            assert forall|a: int| 0 <= a < g.nodes.len()
                implies #[trigger] g.nodes[a].sequence.len() <= MAX_LEN by {
                assert(old_view.nodes[a].sequence.len() <= MAX_LEN);
            }
            assert forall|p: int, k: int|
                0 <= p < g.paths.len() && 0 <= k < g.paths[p].steps.len() implies g.has_node(
                #[trigger] g.paths[p].steps[k].id,
            ) by {
                let sid = g.paths[p].steps[k].id;
                assert(old_view.has_node(sid));
                let w = choose|j: int|
                    0 <= j < old_view.nodes.len() && #[trigger] old_view.nodes[j].id == sid;
                assert(g.nodes[w].id == sid);
            }
            assert(g.wf());
        }
        *self = VariationGraph { nodes, paths };
        assert(self@.nodes =~= new_nodes);
        true
    }

    pub fn node_count(&self) -> (r: usize)
        ensures
            r == self@.nodes.len(),
    {
        self.nodes.len()
    }

    pub fn node_id_at(&self, i: usize) -> (r: u64)
        requires
            i < self@.nodes.len(),
        ensures
            r == self@.nodes[i as int].id,
    {
        self.nodes[i].id
    }

    pub fn sequence_at(&self, i: usize) -> (r: &String)
        requires
            i < self@.nodes.len(),
        ensures
            r@ == self@.nodes[i as int].sequence,
    {
        &self.nodes[i].sequence
    }

    pub fn right_neighbors_at(&self, i: usize) -> (r: &Vec<Handle>)
        requires
            i < self@.nodes.len(),
        ensures
            r@ == self@.nodes[i as int].right_neighbors,
    {
        &self.nodes[i].right_neighbors
    }

    pub fn path_count(&self) -> (r: usize)
        ensures
            r == self@.paths.len(),
    {
        self.paths.len()
    }

    pub fn path_name_at(&self, p: usize) -> (r: &String)
        requires
            p < self@.paths.len(),
        ensures
            r@ == self@.paths[p as int].name,
    {
        &self.paths[p].name
    }

    pub fn path_steps_at(&self, p: usize) -> (r: &Vec<Handle>)
        requires
            p < self@.paths.len(),
        ensures
            r@ == self@.paths[p as int].steps,
    {
        &self.paths[p].steps
    }

    /// The number of bases of the node with this id.
    pub fn node_len(&self, id: u64) -> (r: u64)
        requires
            self@.has_node(id),
        ensures
            r == self@.node_len(id),
    {
        proof {
            use_type_invariant(self);
        }
        let i = self.find_node(id).unwrap();
        let n = self.nodes[i].sequence.as_str().unicode_len();
        assert(self@.nodes[i as int].sequence.len() <= MAX_LEN);
        n as u64
    }

    /// Where the path with this name stands, if there is one.
    pub fn find_path(&self, name: &Vec<char>) -> (r: Option<usize>)
        ensures
            r is None <==> !self@.has_path(name@),
            r matches Some(p) ==> p < self@.paths.len() && p == self@.path_ix(name@),
    {
        proof {
            use_type_invariant(self);
        }
        let mut p: usize = 0;
        while p < self.paths.len()
            invariant
                p <= self.paths@.len(),
                self@.wf(),
                self@.paths.len() == self.paths@.len(),
                forall|q: int| 0 <= q < p ==> #[trigger] self@.paths[q].name != name@,
            decreases self.paths.len() - p,
        {
            assert(self@.paths[p as int].name == self.paths@[p as int].name@);
            if chars_are(name, self.paths[p].name.as_str()) {
                assert(self@.has_path(name@));
                let ghost k = self@.path_ix(name@);
                assert(self@.paths[k].name == self@.paths[p as int].name);
                return Some(p);
            }
            p = p + 1;
        }
        None
    }

    /// Adds a path; refused where the name is taken, there are no steps, or
    /// a step is on no node of the graph.
    pub fn add_path(&mut self, name: String, steps: Vec<Handle>) -> (r: bool)
        ensures
            r == (!old(self)@.has_path(name@) && 0 < steps@.len() <= MAX_LEN && forall|k: int|
                0 <= k < steps@.len() ==> old(self)@.has_node(#[trigger] steps@[k].id)),
            r ==> final(self)@.paths == old(self)@.paths.push(
                PathView { name: name@, steps: steps@ },
            ),
            r ==> final(self)@.nodes == old(self)@.nodes,
            !r ==> final(self)@ == old(self)@,
    {
        proof {
            use_type_invariant(&*self);
        }
        let name_chars = crate::utils::chars_of(name.as_str());
        if self.find_path(&name_chars).is_some() {
            return false;
        }
        if steps.len() == 0 || steps.len() as u64 > MAX_LEN {
            return false;
        }
        let mut k: usize = 0;
        while k < steps.len()
            invariant
                k <= steps@.len(),
                forall|j: int| 0 <= j < k ==> self@.has_node(#[trigger] steps@[j].id),
            decreases steps.len() - k,
        {
            if self.find_node(steps[k].id).is_none() {
                return false;
            }
            k = k + 1;
        }
        let ghost old_view = self@;
        let ghost steps_view = steps@;
        assert(forall|j: int| 0 <= j < steps_view.len() ==> old_view.has_node(#[trigger] steps_view[j].id));
        let path = GraphPath { name, steps };
        let mut whole = VariationGraph::new();
        std::mem::swap(&mut whole, self);
        let VariationGraph { nodes, paths: mut paths } = whole;
        assert(nodes@.map_values(|n: GraphNode| node_view(n)) == old_view.nodes);
        paths.push(path);
        let ghost new_paths = paths@.map_values(|p: GraphPath| path_view(p));
        assert(new_paths =~= old_view.paths.push(path_view(path)));
        proof {
            let g = GraphView { nodes: old_view.nodes, paths: new_paths };
            assert forall|p: int, q: int|
                0 <= p < g.paths.len() && 0 <= q < g.paths.len() && p != q
                    implies #[trigger] g.paths[p].name != #[trigger] g.paths[q].name by {
                if p < old_view.paths.len() && q < old_view.paths.len() {
                    assert(old_view.paths[p].name != old_view.paths[q].name);
                } else if p < old_view.paths.len() {
                    assert(old_view.paths[p].name != name_chars@);
                } else {
                    assert(old_view.paths[q].name != name_chars@);
                }
            }
            assert forall|p: int, j: int|
                0 <= p < g.paths.len() && 0 <= j < g.paths[p].steps.len() implies g.has_node(
                #[trigger] g.paths[p].steps[j].id,
            ) by {
                let sid = g.paths[p].steps[j].id;
                if p < old_view.paths.len() {
                    assert(g.paths[p] == old_view.paths[p]);
                    assert(old_view.has_node(old_view.paths[p].steps[j].id));
                } else {
                    assert(g.paths[p] == path_view(path));
                    assert(g.paths[p].steps == steps_view);
                    assert(old_view.has_node(steps_view[j].id));
                }
                assert(old_view.has_node(sid));
                let w = choose|i: int|
                    0 <= i < old_view.nodes.len() && #[trigger] old_view.nodes[i].id == sid;
                assert(g.nodes[w].id == sid);
            }
            assert(g.wf());
        }
        *self = VariationGraph { nodes, paths };
        assert(self@.paths =~= new_paths);
        true
    }
}

fn copy_node(n: &GraphNode) -> (r: GraphNode)
    ensures
        node_view(r) == node_view(*n),
{
    let r = GraphNode {
        id: n.id,
        sequence: n.sequence.clone(),
        right_neighbors: n.right_neighbors.clone(),
    };
    assert(r.right_neighbors@ =~= n.right_neighbors@);
    r
}

fn copy_path(p: &GraphPath) -> (r: GraphPath)
    ensures
        path_view(r) == path_view(*p),
{
    let r = GraphPath { name: p.name.clone(), steps: p.steps.clone() };
    assert(r.steps@ =~= p.steps@);
    r
}

impl Clone for VariationGraph {
    /// A graph with the same nodes and paths.
    fn clone(&self) -> (r: Self)
        ensures
            r@ == self@,
    {
        proof {
            use_type_invariant(self);
        }
        let mut nodes: Vec<GraphNode> = Vec::new();
        let mut i: usize = 0;
        while i < self.nodes.len()
            invariant
                i <= self.nodes@.len(),
                nodes@.len() == i,
                forall|j: int| 0 <= j < i ==> node_view(#[trigger] nodes@[j]) == node_view(
                    self.nodes@[j],
                ),
            decreases self.nodes.len() - i,
        {
            nodes.push(copy_node(&self.nodes[i]));
            i = i + 1;
        }
        let mut paths: Vec<GraphPath> = Vec::new();
        let mut k: usize = 0;
        while k < self.paths.len()
            invariant
                k <= self.paths@.len(),
                paths@.len() == k,
                forall|j: int| 0 <= j < k ==> path_view(#[trigger] paths@[j]) == path_view(
                    self.paths@[j],
                ),
            decreases self.paths.len() - k,
        {
            paths.push(copy_path(&self.paths[k]));
            k = k + 1;
        }
        assert(nodes@.map_values(|n: GraphNode| node_view(n)) =~= self@.nodes);
        assert(paths@.map_values(|p: GraphPath| path_view(p)) =~= self@.paths);
        VariationGraph { nodes, paths }
    }
}

} // verus!
