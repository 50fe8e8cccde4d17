//! The per-cut node graph. The document IS a node graph; workspaces are views.
//!
//! A small node vocabulary — just enough to prove evaluation, caching, cycle
//! safety, undo, and persistence.

use vstd::prelude::*;
use crate::error::EngineError;
use crate::ids::{ColumnId, ImageId, NodeId};

verus! {

#[derive(Debug, Clone, Copy, PartialEq, Eq, Structural)]
pub enum BlendMode {
    Normal,
    Multiply,
    Add,
    Screen,
}

/// An 8-bit RGBA colour.
#[derive(Debug, Clone, Copy, PartialEq, Eq, Structural)]
pub struct Rgba8 {
    pub r: u8,
    pub g: u8,
    pub b: u8,
    pub a: u8,
}

#[derive(Debug, Clone, Copy, PartialEq, Eq, Structural)]
pub enum NodeKind {
    /// Reads the cut's X-sheet: resolves `column` at the evaluated frame.
    DrawingSource { column: ColumnId },
    /// Constant color layer.
    Solid { rgba: Rgba8 },
    /// One of the cut's imported image assets (BG plate, reference).
    ImageSource { image: ImageId },
    /// Geometric transform of its single input. The numbers are IEEE-754
    /// single-precision bit patterns.
    Transform { translate_x: u32, translate_y: u32, scale: u32, rotate_deg: u32 },
    /// Composites input 1 over input 0.
    Blend { mode: BlendMode },
    /// The cut's final image. One input.
    Output,
}

pub open spec fn input_count_spec(k: NodeKind) -> nat {
    match k {
        NodeKind::DrawingSource { .. } | NodeKind::Solid { .. } | NodeKind::ImageSource { .. } => 0,
        NodeKind::Transform { .. } | NodeKind::Output => 1,
        NodeKind::Blend { .. } => 2,
    }
}

pub open spec fn kind_name_spec(k: NodeKind) -> Seq<char> {
    match k {
        NodeKind::DrawingSource { .. } => "DrawingSource"@,
        NodeKind::Solid { .. } => "Solid"@,
        NodeKind::ImageSource { .. } => "ImageSource"@,
        NodeKind::Transform { .. } => "Transform"@,
        NodeKind::Blend { .. } => "Blend"@,
        NodeKind::Output => "Output"@,
    }
}

impl NodeKind {
    pub fn input_count(&self) -> (n: usize)
        ensures
            n == input_count_spec(*self),
    {
        match self {
            NodeKind::DrawingSource { .. } | NodeKind::Solid { .. } | NodeKind::ImageSource { .. } => 0,
            NodeKind::Transform { .. } | NodeKind::Output => 1,
            NodeKind::Blend { .. } => 2,
        }
    }

    pub fn name(&self) -> (s: &'static str)
        ensures
            s@ == kind_name_spec(*self),
    {
        proof {
            reveal_strlit("DrawingSource");
            reveal_strlit("Solid");
            reveal_strlit("ImageSource");
            reveal_strlit("Transform");
            reveal_strlit("Blend");
            reveal_strlit("Output");
        }
        match self {
            NodeKind::DrawingSource { .. } => "DrawingSource",
            NodeKind::Solid { .. } => "Solid",
            NodeKind::ImageSource { .. } => "ImageSource",
            NodeKind::Transform { .. } => "Transform",
            NodeKind::Blend { .. } => "Blend",
            NodeKind::Output => "Output",
        }
    }
}

/// A connection source: the output pin of another node.
pub type OutPin = (NodeId, u16);

/// An incoming connection severed by a node removal:
/// (consumer node, consumer's input pin, source output pin).
pub type SeveredLink = (NodeId, u16, u16);

/// Abstract state of a node.
pub struct NodeView {
    pub id: u64,
    pub kind: NodeKind,
    pub inputs: Seq<Option<OutPin>>,
}

#[derive(Debug)]
pub struct Node {
    pub id: NodeId,
    pub kind: NodeKind,
    /// One slot per input pin; `None` = unconnected (evaluates as empty).
    pub inputs: Vec<Option<OutPin>>,
}

impl Node {
    pub open spec fn view(&self) -> NodeView {
        NodeView { id: self.id.0, kind: self.kind, inputs: self.inputs@ }
    }

    pub fn new(id: NodeId, kind: NodeKind) -> (n: Self)
        ensures
            n.id == id,
            n.kind == kind,
            n.inputs@ == Seq::new(input_count_spec(kind), |i: int| None::<OutPin>),
    {
        let count = kind.input_count();
        let mut inputs: Vec<Option<OutPin>> = Vec::new();
        let mut i: usize = 0;
        while i < count
            invariant
                i <= count,
                inputs@ == Seq::new(i as nat, |j: int| None::<OutPin>),
            decreases count - i,
        {
            inputs.push(None);
            i = i + 1;
            assert(inputs@ =~= Seq::new(i as nat, |j: int| None::<OutPin>));
        }
        Node { id, kind, inputs }
    }

    /// A copy with the same id, kind and inputs.
    pub fn duplicate(&self) -> (n: Self)
        ensures
            n.view() == self.view(),
    {
        let inputs = copy_inputs(&self.inputs);
        Node { id: self.id, kind: self.kind, inputs }
    }
}

/// A copy of an input list.
pub fn copy_inputs(v: &Vec<Option<OutPin>>) -> (r: Vec<Option<OutPin>>)
    ensures
        r@ == v@,
{
    let mut r: Vec<Option<OutPin>> = Vec::new();
    let mut i: usize = 0;
    while i < v.len()
        invariant
            i <= v@.len(),
            r@ == v@.take(i as int),
        decreases v@.len() - i,
    {
        r.push(v[i]);
        i = i + 1;
        assert(r@ =~= v@.take(i as int));
    }
    assert(v@.take(i as int) =~= v@);
    r
}

pub open spec fn nodes_view(s: Seq<Node>) -> Seq<NodeView> {
    s.map_values(|n: Node| n.view())
}

// ---- Graph shape over the abstract state ------------------------------------

/// Node ids strictly ascending (the deterministic iteration order).
pub open spec fn ids_ascending(gs: Seq<NodeView>) -> bool {
    forall|i: int, j: int| 0 <= i < j < gs.len() ==> #[trigger] gs[i].id < #[trigger] gs[j].id
}

pub open spec fn has_node(gs: Seq<NodeView>, id: u64) -> bool {
    exists|i: int| 0 <= i < gs.len() && #[trigger] gs[i].id == id
}

/// `src`'s output is wired into some input pin of `consumer`.
pub open spec fn feeds(gs: Seq<NodeView>, src: u64, consumer: u64) -> bool {
    exists|i: int, p: int|
        0 <= i < gs.len() && gs[i].id == consumer && 0 <= p < gs[i].inputs.len()
            && (#[trigger] gs[i].inputs[p]) is Some && gs[i].inputs[p].unwrap().0.0 == src
}

/// Walking upstream (against the data flow) from `a` reaches `b` in at most `n` steps.
pub open spec fn upstream_within(gs: Seq<NodeView>, a: u64, b: u64, n: nat) -> bool
    decreases n,
{
    a == b || (n > 0 && exists|m: u64| #[trigger] feeds(gs, m, a) && upstream_within(gs, m, b, (n - 1) as nat))
}

/// `b` is upstream of `a` (or is `a`): data can flow from `b` into `a`.
pub open spec fn upstream(gs: Seq<NodeView>, a: u64, b: u64) -> bool {
    exists|n: nat| upstream_within(gs, a, b, n)
}

/// Walking downstream (with the data flow) from `a` reaches `b` in at most `n` steps.
pub open spec fn downstream_within(gs: Seq<NodeView>, a: u64, b: u64, n: nat) -> bool
    decreases n,
{
    a == b || (n > 0 && exists|c: u64| #[trigger] feeds(gs, a, c) && downstream_within(gs, c, b, (n - 1) as nat))
}

pub open spec fn downstream(gs: Seq<NodeView>, a: u64, b: u64) -> bool {
    exists|n: nat| downstream_within(gs, a, b, n)
}

/// No node feeds anything upstream of itself.
pub open spec fn acyclic(gs: Seq<NodeView>) -> bool {
    forall|m: u64, a: u64| #[trigger] feeds(gs, m, a) ==> !upstream(gs, m, a)
}

/// Every node has exactly as many input slots as its kind has pins.
pub open spec fn pins_match(gs: Seq<NodeView>) -> bool {
    forall|i: int| 0 <= i < gs.len() ==> (#[trigger] gs[i]).inputs.len() == input_count_spec(gs[i].kind)
}

/// Every wired input names an existing node.
pub open spec fn inputs_exist(gs: Seq<NodeView>) -> bool {
    forall|i: int, p: int|
        0 <= i < gs.len() && 0 <= p < gs[i].inputs.len() && (#[trigger] gs[i].inputs[p]) is Some
            ==> has_node(gs, gs[i].inputs[p].unwrap().0.0)
}

pub proof fn lemma_upstream_extend(gs: Seq<NodeView>, a: u64, b: u64, c: u64, n: nat)
    requires
        upstream_within(gs, a, b, n),
        feeds(gs, c, b),
    ensures
        upstream_within(gs, a, c, n + 1),
    decreases n,
{
    if a == b {
        assert(upstream_within(gs, c, c, 0));
        assert(upstream_within(gs, c, c, n));
        assert(feeds(gs, c, a) && upstream_within(gs, c, c, n));
        assert(upstream_within(gs, a, c, n + 1));
    } else {
        let m = choose|m: u64| #[trigger] feeds(gs, m, a) && upstream_within(gs, m, b, (n - 1) as nat);
        lemma_upstream_extend(gs, m, b, c, (n - 1) as nat);
        assert(feeds(gs, m, a) && upstream_within(gs, m, c, n));
    }
}

pub proof fn lemma_downstream_extend(gs: Seq<NodeView>, a: u64, b: u64, c: u64, n: nat)
    requires
        downstream_within(gs, a, b, n),
        feeds(gs, b, c),
    ensures
        downstream_within(gs, a, c, n + 1),
    decreases n,
{
    if a == b {
        assert(downstream_within(gs, c, c, 0));
        assert(downstream_within(gs, c, c, n));
        assert(feeds(gs, a, c) && downstream_within(gs, c, c, n));
        assert(downstream_within(gs, a, c, n + 1));
    } else {
        let m = choose|m: u64| #[trigger] feeds(gs, a, m) && downstream_within(gs, m, b, (n - 1) as nat);
        lemma_downstream_extend(gs, m, b, c, (n - 1) as nat);
        assert(feeds(gs, a, m) && downstream_within(gs, m, c, n));
    }
}


// ---- Reachability lemmas ------------------------------------------------------

pub proof fn lemma_upstream_trans(gs: Seq<NodeView>, x: u64, y: u64, z: u64, n1: nat, n2: nat)
    requires
        upstream_within(gs, x, y, n1),
        upstream_within(gs, y, z, n2),
    ensures
        upstream_within(gs, x, z, n1 + n2),
    decreases n1,
{
    if x == y {
        lemma_upstream_weaken(gs, y, z, n2, n1 + n2);
    } else {
        let m = choose|m: u64| #[trigger] feeds(gs, m, x) && upstream_within(gs, m, y, (n1 - 1) as nat);
        lemma_upstream_trans(gs, m, y, z, (n1 - 1) as nat, n2);
        assert(feeds(gs, m, x) && upstream_within(gs, m, z, (n1 - 1 + n2) as nat));
    }
}

pub proof fn lemma_upstream_weaken(gs: Seq<NodeView>, a: u64, b: u64, n: nat, k: nat)
    requires
        upstream_within(gs, a, b, n),
        n <= k,
    ensures
        upstream_within(gs, a, b, k),
    decreases n,
{
    if a != b {
        let m = choose|m: u64| #[trigger] feeds(gs, m, a) && upstream_within(gs, m, b, (n - 1) as nat);
        lemma_upstream_weaken(gs, m, b, (n - 1) as nat, (k - 1) as nat);
        assert(feeds(gs, m, a) && upstream_within(gs, m, b, (k - 1) as nat));
    }
}

/// Fewer wires, fewer paths.
pub proof fn lemma_upstream_mono(gs1: Seq<NodeView>, gs2: Seq<NodeView>, a: u64, b: u64, n: nat)
    requires
        forall|s: u64, c: u64| #[trigger] feeds(gs1, s, c) ==> feeds(gs2, s, c),
        upstream_within(gs1, a, b, n),
    ensures
        upstream_within(gs2, a, b, n),
    decreases n,
{
    if a != b {
        let m = choose|m: u64| #[trigger] feeds(gs1, m, a) && upstream_within(gs1, m, b, (n - 1) as nat);
        lemma_upstream_mono(gs1, gs2, m, b, (n - 1) as nat);
        assert(feeds(gs2, m, a) && upstream_within(gs2, m, b, (n - 1) as nat));
    }
}

/// A graph whose wires are a subset of an acyclic graph's is acyclic.
pub proof fn lemma_acyclic_sub(gs1: Seq<NodeView>, gs2: Seq<NodeView>)
    requires
        forall|s: u64, c: u64| #[trigger] feeds(gs1, s, c) ==> feeds(gs2, s, c),
        acyclic(gs2),
    ensures
        acyclic(gs1),
{
    assert forall|m: u64, a: u64| #[trigger] feeds(gs1, m, a) implies !upstream(gs1, m, a) by {
        if upstream(gs1, m, a) {
            let n = choose|n: nat| upstream_within(gs1, m, a, n);
            lemma_upstream_mono(gs1, gs2, m, a, n);
            assert(feeds(gs2, m, a));
        }
    }
}

/// Paths in a graph that gained the single wire `from -> to` (and maybe
/// lost others): either old paths, or old paths through that wire.
pub proof fn lemma_new_wire_paths(
    old_gs: Seq<NodeView>,
    new_gs: Seq<NodeView>,
    from: u64,
    to: u64,
    a: u64,
    b: u64,
    n: nat,
)
    requires
        forall|s: u64, c: u64| #[trigger] feeds(new_gs, s, c) ==> feeds(old_gs, s, c) || (s == from && c == to),
        !upstream(old_gs, from, to),
        upstream_within(new_gs, a, b, n),
    ensures
        upstream(old_gs, a, b) || (upstream(old_gs, a, to) && upstream(old_gs, from, b)),
    decreases n,
{
    if a == b {
        assert(upstream_within(old_gs, a, b, 0));
    } else {
        let m = choose|m: u64| #[trigger] feeds(new_gs, m, a) && upstream_within(new_gs, m, b, (n - 1) as nat);
        lemma_new_wire_paths(old_gs, new_gs, from, to, m, b, (n - 1) as nat);
        if feeds(old_gs, m, a) {
            if upstream(old_gs, m, b) {
                let k = choose|k: nat| upstream_within(old_gs, m, b, k);
                assert(feeds(old_gs, m, a) && upstream_within(old_gs, m, b, k));
                assert(upstream_within(old_gs, a, b, k + 1));
            } else {
                let k = choose|k: nat| upstream_within(old_gs, m, to, k);
                assert(feeds(old_gs, m, a) && upstream_within(old_gs, m, to, k));
                assert(upstream_within(old_gs, a, to, k + 1));
            }
        } else {
            assert(m == from && a == to);
            assert(upstream_within(old_gs, a, to, 0));
        }
    }
}

/// Wiring `from -> to` when `to` is not upstream of `from` keeps a graph acyclic.
pub proof fn lemma_new_wire_acyclic(old_gs: Seq<NodeView>, new_gs: Seq<NodeView>, from: u64, to: u64)
    requires
        forall|s: u64, c: u64| #[trigger] feeds(new_gs, s, c) ==> feeds(old_gs, s, c) || (s == from && c == to),
        !upstream(old_gs, from, to),
        acyclic(old_gs),
    ensures
        acyclic(new_gs),
{
    assert forall|m: u64, a: u64| #[trigger] feeds(new_gs, m, a) implies !upstream(new_gs, m, a) by {
        if upstream(new_gs, m, a) {
            let n = choose|n: nat| upstream_within(new_gs, m, a, n);
            lemma_new_wire_paths(old_gs, new_gs, from, to, m, a, n);
            if feeds(old_gs, m, a) {
                if !upstream(old_gs, m, a) {
                    // to ⇝ m -> a ⇝ from: `to` upstream of `from` in the old graph.
                    let k1 = choose|k: nat| upstream_within(old_gs, m, to, k);
                    let k2 = choose|k: nat| upstream_within(old_gs, from, a, k);
                    assert(feeds(old_gs, m, a) && upstream_within(old_gs, m, to, k1));
                    assert(upstream_within(old_gs, a, to, k1 + 1));
                    lemma_upstream_trans(old_gs, from, a, to, k2, k1 + 1);
                }
            } else {
                assert(m == from && a == to);
            }
        }
    }
}


// ---- Shapes of graph edits --------------------------------------------------

/// `nv` consumes `src` on some pin.
pub open spec fn node_feeds(nv: NodeView, src: u64) -> bool {
    exists|p: int| 0 <= p < nv.inputs.len() && (#[trigger] nv.inputs[p]) is Some && nv.inputs[p].unwrap().0.0 == src
}

pub open spec fn with_input(nv: NodeView, pin: int, v: Option<OutPin>) -> NodeView {
    NodeView { id: nv.id, kind: nv.kind, inputs: nv.inputs.update(pin, v) }
}

/// The input slot after removing node `id`: wires from it are cut.
pub open spec fn sever_slot(o: Option<OutPin>, id: u64) -> Option<OutPin> {
    if o is Some && o.unwrap().0.0 == id { None } else { o }
}

pub open spec fn sever_node(nv: NodeView, id: u64) -> NodeView {
    NodeView { id: nv.id, kind: nv.kind, inputs: nv.inputs.map_values(|o: Option<OutPin>| sever_slot(o, id)) }
}

pub open spec fn sever_all(gs: Seq<NodeView>, id: u64) -> Seq<NodeView> {
    gs.map_values(|nv: NodeView| sever_node(nv, id))
}

/// The (pin, source pin) pairs of `inputs` wired from `id`, pin order.
pub open spec fn pin_links(inputs: Seq<Option<OutPin>>, id: u64) -> Seq<(u16, u16)>
    decreases inputs.len(),
{
    if inputs.len() == 0 {
        Seq::empty()
    } else {
        let rest = pin_links(inputs.drop_last(), id);
        let o = inputs.last();
        if o is Some && o.unwrap().0.0 == id {
            rest.push(((inputs.len() - 1) as u16, o.unwrap().1))
        } else {
            rest
        }
    }
}

/// Every wire from `id` into the nodes of `gs`, in node order then pin order,
/// as (consumer, consumer pin, source pin).
pub open spec fn severed_spec(gs: Seq<NodeView>, id: u64) -> Seq<SeveredLink>
    decreases gs.len(),
{
    if gs.len() == 0 {
        Seq::empty()
    } else {
        let last = gs.last();
        severed_spec(gs.drop_last(), id) + pin_links(last.inputs, id).map_values(
            |l: (u16, u16)| (NodeId(last.id), l.0, l.1),
        )
    }
}

/// `inputs` resized to `count` slots: truncated, or padded with `None`.
pub open spec fn resized(inputs: Seq<Option<OutPin>>, count: nat) -> Seq<Option<OutPin>> {
    if count <= inputs.len() {
        inputs.take(count as int)
    } else {
        inputs + Seq::new((count - inputs.len()) as nat, |i: int| None::<OutPin>)
    }
}

pub proof fn lemma_feeds_at(gs: Seq<NodeView>, i: int, src: u64)
    requires
        ids_ascending(gs),
        0 <= i < gs.len(),
    ensures
        feeds(gs, src, gs[i].id) == node_feeds(gs[i], src),
{
    if feeds(gs, src, gs[i].id) {
        let (j, p) = choose|j: int, p: int|
            0 <= j < gs.len() && gs[j].id == gs[i].id && 0 <= p < gs[j].inputs.len()
                && (#[trigger] gs[j].inputs[p]) is Some && gs[j].inputs[p].unwrap().0.0 == src;
        if j < i {
            assert(gs[j].id < gs[i].id);
        } else if j > i {
            assert(gs[i].id < gs[j].id);
        }
        assert(gs[i].inputs[p] is Some);
    }
    if node_feeds(gs[i], src) {
        let p = choose|p: int| 0 <= p < gs[i].inputs.len() && (#[trigger] gs[i].inputs[p]) is Some && gs[i].inputs[p].unwrap().0.0 == src;
        assert(gs[i].inputs[p] is Some);
    }
}

/// Replacing node `i` by a node with the same id changes only that node's wires.
pub proof fn lemma_feeds_update(gs: Seq<NodeView>, i: int, nv: NodeView)
    requires
        ids_ascending(gs),
        0 <= i < gs.len(),
        nv.id == gs[i].id,
    ensures
        ids_ascending(gs.update(i, nv)),
        forall|s: u64, c: u64| #[trigger] feeds(gs.update(i, nv), s, c) == if c == nv.id {
            node_feeds(nv, s)
        } else {
            feeds(gs, s, c)
        },
{
    let g2 = gs.update(i, nv);
    assert forall|a: int, b: int| 0 <= a < b < g2.len() implies #[trigger] g2[a].id < #[trigger] g2[b].id by {
        assert(gs[a].id < gs[b].id);
    }
    assert forall|s: u64, c: u64| #[trigger] feeds(g2, s, c) == if c == nv.id {
        node_feeds(nv, s)
    } else {
        feeds(gs, s, c)
    } by {
        if c == nv.id {
            lemma_feeds_at(g2, i, s);
        } else {
            if feeds(g2, s, c) {
                let (j, p) = choose|j: int, p: int|
                    0 <= j < g2.len() && g2[j].id == c && 0 <= p < g2[j].inputs.len()
                        && (#[trigger] g2[j].inputs[p]) is Some && g2[j].inputs[p].unwrap().0.0 == s;
                assert(j != i);
                assert(gs[j].inputs[p] is Some);
            }
            if feeds(gs, s, c) {
                let (j, p) = choose|j: int, p: int|
                    0 <= j < gs.len() && gs[j].id == c && 0 <= p < gs[j].inputs.len()
                        && (#[trigger] gs[j].inputs[p]) is Some && gs[j].inputs[p].unwrap().0.0 == s;
                assert(j != i);
                assert(g2[j].inputs[p] is Some);
            }
        }
    }
}

pub proof fn lemma_has_node_update(gs: Seq<NodeView>, i: int, nv: NodeView)
    requires
        0 <= i < gs.len(),
        nv.id == gs[i].id,
    ensures
        forall|x: u64| #[trigger] has_node(gs.update(i, nv), x) == has_node(gs, x),
{
    let g2 = gs.update(i, nv);
    assert forall|x: u64| #[trigger] has_node(g2, x) == has_node(gs, x) by {
        if has_node(g2, x) {
            let j = choose|j: int| 0 <= j < g2.len() && #[trigger] g2[j].id == x;
            assert(gs[j].id == x);
        }
        if has_node(gs, x) {
            let j = choose|j: int| 0 <= j < gs.len() && #[trigger] gs[j].id == x;
            assert(g2[j].id == x);
        }
    }
}


/// Ids of the nodes whose kind satisfies `pred`, in node order.
pub open spec fn ids_where(gs: Seq<NodeView>, pred: spec_fn(NodeKind) -> bool) -> Seq<NodeId>
    decreases gs.len(),
{
    if gs.len() == 0 {
        Seq::empty()
    } else {
        let rest = ids_where(gs.drop_last(), pred);
        if pred(gs.last().kind) { rest.push(NodeId(gs.last().id)) } else { rest }
    }
}

pub open spec fn is_source_of_column(column: ColumnId) -> spec_fn(NodeKind) -> bool {
    |k: NodeKind| k == NodeKind::DrawingSource { column }
}

pub open spec fn is_source_of_image(image: ImageId) -> spec_fn(NodeKind) -> bool {
    |k: NodeKind| k == NodeKind::ImageSource { image }
}

pub struct GraphView {
    pub nodes: Seq<NodeView>,
    pub output: Option<NodeId>,
}

#[derive(Debug)]
pub struct Graph {
    /// Ascending by node id (deterministic iteration: stable saves, stable tests).
    pub nodes: Vec<Node>,
    pub output: Option<NodeId>,
}

/// Number of `false` entries.
pub open spec fn count_false(s: Seq<bool>) -> nat
    decreases s.len(),
{
    if s.len() == 0 {
        0
    } else {
        count_false(s.drop_last()) + if s.last() { 0nat } else { 1nat }
    }
}

pub proof fn lemma_count_false_set(s: Seq<bool>, j: int)
    requires
        0 <= j < s.len(),
        !s[j],
    ensures
        count_false(s.update(j, true)) + 1 == count_false(s),
    decreases s.len(),
{
    let t = s.update(j, true);
    if j == s.len() - 1 {
        assert(t.drop_last() =~= s.drop_last());
    } else {
        assert(t.drop_last() =~= s.drop_last().update(j, true));
        lemma_count_false_set(s.drop_last(), j);
    }
}

/// Every wired input of node `j` is not `to`, and names no unmarked node.
pub open spec fn pins_closed(gs: Seq<NodeView>, marked: Seq<bool>, j: int, to: u64) -> bool {
    forall|q: int|
        0 <= q < gs[j].inputs.len() && (#[trigger] gs[j].inputs[q]) is Some ==> {
            let src = gs[j].inputs[q].unwrap().0.0;
            src != to && forall|k: int| 0 <= k < gs.len() && #[trigger] gs[k].id == src ==> marked[k]
        }
}

pub proof fn lemma_closed_no_path(gs: Seq<NodeView>, marked: Seq<bool>, x: u64, to: u64, n: nat)
    requires
        marked.len() == gs.len(),
        forall|j: int| 0 <= j < gs.len() && #[trigger] marked[j] ==> pins_closed(gs, marked, j, to),
        x != to,
        forall|k: int| 0 <= k < gs.len() && #[trigger] gs[k].id == x ==> marked[k],
    ensures
        !upstream_within(gs, x, to, n),
    decreases n,
{
    if upstream_within(gs, x, to, n) {
        let m = choose|m: u64| #[trigger] feeds(gs, m, x) && upstream_within(gs, m, to, (n - 1) as nat);
        let (i, p) = choose|i: int, p: int|
            0 <= i < gs.len() && gs[i].id == x && 0 <= p < gs[i].inputs.len()
                && (#[trigger] gs[i].inputs[p]) is Some && gs[i].inputs[p].unwrap().0.0 == m;
        assert(marked[i]);
        assert(pins_closed(gs, marked, i, to));
        assert(gs[i].inputs[p] is Some);
        lemma_closed_no_path(gs, marked, m, to, (n - 1) as nat);
    }
}

/// Node `j` consumes `src` on some pin.
pub open spec fn reads_from(gs: Seq<NodeView>, j: int, src: u64) -> bool {
    exists|p: int|
        0 <= p < gs[j].inputs.len() && (#[trigger] gs[j].inputs[p]) is Some && gs[j].inputs[p].unwrap().0.0 == src
}

/// Every consumer of marked node `j` is marked.
pub open spec fn consumers_closed(gs: Seq<NodeView>, marked: Seq<bool>, j: int) -> bool {
    forall|k: int| 0 <= k < gs.len() && #[trigger] reads_from(gs, k, gs[j].id) ==> marked[k]
}

pub proof fn lemma_closed_downstream(gs: Seq<NodeView>, marked: Seq<bool>, a: u64, b: u64, n: nat)
    requires
        ids_ascending(gs),
        inputs_exist(gs),
        marked.len() == gs.len(),
        forall|j: int| 0 <= j < gs.len() && #[trigger] marked[j] ==> consumers_closed(gs, marked, j),
        forall|k: int| 0 <= k < gs.len() && #[trigger] gs[k].id == a ==> marked[k],
        downstream_within(gs, a, b, n),
    ensures
        b == a || exists|k: int| 0 <= k < gs.len() && gs[k].id == b && #[trigger] marked[k],
    decreases n,
{
    if a != b {
        let c = choose|c: u64| #[trigger] feeds(gs, a, c) && downstream_within(gs, c, b, (n - 1) as nat);
        let (i, p) = choose|i: int, p: int|
            0 <= i < gs.len() && gs[i].id == c && 0 <= p < gs[i].inputs.len()
                && (#[trigger] gs[i].inputs[p]) is Some && gs[i].inputs[p].unwrap().0.0 == a;
        assert(has_node(gs, a));
        let ka = choose|ka: int| 0 <= ka < gs.len() && #[trigger] gs[ka].id == a;
        assert(marked[ka]);
        assert(reads_from(gs, i, gs[ka].id));
        assert(marked[i]);
        assert forall|k: int| 0 <= k < gs.len() && #[trigger] gs[k].id == c implies marked[k] by {
            if k != i {
                if k < i {
                    assert(gs[k].id < gs[i].id);
                } else {
                    assert(gs[i].id < gs[k].id);
                }
            }
        }
        lemma_closed_downstream(gs, marked, c, b, (n - 1) as nat);
    }
}

/// Whether `v` holds `x`.
pub fn contains_id(v: &Vec<NodeId>, x: NodeId) -> (r: bool)
    ensures
        r == v@.contains(x),
{
    let mut i: usize = 0;
    while i < v.len()
        invariant
            i <= v@.len(),
            forall|j: int| 0 <= j < i ==> v@[j] != x,
        decreases v@.len() - i,
    {
        if v[i] == x {
            return true;
        }
        i = i + 1;
    }
    false
}

impl Node {
    /// Cut every wire from `src` into this node; returns the cut wires as
    /// (pin, source pin) in pin order.
    pub fn sever_from(&mut self, src: NodeId) -> (links: Vec<(u16, u16)>)
        ensures
            final(self).id == old(self).id,
            final(self).kind == old(self).kind,
            final(self).inputs@ == old(self).inputs@.map_values(|o: Option<OutPin>| sever_slot(o, src.0)),
            links@ == pin_links(old(self).inputs@, src.0),
    {
        let ghost ins = self.inputs@;
        let m = self.inputs.len();
        let mut links: Vec<(u16, u16)> = Vec::new();
        let mut p: usize = 0;
        while p < m
            invariant
                p <= m,
                m == ins.len(),
                self.id == old(self).id,
                self.kind == old(self).kind,
                ins == old(self).inputs@,
                self.inputs@ == ins.take(p as int).map_values(|o: Option<OutPin>| sever_slot(o, src.0)) + ins.skip(p as int),
                links@ == pin_links(ins.take(p as int), src.0),
            decreases m - p,
        {
            proof {
                assert(self.inputs@[p as int] == ins[p as int]);
            }
            match self.inputs[p] {
                Some((s, sp)) => {
                    if s == src {
                        links.push((p as u16, sp));
                        self.inputs.set(p, None);
                    }
                },
                None => {},
            }
            proof {
                assert(ins.take(p as int + 1).drop_last() =~= ins.take(p as int));
                assert(ins.take(p as int + 1).last() == ins[p as int]);
                assert(self.inputs@ =~= ins.take(p as int + 1).map_values(|o: Option<OutPin>| sever_slot(o, src.0)) + ins.skip(p as int + 1));
            }
            p = p + 1;
        }
        proof {
            assert(ins.take(m as int) =~= ins);
            assert(self.inputs@ =~= ins.map_values(|o: Option<OutPin>| sever_slot(o, src.0)));
        }
        links
    }

    /// Does some input pin of this node consume `src`?
    pub fn reads(&self, src: NodeId) -> (r: bool)
        ensures
            r == exists|p: int|
                0 <= p < self.inputs@.len() && (#[trigger] self.inputs@[p]) is Some && self.inputs@[p].unwrap().0 == src,
    {
        let mut p: usize = 0;
        while p < self.inputs.len()
            invariant
                p <= self.inputs@.len(),
                forall|q: int| 0 <= q < p ==> !((#[trigger] self.inputs@[q]) is Some && self.inputs@[q].unwrap().0 == src),
            decreases self.inputs@.len() - p,
        {
            match self.inputs[p] {
                Some((s, _)) => {
                    if s == src {
                        return true;
                    }
                },
                None => {},
            }
            p = p + 1;
        }
        false
    }
}

impl Graph {
    pub open spec fn view(&self) -> GraphView {
        GraphView { nodes: nodes_view(self.nodes@), output: self.output }
    }

    pub open spec fn gs(&self) -> Seq<NodeView> {
        nodes_view(self.nodes@)
    }

    /// Structural well-formedness: ids ascending.
    pub open spec fn wf_ids(&self) -> bool {
        ids_ascending(self.gs())
    }

    /// The document invariant: ids ascending, every wire names an existing
    /// node, no cycles, and the output (if set) exists.
    pub open spec fn wf(&self) -> bool {
        &&& ids_ascending(self.gs())
        &&& inputs_exist(self.gs())
        &&& acyclic(self.gs())
        &&& (self.output matches Some(o) ==> has_node(self.gs(), o.0))
    }

    pub fn new() -> (g: Self)
        ensures
            g.wf(),
            g.nodes@.len() == 0,
            g.output.is_none(),
    {
        let g = Graph { nodes: Vec::new(), output: None };
        assert(nodes_view(g.nodes@) =~= Seq::<NodeView>::empty());
        g
    }

    /// Index of the node with this id.
    pub fn index_of(&self, id: NodeId) -> (r: Option<usize>)
        requires
            self.wf_ids(),
        ensures
            match r {
                Some(i) => i < self.nodes@.len() && self.nodes@[i as int].id == id,
                None => !has_node(self.gs(), id.0),
            },
    {
        let mut i: usize = 0;
        while i < self.nodes.len()
            invariant
                i <= self.nodes@.len(),
                forall|j: int| 0 <= j < i ==> #[trigger] self.nodes@[j].id != id,
            decreases self.nodes@.len() - i,
        {
            if self.nodes[i].id == id {
                return Some(i);
            }
            i = i + 1;
        }
        proof {
            if has_node(self.gs(), id.0) {
                let j = choose|j: int| 0 <= j < self.gs().len() && #[trigger] self.gs()[j].id == id.0;
                assert(self.nodes@[j].id == id);
            }
        }
        None
    }

    pub fn contains(&self, id: NodeId) -> (r: bool)
        requires
            self.wf_ids(),
        ensures
            r == has_node(self.gs(), id.0),
    {
        proof {
            if has_node(self.gs(), id.0) {
                let j = choose|j: int| 0 <= j < self.gs().len() && #[trigger] self.gs()[j].id == id.0;
                assert(self.nodes@[j].view().id == id.0);
            }
        }
        match self.index_of(id) {
            Some(i) => {
                assert(self.gs()[i as int].id == id.0);
                true
            },
            None => false,
        }
    }

    pub fn node(&self, id: NodeId) -> (r: Result<&Node, EngineError>)
        requires
            self.wf_ids(),
        ensures
            match r {
                Ok(n) => n.id == id && exists|i: int| 0 <= i < self.nodes@.len() && self.nodes@[i] == *n,
                Err(e) => e == EngineError::UnknownNode(id) && !has_node(self.gs(), id.0),
            },
    {
        match self.index_of(id) {
            Some(i) => Ok(&self.nodes[i]),
            None => Err(EngineError::UnknownNode(id)),
        }
    }

    /// The node with this id, to edit in place.
    pub fn node_mut(&mut self, id: NodeId) -> (r: Result<&mut Node, EngineError>)
        requires
            old(self).wf_ids(),
        ensures
            match r {
                Ok(n) => exists|i: int|
                    0 <= i < old(self).nodes@.len() && old(self).nodes@[i].id == id && *n == old(self).nodes@[i]
                        && final(self).nodes@ == old(self).nodes@.update(i, *final(n))
                        && final(self).output == old(self).output,
                Err(e) => e == EngineError::UnknownNode(id) && !has_node(old(self).gs(), id.0) && *final(self) == *old(self),
            },
    {
        match self.index_of(id) {
            Some(i) => Ok(&mut self.nodes[i]),
            None => Err(EngineError::UnknownNode(id)),
        }
    }

    /// Would wiring `from` -> `to` create a cycle? True iff `to` is already
    /// upstream of `from` (or they are the same node).
    pub fn would_cycle(&self, from: NodeId, to: NodeId) -> (r: bool)
        requires
            self.wf_ids(),
        ensures
            r == upstream(self.gs(), from.0, to.0),
    {
        let ghost gs = self.gs();
        if from == to {
            proof {
                assert(upstream_within(gs, from.0, to.0, 0));
            }
            return true;
        }
        let n = self.nodes.len();
        let mut marked: Vec<bool> = Vec::new();
        let mut z: usize = 0;
        while z < n
            invariant
                z <= n,
                marked@ == Seq::new(z as nat, |k: int| false),
            decreases n - z,
        {
            marked.push(false);
            z = z + 1;
            assert(marked@ =~= Seq::new(z as nat, |k: int| false));
        }
        let mut stack: Vec<usize> = Vec::new();
        match self.index_of(from) {
            Some(i) => {
                marked.set(i, true);
                stack.push(i);
                proof {
                    assert(upstream_within(gs, from.0, gs[i as int].id, 0));
                    assert(stack@[0] == i);
                    assert forall|j: int| 0 <= j < n && #[trigger] marked@[j] implies stack@.contains(j as usize) by {
                        assert(j == i as int);
                    }
                }
            },
            None => {
                proof {
                    assert forall|j: int| 0 <= j < n implies !(#[trigger] marked@[j]) by {}
                }
            },
        }
        proof {
            assert forall|k: int| 0 <= k < n && #[trigger] gs[k].id == from.0 implies marked@[k] by {
                if stack@.len() > 0 {
                    let i = stack@[0];
                    if k != i as int {
                        if k < i {
                            assert(gs[k].id < gs[i as int].id);
                        } else {
                            assert(gs[i as int].id < gs[k].id);
                        }
                    }
                } else {
                    assert(has_node(gs, from.0));
                }
            }
        }
        while stack.len() > 0
            invariant
                gs == self.gs(),
                ids_ascending(gs),
                n == gs.len(),
                marked@.len() == n,
                from.0 != to.0,
                forall|k: int| 0 <= k < stack@.len() ==> #[trigger] stack@[k] < n && marked@[stack@[k] as int],
                forall|a: int, b: int| 0 <= a < b < stack@.len() ==> #[trigger] stack@[a] != #[trigger] stack@[b],
                forall|j: int| 0 <= j < n && #[trigger] marked@[j] ==> upstream(gs, from.0, gs[j].id),
                forall|k: int| 0 <= k < n && #[trigger] gs[k].id == from.0 ==> marked@[k],
                forall|j: int|
                    0 <= j < n && #[trigger] marked@[j] && !stack@.contains(j as usize) ==> pins_closed(gs, marked@, j, to.0),
            decreases 2 * count_false(marked@) + stack@.len(),
        {
            let ghost budget = 2 * count_false(marked@) + stack@.len();
            let ghost whole = stack@;
            let i = stack.pop().unwrap();
            proof {
                assert forall|k: int| 0 <= k < stack@.len() implies #[trigger] stack@[k] != i by {
                    assert(whole[k] == stack@[k]);
                    assert(whole[whole.len() - 1] == i);
                }
                assert(whole =~= stack@.push(i));
                assert forall|j: int| 0 <= j < n && #[trigger] marked@[j] && j != i && !stack@.contains(j as usize) implies pins_closed(gs, marked@, j, to.0) by {
                    if whole.contains(j as usize) {
                        let t = choose|t: int| 0 <= t < whole.len() && whole[t] == j as usize;
                        if t < stack@.len() {
                            assert(stack@[t] == j as usize);
                        }
                    }
                }
            }
            let m = self.nodes[i].inputs.len();
            let mut p: usize = 0;
            while p < m
                invariant
                    gs == self.gs(),
                    ids_ascending(gs),
                    n == gs.len(),
                    i < n,
                    m == gs[i as int].inputs.len(),
                    p <= m,
                    marked@.len() == n,
                    marked@[i as int],
                    from.0 != to.0,
                    2 * count_false(marked@) + stack@.len() < budget,
                    forall|k: int| 0 <= k < stack@.len() ==> #[trigger] stack@[k] < n && marked@[stack@[k] as int],
                    forall|k: int| 0 <= k < stack@.len() ==> #[trigger] stack@[k] != i,
                    forall|a: int, b: int| 0 <= a < b < stack@.len() ==> #[trigger] stack@[a] != #[trigger] stack@[b],
                    forall|j: int| 0 <= j < n && #[trigger] marked@[j] ==> upstream(gs, from.0, gs[j].id),
                    forall|k: int| 0 <= k < n && #[trigger] gs[k].id == from.0 ==> marked@[k],
                    forall|j: int|
                        0 <= j < n && #[trigger] marked@[j] && j != i && !stack@.contains(j as usize) ==> pins_closed(gs, marked@, j, to.0),
                    forall|q: int|
                        0 <= q < p && (#[trigger] gs[i as int].inputs[q]) is Some ==> {
                            let src = gs[i as int].inputs[q].unwrap().0.0;
                            src != to.0 && forall|k: int| 0 <= k < gs.len() && #[trigger] gs[k].id == src ==> marked@[k]
                        },
                decreases m - p,
            {
                match self.nodes[i].inputs[p] {
                    Some((src, _)) => {
                        proof {
                            assert(gs[i as int].inputs[p as int] is Some);
                            assert(feeds(gs, src.0, gs[i as int].id));
                            let c = choose|c: nat| upstream_within(gs, from.0, gs[i as int].id, c);
                            lemma_upstream_extend(gs, from.0, gs[i as int].id, src.0, c);
                        }
                        if src == to {
                            return true;
                        }
                        match self.index_of(src) {
                            Some(j) => {
                                if !marked[j] {
                                    let ghost pre = marked@;
                                    let ghost pre_stack = stack@;
                                    proof {
                                        lemma_count_false_set(marked@, j as int);
                                    }
                                    marked.set(j, true);
                                    stack.push(j);
                                    proof {
                                        assert(stack@[stack@.len() - 1] == j);
                                        assert(stack@.contains(j));
                                        assert forall|jj: int| 0 <= jj < n && #[trigger] marked@[jj] && jj != i && !stack@.contains(jj as usize) implies pins_closed(gs, marked@, jj, to.0) by {
                                            assert(jj != j);
                                            assert(pre[jj]);
                                            if pre_stack.contains(jj as usize) {
                                                let t = choose|t: int| 0 <= t < pre_stack.len() && pre_stack[t] == jj as usize;
                                                assert(stack@[t] == jj as usize);
                                            }
                                            assert(pins_closed(gs, pre, jj, to.0));
                                        }
                                    }
                                }
                                proof {
                                    assert forall|k: int| 0 <= k < gs.len() && #[trigger] gs[k].id == src.0 implies marked@[k] by {
                                        if k != j as int {
                                            if k < j {
                                                assert(gs[k].id < gs[j as int].id);
                                            } else {
                                                assert(gs[j as int].id < gs[k].id);
                                            }
                                        }
                                    }
                                }
                            },
                            None => {
                                proof {
                                    assert forall|k: int| 0 <= k < gs.len() && #[trigger] gs[k].id == src.0 implies marked@[k] by {
                                        assert(has_node(gs, src.0));
                                    }
                                }
                            },
                        }
                    },
                    None => {},
                }
                p = p + 1;
            }
            proof {
                assert forall|j: int|
                    0 <= j < n && #[trigger] marked@[j] && !stack@.contains(j as usize) implies pins_closed(gs, marked@, j, to.0) by {
                    if j == i {
                    }
                }
            }
        }
        proof {
            assert forall|j: int| 0 <= j < gs.len() && #[trigger] marked@[j] implies pins_closed(gs, marked@, j, to.0) by {
                assert(!stack@.contains(j as usize));
            }
            assert forall|c: nat| !upstream_within(gs, from.0, to.0, c) by {
                lemma_closed_no_path(gs, marked@, from.0, to.0, c);
            }
        }
        false
    }

    /// The set of nodes downstream of (fed by) any node in `roots`,
    /// including the roots themselves: the invalidation footprint of an edit.
    /// No id appears twice.
    pub fn downstream_closure(&self, roots: &[NodeId]) -> (r: Vec<NodeId>)
        requires
            self.wf(),
        ensures
            forall|a: int, b: int| 0 <= a < b < r@.len() ==> #[trigger] r@[a] != #[trigger] r@[b],
            forall|x: NodeId|
                #[trigger] r@.contains(x) <==> exists|t: int|
                    0 <= t < roots@.len() && downstream(self.gs(), (#[trigger] roots@[t]).0, x.0),
    {
        let ghost gs = self.gs();
        let n = self.nodes.len();
        let mut marked: Vec<bool> = Vec::new();
        let mut z: usize = 0;
        while z < n
            invariant
                z <= n,
                marked@ == Seq::new(z as nat, |k: int| false),
            decreases n - z,
        {
            marked.push(false);
            z = z + 1;
            assert(marked@ =~= Seq::new(z as nat, |k: int| false));
        }
        let mut stack: Vec<usize> = Vec::new();
        let mut r: Vec<NodeId> = Vec::new();
        let mut t: usize = 0;
        while t < roots.len()
            invariant
                gs == self.gs(),
                self.wf(),
                n == gs.len(),
                t <= roots@.len(),
                marked@.len() == n,
                forall|k: int| 0 <= k < stack@.len() ==> #[trigger] stack@[k] < n && marked@[stack@[k] as int],
                forall|a: int, b: int| 0 <= a < b < stack@.len() ==> #[trigger] stack@[a] != #[trigger] stack@[b],
                forall|j: int| 0 <= j < n && #[trigger] marked@[j] ==> stack@.contains(j as usize),
                forall|j: int| 0 <= j < n && #[trigger] marked@[j] ==> exists|u: int|
                    0 <= u < roots@.len() && downstream(gs, (#[trigger] roots@[u]).0, gs[j].id),
                forall|u: int, k: int| 0 <= u < t && 0 <= k < n && #[trigger] gs[k].id == (#[trigger] roots@[u]).0 ==> marked@[k],
                forall|a: int, b: int| 0 <= a < b < r@.len() ==> #[trigger] r@[a] != #[trigger] r@[b],
                forall|x: NodeId| #[trigger] r@.contains(x) <==> exists|u: int| 0 <= u < t && #[trigger] roots@[u] == x,
            decreases roots@.len() - t,
        {
            let root = roots[t];
            proof {
                assert(downstream_within(gs, root.0, root.0, 0));
            }
            if !contains_id(&r, root) {
                let ghost pre_r = r@;
                r.push(root);
                proof {
                    assert forall|a: int, b: int| 0 <= a < b < r@.len() implies #[trigger] r@[a] != #[trigger] r@[b] by {
                        if b == r@.len() - 1 {
                            assert(pre_r.contains(r@[a]) || a == b);
                        }
                    }
                    assert forall|x: NodeId| #[trigger] r@.contains(x) <==> exists|u: int| 0 <= u < t + 1 && #[trigger] roots@[u] == x by {
                        if r@.contains(x) && x != root {
                            let q = choose|q: int| 0 <= q < r@.len() && r@[q] == x;
                            assert(pre_r[q] == x);
                            assert(pre_r.contains(x));
                        }
                        if exists|u: int| 0 <= u < t && #[trigger] roots@[u] == x {
                            assert(pre_r.contains(x));
                            let q = choose|q: int| 0 <= q < pre_r.len() && pre_r[q] == x;
                            assert(r@[q] == x);
                        }
                        if x == root {
                            assert(r@[r@.len() - 1] == x);
                        }
                    }
                }
            }
            match self.index_of(root) {
                Some(j) => {
                    if !marked[j] {
                        let ghost pre_stack = stack@;
                        marked.set(j, true);
                        stack.push(j);
                        proof {
                            assert(stack@[stack@.len() - 1] == j);
                            assert forall|jj: int| 0 <= jj < n && #[trigger] marked@[jj] implies stack@.contains(jj as usize) by {
                                if jj != j as int {
                                    let q = choose|q: int| 0 <= q < pre_stack.len() && pre_stack[q] == jj as usize;
                                    assert(stack@[q] == jj as usize);
                                }
                            }
                            assert(roots@[t as int] == root);
                        }
                    }
                    proof {
                        assert forall|u: int, k: int| 0 <= u < t + 1 && 0 <= k < n && #[trigger] gs[k].id == (#[trigger] roots@[u]).0 implies marked@[k] by {
                            if u == t && k != j as int {
                                if k < j {
                                    assert(gs[k].id < gs[j as int].id);
                                } else {
                                    assert(gs[j as int].id < gs[k].id);
                                }
                            }
                        }
                    }
                },
                None => {
                    proof {
                        assert forall|u: int, k: int| 0 <= u < t + 1 && 0 <= k < n && #[trigger] gs[k].id == (#[trigger] roots@[u]).0 implies marked@[k] by {
                            if u == t {
                                assert(has_node(gs, root.0));
                            }
                        }
                    }
                },
            }
            t = t + 1;
        }
        while stack.len() > 0
            invariant
                gs == self.gs(),
                self.wf(),
                n == gs.len(),
                marked@.len() == n,
                forall|k: int| 0 <= k < stack@.len() ==> #[trigger] stack@[k] < n && marked@[stack@[k] as int],
                forall|a: int, b: int| 0 <= a < b < stack@.len() ==> #[trigger] stack@[a] != #[trigger] stack@[b],
                forall|j: int| 0 <= j < n && #[trigger] marked@[j] ==> exists|u: int|
                    0 <= u < roots@.len() && downstream(gs, (#[trigger] roots@[u]).0, gs[j].id),
                forall|u: int, k: int| 0 <= u < roots@.len() && 0 <= k < n && #[trigger] gs[k].id == (#[trigger] roots@[u]).0 ==> marked@[k],
                forall|j: int|
                    0 <= j < n && #[trigger] marked@[j] && !stack@.contains(j as usize) ==> consumers_closed(gs, marked@, j),
            decreases 2 * count_false(marked@) + stack@.len(),
        {
            let ghost budget = 2 * count_false(marked@) + stack@.len();
            let ghost whole = stack@;
            let i = stack.pop().unwrap();
            proof {
                assert forall|k: int| 0 <= k < stack@.len() implies #[trigger] stack@[k] != i by {
                    assert(whole[k] == stack@[k]);
                    assert(whole[whole.len() - 1] == i);
                }
                assert(whole =~= stack@.push(i));
                assert forall|j: int| 0 <= j < n && #[trigger] marked@[j] && j != i && !stack@.contains(j as usize) implies consumers_closed(gs, marked@, j) by {
                    if whole.contains(j as usize) {
                        let q = choose|q: int| 0 <= q < whole.len() && whole[q] == j as usize;
                        if q < stack@.len() {
                            assert(stack@[q] == j as usize);
                        }
                    }
                }
            }
            let id = self.nodes[i].id;
            let mut k: usize = 0;
            while k < n
                invariant
                    gs == self.gs(),
                    self.wf(),
                    n == gs.len(),
                    i < n,
                    id.0 == gs[i as int].id,
                    k <= n,
                    marked@.len() == n,
                    marked@[i as int],
                    2 * count_false(marked@) + stack@.len() < budget,
                    forall|q: int| 0 <= q < stack@.len() ==> #[trigger] stack@[q] < n && marked@[stack@[q] as int],
                    forall|q: int| 0 <= q < stack@.len() ==> #[trigger] stack@[q] != i,
                    forall|a: int, b: int| 0 <= a < b < stack@.len() ==> #[trigger] stack@[a] != #[trigger] stack@[b],
                    forall|j: int| 0 <= j < n && #[trigger] marked@[j] ==> exists|u: int|
                        0 <= u < roots@.len() && downstream(gs, (#[trigger] roots@[u]).0, gs[j].id),
                    forall|u: int, kk: int| 0 <= u < roots@.len() && 0 <= kk < n && #[trigger] gs[kk].id == (#[trigger] roots@[u]).0 ==> marked@[kk],
                    forall|j: int|
                        0 <= j < n && #[trigger] marked@[j] && j != i && !stack@.contains(j as usize) ==> consumers_closed(gs, marked@, j),
                    forall|kk: int| 0 <= kk < k && #[trigger] reads_from(gs, kk, gs[i as int].id) ==> marked@[kk],
                decreases n - k,
            {
                if !marked[k] && self.nodes[k].reads(id) {
                    let ghost pre = marked@;
                    let ghost pre_stack = stack@;
                    proof {
                        lemma_count_false_set(marked@, k as int);
                        let pp = choose|pp: int|
                            0 <= pp < gs[k as int].inputs.len() && (#[trigger] gs[k as int].inputs[pp]) is Some && gs[k as int].inputs[pp].unwrap().0 == id;
                        assert(feeds(gs, gs[i as int].id, gs[k as int].id));
                        let u = choose|u: int| 0 <= u < roots@.len() && downstream(gs, (#[trigger] roots@[u]).0, gs[i as int].id);
                        let c = choose|c: nat| downstream_within(gs, roots@[u].0, gs[i as int].id, c);
                        lemma_downstream_extend(gs, roots@[u].0, gs[i as int].id, gs[k as int].id, c);
                    }
                    marked.set(k, true);
                    stack.push(k);
                    proof {
                        assert(stack@[stack@.len() - 1] == k);
                        assert(stack@.contains(k));
                        assert forall|jj: int| 0 <= jj < n && #[trigger] marked@[jj] && jj != i && !stack@.contains(jj as usize) implies consumers_closed(gs, marked@, jj) by {
                            assert(jj != k);
                            assert(pre[jj]);
                            if pre_stack.contains(jj as usize) {
                                let q = choose|q: int| 0 <= q < pre_stack.len() && pre_stack[q] == jj as usize;
                                assert(stack@[q] == jj as usize);
                            }
                            assert(consumers_closed(gs, pre, jj));
                        }
                        assert forall|j: int| 0 <= j < n && #[trigger] marked@[j] implies exists|u: int|
                            0 <= u < roots@.len() && downstream(gs, (#[trigger] roots@[u]).0, gs[j].id) by {
                            if j != k as int {
                                assert(pre[j]);
                            }
                        }
                    }
                } else {
                    proof {
                        if !marked@[k as int] {
                            assert forall|pp: int| 0 <= pp < gs[k as int].inputs.len() && (#[trigger] gs[k as int].inputs[pp]) is Some implies gs[k as int].inputs[pp].unwrap().0.0 != gs[i as int].id by {
                                assert(self.nodes@[k as int].inputs@[pp] == gs[k as int].inputs[pp]);
                            }
                        }
                    }
                }
                k = k + 1;
            }
        }
        // Every marked node's id joins the result.
        let mut k: usize = 0;
        while k < n
            invariant
                gs == self.gs(),
                self.wf(),
                n == gs.len(),
                k <= n,
                marked@.len() == n,
                forall|j: int| 0 <= j < n && #[trigger] marked@[j] ==> exists|u: int|
                    0 <= u < roots@.len() && downstream(gs, (#[trigger] roots@[u]).0, gs[j].id),
                forall|u: int, kk: int| 0 <= u < roots@.len() && 0 <= kk < n && #[trigger] gs[kk].id == (#[trigger] roots@[u]).0 ==> marked@[kk],
                forall|j: int| 0 <= j < n && #[trigger] marked@[j] ==> consumers_closed(gs, marked@, j),
                forall|a: int, b: int| 0 <= a < b < r@.len() ==> #[trigger] r@[a] != #[trigger] r@[b],
                forall|x: NodeId| #[trigger] r@.contains(x) <==> (
                    (exists|u: int| 0 <= u < roots@.len() && #[trigger] roots@[u] == x)
                    || (exists|j: int| 0 <= j < k && marked@[j] && #[trigger] gs[j].id == x.0)),
            decreases n - k,
        {
            let id = self.nodes[k].id;
            if marked[k] && !contains_id(&r, id) {
                let ghost pre_r = r@;
                r.push(id);
                proof {
                    assert forall|a: int, b: int| 0 <= a < b < r@.len() implies #[trigger] r@[a] != #[trigger] r@[b] by {
                        if b == r@.len() - 1 {
                            assert(pre_r.contains(r@[a]));
                        }
                    }
                    assert forall|x: NodeId| #[trigger] r@.contains(x) <==> (
                        (exists|u: int| 0 <= u < roots@.len() && #[trigger] roots@[u] == x)
                        || (exists|j: int| 0 <= j < k + 1 && marked@[j] && #[trigger] gs[j].id == x.0)) by {
                        if r@.contains(x) && x != id {
                            let q = choose|q: int| 0 <= q < r@.len() && r@[q] == x;
                            assert(pre_r[q] == x);
                            assert(pre_r.contains(x));
                        }
                        if x == id {
                            assert(r@[r@.len() - 1] == x);
                            assert(gs[k as int].id == x.0);
                        }
                        if (exists|u: int| 0 <= u < roots@.len() && #[trigger] roots@[u] == x)
                            || (exists|j: int| 0 <= j < k && marked@[j] && #[trigger] gs[j].id == x.0) {
                            assert(pre_r.contains(x));
                            let q = choose|q: int| 0 <= q < pre_r.len() && pre_r[q] == x;
                            assert(r@[q] == x);
                        }
                    }
                }
            } else {
                proof {
                    assert forall|x: NodeId| #[trigger] r@.contains(x) <==> (
                        (exists|u: int| 0 <= u < roots@.len() && #[trigger] roots@[u] == x)
                        || (exists|j: int| 0 <= j < k + 1 && marked@[j] && #[trigger] gs[j].id == x.0)) by {
                        if exists|j: int| 0 <= j < k + 1 && marked@[j] && #[trigger] gs[j].id == x.0 {
                            let j = choose|j: int| 0 <= j < k + 1 && marked@[j] && #[trigger] gs[j].id == x.0;
                            if j == k as int {
                                assert(self.nodes@[k as int].id == x);
                            }
                        }
                    }
                }
            }
            k = k + 1;
        }
        proof {
            assert forall|x: NodeId|
                #[trigger] r@.contains(x) <==> exists|t: int|
                    0 <= t < roots@.len() && downstream(gs, (#[trigger] roots@[t]).0, x.0) by {
                if r@.contains(x) {
                    if exists|u: int| 0 <= u < roots@.len() && #[trigger] roots@[u] == x {
                        let u = choose|u: int| 0 <= u < roots@.len() && #[trigger] roots@[u] == x;
                        assert(downstream_within(gs, roots@[u].0, x.0, 0));
                    } else {
                        let j = choose|j: int| 0 <= j < n && marked@[j] && #[trigger] gs[j].id == x.0;
                        assert(marked@[j]);
                    }
                }
                if exists|t: int| 0 <= t < roots@.len() && downstream(gs, (#[trigger] roots@[t]).0, x.0) {
                    let t = choose|t: int| 0 <= t < roots@.len() && downstream(gs, (#[trigger] roots@[t]).0, x.0);
                    let c = choose|c: nat| downstream_within(gs, roots@[t].0, x.0, c);
                    assert forall|kk: int| 0 <= kk < gs.len() && #[trigger] gs[kk].id == roots@[t].0 implies marked@[kk] by {}
                    lemma_closed_downstream(gs, marked@, roots@[t].0, x.0, c);
                    if x.0 == roots@[t].0 {
                        assert(roots@[t] == x);
                    }
                }
            }
        }
        r
    }

    /// Connect `from`'s output pin into `to`'s input pin.
    /// Returns the input's previous connection (for inverse construction).
    pub fn connect(&mut self, from: NodeId, from_pin: u16, to: NodeId, to_pin: u16) -> (r: Result<Option<OutPin>, EngineError>)
        requires
            old(self).wf_ids(),
        ensures
            final(self).wf_ids(),
            final(self).output == old(self).output,
            !has_node(old(self).gs(), from.0) ==> r == Err::<Option<OutPin>, EngineError>(EngineError::UnknownNode(from)),
            has_node(old(self).gs(), from.0) && !has_node(old(self).gs(), to.0) ==> r == Err::<Option<OutPin>, EngineError>(EngineError::UnknownNode(to)),
            r is Err ==> final(self).gs() == old(self).gs(),
            has_node(old(self).gs(), from.0) && has_node(old(self).gs(), to.0) ==> exists|i: int|
                0 <= i < old(self).gs().len() && #[trigger] old(self).gs()[i].id == to.0 && (
                if to_pin >= old(self).gs()[i].inputs.len() {
                    r == Err::<Option<OutPin>, EngineError>(EngineError::PinOutOfRange { node: to, pin: to_pin })
                } else if upstream(old(self).gs(), from.0, to.0) {
                    r == Err::<Option<OutPin>, EngineError>(EngineError::WouldCycle { from, to })
                } else {
                    r == Ok::<Option<OutPin>, EngineError>(old(self).gs()[i].inputs[to_pin as int])
                        && final(self).gs() == old(self).gs().update(i, with_input(old(self).gs()[i], to_pin as int, Some((from, from_pin))))
                }),
            acyclic(old(self).gs()) ==> acyclic(final(self).gs()),
            old(self).wf() ==> final(self).wf(),
    {
        if !self.contains(from) {
            return Err(EngineError::UnknownNode(from));
        }
        let i = match self.index_of(to) {
            Some(i) => i,
            None => { return Err(EngineError::UnknownNode(to)); },
        };
        proof {
            assert(old(self).gs()[i as int].id == to.0);
        }
        if to_pin as usize >= self.nodes[i].inputs.len() {
            return Err(EngineError::PinOutOfRange { node: to, pin: to_pin });
        }
        if self.would_cycle(from, to) {
            return Err(EngineError::WouldCycle { from, to });
        }
        let ghost g0 = self.gs();
        let prev = self.nodes[i].inputs[to_pin as usize];
        self.nodes[i].inputs.set(to_pin as usize, Some((from, from_pin)));
        proof {
            let nv = with_input(g0[i as int], to_pin as int, Some((from, from_pin)));
            assert(self.gs() =~= g0.update(i as int, nv));
            lemma_feeds_update(g0, i as int, nv);
            lemma_has_node_update(g0, i as int, nv);
            assert forall|src: u64, c: u64| #[trigger] feeds(self.gs(), src, c) implies feeds(g0, src, c) || (src == from.0 && c == to.0) by {
                if c == nv.id && src != from.0 {
                    let p = choose|p: int| 0 <= p < nv.inputs.len() && (#[trigger] nv.inputs[p]) is Some && nv.inputs[p].unwrap().0.0 == src;
                    assert(p != to_pin as int);
                    assert(g0[i as int].inputs[p] is Some);
                    assert(node_feeds(g0[i as int], src));
                    lemma_feeds_at(g0, i as int, src);
                }
            }
            if acyclic(g0) {
                lemma_new_wire_acyclic(g0, self.gs(), from.0, to.0);
            }
            if old(self).wf() {
                assert forall|a: int, q: int|
                    0 <= a < self.gs().len() && 0 <= q < self.gs()[a].inputs.len() && (#[trigger] self.gs()[a].inputs[q]) is Some
                        implies has_node(self.gs(), self.gs()[a].inputs[q].unwrap().0.0) by {
                    if a != i as int || q != to_pin as int {
                        assert(g0[a].inputs[q] is Some);
                    }
                }
            }
        }
        Ok(prev)
    }

    /// Clear `to`'s input pin. Returns what was connected there.
    pub fn disconnect(&mut self, to: NodeId, to_pin: u16) -> (r: Result<Option<OutPin>, EngineError>)
        requires
            old(self).wf_ids(),
        ensures
            final(self).wf_ids(),
            final(self).output == old(self).output,
            !has_node(old(self).gs(), to.0) ==> r == Err::<Option<OutPin>, EngineError>(EngineError::UnknownNode(to)),
            r is Err ==> final(self).gs() == old(self).gs(),
            has_node(old(self).gs(), to.0) ==> exists|i: int|
                0 <= i < old(self).gs().len() && #[trigger] old(self).gs()[i].id == to.0 && (
                if to_pin >= old(self).gs()[i].inputs.len() {
                    r == Err::<Option<OutPin>, EngineError>(EngineError::PinOutOfRange { node: to, pin: to_pin })
                } else {
                    r == Ok::<Option<OutPin>, EngineError>(old(self).gs()[i].inputs[to_pin as int])
                        && final(self).gs() == old(self).gs().update(i, with_input(old(self).gs()[i], to_pin as int, None))
                }),
            old(self).wf() ==> final(self).wf(),
    {
        let i = match self.index_of(to) {
            Some(i) => i,
            None => { return Err(EngineError::UnknownNode(to)); },
        };
        proof {
            assert(old(self).gs()[i as int].id == to.0);
        }
        if to_pin as usize >= self.nodes[i].inputs.len() {
            return Err(EngineError::PinOutOfRange { node: to, pin: to_pin });
        }
        let ghost g0 = self.gs();
        let prev = self.nodes[i].inputs[to_pin as usize];
        self.nodes[i].inputs.set(to_pin as usize, None);
        proof {
            let nv = with_input(g0[i as int], to_pin as int, None);
            assert(self.gs() =~= g0.update(i as int, nv));
            lemma_feeds_update(g0, i as int, nv);
            lemma_has_node_update(g0, i as int, nv);
            if old(self).wf() {
                assert forall|src: u64, c: u64| #[trigger] feeds(self.gs(), src, c) implies feeds(g0, src, c) by {
                    if c == nv.id {
                        let p = choose|p: int| 0 <= p < nv.inputs.len() && (#[trigger] nv.inputs[p]) is Some && nv.inputs[p].unwrap().0.0 == src;
                        assert(g0[i as int].inputs[p] is Some);
                        assert(node_feeds(g0[i as int], src));
                        lemma_feeds_at(g0, i as int, src);
                    }
                }
                lemma_acyclic_sub(self.gs(), g0);
                assert forall|a: int, q: int|
                    0 <= a < self.gs().len() && 0 <= q < self.gs()[a].inputs.len() && (#[trigger] self.gs()[a].inputs[q]) is Some
                        implies has_node(self.gs(), self.gs()[a].inputs[q].unwrap().0.0) by {
                    assert(g0[a].inputs[q] is Some);
                }
            }
        }
        Ok(prev)
    }

    /// Insert a node (replacing any node with the same id), keeping ids ascending.
    pub fn add_node(&mut self, node: Node)
        requires
            old(self).wf_ids(),
        ensures
            final(self).wf_ids(),
            final(self).output == old(self).output,
            has_node(old(self).gs(), node.id.0) ==> exists|i: int|
                0 <= i < old(self).gs().len() && #[trigger] old(self).gs()[i].id == node.id.0
                    && final(self).gs() == old(self).gs().update(i, node.view()),
            !has_node(old(self).gs(), node.id.0) ==> exists|pos: int|
                0 <= pos <= old(self).gs().len() && final(self).gs() == old(self).gs().insert(pos, node.view())
                    && (forall|j: int| 0 <= j < pos ==> #[trigger] old(self).gs()[j].id < node.id.0)
                    && (forall|j: int| pos <= j < old(self).gs().len() ==> #[trigger] old(self).gs()[j].id > node.id.0),
            old(self).wf() && !has_node(old(self).gs(), node.id.0) && (forall|p: int|
                0 <= p < node.inputs@.len() ==> (#[trigger] node.inputs@[p]) is None) ==> final(self).wf(),
    {
        let ghost g0 = self.gs();
        let ghost nv = node.view();
        let id = node.id;
        let mut pos: usize = 0;
        while pos < self.nodes.len() && self.nodes[pos].id.0 < id.0
            invariant
                pos <= self.nodes@.len(),
                g0 == self.gs(),
                forall|j: int| 0 <= j < pos ==> #[trigger] g0[j].id < id.0,
            decreases self.nodes@.len() - pos,
        {
            pos = pos + 1;
        }
        proof {
            assert forall|j: int| pos <= j < g0.len() implies #[trigger] g0[j].id >= id.0 by {
                if j > pos {
                    assert(g0[pos as int].id < g0[j].id);
                }
            }
        }
        if pos < self.nodes.len() && self.nodes[pos].id == id {
            self.nodes.set(pos, node);
            proof {
                assert(g0[pos as int].id == id.0);
                assert(self.gs() =~= g0.update(pos as int, nv));
                lemma_feeds_update(g0, pos as int, nv);
            }
        } else {
            self.nodes.insert(pos, node);
            proof {
                let g1 = self.gs();
                assert(g1 =~= g0.insert(pos as int, nv));
                assert forall|j: int| pos <= j < g0.len() implies #[trigger] g0[j].id > id.0 by {
                    assert(g0[j].id >= id.0);
                    if g0[j].id == id.0 {
                        if j > pos {
                            assert(g0[pos as int].id < g0[j].id);
                        }
                    }
                }
                assert forall|a: int, b: int| 0 <= a < b < g1.len() implies #[trigger] g1[a].id < #[trigger] g1[b].id by {
                    if b < pos {
                        assert(g0[a].id < g0[b].id);
                    } else if b == pos {
                    } else if a < pos {
                        assert(g1[b] == g0[b - 1]);
                    } else if a == pos {
                        assert(g1[b] == g0[b - 1]);
                    } else {
                        assert(g0[a - 1].id < g0[b - 1].id);
                    }
                }
                assert(!has_node(g0, id.0)) by {
                    if has_node(g0, id.0) {
                        let j = choose|j: int| 0 <= j < g0.len() && #[trigger] g0[j].id == id.0;
                        assert(g0[j].id < id.0 || g0[j].id > id.0);
                    }
                }
                assert forall|x: u64| #[trigger] has_node(g0, x) implies has_node(g1, x) by {
                    let j = choose|j: int| 0 <= j < g0.len() && #[trigger] g0[j].id == x;
                    if j < pos {
                        assert(g1[j].id == x);
                    } else {
                        assert(g1[j + 1].id == x);
                    }
                }
                if old(self).wf() && (forall|p: int| 0 <= p < nv.inputs.len() ==> (#[trigger] nv.inputs[p]) is None) {
                    assert forall|src: u64, c: u64| #[trigger] feeds(g1, src, c) implies feeds(g0, src, c) by {
                        let (j, p) = choose|j: int, p: int|
                            0 <= j < g1.len() && g1[j].id == c && 0 <= p < g1[j].inputs.len()
                                && (#[trigger] g1[j].inputs[p]) is Some && g1[j].inputs[p].unwrap().0.0 == src;
                        if j < pos {
                            assert(g0[j].inputs[p] is Some);
                        } else if j > pos {
                            assert(g0[j - 1].inputs[p] is Some);
                        } else {
                            assert(nv.inputs[p] is None);
                        }
                    }
                    lemma_acyclic_sub(g1, g0);
                    assert forall|a: int, q: int|
                        0 <= a < g1.len() && 0 <= q < g1[a].inputs.len() && (#[trigger] g1[a].inputs[q]) is Some
                            implies has_node(g1, g1[a].inputs[q].unwrap().0.0) by {
                        if a < pos {
                            assert(g0[a].inputs[q] is Some);
                        } else if a > pos {
                            assert(g0[a - 1].inputs[q] is Some);
                        } else {
                            assert(nv.inputs[q] is None);
                        }
                    }
                }
            }
        }
    }

    /// Remove a node, cutting every wire from it into other nodes. Returns
    /// the removed node and the cut wires as (consumer, consumer pin,
    /// source pin), node order then pin order, so the caller can build an
    /// exact inverse.
    pub fn remove_node(&mut self, id: NodeId) -> (r: Result<(Node, Vec<SeveredLink>), EngineError>)
        requires
            old(self).wf_ids(),
        ensures
            final(self).wf_ids(),
            !has_node(old(self).gs(), id.0) ==> r is Err && r->Err_0 == EngineError::UnknownNode(id)
                && final(self).gs() == old(self).gs() && final(self).output == old(self).output,
            has_node(old(self).gs(), id.0) ==> r is Ok && exists|k: int|
                0 <= k < old(self).gs().len() && #[trigger] old(self).gs()[k].id == id.0
                    && r->Ok_0.0.view() == old(self).gs()[k]
                    && final(self).gs() == sever_all(old(self).gs().remove(k), id.0)
                    && r->Ok_0.1@ == severed_spec(old(self).gs().remove(k), id.0),
            has_node(old(self).gs(), id.0) ==> final(self).output == (if old(self).output == Some(id) {
                None::<NodeId>
            } else {
                old(self).output
            }),
            old(self).wf() ==> final(self).wf(),
    {
        let k = match self.index_of(id) {
            Some(k) => k,
            None => { return Err(EngineError::UnknownNode(id)); },
        };
        let ghost g0 = self.gs();
        proof {
            assert(g0[k as int].id == id.0);
        }
        let node = self.nodes.remove(k);
        let ghost g1 = self.gs();
        proof {
            assert(g1 =~= g0.remove(k as int));
            assert(g0[k as int].id == id.0);
        }
        let severed = self.sever_all_from(id);
        let n = self.nodes.len();
        if self.output == Some(id) {
            self.output = None;
        }
        proof {
            let g2 = self.gs();
            assert forall|a: int, b: int| 0 <= a < b < g2.len() implies #[trigger] g2[a].id < #[trigger] g2[b].id by {
                if b < k {
                    assert(g0[a].id < g0[b].id);
                } else if a < k {
                    assert(g0[a].id < g0[b + 1].id);
                } else {
                    assert(g0[a + 1].id < g0[b + 1].id);
                }
            }
            if old(self).wf() {
                assert forall|src: u64, c: u64| #[trigger] feeds(g2, src, c) implies feeds(g0, src, c) && src != id.0 by {
                    let (a, q) = choose|a: int, q: int|
                        0 <= a < g2.len() && g2[a].id == c && 0 <= q < g2[a].inputs.len()
                            && (#[trigger] g2[a].inputs[q]) is Some && g2[a].inputs[q].unwrap().0.0 == src;
                    if a < k {
                        assert(g0[a].inputs[q] is Some);
                    } else {
                        assert(g0[a + 1].inputs[q] is Some);
                    }
                }
                lemma_acyclic_sub(g2, g0);
                assert forall|x: u64| #[trigger] has_node(g0, x) && x != id.0 implies has_node(g2, x) by {
                    let t = choose|t: int| 0 <= t < g0.len() && #[trigger] g0[t].id == x;
                    if t < k {
                        assert(g2[t].id == x);
                    } else {
                        assert(t != k);
                        assert(g2[t - 1].id == x);
                    }
                }
                assert forall|a: int, q: int|
                    0 <= a < g2.len() && 0 <= q < g2[a].inputs.len() && (#[trigger] g2[a].inputs[q]) is Some
                        implies has_node(g2, g2[a].inputs[q].unwrap().0.0) by {
                    if a < k {
                        assert(g0[a].inputs[q] is Some);
                    } else {
                        assert(g0[a + 1].inputs[q] is Some);
                    }
                }
            }
        }
        Ok((node, severed))
    }

    /// Cut every wire from `id` into any node; returns the cut wires as
    /// (consumer, consumer pin, source pin), node order then pin order.
    fn sever_all_from(&mut self, id: NodeId) -> (severed: Vec<SeveredLink>)
        ensures
            final(self).gs() == sever_all(old(self).gs(), id.0),
            final(self).output == old(self).output,
            severed@ == severed_spec(old(self).gs(), id.0),
    {
        let ghost g1 = self.gs();
        let mut severed: Vec<SeveredLink> = Vec::new();
        let n = self.nodes.len();
        let mut j: usize = 0;
        while j < n
            invariant
                n == g1.len(),
                j <= n,
                self.output == old(self).output,
                self.nodes@.len() == n,
                self.gs() == sever_all(g1.take(j as int), id.0) + g1.skip(j as int),
                severed@ == severed_spec(g1.take(j as int), id.0),
            decreases n - j,
        {
            let ghost gj = self.gs();
            let ghost nj = self.nodes@;
            proof {
                assert(gj[j as int] == g1.skip(j as int)[0]);
                assert(gj[j as int] == g1[j as int]);
            }
            let cid = self.nodes[j].id;
            let links = self.nodes[j].sever_from(id);
            let mut q: usize = 0;
            while q < links.len()
                invariant
                    q <= links@.len(),
                    links@ == pin_links(g1[j as int].inputs, id.0),
                    cid.0 == g1[j as int].id,
                    severed@ == severed_spec(g1.take(j as int), id.0) + links@.take(q as int).map_values(
                        |l: (u16, u16)| (NodeId(g1[j as int].id), l.0, l.1),
                    ),
                decreases links@.len() - q,
            {
                let (pin, sp) = links[q];
                severed.push((cid, pin, sp));
                q = q + 1;
                proof {
                    assert(links@.take(q as int) =~= links@.take(q as int - 1).push(links@[q as int - 1]));
                    assert(severed@ =~= severed_spec(g1.take(j as int), id.0) + links@.take(q as int).map_values(
                        |l: (u16, u16)| (NodeId(g1[j as int].id), l.0, l.1),
                    ));
                }
            }
            proof {
                assert(links@.take(q as int) =~= links@);
                assert(g1.take(j as int + 1).drop_last() =~= g1.take(j as int));
                assert(severed@ =~= severed_spec(g1.take(j as int + 1), id.0));
                assert forall|t: int| 0 <= t < n && t != j implies #[trigger] self.nodes@[t] == nj[t] by {}
                let target = sever_all(g1.take(j as int + 1), id.0) + g1.skip(j as int + 1);
                assert forall|t: int| 0 <= t < n implies #[trigger] self.gs()[t] == target[t] by {
                    if t < j {
                        assert(self.gs()[t] == gj[t]);
                    } else if t == j {
                        assert(self.gs()[t] == sever_node(g1[j as int], id.0));
                    } else {
                        assert(self.gs()[t] == gj[t]);
                    }
                }
                assert(self.gs() =~= target);
            }
            j = j + 1;
        }
        proof {
            assert(g1.take(n as int) =~= g1);
            assert(g1.skip(n as int) =~= Seq::<NodeView>::empty());
            assert(self.gs() =~= sever_all(g1, id.0));
        }
        severed
    }

    /// Replace a node's kind, resizing its input list to the new kind's pin
    /// count (truncated pins lose their wires, new pins start unwired).
    /// Returns the previous kind and inputs.
    pub fn set_kind(&mut self, id: NodeId, kind: NodeKind) -> (r: Result<(NodeKind, Vec<Option<OutPin>>), EngineError>)
        requires
            old(self).wf_ids(),
        ensures
            final(self).wf_ids(),
            final(self).output == old(self).output,
            !has_node(old(self).gs(), id.0) ==> r is Err && r->Err_0 == EngineError::UnknownNode(id)
                && final(self).gs() == old(self).gs(),
            has_node(old(self).gs(), id.0) ==> r is Ok && exists|i: int|
                0 <= i < old(self).gs().len() && #[trigger] old(self).gs()[i].id == id.0
                    && r->Ok_0.0 == old(self).gs()[i].kind && r->Ok_0.1@ == old(self).gs()[i].inputs
                    && final(self).gs() == old(self).gs().update(i, NodeView {
                        id: id.0,
                        kind,
                        inputs: resized(old(self).gs()[i].inputs, input_count_spec(kind)),
                    }),
            old(self).wf() ==> final(self).wf(),
    {
        let i = match self.index_of(id) {
            Some(i) => i,
            None => { return Err(EngineError::UnknownNode(id)); },
        };
        let ghost g0 = self.gs();
        let ghost n0 = self.nodes@;
        proof {
            assert(g0[i as int].id == id.0);
        }
        let prev_kind = self.nodes[i].kind;
        let prev_inputs = copy_inputs(&self.nodes[i].inputs);
        let count = kind.input_count();
        self.nodes[i].kind = kind;
        if count <= self.nodes[i].inputs.len() {
            self.nodes[i].inputs.truncate(count);
        } else {
            while self.nodes[i].inputs.len() < count
                invariant
                    i < self.nodes@.len(),
                    self.nodes@.len() == g0.len(),
                    g0[i as int].inputs.len() <= self.nodes@[i as int].inputs@.len() <= count,
                    self.nodes@[i as int].inputs@ == g0[i as int].inputs + Seq::new(
                        (self.nodes@[i as int].inputs@.len() - g0[i as int].inputs.len()) as nat, |z: int| None::<OutPin>),
                    self.nodes@[i as int].id == id,
                    self.nodes@[i as int].kind == kind,
                    self.output == old(self).output,
                    g0 == nodes_view(n0),
                    forall|t: int| 0 <= t < g0.len() && t != i ==> #[trigger] self.nodes@[t] == n0[t],
                decreases count - self.nodes@[i as int].inputs@.len(),
            {
                self.nodes[i].inputs.push(None);
                proof {
                    assert(self.nodes@[i as int].inputs@ =~= g0[i as int].inputs + Seq::new(
                        (self.nodes@[i as int].inputs@.len() - g0[i as int].inputs.len()) as nat, |z: int| None::<OutPin>));
                }
            }
        }
        proof {
            let nv = NodeView { id: id.0, kind, inputs: resized(g0[i as int].inputs, input_count_spec(kind)) };
            assert(self.nodes@[i as int].inputs@ =~= nv.inputs);
            assert(self.gs() =~= g0.update(i as int, nv));
            lemma_feeds_update(g0, i as int, nv);
            lemma_has_node_update(g0, i as int, nv);
            if old(self).wf() {
                assert forall|src: u64, c: u64| #[trigger] feeds(self.gs(), src, c) implies feeds(g0, src, c) by {
                    if c == nv.id {
                        let p = choose|p: int| 0 <= p < nv.inputs.len() && (#[trigger] nv.inputs[p]) is Some && nv.inputs[p].unwrap().0.0 == src;
                        assert(g0[i as int].inputs[p] is Some);
                        assert(node_feeds(g0[i as int], src));
                        lemma_feeds_at(g0, i as int, src);
                    }
                }
                lemma_acyclic_sub(self.gs(), g0);
                assert forall|a: int, q: int|
                    0 <= a < self.gs().len() && 0 <= q < self.gs()[a].inputs.len() && (#[trigger] self.gs()[a].inputs[q]) is Some
                        implies has_node(self.gs(), self.gs()[a].inputs[q].unwrap().0.0) by {
                    assert(g0[a].inputs[q] is Some);
                }
            }
        }
        Ok((prev_kind, prev_inputs))
    }

    /// Set (or clear) the output node; returns the previous output.
    pub fn set_output(&mut self, node: Option<NodeId>) -> (r: Result<Option<NodeId>, EngineError>)
        requires
            old(self).wf_ids(),
        ensures
            final(self).gs() == old(self).gs(),
            final(self).wf_ids(),
            match node {
                Some(n) if !has_node(old(self).gs(), n.0) => r == Err::<Option<NodeId>, EngineError>(EngineError::UnknownNode(n))
                    && final(self).output == old(self).output,
                _ => r == Ok::<Option<NodeId>, EngineError>(old(self).output) && final(self).output == node,
            },
            old(self).wf() ==> final(self).wf(),
    {
        match node {
            Some(n) => {
                if !self.contains(n) {
                    return Err(EngineError::UnknownNode(n));
                }
            },
            None => {},
        }
        let prev = self.output;
        self.output = node;
        Ok(prev)
    }

    /// All DrawingSource nodes reading the given column, in node order.
    pub fn sources_of_column(&self, column: ColumnId) -> (r: Vec<NodeId>)
        ensures
            r@ == ids_where(self.gs(), is_source_of_column(column)),
    {
        let mut r: Vec<NodeId> = Vec::new();
        let mut i: usize = 0;
        while i < self.nodes.len()
            invariant
                i <= self.nodes@.len(),
                r@ == ids_where(self.gs().take(i as int), is_source_of_column(column)),
            decreases self.nodes@.len() - i,
        {
            proof {
                assert(self.gs().take(i as int + 1).drop_last() =~= self.gs().take(i as int));
            }
            if self.nodes[i].kind == (NodeKind::DrawingSource { column }) {
                r.push(self.nodes[i].id);
            }
            i = i + 1;
        }
        proof {
            assert(self.gs().take(i as int) =~= self.gs());
        }
        r
    }

    /// All ImageSource nodes reading the given image asset, in node order.
    pub fn sources_of_image(&self, image: ImageId) -> (r: Vec<NodeId>)
        ensures
            r@ == ids_where(self.gs(), is_source_of_image(image)),
    {
        let mut r: Vec<NodeId> = Vec::new();
        let mut i: usize = 0;
        while i < self.nodes.len()
            invariant
                i <= self.nodes@.len(),
                r@ == ids_where(self.gs().take(i as int), is_source_of_image(image)),
            decreases self.nodes@.len() - i,
        {
            proof {
                assert(self.gs().take(i as int + 1).drop_last() =~= self.gs().take(i as int));
            }
            if self.nodes[i].kind == (NodeKind::ImageSource { image }) {
                r.push(self.nodes[i].id);
            }
            i = i + 1;
        }
        proof {
            assert(self.gs().take(i as int) =~= self.gs());
        }
        r
    }

    pub fn nodes(&self) -> (r: &[Node])
        ensures
            r@ == self.nodes@,
    {
        self.nodes.as_slice()
    }
}

} // verus!
