//! Pull-based, memoized graph evaluation: each (node, frame) computes once;
//! edits invalidate only the edited node and its downstream closure.

use vstd::prelude::*;
use vstd::utf8::encode_utf8;
use crate::bytes::{be_bytes, u64_be};
use crate::error::EngineError;
use crate::graph::{
    contains_id, feeds, has_node, ids_ascending, inputs_exist, acyclic, upstream, upstream_within, downstream,
    downstream_within, lemma_upstream_extend, lemma_downstream_extend, BlendMode, NodeKind, NodeView, OutPin, Rgba8,
};
use crate::ids::{ColumnId, ImageId, NodeId};
use crate::laws::cut_view_wf;
use crate::model::{drawing_hash, columns_view, images_view, Cut, CutView, ImageAsset, ImageView};
use crate::text::{decimal, decimal_spec, hex, hex_spec, push_char};
use crate::value::{fnv1a_spec, Value, ValueView};
use crate::xsheet::{hold_at, ColumnView};

verus! {

#[derive(Debug, Clone, Copy, PartialEq, Eq, Structural)]
pub struct EvalStats {
    /// Node evaluations actually computed.
    pub computed: u64,
    /// Node evaluations served from cache.
    pub cache_hits: u64,
}

/// One memoized value: the node, the frame, and what it evaluated to.
#[derive(Debug)]
pub struct CacheEntry {
    pub node: NodeId,
    pub frame: u32,
    pub value: Value,
}

pub type CacheKey = (NodeId, u32);

pub open spec fn entries_view(s: Seq<CacheEntry>) -> Seq<(CacheKey, ValueView)> {
    s.map_values(|e: CacheEntry| ((e.node, e.frame), e.value@))
}

/// The entries whose node is not in `nodes`, in order.
pub open spec fn retain_spec(s: Seq<(CacheKey, ValueView)>, nodes: Set<NodeId>) -> Seq<(CacheKey, ValueView)>
    decreases s.len(),
{
    if s.len() == 0 {
        Seq::empty()
    } else {
        let r = retain_spec(s.drop_last(), nodes);
        if nodes.contains(s.last().0.0) { r } else { r.push(s.last()) }
    }
}


// ---------------------------------------------------------------------------
// What a node evaluates to
// ---------------------------------------------------------------------------

/// The printed form of each Transform number, by its f32 bit pattern
/// (three decimals, as the caller formats them).
pub open spec fn decimals_view(t: Seq<(u32, String)>) -> Seq<(u32, Seq<char>)> {
    t.map_values(|e: (u32, String)| (e.0, e.1@))
}

/// The printed form of `bits`: the first entry for it, or nothing.
pub open spec fn fixed_text(t: Seq<(u32, Seq<char>)>, bits: u32) -> Seq<char>
    decreases t.len(),
{
    if t.len() == 0 {
        Seq::empty()
    } else if t[0].0 == bits {
        t[0].1
    } else {
        fixed_text(t.drop_first(), bits)
    }
}

/// The node with this id (ids are unique in a well-formed graph).
pub open spec fn lookup_node(gs: Seq<NodeView>, id: u64) -> Option<NodeView> {
    if has_node(gs, id) {
        Some(gs[choose|i: int| 0 <= i < gs.len() && #[trigger] gs[i].id == id])
    } else {
        None
    }
}

/// The sheet column with this id (ids are unique in a well-formed cut).
pub open spec fn lookup_column(cols: Seq<ColumnView>, id: u64) -> Option<ColumnView> {
    if exists|i: int| 0 <= i < cols.len() && #[trigger] cols[i].id == id {
        Some(cols[choose|i: int| 0 <= i < cols.len() && #[trigger] cols[i].id == id])
    } else {
        None
    }
}

/// The first image asset with this id.
pub open spec fn first_image(imgs: Seq<ImageView>, id: ImageId) -> Option<ImageView>
    decreases imgs.len(),
{
    if imgs.len() == 0 {
        None
    } else if imgs[0].id == id {
        Some(imgs[0])
    } else {
        first_image(imgs.drop_first(), id)
    }
}

/// An id as printed: its kind's letter, then the number.
pub open spec fn id_text(tag: char, n: u64) -> Seq<char> {
    seq![tag] + decimal_spec(n as nat)
}

/// A 64-bit hash as sixteen lowercase hex digits.
pub open spec fn hash_text(h: u64) -> Seq<char> {
    hex_spec(u64_be(h))
}

pub open spec fn blend_text(m: BlendMode) -> Seq<char> {
    match m {
        BlendMode::Normal => "Normal"@,
        BlendMode::Multiply => "Multiply"@,
        BlendMode::Add => "Add"@,
        BlendMode::Screen => "Screen"@,
    }
}

/// A DrawingSource's recipe: the drawing its column holds at `frame`,
/// with its name and content hash; "empty" where nothing is exposed.
pub open spec fn source_recipe(cut: CutView, column: ColumnId, frame: u32) -> Result<Seq<char>, EngineError> {
    match lookup_column(cut.columns, column.0) {
        None => Err(EngineError::UnknownColumn(column)),
        Some(c) => match hold_at(c.keys, frame) {
            Some(d) => if cut.drawings.contains_key(d) {
                Ok("drawing("@ + id_text('D', d.0) + ":'"@ + cut.drawings[d].name + "'#"@
                    + hash_text(drawing_hash(cut.drawings[d])) + ")"@)
            } else {
                Ok("drawing("@ + id_text('D', d.0) + ":?)"@)
            },
            None => Ok("empty"@),
        },
    }
}

/// An ImageSource's recipe: the asset's name and content hash.
pub open spec fn image_recipe(imgs: Seq<ImageView>, image: ImageId) -> Seq<char> {
    match first_image(imgs, image) {
        Some(a) => "image("@ + id_text('I', image.0) + ":'"@ + a.name + "'#"@ + hash_text(a.content_hash) + ")"@,
        None => "image("@ + id_text('I', image.0) + ":?)"@,
    }
}

pub open spec fn solid_recipe(c: Rgba8) -> Seq<char> {
    "solid(#"@ + hex_spec(seq![c.r, c.g, c.b, c.a]) + ")"@
}

pub open spec fn xform_recipe(t: Seq<(u32, Seq<char>)>, tx: u32, ty: u32, s: u32, r: u32, child: Seq<char>) -> Seq<char> {
    "xform(t=("@ + fixed_text(t, tx) + ","@ + fixed_text(t, ty) + "),s="@ + fixed_text(t, s) + ",r="@
        + fixed_text(t, r) + ", "@ + child + ")"@
}

/// The node wired into input `slot`, if any.
pub open spec fn input_src(inputs: Seq<Option<OutPin>>, slot: int) -> Option<u64> {
    if 0 <= slot < inputs.len() && inputs[slot] is Some {
        Some(inputs[slot].unwrap().0.0)
    } else {
        None
    }
}

/// What input `slot` evaluates to: its source's recipe, or "empty" when
/// nothing is wired there.
pub open spec fn input_recipe(
    cut: CutView,
    t: Seq<(u32, Seq<char>)>,
    inputs: Seq<Option<OutPin>>,
    slot: int,
    frame: u32,
    fuel: nat,
) -> Result<Seq<char>, EngineError>
    decreases fuel, 1nat,
{
    match input_src(inputs, slot) {
        Some(s) => node_recipe(cut, t, s, frame, fuel),
        None => Ok("empty"@),
    }
}

/// The recipe of node `id` at `frame`, looking at most `fuel` nodes deep;
/// the first error met, inputs in pin order, is the answer otherwise.
pub open spec fn node_recipe(cut: CutView, t: Seq<(u32, Seq<char>)>, id: u64, frame: u32, fuel: nat) -> Result<
    Seq<char>,
    EngineError,
>
    decreases fuel, 0nat,
{
    if fuel == 0 {
        Err(EngineError::EvalCycle(NodeId(id)))
    } else {
        match lookup_node(cut.graph.nodes, id) {
            None => Err(EngineError::UnknownNode(NodeId(id))),
            Some(n) => match n.kind {
                NodeKind::DrawingSource { column } => source_recipe(cut, column, frame),
                NodeKind::Solid { rgba } => Ok(solid_recipe(rgba)),
                NodeKind::ImageSource { image } => Ok(image_recipe(cut.images, image)),
                NodeKind::Transform { translate_x, translate_y, scale, rotate_deg } => match input_recipe(
                    cut,
                    t,
                    n.inputs,
                    0,
                    frame,
                    (fuel - 1) as nat,
                ) {
                    Ok(c) => Ok(xform_recipe(t, translate_x, translate_y, scale, rotate_deg, c)),
                    Err(e) => Err(e),
                },
                NodeKind::Blend { mode } => match input_recipe(cut, t, n.inputs, 0, frame, (fuel - 1) as nat) {
                    Ok(a) => match input_recipe(cut, t, n.inputs, 1, frame, (fuel - 1) as nat) {
                        Ok(b) => Ok("blend("@ + blend_text(mode) + ", "@ + a + ", "@ + b + ")"@),
                        Err(e) => Err(e),
                    },
                    Err(e) => Err(e),
                },
                NodeKind::Output => match input_recipe(cut, t, n.inputs, 0, frame, (fuel - 1) as nat) {
                    Ok(c) => Ok("out("@ + c + ")"@),
                    Err(e) => Err(e),
                },
            },
        }
    }
}

/// What node `id` evaluates to at `frame`: no chain of inputs in a graph
/// of n nodes is deeper than n.
pub open spec fn node_value(cut: CutView, t: Seq<(u32, Seq<char>)>, id: u64, frame: u32) -> Result<
    Seq<char>,
    EngineError,
> {
    node_recipe(cut, t, id, frame, cut.graph.nodes.len())
}

/// What the cut evaluates to at `frame`: its output node's value.
pub open spec fn cut_value(cut: CutView, t: Seq<(u32, Seq<char>)>, frame: u32) -> Result<Seq<char>, EngineError> {
    match cut.graph.output {
        None => Err(EngineError::NoOutput),
        Some(o) => node_value(cut, t, o.0, frame),
    }
}

/// A value carrying `recipe`, hashed as the recipe's UTF-8 bytes.
pub open spec fn image_value(recipe: Seq<char>) -> ValueView {
    ValueView { hash: fnv1a_spec(encode_utf8(recipe)), recipe }
}

/// A memoized value that is what its node evaluates to now.
pub open spec fn entry_agrees(e: (CacheKey, ValueView), cut: CutView, t: Seq<(u32, Seq<char>)>) -> bool {
    node_value(cut, t, e.0.0.0, e.0.1) == Ok::<Seq<char>, EngineError>(e.1.recipe) && e.1 == image_value(e.1.recipe)
}

/// Every memoized value of a node of `cut` is what that node evaluates to
/// now (values of other cuts' nodes are not its concern).
pub open spec fn cache_agrees(c: Seq<(CacheKey, ValueView)>, cut: CutView, t: Seq<(u32, Seq<char>)>) -> bool {
    forall|i: int| 0 <= i < c.len() && has_node(cut.graph.nodes, c[i].0.0.0) ==> #[trigger] entry_agrees(c[i], cut, t)
}

// ---- Depth -----------------------------------------------------------------

/// Every chain of inputs above `id` is shorter than `f`.
pub open spec fn bounded(gs: Seq<NodeView>, id: u64, f: nat) -> bool
    decreases f,
{
    f > 0 && forall|m: u64| #[trigger] feeds(gs, m, id) ==> bounded(gs, m, (f - 1) as nat)
}

/// `path` is a walk against the data flow ending above `id`: each node is
/// an input of the one before it, and `id` is an input of the last.
pub open spec fn is_chain(gs: Seq<NodeView>, path: Seq<u64>, id: u64) -> bool {
    &&& linked(gs, path)
    &&& path.len() > 0 ==> feeds(gs, id, path.last())
}

/// Each node of `path` is an input of the one before it.
pub open spec fn linked(gs: Seq<NodeView>, path: Seq<u64>) -> bool {
    forall|k: int| 0 <= k < path.len() - 1 ==> #[trigger] feeds(gs, path[k + 1], path[k])
}


/// Enough depth gives the same answer as any more depth.
pub proof fn lemma_fuel_stable(cut: CutView, t: Seq<(u32, Seq<char>)>, id: u64, frame: u32, f: nat, g: nat)
    requires
        bounded(cut.graph.nodes, id, f),
        f <= g,
    ensures
        node_recipe(cut, t, id, frame, f) == node_recipe(cut, t, id, frame, g),
    decreases f,
{
    let gs = cut.graph.nodes;
    if let Some(n) = lookup_node(gs, id) {
        let i = choose|i: int| 0 <= i < gs.len() && #[trigger] gs[i].id == id;
        assert(n == gs[i]);
        assert forall|slot: int| 0 <= slot < 2 implies #[trigger] input_recipe(cut, t, n.inputs, slot, frame, (f - 1) as nat)
            == input_recipe(cut, t, n.inputs, slot, frame, (g - 1) as nat) by {
            if let Some(src) = input_src(n.inputs, slot) {
                assert(gs[i].inputs[slot] is Some);
                assert(feeds(gs, src, id));
                lemma_fuel_stable(cut, t, src, frame, (f - 1) as nat, (g - 1) as nat);
            }
        }
        assert(input_recipe(cut, t, n.inputs, 0, frame, (f - 1) as nat) == input_recipe(cut, t, n.inputs, 0, frame, (g - 1) as nat));
        assert(input_recipe(cut, t, n.inputs, 1, frame, (f - 1) as nat) == input_recipe(cut, t, n.inputs, 1, frame, (g - 1) as nat));
    }
}

/// Along a chain, each node is upstream of every node before it.
proof fn lemma_chain_upstream(gs: Seq<NodeView>, path: Seq<u64>, id: u64, j: int, k: int)
    requires
        is_chain(gs, path, id),
        0 <= j <= k < path.len(),
    ensures
        upstream_within(gs, path[j], path[k], (k - j) as nat),
    decreases k - j,
{
    if k == j {
    } else {
        lemma_chain_upstream(gs, path, id, j, k - 1);
        assert(feeds(gs, path[(k - 1) + 1], path[k - 1]));
        lemma_upstream_extend(gs, path[j], path[k - 1], path[k], (k - 1 - j) as nat);
    }
}

/// In an acyclic graph a chain never comes back to one of its own nodes.
proof fn lemma_chain_fresh(gs: Seq<NodeView>, path: Seq<u64>, id: u64)
    requires
        acyclic(gs),
        is_chain(gs, path, id),
    ensures
        !path.contains(id),
{
    if path.contains(id) {
        let j = choose|j: int| 0 <= j < path.len() && path[j] == id;
        let k = path.len() - 1;
        lemma_chain_upstream(gs, path, id, j, k);
        assert(upstream(gs, path[j], path[k]));
        assert(feeds(gs, path[j], path[k]));
    }
}

/// Distinct ids of existing nodes are no more than the nodes.
proof fn lemma_ids_fit(gs: Seq<NodeView>, s: Seq<u64>)
    requires
        s.no_duplicates(),
        forall|k: int| 0 <= k < s.len() ==> has_node(gs, #[trigger] s[k]),
    ensures
        s.len() <= gs.len(),
{
    let ids = gs.map_values(|n: NodeView| n.id);
    assert(s.to_set().subset_of(ids.to_set())) by {
        assert forall|x: u64| s.to_set().contains(x) implies ids.to_set().contains(x) by {
            let k = choose|k: int| 0 <= k < s.len() && s[k] == x;
            assert(has_node(gs, s[k]));
            let i = choose|i: int| 0 <= i < gs.len() && #[trigger] gs[i].id == x;
            assert(ids[i] == x);
        }
    }
    vstd::seq_lib::seq_to_set_is_finite(ids);
    vstd::set_lib::lemma_len_subset(s.to_set(), ids.to_set());
    s.unique_seq_to_set();
    ids.lemma_cardinality_of_set();
}

/// In a well-formed graph, a chain of distinct existing nodes leaves room
/// for `id` below it, and every chain above `id` is shorter than what is
/// left of the graph.
pub proof fn lemma_chain_bounded(gs: Seq<NodeView>, path: Seq<u64>, id: u64)
    requires
        ids_ascending(gs),
        inputs_exist(gs),
        acyclic(gs),
        is_chain(gs, path, id),
        path.no_duplicates(),
        forall|k: int| 0 <= k < path.len() ==> has_node(gs, #[trigger] path[k]),
        has_node(gs, id),
    ensures
        !path.contains(id),
        path.len() < gs.len(),
        bounded(gs, id, (gs.len() - path.len()) as nat),
    decreases gs.len() - path.len(),
{
    lemma_chain_fresh(gs, path, id);
    let p2 = path.push(id);
    assert(p2.no_duplicates()) by {
        assert forall|a: int, b: int| 0 <= a < b < p2.len() implies p2[a] != p2[b] by {
            if b == path.len() {
                assert(path.contains(path[a]));
            }
        }
    }
    assert forall|k: int| 0 <= k < p2.len() implies has_node(gs, #[trigger] p2[k]) by {
        if k < path.len() {
            assert(p2[k] == path[k]);
        }
    }
    lemma_ids_fit(gs, p2);
    let f = (gs.len() - path.len()) as nat;
    assert forall|m: u64| #[trigger] feeds(gs, m, id) implies bounded(gs, m, (f - 1) as nat) by {
        let (i, p) = choose|i: int, p: int|
            0 <= i < gs.len() && gs[i].id == id && 0 <= p < gs[i].inputs.len()
                && (#[trigger] gs[i].inputs[p]) is Some && gs[i].inputs[p].unwrap().0.0 == m;
        assert(has_node(gs, m));
        assert(is_chain(gs, p2, m)) by {
            assert forall|k: int| 0 <= k < p2.len() - 1 implies #[trigger] feeds(gs, p2[k + 1], p2[k]) by {
                if k + 1 < path.len() {
                    assert(p2[k + 1] == path[k + 1] && p2[k] == path[k]);
                    assert(feeds(gs, path[k + 1], path[k]));
                } else {
                    assert(p2[k + 1] == id && p2[k] == path.last());
                }
            }
            assert(p2.last() == id);
        }
        lemma_chain_bounded(gs, p2, m);
    }
}


/// The ids along a visiting path.
pub open spec fn path_ids(v: Seq<NodeId>) -> Seq<u64> {
    v.map_values(|n: NodeId| n.0)
}

proof fn lemma_first_image(imgs: Seq<ImageAsset>, id: ImageId, i: int)
    requires
        0 <= i < imgs.len(),
        imgs[i].id == id,
        forall|j: int| 0 <= j < i ==> #[trigger] imgs[j].id != id,
    ensures
        first_image(images_view(imgs), id) == Some(imgs[i].view()),
    decreases i,
{
    let v = images_view(imgs);
    if i > 0 {
        assert(images_view(imgs.drop_first()) =~= v.drop_first());
        assert forall|j: int| 0 <= j < i - 1 implies #[trigger] imgs.drop_first()[j].id != id by {
            assert(imgs[j + 1].id != id);
        }
        lemma_first_image(imgs.drop_first(), id, i - 1);
    }
}

proof fn lemma_no_image(imgs: Seq<ImageAsset>, id: ImageId)
    requires
        forall|j: int| 0 <= j < imgs.len() ==> #[trigger] imgs[j].id != id,
    ensures
        first_image(images_view(imgs), id) is None,
    decreases imgs.len(),
{
    if imgs.len() > 0 {
        assert(images_view(imgs.drop_first()) =~= images_view(imgs).drop_first());
        assert forall|j: int| 0 <= j < imgs.len() - 1 implies #[trigger] imgs.drop_first()[j].id != id by {
            assert(imgs[j + 1].id != id);
        }
        lemma_no_image(imgs.drop_first(), id);
    }
}

/// The printed form of `bits` from the caller's table.
fn fixed(table: &Vec<(u32, String)>, bits: u32) -> (s: String)
    ensures
        s@ == fixed_text(decimals_view(table@), bits),
{
    let ghost t = decimals_view(table@);
    assert(t.skip(0) =~= t);
    let mut i: usize = 0;
    while i < table.len()
        invariant
            i <= table@.len(),
            t == decimals_view(table@),
            fixed_text(t, bits) == fixed_text(t.skip(i as int), bits),
        decreases table@.len() - i,
    {
        proof {
            assert(t.skip(i as int)[0] == t[i as int]);
            assert(t.skip(i as int).drop_first() =~= t.skip(i as int + 1));
        }
        if table[i].0 == bits {
            return table[i].1.clone();
        }
        i = i + 1;
    }
    proof {
        assert(t.skip(i as int).len() == 0);
    }
    String::new()
}

/// An id as printed: `tag` then the decimal number.
pub(crate) fn id_string(tag: char, n: u64) -> (s: String)
    ensures
        s@ == id_text(tag, n),
{
    let mut s = String::new();
    push_char(&mut s, tag);
    let digits = decimal(n);
    let mut i: usize = 0;
    while i < digits.len()
        invariant
            i <= digits@.len(),
            s@ == seq![tag] + digits@.take(i as int),
        decreases digits@.len() - i,
    {
        push_char(&mut s, digits[i]);
        i = i + 1;
        assert(s@ =~= seq![tag] + digits@.take(i as int));
    }
    assert(digits@.take(i as int) =~= digits@);
    s
}

fn hash_string(h: u64) -> (s: String)
    ensures
        s@ == hash_text(h),
{
    let b = be_bytes(h);
    hex(b.as_slice())
}

fn blend_str(m: BlendMode) -> (s: &'static str)
    ensures
        s@ == blend_text(m),
{
    match m {
        BlendMode::Normal => "Normal",
        BlendMode::Multiply => "Multiply",
        BlendMode::Add => "Add",
        BlendMode::Screen => "Screen",
    }
}

/// The node wired into input `slot`, if any.
fn input_source(inputs: &Vec<Option<OutPin>>, slot: usize) -> (r: Option<NodeId>)
    ensures
        match r {
            Some(n) => input_src(inputs@, slot as int) == Some(n.0),
            None => input_src(inputs@, slot as int) is None,
        },
{
    if slot < inputs.len() {
        match inputs[slot] {
            Some((src, _pin)) => Some(src),
            None => None,
        }
    } else {
        None
    }
}

/// A DrawingSource's recipe at `frame`.
fn source_value(cut: &Cut, column: ColumnId, frame: u32) -> (r: Result<Value, EngineError>)
    requires
        cut.wf(),
    ensures
        match r {
            Ok(v) => source_recipe(cut.view(), column, frame) == Ok::<Seq<char>, EngineError>(v@.recipe)
                && v@ == image_value(v@.recipe),
            Err(e) => source_recipe(cut.view(), column, frame) == Err::<Seq<char>, EngineError>(e),
        },
{
    let ghost cols = columns_view(cut.xsheet.columns@);
    match cut.xsheet.column(column) {
        None => {
            proof {
                assert forall|i: int| 0 <= i < cols.len() implies #[trigger] cols[i].id != column.0 by {
                    assert(cut.xsheet.columns@[i].id != column);
                }
            }
            Err(EngineError::UnknownColumn(column))
        },
        Some(col) => {
            proof {
                let i = choose|i: int| 0 <= i < cut.xsheet.columns@.len() && cut.xsheet.columns@[i] == *col && col.id == column
                    && forall|j: int| 0 <= j < i ==> #[trigger] cut.xsheet.columns@[j].id != column;
                assert(cols[i].id == column.0);
                let k = choose|k: int| 0 <= k < cols.len() && #[trigger] cols[k].id == column.0;
                if k != i {
                    if k < i {
                        assert(cols[k].id != cols[i].id);
                    } else {
                        assert(cols[i].id != cols[k].id);
                    }
                }
                assert(lookup_column(cols, column.0) == Some(col.view()));
                assert(cut.xsheet.columns@[i].wf());
            }
            match col.resolve(frame) {
                Some(d) => match cut.drawing(d) {
                    Some(dr) => {
                        proof {
                            let j = choose|j: int| 0 <= j < cut.drawings@.len() && cut.drawings@[j] == *dr;
                            assert(cut.drawings@[j].wf());
                        }
                        let hash = dr.content_hash();
                        let recipe = String::from_str("drawing(").concat(id_string('D', d.0).as_str()).concat(":'")
                            .concat(dr.name.as_str()).concat("'#").concat(hash_string(hash).as_str()).concat(")");
                        Ok(Value::image(recipe))
                    },
                    None => {
                        let recipe = String::from_str("drawing(").concat(id_string('D', d.0).as_str()).concat(":?)");
                        Ok(Value::image(recipe))
                    },
                },
                None => Ok(Value::image(String::from_str("empty"))),
            }
        },
    }
}

/// An ImageSource's recipe.
fn image_source_value(cut: &Cut, image: ImageId) -> (v: Value)
    ensures
        v@.recipe == image_recipe(cut.view().images, image),
        v@ == image_value(v@.recipe),
{
    match cut.image(image) {
        Some(a) => {
            proof {
                let i = choose|i: int| 0 <= i < cut.images@.len() && cut.images@[i] == *a && a.id == image
                    && forall|j: int| 0 <= j < i ==> #[trigger] cut.images@[j].id != image;
                lemma_first_image(cut.images@, image, i);
            }
            let recipe = String::from_str("image(").concat(id_string('I', image.0).as_str()).concat(":'")
                .concat(a.name.as_str()).concat("'#").concat(hash_string(a.content_hash).as_str()).concat(")");
            Value::image(recipe)
        },
        None => {
            proof {
                lemma_no_image(cut.images@, image);
            }
            let recipe = String::from_str("image(").concat(id_string('I', image.0).as_str()).concat(":?)");
            Value::image(recipe)
        },
    }
}

fn solid_value(c: Rgba8) -> (v: Value)
    ensures
        v@.recipe == solid_recipe(c),
        v@ == image_value(v@.recipe),
{
    let bytes: Vec<u8> = vec![c.r, c.g, c.b, c.a];
    assert(bytes@ =~= seq![c.r, c.g, c.b, c.a]);
    let recipe = String::from_str("solid(#").concat(hex(bytes.as_slice()).as_str()).concat(")");
    Value::image(recipe)
}


// ---- What an edit leaves alone ----------------------------------------------

/// The ids of the roots.
pub open spec fn root_ids(roots: Seq<NodeId>) -> Set<u64> {
    Set::new(|k: u64| exists|r: int| 0 <= r < roots.len() && #[trigger] roots[r].0 == k)
}

/// The roots and everything downstream of them in `gs`.
pub open spec fn closure_of(gs: Seq<NodeView>, roots: Seq<NodeId>) -> Set<NodeId> {
    Set::new(|x: NodeId| exists|r: int| 0 <= r < roots.len() && downstream(gs, (#[trigger] roots[r]).0, x.0))
}

/// Outside the nodes `s`, the cut `c2` reads what `c1` does: the same
/// nodes (kind and wiring), the same recipe for every column a
/// DrawingSource there reads, and the same image assets.
pub open spec fn same_outside(c1: CutView, c2: CutView, s: Set<u64>) -> bool {
    &&& forall|k: u64| !s.contains(k) ==> #[trigger] lookup_node(c2.graph.nodes, k) == lookup_node(c1.graph.nodes, k)
    &&& forall|i: int, f: u32|
        #![trigger c2.graph.nodes[i], source_recipe(c2, c2.graph.nodes[i].kind->column, f)]
        0 <= i < c2.graph.nodes.len() && !s.contains(c2.graph.nodes[i].id) && c2.graph.nodes[i].kind is DrawingSource
            ==> source_recipe(c1, c2.graph.nodes[i].kind->column, f) == source_recipe(c2, c2.graph.nodes[i].kind->column, f)
    &&& c1.images == c2.images
}

/// A node outside the closure of an edit's roots evaluates the same before
/// and after it, at every depth.
pub proof fn lemma_local(
    c1: CutView,
    c2: CutView,
    t: Seq<(u32, Seq<char>)>,
    roots: Seq<NodeId>,
    k: u64,
    frame: u32,
    f: nat,
)
    requires
        same_outside(c1, c2, root_ids(roots)),
        !closure_of(c2.graph.nodes, roots).contains(NodeId(k)),
    ensures
        node_recipe(c1, t, k, frame, f) == node_recipe(c2, t, k, frame, f),
    decreases f,
{
    let gs = c2.graph.nodes;
    let cl = closure_of(gs, roots);
    if root_ids(roots).contains(k) {
        let r = choose|r: int| 0 <= r < roots.len() && #[trigger] roots[r].0 == k;
        assert(downstream_within(gs, roots[r].0, k, 0));
        assert(downstream(gs, roots[r].0, k));
        assert(cl.contains(NodeId(k)));
    }
    assert(lookup_node(gs, k) == lookup_node(c1.graph.nodes, k));
    if f > 0 {
        if let Some(n) = lookup_node(gs, k) {
            let j = choose|j: int| 0 <= j < gs.len() && #[trigger] gs[j].id == k;
            assert(n == gs[j]);
            if n.kind is DrawingSource {
                assert(source_recipe(c1, gs[j].kind->column, frame) == source_recipe(c2, gs[j].kind->column, frame));
            }
            assert forall|slot: int| 0 <= slot < 2 implies #[trigger] input_recipe(c1, t, n.inputs, slot, frame, (f - 1) as nat)
                == input_recipe(c2, t, n.inputs, slot, frame, (f - 1) as nat) by {
                if let Some(src) = input_src(n.inputs, slot) {
                    assert(gs[j].inputs[slot] is Some);
                    assert(feeds(gs, src, k));
                    if cl.contains(NodeId(src)) {
                        let r = choose|r: int| 0 <= r < roots.len() && downstream(gs, (#[trigger] roots[r]).0, src);
                        let m = choose|m: nat| downstream_within(gs, roots[r].0, src, m);
                        lemma_downstream_extend(gs, roots[r].0, src, k, m);
                        assert(downstream(gs, roots[r].0, k));
                        assert(cl.contains(NodeId(k)));
                    }
                    lemma_local(c1, c2, t, roots, src, frame, (f - 1) as nat);
                }
            }
            assert(input_recipe(c1, t, n.inputs, 0, frame, (f - 1) as nat) == input_recipe(c2, t, n.inputs, 0, frame, (f - 1) as nat));
            assert(input_recipe(c1, t, n.inputs, 1, frame, (f - 1) as nat) == input_recipe(c2, t, n.inputs, 1, frame, (f - 1) as nat));
        }
    }
}

/// A node outside the closure of an edit's roots has the same value before
/// and after it.
pub proof fn lemma_local_value(c1: CutView, c2: CutView, t: Seq<(u32, Seq<char>)>, roots: Seq<NodeId>, k: u64, frame: u32)
    requires
        cut_view_wf(c1),
        cut_view_wf(c2),
        same_outside(c1, c2, root_ids(roots)),
        !closure_of(c2.graph.nodes, roots).contains(NodeId(k)),
        has_node(c2.graph.nodes, k),
    ensures
        node_value(c1, t, k, frame) == node_value(c2, t, k, frame),
{
    let g1 = c1.graph.nodes;
    let g2 = c2.graph.nodes;
    let n1 = g1.len();
    let n2 = g2.len();
    if root_ids(roots).contains(k) {
        let r = choose|r: int| 0 <= r < roots.len() && #[trigger] roots[r].0 == k;
        assert(downstream_within(g2, roots[r].0, k, 0));
        assert(closure_of(g2, roots).contains(NodeId(k)));
    }
    assert(lookup_node(g2, k) == lookup_node(g1, k));
    assert(has_node(g1, k));
    assert(is_chain(g1, Seq::<u64>::empty(), k));
    assert(is_chain(g2, Seq::<u64>::empty(), k));
    lemma_chain_bounded(g1, Seq::<u64>::empty(), k);
    lemma_chain_bounded(g2, Seq::<u64>::empty(), k);
    let big = if n1 < n2 { n2 } else { n1 };
    lemma_fuel_stable(c1, t, k, frame, n1, big);
    lemma_fuel_stable(c2, t, k, frame, n2, big);
    lemma_local(c1, c2, t, roots, k, frame, big);
}

/// Entries kept by `retain_spec` are entries of the cache whose node is
/// not dropped.
pub(crate) proof fn lemma_retained(s: Seq<(CacheKey, ValueView)>, nodes: Set<NodeId>, i: int)
    requires
        0 <= i < retain_spec(s, nodes).len(),
    ensures
        !nodes.contains(retain_spec(s, nodes)[i].0.0),
        exists|j: int| 0 <= j < s.len() && s[j] == retain_spec(s, nodes)[i],
    decreases s.len(),
{
    let r = retain_spec(s.drop_last(), nodes);
    if i < r.len() {
        lemma_retained(s.drop_last(), nodes, i);
        let j = choose|j: int| 0 <= j < s.drop_last().len() && s.drop_last()[j] == r[i];
        assert(s[j] == r[i]);
    } else {
        assert(s[s.len() - 1] == retain_spec(s, nodes)[i]);
    }
}

/// Dropping the closure of an edit's roots leaves only values that are
/// still right after the edit.
pub proof fn lemma_retain_agrees(
    c1: CutView,
    c2: CutView,
    t: Seq<(u32, Seq<char>)>,
    roots: Seq<NodeId>,
    cache: Seq<(CacheKey, ValueView)>,
)
    requires
        cut_view_wf(c1),
        cut_view_wf(c2),
        same_outside(c1, c2, root_ids(roots)),
        cache_agrees(cache, c1, t),
    ensures
        cache_agrees(retain_spec(cache, closure_of(c2.graph.nodes, roots)), c2, t),
{
    let cl = closure_of(c2.graph.nodes, roots);
    let kept = retain_spec(cache, cl);
    assert forall|i: int| 0 <= i < kept.len() && has_node(c2.graph.nodes, kept[i].0.0.0) implies #[trigger] entry_agrees(
        kept[i],
        c2,
        t,
    ) by {
        lemma_retained(cache, cl, i);
        let j = choose|j: int| 0 <= j < cache.len() && cache[j] == kept[i];
        let k = kept[i].0.0.0;
        assert(!cl.contains(NodeId(k)));
        if root_ids(roots).contains(k) {
            let r = choose|r: int| 0 <= r < roots.len() && #[trigger] roots[r].0 == k;
            assert(downstream_within(c2.graph.nodes, roots[r].0, k, 0));
            assert(cl.contains(NodeId(k)));
        }
        assert(lookup_node(c2.graph.nodes, k) == lookup_node(c1.graph.nodes, k));
        assert(has_node(c1.graph.nodes, k));
        assert(entry_agrees(cache[j], c1, t));
        lemma_local_value(c1, c2, t, roots, k, kept[i].0.1);
    }
}

// ---------------------------------------------------------------------------
// The counters
// ---------------------------------------------------------------------------

/// `x` advanced by `n`, wrapping at 2^64.
pub open spec fn count_up(x: u64, n: int) -> u64 {
    ((x + n) % 0x1_0000_0000_0000_0000int) as u64
}

/// The cache has an entry for (`id`, `frame`).
pub open spec fn cache_holds(c: Seq<(CacheKey, ValueView)>, id: NodeId, frame: u32) -> bool {
    exists|i: int| 0 <= i < c.len() && (#[trigger] c[i]).0 == (id, frame)
}

/// The value memoized for (`id`, `frame`): the latest entry for it.
pub open spec fn cached_value(c: Seq<(CacheKey, ValueView)>, id: NodeId, frame: u32) -> ValueView {
    c[choose|i: int| 0 <= i < c.len() && c[i].0 == (id, frame) && forall|k: int| i < k < c.len() ==> #[trigger] c[k].0 != (id, frame)].1
}

/// From (`c0`, `s0`) to (`c1`, `s1`) the cache only gained entries at its
/// end, and each one counted as one computation.
pub open spec fn grows(c0: Seq<(CacheKey, ValueView)>, s0: EvalStats, c1: Seq<(CacheKey, ValueView)>, s1: EvalStats) -> bool {
    &&& c0.len() <= c1.len()
    &&& c1.take(c0.len() as int) == c0
    &&& s1.computed == count_up(s0.computed, c1.len() - c0.len())
}

proof fn lemma_count_up(x: u64, a: int, b: int)
    requires
        0 <= a,
        0 <= b,
    ensures
        count_up(count_up(x, a), b) == count_up(x, a + b),
        count_up(x, 0) == x,
        count_up(x, 1) == (if x == u64::MAX { 0u64 } else { (x + 1) as u64 }),
{
    let m: int = 0x1_0000_0000_0000_0000int;
    vstd::arithmetic::div_mod::lemma_mod_pos_bound(x + a, m);
    vstd::arithmetic::div_mod::lemma_add_mod_noop_right(b, x + a, m);
    assert(b + (x + a) == x + (a + b));
    vstd::arithmetic::div_mod::lemma_small_mod(x as nat, m as nat);
    if x == u64::MAX {
        vstd::arithmetic::div_mod::lemma_mod_self_0(m);
    } else {
        vstd::arithmetic::div_mod::lemma_small_mod((x + 1) as nat, m as nat);
    }
}

pub(crate) proof fn lemma_grows_same(c: Seq<(CacheKey, ValueView)>, s0: EvalStats, s1: EvalStats)
    requires
        s1.computed == s0.computed,
    ensures
        grows(c, s0, c, s1),
{
    lemma_count_up(s0.computed, 0, 0);
    assert(c.take(c.len() as int) =~= c);
}

proof fn lemma_grows_trans(
    c0: Seq<(CacheKey, ValueView)>,
    s0: EvalStats,
    c1: Seq<(CacheKey, ValueView)>,
    s1: EvalStats,
    c2: Seq<(CacheKey, ValueView)>,
    s2: EvalStats,
)
    requires
        grows(c0, s0, c1, s1),
        grows(c1, s1, c2, s2),
    ensures
        grows(c0, s0, c2, s2),
{
    lemma_count_up(s0.computed, c1.len() - c0.len(), c2.len() - c1.len());
    assert(c2.take(c0.len() as int) =~= c2.take(c1.len() as int).take(c0.len() as int));
}

proof fn lemma_grows_push(c: Seq<(CacheKey, ValueView)>, s: EvalStats, e: (CacheKey, ValueView), t: EvalStats)
    requires
        t.computed == (if s.computed == u64::MAX { 0u64 } else { (s.computed + 1) as u64 }),
    ensures
        grows(c, s, c.push(e), t),
{
    lemma_count_up(s.computed, 0, 0);
    assert(c.push(e).take(c.len() as int) =~= c);
}

#[derive(Debug)]
pub struct Evaluator {
    cache: Vec<CacheEntry>,
    pub stats: EvalStats,
}

impl Evaluator {
    /// The memoized values, oldest first.
    pub closed spec fn cache(&self) -> Seq<(CacheKey, ValueView)> {
        entries_view(self.cache@)
    }

    /// The evaluation counters.
    pub closed spec fn counters(&self) -> EvalStats {
        self.stats
    }

    pub fn new() -> (e: Self)
        ensures
            e.cache() == Seq::<(CacheKey, ValueView)>::empty(),
            e.counters() == (EvalStats { computed: 0, cache_hits: 0 }),
    {
        let e = Evaluator { cache: Vec::new(), stats: EvalStats { computed: 0, cache_hits: 0 } };
        assert(e.cache() =~= Seq::<(CacheKey, ValueView)>::empty());
        e
    }

    /// Evaluate the cut's output node at `frame`. `decimals` gives the
    /// printed form (three decimals) of each Transform number by its bit
    /// pattern. While every memoized value is what its node evaluates to
    /// now, the answer is the cut's value, and the cache stays so. Each
    /// value computed is memoized and counted once; an output value already
    /// memoized is a cache hit that computes nothing and answers the
    /// memoized value. A value answered is the one then memoized for the
    /// output at `frame`, so asking again answers it from the cache.
    pub fn eval(&mut self, cut: &Cut, frame: u32, decimals: &Vec<(u32, String)>) -> (r: Result<Value, EngineError>)
        requires
            cut.wf(),
        ensures
            grows(old(self).cache(), old(self).counters(), final(self).cache(), final(self).counters()),
            match cut.view().graph.output {
                None => r == Err::<Value, EngineError>(EngineError::NoOutput) && final(self).cache() == old(self).cache()
                    && final(self).counters() == old(self).counters(),
                Some(o) => {
                    &&& cache_holds(old(self).cache(), o, frame) ==> (r matches Ok(v) && v@ == cached_value(old(self).cache(), o, frame)
                        && final(self).cache() == old(self).cache()
                        && final(self).counters().computed == old(self).counters().computed
                        && final(self).counters().cache_hits == count_up(old(self).counters().cache_hits, 1))
                    &&& r is Ok ==> cache_holds(final(self).cache(), o, frame)
                    &&& r matches Ok(v) ==> cached_value(final(self).cache(), o, frame) == v@
                },
            },
            cache_agrees(old(self).cache(), cut.view(), decimals_view(decimals@)) ==> {
                &&& cache_agrees(final(self).cache(), cut.view(), decimals_view(decimals@))
                &&& match r {
                    Ok(v) => cut_value(cut.view(), decimals_view(decimals@), frame) == Ok::<Seq<char>, EngineError>(v@.recipe)
                        && v@ == image_value(v@.recipe),
                    Err(e) => cut_value(cut.view(), decimals_view(decimals@), frame) == Err::<Seq<char>, EngineError>(e),
                }
            },
    {
        let output = match cut.graph.output {
            Some(o) => o,
            None => {
                proof {
                    lemma_grows_same(self.cache(), self.counters(), self.counters());
                }
                return Err(EngineError::NoOutput);
            },
        };
        let mut visiting: Vec<NodeId> = Vec::new();
        proof {
            assert(path_ids(visiting@) =~= Seq::<u64>::empty());
        }
        self.eval_node(cut, decimals, output, frame, &mut visiting)
    }


    /// The memoized entry for (`id`, `frame`), if any.
    fn cached(&self, id: NodeId, frame: u32) -> (r: Option<usize>)
        ensures
            match r {
                Some(i) => i < self.cache().len() && self.cache()[i as int].0 == (id, frame) && cached_value(
                    self.cache(),
                    id,
                    frame,
                ) == self.cache()[i as int].1,
                None => !cache_holds(self.cache(), id, frame),
            },
    {
        let mut i: usize = self.cache.len();
        while i > 0
            invariant
                i <= self.cache@.len(),
                self.cache@.len() == self.cache().len(),
                forall|k: int| i <= k < self.cache().len() ==> (#[trigger] self.cache()[k]).0 != (id, frame),
            decreases i,
        {
            let j = i - 1;
            if self.cache[j].node == id && self.cache[j].frame == frame {
                proof {
                    let c = self.cache();
                    assert(c[j as int].0 == (id, frame) && forall|k: int| j < k < c.len() ==> #[trigger] c[k].0 != (id, frame));
                    let m = choose|m: int| 0 <= m < c.len() && c[m].0 == (id, frame) && forall|k: int| m < k < c.len() ==> #[trigger] c[k].0 != (id, frame);
                    if m < j {
                        assert(c[j as int].0 != (id, frame));
                    }
                    if m > j {
                        assert(c[m].0 != (id, frame));
                    }
                }
                return Some(j);
            }
            i = j;
        }
        None
    }

    /// The value of input `slot` of the node last on `visiting`: its
    /// source's value, or "empty" when nothing is wired there.
    fn eval_input(
        &mut self,
        cut: &Cut,
        table: &Vec<(u32, String)>,
        inputs: &Vec<Option<OutPin>>,
        slot: usize,
        frame: u32,
        visiting: &mut Vec<NodeId>,
        Ghost(owner): Ghost<NodeId>,
    ) -> (r: Result<Value, EngineError>)
        requires
            cut.wf(),
            linked(cut.graph.gs(), path_ids(old(visiting)@)),
            old(visiting)@.len() > 0,
            old(visiting)@.last() == owner,
            exists|i: int| 0 <= i < cut.graph.gs().len() && #[trigger] cut.graph.gs()[i].id == owner.0
                && cut.graph.gs()[i].inputs == inputs@,
            path_ids(old(visiting)@).no_duplicates(),
            forall|k: int| 0 <= k < old(visiting)@.len() ==> has_node(cut.graph.gs(), #[trigger] old(visiting)@[k].0),
            old(visiting)@.len() <= cut.graph.nodes@.len(),
        ensures
            r is Ok ==> final(visiting)@ == old(visiting)@,
            grows(old(self).cache(), old(self).counters(), final(self).cache(), final(self).counters()),
            cache_agrees(old(self).cache(), cut.view(), decimals_view(table@)) ==> {
                &&& cache_agrees(final(self).cache(), cut.view(), decimals_view(table@))
                &&& match r {
                    Ok(v) => input_recipe(
                        cut.view(),
                        decimals_view(table@),
                        inputs@,
                        slot as int,
                        frame,
                        (cut.graph.nodes@.len() - old(visiting)@.len()) as nat,
                    ) == Ok::<Seq<char>, EngineError>(v@.recipe) && v@ == image_value(v@.recipe),
                    Err(e) => input_recipe(
                        cut.view(),
                        decimals_view(table@),
                        inputs@,
                        slot as int,
                        frame,
                        (cut.graph.nodes@.len() - old(visiting)@.len()) as nat,
                    ) == Err::<Seq<char>, EngineError>(e),
                }
            },
        decreases cut.graph.nodes@.len() - old(visiting)@.len(), 1nat,
    {
        match input_source(inputs, slot) {
            Some(src) => {
                let ghost gs = cut.graph.gs();
                let ghost path = path_ids(visiting@);
                let ghost n = gs.len();
                proof {
                    let i = choose|i: int| 0 <= i < gs.len() && #[trigger] gs[i].id == owner.0 && gs[i].inputs == inputs@;
                    assert(gs[i].inputs[slot as int] is Some);
                    assert(feeds(gs, src.0, owner.0));
                    assert(path.last() == owner.0);
                    assert(has_node(gs, src.0));
                    lemma_chain_bounded(gs, path, src.0);
                    lemma_fuel_stable(cut.view(), decimals_view(table@), src.0, frame, (n - path.len()) as nat, n);
                }
                self.eval_node(cut, table, src, frame, visiting)
            },
            None => {
                proof {
                    lemma_grows_same(self.cache(), self.counters(), self.counters());
                }
                Ok(Value::image(String::from_str("empty")))
            },
        }
    }

    /// The value of node `id` at `frame`, from the cache when it is there;
    /// `visiting` is the walk that led here.
    fn eval_node(
        &mut self,
        cut: &Cut,
        table: &Vec<(u32, String)>,
        id: NodeId,
        frame: u32,
        visiting: &mut Vec<NodeId>,
    ) -> (r: Result<Value, EngineError>)
        requires
            cut.wf(),
            is_chain(cut.graph.gs(), path_ids(old(visiting)@), id.0),
            path_ids(old(visiting)@).no_duplicates(),
            forall|k: int| 0 <= k < old(visiting)@.len() ==> has_node(cut.graph.gs(), #[trigger] old(visiting)@[k].0),
            has_node(cut.graph.gs(), id.0),
        ensures
            r is Ok ==> final(visiting)@ == old(visiting)@,
            grows(old(self).cache(), old(self).counters(), final(self).cache(), final(self).counters()),
            cache_holds(old(self).cache(), id, frame) ==> (r matches Ok(v) && v@ == cached_value(old(self).cache(), id, frame)
                && final(self).cache() == old(self).cache()
                && final(self).counters().computed == old(self).counters().computed
                && final(self).counters().cache_hits == count_up(old(self).counters().cache_hits, 1)),
            r is Ok ==> cache_holds(final(self).cache(), id, frame),
            r matches Ok(v) ==> cached_value(final(self).cache(), id, frame) == v@,
            cache_agrees(old(self).cache(), cut.view(), decimals_view(table@)) ==> {
                &&& cache_agrees(final(self).cache(), cut.view(), decimals_view(table@))
                &&& match r {
                    Ok(v) => node_value(cut.view(), decimals_view(table@), id.0, frame) == Ok::<Seq<char>, EngineError>(
                        v@.recipe,
                    ) && v@ == image_value(v@.recipe),
                    Err(e) => node_value(cut.view(), decimals_view(table@), id.0, frame) == Err::<Seq<char>, EngineError>(e),
                }
            },
        decreases cut.graph.nodes@.len() - old(visiting)@.len(), 0nat,
    {
        let ghost cv = cut.view();
        let ghost t = decimals_view(table@);
        let ghost gs = cut.graph.gs();
        let ghost path = path_ids(visiting@);
        let ghost n = gs.len();
        let ghost f = (n - path.len()) as nat;
        proof {
            assert(cv.graph.nodes == gs);
            lemma_chain_bounded(gs, path, id.0);
            lemma_fuel_stable(cv, t, id.0, frame, f, n);
        }
        if let Some(i) = self.cached(id, frame) {
            let ghost s0 = self.counters();
            self.stats.cache_hits = self.stats.cache_hits.wrapping_add(1);
            proof {
                lemma_count_up(s0.cache_hits, 0, 0);
                lemma_grows_same(self.cache(), s0, self.counters());
                assert(self.cache()[i as int].0 == (id, frame));
                if cache_agrees(self.cache(), cv, t) {
                    assert(entry_agrees(self.cache()[i as int], cv, t));
                }
            }
            return Ok(self.cache[i].value.duplicate());
        }
        proof {
            lemma_grows_same(self.cache(), self.counters(), self.counters());
        }
        if contains_id(visiting, id) {
            proof {
                assert(path.contains(id.0)) by {
                    let k = choose|k: int| 0 <= k < visiting@.len() && visiting@[k] == id;
                    assert(path[k] == id.0);
                }
            }
            return Err(EngineError::EvalCycle(id));
        }
        visiting.push(id);
        let ghost p2 = path_ids(visiting@);
        proof {
            assert(p2 =~= path.push(id.0));
        }
        let idx = match cut.graph.index_of(id) {
            Some(idx) => idx,
            None => {
                return Err(EngineError::UnknownNode(id));
            },
        };
        let node = &cut.graph.nodes[idx];
        let ghost nv = gs[idx as int];
        proof {
            assert(nv == node.view());
            let j = choose|j: int| 0 <= j < gs.len() && #[trigger] gs[j].id == id.0;
            if j != idx as int {
                if j < idx as int {
                    assert(gs[j].id < gs[idx as int].id);
                } else {
                    assert(gs[idx as int].id < gs[j].id);
                }
            }
            assert(lookup_node(gs, id.0) == Some(nv));
        }
        let value = match node.kind {
            NodeKind::DrawingSource { column } => match source_value(cut, column, frame) {
                Ok(v) => v,
                Err(e) => {
                    return Err(e);
                },
            },
            NodeKind::Solid { rgba } => solid_value(rgba),
            NodeKind::ImageSource { image } => image_source_value(cut, image),
            NodeKind::Transform { translate_x, translate_y, scale, rotate_deg } => {
                let ghost pc = self.cache();
                let ghost ps = self.counters();
                let rc = self.eval_input(cut, table, &node.inputs, 0, frame, visiting, Ghost(id));
                proof {
                    lemma_grows_trans(old(self).cache(), old(self).counters(), pc, ps, self.cache(), self.counters());
                }
                let c = match rc {
                    Ok(c) => c,
                    Err(e) => {
                        return Err(e);
                    },
                };
                let recipe = String::from_str("xform(t=(").concat(fixed(table, translate_x).as_str()).concat(",")
                    .concat(fixed(table, translate_y).as_str()).concat("),s=").concat(fixed(table, scale).as_str())
                    .concat(",r=").concat(fixed(table, rotate_deg).as_str()).concat(", ").concat(c.recipe()).concat(")");
                Value::image(recipe)
            },
            NodeKind::Blend { mode } => {
                let ghost pc = self.cache();
                let ghost ps = self.counters();
                let ra = self.eval_input(cut, table, &node.inputs, 0, frame, visiting, Ghost(id));
                proof {
                    lemma_grows_trans(old(self).cache(), old(self).counters(), pc, ps, self.cache(), self.counters());
                }
                let a = match ra {
                    Ok(a) => a,
                    Err(e) => {
                        return Err(e);
                    },
                };
                let ghost pc = self.cache();
                let ghost ps = self.counters();
                let rb = self.eval_input(cut, table, &node.inputs, 1, frame, visiting, Ghost(id));
                proof {
                    lemma_grows_trans(old(self).cache(), old(self).counters(), pc, ps, self.cache(), self.counters());
                }
                let b = match rb {
                    Ok(b) => b,
                    Err(e) => {
                        return Err(e);
                    },
                };
                let recipe = String::from_str("blend(").concat(blend_str(mode)).concat(", ").concat(a.recipe())
                    .concat(", ").concat(b.recipe()).concat(")");
                Value::image(recipe)
            },
            NodeKind::Output => {
                let ghost pc = self.cache();
                let ghost ps = self.counters();
                let rc = self.eval_input(cut, table, &node.inputs, 0, frame, visiting, Ghost(id));
                proof {
                    lemma_grows_trans(old(self).cache(), old(self).counters(), pc, ps, self.cache(), self.counters());
                }
                let c = match rc {
                    Ok(c) => c,
                    Err(e) => {
                        return Err(e);
                    },
                };
                let recipe = String::from_str("out(").concat(c.recipe()).concat(")");
                Value::image(recipe)
            },
        };
        visiting.pop();
        proof {
            assert(visiting@ =~= old(visiting)@);
        }
        let ghost bs = self.counters();
        self.stats.computed = self.stats.computed.wrapping_add(1);
        let ghost before = self.cache();
        self.cache.push(CacheEntry { node: id, frame, value: value.duplicate() });
        proof {
            assert(self.cache() =~= before.push(((id, frame), value@)));
            lemma_grows_push(before, bs, ((id, frame), value@), self.counters());
            lemma_grows_trans(old(self).cache(), old(self).counters(), before, bs, self.cache(), self.counters());
            assert(self.cache()[before.len() as int].0 == (id, frame));
            {
                let c = self.cache();
                let l = before.len() as int;
                assert(c[l].0 == (id, frame) && forall|k: int| l < k < c.len() ==> #[trigger] c[k].0 != (id, frame));
                let m = choose|m: int| 0 <= m < c.len() && c[m].0 == (id, frame) && forall|k: int| m < k < c.len() ==> #[trigger] c[k].0 != (id, frame);
                if m < l {
                    assert(c[l].0 != (id, frame));
                }
                assert(c[l].1 == value@);
            }
            if cache_agrees(old(self).cache(), cv, t) {
                assert(node_value(cv, t, id.0, frame) == Ok::<Seq<char>, EngineError>(value@.recipe));
                assert forall|k: int| 0 <= k < self.cache().len() && has_node(cv.graph.nodes, self.cache()[k].0.0.0) implies #[trigger] entry_agrees(self.cache()[k], cv, t) by {
                    if k < before.len() {
                        assert(self.cache()[k] == before[k]);
                    }
                }
            }
        }
        Ok(value)
    }

    /// Drop cached values for the given nodes (all frames).
    pub fn invalidate_nodes(&mut self, nodes: &Vec<NodeId>)
        ensures
            final(self).cache() == retain_spec(old(self).cache(), nodes@.to_set()),
            final(self).counters() == old(self).counters(),
    {
        let ghost s = self.cache();
        let mut kept: Vec<CacheEntry> = Vec::new();
        let mut i: usize = 0;
        while i < self.cache.len()
            invariant
                s == entries_view(self.cache@),
                i <= s.len(),
                entries_view(kept@) == retain_spec(s.take(i as int), nodes@.to_set()),
            decreases s.len() - i,
        {
            proof {
                assert(s.take(i as int + 1).drop_last() =~= s.take(i as int));
            }
            let e = &self.cache[i];
            if !contains_id(nodes, e.node) {
                let ghost pre = kept@;
                kept.push(CacheEntry { node: e.node, frame: e.frame, value: e.value.duplicate() });
                proof {
                    assert(entries_view(kept@) =~= entries_view(pre).push(s[i as int]));
                }
            } else {
                proof {
                    assert(nodes@.to_set().contains(e.node));
                }
            }
            i = i + 1;
        }
        proof {
            assert(s.take(i as int) =~= s);
        }
        self.cache = kept;
    }

    pub fn invalidate_all(&mut self)
        ensures
            final(self).cache() == Seq::<(CacheKey, ValueView)>::empty(),
            final(self).counters() == old(self).counters(),
    {
        self.cache = Vec::new();
        assert(self.cache() =~= Seq::<(CacheKey, ValueView)>::empty());
    }

    pub fn cached_entries(&self) -> (n: usize)
        ensures
            n == self.cache().len(),
    {
        self.cache.len()
    }
}

} // verus!
