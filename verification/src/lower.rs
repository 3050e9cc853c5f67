//! Lowering a [`Plan`] to a meganeura graph.
//!
//! Every call of a plan becomes the meganeura call of the same name. The calls
//! that take floating-point arguments, group normalisation and constants, are
//! made by a function that the caller gives.

use crate::graph::{
    call_nodes, call_ok, conv_extent, conv_fits, denote, dims, elements, elements_fit, plan_nodes,
    plan_ok, volume, volume_fits, Call, NodeView, OpView, Plan,
};
use meganeura::graph::Graph;
use meganeura::nn::Linear;
use vstd::prelude::*;

verus! {

/// meganeura's computation graph.
#[verifier::external_type_specification]
#[verifier::external_body]
pub struct ExGraph(Graph);

/// The nodes of a graph: of each its operation, the nodes it reads and its
/// shape. Labels and constant data are not part of it.
pub uninterp spec fn graph_nodes(g: Graph) -> Seq<NodeView>;

/// `Graph::new`: a graph without nodes.
#[verifier::external_body]
fn graph_new() -> (g: Graph)
    ensures
        graph_nodes(g).len() == 0,
{
    Graph::new()
}

/// `Graph::input`: appends an input of the given name and shape.
#[verifier::external_body]
fn graph_input(g: &mut Graph, name: &str, shape: &[usize]) -> (id: u32)
    requires
        graph_nodes(*old(g)).len() + 1 <= u32::MAX,
    ensures
        id == graph_nodes(*old(g)).len(),
        graph_nodes(*final(g)) == graph_nodes(*old(g)) + seq![
            NodeView { op: OpView::Input { name: name@ }, inputs: seq![], shape: dims(shape@) },
        ],
{
    g.input(name, shape)
}

/// `Graph::input_u32`: appends an integer input of the given name and shape.
#[verifier::external_body]
fn graph_input_u32(g: &mut Graph, name: &str, shape: &[usize]) -> (id: u32)
    requires
        graph_nodes(*old(g)).len() + 1 <= u32::MAX,
    ensures
        id == graph_nodes(*old(g)).len(),
        graph_nodes(*final(g)) == graph_nodes(*old(g)) + seq![
            NodeView { op: OpView::InputU32 { name: name@ }, inputs: seq![], shape: dims(shape@) },
        ],
{
    g.input_u32(name, shape)
}

/// `Graph::parameter`: appends a parameter of the given name and shape.
#[verifier::external_body]
fn graph_parameter(g: &mut Graph, name: &str, shape: &[usize]) -> (id: u32)
    requires
        graph_nodes(*old(g)).len() + 1 <= u32::MAX,
    ensures
        id == graph_nodes(*old(g)).len(),
        graph_nodes(*final(g)) == graph_nodes(*old(g)) + seq![
            NodeView { op: OpView::Parameter { name: name@ }, inputs: seq![], shape: dims(shape@) },
        ],
{
    g.parameter(name, shape)
}

/// `Linear::new`: appends the weight and the bias of a dense layer, in this
/// order. Gives the weight; the bias is the node after it.
#[verifier::external_body]
fn linear_new(g: &mut Graph, name: &str, in_f: usize, out_f: usize) -> (id: u32)
    requires
        graph_nodes(*old(g)).len() + 2 <= u32::MAX,
    ensures
        id == graph_nodes(*old(g)).len(),
        graph_nodes(*final(g)) == graph_nodes(*old(g)) + seq![
            NodeView {
                op: OpView::Parameter { name: name@ + ".weight"@ },
                inputs: seq![],
                shape: seq![in_f as nat, out_f as nat],
            },
            NodeView {
                op: OpView::Parameter { name: name@ + ".bias"@ },
                inputs: seq![],
                shape: seq![out_f as nat],
            },
        ],
{
    Linear::new(g, name, in_f, out_f).weight
}

/// `Linear::forward`: appends the product of `x` and the weight, then the sum
/// of that and the bias. It also labels the last node, which is not a part of
/// the nodes as they are seen here. It panics where the shapes do not agree.
#[verifier::external_body]
fn linear_forward(g: &mut Graph, name: &str, weight: u32, bias: u32, x: u32) -> (id: u32)
    requires
        graph_nodes(*old(g)).len() + 2 <= u32::MAX,
        weight < graph_nodes(*old(g)).len(),
        bias < graph_nodes(*old(g)).len(),
        x < graph_nodes(*old(g)).len(),
        graph_nodes(*old(g))[x as int].shape.len() == 2,
        graph_nodes(*old(g))[weight as int].shape.len() == 2,
        graph_nodes(*old(g))[x as int].shape[1] == graph_nodes(*old(g))[weight as int].shape[0],
        graph_nodes(*old(g))[bias as int].shape == seq![
            graph_nodes(*old(g))[weight as int].shape[1],
        ],
    ensures
        id == graph_nodes(*old(g)).len() + 1,
        graph_nodes(*final(g)) == graph_nodes(*old(g)) + seq![
            NodeView {
                op: OpView::MatMul,
                inputs: seq![x as nat, weight as nat],
                shape: seq![
                    graph_nodes(*old(g))[x as int].shape[0],
                    graph_nodes(*old(g))[weight as int].shape[1],
                ],
            },
            NodeView {
                op: OpView::BiasAdd,
                inputs: seq![graph_nodes(*old(g)).len(), bias as nat],
                shape: seq![
                    graph_nodes(*old(g))[x as int].shape[0],
                    graph_nodes(*old(g))[weight as int].shape[1],
                ],
            },
        ],
{
    Linear { weight, bias: Some(bias), name: name.to_string() }.forward(g, x)
}

/// `Graph::embedding`: appends the lookup of rows of a table. It panics where
/// the indices are no integers or the shapes have other ranks.
#[verifier::external_body]
fn graph_embedding(g: &mut Graph, indices: u32, table: u32) -> (id: u32)
    requires
        graph_nodes(*old(g)).len() + 1 <= u32::MAX,
        indices < graph_nodes(*old(g)).len() && table < graph_nodes(*old(g)).len(),
        graph_nodes(*old(g))[indices as int].op is InputU32,
        graph_nodes(*old(g))[indices as int].shape.len() == 1,
        graph_nodes(*old(g))[table as int].shape.len() == 2,
    ensures
        id == graph_nodes(*old(g)).len(),
        graph_nodes(*final(g)) == graph_nodes(*old(g)) + seq![
            NodeView {
                op: OpView::Embedding,
                inputs: seq![indices as nat, table as nat],
                shape: seq![
                    graph_nodes(*old(g))[indices as int].shape[0],
                    graph_nodes(*old(g))[table as int].shape[1],
                ],
            },
        ],
{
    g.embedding(indices, table)
}

/// `Graph::add`: appends an elementwise sum. It panics where the shapes differ.
#[verifier::external_body]
fn graph_add(g: &mut Graph, a: u32, b: u32) -> (id: u32)
    requires
        graph_nodes(*old(g)).len() + 1 <= u32::MAX,
        a < graph_nodes(*old(g)).len() && b < graph_nodes(*old(g)).len(),
        graph_nodes(*old(g))[a as int].shape == graph_nodes(*old(g))[b as int].shape,
    ensures
        id == graph_nodes(*old(g)).len(),
        graph_nodes(*final(g)) == graph_nodes(*old(g)) + seq![
            NodeView {
                op: OpView::Add,
                inputs: seq![a as nat, b as nat],
                shape: graph_nodes(*old(g))[a as int].shape,
            },
        ],
{
    g.add(a, b)
}

/// `Graph::silu`: appends an activation.
#[verifier::external_body]
fn graph_silu(g: &mut Graph, x: u32) -> (id: u32)
    requires
        graph_nodes(*old(g)).len() + 1 <= u32::MAX,
        x < graph_nodes(*old(g)).len(),
    ensures
        id == graph_nodes(*old(g)).len(),
        graph_nodes(*final(g)) == graph_nodes(*old(g)) + seq![
            NodeView {
                op: OpView::Silu,
                inputs: seq![x as nat],
                shape: graph_nodes(*old(g))[x as int].shape,
            },
        ],
{
    g.silu(x)
}

/// `Graph::matmul`: appends a matrix product. It panics where the operands are
/// no matrices or their inner extents differ.
#[verifier::external_body]
fn graph_matmul(g: &mut Graph, a: u32, b: u32) -> (id: u32)
    requires
        graph_nodes(*old(g)).len() + 1 <= u32::MAX,
        a < graph_nodes(*old(g)).len() && b < graph_nodes(*old(g)).len(),
        graph_nodes(*old(g))[a as int].shape.len() == 2,
        graph_nodes(*old(g))[b as int].shape.len() == 2,
        graph_nodes(*old(g))[a as int].shape[1] == graph_nodes(*old(g))[b as int].shape[0],
    ensures
        id == graph_nodes(*old(g)).len(),
        graph_nodes(*final(g)) == graph_nodes(*old(g)) + seq![
            NodeView {
                op: OpView::MatMul,
                inputs: seq![a as nat, b as nat],
                shape: seq![
                    graph_nodes(*old(g))[a as int].shape[0],
                    graph_nodes(*old(g))[b as int].shape[1],
                ],
            },
        ],
{
    g.matmul(a, b)
}

/// `Graph::reshape`: appends a view of another shape. It panics where the
/// numbers of elements differ or do not fit a machine word.
#[verifier::external_body]
fn graph_reshape(g: &mut Graph, x: u32, shape: &[usize]) -> (id: u32)
    requires
        graph_nodes(*old(g)).len() + 1 <= u32::MAX,
        x < graph_nodes(*old(g)).len(),
        elements(graph_nodes(*old(g))[x as int].shape) == elements(dims(shape@)),
        elements_fit(graph_nodes(*old(g))[x as int].shape),
        elements_fit(dims(shape@)),
    ensures
        id == graph_nodes(*old(g)).len(),
        graph_nodes(*final(g)) == graph_nodes(*old(g)) + seq![
            NodeView { op: OpView::Reshape, inputs: seq![x as nat], shape: dims(shape@) },
        ],
{
    g.reshape(x, shape)
}

/// `Graph::conv2d` with a square kernel: appends a convolution of a flat image
/// with a flat kernel. It panics where their sizes are not those that the
/// other arguments say, or where a size does not fit a machine word.
#[verifier::external_body]
fn graph_conv2d(
    g: &mut Graph,
    x: u32,
    kernel: u32,
    batch: u32,
    in_c: u32,
    h: u32,
    w: u32,
    out_c: u32,
    k: u32,
    stride: u32,
    pad: u32,
) -> (id: u32)
    requires
        graph_nodes(*old(g)).len() + 1 <= u32::MAX,
        x < graph_nodes(*old(g)).len() && kernel < graph_nodes(*old(g)).len(),
        graph_nodes(*old(g))[x as int].shape == seq![
            volume(batch as nat, in_c as nat, h as nat, w as nat),
        ],
        graph_nodes(*old(g))[kernel as int].shape == seq![
            volume(out_c as nat, in_c as nat, k as nat, k as nat),
        ],
        conv_fits(
            batch as nat,
            in_c as nat,
            h as nat,
            w as nat,
            out_c as nat,
            k as nat,
            stride as nat,
            pad as nat,
        ),
    ensures
        id == graph_nodes(*old(g)).len(),
        graph_nodes(*final(g)) == graph_nodes(*old(g)) + seq![
            NodeView {
                op: OpView::Conv2d {
                    in_c: in_c as nat,
                    h: h as nat,
                    w: w as nat,
                    out_c: out_c as nat,
                    k: k as nat,
                    stride: stride as nat,
                    pad: pad as nat,
                },
                inputs: seq![x as nat, kernel as nat],
                shape: seq![
                    volume(
                        batch as nat,
                        out_c as nat,
                        conv_extent(h as nat, k as nat, stride as nat, pad as nat),
                        conv_extent(w as nat, k as nat, stride as nat, pad as nat),
                    ),
                ],
            },
        ],
{
    g.conv2d(x, kernel, batch, in_c, h, w, out_c, k, k, stride, pad)
}

/// `Graph::upsample_2x`: appends a doubling of both axes. It panics where the
/// size of the result does not fit a machine word.
#[verifier::external_body]
fn graph_upsample_2x(
    g: &mut Graph,
    x: u32,
    batch: u32,
    channels: u32,
    h: u32,
    w: u32,
) -> (id: u32)
    requires
        graph_nodes(*old(g)).len() + 1 <= u32::MAX,
        x < graph_nodes(*old(g)).len(),
        h * 2 <= u32::MAX && w * 2 <= u32::MAX,
        volume_fits(batch as nat, channels as nat, (h * 2) as nat, (w * 2) as nat),
    ensures
        id == graph_nodes(*old(g)).len(),
        graph_nodes(*final(g)) == graph_nodes(*old(g)) + seq![
            NodeView {
                op: OpView::Upsample2x { channels: channels as nat, h: h as nat, w: w as nat },
                inputs: seq![x as nat],
                shape: seq![
                    volume(batch as nat, channels as nat, (h * 2) as nat, (w * 2) as nat),
                ],
            },
        ],
{
    g.upsample_2x(x, batch, channels, h, w)
}

/// `Graph::concat`: appends a joining along the channel axis. It panics where
/// the size of the result does not fit a machine word.
#[verifier::external_body]
fn graph_concat(
    g: &mut Graph,
    a: u32,
    b: u32,
    batch: u32,
    channels_a: u32,
    channels_b: u32,
    spatial: u32,
) -> (id: u32)
    requires
        graph_nodes(*old(g)).len() + 1 <= u32::MAX,
        a < graph_nodes(*old(g)).len() && b < graph_nodes(*old(g)).len(),
        channels_a + channels_b <= u32::MAX,
        batch as nat * ((channels_a + channels_b) as nat) <= usize::MAX,
        batch as nat * ((channels_a + channels_b) as nat) * (spatial as nat) <= usize::MAX,
    ensures
        id == graph_nodes(*old(g)).len(),
        graph_nodes(*final(g)) == graph_nodes(*old(g)) + seq![
            NodeView {
                op: OpView::Concat {
                    channels_a: channels_a as nat,
                    channels_b: channels_b as nat,
                    spatial: spatial as nat,
                },
                inputs: seq![a as nat, b as nat],
                shape: seq![batch as nat * ((channels_a + channels_b) as nat) * (spatial as nat)],
            },
        ],
{
    g.concat(a, b, batch, channels_a, channels_b, spatial)
}

/// `Graph::mse_loss`: appends the negated target, the difference, its square
/// and the mean of that. It panics where the shapes differ.
#[verifier::external_body]
fn graph_mse_loss(g: &mut Graph, pred: u32, target: u32) -> (id: u32)
    requires
        graph_nodes(*old(g)).len() + 4 <= u32::MAX,
        pred < graph_nodes(*old(g)).len() && target < graph_nodes(*old(g)).len(),
        graph_nodes(*old(g))[pred as int].shape == graph_nodes(*old(g))[target as int].shape,
    ensures
        id == graph_nodes(*old(g)).len() + 3,
        graph_nodes(*final(g)) == graph_nodes(*old(g)) + seq![
            NodeView {
                op: OpView::Neg,
                inputs: seq![target as nat],
                shape: graph_nodes(*old(g))[target as int].shape,
            },
            NodeView {
                op: OpView::Add,
                inputs: seq![pred as nat, graph_nodes(*old(g)).len()],
                shape: graph_nodes(*old(g))[pred as int].shape,
            },
            NodeView {
                op: OpView::Mul,
                inputs: seq![graph_nodes(*old(g)).len() + 1, graph_nodes(*old(g)).len() + 1],
                shape: graph_nodes(*old(g))[pred as int].shape,
            },
            NodeView {
                op: OpView::MeanAll,
                inputs: seq![graph_nodes(*old(g)).len() + 2],
                shape: seq![1nat],
            },
        ],
{
    g.mse_loss(pred, target)
}

/// Whether a call takes floating-point arguments.
pub open spec fn takes_floats(call: Call) -> bool {
    call is GroupNorm || call is Ones
}

/// The calls before an applicable one are applicable.
proof fn lemma_plan_prefix(calls: Seq<Call>, k: int)
    requires
        plan_ok(calls),
        0 <= k < calls.len(),
    ensures
        call_ok(calls[k], plan_nodes(calls.take(k))),
        plan_nodes(calls.take(k + 1)) == plan_nodes(calls.take(k)) + call_nodes(
            calls[k],
            plan_nodes(calls.take(k)),
        ),
        plan_nodes(calls.take(k + 1)).len() <= plan_nodes(calls).len(),
    decreases calls.len(),
{
    reveal(plan_ok);
    reveal(plan_nodes);
    if k == calls.len() - 1 {
        assert(calls.take(k) =~= calls.drop_last());
        assert(calls.take(k + 1) =~= calls);
    } else {
        lemma_plan_prefix(calls.drop_last(), k);
        assert(calls.drop_last().take(k) =~= calls.take(k));
        assert(calls.drop_last().take(k + 1) =~= calls.take(k + 1));
    }
}

/// Makes call `k` of a plan on a graph that has been built from the calls
/// before it. Does nothing, and says so, where the call takes floating-point
/// arguments.
fn lower_call(g: &mut Graph, plan: &Plan, k: usize) -> (made: bool)
    requires
        plan.wf(),
        k < plan.calls@.len(),
        graph_nodes(*old(g)) == plan_nodes(plan.calls@.take(k as int)),
    ensures
        made == !takes_floats(plan.calls@[k as int]),
        made ==> graph_nodes(*final(g)) == plan_nodes(plan.calls@.take(k + 1)),
        !made ==> *final(g) == *old(g),
{
    proof {
        lemma_plan_prefix(plan.calls@, k as int);
        reveal(call_ok);
        reveal(call_nodes);
    }
    match &plan.calls[k] {
        Call::Input { name, shape } => {
            graph_input(g, name.as_str(), shape.as_slice());
        },
        Call::InputU32 { name, shape } => {
            graph_input_u32(g, name.as_str(), shape.as_slice());
        },
        Call::Parameter { name, shape } => {
            graph_parameter(g, name.as_str(), shape.as_slice());
        },
        Call::Linear { name, in_f, out_f } => {
            linear_new(g, name.as_str(), *in_f, *out_f);
        },
        Call::Forward { name, weight, bias, x } => {
            linear_forward(g, name.as_str(), *weight, *bias, *x);
        },
        Call::Embedding { indices, table } => {
            graph_embedding(g, *indices, *table);
        },
        Call::Add { a, b } => {
            graph_add(g, *a, *b);
        },
        Call::Silu { x } => {
            graph_silu(g, *x);
        },
        Call::MatMul { a, b } => {
            graph_matmul(g, *a, *b);
        },
        Call::Reshape { x, shape } => {
            graph_reshape(g, *x, shape.as_slice());
        },
        Call::Ones { .. } => {
            return false;
        },
        Call::GroupNorm { .. } => {
            return false;
        },
        Call::Conv2d { x, kernel, batch, in_c, h, w, out_c, k, stride, pad } => {
            graph_conv2d(g, *x, *kernel, *batch, *in_c, *h, *w, *out_c, *k, *stride, *pad);
        },
        Call::Upsample2x { x, batch, channels, h, w } => {
            graph_upsample_2x(g, *x, *batch, *channels, *h, *w);
        },
        Call::Concat { a, b, batch, channels_a, channels_b, spatial } => {
            graph_concat(g, *a, *b, *batch, *channels_a, *channels_b, *spatial);
        },
        Call::MseLoss { pred, target } => {
            graph_mse_loss(g, *pred, *target);
        },
    }
    true
}

/// `floats` can make every call of a plan that takes floating-point arguments:
/// it is given the graph that has been built from the calls before it and the
/// position of the call, and gives the graph with the nodes of that call.
pub open spec fn makes_float_calls<F: Fn(Graph, usize) -> Graph>(plan: Plan, floats: F) -> bool {
    forall|g: Graph, k: usize|
        k < plan.calls@.len() && takes_floats(plan.calls@[k as int]) && graph_nodes(g)
            == plan_nodes(plan.calls@.take(k as int)) ==> {
            &&& #[trigger] call_requires(floats, (g, k))
            &&& forall|r: Graph| #[trigger]
                call_ensures(floats, (g, k), r) ==> graph_nodes(r) == plan_nodes(
                    plan.calls@.take(k + 1),
                )
        }
}

/// Builds a graph from all calls of a plan: node by node, it computes what the
/// plan says. The calls that take floating-point arguments are made by
/// `floats`.
pub fn lower<F: Fn(Graph, usize) -> Graph>(plan: &Plan, floats: &F) -> (g: Graph)
    requires
        plan.wf(),
        makes_float_calls(*plan, *floats),
    ensures
        graph_nodes(g) == plan_nodes(plan.calls@),
        forall|id: u32| #[trigger] denote(graph_nodes(g), id as nat) == plan.expr(id),
{
    let mut g = graph_new();
    let mut k: usize = 0;
    assert(graph_nodes(g) =~= plan_nodes(plan.calls@.take(0))) by {
        reveal(plan_nodes);
    }
    while k < plan.calls.len()
        invariant
            plan.wf(),
            makes_float_calls(*plan, *floats),
            k <= plan.calls@.len(),
            graph_nodes(g) == plan_nodes(plan.calls@.take(k as int)),
        decreases plan.calls@.len() - k,
    {
        if !lower_call(&mut g, plan, k) {
            let ghost before = g;
            g = floats(g, k);
            assert(call_requires(*floats, (before, k)));
        }
        k = k + 1;
    }
    assert(plan.calls@.take(k as int) =~= plan.calls@);
    g
}

} // verus!
