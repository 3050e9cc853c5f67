//! A computation graph described as plain data.
//!
//! A [`Plan`] is the list of calls that build a graph, in order. Each call
//! appends one or more nodes; a node is named by its position. What the plan
//! means is given by [`Plan::expr`]: the expression tree that a node computes.

use vstd::prelude::*;

verus! {

/// What a node computes, without its operands.
pub enum OpView {
    Input { name: Seq<char> },
    InputU32 { name: Seq<char> },
    Parameter { name: Seq<char> },
    Ones,
    MatMul,
    BiasAdd,
    Embedding,
    Add,
    Neg,
    Mul,
    MeanAll,
    Silu,
    Reshape,
    /// The epsilon is the bit pattern of a single-precision number.
    GroupNorm { groups: nat, eps_bits: u32, channels: nat, spatial: nat },
    Conv2d { in_c: nat, h: nat, w: nat, out_c: nat, k: nat, stride: nat, pad: nat },
    Upsample2x { channels: nat, h: nat, w: nat },
    Concat { channels_a: nat, channels_b: nat, spatial: nat },
}

/// A node: its operation, the nodes it reads, and the shape of its result.
pub struct NodeView {
    pub op: OpView,
    pub inputs: Seq<nat>,
    pub shape: Seq<nat>,
}

/// The tree of operations that a node computes.
#[verifier::ext_equal]
pub struct Expr {
    pub op: OpView,
    pub shape: Seq<nat>,
    pub args: Seq<Expr>,
}

/// The expression of node `id` of a list of nodes.
#[verifier::opaque]
pub open spec fn denote(nodes: Seq<NodeView>, id: nat) -> Expr
    decreases id,
{
    let n = nodes[id as int];
    Expr {
        op: n.op,
        shape: n.shape,
        args: Seq::new(
            n.inputs.len(),
            |j: int|
                if n.inputs[j] < id {
                    denote(nodes, n.inputs[j])
                } else {
                    arbitrary()
                },
        ),
    }
}

/// Number of elements of a `batch` x `c` x `h` x `w` tensor.
pub open spec fn volume(batch: nat, c: nat, h: nat, w: nat) -> nat {
    batch * c * h * w
}

/// Product of all extents of a shape.
pub open spec fn elements(shape: Seq<nat>) -> nat
    decreases shape.len(),
{
    if shape.len() == 0 {
        1
    } else {
        elements(shape.drop_last()) * shape.last()
    }
}

/// Whether every leading product of the extents fits a machine word.
pub open spec fn elements_fit(shape: Seq<nat>) -> bool
    decreases shape.len(),
{
    &&& elements(shape) <= usize::MAX
    &&& shape.len() > 0 ==> elements_fit(shape.drop_last())
}

/// Output extent of a convolution along one axis.
pub open spec fn conv_extent(extent: nat, k: nat, stride: nat, pad: nat) -> nat {
    ((extent + 2 * pad - k) as nat / stride + 1) as nat
}

/// The shape given by a vector of extents.
pub open spec fn dims(shape: Seq<usize>) -> Seq<nat> {
    shape.map_values(|d: usize| d as nat)
}

/// One graph-building call.
pub enum Call {
    Input { name: String, shape: Vec<usize> },
    InputU32 { name: String, shape: Vec<usize> },
    Parameter { name: String, shape: Vec<usize> },
    /// Declares the parameters `name.weight` and `name.bias` of a dense layer.
    Linear { name: String, in_f: usize, out_f: usize },
    /// Applies the dense layer `name` to `x`.
    Forward { name: String, weight: u32, bias: u32, x: u32 },
    Embedding { indices: u32, table: u32 },
    Add { a: u32, b: u32 },
    Silu { x: u32 },
    MatMul { a: u32, b: u32 },
    Reshape { x: u32, shape: Vec<usize> },
    /// A constant row of `cols` ones.
    Ones { cols: usize },
    GroupNorm {
        x: u32,
        weight: u32,
        bias: u32,
        batch: u32,
        channels: u32,
        spatial: u32,
        groups: u32,
        /// Bit pattern of the single-precision epsilon.
        eps_bits: u32,
    },
    Conv2d {
        x: u32,
        kernel: u32,
        batch: u32,
        in_c: u32,
        h: u32,
        w: u32,
        out_c: u32,
        k: u32,
        stride: u32,
        pad: u32,
    },
    Upsample2x { x: u32, batch: u32, channels: u32, h: u32, w: u32 },
    Concat { a: u32, b: u32, batch: u32, channels_a: u32, channels_b: u32, spatial: u32 },
    MseLoss { pred: u32, target: u32 },
}

/// The nodes that `call` appends to a graph whose nodes are `prior`.
#[verifier::opaque]
pub open spec fn call_nodes(call: Call, prior: Seq<NodeView>) -> Seq<NodeView> {
    let next = prior.len();
    match call {
        Call::Input { name, shape } => seq![
            NodeView { op: OpView::Input { name: name@ }, inputs: seq![], shape: dims(shape@) },
        ],
        Call::InputU32 { name, shape } => seq![
            NodeView { op: OpView::InputU32 { name: name@ }, inputs: seq![], shape: dims(shape@) },
        ],
        Call::Parameter { name, shape } => seq![
            NodeView { op: OpView::Parameter { name: name@ }, inputs: seq![], shape: dims(shape@) },
        ],
        Call::Linear { name, in_f, out_f } => seq![
            NodeView {
                op: OpView::Parameter { name: name@ + ".weight"@ },
                inputs: seq![],
                shape: seq![in_f as nat, out_f as nat],
            },
            NodeView {
                op: OpView::Parameter { name: name@ + ".bias"@ },
                inputs: seq![],
                shape: seq![out_f as nat],
            },
        ],
        Call::Forward { name, weight, bias, x } => {
            let shape = seq![prior[x as int].shape[0], prior[weight as int].shape[1]];
            seq![
                NodeView { op: OpView::MatMul, inputs: seq![x as nat, weight as nat], shape },
                NodeView { op: OpView::BiasAdd, inputs: seq![next, bias as nat], shape },
            ]
        },
        Call::Embedding { indices, table } => seq![
            NodeView {
                op: OpView::Embedding,
                inputs: seq![indices as nat, table as nat],
                shape: seq![prior[indices as int].shape[0], prior[table as int].shape[1]],
            },
        ],
        Call::Add { a, b } => seq![
            NodeView {
                op: OpView::Add,
                inputs: seq![a as nat, b as nat],
                shape: prior[a as int].shape,
            },
        ],
        Call::Silu { x } => seq![
            NodeView { op: OpView::Silu, inputs: seq![x as nat], shape: prior[x as int].shape },
        ],
        Call::MatMul { a, b } => seq![
            NodeView {
                op: OpView::MatMul,
                inputs: seq![a as nat, b as nat],
                shape: seq![prior[a as int].shape[0], prior[b as int].shape[1]],
            },
        ],
        Call::Reshape { x, shape } => seq![
            NodeView { op: OpView::Reshape, inputs: seq![x as nat], shape: dims(shape@) },
        ],
        Call::Ones { cols } => seq![
            NodeView { op: OpView::Ones, inputs: seq![], shape: seq![1nat, cols as nat] },
        ],
        Call::GroupNorm { x, weight, bias, channels, spatial, groups, eps_bits, .. } => seq![
            NodeView {
                op: OpView::GroupNorm {
                    groups: groups as nat,
                    eps_bits,
                    channels: channels as nat,
                    spatial: spatial as nat,
                },
                inputs: seq![x as nat, weight as nat, bias as nat],
                shape: prior[x as int].shape,
            },
        ],
        Call::Conv2d { x, kernel, batch, in_c, h, w, out_c, k, stride, pad } => seq![
            NodeView {
                op: OpView::Conv2d {
                    in_c: in_c as nat,
                    h: h as nat,
                    w: w as nat,
                    out_c: out_c as nat,
                    k: k as nat,
                    stride: stride as nat,
                    pad: pad as nat,
                },
                inputs: seq![x as nat, kernel as nat],
                shape: seq![
                    volume(
                        batch as nat,
                        out_c as nat,
                        conv_extent(h as nat, k as nat, stride as nat, pad as nat),
                        conv_extent(w as nat, k as nat, stride as nat, pad as nat),
                    ),
                ],
            },
        ],
        Call::Upsample2x { x, batch, channels, h, w } => seq![
            NodeView {
                op: OpView::Upsample2x { channels: channels as nat, h: h as nat, w: w as nat },
                inputs: seq![x as nat],
                shape: seq![
                    volume(batch as nat, channels as nat, (h * 2) as nat, (w * 2) as nat),
                ],
            },
        ],
        Call::Concat { a, b, batch, channels_a, channels_b, spatial } => seq![
            NodeView {
                op: OpView::Concat {
                    channels_a: channels_a as nat,
                    channels_b: channels_b as nat,
                    spatial: spatial as nat,
                },
                inputs: seq![a as nat, b as nat],
                shape: seq![batch as nat * ((channels_a + channels_b) as nat) * (spatial as nat)],
            },
        ],
        Call::MseLoss { pred, target } => {
            let shape = prior[pred as int].shape;
            seq![
                NodeView {
                    op: OpView::Neg,
                    inputs: seq![target as nat],
                    shape: prior[target as int].shape,
                },
                NodeView { op: OpView::Add, inputs: seq![pred as nat, next], shape },
                NodeView { op: OpView::Mul, inputs: seq![next + 1, next + 1], shape },
                NodeView { op: OpView::MeanAll, inputs: seq![next + 2], shape: seq![1nat] },
            ]
        },
    }
}

/// Whether `call` is applicable to a graph whose nodes are `prior`: the nodes
/// it reads exist, their shapes agree, and its sizes fit a machine word.
#[verifier::opaque]
pub open spec fn call_ok(call: Call, prior: Seq<NodeView>) -> bool {
    let len = prior.len();
    match call {
        Call::Input { .. } | Call::InputU32 { .. } | Call::Parameter { .. } => true,
        Call::Linear { .. } => true,
        Call::Forward { name, weight, bias, x } => {
            &&& weight < len && bias < len && x < len
            &&& prior[x as int].shape.len() == 2
            &&& prior[weight as int].shape.len() == 2
            &&& prior[bias as int].shape == seq![prior[weight as int].shape[1]]
            &&& prior[x as int].shape[1] == prior[weight as int].shape[0]
        },
        Call::Embedding { indices, table } => {
            &&& indices < len && table < len
            &&& prior[indices as int].op is InputU32
            &&& prior[indices as int].shape.len() == 1
            &&& prior[table as int].shape.len() == 2
        },
        Call::Add { a, b } => {
            &&& a < len && b < len
            &&& prior[a as int].shape == prior[b as int].shape
        },
        Call::Silu { x } => x < len,
        Call::MatMul { a, b } => {
            &&& a < len && b < len
            &&& prior[a as int].shape.len() == 2
            &&& prior[b as int].shape.len() == 2
            &&& prior[a as int].shape[1] == prior[b as int].shape[0]
        },
        Call::Reshape { x, shape } => {
            &&& x < len
            &&& elements(prior[x as int].shape) == elements(dims(shape@))
            &&& elements_fit(prior[x as int].shape)
            &&& elements_fit(dims(shape@))
        },
        Call::Ones { .. } => true,
        Call::GroupNorm { x, weight, bias, batch, channels, spatial, .. } => {
            &&& x < len && weight < len && bias < len
            &&& prior[x as int].shape == seq![batch as nat * channels as nat * spatial as nat]
            &&& prior[weight as int].shape == seq![channels as nat]
            &&& prior[bias as int].shape == seq![channels as nat]
        },
        Call::Conv2d { x, kernel, batch, in_c, h, w, out_c, k, stride, pad } => {
            &&& x < len && kernel < len
            &&& prior[x as int].shape == seq![
                volume(batch as nat, in_c as nat, h as nat, w as nat),
            ]
            &&& prior[kernel as int].shape == seq![
                volume(out_c as nat, in_c as nat, k as nat, k as nat),
            ]
            &&& conv_fits(
                batch as nat,
                in_c as nat,
                h as nat,
                w as nat,
                out_c as nat,
                k as nat,
                stride as nat,
                pad as nat,
            )
        },
        Call::Upsample2x { x, batch, channels, h, w } => {
            &&& x < len
            &&& prior[x as int].shape == seq![
                volume(batch as nat, channels as nat, h as nat, w as nat),
            ]
            &&& h * 2 <= u32::MAX && w * 2 <= u32::MAX
            &&& volume_fits(batch as nat, channels as nat, (h * 2) as nat, (w * 2) as nat)
        },
        Call::Concat { a, b, batch, channels_a, channels_b, spatial } => {
            &&& a < len && b < len
            &&& prior[a as int].shape == seq![batch as nat * channels_a as nat * spatial as nat]
            &&& prior[b as int].shape == seq![batch as nat * channels_b as nat * spatial as nat]
            &&& channels_a + channels_b <= u32::MAX
            &&& batch as nat * ((channels_a + channels_b) as nat) <= usize::MAX
            &&& batch as nat * ((channels_a + channels_b) as nat) * (spatial as nat) <= usize::MAX
        },
        Call::MseLoss { pred, target } => {
            &&& pred < len && target < len
            &&& prior[pred as int].shape == prior[target as int].shape
        },
    }
}

/// Whether the product of the four extents, and every leading product of
/// them, fits a machine word.
pub open spec fn volume_fits(batch: nat, c: nat, h: nat, w: nat) -> bool {
    &&& batch * c <= usize::MAX
    &&& batch * c * h <= usize::MAX
    &&& volume(batch, c, h, w) <= usize::MAX
}

/// Whether a convolution has an output and its sizes fit the machine words
/// that they are computed in.
pub open spec fn conv_fits(
    batch: nat,
    in_c: nat,
    h: nat,
    w: nat,
    out_c: nat,
    k: nat,
    stride: nat,
    pad: nat,
) -> bool {
    &&& 0 < stride
    &&& k <= h + 2 * pad && k <= w + 2 * pad
    &&& h + 2 * pad < u32::MAX && w + 2 * pad < u32::MAX
    &&& volume_fits(batch, in_c, h, w)
    &&& volume_fits(out_c, in_c, k, k)
    &&& volume_fits(
        batch,
        out_c,
        conv_extent(h, k, stride, pad),
        conv_extent(w, k, stride, pad),
    )
}

/// The nodes of the graph that a list of calls builds.
#[verifier::opaque]
pub open spec fn plan_nodes(calls: Seq<Call>) -> Seq<NodeView>
    decreases calls.len(),
{
    if calls.len() == 0 {
        Seq::empty()
    } else {
        let prior = plan_nodes(calls.drop_last());
        prior + call_nodes(calls.last(), prior)
    }
}

/// The parameters among some nodes with their shapes, in order.
#[verifier::opaque]
pub open spec fn parameters(nodes: Seq<NodeView>) -> Seq<(Seq<char>, Seq<nat>)>
    decreases nodes.len(),
{
    if nodes.len() == 0 {
        Seq::empty()
    } else {
        let before = parameters(nodes.drop_last());
        match nodes.last().op {
            OpView::Parameter { name } => before.push((name, nodes.last().shape)),
            _ => before,
        }
    }
}

/// An input of a graph.
pub struct InputView {
    pub name: Seq<char>,
    pub shape: Seq<nat>,
    /// It holds integers.
    pub integer: bool,
}

/// The inputs among some nodes, in order.
#[verifier::opaque]
pub open spec fn inputs(nodes: Seq<NodeView>) -> Seq<InputView>
    decreases nodes.len(),
{
    if nodes.len() == 0 {
        Seq::empty()
    } else {
        let before = inputs(nodes.drop_last());
        let shape = nodes.last().shape;
        match nodes.last().op {
            OpView::Input { name } => before.push(InputView { name, shape, integer: false }),
            OpView::InputU32 { name } => before.push(InputView { name, shape, integer: true }),
            _ => before,
        }
    }
}

/// Whether every call is applicable to the graph that the calls before it
/// build.
#[verifier::opaque]
pub open spec fn plan_ok(calls: Seq<Call>) -> bool
    decreases calls.len(),
{
    calls.len() == 0 || {
        &&& plan_ok(calls.drop_last())
        &&& call_ok(calls.last(), plan_nodes(calls.drop_last()))
    }
}

/// A graph as the list of calls that build it.
pub struct Plan {
    pub calls: Vec<Call>,
    /// Number of nodes so far, which is also the name of the next node.
    pub len: u32,
}

impl Plan {
    /// The nodes of the graph.
    pub open spec fn nodes(&self) -> Seq<NodeView> {
        plan_nodes(self.calls@)
    }

    /// The calls fit together and the node count is right.
    pub open spec fn wf(&self) -> bool {
        &&& plan_ok(self.calls@)
        &&& self.len == self.nodes().len()
    }

    /// What node `id` computes.
    pub open spec fn expr(&self, id: u32) -> Expr {
        denote(self.nodes(), id as nat)
    }

    /// The parameters of the graph with their shapes, in the order in which
    /// they are declared.
    pub open spec fn parameters(&self) -> Seq<(Seq<char>, Seq<nat>)> {
        parameters(self.nodes())
    }

    /// The inputs of the graph, in the order in which they are declared.
    pub open spec fn inputs(&self) -> Seq<InputView> {
        inputs(self.nodes())
    }

    /// The number of nodes leaves room for `n` more.
    pub open spec fn room(&self, n: nat) -> bool {
        self.len + n <= u32::MAX
    }

    /// `self` has every node of `old`, unchanged.
    pub open spec fn extends(&self, old: &Plan) -> bool {
        &&& old.len <= self.len
        &&& forall|id: u32| id < old.len ==> #[trigger] self.expr(id) == old.expr(id)
    }
}

/// Appending nodes leaves what the earlier ones compute as it was.
proof fn lemma_denote_prefix(nodes: Seq<NodeView>, more: Seq<NodeView>, id: nat)
    requires
        id < nodes.len(),
    ensures
        denote(nodes + more, id) == denote(nodes, id),
    decreases id,
{
    reveal(denote);
    let n = nodes[id as int];
    assert((nodes + more)[id as int] == n);
    assert forall|j: int| 0 <= j < n.inputs.len() && n.inputs[j] < id implies denote(
        nodes + more,
        #[trigger] n.inputs[j],
    ) == denote(nodes, n.inputs[j]) by {
        lemma_denote_prefix(nodes, more, n.inputs[j]);
    }
    assert(denote(nodes + more, id).args =~= denote(nodes, id).args);
}



/// A node just appended reads the nodes before it.
proof fn lemma_denote_new(nodes: Seq<NodeView>, more: Seq<NodeView>, j: int)
    requires
        0 <= j < more.len(),
        forall|k: int|
            0 <= k < more[j].inputs.len() ==> #[trigger] more[j].inputs[k] < nodes.len() + j,
    ensures
        denote(nodes + more, (nodes.len() + j) as nat) == (Expr {
            op: more[j].op,
            shape: more[j].shape,
            args: Seq::new(
                more[j].inputs.len(),
                |k: int| denote(nodes + more, more[j].inputs[k]),
            ),
        }),
        forall|i: nat| i < nodes.len() ==> #[trigger] denote(nodes + more, i) == denote(nodes, i),
{
    reveal(denote);
    assert((nodes + more)[nodes.len() + j] == more[j]);
    assert forall|i: nat| i < nodes.len() implies #[trigger] denote(nodes + more, i) == denote(
        nodes,
        i,
    ) by {
        lemma_denote_prefix(nodes, more, i);
    }
    assert(denote(nodes + more, (nodes.len() + j) as nat).args =~= Seq::new(
        more[j].inputs.len(),
        |k: int| denote(nodes + more, more[j].inputs[k]),
    ));
}

/// The parameters of a joined list are those of its parts, joined.
proof fn lemma_parameters_concat(nodes: Seq<NodeView>, more: Seq<NodeView>)
    ensures
        parameters(nodes + more) == parameters(nodes) + parameters(more),
    decreases more.len(),
{
    reveal(parameters);
    if more.len() == 0 {
        assert(nodes + more =~= nodes);
        assert(parameters(nodes) + parameters(more) =~= parameters(nodes));
    } else {
        lemma_parameters_concat(nodes, more.drop_last());
        assert((nodes + more).drop_last() =~= nodes + more.drop_last());
        assert((nodes + more).last() == more.last());
        assert(parameters(nodes + more) =~= parameters(nodes) + parameters(more));
    }
}

/// The inputs of a joined list are those of its parts, joined.
proof fn lemma_inputs_concat(nodes: Seq<NodeView>, more: Seq<NodeView>)
    ensures
        inputs(nodes + more) == inputs(nodes) + inputs(more),
    decreases more.len(),
{
    reveal(inputs);
    if more.len() == 0 {
        assert(nodes + more =~= nodes);
        assert(inputs(nodes) + inputs(more) =~= inputs(nodes));
    } else {
        lemma_inputs_concat(nodes, more.drop_last());
        assert((nodes + more).drop_last() =~= nodes + more.drop_last());
        assert((nodes + more).last() == more.last());
        assert(inputs(nodes + more) =~= inputs(nodes) + inputs(more));
    }
}

/// Nodes among which there is no input.
proof fn lemma_no_inputs(nodes: Seq<NodeView>)
    requires
        forall|i: int|
            #![trigger nodes[i]]
            0 <= i < nodes.len() ==> !(nodes[i].op is Input) && !(nodes[i].op is InputU32),
    ensures
        inputs(nodes) == Seq::<InputView>::empty(),
    decreases nodes.len(),
{
    reveal(inputs);
    if nodes.len() > 0 {
        let rest = nodes.drop_last();
        assert forall|i: int| #![trigger rest[i]] 0 <= i < rest.len() implies !(
        rest[i].op is Input) && !(rest[i].op is InputU32) by {
            assert(rest[i] == nodes[i]);
        }
        lemma_no_inputs(rest);
        assert(!(nodes[nodes.len() - 1].op is Input));
    }
}

/// The input that a call declares, if it declares one.
spec fn call_input(call: Call) -> Seq<InputView> {
    match call {
        Call::Input { name, shape } => seq![
            InputView { name: name@, shape: dims(shape@), integer: false },
        ],
        Call::InputU32 { name, shape } => seq![
            InputView { name: name@, shape: dims(shape@), integer: true },
        ],
        _ => Seq::empty(),
    }
}

/// The inputs among the nodes of a call.
proof fn lemma_call_inputs(call: Call, prior: Seq<NodeView>)
    ensures
        inputs(call_nodes(call, prior)) == call_input(call),
{
    reveal(call_nodes);
    let nodes = call_nodes(call, prior);
    if call is Input || call is InputU32 {
        reveal_with_fuel(inputs, 2);
        assert(nodes.drop_last() =~= Seq::<NodeView>::empty());
        assert(inputs(nodes) =~= call_input(call));
    } else {
        lemma_no_inputs(nodes);
    }
}

/// An expression without operands.
pub open spec fn leaf(op: OpView, shape: Seq<nat>) -> Expr {
    Expr { op, shape, args: seq![] }
}

/// The parameter `name`.
pub open spec fn parameter(name: Seq<char>, shape: Seq<nat>) -> Expr {
    leaf(OpView::Parameter { name }, shape)
}

/// The matrix product of `a` and `b`.
pub open spec fn matmul(a: Expr, b: Expr) -> Expr {
    Expr { op: OpView::MatMul, shape: seq![a.shape[0], b.shape[1]], args: seq![a, b] }
}

/// The dense layer with the given weight and bias, applied to `x`.
pub open spec fn dense(x: Expr, weight: Expr, bias: Expr) -> Expr {
    let mm = matmul(x, weight);
    Expr { op: OpView::BiasAdd, shape: mm.shape, args: seq![mm, bias] }
}

/// The rows of `table` that `indices` name.
pub open spec fn embedding(indices: Expr, table: Expr) -> Expr {
    Expr {
        op: OpView::Embedding,
        shape: seq![indices.shape[0], table.shape[1]],
        args: seq![indices, table],
    }
}

/// The elementwise sum of `a` and `b`.
pub open spec fn sum(a: Expr, b: Expr) -> Expr {
    Expr { op: OpView::Add, shape: a.shape, args: seq![a, b] }
}

/// The SiLU activation of `x`.
pub open spec fn silu(x: Expr) -> Expr {
    Expr { op: OpView::Silu, shape: x.shape, args: seq![x] }
}

/// `x` with another shape.
pub open spec fn reshape(x: Expr, shape: Seq<nat>) -> Expr {
    Expr { op: OpView::Reshape, shape, args: seq![x] }
}

/// Group normalisation of `x`.
pub open spec fn group_norm(
    x: Expr,
    weight: Expr,
    bias: Expr,
    channels: nat,
    spatial: nat,
    groups: nat,
    eps_bits: u32,
) -> Expr {
    Expr {
        op: OpView::GroupNorm { groups, eps_bits, channels, spatial },
        shape: x.shape,
        args: seq![x, weight, bias],
    }
}

/// A square 2D convolution.
pub open spec fn conv2d(
    x: Expr,
    kernel: Expr,
    batch: nat,
    in_c: nat,
    h: nat,
    w: nat,
    out_c: nat,
    k: nat,
    stride: nat,
    pad: nat,
) -> Expr {
    Expr {
        op: OpView::Conv2d { in_c, h, w, out_c, k, stride, pad },
        shape: seq![
            volume(batch, out_c, conv_extent(h, k, stride, pad), conv_extent(w, k, stride, pad)),
        ],
        args: seq![x, kernel],
    }
}

/// Nearest-neighbour doubling of both axes.
pub open spec fn upsample_2x(x: Expr, batch: nat, channels: nat, h: nat, w: nat) -> Expr {
    Expr {
        op: OpView::Upsample2x { channels, h, w },
        shape: seq![volume(batch, channels, h * 2, w * 2)],
        args: seq![x],
    }
}

/// `a` and `b` joined along the channel axis.
pub open spec fn concat(
    a: Expr,
    b: Expr,
    batch: nat,
    channels_a: nat,
    channels_b: nat,
    spatial: nat,
) -> Expr {
    Expr {
        op: OpView::Concat { channels_a, channels_b, spatial },
        shape: seq![batch * (channels_a + channels_b) * spatial],
        args: seq![a, b],
    }
}

/// The mean squared difference of `pred` and `target`.
pub open spec fn mse_loss(pred: Expr, target: Expr) -> Expr {
    let neg = Expr { op: OpView::Neg, shape: target.shape, args: seq![target] };
    let diff = sum(pred, neg);
    let sq = Expr { op: OpView::Mul, shape: diff.shape, args: seq![diff, diff] };
    Expr { op: OpView::MeanAll, shape: seq![1nat], args: seq![sq] }
}

impl Plan {
    /// An empty graph.
    pub fn new() -> (p: Plan)
        ensures
            p.wf(),
            p.len == 0,
            p.calls@.len() == 0,
            p.parameters() == Seq::<(Seq<char>, Seq<nat>)>::empty(),
            p.inputs() == Seq::<InputView>::empty(),
    {
        proof {
            reveal(plan_ok);
            reveal(plan_nodes);
            reveal(parameters);
            reveal(inputs);
        }
        Plan { calls: Vec::new(), len: 0 }
    }

    /// Appends a call that makes `count` nodes.
    fn push(&mut self, call: Call, count: u32)
        requires
            old(self).wf(),
            call_ok(call, old(self).nodes()),
            count == call_nodes(call, old(self).nodes()).len(),
            old(self).room(count as nat),
        ensures
            final(self).wf(),
            final(self).extends(old(self)),
            final(self).len == old(self).len + count,
            final(self).calls@ == old(self).calls@.push(call),
            final(self).nodes() == old(self).nodes() + call_nodes(call, old(self).nodes()),
            final(self).parameters() == old(self).parameters() + parameters(
                call_nodes(call, old(self).nodes()),
            ),
            final(self).inputs() == old(self).inputs() + call_input(call),
    {
        let ghost before = *self;
        self.calls.push(call);
        self.len = self.len + count;
        proof {
            reveal(plan_ok);
            reveal(plan_nodes);
            assert(self.calls@.drop_last() =~= before.calls@);
            let more = call_nodes(call, before.nodes());
            lemma_parameters_concat(before.nodes(), more);
            lemma_inputs_concat(before.nodes(), more);
            lemma_call_inputs(call, before.nodes());
            assert forall|id: u32| id < before.len implies #[trigger] self.expr(id)
                == before.expr(id) by {
                lemma_denote_prefix(before.nodes(), more, id as nat);
            }
        }
    }

    /// Declares the input `name`.
    pub(crate) fn input(&mut self, name: &str, shape: Vec<usize>) -> (id: u32)
        requires
            old(self).wf(),
            old(self).room(1),
        ensures
            final(self).wf(),
            final(self).extends(old(self)),
            final(self).len == old(self).len + 1,
            id == old(self).len,
            final(self).expr(id) == leaf(OpView::Input { name: name@ }, dims(shape@)),
            final(self).parameters() == old(self).parameters(),
            final(self).inputs() == old(self).inputs().push(
                InputView { name: name@, shape: dims(shape@), integer: false },
            ),
    {
        let ghost before = *self;
        let id = self.len;
        let call = Call::Input { name: name.to_string(), shape };
        proof {
            reveal(call_ok);
            reveal(call_nodes);
            reveal(denote);
        }
        self.push(call, 1);
        proof {
            let more = call_nodes(call, before.nodes());
            assert(before.inputs() + call_input(call) =~= before.inputs().push(
                InputView { name: name@, shape: dims(shape@), integer: false },
            ));
            lemma_denote_new(before.nodes(), more, 0);
            reveal_with_fuel(parameters, 2);
            assert(more.drop_last() =~= Seq::<NodeView>::empty());
            assert(before.parameters() + parameters(more) =~= before.parameters());
            assert(self.expr(id).args =~= Seq::<Expr>::empty());
        }
        id
    }

    /// Declares the integer input `name`.
    pub(crate) fn input_u32(&mut self, name: &str, shape: Vec<usize>) -> (id: u32)
        requires
            old(self).wf(),
            old(self).room(1),
        ensures
            final(self).wf(),
            final(self).extends(old(self)),
            final(self).len == old(self).len + 1,
            id == old(self).len,
            final(self).expr(id) == leaf(OpView::InputU32 { name: name@ }, dims(shape@)),
            final(self).parameters() == old(self).parameters(),
            final(self).inputs() == old(self).inputs().push(
                InputView { name: name@, shape: dims(shape@), integer: true },
            ),
    {
        let ghost before = *self;
        let id = self.len;
        let call = Call::InputU32 { name: name.to_string(), shape };
        proof {
            reveal(call_ok);
            reveal(call_nodes);
            reveal(denote);
        }
        self.push(call, 1);
        proof {
            let more = call_nodes(call, before.nodes());
            assert(before.inputs() + call_input(call) =~= before.inputs().push(
                InputView { name: name@, shape: dims(shape@), integer: true },
            ));
            lemma_denote_new(before.nodes(), more, 0);
            reveal_with_fuel(parameters, 2);
            assert(more.drop_last() =~= Seq::<NodeView>::empty());
            assert(before.parameters() + parameters(more) =~= before.parameters());
            assert(self.expr(id).args =~= Seq::<Expr>::empty());
        }
        id
    }

    /// Declares the parameter `name`.
    pub(crate) fn parameter(&mut self, name: &str, shape: Vec<usize>) -> (id: u32)
        requires
            old(self).wf(),
            old(self).room(1),
        ensures
            final(self).wf(),
            final(self).extends(old(self)),
            final(self).len == old(self).len + 1,
            id == old(self).len,
            final(self).expr(id) == parameter(name@, dims(shape@)),
            final(self).parameters() == old(self).parameters().push((name@, dims(shape@))),
            final(self).inputs() == old(self).inputs(),
    {
        let ghost before = *self;
        let id = self.len;
        let call = Call::Parameter { name: name.to_string(), shape };
        proof {
            reveal(call_ok);
            reveal(call_nodes);
            reveal(denote);
        }
        self.push(call, 1);
        proof {
            let more = call_nodes(call, before.nodes());
            assert(before.inputs() + call_input(call) =~= before.inputs());
            lemma_denote_new(before.nodes(), more, 0);
            reveal_with_fuel(parameters, 2);
            assert(more.drop_last() =~= Seq::<NodeView>::empty());
            assert(self.expr(id).args =~= Seq::<Expr>::empty());
            assert(before.parameters() + parameters(more) =~= before.parameters().push(
                (name@, dims(shape@)),
            ));
        }
        id
    }

    /// Declares the weight and the bias of the dense layer `name`.
    pub(crate) fn linear(&mut self, name: &str, in_f: usize, out_f: usize) -> (wb: (u32, u32))
        requires
            old(self).wf(),
            old(self).room(2),
        ensures
            final(self).wf(),
            final(self).extends(old(self)),
            final(self).len == old(self).len + 2,
            wb.0 == old(self).len,
            wb.1 == old(self).len + 1,
            final(self).expr(wb.0) == parameter(
                name@ + ".weight"@,
                seq![in_f as nat, out_f as nat],
            ),
            final(self).expr(wb.1) == parameter(name@ + ".bias"@, seq![out_f as nat]),
            final(self).parameters() == old(self).parameters().push(
                (name@ + ".weight"@, seq![in_f as nat, out_f as nat]),
            ).push((name@ + ".bias"@, seq![out_f as nat])),
            final(self).inputs() == old(self).inputs(),
    {
        let ghost before = *self;
        let weight = self.len;
        let call = Call::Linear { name: name.to_string(), in_f, out_f };
        proof {
            reveal(call_ok);
            reveal(call_nodes);
        }
        self.push(call, 2);
        proof {
            let more = call_nodes(call, before.nodes());
            assert(before.inputs() + call_input(call) =~= before.inputs());
            lemma_denote_new(before.nodes(), more, 0);
            lemma_denote_new(before.nodes(), more, 1);
            assert(self.expr(weight).args =~= Seq::<Expr>::empty());
            assert(self.expr((weight + 1) as u32).args =~= Seq::<Expr>::empty());
            reveal_with_fuel(parameters, 3);
            assert(more.drop_last() =~= more.subrange(0, 1));
            assert(more.subrange(0, 1).drop_last() =~= Seq::<NodeView>::empty());
            assert(before.parameters() + parameters(more) =~= before.parameters().push(
                (name@ + ".weight"@, seq![in_f as nat, out_f as nat]),
            ).push((name@ + ".bias"@, seq![out_f as nat])));
        }
        (weight, weight + 1)
    }

    /// Applies the dense layer `name` to `x`.
    pub(crate) fn forward(&mut self, name: &str, weight: u32, bias: u32, x: u32) -> (id: u32)
        requires
            old(self).wf(),
            old(self).room(2),
            weight < old(self).len && bias < old(self).len && x < old(self).len,
            old(self).expr(x).shape.len() == 2,
            old(self).expr(weight).shape.len() == 2,
            old(self).expr(x).shape[1] == old(self).expr(weight).shape[0],
            old(self).expr(bias).shape == seq![old(self).expr(weight).shape[1]],
        ensures
            final(self).wf(),
            final(self).extends(old(self)),
            final(self).len == old(self).len + 2,
            id == old(self).len + 1,
            final(self).expr(id) == dense(
                old(self).expr(x),
                old(self).expr(weight),
                old(self).expr(bias),
            ),
            final(self).parameters() == old(self).parameters(),
            final(self).inputs() == old(self).inputs(),
    {
        let ghost before = *self;
        let id = self.len + 1;
        let call = Call::Forward { name: name.to_string(), weight, bias, x };
        proof {
            reveal(call_ok);
            reveal(call_nodes);
            reveal(denote);
        }
        self.push(call, 2);
        proof {
            let more = call_nodes(call, before.nodes());
            assert(before.inputs() + call_input(call) =~= before.inputs());
            lemma_denote_new(before.nodes(), more, 0);
            lemma_denote_new(before.nodes(), more, 1);
            reveal_with_fuel(parameters, 3);
            assert(more.drop_last() =~= more.subrange(0, 1));
            assert(more.subrange(0, 1).drop_last() =~= Seq::<NodeView>::empty());
            assert(before.parameters() + parameters(more) =~= before.parameters());
            let mm = (id - 1) as u32;
            assert(self.expr(mm).args =~= seq![before.expr(x), before.expr(weight)]);
            assert(self.expr(id).args =~= seq![self.expr(mm), before.expr(bias)]);
        }
        id
    }

    /// Looks the rows of `table` up by `indices`.
    pub(crate) fn embedding(&mut self, indices: u32, table: u32) -> (id: u32)
        requires
            old(self).wf(),
            old(self).room(1),
            indices < old(self).len && table < old(self).len,
            old(self).expr(indices).op is InputU32,
            old(self).expr(indices).shape.len() == 1,
            old(self).expr(table).shape.len() == 2,
        ensures
            final(self).wf(),
            final(self).extends(old(self)),
            final(self).len == old(self).len + 1,
            id == old(self).len,
            final(self).expr(id) == embedding(old(self).expr(indices), old(self).expr(table)),
            final(self).parameters() == old(self).parameters(),
            final(self).inputs() == old(self).inputs(),
    {
        let ghost before = *self;
        let id = self.len;
        let call = Call::Embedding { indices, table };
        proof {
            reveal(call_ok);
            reveal(call_nodes);
            reveal(denote);
        }
        self.push(call, 1);
        proof {
            let more = call_nodes(call, before.nodes());
            assert(before.inputs() + call_input(call) =~= before.inputs());
            lemma_denote_new(before.nodes(), more, 0);
            reveal_with_fuel(parameters, 2);
            assert(more.drop_last() =~= Seq::<NodeView>::empty());
            assert(before.parameters() + parameters(more) =~= before.parameters());
            assert(self.expr(id).args =~= seq![before.expr(indices), before.expr(table)]);
        }
        id
    }

    /// The elementwise sum of `a` and `b`.
    pub(crate) fn sum(&mut self, a: u32, b: u32) -> (id: u32)
        requires
            old(self).wf(),
            old(self).room(1),
            a < old(self).len && b < old(self).len,
            old(self).expr(a).shape == old(self).expr(b).shape,
        ensures
            final(self).wf(),
            final(self).extends(old(self)),
            final(self).len == old(self).len + 1,
            id == old(self).len,
            final(self).expr(id) == sum(old(self).expr(a), old(self).expr(b)),
            final(self).parameters() == old(self).parameters(),
            final(self).inputs() == old(self).inputs(),
    {
        let ghost before = *self;
        let id = self.len;
        let call = Call::Add { a, b };
        proof {
            reveal(call_ok);
            reveal(call_nodes);
            reveal(denote);
        }
        self.push(call, 1);
        proof {
            let more = call_nodes(call, before.nodes());
            assert(before.inputs() + call_input(call) =~= before.inputs());
            lemma_denote_new(before.nodes(), more, 0);
            reveal_with_fuel(parameters, 2);
            assert(more.drop_last() =~= Seq::<NodeView>::empty());
            assert(before.parameters() + parameters(more) =~= before.parameters());
            assert(self.expr(id).args =~= seq![before.expr(a), before.expr(b)]);
        }
        id
    }

    /// The SiLU activation of `x`.
    pub(crate) fn silu(&mut self, x: u32) -> (id: u32)
        requires
            old(self).wf(),
            old(self).room(1),
            x < old(self).len,
        ensures
            final(self).wf(),
            final(self).extends(old(self)),
            final(self).len == old(self).len + 1,
            id == old(self).len,
            final(self).expr(id) == silu(old(self).expr(x)),
            final(self).parameters() == old(self).parameters(),
            final(self).inputs() == old(self).inputs(),
    {
        let ghost before = *self;
        let id = self.len;
        let call = Call::Silu { x };
        proof {
            reveal(call_ok);
            reveal(call_nodes);
            reveal(denote);
        }
        self.push(call, 1);
        proof {
            let more = call_nodes(call, before.nodes());
            assert(before.inputs() + call_input(call) =~= before.inputs());
            lemma_denote_new(before.nodes(), more, 0);
            reveal_with_fuel(parameters, 2);
            assert(more.drop_last() =~= Seq::<NodeView>::empty());
            assert(before.parameters() + parameters(more) =~= before.parameters());
            assert(self.expr(id).args =~= seq![before.expr(x)]);
        }
        id
    }

    /// The matrix product of `a` and `b`.
    pub(crate) fn matmul(&mut self, a: u32, b: u32) -> (id: u32)
        requires
            old(self).wf(),
            old(self).room(1),
            a < old(self).len && b < old(self).len,
            old(self).expr(a).shape.len() == 2,
            old(self).expr(b).shape.len() == 2,
            old(self).expr(a).shape[1] == old(self).expr(b).shape[0],
        ensures
            final(self).wf(),
            final(self).extends(old(self)),
            final(self).len == old(self).len + 1,
            id == old(self).len,
            final(self).expr(id) == matmul(old(self).expr(a), old(self).expr(b)),
            final(self).parameters() == old(self).parameters(),
            final(self).inputs() == old(self).inputs(),
    {
        let ghost before = *self;
        let id = self.len;
        let call = Call::MatMul { a, b };
        proof {
            reveal(call_ok);
            reveal(call_nodes);
            reveal(denote);
        }
        self.push(call, 1);
        proof {
            let more = call_nodes(call, before.nodes());
            assert(before.inputs() + call_input(call) =~= before.inputs());
            lemma_denote_new(before.nodes(), more, 0);
            reveal_with_fuel(parameters, 2);
            assert(more.drop_last() =~= Seq::<NodeView>::empty());
            assert(before.parameters() + parameters(more) =~= before.parameters());
            assert(self.expr(id).args =~= seq![before.expr(a), before.expr(b)]);
        }
        id
    }

    /// `x` with another shape of as many elements.
    pub(crate) fn reshape(&mut self, x: u32, shape: Vec<usize>) -> (id: u32)
        requires
            old(self).wf(),
            old(self).room(1),
            x < old(self).len,
            elements(old(self).expr(x).shape) == elements(dims(shape@)),
            elements_fit(old(self).expr(x).shape),
            elements_fit(dims(shape@)),
        ensures
            final(self).wf(),
            final(self).extends(old(self)),
            final(self).len == old(self).len + 1,
            id == old(self).len,
            final(self).expr(id) == reshape(old(self).expr(x), dims(shape@)),
            final(self).parameters() == old(self).parameters(),
            final(self).inputs() == old(self).inputs(),
    {
        let ghost before = *self;
        let id = self.len;
        let call = Call::Reshape { x, shape };
        proof {
            reveal(call_ok);
            reveal(call_nodes);
            reveal(denote);
        }
        self.push(call, 1);
        proof {
            let more = call_nodes(call, before.nodes());
            assert(before.inputs() + call_input(call) =~= before.inputs());
            lemma_denote_new(before.nodes(), more, 0);
            reveal_with_fuel(parameters, 2);
            assert(more.drop_last() =~= Seq::<NodeView>::empty());
            assert(before.parameters() + parameters(more) =~= before.parameters());
            assert(self.expr(id).args =~= seq![before.expr(x)]);
        }
        id
    }

    /// A constant row of `cols` ones.
    pub(crate) fn ones(&mut self, cols: usize) -> (id: u32)
        requires
            old(self).wf(),
            old(self).room(1),
        ensures
            final(self).wf(),
            final(self).extends(old(self)),
            final(self).len == old(self).len + 1,
            id == old(self).len,
            final(self).expr(id) == leaf(OpView::Ones, seq![1nat, cols as nat]),
            final(self).parameters() == old(self).parameters(),
            final(self).inputs() == old(self).inputs(),
    {
        let ghost before = *self;
        let id = self.len;
        let call = Call::Ones { cols };
        proof {
            reveal(call_ok);
            reveal(call_nodes);
            reveal(denote);
        }
        self.push(call, 1);
        proof {
            let more = call_nodes(call, before.nodes());
            assert(before.inputs() + call_input(call) =~= before.inputs());
            lemma_denote_new(before.nodes(), more, 0);
            reveal_with_fuel(parameters, 2);
            assert(more.drop_last() =~= Seq::<NodeView>::empty());
            assert(before.parameters() + parameters(more) =~= before.parameters());
            assert(self.expr(id).args =~= Seq::<Expr>::empty());
        }
        id
    }

    /// Group normalisation of `x`, scaled by `weight` and shifted by `bias`.
    pub(crate) fn group_norm(
        &mut self,
        x: u32,
        weight: u32,
        bias: u32,
        batch: u32,
        channels: u32,
        spatial: u32,
        groups: u32,
        eps_bits: u32,
    ) -> (id: u32)
        requires
            old(self).wf(),
            old(self).room(1),
            x < old(self).len && weight < old(self).len && bias < old(self).len,
            old(self).expr(x).shape == seq![batch as nat * channels as nat * spatial as nat],
            old(self).expr(weight).shape == seq![channels as nat],
            old(self).expr(bias).shape == seq![channels as nat],
        ensures
            final(self).wf(),
            final(self).extends(old(self)),
            final(self).len == old(self).len + 1,
            id == old(self).len,
            final(self).expr(id) == group_norm(
                old(self).expr(x),
                old(self).expr(weight),
                old(self).expr(bias),
                channels as nat,
                spatial as nat,
                groups as nat,
                eps_bits,
            ),
            final(self).parameters() == old(self).parameters(),
            final(self).inputs() == old(self).inputs(),
    {
        let ghost before = *self;
        let id = self.len;
        let call = Call::GroupNorm { x, weight, bias, batch, channels, spatial, groups, eps_bits };
        proof {
            reveal(call_ok);
            reveal(call_nodes);
            reveal(denote);
        }
        self.push(call, 1);
        proof {
            let more = call_nodes(call, before.nodes());
            assert(before.inputs() + call_input(call) =~= before.inputs());
            lemma_denote_new(before.nodes(), more, 0);
            reveal_with_fuel(parameters, 2);
            assert(more.drop_last() =~= Seq::<NodeView>::empty());
            assert(before.parameters() + parameters(more) =~= before.parameters());
            assert(self.expr(id).args =~= seq![
                before.expr(x),
                before.expr(weight),
                before.expr(bias),
            ]);
        }
        id
    }

    /// A square 2D convolution.
    pub(crate) fn conv2d(
        &mut self,
        x: u32,
        kernel: u32,
        batch: u32,
        in_c: u32,
        h: u32,
        w: u32,
        out_c: u32,
        k: u32,
        stride: u32,
        pad: u32,
    ) -> (id: u32)
        requires
            old(self).wf(),
            old(self).room(1),
            x < old(self).len && kernel < old(self).len,
            old(self).expr(x).shape == seq![
                volume(batch as nat, in_c as nat, h as nat, w as nat),
            ],
            old(self).expr(kernel).shape == seq![
                volume(out_c as nat, in_c as nat, k as nat, k as nat),
            ],
            conv_fits(
                batch as nat,
                in_c as nat,
                h as nat,
                w as nat,
                out_c as nat,
                k as nat,
                stride as nat,
                pad as nat,
            ),
        ensures
            final(self).wf(),
            final(self).extends(old(self)),
            final(self).len == old(self).len + 1,
            id == old(self).len,
            final(self).expr(id) == conv2d(
                old(self).expr(x),
                old(self).expr(kernel),
                batch as nat,
                in_c as nat,
                h as nat,
                w as nat,
                out_c as nat,
                k as nat,
                stride as nat,
                pad as nat,
            ),
            final(self).parameters() == old(self).parameters(),
            final(self).inputs() == old(self).inputs(),
    {
        let ghost before = *self;
        let id = self.len;
        let call = Call::Conv2d { x, kernel, batch, in_c, h, w, out_c, k, stride, pad };
        proof {
            reveal(call_ok);
            reveal(call_nodes);
            reveal(denote);
        }
        self.push(call, 1);
        proof {
            let more = call_nodes(call, before.nodes());
            assert(before.inputs() + call_input(call) =~= before.inputs());
            lemma_denote_new(before.nodes(), more, 0);
            reveal_with_fuel(parameters, 2);
            assert(more.drop_last() =~= Seq::<NodeView>::empty());
            assert(before.parameters() + parameters(more) =~= before.parameters());
            assert(self.expr(id).args =~= seq![before.expr(x), before.expr(kernel)]);
        }
        id
    }

    /// Nearest-neighbour doubling of both axes.
    pub(crate) fn upsample_2x(
        &mut self,
        x: u32,
        batch: u32,
        channels: u32,
        h: u32,
        w: u32,
    ) -> (id: u32)
        requires
            old(self).wf(),
            old(self).room(1),
            x < old(self).len,
            old(self).expr(x).shape == seq![
                volume(batch as nat, channels as nat, h as nat, w as nat),
            ],
            h * 2 <= u32::MAX && w * 2 <= u32::MAX,
            volume_fits(batch as nat, channels as nat, (h * 2) as nat, (w * 2) as nat),
        ensures
            final(self).wf(),
            final(self).extends(old(self)),
            final(self).len == old(self).len + 1,
            id == old(self).len,
            final(self).expr(id) == upsample_2x(
                old(self).expr(x),
                batch as nat,
                channels as nat,
                h as nat,
                w as nat,
            ),
            final(self).parameters() == old(self).parameters(),
            final(self).inputs() == old(self).inputs(),
    {
        let ghost before = *self;
        let id = self.len;
        let call = Call::Upsample2x { x, batch, channels, h, w };
        proof {
            reveal(call_ok);
            reveal(call_nodes);
            reveal(denote);
        }
        self.push(call, 1);
        proof {
            let more = call_nodes(call, before.nodes());
            assert(before.inputs() + call_input(call) =~= before.inputs());
            lemma_denote_new(before.nodes(), more, 0);
            reveal_with_fuel(parameters, 2);
            assert(more.drop_last() =~= Seq::<NodeView>::empty());
            assert(before.parameters() + parameters(more) =~= before.parameters());
            assert(self.expr(id).args =~= seq![before.expr(x)]);
        }
        id
    }

    /// `a` and `b` joined along the channel axis.
    pub(crate) fn concat(
        &mut self,
        a: u32,
        b: u32,
        batch: u32,
        channels_a: u32,
        channels_b: u32,
        spatial: u32,
    ) -> (id: u32)
        requires
            old(self).wf(),
            old(self).room(1),
            a < old(self).len && b < old(self).len,
            old(self).expr(a).shape == seq![
                batch as nat * channels_a as nat * spatial as nat,
            ],
            old(self).expr(b).shape == seq![
                batch as nat * channels_b as nat * spatial as nat,
            ],
            channels_a + channels_b <= u32::MAX,
            batch as nat * ((channels_a + channels_b) as nat) <= usize::MAX,
            batch as nat * ((channels_a + channels_b) as nat) * (spatial as nat) <= usize::MAX,
        ensures
            final(self).wf(),
            final(self).extends(old(self)),
            final(self).len == old(self).len + 1,
            id == old(self).len,
            final(self).expr(id) == concat(
                old(self).expr(a),
                old(self).expr(b),
                batch as nat,
                channels_a as nat,
                channels_b as nat,
                spatial as nat,
            ),
            final(self).parameters() == old(self).parameters(),
            final(self).inputs() == old(self).inputs(),
    {
        let ghost before = *self;
        let id = self.len;
        let call = Call::Concat { a, b, batch, channels_a, channels_b, spatial };
        proof {
            reveal(call_ok);
            reveal(call_nodes);
            reveal(denote);
        }
        self.push(call, 1);
        proof {
            let more = call_nodes(call, before.nodes());
            assert(before.inputs() + call_input(call) =~= before.inputs());
            lemma_denote_new(before.nodes(), more, 0);
            reveal_with_fuel(parameters, 2);
            assert(more.drop_last() =~= Seq::<NodeView>::empty());
            assert(before.parameters() + parameters(more) =~= before.parameters());
            assert(self.expr(id).args =~= seq![before.expr(a), before.expr(b)]);
        }
        id
    }

    /// The mean squared difference of `pred` and `target`.
    pub(crate) fn mse_loss(&mut self, pred: u32, target: u32) -> (id: u32)
        requires
            old(self).wf(),
            old(self).room(4),
            pred < old(self).len && target < old(self).len,
            old(self).expr(pred).shape == old(self).expr(target).shape,
        ensures
            final(self).wf(),
            final(self).extends(old(self)),
            final(self).len == old(self).len + 4,
            id == old(self).len + 3,
            final(self).expr(id) == mse_loss(old(self).expr(pred), old(self).expr(target)),
            final(self).parameters() == old(self).parameters(),
            final(self).inputs() == old(self).inputs(),
    {
        let ghost before = *self;
        let id = self.len + 3;
        let call = Call::MseLoss { pred, target };
        proof {
            reveal(call_ok);
            reveal(call_nodes);
            reveal(denote);
        }
        self.push(call, 4);
        proof {
            let more = call_nodes(call, before.nodes());
            assert(before.inputs() + call_input(call) =~= before.inputs());
            lemma_denote_new(before.nodes(), more, 0);
            lemma_denote_new(before.nodes(), more, 1);
            lemma_denote_new(before.nodes(), more, 2);
            lemma_denote_new(before.nodes(), more, 3);
            reveal_with_fuel(parameters, 5);
            assert(more.drop_last() =~= more.subrange(0, 3));
            assert(more.subrange(0, 3).drop_last() =~= more.subrange(0, 2));
            assert(more.subrange(0, 2).drop_last() =~= more.subrange(0, 1));
            assert(more.subrange(0, 1).drop_last() =~= Seq::<NodeView>::empty());
            assert(before.parameters() + parameters(more) =~= before.parameters());
            let neg = (id - 3) as u32;
            let diff = (id - 2) as u32;
            let sq = (id - 1) as u32;
            assert(self.expr(neg).args =~= seq![before.expr(target)]);
            assert(self.expr(diff).args =~= seq![before.expr(pred), self.expr(neg)]);
            assert(self.expr(sq).args =~= seq![self.expr(diff), self.expr(diff)]);
            assert(self.expr(id).args =~= seq![self.expr(sq)]);
        }
        id
    }
}

} // verus!
