//! The conditional diffusion U-Net.
//!
//! The network takes the noisy data with its conditioning channels, a
//! timestep embedding and a style class. Every residual block is shifted, per
//! sample and channel, by a projection of the conditioning embedding.
//!
//! Graph inputs:
//! - `x`: `[batch * (data_channels + cond_channels) * res * res]`
//! - `t_emb`: `[batch, t_dim]`, the sinusoidal embedding of the timestep
//! - `class`: `[batch]`, the style of each sample; the last class is the null
//!   class of classifier-free guidance
//! - `v_target`: `[batch * data_channels * res * res]`, training graph only

use crate::graph::{
    concat, conv2d, conv_extent, dense, dims, elements, elements_fit, embedding, group_norm, leaf,
    matmul, mse_loss, parameter, reshape, silu, sum, upsample_2x, volume, volume_fits, Expr,
    InputView, OpView, Plan,
};
use crate::sampler::{COARSE_CHANNELS, FULL_CHANNELS};
use crate::text::{decimal, decimal_string, join};
use vstd::prelude::*;

verus! {

/// Shape of the network.
pub struct UNetConfig {
    pub batch: u32,
    pub data_channels: u32,
    pub cond_channels: u32,
    pub base_channels: u32,
    pub num_levels: usize,
    pub resolution: u32,
    pub num_groups: u32,
    /// Bit pattern of the single-precision epsilon of group normalisation.
    pub gn_eps_bits: u32,
    pub t_dim: usize,
    pub emb_dim: usize,
    /// With the trailing null class.
    pub num_classes: usize,
}

/// A standard deviation.
#[derive(Clone, Copy, Debug, PartialEq, Eq, Structural)]
pub enum StdDev {
    /// The square root of 2 / n.
    RootTwoOver(usize),
    /// n / 100.
    Hundredths(u32),
}

/// How a parameter starts out.
#[derive(Clone, Copy, Debug, PartialEq, Eq, Structural)]
pub enum Init {
    Zero,
    One,
    /// Normal with the given standard deviation.
    Normal(StdDev),
}

/// The initialisers of the parameters, in the order in which they are
/// declared.
pub type Inits = Vec<(String, Init)>;

/// A parameter of the network: its name, its shape and how it starts out.
pub struct ParamView {
    pub name: Seq<char>,
    pub shape: Seq<nat>,
    pub init: Init,
}

/// Names and shapes of some parameters.
pub open spec fn shapes_of(ps: Seq<ParamView>) -> Seq<(Seq<char>, Seq<nat>)> {
    ps.map_values(|p: ParamView| (p.name, p.shape))
}

/// Names and initialisers of some parameters.
pub open spec fn inits_of(ps: Seq<ParamView>) -> Seq<(Seq<char>, Init)> {
    ps.map_values(|p: ParamView| (p.name, p.init))
}

/// A list of initialisers as plain values.
pub open spec fn init_list(inits: Seq<(String, Init)>) -> Seq<(Seq<char>, Init)> {
    inits.map_values(|p: (String, Init)| (p.0@, p.1))
}

/// A dense layer applied to `x`.
pub open spec fn linear_layer(x: Expr, name: Seq<char>, in_f: nat, out_f: nat) -> Expr {
    dense(
        x,
        parameter(name + ".weight"@, seq![in_f, out_f]),
        parameter(name + ".bias"@, seq![out_f]),
    )
}

/// A convolution of a square of the given side, with the kernel `name`.
pub open spec fn conv_layer(
    x: Expr,
    name: Seq<char>,
    batch: nat,
    in_c: nat,
    side: nat,
    out_c: nat,
    k: nat,
    stride: nat,
    pad: nat,
) -> Expr {
    conv2d(
        x,
        parameter(name, seq![volume(out_c, in_c, k, k)]),
        batch,
        in_c,
        side,
        side,
        out_c,
        k,
        stride,
        pad,
    )
}

/// Normalise, activate, then convolve with a 3x3 kernel.
pub open spec fn norm_conv_layer(
    x: Expr,
    norm: Seq<char>,
    conv: Seq<char>,
    batch: nat,
    in_c: nat,
    side: nat,
    out_c: nat,
    groups: nat,
    eps_bits: u32,
) -> Expr {
    conv_layer(
        silu(
            group_norm(
                x,
                parameter(norm + ".weight"@, seq![in_c]),
                parameter(norm + ".bias"@, seq![in_c]),
                in_c,
                side * side,
                groups,
                eps_bits,
            ),
        ),
        conv,
        batch,
        in_c,
        side,
        out_c,
        3,
        1,
        1,
    )
}

/// Parameters of a normalisation followed by a 3x3 convolution.
pub open spec fn norm_conv_params(
    norm: Seq<char>,
    conv: Seq<char>,
    in_c: nat,
    out_c: nat,
    init: Init,
) -> Seq<ParamView> {
    seq![
        ParamView { name: norm + ".weight"@, shape: seq![in_c], init: Init::One },
        ParamView { name: norm + ".bias"@, shape: seq![in_c], init: Init::Zero },
        ParamView { name: conv, shape: seq![volume(out_c, in_c, 3, 3)], init },
    ]
}

/// A normal initialiser of variance 2 / `fan`.
pub open spec fn fan_init(fan: nat) -> Init {
    Init::Normal(StdDev::RootTwoOver(fan as usize))
}

/// `x` shifted per sample and channel by a projection of `emb`.
pub open spec fn film_layer(
    x: Expr,
    emb: Expr,
    prefix: Seq<char>,
    batch: nat,
    emb_dim: nat,
    c: nat,
    side: nat,
) -> Expr {
    let e = linear_layer(emb, prefix + ".emb_proj"@, emb_dim, c);
    let col = reshape(e, seq![batch * c, 1]);
    let plane = matmul(col, leaf(OpView::Ones, seq![1, side * side]));
    sum(x, reshape(plane, seq![batch * c * (side * side)]))
}

/// A residual block from `in_c` to `out_c` channels on a square.
pub open spec fn resblock_layer(
    x: Expr,
    emb: Expr,
    prefix: Seq<char>,
    batch: nat,
    emb_dim: nat,
    groups: nat,
    eps_bits: u32,
    in_c: nat,
    out_c: nat,
    side: nat,
) -> Expr {
    let h = norm_conv_layer(
        x,
        prefix + ".norm1"@,
        prefix + ".conv1.weight"@,
        batch,
        in_c,
        side,
        out_c,
        groups,
        eps_bits,
    );
    let h = film_layer(h, emb, prefix, batch, emb_dim, out_c, side);
    let h = norm_conv_layer(
        h,
        prefix + ".norm2"@,
        prefix + ".conv2.weight"@,
        batch,
        out_c,
        side,
        out_c,
        groups,
        eps_bits,
    );
    if in_c == out_c {
        sum(x, h)
    } else {
        sum(
            conv_layer(x, prefix + ".res_conv.weight"@, batch, in_c, side, out_c, 1, 1, 0),
            h,
        )
    }
}

/// Parameters of a residual block.
pub open spec fn resblock_params(
    prefix: Seq<char>,
    emb_dim: nat,
    in_c: nat,
    out_c: nat,
) -> Seq<ParamView> {
    norm_conv_params(
        prefix + ".norm1"@,
        prefix + ".conv1.weight"@,
        in_c,
        out_c,
        fan_init(in_c * 3 * 3),
    ) + seq![
        ParamView {
            name: prefix + ".emb_proj"@ + ".weight"@,
            shape: seq![emb_dim, out_c],
            init: Init::Zero,
        },
        ParamView {
            name: prefix + ".emb_proj"@ + ".bias"@,
            shape: seq![out_c],
            init: Init::Zero,
        },
    ] + norm_conv_params(
        prefix + ".norm2"@,
        prefix + ".conv2.weight"@,
        out_c,
        out_c,
        fan_init(out_c * 3 * 3),
    ) + (if in_c == out_c {
        seq![]
    } else {
        seq![
            ParamView {
                name: prefix + ".res_conv.weight"@,
                shape: seq![volume(out_c, in_c, 1, 1)],
                init: fan_init(in_c * 1 * 1),
            },
        ]
    })
}

/// The sizes of a residual block fit the machine words they are computed in.
pub open spec fn block_fits(batch: nat, in_c: nat, out_c: nat, side: nat) -> bool {
    &&& 1 <= side
    &&& side * side <= u32::MAX
    &&& in_c * 9 <= u32::MAX
    &&& out_c * 9 <= u32::MAX
    &&& out_c * in_c * 9 <= u32::MAX
    &&& out_c * out_c * 9 <= u32::MAX
    &&& batch * out_c <= u32::MAX
    &&& volume_fits(batch, in_c, side, side)
    &&& volume_fits(batch, out_c, side, side)
}

impl UNetConfig {
    /// Channels of the network's input.
    pub open spec fn input_channels(&self) -> nat {
        (self.data_channels + self.cond_channels) as nat
    }

    /// Channels of level `l`: doubled with every level.
    pub open spec fn channels(&self, l: nat) -> nat
        decreases l,
    {
        if l == 0 {
            self.base_channels as nat
        } else {
            2 * self.channels((l - 1) as nat)
        }
    }

    /// Side of level `l`: halved, rounding up, with every level.
    pub open spec fn side(&self, l: nat) -> nat
        decreases l,
    {
        if l == 0 {
            self.resolution as nat
        } else {
            conv_extent(self.side((l - 1) as nat), 3, 2, 1)
        }
    }

    /// Channels that enter the encoder block of level `l`.
    pub open spec fn enc_in(&self, l: nat) -> nat {
        if l == 0 {
            self.base_channels as nat
        } else {
            self.channels((l - 1) as nat)
        }
    }

    /// The deepest level, or the topmost where there is none.
    pub open spec fn bottom(&self) -> nat {
        if self.num_levels == 0 {
            0
        } else {
            (self.num_levels - 1) as nat
        }
    }

    /// Channels that come up from below into the decoder of level `l`.
    pub open spec fn below(&self, l: nat) -> nat {
        if l + 1 >= self.num_levels {
            self.channels(l)
        } else {
            self.channels(l + 1)
        }
    }

    /// The sizes of level `l` fit, and halving its side loses nothing.
    pub open spec fn level_fits(&self, l: nat) -> bool {
        &&& block_fits(self.batch as nat, self.enc_in(l), self.channels(l), self.side(l))
        &&& block_fits(
            self.batch as nat,
            self.below(l) + self.channels(l),
            self.channels(l),
            self.side(l),
        )
        &&& l + 1 < self.num_levels ==> self.side(l) == 2 * self.side(l + 1)
    }

    /// The sizes of the network fit the machine words that they are computed
    /// in, and every level but the deepest has an even side.
    pub open spec fn fits(&self) -> bool {
        let batch = self.batch as nat;
        let res = self.resolution as nat;
        let base = self.base_channels as nat;
        &&& self.num_levels <= 32
        &&& self.t_dim + self.emb_dim <= usize::MAX
        &&& self.emb_dim + self.emb_dim <= usize::MAX
        &&& self.input_channels() * 9 <= u32::MAX
        &&& base * self.input_channels() * 9 <= u32::MAX
        &&& batch * self.input_channels() <= u32::MAX
        &&& batch * self.input_channels() * res <= u32::MAX
        &&& volume(batch, self.input_channels(), res, res) <= u32::MAX
        &&& block_fits(batch, base, base, res)
        &&& self.data_channels as nat * base * 9 <= u32::MAX
        &&& volume_fits(batch, self.data_channels as nat, res, res)
        &&& forall|l: nat| l < self.num_levels ==> #[trigger] self.level_fits(l)
    }

    /// The embedding of timestep and class that conditions every block.
    pub open spec fn embedding_layer(&self) -> Expr {
        let t = linear_layer(
            leaf(OpView::Input { name: "t_emb"@ }, seq![self.batch as nat, self.t_dim as nat]),
            "cond.t_proj"@,
            self.t_dim as nat,
            self.emb_dim as nat,
        );
        let c = embedding(
            leaf(OpView::InputU32 { name: "class"@ }, seq![self.batch as nat]),
            parameter(
                "cond.class_table"@,
                seq![self.num_classes as nat, self.emb_dim as nat],
            ),
        );
        silu(
            linear_layer(
                silu(sum(t, c)),
                "cond.trunk"@,
                self.emb_dim as nat,
                self.emb_dim as nat,
            ),
        )
    }

    /// Parameters of the conditioning embedding.
    pub open spec fn embedding_params(&self) -> Seq<ParamView> {
        let t = self.t_dim as nat;
        let e = self.emb_dim as nat;
        seq![
            ParamView {
                name: "cond.t_proj"@ + ".weight"@,
                shape: seq![t, e],
                init: fan_init(t + e),
            },
            ParamView { name: "cond.t_proj"@ + ".bias"@, shape: seq![e], init: Init::Zero },
            ParamView {
                name: "cond.class_table"@,
                shape: seq![self.num_classes as nat, e],
                init: Init::Normal(StdDev::Hundredths(2)),
            },
            ParamView {
                name: "cond.trunk"@ + ".weight"@,
                shape: seq![e, e],
                init: fan_init(e + e),
            },
            ParamView { name: "cond.trunk"@ + ".bias"@, shape: seq![e], init: Init::Zero },
        ]
    }

    /// The convolution that brings the input to the base channels.
    pub open spec fn stem(&self) -> Expr {
        let res = self.resolution as nat;
        conv_layer(
            leaf(
                OpView::Input { name: "x"@ },
                seq![volume(self.batch as nat, self.input_channels(), res, res)],
            ),
            "conv_in.weight"@,
            self.batch as nat,
            self.input_channels(),
            res,
            self.base_channels as nat,
            3,
            1,
            1,
        )
    }

    /// A residual block of this network.
    pub open spec fn block(
        &self,
        x: Expr,
        prefix: Seq<char>,
        in_c: nat,
        out_c: nat,
        side: nat,
    ) -> Expr {
        resblock_layer(
            x,
            self.embedding_layer(),
            prefix,
            self.batch as nat,
            self.emb_dim as nat,
            self.num_groups as nat,
            self.gn_eps_bits,
            in_c,
            out_c,
            side,
        )
    }

    /// What the encoder block of level `l` gives: the input of the next level
    /// down and, across, of the decoder.
    #[verifier::opaque]
    pub open spec fn skip(&self, l: nat) -> Expr
        decreases l,
    {
        let x = if l == 0 {
            self.stem()
        } else {
            self.halved((l - 1) as nat, self.skip((l - 1) as nat))
        };
        self.block(x, level_name("encoder."@, l), self.enc_in(l), self.channels(l), self.side(l))
    }

    /// The output of the encoder block of level `l`, at half the side.
    pub open spec fn halved(&self, l: nat, skip: Expr) -> Expr {
        conv_layer(
            skip,
            downsample_name(l),
            self.batch as nat,
            self.channels(l),
            self.side(l),
            self.channels(l),
            3,
            2,
            1,
        )
    }

    /// The block between encoder and decoder.
    pub open spec fn middle(&self) -> Expr {
        let l = self.bottom();
        self.block(
            if self.num_levels == 0 {
                self.stem()
            } else {
                self.skip(l)
            },
            "middle.resblock"@,
            self.channels(l),
            self.channels(l),
            self.side(l),
        )
    }

    /// What comes out of the decoder block of level `l`.
    #[verifier::opaque]
    pub open spec fn decoded(&self, l: nat) -> Expr
        decreases self.num_levels - l,
    {
        let up = if l + 1 >= self.num_levels {
            self.middle()
        } else {
            upsample_2x(
                self.decoded(l + 1),
                self.batch as nat,
                self.channels(l + 1),
                self.side(l + 1),
                self.side(l + 1),
            )
        };
        self.block(
            concat(
                up,
                self.skip(l),
                self.batch as nat,
                self.below(l),
                self.channels(l),
                self.side(l) * self.side(l),
            ),
            level_name("decoder."@, l),
            self.below(l) + self.channels(l),
            self.channels(l),
            self.side(l),
        )
    }

    /// The prediction of the network.
    pub open spec fn prediction(&self) -> Expr {
        norm_conv_layer(
            if self.num_levels == 0 {
                self.middle()
            } else {
                self.decoded(0)
            },
            "conv_out.norm"@,
            "conv_out.weight"@,
            self.batch as nat,
            self.base_channels as nat,
            self.resolution as nat,
            self.data_channels as nat,
            self.num_groups as nat,
            self.gn_eps_bits,
        )
    }

    /// Parameters of the encoder above level `l`.
    #[verifier::opaque]
    pub open spec fn encoder_params(&self, l: nat) -> Seq<ParamView>
        decreases l,
    {
        if l == 0 {
            Seq::empty()
        } else {
            let i = (l - 1) as nat;
            self.encoder_params(i) + resblock_params(
                level_name("encoder."@, i),
                self.emb_dim as nat,
                self.enc_in(i),
                self.channels(i),
            ) + (if l < self.num_levels {
                seq![
                    ParamView {
                        name: downsample_name(i),
                        shape: seq![volume(self.channels(i), self.channels(i), 3, 3)],
                        init: fan_init(self.channels(i) * 3 * 3),
                    },
                ]
            } else {
                seq![]
            })
        }
    }

    /// Parameters of the decoder from the deepest level up to level `l`.
    #[verifier::opaque]
    pub open spec fn decoder_params(&self, l: nat) -> Seq<ParamView>
        decreases self.num_levels - l,
    {
        if l >= self.num_levels {
            Seq::empty()
        } else {
            self.decoder_params(l + 1) + resblock_params(
                level_name("decoder."@, l),
                self.emb_dim as nat,
                self.below(l) + self.channels(l),
                self.channels(l),
            )
        }
    }

    /// The inputs of the conditioning embedding.
    pub open spec fn embedding_inputs(&self) -> Seq<InputView> {
        seq![
            InputView {
                name: "t_emb"@,
                shape: seq![self.batch as nat, self.t_dim as nat],
                integer: false,
            },
            InputView { name: "class"@, shape: seq![self.batch as nat], integer: true },
        ]
    }

    /// Every input of the network, in the order of declaration.
    pub open spec fn input_list(&self) -> Seq<InputView> {
        let res = self.resolution as nat;
        seq![
            InputView {
                name: "x"@,
                shape: seq![volume(self.batch as nat, self.input_channels(), res, res)],
                integer: false,
            },
        ] + self.embedding_inputs()
    }

    /// The input of the training graph that the prediction is held against.
    pub open spec fn target_input(&self) -> InputView {
        let res = self.resolution as nat;
        InputView {
            name: "v_target"@,
            shape: seq![volume(self.batch as nat, self.data_channels as nat, res, res)],
            integer: false,
        }
    }

    /// Every parameter of the network, in the order of declaration.
    pub open spec fn params(&self) -> Seq<ParamView> {
        let bottom = self.channels(self.bottom());
        self.embedding_params() + seq![
            ParamView {
                name: "conv_in.weight"@,
                shape: seq![
                    volume(self.base_channels as nat, self.input_channels(), 3, 3),
                ],
                init: fan_init(self.input_channels() * 3 * 3),
            },
        ] + self.encoder_params(self.num_levels as nat) + resblock_params(
            "middle.resblock"@,
            self.emb_dim as nat,
            bottom,
            bottom,
        ) + self.decoder_params(0) + norm_conv_params(
            "conv_out.norm"@,
            "conv_out.weight"@,
            self.base_channels as nat,
            self.data_channels as nat,
            Init::Zero,
        )
    }

    /// More nodes than the network has.
    pub open spec fn node_bound(&self) -> nat {
        (52 * self.num_levels + 49) as nat
    }
}

/// The name of the residual block of level `l` of one side of the network.
pub open spec fn level_name(side: Seq<char>, l: nat) -> Seq<char> {
    side + decimal(l) + ".resblock"@
}

/// The name of the kernel that halves level `l`.
pub open spec fn downsample_name(l: nat) -> Seq<char> {
    "encoder."@ + decimal(l) + ".downsample.weight"@
}

/// Declares a parameter and records its initialiser.
fn param(g: &mut Plan, inits: &mut Inits, name: &str, shape: Vec<usize>, init: Init) -> (id: u32)
    requires
        old(g).wf(),
        old(g).room(1),
    ensures
        final(g).wf(),
        final(g).extends(old(g)),
        final(g).len == old(g).len + 1,
        id == old(g).len,
        final(g).expr(id) == parameter(name@, dims(shape@)),
        final(g).parameters() == old(g).parameters().push((name@, dims(shape@))),
        final(g).inputs() == old(g).inputs(),
        init_list(final(inits)@) == init_list(old(inits)@).push((name@, init)),
{
    inits.push((name.to_string(), init));
    assert(init_list(inits@) =~= init_list(old(inits)@).push((name@, init)));
    g.parameter(name, shape)
}

/// Declares a dense layer and records its initialisers.
fn linear(
    g: &mut Plan,
    inits: &mut Inits,
    name: &str,
    in_f: usize,
    out_f: usize,
    init: Init,
) -> (wb: (u32, u32))
    requires
        old(g).wf(),
        old(g).room(2),
    ensures
        final(g).wf(),
        final(g).extends(old(g)),
        final(g).len == old(g).len + 2,
        wb.0 == old(g).len,
        wb.1 == old(g).len + 1,
        final(g).expr(wb.0) == parameter(name@ + ".weight"@, seq![in_f as nat, out_f as nat]),
        final(g).expr(wb.1) == parameter(name@ + ".bias"@, seq![out_f as nat]),
        final(g).parameters() == old(g).parameters().push(
            (name@ + ".weight"@, seq![in_f as nat, out_f as nat]),
        ).push((name@ + ".bias"@, seq![out_f as nat])),
        final(g).inputs() == old(g).inputs(),
        init_list(final(inits)@) == init_list(old(inits)@).push((name@ + ".weight"@, init)).push(
            (name@ + ".bias"@, Init::Zero),
        ),
{
    inits.push((join(name, ".weight"), init));
    inits.push((join(name, ".bias"), Init::Zero));
    assert(init_list(inits@) =~= init_list(old(inits)@).push((name@ + ".weight"@, init)).push(
        (name@ + ".bias"@, Init::Zero),
    ));
    g.linear(name, in_f, out_f)
}

/// Declares the kernel of a convolution and records its initialiser.
fn conv(
    g: &mut Plan,
    inits: &mut Inits,
    name: &str,
    in_c: u32,
    out_c: u32,
    k: u32,
    zero: bool,
) -> (id: u32)
    requires
        old(g).wf(),
        old(g).room(1),
        k == 1 || k == 3,
        in_c * 9 <= u32::MAX,
        out_c as nat * in_c as nat * 9 <= u32::MAX,
    ensures
        final(g).wf(),
        final(g).extends(old(g)),
        final(g).len == old(g).len + 1,
        id == old(g).len,
        final(g).expr(id) == parameter(
            name@,
            seq![volume(out_c as nat, in_c as nat, k as nat, k as nat)],
        ),
        final(g).parameters() == old(g).parameters().push(
            (name@, seq![volume(out_c as nat, in_c as nat, k as nat, k as nat)]),
        ),
        final(g).inputs() == old(g).inputs(),
        init_list(final(inits)@) == init_list(old(inits)@).push(
            (
                name@,
                if zero {
                    Init::Zero
                } else {
                    fan_init((in_c * k * k) as nat)
                },
            ),
        ),
{
    let fan_in: u32 = in_c * k * k;
    let init = if zero {
        Init::Zero
    } else {
        Init::Normal(StdDev::RootTwoOver(fan_in as usize))
    };
    proof {
        let p = out_c as nat * in_c as nat;
        assert(p * 3 <= u32::MAX && p * 1 <= u32::MAX);
        assert(p * k as nat <= u32::MAX) by (nonlinear_arith)
            requires
                k == 1 || k == 3,
                p * 9 <= u32::MAX,
        ;
        assert(p * k as nat * k as nat <= u32::MAX) by (nonlinear_arith)
            requires
                k == 1 || k == 3,
                p * 9 <= u32::MAX,
        ;
    }
    let size: u32 = out_c * in_c * k * k;
    let shape = vec![size as usize];
    assert(dims(shape@) =~= seq![volume(out_c as nat, in_c as nat, k as nat, k as nat)]);
    param(g, inits, name, shape, init)
}

/// The extent of a square convolution that keeps the side, and products over
/// a square written two ways.
proof fn lemma_square(batch: nat, c: nat, side: nat)
    requires
        1 <= side,
        side * side <= u32::MAX,
    ensures
        side < 65536,
        conv_extent(side, 3, 1, 1) == side,
        conv_extent(side, 1, 1, 0) == side,
        batch * c * (side * side) == volume(batch, c, side, side),
{
    assert(side < 65536) by (nonlinear_arith)
        requires
            side * side <= u32::MAX,
    ;
    assert(batch * c * (side * side) == batch * c * side * side) by (nonlinear_arith);
}

/// A kernel whose size fits 32 bits has leading products that fit too.
proof fn lemma_kernel_fits(out_c: nat, in_c: nat)
    requires
        out_c * in_c * 9 <= u32::MAX,
    ensures
        volume_fits(out_c, in_c, 3, 3),
        volume_fits(out_c, in_c, 1, 1),
{
}

/// Element counts of the shapes with one and two extents.
proof fn lemma_elements(a: nat, b: nat)
    ensures
        elements(seq![a]) == a,
        elements(seq![a, b]) == a * b,
        a <= usize::MAX ==> elements_fit(seq![a]),
        a <= usize::MAX && a * b <= usize::MAX ==> elements_fit(seq![a, b]),
{
    reveal_with_fuel(elements, 3);
    reveal_with_fuel(elements_fit, 3);
    assert(seq![a].drop_last() =~= Seq::<nat>::empty());
    assert(seq![a, b].drop_last() =~= seq![a]);
    assert(1 * a == a);
    assert(elements(Seq::<nat>::empty()) == 1);
    assert(elements(seq![a]) == 1nat * a);
    assert(elements(seq![a, b]) == a * b);
}

/// Normalises and activates `x`, then convolves it with a 3x3 kernel.
fn norm_conv(
    g: &mut Plan,
    inits: &mut Inits,
    x: u32,
    norm: &str,
    conv_name: &str,
    batch: u32,
    in_c: u32,
    side: u32,
    out_c: u32,
    groups: u32,
    eps_bits: u32,
    zero: bool,
) -> (id: u32)
    requires
        old(g).wf(),
        old(g).room(6),
        x < old(g).len,
        old(g).expr(x).shape == seq![
            volume(batch as nat, in_c as nat, side as nat, side as nat),
        ],
        1 <= side,
        side as nat * side as nat <= u32::MAX,
        in_c * 9 <= u32::MAX,
        out_c as nat * in_c as nat * 9 <= u32::MAX,
        volume_fits(batch as nat, in_c as nat, side as nat, side as nat),
        volume_fits(batch as nat, out_c as nat, side as nat, side as nat),
    ensures
        final(g).wf(),
        final(g).extends(old(g)),
        final(g).len == old(g).len + 6,
        id < final(g).len,
        final(g).expr(id) == norm_conv_layer(
            old(g).expr(x),
            norm@,
            conv_name@,
            batch as nat,
            in_c as nat,
            side as nat,
            out_c as nat,
            groups as nat,
            eps_bits,
        ),
        final(g).parameters() == old(g).parameters() + shapes_of(
            norm_conv_params(norm@, conv_name@, in_c as nat, out_c as nat, Init::Zero),
        ),
        final(g).inputs() == old(g).inputs(),
        init_list(final(inits)@) == init_list(old(inits)@) + inits_of(
            norm_conv_params(
                norm@,
                conv_name@,
                in_c as nat,
                out_c as nat,
                if zero {
                    Init::Zero
                } else {
                    fan_init(in_c as nat * 3 * 3)
                },
            ),
        ),
{
    proof {
        lemma_square(batch as nat, in_c as nat, side as nat);
        lemma_kernel_fits(out_c as nat, in_c as nat);
    }
    let weight_shape = vec![in_c as usize];
    let bias_shape = vec![in_c as usize];
    assert(dims(weight_shape@) =~= seq![in_c as nat]);
    assert(dims(bias_shape@) =~= seq![in_c as nat]);
    let weight_name = join(norm, ".weight");
    let bias_name = join(norm, ".bias");
    let weight = param(g, inits, weight_name.as_str(), weight_shape, Init::One);
    let bias = param(g, inits, bias_name.as_str(), bias_shape, Init::Zero);
    let h = g.group_norm(x, weight, bias, batch, in_c, side * side, groups, eps_bits);
    let h = g.silu(h);
    let kernel = conv(g, inits, conv_name, in_c, out_c, 3, zero);
    let id = g.conv2d(h, kernel, batch, in_c, side, side, out_c, 3, 1, 1);
    proof {
        let ps = norm_conv_params(
            norm@,
            conv_name@,
            in_c as nat,
            out_c as nat,
            if zero {
                Init::Zero
            } else {
                fan_init(in_c as nat * 3 * 3)
            },
        );
        assert(g.parameters() =~= old(g).parameters() + shapes_of(
            norm_conv_params(norm@, conv_name@, in_c as nat, out_c as nat, Init::Zero),
        ));
        assert(init_list(inits@) =~= init_list(old(inits)@) + inits_of(ps));
    }
    id
}

/// Shifts `x` per sample and channel by a projection of `emb`.
///
/// The projection starts at zero, so that training starts from the
/// unconditional model.
fn film_shift(
    g: &mut Plan,
    inits: &mut Inits,
    x: u32,
    emb: u32,
    prefix: &str,
    cfg: &UNetConfig,
    side: u32,
    c: u32,
) -> (id: u32)
    requires
        old(g).wf(),
        old(g).room(9),
        x < old(g).len,
        emb < old(g).len,
        1 <= side,
        side as nat * side as nat <= u32::MAX,
        cfg.batch as nat * c as nat <= u32::MAX,
        volume_fits(cfg.batch as nat, c as nat, side as nat, side as nat),
        old(g).expr(x).shape == seq![
            volume(cfg.batch as nat, c as nat, side as nat, side as nat),
        ],
        old(g).expr(emb).shape == seq![cfg.batch as nat, cfg.emb_dim as nat],
    ensures
        final(g).wf(),
        final(g).extends(old(g)),
        final(g).len == old(g).len + 9,
        id < final(g).len,
        final(g).expr(id) == film_layer(
            old(g).expr(x),
            old(g).expr(emb),
            prefix@,
            cfg.batch as nat,
            cfg.emb_dim as nat,
            c as nat,
            side as nat,
        ),
        final(g).parameters() == old(g).parameters() + seq![
            (prefix@ + ".emb_proj"@ + ".weight"@, seq![cfg.emb_dim as nat, c as nat]),
            (prefix@ + ".emb_proj"@ + ".bias"@, seq![c as nat]),
        ],
        final(g).inputs() == old(g).inputs(),
        init_list(final(inits)@) == init_list(old(inits)@) + seq![
            (prefix@ + ".emb_proj"@ + ".weight"@, Init::Zero),
            (prefix@ + ".emb_proj"@ + ".bias"@, Init::Zero),
        ],
{
    let ghost b = cfg.batch as nat;
    let ghost s = side as nat * side as nat;
    proof {
        lemma_square(b, c as nat, side as nat);
        lemma_elements(b, c as nat);
        lemma_elements(b * c as nat, 1);
        lemma_elements(b * c as nat, s);
        lemma_elements(b * c as nat * s, 1);
    }
    let name = join(prefix, ".emb_proj");
    let (weight, bias) = linear(g, inits, name.as_str(), cfg.emb_dim, c as usize, Init::Zero);
    let e = g.forward(name.as_str(), weight, bias, emb);
    let rows: usize = (cfg.batch * c) as usize;
    let col_shape = vec![rows, 1];
    assert(dims(col_shape@) =~= seq![b * c as nat, 1]);
    assert(g.expr(e).shape =~= seq![b, c as nat]);
    let col = g.reshape(e, col_shape);
    let spatial: usize = (side * side) as usize;
    let ones = g.ones(spatial);
    let plane = g.matmul(col, ones);
    let flat_shape = vec![rows * spatial];
    assert(dims(flat_shape@) =~= seq![b * c as nat * s]);
    assert(g.expr(plane).shape =~= seq![b * c as nat, s]);
    let flat = g.reshape(plane, flat_shape);
    let id = g.sum(x, flat);
    proof {
        assert(g.parameters() =~= old(g).parameters() + seq![
            (prefix@ + ".emb_proj"@ + ".weight"@, seq![cfg.emb_dim as nat, c as nat]),
            (prefix@ + ".emb_proj"@ + ".bias"@, seq![c as nat]),
        ]);
        assert(init_list(inits@) =~= init_list(old(inits)@) + seq![
            (prefix@ + ".emb_proj"@ + ".weight"@, Init::Zero),
            (prefix@ + ".emb_proj"@ + ".bias"@, Init::Zero),
        ]);
    }
    id
}

/// A residual block from `in_c` to `out_c` channels.
fn resblock(
    g: &mut Plan,
    inits: &mut Inits,
    x: u32,
    emb: u32,
    prefix: &str,
    cfg: &UNetConfig,
    side: u32,
    in_c: u32,
    out_c: u32,
) -> (id: u32)
    requires
        old(g).wf(),
        old(g).room(24),
        x < old(g).len,
        emb < old(g).len,
        block_fits(cfg.batch as nat, in_c as nat, out_c as nat, side as nat),
        old(g).expr(x).shape == seq![
            volume(cfg.batch as nat, in_c as nat, side as nat, side as nat),
        ],
        old(g).expr(emb).shape == seq![cfg.batch as nat, cfg.emb_dim as nat],
    ensures
        final(g).wf(),
        final(g).extends(old(g)),
        final(g).len <= old(g).len + 24,
        id < final(g).len,
        final(g).expr(id) == resblock_layer(
            old(g).expr(x),
            old(g).expr(emb),
            prefix@,
            cfg.batch as nat,
            cfg.emb_dim as nat,
            cfg.num_groups as nat,
            cfg.gn_eps_bits,
            in_c as nat,
            out_c as nat,
            side as nat,
        ),
        final(g).expr(id).shape == seq![
            volume(cfg.batch as nat, out_c as nat, side as nat, side as nat),
        ],
        final(g).parameters() == old(g).parameters() + shapes_of(
            resblock_params(prefix@, cfg.emb_dim as nat, in_c as nat, out_c as nat),
        ),
        final(g).inputs() == old(g).inputs(),
        init_list(final(inits)@) == init_list(old(inits)@) + inits_of(
            resblock_params(prefix@, cfg.emb_dim as nat, in_c as nat, out_c as nat),
        ),
{
    proof {
        lemma_square(cfg.batch as nat, in_c as nat, side as nat);
        lemma_square(cfg.batch as nat, out_c as nat, side as nat);
    }
    let batch = cfg.batch;
    let norm1 = join(prefix, ".norm1");
    let conv1 = join(prefix, ".conv1.weight");
    let h = norm_conv(
        g,
        inits,
        x,
        norm1.as_str(),
        conv1.as_str(),
        batch,
        in_c,
        side,
        out_c,
        cfg.num_groups,
        cfg.gn_eps_bits,
        false,
    );
    let h = film_shift(g, inits, h, emb, prefix, cfg, side, out_c);
    let norm2 = join(prefix, ".norm2");
    let conv2 = join(prefix, ".conv2.weight");
    let h = norm_conv(
        g,
        inits,
        h,
        norm2.as_str(),
        conv2.as_str(),
        batch,
        out_c,
        side,
        out_c,
        cfg.num_groups,
        cfg.gn_eps_bits,
        false,
    );
    let ghost ps = resblock_params(prefix@, cfg.emb_dim as nat, in_c as nat, out_c as nat);
    if in_c == out_c {
        let id = g.sum(x, h);
        assert(g.parameters() =~= old(g).parameters() + shapes_of(ps));
        assert(init_list(inits@) =~= init_list(old(inits)@) + inits_of(ps));
        id
    } else {
        proof {
            lemma_kernel_fits(out_c as nat, in_c as nat);
        }
        let res_name = join(prefix, ".res_conv.weight");
        let kernel = conv(g, inits, res_name.as_str(), in_c, out_c, 1, false);
        let x_proj = g.conv2d(x, kernel, batch, in_c, side, side, out_c, 1, 1, 0);
        let id = g.sum(x_proj, h);
        assert(g.parameters() =~= old(g).parameters() + shapes_of(ps));
        assert(init_list(inits@) =~= init_list(old(inits)@) + inits_of(ps));
        id
    }
}

/// The initialiser of a dense layer.
fn xavier_std(in_f: usize, out_f: usize) -> (init: Init)
    requires
        in_f + out_f <= usize::MAX,
    ensures
        init == fan_init((in_f + out_f) as nat),
{
    Init::Normal(StdDev::RootTwoOver(in_f + out_f))
}

/// The conditioning trunk: the embedding of timestep and class.
fn conditioning(g: &mut Plan, inits: &mut Inits, cfg: &UNetConfig) -> (id: u32)
    requires
        old(g).wf(),
        old(g).room(16),
        cfg.t_dim + cfg.emb_dim <= usize::MAX,
        cfg.emb_dim + cfg.emb_dim <= usize::MAX,
    ensures
        final(g).wf(),
        final(g).extends(old(g)),
        final(g).len <= old(g).len + 16,
        id < final(g).len,
        final(g).expr(id) == cfg.embedding_layer(),
        final(g).expr(id).shape == seq![cfg.batch as nat, cfg.emb_dim as nat],
        final(g).parameters() == old(g).parameters() + shapes_of(cfg.embedding_params()),
        final(g).inputs() == old(g).inputs() + cfg.embedding_inputs(),
        init_list(final(inits)@) == init_list(old(inits)@) + inits_of(cfg.embedding_params()),
{
    let ghost b = cfg.batch as nat;
    let ghost e = cfg.emb_dim as nat;
    let t_shape = vec![cfg.batch as usize, cfg.t_dim];
    assert(dims(t_shape@) =~= seq![b, cfg.t_dim as nat]);
    let t_in = g.input("t_emb", t_shape);
    let t_init = xavier_std(cfg.t_dim, cfg.emb_dim);
    let (tw, tb) = linear(g, inits, "cond.t_proj", cfg.t_dim, cfg.emb_dim, t_init);
    let t_emb = g.forward("cond.t_proj", tw, tb, t_in);
    let class_shape = vec![cfg.batch as usize];
    assert(dims(class_shape@) =~= seq![b]);
    let class_in = g.input_u32("class", class_shape);
    let table_shape = vec![cfg.num_classes, cfg.emb_dim];
    assert(dims(table_shape@) =~= seq![cfg.num_classes as nat, e]);
    let table = param(
        g,
        inits,
        "cond.class_table",
        table_shape,
        Init::Normal(StdDev::Hundredths(2)),
    );
    let c_emb = g.embedding(class_in, table);
    assert(g.expr(t_emb).shape =~= seq![b, e]);
    assert(g.expr(c_emb).shape =~= seq![b, e]);
    let emb = g.sum(t_emb, c_emb);
    let emb = g.silu(emb);
    let trunk_init = xavier_std(cfg.emb_dim, cfg.emb_dim);
    let (w, bias) = linear(g, inits, "cond.trunk", cfg.emb_dim, cfg.emb_dim, trunk_init);
    let emb = g.forward("cond.trunk", w, bias, emb);
    let emb = g.silu(emb);
    assert(g.expr(emb).shape =~= seq![b, e]);
    assert(g.parameters() =~= old(g).parameters() + shapes_of(cfg.embedding_params()));
    assert(g.inputs() =~= old(g).inputs() + cfg.embedding_inputs());
    assert(init_list(inits@) =~= init_list(old(inits)@) + inits_of(cfg.embedding_params()));
    emb
}

/// The name of a level's residual block.
fn level_block_name(side: &str, level: usize) -> (name: String)
    ensures
        name@ == level_name(side@, level as nat),
{
    let digits = decimal_string(level as u64);
    let head = join(side, digits.as_str());
    join(head.as_str(), ".resblock")
}

/// Names and shapes of joined lists are joined.
proof fn lemma_params_concat(a: Seq<ParamView>, b: Seq<ParamView>)
    ensures
        shapes_of(a + b) == shapes_of(a) + shapes_of(b),
        inits_of(a + b) == inits_of(a) + inits_of(b),
{
    assert(shapes_of(a + b) =~= shapes_of(a) + shapes_of(b));
    assert(inits_of(a + b) =~= inits_of(a) + inits_of(b));
}

/// The encoder: a residual block per level, with a halving convolution
/// between two levels. Gives the last node and the outputs of all levels.
#[verifier::rlimit(40)]
fn encoder(
    g: &mut Plan,
    inits: &mut Inits,
    cfg: &UNetConfig,
    stem: u32,
    emb: u32,
) -> (r: (u32, Vec<u32>, Vec<(u32, u32)>))
    requires
        old(g).wf(),
        old(g).room((26 * cfg.num_levels) as nat),
        cfg.fits(),
        stem < old(g).len,
        emb < old(g).len,
        old(g).expr(stem) == cfg.stem(),
        old(g).expr(emb) == cfg.embedding_layer(),
        old(g).expr(emb).shape == seq![cfg.batch as nat, cfg.emb_dim as nat],
    ensures
        final(g).wf(),
        final(g).extends(old(g)),
        final(g).len <= old(g).len + 26 * cfg.num_levels,
        r.0 < final(g).len,
        final(g).expr(r.0) == (if cfg.num_levels == 0 {
            cfg.stem()
        } else {
            cfg.skip(cfg.bottom())
        }),
        r.1@.len() == cfg.num_levels,
        r.2@.len() == cfg.num_levels,
        forall|l: int|
            0 <= l < cfg.num_levels ==> {
                &&& #[trigger] r.1@[l] < final(g).len
                &&& final(g).expr(r.1@[l]) == cfg.skip(l as nat)
                &&& final(g).expr(r.1@[l]).shape == seq![
                    volume(
                        cfg.batch as nat,
                        cfg.channels(l as nat),
                        cfg.side(l as nat),
                        cfg.side(l as nat),
                    ),
                ]
            },
        forall|l: int|
            #![trigger r.2@[l]]
            0 <= l < cfg.num_levels ==> r.2@[l].0 == cfg.channels(l as nat)
                && r.2@[l].1 == cfg.side(l as nat),
        final(g).parameters() == old(g).parameters() + shapes_of(
            cfg.encoder_params(cfg.num_levels as nat),
        ),
        final(g).inputs() == old(g).inputs(),
        init_list(final(inits)@) == init_list(old(inits)@) + inits_of(
            cfg.encoder_params(cfg.num_levels as nat),
        ),
{
    let ghost g0 = *g;
    let ghost i0 = inits@;
    let levels = cfg.num_levels;
    let mut x = stem;
    let mut c = cfg.base_channels;
    let mut side = cfg.resolution;
    let mut out_c = cfg.base_channels;
    let mut skips: Vec<u32> = Vec::new();
    let mut sizes: Vec<(u32, u32)> = Vec::new();
    let mut level: usize = 0;
    proof {
        reveal(UNetConfig::encoder_params);
        assert(g.parameters() =~= g0.parameters() + shapes_of(cfg.encoder_params(0)));
        assert(init_list(inits@) =~= init_list(i0) + inits_of(cfg.encoder_params(0)));
        lemma_square(cfg.batch as nat, cfg.base_channels as nat, cfg.resolution as nat);
    }
    while level < levels
        invariant
            levels == cfg.num_levels,
            cfg.fits(),
            level <= levels,
            g.wf(),
            g.extends(&g0),
            g0.len + 26 * levels <= u32::MAX,
            g.len <= g0.len + 26 * level,
            stem < g0.len,
            emb < g0.len,
            g0.expr(emb) == cfg.embedding_layer(),
            g0.expr(emb).shape == seq![cfg.batch as nat, cfg.emb_dim as nat],
            x < g.len,
            level == 0 ==> g.expr(x) == cfg.stem(),
            0 < level < levels ==> g.expr(x) == cfg.halved(
                (level - 1) as nat,
                cfg.skip((level - 1) as nat),
            ),
            0 < level == levels ==> g.expr(x) == cfg.skip((level - 1) as nat),
            level < levels ==> {
                &&& c == cfg.enc_in(level as nat)
                &&& out_c == cfg.channels(level as nat)
                &&& side == cfg.side(level as nat)
                &&& g.expr(x).shape == seq![
                    volume(cfg.batch as nat, c as nat, side as nat, side as nat),
                ]
            },
            skips@.len() == level,
            sizes@.len() == level,
            forall|l: int|
                0 <= l < level ==> {
                    &&& #[trigger] skips@[l] < g.len
                    &&& g.expr(skips@[l]) == cfg.skip(l as nat)
                    &&& g.expr(skips@[l]).shape == seq![
                        volume(
                            cfg.batch as nat,
                            cfg.channels(l as nat),
                            cfg.side(l as nat),
                            cfg.side(l as nat),
                        ),
                    ]
                },
            forall|l: int|
                #![trigger sizes@[l]]
                0 <= l < level ==> sizes@[l].0 == cfg.channels(l as nat) && sizes@[l].1
                    == cfg.side(l as nat),
            g.parameters() == g0.parameters() + shapes_of(cfg.encoder_params(level as nat)),
            g.inputs() == g0.inputs(),
            init_list(inits@) == init_list(i0) + inits_of(cfg.encoder_params(level as nat)),
        decreases levels - level,
    {
        let ghost l = level as nat;
        assert(cfg.level_fits(l));
        let name = level_block_name("encoder.", level);
        let ghost before = *g;
        x = resblock(g, inits, x, emb, name.as_str(), cfg, side, c, out_c);
        c = out_c;
        proof {
            reveal(UNetConfig::skip);
            assert(g.expr(x) == cfg.skip(l));
        }
        skips.push(x);
        sizes.push((c, side));
        let ghost blocks = resblock_params(
            level_name("encoder."@, l),
            cfg.emb_dim as nat,
            cfg.enc_in(l),
            cfg.channels(l),
        );
        proof {
            reveal(UNetConfig::encoder_params);
            lemma_params_concat(cfg.encoder_params(l), blocks);
        }
        if level + 1 < levels {
            proof {
                assert(cfg.level_fits(l + 1));
                lemma_square(cfg.batch as nat, c as nat, side as nat);
                lemma_square(cfg.batch as nat, c as nat, cfg.side(l + 1));
                lemma_kernel_fits(c as nat, c as nat);
            }
            let digits = decimal_string(level as u64);
            let head = join("encoder.", digits.as_str());
            let down_name = join(head.as_str(), ".downsample.weight");
            let kernel = conv(g, inits, down_name.as_str(), c, c, 3, false);
            x = g.conv2d(x, kernel, cfg.batch, c, side, side, c, 3, 2, 1);
            side = (side + 2 - 3) / 2 + 1;
            out_c = c * 2;
            let ghost down = seq![
                ParamView {
                    name: downsample_name(l),
                    shape: seq![volume(c as nat, c as nat, 3, 3)],
                    init: fan_init(c as nat * 3 * 3),
                },
            ];
            proof {
                lemma_params_concat(cfg.encoder_params(l) + blocks, down);
                assert(cfg.encoder_params(l + 1) == cfg.encoder_params(l) + blocks + down);
                assert(shapes_of(down) =~= seq![(down_name@, down[0].shape)]);
                assert(inits_of(down) =~= seq![(down_name@, down[0].init)]);
            }
            assert(g.parameters() =~= g0.parameters() + shapes_of(cfg.encoder_params(l + 1)));
            assert(init_list(inits@) =~= init_list(i0) + inits_of(cfg.encoder_params(l + 1)));
        } else {
            proof {
                assert(cfg.encoder_params(l + 1) =~= cfg.encoder_params(l) + blocks);
            }
            assert(g.parameters() =~= g0.parameters() + shapes_of(cfg.encoder_params(l + 1)));
            assert(init_list(inits@) =~= init_list(i0) + inits_of(cfg.encoder_params(l + 1)));
        }
        level = level + 1;
    }
    (x, skips, sizes)
}

/// Fewer channels need less room.
proof fn lemma_volume_fits_fewer(batch: nat, few: nat, many: nat, side: nat)
    requires
        few <= many,
        volume_fits(batch, many, side, side),
    ensures
        volume_fits(batch, few, side, side),
{
    assert(batch * few <= batch * many) by (nonlinear_arith)
        requires
            few <= many,
    ;
    assert(batch * few * side <= batch * many * side) by (nonlinear_arith)
        requires
            batch * few <= batch * many,
    ;
    assert(batch * few * side * side <= batch * many * side * side) by (nonlinear_arith)
        requires
            batch * few * side <= batch * many * side,
    ;
}

/// One level of the decoder: joins what comes from below with the output of
/// the encoder on the same level.
fn decoder_level(
    g: &mut Plan,
    inits: &mut Inits,
    cfg: &UNetConfig,
    up: u32,
    skip: u32,
    emb: u32,
    level: usize,
    below: u32,
    c: u32,
    side: u32,
) -> (x: u32)
    requires
        old(g).wf(),
        old(g).room(25),
        cfg.fits(),
        level < cfg.num_levels,
        up < old(g).len,
        skip < old(g).len,
        emb < old(g).len,
        below == cfg.below(level as nat),
        c == cfg.channels(level as nat),
        side == cfg.side(level as nat),
        old(g).expr(emb) == cfg.embedding_layer(),
        old(g).expr(emb).shape == seq![cfg.batch as nat, cfg.emb_dim as nat],
        old(g).expr(up).shape == seq![
            volume(cfg.batch as nat, below as nat, side as nat, side as nat),
        ],
        old(g).expr(skip).shape == seq![
            volume(cfg.batch as nat, c as nat, side as nat, side as nat),
        ],
    ensures
        final(g).wf(),
        final(g).extends(old(g)),
        final(g).len <= old(g).len + 25,
        x < final(g).len,
        final(g).expr(x) == cfg.block(
            concat(
                old(g).expr(up),
                old(g).expr(skip),
                cfg.batch as nat,
                below as nat,
                c as nat,
                side as nat * side as nat,
            ),
            level_name("decoder."@, level as nat),
            (below + c) as nat,
            c as nat,
            side as nat,
        ),
        final(g).expr(x).shape == seq![
            volume(cfg.batch as nat, c as nat, side as nat, side as nat),
        ],
        final(g).parameters() == old(g).parameters() + shapes_of(
            resblock_params(
                level_name("decoder."@, level as nat),
                cfg.emb_dim as nat,
                (below + c) as nat,
                c as nat,
            ),
        ),
        final(g).inputs() == old(g).inputs(),
        init_list(final(inits)@) == init_list(old(inits)@) + inits_of(
            resblock_params(
                level_name("decoder."@, level as nat),
                cfg.emb_dim as nat,
                (below + c) as nat,
                c as nat,
            ),
        ),
{
    proof {
        let b = cfg.batch as nat;
        assert(cfg.level_fits(level as nat));
        lemma_square(b, below as nat, side as nat);
        lemma_square(b, c as nat, side as nat);
        lemma_square(b, (below + c) as nat, side as nat);
    }
    let joined = g.concat(up, skip, cfg.batch, below, c, side * side);
    let name = level_block_name("decoder.", level);
    resblock(g, inits, joined, emb, name.as_str(), cfg, side, below + c, c)
}

/// The decoder: from the deepest level up, doubling the side between two
/// levels.
fn decoder(
    g: &mut Plan,
    inits: &mut Inits,
    cfg: &UNetConfig,
    middle: u32,
    emb: u32,
    skips: &Vec<u32>,
    sizes: &Vec<(u32, u32)>,
) -> (x: u32)
    requires
        old(g).wf(),
        old(g).room((26 * cfg.num_levels) as nat),
        cfg.fits(),
        middle < old(g).len,
        emb < old(g).len,
        old(g).expr(middle) == cfg.middle(),
        old(g).expr(middle).shape == seq![
            volume(
                cfg.batch as nat,
                cfg.channels(cfg.bottom()),
                cfg.side(cfg.bottom()),
                cfg.side(cfg.bottom()),
            ),
        ],
        old(g).expr(emb) == cfg.embedding_layer(),
        old(g).expr(emb).shape == seq![cfg.batch as nat, cfg.emb_dim as nat],
        skips@.len() == cfg.num_levels,
        sizes@.len() == cfg.num_levels,
        forall|l: int|
            0 <= l < cfg.num_levels ==> {
                &&& #[trigger] skips@[l] < old(g).len
                &&& old(g).expr(skips@[l]) == cfg.skip(l as nat)
                &&& old(g).expr(skips@[l]).shape == seq![
                    volume(
                        cfg.batch as nat,
                        cfg.channels(l as nat),
                        cfg.side(l as nat),
                        cfg.side(l as nat),
                    ),
                ]
            },
        forall|l: int|
            #![trigger sizes@[l]]
            0 <= l < cfg.num_levels ==> sizes@[l].0 == cfg.channels(l as nat)
                && sizes@[l].1 == cfg.side(l as nat),
    ensures
        final(g).wf(),
        final(g).extends(old(g)),
        final(g).len <= old(g).len + 26 * cfg.num_levels,
        x < final(g).len,
        final(g).expr(x) == (if cfg.num_levels == 0 {
            cfg.middle()
        } else {
            cfg.decoded(0)
        }),
        final(g).expr(x).shape == seq![
            volume(cfg.batch as nat, cfg.channels(0), cfg.side(0), cfg.side(0)),
        ],
        final(g).parameters() == old(g).parameters() + shapes_of(cfg.decoder_params(0)),
        final(g).inputs() == old(g).inputs(),
        init_list(final(inits)@) == init_list(old(inits)@) + inits_of(cfg.decoder_params(0)),
{
    let ghost g0 = *g;
    let ghost i0 = inits@;
    let levels = cfg.num_levels;
    let mut x = middle;
    let mut level = levels;
    proof {
        reveal(UNetConfig::decoder_params);
        let ps = cfg.decoder_params(levels as nat);
        assert(g.parameters() =~= g0.parameters() + shapes_of(ps));
        assert(init_list(inits@) =~= init_list(i0) + inits_of(ps));
    }
    while level > 0
        invariant
            levels == cfg.num_levels,
            cfg.fits(),
            level <= levels,
            g.wf(),
            g.extends(&g0),
            g0.len + 26 * levels <= u32::MAX,
            g.len <= g0.len + 26 * (levels - level),
            emb < g0.len,
            g0.expr(emb) == cfg.embedding_layer(),
            g0.expr(emb).shape == seq![cfg.batch as nat, cfg.emb_dim as nat],
            x < g.len,
            g.expr(x) == (if level == levels {
                cfg.middle()
            } else {
                cfg.decoded(level as nat)
            }),
            g.expr(x).shape == seq![
                volume(
                    cfg.batch as nat,
                    cfg.channels(
                        if level == levels {
                            cfg.bottom()
                        } else {
                            level as nat
                        },
                    ),
                    cfg.side(
                        if level == levels {
                            cfg.bottom()
                        } else {
                            level as nat
                        },
                    ),
                    cfg.side(
                        if level == levels {
                            cfg.bottom()
                        } else {
                            level as nat
                        },
                    ),
                ),
            ],
            skips@.len() == cfg.num_levels,
            sizes@.len() == cfg.num_levels,
            forall|l: int|
                0 <= l < cfg.num_levels ==> {
                    &&& #[trigger] skips@[l] < g0.len
                    &&& g0.expr(skips@[l]) == cfg.skip(l as nat)
                    &&& g0.expr(skips@[l]).shape == seq![
                        volume(
                            cfg.batch as nat,
                            cfg.channels(l as nat),
                            cfg.side(l as nat),
                            cfg.side(l as nat),
                        ),
                    ]
                },
            forall|l: int|
                #![trigger sizes@[l]]
                0 <= l < cfg.num_levels ==> sizes@[l].0 == cfg.channels(l as nat)
                    && sizes@[l].1 == cfg.side(l as nat),
            g.parameters() == g0.parameters() + shapes_of(cfg.decoder_params(level as nat)),
            g.inputs() == g0.inputs(),
            init_list(inits@) == init_list(i0) + inits_of(cfg.decoder_params(level as nat)),
        decreases level,
    {
        let ghost above = level as nat;
        level = level - 1;
        let ghost l = level as nat;
        let (c, side) = sizes[level];
        let skip = skips[level];
        let mut below = c;
        assert(cfg.level_fits(l));
        assert(skips@[level as int] < g0.len);
        assert(sizes@[level as int].0 == cfg.channels(l));
        if level + 1 < levels {
            let (deep_c, deep_side) = sizes[level + 1];
            assert(sizes@[level + 1].0 == cfg.channels(l + 1));
            assert(skips@[level + 1] < g0.len);
            proof {
                assert(cfg.level_fits(l + 1));
                lemma_square(cfg.batch as nat, deep_c as nat, side as nat);
                lemma_volume_fits_fewer(
                    cfg.batch as nat,
                    deep_c as nat,
                    (deep_c + c) as nat,
                    side as nat,
                );
            }
            x = g.upsample_2x(x, cfg.batch, deep_c, deep_side, deep_side);
            below = deep_c;
        }
        x = decoder_level(g, inits, cfg, x, skip, emb, level, below, c, side);
        proof {
            reveal(UNetConfig::decoded);
            reveal(UNetConfig::decoder_params);
            let ps = resblock_params(
                level_name("decoder."@, l),
                cfg.emb_dim as nat,
                cfg.below(l) + cfg.channels(l),
                cfg.channels(l),
            );
            lemma_params_concat(cfg.decoder_params(above), ps);
            assert(cfg.decoder_params(l) == cfg.decoder_params(above) + ps);
            assert(g.parameters() =~= g0.parameters() + shapes_of(cfg.decoder_params(l)));
            assert(init_list(inits@) =~= init_list(i0) + inits_of(cfg.decoder_params(l)));
        }
    }
    x
}

/// Builds the forward pass; gives the prediction node and the initialisers of
/// the parameters.
pub fn build_unet(g: &mut Plan, cfg: &UNetConfig) -> (r: (u32, Inits))
    requires
        old(g).wf(),
        old(g).room(cfg.node_bound()),
        cfg.fits(),
    ensures
        final(g).wf(),
        final(g).extends(old(g)),
        final(g).len <= old(g).len + cfg.node_bound(),
        r.0 < final(g).len,
        final(g).expr(r.0) == cfg.prediction(),
        final(g).expr(r.0).shape == seq![
            volume(
                cfg.batch as nat,
                cfg.data_channels as nat,
                cfg.resolution as nat,
                cfg.resolution as nat,
            ),
        ],
        final(g).parameters() == old(g).parameters() + shapes_of(cfg.params()),
        final(g).inputs() == old(g).inputs() + cfg.input_list(),
        init_list(r.1@) == inits_of(cfg.params()),
{
    let mut inits: Inits = Vec::new();
    let batch = cfg.batch;
    let res = cfg.resolution;
    let in_c = cfg.data_channels + cfg.cond_channels;
    let base_c = cfg.base_channels;
    proof {
        lemma_square(batch as nat, in_c as nat, res as nat);
        lemma_square(batch as nat, base_c as nat, res as nat);
        lemma_square(batch as nat, cfg.data_channels as nat, res as nat);
        lemma_kernel_fits(base_c as nat, in_c as nat);
        lemma_kernel_fits(cfg.data_channels as nat, base_c as nat);
        assert(init_list(inits@) =~= Seq::empty());
    }
    let in_size: u32 = batch * in_c * res * res;
    let x_shape = vec![in_size as usize];
    assert(dims(x_shape@) =~= seq![volume(batch as nat, in_c as nat, res as nat, res as nat)]);
    let x_in = g.input("x", x_shape);
    let emb = conditioning(g, &mut inits, cfg);
    let ghost p1 = cfg.embedding_params();
    let kernel = conv(g, &mut inits, "conv_in.weight", in_c, base_c, 3, false);
    let x = g.conv2d(x_in, kernel, batch, in_c, res, res, base_c, 3, 1, 1);
    let ghost p2 = seq![
        ParamView {
            name: "conv_in.weight"@,
            shape: seq![volume(base_c as nat, in_c as nat, 3, 3)],
            init: fan_init(in_c as nat * 3 * 3),
        },
    ];
    assert(g.expr(x) == cfg.stem());
    assert(shapes_of(p2) =~= seq![(p2[0].name, p2[0].shape)]);
    assert(inits_of(p2) =~= seq![(p2[0].name, p2[0].init)]);
    assert(g.parameters() =~= old(g).parameters() + shapes_of(p1) + shapes_of(p2));
    assert(init_list(inits@) =~= inits_of(p1) + inits_of(p2));
    let (x, skips, sizes) = encoder(g, &mut inits, cfg, x, emb);
    let ghost p3 = cfg.encoder_params(cfg.num_levels as nat);
    let mut c = base_c;
    let mut side = res;
    if cfg.num_levels > 0 {
        c = sizes[cfg.num_levels - 1].0;
        side = sizes[cfg.num_levels - 1].1;
        assert(skips@[cfg.num_levels - 1] < g.len);
        assert(cfg.level_fits(cfg.bottom()));
    }
    assert(c == cfg.channels(cfg.bottom()) && side == cfg.side(cfg.bottom()));
    let x = resblock(g, &mut inits, x, emb, "middle.resblock", cfg, side, c, c);
    let ghost p4 = resblock_params("middle.resblock"@, cfg.emb_dim as nat, c as nat, c as nat);
    assert(g.expr(x) == cfg.middle());
    let x = decoder(g, &mut inits, cfg, x, emb, &skips, &sizes);
    let ghost p5 = cfg.decoder_params(0);
    let pred = norm_conv(
        g,
        &mut inits,
        x,
        "conv_out.norm",
        "conv_out.weight",
        batch,
        base_c,
        res,
        cfg.data_channels,
        cfg.num_groups,
        cfg.gn_eps_bits,
        true,
    );
    proof {
        let p6 = norm_conv_params(
            "conv_out.norm"@,
            "conv_out.weight"@,
            base_c as nat,
            cfg.data_channels as nat,
            Init::Zero,
        );
        lemma_params_concat(p1, p2);
        lemma_params_concat(p1 + p2, p3);
        lemma_params_concat(p1 + p2 + p3, p4);
        lemma_params_concat(p1 + p2 + p3 + p4, p5);
        lemma_params_concat(p1 + p2 + p3 + p4 + p5, p6);
        assert(cfg.params() == p1 + p2 + p3 + p4 + p5 + p6);
        assert(g.parameters() =~= old(g).parameters() + shapes_of(cfg.params()));
        assert(g.inputs() =~= old(g).inputs() + cfg.input_list());
        assert(init_list(inits@) =~= inits_of(cfg.params()));
    }
    (pred, inits)
}

/// Builds the training graph; gives the loss node and the initialisers of the
/// parameters.
pub fn build_training_graph(g: &mut Plan, cfg: &UNetConfig) -> (r: (u32, Inits))
    requires
        old(g).wf(),
        old(g).room(cfg.node_bound() + 5),
        cfg.fits(),
        volume(
            cfg.batch as nat,
            cfg.data_channels as nat,
            cfg.resolution as nat,
            cfg.resolution as nat,
        ) <= u32::MAX,
    ensures
        final(g).wf(),
        final(g).extends(old(g)),
        r.0 < final(g).len,
        final(g).expr(r.0) == mse_loss(
            cfg.prediction(),
            leaf(
                OpView::Input { name: "v_target"@ },
                seq![
                    volume(
                        cfg.batch as nat,
                        cfg.data_channels as nat,
                        cfg.resolution as nat,
                        cfg.resolution as nat,
                    ),
                ],
            ),
        ),
        final(g).parameters() == old(g).parameters() + shapes_of(cfg.params()),
        final(g).inputs() == old(g).inputs() + cfg.input_list() + seq![
            cfg.target_input(),
        ],
        init_list(r.1@) == inits_of(cfg.params()),
{
    let (pred, inits) = build_unet(g, cfg);
    proof {
        let b = cfg.batch as nat;
        let d = cfg.data_channels as nat;
        let s = cfg.resolution as nat;
        assert(b * d <= b * d * s && b * d * s <= b * d * s * s) by (nonlinear_arith)
            requires
                1 <= s,
        ;
    }
    let out_size: u32 = cfg.batch * cfg.data_channels * cfg.resolution * cfg.resolution;
    let shape = vec![out_size as usize];
    assert(dims(shape@) =~= seq![
        volume(
            cfg.batch as nat,
            cfg.data_channels as nat,
            cfg.resolution as nat,
            cfg.resolution as nat,
        ),
    ]);
    let target = g.input("v_target", shape);
    let loss = g.mse_loss(pred, target);
    assert(g.inputs() =~= old(g).inputs() + cfg.input_list() + seq![cfg.target_input()]);
    (loss, inits)
}

impl UNetConfig {
    /// The super-resolution network: the channels of a full patch, conditioned
    /// on those of a coarse one.
    pub fn sr_default(batch: u32, resolution: u32) -> (cfg: UNetConfig)
        ensures
            cfg == (UNetConfig {
                batch,
                data_channels: 10,
                cond_channels: 4,
                base_channels: 64,
                num_levels: 3,
                resolution,
                num_groups: 16,
                gn_eps_bits: 0x3727_c5ac,
                t_dim: 128,
                emb_dim: 256,
                num_classes: 11,
            }),
    {
        UNetConfig {
            batch,
            data_channels: FULL_CHANNELS as u32,
            cond_channels: COARSE_CHANNELS as u32,
            base_channels: 64,
            num_levels: 3,
            resolution,
            num_groups: 16,
            gn_eps_bits: 0x3727_c5ac,
            t_dim: 128,
            emb_dim: 256,
            num_classes: 11,
        }
    }

    /// Channels of the network's input.
    pub fn in_channels(&self) -> (c: u32)
        requires
            self.data_channels + self.cond_channels <= u32::MAX,
        ensures
            c == self.input_channels(),
    {
        self.data_channels + self.cond_channels
    }
}

/// Whether a four-fold product and its leading products fit a machine word.
fn volume_fits_word(batch: u32, c: u64, side: u32) -> (r: bool)
    requires
        c < 0x1_0000_0000_0000,
    ensures
        r == volume_fits(batch as nat, c as nat, side as nat, side as nat),
{
    proof {
        assert(batch as nat * c as nat <= 0x1_0000_0000_0000_0000_0000) by (nonlinear_arith)
            requires
                batch <= u32::MAX,
                c < 0x1_0000_0000_0000,
        ;
    }
    let word = usize::MAX as u128;
    let rows: u128 = batch as u128 * c as u128;
    if rows > word {
        return false;
    }
    assert(rows * side <= 0x1_0000_0000_0000_0000 * 0x1_0000_0000) by (nonlinear_arith)
        requires
            rows <= 0x1_0000_0000_0000_0000,
            side <= u32::MAX,
    ;
    let planes: u128 = rows * side as u128;
    if planes > word {
        return false;
    }
    assert(planes * side <= 0x1_0000_0000_0000_0000 * 0x1_0000_0000) by (nonlinear_arith)
        requires
            planes <= 0x1_0000_0000_0000_0000,
            side <= u32::MAX,
    ;
    planes * side as u128 <= word
}

/// Whether the sizes of a residual block fit.
fn block_fits_word(batch: u32, in_c: u64, out_c: u64, side: u32) -> (r: bool)
    ensures
        r == block_fits(batch as nat, in_c as nat, out_c as nat, side as nat),
{
    let word = u32::MAX as u128;
    if side < 1 {
        return false;
    }
    if in_c > 0x1_0000_0000 || out_c > 0x1_0000_0000 {
        return false;
    }
    proof {
        assert(side as nat * side as nat <= 0x1_0000_0000_0000_0000) by (nonlinear_arith)
            requires
                side <= u32::MAX,
        ;
        assert(out_c as nat * in_c as nat <= 0x1_0000_0000_0000_0000) by (nonlinear_arith)
            requires
                out_c <= 0x1_0000_0000,
                in_c <= 0x1_0000_0000,
        ;
        assert(out_c as nat * out_c as nat <= 0x1_0000_0000_0000_0000) by (nonlinear_arith)
            requires
                out_c <= 0x1_0000_0000,
        ;
        assert(batch as nat * out_c as nat <= 0x1_0000_0000_0000_0000) by (nonlinear_arith)
            requires
                batch <= u32::MAX,
                out_c <= 0x1_0000_0000,
        ;
    }
    side as u128 * side as u128 <= word && in_c as u128 * 9 <= word && out_c as u128 * 9 <= word
        && out_c as u128 * in_c as u128 * 9 <= word && out_c as u128 * out_c as u128 * 9 <= word
        && batch as u128 * out_c as u128 <= word && volume_fits_word(batch, in_c, side)
        && volume_fits_word(batch, out_c, side)
}

impl UNetConfig {
    /// Whether the network can be built.
    pub fn is_buildable(&self) -> (r: bool)
        ensures
            r == self.fits(),
    {
        let word = u32::MAX as u128;
        let in_c: u64 = self.data_channels as u64 + self.cond_channels as u64;
        let base = self.base_channels as u64;
        if self.num_levels > 32 || self.emb_dim > usize::MAX - self.t_dim || self.emb_dim
            > usize::MAX - self.emb_dim {
            return false;
        }
        if !block_fits_word(self.batch, base, base, self.resolution) {
            return false;
        }
        proof {
            let b = self.batch as nat;
            let c = in_c as nat;
            let res = self.resolution as nat;
            assert(b * c <= 0x1_0000_0000 * 0x2_0000_0000) by (nonlinear_arith)
                requires
                    b <= u32::MAX,
                    c <= 0x2_0000_0000,
            ;
            assert(base as nat * c <= 0x1_0000_0000 * 0x2_0000_0000) by (nonlinear_arith)
                requires
                    base <= u32::MAX,
                    c <= 0x2_0000_0000,
            ;
            assert(self.data_channels as nat * base as nat <= 0x1_0000_0000 * 0x1_0000_0000)
                by (nonlinear_arith)
                requires
                    base <= u32::MAX,
                    self.data_channels <= u32::MAX,
            ;
            assert(res < 0x1_0000) by (nonlinear_arith)
                requires
                    res * res <= u32::MAX,
            ;
        }
        let rows: u128 = self.batch as u128 * in_c as u128;
        if in_c as u128 * 9 > word || base as u128 * in_c as u128 * 9 > word || rows > word
            || self.data_channels as u128 * base as u128 * 9 > word {
            return false;
        }
        assert(rows * self.resolution <= 0x1_0000_0000 * 0x1_0000) by (nonlinear_arith)
            requires
                rows <= u32::MAX,
                self.resolution < 0x1_0000,
        ;
        let planes: u128 = rows * self.resolution as u128;
        assert(planes * self.resolution <= 0x1_0000_0000 * 0x1_0000 * 0x1_0000)
            by (nonlinear_arith)
            requires
                planes <= 0x1_0000_0000 * 0x1_0000,
                self.resolution < 0x1_0000,
        ;
        if planes > word || planes * self.resolution as u128 > word || !volume_fits_word(
            self.batch,
            self.data_channels as u64,
            self.resolution,
        ) {
            return false;
        }
        let mut l: usize = 0;
        let mut before = base;
        let mut c = base;
        let mut side = self.resolution;
        while l < self.num_levels
            invariant
                l <= self.num_levels,
                before == self.enc_in(l as nat),
                c == self.channels(l as nat),
                side == self.side(l as nat),
                1 <= side < 0x1_0000_0000,
                before <= u32::MAX,
                c <= 2 * u32::MAX,
                forall|i: nat| i < l ==> #[trigger] self.level_fits(i),
            decreases self.num_levels - l,
        {
            let ghost i = l as nat;
            let last = l + 1 == self.num_levels;
            let below = if last {
                c
            } else {
                c * 2
            };
            let half = (side - 1) / 2 + 1;
            proof {
                assert(self.side(i + 1) == half);
                assert(self.channels(i + 1) == 2 * c);
                assert(self.below(i) == below);
            }
            if !block_fits_word(self.batch, before, c, side) || !block_fits_word(
                self.batch,
                below + c,
                c,
                side,
            ) || (!last && side % 2 != 0) {
                assert(!self.level_fits(i));
                return false;
            }
            assert(self.level_fits(i));
            before = c;
            c = c * 2;
            side = half;
            l = l + 1;
        }
        true
    }
}

} // verus!
