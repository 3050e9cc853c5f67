//! What the nodes of the network compute, operand by operand.

use crate::graph::{
    call_nodes, concat, conv2d, denote, dense, embedding, inputs, matmul, mse_loss, parameters,
    plan_nodes, silu, sum, upsample_2x, Call, Expr, InputView, NodeView, OpView, Plan,
};
use crate::model::{
    block_fits, downsample_name, film_layer, init_list, inits_of, level_name, resblock_layer,
    resblock_params, shapes_of, Init, ParamView, StdDev, UNetConfig,
};
use crate::text::decimal;
use vstd::arithmetic::power2::pow2;
use vstd::prelude::*;

verus! {

/// `e` is the parameter `name`.
pub open spec fn is_parameter(e: Expr, name: Seq<char>, shape: Seq<nat>) -> bool {
    &&& e.op == OpView::Parameter { name }
    &&& e.shape == shape
    &&& e.args.len() == 0
}

/// A parameter is a node without operands that goes by its name.
pub proof fn law_parameter_nodes(e: Expr, name: Seq<char>, shape: Seq<nat>)
    ensures
        is_parameter(e, name, shape) <==> e.op == (OpView::Parameter { name }) && e.shape == shape
            && e.args.len() == 0,
{
}

/// A residual block is a sum, at every side and for all channels. Its first
/// operand is the block's input itself where the channels stay the same, and
/// otherwise a 1x1 convolution of it: the input reaches the output without
/// passing a normalisation. Its second operand is the branch.
pub proof fn law_residual(
    x: Expr,
    emb: Expr,
    prefix: Seq<char>,
    batch: nat,
    emb_dim: nat,
    groups: nat,
    eps_bits: u32,
    in_c: nat,
    out_c: nat,
    side: nat,
)
    ensures
        ({
            let block = resblock_layer(
                x,
                emb,
                prefix,
                batch,
                emb_dim,
                groups,
                eps_bits,
                in_c,
                out_c,
                side,
            );
            let kept = block.args[0];
            &&& block.op == OpView::Add
            &&& block.args.len() == 2
            &&& in_c == out_c ==> kept == x
            &&& in_c != out_c ==> {
                &&& kept.op == OpView::Conv2d {
                    in_c,
                    h: side,
                    w: side,
                    out_c,
                    k: 1,
                    stride: 1,
                    pad: 0,
                }
                &&& kept.args.len() == 2
                &&& kept.args[0] == x
                &&& is_parameter(
                    kept.args[1],
                    prefix + ".res_conv.weight"@,
                    seq![out_c * in_c * 1 * 1],
                )
            }
        }),
{
}

/// The branch of a residual block: twice a normalisation, an activation and a
/// 3x3 convolution of stride 1 that keeps the side, the first from the block's
/// input to its output channels, with the shift by the conditioning between the
/// two.
pub proof fn law_residual_branch(
    x: Expr,
    emb: Expr,
    prefix: Seq<char>,
    batch: nat,
    emb_dim: nat,
    groups: nat,
    eps_bits: u32,
    in_c: nat,
    out_c: nat,
    side: nat,
)
    ensures
        ({
            let conv2 = resblock_layer(
                x,
                emb,
                prefix,
                batch,
                emb_dim,
                groups,
                eps_bits,
                in_c,
                out_c,
                side,
            ).args[1];
            let norm2 = conv2.args[0].args[0];
            let shifted = norm2.args[0];
            let conv1 = shifted.args[0];
            let norm1 = conv1.args[0].args[0];
            &&& conv2.op == OpView::Conv2d {
                in_c: out_c,
                h: side,
                w: side,
                out_c,
                k: 3,
                stride: 1,
                pad: 1,
            }
            &&& is_parameter(
                conv2.args[1],
                prefix + ".conv2.weight"@,
                seq![out_c * out_c * 3 * 3],
            )
            &&& conv2.args[0].op == OpView::Silu
            &&& norm2.op == OpView::GroupNorm {
                groups,
                eps_bits,
                channels: out_c,
                spatial: side * side,
            }
            &&& is_parameter(norm2.args[1], prefix + ".norm2"@ + ".weight"@, seq![out_c])
            &&& is_parameter(norm2.args[2], prefix + ".norm2"@ + ".bias"@, seq![out_c])
            &&& shifted.op == OpView::Add
            &&& shifted.args[1] == film_layer(
                conv1,
                emb,
                prefix,
                batch,
                emb_dim,
                out_c,
                side,
            ).args[1]
            &&& conv1.op == OpView::Conv2d {
                in_c,
                h: side,
                w: side,
                out_c,
                k: 3,
                stride: 1,
                pad: 1,
            }
            &&& is_parameter(conv1.args[1], prefix + ".conv1.weight"@, seq![out_c * in_c * 3 * 3])
            &&& conv1.args[0].op == OpView::Silu
            &&& norm1.op == OpView::GroupNorm {
                groups,
                eps_bits,
                channels: in_c,
                spatial: side * side,
            }
            &&& norm1.args[0] == x
            &&& is_parameter(norm1.args[1], prefix + ".norm1"@ + ".weight"@, seq![in_c])
            &&& is_parameter(norm1.args[2], prefix + ".norm1"@ + ".bias"@, seq![in_c])
        }),
{
}

/// The shift of `x` by the conditioning: `x` itself plus, over every texel of a
/// sample and channel, one value, which a dense layer makes out of the
/// embedding.
pub proof fn law_shift(
    x: Expr,
    emb: Expr,
    prefix: Seq<char>,
    batch: nat,
    emb_dim: nat,
    c: nat,
    side: nat,
)
    ensures
        ({
            let shifted = film_layer(x, emb, prefix, batch, emb_dim, c, side);
            let flat = shifted.args[1];
            let plane = flat.args[0];
            let column = plane.args[0];
            let ones = plane.args[1];
            let biased = column.args[0];
            let product = biased.args[0];
            &&& shifted.op == OpView::Add && shifted.args.len() == 2
            &&& shifted.args[0] == x
            &&& flat.op == OpView::Reshape && flat.shape == seq![batch * c * (side * side)]
            &&& plane.op == OpView::MatMul
            &&& ones.op == OpView::Ones && ones.shape == seq![1nat, side * side]
            &&& column.op == OpView::Reshape && column.shape == seq![batch * c, 1nat]
            &&& biased.op == OpView::BiasAdd
            &&& product.op == OpView::MatMul
            &&& product.args[0] == emb
            &&& is_parameter(
                product.args[1],
                prefix + ".emb_proj"@ + ".weight"@,
                seq![emb_dim, c],
            )
            &&& is_parameter(biased.args[1], prefix + ".emb_proj"@ + ".bias"@, seq![c])
        }),
{
}

/// The conditioning: the projected timestep and the row of the class table that
/// the class names are added, activated, passed through a dense layer, and
/// activated again.
pub proof fn law_conditioning(cfg: UNetConfig)
    ensures
        ({
            let e = cfg.emb_dim as nat;
            let out = cfg.embedding_layer();
            let trunk = out.args[0];
            let product = trunk.args[0];
            let active = product.args[0];
            let both = active.args[0];
            let time = both.args[0];
            let style = both.args[1];
            &&& out.op == OpView::Silu
            &&& trunk.op == OpView::BiasAdd
            &&& is_parameter(trunk.args[1], "cond.trunk"@ + ".bias"@, seq![e])
            &&& product.op == OpView::MatMul
            &&& is_parameter(product.args[1], "cond.trunk"@ + ".weight"@, seq![e, e])
            &&& active.op == OpView::Silu
            &&& both.op == OpView::Add && both.args.len() == 2
            &&& time.op == OpView::BiasAdd
            &&& is_parameter(time.args[1], "cond.t_proj"@ + ".bias"@, seq![e])
            &&& time.args[0].op == OpView::MatMul
            &&& time.args[0].args[0].op == OpView::Input { name: "t_emb"@ }
            &&& time.args[0].args[0].shape == seq![cfg.batch as nat, cfg.t_dim as nat]
            &&& is_parameter(
                time.args[0].args[1],
                "cond.t_proj"@ + ".weight"@,
                seq![cfg.t_dim as nat, e],
            )
            &&& style.op == OpView::Embedding
            &&& style.args[0].op == OpView::InputU32 { name: "class"@ }
            &&& style.args[0].shape == seq![cfg.batch as nat]
            &&& is_parameter(
                style.args[1],
                "cond.class_table"@,
                seq![cfg.num_classes as nat, e],
            )
        }),
{
}

/// Every block of the network is a residual block under the same conditioning
/// and the same normalisation.
pub proof fn law_blocks_alike(
    cfg: UNetConfig,
    x: Expr,
    prefix: Seq<char>,
    in_c: nat,
    out_c: nat,
    side: nat,
)
    ensures
        cfg.block(x, prefix, in_c, out_c, side) == resblock_layer(
            x,
            cfg.embedding_layer(),
            prefix,
            cfg.batch as nat,
            cfg.emb_dim as nat,
            cfg.num_groups as nat,
            cfg.gn_eps_bits,
            in_c,
            out_c,
            side,
        ),
{
}

/// The levels of the network: the channels double with each level, and the side
/// halves, rounding up.
pub proof fn law_level_sizes(cfg: UNetConfig, l: nat)
    requires
        1 <= cfg.side(l),
    ensures
        cfg.channels(l) == cfg.base_channels * pow2(l),
        cfg.side(0) == cfg.resolution,
        cfg.side(l + 1) == (cfg.side(l) + 1) / 2,
        cfg.input_channels() == cfg.data_channels + cfg.cond_channels,
{
    lemma_channels(cfg, l);
}

proof fn lemma_channels(cfg: UNetConfig, l: nat)
    ensures
        cfg.channels(l) == cfg.base_channels * pow2(l),
    decreases l,
{
    if l == 0 {
        vstd::arithmetic::power2::lemma2_to64();
    } else {
        let k = (l - 1) as nat;
        lemma_channels(cfg, k);
        vstd::arithmetic::power2::lemma_pow2_unfold(l);
        let (b, p) = (cfg.base_channels as int, pow2(k) as int);
        assert(2 * (b * p) == b * (2 * p)) by (nonlinear_arith);
    }
}

/// The stem: a 3x3 convolution of all channels of the input `x` to the base
/// channels.
pub proof fn law_stem(cfg: UNetConfig)
    ensures
        ({
            let r = cfg.resolution as nat;
            let in_c = (cfg.data_channels + cfg.cond_channels) as nat;
            let base = cfg.base_channels as nat;
            let stem = cfg.stem();
            &&& stem.op == OpView::Conv2d {
                in_c,
                h: r,
                w: r,
                out_c: base,
                k: 3,
                stride: 1,
                pad: 1,
            }
            &&& stem.args.len() == 2
            &&& stem.args[0].op == OpView::Input { name: "x"@ }
            &&& stem.args[0].shape == seq![cfg.batch as nat * in_c * r * r]
            &&& is_parameter(stem.args[1], "conv_in.weight"@, seq![base * in_c * 3 * 3])
        }),
{
}

/// The encoder: level 0 takes the stem; each further level takes what the level
/// above it gives, through a 3x3 convolution of stride 2 that keeps the
/// channels.
pub proof fn law_encoder(cfg: UNetConfig, l: nat)
    ensures
        cfg.skip(0) == cfg.block(
            cfg.stem(),
            "encoder."@ + decimal(0) + ".resblock"@,
            cfg.base_channels as nat,
            cfg.base_channels as nat,
            cfg.resolution as nat,
        ),
        ({
            let down = cfg.halved(l, cfg.skip(l));
            let c = cfg.channels(l);
            &&& cfg.skip(l + 1) == cfg.block(
                down,
                "encoder."@ + decimal(l + 1) + ".resblock"@,
                c,
                2 * c,
                cfg.side(l + 1),
            )
            &&& down.op == OpView::Conv2d {
                in_c: c,
                h: cfg.side(l),
                w: cfg.side(l),
                out_c: c,
                k: 3,
                stride: 2,
                pad: 1,
            }
            &&& down.args.len() == 2
            &&& down.args[0] == cfg.skip(l)
            &&& is_parameter(
                down.args[1],
                "encoder."@ + decimal(l) + ".downsample.weight"@,
                seq![c * c * 3 * 3],
            )
        }),
{
    reveal(UNetConfig::skip);
    assert(cfg.channels(l + 1) == 2 * cfg.channels(l));
    assert(cfg.channels(0) == cfg.base_channels);
    assert(cfg.side(0) == cfg.resolution);
}

/// The middle block takes what the deepest encoder level gives, and keeps its
/// channels and its side.
pub proof fn law_middle(cfg: UNetConfig)
    ensures
        0 < cfg.num_levels ==> ({
            let l = (cfg.num_levels - 1) as nat;
            cfg.middle() == cfg.block(
                cfg.skip(l),
                "middle.resblock"@,
                cfg.channels(l),
                cfg.channels(l),
                cfg.side(l),
            )
        }),
        cfg.num_levels == 0 ==> cfg.middle() == cfg.block(
            cfg.stem(),
            "middle.resblock"@,
            cfg.base_channels as nat,
            cfg.base_channels as nat,
            cfg.resolution as nat,
        ),
{
    assert(cfg.channels(0) == cfg.base_channels);
    assert(cfg.side(0) == cfg.resolution);
}

/// The decoder: each level takes what comes from below, the middle block or the
/// level below it at twice the side, joined with what the encoder level of the
/// same side gives, and makes of both as many channels as that level has.
pub proof fn law_decoder(cfg: UNetConfig, l: nat)
    requires
        l < cfg.num_levels,
    ensures
        ({
            let deepest = l + 1 == cfg.num_levels;
            let c = cfg.channels(l);
            let below = if deepest {
                c
            } else {
                2 * c
            };
            let up = if deepest {
                cfg.middle()
            } else {
                upsample_2x(
                    cfg.decoded(l + 1),
                    cfg.batch as nat,
                    2 * c,
                    cfg.side(l + 1),
                    cfg.side(l + 1),
                )
            };
            let both = concat(
                up,
                cfg.skip(l),
                cfg.batch as nat,
                below,
                c,
                cfg.side(l) * cfg.side(l),
            );
            &&& cfg.decoded(l) == cfg.block(
                both,
                "decoder."@ + decimal(l) + ".resblock"@,
                below + c,
                c,
                cfg.side(l),
            )
            &&& both.op == OpView::Concat {
                channels_a: below,
                channels_b: c,
                spatial: cfg.side(l) * cfg.side(l),
            }
            &&& both.args.len() == 2 && both.args[0] == up && both.args[1] == cfg.skip(l)
            &&& !deepest ==> up.op == OpView::Upsample2x {
                channels: 2 * c,
                h: cfg.side(l + 1),
                w: cfg.side(l + 1),
            } && up.args.len() == 1 && up.args[0] == cfg.decoded(l + 1)
        }),
{
    reveal(UNetConfig::decoded);
    assert(cfg.channels(l + 1) == 2 * cfg.channels(l));
}

/// The prediction: what the topmost decoder level gives, normalised, activated
/// and convolved by a 3x3 kernel to the data channels.
pub proof fn law_prediction(cfg: UNetConfig)
    ensures
        ({
            let r = cfg.resolution as nat;
            let base = cfg.base_channels as nat;
            let out = cfg.prediction();
            let norm = out.args[0].args[0];
            &&& out.op == OpView::Conv2d {
                in_c: base,
                h: r,
                w: r,
                out_c: cfg.data_channels as nat,
                k: 3,
                stride: 1,
                pad: 1,
            }
            &&& is_parameter(
                out.args[1],
                "conv_out.weight"@,
                seq![cfg.data_channels as nat * base * 3 * 3],
            )
            &&& out.args[0].op == OpView::Silu
            &&& norm.op == OpView::GroupNorm {
                groups: cfg.num_groups as nat,
                eps_bits: cfg.gn_eps_bits,
                channels: base,
                spatial: r * r,
            }
            &&& is_parameter(norm.args[1], "conv_out.norm"@ + ".weight"@, seq![base])
            &&& is_parameter(norm.args[2], "conv_out.norm"@ + ".bias"@, seq![base])
            &&& 0 < cfg.num_levels ==> norm.args[0] == cfg.decoded(0)
            &&& cfg.num_levels == 0 ==> norm.args[0] == cfg.middle()
        }),
{
}

/// The loss: the mean of the squares of the prediction minus the target.
pub proof fn law_loss(pred: Expr, target: Expr)
    ensures
        ({
            let loss = mse_loss(pred, target);
            let square = loss.args[0];
            let difference = square.args[0];
            &&& loss.op == OpView::MeanAll && loss.args.len() == 1
            &&& square.op == OpView::Mul && square.args.len() == 2
            &&& square.args[1] == difference
            &&& difference.op == OpView::Add && difference.args.len() == 2
            &&& difference.args[0] == pred
            &&& difference.args[1].op == OpView::Neg
            &&& difference.args[1].args.len() == 1
            &&& difference.args[1].args[0] == target
        }),
{
}

/// The inputs of the network are `x`, `t_emb` and the integers `class`, and the
/// training graph has `v_target` besides.
pub proof fn law_inputs(cfg: UNetConfig)
    ensures
        ({
            let b = cfg.batch as nat;
            let r = cfg.resolution as nat;
            let list = cfg.input_list().push(cfg.target_input());
            &&& list.len() == 4
            &&& list[0].name == "x"@ && !list[0].integer
            &&& list[0].shape == seq![b * ((cfg.data_channels + cfg.cond_channels) as nat) * r * r]
            &&& list[1].name == "t_emb"@ && !list[1].integer
            &&& list[1].shape == seq![b, cfg.t_dim as nat]
            &&& list[2].name == "class"@ && list[2].integer
            &&& list[2].shape == seq![b]
            &&& list[3].name == "v_target"@ && !list[3].integer
            &&& list[3].shape == seq![b * cfg.data_channels as nat * r * r]
        }),
{
}

/// What a block declares: scales that start at one, offsets and the projection
/// of the conditioning that start at zero, and kernels that start normal, of
/// variance 2 over the number of values that enter one output. The kernel of
/// the skipping path is there exactly where the channels change.
pub proof fn law_block_parameters(prefix: Seq<char>, emb_dim: nat, in_c: nat, out_c: nat)
    requires
        in_c * 9 <= usize::MAX,
        out_c * 9 <= usize::MAX,
    ensures
        ({
            let ps = resblock_params(prefix, emb_dim, in_c, out_c);
            &&& ps.len() == if in_c == out_c {
                8nat
            } else {
                9
            }
            &&& ps[0] == (ParamView {
                name: prefix + ".norm1"@ + ".weight"@,
                shape: seq![in_c],
                init: Init::One,
            })
            &&& ps[1] == (ParamView {
                name: prefix + ".norm1"@ + ".bias"@,
                shape: seq![in_c],
                init: Init::Zero,
            })
            &&& ps[2] == (ParamView {
                name: prefix + ".conv1.weight"@,
                shape: seq![out_c * in_c * 3 * 3],
                init: Init::Normal(StdDev::RootTwoOver((in_c * 9) as usize)),
            })
            &&& ps[3] == (ParamView {
                name: prefix + ".emb_proj"@ + ".weight"@,
                shape: seq![emb_dim, out_c],
                init: Init::Zero,
            })
            &&& ps[4] == (ParamView {
                name: prefix + ".emb_proj"@ + ".bias"@,
                shape: seq![out_c],
                init: Init::Zero,
            })
            &&& ps[5] == (ParamView {
                name: prefix + ".norm2"@ + ".weight"@,
                shape: seq![out_c],
                init: Init::One,
            })
            &&& ps[6] == (ParamView {
                name: prefix + ".norm2"@ + ".bias"@,
                shape: seq![out_c],
                init: Init::Zero,
            })
            &&& ps[7] == (ParamView {
                name: prefix + ".conv2.weight"@,
                shape: seq![out_c * out_c * 3 * 3],
                init: Init::Normal(StdDev::RootTwoOver((out_c * 9) as usize)),
            })
            &&& in_c != out_c ==> ps[8] == (ParamView {
                name: prefix + ".res_conv.weight"@,
                shape: seq![out_c * in_c * 1 * 1],
                init: Init::Normal(StdDev::RootTwoOver(in_c as usize)),
            })
        }),
{
    assert(in_c * 3 * 3 == in_c * 9 && out_c * 3 * 3 == out_c * 9 && in_c * 1 * 1 == in_c);
}

/// What the encoder and the decoder declare, level by level.
pub proof fn law_level_parameters(cfg: UNetConfig, l: nat)
    requires
        l < cfg.num_levels,
    ensures
        ({
            let c = cfg.channels(l);
            let e = cfg.emb_dim as nat;
            let last = l + 1 == cfg.num_levels;
            let enc = resblock_params(
                "encoder."@ + decimal(l) + ".resblock"@,
                e,
                if l == 0 {
                    cfg.base_channels as nat
                } else {
                    cfg.channels((l - 1) as nat)
                },
                c,
            );
            let down = ParamView {
                name: "encoder."@ + decimal(l) + ".downsample.weight"@,
                shape: seq![c * c * 3 * 3],
                init: Init::Normal(StdDev::RootTwoOver((c * 3 * 3) as usize)),
            };
            let dec = resblock_params(
                "decoder."@ + decimal(l) + ".resblock"@,
                e,
                if last {
                    c + c
                } else {
                    2 * c + c
                },
                c,
            );
            &&& cfg.encoder_params(0).len() == 0
            &&& cfg.encoder_params(l + 1) == cfg.encoder_params(l) + enc + (if last {
                Seq::<ParamView>::empty()
            } else {
                seq![down]
            })
            &&& cfg.decoder_params(cfg.num_levels as nat).len() == 0
            &&& cfg.decoder_params(l) == cfg.decoder_params(l + 1) + dec
        }),
{
    reveal(UNetConfig::encoder_params);
    reveal(UNetConfig::decoder_params);
    assert(cfg.channels(l + 1) == 2 * cfg.channels(l));
    let c = cfg.channels(l);
    let e = cfg.emb_dim as nat;
    let last = l + 1 == cfg.num_levels;
    let tail = if last {
        Seq::<ParamView>::empty()
    } else {
        seq![
            ParamView {
                name: downsample_name(l),
                shape: seq![c * c * 3 * 3],
                init: Init::Normal(StdDev::RootTwoOver((c * 3 * 3) as usize)),
            },
        ]
    };
    let enc = resblock_params(level_name("encoder."@, l), e, cfg.enc_in(l), c);
    assert(cfg.encoder_params(l + 1) =~= cfg.encoder_params(l) + enc + tail);
    assert(cfg.decoder_params(l) =~= cfg.decoder_params(l + 1) + resblock_params(
        level_name("decoder."@, l),
        e,
        cfg.below(l) + c,
        c,
    ));
}

/// The parameters of the network are those of the conditioning, of the stem, of
/// the encoder, of the middle block, of the decoder from its deepest level up,
/// and of the output, whose kernel starts at zero.
pub proof fn law_parameters_in_order(cfg: UNetConfig)
    ensures
        ({
            let (b, d) = (cfg.base_channels as nat, cfg.data_channels as nat);
            let in_c = (cfg.data_channels + cfg.cond_channels) as nat;
            let (t, e) = (cfg.t_dim as nat, cfg.emb_dim as nat);
            let deep = if cfg.num_levels == 0 {
                b
            } else {
                cfg.channels((cfg.num_levels - 1) as nat)
            };
            let middle = resblock_params("middle.resblock"@, e, deep, deep);
            cfg.params() == seq![
                ParamView {
                    name: "cond.t_proj"@ + ".weight"@,
                    shape: seq![t, e],
                    init: Init::Normal(StdDev::RootTwoOver((t + e) as usize)),
                },
                ParamView { name: "cond.t_proj"@ + ".bias"@, shape: seq![e], init: Init::Zero },
                ParamView {
                    name: "cond.class_table"@,
                    shape: seq![cfg.num_classes as nat, e],
                    init: Init::Normal(StdDev::Hundredths(2)),
                },
                ParamView {
                    name: "cond.trunk"@ + ".weight"@,
                    shape: seq![e, e],
                    init: Init::Normal(StdDev::RootTwoOver((e + e) as usize)),
                },
                ParamView { name: "cond.trunk"@ + ".bias"@, shape: seq![e], init: Init::Zero },
                ParamView {
                    name: "conv_in.weight"@,
                    shape: seq![b * in_c * 3 * 3],
                    init: Init::Normal(StdDev::RootTwoOver((in_c * 3 * 3) as usize)),
                },
            ] + cfg.encoder_params(cfg.num_levels as nat) + middle + cfg.decoder_params(0) + seq![
                ParamView {
                    name: "conv_out.norm"@ + ".weight"@,
                    shape: seq![b],
                    init: Init::One,
                },
                ParamView { name: "conv_out.norm"@ + ".bias"@, shape: seq![b], init: Init::Zero },
                ParamView {
                    name: "conv_out.weight"@,
                    shape: seq![d * b * 3 * 3],
                    init: Init::Zero,
                },
            ]
        }),
{
    assert(cfg.channels(0) == cfg.base_channels);
    let (b, d) = (cfg.base_channels as nat, cfg.data_channels as nat);
    let in_c = (cfg.data_channels + cfg.cond_channels) as nat;
    let stem = seq![
        ParamView {
            name: "conv_in.weight"@,
            shape: seq![b * in_c * 3 * 3],
            init: Init::Normal(StdDev::RootTwoOver((in_c * 3 * 3) as usize)),
        },
    ];
    let (t, e) = (cfg.t_dim as nat, cfg.emb_dim as nat);
    assert(cfg.embedding_params() + stem =~= seq![
        ParamView {
            name: "cond.t_proj"@ + ".weight"@,
            shape: seq![t, e],
            init: Init::Normal(StdDev::RootTwoOver((t + e) as usize)),
        },
        ParamView { name: "cond.t_proj"@ + ".bias"@, shape: seq![e], init: Init::Zero },
        ParamView {
            name: "cond.class_table"@,
            shape: seq![cfg.num_classes as nat, e],
            init: Init::Normal(StdDev::Hundredths(2)),
        },
        ParamView {
            name: "cond.trunk"@ + ".weight"@,
            shape: seq![e, e],
            init: Init::Normal(StdDev::RootTwoOver((e + e) as usize)),
        },
        ParamView { name: "cond.trunk"@ + ".bias"@, shape: seq![e], init: Init::Zero },
        stem[0],
    ]);
}

/// Lists of parameters by name and shape, and by name and initialiser.
pub proof fn law_parameter_lists(ps: Seq<ParamView>, inits: Seq<(String, Init)>, i: int)
    ensures
        shapes_of(ps).len() == ps.len(),
        inits_of(ps).len() == ps.len(),
        init_list(inits).len() == inits.len(),
        0 <= i < ps.len() ==> shapes_of(ps)[i] == (ps[i].name, ps[i].shape),
        0 <= i < ps.len() ==> inits_of(ps)[i] == (ps[i].name, ps[i].init),
        0 <= i < inits.len() ==> init_list(inits)[i] == (inits[i].0@, inits[i].1),
{
}

/// What a plan says is what the nodes of its calls say.
pub proof fn law_plan_is_its_nodes(plan: Plan, id: u32)
    ensures
        plan.nodes() == plan_nodes(plan.calls@),
        plan.expr(id) == denote(plan_nodes(plan.calls@), id as nat),
        plan.parameters() == parameters(plan_nodes(plan.calls@)),
        plan.inputs() == inputs(plan_nodes(plan.calls@)),
{
}

/// A network that can be built has an even side at every level but the deepest,
/// which the level below it halves, and sizes that fit.
pub proof fn law_buildable_halves(cfg: UNetConfig, l: nat)
    requires
        cfg.fits(),
        l < cfg.num_levels,
    ensures
        cfg.num_levels <= 32,
        1 <= cfg.side(l),
        l + 1 < cfg.num_levels ==> cfg.side(l) == 2 * cfg.side(l + 1),
        cfg.batch as nat * cfg.channels(l) * cfg.side(l) * cfg.side(l) <= usize::MAX,
{
    assert(cfg.level_fits(l));
}

/// The super-resolution network can be built for every resolution that can be
/// halved twice, as long as its largest level fits a word.
pub proof fn law_default_is_buildable(cfg: UNetConfig)
    requires
        cfg.data_channels == 10,
        cfg.cond_channels == 4,
        cfg.base_channels == 64,
        cfg.num_levels == 3,
        cfg.t_dim == 128,
        cfg.emb_dim == 256,
        4 <= cfg.resolution,
        cfg.resolution % 4 == 0,
        cfg.resolution <= 4096,
        cfg.batch <= 4096,
        cfg.batch * cfg.resolution * cfg.resolution * 384 <= u32::MAX,
    ensures
        cfg.fits(),
{
    reveal_with_fuel(UNetConfig::channels, 4);
    reveal_with_fuel(UNetConfig::side, 4);
    let b = cfg.batch as nat;
    let r = cfg.resolution as nat;
    assert(cfg.side(0) == r && cfg.side(1) == r / 2 && cfg.side(2) == r / 4);
    assert(cfg.channels(0) == 64 && cfg.channels(1) == 128 && cfg.channels(2) == 256);
    assert(b * r * r * 384 <= u32::MAX);
    lemma_level_size(b, 14, r, r);
    lemma_level_size(b, 10, r, r);
    lemma_level_size(b, 64, r, r);
    lemma_level_size(b, 192, r, r);
    lemma_level_size(b, 128, r / 2, r);
    lemma_level_size(b, 64, r / 2, r);
    lemma_level_size(b, 384, r / 2, r);
    lemma_level_size(b, 256, r / 4, r);
    lemma_level_size(b, 128, r / 4, r);
    lemma_wide_level(b, r);
    assert forall|l: nat| l < cfg.num_levels implies #[trigger] cfg.level_fits(l) by {
        if l == 0 {
            assert(cfg.level_fits(0));
        } else if l == 1 {
            assert(cfg.level_fits(1));
        } else {
            assert(l == 2);
            assert(cfg.level_fits(2));
        }
    }
}

/// The joined channels of the deepest level fit too: its side is a quarter.
proof fn lemma_wide_level(b: nat, r: nat)
    requires
        b * r * r * 384 <= u32::MAX,
        4 <= r <= 4096,
        b <= 4096,
    ensures
        b * 512 <= u32::MAX,
        b * 512 * (r / 4) <= u32::MAX,
        b * 512 * (r / 4) * (r / 4) <= u32::MAX,
{
    let q = r / 4;
    assert(b * 512 * q <= 4096 * 512 * 1024) by (nonlinear_arith)
        requires
            b <= 4096,
            q <= 1024,
    ;
    assert(b * 512 * q * q <= b * r * r * 384) by (nonlinear_arith)
        requires
            4 * q <= r,
            0 <= b,
            0 <= q,
    ;
}

/// Sizes of a level within those of the largest one.
proof fn lemma_level_size(b: nat, c: nat, s: nat, r: nat)
    requires
        b * r * r * 384 <= u32::MAX,
        4 <= r <= 4096,
        s <= r,
        c <= 384,
    ensures
        s * s <= 4096 * 4096,
        b * c <= u32::MAX,
        b * c * s <= u32::MAX,
        b * c * s * s <= u32::MAX,
{
    assert(s * s <= 4096 * 4096) by (nonlinear_arith)
        requires
            s <= 4096,
    ;
    assert(b * c * s * s <= b * r * r * 384) by (nonlinear_arith)
        requires
            s <= r,
            c <= 384,
            0 <= b,
            0 <= s,
            0 <= c,
    ;
    assert(b * c * s <= b * r * r * 384) by (nonlinear_arith)
        requires
            s <= r,
            c <= 384,
            1 <= r,
            0 <= b,
            0 <= s,
            0 <= c,
    ;
    assert(b * c <= b * r * r * 384) by (nonlinear_arith)
        requires
            c <= 384,
            1 <= r,
            0 <= b,
            0 <= c,
    ;
}

/// A node computes its own operation on what the nodes that it reads compute.
pub proof fn law_denotation(nodes: Seq<NodeView>, id: nat, j: int)
    requires
        id < nodes.len(),
        0 <= j < nodes[id as int].inputs.len(),
        nodes[id as int].inputs[j] < id,
    ensures
        denote(nodes, id).op == nodes[id as int].op,
        denote(nodes, id).shape == nodes[id as int].shape,
        denote(nodes, id).args.len() == nodes[id as int].inputs.len(),
        denote(nodes, id).args[j] == denote(nodes, nodes[id as int].inputs[j]),
{
    reveal(denote);
}

/// The calls of a plan append their nodes one after the other. A group
/// normalisation is one node on its input, its scale and its offset, of the
/// input's shape; a row of ones is one node.
pub proof fn law_appended_nodes(calls: Seq<Call>, call: Call, prior: Seq<NodeView>)
    ensures
        plan_nodes(Seq::<Call>::empty()).len() == 0,
        plan_nodes(calls.push(call)) == plan_nodes(calls) + call_nodes(call, plan_nodes(calls)),
        call matches Call::GroupNorm {
            x,
            weight,
            bias,
            channels,
            spatial,
            groups,
            eps_bits,
            ..
        } ==> call_nodes(call, prior) == seq![
            NodeView {
                op: OpView::GroupNorm {
                    groups: groups as nat,
                    eps_bits,
                    channels: channels as nat,
                    spatial: spatial as nat,
                },
                inputs: seq![x as nat, weight as nat, bias as nat],
                shape: prior[x as int].shape,
            },
        ],
        call matches Call::Ones { cols } ==> call_nodes(call, prior) == seq![
            NodeView { op: OpView::Ones, inputs: seq![], shape: seq![1nat, cols as nat] },
        ],
{
    reveal(plan_nodes);
    reveal(call_nodes);
    assert(calls.push(call).drop_last() =~= calls);
}

/// The parameters and the inputs of a list of nodes are those nodes, in order,
/// whose operation is one.
pub proof fn law_declared_nodes(nodes: Seq<NodeView>, node: NodeView)
    ensures
        parameters(Seq::<NodeView>::empty()).len() == 0,
        inputs(Seq::<NodeView>::empty()).len() == 0,
        node.op matches OpView::Parameter { name } ==> parameters(nodes.push(node)) == parameters(
            nodes,
        ).push((name, node.shape)),
        !(node.op is Parameter) ==> parameters(nodes.push(node)) == parameters(nodes),
        node.op matches OpView::Input { name } ==> inputs(nodes.push(node)) == inputs(nodes).push(
            InputView { name, shape: node.shape, integer: false },
        ),
        node.op matches OpView::InputU32 { name } ==> inputs(nodes.push(node)) == inputs(
            nodes,
        ).push(InputView { name, shape: node.shape, integer: true }),
        !(node.op is Input) && !(node.op is InputU32) ==> inputs(nodes.push(node)) == inputs(nodes),
{
    reveal(parameters);
    reveal(inputs);
    assert(nodes.push(node).drop_last() =~= nodes);
}

/// The shapes of what the operations give: those of a matrix product and of a
/// lookup, of a convolution by its output extents, of a doubling and of a
/// joining of channels.
pub proof fn law_result_shapes(a: Expr, b: Expr, batch: nat, c: nat, d: nat, h: nat, w: nat)
    ensures
        matmul(a, b).shape == seq![a.shape[0], b.shape[1]],
        matmul(a, b).args == seq![a, b],
        dense(a, b, b).shape == seq![a.shape[0], b.shape[1]],
        embedding(a, b).shape == seq![a.shape[0], b.shape[1]],
        embedding(a, b).args == seq![a, b],
        sum(a, b).shape == a.shape,
        sum(a, b).args == seq![a, b],
        silu(a).shape == a.shape,
        1 <= h && 1 <= w ==> conv2d(a, b, batch, c, h, w, d, 3, 1, 1).shape == seq![
            batch * d * h * w,
        ],
        1 <= h && 1 <= w ==> conv2d(a, b, batch, c, h, w, d, 1, 1, 0).shape == seq![
            batch * d * h * w,
        ],
        1 <= h && 1 <= w ==> conv2d(a, b, batch, c, h, w, d, 3, 2, 1).shape == seq![
            batch * d * ((h + 1) / 2) * ((w + 1) / 2),
        ],
        upsample_2x(a, batch, c, h, w).shape == seq![batch * c * (h * 2) * (w * 2)],
        concat(a, b, batch, c, d, h).shape == seq![batch * (c + d) * h],
{
}

/// A residual block fits exactly where its kernels, its planes and the values of
/// all samples fit the words that they are counted in.
pub proof fn law_blocks_that_fit(b: nat, in_c: nat, out_c: nat, side: nat)
    ensures
        block_fits(b, in_c, out_c, side) <==> {
            &&& 1 <= side && side * side <= u32::MAX
            &&& in_c * 9 <= u32::MAX && out_c * 9 <= u32::MAX
            &&& out_c * in_c * 9 <= u32::MAX && out_c * out_c * 9 <= u32::MAX
            &&& b * out_c <= u32::MAX
            &&& b * in_c <= usize::MAX
            &&& b * in_c * side <= usize::MAX
            &&& b * in_c * side * side <= usize::MAX
            &&& b * out_c <= usize::MAX
            &&& b * out_c * side <= usize::MAX
            &&& b * out_c * side * side <= usize::MAX
        },
{
}

/// A network can be built exactly where its dense layers, its stem, its output
/// and the blocks of all its levels fit, and the side of every level but the
/// deepest is twice that of the next.
pub proof fn law_networks_that_fit(cfg: UNetConfig)
    ensures
        cfg.fits() <==> {
            let b = cfg.batch as nat;
            let r = cfg.resolution as nat;
            let base = cfg.base_channels as nat;
            let d = cfg.data_channels as nat;
            let in_c = (cfg.data_channels + cfg.cond_channels) as nat;
            &&& cfg.num_levels <= 32
            &&& cfg.t_dim + cfg.emb_dim <= usize::MAX
            &&& cfg.emb_dim + cfg.emb_dim <= usize::MAX
            &&& in_c * 9 <= u32::MAX && base * in_c * 9 <= u32::MAX
            &&& b * in_c <= u32::MAX && b * in_c * r <= u32::MAX && b * in_c * r * r <= u32::MAX
            &&& block_fits(b, base, base, r)
            &&& d * base * 9 <= u32::MAX
            &&& b * d <= usize::MAX && b * d * r <= usize::MAX && b * d * r * r <= usize::MAX
            &&& forall|l: nat| #![trigger cfg.side(l)]
                l < cfg.num_levels ==> {
                    let c = cfg.channels(l);
                    let above = if l == 0 {
                        base
                    } else {
                        cfg.channels((l - 1) as nat)
                    };
                    let deepest = l + 1 == cfg.num_levels;
                    &&& block_fits(b, above, c, cfg.side(l))
                    &&& block_fits(
                        b,
                        if deepest {
                            c + c
                        } else {
                            2 * c + c
                        },
                        c,
                        cfg.side(l),
                    )
                    &&& !deepest ==> cfg.side(l) == 2 * ((cfg.side(l) + 1) / 2)
                }
        },
{
    assert forall|l: nat| #![trigger cfg.level_fits(l)] l < cfg.num_levels implies (
    cfg.level_fits(l) <==> {
        let c = cfg.channels(l);
        let above = if l == 0 {
            cfg.base_channels as nat
        } else {
            cfg.channels((l - 1) as nat)
        };
        let deepest = l + 1 == cfg.num_levels;
        &&& block_fits(cfg.batch as nat, above, c, cfg.side(l))
        &&& block_fits(
            cfg.batch as nat,
            if deepest {
                c + c
            } else {
                2 * c + c
            },
            c,
            cfg.side(l),
        )
        &&& !deepest ==> cfg.side(l) == 2 * ((cfg.side(l) + 1) / 2)
    }) by {
        assert(cfg.channels(l + 1) == 2 * cfg.channels(l));
        if 1 <= cfg.side(l) {
            law_level_sizes(cfg, l);
        }
    }
    if cfg.fits() {
        assert forall|l: nat|
            #![trigger cfg.side(l)]
            l < cfg.num_levels implies cfg.level_fits(l) by {}
    }
}

} // verus!
