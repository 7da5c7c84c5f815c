//! Roles read from operation plans, not from tensor names.
use larql_represent::opplan::{
    ComponentOpPlan, ConvQkvOp, DenseFfn, GatedDeltaOp, KdaOp, LayerAttention, LayerFfn, LayerPlan,
    Mamba2Op, MlaOp, OperandRef, SoftmaxOp,
};
use larql_represent::plan_roles::{plan_roles, PlanRoles};
use larql_represent::policy::Role;
use larql_represent::surface::TensorIdentity;

const STACK: &str = "target.decoder_stack";

fn op(tensor: String) -> OperandRef {
    OperandRef {
        object: STACK.into(),
        tensor,
        dtype: "F32".into(),
        shape: vec![8, 8],
    }
}

fn dense(layer: u32) -> Option<LayerFfn> {
    let of = |p: &str| op(format!("{layer}.mlp.{p}_proj.weight"));
    Some(LayerFfn::Dense(DenseFfn {
        gate: Some(of("gate")),
        up: of("up"),
        down: of("down"),
    }))
}

fn gated_delta(layer: u32) -> LayerPlan {
    let of = |p: &str| op(format!("{layer}.linear_attn.{p}"));
    LayerPlan {
        attention: LayerAttention::GatedDelta(GatedDeltaOp {
            in_proj_qkv: of("in_proj_qkv.weight"),
            in_proj_z: of("in_proj_z.weight"),
            in_proj_a: of("in_proj_a.weight"),
            in_proj_b: of("in_proj_b.weight"),
            out_proj: of("out_proj.weight"),
            conv1d: of("conv1d.weight"),
            a_log: of("A_log"),
            dt_bias: of("dt_bias"),
            norm: of("norm.weight"),
        }),
        ffn: dense(layer),
    }
}

fn softmax(layer: u32) -> LayerPlan {
    let of = |p: &str| op(format!("{layer}.self_attn.{p}_proj.weight"));
    LayerPlan {
        attention: LayerAttention::Softmax(SoftmaxOp {
            q: of("q"),
            k: of("k"),
            v: of("v"),
            o: of("o"),
            output_gate: Some(of("g")),
        }),
        ffn: dense(layer),
    }
}

fn kda(layer: u32) -> LayerPlan {
    let of = |p: &str| op(format!("{layer}.self_attn.{p}"));
    LayerPlan {
        attention: LayerAttention::Kda(KdaOp {
            q_proj: of("q_proj.weight"),
            k_proj: of("k_proj.weight"),
            v_proj: of("v_proj.weight"),
            out_proj: of("o_proj.weight"),
            f_a_proj: of("f_a_proj.weight"),
            f_b_proj: of("f_b_proj.weight"),
            b_proj: of("b_proj.weight"),
            output_gate: vec![
                ("g_a_proj".into(), of("g_a_proj.weight")),
                ("g_b_proj".into(), of("g_b_proj.weight")),
            ],
            q_conv1d: of("q_conv1d.weight"),
            k_conv1d: of("k_conv1d.weight"),
            v_conv1d: of("v_conv1d.weight"),
            a_log: of("A_log"),
            dt_bias: of("dt_bias"),
            o_norm: of("o_norm.weight"),
        }),
        ffn: Some(LayerFfn::Routed),
    }
}

fn mla(layer: u32) -> LayerPlan {
    let of = |p: &str| op(format!("{layer}.self_attn.{p}.weight"));
    LayerPlan {
        attention: LayerAttention::Mla(MlaOp {
            kv_a_proj: of("kv_a_proj_with_mqa"),
            kv_b_proj: of("kv_b_proj"),
            out_proj: of("o_proj"),
            query: vec![
                ("q_proj".into(), of("q_proj")),
                ("q_a_layernorm".into(), of("q_a_layernorm")),
            ],
            kv_a_norm: of("kv_a_layernorm"),
        }),
        ffn: Some(LayerFfn::Hybrid),
    }
}

fn mamba2(layer: u32) -> LayerPlan {
    let of = |p: &str| op(format!("{layer}.mixer.{p}"));
    LayerPlan {
        attention: LayerAttention::Mamba2(Mamba2Op {
            in_proj: of("in_proj.weight"),
            out_proj: of("out_proj.weight"),
            conv1d: of("conv1d.weight"),
            a_log: of("A_log"),
            d: of("D"),
            dt_bias: of("dt_bias"),
            conv1d_bias: Some(of("conv1d.bias")),
            gated_norm: Some(of("norm.weight")),
        }),
        ffn: None,
    }
}

fn conv_qkv(layer: u32) -> LayerPlan {
    let of = |p: &str| op(format!("{layer}.mixer.{p}"));
    LayerPlan {
        attention: LayerAttention::ConvQkv(ConvQkvOp {
            in_proj: of("in_proj.weight"),
            out_proj: of("out_proj.weight"),
            conv1d: of("conv1d.weight"),
            conv1d_bias: Some(of("conv1d.bias")),
        }),
        ffn: None,
    }
}

fn roles_for(layers: Vec<LayerPlan>) -> PlanRoles {
    plan_roles(&vec![Some(ComponentOpPlan { layers })])
}

fn role(roles: &PlanRoles, tensor: &str) -> Option<Role> {
    roles.get(&TensorIdentity::new(STACK, tensor)).copied()
}

/// Three recurrent layers and one that attends.
fn hybrid_lllf() -> Vec<LayerPlan> {
    vec![gated_delta(0), gated_delta(1), gated_delta(2), softmax(3)]
}

#[test]
fn gated_delta_operands_are_named_where_the_name_test_saw_nothing() {
    let roles = roles_for(hybrid_lllf());
    // The bulk matmuls of the recurrence.
    for suffix in ["in_proj_qkv.weight", "in_proj_z.weight", "out_proj.weight"] {
        assert_eq!(
            role(&roles, &format!("0.linear_attn.{suffix}")),
            Some(Role::RecurrenceProjection),
            "{suffix}"
        );
    }
    // The control path.
    for suffix in ["in_proj_a.weight", "in_proj_b.weight"] {
        assert_eq!(
            role(&roles, &format!("0.linear_attn.{suffix}")),
            Some(Role::RecurrenceControl),
            "{suffix}"
        );
    }
    assert_eq!(role(&roles, "2.linear_attn.conv1d.weight"), Some(Role::SmallVector));
    assert_eq!(role(&roles, "2.linear_attn.norm.weight"), Some(Role::Norm));
    assert_eq!(role(&roles, "3.self_attn.g_proj.weight"), Some(Role::DecoderLinear));
    assert_eq!(role(&roles, "3.mlp.gate_proj.weight"), Some(Role::DecoderLinear));
}

/// MLA keeps a cache per position, so its operands are decoder linear work and
/// not a recurrence's.
#[test]
fn kda_and_mla_operands_are_named_and_not_confused_with_each_other() {
    let roles = roles_for(vec![kda(0), kda(1), kda(2), mla(3)]);
    for tensor in ["0.self_attn.q_proj.weight", "0.self_attn.o_proj.weight"] {
        assert_eq!(role(&roles, tensor), Some(Role::RecurrenceProjection), "{tensor}");
    }
    for tensor in [
        "0.self_attn.f_a_proj.weight",
        "0.self_attn.b_proj.weight",
        "0.self_attn.g_b_proj.weight",
    ] {
        assert_eq!(role(&roles, tensor), Some(Role::RecurrenceControl), "{tensor}");
    }
    for tensor in [
        "3.self_attn.q_proj.weight",
        "3.self_attn.kv_a_proj_with_mqa.weight",
        "3.self_attn.kv_b_proj.weight",
        "3.self_attn.o_proj.weight",
    ] {
        assert_eq!(role(&roles, tensor), Some(Role::DecoderLinear), "{tensor}");
    }
    assert_eq!(role(&roles, "3.self_attn.q_a_layernorm.weight"), Some(Role::Norm));
    assert_eq!(role(&roles, "3.self_attn.kv_a_layernorm.weight"), Some(Role::Norm));
}

/// A block that is all mixer and ships no feed-forward part.
#[test]
fn mamba2_operands_are_named() {
    let roles = roles_for(vec![mamba2(0)]);
    assert_eq!(role(&roles, "0.mixer.in_proj.weight"), Some(Role::RecurrenceProjection));
    assert_eq!(role(&roles, "0.mixer.out_proj.weight"), Some(Role::RecurrenceProjection));
    assert_eq!(role(&roles, "0.mixer.conv1d.bias"), Some(Role::SmallVector));
    assert_eq!(role(&roles, "0.mixer.norm.weight"), Some(Role::Norm));
    assert_eq!(roles.len(), 8);
}

/// Layers 1 and 3 attend and the rest are recurrent, on operands of the same
/// names: the role follows the operator, not the string.
#[test]
fn conv_qkv_operands_are_attention_work_not_recurrence_work() {
    let roles = roles_for(vec![mamba2(0), conv_qkv(1), mamba2(2), conv_qkv(3)]);
    for layer in [1, 3] {
        for operand in ["in_proj", "out_proj"] {
            let tensor = format!("{layer}.mixer.{operand}.weight");
            assert_eq!(role(&roles, &tensor), Some(Role::DecoderLinear), "{tensor}");
        }
        let conv = format!("{layer}.mixer.conv1d.weight");
        assert_eq!(role(&roles, &conv), Some(Role::SmallVector), "{conv}");
    }
    for layer in [0, 2] {
        let tensor = format!("{layer}.mixer.in_proj.weight");
        assert_eq!(role(&roles, &tensor), Some(Role::RecurrenceProjection), "{tensor}");
    }
}

#[test]
fn no_planned_operand_of_any_vocabulary_classifies_unknown() {
    for (layers, name) in [
        (hybrid_lllf(), "gated-deltanet"),
        (vec![kda(0), mla(1)], "kda/mla"),
        (vec![mamba2(0), conv_qkv(1)], "mamba2"),
    ] {
        let roles = roles_for(layers);
        assert!(!roles.is_empty(), "{name}: the plan bound no operands");
        for i in 0..roles.len() {
            assert_ne!(*roles.value_at(i), Role::Unknown, "{name}");
        }
    }
}

/// A component without a plan adds nothing, and one tensor bound twice has the
/// role it was bound in last.
#[test]
fn the_last_binding_of_a_tensor_decides() {
    let shared = plan_roles(&vec![
        None,
        Some(ComponentOpPlan {
            layers: vec![mamba2(0)],
        }),
        Some(ComponentOpPlan {
            layers: vec![conv_qkv(0)],
        }),
    ]);
    assert_eq!(role(&shared, "0.mixer.in_proj.weight"), Some(Role::DecoderLinear));
    assert!(plan_roles(&vec![None]).is_empty());
}
