//! Operation plans: which operands each layer's operators bind.
use vstd::prelude::*;

verus! {

/// One bound operand of an operation.
#[derive(Debug, Clone, PartialEq, Eq)]
pub struct OperandRef {
    pub object: String,
    pub tensor: String,
    pub dtype: String,
    pub shape: Vec<usize>,
}

/// Softmax attention.
#[derive(Debug, Clone, PartialEq, Eq)]
pub struct SoftmaxOp {
    pub q: OperandRef,
    pub k: OperandRef,
    pub v: OperandRef,
    pub o: OperandRef,
    /// The projection of the output gate, where the layer has one.
    pub output_gate: Option<OperandRef>,
}

/// Gated DeltaNet.
#[derive(Debug, Clone, PartialEq, Eq)]
pub struct GatedDeltaOp {
    pub in_proj_qkv: OperandRef,
    pub in_proj_z: OperandRef,
    pub in_proj_a: OperandRef,
    pub in_proj_b: OperandRef,
    pub out_proj: OperandRef,
    pub conv1d: OperandRef,
    pub a_log: OperandRef,
    pub dt_bias: OperandRef,
    pub norm: OperandRef,
}

/// Kimi delta attention.
#[derive(Debug, Clone, PartialEq, Eq)]
pub struct KdaOp {
    pub q_proj: OperandRef,
    pub k_proj: OperandRef,
    pub v_proj: OperandRef,
    pub out_proj: OperandRef,
    pub f_a_proj: OperandRef,
    pub f_b_proj: OperandRef,
    pub b_proj: OperandRef,
    /// The output gate's operands, each with its name.
    pub output_gate: Vec<(String, OperandRef)>,
    pub q_conv1d: OperandRef,
    pub k_conv1d: OperandRef,
    pub v_conv1d: OperandRef,
    pub a_log: OperandRef,
    pub dt_bias: OperandRef,
    pub o_norm: OperandRef,
}

/// Multi-head latent attention.
#[derive(Debug, Clone, PartialEq, Eq)]
pub struct MlaOp {
    pub kv_a_proj: OperandRef,
    pub kv_b_proj: OperandRef,
    pub out_proj: OperandRef,
    /// The query's operands, each with its name.
    pub query: Vec<(String, OperandRef)>,
    pub kv_a_norm: OperandRef,
}

/// Softmax attention over a convolved fused projection.
#[derive(Debug, Clone, PartialEq, Eq)]
pub struct ConvQkvOp {
    pub in_proj: OperandRef,
    pub out_proj: OperandRef,
    pub conv1d: OperandRef,
    pub conv1d_bias: Option<OperandRef>,
}

/// Mamba2.
#[derive(Debug, Clone, PartialEq, Eq)]
pub struct Mamba2Op {
    pub in_proj: OperandRef,
    pub out_proj: OperandRef,
    pub conv1d: OperandRef,
    pub a_log: OperandRef,
    pub d: OperandRef,
    pub dt_bias: OperandRef,
    pub conv1d_bias: Option<OperandRef>,
    /// The weight of the gated norm, where the layer has one.
    pub gated_norm: Option<OperandRef>,
}

/// A layer's token mixer.
#[derive(Debug, Clone, PartialEq, Eq)]
pub enum LayerAttention {
    Softmax(SoftmaxOp),
    GatedDelta(GatedDeltaOp),
    Kda(KdaOp),
    Mla(MlaOp),
    ConvQkv(ConvQkvOp),
    Mamba2(Mamba2Op),
}

/// A dense feed-forward block.
#[derive(Debug, Clone, PartialEq, Eq)]
pub struct DenseFfn {
    pub gate: Option<OperandRef>,
    pub up: OperandRef,
    pub down: OperandRef,
}

/// A layer's feed-forward block. Routed and hybrid blocks carve their experts
/// into an object of their own.
#[derive(Debug, Clone, PartialEq, Eq)]
pub enum LayerFfn {
    Dense(DenseFfn),
    Routed,
    Hybrid,
}

/// One layer's operators.
#[derive(Debug, Clone, PartialEq, Eq)]
pub struct LayerPlan {
    pub attention: LayerAttention,
    pub ffn: Option<LayerFfn>,
}

/// One component's operators, layer by layer.
#[derive(Debug, Clone, PartialEq, Eq)]
pub struct ComponentOpPlan {
    pub layers: Vec<LayerPlan>,
}

} // verus!
