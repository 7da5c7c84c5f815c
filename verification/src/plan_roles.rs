//! Semantic roles read from the operation plan, not from tensor names.
//!
//! A plan has bound every operand to what its operator computes with. Names
//! are the fallback for what no plan covers. This classifies; it does not
//! decide precision.
use crate::opplan::{
    ComponentOpPlan, ConvQkvOp, GatedDeltaOp, KdaOp, LayerAttention, LayerFfn, LayerPlan, Mamba2Op,
    MlaOp, OperandRef, SoftmaxOp,
};
use crate::policy::Role;
use crate::surface::TensorIdentity;
use crate::table::{in_order, lemma_with_row_lookup, lookup, with_row, Table};
use crate::text::same;
use vstd::prelude::*;
use vstd::string::*;

verus! {

/// A tensor, by the object that holds it and its name there.
pub type Pair = (Seq<char>, Seq<char>);

/// Every tensor the plans bind, with the role its operator gives it.
pub type PlanRoles = Table<TensorIdentity, Role>;

/// The tensor an operand names.
pub open spec fn pair_of(op: OperandRef) -> Pair {
    (op.object@, op.tensor@)
}

/// One operand in one role.
pub open spec fn held(role: Role, op: OperandRef) -> Seq<(Role, Pair)> {
    seq![(role, pair_of(op))]
}

/// An operand that a layer may lack, in one role.
pub open spec fn held_if(role: Role, op: Option<OperandRef>) -> Seq<(Role, Pair)> {
    match op {
        Some(o) => held(role, o),
        None => Seq::empty(),
    }
}

/// Named operands, all in one role.
pub open spec fn held_all(role: Role, ops: Seq<(String, OperandRef)>) -> Seq<(Role, Pair)> {
    ops.map_values(|o: (String, OperandRef)| (role, pair_of(o.1)))
}

/// The role of a query operand: the norm between the projections of a
/// factorised query is a norm, and the rest is decoder linear work.
pub open spec fn query_role(name: Seq<char>) -> Role {
    if name == "q_a_layernorm"@ {
        Role::Norm
    } else {
        Role::DecoderLinear
    }
}

/// A query's operands, in their roles.
pub open spec fn held_query(ops: Seq<(String, OperandRef)>) -> Seq<(Role, Pair)> {
    ops.map_values(|o: (String, OperandRef)| (query_role(o.0@), pair_of(o.1)))
}

/// The operands of a token mixer, in their roles. A recurrence's bulk matrices
/// are projections and what drives its state update is control; attention that
/// keeps a cache per position is ordinary linear work.
pub open spec fn attention_roles(attention: LayerAttention) -> Seq<(Role, Pair)> {
    match attention {
        LayerAttention::Softmax(a) => Seq::empty()
            + held(Role::DecoderLinear, a.q)
            + held(Role::DecoderLinear, a.k)
            + held(Role::DecoderLinear, a.v)
            + held(Role::DecoderLinear, a.o)
            + held_if(Role::DecoderLinear, a.output_gate),
        LayerAttention::GatedDelta(a) => Seq::empty()
            + held(Role::RecurrenceProjection, a.in_proj_qkv)
            + held(Role::RecurrenceProjection, a.in_proj_z)
            + held(Role::RecurrenceProjection, a.out_proj)
            + held(Role::RecurrenceControl, a.in_proj_a)
            + held(Role::RecurrenceControl, a.in_proj_b)
            + held(Role::SmallVector, a.conv1d)
            + held(Role::SmallVector, a.a_log)
            + held(Role::SmallVector, a.dt_bias)
            + held(Role::Norm, a.norm),
        LayerAttention::Kda(a) => Seq::empty()
            + held(Role::RecurrenceProjection, a.q_proj)
            + held(Role::RecurrenceProjection, a.k_proj)
            + held(Role::RecurrenceProjection, a.v_proj)
            + held(Role::RecurrenceProjection, a.out_proj)
            + held(Role::RecurrenceControl, a.f_a_proj)
            + held(Role::RecurrenceControl, a.f_b_proj)
            + held(Role::RecurrenceControl, a.b_proj)
            + held_all(Role::RecurrenceControl, a.output_gate@)
            + held(Role::SmallVector, a.q_conv1d)
            + held(Role::SmallVector, a.k_conv1d)
            + held(Role::SmallVector, a.v_conv1d)
            + held(Role::SmallVector, a.a_log)
            + held(Role::SmallVector, a.dt_bias)
            + held(Role::Norm, a.o_norm),
        LayerAttention::Mla(a) => Seq::empty()
            + held(Role::DecoderLinear, a.kv_a_proj)
            + held(Role::DecoderLinear, a.kv_b_proj)
            + held(Role::DecoderLinear, a.out_proj)
            + held_query(a.query@)
            + held(Role::Norm, a.kv_a_norm),
        LayerAttention::ConvQkv(a) => Seq::empty()
            + held(Role::DecoderLinear, a.in_proj)
            + held(Role::DecoderLinear, a.out_proj)
            + held(Role::SmallVector, a.conv1d)
            + held_if(Role::SmallVector, a.conv1d_bias),
        LayerAttention::Mamba2(a) => Seq::empty()
            + held(Role::RecurrenceProjection, a.in_proj)
            + held(Role::RecurrenceProjection, a.out_proj)
            + held(Role::SmallVector, a.conv1d)
            + held(Role::SmallVector, a.a_log)
            + held(Role::SmallVector, a.d)
            + held(Role::SmallVector, a.dt_bias)
            + held_if(Role::SmallVector, a.conv1d_bias)
            + held_if(Role::Norm, a.gated_norm),
    }
}

/// The operands of a feed-forward block, in their roles.
pub open spec fn ffn_roles(ffn: Option<LayerFfn>) -> Seq<(Role, Pair)> {
    match ffn {
        Some(LayerFfn::Dense(f)) => Seq::empty() + held_if(Role::DecoderLinear, f.gate) + held(
            Role::DecoderLinear,
            f.up,
        ) + held(Role::DecoderLinear, f.down),
        _ => Seq::empty(),
    }
}

/// The operands of the layers, in their roles.
pub open spec fn layer_roles(layers: Seq<LayerPlan>) -> Seq<(Role, Pair)>
    decreases layers.len(),
{
    if layers.len() == 0 {
        Seq::empty()
    } else {
        layer_roles(layers.drop_last()) + attention_roles(layers.last().attention) + ffn_roles(
            layers.last().ffn,
        )
    }
}

/// The operands of every component that has a plan, in their roles.
pub open spec fn planned(plans: Seq<Option<ComponentOpPlan>>) -> Seq<(Role, Pair)>
    decreases plans.len(),
{
    if plans.len() == 0 {
        Seq::empty()
    } else {
        match plans.last() {
            Some(p) => planned(plans.drop_last()) + layer_roles(p.layers@),
            None => planned(plans.drop_last()),
        }
    }
}

/// The table a list of bindings leaves: a later binding of one tensor replaces
/// an earlier one.
pub open spec fn bound(list: Seq<(Role, Pair)>) -> Seq<(Pair, Role)>
    decreases list.len(),
{
    if list.len() == 0 {
        Seq::empty()
    } else {
        with_row::<TensorIdentity, Role>(bound(list.drop_last()), list.last().1, list.last().0)
    }
}

/// Bindings, by what they state.
pub open spec fn listed(s: Seq<(Role, &OperandRef)>) -> Seq<(Role, Pair)> {
    s.map_values(|e: (Role, &OperandRef)| (e.0, pair_of(*e.1)))
}

fn put<'a>(list: &mut Vec<(Role, &'a OperandRef)>, role: Role, op: &'a OperandRef)
    ensures
        listed(final(list)@) == listed(old(list)@) + held(role, *op),
{
    list.push((role, op));
    assert(listed(list@) =~= listed(old(list)@) + held(role, *op));
}

fn put_if<'a>(list: &mut Vec<(Role, &'a OperandRef)>, role: Role, op: &'a Option<OperandRef>)
    ensures
        listed(final(list)@) == listed(old(list)@) + held_if(role, *op),
{
    match op {
        Some(o) => put(list, role, o),
        None => {
            assert(listed(list@) =~= listed(old(list)@) + held_if(role, *op));
        },
    }
}

fn put_all<'a>(
    list: &mut Vec<(Role, &'a OperandRef)>,
    role: Role,
    ops: &'a Vec<(String, OperandRef)>,
)
    ensures
        listed(final(list)@) == listed(old(list)@) + held_all(role, ops@),
{
    let ghost start = listed(list@);
    let ghost whole = held_all(role, ops@);
    let mut i: usize = 0;
    assert(start + whole.take(0) =~= start);
    while i < ops.len()
        invariant
            i <= ops@.len(),
            whole == held_all(role, ops@),
            listed(list@) == start + whole.take(i as int),
        decreases ops@.len() - i,
    {
        put(list, role, &ops[i].1);
        assert(start + whole.take(i as int) + held(role, ops@[i as int].1) =~= start + whole.take(
            i as int + 1,
        ));
        i = i + 1;
    }
    assert(whole.take(i as int) =~= whole);
}

fn put_query<'a>(list: &mut Vec<(Role, &'a OperandRef)>, ops: &'a Vec<(String, OperandRef)>)
    ensures
        listed(final(list)@) == listed(old(list)@) + held_query(ops@),
{
    let ghost start = listed(list@);
    let ghost whole = held_query(ops@);
    let mut i: usize = 0;
    assert(start + whole.take(0) =~= start);
    while i < ops.len()
        invariant
            i <= ops@.len(),
            whole == held_query(ops@),
            listed(list@) == start + whole.take(i as int),
        decreases ops@.len() - i,
    {
        let role: Role = if same(ops[i].0.as_str(), "q_a_layernorm") {
            Role::Norm
        } else {
            Role::DecoderLinear
        };
        put(list, role, &ops[i].1);
        assert(start + whole.take(i as int) + held(role, ops@[i as int].1) =~= start + whole.take(
            i as int + 1,
        ));
        i = i + 1;
    }
    assert(whole.take(i as int) =~= whole);
}

/// The operands of a token mixer, in their roles.
pub fn collect_attention<'a>(attention: &'a LayerAttention) -> (r: Vec<(Role, &'a OperandRef)>)
    ensures
        listed(r@) == attention_roles(*attention),
{
    let mut list: Vec<(Role, &'a OperandRef)> = Vec::new();
    assert(listed(list@) =~= Seq::empty());
    match attention {
        LayerAttention::Softmax(a) => {
            put(&mut list, Role::DecoderLinear, &a.q);
            put(&mut list, Role::DecoderLinear, &a.k);
            put(&mut list, Role::DecoderLinear, &a.v);
            put(&mut list, Role::DecoderLinear, &a.o);
            put_if(&mut list, Role::DecoderLinear, &a.output_gate);
        },
        LayerAttention::GatedDelta(a) => {
            put(&mut list, Role::RecurrenceProjection, &a.in_proj_qkv);
            put(&mut list, Role::RecurrenceProjection, &a.in_proj_z);
            put(&mut list, Role::RecurrenceProjection, &a.out_proj);
            put(&mut list, Role::RecurrenceControl, &a.in_proj_a);
            put(&mut list, Role::RecurrenceControl, &a.in_proj_b);
            put(&mut list, Role::SmallVector, &a.conv1d);
            put(&mut list, Role::SmallVector, &a.a_log);
            put(&mut list, Role::SmallVector, &a.dt_bias);
            put(&mut list, Role::Norm, &a.norm);
        },
        LayerAttention::Kda(a) => {
            put(&mut list, Role::RecurrenceProjection, &a.q_proj);
            put(&mut list, Role::RecurrenceProjection, &a.k_proj);
            put(&mut list, Role::RecurrenceProjection, &a.v_proj);
            put(&mut list, Role::RecurrenceProjection, &a.out_proj);
            put(&mut list, Role::RecurrenceControl, &a.f_a_proj);
            put(&mut list, Role::RecurrenceControl, &a.f_b_proj);
            put(&mut list, Role::RecurrenceControl, &a.b_proj);
            put_all(&mut list, Role::RecurrenceControl, &a.output_gate);
            put(&mut list, Role::SmallVector, &a.q_conv1d);
            put(&mut list, Role::SmallVector, &a.k_conv1d);
            put(&mut list, Role::SmallVector, &a.v_conv1d);
            put(&mut list, Role::SmallVector, &a.a_log);
            put(&mut list, Role::SmallVector, &a.dt_bias);
            put(&mut list, Role::Norm, &a.o_norm);
        },
        LayerAttention::Mla(a) => {
            put(&mut list, Role::DecoderLinear, &a.kv_a_proj);
            put(&mut list, Role::DecoderLinear, &a.kv_b_proj);
            put(&mut list, Role::DecoderLinear, &a.out_proj);
            put_query(&mut list, &a.query);
            put(&mut list, Role::Norm, &a.kv_a_norm);
        },
        LayerAttention::ConvQkv(a) => {
            put(&mut list, Role::DecoderLinear, &a.in_proj);
            put(&mut list, Role::DecoderLinear, &a.out_proj);
            put(&mut list, Role::SmallVector, &a.conv1d);
            put_if(&mut list, Role::SmallVector, &a.conv1d_bias);
        },
        LayerAttention::Mamba2(a) => {
            put(&mut list, Role::RecurrenceProjection, &a.in_proj);
            put(&mut list, Role::RecurrenceProjection, &a.out_proj);
            put(&mut list, Role::SmallVector, &a.conv1d);
            put(&mut list, Role::SmallVector, &a.a_log);
            put(&mut list, Role::SmallVector, &a.d);
            put(&mut list, Role::SmallVector, &a.dt_bias);
            put_if(&mut list, Role::SmallVector, &a.conv1d_bias);
            put_if(&mut list, Role::Norm, &a.gated_norm);
        },
    }
    list
}

/// The operands of a feed-forward block, in their roles. Routed and hybrid
/// blocks add nothing: the path of the expert bank classifies theirs.
pub fn collect_ffn<'a>(ffn: &'a Option<LayerFfn>) -> (r: Vec<(Role, &'a OperandRef)>)
    ensures
        listed(r@) == ffn_roles(*ffn),
{
    let mut list: Vec<(Role, &'a OperandRef)> = Vec::new();
    assert(listed(list@) =~= Seq::empty());
    match ffn {
        Some(LayerFfn::Dense(f)) => {
            put_if(&mut list, Role::DecoderLinear, &f.gate);
            put(&mut list, Role::DecoderLinear, &f.up);
            put(&mut list, Role::DecoderLinear, &f.down);
        },
        _ => {},
    }
    list
}

/// Bind every operand of a list, in order.
fn bind_all(roles: &mut PlanRoles, list: &Vec<(Role, &OperandRef)>, Ghost(before): Ghost<
    Seq<(Role, Pair)>,
>)
    requires
        old(roles).rows() == bound(before),
        in_order::<TensorIdentity, Role>(old(roles).rows()),
    ensures
        final(roles).rows() == bound(before + listed(list@)),
        in_order::<TensorIdentity, Role>(final(roles).rows()),
{
    let ghost all = before + listed(list@);
    let mut i: usize = 0;
    assert(all.take(before.len() as int) =~= before);
    while i < list.len()
        invariant
            i <= list@.len(),
            all == before + listed(list@),
            roles.rows() == bound(all.take(before.len() + i)),
            in_order::<TensorIdentity, Role>(roles.rows()),
        decreases list@.len() - i,
    {
        let op: &OperandRef = list[i].1;
        roles.insert(
            TensorIdentity::new(op.object.as_str(), op.tensor.as_str()),
            list[i].0,
        );
        proof {
            let next = all.take(before.len() + i + 1);
            assert(next.drop_last() =~= all.take(before.len() + i));
            assert(next.last() == listed(list@)[i as int]);
        }
        i = i + 1;
    }
    assert(all.take(all.len() as int) =~= all);
}

/// Bind every operand of one component's plan.
fn collect(plan: &ComponentOpPlan, roles: &mut PlanRoles, Ghost(before): Ghost<Seq<(Role, Pair)>>)
    requires
        old(roles).rows() == bound(before),
        in_order::<TensorIdentity, Role>(old(roles).rows()),
    ensures
        final(roles).rows() == bound(before + layer_roles(plan.layers@)),
        in_order::<TensorIdentity, Role>(final(roles).rows()),
{
    let mut i: usize = 0;
    assert(plan.layers@.take(0) =~= Seq::empty());
    assert(before + layer_roles(plan.layers@.take(0)) =~= before);
    while i < plan.layers.len()
        invariant
            i <= plan.layers@.len(),
            roles.rows() == bound(before + layer_roles(plan.layers@.take(i as int))),
            in_order::<TensorIdentity, Role>(roles.rows()),
        decreases plan.layers@.len() - i,
    {
        let ghost done = layer_roles(plan.layers@.take(i as int));
        let layer: &LayerPlan = &plan.layers[i];
        let attention: Vec<(Role, &OperandRef)> = collect_attention(&layer.attention);
        bind_all(roles, &attention, Ghost(before + done));
        let ffn: Vec<(Role, &OperandRef)> = collect_ffn(&layer.ffn);
        bind_all(roles, &ffn, Ghost(before + done + attention_roles(layer.attention)));
        proof {
            let next = plan.layers@.take(i as int + 1);
            assert(next.drop_last() =~= plan.layers@.take(i as int));
            assert(before + done + attention_roles(layer.attention) + ffn_roles(layer.ffn)
                =~= before + layer_roles(next));
        }
        i = i + 1;
    }
    assert(plan.layers@.take(i as int) =~= plan.layers@);
}

/// **The role of every operand the components' plans bind.** A component
/// without a plan contributes nothing.
pub fn plan_roles(plans: &Vec<Option<ComponentOpPlan>>) -> (r: PlanRoles)
    ensures
        r.rows() == bound(planned(plans@)),
        in_order::<TensorIdentity, Role>(r.rows()),
{
    let mut roles: PlanRoles = Table::new();
    let mut i: usize = 0;
    assert(plans@.take(0) =~= Seq::empty());
    assert(planned(plans@.take(0)) =~= Seq::empty());
    while i < plans.len()
        invariant
            i <= plans@.len(),
            roles.rows() == bound(planned(plans@.take(i as int))),
            in_order::<TensorIdentity, Role>(roles.rows()),
        decreases plans@.len() - i,
    {
        let ghost done = planned(plans@.take(i as int));
        proof {
            let next = plans@.take(i as int + 1);
            assert(next.drop_last() =~= plans@.take(i as int));
        }
        match &plans[i] {
            Some(plan) => collect(plan, &mut roles, Ghost(done)),
            None => {},
        }
        i = i + 1;
    }
    assert(plans@.take(i as int) =~= plans@);
    roles
}

/// A table of bindings is in order.
proof fn lemma_bound_in_order(list: Seq<(Role, Pair)>)
    ensures
        in_order::<TensorIdentity, Role>(bound(list)),
    decreases list.len(),
{
    if list.len() > 0 {
        lemma_bound_in_order(list.drop_last());
        crate::table::lemma_with_row_in_order::<TensorIdentity, Role>(
            bound(list.drop_last()),
            list.last().1,
            list.last().0,
        );
    }
}

/// **The last binding decides.** A tensor bound at `k` and not again has the
/// role it was bound in there.
pub proof fn law_the_last_binding_decides(list: Seq<(Role, Pair)>, k: int)
    requires
        0 <= k < list.len(),
        forall|j: int| k < j < list.len() ==> (#[trigger] list[j]).1 != list[k].1,
    ensures
        lookup(bound(list), list[k].1) == Some(list[k].0),
    decreases list.len(),
{
    let rest = list.drop_last();
    lemma_bound_in_order(rest);
    lemma_with_row_lookup::<TensorIdentity, Role>(
        bound(rest),
        list.last().1,
        list.last().0,
        list[k].1,
    );
    if k < list.len() - 1 {
        assert(list[list.len() - 1].1 != list[k].1);
        assert forall|j: int| k < j < rest.len() implies (#[trigger] rest[j]).1 != rest[k].1 by {
            assert(rest[j] == list[j]);
        }
        law_the_last_binding_decides(rest, k);
    }
}

/// No binding of the list is in the unknown role.
spec fn all_known(list: Seq<(Role, Pair)>) -> bool {
    forall|i: int| 0 <= i < list.len() ==> (#[trigger] list[i]).0 != Role::Unknown
}

proof fn lemma_known_joins(a: Seq<(Role, Pair)>, b: Seq<(Role, Pair)>)
    requires
        all_known(a),
        all_known(b),
    ensures
        all_known(a + b),
{
    assert forall|i: int| 0 <= i < (a + b).len() implies (#[trigger] (a + b)[i]).0
        != Role::Unknown by {
        if i < a.len() {
            assert((a + b)[i] == a[i]);
        } else {
            assert((a + b)[i] == b[i - a.len()]);
        }
    }
}

proof fn lemma_layers_are_known(layers: Seq<LayerPlan>)
    ensures
        all_known(layer_roles(layers)),
    decreases layers.len(),
{
    if layers.len() > 0 {
        let rest = layer_roles(layers.drop_last());
        let attention = attention_roles(layers.last().attention);
        lemma_layers_are_known(layers.drop_last());
        assert(all_known(attention));
        assert(all_known(ffn_roles(layers.last().ffn)));
        lemma_known_joins(rest, attention);
        lemma_known_joins(rest + attention, ffn_roles(layers.last().ffn));
    }
}

proof fn lemma_planned_is_known(plans: Seq<Option<ComponentOpPlan>>)
    ensures
        all_known(planned(plans)),
    decreases plans.len(),
{
    if plans.len() > 0 {
        lemma_planned_is_known(plans.drop_last());
        match plans.last() {
            Some(p) => {
                lemma_layers_are_known(p.layers@);
                lemma_known_joins(planned(plans.drop_last()), layer_roles(p.layers@));
            },
            None => {},
        }
    }
}

proof fn lemma_bound_is_known(list: Seq<(Role, Pair)>, tensor: Pair)
    requires
        all_known(list),
    ensures
        lookup(bound(list), tensor) != Some(Role::Unknown),
    decreases list.len(),
{
    if list.len() > 0 {
        let rest = list.drop_last();
        assert forall|i: int| 0 <= i < rest.len() implies (#[trigger] rest[i]).0
            != Role::Unknown by {
            assert(rest[i] == list[i]);
        }
        lemma_bound_in_order(rest);
        lemma_bound_is_known(rest, tensor);
        assert(list[list.len() - 1].0 != Role::Unknown);
        lemma_with_row_lookup::<TensorIdentity, Role>(
            bound(rest),
            list.last().1,
            list.last().0,
            tensor,
        );
    }
}

/// **No planned operand is unknown**, whatever vocabulary its operator has.
pub proof fn law_no_planned_operand_is_unknown(
    plans: Seq<Option<ComponentOpPlan>>,
    tensor: Pair,
)
    ensures
        lookup(bound(planned(plans)), tensor) != Some(Role::Unknown),
{
    lemma_planned_is_known(plans);
    lemma_bound_is_known(planned(plans), tensor);
}

proof fn lemma_joins(a: Seq<(Role, Pair)>, b: Seq<(Role, Pair)>, e: (Role, Pair))
    ensures
        (a + b).contains(e) <==> a.contains(e) || b.contains(e),
{
    let all = a + b;
    if a.contains(e) {
        let i = a.index_of(e);
        assert(all[i] == e);
    }
    if b.contains(e) {
        let i = b.index_of(e);
        assert(all[a.len() + i] == e);
    }
    if all.contains(e) {
        let i = all.index_of(e);
        if i < a.len() {
            assert(a[i] == e);
        } else {
            assert(b[i - a.len()] == e);
        }
    }
}

proof fn lemma_held(role: Role, op: OperandRef, e: (Role, Pair))
    ensures
        held(role, op).contains(e) <==> e.0 == role && e.1.0 == op.object@ && e.1.1 == op.tensor@,
{
    assert(held(role, op)[0] == (role, pair_of(op)));
}

proof fn lemma_held_if(role: Role, op: Option<OperandRef>, e: (Role, Pair))
    ensures
        held_if(role, op).contains(e) <==> e.0 == role && (op matches Some(o) && e.1.0 == o.object@
            && e.1.1 == o.tensor@),
{
    if let Some(o) = op {
        lemma_held(role, o, e);
    }
}

/// **A softmax layer is decoder linear work**: its four projections and its
/// output gate, and nothing else of it.
pub proof fn law_softmax_projections_are_linear(a: SoftmaxOp, e: (Role, Pair))
    ensures
        attention_roles(LayerAttention::Softmax(a)).contains(e) <==> (
        (e.0 == Role::DecoderLinear && ((e.1.0 == a.q.object@ && e.1.1 == a.q.tensor@) || (e.1.0 == a.k.object@ && e.1.1 == a.k.tensor@) || (e.1.0 == a.v.object@ && e.1.1 == a.v.tensor@) || (e.1.0 == a.o.object@ && e.1.1 == a.o.tensor@) || (a.output_gate matches Some(o) && e.1.0 == o.object@ && e.1.1 == o.tensor@)))
        ),
{
    let s0 = Seq::<(Role, Pair)>::empty();
    let s1 = s0 + held(Role::DecoderLinear, a.q);
    lemma_joins(s0, held(Role::DecoderLinear, a.q), e);
    lemma_held(Role::DecoderLinear, a.q, e);
    let s2 = s1 + held(Role::DecoderLinear, a.k);
    lemma_joins(s1, held(Role::DecoderLinear, a.k), e);
    lemma_held(Role::DecoderLinear, a.k, e);
    let s3 = s2 + held(Role::DecoderLinear, a.v);
    lemma_joins(s2, held(Role::DecoderLinear, a.v), e);
    lemma_held(Role::DecoderLinear, a.v, e);
    let s4 = s3 + held(Role::DecoderLinear, a.o);
    lemma_joins(s3, held(Role::DecoderLinear, a.o), e);
    lemma_held(Role::DecoderLinear, a.o, e);
    let s5 = s4 + held_if(Role::DecoderLinear, a.output_gate);
    lemma_joins(s4, held_if(Role::DecoderLinear, a.output_gate), e);
    lemma_held_if(Role::DecoderLinear, a.output_gate, e);
    assert(attention_roles(LayerAttention::Softmax(a)) == s5);
}

/// **A gated delta layer**: the bulk matrices are recurrence projections, what
/// drives the decay and the write strength is control, and only its norm is
/// a norm.
pub proof fn law_gated_delta_roles(a: GatedDeltaOp, e: (Role, Pair))
    ensures
        attention_roles(LayerAttention::GatedDelta(a)).contains(e) <==> (
        (e.0 == Role::RecurrenceProjection && ((e.1.0 == a.in_proj_qkv.object@ && e.1.1 == a.in_proj_qkv.tensor@) || (e.1.0 == a.in_proj_z.object@ && e.1.1 == a.in_proj_z.tensor@) || (e.1.0 == a.out_proj.object@ && e.1.1 == a.out_proj.tensor@)))
            || (e.0 == Role::RecurrenceControl && ((e.1.0 == a.in_proj_a.object@ && e.1.1 == a.in_proj_a.tensor@) || (e.1.0 == a.in_proj_b.object@ && e.1.1 == a.in_proj_b.tensor@)))
            || (e.0 == Role::SmallVector && ((e.1.0 == a.conv1d.object@ && e.1.1 == a.conv1d.tensor@) || (e.1.0 == a.a_log.object@ && e.1.1 == a.a_log.tensor@) || (e.1.0 == a.dt_bias.object@ && e.1.1 == a.dt_bias.tensor@)))
            || (e.0 == Role::Norm && ((e.1.0 == a.norm.object@ && e.1.1 == a.norm.tensor@)))
        ),
{
    let s0 = Seq::<(Role, Pair)>::empty();
    let s1 = s0 + held(Role::RecurrenceProjection, a.in_proj_qkv);
    lemma_joins(s0, held(Role::RecurrenceProjection, a.in_proj_qkv), e);
    lemma_held(Role::RecurrenceProjection, a.in_proj_qkv, e);
    let s2 = s1 + held(Role::RecurrenceProjection, a.in_proj_z);
    lemma_joins(s1, held(Role::RecurrenceProjection, a.in_proj_z), e);
    lemma_held(Role::RecurrenceProjection, a.in_proj_z, e);
    let s3 = s2 + held(Role::RecurrenceProjection, a.out_proj);
    lemma_joins(s2, held(Role::RecurrenceProjection, a.out_proj), e);
    lemma_held(Role::RecurrenceProjection, a.out_proj, e);
    let s4 = s3 + held(Role::RecurrenceControl, a.in_proj_a);
    lemma_joins(s3, held(Role::RecurrenceControl, a.in_proj_a), e);
    lemma_held(Role::RecurrenceControl, a.in_proj_a, e);
    let s5 = s4 + held(Role::RecurrenceControl, a.in_proj_b);
    lemma_joins(s4, held(Role::RecurrenceControl, a.in_proj_b), e);
    lemma_held(Role::RecurrenceControl, a.in_proj_b, e);
    let s6 = s5 + held(Role::SmallVector, a.conv1d);
    lemma_joins(s5, held(Role::SmallVector, a.conv1d), e);
    lemma_held(Role::SmallVector, a.conv1d, e);
    let s7 = s6 + held(Role::SmallVector, a.a_log);
    lemma_joins(s6, held(Role::SmallVector, a.a_log), e);
    lemma_held(Role::SmallVector, a.a_log, e);
    let s8 = s7 + held(Role::SmallVector, a.dt_bias);
    lemma_joins(s7, held(Role::SmallVector, a.dt_bias), e);
    lemma_held(Role::SmallVector, a.dt_bias, e);
    let s9 = s8 + held(Role::Norm, a.norm);
    lemma_joins(s8, held(Role::Norm, a.norm), e);
    lemma_held(Role::Norm, a.norm, e);
    assert(attention_roles(LayerAttention::GatedDelta(a)) == s9);
}

/// **A Kimi delta layer**: the bulk matrices are recurrence projections, the
/// gate factorisations, the write strength and the whole output gate are
/// control, and only its output norm is a norm.
pub proof fn law_kimi_delta_roles(a: KdaOp, e: (Role, Pair))
    ensures
        attention_roles(LayerAttention::Kda(a)).contains(e) <==> (
        (e.0 == Role::RecurrenceProjection && ((e.1.0 == a.q_proj.object@ && e.1.1 == a.q_proj.tensor@) || (e.1.0 == a.k_proj.object@ && e.1.1 == a.k_proj.tensor@) || (e.1.0 == a.v_proj.object@ && e.1.1 == a.v_proj.tensor@) || (e.1.0 == a.out_proj.object@ && e.1.1 == a.out_proj.tensor@)))
            || (e.0 == Role::RecurrenceControl && ((e.1.0 == a.f_a_proj.object@ && e.1.1 == a.f_a_proj.tensor@) || (e.1.0 == a.f_b_proj.object@ && e.1.1 == a.f_b_proj.tensor@) || (e.1.0 == a.b_proj.object@ && e.1.1 == a.b_proj.tensor@)))
            || (e.0 == Role::SmallVector && ((e.1.0 == a.q_conv1d.object@ && e.1.1 == a.q_conv1d.tensor@) || (e.1.0 == a.k_conv1d.object@ && e.1.1 == a.k_conv1d.tensor@) || (e.1.0 == a.v_conv1d.object@ && e.1.1 == a.v_conv1d.tensor@) || (e.1.0 == a.a_log.object@ && e.1.1 == a.a_log.tensor@) || (e.1.0 == a.dt_bias.object@ && e.1.1 == a.dt_bias.tensor@)))
            || (e.0 == Role::Norm && ((e.1.0 == a.o_norm.object@ && e.1.1 == a.o_norm.tensor@)))
            || (e.0 == Role::RecurrenceControl && exists|i: int| 0 <= i < a.output_gate@.len() && e.1.0 == (#[trigger] a.output_gate@[i]).1.object@ && e.1.1 == a.output_gate@[i].1.tensor@)
        ),
{
    let s0 = Seq::<(Role, Pair)>::empty();
    let s1 = s0 + held(Role::RecurrenceProjection, a.q_proj);
    lemma_joins(s0, held(Role::RecurrenceProjection, a.q_proj), e);
    lemma_held(Role::RecurrenceProjection, a.q_proj, e);
    let s2 = s1 + held(Role::RecurrenceProjection, a.k_proj);
    lemma_joins(s1, held(Role::RecurrenceProjection, a.k_proj), e);
    lemma_held(Role::RecurrenceProjection, a.k_proj, e);
    let s3 = s2 + held(Role::RecurrenceProjection, a.v_proj);
    lemma_joins(s2, held(Role::RecurrenceProjection, a.v_proj), e);
    lemma_held(Role::RecurrenceProjection, a.v_proj, e);
    let s4 = s3 + held(Role::RecurrenceProjection, a.out_proj);
    lemma_joins(s3, held(Role::RecurrenceProjection, a.out_proj), e);
    lemma_held(Role::RecurrenceProjection, a.out_proj, e);
    let s5 = s4 + held(Role::RecurrenceControl, a.f_a_proj);
    lemma_joins(s4, held(Role::RecurrenceControl, a.f_a_proj), e);
    lemma_held(Role::RecurrenceControl, a.f_a_proj, e);
    let s6 = s5 + held(Role::RecurrenceControl, a.f_b_proj);
    lemma_joins(s5, held(Role::RecurrenceControl, a.f_b_proj), e);
    lemma_held(Role::RecurrenceControl, a.f_b_proj, e);
    let s7 = s6 + held(Role::RecurrenceControl, a.b_proj);
    lemma_joins(s6, held(Role::RecurrenceControl, a.b_proj), e);
    lemma_held(Role::RecurrenceControl, a.b_proj, e);
    let s8 = s7 + held_all(Role::RecurrenceControl, a.output_gate@);
    lemma_joins(s7, held_all(Role::RecurrenceControl, a.output_gate@), e);
    let gate = held_all(Role::RecurrenceControl, a.output_gate@);
    if gate.contains(e) {
        let i = gate.index_of(e);
        assert(e == (Role::RecurrenceControl, pair_of(a.output_gate@[i].1)));
    }
    if exists|i: int|
        0 <= i < a.output_gate@.len() && e.1.0 == (#[trigger] a.output_gate@[i]).1.object@ && e.1.1
            == a.output_gate@[i].1.tensor@ && e.0 == Role::RecurrenceControl {
        let i = choose|i: int|
            0 <= i < a.output_gate@.len() && e.1.0 == (#[trigger] a.output_gate@[i]).1.object@
                && e.1.1 == a.output_gate@[i].1.tensor@ && e.0 == Role::RecurrenceControl;
        assert(gate[i] == e);
    }
    let s9 = s8 + held(Role::SmallVector, a.q_conv1d);
    lemma_joins(s8, held(Role::SmallVector, a.q_conv1d), e);
    lemma_held(Role::SmallVector, a.q_conv1d, e);
    let s10 = s9 + held(Role::SmallVector, a.k_conv1d);
    lemma_joins(s9, held(Role::SmallVector, a.k_conv1d), e);
    lemma_held(Role::SmallVector, a.k_conv1d, e);
    let s11 = s10 + held(Role::SmallVector, a.v_conv1d);
    lemma_joins(s10, held(Role::SmallVector, a.v_conv1d), e);
    lemma_held(Role::SmallVector, a.v_conv1d, e);
    let s12 = s11 + held(Role::SmallVector, a.a_log);
    lemma_joins(s11, held(Role::SmallVector, a.a_log), e);
    lemma_held(Role::SmallVector, a.a_log, e);
    let s13 = s12 + held(Role::SmallVector, a.dt_bias);
    lemma_joins(s12, held(Role::SmallVector, a.dt_bias), e);
    lemma_held(Role::SmallVector, a.dt_bias, e);
    let s14 = s13 + held(Role::Norm, a.o_norm);
    lemma_joins(s13, held(Role::Norm, a.o_norm), e);
    lemma_held(Role::Norm, a.o_norm, e);
    assert(attention_roles(LayerAttention::Kda(a)) == s14);
}

/// **A latent attention layer is decoder linear work**, its query included,
/// but for the norm of its cache and the norm between the projections of a
/// factorised query.
pub proof fn law_latent_attention_roles(a: MlaOp, e: (Role, Pair))
    ensures
        attention_roles(LayerAttention::Mla(a)).contains(e) <==> (
        (e.0 == Role::DecoderLinear && ((e.1.0 == a.kv_a_proj.object@ && e.1.1 == a.kv_a_proj.tensor@) || (e.1.0 == a.kv_b_proj.object@ && e.1.1 == a.kv_b_proj.tensor@) || (e.1.0 == a.out_proj.object@ && e.1.1 == a.out_proj.tensor@)))
            || (e.0 == Role::Norm && ((e.1.0 == a.kv_a_norm.object@ && e.1.1 == a.kv_a_norm.tensor@)))
            || (exists|i: int| 0 <= i < a.query@.len() && e.1.0 == (#[trigger] a.query@[i]).1.object@ && e.1.1 == a.query@[i].1.tensor@ && e.0 == (if a.query@[i].0@ == "q_a_layernorm"@ { Role::Norm } else { Role::DecoderLinear }))
        ),
{
    let s0 = Seq::<(Role, Pair)>::empty();
    let s1 = s0 + held(Role::DecoderLinear, a.kv_a_proj);
    lemma_joins(s0, held(Role::DecoderLinear, a.kv_a_proj), e);
    lemma_held(Role::DecoderLinear, a.kv_a_proj, e);
    let s2 = s1 + held(Role::DecoderLinear, a.kv_b_proj);
    lemma_joins(s1, held(Role::DecoderLinear, a.kv_b_proj), e);
    lemma_held(Role::DecoderLinear, a.kv_b_proj, e);
    let s3 = s2 + held(Role::DecoderLinear, a.out_proj);
    lemma_joins(s2, held(Role::DecoderLinear, a.out_proj), e);
    lemma_held(Role::DecoderLinear, a.out_proj, e);
    let s4 = s3 + held_query(a.query@);
    lemma_joins(s3, held_query(a.query@), e);
    let query = held_query(a.query@);
    if query.contains(e) {
        let i = query.index_of(e);
        assert(e == (query_role(a.query@[i].0@), pair_of(a.query@[i].1)));
    }
    assert forall|i: int|
        0 <= i < a.query@.len() && e.1.0 == (#[trigger] a.query@[i]).1.object@ && e.1.1
            == a.query@[i].1.tensor@ && e.0 == (if a.query@[i].0@ == "q_a_layernorm"@ {
            Role::Norm
        } else {
            Role::DecoderLinear
        }) implies query.contains(e) by {
        assert(query[i] == e);
    }
    let s5 = s4 + held(Role::Norm, a.kv_a_norm);
    lemma_joins(s4, held(Role::Norm, a.kv_a_norm), e);
    lemma_held(Role::Norm, a.kv_a_norm, e);
    assert(attention_roles(LayerAttention::Mla(a)) == s5);
}

/// **Attention over a convolved projection is decoder linear work**, and its
/// kernel is a small vector.
pub proof fn law_convolved_attention_roles(a: ConvQkvOp, e: (Role, Pair))
    ensures
        attention_roles(LayerAttention::ConvQkv(a)).contains(e) <==> (
        (e.0 == Role::DecoderLinear && ((e.1.0 == a.in_proj.object@ && e.1.1 == a.in_proj.tensor@) || (e.1.0 == a.out_proj.object@ && e.1.1 == a.out_proj.tensor@)))
            || (e.0 == Role::SmallVector && ((e.1.0 == a.conv1d.object@ && e.1.1 == a.conv1d.tensor@) || (a.conv1d_bias matches Some(o) && e.1.0 == o.object@ && e.1.1 == o.tensor@)))
        ),
{
    let s0 = Seq::<(Role, Pair)>::empty();
    let s1 = s0 + held(Role::DecoderLinear, a.in_proj);
    lemma_joins(s0, held(Role::DecoderLinear, a.in_proj), e);
    lemma_held(Role::DecoderLinear, a.in_proj, e);
    let s2 = s1 + held(Role::DecoderLinear, a.out_proj);
    lemma_joins(s1, held(Role::DecoderLinear, a.out_proj), e);
    lemma_held(Role::DecoderLinear, a.out_proj, e);
    let s3 = s2 + held(Role::SmallVector, a.conv1d);
    lemma_joins(s2, held(Role::SmallVector, a.conv1d), e);
    lemma_held(Role::SmallVector, a.conv1d, e);
    let s4 = s3 + held_if(Role::SmallVector, a.conv1d_bias);
    lemma_joins(s3, held_if(Role::SmallVector, a.conv1d_bias), e);
    lemma_held_if(Role::SmallVector, a.conv1d_bias, e);
    assert(attention_roles(LayerAttention::ConvQkv(a)) == s4);
}

/// **A Mamba layer**: the two matrices are recurrence projections, and only
/// the weight of its gated norm is a norm.
pub proof fn law_mamba_roles(a: Mamba2Op, e: (Role, Pair))
    ensures
        attention_roles(LayerAttention::Mamba2(a)).contains(e) <==> (
        (e.0 == Role::RecurrenceProjection && ((e.1.0 == a.in_proj.object@ && e.1.1 == a.in_proj.tensor@) || (e.1.0 == a.out_proj.object@ && e.1.1 == a.out_proj.tensor@)))
            || (e.0 == Role::SmallVector && ((e.1.0 == a.conv1d.object@ && e.1.1 == a.conv1d.tensor@) || (e.1.0 == a.a_log.object@ && e.1.1 == a.a_log.tensor@) || (e.1.0 == a.d.object@ && e.1.1 == a.d.tensor@) || (e.1.0 == a.dt_bias.object@ && e.1.1 == a.dt_bias.tensor@) || (a.conv1d_bias matches Some(o) && e.1.0 == o.object@ && e.1.1 == o.tensor@)))
            || (e.0 == Role::Norm && ((a.gated_norm matches Some(o) && e.1.0 == o.object@ && e.1.1 == o.tensor@)))
        ),
{
    let s0 = Seq::<(Role, Pair)>::empty();
    let s1 = s0 + held(Role::RecurrenceProjection, a.in_proj);
    lemma_joins(s0, held(Role::RecurrenceProjection, a.in_proj), e);
    lemma_held(Role::RecurrenceProjection, a.in_proj, e);
    let s2 = s1 + held(Role::RecurrenceProjection, a.out_proj);
    lemma_joins(s1, held(Role::RecurrenceProjection, a.out_proj), e);
    lemma_held(Role::RecurrenceProjection, a.out_proj, e);
    let s3 = s2 + held(Role::SmallVector, a.conv1d);
    lemma_joins(s2, held(Role::SmallVector, a.conv1d), e);
    lemma_held(Role::SmallVector, a.conv1d, e);
    let s4 = s3 + held(Role::SmallVector, a.a_log);
    lemma_joins(s3, held(Role::SmallVector, a.a_log), e);
    lemma_held(Role::SmallVector, a.a_log, e);
    let s5 = s4 + held(Role::SmallVector, a.d);
    lemma_joins(s4, held(Role::SmallVector, a.d), e);
    lemma_held(Role::SmallVector, a.d, e);
    let s6 = s5 + held(Role::SmallVector, a.dt_bias);
    lemma_joins(s5, held(Role::SmallVector, a.dt_bias), e);
    lemma_held(Role::SmallVector, a.dt_bias, e);
    let s7 = s6 + held_if(Role::SmallVector, a.conv1d_bias);
    lemma_joins(s6, held_if(Role::SmallVector, a.conv1d_bias), e);
    lemma_held_if(Role::SmallVector, a.conv1d_bias, e);
    let s8 = s7 + held_if(Role::Norm, a.gated_norm);
    lemma_joins(s7, held_if(Role::Norm, a.gated_norm), e);
    lemma_held_if(Role::Norm, a.gated_norm, e);
    assert(attention_roles(LayerAttention::Mamba2(a)) == s8);
}

/// **A dense block is decoder linear work**, its gate included where it has
/// one; routed and hybrid blocks bind nothing here.
pub proof fn law_feed_forward_roles(ffn: Option<LayerFfn>, e: (Role, Pair))
    ensures
        ffn_roles(ffn).contains(e) <==> (ffn matches Some(LayerFfn::Dense(f)) && e.0
            == Role::DecoderLinear && ((f.gate matches Some(g) && e.1.0 == g.object@ && e.1.1
            == g.tensor@) || (e.1.0 == f.up.object@ && e.1.1 == f.up.tensor@) || (e.1.0
            == f.down.object@ && e.1.1 == f.down.tensor@))),
{
    if let Some(LayerFfn::Dense(f)) = ffn {
        let s0 = Seq::<(Role, Pair)>::empty();
        let s1 = s0 + held_if(Role::DecoderLinear, f.gate);
        let s2 = s1 + held(Role::DecoderLinear, f.up);
        lemma_joins(s0, held_if(Role::DecoderLinear, f.gate), e);
        lemma_joins(s1, held(Role::DecoderLinear, f.up), e);
        lemma_joins(s2, held(Role::DecoderLinear, f.down), e);
        lemma_held_if(Role::DecoderLinear, f.gate, e);
        lemma_held(Role::DecoderLinear, f.up, e);
        lemma_held(Role::DecoderLinear, f.down, e);
    }
}

/// A layer binds this tensor in this role.
pub open spec fn layer_binds(layer: LayerPlan, e: (Role, Pair)) -> bool {
    attention_roles(layer.attention).contains(e) || ffn_roles(layer.ffn).contains(e)
}

proof fn lemma_layer_roles(layers: Seq<LayerPlan>, e: (Role, Pair))
    ensures
        layer_roles(layers).contains(e) <==> exists|l: int|
            0 <= l < layers.len() && layer_binds(#[trigger] layers[l], e),
    decreases layers.len(),
{
    if layers.len() > 0 {
        let init = layers.drop_last();
        let last = layers.last();
        lemma_layer_roles(init, e);
        lemma_joins(layer_roles(init), attention_roles(last.attention), e);
        lemma_joins(
            layer_roles(init) + attention_roles(last.attention),
            ffn_roles(last.ffn),
            e,
        );
        if layer_roles(init).contains(e) {
            let l = choose|l: int| 0 <= l < init.len() && layer_binds(#[trigger] init[l], e);
            assert(layers[l] == init[l]);
        }
        if layer_binds(last, e) {
            assert(layers[layers.len() - 1] == last);
        }
        if exists|l: int| 0 <= l < layers.len() && layer_binds(#[trigger] layers[l], e) {
            let l = choose|l: int| 0 <= l < layers.len() && layer_binds(#[trigger] layers[l], e);
            if l < init.len() {
                assert(init[l] == layers[l]);
            }
        }
    }
}

/// Some plan's layer binds this tensor in this role.
pub open spec fn plans_bind(plans: Seq<Option<ComponentOpPlan>>, e: (Role, Pair)) -> bool {
    exists|c: int, l: int|
        0 <= c < plans.len() && plans[c] is Some && 0 <= l < plans[c]->0.layers@.len()
            && layer_binds(#[trigger] plans[c]->0.layers@[l], e)
}

proof fn lemma_planned(plans: Seq<Option<ComponentOpPlan>>, e: (Role, Pair))
    ensures
        planned(plans).contains(e) <==> plans_bind(plans, e),
    decreases plans.len(),
{
    if plans.len() > 0 {
        let init = plans.drop_last();
        lemma_planned(init, e);
        if plans_bind(init, e) {
            let (c, l) = choose|c: int, l: int|
                0 <= c < init.len() && init[c] is Some && 0 <= l < init[c]->0.layers@.len()
                    && layer_binds(#[trigger] init[c]->0.layers@[l], e);
            assert(plans[c] == init[c]);
            assert(layer_binds(plans[c]->0.layers@[l], e));
        }
        if let Some(p) = plans.last() {
            lemma_layer_roles(p.layers@, e);
            lemma_joins(planned(init), layer_roles(p.layers@), e);
            if layer_roles(p.layers@).contains(e) {
                let l = choose|l: int|
                    0 <= l < p.layers@.len() && layer_binds(#[trigger] p.layers@[l], e);
                let c = plans.len() - 1;
                assert(layer_binds(plans[c]->0.layers@[l], e));
            }
        }
        if plans_bind(plans, e) {
            let (c, l) = choose|c: int, l: int|
                0 <= c < plans.len() && plans[c] is Some && 0 <= l < plans[c]->0.layers@.len()
                    && layer_binds(#[trigger] plans[c]->0.layers@[l], e);
            if c < init.len() {
                assert(init[c] == plans[c]);
                assert(layer_binds(init[c]->0.layers@[l], e));
            } else {
                assert(layer_binds(plans.last()->0.layers@[l], e));
            }
        }
    }
}

proof fn lemma_bound(list: Seq<(Role, Pair)>, t: Pair)
    ensures
        lookup(bound(list), t) matches Some(role) ==> list.contains((role, t)),
        (exists|i: int| 0 <= i < list.len() && (#[trigger] list[i]).1 == t) ==> lookup(
            bound(list),
            t,
        ) is Some,
    decreases list.len(),
{
    if list.len() > 0 {
        let rest = list.drop_last();
        lemma_bound(rest, t);
        lemma_with_row_lookup::<TensorIdentity, Role>(
            bound(rest),
            list.last().1,
            list.last().0,
            t,
        );
        if list.last().1 == t {
            assert(list[list.len() - 1] == (list.last().0, t));
        } else {
            if let Some(role) = lookup(bound(list), t) {
                let i = rest.index_of((role, t));
                assert(list[i] == (role, t));
            }
            if exists|i: int| 0 <= i < list.len() && (#[trigger] list[i]).1 == t {
                let i = choose|i: int| 0 <= i < list.len() && (#[trigger] list[i]).1 == t;
                assert(rest[i] == list[i]);
            }
        }
    }
}

/// **A role comes from a layer.** A tensor has a role exactly where some layer
/// binds it, and the role is one that some layer binds it in.
pub proof fn law_a_role_comes_from_a_layer(plans: Seq<Option<ComponentOpPlan>>, t: Pair)
    ensures
        lookup(bound(planned(plans)), t) matches Some(role) ==> plans_bind(plans, (role, t)),
        (exists|role: Role| #[trigger] plans_bind(plans, (role, t))) ==> lookup(
            bound(planned(plans)),
            t,
        ) is Some,
{
    let list = planned(plans);
    lemma_bound(list, t);
    if let Some(role) = lookup(bound(list), t) {
        lemma_planned(plans, (role, t));
    }
    if exists|role: Role| #[trigger] plans_bind(plans, (role, t)) {
        let role = choose|role: Role| #[trigger] plans_bind(plans, (role, t));
        lemma_planned(plans, (role, t));
        let i = list.index_of((role, t));
        assert(list[i].1 == t);
    }
}

/// The tensor is named by no layer behind layer `l` of plan `c`.
pub open spec fn named_last(
    plans: Seq<Option<ComponentOpPlan>>,
    c: int,
    l: int,
    t: Pair,
) -> bool {
    &&& forall|d: int, m: int, role: Role|
        c < d < plans.len() && plans[d] is Some && 0 <= m < plans[d]->0.layers@.len()
            ==> !#[trigger] layer_binds(plans[d]->0.layers@[m], (role, t))
    &&& forall|m: int, role: Role|
        l < m < plans[c]->0.layers@.len() ==> !#[trigger] layer_binds(
            plans[c]->0.layers@[m],
            (role, t),
        )
}

proof fn lemma_unnamed_keeps(list: Seq<(Role, Pair)>, more: Seq<(Role, Pair)>, t: Pair)
    requires
        forall|i: int| 0 <= i < more.len() ==> (#[trigger] more[i]).1 != t,
    ensures
        lookup(bound(list + more), t) == lookup(bound(list), t),
    decreases more.len(),
{
    let all = list + more;
    if more.len() == 0 {
        assert(all =~= list);
    } else {
        let init = more.drop_last();
        assert forall|i: int| 0 <= i < init.len() implies (#[trigger] init[i]).1 != t by {
            assert(init[i] == more[i]);
        }
        assert(all.drop_last() =~= list + init);
        assert(more[more.len() - 1].1 != t);
        lemma_unnamed_keeps(list, init, t);
        lemma_with_row_lookup::<TensorIdentity, Role>(
            bound(list + init),
            more.last().1,
            more.last().0,
            t,
        );
    }
}

proof fn lemma_unnamed(list: Seq<(Role, Pair)>, t: Pair)
    requires
        forall|role: Role| !#[trigger] list.contains((role, t)),
    ensures
        forall|i: int| 0 <= i < list.len() ==> (#[trigger] list[i]).1 != t,
{
    assert forall|i: int| 0 <= i < list.len() implies (#[trigger] list[i]).1 != t by {
        if list[i].1 == t {
            assert(list[i] == (list[i].0, t));
            assert(list.contains((list[i].0, t)));
        }
    }
}

proof fn lemma_layers_keep(
    before: Seq<(Role, Pair)>,
    layers: Seq<LayerPlan>,
    l: int,
    t: Pair,
)
    requires
        0 <= l < layers.len(),
        forall|m: int, role: Role|
            l < m < layers.len() ==> !#[trigger] layer_binds(layers[m], (role, t)),
    ensures
        lookup(bound(before + layer_roles(layers)), t) == lookup(
            bound(before + layer_roles(layers.take(l + 1))),
            t,
        ),
    decreases layers.len(),
{
    if l == layers.len() - 1 {
        assert(layers.take(l + 1) =~= layers);
    } else {
        let init = layers.drop_last();
        let last = layers.last();
        assert forall|m: int, role: Role| l < m < init.len() implies !#[trigger] layer_binds(
            init[m],
            (role, t),
        ) by {
            assert(init[m] == layers[m]);
        }
        lemma_layers_keep(before, init, l, t);
        assert(init.take(l + 1) =~= layers.take(l + 1));
        let attention = attention_roles(last.attention);
        let ffn = ffn_roles(last.ffn);
        assert forall|role: Role| !#[trigger] attention.contains((role, t)) by {
            assert(!layer_binds(layers[layers.len() - 1], (role, t)));
        }
        assert forall|role: Role| !#[trigger] ffn.contains((role, t)) by {
            assert(!layer_binds(layers[layers.len() - 1], (role, t)));
        }
        lemma_unnamed(attention, t);
        lemma_unnamed(ffn, t);
        lemma_unnamed_keeps(before + layer_roles(init), attention, t);
        lemma_unnamed_keeps(before + layer_roles(init) + attention, ffn, t);
        assert(before + layer_roles(init) + attention + ffn =~= before + layer_roles(layers));
    }
}

proof fn lemma_plans_keep(plans: Seq<Option<ComponentOpPlan>>, c: int, t: Pair)
    requires
        0 <= c < plans.len(),
        forall|d: int, m: int, role: Role|
            c < d < plans.len() && plans[d] is Some && 0 <= m < plans[d]->0.layers@.len()
                ==> !#[trigger] layer_binds(plans[d]->0.layers@[m], (role, t)),
    ensures
        lookup(bound(planned(plans)), t) == lookup(bound(planned(plans.take(c + 1))), t),
    decreases plans.len(),
{
    if c == plans.len() - 1 {
        assert(plans.take(c + 1) =~= plans);
    } else {
        let init = plans.drop_last();
        assert forall|d: int, m: int, role: Role|
            c < d < init.len() && init[d] is Some && 0 <= m < init[d]->0.layers@.len()
                implies !#[trigger] layer_binds(init[d]->0.layers@[m], (role, t)) by {
            assert(init[d] == plans[d]);
            assert(!layer_binds(plans[d]->0.layers@[m], (role, t)));
        }
        lemma_plans_keep(init, c, t);
        assert(init.take(c + 1) =~= plans.take(c + 1));
        if let Some(p) = plans.last() {
            let more = layer_roles(p.layers@);
            assert forall|role: Role| !#[trigger] more.contains((role, t)) by {
                lemma_layer_roles(p.layers@, (role, t));
                if more.contains((role, t)) {
                    let m = choose|m: int|
                        0 <= m < p.layers@.len() && layer_binds(
                            #[trigger] p.layers@[m],
                            (role, t),
                        );
                    let d = plans.len() - 1;
                    assert(!layer_binds(plans[d]->0.layers@[m], (role, t)));
                }
            }
            lemma_unnamed(more, t);
            lemma_unnamed_keeps(planned(init), more, t);
        }
    }
}

proof fn lemma_last_group_decides(
    before: Seq<(Role, Pair)>,
    group: Seq<(Role, Pair)>,
    role: Role,
    t: Pair,
)
    requires
        group.contains((role, t)),
        forall|other: Role| #[trigger] group.contains((other, t)) ==> other == role,
    ensures
        lookup(bound(before + group), t) == Some(role),
    decreases group.len(),
{
    let all = before + group;
    let init = group.drop_last();
    let last = group.last();
    lemma_with_row_lookup::<TensorIdentity, Role>(bound(before + init), last.1, last.0, t);
    assert(all.drop_last() =~= before + init);
    assert(group[group.len() - 1] == last);
    if last.1 == t {
        assert(group.contains((last.0, t)));
    } else {
        let i = group.index_of((role, t));
        assert(init[i] == (role, t));
        assert forall|other: Role| #[trigger] init.contains((other, t)) implies other == role by {
            let k = init.index_of((other, t));
            assert(group[k] == (other, t));
            assert(group.contains((other, t)));
        }
        lemma_last_group_decides(before, init, role, t);
    }
}

/// **The last layer to name a tensor decides its role.** Where no later layer
/// names it, a tensor has the role that its layer binds it in, if it binds it
/// in one role only.
pub proof fn law_the_last_layer_decides(
    plans: Seq<Option<ComponentOpPlan>>,
    c: int,
    l: int,
    role: Role,
    t: Pair,
)
    requires
        0 <= c < plans.len(),
        plans[c] is Some,
        0 <= l < plans[c]->0.layers@.len(),
        named_last(plans, c, l, t),
        layer_binds(plans[c]->0.layers@[l], (role, t)),
        forall|other: Role| #[trigger]
            layer_binds(plans[c]->0.layers@[l], (other, t)) ==> other == role,
    ensures
        lookup(bound(planned(plans)), t) == Some(role),
{
    let upto = plans.take(c + 1);
    let layers = plans[c]->0.layers@;
    let layer = layers[l];
    let before = planned(plans.take(c));
    lemma_plans_keep(plans, c, t);
    assert(upto.drop_last() =~= plans.take(c));
    assert(upto.last() == plans[c]);
    assert(planned(upto) == before + layer_roles(layers));
    assert forall|m: int, other: Role| l < m < layers.len() implies !#[trigger] layer_binds(
        layers[m],
        (other, t),
    ) by {
        assert(!layer_binds(plans[c]->0.layers@[m], (other, t)));
    }
    lemma_layers_keep(before, layers, l, t);
    let head = layers.take(l + 1);
    assert(head.drop_last() =~= layers.take(l));
    assert(head.last() == layer);
    let done = before + layer_roles(layers.take(l));
    let attention = attention_roles(layer.attention);
    let ffn = ffn_roles(layer.ffn);
    let group = attention + ffn;
    assert(done + group =~= before + layer_roles(head));
    assert forall|other: Role| #[trigger] group.contains((other, t)) implies other == role by {
        lemma_joins(attention, ffn, (other, t));
        assert(layer_binds(plans[c]->0.layers@[l], (other, t)));
    }
    lemma_joins(attention, ffn, (role, t));
    lemma_last_group_decides(done, group, role, t);
}

/// **A softmax layer's projections are decoder linear work in the table.**
/// Whatever a softmax layer names as a projection or its output gate, and no
/// later layer names again, has the decoder linear role.
pub proof fn law_a_softmax_projection_is_decoder_linear(
    plans: Seq<Option<ComponentOpPlan>>,
    c: int,
    l: int,
    a: SoftmaxOp,
    t: Pair,
)
    requires
        0 <= c < plans.len(),
        plans[c] is Some,
        0 <= l < plans[c]->0.layers@.len(),
        plans[c]->0.layers@[l].attention == LayerAttention::Softmax(a),
        t == (a.q.object@, a.q.tensor@) || t == (a.k.object@, a.k.tensor@) || t == (
            a.v.object@,
            a.v.tensor@,
        ) || t == (a.o.object@, a.o.tensor@) || (a.output_gate matches Some(g) && t == (
            g.object@,
            g.tensor@,
        )),
        named_last(plans, c, l, t),
    ensures
        lookup(bound(planned(plans)), t) == Some(Role::DecoderLinear),
{
    let layer = plans[c]->0.layers@[l];
    let role = Role::DecoderLinear;
    law_softmax_projections_are_linear(a, (role, t));
    assert forall|other: Role| #[trigger] layer_binds(layer, (other, t)) implies other == role by {
        law_softmax_projections_are_linear(a, (other, t));
        law_feed_forward_roles(layer.ffn, (other, t));
    }
    law_the_last_layer_decides(plans, c, l, role, t);
}

} // verus!
