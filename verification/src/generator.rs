//! What experiments are legitimately available from this state?
//!
//! The generator enumerates every move, resolves what it leads to, prices it,
//! and partitions. It holds nothing a preference could attach to.
use crate::action_space::{
    chosen, edit_names, edits_as, edited_rule, first_unknown, held_in, unknown_action_text, ActionVocabulary,
    MapEdit,
};
use crate::canon::texts;
use crate::candidate::{
    disposed_as, Candidate, CandidateDisposition, CandidateSet, Disposed, MeasurementIntent,
    PreMeasurementPrune, Proposed, Prune,
};
use crate::error::VindexError;
use crate::footprint::{
    ceiling, law_no_state_passes_the_ceiling, Footprint, SurfaceFootprint,
};
use crate::graph::TransitionPolicy;
use crate::identity::{presented, Presented, RepresentationState, RepresentationStateId};
use crate::key::{keyed, records_of, Keyed, MeasurementKey, MeasurementRegistry, Recorded, RegistryRecord};
use crate::map::{excepted, Exception, PrecisionMap};
use crate::policy::Role;
use crate::realization::{realized, LogicalBytes, Realized, ResolvedState};
use crate::resolved::{resolution, rule_of, Decided, LayoutAdmission};
use crate::source_identity::SourceIdentity;
use crate::surface::{surface_id, TensorSurface};
use crate::table::{
    in_order, lemma_in_order_unique, lemma_names, lemma_row_of, lemma_with_row_grows,
    lemma_with_row_in_order, lemma_with_row_lookup, lemma_without_row, names, row_of, with_row,
    without_row, NameSet,
};
use crate::text::same;
use crate::transition::{Action, Move};
use vstd::prelude::*;
use vstd::string::*;

verus! {

/// A move, and the edits held after it.
pub type Step = (Move, Seq<(Seq<char>, ())>);

/// The names no row holds, in their order.
pub open spec fn unapplied(known: Seq<Seq<char>>, rows: Seq<(Seq<char>, ())>) -> Seq<Seq<char>>
    decreases known.len(),
{
    if known.len() == 0 {
        Seq::empty()
    } else if names(rows, known.last()) {
        unapplied(known.drop_last(), rows)
    } else {
        unapplied(known.drop_last(), rows).push(known.last())
    }
}

/// Putting one edit in.
pub open spec fn addition(rows: Seq<(Seq<char>, ())>, add: Seq<char>) -> Step {
    (
        Move { label: "+"@ + add, removed: Seq::empty(), added: seq![add] },
        with_row::<String, ()>(rows, add, ()),
    )
}

/// Taking one edit out and putting one in.
pub open spec fn exchange(
    rows: Seq<(Seq<char>, ())>,
    remove: Seq<char>,
    add: Seq<char>,
) -> Step {
    (
        Move {
            label: "−"@ + remove + " +"@ + add,
            removed: seq![remove],
            added: seq![add],
        },
        with_row::<String, ()>(without_row(rows, remove), add, ()),
    )
}

/// The exchanges of the first `n` applied edits, each against every unapplied
/// one.
pub open spec fn exchanges(
    rows: Seq<(Seq<char>, ())>,
    free: Seq<Seq<char>>,
    n: int,
) -> Seq<Step>
    decreases n,
{
    if n <= 0 {
        Seq::empty()
    } else {
        exchanges(rows, free, n - 1) + free.map_values(
            |add: Seq<char>| exchange(rows, rows[n - 1].0, add),
        )
    }
}

/// **Every move available**: each unapplied edit as an addition, then each
/// applied edit against each unapplied one.
pub open spec fn available(rows: Seq<(Seq<char>, ())>, known: Seq<Seq<char>>) -> Seq<Step> {
    let free = unapplied(known, rows);
    free.map_values(|add: Seq<char>| addition(rows, add)) + exchanges(rows, free, rows.len() as int)
}

/// No two steps make the same move.
pub open spec fn moves_differ(steps: Seq<Step>) -> bool {
    forall|i: int, j: int|
        #![trigger steps[i], steps[j]]
        0 <= i < j < steps.len() ==> steps[i].0 != steps[j].0
}

/// **The deterministic candidate generator.**
pub struct Generator<'a, L, F> {
    pub model: &'a SourceIdentity,
    pub surface: &'a TensorSurface,
    /// The map every applied set is layered onto.
    pub base_map: &'a PrecisionMap,
    pub vocabulary: &'a ActionVocabulary,
    pub layout: &'a L,
    pub footprint: &'a F,
    pub policy: TransitionPolicy,
    pub measurements: &'a MeasurementRegistry,
}

impl<'a, L: LayoutAdmission, F: Footprint> Generator<'a, L, F> {
    /// The exceptions a set of edits states over the base map.
    pub open spec fn exceptions_of(&self, has: spec_fn(Seq<char>) -> bool) -> Seq<Exception> {
        chosen(self.vocabulary@, has) + self.base_map.exceptions@
    }

    /// The state a set of edits resolves to.
    pub open spec fn state_of(&self, has: spec_fn(Seq<char>) -> bool) -> Presented {
        presented(
            self.model@,
            self.surface@,
            resolution(
                edited_rule(self.base_map, self.exceptions_of(has)),
                self.surface@,
                self.layout,
            ),
        )
    }

    /// The priced realization a set of edits makes.
    pub open spec fn realization_of(&self, has: spec_fn(Seq<char>) -> bool) -> Realized {
        realized(self.state_of(has), self.footprint.price(self.state_of(has)))
    }

    /// Every state the vocabulary can reach has a price, and two prices differ
    /// by no more than a delta can hold.
    pub open spec fn priced(&self) -> bool {
        forall|has: spec_fn(Seq<char>) -> bool|
            {
                let state = #[trigger] self.state_of(has);
                self.footprint.prices(state) && self.footprint.price(state) <= i64::MAX
            }
    }

    /// What becomes of one move.
    pub open spec fn disposed(
        &self,
        parent: Realized,
        step: Step,
        intent: &MeasurementIntent,
    ) -> Disposed {
        let child = self.realization_of(held_in(step.1));
        let id = child.state.id;
        let key = intent.key_of(id);
        if child.realization == parent.realization {
            Disposed::Pruned {
                action: step.0,
                child_state: Some(id),
                reason: Prune::StructurallyInvalid("the move changes no resolved decision"@),
            }
        } else if !self.policy.takes(child.bytes - parent.bytes) {
            Disposed::Pruned {
                action: step.0,
                child_state: Some(id),
                reason: Prune::PhysicallyDominated {
                    parent_bytes: parent.bytes,
                    child_bytes: child.bytes,
                },
            }
        } else if names(self.measurements@, key.digest) {
            Disposed::Pruned {
                action: step.0,
                child_state: Some(id),
                reason: Prune::AlreadyObserved(key),
            }
        } else {
            Disposed::Eligible(
                Proposed {
                    parent_realization: parent.realization,
                    parent_state: parent.state.id,
                    applied: step.1,
                    action: step.0,
                    child,
                    physical_delta: (child.bytes - parent.bytes) as i64,
                    intended_key: key,
                    prior_observations: records_of(self.measurements@, id).map_values(
                        |r: Recorded| r.key,
                    ),
                },
            )
        }
    }

    /// Resolve one applied set into a priced realization.
    pub fn realize(&self, applied: &NameSet) -> (r: Result<ResolvedState, VindexError>)
        requires
            self.footprint.prices(self.state_of(held_in(applied.rows()))),
        ensures
            match first_unknown(applied.rows(), edit_names(self.vocabulary@)) {
                Some(name) => r matches Err(e) && e.text() == unknown_action_text(name),
                None => r matches Ok(s) && s@ == self.realization_of(held_in(applied.rows())),
            },
    {
        let map: PrecisionMap = match self.vocabulary.map_for(self.base_map, applied) {
            Ok(map) => map,
            Err(e) => {
                return Err(e);
            },
        };
        proof {
            let has = held_in(applied.rows());
            let rule = edited_rule(self.base_map, self.exceptions_of(has));
            assert forall|role: Role, tensor: Seq<char>| #[trigger] rule_of(&map)(role, tensor)
                == rule(role, tensor) by {
                assert(map.compiles(role) == self.base_map.compiles(role));
            }
            assert(rule_of(&map) =~= rule);
        }
        let state: RepresentationState = RepresentationState::resolve(
            self.model,
            self.surface,
            &map,
            self.layout,
        );
        let bytes: LogicalBytes = self.footprint.logical_bytes(&state);
        Ok(ResolvedState::new(state, bytes))
    }

    fn dispose(
        &self,
        parent: &ResolvedState,
        action: Action,
        applied: NameSet,
        intent: &MeasurementIntent,
    ) -> (r: Result<CandidateDisposition, VindexError>)
        requires
            self.priced(),
            parent@.bytes <= i64::MAX,
        ensures
            match first_unknown(applied.rows(), edit_names(self.vocabulary@)) {
                Some(name) => r matches Err(e) && e.text() == unknown_action_text(name),
                None => r matches Ok(d) && d@ == self.disposed(
                    parent@,
                    (action@, applied.rows()),
                    intent,
                ),
            },
    {
        let ghost has = held_in(applied.rows());
        assert(self.footprint.prices(self.state_of(has)));
        let child: ResolvedState = match self.realize(&applied) {
            Ok(child) => child,
            Err(e) => {
                return Err(e);
            },
        };
        let child_state: RepresentationStateId = child.physical_id().clone();
        if same(child.realization_id().as_str(), parent.realization_id().as_str()) {
            return Ok(
                CandidateDisposition::Pruned {
                    action,
                    child_state: Some(child_state),
                    reason: PreMeasurementPrune::StructurallyInvalid {
                        why: "the move changes no resolved decision".to_owned(),
                    },
                },
            );
        }
        let physical_delta: i64 = child.logical_bytes().delta_from(parent.logical_bytes());
        if !self.policy.admits(physical_delta) {
            return Ok(
                CandidateDisposition::Pruned {
                    action,
                    child_state: Some(child_state),
                    reason: PreMeasurementPrune::PhysicallyDominated {
                        parent_bytes: parent.logical_bytes(),
                        child_bytes: child.logical_bytes(),
                    },
                },
            );
        }
        let intended_key: MeasurementKey = intent.key_for(&child_state);
        if self.measurements.contains(&intended_key) {
            return Ok(
                CandidateDisposition::Pruned {
                    action,
                    child_state: Some(child_state),
                    reason: PreMeasurementPrune::AlreadyObserved { key: intended_key },
                },
            );
        }
        let held: Vec<&RegistryRecord> = self.measurements.of_state(&child_state);
        let ghost records = records_of(self.measurements@, child_state@);
        let ghost keys = records.map_values(|r: Recorded| r.key);
        let mut prior_observations: Vec<MeasurementKey> = Vec::new();
        let mut i: usize = 0;
        while i < held.len()
            invariant
                i <= held@.len(),
                held@.map_values(|x: &RegistryRecord| x@) == records,
                keys == records.map_values(|r: Recorded| r.key),
                crate::candidate::keys_as(prior_observations@) == keys.take(i as int),
            decreases held@.len() - i,
        {
            let ghost before = prior_observations@;
            let key: MeasurementKey = held[i].key.clone();
            prior_observations.push(key);
            proof {
                assert(records[i as int] == held@.map_values(|x: &RegistryRecord| x@)[i as int]);
                assert(keys[i as int] == key@);
                assert(crate::candidate::keys_as(prior_observations@)
                    =~= crate::candidate::keys_as(before).push(key@));
                assert(crate::candidate::keys_as(prior_observations@) =~= keys.take(i as int + 1));
            }
            i = i + 1;
        }
        assert(held@.map_values(|x: &RegistryRecord| x@).len() == held@.len());
        assert(crate::candidate::keys_as(prior_observations@) =~= keys);
        let candidate = Candidate {
            parent_realization: parent.realization_id().clone(),
            parent_state: parent.physical_id().clone(),
            applied,
            action,
            child,
            physical_delta,
            intended_key,
            prior_observations,
        };
        Ok(CandidateDisposition::Eligible(Box::new(candidate)))
    }

    /// **Every move available from `applied`, partitioned.**
    pub fn candidates(&self, applied: &NameSet, intent: &MeasurementIntent) -> (r: Result<
        CandidateSet,
        VindexError,
    >)
        requires
            self.priced(),
        ensures
            match first_unknown(applied.rows(), edit_names(self.vocabulary@)) {
                Some(name) => r matches Err(e) && e.text() == unknown_action_text(name),
                None => r matches Ok(set) && set@ == available(
                    applied.rows(),
                    edit_names(self.vocabulary@),
                ).map_values(
                    |step: Step|
                        self.disposed(self.realization_of(held_in(applied.rows())), step, intent),
                ),
            },
            in_order::<String, ()>(applied.rows()) ==> moves_differ(
                available(applied.rows(), edit_names(self.vocabulary@)),
            ),
    {
        let ghost rows = applied.rows();
        let ghost known = edit_names(self.vocabulary@);
        let ghost start = self.realization_of(held_in(rows));
        proof {
            use_type_invariant(self.vocabulary);
            if in_order::<String, ()>(rows) {
                law_no_move_comes_twice(rows, known);
            }
        }
        assert(self.footprint.prices(self.state_of(held_in(rows))));
        let parent: ResolvedState = match self.realize(applied) {
            Ok(parent) => parent,
            Err(e) => {
                return Err(e);
            },
        };
        let free: Vec<&String> = self.free(applied);
        let ghost open = unapplied(known, rows);
        let mut dispositions: Vec<CandidateDisposition> = Vec::new();
        let ghost fate = |step: Step| self.disposed(start, step, intent);
        let ghost added = open.map_values(|add: Seq<char>| addition(rows, add));
        let mut i: usize = 0;
        assert(disposed_as(dispositions@) =~= added.take(0).map_values(fate));
        while i < free.len()
            invariant
                i <= free@.len(),
                self.priced(),
                rows == applied.rows(),
                known == edit_names(self.vocabulary@),
                first_unknown(rows, known) is None,
                start == self.realization_of(held_in(rows)),
                parent@ == start,
                start.bytes <= i64::MAX,
                open == unapplied(known, rows),
                free@.map_values(|s: &String| s@) == open,
                fate == (|step: Step| self.disposed(start, step, intent)),
                added == open.map_values(|add: Seq<char>| addition(rows, add)),
                disposed_as(dispositions@) == added.take(i as int).map_values(fate),
            decreases free@.len() - i,
        {
            let add: &String = free[i];
            assert(open[i as int] == add@) by {
                assert(free@.map_values(|s: &String| s@)[i as int] == add@);
            }
            let mut next: NameSet = applied.copy();
            next.insert(add.clone());
            let mut label: String = "+".to_owned();
            label.append(add.as_str());
            let action: Action = Action::new(label.as_str()).adding(add.as_str());
            let ghost step = (action@, next.rows());
            proof {
                assert(action@ =~= addition(rows, add@).0);
                assert(step == added[i as int]);
                lemma_unapplied_known(known, rows, i as int);
                lemma_known_with(rows, known, add@);
            }
            match self.dispose(&parent, action, next, intent) {
                Ok(d) => {
                    let ghost before = dispositions@;
                    dispositions.push(d);
                    proof {
                        assert(disposed_as(dispositions@) =~= disposed_as(before).push(d@));
                        assert(added.take(i as int + 1).map_values(fate) =~= added.take(
                            i as int,
                        ).map_values(fate).push(fate(step)));
                    }
                },
                Err(e) => {
                    return Err(e);
                },
            }
            i = i + 1;
        }
        assert(added.take(added.len() as int) =~= added);
        assert(free@.map_values(|s: &String| s@).len() == free@.len());
        let mut j: usize = 0;
        assert(disposed_as(dispositions@) =~= (added + exchanges(rows, open, 0)).map_values(fate));
        while j < applied.len()
            invariant
                j <= rows.len(),
                self.priced(),
                rows == applied.rows(),
                known == edit_names(self.vocabulary@),
                first_unknown(rows, known) is None,
                start == self.realization_of(held_in(rows)),
                parent@ == start,
                start.bytes <= i64::MAX,
                open == unapplied(known, rows),
                free@.map_values(|s: &String| s@) == open,
                fate == (|step: Step| self.disposed(start, step, intent)),
                disposed_as(dispositions@) == (added + exchanges(rows, open, j as int)).map_values(
                    fate,
                ),
            decreases rows.len() - j,
        {
            let remove: &String = applied.name_at(j);
            let ghost done = added + exchanges(rows, open, j as int);
            let ghost round = open.map_values(|add: Seq<char>| exchange(rows, rows[j as int].0, add));
            let mut k: usize = 0;
            assert(disposed_as(dispositions@) =~= (done + round.take(0)).map_values(fate));
            while k < free.len()
                invariant
                    k <= free@.len(),
                    j < rows.len(),
                    self.priced(),
                    rows == applied.rows(),
                    known == edit_names(self.vocabulary@),
                    first_unknown(rows, known) is None,
                    start == self.realization_of(held_in(rows)),
                    parent@ == start,
                    start.bytes <= i64::MAX,
                    remove@ == rows[j as int].0,
                    open == unapplied(known, rows),
                    free@.map_values(|s: &String| s@) == open,
                    fate == (|step: Step| self.disposed(start, step, intent)),
                    round == open.map_values(
                        |add: Seq<char>| exchange(rows, rows[j as int].0, add),
                    ),
                    disposed_as(dispositions@) == (done + round.take(k as int)).map_values(fate),
                decreases free@.len() - k,
            {
                let add: &String = free[k];
                assert(open[k as int] == add@) by {
                    assert(free@.map_values(|s: &String| s@)[k as int] == add@);
                }
                let mut next: NameSet = applied.copy();
                next.remove(remove.as_str());
                next.insert(add.clone());
                let mut label: String = "−".to_owned();
                label.append(remove.as_str());
                label.append(" +");
                label.append(add.as_str());
                let action: Action = Action::new(label.as_str()).removing(remove.as_str()).adding(
                    add.as_str(),
                );
                let ghost step = (action@, next.rows());
                proof {
                    assert(action@ =~= exchange(rows, remove@, add@).0);
                    assert(step == round[k as int]);
                    lemma_unapplied_known(known, rows, k as int);
                    lemma_known_without(rows, known, remove@);
                    lemma_known_with(without_row(rows, remove@), known, add@);
                }
                match self.dispose(&parent, action, next, intent) {
                    Ok(d) => {
                        let ghost before = dispositions@;
                        dispositions.push(d);
                        proof {
                            assert(disposed_as(dispositions@) =~= disposed_as(before).push(d@));
                            assert((done + round.take(k as int + 1)).map_values(fate) =~= (done
                                + round.take(k as int)).map_values(fate).push(fate(step)));
                        }
                    },
                    Err(e) => {
                        return Err(e);
                    },
                }
                k = k + 1;
            }
            proof {
                assert(round.take(round.len() as int) =~= round);
                assert(done + round =~= added + exchanges(rows, open, j as int + 1));
            }
            j = j + 1;
        }
        assert(added + exchanges(rows, open, rows.len() as int) =~= available(rows, known));
        Ok(CandidateSet::of(dispositions))
    }

    fn free(&self, applied: &NameSet) -> (r: Vec<&'a String>)
        ensures
            r@.map_values(|s: &String| s@) == unapplied(
                edit_names(self.vocabulary@),
                applied.rows(),
            ),
    {
        let all: Vec<&'a String> = self.vocabulary.names();
        let ghost known = edit_names(self.vocabulary@);
        let mut v: Vec<&'a String> = Vec::new();
        let mut i: usize = 0;
        assert(known.take(0) =~= Seq::<Seq<char>>::empty());
        assert(v@.map_values(|s: &String| s@) =~= Seq::<Seq<char>>::empty());
        while i < all.len()
            invariant
                i <= all@.len(),
                all@.map_values(|s: &String| s@) == known,
                v@.map_values(|s: &String| s@) == unapplied(known.take(i as int), applied.rows()),
            decreases all@.len() - i,
        {
            let name: &'a String = all[i];
            let ghost next = known.take(i as int + 1);
            let ghost held = v@;
            proof {
                assert(known[i as int] == name@) by {
                    assert(all@.map_values(|s: &String| s@)[i as int] == name@);
                }
                assert(next.drop_last() =~= known.take(i as int));
                assert(next.last() == name@);
            }
            if !applied.contains(name.as_str()) {
                v.push(name);
                assert(v@.map_values(|s: &String| s@) =~= held.map_values(|s: &String| s@).push(
                    name@,
                ));
            }
            i = i + 1;
        }
        assert(all@.map_values(|s: &String| s@).len() == all@.len());
        assert(known.take(known.len() as int) =~= known);
        v
    }
}

proof fn lemma_known(rows: Seq<(Seq<char>, ())>, known: Seq<Seq<char>>)
    ensures
        first_unknown(rows, known) is None <==> forall|i: int|
            0 <= i < rows.len() ==> known.contains((#[trigger] rows[i]).0),
    decreases rows.len(),
{
    if rows.len() > 0 {
        let rest = rows.skip(1);
        lemma_known(rest, known);
        if first_unknown(rows, known) is None {
            assert forall|i: int| 0 <= i < rows.len() implies known.contains(
                (#[trigger] rows[i]).0,
            ) by {
                if i > 0 {
                    assert(rest[i - 1] == rows[i]);
                }
            }
        } else {
            if known.contains(rows[0].0) {
                let k = choose|k: int|
                    0 <= k < rest.len() && !known.contains((#[trigger] rest[k]).0);
                assert(rows[k + 1] == rest[k]);
            }
        }
    }
}

proof fn lemma_known_with(rows: Seq<(Seq<char>, ())>, known: Seq<Seq<char>>, name: Seq<char>)
    requires
        first_unknown(rows, known) is None,
        known.contains(name),
    ensures
        first_unknown(with_row::<String, ()>(rows, name, ()), known) is None,
{
    let after = with_row::<String, ()>(rows, name, ());
    lemma_known(rows, known);
    lemma_known(after, known);
    assert forall|i: int| 0 <= i < after.len() implies known.contains((#[trigger] after[i]).0) by {
        let n = after[i].0;
        lemma_names(after, n);
        lemma_with_row_lookup::<String, ()>(rows, name, (), n);
        if n != name {
            lemma_names(rows, n);
            let k = choose|k: int| 0 <= k < rows.len() && (#[trigger] rows[k]).0 == n;
            assert(known.contains(rows[k].0));
        }
    }
}

proof fn lemma_known_without(rows: Seq<(Seq<char>, ())>, known: Seq<Seq<char>>, name: Seq<char>)
    requires
        first_unknown(rows, known) is None,
    ensures
        first_unknown(without_row(rows, name), known) is None,
{
    let after = without_row(rows, name);
    lemma_known(rows, known);
    lemma_known(after, known);
    lemma_row_of(rows, name);
    let r = row_of(rows, name);
    assert forall|i: int| 0 <= i < after.len() implies known.contains((#[trigger] after[i]).0) by {
        if names(rows, name) && i >= r {
            assert(after[i] == rows[i + 1]);
        } else {
            assert(after[i] == rows[i]);
        }
    }
}

proof fn lemma_unapplied_known(known: Seq<Seq<char>>, rows: Seq<(Seq<char>, ())>, i: int)
    requires
        0 <= i < unapplied(known, rows).len(),
    ensures
        known.contains(unapplied(known, rows)[i]),
        !names(rows, unapplied(known, rows)[i]),
    decreases known.len(),
{
    let open = unapplied(known, rows);
    let init = known.drop_last();
    let rest = unapplied(init, rows);
    if i < rest.len() {
        lemma_unapplied_known(init, rows, i);
        let k = init.index_of(rest[i]);
        assert(known[k] == rest[i]);
        assert(open[i] == rest[i]);
    } else {
        assert(known[known.len() - 1] == open[i]);
    }
}

proof fn lemma_unapplied_complete(known: Seq<Seq<char>>, rows: Seq<(Seq<char>, ())>, k: int)
    requires
        0 <= k < known.len(),
        !names(rows, known[k]),
    ensures
        unapplied(known, rows).contains(known[k]),
    decreases known.len(),
{
    let init = known.drop_last();
    let rest = unapplied(init, rows);
    let open = unapplied(known, rows);
    if k < init.len() {
        lemma_unapplied_complete(init, rows, k);
        assert(init[k] == known[k]);
        let i = rest.index_of(known[k]);
        assert(open[i] == rest[i]);
    } else {
        assert(open[open.len() - 1] == known[k]);
    }
}

proof fn lemma_exchanges_len(rows: Seq<(Seq<char>, ())>, free: Seq<Seq<char>>, n: int)
    requires
        0 <= n,
    ensures
        exchanges(rows, free, n).len() == n * free.len(),
    decreases n,
{
    if n > 0 {
        lemma_exchanges_len(rows, free, n - 1);
        assert(n * free.len() == (n - 1) * free.len() + free.len()) by (nonlinear_arith);
    } else {
        assert(n * free.len() == 0) by (nonlinear_arith)
            requires
                n == 0,
        ;
    }
}

/// **Enumeration is over the whole vocabulary.** Every edit not applied is a
/// move in, whenever it was last considered; and there is one move for every
/// unapplied edit, alone and against each applied one.
pub proof fn law_every_unapplied_edit_is_a_move(
    rows: Seq<(Seq<char>, ())>,
    known: Seq<Seq<char>>,
    k: int,
)
    requires
        0 <= k < known.len(),
        !names(rows, known[k]),
    ensures
        available(rows, known).contains(addition(rows, known[k])),
        available(rows, known).len() == (1 + rows.len()) * unapplied(known, rows).len(),
{
    let free = unapplied(known, rows);
    lemma_unapplied_complete(known, rows, k);
    let i = free.index_of(known[k]);
    let all = available(rows, known);
    let first = free.map_values(|add: Seq<char>| addition(rows, add));
    assert(first[i] == addition(rows, known[k]));
    assert(all[i] == first[i]);
    lemma_exchanges_len(rows, free, rows.len() as int);
    assert((1 + rows.len()) * free.len() == free.len() + rows.len() * free.len())
        by (nonlinear_arith);
}

/// **What is offered, the graph takes.** An eligible candidate changes a
/// decision, moves bytes as the transition policy admits, and has not been
/// measured; and it is what its own edits resolve to.
pub proof fn law_what_is_offered_is_admissible<L: LayoutAdmission, F: Footprint>(
    generator: &Generator<L, F>,
    parent: Realized,
    step: Step,
    intent: &MeasurementIntent,
)
    requires
        generator.priced(),
        parent.bytes <= i64::MAX,
        generator.disposed(parent, step, intent) is Eligible,
    ensures
        ({
            let c = generator.disposed(parent, step, intent)->Eligible_0;
            &&& c.child == generator.realization_of(held_in(step.1))
            &&& c.child.realization != parent.realization
            &&& c.physical_delta == c.child.bytes - parent.bytes
            &&& generator.policy.takes(c.physical_delta as int)
            &&& !names(generator.measurements@, c.intended_key.digest)
        }),
{
    assert(generator.footprint.price(generator.state_of(held_in(step.1))) <= i64::MAX);
}

/// **A reading elsewhere prunes nothing here.** What becomes of a move depends
/// on what was measured only through whether its own experiment was run; other
/// readings are carried along and decide nothing.
pub proof fn law_a_reading_elsewhere_prunes_nothing<L: LayoutAdmission, F: Footprint>(
    generator: &Generator<L, F>,
    other: &Generator<L, F>,
    parent: Realized,
    step: Step,
    intent: &MeasurementIntent,
)
    requires
        generator.model == other.model,
        generator.surface == other.surface,
        generator.base_map == other.base_map,
        generator.vocabulary == other.vocabulary,
        generator.layout == other.layout,
        generator.footprint == other.footprint,
        generator.policy == other.policy,
        ({
            let key = intent.key_of(generator.realization_of(held_in(step.1)).state.id);
            names(generator.measurements@, key.digest) == names(other.measurements@, key.digest)
        }),
    ensures
        match generator.disposed(parent, step, intent) {
            Disposed::Eligible(x) => other.disposed(parent, step, intent) matches Disposed::Eligible(
                y,
            ) && x == (Proposed { prior_observations: x.prior_observations, ..y }),
            pruned => other.disposed(parent, step, intent) == pruned,
        },
{
}

proof fn lemma_unapplied_differ(known: Seq<Seq<char>>, rows: Seq<(Seq<char>, ())>)
    requires
        known.no_duplicates(),
    ensures
        unapplied(known, rows).no_duplicates(),
        forall|i: int|
            0 <= i < unapplied(known, rows).len() ==> known.contains(
                #[trigger] unapplied(known, rows)[i],
            ),
    decreases known.len(),
{
    if known.len() > 0 {
        let rest = known.drop_last();
        lemma_unapplied_differ(rest, rows);
        let open = unapplied(rest, rows);
        let all = unapplied(known, rows);
        assert forall|i: int| 0 <= i < open.len() implies rest.contains(#[trigger] open[i])
            && known.contains(open[i]) && open[i] != known.last() by {
            let k = rest.index_of(open[i]);
            assert(known[k] == open[i]);
        }
        assert(known[known.len() - 1] == known.last());
        assert forall|i: int, j: int|
            0 <= i < all.len() && 0 <= j < all.len() && i != j implies all[i] != all[j] by {
            if i < open.len() && j < open.len() {
                assert(open[i] != open[j]);
            } else if i < open.len() {
                assert(open[i] != known.last());
            } else if j < open.len() {
                assert(open[j] != known.last());
            }
        }
        assert(all.no_duplicates());
        assert forall|i: int| 0 <= i < all.len() implies known.contains(#[trigger] all[i]) by {
            if i < open.len() {
                assert(all[i] == open[i]);
            }
        }
    }
}

proof fn lemma_exchanges_differ(rows: Seq<(Seq<char>, ())>, free: Seq<Seq<char>>, n: int)
    requires
        in_order::<String, ()>(rows),
        free.no_duplicates(),
        0 <= n <= rows.len(),
    ensures
        moves_differ(exchanges(rows, free, n)),
        forall|i: int|
            0 <= i < exchanges(rows, free, n).len() ==> exists|a: int|
                0 <= a < n && (#[trigger] exchanges(rows, free, n)[i]).0.removed == seq![
                    (#[trigger] rows[a]).0,
                ],
    decreases n,
{
    if n > 0 {
        lemma_exchanges_differ(rows, free, n - 1);
        let done = exchanges(rows, free, n - 1);
        let name = rows[n - 1].0;
        let round = free.map_values(|add: Seq<char>| exchange(rows, name, add));
        let all = exchanges(rows, free, n);
        assert(all == done + round);
        assert forall|i: int| 0 <= i < all.len() implies exists|a: int|
            0 <= a < n && (#[trigger] all[i]).0.removed == seq![(#[trigger] rows[a]).0] by {
            if i < done.len() {
                assert(all[i] == done[i]);
                let a = choose|a: int|
                    0 <= a < n - 1 && done[i].0.removed == seq![(#[trigger] rows[a]).0];
                assert(all[i].0.removed == seq![rows[a].0]);
            } else {
                assert(all[i] == round[i - done.len()]);
                assert(all[i].0.removed == seq![rows[n - 1].0]);
            }
        }
        assert forall|i: int, j: int|
            #![trigger all[i], all[j]]
            0 <= i < j < all.len() implies all[i].0 != all[j].0 by {
            if j < done.len() {
                assert(all[i] == done[i] && all[j] == done[j]);
            } else if i < done.len() {
                assert(all[i] == done[i] && all[j] == round[j - done.len()]);
                let a = choose|a: int|
                    0 <= a < n - 1 && done[i].0.removed == seq![(#[trigger] rows[a]).0];
                if all[i].0 == all[j].0 {
                    assert(seq![rows[a].0][0] == seq![name][0]);
                    lemma_in_order_unique::<String, ()>(rows, a, n - 1);
                }
            } else {
                let p = i - done.len();
                let q = j - done.len();
                assert(all[i] == round[p] && all[j] == round[q]);
                assert(round[p].0.added == seq![free[p]] && round[q].0.added == seq![free[q]]);
                assert(free[p] != free[q]);
                assert(seq![free[p]][0] != seq![free[q]][0]);
            }
        }
    }
}

/// **No move comes twice.** Over edits of distinct names and a set that holds
/// each name once, no two of the moves available are the same.
pub proof fn law_no_move_comes_twice(rows: Seq<(Seq<char>, ())>, known: Seq<Seq<char>>)
    requires
        known.no_duplicates(),
        in_order::<String, ()>(rows),
    ensures
        moves_differ(available(rows, known)),
{
    let free = unapplied(known, rows);
    let added = free.map_values(|add: Seq<char>| addition(rows, add));
    let swaps = exchanges(rows, free, rows.len() as int);
    let all = available(rows, known);
    lemma_unapplied_differ(known, rows);
    lemma_exchanges_differ(rows, free, rows.len() as int);
    assert(all == added + swaps);
    assert forall|i: int, j: int|
        #![trigger all[i], all[j]]
        0 <= i < j < all.len() implies all[i].0 != all[j].0 by {
        if j < added.len() {
            assert(all[i] == added[i] && all[j] == added[j]);
            assert(added[i].0.added == seq![free[i]] && added[j].0.added == seq![free[j]]);
            assert(free[i] != free[j]);
            assert(seq![free[i]][0] != seq![free[j]][0]);
        } else if i < added.len() {
            assert(all[i] == added[i] && all[j] == swaps[j - added.len()]);
            assert(added[i].0.removed.len() == 0);
            assert(swaps[j - added.len()].0.removed.len() == 1);
        } else {
            assert(all[i] == swaps[i - added.len()] && all[j] == swaps[j - added.len()]);
        }
    }
}

/// What some exceptions compile to, in order.
pub open spec fn targets(exceptions: Seq<Exception>) -> Seq<Seq<char>>
    decreases exceptions.len(),
{
    if exceptions.len() == 0 {
        Seq::empty()
    } else {
        match exceptions.last().decision() {
            Some(e) => targets(exceptions.drop_last()).push(e),
            None => targets(exceptions.drop_last()),
        }
    }
}

/// What the edits put into a map.
pub open spec fn put_in(edits: Seq<(Seq<char>, Exception)>) -> Seq<Exception> {
    edits.map_values(|e: (Seq<char>, Exception)| e.1)
}

/// Every encoding a search from a base map by these edits may select.
pub open spec fn selectable_of(
    base: &PrecisionMap,
    edits: Seq<(Seq<char>, Exception)>,
) -> Seq<Seq<char>> {
    seq![base.encoding@] + targets(base.exceptions@) + targets(put_in(edits))
}

proof fn lemma_targets(exceptions: Seq<Exception>, k: int)
    requires
        0 <= k < exceptions.len(),
    ensures
        exceptions[k].decision() matches Some(e) ==> targets(exceptions).contains(e),
    decreases exceptions.len(),
{
    if let Some(e) = exceptions[k].decision() {
        let rest = targets(exceptions.drop_last());
        let all = targets(exceptions);
        if k == exceptions.len() - 1 {
            assert(all[rest.len() as int] == e);
        } else {
            lemma_targets(exceptions.drop_last(), k);
            let i = rest.index_of(e);
            assert(all[i] == e);
        }
    }
}

/// An exception decides, or the default does.
proof fn lemma_excepted(
    exceptions: Seq<Exception>,
    role: Role,
    tensor: Seq<char>,
    default: Seq<char>,
)
    ensures
        excepted(exceptions, role, tensor, default) matches Some(e) ==> e == default || exists|
            k: int,
        |
            0 <= k < exceptions.len() && (#[trigger] exceptions[k]).decision() == Some(e),
    decreases exceptions.len(),
{
    if exceptions.len() > 0 && !exceptions[0].governs(role, tensor) {
        let rest = exceptions.skip(1);
        lemma_excepted(rest, role, tensor, default);
        if let Some(e) = excepted(exceptions, role, tensor, default) {
            if e != default {
                let k = choose|k: int|
                    0 <= k < rest.len() && (#[trigger] rest[k]).decision() == Some(e);
                assert(exceptions[k + 1] == rest[k]);
            }
        }
    }
}

/// What is chosen is put in by some edit.
proof fn lemma_chosen(
    edits: Seq<(Seq<char>, Exception)>,
    has: spec_fn(Seq<char>) -> bool,
    k: int,
) -> (j: int)
    requires
        0 <= k < chosen(edits, has).len(),
    ensures
        0 <= j < edits.len(),
        chosen(edits, has)[k] == edits[j].1,
    decreases edits.len(),
{
    let rest = chosen(edits.drop_last(), has);
    if k < rest.len() {
        lemma_chosen(edits.drop_last(), has, k)
    } else {
        edits.len() - 1
    }
}

/// **A search selects only its own encodings.** Whatever edits are applied,
/// the rule they state wants the base map's encoding or one that some
/// exception of the base map or of the edits names.
pub proof fn law_a_search_selects_its_own_encodings(
    base: &PrecisionMap,
    edits: Seq<(Seq<char>, Exception)>,
    has: spec_fn(Seq<char>) -> bool,
    role: Role,
    tensor: Seq<char>,
)
    ensures
        edited_rule(base, chosen(edits, has) + base.exceptions@)(role, tensor) matches Some(e)
            ==> selectable_of(base, edits).contains(e),
{
    let all = chosen(edits, has) + base.exceptions@;
    if let Some(e) = edited_rule(base, all)(role, tensor) {
        lemma_excepted(all, role, tensor, base.encoding@);
        let own = targets(base.exceptions@);
        let put = targets(put_in(edits));
        let full = selectable_of(base, edits);
        if e == base.encoding@ {
            assert(full[0] == e);
        } else {
            let k = choose|k: int| 0 <= k < all.len() && (#[trigger] all[k]).decision() == Some(e);
            let n = chosen(edits, has).len();
            if k < n {
                let j = lemma_chosen(edits, has, k);
                assert(put_in(edits)[j] == all[k]);
                lemma_targets(put_in(edits), j);
                let i = put.index_of(e);
                assert(full[1 + own.len() + i] == e);
            } else {
                assert(base.exceptions@[k - n] == all[k]);
                lemma_targets(base.exceptions@, k - n);
                let i = own.index_of(e);
                assert(full[1 + i] == e);
            }
        }
    }
}

fn add_target(encodings: &mut Vec<String>, exception: &Exception)
    ensures
        texts(final(encodings)@) == (match exception.decision() {
            Some(e) => texts(old(encodings)@).push(e),
            None => texts(old(encodings)@),
        }),
{
    let ghost before = encodings@;
    if let Some(e) = &exception.encoding {
        encodings.push(e.clone());
        assert(texts(encodings@) =~= texts(before).push(e@));
    }
}

/// Every encoding a search from `base` by `vocabulary` may select: those a
/// price table has to be built for.
pub fn selectable(base: &PrecisionMap, vocabulary: &ActionVocabulary) -> (r: Vec<String>)
    ensures
        texts(r@) == selectable_of(base, vocabulary@),
{
    let mut encodings: Vec<String> = Vec::new();
    encodings.push(base.encoding.clone());
    let ghost first = seq![base.encoding@];
    let ghost own = base.exceptions@;
    assert(texts(encodings@) =~= first + targets(own.take(0)));
    let mut i: usize = 0;
    while i < base.exceptions.len()
        invariant
            i <= base.exceptions@.len(),
            own == base.exceptions@,
            texts(encodings@) == first + targets(own.take(i as int)),
        decreases base.exceptions@.len() - i,
    {
        add_target(&mut encodings, &base.exceptions[i]);
        proof {
            let next = own.take(i as int + 1);
            assert(next.drop_last() =~= own.take(i as int));
            assert(next.last() == own[i as int]);
            assert(texts(encodings@) =~= first + targets(next));
        }
        i = i + 1;
    }
    assert(own.take(own.len() as int) =~= own);
    let edits: &Vec<MapEdit> = vocabulary.edits();
    let ghost head = first + targets(own);
    let ghost put = put_in(vocabulary@);
    assert(texts(encodings@) =~= head + targets(put.take(0)));
    let mut j: usize = 0;
    while j < edits.len()
        invariant
            j <= edits@.len(),
            edits_as(edits@) == vocabulary@,
            put == put_in(vocabulary@),
            texts(encodings@) == head + targets(put.take(j as int)),
        decreases edits@.len() - j,
    {
        add_target(&mut encodings, &edits[j].exception);
        proof {
            let next = put.take(j as int + 1);
            assert(next.drop_last() =~= put.take(j as int));
            assert(vocabulary@[j as int] == (edits@[j as int].name@, edits@[j as int].exception));
            assert(next.last() == edits@[j as int].exception);
            assert(texts(encodings@) =~= head + targets(next));
        }
        j = j + 1;
    }
    assert(edits_as(edits@).len() == edits@.len());
    assert(put.take(put.len() as int) =~= put);
    assert(texts(encodings@) =~= selectable_of(base, vocabulary@));
    encodings
}

impl<'a, L: LayoutAdmission> Generator<'a, L, SurfaceFootprint> {
    /// The price table is of this surface, has every price the search may ask
    /// for, and no state costs more than a delta can hold.
    pub open spec fn bounded(&self) -> bool {
        &&& self.footprint@.surface == surface_id(self.surface@)
        &&& ceiling(
            self.footprint@.prices,
            self.surface@,
            self.layout,
            selectable_of(self.base_map, self.vocabulary@),
            self.surface@.len() as int,
        ) matches Some(n)
        &&& n <= i64::MAX
    }

    /// Whether the price table is of this surface, has every price the search
    /// may ask for, and no state costs more than a delta can hold. Then every
    /// state the search can reach has a price.
    pub fn is_bounded(&self) -> (r: bool)
        ensures
            r == self.bounded(),
            r ==> self.priced(),
    {
        proof {
            if self.bounded() {
                law_a_bounded_search_is_priced(self);
            }
        }
        if !same(self.footprint.surface_identity(), self.surface.identity().as_str()) {
            return false;
        }
        let encodings: Vec<String> = selectable(self.base_map, self.vocabulary);
        match self.footprint.ceiling(self.surface, self.layout, &encodings) {
            Some(n) => n <= 0x7fff_ffff_ffff_ffff,
            None => false,
        }
    }
}

/// **A bounded search is priced.** Where the price table is of the search's
/// surface and has a ceiling that a delta can hold, every state any set of
/// edits resolves to has a price.
pub proof fn law_a_bounded_search_is_priced<L: LayoutAdmission>(
    g: &Generator<'_, L, SurfaceFootprint>,
)
    requires
        g.bounded(),
    ensures
        g.priced(),
{
    let encodings = selectable_of(g.base_map, g.vocabulary@);
    assert forall|has: spec_fn(Seq<char>) -> bool|
        {
            let state = #[trigger] g.state_of(has);
            g.footprint.prices(state) && g.footprint.price(state) <= i64::MAX
        } by {
        let rule = edited_rule(g.base_map, g.exceptions_of(has));
        let decisions = resolution(rule, g.surface@, g.layout);
        assert forall|role: Role, tensor: Seq<char>|
            (#[trigger] rule(role, tensor)) matches Some(e) implies encodings.contains(
            rule(role, tensor)->0,
        ) by {
            law_a_search_selects_its_own_encodings(g.base_map, g.vocabulary@, has, role, tensor);
        }
        law_no_state_passes_the_ceiling(
            g.footprint@.prices,
            g.surface@,
            g.layout,
            encodings,
            rule,
            g.surface@.len() as int,
        );
        assert(decisions.take(decisions.len() as int) =~= decisions);
        assert(g.state_of(has).decisions == decisions);
    }
}

/// **A step holds what its move says.** Every step available puts in one edit
/// of the vocabulary that was not applied and takes out at most one that was;
/// and the set it holds is exactly the old set, less what it takes out, with
/// what it puts in.
pub proof fn law_a_step_holds_what_its_move_says(
    rows: Seq<(Seq<char>, ())>,
    known: Seq<Seq<char>>,
    i: int,
)
    requires
        in_order::<String, ()>(rows),
        0 <= i < available(rows, known).len(),
    ensures
        ({
            let step = available(rows, known)[i];
            let m = step.0;
            &&& m.added.len() == 1
            &&& known.contains(m.added[0])
            &&& !names(rows, m.added[0])
            &&& m.removed.len() <= 1
            &&& m.removed.len() == 1 ==> names(rows, m.removed[0])
            &&& forall|n: Seq<char>| #[trigger]
                names(step.1, n) <==> (n == m.added[0] || (names(rows, n) && !m.removed.contains(
                    n,
                )))
            &&& in_order::<String, ()>(step.1)
            &&& step.1.len() == rows.len() + 1 - m.removed.len()
            &&& m.label == (if m.removed.len() == 0 {
                "+"@ + m.added[0]
            } else {
                "−"@ + m.removed[0] + " +"@ + m.added[0]
            })
        }),
{
    let free = unapplied(known, rows);
    let first = free.map_values(|add: Seq<char>| addition(rows, add));
    let swaps = exchanges(rows, free, rows.len() as int);
    let all = available(rows, known);
    assert(all == first + swaps);
    if i < first.len() {
        assert(all[i] == first[i]);
        lemma_unapplied_known(known, rows, i);
        lemma_addition_holds(rows, free[i]);
    } else {
        assert(all[i] == swaps[i - first.len()]);
        let (r, k) = lemma_exchange_at(rows, free, rows.len() as int, i - first.len());
        lemma_unapplied_known(known, rows, k);
        lemma_exchange_holds(rows, r, free[k]);
    }
}

proof fn lemma_addition_holds(rows: Seq<(Seq<char>, ())>, add: Seq<char>)
    requires
        in_order::<String, ()>(rows),
        !names(rows, add),
    ensures
        ({
            let after = addition(rows, add).1;
            &&& in_order::<String, ()>(after)
            &&& after.len() == rows.len() + 1
            &&& forall|n: Seq<char>| #[trigger] names(after, n) <==> (n == add || names(rows, n))
        }),
{
    let after = addition(rows, add).1;
    lemma_with_row_in_order::<String, ()>(rows, add, ());
    lemma_with_row_grows::<String, ()>(rows, add, ());
    assert forall|n: Seq<char>| #[trigger] names(after, n) <==> (n == add || names(rows, n)) by {
        lemma_with_row_lookup::<String, ()>(rows, add, (), n);
    }
}

proof fn lemma_exchange_holds(rows: Seq<(Seq<char>, ())>, r: int, add: Seq<char>)
    requires
        in_order::<String, ()>(rows),
        0 <= r < rows.len(),
        !names(rows, add),
    ensures
        ({
            let remove = rows[r].0;
            let after = exchange(rows, remove, add).1;
            &&& names(rows, remove)
            &&& in_order::<String, ()>(after)
            &&& after.len() == rows.len()
            &&& forall|n: Seq<char>| #[trigger]
                names(after, n) <==> (n == add || (names(rows, n) && n != remove))
            &&& forall|n: Seq<char>| #[trigger] seq![remove].contains(n) <==> n == remove
        }),
{
    let remove = rows[r].0;
    let less = without_row(rows, remove);
    let after = exchange(rows, remove, add).1;
    lemma_names(rows, remove);
    lemma_without_row::<String, ()>(rows, remove, add);
    lemma_with_row_in_order::<String, ()>(less, add, ());
    lemma_with_row_grows::<String, ()>(less, add, ());
    assert forall|n: Seq<char>| #[trigger]
        names(after, n) <==> (n == add || (names(rows, n) && n != remove)) by {
        lemma_without_row::<String, ()>(rows, remove, n);
        lemma_with_row_lookup::<String, ()>(less, add, (), n);
    }
    assert forall|n: Seq<char>| #[trigger] seq![remove].contains(n) <==> n == remove by {
        assert(seq![remove][0] == remove);
    }
}

proof fn lemma_exchange_at(
    rows: Seq<(Seq<char>, ())>,
    free: Seq<Seq<char>>,
    n: int,
    i: int,
) -> (at: (int, int))
    requires
        0 <= n <= rows.len(),
        0 <= i < exchanges(rows, free, n).len(),
    ensures
        0 <= at.0 < n,
        0 <= at.1 < free.len(),
        exchanges(rows, free, n)[i] == exchange(rows, rows[at.0].0, free[at.1]),
    decreases n,
{
    let done = exchanges(rows, free, n - 1);
    if i < done.len() {
        lemma_exchange_at(rows, free, n - 1, i)
    } else {
        (n - 1, i - done.len())
    }
}

proof fn lemma_exchange_comes(
    rows: Seq<(Seq<char>, ())>,
    free: Seq<Seq<char>>,
    n: int,
    r: int,
    k: int,
) -> (i: int)
    requires
        0 <= r < n <= rows.len(),
        0 <= k < free.len(),
    ensures
        0 <= i < exchanges(rows, free, n).len(),
        exchanges(rows, free, n)[i] == exchange(rows, rows[r].0, free[k]),
    decreases n,
{
    let done = exchanges(rows, free, n - 1);
    if r < n - 1 {
        let i = lemma_exchange_comes(rows, free, n - 1, r, k);
        assert(exchanges(rows, free, n)[i] == done[i]);
        i
    } else {
        done.len() + k
    }
}

/// **Every exchange is a move too.** For each applied edit and each edit of
/// the vocabulary that is not applied there is a step that takes out the one
/// and puts in the other; and for each edit not applied there is a step that
/// takes out nothing and puts it in.
pub proof fn law_every_exchange_is_a_move(
    rows: Seq<(Seq<char>, ())>,
    known: Seq<Seq<char>>,
    r: int,
    k: int,
)
    requires
        0 <= r < rows.len(),
        0 <= k < known.len(),
        !names(rows, known[k]),
    ensures
        exists|i: int|
            0 <= i < available(rows, known).len() && (#[trigger] available(
                rows,
                known,
            )[i]).0.removed == seq![rows[r].0] && available(rows, known)[i].0.added == seq![
                known[k],
            ],
        exists|i: int|
            0 <= i < available(rows, known).len() && (#[trigger] available(
                rows,
                known,
            )[i]).0.removed.len() == 0 && available(rows, known)[i].0.added == seq![known[k]],
{
    let free = unapplied(known, rows);
    let first = free.map_values(|add: Seq<char>| addition(rows, add));
    let all = available(rows, known);
    lemma_unapplied_complete(known, rows, k);
    let at = free.index_of(known[k]);
    let i = lemma_exchange_comes(rows, free, rows.len() as int, r, at);
    assert(all[first.len() + i] == exchange(rows, rows[r].0, known[k]));
    assert(all[at] == first[at]);
    assert(all[at].0.removed.len() == 0);
}

/// **Additions come first**, and as the vocabulary has them: nothing that
/// takes an edit out stands before a move that does not, and of two additions
/// the one declared earlier stands earlier.
pub proof fn law_additions_come_first(
    rows: Seq<(Seq<char>, ())>,
    known: Seq<Seq<char>>,
    i: int,
    j: int,
)
    requires
        known.no_duplicates(),
        0 <= i < j < available(rows, known).len(),
        available(rows, known)[j].0.removed.len() == 0,
    ensures
        available(rows, known)[i].0.removed.len() == 0,
        exists|a: int, b: int|
            0 <= a < b < known.len() && available(rows, known)[i].0.added == seq![
                #[trigger] known[a],
            ] && available(rows, known)[j].0.added == seq![#[trigger] known[b]],
{
    let free = unapplied(known, rows);
    let first = free.map_values(|add: Seq<char>| addition(rows, add));
    let swaps = exchanges(rows, free, rows.len() as int);
    let all = available(rows, known);
    assert(all == first + swaps);
    if j >= first.len() {
        assert(all[j] == swaps[j - first.len()]);
        let (r, k) = lemma_exchange_at(rows, free, rows.len() as int, j - first.len());
        assert(all[j].0.removed.len() == 1);
    }
    assert(all[i] == first[i] && all[j] == first[j]);
    let (a, b) = lemma_unapplied_order(known, rows, i, j);
    assert(all[i].0.added == seq![known[a]] && all[j].0.added == seq![known[b]]);
}

proof fn lemma_unapplied_order(
    known: Seq<Seq<char>>,
    rows: Seq<(Seq<char>, ())>,
    i: int,
    j: int,
) -> (at: (int, int))
    requires
        0 <= i < j < unapplied(known, rows).len(),
    ensures
        0 <= at.0 < at.1 < known.len(),
        unapplied(known, rows)[i] == known[at.0],
        unapplied(known, rows)[j] == known[at.1],
    decreases known.len(),
{
    let init = known.drop_last();
    let rest = unapplied(init, rows);
    if j < rest.len() {
        lemma_unapplied_order(init, rows, i, j)
    } else {
        lemma_unapplied_known(init, rows, i);
        let a = init.index_of(rest[i]);
        (a, known.len() - 1)
    }
}

/// **What becomes of a move.** It is refused as changing nothing exactly where
/// its child decides what the parent decides; else as dominated exactly where
/// the policy wants fewer bytes and the child has no fewer; else as observed
/// exactly where its own experiment is on record; and it is offered in every
/// other case. What is offered carries the parent, the step and the child it
/// resolves to, and the child's bytes less the parent's.
pub proof fn law_what_becomes_of_a_move<L: LayoutAdmission, F: Footprint>(
    generator: &Generator<L, F>,
    parent: Realized,
    step: Step,
    intent: &MeasurementIntent,
)
    requires
        generator.priced(),
        parent.bytes <= i64::MAX,
    ensures
        ({
            let child = generator.realization_of(held_in(step.1));
            let key = keyed(child.state.id, intent.bank@, intent.scale, intent.instrument@);
            let same = child.realization == parent.realization;
            let dominated = generator.policy is StrictlyImprovingPhysical && child.bytes
                >= parent.bytes;
            let held = exists|k: int|
                0 <= k < generator.measurements@.len() && (#[trigger] generator.measurements@[k]).0
                    == key.digest;
            match generator.disposed(parent, step, intent) {
                Disposed::Eligible(c) => {
                    &&& !same && !dominated && !held
                    &&& c.action == step.0
                    &&& c.applied == step.1
                    &&& c.child == child
                    &&& c.parent_state == parent.state.id
                    &&& c.parent_realization == parent.realization
                    &&& c.physical_delta == child.bytes - parent.bytes
                    &&& c.intended_key == key
                },
                Disposed::Pruned { action, child_state, reason } => {
                    &&& action == step.0
                    &&& child_state == Some(child.state.id)
                    &&& match reason {
                        Prune::StructurallyInvalid(_) => same,
                        Prune::PhysicallyDominated { parent_bytes, child_bytes } => !same
                            && dominated && parent_bytes == parent.bytes && child_bytes
                            == child.bytes,
                        Prune::AlreadyObserved(k) => !same && !dominated && held && k == key,
                    }
                },
            }
        }),
{
    let child = generator.realization_of(held_in(step.1));
    let key = keyed(child.state.id, intent.bank@, intent.scale, intent.instrument@);
    assert(generator.footprint.price(generator.state_of(held_in(step.1))) <= i64::MAX);
    lemma_names(generator.measurements@, key.digest);
}

/// **What a set of edits resolves to.** Each tensor of the surface is decided
/// once, in its place: by the first applied edit that governs it, in the
/// vocabulary's order, and where none does as the base map would alone; a
/// tensor the layout refuses says what it was refused; and one whose role the
/// base map does not name stays at source. The set costs what its state costs.
pub proof fn law_what_a_set_of_edits_resolves_to<L: LayoutAdmission, F: Footprint>(
    generator: &Generator<L, F>,
    has: spec_fn(Seq<char>) -> bool,
    i: int,
    k: int,
)
    requires
        0 <= i < generator.surface@.len(),
        0 <= k <= generator.vocabulary@.len(),
        forall|j: int|
            0 <= j < k ==> !(has((#[trigger] generator.vocabulary@[j]).0)
                && generator.vocabulary@[j].1.governs(
                generator.surface@[i].role,
                generator.surface@[i].tensor,
            )),
        k < generator.vocabulary@.len() ==> has(generator.vocabulary@[k].0)
            && generator.vocabulary@[k].1.governs(
            generator.surface@[i].role,
            generator.surface@[i].tensor,
        ),
    ensures
        ({
            let t = generator.surface@[i];
            let base = generator.base_map;
            let named = exists|r: int|
                0 <= r < base.roles@.len() && (#[trigger] base.roles@[r])@ == t.role.title();
            let wanted = if !named {
                None
            } else if k == generator.vocabulary@.len() {
                base.decides(t.role, t.tensor)
            } else {
                match generator.vocabulary@[k].1.encoding {
                    Some(e) => Some(e@),
                    None => None,
                }
            };
            let state = generator.state_of(has);
            &&& state.decisions.len() == generator.surface@.len()
            &&& state.decisions[i].object == t.object
            &&& state.decisions[i].tensor == t.tensor
            &&& wanted is None ==> state.decisions[i].encoding == Decided::Source
            &&& wanted matches Some(e) ==> state.decisions[i].encoding == (if generator.layout.takes(
                e,
                t,
            ) {
                Decided::Compiled(e)
            } else {
                Decided::LayoutRefused(e)
            })
            &&& state.model == generator.model@
            &&& generator.realization_of(has).state == state
            &&& generator.realization_of(has).bytes == generator.footprint.price(state)
        }),
{
    let t = generator.surface@[i];
    crate::action_space::law_the_first_applied_edit_decides(
        generator.base_map,
        generator.vocabulary@,
        has,
        t.role,
        t.tensor,
        k,
    );
}

/// **What was read of the child is carried along.** A candidate names every
/// reading of its child's state that is on record, and no other state's.
pub proof fn law_what_was_read_is_carried_along<L: LayoutAdmission, F: Footprint>(
    generator: &Generator<L, F>,
    parent: Realized,
    step: Step,
    intent: &MeasurementIntent,
    key: Keyed,
)
    requires
        generator.disposed(parent, step, intent) is Eligible,
    ensures
        ({
            let c = generator.disposed(parent, step, intent)->Eligible_0;
            let rows = generator.measurements@;
            c.prior_observations.contains(key) <==> exists|k: int|
                0 <= k < rows.len() && (#[trigger] rows[k]).1.key == key && rows[k].1.key.state
                    == c.child.state.id
        }),
{
    let c = generator.disposed(parent, step, intent)->Eligible_0;
    let rows = generator.measurements@;
    let id = c.child.state.id;
    let found = records_of(rows, id);
    lemma_records_of(rows, id, key);
    let keys = found.map_values(|r: Recorded| r.key);
    assert(c.prior_observations == keys);
    if keys.contains(key) {
        let k = keys.index_of(key);
        assert(found[k].key == key);
    }
    if exists|k: int| 0 <= k < found.len() && (#[trigger] found[k]).key == key {
        let k = choose|k: int| 0 <= k < found.len() && (#[trigger] found[k]).key == key;
        assert(keys[k] == key);
    }
}

proof fn lemma_records_of(rows: Seq<(Seq<char>, Recorded)>, state: Seq<char>, key: Keyed)
    ensures
        (exists|k: int|
            0 <= k < records_of(rows, state).len() && (#[trigger] records_of(rows, state)[k]).key
                == key) <==> exists|k: int|
            0 <= k < rows.len() && (#[trigger] rows[k]).1.key == key && rows[k].1.key.state
                == state,
    decreases rows.len(),
{
    if rows.len() > 0 {
        let init = rows.drop_last();
        let held = records_of(init, state);
        let all = records_of(rows, state);
        lemma_records_of(init, state, key);
        assert(rows[rows.len() - 1] == rows.last());
        if exists|k: int| 0 <= k < all.len() && (#[trigger] all[k]).key == key {
            let k = choose|k: int| 0 <= k < all.len() && (#[trigger] all[k]).key == key;
            if k < held.len() {
                assert(held[k].key == key);
                let j = choose|j: int|
                    0 <= j < init.len() && (#[trigger] init[j]).1.key == key && init[j].1.key.state
                        == state;
                assert(rows[j] == init[j]);
            } else {
                assert(rows[rows.len() - 1].1.key == key);
            }
        }
        if exists|k: int|
            0 <= k < rows.len() && (#[trigger] rows[k]).1.key == key && rows[k].1.key.state
                == state {
            let k = choose|k: int|
                0 <= k < rows.len() && (#[trigger] rows[k]).1.key == key && rows[k].1.key.state
                    == state;
            if k < init.len() {
                assert(init[k] == rows[k]);
                let j = choose|j: int| 0 <= j < held.len() && (#[trigger] held[j]).key == key;
                assert(all[j] == held[j]);
            } else {
                assert(all[all.len() - 1].key == key);
            }
        }
    }
}

/// **Exchanges come by what they take out, then by what they put in.** Of two
/// exchanges the earlier takes out the edit that is held earlier, or the same
/// one, and puts in the edit the vocabulary has earlier.
pub proof fn law_exchanges_come_in_order(
    rows: Seq<(Seq<char>, ())>,
    known: Seq<Seq<char>>,
    i: int,
    j: int,
)
    requires
        0 <= i < j < available(rows, known).len(),
        available(rows, known)[i].0.removed.len() == 1,
        available(rows, known)[j].0.removed.len() == 1,
    ensures
        exists|r: int, s: int, a: int, b: int|
            0 <= r <= s < rows.len() && 0 <= a < known.len() && 0 <= b < known.len() && available(
                rows,
                known,
            )[i].0.removed == seq![(#[trigger] rows[r]).0] && available(rows, known)[j].0.removed
                == seq![(#[trigger] rows[s]).0] && available(rows, known)[i].0.added == seq![
                #[trigger] known[a],
            ] && available(rows, known)[j].0.added == seq![#[trigger] known[b]] && (r < s || a < b),
{
    let free = unapplied(known, rows);
    let first = free.map_values(|add: Seq<char>| addition(rows, add));
    let swaps = exchanges(rows, free, rows.len() as int);
    let all = available(rows, known);
    assert(all == first + swaps);
    if i < first.len() {
        assert(all[i] == first[i]);
    }
    assert(all[i] == swaps[i - first.len()] && all[j] == swaps[j - first.len()]);
    let (r, x, s, y) = lemma_exchange_order(
        rows,
        free,
        rows.len() as int,
        i - first.len(),
        j - first.len(),
    );
    lemma_unapplied_known(known, rows, x);
    lemma_unapplied_known(known, rows, y);
    if r == s {
        let (a, b) = lemma_unapplied_order(known, rows, x, y);
        assert(all[i].0.removed == seq![rows[r].0] && all[j].0.removed == seq![rows[s].0]);
        assert(all[i].0.added == seq![known[a]] && all[j].0.added == seq![known[b]]);
    } else {
        let a = known.index_of(free[x]);
        let b = known.index_of(free[y]);
        assert(all[i].0.removed == seq![rows[r].0] && all[j].0.removed == seq![rows[s].0]);
        assert(all[i].0.added == seq![known[a]] && all[j].0.added == seq![known[b]]);
    }
}

proof fn lemma_exchange_order(
    rows: Seq<(Seq<char>, ())>,
    free: Seq<Seq<char>>,
    n: int,
    i: int,
    j: int,
) -> (at: (int, int, int, int))
    requires
        0 <= n <= rows.len(),
        0 <= i < j < exchanges(rows, free, n).len(),
    ensures
        0 <= at.0 <= at.2 < n,
        0 <= at.1 < free.len(),
        0 <= at.3 < free.len(),
        at.0 < at.2 || at.1 < at.3,
        exchanges(rows, free, n)[i] == exchange(rows, rows[at.0].0, free[at.1]),
        exchanges(rows, free, n)[j] == exchange(rows, rows[at.2].0, free[at.3]),
    decreases n,
{
    let done = exchanges(rows, free, n - 1);
    if j < done.len() {
        lemma_exchange_order(rows, free, n - 1, i, j)
    } else if i < done.len() {
        let (r, k) = lemma_exchange_at(rows, free, n - 1, i);
        (r, k, n - 1, j - done.len())
    } else {
        (n - 1, i - done.len(), n - 1, j - done.len())
    }
}

} // verus!
