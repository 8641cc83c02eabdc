//! What calls do whose bodies are not analyzed.

use super::constraint::{with_items, Constraint, ConstraintSet};
use super::loc::{with_item, LocId};
use vstd::prelude::*;

verus! {

/// What a modelled call does.
#[derive(Clone, Copy, Debug, PartialEq, Eq, Structural)]
pub enum ModelEffect {
    /// The result is what the argument with the given number points to.
    ReturnsArg(usize),
    /// The result points to fresh memory.
    Allocates,
    /// The result points to nothing.
    Ignores,
}

/// The model of one callee.
#[derive(Debug)]
pub struct CallModel {
    pub callee: String,
    pub effect: ModelEffect,
}

/// The locations that a call touches.
#[derive(Debug)]
pub struct CallNodes {
    pub dest: LocId,
    pub args: Vec<Option<LocId>>,
    pub fresh_heap: LocId,
}

/// The copies of the arguments into the result.
pub open spec fn arg_copies(dest: LocId, args: Seq<Option<LocId>>) -> Seq<Constraint>
    decreases args.len(),
{
    if args.len() == 0 {
        Seq::empty()
    } else {
        let before = arg_copies(dest, args.drop_last());
        match args.last() {
            Some(src) => before.push(Constraint::Copy { dst: dest, src }),
            None => before,
        }
    }
}

/// What is known of a call of which nothing is known: its result may be any
/// argument, or fresh memory.
pub open spec fn unknown_constraints(
    dest: LocId,
    args: Seq<Option<LocId>>,
    fresh_heap: LocId,
) -> Seq<Constraint> {
    arg_copies(dest, args).push(Constraint::AddressOf { dst: dest, obj: fresh_heap })
}

/// What is known of a modelled call.
pub open spec fn model_constraints(
    effect: ModelEffect,
    dest: LocId,
    args: Seq<Option<LocId>>,
    fresh_heap: LocId,
) -> Seq<Constraint> {
    match effect {
        ModelEffect::ReturnsArg(i) => if i < args.len() && args[i as int] is Some {
            seq![Constraint::Copy { dst: dest, src: args[i as int]->0 }]
        } else {
            Seq::empty()
        },
        ModelEffect::Allocates => seq![Constraint::AddressOf { dst: dest, obj: fresh_heap }],
        ModelEffect::Ignores => Seq::empty(),
    }
}

/// The effect of the first model, from `n` on, of a callee.
pub open spec fn effect_from(models: Seq<CallModel>, callee: Seq<char>, n: nat) -> Option<
    ModelEffect,
>
    decreases models.len() - n,
{
    if n >= models.len() {
        None
    } else if models[n as int].callee@ == callee {
        Some(models[n as int].effect)
    } else {
        effect_from(models, callee, n + 1)
    }
}

/// The models of calls. Where a callee has none, a call of which nothing is
/// known is handled conservatively.
#[derive(Debug)]
pub struct ModelRegistry {
    pub models: Vec<CallModel>,
}

impl ModelRegistry {
    /// The registry without extra models.
    pub fn builtin() -> (r: Self)
        ensures
            r.models@ == Seq::<CallModel>::empty(),
    {
        ModelRegistry { models: Vec::new() }
    }

    /// The effect of a callee.
    pub open spec fn effect(&self, callee: Seq<char>) -> Option<ModelEffect> {
        effect_from(self.models@, callee, 0)
    }

    /// Adds a model. A callee's first model counts.
    pub fn register(&mut self, model: CallModel)
        ensures
            final(self).models@ == old(self).models@.push(model),
    {
        self.models.push(model);
    }

    /// The effect of a callee.
    pub fn find_effect(&self, callee: &String) -> (r: Option<ModelEffect>)
        ensures
            r == self.effect(callee@),
    {
        let mut i: usize = 0;
        while i < self.models.len()
            invariant
                i <= self.models@.len(),
                effect_from(self.models@, callee@, 0) == effect_from(
                    self.models@,
                    callee@,
                    i as nat,
                ),
            decreases self.models@.len() - i,
        {
            if self.models[i].callee == *callee {
                return Some(self.models[i].effect);
            }
            i = i + 1;
        }
        None
    }

    /// Adds what is known of a modelled call.
    pub fn apply_effect(
        &self,
        effect: ModelEffect,
        nodes: &CallNodes,
        constraints: &mut ConstraintSet,
    )
        ensures
            final(constraints)@ == with_items(
                old(constraints)@,
                model_constraints(effect, nodes.dest, nodes.args@, nodes.fresh_heap),
            ),
    {
        let ghost begun = constraints@;
        proof {
            reveal_with_fuel(with_items, 2);
        }
        match effect {
            ModelEffect::ReturnsArg(i) => {
                if i < nodes.args.len() {
                    match nodes.args[i] {
                        Some(src) => {
                            let c = Constraint::Copy { dst: nodes.dest, src };
                            constraints.add(c);
                            proof {
                                one_item(begun, c);
                            }
                        },
                        None => {},
                    }
                }
            },
            ModelEffect::Allocates => {
                let c = Constraint::AddressOf { dst: nodes.dest, obj: nodes.fresh_heap };
                constraints.add(c);
                proof {
                    one_item(begun, c);
                }
            },
            ModelEffect::Ignores => {},
        }
    }

    /// Adds what is known of a call of which nothing is known.
    pub fn apply_unknown(&self, nodes: &CallNodes, constraints: &mut ConstraintSet)
        ensures
            final(constraints)@ == with_items(
                old(constraints)@,
                unknown_constraints(nodes.dest, nodes.args@, nodes.fresh_heap),
            ),
    {
        let ghost begun = constraints@;
        let mut i: usize = 0;
        while i < nodes.args.len()
            invariant
                i <= nodes.args@.len(),
                constraints@ == with_items(
                    begun,
                    arg_copies(nodes.dest, nodes.args@.take(i as int)),
                ),
            decreases nodes.args@.len() - i,
        {
            proof {
                assert(nodes.args@.take(i + 1).drop_last() =~= nodes.args@.take(i as int));
            }
            match nodes.args[i] {
                Some(src) => {
                    let c = Constraint::Copy { dst: nodes.dest, src };
                    constraints.add(c);
                    proof {
                        push_item(begun, arg_copies(nodes.dest, nodes.args@.take(i as int)), c);
                    }
                },
                None => {},
            }
            i = i + 1;
        }
        let c = Constraint::AddressOf { dst: nodes.dest, obj: nodes.fresh_heap };
        constraints.add(c);
        proof {
            assert(nodes.args@.take(i as int) =~= nodes.args@);
            push_item(begun, arg_copies(nodes.dest, nodes.args@), c);
        }
    }
}

/// One item of a list at a time.
pub proof fn push_item<T>(s: Seq<T>, list: Seq<T>, x: T)
    ensures
        with_items(s, list.push(x)) == with_item(with_items(s, list), x),
{
    assert(list.push(x).drop_last() =~= list);
}

/// A list of one item.
pub proof fn one_item<T>(s: Seq<T>, x: T)
    ensures
        with_items(s, seq![x]) == with_item(s, x),
{
    push_item(s, Seq::<T>::empty(), x);
    assert(Seq::<T>::empty().push(x) =~= seq![x]);
}

} // verus!
