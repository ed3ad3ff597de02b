//! What the strict decomposition enforces, and that honest values satisfy it.

use vstd::arithmetic::div_mod::lemma_basic_div;
use vstd::arithmetic::power2::pow2;
use vstd::prelude::*;

use crate::bits::{
    be_sum, bit, bit_value, bits_le, le_sum, lemma_be_sum_reversed, lemma_le_sum_bits,
    lemma_le_sum_range, lemma_powers_around_modulus, lemma_prefix_step, lemma_top_bits_of_modulus,
};
use crate::boolean::{
    and_allocated, bit_allocated, bit_allocated_conditionally, bit_name, opt_bit, AllocatedBit,
};
use crate::completeness::{
    honest, lemma_covers_difference, lemma_covers_scaled, lemma_kept_assignment, lemma_kept_value,
    lemma_own_values, lemma_same_values, lemma_still_satisfied,
};
use crate::constraint_system::{added_hold, SystemView};
use crate::decimal::decimal;
use crate::evaluation::{lemma_eval_range, lemma_eval_unscaled, lemma_eval_variable};
use crate::expression::{as_booleans, packed_terms, unpacking_constraint, weighted_terms};
use crate::field_lemmas::lemma_fe_small;
use crate::fr::{is_prime, modulus, NUM_BITS};
use crate::linear_combination::{eval, is_assignment, scaled, Assignment, Variable};
use crate::num::LinearView;
use crate::soundness::{
    allocated_bit_is_boolean, and_is_sound, conditional_bit_is_sound, holds_bit, is_boolean,
    lemma_added_between, lemma_eval_packed, lemma_truths, lemma_unpacking_constraint, ones, truths,
};
use crate::strict::{
    conjunction, lemma_conjunction_grows, lemma_conjunction_succeeds, lemma_run_closed,
    lemma_step_grows, lemma_underway, run_closed, strict_outcome, underway, unpacked, Unpacking,
};
use crate::strict_witness::{all_true, conjunction_is_met, strict_bits_are_met};
use crate::witness::{
    allocated_bit_is_met, and_is_met, conditional_bit_is_met, of_boolean, true_bit,
};

verus! {

/// Whether all variables hold a bit.
pub open spec fn all_bits(v: Seq<AllocatedBit>, w: Assignment) -> bool {
    forall|j: int| 0 <= j < v.len() ==> holds_bit((#[trigger] v[j]).variable, w)
}

/// Whether all variables hold one.
pub open spec fn all_ones(v: Seq<AllocatedBit>, w: Assignment) -> bool {
    forall|j: int| 0 <= j < v.len() ==> w((#[trigger] v[j]).variable) == 1
}

/// The conjunction of bits is one just where all of them are.
pub proof fn conjunction_is_sound(cs: SystemView, v: Seq<AllocatedBit>, w: Assignment)
    requires
        v.len() > 0,
        all_bits(v, w),
        conjunction(cs, v).1 is Ok,
        is_assignment(w),
        added_hold(cs, conjunction(cs, v).0, w),
    ensures
        w((conjunction(cs, v).1->Ok_0).variable) == bit_value(all_ones(v, w)),
    decreases v.len(),
{
    if v.len() == 1 {
        assert(holds_bit(v[0].variable, w));
        assert(all_ones(v, w) <==> w(v[0].variable) == 1);
    } else {
        let rest = v.drop_last();
        let (before, r) = conjunction(cs, rest);
        let all = r->Ok_0;
        let within = before.within("and "@ + decimal((v.len() - 1) as nat));
        let (after, both) = and_allocated(within, all, v.last());
        let later = conjunction(cs, v).0;
        assert(after.constraints == later.constraints);
        lemma_conjunction_grows(cs, rest);
        lemma_added_between(cs, before, later, w);
        assert(added_hold(within, after, w)) by {
            assert(added_hold(before, later, w));
        }
        assert forall|j: int| 0 <= j < rest.len() implies holds_bit((#[trigger] rest[j]).variable, w) by {
            assert(rest[j] == v[j]);
        }
        conjunction_is_sound(cs, rest, w);
        assert(holds_bit(v[v.len() - 1].variable, w));
        and_is_sound(within, all, v.last(), w);
        if all_ones(rest, w) && w(v.last().variable) == 1 {
            assert forall|j: int| 0 <= j < v.len() implies w((#[trigger] v[j]).variable) == 1 by {
                if j < rest.len() {
                    assert(rest[j] == v[j]);
                }
            }
        }
        if all_ones(v, w) {
            assert(w(v[v.len() - 1].variable) == 1);
            assert forall|j: int| 0 <= j < rest.len() implies w((#[trigger] rest[j]).variable) == 1 by {
                assert(rest[j] == v[j]);
            }
        }
    }
}

/// Whether all bits so far over ones of the greatest representative are one.
pub open spec fn tight(s: Unpacking, w: Assignment) -> bool {
    &&& s.last_run is Some ==> w((s.last_run->0).variable) == 1
    &&& all_ones(s.current_run, w)
}

/// How the number made of the bits so far compares with as many bits of the
/// greatest representative: it is the same where all bits over ones are one, and
/// less otherwise.
pub open spec fn bounded(s: Unpacking, i: nat, w: Assignment) -> bool {
    let a = be_sum(ones(s.result, w));
    let b = (modulus() - 1) / (pow2((NUM_BITS - i) as nat) as int);
    &&& all_bits(s.result, w)
    &&& all_bits(s.current_run, w)
    &&& s.last_run is Some ==> holds_bit((s.last_run->0).variable, w)
    &&& tight(s, w) ==> a == b
    &&& !tight(s, w) ==> a < b
}

/// Closing a run does not change whether all bits over ones are one.
proof fn lemma_closed_tight(cs: SystemView, s: Unpacking, i: int, w: Assignment)
    requires
        underway(cs, s),
        all_bits(s.current_run, w),
        s.last_run is Some ==> holds_bit((s.last_run->0).variable, w),
        is_assignment(w),
        added_hold(s.cs, run_closed(s, i).cs, w),
    ensures
        tight(run_closed(s, i), w) == tight(s, w),
        run_closed(s, i).last_run is Some ==> holds_bit(
            (run_closed(s, i).last_run->0).variable,
            w,
        ),
        all_bits(run_closed(s, i).current_run, w),
{
    if s.current_run.len() > 0 {
        let run = match s.last_run {
            Some(last) => s.current_run.push(last),
            None => s.current_run,
        };
        let within = s.cs.within("run ending at "@ + decimal(i as nat));
        lemma_run_closed(cs, s, i);
        assert forall|j: int| 0 <= j < run.len() implies holds_bit((#[trigger] run[j]).variable, w) by {
            if j < s.current_run.len() {
                assert(run[j] == s.current_run[j]);
            }
        }
        assert(added_hold(within, conjunction(within, run).0, w)) by {
            assert(conjunction(within, run).0.constraints == run_closed(s, i).cs.constraints);
        }
        conjunction_is_sound(within, run, w);
        if tight(s, w) {
            assert forall|j: int| 0 <= j < run.len() implies w((#[trigger] run[j]).variable) == 1 by {
                if j < s.current_run.len() {
                    assert(run[j] == s.current_run[j]);
                }
            }
        }
        if all_ones(run, w) {
            assert forall|j: int| 0 <= j < s.current_run.len() implies w(
                (#[trigger] s.current_run[j]).variable,
            ) == 1 by {
                assert(run[j] == s.current_run[j]);
            }
            if s.last_run is Some {
                assert(run[run.len() - 1] == s.last_run->0);
            }
        }
    }
}

/// Every step keeps the bound.
proof fn lemma_bounded(cs: SystemView, value: Option<int>, i: nat, w: Assignment)
    requires
        is_prime(modulus()),
        i <= NUM_BITS,
        !cs.lacks(value),
        is_assignment(w),
        added_hold(cs, unpacked(cs, value, i).cs, w),
    ensures
        bounded(unpacked(cs, value, i), i, w),
    decreases i,
{
    if i == 0 {
        lemma_powers_around_modulus();
        lemma_basic_div(modulus() - 1, pow2(255) as int);
        assert(ones(unpacked(cs, value, i).result, w) =~= Seq::<bool>::empty());
        assert(be_sum(Seq::<bool>::empty()) == 0);
    } else {
        let k = (i - 1) as nat;
        let s = unpacked(cs, value, k);
        let next = unpacked(cs, value, i);
        let g = bit(modulus() - 1, NUM_BITS - i);
        let v = opt_bit(value, NUM_BITS - i);
        lemma_step_grows(cs, value, i);
        lemma_underway(cs, value, k);
        lemma_added_between(cs, s.cs, next.cs, w);
        lemma_bounded(cs, value, k, w);
        lemma_prefix_step(modulus() - 1, (NUM_BITS - i) as nat);
        assert((NUM_BITS - k) as nat == (NUM_BITS - i) as nat + 1);
        let a = be_sum(ones(s.result, w));
        let b = (modulus() - 1) / (pow2((NUM_BITS - k) as nat) as int);
        let last = next.result.last();
        if g {
            let (c, r) = bit_allocated(s.cs.within(bit_name(k as int)), v);
            assert(added_hold(s.cs.within(bit_name(k as int)), c, w)) by {
                assert(added_hold(s.cs, next.cs, w));
                assert(c.constraints == next.cs.constraints);
            }
            allocated_bit_is_boolean(s.cs.within(bit_name(k as int)), v, w);
            assert(last == r->Ok_0);
            assert forall|j: int| 0 <= j < next.current_run.len() implies holds_bit(
                (#[trigger] next.current_run[j]).variable,
                w,
            ) by {
                if j < s.current_run.len() {
                    assert(next.current_run[j] == s.current_run[j]);
                }
            }
            if tight(next, w) {
                assert forall|j: int| 0 <= j < s.current_run.len() implies w(
                    (#[trigger] s.current_run[j]).variable,
                ) == 1 by {
                    assert(next.current_run[j] == s.current_run[j]);
                }
                assert(next.current_run[next.current_run.len() - 1] == last);
            }
            if tight(s, w) && w(last.variable) == 1 {
                assert forall|j: int| 0 <= j < next.current_run.len() implies w(
                    (#[trigger] next.current_run[j]).variable,
                ) == 1 by {
                    if j < s.current_run.len() {
                        assert(next.current_run[j] == s.current_run[j]);
                    }
                }
            }
            assert(tight(next, w) == (tight(s, w) && w(last.variable) == 1));
        } else {
            let closed = run_closed(s, k as int);
            let within = closed.cs.within(bit_name(k as int));
            let must = (closed.last_run->0).variable;
            let (c, r) = bit_allocated_conditionally(within, v, must);
            if s.current_run.len() > 0 {
                lemma_run_closed(s.cs, s, k as int);
            }
            assert(c.constraints == next.cs.constraints);
            assert(closed.cs.constraints.is_prefix_of(next.cs.constraints));
            lemma_added_between(s.cs, closed.cs, next.cs, w);
            assert(added_hold(within, c, w)) by {
                assert(added_hold(closed.cs, next.cs, w));
            }
            lemma_closed_tight(cs, s, k as int, w);
            if s.current_run.len() > 0 {
                lemma_run_closed(cs, s, k as int);
            }
            lemma_top_bits_of_modulus();
            assert(closed.last_run is Some);
            assert(closed.current_run.len() == 0);
            conditional_bit_is_sound(within, v, must, w);
            assert(last == r->Ok_0);
            assert(tight(next, w) == tight(s, w));
        }
        assert forall|j: int| 0 <= j < next.result.len() implies holds_bit(
            (#[trigger] next.result[j]).variable,
            w,
        ) by {
            if j < s.result.len() {
                assert(next.result[j] == s.result[j]);
            }
        }
        assert(ones(next.result, w).drop_last() =~= ones(s.result, w));
        assert(ones(next.result, w).last() == (w(last.variable) == 1));
        assert(be_sum(ones(next.result, w)) == 2 * a + bit_value(w(last.variable) == 1));
    }
}

/// The bits into which the strict decomposition takes an expression are those of
/// its representative within the field: no assignment gives it the bits of a
/// congruent number.
pub proof fn strict_bits_are_sound(cs: SystemView, e: LinearView, w: Assignment)
    requires
        is_prime(modulus()),
        strict_outcome(cs, e).1 is Ok,
        is_assignment(w),
        added_hold(cs, strict_outcome(cs, e).0, w),
    ensures
        truths(strict_outcome(cs, e).1->Ok_0, w) == bits_le(eval(e.terms, w), NUM_BITS as nat),
        le_sum(truths(strict_outcome(cs, e).1->Ok_0, w)) == eval(e.terms, w),
        forall|i: int|
            0 <= i < NUM_BITS ==> is_boolean(#[trigger] (strict_outcome(cs, e).1->Ok_0)[i], w),
{
    let later = strict_outcome(cs, e).0;
    let all = unpacked(cs, e.value, NUM_BITS as nat);
    let bits = all.result.reverse();
    lemma_underway(cs, e.value, NUM_BITS as nat);
    lemma_added_between(cs, all.cs, later, w);
    lemma_bounded(cs, e.value, NUM_BITS as nat, w);
    assert forall|i: int| 0 <= i < bits.len() implies holds_bit((#[trigger] bits[i]).variable, w) by {
        assert(bits[i] == all.result[all.result.len() - 1 - i]);
    }
    assert(later.constraints[all.cs.constraints.len() as int] == unpacking_constraint(
        all.cs,
        bits,
        e.terms,
    ));
    lemma_unpacking_constraint(all.cs, bits, e.terms, w);
    assert(ones(bits, w) =~= ones(all.result, w).reverse());
    lemma_be_sum_reversed(ones(all.result, w));
    let t = ones(bits, w);
    lemma_le_sum_range(t);
    vstd::arithmetic::power2::lemma2_to64();
    assert(pow2(0) == 1);
    assert((modulus() - 1) / 1 == modulus() - 1);
    lemma_fe_small(le_sum(t));
    lemma_truths(bits, w);
    assert forall|i: int| 0 <= i < t.len() implies t[i] == bit(le_sum(t), i) by {
        lemma_le_sum_bits(t, i);
    }
    assert(t =~= bits_le(le_sum(t), NUM_BITS as nat));
    let r = as_booleans(bits);
    assert forall|i: int| 0 <= i < NUM_BITS implies is_boolean(#[trigger] r[i], w) by {
        assert(holds_bit(bits[i].variable, w));
        lemma_eval_variable(bits[i].variable, w);
    }
}

/// The bits into which the strict decomposition takes an expression give the
/// expression back when they are packed again.
pub proof fn packing_undoes_strict_unpacking(cs: SystemView, e: LinearView, w: Assignment)
    requires
        is_prime(modulus()),
        strict_outcome(cs, e).1 is Ok,
        is_assignment(w),
        added_hold(cs, strict_outcome(cs, e).0, w),
    ensures
        eval(scaled(packed_terms(strict_outcome(cs, e).1->Ok_0), 1), w) == eval(e.terms, w),
{
    strict_bits_are_sound(cs, e, w);
    lemma_underway(cs, e.value, NUM_BITS as nat);
    let bits = strict_outcome(cs, e).1->Ok_0;
    lemma_eval_packed(bits, w);
    lemma_eval_unscaled(packed_terms(bits), w);
    lemma_eval_range(e.terms, w);
    lemma_fe_small(eval(e.terms, w));
}

/// Whether the variable of a bit is assigned the value of the bit, which is known.
pub open spec fn honest_bit(cs: SystemView, b: AllocatedBit) -> bool {
    &&& cs.assigned(b.variable)
    &&& true_bit(b, cs.assignment())
}

/// Whether all bits are honest.
pub open spec fn honest_bits(cs: SystemView, v: Seq<AllocatedBit>) -> bool {
    forall|j: int| 0 <= j < v.len() ==> honest_bit(cs, #[trigger] v[j])
}

/// Whether the variables of bits are assigned.
pub open spec fn all_assigned(cs: SystemView, v: Seq<AllocatedBit>) -> bool {
    forall|j: int| 0 <= j < v.len() ==> cs.assigned((#[trigger] v[j]).variable)
}

/// Whether all variables of the constraints that a record has gained are assigned.
pub open spec fn added_covered(cs: SystemView, later: SystemView) -> bool {
    forall|i: int|
        cs.constraints.len() <= i < later.constraints.len() ==> {
            let constraint = #[trigger] later.constraints[i];
            later.covers(constraint.a) && later.covers(constraint.b) && later.covers(constraint.c)
        }
}

/// What is added in two steps is covered where what each of them adds is.
proof fn lemma_covered_between(cs: SystemView, between: SystemView, later: SystemView)
    requires
        between.aux.is_prefix_of(later.aux),
        between.constraints.is_prefix_of(later.constraints),
        added_covered(cs, between),
        added_covered(between, later),
    ensures
        added_covered(cs, later),
{
    assert forall|i: int| cs.constraints.len() <= i < later.constraints.len() implies {
        let constraint = #[trigger] later.constraints[i];
        later.covers(constraint.a) && later.covers(constraint.b) && later.covers(constraint.c)
    } by {
        if i < between.constraints.len() {
            let constraint = between.constraints[i];
            assert(later.constraints[i] == constraint);
            lemma_kept_value(between, later, constraint.a);
            lemma_kept_value(between, later, constraint.b);
            lemma_kept_value(between, later, constraint.c);
        }
    }
}

/// Assigned bits stay assigned as the record grows.
proof fn lemma_bits_stay_assigned(cs: SystemView, later: SystemView, v: Seq<AllocatedBit>)
    requires
        cs.aux.is_prefix_of(later.aux),
        all_assigned(cs, v),
    ensures
        all_assigned(later, v),
{
    assert forall|j: int| 0 <= j < v.len() implies later.assigned((#[trigger] v[j]).variable) by {
        lemma_kept_assignment(cs, later, v[j].variable);
    }
}

/// A record that grows by constraints that are covered and hold stays satisfied.
proof fn lemma_satisfied_further(cs: SystemView, later: SystemView)
    requires
        cs.satisfied(),
        cs.grows_to(later),
        added_covered(cs, later),
        added_hold(cs, later, later.assignment()),
    ensures
        later.satisfied(),
{
    assert forall|i: int| cs.constraints.len() <= i < later.constraints.len() implies later.meets(
        #[trigger] later.constraints[i],
    ) by {}
    lemma_still_satisfied(cs, later);
}

/// The allocation of a bit keeps the record satisfied, and the bit is honest.
pub proof fn allocated_bit_is_complete(cs: SystemView, value: bool)
    requires
        cs.evaluates,
        cs.satisfied(),
        cs.aux.len() < usize::MAX,
    ensures
        ({
            let (later, r) = bit_allocated(cs, Some(value));
            &&& r is Ok
            &&& later.satisfied()
            &&& cs.grows_to(later)
            &&& (r->Ok_0).value == Some(value)
            &&& honest_bit(later, r->Ok_0)
        }),
{
    let later = bit_allocated(cs, Some(value)).0;
    lemma_own_values(cs, later);
    allocated_bit_is_met(cs, value, later.assignment());
    lemma_bit_covered(cs, value);
    lemma_satisfied_further(cs, later);
}

/// The constraint of a bit is covered.
proof fn lemma_bit_covered(cs: SystemView, value: bool)
    requires
        cs.evaluates,
        cs.aux.len() < usize::MAX,
    ensures
        added_covered(cs, bit_allocated(cs, Some(value)).0),
        bit_allocated(cs, Some(value)).0.assigned(cs.fresh(0)),
{
    let later = bit_allocated(cs, Some(value)).0;
    assert(later.aux[cs.aux.len() as int].value is Some);
}

/// The conditional allocation of a bit keeps the record satisfied where the bit
/// is false or the condition is, and the bit is honest.
pub proof fn conditional_bit_is_complete(cs: SystemView, value: bool, must_be_false: AllocatedBit)
    requires
        cs.evaluates,
        cs.satisfied(),
        cs.aux.len() < usize::MAX,
        honest_bit(cs, must_be_false),
        must_be_false.value == Some(true) ==> !value,
    ensures
        ({
            let (later, r) = bit_allocated_conditionally(cs, Some(value), must_be_false.variable);
            &&& r is Ok
            &&& later.satisfied()
            &&& cs.grows_to(later)
            &&& (r->Ok_0).value == Some(value)
            &&& honest_bit(later, r->Ok_0)
        }),
{
    let later = bit_allocated_conditionally(cs, Some(value), must_be_false.variable).0;
    lemma_own_values(cs, later);
    lemma_kept_assignment(cs, later, must_be_false.variable);
    conditional_bit_is_met(cs, value, must_be_false, later.assignment());
    lemma_conditional_covered(cs, value, must_be_false.variable);
    lemma_satisfied_further(cs, later);
}

/// The constraint of a conditional bit is covered where the condition is.
proof fn lemma_conditional_covered(cs: SystemView, value: bool, must_be_false: Variable)
    requires
        cs.evaluates,
        cs.aux.len() < usize::MAX,
        cs.assigned(must_be_false),
    ensures
        added_covered(cs, bit_allocated_conditionally(cs, Some(value), must_be_false).0),
        bit_allocated_conditionally(cs, Some(value), must_be_false).0.assigned(cs.fresh(0)),
{
    let later = bit_allocated_conditionally(cs, Some(value), must_be_false).0;
    assert(later.aux[cs.aux.len() as int].value is Some);
    lemma_kept_assignment(cs, later, must_be_false);
}

/// The conjunction of two honest bits keeps the record satisfied, and is honest.
pub proof fn and_is_complete(cs: SystemView, a: AllocatedBit, b: AllocatedBit)
    requires
        cs.evaluates,
        cs.satisfied(),
        cs.aux.len() < usize::MAX,
        honest_bit(cs, a),
        honest_bit(cs, b),
    ensures
        ({
            let (later, r) = and_allocated(cs, a, b);
            &&& r is Ok
            &&& later.satisfied()
            &&& cs.grows_to(later)
            &&& (r->Ok_0).value == Some(a.value->0 && b.value->0)
            &&& honest_bit(later, r->Ok_0)
        }),
{
    let later = and_allocated(cs, a, b).0;
    lemma_own_values(cs, later);
    lemma_kept_assignment(cs, later, a.variable);
    lemma_kept_assignment(cs, later, b.variable);
    and_is_met(cs, a, b, later.assignment());
    lemma_and_covered(cs, a, b);
    lemma_satisfied_further(cs, later);
}

/// The constraint of a conjunction of two bits is covered where the bits are.
proof fn lemma_and_covered(cs: SystemView, a: AllocatedBit, b: AllocatedBit)
    requires
        cs.evaluates,
        cs.aux.len() < usize::MAX,
        a.value is Some,
        b.value is Some,
        cs.assigned(a.variable),
        cs.assigned(b.variable),
    ensures
        added_covered(cs, and_allocated(cs, a, b).0),
        and_allocated(cs, a, b).0.assigned(cs.fresh(0)),
{
    let later = and_allocated(cs, a, b).0;
    assert(later.aux[cs.aux.len() as int].value is Some);
    lemma_kept_assignment(cs, later, a.variable);
    lemma_kept_assignment(cs, later, b.variable);
    assert(later.covers(seq![(a.variable, 1int)]));
    assert(later.covers(seq![(b.variable, 1int)]));
    assert(later.covers(seq![(cs.fresh(0), 1int)]));
}

/// The constraints of a conjunction are covered where the bits are.
proof fn lemma_conjunction_covered(cs: SystemView, v: Seq<AllocatedBit>)
    requires
        cs.evaluates,
        v.len() > 0,
        forall|j: int| 0 <= j < v.len() ==> (#[trigger] v[j]).value is Some,
        all_assigned(cs, v),
        conjunction(cs, v).0.aux.len() <= usize::MAX,
    ensures
        added_covered(cs, conjunction(cs, v).0),
        conjunction(cs, v).0.assigned((conjunction(cs, v).1->Ok_0).variable),
    decreases v.len(),
{
    assert(cs.assigned(v[v.len() - 1].variable) && v[v.len() - 1].value is Some);
    if v.len() > 1 {
        let rest = v.drop_last();
        assert forall|j: int| 0 <= j < rest.len() implies (#[trigger] rest[j]).value is Some
            && cs.assigned(rest[j].variable) by {
            assert(rest[j] == v[j]);
        }
        lemma_conjunction_succeeds(cs, rest);
        let (before, r) = conjunction(cs, rest);
        let within = before.within("and "@ + decimal((v.len() - 1) as nat));
        let (after, both) = and_allocated(within, r->Ok_0, v.last());
        assert(conjunction(cs, v).0.aux.len() == before.aux.len() + 1);
        lemma_conjunction_covered(cs, rest);
        lemma_kept_assignment(cs, within, v.last().variable);
        lemma_kept_assignment(before, within, (r->Ok_0).variable);
        lemma_and_covered(within, r->Ok_0, v.last());
        let later = after.without();
        lemma_same_covered(within, after, before, later);
        lemma_kept_assignment(after, later, (both->Ok_0).variable);
        lemma_covered_between(cs, before, later);
    }
}

/// Namespaces do not change what is covered.
proof fn lemma_same_covered(
    cs: SystemView,
    later: SystemView,
    other: SystemView,
    other_later: SystemView,
)
    requires
        cs.constraints == other.constraints,
        later.aux == other_later.aux,
        later.constraints == other_later.constraints,
        added_covered(cs, later),
    ensures
        added_covered(other, other_later),
{
    assert forall|i: int| other.constraints.len() <= i < other_later.constraints.len() implies {
        let constraint = #[trigger] other_later.constraints[i];
        other_later.covers(constraint.a) && other_later.covers(constraint.b) && other_later.covers(
            constraint.c,
        )
    } by {
        let constraint = later.constraints[i];
        lemma_same_values(later, other_later, constraint.a);
        lemma_same_values(later, other_later, constraint.b);
        lemma_same_values(later, other_later, constraint.c);
    }
}

/// The conjunction of honest bits keeps the record satisfied, and is honest.
pub proof fn conjunction_is_complete(cs: SystemView, v: Seq<AllocatedBit>)
    requires
        cs.evaluates,
        cs.satisfied(),
        v.len() > 0,
        honest_bits(cs, v),
        conjunction(cs, v).0.aux.len() <= usize::MAX,
    ensures
        ({
            let (later, r) = conjunction(cs, v);
            &&& r is Ok
            &&& later.satisfied()
            &&& cs.grows_to(later)
            &&& (r->Ok_0).value == Some(all_true(v))
            &&& honest_bit(later, r->Ok_0)
        }),
{
    let later = conjunction(cs, v).0;
    assert forall|j: int| 0 <= j < v.len() implies (#[trigger] v[j]).value is Some && cs.assigned(
        v[j].variable,
    ) by {
        assert(honest_bit(cs, v[j]));
    }
    lemma_conjunction_succeeds(cs, v);
    lemma_conjunction_covered(cs, v);
    lemma_own_values(cs, later);
    assert forall|j: int| 0 <= j < v.len() implies true_bit(#[trigger] v[j], later.assignment()) by {
        assert(honest_bit(cs, v[j]));
        lemma_kept_assignment(cs, later, v[j].variable);
    }
    conjunction_is_met(cs, v, later.assignment());
    lemma_satisfied_further(cs, later);
}

/// Whether all bits of a decomposition so far are assigned, and its constraints
/// covered.
pub open spec fn covered_so_far(cs: SystemView, s: Unpacking) -> bool {
    &&& added_covered(cs, s.cs)
    &&& all_assigned(s.cs, s.result)
    &&& all_assigned(s.cs, s.current_run)
    &&& s.last_run is Some ==> s.cs.assigned((s.last_run->0).variable)
}

/// Closing a run keeps what is covered.
proof fn lemma_closed_covered(cs: SystemView, s: Unpacking, i: int)
    requires
        cs.evaluates,
        underway(cs, s),
        covered_so_far(cs, s),
        run_closed(s, i).cs.aux.len() <= usize::MAX,
    ensures
        covered_so_far(cs, run_closed(s, i)),
{
    if s.current_run.len() > 0 {
        let run = match s.last_run {
            Some(last) => s.current_run.push(last),
            None => s.current_run,
        };
        let within = s.cs.within("run ending at "@ + decimal(i as nat));
        let closed = run_closed(s, i);
        lemma_run_closed(cs, s, i);
        assert forall|j: int| 0 <= j < run.len() implies within.assigned(
            (#[trigger] run[j]).variable,
        ) && run[j].value is Some by {
            if j < s.current_run.len() {
                assert(run[j] == s.current_run[j]);
            }
            lemma_kept_assignment(s.cs, within, run[j].variable);
        }
        let (c, r) = conjunction(within, run);
        lemma_conjunction_covered(within, run);
        lemma_same_covered(within, c, s.cs, closed.cs);
        lemma_kept_assignment(c, closed.cs, (r->Ok_0).variable);
        lemma_covered_between(cs, s.cs, closed.cs);
        lemma_bits_stay_assigned(s.cs, closed.cs, s.result);
    }
}

/// Every step keeps what is covered.
proof fn lemma_unpacked_covered(cs: SystemView, v: int, i: nat)
    requires
        cs.evaluates,
        i <= NUM_BITS,
        unpacked(cs, Some(v), i).cs.aux.len() <= usize::MAX,
    ensures
        covered_so_far(cs, unpacked(cs, Some(v), i)),
    decreases i,
{
    if i > 0 {
        let k = (i - 1) as nat;
        let s = unpacked(cs, Some(v), k);
        let next = unpacked(cs, Some(v), i);
        let g = bit(modulus() - 1, NUM_BITS - i);
        let b = bit(v, NUM_BITS - i);
        let name = bit_name(k as int);
        lemma_step_grows(cs, Some(v), i);
        lemma_unpacked_covered(cs, v, k);
        lemma_underway(cs, Some(v), k);
        lemma_underway(cs, Some(v), i);
        lemma_top_bits_of_modulus();
        let closed = if g {
            s
        } else {
            run_closed(s, k as int)
        };
        let within = closed.cs.within(name);
        assert(closed.cs.aux.len() + 1 == next.cs.aux.len());
        if !g {
            lemma_closed_covered(cs, s, k as int);
            if s.current_run.len() > 0 {
                lemma_run_closed(cs, s, k as int);
            }
            assert(closed.last_run is Some);
            let must = (closed.last_run->0).variable;
            lemma_kept_assignment(closed.cs, within, must);
            lemma_conditional_covered(within, b, must);
            lemma_same_covered(
                within,
                bit_allocated_conditionally(within, Some(b), must).0,
                closed.cs,
                next.cs,
            );
        } else {
            lemma_bit_covered(within, b);
            lemma_same_covered(within, bit_allocated(within, Some(b)).0, closed.cs, next.cs);
        }
        assert(closed.cs.aux.is_prefix_of(next.cs.aux));
        assert(closed.cs.constraints.is_prefix_of(next.cs.constraints));
        lemma_covered_between(cs, closed.cs, next.cs);
        lemma_bits_stay_assigned(closed.cs, next.cs, closed.result);
        lemma_bits_stay_assigned(closed.cs, next.cs, closed.current_run);
        if closed.last_run is Some {
            lemma_kept_assignment(closed.cs, next.cs, (closed.last_run->0).variable);
        }
        assert(next.cs.aux[closed.cs.aux.len() as int].value is Some);
        assert(next.result.last().variable == closed.cs.fresh(0));
        assert(next.cs.assigned(closed.cs.fresh(0)));
        assert forall|j: int| 0 <= j < next.result.len() implies next.cs.assigned(
            (#[trigger] next.result[j]).variable,
        ) by {
            if j < closed.result.len() {
                assert(next.result[j] == closed.result[j]);
            }
        }
        assert forall|j: int| 0 <= j < next.current_run.len() implies next.cs.assigned(
            (#[trigger] next.current_run[j]).variable,
        ) by {
            if j < closed.current_run.len() {
                assert(next.current_run[j] == closed.current_run[j]);
            }
        }
    }
}

/// The strict decomposition of an honest expression succeeds, its bits are those
/// of the value, and it keeps the record satisfied.
pub proof fn strict_bits_are_complete(cs: SystemView, e: LinearView)
    requires
        cs.evaluates,
        cs.satisfied(),
        honest(cs, e),
        e.value is Some,
        strict_outcome(cs, e).0.aux.len() <= usize::MAX,
    ensures
        ({
            let (later, r) = strict_outcome(cs, e);
            let bits = r->Ok_0;
            &&& r is Ok
            &&& bits.len() == NUM_BITS
            &&& forall|i: int|
                0 <= i < NUM_BITS ==> (#[trigger] bits[i]).value() == Some(bit(e.value->0, i))
                    && honest(later, of_boolean(bits[i]))
            &&& cs.grows_to(later)
            &&& later.satisfied()
        }),
{
    let later = strict_outcome(cs, e).0;
    let all = unpacked(cs, e.value, NUM_BITS as nat);
    let bits = all.result.reverse();
    lemma_underway(cs, e.value, NUM_BITS as nat);
    lemma_own_values(cs, later);
    lemma_kept_value(cs, later, e.terms);
    strict_bits_are_met(cs, e, later.assignment());
    lemma_unpacked_covered(cs, e.value->0, NUM_BITS as nat);
    lemma_bits_stay_assigned(all.cs, later, all.result);
    assert forall|i: int| 0 <= i < NUM_BITS implies later.assigned((#[trigger] bits[i]).variable) by {
        assert(bits[i] == all.result[NUM_BITS - 1 - i]);
    }
    assert forall|i: int| 0 <= i < NUM_BITS implies honest(
        later,
        of_boolean(#[trigger] as_booleans(bits)[i]),
    ) by {
        assert(later.assigned(bits[i].variable));
    }
    let weighted = weighted_terms(bits);
    assert forall|i: int| 0 <= i < weighted.len() implies later.assigned(#[trigger] weighted[i].0) by {
        assert(later.assigned(bits[i].variable));
    }
    lemma_covers_scaled(later, e.terms, 1);
    lemma_covers_difference(later, weighted, scaled(e.terms, 1));
    assert(later.constraints[all.cs.constraints.len() as int] == unpacking_constraint(
        all.cs,
        bits,
        e.terms,
    ));
    lemma_covered_between(cs, all.cs, later);
    lemma_satisfied_further(cs, later);
}

} // verus!
