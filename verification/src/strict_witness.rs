//! That the values which the strict decomposition records satisfy its constraints,
//! under every assignment that gives the new variables these values.

use vstd::arithmetic::div_mod::{lemma_basic_div, lemma_div_is_ordered, lemma_small_mod};
use vstd::arithmetic::power2::{lemma_pow2_pos, pow2};
use vstd::prelude::*;

use crate::bits::{
    bit, bits_le, lemma_bits_sum, lemma_powers_around_modulus, lemma_prefix_step,
    lemma_top_bits_of_modulus,
};
use crate::boolean::{
    and_allocated, bit_allocated, bit_allocated_conditionally, bit_name, AllocatedBit,
};
use crate::constraint_system::{added_hold, SystemView};
use crate::decimal::decimal;
use crate::evaluation::{
    lemma_eval_difference, lemma_eval_range, lemma_eval_unscaled, lemma_eval_variable,
};
use crate::expression::{as_booleans, unpacking_constraint, weighted_terms};
use crate::field_lemmas::{lemma_difference_zero, lemma_fe_small};
use crate::fr::{modulus, NUM_BITS};
use crate::linear_combination::{scaled, Assignment, Variable};
use crate::num::LinearView;
use crate::soundness::{holds_bit, lemma_added_between, lemma_eval_weighted, ones};
use crate::strict::{
    conjunction, lemma_conjunction_succeeds, lemma_run_closed, lemma_step_grows, lemma_underway,
    run_closed, strict_outcome, underway, unpacked, Unpacking,
};
use crate::witness::{
    allocated_bit_is_met, and_is_met, conditional_bit_is_met, lemma_recorded_between, of_boolean,
    recorded, true_bit, true_under,
};

verus! {

/// Whether the variables of bits hold the values of the bits, which are known.
pub open spec fn true_bits(v: Seq<AllocatedBit>, w: Assignment) -> bool {
    forall|j: int| 0 <= j < v.len() ==> true_bit(#[trigger] v[j], w)
}

/// Whether all bits are true.
pub open spec fn all_true(v: Seq<AllocatedBit>) -> bool {
    forall|j: int| 0 <= j < v.len() ==> (#[trigger] v[j]).value == Some(true)
}

/// The recorded values of a conjunction of bits satisfy its constraints.
pub proof fn conjunction_is_met(cs: SystemView, v: Seq<AllocatedBit>, w: Assignment)
    requires
        cs.evaluates,
        v.len() > 0,
        true_bits(v, w),
        conjunction(cs, v).0.aux.len() <= usize::MAX,
        recorded(cs, conjunction(cs, v).0, w),
    ensures
        ({
            let (later, r) = conjunction(cs, v);
            &&& r is Ok
            &&& (r->Ok_0).value == Some(all_true(v))
            &&& added_hold(cs, later, w)
            &&& true_bit(r->Ok_0, w)
        }),
    decreases v.len(),
{
    assert(true_bit(v[v.len() - 1], w));
    if v.len() == 1 {
        if v[0].value == Some(true) {
            assert(all_true(v));
        }
    } else {
        let rest = v.drop_last();
        assert forall|j: int| 0 <= j < rest.len() implies true_bit(#[trigger] rest[j], w) by {
            assert(rest[j] == v[j]);
        }
        assert forall|j: int| 0 <= j < rest.len() implies (#[trigger] rest[j]).value is Some by {
            assert(true_bit(rest[j], w));
        }
        lemma_conjunction_succeeds(cs, rest);
        let (before, r) = conjunction(cs, rest);
        let all = r->Ok_0;
        let within = before.within("and "@ + decimal((v.len() - 1) as nat));
        let (after, both) = and_allocated(within, all, v.last());
        let later = conjunction(cs, v).0;
        assert(later == after.without());
        assert(later.aux.len() == before.aux.len() + 1);
        lemma_recorded_between(cs, before, later, w);
        conjunction_is_met(cs, rest, w);
        assert(recorded(within, after, w)) by {
            assert(recorded(before, later, w));
            assert(after.aux == later.aux);
        }
        and_is_met(within, all, v.last(), w);
        assert(added_hold(before, later, w)) by {
            assert(added_hold(within, after, w));
            assert(after.constraints == later.constraints);
        }
        lemma_added_between(cs, before, later, w);
        if all_true(rest) && v.last().value == Some(true) {
            assert forall|j: int| 0 <= j < v.len() implies (#[trigger] v[j]).value == Some(true) by {
                if j < rest.len() {
                    assert(rest[j] == v[j]);
                }
            }
        }
        if all_true(v) {
            assert(v[v.len() - 1].value == Some(true));
            assert forall|j: int| 0 <= j < rest.len() implies (#[trigger] rest[j]).value == Some(
                true,
            ) by {
                assert(rest[j] == v[j]);
            }
        }
    }
}

/// Whether all bits so far over ones of the greatest representative are true.
pub open spec fn tight_values(s: Unpacking) -> bool {
    &&& s.last_run is Some ==> (s.last_run->0).value == Some(true)
    &&& all_true(s.current_run)
}

/// What holds of the decomposition of a value after `i` bits: the constraints so
/// far hold, the bits are those of the value and their variables hold them, and
/// where all bits over ones are true the value agrees with the greatest
/// representative so far.
pub open spec fn truly_unpacked(
    cs: SystemView,
    s: Unpacking,
    v: int,
    i: nat,
    w: Assignment,
) -> bool {
    let d = pow2((NUM_BITS - i) as nat) as int;
    &&& added_hold(cs, s.cs, w)
    &&& s.result.len() == i
    &&& true_bits(s.result, w)
    &&& forall|j: int|
        0 <= j < i ==> (#[trigger] s.result[j]).value == Some(bit(v, NUM_BITS - 1 - j))
    &&& true_bits(s.current_run, w)
    &&& s.last_run is Some ==> true_bit(s.last_run->0, w)
    &&& tight_values(s) ==> v / d == (modulus() - 1) / d
}

/// Closing a run keeps what holds of the decomposition of a value.
proof fn lemma_closed_truly(cs: SystemView, s: Unpacking, v: int, i: nat, w: Assignment)
    requires
        cs.evaluates,
        underway(cs, s),
        truly_unpacked(cs, s, v, i, w),
        run_closed(s, i as int).cs.aux.len() <= usize::MAX,
        recorded(s.cs, run_closed(s, i as int).cs, w),
    ensures
        truly_unpacked(cs, run_closed(s, i as int), v, i, w),
        tight_values(run_closed(s, i as int)) == tight_values(s),
{
    if s.current_run.len() > 0 {
        let closed = run_closed(s, i as int);
        let run = match s.last_run {
            Some(last) => s.current_run.push(last),
            None => s.current_run,
        };
        let within = s.cs.within("run ending at "@ + decimal(i));
        lemma_run_closed(cs, s, i as int);
        assert forall|j: int| 0 <= j < run.len() implies true_bit(#[trigger] run[j], w) by {
            if j < s.current_run.len() {
                assert(run[j] == s.current_run[j]);
            }
        }
        let (c, r) = conjunction(within, run);
        assert(recorded(within, c, w)) by {
            assert(c.aux == closed.cs.aux);
        }
        conjunction_is_met(within, run, w);
        assert(added_hold(s.cs, closed.cs, w)) by {
            assert(added_hold(within, c, w));
            assert(c.constraints == closed.cs.constraints);
        }
        lemma_added_between(cs, s.cs, closed.cs, w);
        if tight_values(s) {
            assert forall|j: int| 0 <= j < run.len() implies (#[trigger] run[j]).value == Some(
                true,
            ) by {
                if j < s.current_run.len() {
                    assert(run[j] == s.current_run[j]);
                }
            }
        }
        if all_true(run) {
            assert forall|j: int| 0 <= j < s.current_run.len() implies (
            #[trigger] s.current_run[j]).value == Some(true) by {
                assert(run[j] == s.current_run[j]);
            }
            if s.last_run is Some {
                assert(run[run.len() - 1] == s.last_run->0);
            }
        }
    }
}

/// Every step keeps what holds of the decomposition of a value.
proof fn lemma_truly_unpacked(cs: SystemView, v: int, i: nat, w: Assignment)
    requires
        cs.evaluates,
        w(Variable::spec_one()) == 1,
        0 <= v < modulus(),
        i <= NUM_BITS,
        unpacked(cs, Some(v), i).cs.aux.len() <= usize::MAX,
        recorded(cs, unpacked(cs, Some(v), i).cs, w),
    ensures
        truly_unpacked(cs, unpacked(cs, Some(v), i), v, i, w),
    decreases i,
{
    let value = Some(v);
    if i == 0 {
        lemma_powers_around_modulus();
        lemma_basic_div(modulus() - 1, pow2(255) as int);
        lemma_basic_div(v, pow2(255) as int);
    } else {
        let k = (i - 1) as nat;
        let s = unpacked(cs, value, k);
        let next = unpacked(cs, value, i);
        let g = bit(modulus() - 1, NUM_BITS - i);
        let b = bit(v, NUM_BITS - i);
        let name = bit_name(k as int);
        lemma_underway(cs, value, k);
        lemma_step_grows(cs, value, i);
        lemma_recorded_between(cs, s.cs, next.cs, w);
        lemma_truly_unpacked(cs, v, k, w);
        lemma_prefix_step(modulus() - 1, (NUM_BITS - i) as nat);
        lemma_prefix_step(v, (NUM_BITS - i) as nat);
        assert((NUM_BITS - k) as nat == (NUM_BITS - i) as nat + 1);
        let d = pow2((NUM_BITS - i) as nat) as int;
        lemma_pow2_pos((NUM_BITS - i) as nat);
        lemma_div_is_ordered(v, modulus() - 1, d);
        let last = next.result.last();
        if g {
            let within = s.cs.within(name);
            let (c, r) = bit_allocated(within, Some(b));
            assert(recorded(within, c, w)) by {
                assert(c.aux == next.cs.aux);
            }
            allocated_bit_is_met(within, b, w);
            assert(added_hold(s.cs, next.cs, w)) by {
                assert(added_hold(within, c, w));
                assert(c.constraints == next.cs.constraints);
            }
            lemma_added_between(cs, s.cs, next.cs, w);
            assert(last == r->Ok_0);
            assert forall|j: int| 0 <= j < next.current_run.len() implies true_bit(
                #[trigger] next.current_run[j],
                w,
            ) by {
                if j < s.current_run.len() {
                    assert(next.current_run[j] == s.current_run[j]);
                }
            }
            if tight_values(next) {
                assert forall|j: int| 0 <= j < s.current_run.len() implies (
                #[trigger] s.current_run[j]).value == Some(true) by {
                    assert(next.current_run[j] == s.current_run[j]);
                }
                assert(next.current_run[next.current_run.len() - 1] == last);
                assert(tight_values(s) && b);
            }
        } else {
            let closed = run_closed(s, k as int);
            lemma_top_bits_of_modulus();
            if s.current_run.len() > 0 {
                lemma_run_closed(cs, s, k as int);
                lemma_run_closed(s.cs, s, k as int);
            }
            assert(closed.last_run is Some);
            let must = closed.last_run->0;
            let within = closed.cs.within(name);
            let (c, r) = bit_allocated_conditionally(within, Some(b), must.variable);
            assert(closed.cs.aux.len() + 1 == next.cs.aux.len());
            assert(closed.cs.aux.is_prefix_of(next.cs.aux));
            assert(closed.cs.constraints.is_prefix_of(next.cs.constraints));
            lemma_recorded_between(s.cs, closed.cs, next.cs, w);
            lemma_closed_truly(cs, s, v, k, w);
            // Where the value agrees with the greatest representative so far, a
            // true bit over a zero would make it exceed it.
            assert(tight_values(closed) ==> !b);
            assert(must.value == Some(true) ==> tight_values(closed));
            assert(recorded(within, c, w)) by {
                assert(recorded(closed.cs, next.cs, w));
                assert(c.aux == next.cs.aux);
            }
            conditional_bit_is_met(within, b, must, w);
            assert(added_hold(closed.cs, next.cs, w)) by {
                assert(added_hold(within, c, w));
                assert(c.constraints == next.cs.constraints);
            }
            lemma_added_between(cs, closed.cs, next.cs, w);
            assert(last == r->Ok_0);
            assert(closed.result == s.result);
        }
        assert forall|j: int| 0 <= j < i implies true_bit(#[trigger] next.result[j], w)
            && next.result[j].value == Some(bit(v, NUM_BITS - 1 - j)) by {
            if j < k {
                assert(next.result[j] == s.result[j]);
                assert(true_bit(s.result[j], w));
            }
        }
    }
}

/// The recorded bits of a strict decomposition are those of the value, and satisfy
/// the constraints.
pub proof fn strict_bits_are_met(cs: SystemView, e: LinearView, w: Assignment)
    requires
        cs.evaluates,
        w(Variable::spec_one()) == 1,
        true_under(e, w),
        e.value is Some,
        strict_outcome(cs, e).0.aux.len() <= usize::MAX,
        recorded(cs, strict_outcome(cs, e).0, w),
    ensures
        ({
            let (later, r) = strict_outcome(cs, e);
            let bits = r->Ok_0;
            &&& r is Ok
            &&& bits.len() == NUM_BITS
            &&& forall|i: int|
                0 <= i < NUM_BITS ==> (#[trigger] bits[i]).value() == Some(bit(e.value->0, i))
                    && true_under(of_boolean(bits[i]), w)
            &&& added_hold(cs, later, w)
        }),
{
    let v = e.value->0;
    let later = strict_outcome(cs, e).0;
    let all = unpacked(cs, e.value, NUM_BITS as nat);
    let bits = all.result.reverse();
    lemma_eval_range(e.terms, w);
    lemma_underway(cs, e.value, NUM_BITS as nat);
    assert(recorded(cs, all.cs, w)) by {
        assert(later.aux =~= all.cs.aux);
    }
    lemma_truly_unpacked(cs, v, NUM_BITS as nat, w);
    assert forall|i: int| 0 <= i < NUM_BITS implies true_bit(#[trigger] bits[i], w)
        && bits[i].value == Some(bit(v, i)) && holds_bit(bits[i].variable, w) by {
        assert(bits[i] == all.result[NUM_BITS - 1 - i]);
    }
    let r = as_booleans(bits);
    assert forall|i: int| 0 <= i < NUM_BITS implies (#[trigger] r[i]).value() == Some(bit(v, i))
        && true_under(of_boolean(r[i]), w) by {
        assert(true_bit(bits[i], w));
        lemma_eval_variable(bits[i].variable, w);
    }
    assert forall|i: int| 0 <= i < NUM_BITS implies ones(bits, w)[i] == bit(v, i) by {
        assert(true_bit(bits[i], w));
    }
    assert(ones(bits, w) =~= bits_le(v, NUM_BITS as nat));
    lemma_bits_sum(v, NUM_BITS as nat);
    lemma_powers_around_modulus();
    lemma_small_mod(v as nat, pow2(NUM_BITS as nat));
    lemma_fe_small(v);
    lemma_eval_weighted(bits, w);
    lemma_eval_difference(weighted_terms(bits), scaled(e.terms, 1), w);
    lemma_eval_unscaled(e.terms, w);
    lemma_difference_zero(v, v);
    let unpacking = unpacking_constraint(all.cs, bits, e.terms);
    assert(unpacking.holds(w));
    assert(later.constraints[all.cs.constraints.len() as int] == unpacking);
    lemma_added_between(cs, all.cs, later, w);
}

} // verus!
