//! What the gadgets record whatever the values are: they only add to the record,
//! they fail only for want of a value that is asked for, and which variables and
//! constraints they add does not depend on values.

use vstd::prelude::*;

use crate::bits::{bit, lemma_top_bits_of_modulus};
use crate::boolean::{and_allocated, boolean_terms, AllocatedBit, Boolean};
use crate::constraint_system::SystemView;
use crate::decimal::decimal;
use crate::expression::{
    bits_outcome, equals_outcome, limit_outcome, opt_choice, opt_equal, packed_terms,
    reverse_outcome, select_ifeq_outcome, select_outcome, weighted_terms,
};
use crate::fr::{modulus, NUM_BITS};
use crate::linear_combination::Variable;
use crate::num::LinearView;
use crate::strict::{
    conjunction, lemma_run_closed, lemma_underway, run_closed, strict_outcome, unpacked, Unpacking,
};

verus! {

/// The comparison of two expressions only adds to the record, and fails just
/// where a value is asked for and not known.
pub proof fn equals_only_adds(cs: SystemView, a: LinearView, b: LinearView)
    ensures
        cs.grows_to(equals_outcome(cs, a, b).0),
        equals_outcome(cs, a, b).1 is Err <==> cs.evaluates && (a.value is None || b.value is None),
{
}

/// The selection between two expressions only adds to the record, and fails just
/// where a value is asked for and not known.
pub proof fn select_only_adds(cs: SystemView, a: LinearView, b: LinearView, condition: Boolean)
    ensures
        cs.grows_to(select_outcome(cs, a, b, condition).0),
        select_outcome(cs, a, b, condition).1 is Err <==> cs.evaluates && opt_choice(
            condition.value(),
            a.value,
            b.value,
        ) is None,
{
}

/// A conditional reversal only adds to the record, and fails just where a value
/// is asked for and not known.
pub proof fn reverse_only_adds(cs: SystemView, a: LinearView, b: LinearView, condition: Boolean)
    ensures
        cs.grows_to(reverse_outcome(cs, a, b, condition).0),
        reverse_outcome(cs, a, b, condition).1 is Err <==> cs.evaluates && (a.value is None
            || b.value is None || condition.value() is None),
{
    let later = reverse_outcome(cs, a, b, condition).0;
    assert(later.aux.take(cs.aux.len() as int) =~= cs.aux);
    assert(later.constraints.take(cs.constraints.len() as int) =~= cs.constraints);
}

/// A selection by comparison only adds to the record, and fails just where a
/// value is asked for and not known.
pub proof fn select_ifeq_only_adds(
    cs: SystemView,
    a: LinearView,
    b: LinearView,
    x: LinearView,
    y: LinearView,
)
    ensures
        cs.grows_to(select_ifeq_outcome(cs, a, b, x, y).0),
        select_ifeq_outcome(cs, a, b, x, y).1 is Err <==> cs.evaluates && opt_choice(
            opt_equal(a.value, b.value),
            x.value,
            y.value,
        ) is None,
{
    let (compared, eq) = equals_outcome(cs.within("eq"@), a, b);
    let (later, r) = select_ifeq_outcome(cs, a, b, x, y);
    assert(cs.path.push("eq"@).drop_last() =~= cs.path);
    assert(cs.path.push("select"@).drop_last() =~= cs.path);
    assert(later.aux.take(cs.aux.len() as int) =~= cs.aux);
    assert(later.constraints.take(cs.constraints.len() as int) =~= cs.constraints);
}

/// The decomposition into bits only adds to the record, and fails just where the
/// value is asked for and not known.
pub proof fn bits_only_add(cs: SystemView, e: LinearView, n: nat)
    ensures
        cs.grows_to(bits_outcome(cs, e, n).0),
        bits_outcome(cs, e, n).1 is Err <==> n > 0 && cs.evaluates && e.value is None,
{
    let later = bits_outcome(cs, e, n).0;
    assert(later.aux.take(cs.aux.len() as int) =~= cs.aux);
    assert(later.constraints.take(cs.constraints.len() as int) =~= cs.constraints);
}

/// The limitation of the number of bits only adds to the record, and fails just
/// where the value is asked for and not known.
pub proof fn limit_only_adds(cs: SystemView, e: LinearView, n: nat)
    ensures
        cs.grows_to(limit_outcome(cs, e, n).0),
        limit_outcome(cs, e, n).1 is Err <==> cs.evaluates && e.value is None,
{
    let start = cs.within("unpack to limit number of bits"@);
    bits_only_add(start, e, NUM_BITS as nat);
    let later = limit_outcome(cs, e, n).0;
    assert(start.path.drop_last() =~= cs.path);
    assert(later.aux.take(cs.aux.len() as int) =~= cs.aux);
    assert(later.constraints.take(cs.constraints.len() as int) =~= cs.constraints);
}

/// The strict decomposition only adds to the record, and fails just where the
/// value is asked for and not known.
pub proof fn strict_bits_only_add(cs: SystemView, e: LinearView)
    ensures
        cs.grows_to(strict_outcome(cs, e).0),
        strict_outcome(cs, e).1 is Err <==> cs.evaluates && e.value is None,
{
    if !cs.lacks(e.value) {
        lemma_underway(cs, e.value, NUM_BITS as nat);
    }
}

/// Whether two records have the same variables and constraints under the same
/// names.
pub open spec fn same_shape(cs: SystemView, other: SystemView) -> bool {
    &&& cs.path == other.path
    &&& cs.aux.len() == other.aux.len()
    &&& forall|i: int| 0 <= i < cs.aux.len() ==> (#[trigger] cs.aux[i]).path == other.aux[i].path
    &&& cs.constraints == other.constraints
}

/// Whether two lists of bits are held by the same variables.
pub open spec fn same_variables(v: Seq<AllocatedBit>, u: Seq<AllocatedBit>) -> bool {
    &&& v.len() == u.len()
    &&& forall|i: int| 0 <= i < v.len() ==> (#[trigger] v[i]).variable == u[i].variable
}

/// What a comparison records does not depend on values.
pub proof fn equals_has_one_shape(
    cs: SystemView,
    a: LinearView,
    b: LinearView,
    cs2: SystemView,
    a2: LinearView,
    b2: LinearView,
)
    requires
        same_shape(cs, cs2),
        a.terms == a2.terms,
        b.terms == b2.terms,
        equals_outcome(cs, a, b).1 is Ok,
        equals_outcome(cs2, a2, b2).1 is Ok,
    ensures
        same_shape(equals_outcome(cs, a, b).0, equals_outcome(cs2, a2, b2).0),
        (equals_outcome(cs, a, b).1->Ok_0).variable == (equals_outcome(
            cs2,
            a2,
            b2,
        ).1->Ok_0).variable,
{
    let later = equals_outcome(cs, a, b).0;
    let later2 = equals_outcome(cs2, a2, b2).0;
    assert(later.constraints =~= later2.constraints);
}

/// What a selection records does not depend on values.
pub proof fn select_has_one_shape(
    cs: SystemView,
    a: LinearView,
    b: LinearView,
    condition: Boolean,
    cs2: SystemView,
    a2: LinearView,
    b2: LinearView,
    condition2: Boolean,
)
    requires
        same_shape(cs, cs2),
        a.terms == a2.terms,
        b.terms == b2.terms,
        boolean_terms(condition, Variable::spec_one(), 1) == boolean_terms(
            condition2,
            Variable::spec_one(),
            1,
        ),
        select_outcome(cs, a, b, condition).1 is Ok,
        select_outcome(cs2, a2, b2, condition2).1 is Ok,
    ensures
        same_shape(
            select_outcome(cs, a, b, condition).0,
            select_outcome(cs2, a2, b2, condition2).0,
        ),
        (select_outcome(cs, a, b, condition).1->Ok_0).variable == (select_outcome(
            cs2,
            a2,
            b2,
            condition2,
        ).1->Ok_0).variable,
{
    let later = select_outcome(cs, a, b, condition).0;
    let later2 = select_outcome(cs2, a2, b2, condition2).0;
    assert(later.constraints =~= later2.constraints);
}

/// What a conditional reversal records does not depend on values.
pub proof fn reverse_has_one_shape(
    cs: SystemView,
    a: LinearView,
    b: LinearView,
    condition: Boolean,
    cs2: SystemView,
    a2: LinearView,
    b2: LinearView,
    condition2: Boolean,
)
    requires
        same_shape(cs, cs2),
        a.terms == a2.terms,
        b.terms == b2.terms,
        boolean_terms(condition, Variable::spec_one(), 1) == boolean_terms(
            condition2,
            Variable::spec_one(),
            1,
        ),
        reverse_outcome(cs, a, b, condition).1 is Ok,
        reverse_outcome(cs2, a2, b2, condition2).1 is Ok,
    ensures
        same_shape(
            reverse_outcome(cs, a, b, condition).0,
            reverse_outcome(cs2, a2, b2, condition2).0,
        ),
        ({
            let (c, d) = reverse_outcome(cs, a, b, condition).1->Ok_0;
            let (c2, d2) = reverse_outcome(cs2, a2, b2, condition2).1->Ok_0;
            c.variable == c2.variable && d.variable == d2.variable
        }),
{
    let later = reverse_outcome(cs, a, b, condition).0;
    let later2 = reverse_outcome(cs2, a2, b2, condition2).0;
    assert(later.constraints =~= later2.constraints);
}

/// What a selection by comparison records does not depend on values.
pub proof fn select_ifeq_has_one_shape(
    cs: SystemView,
    a: LinearView,
    b: LinearView,
    x: LinearView,
    y: LinearView,
    cs2: SystemView,
    a2: LinearView,
    b2: LinearView,
    x2: LinearView,
    y2: LinearView,
)
    requires
        same_shape(cs, cs2),
        a.terms == a2.terms,
        b.terms == b2.terms,
        x.terms == x2.terms,
        y.terms == y2.terms,
        select_ifeq_outcome(cs, a, b, x, y).1 is Ok,
        select_ifeq_outcome(cs2, a2, b2, x2, y2).1 is Ok,
    ensures
        same_shape(
            select_ifeq_outcome(cs, a, b, x, y).0,
            select_ifeq_outcome(cs2, a2, b2, x2, y2).0,
        ),
        (select_ifeq_outcome(cs, a, b, x, y).1->Ok_0).variable == (select_ifeq_outcome(
            cs2,
            a2,
            b2,
            x2,
            y2,
        ).1->Ok_0).variable,
{
    equals_has_one_shape(cs.within("eq"@), a, b, cs2.within("eq"@), a2, b2);
    let (compared, eq) = equals_outcome(cs.within("eq"@), a, b);
    let (compared2, eq2) = equals_outcome(cs2.within("eq"@), a2, b2);
    select_has_one_shape(
        compared.without().within("select"@),
        x,
        y,
        Boolean::Is(eq->Ok_0),
        compared2.without().within("select"@),
        x2,
        y2,
        Boolean::Is(eq2->Ok_0),
    );
}

/// What a decomposition into bits records does not depend on values.
pub proof fn bits_have_one_shape(
    cs: SystemView,
    e: LinearView,
    cs2: SystemView,
    e2: LinearView,
    n: nat,
)
    requires
        same_shape(cs, cs2),
        e.terms == e2.terms,
        bits_outcome(cs, e, n).1 is Ok,
        bits_outcome(cs2, e2, n).1 is Ok,
    ensures
        same_shape(bits_outcome(cs, e, n).0, bits_outcome(cs2, e2, n).0),
        ({
            let bits = bits_outcome(cs, e, n).1->Ok_0;
            let bits2 = bits_outcome(cs2, e2, n).1->Ok_0;
            &&& bits.len() == bits2.len()
            &&& forall|i: int|
                0 <= i < n ==> bits[i] is Is && bits2[i] is Is && (#[trigger] bits[i])->Is_0.variable
                    == bits2[i]->Is_0.variable
        }),
{
    let later = bits_outcome(cs, e, n).0;
    let later2 = bits_outcome(cs2, e2, n).0;
    let bits = crate::boolean::allocated_bits(cs, e.value, n);
    let bits2 = crate::boolean::allocated_bits(cs2, e2.value, n);
    assert(weighted_terms(bits) =~= weighted_terms(bits2));
    assert(later.constraints =~= later2.constraints);
}

/// What the limitation of the number of bits records does not depend on values.
pub proof fn limit_has_one_shape(
    cs: SystemView,
    e: LinearView,
    cs2: SystemView,
    e2: LinearView,
    n: nat,
)
    requires
        same_shape(cs, cs2),
        e.terms == e2.terms,
        n <= NUM_BITS,
        limit_outcome(cs, e, n).1 is Ok,
        limit_outcome(cs2, e2, n).1 is Ok,
    ensures
        same_shape(limit_outcome(cs, e, n).0, limit_outcome(cs2, e2, n).0),
{
    let name = "unpack to limit number of bits"@;
    bits_have_one_shape(cs.within(name), e, cs2.within(name), e2, NUM_BITS as nat);
    let bits = bits_outcome(cs.within(name), e, NUM_BITS as nat).1->Ok_0;
    let bits2 = bits_outcome(cs2.within(name), e2, NUM_BITS as nat).1->Ok_0;
    let top = bits.skip(n as int);
    let top2 = bits2.skip(n as int);
    assert forall|i: int| 0 <= i < top.len() implies top[i] is Is && top2[i] is Is && (
    #[trigger] top[i])->Is_0.variable == top2[i]->Is_0.variable by {
        assert(top[i] == bits[n + i]);
        assert(top2[i] == bits2[n + i]);
    }
    lemma_packed_shape(top, top2);
}

/// The terms of packed bits do not depend on values.
proof fn lemma_packed_shape(v: Seq<Boolean>, u: Seq<Boolean>)
    requires
        v.len() == u.len(),
        forall|i: int|
            0 <= i < v.len() ==> v[i] is Is && u[i] is Is && (#[trigger] v[i])->Is_0.variable
                == u[i]->Is_0.variable,
    ensures
        packed_terms(v) == packed_terms(u),
    decreases v.len(),
{
    if v.len() > 0 {
        assert forall|i: int| 0 <= i < v.len() - 1 implies v.drop_last()[i] is Is
            && u.drop_last()[i] is Is && (#[trigger] v.drop_last()[i])->Is_0.variable
            == u.drop_last()[i]->Is_0.variable by {
            assert(v.drop_last()[i] == v[i]);
        }
        lemma_packed_shape(v.drop_last(), u.drop_last());
        assert(v[v.len() - 1]->Is_0.variable == u[v.len() - 1]->Is_0.variable);
    }
}

/// What a conjunction records does not depend on values.
proof fn lemma_conjunction_shape(
    cs: SystemView,
    v: Seq<AllocatedBit>,
    cs2: SystemView,
    u: Seq<AllocatedBit>,
)
    requires
        same_shape(cs, cs2),
        same_variables(v, u),
        v.len() > 0,
        conjunction(cs, v).1 is Ok,
        conjunction(cs2, u).1 is Ok,
    ensures
        same_shape(conjunction(cs, v).0, conjunction(cs2, u).0),
        (conjunction(cs, v).1->Ok_0).variable == (conjunction(cs2, u).1->Ok_0).variable,
    decreases v.len(),
{
    if v.len() == 1 {
        assert(v[0].variable == u[0].variable);
    } else {
        assert forall|i: int| 0 <= i < v.len() - 1 implies (
        #[trigger] v.drop_last()[i]).variable == u.drop_last()[i].variable by {
            assert(v.drop_last()[i] == v[i]);
        }
        lemma_conjunction_shape(cs, v.drop_last(), cs2, u.drop_last());
        assert(v[v.len() - 1].variable == u[v.len() - 1].variable);
        let name = "and "@ + decimal((v.len() - 1) as nat);
        let within = conjunction(cs, v.drop_last()).0.within(name);
        let within2 = conjunction(cs2, u.drop_last()).0.within(name);
        let all = conjunction(cs, v.drop_last()).1->Ok_0;
        let all2 = conjunction(cs2, u.drop_last()).1->Ok_0;
        let after = and_allocated(within, all, v.last()).0;
        let after2 = and_allocated(within2, all2, u.last()).0;
        assert(after.constraints =~= after2.constraints);
    }
}

/// Whether two decompositions have come equally far with the same variables.
pub open spec fn same_unpacking(s: Unpacking, t: Unpacking) -> bool {
    &&& same_shape(s.cs, t.cs)
    &&& s.last_run is Some <==> t.last_run is Some
    &&& s.last_run is Some ==> (s.last_run->0).variable == (t.last_run->0).variable
    &&& same_variables(s.current_run, t.current_run)
    &&& same_variables(s.result, t.result)
}

/// What closing a run records does not depend on values.
proof fn lemma_closed_shape(cs: SystemView, s: Unpacking, cs2: SystemView, t: Unpacking, i: int)
    requires
        crate::strict::underway(cs, s),
        crate::strict::underway(cs2, t),
        same_unpacking(s, t),
    ensures
        same_unpacking(run_closed(s, i), run_closed(t, i)),
{
    if s.current_run.len() > 0 {
        lemma_run_closed(cs, s, i);
        lemma_run_closed(cs2, t, i);
        let name = "run ending at "@ + decimal(i as nat);
        let run = match s.last_run {
            Some(last) => s.current_run.push(last),
            None => s.current_run,
        };
        let run2 = match t.last_run {
            Some(last) => t.current_run.push(last),
            None => t.current_run,
        };
        assert forall|j: int| 0 <= j < run.len() implies (#[trigger] run[j]).variable
            == run2[j].variable by {
            if j < s.current_run.len() {
                assert(run[j] == s.current_run[j]);
            }
        }
        lemma_conjunction_shape(s.cs.within(name), run, t.cs.within(name), run2);
    }
}

/// What the steps of a strict decomposition record does not depend on values.
proof fn lemma_unpacked_shape(
    cs: SystemView,
    value: Option<int>,
    cs2: SystemView,
    value2: Option<int>,
    i: nat,
)
    requires
        same_shape(cs, cs2),
        !cs.lacks(value),
        !cs2.lacks(value2),
        i <= NUM_BITS,
    ensures
        same_unpacking(unpacked(cs, value, i), unpacked(cs2, value2, i)),
    decreases i,
{
    if i > 0 {
        let k = (i - 1) as nat;
        lemma_unpacked_shape(cs, value, cs2, value2, k);
        lemma_underway(cs, value, k);
        lemma_underway(cs2, value2, k);
        lemma_top_bits_of_modulus();
        let s = unpacked(cs, value, k);
        let t = unpacked(cs2, value2, k);
        let next = unpacked(cs, value, i);
        let next2 = unpacked(cs2, value2, i);
        if !bit(modulus() - 1, NUM_BITS - i) {
            lemma_closed_shape(cs, s, cs2, t, k as int);
            if s.current_run.len() > 0 {
                lemma_run_closed(cs, s, k as int);
                lemma_run_closed(cs2, t, k as int);
            }
        }
        assert(next.cs.constraints =~= next2.cs.constraints);
        assert forall|j: int| 0 <= j < next.result.len() implies (
        #[trigger] next.result[j]).variable == next2.result[j].variable by {
            if j < s.result.len() {
                assert(s.result[j].variable == t.result[j].variable);
            }
        }
        assert forall|j: int| 0 <= j < next.current_run.len() implies (
        #[trigger] next.current_run[j]).variable == next2.current_run[j].variable by {
            if j < s.current_run.len() {
                assert(s.current_run[j].variable == t.current_run[j].variable);
            }
        }
    }
}

/// What the strict decomposition records does not depend on values.
pub proof fn strict_bits_have_one_shape(
    cs: SystemView,
    e: LinearView,
    cs2: SystemView,
    e2: LinearView,
)
    requires
        same_shape(cs, cs2),
        e.terms == e2.terms,
        strict_outcome(cs, e).1 is Ok,
        strict_outcome(cs2, e2).1 is Ok,
    ensures
        same_shape(strict_outcome(cs, e).0, strict_outcome(cs2, e2).0),
        ({
            let bits = strict_outcome(cs, e).1->Ok_0;
            let bits2 = strict_outcome(cs2, e2).1->Ok_0;
            &&& bits.len() == bits2.len()
            &&& forall|i: int|
                0 <= i < bits.len() ==> bits[i] is Is && bits2[i] is Is && (
                #[trigger] bits[i])->Is_0.variable == bits2[i]->Is_0.variable
        }),
{
    lemma_unpacked_shape(cs, e.value, cs2, e2.value, NUM_BITS as nat);
    let s = unpacked(cs, e.value, NUM_BITS as nat);
    let t = unpacked(cs2, e2.value, NUM_BITS as nat);
    let bits = s.result.reverse();
    let bits2 = t.result.reverse();
    assert forall|i: int| 0 <= i < bits.len() implies (#[trigger] bits[i]).variable
        == bits2[i].variable by {
        assert(s.result[bits.len() - 1 - i].variable == t.result[bits.len() - 1 - i].variable);
    }
    assert(weighted_terms(bits) =~= weighted_terms(bits2));
}

} // verus!
