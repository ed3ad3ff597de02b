//! What the gadgets return and record, in every mode and whether the values that
//! expressions carry are true or not: when they fail, which variables they
//! allocate, what values these get, how many constraints come with them, and under
//! which names.

use vstd::arithmetic::power2::pow2;
use vstd::prelude::*;

use crate::bits::{bit, lemma_top_bits_of_modulus};
use crate::boolean::{
    and_allocated, bit_allocated, bit_allocated_conditionally, bit_name, bits_allocated, opt_bit,
    AllocatedBit, Boolean,
};
use crate::constraint_system::SystemView;
use crate::decimal::decimal;
use crate::expression::{
    bits_outcome, equals_outcome, limit_outcome, reverse_outcome, select_ifeq_outcome,
    select_outcome,
};
use crate::fr::{modulus, NUM_BITS};
use crate::linear_combination::Variable;
use crate::num::{num_allocated, LinearView};
use crate::strict::{
    conjunction, lemma_conjunction_grows, lemma_run_closed, lemma_step_grows, lemma_underway,
    run_closed, strict_outcome, underway, unpacked, Unpacking,
};

verus! {

/// Whether a record has gained so many variables and constraints at its end, and is
/// otherwise the same.
pub open spec fn gained(cs: SystemView, later: SystemView, variables: int, constraints: int) -> bool {
    &&& later.evaluates == cs.evaluates
    &&& later.path == cs.path
    &&& later.aux.len() == cs.aux.len() + variables
    &&& later.constraints.len() == cs.constraints.len() + constraints
    &&& forall|i: int| 0 <= i < cs.aux.len() ==> #[trigger] later.aux[i] == cs.aux[i]
    &&& forall|i: int|
        0 <= i < cs.constraints.len() ==> #[trigger] later.constraints[i] == cs.constraints[i]
}

/// The allocation of a number fails just where the number is asked for and not
/// known. Otherwise it records one variable, with the number where it is asked for.
pub proof fn number_results(cs: SystemView, value: Option<int>)
    ensures
        ({
            let (later, r) = num_allocated(cs, value);
            let m = cs.aux.len() as int;
            &&& r is Err <==> cs.evaluates && value is None
            &&& r is Err ==> later == cs
            &&& r matches Ok(num) ==> {
                &&& gained(cs, later, 1, 0)
                &&& num.variable == Variable::Aux(cs.aux.len() as usize)
                &&& cs.evaluates ==> num.value == value && later.aux[m].value == value
                &&& !cs.evaluates ==> num.value is None && later.aux[m].value is None
                &&& later.aux[m].path == cs.path.push("num"@)
            }
        }),
{
    assert(cs.path + seq!["num"@] =~= cs.path.push("num"@));
}

/// The allocation of a bit fails just where the bit is asked for and not known.
/// Otherwise it records one variable, with one or zero where it is asked for, and
/// one constraint; the bit carries what is known of it.
pub proof fn bit_results(cs: SystemView, value: Option<bool>)
    ensures
        ({
            let (later, r) = bit_allocated(cs, value);
            let m = cs.aux.len() as int;
            &&& r is Err <==> cs.evaluates && value is None
            &&& r is Err ==> later == cs
            &&& r matches Ok(b) ==> {
                &&& gained(cs, later, 1, 1)
                &&& b.variable == Variable::Aux(cs.aux.len() as usize)
                &&& b.value == value
                &&& cs.evaluates ==> later.aux[m].value == Some(
                    if value->0 {
                        1int
                    } else {
                        0int
                    },
                )
                &&& !cs.evaluates ==> later.aux[m].value is None
                &&& later.aux[m].path == cs.path.push("boolean"@)
                &&& later.constraints[cs.constraints.len() as int].path == cs.path.push(
                    "boolean constraint"@,
                )
            }
        }),
{
    assert(cs.path + seq!["boolean"@] =~= cs.path.push("boolean"@));
    assert(cs.path + seq!["boolean constraint"@] =~= cs.path.push("boolean constraint"@));
}

/// The conditional allocation of a bit fails and records as the allocation of a bit
/// does.
pub proof fn conditional_bit_results(cs: SystemView, value: Option<bool>, must_be_false: Variable)
    ensures
        ({
            let (later, r) = bit_allocated_conditionally(cs, value, must_be_false);
            let m = cs.aux.len() as int;
            &&& r is Err <==> cs.evaluates && value is None
            &&& r is Err ==> later == cs
            &&& r matches Ok(b) ==> {
                &&& gained(cs, later, 1, 1)
                &&& b.variable == Variable::Aux(cs.aux.len() as usize)
                &&& b.value == value
                &&& cs.evaluates ==> later.aux[m].value == Some(
                    if value->0 {
                        1int
                    } else {
                        0int
                    },
                )
                &&& !cs.evaluates ==> later.aux[m].value is None
                &&& later.aux[m].path == cs.path.push("boolean"@)
                &&& later.constraints[cs.constraints.len() as int].path == cs.path.push(
                    "boolean constraint"@,
                )
            }
        }),
{
    assert(cs.path + seq!["boolean"@] =~= cs.path.push("boolean"@));
    assert(cs.path + seq!["boolean constraint"@] =~= cs.path.push("boolean constraint"@));
}

/// The conjunction of two bits fails just where it is asked for and one of them is
/// not known. Otherwise it records one variable and one constraint.
pub proof fn and_results(cs: SystemView, a: AllocatedBit, b: AllocatedBit)
    ensures
        ({
            let (later, r) = and_allocated(cs, a, b);
            let m = cs.aux.len() as int;
            let both = a.value == Some(true) && b.value == Some(true);
            &&& r is Err <==> cs.evaluates && (a.value is None || b.value is None)
            &&& r is Err ==> later == cs
            &&& r matches Ok(c) ==> {
                &&& gained(cs, later, 1, 1)
                &&& c.variable == Variable::Aux(cs.aux.len() as usize)
                &&& cs.evaluates ==> c.value == Some(both) && later.aux[m].value == Some(
                    if both {
                        1int
                    } else {
                        0int
                    },
                )
                &&& !cs.evaluates ==> c.value is None && later.aux[m].value is None
                &&& later.aux[m].path == cs.path.push("and result"@)
                &&& later.constraints[cs.constraints.len() as int].path == cs.path.push(
                    "and constraint"@,
                )
            }
        }),
{
    assert(cs.path + seq!["and result"@] =~= cs.path.push("and result"@));
    assert(cs.path + seq!["and constraint"@] =~= cs.path.push("and constraint"@));
}

/// A comparison fails just where values are asked for and one of the two is not
/// known. Otherwise its bit carries whether the values are the same, where both are
/// known. It records the bit and a witness, which is one where the values are the
/// same, and three constraints.
pub proof fn equals_results(cs: SystemView, a: LinearView, b: LinearView)
    ensures
        ({
            let (later, r) = equals_outcome(cs, a, b);
            let known = a.value is Some && b.value is Some;
            let same = a.value == b.value;
            let m = cs.aux.len() as int;
            let n = cs.constraints.len() as int;
            &&& r is Err <==> cs.evaluates && !known
            &&& r is Err ==> later == cs
            &&& r matches Ok(bit) ==> {
                &&& gained(cs, later, 2, 3)
                &&& bit.variable == Variable::Aux(cs.aux.len() as usize)
                &&& known ==> bit.value == Some(same)
                &&& !known ==> bit.value is None
                &&& cs.evaluates ==> later.aux[m].value == Some(
                    if same {
                        1int
                    } else {
                        0int
                    },
                ) && later.aux[m + 1].value is Some
                &&& cs.evaluates && same ==> later.aux[m + 1].value == Some(1int)
                &&& !cs.evaluates ==> later.aux[m].value is None && later.aux[m + 1].value is None
                &&& later.aux[m].path == cs.path.push("r"@).push("boolean"@)
                &&& later.aux[m + 1].path == cs.path.push("x"@).push("num"@)
                &&& later.constraints[n].path == cs.path.push("r"@).push("boolean constraint"@)
                &&& later.constraints[n + 1].path == cs.path.push("0 = (a - b) * r"@)
                &&& later.constraints[n + 2].path == cs.path.push("(a - b) * x == r - 1"@)
            }
        }),
{
    assert(cs.path + seq!["r"@, "boolean"@] =~= cs.path.push("r"@).push("boolean"@));
    assert(cs.path + seq!["x"@, "num"@] =~= cs.path.push("x"@).push("num"@));
    assert(cs.path + seq!["r"@, "boolean constraint"@] =~= cs.path.push("r"@).push(
        "boolean constraint"@,
    ));
    assert(cs.path + seq!["0 = (a - b) * r"@] =~= cs.path.push("0 = (a - b) * r"@));
    assert(cs.path + seq!["(a - b) * x == r - 1"@] =~= cs.path.push("(a - b) * x == r - 1"@));
}

/// A selection fails just where values are asked for and the condition or the chosen
/// value is not known. Otherwise it records the chosen value, where it is asked for,
/// and one constraint.
pub proof fn select_results(cs: SystemView, a: LinearView, b: LinearView, condition: Boolean)
    ensures
        ({
            let (later, r) = select_outcome(cs, a, b, condition);
            let chosen = if condition.value() == Some(true) {
                a.value
            } else {
                b.value
            };
            let m = cs.aux.len() as int;
            &&& r is Err <==> cs.evaluates && (condition.value() is None || chosen is None)
            &&& r is Err ==> later == cs
            &&& r matches Ok(c) ==> {
                &&& gained(cs, later, 1, 1)
                &&& c.variable == Variable::Aux(cs.aux.len() as usize)
                &&& cs.evaluates ==> c.value == chosen && later.aux[m].value == chosen
                &&& !cs.evaluates ==> c.value is None && later.aux[m].value is None
                &&& later.aux[m].path == cs.path.push("conditional select result"@).push("num"@)
                &&& later.constraints[cs.constraints.len() as int].path == cs.path.push(
                    "conditional select constraint"@,
                )
            }
        }),
{
    assert(cs.path + seq!["conditional select result"@, "num"@] =~= cs.path.push(
        "conditional select result"@,
    ).push("num"@));
    assert(cs.path + seq!["conditional select constraint"@] =~= cs.path.push(
        "conditional select constraint"@,
    ));
}

/// A conditional reversal fails just where values are asked for and the condition or
/// one of the values is not known: with nothing recorded where the first number of
/// the result is not known, and with the first number and its constraint where only
/// the second is not. Otherwise it records the two in the reverse order where the
/// condition is true, and in their order where it is false, with a constraint each.
pub proof fn reverse_results(cs: SystemView, a: LinearView, b: LinearView, condition: Boolean)
    ensures
        ({
            let (later, r) = reverse_outcome(cs, a, b, condition);
            let reversed = condition.value() == Some(true);
            let first = if reversed {
                b.value
            } else {
                a.value
            };
            let second = if reversed {
                a.value
            } else {
                b.value
            };
            let m = cs.aux.len() as int;
            let n = cs.constraints.len() as int;
            &&& r is Err <==> cs.evaluates && (condition.value() is None || a.value is None
                || b.value is None)
            &&& r is Err && (condition.value() is None || first is None) ==> later == cs
            &&& r is Err && condition.value() is Some && first is Some ==> gained(cs, later, 1, 1)
            &&& r matches Ok((c, d)) ==> {
                &&& gained(cs, later, 2, 2)
                &&& c.variable == Variable::Aux(cs.aux.len() as usize)
                &&& d.variable == Variable::Aux((cs.aux.len() + 1) as usize)
                &&& cs.evaluates ==> c.value == first && d.value == second
                &&& !cs.evaluates ==> c.value is None && d.value is None && later.aux[m
                    + 1].value is None
                &&& cs.evaluates ==> later.aux[m + 1].value == second
                &&& later.aux[m + 1].path == cs.path.push("conditional reversal result 2"@).push(
                    "num"@,
                )
                &&& later.constraints[n + 1].path == cs.path.push("second conditional reversal"@)
            }
            &&& later != cs ==> {
                &&& cs.evaluates ==> later.aux[m].value == first
                &&& !cs.evaluates ==> later.aux[m].value is None
                &&& later.aux[m].path == cs.path.push("conditional reversal result 1"@).push(
                    "num"@,
                )
                &&& later.constraints[n].path == cs.path.push("first conditional reversal"@)
            }
        }),
{
    assert(cs.path + seq!["conditional reversal result 1"@, "num"@] =~= cs.path.push(
        "conditional reversal result 1"@,
    ).push("num"@));
    assert(cs.path + seq!["conditional reversal result 2"@, "num"@] =~= cs.path.push(
        "conditional reversal result 2"@,
    ).push("num"@));
    assert(cs.path + seq!["first conditional reversal"@] =~= cs.path.push(
        "first conditional reversal"@,
    ));
    assert(cs.path + seq!["second conditional reversal"@] =~= cs.path.push(
        "second conditional reversal"@,
    ));
}

/// A selection by comparison fails just where values are asked for and one of the
/// compared ones or the chosen one is not known. Otherwise it records the comparison
/// and then the chosen value.
pub proof fn select_ifeq_results(
    cs: SystemView,
    a: LinearView,
    b: LinearView,
    x: LinearView,
    y: LinearView,
)
    ensures
        ({
            let (later, r) = select_ifeq_outcome(cs, a, b, x, y);
            let known = a.value is Some && b.value is Some;
            let chosen = if a.value == b.value {
                x.value
            } else {
                y.value
            };
            let m = cs.aux.len() as int;
            let n = cs.constraints.len() as int;
            &&& r is Err <==> cs.evaluates && (!known || chosen is None)
            &&& r is Err && !known ==> later == cs
            &&& r is Err && known ==> gained(cs, later, 2, 3)
            &&& r matches Ok(c) ==> {
                &&& gained(cs, later, 3, 4)
                &&& c.variable == Variable::Aux((cs.aux.len() + 2) as usize)
                &&& cs.evaluates ==> c.value == chosen && later.aux[m + 2].value == chosen
                &&& !cs.evaluates ==> c.value is None && later.aux[m + 2].value is None
                &&& later.aux[m].path == cs.path.push("eq"@).push("r"@).push("boolean"@)
                &&& later.aux[m + 1].path == cs.path.push("eq"@).push("x"@).push("num"@)
                &&& later.aux[m + 2].path == cs.path.push("select"@).push(
                    "conditional select result"@,
                ).push("num"@)
                &&& later.constraints[n].path == cs.path.push("eq"@).push("r"@).push(
                    "boolean constraint"@,
                )
                &&& later.constraints[n + 3].path == cs.path.push("select"@).push(
                    "conditional select constraint"@,
                )
            }
        }),
{
    let start = cs.within("eq"@);
    equals_results(start, a, b);
    let (compared, eq) = equals_outcome(start, a, b);
    let next = compared.without().within("select"@);
    assert(cs.path.push("eq"@).drop_last() =~= cs.path);
    assert(cs.path.push("select"@).drop_last() =~= cs.path);
    if eq is Ok {
        select_results(next, x, y, Boolean::Is(eq->Ok_0));
        let selected = select_outcome(next, x, y, Boolean::Is(eq->Ok_0)).0;
        assert forall|i: int| 0 <= i < compared.aux.len() implies selected.aux[i]
            == #[trigger] compared.aux[i] by {
            assert(selected.aux[i] == next.aux[i]);
        }
        assert forall|i: int| 0 <= i < compared.constraints.len() implies selected.constraints[i]
            == #[trigger] compared.constraints[i] by {
            assert(selected.constraints[i] == next.constraints[i]);
        }
        let later = select_ifeq_outcome(cs, a, b, x, y).0;
        assert forall|i: int| 0 <= i < cs.aux.len() implies #[trigger] later.aux[i]
            == cs.aux[i] by {
            assert(compared.aux[i] == start.aux[i]);
        }
        assert forall|i: int| 0 <= i < cs.constraints.len() implies #[trigger] later.constraints[i]
            == cs.constraints[i] by {
            assert(compared.constraints[i] == start.constraints[i]);
        }
        let m = cs.aux.len() as int;
        let n = cs.constraints.len() as int;
        assert(selected.aux[m] == compared.aux[m]);
        assert(selected.aux[m + 1] == compared.aux[m + 1]);
        assert(selected.constraints[n] == compared.constraints[n]);
    }
}

/// The allocation of the bits of a number, and the decomposition of an expression
/// into them, fail just where the value is asked for, not known, and some bits are
/// wanted. Otherwise they record one variable with its constraint for each bit, from
/// the least significant one on, and the decomposition one constraint more. The bits
/// carry those of the value, where it is known.
pub proof fn bits_results(cs: SystemView, e: LinearView, n: nat)
    ensures
        ({
            let (later, r) = bits_outcome(cs, e, n);
            let m = cs.aux.len() as int;
            let c = cs.constraints.len() as int;
            &&& r is Err <==> n > 0 && cs.evaluates && e.value is None
            &&& r is Err ==> later == cs
            &&& r matches Ok(bits) ==> {
                &&& gained(cs, later, n as int, (n + 1) as int)
                &&& bits.len() == n
                &&& forall|i: int|
                    #![trigger bits[i]]
                    0 <= i < n ==> {
                        let one = (e.value->0 / (pow2(i as nat) as int)) % 2 == 1;
                        &&& bits[i] is Is
                        &&& bits[i]->Is_0.variable == Variable::Aux((cs.aux.len() + i) as usize)
                        &&& e.value is Some ==> bits[i]->Is_0.value == Some(one)
                        &&& e.value is None ==> bits[i]->Is_0.value is None
                        &&& cs.evaluates ==> later.aux[m + i].value == Some(
                            if one {
                                1int
                            } else {
                                0int
                            },
                        )
                        &&& !cs.evaluates ==> later.aux[m + i].value is None
                        &&& later.aux[m + i].path == cs.path.push("bit "@ + decimal(i as nat)).push(
                            "boolean"@,
                        )
                        &&& later.constraints[c + i].path == cs.path.push(
                            "bit "@ + decimal(i as nat),
                        ).push("boolean constraint"@)
                    }
                &&& later.constraints[c + n].path == cs.path.push("unpacking constraint"@)
            }
        }),
{
    let (later, r) = bits_outcome(cs, e, n);
    assert(cs.path + seq!["unpacking constraint"@] =~= cs.path.push("unpacking constraint"@));
    assert forall|i: int| 0 <= i < n implies cs.path + seq![#[trigger] bit_name(i), "boolean"@]
        == cs.path.push("bit "@ + decimal(i as nat)).push("boolean"@) && cs.path + seq![
        bit_name(i),
        "boolean constraint"@,
    ] == cs.path.push("bit "@ + decimal(i as nat)).push("boolean constraint"@) by {
        assert(cs.path + seq![bit_name(i), "boolean"@] =~= cs.path.push(
            "bit "@ + decimal(i as nat),
        ).push("boolean"@));
        assert(cs.path + seq![bit_name(i), "boolean constraint"@] =~= cs.path.push(
            "bit "@ + decimal(i as nat),
        ).push("boolean constraint"@));
    }
    if r is Ok {
        let m = cs.aux.len() as int;
        let c = cs.constraints.len() as int;
        let bits = r->Ok_0;
        assert forall|i: int| #![trigger bits[i]] 0 <= i < n implies later.aux[m + i].path
            == cs.path + seq![bit_name(i), "boolean"@] && later.constraints[c + i].path == cs.path
            + seq![bit_name(i), "boolean constraint"@] by {}
    }
}

/// The allocation of the bits of a number gives the bits into which an expression
/// with that value is decomposed, and all that the decomposition records but its last
/// constraint.
pub proof fn allocated_bits_results(cs: SystemView, e: LinearView, n: nat)
    ensures
        ({
            let (allocated, r) = bits_allocated(cs, e.value, n);
            let (later, bits) = bits_outcome(cs, e, n);
            &&& r is Err <==> bits is Err
            &&& r matches Ok(v) ==> {
                &&& gained(cs, allocated, n as int, n as int)
                &&& gained(allocated, later, 0, 1)
                &&& v.len() == n
                &&& forall|i: int|
                    0 <= i < n ==> (bits->Ok_0)[i] == Boolean::Is(#[trigger] v[i])
            }
            &&& r is Err ==> allocated == cs
        }),
{
}

/// A limitation fails just where the value is asked for and not known. Otherwise it
/// records the bits of the value with their constraints, and one constraint more.
pub proof fn limit_results(cs: SystemView, e: LinearView, n: nat)
    ensures
        ({
            let (later, r) = limit_outcome(cs, e, n);
            let c = cs.constraints.len() as int;
            &&& r is Err <==> cs.evaluates && e.value is None
            &&& r is Err ==> later == cs
            &&& r is Ok ==> {
                &&& gained(cs, later, 255, 257)
                &&& later.constraints[c].path == cs.path.push(
                    "unpack to limit number of bits"@,
                ).push("bit "@ + decimal(0)).push("boolean constraint"@)
                &&& later.constraints[c + 255].path == cs.path.push(
                    "unpack to limit number of bits"@,
                ).push("unpacking constraint"@)
                &&& later.constraints[c + 256].path == cs.path.push("repack top bits"@)
            }
        }),
{
    let name = "unpack to limit number of bits"@;
    let start = cs.within(name);
    bits_results(start, e, NUM_BITS as nat);
    let (unpacked, r) = bits_outcome(start, e, NUM_BITS as nat);
    let later = limit_outcome(cs, e, n).0;
    assert(cs.path.push(name).drop_last() =~= cs.path);
    assert(cs.path + seq!["repack top bits"@] =~= cs.path.push("repack top bits"@));
    if r is Ok {
        assert((r->Ok_0)[0] is Is);
        assert forall|i: int| 0 <= i < cs.aux.len() implies #[trigger] later.aux[i]
            == cs.aux[i] by {
            assert(unpacked.aux[i] == start.aux[i]);
        }
        assert forall|i: int| 0 <= i < cs.constraints.len() implies #[trigger] later.constraints[i]
            == cs.constraints[i] by {
            assert(unpacked.constraints[i] == start.constraints[i]);
        }
        let c = cs.constraints.len() as int;
        assert(later.constraints[c] == unpacked.constraints[c]);
        assert(later.constraints[c + 255] == unpacked.constraints[c + 255]);
    }
}

/// A conjunction of bits records one variable and one constraint for each bit but the
/// first, under the number of the bit, and carries whether all bits are true.
pub proof fn conjunction_results(cs: SystemView, v: Seq<AllocatedBit>)
    requires
        v.len() > 0,
        conjunction(cs, v).1 is Ok,
    ensures
        gained(cs, conjunction(cs, v).0, v.len() - 1, v.len() - 1),
        cs.evaluates && v.len() > 1 ==> (conjunction(cs, v).1->Ok_0).value == Some(
            forall|j: int| 0 <= j < v.len() ==> (#[trigger] v[j]).value == Some(true),
        ),
        v.len() == 1 ==> conjunction(cs, v).1->Ok_0 == v[0],
        forall|j: nat|
            0 < j < v.len() ==> {
                let later = conjunction(cs, v).0;
                let within = cs.path.push("and "@ + #[trigger] decimal(j));
                &&& later.aux[cs.aux.len() + j - 1].path == within.push("and result"@)
                &&& later.constraints[cs.constraints.len() + j - 1].path == within.push(
                    "and constraint"@,
                )
            },
    decreases v.len(),
{
    if v.len() > 1 {
        let rest = v.drop_last();
        conjunction_results(cs, rest);
        lemma_conjunction_grows(cs, rest);
        let (before, r) = conjunction(cs, rest);
        let name = "and "@ + decimal((v.len() - 1) as nat);
        let within = before.within(name);
        and_results(within, r->Ok_0, v.last());
        assert(before.path.push(name).drop_last() =~= before.path);
        let (after, both) = and_allocated(within, r->Ok_0, v.last());
        let later = conjunction(cs, v).0;
        assert forall|i: int| 0 <= i < cs.aux.len() implies #[trigger] later.aux[i]
            == cs.aux[i] by {
            assert(after.aux[i] == within.aux[i]);
            assert(before.aux[i] == cs.aux[i]);
        }
        assert forall|i: int| 0 <= i < cs.constraints.len() implies #[trigger] later.constraints[i]
            == cs.constraints[i] by {
            assert(after.constraints[i] == within.constraints[i]);
            assert(before.constraints[i] == cs.constraints[i]);
        }
        assert forall|j: nat| 0 < j < v.len() implies later.aux[cs.aux.len() + j - 1].path
            == cs.path.push("and "@ + #[trigger] decimal(j)).push("and result"@)
            && later.constraints[cs.constraints.len() + j - 1].path == cs.path.push(
            "and "@ + decimal(j),
        ).push("and constraint"@) by {
            if j < rest.len() {
                assert(later.aux[cs.aux.len() + j - 1] == within.aux[cs.aux.len() + j - 1]);
                assert(later.constraints[cs.constraints.len() + j - 1]
                    == within.constraints[cs.constraints.len() + j - 1]);
            }
        }
        if cs.evaluates {
            assert(v.last() == v[v.len() - 1]);
            if forall|j: int| 0 <= j < v.len() ==> (#[trigger] v[j]).value == Some(true) {
                assert(v[v.len() - 1].value == Some(true));
                assert forall|j: int| 0 <= j < rest.len() implies (#[trigger] rest[j]).value
                    == Some(true) by {
                    assert(rest[j] == v[j]);
                }
                assert(rest.len() == 1 ==> rest[0].value == Some(true));
            }
            if (both->Ok_0).value == Some(true) {
                assert(rest.len() == 1 ==> r->Ok_0 == rest[0]);
                assert forall|j: int| 0 <= j < v.len() implies (#[trigger] v[j]).value == Some(
                    true,
                ) by {
                    if j < rest.len() {
                        assert(rest[j] == v[j]);
                        assert(rest[j].value == Some(true));
                    }
                }
            }
        }
    }
}

/// Closing a run of a strict decomposition records the conjunction of its bits with
/// what the runs before came to, in a namespace that tells where the run ends.
pub proof fn run_results(cs: SystemView, s: Unpacking, i: nat)
    requires
        underway(cs, s),
    ensures
        ({
            let closed = run_closed(s, i as int);
            let more = if s.last_run is Some {
                0int
            } else {
                1int
            };
            let added = s.current_run.len() - more;
            &&& closed.result == s.result
            &&& closed.current_run.len() == 0
            &&& s.current_run.len() == 0 ==> closed == s
            &&& s.current_run.len() > 0 ==> {
                &&& gained(s.cs, closed.cs, added, added)
                &&& forall|k: int|
                    s.cs.aux.len() <= k < closed.cs.aux.len() ==> (
                    #[trigger] closed.cs.aux[k]).path == s.cs.path.push(
                        "run ending at "@ + decimal(i),
                    ).push("and "@ + decimal((k - s.cs.aux.len() + 1) as nat)).push("and result"@)
            }
        }),
{
    if s.current_run.len() > 0 {
        lemma_run_closed(cs, s, i as int);
        let run = match s.last_run {
            Some(last) => s.current_run.push(last),
            None => s.current_run,
        };
        let name = "run ending at "@ + decimal(i);
        let within = s.cs.within(name);
        conjunction_results(within, run);
        let closed = run_closed(s, i as int);
        assert(s.cs.path.push(name).drop_last() =~= s.cs.path);
        let c = conjunction(within, run).0;
        assert forall|k: int| 0 <= k < s.cs.aux.len() implies #[trigger] closed.cs.aux[k]
            == s.cs.aux[k] by {
            assert(c.aux[k] == within.aux[k]);
        }
        assert forall|k: int| 0 <= k < s.cs.constraints.len() implies
            #[trigger] closed.cs.constraints[k] == s.cs.constraints[k] by {
            assert(c.constraints[k] == within.constraints[k]);
        }
        assert forall|k: int| s.cs.aux.len() <= k < closed.cs.aux.len() implies (
        #[trigger] closed.cs.aux[k]).path == s.cs.path.push(name).push(
            "and "@ + decimal((k - s.cs.aux.len() + 1) as nat),
        ).push("and result"@) by {
            let j = (k - s.cs.aux.len() + 1) as nat;
            let within_and = within.path.push("and "@ + decimal(j));
            assert(c.aux[within.aux.len() + j - 1].path == within_and.push("and result"@));
        }
    }
}

/// What holds of the bits of a strict decomposition after `i` of them: they carry
/// those of the value, their variables have their names, and there are as many
/// variables as constraints.
pub open spec fn unpacked_so_far(cs: SystemView, value: Option<int>, s: Unpacking, i: nat) -> bool {
    &&& s.result.len() == i
    &&& s.cs.aux.len() - cs.aux.len() == s.cs.constraints.len() - cs.constraints.len()
    &&& s.cs.aux.len() >= cs.aux.len() + i
    &&& forall|j: int|
        0 <= j < i ==> (#[trigger] s.result[j]).value == opt_bit(value, NUM_BITS - 1 - j)
    &&& forall|j: int|
        0 <= j < i ==> exists|k: int|
            {
                &&& cs.aux.len() <= k < s.cs.aux.len()
                &&& (#[trigger] s.result[j]).variable == Variable::Aux(k as usize)
                &&& (#[trigger] s.cs.aux[k]).path == cs.path.push("bit "@ + decimal(j as nat)).push(
                    "boolean"@,
                )
            }
}

/// Every step keeps what holds of the bits.
proof fn lemma_unpacked_so_far(cs: SystemView, value: Option<int>, i: nat)
    requires
        i <= NUM_BITS,
        !cs.lacks(value),
    ensures
        unpacked_so_far(cs, value, unpacked(cs, value, i), i),
    decreases i,
{
    if i > 0 {
        let k = (i - 1) as nat;
        lemma_unpacked_so_far(cs, value, k);
        lemma_underway(cs, value, k);
        lemma_step_grows(cs, value, i);
        lemma_top_bits_of_modulus();
        let s = unpacked(cs, value, k);
        let next = unpacked(cs, value, i);
        let closed = if bit(modulus() - 1, NUM_BITS - i) {
            s
        } else {
            run_closed(s, k as int)
        };
        if s.current_run.len() > 0 {
            lemma_run_closed(cs, s, k as int);
            let run = match s.last_run {
                Some(last) => s.current_run.push(last),
                None => s.current_run,
            };
            let within = s.cs.within("run ending at "@ + decimal(k));
            conjunction_results(within, run);
        }
        let within = closed.cs.within(bit_name(k as int));
        let b = opt_bit(value, NUM_BITS - i);
        if bit(modulus() - 1, NUM_BITS - i) {
            bit_results(within, b);
        } else {
            conditional_bit_results(within, b, (closed.last_run->0).variable);
        }
        let m = closed.cs.aux.len() as int;
        assert(next.cs.aux.len() == m + 1);
        assert(closed.cs.path == cs.path);
        assert(next.cs.aux[m].path == cs.path.push("bit "@ + decimal(k)).push("boolean"@));
        assert forall|j: int| 0 <= j < i implies exists|l: int|
            {
                &&& cs.aux.len() <= l < next.cs.aux.len()
                &&& (#[trigger] next.result[j]).variable == Variable::Aux(l as usize)
                &&& (#[trigger] next.cs.aux[l]).path == cs.path.push(
                    "bit "@ + decimal(j as nat),
                ).push("boolean"@)
            } by {
            if j < k {
                assert(next.result[j] == s.result[j]);
                let l = choose|l: int|
                    {
                        &&& cs.aux.len() <= l < s.cs.aux.len()
                        &&& (#[trigger] s.result[j]).variable == Variable::Aux(l as usize)
                        &&& (#[trigger] s.cs.aux[l]).path == cs.path.push(
                            "bit "@ + decimal(j as nat),
                        ).push("boolean"@)
                    };
                assert(next.cs.aux[l] == s.cs.aux[l]);
            } else {
                assert(next.result[j].variable == Variable::Aux(m as usize));
                assert(next.cs.aux[m].path == cs.path.push("bit "@ + decimal(j as nat)).push(
                    "boolean"@,
                ));
            }
        }
        assert forall|j: int| 0 <= j < i implies (#[trigger] next.result[j]).value == opt_bit(
            value,
            NUM_BITS - 1 - j,
        ) by {
            if j < k {
                assert(next.result[j] == s.result[j]);
            }
        }
    }
}

/// A strict decomposition fails just where the value is asked for and not known.
/// Otherwise it records as many variables as constraints, a variable for each bit
/// among them under the name of the bit, and one constraint more. The bits carry
/// those of the value, where it is known.
pub proof fn strict_results(cs: SystemView, e: LinearView)
    ensures
        ({
            let (later, r) = strict_outcome(cs, e);
            let added = later.aux.len() - cs.aux.len();
            &&& r is Err <==> cs.evaluates && e.value is None
            &&& r is Err ==> later == cs
            &&& r matches Ok(bits) ==> {
                &&& gained(cs, later, added, added + 1)
                &&& added >= 255
                &&& bits.len() == 255
                &&& forall|i: int|
                    #![trigger bits[i]]
                    0 <= i < 255 ==> {
                        let one = (e.value->0 / (pow2(i as nat) as int)) % 2 == 1;
                        &&& bits[i] is Is
                        &&& e.value is Some ==> bits[i]->Is_0.value == Some(one)
                        &&& e.value is None ==> bits[i]->Is_0.value is None
                        &&& exists|k: int|
                            {
                                &&& cs.aux.len() <= k < later.aux.len()
                                &&& bits[i]->Is_0.variable == Variable::Aux(k as usize)
                                &&& (#[trigger] later.aux[k]).path == cs.path.push(
                                    "bit "@ + decimal((254 - i) as nat),
                                ).push("boolean"@)
                            }
                    }
                &&& later.constraints[later.constraints.len() - 1].path == cs.path.push(
                    "unpacking constraint"@,
                )
            }
        }),
{
    let (later, r) = strict_outcome(cs, e);
    assert(cs.path + seq!["unpacking constraint"@] =~= cs.path.push("unpacking constraint"@));
    if r is Ok {
        lemma_unpacked_so_far(cs, e.value, NUM_BITS as nat);
        lemma_underway(cs, e.value, NUM_BITS as nat);
        let all = unpacked(cs, e.value, NUM_BITS as nat);
        let bits = r->Ok_0;
        assert(later.aux =~= all.cs.aux);
        assert forall|i: int| 0 <= i < cs.constraints.len() implies #[trigger] later.constraints[i]
            == cs.constraints[i] by {
            assert(all.cs.constraints[i] == cs.constraints[i]);
        }
        assert forall|i: int|
            #![trigger bits[i]]
            0 <= i < 255 implies bits[i] is Is && bits[i]->Is_0.value == opt_bit(e.value, i)
            && exists|k: int|
            {
                &&& cs.aux.len() <= k < later.aux.len()
                &&& bits[i]->Is_0.variable == Variable::Aux(k as usize)
                &&& (#[trigger] later.aux[k]).path == cs.path.push(
                    "bit "@ + decimal((254 - i) as nat),
                ).push("boolean"@)
            } by {
            let j = 254 - i;
            assert(bits[i] == Boolean::Is(all.result[j]));
            assert(all.result[j].value == opt_bit(e.value, NUM_BITS - 1 - j));
            let k = choose|k: int|
                {
                    &&& cs.aux.len() <= k < all.cs.aux.len()
                    &&& (#[trigger] all.result[j]).variable == Variable::Aux(k as usize)
                    &&& (#[trigger] all.cs.aux[k]).path == cs.path.push(
                        "bit "@ + decimal(j as nat),
                    ).push("boolean"@)
                };
            assert(later.aux[k] == all.cs.aux[k]);
        }
    }
}

} // verus!
