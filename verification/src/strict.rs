//! The decomposition of an expression into the bits of its canonical
//! representative.

use vstd::prelude::*;

use crate::bits::{bit, bits_be, lemma_no_bit_above, lemma_top_bits_of_modulus};
use crate::boolean::{
    and_allocated, bit_allocated, bit_allocated_conditionally, bit_name, listed, opt_bit,
    AllocatedBit, Boolean,
};
use crate::constraint_system::{ConstraintSystem, SynthesisError, SystemView};
use crate::decimal::{decimal, numbered};
use crate::expression::{as_booleans, booleans, unpacking_constraint, Expression};
use crate::fr::{greatest_repr, modulus, repr_bits, NUM_BITS};
use crate::num::LinearView;

verus! {

/// The outcome of the conjunction of bits, from the first one on.
pub open spec fn conjunction(cs: SystemView, v: Seq<AllocatedBit>) -> (
    SystemView,
    Result<AllocatedBit, SynthesisError>,
)
    decreases v.len(),
{
    if v.len() <= 1 {
        (cs, Ok(v[0]))
    } else {
        let (before, r) = conjunction(cs, v.drop_last());
        match r {
            Ok(all) => {
                let (after, both) = and_allocated(
                    before.within("and "@ + decimal((v.len() - 1) as nat)),
                    all,
                    v.last(),
                );
                (after.without(), both)
            },
            Err(e) => (before, Err(e)),
        }
    }
}

/// How far the decomposition has come: what is recorded, the conjunction of the
/// bits over the closed runs of ones of the greatest representative, the bits
/// over the run that is open, and all bits so far, the most significant one
/// first.
#[verifier::ext_equal]
pub struct Unpacking {
    pub cs: SystemView,
    pub last_run: Option<AllocatedBit>,
    pub current_run: Seq<AllocatedBit>,
    pub result: Seq<AllocatedBit>,
}

/// Closes the run of ones that is open, where there is one.
pub open spec fn run_closed(s: Unpacking, i: int) -> Unpacking {
    if s.current_run.len() == 0 {
        s
    } else {
        let run = match s.last_run {
            Some(last) => s.current_run.push(last),
            None => s.current_run,
        };
        let (cs, all) = conjunction(s.cs.within("run ending at "@ + decimal(i as nat)), run);
        Unpacking {
            cs: cs.without(),
            last_run: Some(all->Ok_0),
            current_run: Seq::empty(),
            result: s.result,
        }
    }
}

/// The step for a bit, given the bit of the greatest representative in its
/// place. Over a one it joins the run that is open. Over a zero it has to be
/// false where all bits over the ones before it are true.
pub open spec fn unpacked_further(s: Unpacking, i: int, greatest: bool, value: Option<bool>) -> Unpacking {
    if greatest {
        let (cs, r) = bit_allocated(s.cs.within(bit_name(i)), value);
        Unpacking {
            cs: cs.without(),
            last_run: s.last_run,
            current_run: s.current_run.push(r->Ok_0),
            result: s.result.push(r->Ok_0),
        }
    } else {
        let closed = run_closed(s, i);
        let (cs, r) = bit_allocated_conditionally(
            closed.cs.within(bit_name(i)),
            value,
            (closed.last_run->0).variable,
        );
        Unpacking {
            cs: cs.without(),
            last_run: closed.last_run,
            current_run: closed.current_run,
            result: closed.result.push(r->Ok_0),
        }
    }
}

/// How far the decomposition is after the `i` most significant bits.
pub open spec fn unpacked(cs: SystemView, value: Option<int>, i: nat) -> Unpacking
    decreases i,
{
    if i == 0 {
        Unpacking { cs, last_run: None, current_run: Seq::empty(), result: Seq::empty() }
    } else {
        unpacked_further(
            unpacked(cs, value, (i - 1) as nat),
            i - 1,
            bit(modulus() - 1, NUM_BITS - i),
            opt_bit(value, NUM_BITS - i),
        )
    }
}

/// The outcome of the decomposition of an expression into the bits of its
/// canonical representative.
pub open spec fn strict_outcome(cs: SystemView, e: LinearView) -> (
    SystemView,
    Result<Seq<Boolean>, SynthesisError>,
) {
    if cs.lacks(e.value) {
        (cs, Err(SynthesisError::AssignmentMissing))
    } else {
        let all = unpacked(cs, e.value, NUM_BITS as nat);
        let bits = all.result.reverse();
        (
            all.cs.grown(Seq::empty(), seq![unpacking_constraint(all.cs, bits, e.terms)]),
            Ok(as_booleans(bits)),
        )
    }
}

/// Allocates the conjunction of bits.
fn kary_and(cs: &mut ConstraintSystem, v: &Vec<AllocatedBit>) -> (r: Result<
    AllocatedBit,
    SynthesisError,
>)
    requires
        v@.len() > 0,
    ensures
        (final(cs)@, r) == conjunction(old(cs)@, v@),
{
    let mut cur = v[0];
    for i in 1..v.len()
        invariant
            1 <= i <= v@.len(),
            (cs@, Ok::<AllocatedBit, SynthesisError>(cur)) == conjunction(
                old(cs)@,
                v@.take(i as int),
            ),
    {
        assert(v@.take(i + 1).drop_last() =~= v@.take(i as int));
        cs.push_namespace(numbered("and ", i));
        let both = AllocatedBit::and(cs, &cur, &v[i]);
        cs.pop_namespace();
        match both {
            Ok(b) => {
                cur = b;
            },
            Err(e) => {
                proof {
                    lemma_conjunction_fails(old(cs)@, v@, i + 1);
                }
                return Err(e);
            },
        }
    }
    assert(v@.take(v@.len() as int) =~= v@);
    Ok(cur)
}

/// A conjunction that fails for the first bits fails for all.
proof fn lemma_conjunction_fails(cs: SystemView, v: Seq<AllocatedBit>, i: int)
    requires
        1 <= i <= v.len(),
        conjunction(cs, v.take(i)).1 is Err,
    ensures
        conjunction(cs, v) == conjunction(cs, v.take(i)),
    decreases v.len(),
{
    if i == v.len() {
        assert(v.take(i) =~= v);
    } else {
        assert(v.drop_last().take(i) =~= v.take(i));
        lemma_conjunction_fails(cs, v.drop_last(), i);
    }
}

/// A conjunction only adds to the record.
pub proof fn lemma_conjunction_grows(cs: SystemView, v: Seq<AllocatedBit>)
    ensures
        cs.grows_to(conjunction(cs, v).0),
    decreases v.len(),
{
    if v.len() > 1 {
        lemma_conjunction_grows(cs, v.drop_last());
        let before = conjunction(cs, v.drop_last()).0;
        let name = "and "@ + decimal((v.len() - 1) as nat);
        assert(before.path.push(name).drop_last() =~= before.path);
    }
}

/// A conjunction of bits that are known, or whose values are not asked for, does
/// not fail.
pub proof fn lemma_conjunction_succeeds(cs: SystemView, v: Seq<AllocatedBit>)
    requires
        v.len() > 0,
        cs.evaluates ==> forall|j: int| 0 <= j < v.len() ==> (#[trigger] v[j]).value is Some,
    ensures
        conjunction(cs, v).1 is Ok,
        cs.evaluates ==> (conjunction(cs, v).1->Ok_0).value is Some,
        cs.grows_to(conjunction(cs, v).0),
    decreases v.len(),
{
    if v.len() > 1 {
        lemma_conjunction_succeeds(cs, v.drop_last());
        assert(cs.evaluates ==> v.last().value is Some);
        let (before, r) = conjunction(cs, v.drop_last());
        let name = "and "@ + decimal((v.len() - 1) as nat);
        assert(before.path.push(name).drop_last() =~= before.path);
    }
}

/// What holds at every step: the namespaces are those at the start, and the
/// values of the bits are known where they are asked for.
pub open spec fn underway(cs: SystemView, s: Unpacking) -> bool {
    &&& cs.grows_to(s.cs)
    &&& cs.evaluates ==> forall|j: int|
        0 <= j < s.current_run.len() ==> (#[trigger] s.current_run[j]).value is Some
    &&& cs.evaluates && s.last_run is Some ==> (s.last_run->0).value is Some
    &&& s.result.len() > 0 ==> s.current_run.len() > 0 || s.last_run is Some
}

/// Closing a run does not fail.
pub proof fn lemma_run_closed(cs: SystemView, s: Unpacking, i: int)
    requires
        underway(cs, s),
        s.current_run.len() > 0,
    ensures
        underway(cs, run_closed(s, i)),
        run_closed(s, i).last_run is Some,
        ({
            let run = match s.last_run {
                Some(last) => s.current_run.push(last),
                None => s.current_run,
            };
            let within = s.cs.within("run ending at "@ + decimal(i as nat));
            conjunction(within, run).1 is Ok && within.grows_to(conjunction(within, run).0)
        }),
{
    let run = match s.last_run {
        Some(last) => s.current_run.push(last),
        None => s.current_run,
    };
    let name = "run ending at "@ + decimal(i as nat);
    assert forall|j: int| cs.evaluates && 0 <= j < run.len() implies (#[trigger] run[j]).value is Some by {
        if j < s.current_run.len() {
            assert(s.current_run[j].value is Some);
        }
    }
    lemma_conjunction_succeeds(s.cs.within(name), run);
    assert(s.cs.path.push(name).drop_last() =~= s.cs.path);
}

/// Every step keeps what holds.
pub proof fn lemma_underway(cs: SystemView, value: Option<int>, i: nat)
    requires
        i <= NUM_BITS,
        !cs.lacks(value),
    ensures
        underway(cs, unpacked(cs, value, i)),
        unpacked(cs, value, i).result.len() == i,
        0 < i < NUM_BITS && !bit(modulus() - 1, NUM_BITS - 1 - i) ==> run_closed(
            unpacked(cs, value, i),
            i as int,
        ).last_run is Some,
    decreases i,
{
    if i > 0 {
        lemma_underway(cs, value, (i - 1) as nat);
        lemma_top_bits_of_modulus();
        let s = unpacked(cs, value, (i - 1) as nat);
        let k = i - 1;
        if s.current_run.len() > 0 {
            lemma_run_closed(cs, s, k);
        }
        let t = if bit(modulus() - 1, NUM_BITS - i) {
            s
        } else {
            run_closed(s, k)
        };
        assert(t.cs.path.push(bit_name(k)).drop_last() =~= t.cs.path);
        let n = unpacked(cs, value, i);
        assert forall|j: int| cs.evaluates && 0 <= j < n.current_run.len() implies (
        #[trigger] n.current_run[j]).value is Some by {
            if j < s.current_run.len() {
                assert(s.current_run[j].value is Some);
            }
        }
        if n.current_run.len() > 0 {
            lemma_run_closed(cs, n, i as int);
        }
    }
}

/// A step only adds to the record.
pub proof fn lemma_step_grows(cs: SystemView, value: Option<int>, i: nat)
    requires
        0 < i <= NUM_BITS,
        !cs.lacks(value),
    ensures
        unpacked(cs, value, (i - 1) as nat).cs.grows_to(unpacked(cs, value, i).cs),
{
    let s = unpacked(cs, value, (i - 1) as nat);
    lemma_underway(cs, value, (i - 1) as nat);
    if s.current_run.len() > 0 {
        lemma_run_closed(s.cs, s, i - 1);
    }
    let t = if bit(modulus() - 1, NUM_BITS - i) {
        s
    } else {
        run_closed(s, i - 1)
    };
    assert(t.cs.path.push(bit_name(i - 1)).drop_last() =~= t.cs.path);
}

impl Expression {
    /// Decomposes the expression into its bits, from the least significant one
    /// on, where the constraints require that the bits are those of the
    /// representative within the field: a congruent number is not allowed.
    pub fn into_bits_le_strict(&self, cs: &mut ConstraintSystem) -> (r: Result<
        Vec<Boolean>,
        SynthesisError,
    >)
        ensures
            (final(cs)@, listed(r)) == strict_outcome(old(cs)@, self@),
    {
        // The bits have to be those of a number less than or equal to `b`.
        let a = match self.get_value() {
            Some(v) => Some(repr_bits(v.into_repr())),
            None => None,
        };
        let b = repr_bits(greatest_repr());

        let mut result: Vec<AllocatedBit> = Vec::new();

        // Runs of ones in `b`
        let mut last_run: Option<AllocatedBit> = None;
        let mut current_run: Vec<AllocatedBit> = Vec::new();

        let mut found_one = false;
        let mut i: usize = 0;
        let ghost value = self@.value;
        proof {
            lemma_top_bits_of_modulus();
        }
        for k in 0..b.len()
            invariant
                b@ == bits_be(modulus() - 1),
                !bit(modulus() - 1, 255),
                bit(modulus() - 1, 254),
                value == self@.value,
                a matches Some(bits) ==> value is Some && 0 <= value->0 < modulus() && bits@
                    == bits_be(value->0),
                a is None ==> value is None,
                found_one == (k > 1),
                i == if k > 0 {
                    k - 1
                } else {
                    0
                },
                i > 0 ==> !old(cs)@.lacks(value),
                ({
                    let s = unpacked(old(cs)@, value, i as nat);
                    &&& cs@ == s.cs
                    &&& last_run == s.last_run
                    &&& current_run@ == s.current_run
                    &&& result@ == s.result
                }),
        {
            let a_bit = match &a {
                Some(bits) => Some(bits[k]),
                None => None,
            };
            assert(a_bit == opt_bit(value, 255 - k));

            // Skip over unset bits at the beginning, where `a` has none set either.
            found_one = found_one || b[k];
            proof {
                if !found_one && value is Some {
                    lemma_no_bit_above(value->0);
                    assert(a_bit == Some(false));
                }
            }
            if found_one {
                let ghost s = unpacked(old(cs)@, value, i as nat);
                proof {
                    if i > 0 {
                        lemma_underway(old(cs)@, value, i as nat);
                    }
                }
                if b[k] {
                    // This is part of a run of ones.
                    cs.push_namespace(numbered("bit ", i));
                    let allocated = AllocatedBit::allocate(cs, a_bit);
                    cs.pop_namespace();
                    let bit = match allocated {
                        Ok(bit) => bit,
                        Err(e) => {
                            assert(i == 0);
                            assert(s.cs.path.push(bit_name(0)).drop_last() =~= s.cs.path);
                            return Err(e);
                        },
                    };
                    current_run.push(bit);
                    result.push(bit);
                } else {
                    if current_run.len() > 0 {
                        // This is the start of a run of zeros.
                        proof {
                            lemma_run_closed(old(cs)@, s, i as int);
                        }
                        if let Some(last) = last_run {
                            current_run.push(last);
                        }
                        cs.push_namespace(numbered("run ending at ", i));
                        let all = kary_and(cs, &current_run);
                        cs.pop_namespace();
                        let all = match all {
                            Ok(all) => all,
                            Err(e) => {
                                assert(false);
                                return Err(e);
                            },
                        };
                        last_run = Some(all);
                        current_run = Vec::new();
                    }
                    // Where the bits over all ones before are true, this one must
                    // be false, or the number would not be within the field.
                    // Otherwise it can be either.
                    cs.push_namespace(numbered("bit ", i));
                    let allocated = AllocatedBit::alloc_conditionally(
                        cs,
                        a_bit,
                        &last_run.unwrap(),
                    );
                    cs.pop_namespace();
                    let bit = match allocated {
                        Ok(bit) => bit,
                        Err(e) => {
                            assert(false);
                            return Err(e);
                        },
                    };
                    result.push(bit);
                }
                i = i + 1;
            }
        }

        // The greatest representative is even, so no run of ones is open.
        proof {
            lemma_top_bits_of_modulus();
        }
        assert(current_run@.len() == 0);

        // From here on in little-endian order.
        let mut bits: Vec<AllocatedBit> = Vec::new();
        for j in 0..result.len()
            invariant
                bits@ == result@.reverse().take(j as int),
        {
            bits.push(result[result.len() - 1 - j]);
            assert(bits@ =~= result@.reverse().take(j + 1));
        }
        assert(bits@ =~= result@.reverse());
        self.enforce_unpacking(cs, &bits);
        Ok(booleans(&bits))
    }
}

} // verus!
