//! A record of what a circuit asks of a proving system: the variables that it
//! allocates and the rank-one constraints that it puts on them.

use vstd::prelude::*;

use crate::fr::{fe, opt_value, Fr};
use crate::linear_combination::{eval, is_assignment, Assignment, LinearCombination, Term, Variable};

verus! {

/// Why a circuit could not be synthesized.
#[derive(Clone, Copy, Debug, PartialEq, Eq, Structural)]
pub enum SynthesisError {
    /// The value of a variable was asked for and is not known.
    AssignmentMissing,
}

/// A name within a circuit: the namespaces from the outermost one inwards, and
/// the annotation last.
pub type Path = Seq<Seq<char>>;

/// The texts of a list of strings.
pub open spec fn texts(names: Seq<String>) -> Path {
    Seq::new(names.len(), |i: int| names[i]@)
}

/// The texts with a slash between each and the next.
pub open spec fn joined(names: Path) -> Seq<char>
    decreases names.len(),
{
    if names.len() == 0 {
        Seq::empty()
    } else if names.len() == 1 {
        names[0]
    } else {
        joined(names.drop_last()) + "/"@ + names.last()
    }
}

/// What an allocated variable is called and the value it was given.
#[verifier::ext_equal]
pub struct AllocationView {
    pub path: Path,
    pub value: Option<int>,
}

/// What a constraint is called, and the three linear combinations of which the
/// product of the first two has to equal the third.
#[verifier::ext_equal]
pub struct ConstraintView {
    pub path: Path,
    pub a: Seq<Term>,
    pub b: Seq<Term>,
    pub c: Seq<Term>,
}

impl ConstraintView {
    /// Whether an assignment satisfies the constraint.
    pub open spec fn holds(self, w: Assignment) -> bool {
        fe(eval(self.a, w) * eval(self.b, w)) == eval(self.c, w)
    }
}

/// What a constraint system has recorded.
#[verifier::ext_equal]
pub struct SystemView {
    /// Whether the values of variables are asked for.
    pub evaluates: bool,
    /// The namespaces that are open.
    pub path: Path,
    /// The auxiliary variables, by their index.
    pub aux: Seq<AllocationView>,
    pub constraints: Seq<ConstraintView>,
}

impl SystemView {
    /// Whether an allocation fails for want of a value.
    pub open spec fn lacks(self, value: Option<int>) -> bool {
        self.evaluates && value is None
    }

    /// What is kept of the value of an allocation.
    pub open spec fn kept(self, value: Option<int>) -> Option<int> {
        if self.evaluates {
            value
        } else {
            None
        }
    }

    /// The auxiliary variable allocated behind `k` further ones.
    pub open spec fn fresh(self, k: int) -> Variable {
        Variable::Aux((self.aux.len() + k) as usize)
    }

    /// The record of an allocation, named within the open namespaces.
    pub open spec fn allocation(self, names: Path, value: Option<int>) -> AllocationView {
        AllocationView { path: self.path + names, value: self.kept(value) }
    }

    /// The record of a constraint, named within the open namespaces.
    pub open spec fn constraint(
        self,
        names: Path,
        a: Seq<Term>,
        b: Seq<Term>,
        c: Seq<Term>,
    ) -> ConstraintView {
        ConstraintView { path: self.path + names, a, b, c }
    }

    /// The record with more allocations and constraints behind.
    pub open spec fn grown(
        self,
        aux: Seq<AllocationView>,
        constraints: Seq<ConstraintView>,
    ) -> SystemView {
        SystemView { aux: self.aux + aux, constraints: self.constraints + constraints, ..self }
    }

    /// The record with one more namespace open.
    pub open spec fn within(self, name: Seq<char>) -> SystemView {
        SystemView { path: self.path.push(name), ..self }
    }

    /// The record with the innermost namespace closed.
    pub open spec fn without(self) -> SystemView {
        SystemView { path: self.path.drop_last(), ..self }
    }

    /// Whether `later` has everything of this record in its place, and the same
    /// namespaces open.
    pub open spec fn grows_to(self, later: SystemView) -> bool {
        &&& self.evaluates == later.evaluates
        &&& self.path == later.path
        &&& self.aux.is_prefix_of(later.aux)
        &&& self.constraints.is_prefix_of(later.constraints)
    }

    /// Whether the value of a variable is known.
    pub open spec fn assigned(self, var: Variable) -> bool {
        match var {
            Variable::Input(i) => i == 0,
            Variable::Aux(i) => i < self.aux.len() && self.aux[i as int].value is Some,
        }
    }

    /// Whether the value of every variable of a linear combination is known.
    pub open spec fn covers(self, terms: Seq<Term>) -> bool {
        forall|i: int| 0 <= i < terms.len() ==> self.assigned(#[trigger] terms[i].0)
    }

    /// The values of the variables; zero where the value is not known.
    pub open spec fn assignment(self) -> Assignment {
        |var: Variable|
            match var {
                Variable::Input(i) => if i == 0 {
                    1int
                } else {
                    0int
                },
                Variable::Aux(i) => if self.assigned(var) {
                    self.aux[i as int].value->0
                } else {
                    0int
                },
            }
    }

    /// Whether the values of all variables of a constraint are known and satisfy
    /// it.
    pub open spec fn meets(self, constraint: ConstraintView) -> bool {
        &&& self.covers(constraint.a)
        &&& self.covers(constraint.b)
        &&& self.covers(constraint.c)
        &&& constraint.holds(self.assignment())
    }

    /// Whether the recorded values satisfy every constraint.
    pub open spec fn satisfied(self) -> bool {
        forall|i: int| 0 <= i < self.constraints.len() ==> self.meets(#[trigger] self.constraints[i])
    }

    /// Whether `w` satisfies every constraint.
    pub open spec fn satisfied_by(self, w: Assignment) -> bool {
        &&& is_assignment(w)
        &&& forall|i: int|
            0 <= i < self.constraints.len() ==> (#[trigger] self.constraints[i]).holds(w)
    }
}

/// Whether an assignment satisfies the constraints that a record has gained.
pub open spec fn added_hold(cs: SystemView, later: SystemView, w: Assignment) -> bool {
    forall|i: int|
        cs.constraints.len() <= i < later.constraints.len() ==> (
        #[trigger] later.constraints[i]).holds(w)
}

/// An auxiliary variable that was asked for.
pub struct Allocation {
    pub path: Vec<String>,
    pub value: Option<Fr>,
}

impl View for Allocation {
    type V = AllocationView;

    open spec fn view(&self) -> AllocationView {
        AllocationView { path: texts(self.path@), value: opt_value(self.value) }
    }
}

/// A constraint that was asked for: `a * b = c`.
pub struct Constraint {
    pub path: Vec<String>,
    pub a: LinearCombination,
    pub b: LinearCombination,
    pub c: LinearCombination,
}

impl View for Constraint {
    type V = ConstraintView;

    open spec fn view(&self) -> ConstraintView {
        ConstraintView { path: texts(self.path@), a: self.a@, b: self.b@, c: self.c@ }
    }
}

/// A constraint system that records the variables and the constraints of a
/// circuit.
pub struct ConstraintSystem {
    evaluates: bool,
    path: Vec<String>,
    aux: Vec<Allocation>,
    constraints: Vec<Constraint>,
}

impl View for ConstraintSystem {
    type V = SystemView;

    closed spec fn view(&self) -> SystemView {
        SystemView {
            evaluates: self.evaluates,
            path: texts(self.path@),
            aux: Seq::new(self.aux@.len(), |i: int| self.aux@[i]@),
            constraints: Seq::new(self.constraints@.len(), |i: int| self.constraints@[i]@),
        }
    }
}

impl ConstraintSystem {
    /// A system that asks for the value of every variable, as a prover does.
    pub fn new() -> (r: ConstraintSystem)
        ensures
            r@ == (SystemView {
                evaluates: true,
                path: Seq::empty(),
                aux: Seq::empty(),
                constraints: Seq::empty(),
            }),
    {
        ConstraintSystem {
            evaluates: true,
            path: Vec::new(),
            aux: Vec::new(),
            constraints: Vec::new(),
        }
    }

    /// A system that asks for no values, as the generation of keys does.
    pub fn shape_only() -> (r: ConstraintSystem)
        ensures
            r@ == (SystemView {
                evaluates: false,
                path: Seq::empty(),
                aux: Seq::empty(),
                constraints: Seq::empty(),
            }),
    {
        ConstraintSystem {
            evaluates: false,
            path: Vec::new(),
            aux: Vec::new(),
            constraints: Vec::new(),
        }
    }

    /// Opens a namespace.
    pub fn push_namespace(&mut self, name: String)
        ensures
            final(self)@ == old(self)@.within(name@),
    {
        self.path.push(name);
    }

    /// Closes the innermost namespace.
    pub fn pop_namespace(&mut self)
        requires
            old(self)@.path.len() > 0,
        ensures
            final(self)@ == old(self)@.without(),
    {
        let _ = self.path.pop();
    }

    /// The name of an annotation within the open namespaces.
    fn path_to(&self, name: &str) -> (r: Vec<String>)
        ensures
            texts(r@) == self@.path.push(name@),
    {
        let mut r: Vec<String> = Vec::new();
        for i in 0..self.path.len()
            invariant
                r@.len() == i,
                forall|j: int| 0 <= j < i ==> (#[trigger] r@[j])@ == self.path@[j]@,
        {
            r.push(self.path[i].clone());
        }
        r.push(name.to_owned());
        r
    }

    /// Allocates an auxiliary variable.
    pub fn allocate(&mut self, name: &str, value: Option<Fr>) -> (r: Result<Variable, SynthesisError>)
        ensures
            old(self)@.lacks(opt_value(value)) ==> r == Err::<Variable, SynthesisError>(
                SynthesisError::AssignmentMissing,
            ) && final(self)@ == old(self)@,
            !old(self)@.lacks(opt_value(value)) ==> r == Ok::<Variable, SynthesisError>(
                old(self)@.fresh(0),
            ) && final(self)@ == old(self)@.grown(
                seq![old(self)@.allocation(seq![name@], opt_value(value))],
                Seq::empty(),
            ),
    {
        if self.evaluates && value.is_none() {
            return Err(SynthesisError::AssignmentMissing);
        }
        let path = self.path_to(name);
        let kept = if self.evaluates {
            value
        } else {
            None
        };
        let index: usize = self.aux.len();
        assert(texts(path@) =~= self@.path + seq![name@]);
        self.aux.push(Allocation { path, value: kept });
        proof {
            let grown = old(self)@.grown(
                seq![old(self)@.allocation(seq![name@], opt_value(value))],
                Seq::empty(),
            );
            assert(self@.aux =~= grown.aux);
            assert(self@.constraints =~= grown.constraints);
        }
        Ok(Variable::Aux(index))
    }

    /// Puts the constraint `a * b = c`.
    pub fn enforce(
        &mut self,
        name: &str,
        a: LinearCombination,
        b: LinearCombination,
        c: LinearCombination,
    )
        ensures
            final(self)@ == old(self)@.grown(
                Seq::empty(),
                seq![old(self)@.constraint(seq![name@], a@, b@, c@)],
            ),
    {
        let path = self.path_to(name);
        assert(texts(path@) =~= self@.path + seq![name@]);
        self.constraints.push(Constraint { path, a, b, c });
        proof {
            let grown = old(self)@.grown(
                Seq::empty(),
                seq![old(self)@.constraint(seq![name@], a@, b@, c@)],
            );
            assert(self@.aux =~= grown.aux);
            assert(self@.constraints =~= grown.constraints);
        }
    }

    /// Whether the values of variables are asked for.
    pub fn evaluates(&self) -> (r: bool)
        ensures
            r == self@.evaluates,
    {
        self.evaluates
    }

    /// The number of constraints.
    pub fn num_constraints(&self) -> (r: usize)
        ensures
            r == self@.constraints.len(),
    {
        self.constraints.len()
    }

    /// The auxiliary variables, by their index.
    pub fn allocations(&self) -> (r: &Vec<Allocation>)
        ensures
            r@.len() == self@.aux.len(),
            forall|i: int| 0 <= i < r@.len() ==> (#[trigger] r@[i])@ == self@.aux[i],
    {
        &self.aux
    }

    /// The constraints, in the order in which they came.
    pub fn constraints(&self) -> (r: &Vec<Constraint>)
        ensures
            r@.len() == self@.constraints.len(),
            forall|i: int| 0 <= i < r@.len() ==> (#[trigger] r@[i])@ == self@.constraints[i],
    {
        &self.constraints
    }

    /// The value of a variable, where it is known.
    pub fn value_of(&self, var: Variable) -> (r: Option<Fr>)
        ensures
            r is Some <==> self@.assigned(var),
            r matches Some(v) ==> v@ == (self@.assignment())(var),
    {
        match var {
            Variable::Input(i) => if i == 0 {
                Some(Fr::one())
            } else {
                None
            },
            Variable::Aux(i) => if i < self.aux.len() {
                self.aux[i].value
            } else {
                None
            },
        }
    }

    /// The value of a linear combination, where those of all its variables are
    /// known.
    pub fn eval(&self, lc: &LinearCombination) -> (r: Option<Fr>)
        ensures
            r is Some <==> self@.covers(lc@),
            r matches Some(v) ==> v@ == eval(lc@, self@.assignment()),
    {
        let terms = lc.terms();
        let mut sum = Fr::zero();
        for i in 0..terms.len()
            invariant
                terms@.len() == lc@.len(),
                forall|j: int|
                    0 <= j < terms@.len() ==> (#[trigger] terms@[j]).0 == lc@[j].0 && terms@[j].1@
                        == lc@[j].1,
                self@.covers(lc@.take(i as int)),
                sum@ == eval(lc@.take(i as int), self@.assignment()),
        {
            let (var, coeff) = terms[i];
            assert(lc@.take(i + 1).drop_last() =~= lc@.take(i as int));
            match self.value_of(var) {
                Some(v) => {
                    let mut term = coeff;
                    term.mul_assign(&v);
                    let ghost before = sum@;
                    sum.add_assign(&term);
                    proof {
                        vstd::arithmetic::div_mod::lemma_add_mod_noop_right(
                            before,
                            coeff@ * v@,
                            crate::fr::modulus(),
                        );
                    }
                },
                None => {
                    assert(terms@[i as int].0 == lc@[i as int].0);
                    return None;
                },
            }
        }
        assert(lc@.take(lc@.len() as int) =~= lc@);
        Some(sum)
    }

    /// Whether a constraint is met by the recorded values.
    fn check(&self, i: usize) -> (r: bool)
        requires
            i < self@.constraints.len(),
        ensures
            r == self@.meets(self@.constraints[i as int]),
    {
        let constraint = &self.constraints[i];
        assert(constraint@ == self@.constraints[i as int]);
        match (self.eval(&constraint.a), self.eval(&constraint.b), self.eval(&constraint.c)) {
            (Some(a), Some(b), Some(c)) => {
                let mut ab = a;
                ab.mul_assign(&b);
                ab == c
            },
            _ => false,
        }
    }

    /// The name of the first constraint that the recorded values do not satisfy,
    /// or of one of whose variables the value is not known.
    pub fn which_is_unsatisfied(&self) -> (r: Option<String>)
        ensures
            r is None <==> self@.satisfied(),
            r matches Some(name) ==> exists|i: int|
                {
                    &&& 0 <= i < self@.constraints.len()
                    &&& !self@.meets(#[trigger] self@.constraints[i])
                    &&& forall|j: int| 0 <= j < i ==> self@.meets(#[trigger] self@.constraints[j])
                    &&& name@ == joined(self@.constraints[i].path)
                },
    {
        for i in 0..self.constraints.len()
            invariant
                self.constraints@.len() == self@.constraints.len(),
                forall|j: int| 0 <= j < i ==> self@.meets(#[trigger] self@.constraints[j]),
        {
            if !self.check(i) {
                let name = join(&self.constraints[i].path);
                assert(self.constraints@[i as int]@ == self@.constraints[i as int]);
                return Some(name);
            }
        }
        None
    }

    /// Whether the recorded values satisfy every constraint.
    pub fn is_satisfied(&self) -> (r: bool)
        ensures
            r == self@.satisfied(),
    {
        self.which_is_unsatisfied().is_none()
    }
}

/// What is recorded within a namespace carries its name.
pub proof fn lemma_nested(cs: SystemView, name: Seq<char>, names: Path)
    ensures
        cs.within(name).path + names == cs.path + (seq![name] + names),
{
    assert(cs.within(name).path + names =~= cs.path + (seq![name] + names));
}

/// A namespace that is closed again leaves what was recorded within it.
pub proof fn lemma_unnested(
    cs: SystemView,
    name: Seq<char>,
    aux: Seq<AllocationView>,
    constraints: Seq<ConstraintView>,
)
    ensures
        cs.within(name).grown(aux, constraints).without() == cs.grown(aux, constraints),
        cs.within(name).without() == cs,
{
    assert(cs.path.push(name).drop_last() =~= cs.path);
}

/// The strings with a slash between each and the next.
fn join(names: &Vec<String>) -> (r: String)
    ensures
        r@ == joined(texts(names@)),
{
    let mut r = String::new();
    for i in 0..names.len()
        invariant
            r@ == joined(texts(names@).take(i as int)),
    {
        let ghost all = texts(names@);
        assert(all.take(i + 1).drop_last() =~= all.take(i as int));
        if i > 0 {
            r = r.concat("/");
        }
        r = r.concat(names[i].as_str());
        assert(r@ =~= joined(all.take(i + 1)));
    }
    assert(texts(names@).take(names@.len() as int) =~= texts(names@));
    r
}

} // verus!
