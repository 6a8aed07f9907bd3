//! Type expressions: variables and named constructors applied to arguments.
use vstd::prelude::*;

verus! {

broadcast use vstd::std_specs::vec::group_vec_axioms;

/// A type variable, identified by a non-negative integer.
pub type Variable = u64;

/// A type expression.
#[derive(Debug, PartialEq, Eq)]
pub enum Type {
    /// A named constructor applied to an ordered list of argument types.
    Constructed(String, Vec<Type>),
    /// A type variable.
    Variable(Variable),
}

/// A possibly quantified type.
#[derive(Debug, PartialEq, Eq)]
pub enum TypeSchema {
    /// A type without quantification.
    Monotype(Type),
    /// A variable universally quantified over a body.
    Polytype { variable: Variable, body: Box<TypeSchema> },
}

/// The mathematical value of a [`Type`].
pub enum Term {
    Var(u64),
    Con(Seq<char>, Seq<Term>),
}

/// The mathematical value of a [`TypeSchema`].
pub enum Schema {
    Mono(Term),
    Poly(u64, Box<Schema>),
}

pub open spec fn view_of(t: Type) -> Term
    decreases t,
{
    match t {
        Type::Variable(v) => Term::Var(v),
        Type::Constructed(n, args) => Term::Con(
            n@,
            Seq::new(
                args.len() as nat,
                |i: int|
                    if 0 <= i < args.len() {
                        view_of(args[i])
                    } else {
                        Term::Var(0)
                    },
            ),
        ),
    }
}

pub open spec fn schema_of(s: TypeSchema) -> Schema
    decreases s,
{
    match s {
        TypeSchema::Monotype(t) => Schema::Mono(view_of(t)),
        TypeSchema::Polytype { variable, body } => Schema::Poly(variable, Box::new(schema_of(*body))),
    }
}

impl View for Type {
    type V = Term;

    open spec fn view(&self) -> Term {
        view_of(*self)
    }
}

impl View for TypeSchema {
    type V = Schema;

    open spec fn view(&self) -> Schema {
        schema_of(*self)
    }
}

/// Whether variable `v` appears in `t`.
pub open spec fn occurs_in(v: u64, t: Term) -> bool
    decreases t,
{
    match t {
        Term::Var(u) => u == v,
        Term::Con(_, args) => exists|i: int| 0 <= i < args.len() && occurs_in(v, #[trigger] args[i]),
    }
}

/// Every variable of `t` is below `bound`.
pub open spec fn vars_below(t: Term, bound: int) -> bool
    decreases t,
{
    match t {
        Term::Var(u) => u < bound,
        Term::Con(_, args) => forall|i: int| 0 <= i < args.len() ==> vars_below(#[trigger] args[i], bound),
    }
}

/// A type is valid when each of its variables has a successor id.
pub open spec fn valid_term(t: Term) -> bool {
    vars_below(t, u64::MAX as int)
}

impl Type {
    /// A deep copy.
    #[verifier::loop_isolation(false)]
    pub fn duplicate(&self) -> (r: Type)
        ensures
            r@ == self@,
        decreases self,
    {
        match self {
            Type::Variable(v) => Type::Variable(*v),
            Type::Constructed(n, args) => {
                let mut out: Vec<Type> = Vec::new();
                let mut i: usize = 0;
                while i < args.len()
                    invariant
                        i <= args.len(),
                        out@.len() == i,
                        forall|j: int| 0 <= j < i ==> #[trigger] out@[j]@ == args@[j]@,
                    decreases args.len() - i,
                {
                    out.push(args[i].duplicate());
                    i += 1;
                }
                let r = Type::Constructed(n.clone(), out);
                assert(r@ == self@) by {
                    let a = view_of(r)->Con_1;
                    let b = view_of(*self)->Con_1;
                    assert forall|j: int| 0 <= j < a.len() implies a[j] == b[j] by {
                        assert(out@[j]@ == args@[j]@);
                    }
                    assert(a =~= b);
                }
                r
            }
        }
    }

    /// Structural equality of two types.
    #[verifier::loop_isolation(false)]
    pub fn same(&self, other: &Type) -> (r: bool)
        ensures
            r == (self@ == other@),
        decreases self,
    {
        match (self, other) {
            (Type::Variable(a), Type::Variable(b)) => *a == *b,
            (Type::Constructed(n1, a1), Type::Constructed(n2, a2)) => {
                if !n1.eq(n2) || a1.len() != a2.len() {
                    proof {
                        if self@ == other@ {
                            assert(view_of(*self)->Con_1.len() == view_of(*other)->Con_1.len());
                        }
                    }
                    return false;
                }
                let mut i: usize = 0;
                while i < a1.len()
                    invariant
                        i <= a1.len(),
                        a1.len() == a2.len(),
                        forall|j: int| 0 <= j < i ==> #[trigger] a1@[j]@ == a2@[j]@,
                    decreases a1.len() - i,
                {
                    if !a1[i].same(&a2[i]) {
                        proof {
                            if self@ == other@ {
                                assert(view_of(*self)->Con_1[i as int] == view_of(*other)->Con_1[i as int]);
                            }
                        }
                        return false;
                    }
                    i += 1;
                }
                proof {
                    let a = view_of(*self)->Con_1;
                    let b = view_of(*other)->Con_1;
                    assert forall|j: int| 0 <= j < a.len() implies a[j] == b[j] by {
                        assert(a1@[j]@ == a2@[j]@);
                    }
                    assert(a =~= b);
                }
                true
            }
            _ => false,
        }
    }

    /// Whether variable `v` appears in this type.
    #[verifier::loop_isolation(false)]
    pub fn occurs(&self, v: Variable) -> (r: bool)
        ensures
            r == occurs_in(v, self@),
        decreases self,
    {
        match self {
            Type::Variable(u) => *u == v,
            Type::Constructed(_, args) => {
                let ghost vs = self@->Con_1;
                let mut i: usize = 0;
                while i < args.len()
                    invariant
                        i <= args.len(),
                        vs.len() == args.len(),
                        forall|j: int| 0 <= j < args.len() ==> vs[j] == #[trigger] args@[j]@,
                        forall|j: int| 0 <= j < i ==> !occurs_in(v, #[trigger] vs[j]),
                    decreases args.len() - i,
                {
                    if args[i].occurs(v) {
                        assert(occurs_in(v, vs[i as int]));
                        return true;
                    }
                    i += 1;
                }
                false
            }
        }
    }
}

} // verus!
