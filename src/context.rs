//! The unification context: substitution store, fresh variables, unification,
//! confinement, merging and path compression.
use std::collections::HashMap;
use vstd::prelude::*;

use crate::types::{Term, Type, TypeSchema, Variable, Schema, occurs_in, vars_below, valid_term, view_of};

verus! {

broadcast use vstd::std_specs::hash::group_hash_axioms, vstd::std_specs::vec::group_vec_axioms;

/// Why two types do not unify.
#[derive(Debug, PartialEq, Eq)]
pub enum UnificationError {
    /// Binding the variable would create an infinite type.
    Occurs(Variable),
    /// Two constructed types with different symbols.
    Failure(Type, Type),
}

/// The mathematical value of a [`UnificationError`].
pub enum Fault {
    Occurs(u64),
    Failure(Term, Term),
}

impl View for UnificationError {
    type V = Fault;

    open spec fn view(&self) -> Fault {
        match *self {
            UnificationError::Occurs(v) => Fault::Occurs(v),
            UnificationError::Failure(a, b) => Fault::Failure(a@, b@),
        }
    }
}

/// The outcome of a unification, as a value.
pub open spec fn outcome(r: Result<(), UnificationError>) -> Result<(), Fault> {
    match r {
        Ok(()) => Ok(()),
        Err(e) => Err(e@),
    }
}

/// A store of bindings together with the next fresh variable id.
pub type Store = (Map<u64, Term>, u64);

/// The bindings of a map of types, as terms.
pub open spec fn store_of(m: Map<u64, Type>) -> Map<u64, Term> {
    Map::new(|k: u64| m.contains_key(k), |k: u64| m[k]@)
}

/// `t` with its variables replaced by their bindings in `s`, following at most
/// `fuel` bindings along any path.
pub open spec fn resolve(s: Map<u64, Term>, t: Term, fuel: nat) -> Term
    decreases fuel, t,
{
    match t {
        Term::Var(v) => if s.contains_key(v) && fuel > 0 {
            resolve(s, s[v], (fuel - 1) as nat)
        } else {
            t
        },
        Term::Con(n, args) => Term::Con(
            n,
            Seq::new(
                args.len(),
                |i: int|
                    if 0 <= i < args.len() {
                        resolve(s, args[i], fuel)
                    } else {
                        Term::Var(0)
                    },
            ),
        ),
    }
}

/// `t` resolved against `s`, following up to as many bindings as `s` holds:
/// every binding once along any path, which reaches the end of every chain in
/// a store without cycles.
pub open spec fn applied(s: Map<u64, Term>, t: Term) -> Term {
    resolve(s, t, s.dom().len())
}

/// The store after binding `v` to `t`: the watermark moves past `v`.
pub open spec fn bind(c: Store, v: u64, t: Term) -> Store {
    (c.0.insert(v, t), if v >= c.1 { (v + 1) as u64 } else { c.1 })
}

/// A type environment: a substitution from variables to types and a generator of
/// fresh variables.
#[derive(Debug)]
pub struct Context {
    substitution: HashMap<Variable, Type>,
    keys: Vec<Variable>,
    next: Variable,
}


/// The outcome of unifying `t1` with `t2` against store `c`, and the store
/// afterwards (which keeps the bindings made before a failure). `depth` bounds
/// the nesting of constructor arguments that are followed.
pub open spec fn unify_step(c: Store, t1: Term, t2: Term, depth: nat) -> (Result<(), Fault>, Store)
    decreases depth, 0nat,
{
    if t1 == t2 {
        (Ok(()), c)
    } else {
        match (t1, t2) {
            (Term::Var(v), _) => if occurs_in(v, t2) {
                (Err(Fault::Occurs(v)), c)
            } else {
                (Ok(()), bind(c, v, t2))
            },
            (_, Term::Var(v)) => if occurs_in(v, t1) {
                (Err(Fault::Occurs(v)), c)
            } else {
                (Ok(()), bind(c, v, t1))
            },
            (Term::Con(n1, a1), Term::Con(n2, a2)) => if n1 != n2 || depth == 0 {
                (Err(Fault::Failure(t1, t2)), c)
            } else {
                unify_args(c, a1, a2, 0, (depth - 1) as nat)
            },
        }
    }
}

/// Unifies the argument pairs from index `i` on, left to right, each pair
/// resolved against the store as the earlier pairs left it.
pub open spec fn unify_args(c: Store, a1: Seq<Term>, a2: Seq<Term>, i: nat, depth: nat) -> (Result<(), Fault>, Store)
    decreases depth, a1.len() + 1 - i,
{
    if i >= a1.len() || i >= a2.len() {
        (Ok(()), c)
    } else {
        let (r, c2) = unify_step(c, applied(c.0, a1[i as int]), applied(c.0, a2[i as int]), depth);
        match r {
            Ok(()) => unify_args(c2, a1, a2, i + 1, depth),
            Err(e) => (Err(e), c2),
        }
    }
}

/// The bound on argument nesting used by the unification entry points.
pub open spec fn depth_bound() -> nat {
    u64::MAX as nat
}

/// Unifying `t1` with `t2` in store `c`: both are first resolved against `c`.
pub open spec fn unification(c: Store, t1: Term, t2: Term) -> (Result<(), Fault>, Store) {
    unify_step(c, applied(c.0, t1), applied(c.0, t2), depth_bound())
}

/// Resolving a valid type against a store of valid types gives a valid type.
pub proof fn lemma_resolve_valid(s: Map<u64, Term>, t: Term, fuel: nat)
    requires
        valid_term(t),
        forall|k: u64| #[trigger] s.contains_key(k) ==> valid_term(s[k]),
    ensures
        valid_term(resolve(s, t, fuel)),
    decreases fuel, t,
{
    match t {
        Term::Var(v) => {
            if s.contains_key(v) && fuel > 0 {
                lemma_resolve_valid(s, s[v], (fuel - 1) as nat);
            }
        },
        Term::Con(n, args) => {
            let r = resolve(s, t, fuel);
            assert forall|i: int| 0 <= i < args.len() implies vars_below(#[trigger] r->Con_1[i], u64::MAX as int) by {
                assert(vars_below(args[i], u64::MAX as int));
                lemma_resolve_valid(s, args[i], fuel);
            }
        },
    }
}

/// The id that variable `n` of an absorbed context has after a merge.
pub open spec fn shift(n: u64, delta: u64, sacreds: Seq<u64>) -> u64 {
    if sacreds.contains(n) {
        n
    } else {
        (n + delta) as u64
    }
}

/// `t` with each variable renamed by [`shift`].
pub open spec fn reify(t: Term, delta: u64, sacreds: Seq<u64>) -> Term
    decreases t,
{
    match t {
        Term::Var(n) => Term::Var(shift(n, delta, sacreds)),
        Term::Con(n, args) => Term::Con(
            n,
            Seq::new(
                args.len(),
                |i: int|
                    if 0 <= i < args.len() {
                        reify(args[i], delta, sacreds)
                    } else {
                        Term::Var(0)
                    },
            ),
        ),
    }
}

/// `s` with its binder and every variable renamed by [`shift`].
pub open spec fn reify_schema(s: Schema, delta: u64, sacreds: Seq<u64>) -> Schema
    decreases s,
{
    match s {
        Schema::Mono(t) => Schema::Mono(reify(t, delta, sacreds)),
        Schema::Poly(v, body) => Schema::Poly(shift(v, delta, sacreds), Box::new(reify_schema(*body, delta, sacreds))),
    }
}

/// Every variable of `s`, binders included, is below `bound`.
pub open spec fn schema_vars_below(s: Schema, bound: int) -> bool
    decreases s,
{
    match s {
        Schema::Mono(t) => vars_below(t, bound),
        Schema::Poly(v, body) => v < bound && schema_vars_below(*body, bound),
    }
}

/// The variable of the absorbed store whose binding lands on `k` in a merge.
pub open spec fn origin(k: u64, o: Map<u64, Term>, delta: u64, sacreds: Seq<u64>) -> Option<u64> {
    if sacreds.contains(k) && o.contains_key(k) {
        Some(k)
    } else if k >= delta && !sacreds.contains((k - delta) as u64) && o.contains_key((k - delta) as u64) {
        Some((k - delta) as u64)
    } else {
        None
    }
}

/// The bindings of `s` after absorbing the bindings `o` of another context:
/// each key of `o` is shifted, its type reified, and it replaces any binding
/// of `s` at that key.
pub open spec fn merged(s: Map<u64, Term>, o: Map<u64, Term>, delta: u64, sacreds: Seq<u64>) -> Map<u64, Term> {
    Map::new(
        |k: u64| s.contains_key(k) || origin(k, o, delta, sacreds) is Some,
        |k: u64|
            match origin(k, o, delta, sacreds) {
                Some(j) => reify(o[j], delta, sacreds),
                None => s[k],
            },
    )
}

/// Renaming a valid type keeps it valid when its variables leave room for the shift.
pub proof fn lemma_reify_bounded(t: Term, delta: u64, sacreds: Seq<u64>)
    requires
        vars_below(t, u64::MAX - delta),
    ensures
        valid_term(reify(t, delta, sacreds)),
    decreases t,
{
    if let Term::Con(n, args) = t {
        let r = reify(t, delta, sacreds);
        assert forall|i: int| 0 <= i < args.len() implies vars_below(#[trigger] r->Con_1[i], u64::MAX as int) by {
            assert(vars_below(args[i], u64::MAX - delta));
            lemma_reify_bounded(args[i], delta, sacreds);
        }
    }
}


/// Follows the chain of variable bindings from `t`, at most `fuel` of them, to
/// the first type that is not a variable; `None` where the chain stops at an
/// unbound variable or runs out of fuel.
pub open spec fn chase(s: Map<u64, Term>, t: Term, fuel: nat) -> Option<Term>
    decreases fuel,
{
    match t {
        Term::Var(u) => if fuel > 0 && s.contains_key(u) {
            chase(s, s[u], (fuel - 1) as nat)
        } else {
            None
        },
        _ => Some(t),
    }
}

/// Every binding of `s` reaches a constructed type within as many steps as
/// `s` has bindings.
pub open spec fn chains_end(s: Map<u64, Term>) -> bool {
    forall|k: u64| #[trigger] s.contains_key(k) ==> chase(s, s[k], s.dom().len()) is Some
}

/// The end of a chain in a store of valid types is valid.
pub proof fn lemma_chase_valid(s: Map<u64, Term>, t: Term, fuel: nat)
    requires
        valid_term(t),
        forall|k: u64| #[trigger] s.contains_key(k) ==> valid_term(s[k]),
        chase(s, t, fuel) is Some,
    ensures
        valid_term(chase(s, t, fuel)->0),
    decreases fuel,
{
    if let Term::Var(u) = t {
        lemma_chase_valid(s, s[u], (fuel - 1) as nat);
    }
}

/// Each binding of `s` replaced by the end of its chain.
pub open spec fn compressed(s: Map<u64, Term>) -> Map<u64, Term> {
    Map::new(|k: u64| s.contains_key(k), |k: u64| chase(s, s[k], s.dom().len())->0)
}


/// Every type bound in `s` is valid.
pub open spec fn valid_store(s: Map<u64, Term>) -> bool {
    forall|k: u64| #[trigger] s.contains_key(k) ==> valid_term(s[k])
}

/// A unification of valid types, successful or not, keeps every bound variable
/// bound, never lowers the watermark, and binds only valid types.
pub proof fn lemma_unify_grows(c: Store, t1: Term, t2: Term, depth: nat)
    requires
        valid_store(c.0),
        valid_term(t1),
        valid_term(t2),
    ensures
        c.0.dom().subset_of(unify_step(c, t1, t2, depth).1.0.dom()),
        unify_step(c, t1, t2, depth).1.1 >= c.1,
        valid_store(unify_step(c, t1, t2, depth).1.0),
    decreases depth, 0nat,
{
    if t1 != t2 {
        if let (Term::Con(n1, a1), Term::Con(n2, a2)) = (t1, t2) {
            if n1 == n2 && depth > 0 {
                lemma_unify_args_grows(c, a1, a2, 0, (depth - 1) as nat);
            }
        }
    }
}

/// [`lemma_unify_grows`] for the argument pairs from index `i` on.
pub proof fn lemma_unify_args_grows(c: Store, a1: Seq<Term>, a2: Seq<Term>, i: nat, depth: nat)
    requires
        valid_store(c.0),
        forall|j: int| 0 <= j < a1.len() ==> valid_term(#[trigger] a1[j]),
        forall|j: int| 0 <= j < a2.len() ==> valid_term(#[trigger] a2[j]),
    ensures
        c.0.dom().subset_of(unify_args(c, a1, a2, i, depth).1.0.dom()),
        unify_args(c, a1, a2, i, depth).1.1 >= c.1,
        valid_store(unify_args(c, a1, a2, i, depth).1.0),
    decreases depth, a1.len() + 1 - i,
{
    if !(i >= a1.len() || i >= a2.len()) {
        let r1 = applied(c.0, a1[i as int]);
        let r2 = applied(c.0, a2[i as int]);
        lemma_resolve_valid(c.0, a1[i as int], c.0.dom().len());
        lemma_resolve_valid(c.0, a2[i as int], c.0.dom().len());
        lemma_unify_grows(c, r1, r2, depth);
        let (r, c2) = unify_step(c, r1, r2, depth);
        if r is Ok {
            lemma_unify_args_grows(c2, a1, a2, i + 1, depth);
        }
    }
}

/// Unifying a type with itself succeeds and binds nothing.
pub proof fn lemma_unify_self(c: Store, t: Term)
    ensures
        unification(c, t, t) == (Ok::<(), Fault>(()), c),
{
}

/// Unifying an unbound variable `v` with a type `t` whose resolution is not `v`
/// itself succeeds exactly when `v` does not occur in that resolution, and then
/// binds `v` to it; otherwise it fails with `Occurs(v)` and binds nothing.
pub proof fn lemma_unify_variable(c: Store, v: u64, t: Term)
    requires
        !c.0.contains_key(v),
        applied(c.0, t) != Term::Var(v),
    ensures
        ({
            let tt = applied(c.0, t);
            let (r, c2) = unification(c, Term::Var(v), t);
            &&& (r is Ok <==> !occurs_in(v, tt))
            &&& r is Ok ==> c2 == bind(c, v, tt)
            &&& r is Err ==> r == Err::<(), Fault>(Fault::Occurs(v)) && c2 == c
        }),
{
    assert(applied(c.0, Term::Var(v)) == Term::Var(v));
}

/// Two constructed types with different symbols fail to unify with `Failure`
/// carrying exactly those two types, and bind nothing.
pub proof fn lemma_unify_clash(c: Store, n1: Seq<char>, a1: Seq<Term>, n2: Seq<char>, a2: Seq<Term>, depth: nat)
    requires
        n1 != n2,
    ensures
        unify_step(c, Term::Con(n1, a1), Term::Con(n2, a2), depth)
            == (Err::<(), Fault>(Fault::Failure(Term::Con(n1, a1), Term::Con(n2, a2))), c),
        unification(c, Term::Con(n1, a1), Term::Con(n2, a2)).0
            == Err::<(), Fault>(Fault::Failure(applied(c.0, Term::Con(n1, a1)), applied(c.0, Term::Con(n2, a2)))),
{
    let x = applied(c.0, Term::Con(n1, a1));
    let y = applied(c.0, Term::Con(n2, a2));
    assert(x->Con_0 == n1 && y->Con_0 == n2);
}

/// After a merge, a type of the absorbed context, once renamed, resolves under
/// the merged bindings to the renaming of what it resolved to under the
/// absorbed bindings, for every bound on the chains followed. Sacred ids are
/// never shifted.
pub proof fn lemma_merge_preserves_meaning(
    s: Map<u64, Term>,
    o: Map<u64, Term>,
    delta: u64,
    sacreds: Seq<u64>,
    t: Term,
    fuel: nat,
)
    requires
        forall|k: u64| #[trigger] s.contains_key(k) ==> k < delta,
        forall|k: u64| #[trigger] o.contains_key(k) ==> vars_below(o[k], u64::MAX - delta),
        forall|x: u64| #[trigger] sacreds.contains(x) ==> x < delta && (s.contains_key(x) ==> o.contains_key(x)),
        vars_below(t, u64::MAX - delta),
    ensures
        resolve(merged(s, o, delta, sacreds), reify(t, delta, sacreds), fuel)
            == reify(resolve(o, t, fuel), delta, sacreds),
        forall|x: u64| sacreds.contains(x) ==> shift(x, delta, sacreds) == x,
    decreases fuel, t,
{
    let m = merged(s, o, delta, sacreds);
    match t {
        Term::Var(n) => {
            if sacreds.contains(n) {
                if o.contains_key(n) && fuel > 0 {
                    assert(origin(n, o, delta, sacreds) == Some(n));
                    lemma_merge_preserves_meaning(s, o, delta, sacreds, o[n], (fuel - 1) as nat);
                } else if !o.contains_key(n) {
                    assert(!m.contains_key(n));
                }
            } else {
                let k = (n + delta) as u64;
                assert(!sacreds.contains(k));
                assert(!s.contains_key(k));
                if o.contains_key(n) && fuel > 0 {
                    assert(origin(k, o, delta, sacreds) == Some(n));
                    lemma_merge_preserves_meaning(s, o, delta, sacreds, o[n], (fuel - 1) as nat);
                } else if !o.contains_key(n) {
                    assert(origin(k, o, delta, sacreds) is None);
                    assert(!m.contains_key(k));
                }
            }
        },
        Term::Con(name, args) => {
            let l = resolve(m, reify(t, delta, sacreds), fuel);
            let r = reify(resolve(o, t, fuel), delta, sacreds);
            assert forall|i: int| 0 <= i < args.len() implies l->Con_1[i] == r->Con_1[i] by {
                assert(vars_below(args[i], u64::MAX - delta));
                lemma_merge_preserves_meaning(s, o, delta, sacreds, args[i], fuel);
            }
            assert(l->Con_1 =~= r->Con_1);
        },
    }
}

/// Confining to a list of distinct bound variables keeps exactly that many
/// bindings, each unchanged.
pub proof fn lemma_confine_keeps(s: Map<u64, Term>, keep: Seq<u64>)
    requires
        keep.no_duplicates(),
        forall|i: int| 0 <= i < keep.len() ==> s.contains_key(#[trigger] keep[i]),
    ensures
        s.restrict(keep.to_set()).len() == keep.len(),
        forall|i: int| 0 <= i < keep.len() ==> #[trigger] s.restrict(keep.to_set())[keep[i]] == s[keep[i]],
{
    assert forall|x: u64| keep.to_set().contains(x) implies s.contains_key(x) by {
        assert(keep.contains(x));
        let j = choose|j: int| 0 <= j < keep.len() && keep[j] == x;
    }
    assert(s.restrict(keep.to_set()).dom() =~= keep.to_set());
    keep.unique_seq_to_set();
}

/// The end of a chain is never a variable.
pub proof fn lemma_chase_ends_constructed(s: Map<u64, Term>, t: Term, fuel: nat)
    requires
        chase(s, t, fuel) is Some,
    ensures
        chase(s, t, fuel)->0 is Con,
    decreases fuel,
{
    if let Term::Var(u) = t {
        lemma_chase_ends_constructed(s, s[u], (fuel - 1) as nat);
    }
}

/// Path compression keeps the bound variables and the type at the end of each
/// chain: after it, each binding is that type itself.
pub proof fn lemma_compressed_keeps_ends(s: Map<u64, Term>, fuel: nat)
    requires
        chains_end(s),
    ensures
        compressed(s).dom() == s.dom(),
        forall|k: u64| #[trigger] s.contains_key(k)
            ==> chase(compressed(s), compressed(s)[k], fuel) == chase(s, s[k], s.dom().len()),
{
    assert(compressed(s).dom() =~= s.dom());
    assert forall|k: u64| #[trigger] s.contains_key(k)
        implies chase(compressed(s), compressed(s)[k], fuel) == chase(s, s[k], s.dom().len()) by {
        lemma_chase_ends_constructed(s, s[k], s.dom().len());
    }
}

impl Context {
    /// The bindings, as terms.
    pub closed spec fn store(&self) -> Map<u64, Term> {
        store_of(self.substitution@)
    }

    /// The next fresh variable id.
    pub closed spec fn watermark(&self) -> u64 {
        self.next
    }

    /// The bindings and the watermark.
    pub open spec fn model(&self) -> Store {
        (self.store(), self.watermark())
    }

    /// Well-formedness: every bound variable lies below the watermark and every
    /// bound type is valid.
    pub closed spec fn wf(&self) -> bool {
        &&& forall|k: u64| self.keys@.contains(k) <==> self.substitution@.contains_key(k)
        &&& self.keys@.no_duplicates()
        &&& forall|k: u64| #[trigger] self.substitution@.contains_key(k) ==> k < self.next
        &&& forall|k: u64| #[trigger] self.substitution@.contains_key(k) ==> valid_term(self.substitution@[k]@)
    }

    /// What well-formedness tells of the bindings.
    pub proof fn lemma_wf(&self)
        requires
            self.wf(),
        ensures
            forall|k: u64| #[trigger] self.store().contains_key(k) ==> k < self.watermark() && valid_term(self.store()[k]),
            self.store().dom().finite(),
    {
        assert(self.store().dom() =~= self.substitution@.dom());
    }

    /// An empty context.
    pub fn new() -> (r: Context)
        ensures
            r.wf(),
            r.store() == Map::<u64, Term>::empty(),
            r.watermark() == 0,
    {
        let r = Context { substitution: HashMap::new(), keys: Vec::new(), next: 0 };
        assert(r.store() =~= Map::<u64, Term>::empty());
        r
    }

    /// The substitution managed by the context.
    pub fn substitution(&self) -> (r: &HashMap<Variable, Type>)
        ensures
            store_of(r@) == self.store(),
    {
        &self.substitution
    }

    /// Binds `v` to `t`, with the watermark left as it is.
    fn put(&mut self, v: Variable, t: Type)
        requires
            forall|k: u64| old(self).keys@.contains(k) <==> old(self).substitution@.contains_key(k),
            old(self).keys@.no_duplicates(),
        ensures
            forall|k: u64| final(self).keys@.contains(k) <==> final(self).substitution@.contains_key(k),
            final(self).keys@.no_duplicates(),
            final(self).substitution@ == old(self).substitution@.insert(v, t),
            final(self).store() == old(self).store().insert(v, t@),
            final(self).next == old(self).next,
    {
        if !self.substitution.contains_key(&v) {
            self.keys.push(v);
            proof {
                assert(!old(self).keys@.contains(v));
                assert forall|k: u64| self.keys@.contains(k) <==> old(self).keys@.contains(k) || k == v by {
                    if self.keys@.contains(k) {
                        let j = choose|j: int| 0 <= j < self.keys@.len() && self.keys@[j] == k;
                        if j < old(self).keys@.len() {
                            assert(old(self).keys@[j] == k);
                        }
                    }
                    if old(self).keys@.contains(k) {
                        let j = choose|j: int| 0 <= j < old(self).keys@.len() && old(self).keys@[j] == k;
                        assert(self.keys@[j] == k);
                    }
                    if k == v {
                        assert(self.keys@[old(self).keys@.len() as int] == k);
                    }
                }
            }
        }
        self.substitution.insert(v, t);
        assert(self.store() =~= old(self).store().insert(v, t@));
    }

    /// Binds variable `v` to `t`, replacing any earlier binding of `v`, and moves
    /// the watermark past `v`.
    pub fn extend(&mut self, v: Variable, t: Type)
        requires
            old(self).wf(),
            v < u64::MAX,
            valid_term(t@),
        ensures
            final(self).wf(),
            final(self).model() == bind(old(self).model(), v, t@),
    {
        if v >= self.next {
            self.next = v + 1;
        }
        self.put(v, t);
    }

    /// A fresh variable: the watermark, which then advances by one.
    pub fn new_variable(&mut self) -> (r: Type)
        requires
            old(self).wf(),
            old(self).watermark() < u64::MAX,
        ensures
            final(self).wf(),
            r@ == Term::Var(old(self).watermark()),
            final(self).store() == old(self).store(),
            final(self).watermark() == old(self).watermark() + 1,
    {
        self.next = self.next + 1;
        Type::Variable(self.next - 1)
    }

    /// `t` resolved against the bindings, following at most `fuel` bindings along
    /// any path.
    #[verifier::loop_isolation(false)]
    fn resolved(&self, t: &Type, fuel: usize) -> (r: Type)
        requires
            self.wf(),
        ensures
            r@ == resolve(self.store(), t@, fuel as nat),
        decreases fuel, t,
    {
        match t {
            Type::Variable(v) => {
                if fuel > 0 {
                    match self.substitution.get(v) {
                        Some(b) => self.resolved(b, fuel - 1),
                        None => Type::Variable(*v),
                    }
                } else {
                    Type::Variable(*v)
                }
            },
            Type::Constructed(n, args) => {
                let mut out: Vec<Type> = Vec::new();
                let mut i: usize = 0;
                while i < args.len()
                    invariant
                        i <= args.len(),
                        out@.len() == i,
                        forall|j: int| 0 <= j < i ==> #[trigger] out@[j]@ == resolve(self.store(), args@[j]@, fuel as nat),
                    decreases args.len() - i,
                {
                    out.push(self.resolved(&args[i], fuel));
                    i += 1;
                }
                let r = Type::Constructed(n.clone(), out);
                assert(r@ == resolve(self.store(), t@, fuel as nat)) by {
                    let a = view_of(r)->Con_1;
                    let b = resolve(self.store(), t@, fuel as nat)->Con_1;
                    assert forall|j: int| 0 <= j < a.len() implies a[j] == b[j] by {
                        assert(out@[j]@ == resolve(self.store(), args@[j]@, fuel as nat));
                    }
                    assert(a =~= b);
                }
                r
            },
        }
    }

    /// `t` resolved against all the bindings.
    fn applied_to(&self, t: &Type) -> (r: Type)
        requires
            self.wf(),
        ensures
            r@ == applied(self.store(), t@),
    {
        assert(self.store().dom() =~= self.substitution@.dom());
        self.resolved(t, self.substitution.len())
    }

    /// Makes `t1` and `t2` unify, in place: after a failure the bindings made
    /// before it stay. `depth` bounds the nesting of argument pairs followed;
    /// the entry points pass the largest bound, deeper than any call stack.
    #[verifier::loop_isolation(false)]
    fn unify_internal(&mut self, t1: Type, t2: Type, depth: u64) -> (r: Result<(), UnificationError>)
        requires
            old(self).wf(),
            valid_term(t1@),
            valid_term(t2@),
        ensures
            final(self).wf(),
            (outcome(r), final(self).model()) == unify_step(old(self).model(), t1@, t2@, depth as nat),
        decreases depth, 0nat,
    {
        proof {
            self.lemma_wf();
        }
        if t1.same(&t2) {
            return Ok(());
        }
        match (t1, t2) {
            (Type::Variable(v), t2) => {
                if t2.occurs(v) {
                    Err(UnificationError::Occurs(v))
                } else {
                    self.extend(v, t2);
                    Ok(())
                }
            },
            (t1, Type::Variable(v)) => {
                if t1.occurs(v) {
                    Err(UnificationError::Occurs(v))
                } else {
                    self.extend(v, t1);
                    Ok(())
                }
            },
            (Type::Constructed(n1, a1), Type::Constructed(n2, a2)) => {
                let ghost t1v = Type::Constructed(n1, a1)@;
                let ghost t2v = Type::Constructed(n2, a2)@;
                if !n1.eq(&n2) || depth == 0 {
                    return Err(UnificationError::Failure(Type::Constructed(n1, a1), Type::Constructed(n2, a2)));
                }
                let ghost c0 = self.model();
                let ghost s1 = t1v->Con_1;
                let ghost s2 = t2v->Con_1;
                assert(unify_step(c0, t1v, t2v, depth as nat) == unify_args(c0, s1, s2, 0, (depth - 1) as nat));
                let mut i: usize = 0;
                while i < a1.len() && i < a2.len()
                    invariant
                        self.wf(),
                        s1.len() == a1.len(),
                        s2.len() == a2.len(),
                        forall|j: int| 0 <= j < a1.len() ==> #[trigger] a1@[j]@ == s1[j],
                        forall|j: int| 0 <= j < a2.len() ==> #[trigger] a2@[j]@ == s2[j],
                        forall|j: int| 0 <= j < s1.len() ==> valid_term(#[trigger] s1[j]),
                        forall|j: int| 0 <= j < s2.len() ==> valid_term(#[trigger] s2[j]),
                        unify_step(c0, t1v, t2v, depth as nat) == unify_args(self.model(), s1, s2, i as nat, (depth - 1) as nat),
                    decreases a1.len() - i,
                {
                    let x = self.applied_to(&a1[i]);
                    let y = self.applied_to(&a2[i]);
                    proof {
                        self.lemma_wf();
                        lemma_resolve_valid(self.store(), s1[i as int], self.store().dom().len());
                        lemma_resolve_valid(self.store(), s2[i as int], self.store().dom().len());
                    }
                    match self.unify_internal(x, y, depth - 1) {
                        Ok(()) => {},
                        Err(e) => {
                            return Err(e);
                        },
                    }
                    i += 1;
                }
                Ok(())
            },
        }
    }

    /// Makes `t1` and `t2` unify. Both are first resolved against the current
    /// bindings; the context changes only when unification succeeds.
    pub fn unify(&mut self, t1: &Type, t2: &Type) -> (r: Result<(), UnificationError>)
        requires
            old(self).wf(),
            valid_term(t1@),
            valid_term(t2@),
        ensures
            final(self).wf(),
            outcome(r) == unification(old(self).model(), t1@, t2@).0,
            r is Ok ==> final(self).model() == unification(old(self).model(), t1@, t2@).1,
            r is Err ==> *final(self) == *old(self),
    {
        proof {
            self.lemma_wf();
            lemma_resolve_valid(self.store(), t1@, self.store().dom().len());
            lemma_resolve_valid(self.store(), t2@, self.store().dom().len());
        }
        let x = self.applied_to(t1);
        let y = self.applied_to(t2);
        let mut ctx = self.duplicate();
        match ctx.unify_internal(x, y, u64::MAX) {
            Ok(()) => {
                *self = ctx;
                Ok(())
            },
            Err(e) => Err(e),
        }
    }

    /// Like [`Context::unify`], but works on the context in place: after a
    /// failure the bindings made before it stay. For callers that discard the
    /// context when unification fails.
    pub fn unify_fast(&mut self, t1: Type, t2: Type) -> (r: Result<(), UnificationError>)
        requires
            old(self).wf(),
            valid_term(t1@),
            valid_term(t2@),
        ensures
            final(self).wf(),
            (outcome(r), final(self).model()) == unification(old(self).model(), t1@, t2@),
    {
        proof {
            self.lemma_wf();
            lemma_resolve_valid(self.store(), t1@, self.store().dom().len());
            lemma_resolve_valid(self.store(), t2@, self.store().dom().len());
        }
        let x = self.applied_to(&t1);
        let y = self.applied_to(&t2);
        self.unify_internal(x, y, u64::MAX)
    }

    /// Absorbs `other`, a context built independently of this one. Each variable
    /// `n` of `other` becomes `n + delta`, where `delta` is this context's
    /// watermark, except the variables in `sacreds`, which are shared with this
    /// context and keep their ids; the types bound in `other` are renamed the
    /// same way. The watermark advances by `other`'s whole watermark. The
    /// returned [`ContextChange`] renames the types built under `other`.
    #[verifier::loop_isolation(false)]
    pub fn merge(&mut self, other: Context, sacreds: Vec<Variable>) -> (r: ContextChange)
        requires
            old(self).wf(),
            other.wf(),
            old(self).watermark() + other.watermark() <= u64::MAX,
            forall|i: int| 0 <= i < sacreds.len() ==> #[trigger] sacreds@[i] < old(self).watermark(),
            forall|k: u64| #[trigger] other.store().contains_key(k) ==> vars_below(other.store()[k], u64::MAX - old(self).watermark()),
        ensures
            final(self).wf(),
            r.delta() == old(self).watermark(),
            r.sacreds() == sacreds@,
            final(self).store() == merged(old(self).store(), other.store(), r.delta(), r.sacreds()),
            final(self).watermark() == old(self).watermark() + other.watermark(),
    {
        let delta = self.next;
        let ghost s0 = self.store();
        let ghost o = other.store();
        let ghost sac = sacreds@;
        let ghost mut done: Set<u64> = Set::empty();
        let change = ContextChange { delta, sacreds };
        proof {
            other.lemma_wf();
            self.lemma_wf();
            assert(self.store() =~= merged(s0, o.restrict(done), delta, sac));
        }
        let mut i: usize = 0;
        while i < other.keys.len()
            invariant
                i <= other.keys.len(),
                change.delta == delta,
                change.sacreds@ == sac,
                forall|k: u64| self.keys@.contains(k) <==> self.substitution@.contains_key(k),
                self.keys@.no_duplicates(),
                self.next == delta,
                forall|j: int| 0 <= j < i ==> done.contains(#[trigger] other.keys@[j]),
                forall|k: u64| #[trigger] done.contains(k) ==> o.contains_key(k),
                self.store() == merged(s0, o.restrict(done), delta, sac),
                forall|k: u64| #[trigger] self.substitution@.contains_key(k) ==> k < delta + other.next && valid_term(self.substitution@[k]@),
            decreases other.keys.len() - i,
        {
            let k = other.keys[i];
            assert(other.keys@.contains(k));
            let t = other.substitution.get(&k).unwrap();
            let key = if change.is_sacred(k) { k } else { k + delta };
            proof {
                assert(o.contains_key(k));
                assert(t@ == o[k]);
                lemma_reify_bounded(o[k], delta, sac);
            }
            let t2 = change.reified(t);
            self.put(key, t2);
            proof {
                let d2 = done.insert(k);
                let m = merged(s0, o.restrict(d2), delta, sac);
                assert forall|x: u64| #![auto] m.contains_key(x) == self.store().contains_key(x) && (m.contains_key(x) ==> m[x] == self.store()[x]) by {
                    if x != key {
                        assert(origin(x, o.restrict(d2), delta, sac) == origin(x, o.restrict(done), delta, sac));
                    } else {
                        assert(origin(x, o.restrict(d2), delta, sac) == Some(k));
                    }
                }
                assert(self.store() =~= m);
                done = d2;
            }
            i += 1;
        }
        self.next = self.next + other.next;
        proof {
            assert forall|k: u64| o.contains_key(k) implies done.contains(k) by {
                assert(other.keys@.contains(k));
                let j = choose|j: int| 0 <= j < other.keys@.len() && other.keys@[j] == k;
            }
            assert(o.restrict(done) =~= o);
        }
        change
    }

    /// Keeps only the bindings of the variables in `keep`.
    #[verifier::loop_isolation(false)]
    pub fn confine(&mut self, keep: &[Variable])
        requires
            old(self).wf(),
            forall|i: int| 0 <= i < keep@.len() ==> old(self).store().contains_key(#[trigger] keep@[i]),
        ensures
            final(self).wf(),
            final(self).store() == old(self).store().restrict(keep@.to_set()),
            final(self).watermark() == old(self).watermark(),
    {
        let ghost s0 = self.store();
        let mut r = Context { substitution: HashMap::new(), keys: Vec::new(), next: self.next };
        let mut i: usize = 0;
        while i < keep.len()
            invariant
                self.wf(),
                s0 == self.store(),
                i <= keep.len(),
                r.next == self.next,
                forall|k: u64| r.keys@.contains(k) <==> r.substitution@.contains_key(k),
                r.keys@.no_duplicates(),
                forall|k: u64| #[trigger] r.substitution@.contains_key(k) <==> exists|j: int| 0 <= j < i && keep@[j] == k,
                forall|k: u64| #[trigger] r.substitution@.contains_key(k) ==> self.substitution@.contains_key(k) && r.substitution@[k]@ == self.substitution@[k]@,
            decreases keep.len() - i,
        {
            let k = keep[i];
            assert(s0.contains_key(keep@[i as int]));
            let t = self.substitution.get(&k).unwrap().duplicate();
            r.put(k, t);
            proof {
                assert forall|x: u64| #[trigger] r.substitution@.contains_key(x) <==> exists|j: int| 0 <= j < i + 1 && keep@[j] == x by {
                    if x == k {
                        assert(keep@[i as int] == x);
                    }
                }
            }
            i += 1;
        }
        proof {
            assert forall|x: u64| #[trigger] r.substitution@.contains_key(x) <==> keep@.to_set().contains(x) by {
                if keep@.to_set().contains(x) {
                    assert(keep@.contains(x));
                    let j = choose|j: int| 0 <= j < keep@.len() && keep@[j] == x;
                }
            }
            assert(r.store() =~= s0.restrict(keep@.to_set()));
        }
        *self = r;
    }

    /// Replaces each binding by the end of its chain of variable-to-variable
    /// bindings, so that no binding is a bare variable.
    #[verifier::loop_isolation(false)]
    pub fn reduct_substitution(&mut self)
        requires
            old(self).wf(),
            chains_end(old(self).store()),
        ensures
            final(self).wf(),
            final(self).store() == compressed(old(self).store()),
            final(self).watermark() == old(self).watermark(),
    {
        let ghost s0 = self.store();
        proof {
            self.lemma_wf();
            assert(s0.dom() =~= self.substitution@.dom());
        }
        let n: usize = self.substitution.len();
        let mut r = Context { substitution: HashMap::new(), keys: Vec::new(), next: self.next };
        let mut i: usize = 0;
        while i < self.keys.len()
            invariant
                self.wf(),
                s0 == self.store(),
                n == s0.dom().len(),
                i <= self.keys.len(),
                r.next == self.next,
                forall|k: u64| r.keys@.contains(k) <==> r.substitution@.contains_key(k),
                r.keys@.no_duplicates(),
                forall|k: u64| #[trigger] r.substitution@.contains_key(k) <==> exists|j: int| 0 <= j < i && self.keys@[j] == k,
                forall|k: u64| #[trigger] r.substitution@.contains_key(k) ==> self.substitution@.contains_key(k) && r.substitution@[k]@ == compressed(s0)[k],
                forall|k: u64| #[trigger] r.substitution@.contains_key(k) ==> k < r.next && valid_term(r.substitution@[k]@),
            decreases self.keys.len() - i,
        {
            let k = self.keys[i];
            assert(self.keys@.contains(k));
            assert(s0.contains_key(k));
            let mut cur: &Type = self.substitution.get(&k).unwrap();
            let mut fuel: usize = n;
            loop
                invariant
                    chase(s0, cur@, fuel as nat) == chase(s0, s0[k], n as nat),
                    chase(s0, cur@, fuel as nat) is Some,
                decreases fuel,
            {
                match cur {
                    Type::Variable(u) => {
                        assert(s0.contains_key(*u));
                        cur = self.substitution.get(u).unwrap();
                        fuel = fuel - 1;
                    },
                    Type::Constructed(_, _) => {
                        break;
                    },
                }
            }
            let t = cur.duplicate();
            proof {
                self.lemma_wf();
                lemma_chase_valid(s0, s0[k], n as nat);
            }
            r.put(k, t);
            proof {
                assert forall|x: u64| #[trigger] r.substitution@.contains_key(x) <==> exists|j: int| 0 <= j < i + 1 && self.keys@[j] == x by {
                    if x == k {
                        assert(self.keys@[i as int] == x);
                    }
                }
            }
            i += 1;
        }
        proof {
            assert forall|x: u64| #[trigger] r.substitution@.contains_key(x) <==> self.substitution@.contains_key(x) by {
                if self.substitution@.contains_key(x) {
                    assert(self.keys@.contains(x));
                    let j = choose|j: int| 0 <= j < self.keys@.len() && self.keys@[j] == x;
                }
            }
            assert(r.store() =~= compressed(s0));
        }
        *self = r;
    }

    /// A deep copy of the context.
    fn duplicate(&self) -> (r: Context)
        requires
            self.wf(),
        ensures
            r.wf(),
            r.model() == self.model(),
            r.substitution@.dom() == self.substitution@.dom(),
    {
        let mut r = Context { substitution: HashMap::new(), keys: Vec::new(), next: self.next };
        let mut i: usize = 0;
        while i < self.keys.len()
            invariant
                self.wf(),
                i <= self.keys.len(),
                r.next == self.next,
                forall|k: u64| r.keys@.contains(k) <==> r.substitution@.contains_key(k),
                r.keys@.no_duplicates(),
                forall|k: u64| #[trigger] r.substitution@.contains_key(k) <==> exists|j: int| 0 <= j < i && self.keys@[j] == k,
                forall|k: u64| #[trigger] r.substitution@.contains_key(k) ==> r.substitution@[k]@ == self.substitution@[k]@,
            decreases self.keys.len() - i,
        {
            let k = self.keys[i];
            assert(self.keys@.contains(k));
            let t = self.substitution.get(&k).unwrap().duplicate();
            r.put(k, t);
            proof {
                assert forall|x: u64| #[trigger] r.substitution@.contains_key(x) <==> exists|j: int| 0 <= j < i + 1 && self.keys@[j] == x by {
                    if x == k {
                        assert(self.keys@[i as int] == x);
                    }
                }
            }
            i += 1;
        }
        proof {
            assert forall|x: u64| self.substitution@.contains_key(x) implies #[trigger] r.substitution@.contains_key(x) by {
                assert(self.keys@.contains(x));
                let j = choose|j: int| 0 <= j < self.keys@.len() && self.keys@[j] == x;
                assert(self.keys@[j] == x);
            }
            assert forall|x: u64| #[trigger] r.substitution@.contains_key(x) implies self.substitution@.contains_key(x) by {
                let j = choose|j: int| 0 <= j < i && self.keys@[j] == x;
                assert(self.keys@.contains(x));
            }
            assert(r.substitution@.dom() =~= self.substitution@.dom());
            assert(r.store() =~= self.store());
        }
        r
    }
}

impl Type {
    /// This type with its variables replaced by their bindings in `ctx`,
    /// following chains of bindings.
    pub fn apply(&self, ctx: &Context) -> (r: Type)
        requires
            ctx.wf(),
        ensures
            r@ == applied(ctx.store(), self@),
    {
        ctx.applied_to(self)
    }
}

impl Default for Context {
    /// An empty context.
    fn default() -> (r: Context)
        ensures
            r.wf(),
            r.store() == Map::<u64, Term>::empty(),
            r.watermark() == 0,
    {
        Context::new()
    }
}

/// A renaming produced by [`Context::merge`], to be applied to every type built
/// under the absorbed context.
pub struct ContextChange {
    delta: Variable,
    sacreds: Vec<Variable>,
}

impl ContextChange {
    /// The shift applied to variables that are not sacred.
    pub closed spec fn delta(&self) -> u64 {
        self.delta
    }

    /// The variables that keep their ids.
    pub closed spec fn sacreds(&self) -> Seq<u64> {
        self.sacreds@
    }

    /// Whether `n` keeps its id.
    fn is_sacred(&self, n: Variable) -> (r: bool)
        ensures
            r == self.sacreds@.contains(n),
    {
        let mut i: usize = 0;
        while i < self.sacreds.len()
            invariant
                i <= self.sacreds.len(),
                forall|j: int| 0 <= j < i ==> #[trigger] self.sacreds@[j] != n,
            decreases self.sacreds.len() - i,
        {
            if self.sacreds[i] == n {
                assert(self.sacreds@[i as int] == n);
                return true;
            }
            i += 1;
        }
        false
    }

    /// `t` renamed.
    #[verifier::loop_isolation(false)]
    fn reified(&self, t: &Type) -> (r: Type)
        requires
            vars_below(t@, u64::MAX - self.delta),
        ensures
            r@ == reify(t@, self.delta, self.sacreds@),
        decreases t,
    {
        match t {
            Type::Variable(n) => {
                if self.is_sacred(*n) {
                    Type::Variable(*n)
                } else {
                    Type::Variable(*n + self.delta)
                }
            },
            Type::Constructed(name, args) => {
                let mut out: Vec<Type> = Vec::new();
                let mut i: usize = 0;
                while i < args.len()
                    invariant
                        i <= args.len(),
                        out@.len() == i,
                        forall|j: int| 0 <= j < i ==> #[trigger] out@[j]@ == reify(args@[j]@, self.delta, self.sacreds@),
                    decreases args.len() - i,
                {
                    assert(vars_below(t@->Con_1[i as int], u64::MAX - self.delta));
                    out.push(self.reified(&args[i]));
                    i += 1;
                }
                let r = Type::Constructed(name.clone(), out);
                assert(r@ == reify(t@, self.delta, self.sacreds@)) by {
                    let a = view_of(r)->Con_1;
                    let b = reify(t@, self.delta, self.sacreds@)->Con_1;
                    assert forall|j: int| 0 <= j < a.len() implies a[j] == b[j] by {
                        assert(out@[j]@ == reify(args@[j]@, self.delta, self.sacreds@));
                    }
                    assert(a =~= b);
                }
                r
            },
        }
    }

    /// Renames a type built under the absorbed context for use under the merged one.
    pub fn reify_type(&self, tp: &mut Type)
        requires
            vars_below(old(tp)@, u64::MAX - self.delta()),
        ensures
            final(tp)@ == reify(old(tp)@, self.delta(), self.sacreds()),
    {
        *tp = self.reified(tp);
    }

    /// `s` renamed, binders included.
    fn reified_schema(&self, s: &TypeSchema) -> (r: TypeSchema)
        requires
            schema_vars_below(s@, u64::MAX - self.delta),
        ensures
            r@ == reify_schema(s@, self.delta, self.sacreds@),
        decreases s,
    {
        match s {
            TypeSchema::Monotype(tp) => TypeSchema::Monotype(self.reified(tp)),
            TypeSchema::Polytype { variable, body } => {
                let v = if self.is_sacred(*variable) {
                    *variable
                } else {
                    *variable + self.delta
                };
                TypeSchema::Polytype { variable: v, body: Box::new(self.reified_schema(body)) }
            },
        }
    }

    /// Renames a type schema built under the absorbed context, binders included,
    /// for use under the merged one.
    pub fn reify_typeschema(&self, tpsc: &mut TypeSchema)
        requires
            schema_vars_below(old(tpsc)@, u64::MAX - self.delta()),
        ensures
            final(tpsc)@ == reify_schema(old(tpsc)@, self.delta(), self.sacreds()),
    {
        *tpsc = self.reified_schema(tpsc);
    }
}

} // verus!
