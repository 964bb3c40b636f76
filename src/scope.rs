//! Named procedures: a table from names to closures that act on a shared
//! state and on a target.
use vstd::prelude::*;

verus! {

/// Why a call through a scope failed.
#[derive(Debug, Clone, Copy, PartialEq, Eq, Structural)]
pub enum ScopeError {
    /// No procedure is registered under the name.
    NotFound,
}

/// Procedures written in Rust, each registered under a name. Each one is
/// handed the scope's state and the target of the call.
pub struct RustScope<S, F> {
    names: Vec<String>,
    funcs: Vec<F>,
    state: S,
}

impl<S, F> RustScope<S, F> {
    /// The names registered, oldest first.
    pub closed spec fn names(&self) -> Seq<Seq<char>> {
        self.names@.map_values(|n: String| n@)
    }

    pub closed spec fn state(&self) -> S {
        self.state
    }

    /// A scope with no procedures and the state `state`.
    pub fn new(state: S) -> (r: Self)
        ensures
            r.wf(),
            r.names() == Seq::<Seq<char>>::empty(),
            r.state() == state,
    {
        let r = RustScope { names: Vec::new(), funcs: Vec::new(), state };
        assert(r.names() =~= Seq::<Seq<char>>::empty());
        r
    }

    /// The procedures registered, oldest first.
    pub closed spec fn procs(&self) -> Seq<F> {
        self.funcs@
    }

    /// Each name has its procedure.
    pub closed spec fn wf(&self) -> bool {
        self.names@.len() == self.funcs@.len()
    }

    /// Registers `closure` under `name`; it hides any procedure registered
    /// under that name before.
    pub fn register<T, K>(&mut self, name: &str, closure: F)
        where
            F: Fn(&mut S, &mut T, K),
        requires
            old(self).wf(),
        ensures
            final(self).wf(),
            final(self).names() == old(self).names().push(name@),
            final(self).procs() == old(self).procs().push(closure),
            final(self).state() == old(self).state(),
    {
        self.names.push(name.to_owned());
        self.funcs.push(closure);
        assert(final(self).names() =~= old(self).names().push(name@));
    }

    /// Whether a procedure is registered under `name`.
    pub fn has_function(&self, name: &str) -> (r: bool)
        ensures
            r == self.names().contains(name@),
    {
        let n = name.to_owned();
        let mut i: usize = 0;
        while i < self.names.len()
            invariant
                i <= self.names@.len(),
                n@ == name@,
                forall|j: int| 0 <= j < i ==> self.names@[j]@ != name@,
            decreases self.names@.len() - i,
        {
            if self.names[i] == n {
                assert(self.names()[i as int] == name@);
                return true;
            }
            i = i + 1;
        }
        proof {
            assert forall|j: int| 0 <= j < self.names().len() implies self.names()[j] != name@ by {
                assert(self.names()[j] == self.names@[j]@);
            }
        }
        false
    }

    /// Calls the procedure registered last under `name`, handing it the state,
    /// `target` and `key`; fails, changing nothing, when there is none.
    pub fn call<T, K>(&mut self, name: &str, target: &mut T, key: K) -> (r: Result<(), ScopeError>)
        where
            F: Fn(&mut S, &mut T, K),
        requires
            old(self).wf(),
            forall|i: int, args: (&mut S, &mut T, K)|
                0 <= i < old(self).procs().len() ==> #[trigger] old(self).procs()[i].requires(args),
        ensures
            final(self).wf(),
            final(self).names() == old(self).names(),
            final(self).procs() == old(self).procs(),
            r is Err <==> !old(self).names().contains(name@),
            r is Err ==> final(self).state() == old(self).state() && *final(target) == *old(target),
            r is Ok ==> exists|i: int, args: (&mut S, &mut T, K)|
                #![trigger old(self).procs()[i].ensures(args, ())]
                0 <= i < old(self).procs().len() && old(self).names()[i] == name@ && (forall|j: int|
                    i < j < old(self).names().len() ==> old(self).names()[j] != name@)
                    && mut_ref_current(args.0) == old(self).state() && mut_ref_future(args.0)
                    == final(self).state() && mut_ref_current(args.1) == *old(target)
                    && mut_ref_future(args.1) == *final(target) && args.2 == key && old(
                    self,
                ).procs()[i].ensures(args, ()),
    {
        assert forall|j: int, args: (&mut S, &mut T, K)|
            0 <= j < self.funcs@.len() implies #[trigger] self.funcs@[j].requires(args) by {
            assert(old(self).procs()[j].requires(args));
        }
        let n = name.to_owned();
        let mut i: usize = self.names.len();
        while i > 0
            invariant
                self.wf(),
                i <= self.names@.len(),
                n@ == name@,
                self == old(self),
                *target == *old(target),
                forall|j: int, args: (&mut S, &mut T, K)|
                    0 <= j < self.funcs@.len() ==> #[trigger] self.funcs@[j].requires(args),
                forall|j: int| i <= j < self.names@.len() ==> self.names@[j]@ != name@,
            decreases i,
        {
            i = i - 1;
            if self.names[i] == n {
                assert(self.names()[i as int] == name@);
                assert(old(self).procs() == self.funcs@);
                assert forall|j: int| i < j < old(self).names().len() implies old(self).names()[j]
                    != name@ by {
                    assert(old(self).names()[j] == self.names@[j]@);
                }
                (self.funcs[i])(&mut self.state, target, key);
                return Ok(());
            }
        }
        proof {
            assert forall|j: int| 0 <= j < self.names().len() implies self.names()[j] != name@ by {
                assert(self.names()[j] == self.names@[j]@);
            }
        }
        Err(ScopeError::NotFound)
    }

    /// The stored state.
    pub fn get_state(&self) -> (r: &S)
        ensures
            *r == self.state(),
    {
        &self.state
    }
}

} // verus!
