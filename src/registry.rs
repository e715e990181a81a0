//! The registry: migration steps in execution order, whose names are unique
//! and strictly increase.
use vstd::prelude::*;
use crate::step::{
    MigrationStep, StepSpec, lemma_name_lt_irreflexive, lemma_name_lt_transitive, name_lt,
    name_precedes, views_of,
};

verus! {

/// Why a step cannot be registered. Each variant carries the position the
/// step would have taken in the registry.
#[derive(Clone, Copy, Debug, PartialEq, Eq, Structural)]
pub enum RegistryError {
    /// The step's name is already registered.
    DuplicateName(usize),
    /// The step's name is new but does not come after the last one.
    OutOfOrder(usize),
}

/// Every name comes strictly before each one after it.
pub open spec fn names_increasing(s: Seq<Seq<char>>) -> bool {
    forall|i: int, j: int| 0 <= i < j < s.len() ==> name_lt(s[i], s[j])
}

/// The names of `steps`, in order.
pub open spec fn names_of(steps: Seq<StepSpec>) -> Seq<Seq<char>> {
    steps.map_values(|s: StepSpec| s.name)
}

/// Names strictly increase, so each identifies one step.
pub open spec fn ordered(steps: Seq<StepSpec>) -> bool {
    names_increasing(names_of(steps))
}

/// What registering `s` after `steps` gives: nothing when its name comes
/// after the last step's, else the error.
pub open spec fn register_outcome(steps: Seq<StepSpec>, s: StepSpec) -> Option<RegistryError> {
    if steps.len() == 0 || name_lt(steps.last().name, s.name) {
        None
    } else if names_of(steps).contains(s.name) {
        Some(RegistryError::DuplicateName(steps.len() as usize))
    } else {
        Some(RegistryError::OutOfOrder(steps.len() as usize))
    }
}

/// What registering `steps` one by one gives: nothing, or the first error.
pub open spec fn assembly_outcome(steps: Seq<StepSpec>) -> Option<RegistryError>
    decreases steps.len(),
{
    if steps.len() == 0 {
        None
    } else {
        match assembly_outcome(steps.drop_last()) {
            Some(e) => Some(e),
            None => register_outcome(steps.drop_last(), steps.last()),
        }
    }
}

/// An error on a prefix is the error on the whole.
proof fn lemma_assembly_outcome_prefix(steps: Seq<StepSpec>, k: int)
    requires
        0 <= k <= steps.len(),
        assembly_outcome(steps.subrange(0, k)) is Some,
    ensures
        assembly_outcome(steps) == assembly_outcome(steps.subrange(0, k)),
    decreases steps.len() - k,
{
    if k < steps.len() {
        let p = steps.subrange(0, k + 1);
        assert(p.drop_last() =~= steps.subrange(0, k));
        lemma_assembly_outcome_prefix(steps, k + 1);
    } else {
        assert(steps.subrange(0, k) =~= steps);
    }
}

/// Assembly succeeds exactly on steps whose names strictly increase.
pub proof fn lemma_assembly_ok_iff_ordered(steps: Seq<StepSpec>)
    ensures
        assembly_outcome(steps) is None <==> ordered(steps),
    decreases steps.len(),
{
    if steps.len() > 0 {
        let p = steps.drop_last();
        let n = p.len() as int;
        lemma_assembly_ok_iff_ordered(p);
        if ordered(steps) {
            assert(names_of(p) =~= names_of(steps).drop_last());
            if n > 0 {
                assert(name_lt(names_of(steps)[n - 1], names_of(steps)[n]));
            }
        }
        if assembly_outcome(steps) is None {
            let m = names_of(steps);
            assert forall|i: int, j: int| 0 <= i < j < steps.len() implies name_lt(m[i], m[j]) by {
                if j == n && i < n - 1 {
                    assert(name_lt(names_of(p)[i], names_of(p)[n - 1]));
                    lemma_name_lt_transitive(m[i], m[n - 1], m[n]);
                }
                if j < n {
                    assert(name_lt(names_of(p)[i], names_of(p)[j]));
                }
            }
        }
    }
}

/// Two steps with the same name can never be assembled into a registry.
pub proof fn lemma_duplicate_name_rejected(steps: Seq<StepSpec>, i: int, j: int)
    requires
        0 <= i < steps.len(),
        0 <= j < steps.len(),
        i != j,
        steps[i].name == steps[j].name,
    ensures
        assembly_outcome(steps) is Some,
{
    lemma_assembly_ok_iff_ordered(steps);
    lemma_name_lt_irreflexive(steps[i].name);
    let m = names_of(steps);
    if i < j {
        assert(!name_lt(m[i], m[j]));
    } else {
        assert(!name_lt(m[j], m[i]));
    }
}

/// Two steps whose names run backwards can never be assembled into a
/// registry.
pub proof fn lemma_backward_names_rejected(steps: Seq<StepSpec>, i: int, j: int)
    requires
        0 <= i < j < steps.len(),
        !name_lt(steps[i].name, steps[j].name),
    ensures
        assembly_outcome(steps) is Some,
{
    lemma_assembly_ok_iff_ordered(steps);
    assert(names_of(steps)[i] == steps[i].name);
    assert(names_of(steps)[j] == steps[j].name);
}

/// Migration steps in the order in which they are applied.
pub struct Registry {
    steps: Vec<MigrationStep>,
}

impl View for Registry {
    type V = Seq<StepSpec>;

    closed spec fn view(&self) -> Seq<StepSpec> {
        views_of(self.steps@)
    }
}

impl Registry {
    /// Names are unique and strictly increase in registration order.
    pub open spec fn wf(&self) -> bool {
        ordered(self@)
    }

    /// A registry with no steps.
    pub fn empty() -> (r: Registry)
        ensures
            r.wf(),
            r@ == Seq::<StepSpec>::empty(),
    {
        let r = Registry { steps: Vec::new() };
        assert(r@ =~= Seq::<StepSpec>::empty());
        r
    }

    /// The number of steps.
    pub fn len(&self) -> (r: usize)
        ensures
            r == self@.len(),
    {
        self.steps.len()
    }

    /// The steps, in execution order, in which names strictly increase.
    pub fn steps(&self) -> (r: &Vec<MigrationStep>)
        requires
            self.wf(),
        ensures
            views_of(r@) == self@,
            names_increasing(names_of(self@)),
    {
        &self.steps
    }

    /// The steps, in execution order.
    pub(crate) fn steps_all(&self) -> (r: &Vec<MigrationStep>)
        ensures
            r@.len() == self@.len(),
            forall|k: int| 0 <= k < r@.len() ==> #[trigger] r@[k]@ == self@[k],
    {
        &self.steps
    }

    fn contains_name(&self, name: &String) -> (r: bool)
        ensures
            r == names_of(self@).contains(name@),
    {
        let ghost names = names_of(self@);
        let mut i: usize = 0;
        while i < self.steps.len()
            invariant
                i <= self.steps@.len(),
                names == names_of(self@),
                names.len() == self.steps@.len(),
                forall|k: int| 0 <= k < i ==> names[k] != name@,
            decreases self.steps@.len() - i,
        {
            assert(names[i as int] == self.steps@[i as int].name@);
            if self.steps[i].name == *name {
                return true;
            }
            i = i + 1;
        }
        false
    }

    /// Appends `step` if its name comes after the last step's; else leaves
    /// the registry as it was and says why.
    pub fn register(&mut self, step: MigrationStep) -> (r: Result<(), RegistryError>)
        requires
            old(self).wf(),
        ensures
            final(self).wf(),
            match register_outcome(old(self)@, step@) {
                None => r == Ok::<(), RegistryError>(()) && final(self)@ == old(self)@.push(step@),
                Some(e) => r == Err::<(), RegistryError>(e) && final(self)@ == old(self)@,
            },
    {
        let ghost names = names_of(self@);
        let n = self.steps.len();
        if n > 0 {
            assert(self@.last() == self.steps@[n - 1]@);
            if !name_precedes(self.steps[n - 1].name.as_str(), step.name.as_str()) {
                if self.contains_name(&step.name) {
                    return Err(RegistryError::DuplicateName(n));
                } else {
                    return Err(RegistryError::OutOfOrder(n));
                }
            }
        }
        let ghost sv = step@;
        self.steps.push(step);
        assert(self@ =~= old(self)@.push(sv));
        let ghost nm = names_of(self@);
        assert(nm =~= names.push(sv.name));
        assert forall|i: int, j: int| 0 <= i < j < nm.len() implies name_lt(nm[i], nm[j]) by {
            if j == nm.len() - 1 && i < j - 1 {
                assert(name_lt(names[i], names[j - 1]));
                lemma_name_lt_transitive(nm[i], nm[j - 1], nm[j]);
            }
        }
        Ok(())
    }

    /// Registers `steps` one by one, in order: the registry of all of them,
    /// or the first error.
    pub fn new(steps: Vec<MigrationStep>) -> (r: Result<Registry, RegistryError>)
        ensures
            match r {
                Ok(reg) => assembly_outcome(views_of(steps@)) is None && reg.wf() && reg@
                    == views_of(steps@),
                Err(e) => assembly_outcome(views_of(steps@)) == Some(e),
            },
    {
        let ghost all = views_of(steps@);
        let mut rest = steps;
        let mut reg = Registry::empty();
        let mut k: usize = 0;
        let total = rest.len();
        assert(all.subrange(0, 0) =~= Seq::<StepSpec>::empty());
        while rest.len() > 0
            invariant
                reg.wf(),
                k + rest@.len() == all.len(),
                all.len() == total,
                reg@ == all.subrange(0, k as int),
                views_of(rest@) == all.subrange(k as int, all.len() as int),
                assembly_outcome(all.subrange(0, k as int)) is None,
                all == views_of(steps@),
            decreases rest@.len(),
        {
            let ghost before = views_of(rest@);
            let ghost old_rest = rest@;
            let step = rest.remove(0);
            assert(step@ == before[0]);
            assert(step@ == all[k as int]);
            assert(rest@ == old_rest.remove(0));
            assert forall|i: int| 0 <= i < rest@.len() implies #[trigger] rest@[i]@ == all[k + 1 + i] by {
                assert(rest@[i] == old_rest[i + 1]);
                assert(before[i + 1] == old_rest[i + 1]@);
            }
            assert(views_of(rest@) =~= all.subrange(k + 1, all.len() as int));
            let ghost p = all.subrange(0, k + 1);
            assert(p.drop_last() =~= all.subrange(0, k as int));
            assert(p.last() == step@);
            match reg.register(step) {
                Ok(()) => {},
                Err(e) => {
                    proof {
                        assert(register_outcome(p.drop_last(), p.last()) == Some(e));
                        assert(assembly_outcome(p) == Some(e));
                        lemma_assembly_outcome_prefix(all, k + 1);
                    }
                    return Err(e);
                },
            }
            k = k + 1;
            assert(reg@ =~= all.subrange(0, k as int));
        }
        assert(all.subrange(0, k as int) =~= all);
        Ok(reg)
    }
}

} // verus!
