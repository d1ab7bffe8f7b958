//! Bookkeeping for the orbital simulator, the parts that are not numeric:
//! the append-only state history of a body, and the order in which a
//! two-level hierarchy of bodies is initialized.
//!
//! The numeric propagation itself (Kepler's equation, frame rotations) is
//! floating point and lives with the simulator, outside the library.

use vstd::prelude::*;

verus! {

/// A body's time-ordered history of state samples. Entry 0 is the state at
/// periapsis passage; propagation only ever appends, so earlier samples are
/// never changed and the history never shrinks.
#[derive(Clone, Debug)]
#[verifier::reject_recursive_types(T)]
pub struct History<T> {
    samples: Vec<T>,
}

impl<T> View for History<T> {
    type V = Seq<T>;

    closed spec fn view(&self) -> Seq<T> {
        self.samples@
    }
}

impl<T> History<T> {
    /// A fresh history holding only the initial state.
    pub fn new(initial: T) -> (h: History<T>)
        ensures
            h@.len() == 1,
            h@[0] == initial,
    {
        let mut samples: Vec<T> = Vec::new();
        samples.push(initial);
        History { samples }
    }

    /// Restarts the history from a new initial state, discarding whatever
    /// was accumulated: re-initializing a body loses its samples.
    pub fn reset(&mut self, initial: T)
        ensures
            final(self)@.len() == 1,
            final(self)@[0] == initial,
    {
        self.samples.clear();
        self.samples.push(initial);
    }

    /// Appends one sample: the history grows by exactly one entry and no
    /// earlier entry moves.
    pub fn append(&mut self, sample: T)
        ensures
            final(self)@ == old(self)@.push(sample),
    {
        self.samples.push(sample);
    }

    pub fn len(&self) -> (n: usize)
        ensures
            n == self@.len(),
    {
        self.samples.len()
    }

    pub fn at(&self, i: usize) -> (s: &T)
        requires
            i < self@.len(),
        ensures
            *s == self@[i as int],
    {
        &self.samples[i]
    }
}

/// One initialization action: which body to set up, and the body to take as
/// gravitational reference (`None` means the central mass).
pub type InitStep = (usize, Option<usize>);

/// The steps owed to one planet: each of its moons against the planet, then
/// the planet itself against the central mass.
pub open spec fn planet_steps(planet: usize, moons: Seq<usize>) -> Seq<InitStep> {
    Seq::new(moons.len(), |k: int| (moons[k], Some(planet))).push((planet, None))
}

/// The whole plan, over the first `i` planets.
pub open spec fn plan_upto(bodies: Seq<(usize, Vec<usize>)>, i: int) -> Seq<InitStep>
    decreases i,
{
    if i <= 0 {
        Seq::empty()
    } else {
        plan_upto(bodies, i - 1) + planet_steps(bodies[i - 1].0, bodies[i - 1].1@)
    }
}

/// The order in which a hierarchy is initialized. `bodies` lists each planet
/// with its moons; the plan sets up every moon with its own planet as
/// gravitational reference — never the central-mass default — and only then
/// the planet itself with no reference.
pub fn initialization_plan(bodies: &Vec<(usize, Vec<usize>)>) -> (plan: Vec<InitStep>)
    ensures
        plan@ == plan_upto(bodies@, bodies@.len() as int),
{
    let mut plan: Vec<InitStep> = Vec::new();
    let mut i: usize = 0;
    while i < bodies.len()
        invariant
            i <= bodies@.len(),
            plan@ == plan_upto(bodies@, i as int),
        decreases bodies@.len() - i,
    {
        let (planet, ref moons) = bodies[i];
        let ghost before = plan@;
        let mut k: usize = 0;
        while k < moons.len()
            invariant
                k <= moons@.len(),
                (planet, *moons) == bodies@[i as int],
                i < bodies@.len(),
                plan@ == before + Seq::new(k as nat, |m: int| (moons@[m], Some(planet))),
            decreases moons@.len() - k,
        {
            plan.push((moons[k], Some(planet)));
            proof {
                assert(plan@ =~= before + Seq::new((k + 1) as nat, |m: int| (moons@[m], Some(
                planet))));
            }
            k = k + 1;
        }
        plan.push((planet, None));
        proof {
            assert(plan@ =~= plan_upto(bodies@, i + 1));
        }
        i = i + 1;
    }
    plan
}

} // verus!
