use vstd::prelude::*;

use crate::error::RgError;
use crate::scale::yields;
use crate::text::{decimal, push_decimal};

verus! {

/// Coupling `i` of `next` is one Euler step from `cur`: `advance` moved
/// coupling `i` of `cur` along a derivative that beta function `beta` may
/// return on the whole of `cur`, and reported no divergence.
pub open spec fn advances_to<T, B: Fn(&[T]) -> T, A: Fn(T, T) -> Result<T, String>>(
    beta: B,
    advance: A,
    cur: Seq<T>,
    i: int,
    v: T,
) -> bool {
    exists|d: T| yields(beta, cur, d) && #[trigger] call_ensures(advance, (cur[i], d), Ok::<T, String>(v))
}

/// Coupling `i` of `cur` can take an Euler step without diverging.
pub open spec fn coupling_moves<T, B: Fn(&[T]) -> T, A: Fn(T, T) -> Result<T, String>>(
    beta: B,
    advance: A,
    cur: Seq<T>,
    i: int,
) -> bool {
    exists|v: T| advances_to(beta, advance, cur, i, v)
}

/// `next` is one Euler step from `cur`: every derivative is evaluated on
/// `cur`, before any coupling moves, and every coupling moves along its own.
pub open spec fn euler_step<T, B: Fn(&[T]) -> T, A: Fn(T, T) -> Result<T, String>>(
    betas: Seq<B>,
    advance: A,
    cur: Seq<T>,
    next: Seq<T>,
) -> bool {
    &&& next.len() == cur.len()
    &&& forall|i: int| 0 <= i < cur.len() ==> #[trigger] advances_to(betas[i], advance, cur, i, next[i])
}

/// `traj` starts at `start` and takes `steps` Euler steps, one per entry.
pub open spec fn euler_trajectory<T, B: Fn(&[T]) -> T, A: Fn(T, T) -> Result<T, String>>(
    betas: Seq<B>,
    advance: A,
    start: Seq<T>,
    traj: Seq<Seq<T>>,
    steps: nat,
) -> bool {
    &&& traj.len() == steps + 1
    &&& traj[0] == start
    &&& forall|k: int| 0 <= k < steps ==> #[trigger] euler_step(betas, advance, traj[k], traj[k + 1])
}

/// The text of the divergence of coupling `i`, whose new value renders as `value`.
pub open spec fn divergence_text(i: nat, value: Seq<char>) -> Seq<char> {
    "coupling["@ + decimal(i) + "] diverged to "@ + value
}

/// After `step` successful Euler steps from `start`, the couplings before
/// `i` moved, and moving coupling `i` along a derivative its beta function
/// may return reported divergence, with the new value rendered as `value`.
pub open spec fn diverges_at<T, B: Fn(&[T]) -> T, A: Fn(T, T) -> Result<T, String>>(
    betas: Seq<B>,
    advance: A,
    start: Seq<T>,
    step: nat,
    i: nat,
    value: String,
) -> bool {
    exists|prefix: Seq<Seq<T>>|
        #[trigger] euler_trajectory(betas, advance, start, prefix, step) && i < start.len() && (
        forall|j: int|
            0 <= j < i ==> #[trigger] coupling_moves(betas[j], advance, prefix[step as int], j))
            && exists|d: T|
            yields(betas[i as int], prefix[step as int], d) && #[trigger] call_ensures(
                advance,
                (prefix[step as int][i as int], d),
                Err::<T, String>(value),
            )
}

/// The error reported when `got` values are given where `expected` are needed.
pub open spec fn mismatch(expected: usize, got: usize) -> RgError {
    RgError::CouplingMismatch { expected, got }
}

/// `e` reports a divergence of an Euler integration of at most `steps`
/// steps from `start`: the step and the coupling at which `advance`
/// reported a value that is no longer finite, with that value's rendering.
pub open spec fn divergence_reported<T, B: Fn(&[T]) -> T, A: Fn(T, T) -> Result<T, String>>(
    betas: Seq<B>,
    advance: A,
    start: Seq<T>,
    steps: nat,
    e: RgError,
) -> bool {
    &&& e is Divergence
    &&& e->step < steps
    &&& exists|i: nat, value: String|
        #[trigger] diverges_at(betas, advance, start, e->step as nat, i, value) && e->message@
            == divergence_text(i, value@)
}

/// The outcome of a fixed-point search from `guess` with at most `max`
/// refinements: a point that `refine` accepts, reached from `guess` through
/// fewer than `max` refinements; or, after `max` refinements none of which
/// was accepted, the report that the search did not converge.
pub open spec fn search_outcome<T, N: Fn(&[T]) -> Option<Vec<T>>>(
    refine: N,
    guess: Seq<T>,
    max: usize,
    r: Result<Vec<T>, RgError>,
) -> bool {
    match r {
        Ok(p) => exists|chain: Seq<Seq<T>>|
            #[trigger] refinement_chain(refine, chain) && 1 <= chain.len() <= max && chain[0]
                == guess && chain.last() == p@ && settles(refine, p@),
        Err(e) => e == RgError::NoConvergence { iterations: max } && exists|chain: Seq<Seq<T>>|
            #[trigger] refinement_chain(refine, chain) && chain.len() == max + 1 && chain[0]
                == guess,
    }
}

/// `refine` may answer `a` with the refinement `b`.
pub open spec fn refines_to<T, N: Fn(&[T]) -> Option<Vec<T>>>(refine: N, a: Seq<T>, b: Seq<T>) -> bool {
    exists|v: Vec<T>| v@ == b && #[trigger] yields(refine, a, Some(v))
}

/// `refine` may accept `a` as a fixed point.
pub open spec fn settles<T, N: Fn(&[T]) -> Option<Vec<T>>>(refine: N, a: Seq<T>) -> bool {
    yields(refine, a, None::<Vec<T>>)
}

/// Each entry of `chain` is a refinement of the one before.
pub open spec fn refinement_chain<T, N: Fn(&[T]) -> Option<Vec<T>>>(refine: N, chain: Seq<Seq<T>>) -> bool {
    forall|k: int| 0 <= k < chain.len() - 1 ==> #[trigger] refines_to(refine, chain[k], chain[k + 1])
}

/// Law: integrating `a` steps and then `b` more steps from where the first
/// run ended is integrating `a + b` steps; the second run's first entry is
/// the first run's last one and appears once.
pub proof fn lemma_trajectories_concatenate<T, B: Fn(&[T]) -> T, A: Fn(T, T) -> Result<T, String>>(
    betas: Seq<B>,
    advance: A,
    start: Seq<T>,
    first: Seq<Seq<T>>,
    a: nat,
    second: Seq<Seq<T>>,
    b: nat,
)
    requires
        euler_trajectory(betas, advance, start, first, a),
        euler_trajectory(betas, advance, first.last(), second, b),
    ensures
        euler_trajectory(betas, advance, start, first + second.drop_first(), a + b),
{
    let whole = first + second.drop_first();
    assert(whole.len() == a + b + 1);
    assert forall|k: int| 0 <= k < a + b implies #[trigger] euler_step(
        betas,
        advance,
        whole[k],
        whole[k + 1],
    ) by {
        if k < a {
            assert(whole[k] == first[k]);
            assert(whole[k + 1] == first[k + 1]);
        } else {
            let j = k - a;
            assert(whole[k] == second[j]);
            assert(whole[k + 1] == second[j + 1]);
            assert(euler_step(betas, advance, second[j], second[j + 1]));
        }
    }
}

/// Law: each entry of an Euler trajectory after the first is one Euler step
/// from the entry before it, taken on that entry as a whole. For every step
/// `k` and coupling `i`, coupling `i` of entry `k + 1` is a value `advance`
/// returns on coupling `i` of entry `k` and a derivative that beta function
/// `i` returns on all of entry `k`, with no coupling of entry `k` moved yet.
pub proof fn lemma_euler_step_uses_previous_entry<T, B: Fn(&[T]) -> T, A: Fn(T, T) -> Result<T, String>>(
    betas: Seq<B>,
    advance: A,
    start: Seq<T>,
    traj: Seq<Seq<T>>,
    steps: nat,
    k: int,
    i: int,
)
    requires
        euler_trajectory(betas, advance, start, traj, steps),
        0 <= k < steps,
        0 <= i < traj[k].len(),
    ensures
        traj.len() == steps + 1,
        traj[0] == start,
        traj[k + 1].len() == traj[k].len(),
        exists|s: &[T], d: T|
            #![trigger call_ensures(betas[i], (s,), d)]
            s@ == traj[k] && call_ensures(betas[i], (s,), d) && call_ensures(
                advance,
                (traj[k][i], d),
                Ok::<T, String>(traj[k + 1][i]),
            ),
{
    assert(euler_step(betas, advance, traj[k], traj[k + 1]));
    assert(advances_to(betas[i], advance, traj[k], i, traj[k + 1][i]));
    let d = choose|d: T|
        yields(betas[i], traj[k], d) && #[trigger] call_ensures(
            advance,
            (traj[k][i], d),
            Ok::<T, String>(traj[k + 1][i]),
        );
    let s = choose|s: &[T]| s@ == traj[k] && #[trigger] call_ensures(betas[i], (s,), d);
    assert(call_ensures(betas[i], (s,), d));
}

/// Law: a coupling that can move takes its Euler step on the couplings as
/// they are: `advance` accepts its value together with a derivative that
/// its beta function returns on all of `cur`.
pub proof fn lemma_coupling_moves_on_whole_state<T, B: Fn(&[T]) -> T, A: Fn(T, T) -> Result<T, String>>(
    beta: B,
    advance: A,
    cur: Seq<T>,
    j: int,
)
    requires
        coupling_moves(beta, advance, cur, j),
    ensures
        exists|d: T, v: T|
            #![trigger call_ensures(advance, (cur[j], d), Ok::<T, String>(v))]
            (exists|s: &[T]| #![trigger call_ensures(beta, (s,), d)] s@ == cur && call_ensures(beta, (s,), d))
                && call_ensures(advance, (cur[j], d), Ok::<T, String>(v)),
{
    let v = choose|v: T| advances_to(beta, advance, cur, j, v);
    let d = choose|d: T|
        yields(beta, cur, d) && #[trigger] call_ensures(advance, (cur[j], d), Ok::<T, String>(v));
    let s = choose|s: &[T]| s@ == cur && #[trigger] call_ensures(beta, (s,), d);
    assert(call_ensures(beta, (s,), d));
    assert(call_ensures(advance, (cur[j], d), Ok::<T, String>(v)));
}

/// One link of a refinement chain.
proof fn lemma_chain_link<T, N: Fn(&[T]) -> Option<Vec<T>>>(refine: N, chain: Seq<Seq<T>>, k: int)
    requires
        refinement_chain(refine, chain),
        0 <= k < chain.len() - 1,
    ensures
        refines_to(refine, chain[k], chain[k + 1]),
{
}

/// Law: a reported divergence names a step and a coupling at which the
/// integration really diverged, returned here as the trajectory up to that
/// step, the coupling and the rendering of its value. The steps before it
/// form an Euler trajectory from `start`; at that step every earlier
/// coupling moved without diverging; and coupling `i` diverged when
/// `advance` was given its value at that step and a derivative its beta
/// function returns on the couplings of that step as a whole. The message
/// reads `coupling[i] diverged to <value>`.
pub proof fn lemma_divergence_is_real<T, B: Fn(&[T]) -> T, A: Fn(T, T) -> Result<T, String>>(
    betas: Seq<B>,
    advance: A,
    start: Seq<T>,
    steps: nat,
    e: RgError,
) -> (w: (Seq<Seq<T>>, nat, String))
    requires
        divergence_reported(betas, advance, start, steps, e),
    ensures
        e is Divergence,
        e->step < steps,
        euler_trajectory(betas, advance, start, w.0, e->step as nat),
        w.1 < start.len(),
        e->message@ == "coupling["@ + decimal(w.1) + "] diverged to "@ + w.2@,
        exists|s: &[T], d: T|
            #![trigger call_ensures(betas[w.1 as int], (s,), d)]
            s@ == w.0[e->step as int] && call_ensures(betas[w.1 as int], (s,), d) && call_ensures(
                advance,
                (w.0[e->step as int][w.1 as int], d),
                Err::<T, String>(w.2),
            ),
        forall|j: int|
            0 <= j < w.1 ==> #[trigger] coupling_moves(betas[j], advance, w.0[e->step as int], j),
{
    let step = e->step as nat;
    let (i, value) = choose|i: nat, value: String|
        #[trigger] diverges_at(betas, advance, start, step, i, value) && e->message@
            == divergence_text(i, value@);
    let prefix = choose|prefix: Seq<Seq<T>>|
        #[trigger] euler_trajectory(betas, advance, start, prefix, step) && i < start.len() && (
        forall|j: int|
            0 <= j < i ==> #[trigger] coupling_moves(betas[j], advance, prefix[step as int], j))
            && exists|d: T|
            yields(betas[i as int], prefix[step as int], d) && #[trigger] call_ensures(
                advance,
                (prefix[step as int][i as int], d),
                Err::<T, String>(value),
            );
    let d = choose|d: T|
        yields(betas[i as int], prefix[step as int], d) && #[trigger] call_ensures(
            advance,
            (prefix[step as int][i as int], d),
            Err::<T, String>(value),
        );
    let s = choose|s: &[T]| s@ == prefix[step as int] && #[trigger] call_ensures(betas[i as int], (s,), d);
    assert(call_ensures(betas[i as int], (s,), d));
    let w = (prefix, i, value);
    assert forall|j: int| 0 <= j < w.1 implies #[trigger] coupling_moves(
        betas[j],
        advance,
        w.0[e->step as int],
        j,
    ) by {
        assert(coupling_moves(betas[j], advance, prefix[step as int], j));
    }
    w
}

/// Law: a search whose refiner accepts the initial guess, whatever it may
/// answer there, returns that guess as soon as one point may be examined.
pub proof fn lemma_search_returns_accepted_guess<T, N: Fn(&[T]) -> Option<Vec<T>>>(
    refine: N,
    guess: Seq<T>,
    max: usize,
    r: Result<Vec<T>, RgError>,
)
    requires
        search_outcome(refine, guess, max, r),
        max >= 1,
        forall|s: &[T], o: Option<Vec<T>>|
            s@ == guess && #[trigger] call_ensures(refine, (s,), o) ==> o is None,
    ensures
        r matches Ok(p) && p@ == guess,
{
    match r {
        Ok(p) => {
            let chain = choose|chain: Seq<Seq<T>>|
                #[trigger] refinement_chain(refine, chain) && 1 <= chain.len() <= max && chain[0]
                    == guess && chain.last() == p@ && settles(refine, p@);
            if chain.len() > 1 {
                lemma_chain_link(refine, chain, 0);
                let v = choose|v: Vec<T>| v@ == chain[1] && #[trigger] yields(refine, chain[0], Some(v));
                let s = choose|s: &[T]| s@ == chain[0] && #[trigger] call_ensures(refine, (s,), Some(v));
                assert(call_ensures(refine, (s,), Some(v)));
            }
        },
        Err(e) => {
            let chain = choose|chain: Seq<Seq<T>>|
                #[trigger] refinement_chain(refine, chain) && chain.len() == max + 1 && chain[0]
                    == guess;
            lemma_chain_link(refine, chain, 0);
            let v = choose|v: Vec<T>| v@ == chain[1] && #[trigger] yields(refine, chain[0], Some(v));
            let s = choose|s: &[T]| s@ == chain[0] && #[trigger] call_ensures(refine, (s,), Some(v));
            assert(call_ensures(refine, (s,), Some(v)));
        },
    }
}

/// Law: a search whose refiner never accepts a point reports, after
/// `max` refinements, that it did not converge in `max` iterations.
pub proof fn lemma_search_without_acceptance_fails<T, N: Fn(&[T]) -> Option<Vec<T>>>(
    refine: N,
    guess: Seq<T>,
    max: usize,
    r: Result<Vec<T>, RgError>,
)
    requires
        search_outcome(refine, guess, max, r),
        forall|s: &[T], o: Option<Vec<T>>| #[trigger] call_ensures(refine, (s,), o) ==> o is Some,
    ensures
        r == Err::<Vec<T>, RgError>(RgError::NoConvergence { iterations: max }),
{
    match r {
        Ok(p) => {
            let chain = choose|chain: Seq<Seq<T>>|
                #[trigger] refinement_chain(refine, chain) && 1 <= chain.len() <= max && chain[0]
                    == guess && chain.last() == p@ && settles(refine, p@);
            let s = choose|s: &[T]| s@ == p@ && #[trigger] call_ensures(refine, (s,), None::<Vec<T>>);
            assert(call_ensures(refine, (s,), None::<Vec<T>>));
        },
        Err(e) => {},
    }
}

/// Law: each link of a refinement chain is an answer of the refiner: for
/// the `k`-th point it may return `Some` of a vector holding the next one.
pub proof fn lemma_chain_links_are_answers<T, N: Fn(&[T]) -> Option<Vec<T>>>(
    refine: N,
    chain: Seq<Seq<T>>,
    k: int,
)
    requires
        refinement_chain(refine, chain),
        0 <= k < chain.len() - 1,
    ensures
        exists|s: &[T], v: Vec<T>|
            #![trigger call_ensures(refine, (s,), Some(v))]
            s@ == chain[k] && v@ == chain[k + 1] && call_ensures(refine, (s,), Some(v)),
{
    lemma_chain_link(refine, chain, k);
    let v = choose|v: Vec<T>| v@ == chain[k + 1] && #[trigger] yields(refine, chain[k], Some(v));
    let s = choose|s: &[T]| s@ == chain[k] && #[trigger] call_ensures(refine, (s,), Some(v));
    assert(call_ensures(refine, (s,), Some(v)));
}

/// Law: what a fixed-point search returns, in terms of the refiner's
/// answers, with the examined points returned as `chain` (a refinement
/// chain from the guess, see `lemma_chain_links_are_answers`). A returned
/// point is the last of at most `max` examined points and the refiner may
/// accept it; a failure is `NoConvergence` with the iteration bound, after
/// `max + 1` points of which the first `max` were each refined.
pub proof fn lemma_search_outcome_in_answers<T, N: Fn(&[T]) -> Option<Vec<T>>>(
    refine: N,
    guess: Seq<T>,
    max: usize,
    r: Result<Vec<T>, RgError>,
) -> (chain: Seq<Seq<T>>)
    requires
        search_outcome(refine, guess, max, r),
    ensures
        refinement_chain(refine, chain),
        chain.len() >= 1,
        chain[0] == guess,
        r matches Ok(p) ==> {
            &&& chain.len() <= max
            &&& chain.last() == p@
            &&& exists|s: &[T]|
                #![trigger call_ensures(refine, (s,), None::<Vec<T>>)]
                s@ == p@ && call_ensures(refine, (s,), None::<Vec<T>>)
        },
        r matches Err(e) ==> {
            &&& e == RgError::NoConvergence { iterations: max }
            &&& chain.len() == max + 1
        },
{
    match r {
        Ok(p) => {
            let chain = choose|chain: Seq<Seq<T>>|
                #[trigger] refinement_chain(refine, chain) && 1 <= chain.len() <= max && chain[0]
                    == guess && chain.last() == p@ && settles(refine, p@);
            let s = choose|s: &[T]| s@ == p@ && #[trigger] call_ensures(refine, (s,), None::<Vec<T>>);
            assert(call_ensures(refine, (s,), None::<Vec<T>>));
            chain
        },
        Err(e) => {
            let chain = choose|chain: Seq<Seq<T>>|
                #[trigger] refinement_chain(refine, chain) && chain.len() == max + 1 && chain[0]
                    == guess;
            chain
        },
    }
}

fn copy_vec<T: Copy>(v: &[T]) -> (r: Vec<T>)
    ensures
        r@ == v@,
{
    let mut r: Vec<T> = Vec::new();
    let mut i: usize = 0;
    while i < v.len()
        invariant
            i <= v@.len(),
            r@ == v@.take(i as int),
        decreases v@.len() - i,
    {
        r.push(v[i]);
        proof {
            assert(v@.take(i + 1) =~= v@.take(i as int).push(v@[i as int]));
        }
        i = i + 1;
    }
    proof {
        assert(v@.take(v@.len() as int) =~= v@);
    }
    r
}

/// Renormalization-group flow: coupling constants evolve under scale changes,
/// each driven by its own beta function of all couplings.
pub struct RGFlow<T, B> {
    couplings: Vec<T>,
    beta_functions: Vec<B>,
    fixed_points: Vec<Vec<T>>,
}

impl<T, B> RGFlow<T, B> {
    /// The current couplings.
    pub closed spec fn coupling_values(&self) -> Seq<T> {
        self.couplings@
    }

    /// The beta functions, one per coupling.
    pub closed spec fn betas(&self) -> Seq<B> {
        self.beta_functions@
    }

    /// The fixed points registered so far.
    pub closed spec fn known_fixed_points(&self) -> Seq<Vec<T>> {
        self.fixed_points@
    }

    /// The flow's invariant: one beta function per coupling.
    pub closed spec fn wf(&self) -> bool {
        self.couplings@.len() == self.beta_functions@.len()
    }

    /// Create an RG flow with the given initial couplings and beta functions.
    pub fn new(couplings: Vec<T>, beta_functions: Vec<B>) -> (r: Result<Self, RgError>)
        ensures
            couplings@.len() != beta_functions@.len() ==> (r matches Err(e) && e == mismatch(
                couplings@.len() as usize,
                beta_functions@.len() as usize,
            )),
            couplings@.len() == beta_functions@.len() ==> (r matches Ok(f) && {
                &&& f.wf()
                &&& f.coupling_values() == couplings@
                &&& f.betas() == beta_functions@
                &&& f.known_fixed_points() == Seq::<Vec<T>>::empty()
            }),
    {
        if couplings.len() != beta_functions.len() {
            return Err(
                RgError::CouplingMismatch { expected: couplings.len(), got: beta_functions.len() },
            );
        }
        let f = RGFlow { couplings, beta_functions, fixed_points: Vec::new() };
        proof {
            assert(f.fixed_points@ =~= Seq::<Vec<T>>::empty());
        }
        Ok(f)
    }

    /// Register a known fixed point.
    pub fn add_fixed_point(&mut self, point: Vec<T>)
        requires
            old(self).wf(),
        ensures
            final(self).wf(),
            final(self).coupling_values() == old(self).coupling_values(),
            final(self).betas() == old(self).betas(),
            final(self).known_fixed_points() == old(self).known_fixed_points().push(point),
    {
        self.fixed_points.push(point);
    }

    /// The current couplings.
    pub fn couplings(&self) -> (c: &Vec<T>)
        ensures
            c@ == self.coupling_values(),
    {
        &self.couplings
    }

    /// The beta functions, one per coupling.
    pub fn beta_functions(&self) -> (b: &Vec<B>)
        ensures
            b@ == self.betas(),
    {
        &self.beta_functions
    }

    /// The fixed points registered so far.
    pub fn fixed_points(&self) -> (p: &Vec<Vec<T>>)
        ensures
            p@ == self.known_fixed_points(),
    {
        &self.fixed_points
    }
}

/// The trajectory of coupling vectors, as sequences.
pub open spec fn trajectory_view<T>(traj: Seq<Vec<T>>) -> Seq<Seq<T>> {
    traj.map_values(|v: Vec<T>| v@)
}

/// Law: the sequence form of a trajectory has one entry per coupling
/// vector, each holding that vector's couplings.
pub proof fn lemma_trajectory_view_entries<T>(traj: Seq<Vec<T>>)
    ensures
        trajectory_view(traj).len() == traj.len(),
        forall|k: int| 0 <= k < traj.len() ==> #[trigger] trajectory_view(traj)[k] == traj[k]@,
{
}

impl<T: Copy, B: Fn(&[T]) -> T> RGFlow<T, B> {

    /// Search for a fixed point starting from `initial_guess`.
    ///
    /// `refine(lambda)` either accepts `lambda` as a fixed point (`None`,
    /// when the beta functions vanish there within tolerance) or returns the
    /// next point to try (a damped Newton step in the usual setting). At most
    /// `max_iterations` points are examined.
    pub fn find_fixed_point_with<N: Fn(&[T]) -> Option<Vec<T>>>(
        &self,
        initial_guess: &[T],
        max_iterations: usize,
        refine: N,
    ) -> (r: Result<Vec<T>, RgError>)
        requires
            self.wf(),
            forall|s: &[T]| #[trigger] call_requires(refine, (s,)),
        ensures
            initial_guess@.len() != self.coupling_values().len() ==> r == Err::<Vec<T>, RgError>(
                mismatch(self.coupling_values().len() as usize, initial_guess@.len() as usize),
            ),
            initial_guess@.len() == self.coupling_values().len() ==> search_outcome(
                refine,
                initial_guess@,
                max_iterations,
                r,
            ),
    {
        let n = self.couplings.len();
        if initial_guess.len() != n {
            return Err(RgError::CouplingMismatch { expected: n, got: initial_guess.len() });
        }
        let mut lambda = copy_vec(initial_guess);
        let ghost mut chain: Seq<Seq<T>> = seq![lambda@];
        let mut k: usize = 0;
        while k < max_iterations
            invariant
                k <= max_iterations,
                initial_guess@.len() == self.coupling_values().len(),
                chain.len() == k + 1,
                chain[0] == initial_guess@,
                chain.last() == lambda@,
                refinement_chain(refine, chain),
                forall|s: &[T]| #[trigger] call_requires(refine, (s,)),
            decreases max_iterations - k,
        {
            let answer = refine(lambda.as_slice());
            match answer {
                None => {
                    proof {
                        assert(settles(refine, lambda@));
                        assert(refinement_chain(refine, chain));
                    }
                    return Ok(lambda);
                },
                Some(next) => {
                    proof {
                        assert(yields(refine, lambda@, Some(next)));
                        assert(refines_to(refine, lambda@, next@));
                        let old_chain = chain;
                        chain = chain.push(next@);
                        assert forall|j: int| 0 <= j < chain.len() - 1 implies #[trigger] refines_to(
                            refine,
                            chain[j],
                            chain[j + 1],
                        ) by {
                            if j < old_chain.len() - 1 {
                                assert(chain[j] == old_chain[j]);
                                assert(chain[j + 1] == old_chain[j + 1]);
                            }
                        }
                    }
                    lambda = next;
                },
            }
            k = k + 1;
        }
        proof {
            assert(refinement_chain(refine, chain));
        }
        Err(RgError::NoConvergence { iterations: max_iterations })
    }
    /// Integrate the RG flow with Euler's method for `steps` steps.
    ///
    /// At each step every beta function is evaluated on the current
    /// couplings, then `advance(coupling, derivative)` moves each coupling
    /// (by `dt * derivative` in the usual setting) and returns either the
    /// new value or, when that value is no longer finite, its rendering.
    /// On success the couplings become the last entry of the returned
    /// trajectory, which starts with the initial couplings; on divergence
    /// the couplings are left as they were.
    pub fn integrate_euler_with<A: Fn(T, T) -> Result<T, String>>(
        &mut self,
        steps: usize,
        advance: A,
    ) -> (r: Result<Vec<Vec<T>>, RgError>)
        requires
            old(self).wf(),
            forall|i: int, s: &[T]|
                0 <= i < old(self).betas().len() ==> #[trigger] call_requires(
                    old(self).betas()[i],
                    (s,),
                ),
            forall|x: T, d: T| #[trigger] call_requires(advance, (x, d)),
        ensures
            final(self).wf(),
            final(self).betas() == old(self).betas(),
            final(self).known_fixed_points() == old(self).known_fixed_points(),
            r matches Ok(traj) ==> {
                &&& euler_trajectory(
                    old(self).betas(),
                    advance,
                    old(self).coupling_values(),
                    trajectory_view(traj@),
                    steps as nat,
                )
                &&& final(self).coupling_values() == traj@.last()@
            },
            r matches Err(e) ==> {
                &&& final(self).coupling_values() == old(self).coupling_values()
                &&& divergence_reported(
                    old(self).betas(),
                    advance,
                    old(self).coupling_values(),
                    steps as nat,
                    e,
                )
            },
    {
        let n = self.couplings.len();
        let ghost betas = self.beta_functions@;
        let ghost start = self.couplings@;
        let mut current = copy_vec(self.couplings.as_slice());
        let mut traj: Vec<Vec<T>> = Vec::new();
        traj.push(copy_vec(current.as_slice()));
        proof {
            assert(trajectory_view(traj@) =~= seq![start]);
            assert forall|i: int, s: &[T]| 0 <= i < betas.len() implies #[trigger] call_requires(
                betas[i],
                (s,),
            ) by {
                assert(betas[i] == old(self).betas()[i]);
            }
        }
        let mut step: usize = 0;
        while step < steps
            invariant
                *self == *old(self),
                start == old(self).coupling_values(),
                betas == old(self).betas(),
                self.wf(),
                n == start.len(),
                n == betas.len(),
                n == current@.len(),
                step <= steps,
                traj@.len() == step + 1,
                euler_trajectory(betas, advance, start, trajectory_view(traj@), step as nat),
                current@ == traj@[step as int]@,
                forall|i: int, s: &[T]| 0 <= i < betas.len() ==> #[trigger] call_requires(betas[i], (s,)),
                forall|x: T, d: T| #[trigger] call_requires(advance, (x, d)),
            decreases steps - step,
        {
            let mut derivs: Vec<T> = Vec::new();
            let mut i: usize = 0;
            while i < n
                invariant
                    self.beta_functions@ == betas,
                    n == betas.len(),
                    n == current@.len(),
                    i <= n,
                    derivs@.len() == i,
                    forall|j: int| 0 <= j < i ==> #[trigger] yields(betas[j], current@, derivs@[j]),
                    forall|j: int, s: &[T]| 0 <= j < betas.len() ==> #[trigger] call_requires(betas[j], (s,)),
                decreases n - i,
            {
                let beta = &self.beta_functions[i];
                let d = beta(current.as_slice());
                proof {
                    assert(yields(betas[i as int], current@, d));
                }
                derivs.push(d);
                i = i + 1;
            }
            let ghost prefix = trajectory_view(traj@);
            let mut next: Vec<T> = Vec::new();
            let mut i: usize = 0;
            while i < n
                invariant
                    euler_trajectory(betas, advance, start, prefix, step as nat),
                    prefix[step as int] == current@,
                    *self == *old(self),
                    self.wf(),
                    start == old(self).coupling_values(),
                    betas == old(self).betas(),
                    step < steps,
                    start.len() == n,
                    n == betas.len(),
                    n == current@.len(),
                    n == derivs@.len(),
                    i <= n,
                    next@.len() == i,
                    forall|j: int| 0 <= j < n ==> #[trigger] yields(betas[j], current@, derivs@[j]),
                    forall|j: int| 0 <= j < i ==> #[trigger] advances_to(betas[j], advance, current@, j, next@[j]),
                    forall|x: T, d: T| #[trigger] call_requires(advance, (x, d)),
                decreases n - i,
            {
                let x = current[i];
                let d = derivs[i];
                match advance(x, d) {
                    Ok(v) => {
                        proof {
                            assert(yields(betas[i as int], current@, d));
                            assert(call_ensures(advance, (current@[i as int], d), Ok::<T, String>(v)));
                            assert(advances_to(betas[i as int], advance, current@, i as int, v));
                        }
                        next.push(v);
                    },
                    Err(value) => {
                        let mut message = String::new();
                        message.append("coupling[");
                        push_decimal(&mut message, i);
                        message.append("] diverged to ");
                        message.append(value.as_str());
                        proof {
                            assert(yields(betas[i as int], prefix[step as int], d));
                            assert forall|j: int| 0 <= j < i implies #[trigger] coupling_moves(
                                betas[j],
                                advance,
                                prefix[step as int],
                                j,
                            ) by {
                                assert(advances_to(betas[j], advance, current@, j, next@[j]));
                            }
                            assert(diverges_at(betas, advance, start, step as nat, i as nat, value));
                            assert(message@ =~= divergence_text(i as nat, value@));
                            let e = RgError::Divergence { step, message };
                            assert(diverges_at(betas, advance, start, e->step as nat, i as nat, value));
                            assert(divergence_reported(betas, advance, start, steps as nat, e));
                        }
                        return Err(RgError::Divergence { step, message });
                    },
                }
                i = i + 1;
            }
            proof {
                assert(euler_step(betas, advance, current@, next@));
                assert(prefix == trajectory_view(traj@));
            }
            let ghost before = traj@;
            traj.push(copy_vec(next.as_slice()));
            proof {
                assert(trajectory_view(traj@) =~= trajectory_view(before).push(next@));
                let tv = trajectory_view(traj@);
                assert forall|k: int| 0 <= k < step + 1 implies #[trigger] euler_step(
                    betas,
                    advance,
                    tv[k],
                    tv[k + 1],
                ) by {
                    if k < step {
                        assert(tv[k] == trajectory_view(before)[k]);
                        assert(tv[k + 1] == trajectory_view(before)[k + 1]);
                    }
                }
            }
            current = next;
            step = step + 1;
        }
        self.couplings = current;
        Ok(traj)
    }
}

} // verus!
