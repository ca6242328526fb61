use vstd::prelude::*;

use crate::error::RgError;
use crate::observable::{Observable, Relevance};
use crate::scale::{blockwise, decimated, insufficient, yields, ScaleTransform};

verus! {

/// No two observables share a name.
pub open spec fn distinct_names<T>(obs: Seq<Observable<T>>) -> bool {
    forall|i: int, j: int|
        0 <= i < obs.len() && 0 <= j < obs.len() && i != j ==> obs[i].name@ != obs[j].name@
}

/// Some observable of `obs` is named `name`.
pub open spec fn has_name<T>(obs: Seq<Observable<T>>, name: Seq<char>) -> bool {
    exists|k: int| 0 <= k < obs.len() && #[trigger] obs[k].name@ == name
}

/// The position of the observable named `name` (meaningful when `has_name`).
pub open spec fn position_of<T>(obs: Seq<Observable<T>>, name: Seq<char>) -> int {
    choose|k: int| 0 <= k < obs.len() && #[trigger] obs[k].name@ == name
}

/// `new` is `old` after recording `v` under `name`: `v` is appended to the
/// values of the observable with that name, every other observable is left
/// as it was; with no such observable, a new marginal observable holding `v`
/// alone, with scaling dimension `dim`, is appended.
pub open spec fn recorded<T>(
    old: Seq<Observable<T>>,
    name: Seq<char>,
    v: T,
    dim: T,
    new: Seq<Observable<T>>,
) -> bool {
    if has_name(old, name) {
        let k = position_of(old, name);
        &&& new.len() == old.len()
        &&& new[k].name == old[k].name
        &&& new[k].values@ == old[k].values@.push(v)
        &&& new[k].relevance == old[k].relevance
        &&& new[k].scaling_dimension == old[k].scaling_dimension
        &&& forall|j: int| 0 <= j < old.len() && j != k ==> new[j] == old[j]
    } else {
        &&& new.len() == old.len() + 1
        &&& forall|j: int| 0 <= j < old.len() ==> new[j] == old[j]
        &&& new[old.len() as int].name@ == name
        &&& new[old.len() as int].values@ == seq![v]
        &&& new[old.len() as int].relevance == Relevance::Marginal
        &&& new[old.len() as int].scaling_dimension == dim
    }
}

/// Scale bookkeeping of one coarse-graining step: with scale `l` and `len`
/// samples covering at most `total` ticks, cutting into blocks of `bs` keeps
/// the product of scale and length within `total`.
proof fn lemma_scale_step(l: nat, len: nat, bs: nat, total: nat)
    requires
        bs > 0,
        len >= bs,
        l * len <= total,
    ensures
        l * bs <= total,
        (l * bs) * (len / bs) <= total,
{
    vstd::arithmetic::div_mod::lemma_fundamental_div_mod(len as int, bs as int);
    let n = len / bs;
    assert(n >= 1) by {
        vstd::arithmetic::div_mod::lemma_div_is_ordered(bs as int, len as int, bs as int);
        vstd::arithmetic::div_mod::lemma_div_by_self(bs as int);
    }
    assert(bs * n <= len) by (nonlinear_arith)
        requires
            len == bs * n + len % bs,
            len % bs >= 0,
    ;
    assert((l * bs) * n <= l * len) by (nonlinear_arith)
        requires
            bs * n <= len,
    ;
    assert(l * bs <= (l * bs) * n) by (nonlinear_arith)
        requires
            n >= 1,
    ;
}

/// Multi-scale map of agent behaviour: tick data -> coarse-grained observables.
///
/// `scales` records, for every level visited, the number of original ticks
/// that one sample stands for; the first level is the tick level itself.
pub struct AgentScaleMap<T> {
    tick_data: Vec<T>,
    scales: Vec<usize>,
    observables: Vec<Observable<T>>,
    initial_len: Ghost<nat>,
}

impl<T> AgentScaleMap<T> {
    /// The samples at the current scale.
    pub closed spec fn ticks(&self) -> Seq<T> {
        self.tick_data@
    }

    /// The scale of every level visited, oldest first.
    pub closed spec fn scale_factors(&self) -> Seq<usize> {
        self.scales@
    }

    /// The observables recorded so far, in order of first recording.
    pub closed spec fn observations(&self) -> Seq<Observable<T>> {
        self.observables@
    }

    /// The number of ticks the map was created with.
    pub closed spec fn initial_len(&self) -> nat {
        self.initial_len@
    }

    /// The map's invariant: it starts at scale 1, every scale is positive,
    /// the current samples never stand for more ticks than the map started
    /// with, and observables are keyed by name.
    pub closed spec fn wf(&self) -> bool {
        &&& self.scales@.len() >= 1
        &&& self.scales@[0] == 1
        &&& forall|k: int| 0 <= k < self.scales@.len() ==> #[trigger] self.scales@[k] >= 1
        &&& forall|k: int|
            1 <= k < self.scales@.len() ==> #[trigger] self.scales@[k] % self.scales@[k - 1] == 0
        &&& self.initial_len@ <= usize::MAX
        &&& self.scales@.last() * self.tick_data@.len() <= self.initial_len@
        &&& distinct_names(self.observables@)
    }

    /// Create a new agent scale map from raw tick data.
    pub fn new(tick_data: Vec<T>) -> (m: Self)
        ensures
            m.wf(),
            m.ticks() == tick_data@,
            m.scale_factors() == seq![1usize],
            m.observations() == Seq::<Observable<T>>::empty(),
            m.initial_len() == tick_data@.len(),
    {
        let len = tick_data.len();
        let ghost n = len as nat;
        let mut scales: Vec<usize> = Vec::new();
        scales.push(1);
        let m = AgentScaleMap {
            tick_data,
            scales,
            observables: Vec::new(),
            initial_len: Ghost(n),
        };
        proof {
            assert(m.scales@ =~= seq![1usize]);
            assert(m.observables@ =~= Seq::<Observable<T>>::empty());
        }
        m
    }

    /// Replace the samples by `coarse`, one level up, at `block_size` times
    /// the current scale.
    fn push_level(&mut self, block_size: usize, coarse: Vec<T>)
        requires
            old(self).wf(),
            block_size > 0,
            old(self).tick_data@.len() >= block_size,
            coarse@.len() == old(self).tick_data@.len() / (block_size as nat),
        ensures
            final(self).wf(),
            final(self).tick_data@ == coarse@,
            final(self).scales@ == old(self).scales@.push(
                (old(self).scales@.last() * block_size) as usize,
            ),
            final(self).observables == old(self).observables,
            final(self).initial_len == old(self).initial_len,
    {
        let last = self.scales[self.scales.len() - 1];
        proof {
            lemma_scale_step(
                last as nat,
                self.tick_data@.len(),
                block_size as nat,
                self.initial_len@,
            );
        }
        let new_scale = last * block_size;
        self.scales.push(new_scale);
        self.tick_data = coarse;
        proof {
            assert forall|k: int| 0 <= k < self.scales@.len() implies #[trigger] self.scales@[k]
                >= 1 by {
                if k < self.scales@.len() - 1 {
                    assert(self.scales@[k] == old(self).scales@[k]);
                } else {
                    assert(last * block_size >= 1) by (nonlinear_arith)
                        requires
                            last >= 1,
                            block_size >= 1,
                    ;
                }
            }
            assert forall|k: int| 1 <= k < self.scales@.len() implies #[trigger] self.scales@[k]
                % self.scales@[k - 1] == 0 by {
                if k < self.scales@.len() - 1 {
                    assert(self.scales@[k] == old(self).scales@[k]);
                    assert(self.scales@[k - 1] == old(self).scales@[k - 1]);
                } else {
                    vstd::arithmetic::div_mod::lemma_mod_multiples_basic(
                        block_size as int,
                        last as int,
                    );
                    assert(block_size * last == last * block_size) by (nonlinear_arith);
                }
            }
        }
    }

    /// Coarse-grain by applying `reduce` to every block of `block_size`
    /// consecutive samples (block averaging when `reduce` is the mean, Haar
    /// approximation when it is the alternating-sign mean), and record the
    /// resulting scale. On data shorter than one block the map is unchanged.
    pub fn coarse_grain_with<F: Fn(&[T]) -> T>(&mut self, block_size: usize, reduce: F) -> (r:
        Result<(), RgError>)
        requires
            old(self).wf(),
            block_size > 0,
            forall|s: &[T]| s@.len() == block_size ==> #[trigger] call_requires(reduce, (s,)),
        ensures
            final(self).wf(),
            final(self).initial_len() == old(self).initial_len(),
            final(self).observations() == old(self).observations(),
            old(self).ticks().len() < block_size ==> {
                &&& r == Err::<(), RgError>(
                    insufficient(block_size, old(self).ticks().len() as usize),
                )
                &&& final(self).ticks() == old(self).ticks()
                &&& final(self).scale_factors() == old(self).scale_factors()
            },
            old(self).ticks().len() >= block_size ==> {
                &&& r is Ok
                &&& blockwise(reduce, old(self).ticks(), block_size as nat, final(self).ticks())
                &&& final(self).scale_factors() == old(self).scale_factors().push(
                    (old(self).scale_factors().last() * block_size) as usize,
                )
            },
    {
        let transform = ScaleTransform::block_average(block_size);
        match transform.apply_blockwise(self.tick_data.as_slice(), reduce) {
            Ok(coarse) => {
                self.push_level(block_size, coarse);
                Ok(())
            },
            Err(e) => Err(e),
        }
    }

    /// Apply a decimation transform: keep the first sample of every block of
    /// `block_size` samples, and record the resulting scale. On data shorter
    /// than one block the map is unchanged.
    pub fn decimate(&mut self, block_size: usize) -> (r: Result<(), RgError>) where T: Copy
        requires
            old(self).wf(),
            block_size > 0,
        ensures
            final(self).wf(),
            final(self).initial_len() == old(self).initial_len(),
            final(self).observations() == old(self).observations(),
            old(self).ticks().len() < block_size ==> {
                &&& r == Err::<(), RgError>(
                    insufficient(block_size, old(self).ticks().len() as usize),
                )
                &&& final(self).ticks() == old(self).ticks()
                &&& final(self).scale_factors() == old(self).scale_factors()
            },
            old(self).ticks().len() >= block_size ==> {
                &&& r is Ok
                &&& final(self).ticks() == decimated(old(self).ticks(), block_size as nat)
                &&& final(self).scale_factors() == old(self).scale_factors().push(
                    (old(self).scale_factors().last() * block_size) as usize,
                )
            },
    {
        let transform = ScaleTransform::decimation(block_size);
        match transform.decimation_apply(self.tick_data.as_slice()) {
            Ok(coarse) => {
                self.push_level(block_size, coarse);
                Ok(())
            },
            Err(e) => Err(e),
        }
    }

    /// Record `value` under `name` at the current scale: appended to the
    /// observable of that name, or to a new one with `scaling_dimension`.
    fn record(&mut self, name: &str, value: T, scaling_dimension: T)
        requires
            old(self).wf(),
        ensures
            final(self).wf(),
            final(self).tick_data == old(self).tick_data,
            final(self).scales == old(self).scales,
            final(self).initial_len == old(self).initial_len,
            recorded(old(self).observables@, name@, value, scaling_dimension, final(self).observables@),
    {
        let key = String::from_str(name);
        let n = self.observables.len();
        let mut k: usize = 0;
        let mut found = false;
        while k < n && !found
            invariant
                n == self.observables@.len(),
                k <= n,
                key@ == name@,
                found ==> k < n && self.observables@[k as int].name@ == name@,
                !found ==> forall|j: int| 0 <= j < k ==> self.observables@[j].name@ != name@,
            decreases n - k + (if found { 0int } else { 1int }),
        {
            if self.observables[k].name == key {
                found = true;
            } else {
                k = k + 1;
            }
        }
        if found {
            let ghost pre = self.observables@;
            proof {
                assert(pre[k as int].name@ == name@);
                assert(has_name(pre, name@));
                let p = position_of(pre, name@);
                assert(p == k);
            }
            self.observables[k].values.push(value);
            proof {
                assert(self.observables@.len() == pre.len());
                assert(self.observables@[k as int].name == pre[k as int].name);
                assert(self.observables@[k as int].values@ == pre[k as int].values@.push(value));
                assert(forall|j: int| 0 <= j < pre.len() && j != k ==> self.observables@[j] == pre[j]);
                assert forall|i: int, j: int|
                    0 <= i < self.observables@.len() && 0 <= j < self.observables@.len() && i
                        != j implies self.observables@[i].name@ != self.observables@[j].name@ by {
                    assert(self.observables@[i].name == pre[i].name);
                    assert(self.observables@[j].name == pre[j].name);
                }
            }
        } else {
            let ghost pre = self.observables@;
            let obs = Observable::new(name, vec![value], scaling_dimension);
            self.observables.push(obs);
            proof {
                assert(!has_name(pre, name@));
                assert(self.observables@ == pre.push(obs));
                assert(self.observables@[pre.len() as int].values@ == seq![value]);
            }
        }
    }

    /// Evaluate `statistic` on the samples at the current scale and record
    /// the result under `name`: appended to the observable of that name, or
    /// to a new observable with `scaling_dimension` (the mean, the variance
    /// and the total are the statistics tracked in practice).
    pub fn extract_with<S: Fn(&[T]) -> T>(
        &mut self,
        name: &str,
        statistic: S,
        scaling_dimension: T,
    )
        requires
            old(self).wf(),
            forall|s: &[T]| #[trigger] call_requires(statistic, (s,)),
        ensures
            final(self).wf(),
            final(self).ticks() == old(self).ticks(),
            final(self).scale_factors() == old(self).scale_factors(),
            final(self).initial_len() == old(self).initial_len(),
            exists|v: T|
                yields(statistic, old(self).ticks(), v) && recorded(
                    old(self).observations(),
                    name@,
                    v,
                    scaling_dimension,
                    final(self).observations(),
                ),
    {
        let data = self.tick_data.as_slice();
        let v = statistic(data);
        let ghost gv = v;
        proof {
            assert(yields(statistic, self.tick_data@, gv));
        }
        self.record(name, v, scaling_dimension);
    }

    /// Get the number of scales recorded.
    pub fn num_scales(&self) -> (n: usize)
        ensures
            n == self.scale_factors().len(),
    {
        self.scales.len()
    }

    /// Get the current data length.
    pub fn current_data_len(&self) -> (n: usize)
        ensures
            n == self.ticks().len(),
    {
        self.tick_data.len()
    }

    /// The samples at the current scale.
    pub fn tick_data(&self) -> (d: &Vec<T>)
        ensures
            d@ == self.ticks(),
    {
        &self.tick_data
    }

    /// The scale of every level visited, oldest first.
    pub fn scales(&self) -> (s: &Vec<usize>)
        ensures
            s@ == self.scale_factors(),
    {
        &self.scales
    }

    /// The observables recorded so far.
    pub fn observables(&self) -> (o: &Vec<Observable<T>>)
        ensures
            o@ == self.observations(),
    {
        &self.observables
    }
}

/// Law: recording `v` under `name` is keyed by the exact name. Afterwards an
/// observable named exactly `name` holds `v` as its latest value; an
/// observable whose name differs is left as it was; an observable named
/// `name` has `v` appended and keeps its name, relevance and dimension; an
/// observable is added only when none was named `name`, and it then holds
/// `v` alone, is marginal and has dimension `dim`; names stay distinct.
pub proof fn lemma_recording_by_exact_name<T>(
    old: Seq<Observable<T>>,
    name: Seq<char>,
    v: T,
    dim: T,
    new: Seq<Observable<T>>,
)
    requires
        distinct_names(old),
        recorded(old, name, v, dim, new),
    ensures
        distinct_names(new),
        exists|k: int|
            0 <= k < new.len() && #[trigger] new[k].name@ == name && new[k].values@.len() > 0
                && new[k].values@.last() == v,
        forall|j: int| 0 <= j < old.len() && old[j].name@ != name ==> #[trigger] new[j] == old[j],
        forall|j: int|
            0 <= j < old.len() && #[trigger] old[j].name@ == name ==> {
                &&& new[j].name == old[j].name
                &&& new[j].values@ == old[j].values@.push(v)
                &&& new[j].relevance == old[j].relevance
                &&& new[j].scaling_dimension == old[j].scaling_dimension
            },
        (exists|j: int| 0 <= j < old.len() && #[trigger] old[j].name@ == name) ==> new.len()
            == old.len(),
        (forall|j: int| 0 <= j < old.len() ==> #[trigger] old[j].name@ != name) ==> {
            &&& new.len() == old.len() + 1
            &&& new[old.len() as int].name@ == name
            &&& new[old.len() as int].values@ == seq![v]
            &&& new[old.len() as int].relevance == Relevance::Marginal
            &&& new[old.len() as int].scaling_dimension == dim
        },
{
    if has_name(old, name) {
        let k = position_of(old, name);
        assert(old[k].name@ == name);
        assert forall|j: int| 0 <= j < old.len() && #[trigger] old[j].name@ == name implies j == k by {
            if j != k {
                assert(old[j].name@ != old[k].name@);
            }
        }
        assert(new[k].name@ == name && new[k].values@.last() == v);
        assert forall|i: int, j: int|
            0 <= i < new.len() && 0 <= j < new.len() && i != j implies new[i].name@
            != new[j].name@ by {
            assert(new[i].name == old[i].name);
            assert(new[j].name == old[j].name);
        }
    } else {
        let m = old.len() as int;
        assert(new[m].name@ == name && new[m].values@.last() == v);
        assert forall|j: int| 0 <= j < old.len() implies #[trigger] old[j].name@ != name by {
            if old[j].name@ == name {
                assert(has_name(old, name));
            }
        }
        assert forall|i: int, j: int|
            0 <= i < new.len() && 0 <= j < new.len() && i != j implies new[i].name@
            != new[j].name@ by {
            if i < m && j < m {
                assert(new[i] == old[i]);
                assert(new[j] == old[j]);
            } else if i < m {
                assert(new[i] == old[i]);
            } else if j < m {
                assert(new[j] == old[j]);
            }
        }
    }
}

/// Law: at every level of a map, the current samples stand for no more
/// ticks than the map was created with (scale times length), the first
/// scale is 1, and every scale is a positive multiple of the one before.
pub proof fn lemma_scale_bookkeeping<T>(m: AgentScaleMap<T>)
    requires
        m.wf(),
    ensures
        m.scale_factors().len() >= 1,
        m.scale_factors()[0] == 1,
        m.scale_factors().last() * m.ticks().len() <= m.initial_len(),
        forall|k: int| 0 <= k < m.scale_factors().len() ==> #[trigger] m.scale_factors()[k] >= 1,
        forall|k: int|
            1 <= k < m.scale_factors().len() ==> #[trigger] m.scale_factors()[k] % m.scale_factors()[k
                - 1] == 0,
{
}

/// Law: the observables of a map are keyed by name; no two share one.
pub proof fn lemma_observables_keyed_by_name<T>(m: AgentScaleMap<T>)
    requires
        m.wf(),
    ensures
        distinct_names(m.observations()),
        forall|i: int, j: int|
            0 <= i < j < m.observations().len() ==> #[trigger] m.observations()[i].name@
                != #[trigger] m.observations()[j].name@,
{
}

} // verus!
