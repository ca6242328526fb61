use vstd::prelude::*;

verus! {

/// A quantity that is (approximately) invariant under renormalization-group
/// flow: its mean over the scales and its deviation across them.
#[derive(Debug, Clone)]
pub struct ScaleInvariant<T> {
    pub name: String,
    pub value: T,
    pub deviation_across_scales: T,
}

/// The entries of `items` whose verdict is `false`, in order.
pub open spec fn rejected<X>(items: Seq<X>, verdicts: Seq<bool>) -> Seq<X>
    decreases items.len(),
{
    if items.len() == 0 || verdicts.len() == 0 {
        Seq::<X>::empty()
    } else {
        let rest = rejected(items.drop_last(), verdicts.drop_last());
        if verdicts.last() {
            rest
        } else {
            rest.push(items.last())
        }
    }
}

/// The values that a sequence of references points to.
pub open spec fn derefs<X>(refs: Seq<&X>) -> Seq<X> {
    refs.map_values(|r: &X| *r)
}

/// `verdicts` holds, for every invariant, a verdict that `conserved` may
/// give on it.
pub open spec fn judged<T, P: Fn(&ScaleInvariant<T>) -> bool>(
    conserved: P,
    invariants: Seq<ScaleInvariant<T>>,
    verdicts: Seq<bool>,
) -> bool {
    &&& verdicts.len() == invariants.len()
    &&& forall|i: int|
        0 <= i < invariants.len() ==> #[trigger] call_ensures(conserved, (&invariants[i],), verdicts[i])
}

/// The positions in `items` whose verdict is `false`, in increasing order,
/// paired one-to-one with the entries of `rejected(items, verdicts)`.
proof fn lemma_rejected_positions<X>(items: Seq<X>, verdicts: Seq<bool>) -> (idx: Seq<int>)
    requires
        verdicts.len() == items.len(),
    ensures
        idx.len() == rejected(items, verdicts).len(),
        forall|k: int|
            0 <= k < idx.len() ==> 0 <= #[trigger] idx[k] < items.len() && !verdicts[idx[k]]
                && rejected(items, verdicts)[k] == items[idx[k]],
        forall|k1: int, k2: int| 0 <= k1 < k2 < idx.len() ==> #[trigger] idx[k1] < #[trigger] idx[k2],
        forall|i: int|
            0 <= i < items.len() && !#[trigger] verdicts[i] ==> exists|k: int|
                0 <= k < idx.len() && #[trigger] idx[k] == i,
    decreases items.len(),
{
    if items.len() == 0 {
        Seq::<int>::empty()
    } else {
        let last = items.len() - 1;
        let rest = lemma_rejected_positions(items.drop_last(), verdicts.drop_last());
        let prev = rejected(items.drop_last(), verdicts.drop_last());
        assert(rejected(items, verdicts) == if verdicts.last() {
            prev
        } else {
            prev.push(items.last())
        });
        assert forall|k: int| 0 <= k < rest.len() implies 0 <= #[trigger] rest[k] < last
            && !verdicts[rest[k]] && prev[k] == items[rest[k]] by {
            assert(verdicts.drop_last()[rest[k]] == verdicts[rest[k]]);
            assert(items.drop_last()[rest[k]] == items[rest[k]]);
        }
        if verdicts.last() {
            assert forall|i: int| 0 <= i < items.len() && !#[trigger] verdicts[i] implies exists|
                k: int,
            | 0 <= k < rest.len() && #[trigger] rest[k] == i by {
                assert(i < last);
                assert(verdicts.drop_last()[i] == verdicts[i]);
            }
            rest
        } else {
            let idx = rest.push(last);
            assert forall|k: int|
                0 <= k < idx.len() implies 0 <= #[trigger] idx[k] < items.len()
                && !verdicts[idx[k]] && rejected(items, verdicts)[k] == items[idx[k]] by {
                if k < rest.len() {
                    assert(idx[k] == rest[k]);
                }
            }
            assert forall|k1: int, k2: int| 0 <= k1 < k2 < idx.len() implies #[trigger] idx[k1]
                < #[trigger] idx[k2] by {
                assert(idx[k1] == rest[k1]);
                if k2 < rest.len() {
                    assert(idx[k2] == rest[k2]);
                }
            }
            assert forall|i: int| 0 <= i < items.len() && !#[trigger] verdicts[i] implies exists|
                k: int,
            | 0 <= k < idx.len() && #[trigger] idx[k] == i by {
                if i == last {
                    assert(idx[rest.len() as int] == i);
                } else {
                    assert(verdicts.drop_last()[i] == verdicts[i]);
                    let k = choose|k: int| 0 <= k < rest.len() && #[trigger] rest[k] == i;
                    assert(idx[k] == i);
                }
            }
            idx
        }
    }
}

/// Law: the violations are exactly the invariants judged not conserved, in
/// their order. Every verdict is one `conserved` may give on its invariant;
/// the `k`-th violation is the invariant at a position `idx[k]` whose verdict
/// is `false`; the positions increase; and every invariant whose verdict is
/// `false`, the first one included, is among the violations.
pub proof fn lemma_violations_are_the_rejected<T, P: Fn(&ScaleInvariant<T>) -> bool>(
    conserved: P,
    invariants: Seq<ScaleInvariant<T>>,
    verdicts: Seq<bool>,
    out: Seq<&ScaleInvariant<T>>,
) -> (idx: Seq<int>)
    requires
        judged(conserved, invariants, verdicts),
        derefs(out) == rejected(invariants, verdicts),
    ensures
        verdicts.len() == invariants.len(),
        forall|i: int|
            0 <= i < invariants.len() ==> #[trigger] call_ensures(
                conserved,
                (&invariants[i],),
                verdicts[i],
            ),
        idx.len() == out.len(),
        forall|k: int|
            0 <= k < idx.len() ==> 0 <= #[trigger] idx[k] < invariants.len() && !verdicts[idx[k]]
                && *out[k] == invariants[idx[k]],
        forall|k1: int, k2: int| 0 <= k1 < k2 < idx.len() ==> #[trigger] idx[k1] < #[trigger] idx[k2],
        forall|i: int|
            0 <= i < invariants.len() && !#[trigger] verdicts[i] ==> exists|k: int|
                0 <= k < idx.len() && #[trigger] idx[k] == i,
{
    let idx = lemma_rejected_positions(invariants, verdicts);
    assert(derefs(out).len() == out.len());
    assert forall|k: int| 0 <= k < idx.len() implies 0 <= #[trigger] idx[k] < invariants.len()
        && !verdicts[idx[k]] && *out[k] == invariants[idx[k]] by {
        assert(derefs(out)[k] == *out[k]);
    }
    idx
}

/// Check a collection of invariants and return, in order, those that
/// `conserved` judges not conserved (the usual judgement compares the
/// deviation across scales with a threshold).
pub fn find_violations<'a, T, P: Fn(&ScaleInvariant<T>) -> bool>(
    invariants: &'a [ScaleInvariant<T>],
    conserved: P,
) -> (out: Vec<&'a ScaleInvariant<T>>)
    requires
        forall|s: &ScaleInvariant<T>| #[trigger] call_requires(conserved, (s,)),
    ensures
        exists|verdicts: Seq<bool>|
            #[trigger] judged(conserved, invariants@, verdicts) && derefs(out@) == rejected(
                invariants@,
                verdicts,
            ),
{
    let mut out: Vec<&'a ScaleInvariant<T>> = Vec::new();
    let ghost mut verdicts: Seq<bool> = Seq::empty();
    let n = invariants.len();
    let mut i: usize = 0;
    while i < n
        invariant
            n == invariants@.len(),
            i <= n,
            judged(conserved, invariants@.take(i as int), verdicts),
            derefs(out@) == rejected(invariants@.take(i as int), verdicts),
            forall|s: &ScaleInvariant<T>| #[trigger] call_requires(conserved, (s,)),
        decreases n - i,
    {
        let inv = &invariants[i];
        let ok = conserved(inv);
        proof {
            let before = invariants@.take(i as int);
            let after = invariants@.take(i + 1);
            let old_verdicts = verdicts;
            verdicts = verdicts.push(ok);
            assert(after.drop_last() =~= before);
            assert(verdicts.drop_last() =~= old_verdicts);
            assert(after.last() == invariants@[i as int]);
            assert forall|j: int| 0 <= j < after.len() implies #[trigger] call_ensures(
                conserved,
                (&after[j],),
                verdicts[j],
            ) by {
                if j < i {
                    assert(after[j] == before[j]);
                    assert(verdicts[j] == old_verdicts[j]);
                }
            }
        }
        if !ok {
            out.push(inv);
        }
        proof {
            assert(derefs(out@) =~= rejected(invariants@.take(i + 1), verdicts));
        }
        i = i + 1;
    }
    proof {
        assert(invariants@.take(n as int) =~= invariants@);
    }
    out
}

} // verus!
