use vstd::prelude::*;

use crate::error::RgError;

verus! {

/// The `i`-th full block of `bs` consecutive samples of `data`.
pub open spec fn block_of<T>(data: Seq<T>, bs: nat, i: int) -> Seq<T> {
    data.subrange(i * bs, (i + 1) * bs)
}

/// Every `bs`-th sample of `data`, starting with the first; a trailing
/// partial block contributes nothing.
pub open spec fn decimated<T>(data: Seq<T>, bs: nat) -> Seq<T> {
    Seq::new(data.len() / bs, |i: int| data[i * bs])
}

/// `out` is a value that `f` may return when called on a slice holding `input`.
pub open spec fn yields<T, R, F: Fn(&[T]) -> R>(f: F, input: Seq<T>, out: R) -> bool {
    exists|s: &[T]| s@ == input && #[trigger] call_ensures(f, (s,), out)
}

/// `out` holds, for every full block of `data`, a value that `reduce` may
/// return on that block, in block order.
pub open spec fn blockwise<T, F: Fn(&[T]) -> T>(reduce: F, data: Seq<T>, bs: nat, out: Seq<T>) -> bool {
    &&& out.len() == data.len() / bs
    &&& forall|i: int| 0 <= i < out.len() ==> yields(reduce, block_of(data, bs, i), #[trigger] out[i])
}

/// The error every transform reports on data shorter than one block.
pub open spec fn insufficient(needed: usize, got: usize) -> RgError {
    RgError::InsufficientData { needed, got }
}

/// The `i`-th block of `bs` samples lies inside data of length `len` whenever
/// `i` is below the number of full blocks.
pub proof fn lemma_block_in_range(len: nat, bs: nat, i: nat)
    requires
        bs > 0,
        i < len / bs,
    ensures
        i * bs + bs == (i + 1) * bs,
        (i + 1) * bs <= len,
{
    assert(i * bs + bs == (i + 1) * bs) by (nonlinear_arith);
    vstd::arithmetic::div_mod::lemma_fundamental_div_mod(len as int, bs as int);
    assert((i + 1) * bs <= (len / bs) * bs) by (nonlinear_arith)
        requires
            i + 1 <= len / bs,
    ;
    assert((len / bs) * bs <= len) by (nonlinear_arith)
        requires
            len == bs * (len / bs) + len % bs,
            len % bs >= 0,
    ;
}

/// The concatenation of the first `n` blocks of `bs` samples of `data`.
pub open spec fn first_blocks<T>(data: Seq<T>, bs: nat, n: nat) -> Seq<T>
    decreases n,
{
    if n == 0 {
        Seq::<T>::empty()
    } else {
        first_blocks(data, bs, (n - 1) as nat) + block_of(data, bs, n - 1)
    }
}

proof fn lemma_first_blocks_prefix<T>(data: Seq<T>, bs: nat, n: nat)
    requires
        bs > 0,
        n * bs <= data.len(),
    ensures
        first_blocks(data, bs, n) == data.take((n * bs) as int),
    decreases n,
{
    if n == 0 {
        assert(n * bs == 0) by (nonlinear_arith)
            requires
                n == 0,
        ;
        assert(data.take(0) =~= Seq::<T>::empty());
    } else {
        let m = (n - 1) as nat;
        assert(m * bs + bs == n * bs && (m + 1) * bs == n * bs) by (nonlinear_arith)
            requires
                m == n - 1,
        ;
        assert(first_blocks(data, bs, n) == first_blocks(data, bs, m) + block_of(
            data,
            bs,
            m as int,
        ));
        assert(m * bs <= data.len());
        lemma_first_blocks_prefix(data, bs, m);
        assert(data.take((n * bs) as int) =~= data.take((m * bs) as int) + block_of(
            data,
            bs,
            m as int,
        ));
    }
}

/// Law: the blocks a transform works on tile the data from its start; all
/// that is left out is a remainder shorter than one block.
pub proof fn lemma_blocks_tile<T>(data: Seq<T>, bs: nat)
    requires
        bs > 0,
    ensures
        first_blocks(data, bs, data.len() / bs) == data.take(((data.len() / bs) * bs) as int),
        data.len() - (data.len() / bs) * bs < bs,
        (data.len() / bs) * bs <= data.len(),
{
    let len = data.len();
    vstd::arithmetic::div_mod::lemma_fundamental_div_mod(len as int, bs as int);
    vstd::arithmetic::div_mod::lemma_mod_bound(len as int, bs as int);
    assert((len / bs) * bs == bs * (len / bs)) by (nonlinear_arith);
    lemma_first_blocks_prefix(data, bs, len / bs);
}

/// Law: decimating by `a` and then by `b` keeps exactly the samples that
/// decimating by `a * b` keeps.
pub proof fn lemma_decimation_composes<T>(data: Seq<T>, a: nat, b: nat)
    requires
        a > 0,
        b > 0,
    ensures
        decimated(decimated(data, a), b) == decimated(data, a * b),
{
    let len = data.len();
    vstd::arithmetic::div_mod::lemma_div_denominator(len as int, a as int, b as int);
    let lhs = decimated(decimated(data, a), b);
    let rhs = decimated(data, a * b);
    assert(lhs.len() == rhs.len());
    assert forall|i: int| 0 <= i < lhs.len() implies lhs[i] == rhs[i] by {
        assert(i * b < len / a) by {
            lemma_block_in_range(len / a, b, i as nat);
        }
        assert((i * b) * a == i * (a * b)) by (nonlinear_arith);
    }
    assert(lhs =~= rhs);
}

/// Law: the `i`-th value of a blockwise result is what `reduce` returns on
/// the `i`-th full block, that is on the `bs` samples of `data` starting at
/// position `i * bs`; there is one value per full block.
pub proof fn lemma_blockwise_reduces_each_block<T, F: Fn(&[T]) -> T>(
    reduce: F,
    data: Seq<T>,
    bs: nat,
    out: Seq<T>,
    i: int,
)
    requires
        bs > 0,
        blockwise(reduce, data, bs, out),
        0 <= i < out.len(),
    ensures
        out.len() == data.len() / bs,
        (i + 1) * bs <= data.len(),
        exists|s: &[T]|
            #![trigger call_ensures(reduce, (s,), out[i])]
            s@.len() == bs && (forall|j: int| 0 <= j < bs ==> #[trigger] s@[j] == data[i * bs + j])
                && call_ensures(reduce, (s,), out[i]),
{
    lemma_block_in_range(data.len(), bs, i as nat);
    assert(yields(reduce, block_of(data, bs, i), out[i]));
    let s = choose|s: &[T]| s@ == block_of(data, bs, i) && #[trigger] call_ensures(reduce, (s,), out[i]);
    assert(call_ensures(reduce, (s,), out[i]));
    assert forall|j: int| 0 <= j < bs implies #[trigger] s@[j] == data[i * bs + j] by {
    }
}

/// Law: decimation keeps the first sample of every full block: its `i`-th
/// sample is the one at position `i * bs`, which opens the `i`-th block;
/// decimating by 1 keeps every sample.
pub proof fn lemma_decimation_keeps_block_starts<T>(data: Seq<T>, bs: nat)
    requires
        bs > 0,
    ensures
        decimated(data, bs).len() == data.len() / bs,
        forall|i: int|
            0 <= i < data.len() / bs ==> #[trigger] decimated(data, bs)[i] == data[i * bs]
                && i * bs < data.len() && decimated(data, bs)[i] == block_of(data, bs, i)[0],
        decimated(data, 1) == data,
{
    assert forall|i: int| 0 <= i < data.len() / bs implies #[trigger] decimated(data, bs)[i]
        == data[i * bs] && i * bs < data.len() && decimated(data, bs)[i] == block_of(data, bs, i)[0] by {
        lemma_block_in_range(data.len(), bs, i as nat);
    }
    assert(decimated(data, 1) =~= data);
}

/// A coarse-graining operator that maps fine-grained data to a coarser scale.
///
/// Scales are counted in ticks: a transform maps data at `input_scale` ticks
/// per sample to `output_scale` ticks per sample. `transform_matrix` holds the
/// selection weights of a decimation (one row, weight 1 on the kept sample).
#[derive(Debug, Clone)]
pub struct ScaleTransform {
    pub input_scale: usize,
    pub output_scale: usize,
    pub block_size: usize,
    pub transform_matrix: Vec<Vec<u8>>,
}

impl ScaleTransform {
    /// Create a block-averaging transform.
    ///
    /// Each block of `block_size` consecutive samples is replaced by one value.
    pub fn block_average(block_size: usize) -> (t: Self)
        ensures
            t.input_scale == 1,
            t.output_scale == block_size,
            t.block_size == block_size,
            t.transform_matrix@.len() == 0,
    {
        ScaleTransform {
            input_scale: 1,
            output_scale: block_size,
            block_size,
            transform_matrix: Vec::new(),
        }
    }

    /// Create a decimation transform (keep every `block_size`-th sample).
    pub fn decimation(block_size: usize) -> (t: Self)
        requires
            block_size > 0,
        ensures
            t.input_scale == 1,
            t.output_scale == block_size,
            t.block_size == block_size,
            t.transform_matrix@.len() == 1,
            t.transform_matrix@[0]@ == Seq::new(
                block_size as nat,
                |j: int|
                    if j == 0 {
                        1u8
                    } else {
                        0u8
                    },
            ),
    {
        let mut row: Vec<u8> = Vec::new();
        row.push(1u8);
        let mut j: usize = 1;
        while j < block_size
            invariant
                1 <= j <= block_size,
                row@.len() == j,
                row@[0] == 1u8,
                forall|k: int| 1 <= k < j ==> row@[k] == 0u8,
            decreases block_size - j,
        {
            row.push(0u8);
            j = j + 1;
        }
        let mut mat: Vec<Vec<u8>> = Vec::new();
        mat.push(row);
        proof {
            assert(mat@[0]@ =~= Seq::new(
                block_size as nat,
                |j: int|
                    if j == 0 {
                        1u8
                    } else {
                        0u8
                    },
            ));
        }
        ScaleTransform { input_scale: 1, output_scale: block_size, block_size, transform_matrix: mat }
    }

    /// Number of full blocks in data of length `len`, or the error reported
    /// when the data is shorter than one block.
    pub fn block_count(&self, len: usize) -> (r: Result<usize, RgError>)
        requires
            self.block_size > 0,
        ensures
            len < self.block_size ==> r == Err::<usize, RgError>(insufficient(self.block_size, len)),
            len >= self.block_size ==> r == Ok::<usize, RgError>(len / self.block_size),
    {
        if len < self.block_size {
            Err(RgError::InsufficientData { needed: self.block_size, got: len })
        } else {
            Ok(len / self.block_size)
        }
    }

    /// Apply decimation: keep the first sample of each full block.
    pub fn decimation_apply<T: Copy>(&self, data: &[T]) -> (r: Result<Vec<T>, RgError>)
        requires
            self.block_size > 0,
        ensures
            data@.len() < self.block_size ==> r == Err::<Vec<T>, RgError>(
                insufficient(self.block_size, data@.len() as usize),
            ),
            data@.len() >= self.block_size ==> (r matches Ok(out) && out@ == decimated(
                data@,
                self.block_size as nat,
            )),
    {
        let bs = self.block_size;
        let len = data.len();
        let n_blocks = match self.block_count(len) {
            Ok(n) => n,
            Err(e) => return Err(e),
        };
        let mut out: Vec<T> = Vec::new();
        let mut i: usize = 0;
        while i < n_blocks
            invariant
                bs == self.block_size,
                bs > 0,
                len == data@.len(),
                n_blocks == data@.len() / (bs as nat),
                i <= n_blocks,
                out@ =~= decimated(data@, bs as nat).take(i as int),
            decreases n_blocks - i,
        {
            proof {
                lemma_block_in_range(data@.len(), bs as nat, i as nat);
            }
            out.push(data[i * bs]);
            i = i + 1;
        }
        Ok(out)
    }

    /// Apply `reduce` to every full block of `data`, in order; a trailing
    /// partial block is dropped.
    pub fn apply_blockwise<T, F: Fn(&[T]) -> T>(&self, data: &[T], reduce: F) -> (r: Result<
        Vec<T>,
        RgError,
    >)
        requires
            self.block_size > 0,
            forall|s: &[T]| s@.len() == self.block_size ==> #[trigger] call_requires(reduce, (s,)),
        ensures
            data@.len() < self.block_size ==> r == Err::<Vec<T>, RgError>(
                insufficient(self.block_size, data@.len() as usize),
            ),
            data@.len() >= self.block_size ==> (r matches Ok(out) && blockwise(
                reduce,
                data@,
                self.block_size as nat,
                out@,
            )),
    {
        let bs = self.block_size;
        let len = data.len();
        let n_blocks = match self.block_count(len) {
            Ok(n) => n,
            Err(e) => return Err(e),
        };
        let mut out: Vec<T> = Vec::new();
        let mut i: usize = 0;
        while i < n_blocks
            invariant
                bs == self.block_size,
                bs > 0,
                len == data@.len(),
                n_blocks == data@.len() / (bs as nat),
                i <= n_blocks,
                out@.len() == i,
                forall|s: &[T]| s@.len() == bs ==> #[trigger] call_requires(reduce, (s,)),
                forall|k: int|
                    0 <= k < i ==> yields(reduce, block_of(data@, bs as nat, k), #[trigger] out@[k]),
            decreases n_blocks - i,
        {
            proof {
                lemma_block_in_range(data@.len(), bs as nat, i as nat);
            }
            let start = i * bs;
            let end = start + bs;
            let blk = &data[start..end];
            let v = reduce(blk);
            proof {
                assert(blk@ == block_of(data@, bs as nat, i as int));
                assert(yields(reduce, block_of(data@, bs as nat, i as int), v));
            }
            out.push(v);
            i = i + 1;
        }
        Ok(out)
    }
}

} // verus!
