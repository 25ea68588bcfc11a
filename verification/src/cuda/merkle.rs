//! Merkle commitments on a device: Poseidon2-16 leaf hashing in batches of eight
//! rows, then binary compression layer by layer.
//!
//! [`CommitPlan`] lays out the digest layers in one device arena and lists the
//! device calls that fill them. The layers have the lengths of the tree that the
//! host builds, so that openings and verification are those of the host. A
//! multi-matrix batch, an empty matrix and a failed call are left to the host.

use super::dft::elements;
use super::CUDART_OK;
use crate::field::{residue, Goldilocks, P};
use p3_field::PrimeField64;
use p3_goldilocks::Goldilocks as Base;
use p3_poseidon2::ExternalLayerConstants;
use rand::distr::StandardUniform;
use rand::rngs::SmallRng;
use rand::{RngExt, SeedableRng};
use vstd::arithmetic::div_mod::{lemma_fundamental_div_mod, lemma_fundamental_div_mod_converse};
use vstd::prelude::*;

verus! {

/// How many digests are compressed into one.
pub const MERKLE_ARITY: usize = 2;

/// The field elements of a digest.
pub const DIGEST_ELEMS: usize = 8;

/// How many rows, or digests, a batch kernel takes at once.
pub const BATCH: usize = 8;

/// The length of a layer of `raw` digests, padded to a multiple of `n`; a layer
/// of one digest, or of none, stays as it is.
pub open spec fn padded(raw: int, n: int) -> int {
    if raw <= 1 {
        raw
    } else {
        (raw + n - 1) / n * n
    }
}

/// The padded length is the least multiple of `n` that is at least `raw`.
pub proof fn lemma_padded(raw: int, n: int)
    requires
        raw > 1,
        n > 0,
    ensures
        padded(raw, n) % n == 0,
        raw <= padded(raw, n) < raw + n,
{
    let q = (raw + n - 1) / n;
    lemma_fundamental_div_mod(raw + n - 1, n);
    assert(n * q == q * n) by (nonlinear_arith);
    lemma_fundamental_div_mod_converse(q * n, n, q, 0);
}

/// Leaf layer and every compression layer are padded to a multiple of `n`; 0
/// and 1 stay as they are.
pub fn padded_len(raw_len: usize, n: usize) -> (r: usize)
    requires
        n > 0,
        padded(raw_len as int, n as int) <= usize::MAX,
    ensures
        r == padded(raw_len as int, n as int),
{
    if raw_len <= 1 {
        return raw_len;
    }
    proof {
        lemma_padded(raw_len as int, n as int);
    }
    if raw_len < n {
        proof {
            lemma_fundamental_div_mod_converse(raw_len + n - 1, n as int, 1, raw_len - 1);
        }
        return n;
    }
    let (q, rest): (usize, usize) = (raw_len / n, raw_len % n);
    proof {
        lemma_fundamental_div_mod(raw_len as int, n as int);
        assert(n * q == q * n) by (nonlinear_arith);
        if rest == 0 {
            lemma_fundamental_div_mod_converse(raw_len + n - 1, n as int, q as int, n - 1);
        } else {
            assert((q + 1) * n == q * n + n) by (nonlinear_arith);
            lemma_fundamental_div_mod_converse(raw_len + n - 1, n as int, q + 1, rest - 1);
        }
    }
    if rest == 0 {
        raw_len
    } else {
        raw_len - rest + n
    }
}

/// The layer that a layer of `len` digests is compressed into.
pub open spec fn next_layer(len: int) -> int {
    padded(len / 2, 2)
}

/// The lengths of the layers from one of `len` digests up to the root.
pub open spec fn layers_from(len: int) -> Seq<int>
    decreases len,
{
    if len <= 1 {
        seq![len]
    } else {
        seq![len] + layers_from(next_layer(len))
    }
}

/// The lengths of the layers of the tree over `h` rows.
pub open spec fn layer_lens(h: int) -> Seq<int> {
    layers_from(padded(h, 2))
}

/// The digests of all layers together.
pub open spec fn total_len(layers: Seq<int>) -> int
    decreases layers.len(),
{
    if layers.len() == 0 {
        0
    } else {
        total_len(layers.drop_last()) + layers.last()
    }
}

/// The words of the arena for a matrix of `h` rows of width `w`: the matrix, then
/// every layer.
pub open spec fn arena_words(h: int, w: int) -> int {
    h * w + total_len(layer_lens(h)) * DIGEST_ELEMS
}

/// Where layer `i` starts in the arena.
pub open spec fn layer_start(h: int, w: int, i: int) -> int {
    h * w + total_len(layer_lens(h).take(i)) * DIGEST_ELEMS
}

/// Every layer is shorter than the one below it.
proof fn lemma_next_layer(len: int)
    requires
        len > 1,
    ensures
        1 <= next_layer(len) < len,
        next_layer(len) == 1 || next_layer(len) % 2 == 0,
{
    if len / 2 > 1 {
        lemma_padded(len / 2, 2);
    }
}

/// The layers from a padded one up to the root: each is the padded half of the
/// one below it, and the last is a single digest.
pub proof fn lemma_layers(len: int)
    requires
        len >= 1,
        len == 1 || len % 2 == 0,
    ensures
        ({
            let layers = layers_from(len);
            &&& layers.len() >= 1
            &&& layers[0] == len
            &&& layers.last() == 1
            &&& forall|i: int| 0 <= i < layers.len() ==> 1 <= #[trigger] layers[i] <= len
            &&& forall|i: int|
                0 <= i < layers.len() - 1 ==> (#[trigger] layers[i]) > 1 && layers[i] % 2 == 0
                    && layers[i + 1] == next_layer(layers[i])
        }),
    decreases len,
{
    if len > 1 {
        let next = next_layer(len);
        lemma_next_layer(len);
        lemma_layers(next);
        let (above, layers) = (layers_from(next), layers_from(len));
        assert(layers =~= seq![len] + above);
        assert forall|i: int| 0 <= i < layers.len() implies 1 <= #[trigger] layers[i] <= len by {
            if i > 0 {
                assert(layers[i] == above[i - 1]);
            }
        }
        assert forall|i: int| 0 <= i < layers.len() - 1 implies (#[trigger] layers[i]) > 1
            && layers[i] % 2 == 0 && layers[i + 1] == next_layer(layers[i]) by {
            assert(layers[i + 1] == above[i]);
            if i > 0 {
                assert(layers[i] == above[i - 1]);
            }
        }
        assert(layers.last() == above.last());
    }
}

/// Layer `i` of the tree over `h` rows, and the one above it.
pub proof fn lemma_layer_at(h: int, i: int)
    requires
        h >= 1,
        0 <= i < layer_lens(h).len(),
    ensures
        layer_lens(h)[0] == padded(h, 2),
        layer_lens(h)[i] >= 1,
        i == layer_lens(h).len() - 1 ==> layer_lens(h)[i] == 1,
        i < layer_lens(h).len() - 1 ==> layer_lens(h)[i] > 1 && layer_lens(h)[i] % 2 == 0
            && layer_lens(h)[i + 1] == next_layer(layer_lens(h)[i]),
{
    lemma_leaf_layer(h);
    lemma_layers(padded(h, 2));
}

/// There is a leaf layer.
pub proof fn lemma_some_layer(h: int)
    requires
        h >= 1,
    ensures
        layer_lens(h).len() >= 1,
{
    lemma_leaf_layer(h);
    lemma_layers(padded(h, 2));
}

/// The sum of a sequence with one more number in front.
proof fn lemma_total_cons(x: int, s: Seq<int>)
    ensures
        total_len(seq![x] + s) == x + total_len(s),
    decreases s.len(),
{
    let t = seq![x] + s;
    if s.len() == 0 {
        assert(t.drop_last() =~= Seq::<int>::empty());
        assert(total_len(t.drop_last()) == 0);
    } else {
        assert(t.drop_last() =~= seq![x] + s.drop_last());
        lemma_total_cons(x, s.drop_last());
    }
}

/// All layers together hold at most four times the digests of the lowest.
proof fn lemma_total_bound(len: int)
    requires
        len >= 1,
        len == 1 || len % 2 == 0,
    ensures
        1 <= total_len(layers_from(len)) <= 4 * len,
    decreases len,
{
    if len <= 1 {
        assert(seq![len].drop_last() =~= Seq::<int>::empty());
        assert(total_len(seq![len].drop_last()) == 0);
    } else {
        let next = next_layer(len);
        lemma_next_layer(len);
        lemma_total_bound(next);
        lemma_total_cons(len, layers_from(next));
        if len == 2 {
            assert(next == 1);
        } else if len / 2 > 1 {
            lemma_padded(len / 2, 2);
        }
    }
}

/// The first layer of a tree.
proof fn lemma_leaf_layer(h: int)
    requires
        h >= 1,
    ensures
        1 <= padded(h, 2) <= h + 1,
        padded(h, 2) >= h,
        padded(h, 2) == 1 || padded(h, 2) % 2 == 0,
{
    if h > 1 {
        lemma_padded(h, 2);
    }
}

/// The arena is not much larger than the matrix: a matrix whose own size leaves
/// this much room can be committed to.
pub proof fn lemma_arena_bound(h: int, w: int)
    requires
        h >= 1,
        w >= 0,
    ensures
        h * w < arena_words(h, w) <= h * w + 32 * (h + 1),
{
    lemma_leaf_layer(h);
    lemma_total_bound(padded(h, 2));
}

/// The sum of the first `i + 1` numbers.
proof fn lemma_total_take(s: Seq<int>, i: int)
    requires
        0 <= i < s.len(),
    ensures
        total_len(s.take(i + 1)) == total_len(s.take(i)) + s[i],
{
    assert(s.take(i + 1).drop_last() =~= s.take(i));
}

/// The layers follow one another in the arena without a gap, from the end of the
/// matrix to the end of the arena.
pub proof fn lemma_layer_starts(h: int, w: int, i: int)
    requires
        h >= 1,
        0 <= i < layer_lens(h).len(),
    ensures
        layer_start(h, w, 0) == h * w,
        layer_start(h, w, i + 1) == layer_start(h, w, i) + layer_lens(h)[i] * DIGEST_ELEMS,
        layer_start(h, w, layer_lens(h).len() as int) == arena_words(h, w),
{
    let layers = layer_lens(h);
    lemma_total_take(layers, i);
    assert(layers.take(0) =~= Seq::<int>::empty());
    assert(layers.take(layers.len() as int) =~= layers);
    assert(total_len(layers.take(0)) == 0);
}

/// No layer starts beyond the end of the arena.
proof fn lemma_start_bound(h: int, w: int, i: int)
    requires
        h >= 1,
        w >= 0,
        0 <= i <= layer_lens(h).len(),
    ensures
        h * w <= layer_start(h, w, i) <= arena_words(h, w),
    decreases layer_lens(h).len() - i,
{
    lemma_leaf_layer(h);
    lemma_layers(padded(h, 2));
    let layers = layer_lens(h);
    lemma_prefix_nonneg(layers, i);
    if i < layers.len() {
        lemma_layer_starts(h, w, i);
        lemma_start_bound(h, w, i + 1);
    } else {
        lemma_layer_starts(h, w, 0);
    }
}

proof fn lemma_prefix_nonneg(s: Seq<int>, i: int)
    requires
        forall|k: int| 0 <= k < s.len() ==> 1 <= #[trigger] s[k],
        0 <= i <= s.len(),
    ensures
        total_len(s.take(i)) >= 0,
    decreases i,
{
    if i > 0 {
        lemma_total_take(s, i - 1);
        lemma_prefix_nonneg(s, i - 1);
    }
}

/// A call to the device. Offsets and lengths are in words of the arena, which
/// starts with the matrix.
#[derive(Clone, Copy, Debug, PartialEq, Eq)]
pub enum DeviceCall {
    /// Copy the matrix to the start of the arena.
    CopyIn { words: usize },
    /// Fill a layer with zero digests, which its padding consists of.
    Zero { at: usize, words: usize },
    /// Hash the rows of the whole batches into the leaf layer.
    LeafBatch { digests: usize, rows: usize, width: usize },
    /// Hash the rows from `from` on into the leaf layer.
    LeafScalar { digests: usize, from: usize, rows: usize, width: usize },
    /// Compress the pairs of the whole batches of a layer into the next.
    CompressBatch { prev: usize, next: usize, len: usize },
    /// Compress pairs `from..to` of a layer into the next.
    CompressScalar { prev: usize, next: usize, from: usize, to: usize },
    /// Wait for the device.
    Synchronize,
    /// Copy a layer back.
    CopyOut { at: usize, words: usize },
}

/// What follows in a commitment: memory for a larger arena, a device call, the end of
/// it with the layers copied back, or the host, which commits to the same matrix.
#[derive(Clone, Copy, Debug, PartialEq, Eq)]
pub enum CommitAction {
    Allocate { bytes: usize },
    Call(DeviceCall),
    Finish,
    Host,
}

/// The device calls that fill the leaf layer.
pub open spec fn leaf_calls(h: int, w: int) -> Seq<DeviceCall> {
    let at = layer_start(h, w, 0) as usize;
    seq![
        DeviceCall::CopyIn { words: (h * w) as usize },
        DeviceCall::Zero { at, words: (layer_lens(h)[0] * DIGEST_ELEMS) as usize },
        DeviceCall::LeafBatch { digests: at, rows: h as usize, width: w as usize },
        DeviceCall::LeafScalar {
            digests: at,
            from: (h / 8 * 8) as usize,
            rows: h as usize,
            width: w as usize,
        },
    ]
}

/// The device calls that fill the layer above layer `i`.
pub open spec fn layer_calls(h: int, w: int, i: int) -> Seq<DeviceCall> {
    let (prev, next) = (layer_start(h, w, i) as usize, layer_start(h, w, i + 1) as usize);
    let len = layer_lens(h)[i] / 2;
    seq![
        DeviceCall::Zero { at: next, words: (layer_lens(h)[i + 1] * DIGEST_ELEMS) as usize },
        DeviceCall::CompressBatch { prev, next, len: len as usize },
        DeviceCall::CompressScalar {
            prev,
            next,
            from: (len / 8 * 8) as usize,
            to: len as usize,
        },
    ]
}

/// The device calls that fill the first `n` layers above the leaves.
pub open spec fn compress_calls(h: int, w: int, n: int) -> Seq<DeviceCall>
    decreases n,
{
    if n <= 0 {
        Seq::empty()
    } else {
        compress_calls(h, w, n - 1) + layer_calls(h, w, n - 1)
    }
}

/// The device call that copies layer `i` back.
pub open spec fn copy_out(h: int, w: int, i: int) -> DeviceCall {
    DeviceCall::CopyOut {
        at: layer_start(h, w, i) as usize,
        words: (layer_lens(h)[i] * DIGEST_ELEMS) as usize,
    }
}

/// All device calls of a commitment to a matrix of `h` rows of width `w`.
pub open spec fn commit_calls(h: int, w: int) -> Seq<DeviceCall> {
    let n = layer_lens(h).len();
    leaf_calls(h, w) + compress_calls(h, w, n - 1) + seq![DeviceCall::Synchronize] + Seq::new(
        n,
        |i: int| copy_out(h, w, i),
    )
}

/// What follows call number `done` of a commitment, which came back with `code`.
pub open spec fn commit_step(calls: Seq<DeviceCall>, done: int, code: i32) -> CommitAction {
    if code != CUDART_OK {
        CommitAction::Host
    } else if done + 1 < calls.len() {
        CommitAction::Call(calls[done + 1])
    } else {
        CommitAction::Finish
    }
}

/// What a run of the calls from number `done` on comes to, when call number `k`
/// comes back with `codes[k]`: each call is made only once the one before it has
/// succeeded.
pub open spec fn commit_run(calls: Seq<DeviceCall>, codes: Seq<i32>, done: int) -> CommitAction
    decreases calls.len() - done,
{
    match commit_step(calls, done, codes[done]) {
        CommitAction::Call(_) => if done + 1 < calls.len() {
            commit_run(calls, codes, done + 1)
        } else {
            CommitAction::Host
        },
        end => end,
    }
}

/// A run of device calls finishes when every one of them succeeds, and is left to
/// the host when any of them fails.
pub proof fn lemma_commit_run(calls: Seq<DeviceCall>, codes: Seq<i32>, done: int)
    requires
        0 <= done < calls.len() == codes.len(),
    ensures
        commit_run(calls, codes, done) == (if forall|k: int|
            done <= k < codes.len() ==> #[trigger] codes[k] == CUDART_OK {
            CommitAction::Finish
        } else {
            CommitAction::Host
        }),
    decreases calls.len() - done,
{
    if codes[done] == CUDART_OK && done + 1 < calls.len() {
        lemma_commit_run(calls, codes, done + 1);
    }
}

/// The layout of a commitment in a device arena.
#[derive(Debug)]
pub struct CommitPlan {
    rows: usize,
    width: usize,
    layers: Vec<usize>,
    starts: Vec<usize>,
    total: usize,
}

impl CommitPlan {
    /// The number of rows of the matrix.
    pub closed spec fn height(&self) -> int {
        self.rows as int
    }

    /// The width of the matrix.
    pub closed spec fn columns(&self) -> int {
        self.width as int
    }

    #[verifier::type_invariant]
    spec fn inv(self) -> bool {
        let (h, w) = (self.rows as int, self.width as int);
        let layers = layer_lens(h);
        &&& h >= 1 && w >= 1
        &&& arena_words(h, w) * 8 <= usize::MAX
        &&& self.total == arena_words(h, w)
        &&& self.layers@.len() == layers.len()
        &&& forall|i: int| 0 <= i < layers.len() ==> #[trigger] self.layers@[i] == layers[i]
        &&& self.starts@.len() == layers.len()
        &&& forall|i: int|
            0 <= i < layers.len() ==> #[trigger] self.starts@[i] == layer_start(h, w, i)
    }

    /// The plan for a row-major matrix of `len` values and the given width; there
    /// is none for an empty matrix.
    pub fn new(len: usize, width: usize) -> (r: Option<CommitPlan>)
        requires
            width > 0 && len >= width ==> arena_words(
                len as int / width as int,
                width as int,
            ) * 8 <= usize::MAX,
        ensures
            r is None <==> width == 0 || len < width,
            r matches Some(plan) ==> plan.height() == len as int / width as int && plan.columns()
                == width,
    {
        if width == 0 {
            return None;
        }
        proof {
            lemma_fundamental_div_mod(len as int, width as int);
        }
        let rows: usize = len / width;
        let ghost (h, w) = (rows as int, width as int);
        if rows == 0 {
            proof {
                assert(width * 0 == 0) by (nonlinear_arith);
            }
            return None;
        }
        let ghost all = layer_lens(h);
        proof {
            assert(len >= width) by {
                if len < width {
                    vstd::arithmetic::div_mod::lemma_basic_div(len as int, width as int);
                }
            }
            lemma_arena_bound(h, w);
            lemma_some_layer(h);
            lemma_leaf_layer(h);
            lemma_layer_at(h, 0);
            lemma_start_bound(h, w, 0);
            lemma_layer_starts(h, w, 0);
            lemma_start_bound(h, w, 1);
        }
        let mut last: usize = padded_len(rows, MERKLE_ARITY);
        let mut start: usize = rows * width;
        let mut layers: Vec<usize> = Vec::new();
        let mut starts: Vec<usize> = Vec::new();
        layers.push(last);
        starts.push(start);
        start = start + last * DIGEST_ELEMS;
        while last > 1
            invariant
                h == rows,
                w == width,
                h >= 1,
                w >= 1,
                all == layer_lens(h),
                arena_words(h, w) * 8 <= usize::MAX,
                1 <= layers@.len() <= all.len(),
                starts@.len() == layers@.len(),
                last == all[layers@.len() - 1],
                start == layer_start(h, w, layers@.len() as int),
                last <= 1 ==> layers@.len() == all.len(),
                last >= 1,
                forall|i: int| 0 <= i < layers@.len() ==> #[trigger] layers@[i] == all[i],
                forall|i: int|
                    0 <= i < layers@.len() ==> #[trigger] starts@[i] == layer_start(h, w, i),
            decreases last,
        {
            let ghost n = layers@.len() as int;
            proof {
                lemma_layer_at(h, n - 1);
                assert(n < all.len());
                lemma_layer_at(h, n);
                lemma_next_layer(last as int);
                lemma_layer_starts(h, w, n);
                lemma_start_bound(h, w, n + 1);
            }
            let raw: usize = last / MERKLE_ARITY;
            last = padded_len(raw, MERKLE_ARITY);
            layers.push(last);
            starts.push(start);
            start = start + last * DIGEST_ELEMS;
        }
        proof {
            lemma_layer_starts(h, w, 0);
        }
        Some(CommitPlan { rows, width, layers, starts, total: start })
    }

    /// The words that the arena has to have.
    pub fn arena(&self) -> (r: usize)
        ensures
            r == arena_words(self.height(), self.columns()),
            r * 8 <= usize::MAX,
    {
        proof {
            use_type_invariant(self);
        }
        self.total
    }

    /// The lengths of the digest layers, leaves first.
    pub fn layers(&self) -> (r: &Vec<usize>)
        ensures
            r@.len() == layer_lens(self.height()).len(),
            forall|i: int| 0 <= i < r@.len() ==> #[trigger] r@[i] == layer_lens(self.height())[i],
    {
        proof {
            use_type_invariant(self);
        }
        &self.layers
    }

    /// How many digests each layer above the leaves compresses into one.
    pub fn arity_schedule(&self) -> (r: Vec<usize>)
        ensures
            r@ == Seq::new(
                (layer_lens(self.height()).len() - 1) as nat,
                |i: int| MERKLE_ARITY,
            ),
    {
        proof {
            use_type_invariant(self);
            lemma_some_layer(self.rows as int);
        }
        let n: usize = self.layers.len() - 1;
        let mut r: Vec<usize> = Vec::new();
        for i in 0..n
            invariant
                r@.len() == i,
                forall|k: int| 0 <= k < i ==> #[trigger] r@[k] == MERKLE_ARITY,
        {
            r.push(MERKLE_ARITY);
        }
        assert(r@ =~= Seq::new(
            (layer_lens(self.height()).len() - 1) as nat,
            |i: int| MERKLE_ARITY,
        ));
        r
    }

    /// Appends the device calls that fill the layer above layer `i`.
    fn push_layer(&self, calls: &mut Vec<DeviceCall>, i: usize)
        requires
            i < layer_lens(self.height()).len() - 1,
        ensures
            final(calls)@ == old(calls)@ + layer_calls(self.height(), self.columns(), i as int),
    {
        let ghost (h, w) = (self.rows as int, self.width as int);
        proof {
            use_type_invariant(self);
            lemma_layer_at(h, i as int);
            lemma_layer_at(h, i + 1);
            lemma_layer_starts(h, w, i + 1);
            lemma_start_bound(h, w, i + 2);
            lemma_start_bound(h, w, i + 1);
        }
        let n: usize = self.layers.len();
        assert(i + 1 < n);
        let (prev, next): (usize, usize) = (self.starts[i], self.starts[i + 1]);
        let len: usize = self.layers[i] / MERKLE_ARITY;
        calls.push(DeviceCall::Zero { at: next, words: self.layers[i + 1] * DIGEST_ELEMS });
        calls.push(DeviceCall::CompressBatch { prev, next, len });
        calls.push(DeviceCall::CompressScalar { prev, next, from: len / BATCH * BATCH, to: len });
        assert(calls@ =~= old(calls)@ + layer_calls(h, w, i as int));
    }

    /// The device calls of the commitment, in order. [`CommitPlan::step`] says what
    /// follows each of them.
    pub fn calls(&self) -> (r: Vec<DeviceCall>)
        ensures
            r@ == commit_calls(self.height(), self.columns()),
    {
        let ghost (h, w) = (self.rows as int, self.width as int);
        proof {
            use_type_invariant(self);
            lemma_some_layer(h);
            lemma_layer_starts(h, w, 0);
            lemma_start_bound(h, w, 0);
            lemma_start_bound(h, w, 1);
        }
        let n: usize = self.layers.len();
        let leaves: usize = self.starts[0];
        let mut r: Vec<DeviceCall> = Vec::new();
        r.push(DeviceCall::CopyIn { words: self.rows * self.width });
        r.push(DeviceCall::Zero { at: leaves, words: self.layers[0] * DIGEST_ELEMS });
        r.push(DeviceCall::LeafBatch { digests: leaves, rows: self.rows, width: self.width });
        r.push(
            DeviceCall::LeafScalar {
                digests: leaves,
                from: self.rows / BATCH * BATCH,
                rows: self.rows,
                width: self.width,
            },
        );
        assert(r@ =~= leaf_calls(h, w) + compress_calls(h, w, 0));
        for i in 0..n - 1
            invariant
                h == self.rows,
                w == self.width,
                n == self.layers@.len(),
                r@ == leaf_calls(h, w) + compress_calls(h, w, i as int),
        {
            proof {
                use_type_invariant(self);
            }
            self.push_layer(&mut r, i);
            assert(r@ =~= leaf_calls(h, w) + compress_calls(h, w, i + 1));
        }
        r.push(DeviceCall::Synchronize);
        let ghost filled = leaf_calls(h, w) + compress_calls(h, w, n - 1) + seq![
            DeviceCall::Synchronize,
        ];
        assert(r@ =~= filled);
        for i in 0..n
            invariant
                h == self.rows,
                w == self.width,
                n == self.layers@.len(),
                r@ == filled + Seq::new(i as nat, |k: int| copy_out(h, w, k)),
        {
            proof {
                use_type_invariant(self);
                lemma_layer_starts(h, w, i as int);
                lemma_start_bound(h, w, i + 1);
                lemma_start_bound(h, w, i as int);
            }
            r.push(
                DeviceCall::CopyOut { at: self.starts[i], words: self.layers[i] * DIGEST_ELEMS },
            );
            assert(r@ =~= filled + Seq::new((i + 1) as nat, |k: int| copy_out(h, w, k)));
        }
        r
    }

    /// The first call.
    pub fn first(&self) -> (r: DeviceCall)
        ensures
            commit_calls(self.height(), self.columns()).len() > 0,
            r == commit_calls(self.height(), self.columns())[0],
    {
        let calls = self.calls();
        assert(calls@[0] == leaf_calls(self.height(), self.columns())[0]);
        calls[0]
    }

    /// What follows call number `done`, which came back with `code`. A call that
    /// fails ends the run, and the host commits to the matrix.
    pub fn step(&self, done: usize, code: i32) -> (r: CommitAction)
        requires
            done < commit_calls(self.height(), self.columns()).len(),
        ensures
            r == commit_step(commit_calls(self.height(), self.columns()), done as int, code),
    {
        if code != CUDART_OK {
            return CommitAction::Host;
        }
        let calls = self.calls();
        let n: usize = calls.len();
        if done + 1 < n {
            CommitAction::Call(calls[done + 1])
        } else {
            CommitAction::Finish
        }
    }
}

/// Whether a commitment goes to the device: it handles the single-matrix case.
pub fn commits_on_device(inputs: usize, is_cuda: bool) -> (r: bool)
    ensures
        r == (inputs == 1 && is_cuda),
{
    inputs == 1 && is_cuda
}

/// The height of the cap that is taken of a tree of `layers` layers: no cap is
/// wider than the leaf layer.
pub fn clamped_cap(cap_height: usize, layers: usize) -> (r: usize)
    ensures
        r == (if cap_height + 1 <= layers {
            cap_height as int
        } else if layers == 0 {
            0
        } else {
            layers - 1
        }),
{
    let top: usize = if layers == 0 {
        0
    } else {
        layers - 1
    };
    if cap_height < top {
        cap_height
    } else {
        top
    }
}

/// The digests of a layer that was copied back.
pub fn digests(words: &[u64]) -> (r: Vec<[Goldilocks; 8]>)
    ensures
        r@.len() == words@.len() / 8,
        forall|i: int, j: int|
            0 <= i < r@.len() && 0 <= j < 8 ==> (#[trigger] r@[i]@[j])@ == residue(
                words@[8 * i + j] as int,
            ),
{
    let all = elements(words);
    let n: usize = all.len() / DIGEST_ELEMS;
    let mut r: Vec<[Goldilocks; 8]> = Vec::new();
    for i in 0..n
        invariant
            n == all@.len() / 8,
            all@.len() == words@.len(),
            all@.len() <= usize::MAX,
            forall|k: int| 0 <= k < all@.len() ==> (#[trigger] all@[k])@ == residue(words@[k] as int),
            r@.len() == i,
            forall|k: int, j: int|
                0 <= k < i && 0 <= j < 8 ==> (#[trigger] r@[k]@[j])@ == residue(
                    words@[8 * k + j] as int,
                ),
    {
        let b: usize = 8 * i;
        let digest = [
            all[b],
            all[b + 1],
            all[b + 2],
            all[b + 3],
            all[b + 4],
            all[b + 5],
            all[b + 6],
            all[b + 7],
        ];
        r.push(digest);
    }
    r
}

/// The field elements of the permutation's state.
pub const PERM_WIDTH: usize = 16;

/// The external rounds of the permutation, one half before and one half after
/// the internal ones.
pub const EXTERNAL_ROUNDS: usize = 8;

/// The internal rounds of the permutation.
pub const INTERNAL_ROUNDS: usize = 22;

/// The seed of the generator that the round constants are drawn from.
pub const CONSTANTS_SEED: u64 = 1;

#[verifier::external_type_specification]
#[verifier::external_body]
pub struct ExSmallRng(SmallRng);

/// The generator seeded with `seed`, on a machine with words of this many bits, which
/// its algorithm goes by.
pub uninterp spec fn rng_of(seed: u64, word_bits: u32) -> SmallRng;

/// The constant rows drawn for the external rounds before the internal ones, when
/// there are `rounds` external rounds in all.
pub uninterp spec fn initial_rows(rng: SmallRng, rounds: nat) -> Seq<[u64; 16]>;

/// The constant rows drawn for the external rounds after the internal ones.
pub uninterp spec fn terminal_rows(rng: SmallRng, rounds: nat) -> Seq<[u64; 16]>;

/// The generator once the rows of `rounds` external rounds have been drawn.
pub uninterp spec fn rng_after(rng: SmallRng, rounds: nat) -> SmallRng;

/// The first `n` field elements that the generator draws.
pub uninterp spec fn internal_row(rng: SmallRng, n: nat) -> Seq<u64>;

/// `rand::rngs::SmallRng::seed_from_u64`: the generator is a function of the seed
/// and the word size.
#[verifier::external_body]
fn seeded(seed: u64) -> (r: SmallRng)
    ensures
        r == rng_of(seed, usize::BITS),
{
    SmallRng::seed_from_u64(seed)
}

/// `p3_poseidon2::ExternalLayerConstants::new_from_rng` for the Goldilocks
/// permutation of width 16: as many constant rows before as after the internal
/// rounds, in canonical form. The rows and the generator's state afterwards are
/// functions of the state before and the number of rounds. It panics on an odd number
/// of rounds.
#[verifier::external_body]
fn draw_external(rounds: usize, rng: &mut SmallRng) -> (r: (Vec<[u64; 16]>, Vec<[u64; 16]>))
    requires
        rounds % 2 == 0,
    ensures
        r.0@ == initial_rows(*old(rng), rounds as nat),
        r.1@ == terminal_rows(*old(rng), rounds as nat),
        *final(rng) == rng_after(*old(rng), rounds as nat),
        r.0@.len() == rounds / 2,
        r.1@.len() == rounds / 2,
        forall|i: int, j: int| 0 <= i < r.0@.len() && 0 <= j < 16 ==> #[trigger] r.0@[i]@[j] < P,
        forall|i: int, j: int| 0 <= i < r.1@.len() && 0 <= j < 16 ==> #[trigger] r.1@[i]@[j] < P,
{
    let drawn = ExternalLayerConstants::<Base, 16>::new_from_rng(rounds, rng);
    let initial = drawn.get_initial_constants().iter().map(|row| row.map(|v| v.as_canonical_u64()));
    let terminal = drawn.get_terminal_constants().iter().map(|row| row.map(|v| v.as_canonical_u64()));
    (initial.collect(), terminal.collect())
}

/// `rand::RngExt::sample_iter` of field elements, the first `n`, in canonical form:
/// they are a function of the generator's state and of `n`.
#[verifier::external_body]
fn draw_internal(n: usize, rng: SmallRng) -> (r: Vec<u64>)
    ensures
        r@ == internal_row(rng, n as nat),
        r@.len() == n,
        forall|i: int| 0 <= i < n ==> #[trigger] r@[i] < P,
{
    rng.sample_iter(StandardUniform).take(n).map(|v: Base| v.as_canonical_u64()).collect()
}

/// `p3_goldilocks::MATRIX_DIAG_16_GOLDILOCKS[15]`, the inverse of `2^32`.
#[verifier::external_body]
fn last_diagonal() -> (r: u64)
    ensures
        r == 0xffff_fffe_0000_0002,
{
    p3_goldilocks::MATRIX_DIAG_16_GOLDILOCKS[15].as_canonical_u64()
}

/// The four rows of constants one after the other.
pub fn flatten(rows: &Vec<[u64; 16]>) -> (r: [u64; 64])
    requires
        rows@.len() == 4,
    ensures
        forall|i: int, j: int|
            0 <= i < 4 && 0 <= j < 16 ==> #[trigger] rows@[i]@[j] == r@[i * 16 + j],
{
    let mut r: [u64; 64] = [0;64];
    for i in 0..4usize
        invariant
            rows@.len() == 4,
            forall|k: int, j: int|
                0 <= k < i && 0 <= j < 16 ==> #[trigger] rows@[k]@[j] == r@[k * 16 + j],
    {
        let ghost before = r@;
        for j in 0..PERM_WIDTH
            invariant
                i < 4,
                rows@.len() == 4,
                forall|k: int| 0 <= k < i * 16 ==> #[trigger] r@[k] == before[k],
                forall|k: int| 0 <= k < j ==> #[trigger] r@[i * 16 + k] == rows@[i as int]@[k],
        {
            r[i * PERM_WIDTH + j] = rows[i][j];
        }
        assert forall|k: int, j: int| 0 <= k < i + 1 && 0 <= j < 16 implies #[trigger] rows@[k]@[j]
            == r@[k * 16 + j] by {
            if k < i {
                assert(r@[k * 16 + j] == before[k * 16 + j]);
            } else {
                assert(r@[i * 16 + j] == rows@[i as int]@[j]);
            }
        }
    }
    r
}

/// The drawn constants in the form that the device takes.
pub fn device_constants(
    initial: &Vec<[u64; 16]>,
    terminal: &Vec<[u64; 16]>,
    internal: &Vec<u64>,
    diagonal: u64,
) -> (r: ([u64; 64], [u64; 64], [u64; 22], u64))
    requires
        initial@.len() == 4,
        terminal@.len() == 4,
        internal@.len() == 22,
    ensures
        forall|i: int, j: int|
            0 <= i < 4 && 0 <= j < 16 ==> #[trigger] initial@[i]@[j] == r.0@[i * 16 + j],
        forall|i: int, j: int|
            0 <= i < 4 && 0 <= j < 16 ==> #[trigger] terminal@[i]@[j] == r.1@[i * 16 + j],
        r.2@ == internal@,
        r.3 == diagonal,
{
    let mut rc_internal: [u64; 22] = [0;22];
    for i in 0..INTERNAL_ROUNDS
        invariant
            internal@.len() == 22,
            forall|k: int| 0 <= k < i ==> #[trigger] rc_internal@[k] == internal@[k],
    {
        rc_internal[i] = internal[i];
    }
    assert(rc_internal@ =~= internal@);
    (flatten(initial), flatten(terminal), rc_internal, diagonal)
}

/// Round constants derived exactly like the host permutation's (8 external and 22
/// internal rounds), flattened to `u64` for the device: the constants that a
/// generator seeded with [`CONSTANTS_SEED`] draws first for the external rounds and
/// then for the internal ones.
pub fn derive_poseidon2_constants() -> (r: ([u64; 64], [u64; 64], [u64; 22], u64))
    ensures
        ({
            let g = rng_of(CONSTANTS_SEED, usize::BITS);
            let rounds = EXTERNAL_ROUNDS as nat;
            &&& initial_rows(g, rounds).len() == 4
            &&& terminal_rows(g, rounds).len() == 4
            &&& forall|i: int, j: int|
                0 <= i < 4 && 0 <= j < 16 ==> #[trigger] initial_rows(g, rounds)[i]@[j]
                    == r.0@[i * 16 + j]
            &&& forall|i: int, j: int|
                0 <= i < 4 && 0 <= j < 16 ==> #[trigger] terminal_rows(g, rounds)[i]@[j]
                    == r.1@[i * 16 + j]
            &&& r.2@ == internal_row(rng_after(g, rounds), INTERNAL_ROUNDS as nat)
        }),
        forall|i: int| 0 <= i < 64 ==> #[trigger] r.0@[i] < P,
        forall|i: int| 0 <= i < 64 ==> #[trigger] r.1@[i] < P,
        forall|i: int| 0 <= i < 22 ==> #[trigger] r.2@[i] < P,
        r.3 == 0xffff_fffe_0000_0002,
{
    let mut rng = seeded(CONSTANTS_SEED);
    let (initial, terminal) = draw_external(EXTERNAL_ROUNDS, &mut rng);
    let internal = draw_internal(INTERNAL_ROUNDS, rng);
    let r = device_constants(&initial, &terminal, &internal, last_diagonal());
    assert forall|i: int| 0 <= i < 64 implies #[trigger] r.0@[i] < P by {
        assert(initial@[i / 16]@[i % 16] == r.0@[i / 16 * 16 + i % 16]);
    }
    assert forall|i: int| 0 <= i < 64 implies #[trigger] r.1@[i] < P by {
        assert(terminal@[i / 16]@[i % 16] == r.1@[i / 16 * 16 + i % 16]);
    }
    r
}

/// A layer of at most one digest is not padded, a longer one up to the next multiple.
pub proof fn lemma_padded_small(raw: int, n: int)
    requires
        raw >= 0,
        n > 0,
    ensures
        raw <= 1 ==> padded(raw, n) == raw,
        raw > 1 && raw % n == 0 ==> padded(raw, n) == raw,
{
    if raw > 1 && raw % n == 0 {
        lemma_padded(raw, n);
        let p = padded(raw, n);
        let (a, b) = (raw / n, p / n);
        lemma_fundamental_div_mod(raw, n);
        lemma_fundamental_div_mod(p, n);
        assert(a == b) by (nonlinear_arith)
            requires
                n > 0,
                n * a <= n * b < n * a + n,
        ;
    }
}

/// What follows a call that succeeded is the next call of the list, or the end after the
/// last; a call that failed leaves the matrix to the host.
pub proof fn lemma_commit_step(calls: Seq<DeviceCall>, done: int, code: i32)
    requires
        0 <= done < calls.len(),
    ensures
        code != CUDART_OK ==> commit_step(calls, done, code) is Host,
        code == CUDART_OK && done + 1 < calls.len() ==> commit_step(calls, done, code)
            == CommitAction::Call(calls[done + 1]),
        code == CUDART_OK && done + 1 == calls.len() ==> commit_step(calls, done, code) is Finish,
{
}

/// The number of calls that fill the first `n` layers above the leaves, and which they
/// are.
proof fn lemma_compress_calls(h: int, w: int, n: int)
    requires
        n >= 0,
    ensures
        compress_calls(h, w, n).len() == 3 * n,
        forall|i: int, j: int|
            0 <= i < n && 0 <= j < 3 ==> #[trigger] compress_calls(h, w, n)[3 * i + j]
                == layer_calls(h, w, i)[j],
    decreases n,
{
    if n > 0 {
        lemma_compress_calls(h, w, n - 1);
        let (before, all) = (compress_calls(h, w, n - 1), compress_calls(h, w, n));
        assert forall|i: int, j: int| 0 <= i < n && 0 <= j < 3 implies #[trigger] all[3 * i + j]
            == layer_calls(h, w, i)[j] by {
            if i < n - 1 {
                assert(all[3 * i + j] == before[3 * i + j]);
            }
        }
    }
}

/// The calls of a commitment copy the matrix in and hash every row: the whole batches of
/// eight, then the fewer than eight rows that are left, each into a leaf layer that was
/// cleared before.
pub proof fn lemma_leaf_calls(h: int, w: int)
    requires
        h >= 1,
        w >= 1,
        arena_words(h, w) * 8 <= usize::MAX,
    ensures
        ({
            let calls = commit_calls(h, w);
            let n = layer_lens(h).len() as int;
            let start = h * w;
            &&& n >= 1
            &&& calls.len() == 4 + 3 * (n - 1) + 1 + n
            &&& calls[0] == (DeviceCall::CopyIn { words: (h * w) as usize })
            &&& calls[1] == (DeviceCall::Zero {
                at: start as usize,
                words: (layer_lens(h)[0] * 8) as usize,
            })
            &&& calls[2] == (DeviceCall::LeafBatch {
                digests: start as usize,
                rows: h as usize,
                width: w as usize,
            })
            &&& calls[3] matches DeviceCall::LeafScalar { digests, from, rows, width } && digests
                == start && from % 8 == 0 && from <= h < from + 8 && rows == h && width == w
        }),
{
    let n = layer_lens(h).len() as int;
    lemma_some_layer(h);
    lemma_layer_starts(h, w, 0);
    lemma_arena_bound(h, w);
    lemma_compress_calls(h, w, n - 1);
    assert(h <= h * w) by (nonlinear_arith)
        requires
            h >= 1,
            w >= 1,
    ;
    assert(w <= h * w) by (nonlinear_arith)
        requires
            h >= 1,
            w >= 1,
    ;
}

/// Above the leaves, the calls of a commitment go layer by layer: each layer is cleared,
/// and every pair of digests of the layer below is compressed into it, the whole batches
/// of eight and then the fewer than eight that are left. Then the device is waited for,
/// and every layer is copied back whole.
pub proof fn lemma_layer_calls(h: int, w: int, i: int)
    requires
        h >= 1,
        w >= 1,
        arena_words(h, w) * 8 <= usize::MAX,
        0 <= i < layer_lens(h).len(),
    ensures
        ({
            let calls = commit_calls(h, w);
            let n = layer_lens(h).len() as int;
            let (prev, next) = (layer_start(h, w, i), layer_start(h, w, i + 1));
            let pairs = layer_lens(h)[i] / 2;
            &&& i + 1 < n ==> {
                &&& calls[4 + 3 * i] == (DeviceCall::Zero {
                    at: next as usize,
                    words: (layer_lens(h)[i + 1] * 8) as usize,
                })
                &&& calls[5 + 3 * i] == (DeviceCall::CompressBatch {
                    prev: prev as usize,
                    next: next as usize,
                    len: pairs as usize,
                })
                &&& calls[6 + 3 * i] matches DeviceCall::CompressScalar {
                    prev: p,
                    next: q,
                    from,
                    to,
                } && p == prev && q == next && from % 8 == 0 && from <= to < from + 8 && to == pairs
            }
            &&& calls[4 + 3 * (n - 1)] is Synchronize
            &&& calls[5 + 3 * (n - 1) + i] == (DeviceCall::CopyOut {
                at: prev as usize,
                words: (layer_lens(h)[i] * 8) as usize,
            })
        }),
{
    let n = layer_lens(h).len() as int;
    let (calls, mid) = (commit_calls(h, w), compress_calls(h, w, n - 1));
    lemma_layer_at(h, i);
    lemma_layer_starts(h, w, i);
    lemma_start_bound(h, w, i);
    lemma_start_bound(h, w, i + 1);
    lemma_arena_bound(h, w);
    lemma_compress_calls(h, w, n - 1);
    if i + 1 < n {
        let own = layer_calls(h, w, i);
        assert(mid[3 * i + 0] == own[0] && mid[3 * i + 1] == own[1] && mid[3 * i + 2] == own[2]);
        assert(calls[4 + 3 * i] == mid[3 * i + 0]);
        assert(calls[5 + 3 * i] == mid[3 * i + 1]);
        assert(calls[6 + 3 * i] == mid[3 * i + 2]);
    }
    assert(calls[5 + 3 * (n - 1) + i] == copy_out(h, w, i));
}

} // verus!
