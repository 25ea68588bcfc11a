//! The discrete Fourier transform of each column of a row-major matrix: for each
//! column, natural-order evaluations at successive powers of the two-adic
//! generator.
//!
//! On a device the transform is a radix-2 kernel with per-size twiddle tables,
//! generated here and uploaded once per size. [`CudaDft::begin`] and
//! [`CudaDft::step`] say which device call comes next; [`CudaDft::dft_batch`]
//! falls back to the host transform when there is no device or a call failed.

use super::buffer::{Allocation, CudaBuffer};
use super::CUDART_OK;
use crate::field::{
    ints, lemma_residue_is_remainder, lemma_residue_mul, lemma_residue_residue,
    lemma_residue_small, residue, Goldilocks,
};
use crate::goldilocks::mul_mod;
use crate::integers::{is_pow2, log2, trailing_zeros};
use crate::mle::pow2_usize;
use crate::sums::sigma;
use p3_dft::{Radix2DFTSmallBatch, TwoAdicSubgroupDft};
use p3_field::{PrimeField64, TwoAdicField};
use p3_goldilocks::Goldilocks as Base;
use p3_matrix::dense::RowMajorMatrix;
use vstd::arithmetic::power::pow;
use vstd::arithmetic::power2::{lemma_pow2_strictly_increases, lemma_pow2_unfold, pow2};
use vstd::prelude::*;

verus! {

/// The generator of the subgroup of order `2^bits`: each is the square of the
/// next, down from one of order `2^32`.
pub open spec fn two_adic_root(bits: nat) -> int
    decreases 32 - bits,
{
    if bits >= 32 {
        0x1856_29dc_da58_878c
    } else {
        residue(two_adic_root(bits + 1) * two_adic_root(bits + 1))
    }
}

/// Column `c` of a row-major matrix of width `w`.
pub open spec fn column(values: Seq<int>, w: int, c: int) -> Seq<int> {
    Seq::new((values.len() as int / w) as nat, |j: int| values[j * w + c])
}

/// Term `j` of the polynomial with the given coefficients at `g^i`.
pub open spec fn dft_term(coeffs: Seq<int>, g: int, i: nat) -> spec_fn(int) -> int {
    |j: int| coeffs[j] * pow(g, i * j as nat)
}

/// Entry `i` of the transform: the polynomial with the given coefficients at
/// `g^i`.
pub open spec fn dft_value(coeffs: Seq<int>, g: int, i: nat) -> int {
    sigma(coeffs.len(), dft_term(coeffs, g, i))
}

/// `out` is the transform of each column of a matrix of `2^lg` rows of width `w`.
pub open spec fn is_dft(out: Seq<int>, values: Seq<int>, lg: nat, w: int) -> bool {
    &&& out.len() == values.len()
    &&& forall|i: int, c: int|
        0 <= i < pow2(lg) && 0 <= c < w ==> #[trigger] out[i * w + c] == residue(
            dft_value(column(values, w, c), two_adic_root(lg), i as nat),
        )
}

/// The numbers of a sequence of machine words.
pub open spec fn word_ints(s: Seq<u64>) -> Seq<int> {
    Seq::new(s.len(), |i: int| s[i] as int)
}

/// `<p3_goldilocks::Goldilocks as TwoAdicField>::two_adic_generator`, an entry
/// of its table of generators: the last one is the constant in
/// [`two_adic_root`], and every other one is the square of the next. It panics
/// beyond 32 bits.
#[verifier::external_body]
fn two_adic_generator(bits: usize) -> (r: u64)
    requires
        bits <= 32,
    ensures
        r as int == two_adic_root(bits as nat),
{
    Base::two_adic_generator(bits).as_canonical_u64()
}

/// `p3_dft::Radix2DFTSmallBatch::dft_batch` on a matrix of the given height and
/// width: the evaluations of each column, as a polynomial, at the successive
/// powers of the generator of order `height`, as canonical values. It panics
/// unless the height is a power of two up to `2^32`.
#[verifier::external_body]
fn cpu_dft(values: Vec<u64>, height: usize, width: usize) -> (r: Vec<u64>)
    requires
        width > 0,
        values@.len() == height * width,
        height > 1,
        is_pow2(height as nat),
        log2(height as nat) <= 32,
    ensures
        is_dft(word_ints(r@), word_ints(values@), log2(height as nat), width as int),
{
    let mat = RowMajorMatrix::new(values.into_iter().map(Base::new).collect(), width);
    let out = Radix2DFTSmallBatch::new(height).dft_batch(mat);
    out.values.into_iter().map(|v| v.as_canonical_u64()).collect()
}

/// The largest size, as a logarithm, that a twiddle table is made for.
pub const MAX_LG: u32 = 18;

/// The words of one table slot, `2^MAX_LG`.
pub const SLOT: usize = 262144;

/// The words of the device buffer that the tables are in: one slot per size.
pub const TABLE_WORDS: usize = 4980736;

/// The words of a fresh working buffer.
pub const WORK_WORDS: usize = 1048576;

/// Where the twiddles of stage `s` start in a table.
pub open spec fn stage_start(s: nat) -> int {
    pow2((s - 1) as nat) - 1
}

/// `table` holds the twiddles of stages `1..=lg`.
pub open spec fn is_twiddles(table: Seq<u64>, lg: nat) -> bool {
    &&& forall|s: nat, j: int|
        1 <= s <= lg && 0 <= j < pow2((s - 1) as nat) ==> #[trigger] table[stage_start(s) + j]
            == residue(pow(two_adic_root(s), j as nat))
    &&& forall|k: int| pow2(lg) - 1 <= k < table.len() ==> #[trigger] table[k] == 0
}

/// One more factor.
proof fn lemma_next_power(g: int, j: nat)
    ensures
        residue(residue(pow(g, j)) * g) == residue(pow(g, j + 1)),
{
    reveal(pow);
    lemma_residue_mul(pow(g, j), g);
    lemma_residue_mul(residue(pow(g, j)), g);
    lemma_residue_residue(pow(g, j));
    assert(pow(g, j + 1) == g * pow(g, j));
    assert(g * pow(g, j) == pow(g, j) * g) by (nonlinear_arith);
}

/// The sizes of the powers of two up to a table slot.
proof fn lemma_slot()
    ensures
        pow2(18) == SLOT,
        pow2(0) == 1,
{
    vstd::arithmetic::power2::lemma2_to64();
}

/// Per-size DIT twiddle tables: for size `2^lg`, stage `s` (`1..=lg`)
/// contributes `2^(s-1)` entries, `tw_s[j] = root_s^j`, concatenated in stage
/// order. Each size's table lives in its own slot of the device twiddle buffer.
pub fn make_twiddles(lg: u32) -> (out: Vec<u64>)
    requires
        lg <= MAX_LG,
    ensures
        out@.len() == SLOT,
        is_twiddles(out@, lg as nat),
{
    let mut out: Vec<u64> = Vec::new();
    for k in 0..SLOT
        invariant
            out@.len() == k,
            forall|i: int| 0 <= i < k ==> #[trigger] out@[i] == 0,
    {
        out.push(0);
    }
    let mut off: usize = 0;
    proof {
        lemma_slot();
    }
    for t in 0..lg
        invariant
            lg <= MAX_LG,
            out@.len() == SLOT,
            off == pow2(t as nat) - 1,
            is_twiddles(out@, t as nat),
    {
        let s: usize = t as usize + 1;
        let ghost before = out@;
        proof {
            lemma_slot();
            lemma_pow2_unfold(s as nat);
            if s < 18 {
                lemma_pow2_strictly_increases(s as nat, 18);
            }
        }
        let root: u64 = two_adic_generator(s);
        let mut acc: u64 = 1;
        let n: usize = pow2_usize(t as usize);
        proof {
            reveal(pow);
            assert(pow(root as int, 0) == 1);
            lemma_residue_small(1);
        }
        for j in 0..n
            invariant
                n == pow2(t as nat),
                off == n - 1,
                off + n < SLOT,
                out@.len() == SLOT,
                before.len() == SLOT,
                acc == residue(pow(root as int, j as nat)),
                forall|k: int| 0 <= k < off ==> #[trigger] out@[k] == before[k],
                forall|k: int| off + j <= k < SLOT ==> #[trigger] out@[k] == before[k],
                forall|i: int|
                    0 <= i < j ==> #[trigger] out@[off + i] == residue(pow(root as int, i as nat)),
        {
            out.set(off + j, acc);
            proof {
                lemma_residue_is_remainder(acc * root);
                lemma_next_power(root as int, j as nat);
            }
            acc = mul_mod(acc, root).0;
        }
        off = off + n;
        proof {
            assert forall|s2: nat, j: int| 1 <= s2 <= t + 1 && 0 <= j < pow2((s2 - 1) as nat) implies
                #[trigger] out@[stage_start(s2) + j] == residue(
                pow(two_adic_root(s2), j as nat),
            ) by {
                if s2 <= t {
                    lemma_pow2_unfold(s2);
                    if s2 < t {
                        lemma_pow2_strictly_increases(s2, t as nat);
                    }
                    assert(out@[stage_start(s2) + j] == before[stage_start(s2) + j]);
                } else {
                    assert(s2 == s);
                    assert(out@[(n - 1) + j] == residue(pow(root as int, j as nat)));
                }
            }
            assert forall|k: int| pow2((t + 1) as nat) - 1 <= k < out@.len() implies #[trigger] out@[k]
                == 0 by {
                assert(out@[k] == before[k]);
            }
        }
    }
    out
}

/// What a device instance remembers.
pub ghost struct DeviceState {
    /// The words and the address of the working buffer: the matrix and, behind
    /// it, the column-major scratch.
    pub work_words: usize,
    pub work_addr: u64,
    /// The words and the address of the buffer with one table slot per size. It is
    /// never reallocated, so that offsets stay stable.
    pub table_words: usize,
    pub table_addr: u64,
    /// The sizes whose table is on the device.
    pub uploaded: Seq<bool>,
}

/// The device buffers of a transform.
struct CudaNtt {
    work: CudaBuffer,
    tables: CudaBuffer,
    uploaded: Vec<bool>,
}

/// What has to happen next in a transform of a matrix of `h` rows of width `w`.
#[derive(Clone, Copy, Debug, PartialEq, Eq)]
pub enum DftAction {
    /// Return the matrix as it is.
    Identity,
    /// Transform the matrix on the host.
    Cpu,
    /// Copy the table of size `lg` to word `offset` of the table buffer, and
    /// wait for the device.
    UploadTwiddles { lg: u32, offset: usize },
    /// Allocate a larger working buffer.
    Allocate { bytes: usize },
    /// Copy the matrix to the start of the working buffer.
    CopyIn { words: usize },
    /// Run the kernel on `2^lg` rows of width `width`, with scratch memory from
    /// word `scratch` of the working buffer on and the table at word `twiddles`
    /// of the table buffer.
    Transform { lg: u32, width: usize, scratch: usize, twiddles: usize },
    /// Copy the result back from the start of the working buffer.
    CopyOut { words: usize },
    /// The words copied back are the result.
    Finish,
}

/// Where the table of size `lg` starts in the table buffer.
pub open spec fn slot_start(lg: nat) -> int {
    lg * SLOT
}

/// The next action once the tables are there.
pub open spec fn load_action(state: DeviceState, n: int) -> DftAction {
    if 2 * n <= state.work_words {
        DftAction::CopyIn { words: n as usize }
    } else {
        DftAction::Allocate { bytes: (16 * n) as usize }
    }
}

/// The first action of a transform.
pub open spec fn first_action(state: Option<DeviceState>, h: int, w: int) -> DftAction {
    let lg = log2(h as nat);
    if h <= 1 {
        DftAction::Identity
    } else {
        match state {
            None => DftAction::Cpu,
            Some(s) => if s.uploaded[lg as int] {
                load_action(s, h * w)
            } else {
                DftAction::UploadTwiddles { lg: lg as u32, offset: slot_start(lg) as usize }
            },
        }
    }
}

/// What the reply to a device call leads to: the new state of the device and
/// the next action. A call that failed leaves the transform to the host.
pub open spec fn next_action(
    state: DeviceState,
    h: int,
    w: int,
    done: DftAction,
    reply: Allocation,
) -> (DeviceState, DftAction) {
    let lg = log2(h as nat);
    let n = h * w;
    match done {
        DftAction::UploadTwiddles { .. } => if reply.code == CUDART_OK {
            let marked = DeviceState { uploaded: state.uploaded.update(lg as int, true), ..state };
            (marked, load_action(marked, n))
        } else {
            (state, DftAction::Cpu)
        },
        DftAction::Allocate { .. } => if 2 * n <= state.work_words {
            (state, DftAction::CopyIn { words: n as usize })
        } else if reply.succeeded() {
            (
                DeviceState { work_words: (2 * n) as usize, work_addr: reply.ptr, ..state },
                DftAction::CopyIn { words: n as usize },
            )
        } else {
            (state, DftAction::Cpu)
        },
        DftAction::CopyIn { .. } => if reply.code == CUDART_OK {
            (
                state,
                DftAction::Transform {
                    lg: lg as u32,
                    width: w as usize,
                    scratch: n as usize,
                    twiddles: slot_start(lg) as usize,
                },
            )
        } else {
            (state, DftAction::Cpu)
        },
        DftAction::Transform { .. } => if reply.code == CUDART_OK {
            (state, DftAction::CopyOut { words: n as usize })
        } else {
            (state, DftAction::Cpu)
        },
        DftAction::CopyOut { .. } => if reply.code == CUDART_OK {
            (state, DftAction::Finish)
        } else {
            (state, DftAction::Cpu)
        },
        _ => (state, done),
    }
}

/// A matrix that a device can transform: its height is a power of two with a
/// table, and the working buffer for it can be addressed.
pub open spec fn device_size(h: int, w: int) -> bool {
    &&& is_pow2(h as nat)
    &&& log2(h as nat) <= MAX_LG
    &&& 0 <= 16 * (h * w) <= usize::MAX
}

/// `TwoAdicSubgroupDft` on a device, falling back to the host transform when
/// there is none.
pub struct CudaDft {
    gpu: Option<CudaNtt>,
}

impl View for CudaDft {
    type V = Option<DeviceState>;

    closed spec fn view(&self) -> Option<DeviceState> {
        match self.gpu {
            None => None,
            Some(ntt) => Some(
                DeviceState {
                    work_words: ntt.work.words(),
                    work_addr: ntt.work.addr(),
                    table_words: ntt.tables.words(),
                    table_addr: ntt.tables.addr(),
                    uploaded: ntt.uploaded@,
                },
            ),
        }
    }
}

impl CudaDft {
    /// The table buffer has a slot for every size, and none else is uploaded.
    #[verifier::type_invariant]
    spec fn inv(self) -> bool {
        self.gpu matches Some(ntt) ==> ntt.uploaded@.len() == MAX_LG + 1 && ntt.tables.words()
            == TABLE_WORDS
    }

    /// Build the device-backed transform from the two allocations it needs, of
    /// [`WORK_WORDS`] and [`TABLE_WORDS`] words, falling back to the host when
    /// one of them was not to be had.
    pub fn new(work: Allocation, tables: Allocation) -> (r: CudaDft)
        ensures
            r@ == (if work.succeeded() && tables.succeeded() {
                Some(
                    DeviceState {
                        work_words: WORK_WORDS,
                        work_addr: work.ptr,
                        table_words: TABLE_WORDS,
                        table_addr: tables.ptr,
                        uploaded: Seq::new(MAX_LG as nat + 1, |i: int| false),
                    },
                )
            } else {
                None
            }),
    {
        match (CudaBuffer::new(WORK_WORDS, work), CudaBuffer::new(TABLE_WORDS, tables)) {
            (Some(work), Some(tables)) => {
                let mut uploaded: Vec<bool> = Vec::new();
                for lg in 0..MAX_LG + 1
                    invariant
                        uploaded@.len() == lg,
                        forall|i: int| 0 <= i < lg ==> #[trigger] uploaded@[i] == false,
                {
                    uploaded.push(false);
                }
                assert(uploaded@ =~= Seq::new(MAX_LG as nat + 1, |i: int| false));
                CudaDft { gpu: Some(CudaNtt { work, tables, uploaded }) }
            },
            _ => CudaDft { gpu: None },
        }
    }

    /// Whether this instance is backed by a GPU.
    pub fn is_cuda(&self) -> (r: bool)
        ensures
            r == (self@ is Some),
    {
        self.gpu.is_some()
    }

    /// The addresses of the working buffer and of the table buffer.
    pub fn pointers(&self) -> (r: Option<(u64, u64)>)
        ensures
            r == (match self@ {
                None => None,
                Some(s) => Some((s.work_addr, s.table_addr)),
            }),
    {
        match &self.gpu {
            None => None,
            Some(ntt) => Some((ntt.work.ptr(), ntt.tables.ptr())),
        }
    }

    /// The first action of a transform.
    pub fn begin(&self, h: usize, w: usize) -> (r: DftAction)
        requires
            h > 1 && self@ is Some ==> device_size(h as int, w as int),
        ensures
            r == first_action(self@, h as int, w as int),
    {
        proof {
            use_type_invariant(self);
        }
        if h <= 1 {
            return DftAction::Identity;
        }
        match &self.gpu {
            None => DftAction::Cpu,
            Some(ntt) => {
                let lg: usize = trailing_zeros(h);
                if ntt.uploaded[lg] {
                    load(ntt, h * w)
                } else {
                    DftAction::UploadTwiddles { lg: lg as u32, offset: lg * SLOT }
                }
            },
        }
    }

    /// The action that follows on the reply to the device call `done`.
    pub fn step(&mut self, h: usize, w: usize, done: DftAction, reply: Allocation) -> (r: DftAction)
        requires
            old(self)@ is Some,
            h > 1,
            device_size(h as int, w as int),
        ensures
            final(self)@ is Some,
            (final(self)@->0, r) == next_action(old(self)@->0, h as int, w as int, done, reply),
    {
        proof {
            use_type_invariant(&*self);
        }
        let lg: usize = trailing_zeros(h);
        let n: usize = h * w;
        let ok = reply.code == CUDART_OK;
        let mut gpu: Option<CudaNtt> = None;
        core::mem::swap(&mut gpu, &mut self.gpu);
        match gpu {
            None => DftAction::Cpu,
            Some(mut ntt) => {
                let next = match done {
                    DftAction::UploadTwiddles { .. } => {
                        if ok {
                            ntt.uploaded.set(lg, true);
                            load(&ntt, n)
                        } else {
                            DftAction::Cpu
                        }
                    },
                    DftAction::Allocate { .. } => {
                        if ntt.work.grow(2 * n, reply).is_some() {
                            DftAction::CopyIn { words: n }
                        } else {
                            DftAction::Cpu
                        }
                    },
                    DftAction::CopyIn { .. } => {
                        if ok {
                            DftAction::Transform {
                                lg: lg as u32,
                                width: w,
                                scratch: n,
                                twiddles: lg * SLOT,
                            }
                        } else {
                            DftAction::Cpu
                        }
                    },
                    DftAction::Transform { .. } => {
                        if ok {
                            DftAction::CopyOut { words: n }
                        } else {
                            DftAction::Cpu
                        }
                    },
                    DftAction::CopyOut { .. } => {
                        if ok {
                            DftAction::Finish
                        } else {
                            DftAction::Cpu
                        }
                    },
                    other => other,
                };
                self.gpu = Some(ntt);
                next
            },
        }
    }
}

/// The height of a row-major matrix.
pub open spec fn height_of(len: int, w: int) -> int {
    if w == 0 {
        0
    } else {
        len / w
    }
}

impl CudaDft {
    /// The transform of each column of a row-major matrix of the given width.
    /// A matrix of at most one row is its own transform. `device` holds the
    /// words that a device run copied back, if it finished; otherwise, or
    /// without a device, the host transforms the matrix.
    pub fn dft_batch(
        &self,
        values: Vec<Goldilocks>,
        width: usize,
        device: Option<Vec<u64>>,
    ) -> (r: Vec<Goldilocks>)
        requires
            ({
                let h = height_of(values@.len() as int, width as int);
                h > 1 && (self@ is None || device is None) ==> {
                    &&& values@.len() == h * width
                    &&& is_pow2(h as nat)
                    &&& log2(h as nat) <= 32
                }
            }),
        ensures
            ({
                let h = height_of(values@.len() as int, width as int);
                &&& h <= 1 ==> r@ == values@
                &&& h > 1 && (self@ is None || device is None) ==> is_dft(
                    ints(r@),
                    ints(values@),
                    log2(h as nat),
                    width as int,
                )
                &&& h > 1 && self@ is Some ==> (device matches Some(words) ==> {
                    &&& r@.len() == words@.len()
                    &&& forall|i: int|
                        0 <= i < words@.len() ==> (#[trigger] r@[i])@ == residue(words@[i] as int)
                })
            }),
    {
        let h: usize = if width == 0 {
            0
        } else {
            values.len() / width
        };
        if h <= 1 {
            return values;
        }
        if self.is_cuda() {
            if let Some(words) = device {
                return elements(&words);
            }
        }
        let words = canonical(&values);
        assert(word_ints(words@) =~= ints(values@));
        let out = cpu_dft(words, h, width);
        let r = elements(&out);
        proof {
            let (lg, w) = (log2(h as nat), width as int);
            assert forall|i: int, c: int| 0 <= i < pow2(lg) && 0 <= c < w implies #[trigger] ints(
                r@,
            )[i * w + c] == residue(
                dft_value(column(ints(values@), w, c), two_adic_root(lg), i as nat),
            ) by {
                assert(0 <= i * w + c < h * w) by (nonlinear_arith)
                    requires
                        0 <= i < h,
                        0 <= c < w,
                ;
                assert(word_ints(out@)[i * w + c] == residue(
                    dft_value(column(ints(values@), w, c), two_adic_root(lg), i as nat),
                ));
                lemma_residue_residue(
                    dft_value(column(ints(values@), w, c), two_adic_root(lg), i as nat),
                );
            }
        }
        r
    }
}

/// The canonical words of a sequence of elements.
fn canonical(values: &Vec<Goldilocks>) -> (r: Vec<u64>)
    ensures
        r@.len() == values@.len(),
        forall|i: int| 0 <= i < r@.len() ==> #[trigger] r@[i] == values@[i]@,
{
    let mut r: Vec<u64> = Vec::new();
    for i in 0..values.len()
        invariant
            r@.len() == i,
            forall|k: int| 0 <= k < i ==> #[trigger] r@[k] == values@[k]@,
    {
        r.push(values[i].as_canonical_u64());
    }
    r
}

/// The elements that a sequence of words stands for.
pub(crate) fn elements(words: &[u64]) -> (r: Vec<Goldilocks>)
    ensures
        r@.len() == words@.len(),
        forall|i: int| 0 <= i < r@.len() ==> (#[trigger] r@[i])@ == residue(words@[i] as int),
{
    let mut r: Vec<Goldilocks> = Vec::new();
    for i in 0..words.len()
        invariant
            r@.len() == i,
            forall|k: int| 0 <= k < i ==> (#[trigger] r@[k])@ == residue(words@[k] as int),
    {
        r.push(Goldilocks::from_u64(words[i]));
    }
    r
}

/// How far a transform has come.
pub open spec fn rank(action: DftAction) -> int {
    match action {
        DftAction::UploadTwiddles { .. } => 0,
        DftAction::Allocate { .. } => 1,
        DftAction::CopyIn { .. } => 2,
        DftAction::Transform { .. } => 3,
        DftAction::CopyOut { .. } => 4,
        _ => 5,
    }
}

/// Nothing has to be asked of the device any more.
pub open spec fn is_over(action: DftAction) -> bool {
    action is Identity || action is Cpu || action is Finish
}

/// The device is ready for the action: every word that it names lies inside its
/// buffer, the scratch memory does not overlap the matrix, and the kernel finds
/// the table of its size.
pub open spec fn ready(state: DeviceState, h: int, w: int, action: DftAction) -> bool {
    let lg = log2(h as nat);
    let n = h * w;
    &&& state.uploaded.len() == MAX_LG + 1
    &&& state.table_words == TABLE_WORDS
    &&& match action {
        DftAction::UploadTwiddles { lg: l, offset } => l == lg && offset == slot_start(lg) && offset
            + SLOT <= state.table_words,
        DftAction::Allocate { bytes } => state.uploaded[lg as int] && bytes == 2 * n * 8,
        DftAction::CopyIn { words } => state.uploaded[lg as int] && words == n && 2 * n
            <= state.work_words,
        DftAction::Transform { lg: l, width, scratch, twiddles } => {
            &&& state.uploaded[lg as int]
            &&& l == lg && width == w
            &&& scratch == n && scratch + n <= state.work_words
            &&& twiddles == slot_start(lg) && twiddles + SLOT <= state.table_words
        },
        DftAction::CopyOut { words } => words == n && 2 * n <= state.work_words,
        _ => true,
    }
}

/// The device is ready for the first action of a transform.
pub proof fn lemma_first_ready(state: DeviceState, h: usize, w: usize)
    requires
        h > 1,
        device_size(h as int, w as int),
        state.uploaded.len() == MAX_LG + 1,
        state.table_words == TABLE_WORDS,
    ensures
        ready(state, h as int, w as int, first_action(Some(state), h as int, w as int)),
{
}

/// A transform moves on with every reply, so that it takes at most five device
/// calls. The device is ready for each of them, keeps every table it has, and
/// its working buffer never shrinks. After a call that failed the host takes
/// over, and only a run in which every call succeeded finishes on the device.
pub proof fn lemma_next_ready(
    state: DeviceState,
    h: usize,
    w: usize,
    done: DftAction,
    reply: Allocation,
)
    requires
        h > 1,
        device_size(h as int, w as int),
        ready(state, h as int, w as int, done),
        !is_over(done),
    ensures
        ({
            let (after, next) = next_action(state, h as int, w as int, done, reply);
            &&& ready(after, h as int, w as int, next)
            &&& rank(next) > rank(done)
            &&& after.work_words >= state.work_words
            &&& after.table_addr == state.table_addr
            &&& after.table_words == state.table_words
            &&& forall|i: int|
                0 <= i <= MAX_LG && state.uploaded[i] ==> #[trigger] after.uploaded[i]
            &&& reply.code != CUDART_OK && (done is Allocate ==> 2 * (h * w) > state.work_words)
                ==> next is Cpu
            &&& next is Finish ==> done is CopyOut && reply.code == CUDART_OK
            &&& !(next is Identity)
        }),
{
}

fn load(ntt: &CudaNtt, n: usize) -> (r: DftAction)
    requires
        16 * n <= usize::MAX,
    ensures
        r == (if 2 * n <= ntt.work.words() {
            DftAction::CopyIn { words: n }
        } else {
            DftAction::Allocate { bytes: (16 * n) as usize }
        }),
{
    match ntt.work.growth(2 * n) {
        None => DftAction::CopyIn { words: n },
        Some(bytes) => DftAction::Allocate { bytes },
    }
}

/// The twiddles of a stage start with one, and each is the one before it times the root of
/// the stage. The stages follow one another without a gap.
pub proof fn lemma_twiddles(table: Seq<u64>, lg: nat, s: nat, j: int)
    requires
        is_twiddles(table, lg),
        1 <= s <= lg,
        0 <= j,
        j + 1 < pow2((s - 1) as nat),
    ensures
        stage_start(1) == 0,
        stage_start(s + 1) == stage_start(s) + pow2((s - 1) as nat),
        table[stage_start(s)] == 1,
        table[stage_start(s) + j + 1] == residue(
            table[stage_start(s) + j] as int * two_adic_root(s),
        ),
{
    vstd::arithmetic::power2::lemma2_to64();
    lemma_pow2_unfold(s);
    let g = two_adic_root(s);
    assert(table[stage_start(s) + 0] == residue(pow(g, 0)));
    vstd::arithmetic::power::lemma_pow0(g);
    lemma_residue_small(1);
    assert(table[stage_start(s) + (j + 1)] == residue(pow(g, (j + 1) as nat)));
    assert(table[stage_start(s) + j] == residue(pow(g, j as nat)));
    lemma_next_power(g, j as nat);
}

/// The tables of different sizes lie in different places of the table buffer, and inside
/// it.
pub proof fn lemma_slots_disjoint(a: nat, b: nat)
    requires
        a < b <= MAX_LG,
    ensures
        0 <= slot_start(a),
        slot_start(a) + SLOT <= slot_start(b),
        slot_start(b) + SLOT <= TABLE_WORDS,
{
    assert(a * SLOT + SLOT <= b * SLOT) by (nonlinear_arith)
        requires
            a + 1 <= b,
    ;
}

/// What follows a device call that succeeded: after the upload, which marks this size and
/// no other, the copy or the memory for it; after the memory, which becomes the working
/// buffer, the copy; then the kernel, the copy back, and the end. A call that failed
/// leaves the device as it was.
pub proof fn lemma_next_step(
    state: DeviceState,
    h: usize,
    w: usize,
    done: DftAction,
    reply: Allocation,
)
    requires
        h > 1,
        device_size(h as int, w as int),
        ready(state, h as int, w as int, done),
        !is_over(done),
    ensures
        ({
            let (after, next) = next_action(state, h as int, w as int, done, reply);
            let ok = reply.code == CUDART_OK;
            &&& done is UploadTwiddles && ok ==> {
                &&& next is CopyIn || next is Allocate
                &&& after.uploaded == state.uploaded.update(log2(h as nat) as int, true)
                &&& after.work_words == state.work_words && after.work_addr == state.work_addr
            }
            &&& done is Allocate && reply.succeeded() && 2 * (h * w) > state.work_words ==> {
                &&& next is CopyIn
                &&& after.work_words == 2 * (h * w) && after.work_addr == reply.ptr
                &&& after.uploaded == state.uploaded
            }
            &&& done is CopyIn && ok ==> next is Transform && after == state
            &&& done is Transform && ok ==> next is CopyOut && after == state
            &&& done is CopyOut && ok ==> next is Finish && after == state
            &&& next is Cpu ==> after == state
        }),
{
}

/// How a transform starts: a matrix of at most one row is left as it is, without a device
/// the host transforms it, and a table is uploaded only for a size that has none yet. With
/// the table there, the matrix is copied where the working buffer has room for it twice,
/// and otherwise just that room is asked for.
pub proof fn lemma_first_step(state: Option<DeviceState>, h: usize, w: usize)
    requires
        device_size(h as int, w as int),
    ensures
        ({
            let first = first_action(state, h as int, w as int);
            let lg = log2(h as nat);
            let n = h * w;
            &&& h <= 1 ==> first is Identity
            &&& h > 1 && state is None ==> first is Cpu
            &&& h > 1 && state is Some && !state->0.uploaded[lg as int] ==> first
                == (DftAction::UploadTwiddles { lg: lg as u32, offset: (lg * SLOT) as usize })
            &&& h > 1 && state is Some && state->0.uploaded[lg as int] && 2 * n
                <= state->0.work_words ==> first == (DftAction::CopyIn { words: n as usize })
            &&& h > 1 && state is Some && state->0.uploaded[lg as int] && 2 * n
                > state->0.work_words ==> first == (DftAction::Allocate {
                bytes: (16 * n) as usize,
            })
        }),
{
}

} // verus!
