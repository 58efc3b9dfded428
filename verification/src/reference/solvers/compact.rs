//! The out-of-core pieces of the sparse solver, which finalizes columns in
//! increasing value bands: the block store that builds the padded arrays a
//! block of rows at a time and frees final blocks, the column updates read
//! through it, and the sinks that receive finalized values and actions.
use vstd::prelude::*;
use crate::reference::params::MAX_COST;
use vstd::wrapping::u64_specs;
use crate::reference::state::{Action, State};
use crate::reference::value_iterator::{StateSpace, index_of, states_ok, actions_ok, in_grid, lemma_index_bound};
use crate::reference::solvers::fused::{Geom, geom_fits, pad_index, pad_of, in_box, lemma_pad_index, cp_of, pen_of, eval_of, UNREACHED,
    CpCells, action_cost_fused, fused_best, value_of, lemma_buckets};

verus! {

/// Safety factor of the coupling depth in the value band width.
pub const COUPLE_SAFETY: u64 = 4;

/// Saturating product.
pub open spec fn sat_mul(a: u64, b: u64) -> u64 {
    if a * b > u64::MAX { u64::MAX } else { (a * b) as u64 }
}

/// Width of the value band: `COUPLE_SAFETY · max(mx, my, 1) · max(max_pen, 1)`,
/// saturating.
pub fn couple_margin(g: &Geom, max_pen: u64) -> (r: u64)
    ensures
        r == sat_mul(sat_mul(COUPLE_SAFETY, (if g.mx >= g.my { if g.mx >= 1 { g.mx } else { 1 } } else { if g.my >= 1 { g.my } else { 1 } }) as u64),
            if max_pen >= 1 { max_pen } else { 1 }),
{
    let m = if g.mx >= g.my { g.mx } else { g.my };
    let r = if m >= 1 { m } else { 1 };
    let p = if max_pen >= 1 { max_pen } else { 1 };
    let a = match COUPLE_SAFETY.checked_mul(r as u64) { Some(v) => v, None => u64::MAX };
    match a.checked_mul(p) { Some(v) => v, None => u64::MAX }
}

/// Where finalized values and actions go, column by column.
pub trait CompactSink {
    /// Number of states the sink holds.
    spec fn len_spec(&self) -> nat;

    /// The value and action stored for state `orig`.
    spec fn at(&self, orig: int) -> (u64, i32);

    /// Stores `values` and `actions` at states `base ..`.
    fn write_column(&mut self, base: usize, values: &[u64], actions: &[i32])
        requires
            values@.len() == actions@.len(),
            base + values@.len() <= old(self).len_spec(),
        ensures
            final(self).len_spec() == old(self).len_spec(),
            forall|i: int| 0 <= i < old(self).len_spec() ==> #[trigger] final(self).at(i) ==
                if base <= i < base + values@.len() { (values@[i - base], actions@[i - base]) } else { old(self).at(i) };

    /// The value and action of state `orig`; an action below zero means none.
    fn read(&self, orig: usize) -> (r: (u64, i32))
        requires
            orig < self.len_spec(),
        ensures
            r == self.at(orig as int);
}

/// Sink held in memory.
pub struct RamSink {
    total: Vec<u64>,
    action: Vec<i32>,
}

impl RamSink {
    /// Number of states held.
    pub closed spec fn len_of(&self) -> nat {
        if self.total@.len() <= self.action@.len() { self.total@.len() } else { self.action@.len() }
    }

    /// The value and action of state `orig`.
    pub closed spec fn entry(&self, orig: int) -> (u64, i32) {
        (self.total@[orig], self.action@[orig])
    }

    /// Both arrays have one entry per state.
    pub closed spec fn inv(&self) -> bool {
        self.total@.len() == self.action@.len()
    }

    /// A sink of `nstates` states, each with value `MAX_COST` and no action.
    pub fn new(nstates: usize) -> (r: Self)
        ensures
            r.inv(),
            r.len_of() == nstates,
            forall|i: int| 0 <= i < nstates ==> #[trigger] r.entry(i) == (MAX_COST, -1i32),
    {
        let mut total: Vec<u64> = Vec::new();
        let mut action: Vec<i32> = Vec::new();
        let mut i: usize = 0;
        while i < nstates
            invariant
                0 <= i <= nstates,
                total@.len() == i,
                action@.len() == i,
                forall|j: int| 0 <= j < i ==> #[trigger] total@[j] == MAX_COST && action@[j] == -1i32,
            decreases nstates - i,
        {
            total.push(MAX_COST);
            action.push(-1);
            i += 1;
        }
        RamSink { total, action }
    }
}

impl CompactSink for RamSink {
    open spec fn len_spec(&self) -> nat {
        self.len_of()
    }

    open spec fn at(&self, orig: int) -> (u64, i32) {
        self.entry(orig)
    }

    fn write_column(&mut self, base: usize, values: &[u64], actions: &[i32]) {
        let n = values.len();
        let tl = self.total.len();
        let mut k: usize = 0;
        while k < n
            invariant
                0 <= k <= n,
                n == values@.len(),
                values@.len() == actions@.len(),
                base + n <= old(self).len_of(),
                tl == self.total@.len(),
                self.total@.len() == old(self).total@.len(),
                self.action@.len() == old(self).action@.len(),
                forall|i: int| 0 <= i < self.total@.len() ==> #[trigger] self.total@[i] ==
                    if base <= i < base + k { values@[i - base] } else { old(self).total@[i] },
                forall|i: int| 0 <= i < self.action@.len() ==> #[trigger] self.action@[i] ==
                    if base <= i < base + k { actions@[i - base] } else { old(self).action@[i] },
            decreases n - k,
        {
            self.total.set(base + k, values[k]);
            self.action.set(base + k, actions[k]);
            k += 1;
        }
    }

    fn read(&self, orig: usize) -> (r: (u64, i32)) {
        (self.total[orig], self.action[orig])
    }
}

/// Statistics of an out-of-core run.
pub struct CompactStats {
    pub iters: u32,
    pub updates: u64,
    pub converged: bool,
    /// Finalized cells that take part in the update.
    pub finalized: u64,
    /// Reached cells that take part in the update.
    pub reachable: u64,
    /// Largest number of resident non-final reached columns.
    pub peak_resident_cols: u64,
    /// Reached columns.
    pub reachable_cols: u64,
    /// Freed blocks.
    pub freed_blocks: u64,
    /// Largest number of resident blocks.
    pub peak_resident_blocks: u64,
    /// Total blocks.
    pub total_blocks: u64,
}

/// Padded rows per block of the block store.
pub const BLOCK_ROWS: usize = 8;

/// One block of the padded arrays: fused values, penalties, whether each cell
/// takes part in the update, and whether it is final.
pub struct Block {
    pub cp: Vec<u64>,
    pub pen: Vec<u64>,
    pub eval: Vec<bool>,
    pub fin: Vec<bool>,
}

/// The padded arrays cut into blocks of `BLOCK_ROWS` padded rows, each built
/// from the states when first needed and freed once final; per block it
/// counts the cells that take part in the update and those already final.
pub struct BlockStore {
    pub blocks: Vec<Option<Block>>,
    pub n_eval: Vec<usize>,
    pub n_final: Vec<usize>,
    pub evicted: Vec<bool>,
    pub chunk: usize,
    pub n_pad: usize,
    pub row_stride: usize,
    pub nt: i32,
    pub nx: i32,
    pub ny: i32,
    pub mx: i32,
    pub my: i32,
    pub max_pen: u64,
}

/// Number of the cells `0 .. k` of a block that take part in the update and are final.
pub open spec fn final_count(eval: Seq<bool>, fin: Seq<bool>, k: int) -> nat
    decreases k,
{
    if k <= 0 { 0 } else { final_count(eval, fin, k - 1) + if eval[k - 1] && fin[k - 1] { 1nat } else { 0nat } }
}

/// The padded cell `(x, y, t)` at flat padded index `j`.
pub open spec fn pad_cell(j: int, row_stride: int, nt: int, mx: int, my: int) -> (int, int, int) {
    ((j % row_stride) / nt - mx, j / row_stride - my, (j % row_stride) % nt)
}

/// Fused value, penalties and update flag of padded index `j` under `states`:
/// those of the state on that cell, or `(UNREACHED, 0, false)` on the padding.
pub open spec fn cell_entry(states: Seq<State>, j: int, row_stride: int, nx: int, ny: int, nt: int, mx: int, my: int)
    -> (u64, u64, bool)
{
    let c = pad_cell(j, row_stride, nt, mx, my);
    if 0 <= c.0 < nx && 0 <= c.1 < ny {
        let s = states[index_of(c.0, c.1, c.2, nx, nt)];
        (cp_of(s), pen_of(s), eval_of(s))
    } else {
        (UNREACHED, 0u64, false)
    }
}

/// Cells `0 .. i` of `states` that take part in the update and lie in block `b`.
pub open spec fn eval_count(states: Seq<State>, g: Geom, chunk: int, b: int, i: int) -> nat
    decreases i,
{
    if i <= 0 {
        0
    } else {
        eval_count(states, g, chunk, b, i - 1)
            + if eval_of(states[i - 1]) && pad_of(states[i - 1], g) / chunk == b { 1nat } else { 0nat }
    }
}

/// Largest summed penalty of the states `0 .. i`, at least zero.
pub open spec fn pen_max(states: Seq<State>, i: int) -> u64
    decreases i,
{
    if i <= 0 {
        0
    } else {
        let p = pen_max(states, i - 1);
        let q = pen_of(states[i - 1]);
        if q > p { q } else { p }
    }
}

impl BlockStore {
    /// Number of cells of block `b`: the chunk, or what is left of the padded grid.
    pub open spec fn block_len(&self, b: int) -> int {
        if self.n_pad - b * self.chunk < self.chunk { self.n_pad - b * self.chunk } else { self.chunk as int }
    }

    /// Block `b` is built.
    pub open spec fn allocated(&self, b: int) -> bool {
        self.blocks@[b] is Some
    }

    /// The block holding padded index `i`.
    pub open spec fn block_of(&self, i: int) -> int {
        i / (self.chunk as int)
    }

    /// The built block `b`.
    pub open spec fn blk(&self, b: int) -> Block {
        self.blocks@[b]->0
    }

    /// Fused value at padded index `i` of a built block.
    pub open spec fn cp_at(&self, i: int) -> u64 {
        self.blk(self.block_of(i)).cp@[i - self.block_of(i) * self.chunk]
    }

    /// Penalties at padded index `i` of a built block.
    pub open spec fn pen_at(&self, i: int) -> u64 {
        self.blk(self.block_of(i)).pen@[i - self.block_of(i) * self.chunk]
    }

    /// Update flag at padded index `i` of a built block.
    pub open spec fn eval_at(&self, i: int) -> bool {
        self.blk(self.block_of(i)).eval@[i - self.block_of(i) * self.chunk]
    }

    /// Final flag at padded index `i` of a built block.
    pub open spec fn fin_at(&self, i: int) -> bool {
        self.blk(self.block_of(i)).fin@[i - self.block_of(i) * self.chunk]
    }

    /// The blocks cover the padded grid, a freed block stays unbuilt, each
    /// built block has its length in every array and counts its final cells,
    /// and an unbuilt block that was never freed counts none.
    pub open spec fn wf(&self) -> bool {
        &&& 0 <= self.nx
        &&& 0 <= self.ny
        &&& 1 <= self.nt
        &&& 1 <= self.mx
        &&& 1 <= self.my
        &&& geom_fits(self.nx as int, self.ny as int, self.nt as int, self.mx as int, self.my as int)
        &&& self.row_stride == self.nt * (self.nx + 2 * self.mx)
        &&& self.chunk == BLOCK_ROWS * self.row_stride
        &&& self.n_pad == self.row_stride * (self.ny + 2 * self.my)
        &&& self.chunk >= 1
        &&& self.n_eval@.len() == self.blocks@.len()
        &&& self.n_final@.len() == self.blocks@.len()
        &&& self.evicted@.len() == self.blocks@.len()
        &&& (self.blocks@.len() - 1) * self.chunk < self.n_pad <= self.blocks@.len() * self.chunk || (self.n_pad == 0 && self.blocks@.len() == 0)
        &&& forall|b: int| #![trigger self.blocks@[b]] #![trigger self.evicted@[b]] #![trigger self.n_final@[b]]
            0 <= b < self.blocks@.len() ==> {
            &&& (self.evicted@[b] ==> self.blocks@[b] is None)
            &&& (self.blocks@[b] is None && !self.evicted@[b] ==> self.n_final@[b] == 0)
            &&& (self.blocks@[b] matches Some(blk) ==> {
                &&& blk.cp@.len() == self.block_len(b)
                &&& blk.pen@.len() == self.block_len(b)
                &&& blk.eval@.len() == self.block_len(b)
                &&& blk.fin@.len() == self.block_len(b)
                &&& self.n_final@[b] == final_count(blk.eval@, blk.fin@, self.block_len(b))
            })
        }
    }

    /// The geometry fields are those of `g` and the chunk is `BLOCK_ROWS` padded rows.
    pub open spec fn laid_out(&self, g: Geom) -> bool {
        &&& self.nt == g.nt
        &&& self.nx == g.nx
        &&& self.ny == g.ny
        &&& self.mx == g.mx
        &&& self.my == g.my
        &&& self.row_stride == g.row_stride
        &&& self.chunk == BLOCK_ROWS * self.row_stride
        &&& self.n_pad == g.pad_len()
    }
}

/// Requirements on the geometry of a block store: a padded grid with at least
/// one heading whose blocks fit `usize`.
pub open spec fn store_geom_ok(g: Geom) -> bool {
    &&& 0 <= g.nx
    &&& 0 <= g.ny
    &&& 1 <= g.nt
    &&& 1 <= g.mx
    &&& 1 <= g.my
    &&& geom_fits(g.nx as int, g.ny as int, g.nt as int, g.mx as int, g.my as int)
    &&& g.row_stride == g.nt * (g.nx + 2 * g.mx)
    &&& BLOCK_ROWS * g.row_stride <= usize::MAX
}

impl BlockStore {
    /// A store with no block built: counts the cells of each block that take
    /// part in the update, and the largest summed penalty of the states.
    pub fn new(g: &Geom, states: &Vec<State>) -> (r: BlockStore)
        requires
            store_geom_ok(*g),
            states_ok(states@, g.nx as int, g.ny as int, g.nt as int),
        ensures
            r.wf(),
            r.laid_out(*g),
            r.max_pen == pen_max(states@, states@.len() as int),
            forall|b: int| 0 <= b < r.blocks@.len() ==> {
                &&& !(#[trigger] r.allocated(b))
                &&& !r.evicted@[b]
                &&& r.n_final@[b] == 0
                &&& r.n_eval@[b] == eval_count(states@, *g, r.chunk as int, b, states@.len() as int)
            },
    {
        let ghost st = states@;
        let ghost nx = g.nx as int;
        let ghost ny = g.ny as int;
        let ghost nt = g.nt as int;
        proof {
            assert(1 <= g.row_stride) by (nonlinear_arith)
                requires g.row_stride == g.nt * (g.nx + 2 * g.mx), 1 <= g.nt, 1 <= g.nx + 2 * g.mx;
        }
        let row_stride = g.row_stride as usize;
        let chunk = BLOCK_ROWS * row_stride;
        let n_pad = g.n_pad();
        proof {
            vstd::arithmetic::div_mod::lemma_fundamental_div_mod(n_pad as int, chunk as int);
            assert(chunk >= 8);
            assert(n_pad / chunk <= n_pad / 8) by {
                vstd::arithmetic::div_mod::lemma_div_is_ordered_by_denominator(n_pad as int, 8, chunk as int);
            }
        }
        let nblk = n_pad / chunk + if n_pad % chunk != 0 { 1 } else { 0 };
        proof {
            assert(nblk * chunk >= n_pad && (nblk == 0 || (nblk - 1) * chunk < n_pad)) by (nonlinear_arith)
                requires nblk == n_pad / chunk + if n_pad % chunk != 0 { 1int } else { 0int }, chunk >= 1,
                    n_pad == chunk * (n_pad / chunk) + n_pad % chunk, 0 <= n_pad % chunk < chunk;
        }
        let mut blocks: Vec<Option<Block>> = Vec::new();
        let mut n_eval: Vec<usize> = Vec::new();
        let mut n_final: Vec<usize> = Vec::new();
        let mut evicted: Vec<bool> = Vec::new();
        let mut b: usize = 0;
        while b < nblk
            invariant
                0 <= b <= nblk,
                blocks@.len() == b,
                n_eval@.len() == b,
                n_final@.len() == b,
                evicted@.len() == b,
                forall|k: int| 0 <= k < b ==> (#[trigger] blocks@[k]) is None && n_eval@[k] == 0 && n_final@[k] == 0 && !evicted@[k],
            decreases nblk - b,
        {
            blocks.push(None);
            n_eval.push(0);
            n_final.push(0);
            evicted.push(false);
            b += 1;
        }
        proof {
            assert forall|k: int| 0 <= k < nblk implies #[trigger] n_eval@[k] == 0 by {
                assert(blocks@[k] is None);
            }
        }
        let ghost blocks0 = blocks@;
        let mut max_pen: u64 = 0;
        let mut i: usize = 0;
        while i < states.len()
            invariant
                0 <= i <= st.len(),
                st == states@,
                states_ok(st, nx, ny, nt),
                store_geom_ok(*g),
                nx == g.nx,
                ny == g.ny,
                nt == g.nt,
                row_stride == g.row_stride,
                chunk == BLOCK_ROWS * row_stride,
                chunk >= 1,
                n_pad == g.pad_len(),
                nblk * chunk >= n_pad,
                nblk == 0 || (nblk - 1) * chunk < n_pad,
                n_eval@.len() == nblk,
                n_final@.len() == nblk,
                evicted@.len() == nblk,
                blocks@.len() == nblk,
                max_pen == pen_max(st, i as int),
                forall|k: int| 0 <= k < nblk ==> #[trigger] n_eval@[k] == eval_count(st, *g, chunk as int, k, i as int),
                forall|k: int| 0 <= k < nblk ==> #[trigger] n_eval@[k] <= i,
            decreases st.len() - i,
        {
            let s = states[i];
            let p = s.penalty.wrapping_add(s.local_penalty);
            if p > max_pen {
                max_pen = p;
            }
            proof {
                assert(st[i as int] == s);
                assert(in_grid(s, nx, ny, nt));
                assert(in_box(*g, s.ix as int, s.iy as int, s.it as int));
                lemma_pad_index(*g, s.ix as int, s.iy as int, s.it as int, s.ix as int, s.iy as int, s.it as int);
                assert(st.len() <= i32::MAX);
            }
            let ghost old_ne = n_eval@;
            if s.free && !s.final_state {
                let col = g.pad_col(s.ix, s.iy);
                proof {
                    assert(g.pad_len() <= 0x7fff_ffff * 0x7fff_ffff) by (nonlinear_arith)
                        requires 0 <= g.row_stride <= 0x7fff_ffff, 0 <= g.ny + 2 * g.my <= 0x7fff_ffff,
                            g.pad_len() == g.row_stride * (g.ny + 2 * g.my);
                    assert(s.it + col == pad_of(s, *g));
                }
                let pad_idx = (s.it as i64 + col) as usize;
                let bi = pad_idx / chunk;
                proof {
                    assert(bi < nblk) by (nonlinear_arith)
                        requires bi == pad_idx / chunk, pad_idx < n_pad, nblk * chunk >= n_pad, chunk >= 1;
                }
                let cur = n_eval[bi];
                n_eval.set(bi, cur + 1);
            }
            proof {
                assert forall|k: int| 0 <= k < nblk implies #[trigger] n_eval@[k] == eval_count(st, *g, chunk as int, k, i + 1) by {
                    assert(old_ne[k] == eval_count(st, *g, chunk as int, k, i as int));
                }
            }
            i += 1;
        }
        proof {
            assert forall|k: int| 0 <= k < nblk implies (#[trigger] blocks@[k]) is None && n_final@[k] == 0 && !evicted@[k] by {
                assert(blocks0[k] is None);
            }
        }
        let r = BlockStore {
            blocks, n_eval, n_final, evicted, chunk, n_pad, row_stride,
            nt: g.nt, nx: g.nx, ny: g.ny, mx: g.mx, my: g.my, max_pen,
        };
        proof {
            assert(r.row_stride == r.nt * (r.nx + 2 * r.mx));
            assert(r.n_pad == r.row_stride * (r.ny + 2 * r.my));
            assert(r.chunk >= 1);
            let nb = r.blocks@.len() as int;
            let c = r.chunk as int;
            let np = r.n_pad as int;
            assert((nb - 1) * c < np <= nb * c || (np == 0 && nb == 0)) by (nonlinear_arith)
                requires nb == nblk, c == chunk, np == n_pad, nb * c >= np, nb == 0 || (nb - 1) * c < np, np >= 0, c >= 1;
        }
        r
    }
}

/// Number of built blocks among `blocks[0 .. k]`.
pub open spec fn built_count(blocks: Seq<Option<Block>>, k: int) -> nat
    decreases k,
{
    if k <= 0 { 0 } else { built_count(blocks, k - 1) + if blocks[k - 1] is Some { 1nat } else { 0nat } }
}

/// Setting one more cell final adds one to the count when it takes part in
/// the update and was not final; the count never exceeds the cells counted.
proof fn lemma_final_count(eval: Seq<bool>, fin: Seq<bool>, k: int, off: int)
    requires
        0 <= k <= eval.len(),
        eval.len() == fin.len(),
        0 <= off < eval.len(),
    ensures
        final_count(eval, fin, k) <= k,
        final_count(eval, fin.update(off, true), k)
            == final_count(eval, fin, k) + if off < k && eval[off] && !fin[off] { 1nat } else { 0nat },
    decreases k,
{
    if k > 0 {
        lemma_final_count(eval, fin, k - 1, off);
    }
}

impl BlockStore {
    /// Padded index `i` lies in a block of the store, at an offset inside that block.
    proof fn lemma_locate(&self, i: int)
        requires
            self.wf(),
            0 <= i < self.n_pad,
        ensures
            0 <= self.block_of(i) < self.blocks@.len(),
            0 <= i - self.block_of(i) * self.chunk < self.block_len(self.block_of(i)),
    {
        let c = self.chunk as int;
        vstd::arithmetic::div_mod::lemma_fundamental_div_mod(i, c);
        let b = i / c;
        assert(0 <= b) by (nonlinear_arith) requires 0 <= i, c >= 1, b == i / c;
        assert(b * c <= i < b * c + c) by (nonlinear_arith) requires i == c * (i / c) + i % c, 0 <= i % c < c, b == i / c;
        let nb = self.blocks@.len() as int;
        assert(b < nb) by (nonlinear_arith)
            requires b * c <= i, i < self.n_pad, self.n_pad <= nb * c, c >= 1;
    }

    /// The fused values of all padded indices, read in their blocks.
    pub open spec fn cps(&self) -> Seq<u64> {
        Seq::new(self.n_pad as nat, |j: int| self.cp_at(j))
    }

    /// The penalties of all padded indices, read in their blocks.
    pub open spec fn pens(&self) -> Seq<u64> {
        Seq::new(self.n_pad as nat, |j: int| self.pen_at(j))
    }

    /// The update flags of all padded indices, read in their blocks.
    pub open spec fn evals(&self) -> Seq<bool> {
        Seq::new(self.n_pad as nat, |j: int| self.eval_at(j))
    }

    /// The final flags of all padded indices, read in their blocks.
    pub open spec fn fins(&self) -> Seq<bool> {
        Seq::new(self.n_pad as nat, |j: int| self.fin_at(j))
    }

    /// Penalties at padded index `i`, whose block is built.
    pub fn pen(&self, i: usize) -> (r: u64)
        requires
            self.wf(),
            i < self.n_pad,
            self.allocated(self.block_of(i as int)),
        ensures
            r == self.pen_at(i as int),
    {
        proof {
            self.lemma_locate(i as int);
        }
        let b = i / self.chunk;
        let off = i - b * self.chunk;
        match &self.blocks[b] {
            Some(blk) => blk.pen[off],
            None => 0,
        }
    }

    /// Whether padded index `i`, whose block is built, takes part in the update.
    pub fn eval_ok(&self, i: usize) -> (r: bool)
        requires
            self.wf(),
            i < self.n_pad,
            self.allocated(self.block_of(i as int)),
        ensures
            r == self.eval_at(i as int),
    {
        proof {
            self.lemma_locate(i as int);
        }
        let b = i / self.chunk;
        let off = i - b * self.chunk;
        match &self.blocks[b] {
            Some(blk) => blk.eval[off],
            None => false,
        }
    }

    /// All fields but the blocks are those of `old`, and the same blocks are built.
    pub open spec fn same_frame(&self, old: BlockStore) -> bool {
        &&& self.blocks@.len() == old.blocks@.len()
        &&& self.n_eval@ == old.n_eval@
        &&& self.evicted@ == old.evicted@
        &&& self.chunk == old.chunk
        &&& self.n_pad == old.n_pad
        &&& self.row_stride == old.row_stride
        &&& self.nt == old.nt
        &&& self.nx == old.nx
        &&& self.ny == old.ny
        &&& self.mx == old.mx
        &&& self.my == old.my
        &&& self.max_pen == old.max_pen
        &&& forall|b: int| 0 <= b < self.blocks@.len() ==> #[trigger] self.allocated(b) == old.allocated(b)
    }

    /// Writes the fused value `v` at padded index `i`, whose block is built.
    pub fn set_cp(&mut self, i: usize, v: u64)
        requires
            old(self).wf(),
            i < old(self).n_pad,
            old(self).allocated(old(self).block_of(i as int)),
        ensures
            final(self).wf(),
            final(self).same_frame(*old(self)),
            final(self).n_final@ == old(self).n_final@,
            forall|b: int| 0 <= b < old(self).blocks@.len() && b != old(self).block_of(i as int) ==>
                #[trigger] final(self).blocks@[b] == old(self).blocks@[b],
            final(self).blk(old(self).block_of(i as int)).cp@
                == old(self).blk(old(self).block_of(i as int)).cp@.update(i - old(self).block_of(i as int) * old(self).chunk, v),
            final(self).blk(old(self).block_of(i as int)).pen@ == old(self).blk(old(self).block_of(i as int)).pen@,
            final(self).blk(old(self).block_of(i as int)).eval@ == old(self).blk(old(self).block_of(i as int)).eval@,
            final(self).blk(old(self).block_of(i as int)).fin@ == old(self).blk(old(self).block_of(i as int)).fin@,
            final(self).cps() == old(self).cps().update(i as int, v),
            final(self).pens() == old(self).pens(),
            final(self).evals() == old(self).evals(),
            final(self).fins() == old(self).fins(),
    {
        proof {
            self.lemma_locate(i as int);
        }
        let ghost o = *self;
        let b = i / self.chunk;
        let off = i - b * self.chunk;
        match &mut self.blocks[b] {
            Some(blk) => {
                blk.cp.set(off, v);
            },
            None => {},
        }
        proof {
            assert forall|j: int| 0 <= j < o.n_pad implies
                #[trigger] self.cps()[j] == o.cps().update(i as int, v)[j] by {
                o.lemma_locate(j);
                if self.block_of(j) == b && j != i {
                    assert(j - b * o.chunk != off);
                }
            }
            assert forall|j: int| 0 <= j < o.n_pad implies #[trigger] self.pens()[j] == o.pens()[j] by {
                o.lemma_locate(j);
            }
            assert forall|j: int| 0 <= j < o.n_pad implies #[trigger] self.evals()[j] == o.evals()[j] by {
                o.lemma_locate(j);
            }
            assert forall|j: int| 0 <= j < o.n_pad implies #[trigger] self.fins()[j] == o.fins()[j] by {
                o.lemma_locate(j);
            }
            assert(self.cps() =~= o.cps().update(i as int, v));
            assert(self.pens() =~= o.pens());
            assert(self.evals() =~= o.evals());
            assert(self.fins() =~= o.fins());
        }
    }
}

impl BlockStore {
    /// Marks padded index `i`, whose block is built, final; the count of its
    /// block grows when the cell takes part in the update and was not final.
    pub fn set_final(&mut self, i: usize)
        requires
            old(self).wf(),
            i < old(self).n_pad,
            old(self).allocated(old(self).block_of(i as int)),
        ensures
            final(self).wf(),
            final(self).same_frame(*old(self)),
            forall|b: int| 0 <= b < old(self).blocks@.len() && b != old(self).block_of(i as int) ==>
                #[trigger] final(self).blocks@[b] == old(self).blocks@[b],
            ({
                let b = old(self).block_of(i as int);
                let off = i - b * old(self).chunk;
                let ob = old(self).blk(b);
                &&& final(self).blk(b).fin@ == ob.fin@.update(off, true)
                &&& final(self).blk(b).cp@ == ob.cp@
                &&& final(self).blk(b).pen@ == ob.pen@
                &&& final(self).blk(b).eval@ == ob.eval@
                &&& final(self).n_final@ == old(self).n_final@.update(b,
                    (old(self).n_final@[b] + if ob.eval@[off] && !ob.fin@[off] { 1int } else { 0int }) as usize)
            }),
            final(self).cps() == old(self).cps(),
            final(self).pens() == old(self).pens(),
            final(self).evals() == old(self).evals(),
            final(self).fins() == old(self).fins().update(i as int, true),
            old(self).fins()[i as int] == old(self).fin_at(i as int),
            old(self).evals()[i as int] == old(self).eval_at(i as int),
            ({
                let b = old(self).block_of(i as int);
                let off = i - b * old(self).chunk;
                old(self).n_final@[b] + (if old(self).blk(b).eval@[off] && !old(self).blk(b).fin@[off] { 1int } else { 0int }) <= usize::MAX
            }),
    {
        let ghost o = *self;
        proof {
            self.lemma_locate(i as int);
        }
        let b = i / self.chunk;
        let off = i - b * self.chunk;
        let ghost ob = self.blk(b as int);
        let ghost len = self.block_len(b as int);
        proof {
            lemma_final_count(ob.eval@, ob.fin@, len, off as int);
            lemma_final_count(ob.eval@, ob.fin@.update(off as int, true), len, off as int);
        }
        match &mut self.blocks[b] {
            Some(blk) => {
                if !blk.fin[off] {
                    blk.fin.set(off, true);
                    if blk.eval[off] {
                        let c = self.n_final[b];
                        self.n_final.set(b, c + 1);
                    }
                }
            },
            None => {},
        }
        proof {
            if ob.fin@[off as int] {
                assert(ob.fin@.update(off as int, true) =~= ob.fin@);
            }
            assert forall|j: int| 0 <= j < o.n_pad implies #[trigger] self.cps()[j] == o.cps()[j] by {
                o.lemma_locate(j);
            }
            assert forall|j: int| 0 <= j < o.n_pad implies #[trigger] self.pens()[j] == o.pens()[j] by {
                o.lemma_locate(j);
            }
            assert forall|j: int| 0 <= j < o.n_pad implies #[trigger] self.evals()[j] == o.evals()[j] by {
                o.lemma_locate(j);
            }
            assert forall|j: int| 0 <= j < o.n_pad implies #[trigger] self.fins()[j] == o.fins().update(i as int, true)[j] by {
                o.lemma_locate(j);
                if self.block_of(j) == b && j != i {
                    assert(j - b * o.chunk != off);
                }
            }
            assert(self.cps() =~= o.cps());
            assert(self.pens() =~= o.pens());
            assert(self.evals() =~= o.evals());
            assert(self.fins() =~= o.fins().update(i as int, true));
        }
    }

    /// Every cell of block `b` that takes part in the update is final.
    pub fn block_full(&self, b: usize) -> (r: bool)
        requires
            self.wf(),
            b < self.blocks@.len(),
        ensures
            r == (self.n_final@[b as int] == self.n_eval@[b as int]),
    {
        self.n_final[b] == self.n_eval[b]
    }

    /// Frees block `b`; it is never built again.
    pub fn evict_block(&mut self, b: usize)
        requires
            old(self).wf(),
            b < old(self).blocks@.len(),
        ensures
            final(self).wf(),
            final(self).blocks@ == old(self).blocks@.update(b as int, None),
            final(self).evicted@ == old(self).evicted@.update(b as int, true),
            final(self).n_eval@ == old(self).n_eval@,
            final(self).n_final@ == old(self).n_final@,
            final(self).chunk == old(self).chunk,
            final(self).n_pad == old(self).n_pad,
            final(self).row_stride == old(self).row_stride,
            final(self).nt == old(self).nt,
            final(self).nx == old(self).nx,
            final(self).ny == old(self).ny,
            final(self).mx == old(self).mx,
            final(self).my == old(self).my,
            final(self).max_pen == old(self).max_pen,
    {
        self.blocks.set(b, None);
        self.evicted.set(b, true);
    }

    /// Number of blocks.
    pub fn nblocks(&self) -> (r: usize)
        ensures
            r == self.blocks@.len(),
    {
        self.blocks.len()
    }

    /// Number of built blocks.
    pub fn resident_blocks(&self) -> (r: usize)
        ensures
            r == built_count(self.blocks@, self.blocks@.len() as int),
    {
        let mut n: usize = 0;
        let mut b: usize = 0;
        while b < self.blocks.len()
            invariant
                0 <= b <= self.blocks@.len(),
                n == built_count(self.blocks@, b as int),
                n <= b,
            decreases self.blocks@.len() - b,
        {
            if self.blocks[b].is_some() {
                n += 1;
            }
            b += 1;
        }
        n
    }

    /// Builds block `b` from the states, unless it is built or was freed: each
    /// cell takes [`cell_entry`] of its padded index, and is final exactly when
    /// it does not take part in the update.
    pub fn ensure_block(&mut self, b: usize, states: &Vec<State>)
        requires
            old(self).wf(),
            b < old(self).blocks@.len(),
            states_ok(states@, old(self).nx as int, old(self).ny as int, old(self).nt as int),
        ensures
            final(self).wf(),
            final(self).same_frame(*old(self)) || !(old(self).allocated(b as int) || old(self).evicted@[b as int]),
            old(self).allocated(b as int) || old(self).evicted@[b as int] ==> *final(self) == *old(self),
            !(old(self).allocated(b as int) || old(self).evicted@[b as int]) ==> {
                &&& final(self).allocated(b as int)
                &&& final(self).n_final@ == old(self).n_final@
                &&& final(self).n_eval@ == old(self).n_eval@
                &&& final(self).evicted@ == old(self).evicted@
                &&& final(self).blocks@.len() == old(self).blocks@.len()
                &&& final(self).chunk == old(self).chunk
                &&& final(self).n_pad == old(self).n_pad
                &&& final(self).row_stride == old(self).row_stride
                &&& final(self).nt == old(self).nt
                &&& final(self).nx == old(self).nx
                &&& final(self).ny == old(self).ny
                &&& final(self).mx == old(self).mx
                &&& final(self).my == old(self).my
                &&& final(self).max_pen == old(self).max_pen
                &&& forall|b2: int| 0 <= b2 < old(self).blocks@.len() && b2 != b ==> #[trigger] final(self).blocks@[b2] == old(self).blocks@[b2]
                &&& forall|o: int| 0 <= o < old(self).block_len(b as int) ==> {
                    let e = #[trigger] cell_entry(states@, b * old(self).chunk + o, old(self).row_stride as int, old(self).nx as int,
                        old(self).ny as int, old(self).nt as int, old(self).mx as int, old(self).my as int);
                    let blk = final(self).blk(b as int);
                    &&& blk.cp@[o] == e.0
                    &&& blk.pen@[o] == e.1
                    &&& blk.eval@[o] == e.2
                    &&& blk.fin@[o] == !e.2
                }
            },
    {
        if self.blocks[b].is_some() || self.evicted[b] {
            return;
        }
        let ghost st = states@;
        let ghost nx = self.nx as int;
        let ghost ny = self.ny as int;
        let ghost nt = self.nt as int;
        let ghost rs = self.row_stride as int;
        let ghost w = nx + 2 * self.mx;
        let ghost h = ny + 2 * self.my;
        proof {
            let c = self.chunk as int;
            let nb = self.blocks@.len() as int;
            assert(b * c < self.n_pad) by (nonlinear_arith)
                requires b < nb, (nb - 1) * c < self.n_pad || nb == 0, c >= 1, b >= 0;
            assert(0 <= rs) by (nonlinear_arith) requires rs == nt * w, 1 <= nt, 1 <= w;
        }
        let start = b * self.chunk;
        let len = if self.n_pad - start < self.chunk { self.n_pad - start } else { self.chunk };
        let mut cp: Vec<u64> = Vec::new();
        let mut pen: Vec<u64> = Vec::new();
        let mut eval: Vec<bool> = Vec::new();
        let mut fin: Vec<bool> = Vec::new();
        let nt_u = self.nt as usize;
        let mut o: usize = 0;
        while o < len
            invariant
                0 <= o <= len,
                len == self.block_len(b as int),
                start == b * self.chunk,
                start + len <= self.n_pad,
                self.wf(),
                st == states@,
                states_ok(st, nx, ny, nt),
                nx == self.nx,
                ny == self.ny,
                nt == self.nt,
                nt_u == nt,
                rs == self.row_stride,
                w == nx + 2 * self.mx,
                h == ny + 2 * self.my,
                cp@.len() == o,
                pen@.len() == o,
                eval@.len() == o,
                fin@.len() == o,
                forall|k: int| 0 <= k < o ==> {
                    let e = #[trigger] cell_entry(st, start + k, rs, nx, ny, nt, self.mx as int, self.my as int);
                    &&& cp@[k] == e.0
                    &&& pen@[k] == e.1
                    &&& eval@[k] == e.2
                    &&& fin@[k] == !e.2
                },
            decreases len - o,
        {
            let pad_idx = start + o;
            let iy_pad = pad_idx / self.row_stride;
            let rem = pad_idx % self.row_stride;
            let ix_pad = rem / nt_u;
            let it = rem % nt_u;
            proof {
                assert(iy_pad < h) by (nonlinear_arith)
                    requires iy_pad == (pad_idx as int) / rs, pad_idx < self.n_pad, self.n_pad == rs * h, rs >= 1;
                assert(ix_pad < w) by (nonlinear_arith)
                    requires ix_pad == (rem as int) / nt, rem < rs, rs == nt * w, nt >= 1;
            }
            let ix = ix_pad as i32 - self.mx;
            let iy = iy_pad as i32 - self.my;
            let mut c: u64 = UNREACHED;
            let mut p: u64 = 0;
            let mut ev = false;
            if ix >= 0 && ix < self.nx && iy >= 0 && iy < self.ny {
                proof {
                    lemma_index_bound(ix as int, iy as int, it as int, nx, ny, nt);
                    assert(0 <= ix * nt <= nx * nt) by (nonlinear_arith) requires 0 <= ix < nx, nt >= 1;
                    assert(0 <= iy * (nt * nx) <= ny * (nt * nx)) by (nonlinear_arith) requires 0 <= iy < ny, nt >= 1, nx >= 0;
                    assert(ny * (nt * nx) == nx * ny * nt) by (nonlinear_arith);
                }
                let orig = (it as i64 + ix as i64 * self.nt as i64 + iy as i64 * (self.nt as i64 * self.nx as i64)) as usize;
                proof {
                    assert(orig == index_of(ix as int, iy as int, it as int, nx, nt));
                }
                let s = states[orig];
                p = s.penalty.wrapping_add(s.local_penalty);
                ev = s.free && !s.final_state;
                if s.free && s.total_cost != MAX_COST {
                    c = s.total_cost.wrapping_add(p);
                }
            }
            cp.push(c);
            pen.push(p);
            eval.push(ev);
            fin.push(!ev);
            o += 1;
        }
        let ghost old_self = *self;
        proof {
            assert forall|i: int| 0 <= i < len implies fin@[i] == !eval@[i] by {
                let e = cell_entry(st, start + i, rs, nx, ny, nt, self.mx as int, self.my as int);
            }
        }
        self.blocks.set(b, Some(Block { cp, pen, eval, fin }));
        proof {
            let blk = self.blk(b as int);
            assert(final_count(blk.eval@, blk.fin@, len as int) == 0) by {
                lemma_final_count_none(blk.eval@, blk.fin@, len as int);
            }
            assert(old_self.n_final@[b as int] == 0);
        }
    }
}

/// No cell counts when every cell that takes part in the update is not final.
proof fn lemma_final_count_none(eval: Seq<bool>, fin: Seq<bool>, k: int)
    requires
        0 <= k <= eval.len(),
        eval.len() == fin.len(),
        forall|i: int| 0 <= i < k ==> fin[i] == !eval[i],
    ensures
        final_count(eval, fin, k) == 0,
    decreases k,
{
    if k > 0 {
        lemma_final_count_none(eval, fin, k - 1);
    }
}

impl CpCells for BlockStore {
    open spec fn cells(&self) -> Seq<u64> {
        self.cps()
    }

    open spec fn readable(&self, i: int) -> bool {
        self.wf() && 0 <= i < self.n_pad && self.allocated(self.block_of(i))
    }

    fn get(&self, i: usize) -> (r: u64) {
        proof {
            self.lemma_locate(i as int);
        }
        let b = i / self.chunk;
        let off = i - b * self.chunk;
        match &self.blocks[b] {
            Some(blk) => blk.cp[off],
            None => 0,
        }
    }
}

/// First and last block holding padded rows `iy .. iy + 2 * my`, the rows an
/// update of column row `iy` reads.
pub open spec fn window(store: BlockStore, iy: int) -> (int, int) {
    let hi = (iy + 2 * store.my) / (BLOCK_ROWS as int);
    (iy / (BLOCK_ROWS as int), if hi < store.blocks@.len() - 1 { hi } else { store.blocks@.len() - 1 })
}

/// Every block of the window of column row `iy` is built.
pub open spec fn window_ready(store: BlockStore, iy: int) -> bool {
    forall|b: int| window(store, iy).0 <= b <= window(store, iy).1 ==> #[trigger] store.allocated(b)
}

/// `new` is `old` with each block of the window of row `iy` that was neither
/// built nor freed built from `states`.
pub open spec fn window_built(old: BlockStore, new: BlockStore, states: Seq<State>, iy: int) -> bool {
    let w = window(old, iy);
    &&& new.wf()
    &&& new.n_final@ == old.n_final@
    &&& new.n_eval@ == old.n_eval@
    &&& new.evicted@ == old.evicted@
    &&& new.blocks@.len() == old.blocks@.len()
    &&& new.chunk == old.chunk
    &&& new.n_pad == old.n_pad
    &&& new.row_stride == old.row_stride
    &&& new.nt == old.nt
    &&& new.nx == old.nx
    &&& new.ny == old.ny
    &&& new.mx == old.mx
    &&& new.my == old.my
    &&& new.max_pen == old.max_pen
    &&& forall|b: int| 0 <= b < old.blocks@.len() ==> {
        if w.0 <= b <= w.1 && !(old.allocated(b) || old.evicted@[b]) {
            &&& (#[trigger] new.blocks@[b]) is Some
            &&& forall|o: int| 0 <= o < old.block_len(b) ==> {
                let e = #[trigger] cell_entry(states, b * old.chunk + o, old.row_stride as int, old.nx as int,
                    old.ny as int, old.nt as int, old.mx as int, old.my as int);
                &&& new.blk(b).cp@[o] == e.0
                &&& new.blk(b).pen@[o] == e.1
                &&& new.blk(b).eval@[o] == e.2
                &&& new.blk(b).fin@[o] == !e.2
            }
        } else {
            new.blocks@[b] == old.blocks@[b]
        }
    }
}

/// Builds the blocks of the window of column `(ix, iy)` that were neither
/// built nor freed.
pub fn ensure_window(store: &mut BlockStore, ix: i32, iy: i32, states: &Vec<State>)
    requires
        old(store).wf(),
        0 <= iy < old(store).ny,
        states_ok(states@, old(store).nx as int, old(store).ny as int, old(store).nt as int),
    ensures
        window_built(*old(store), *final(store), states@, iy as int),
{
    let ghost st0 = *store;
    let nb = store.nblocks();
    proof {
        assert(nb >= 1) by (nonlinear_arith)
            requires st0.n_pad == st0.row_stride * (st0.ny + 2 * st0.my), st0.row_stride >= 1, st0.ny + 2 * st0.my >= 1,
                st0.n_pad <= nb * st0.chunk, nb == st0.blocks@.len();
        assert(0 <= (iy + 2 * st0.my) / 8 <= i32::MAX);
    }
    let b_lo = iy as usize / BLOCK_ROWS;
    let hi = ((iy + 2 * store.my) as usize) / BLOCK_ROWS;
    let b_hi = if hi < nb - 1 { hi } else { nb - 1 };
    let end = b_hi + 1;
    let mut b = b_lo;
    while b < end
        invariant
            b_lo <= b,
            b <= end || b == b_lo,
            end == b_hi + 1,
            b_hi < nb,
            nb == st0.blocks@.len(),
            (b_lo as int, b_hi as int) == window(st0, iy as int),
            states_ok(states@, st0.nx as int, st0.ny as int, st0.nt as int),
            store.wf(),
            store.n_final@ == st0.n_final@,
            store.n_eval@ == st0.n_eval@,
            store.evicted@ == st0.evicted@,
            store.blocks@.len() == st0.blocks@.len(),
            store.chunk == st0.chunk,
            store.n_pad == st0.n_pad,
            store.row_stride == st0.row_stride,
            store.nt == st0.nt,
            store.nx == st0.nx,
            store.ny == st0.ny,
            store.mx == st0.mx,
            store.my == st0.my,
            store.max_pen == st0.max_pen,
            forall|k: int| 0 <= k < st0.blocks@.len() ==> {
                if b_lo <= k < b && !(st0.allocated(k) || st0.evicted@[k]) {
                    &&& (#[trigger] store.blocks@[k]) is Some
                    &&& forall|o: int| 0 <= o < st0.block_len(k) ==> {
                        let e = #[trigger] cell_entry(states@, k * st0.chunk + o, st0.row_stride as int, st0.nx as int,
                            st0.ny as int, st0.nt as int, st0.mx as int, st0.my as int);
                        &&& store.blk(k).cp@[o] == e.0
                        &&& store.blk(k).pen@[o] == e.1
                        &&& store.blk(k).eval@[o] == e.2
                        &&& store.blk(k).fin@[o] == !e.2
                    }
                } else {
                    store.blocks@[k] == st0.blocks@[k]
                }
            },
        decreases end - b,
    {
        let ghost before = *store;
        proof {
            assert(before.blocks@[b as int] == st0.blocks@[b as int]);
        }
        store.ensure_block(b, states);
        proof {
            assert forall|k: int| 0 <= k < st0.blocks@.len() implies {
                if b_lo <= k < b + 1 && !(st0.allocated(k) || st0.evicted@[k]) {
                    &&& (#[trigger] store.blocks@[k]) is Some
                    &&& forall|o: int| 0 <= o < st0.block_len(k) ==> {
                        let e = #[trigger] cell_entry(states@, k * st0.chunk + o, st0.row_stride as int, st0.nx as int,
                            st0.ny as int, st0.nt as int, st0.mx as int, st0.my as int);
                        &&& store.blk(k).cp@[o] == e.0
                        &&& store.blk(k).pen@[o] == e.1
                        &&& store.blk(k).eval@[o] == e.2
                        &&& store.blk(k).fin@[o] == !e.2
                    }
                } else {
                    store.blocks@[k] == st0.blocks@[k]
                }
            } by {
                if k != b {
                    assert(store.blocks@[k] == before.blocks@[k]);
                }
            }
        }
        b += 1;
    }
}

/// A padded cell on a padded row of the window of column row `iy` can be read
/// once the window is built.
pub proof fn lemma_cell_readable(store: BlockStore, g: Geom, iy: int, x: int, y: int, t: int)
    requires
        store.wf(),
        store.laid_out(g),
        in_box(g, x, y, t),
        0 <= iy < g.ny,
        iy <= y + g.my <= iy + 2 * g.my,
        window_ready(store, iy),
    ensures
        store.readable(pad_index(x, y, t, g.nx as int, g.nt as int, g.mx as int, g.my as int)),
        0 <= pad_index(x, y, t, g.nx as int, g.nt as int, g.mx as int, g.my as int) < store.n_pad,
        store.n_pad <= 0x7fff_ffff * 0x7fff_ffff,
        store.block_of(pad_index(x, y, t, g.nx as int, g.nt as int, g.mx as int, g.my as int)) == (y + g.my) / 8,
{
    assert(store.n_pad <= 0x7fff_ffff * 0x7fff_ffff) by (nonlinear_arith)
        requires store.n_pad == store.row_stride * (store.ny + 2 * store.my), 0 <= store.row_stride <= 0x7fff_ffff,
            0 <= store.ny + 2 * store.my <= 0x7fff_ffff;
    let nx = g.nx as int;
    let nt = g.nt as int;
    let w = nx + 2 * g.mx;
    let rs = g.row_stride as int;
    let row = y + g.my;
    let j = pad_index(x, y, t, nx, nt, g.mx as int, g.my as int);
    let r = t + (x + g.mx) * nt;
    lemma_pad_index(g, x, y, t, x, y, t);
    assert(0 <= r < rs) by (nonlinear_arith)
        requires r == t + (x + g.mx) * nt, 0 <= t < nt, 0 <= x + g.mx < w, rs == nt * w;
    assert(j == row * rs + r) by (nonlinear_arith)
        requires j == t + (x + g.mx) * nt + (y + g.my) * (nt * w), row == y + g.my, rs == nt * w, r == t + (x + g.mx) * nt;
    vstd::arithmetic::div_mod::lemma_fundamental_div_mod_converse(j, rs, row, r);
    vstd::arithmetic::div_mod::lemma_div_denominator(j, rs, 8);
    assert(store.chunk == rs * 8);
    store.lemma_locate(j);
    let b = store.block_of(j);
    assert(b == row / 8);
    vstd::arithmetic::div_mod::lemma_div_is_ordered(iy, row, 8);
    vstd::arithmetic::div_mod::lemma_div_is_ordered(row, iy + 2 * g.my, 8);
    assert(window(store, iy).0 <= b <= window(store, iy).1);
}

/// Once the window of column `(ix, iy)` is built, every bucket of every action
/// from a heading of the column reads a built block, and so do the column's own cells.
proof fn lemma_window_reads(store: BlockStore, g: Geom, acts: Seq<Action>, ix: int, iy: int, t: int, a: int)
    requires
        store.wf(),
        store.laid_out(g),
        g.wf(acts),
        actions_ok(acts, g.nx as int, g.ny as int, g.nt as int),
        0 <= ix < g.nx,
        0 <= iy < g.ny,
        0 <= t < g.nt,
        0 <= a < acts.len(),
        window_ready(store, iy),
    ensures
        store.readable(pad_index(ix, iy, t, g.nx as int, g.nt as int, g.mx as int, g.my as int)),
        pad_index(ix, iy, t, g.nx as int, g.nt as int, g.mx as int, g.my as int)
            == pad_index(ix, iy, 0, g.nx as int, g.nt as int, g.mx as int, g.my as int) + t,
        forall|k: int| 0 <= k < g.precomp@[a]@[t]@.len() ==> {
            let j = pad_index(ix, iy, 0, g.nx as int, g.nt as int, g.mx as int, g.my as int) + (#[trigger] g.precomp@[a]@[t]@[k]).0;
            &&& 0 <= j <= i64::MAX
            &&& j <= usize::MAX
            &&& store.readable(j)
        },
{
    lemma_cell_readable(store, g, iy, ix, iy, t);
    lemma_buckets(acts, g, ix, iy, t, a);
    let col = pad_index(ix, iy, 0, g.nx as int, g.nt as int, g.mx as int, g.my as int);
    assert forall|k: int| 0 <= k < g.precomp@[a]@[t]@.len() implies {
        let j = col + (#[trigger] g.precomp@[a]@[t]@[k]).0;
        &&& 0 <= j <= i64::MAX
        &&& j <= usize::MAX
        &&& store.readable(j)
    } by {
        let tr = acts[a].state_transitions@[t]@[k];
        assert(crate::reference::value_iterator::action_ok(acts[a], g.nx as int, g.ny as int, g.nt as int));
        assert(crate::reference::solvers::frontier::abs_int(tr.diy as int) <= g.my);
        let c = (ix + tr.dix, iy + tr.diy, (tr.dit + g.nt) % (g.nt as int));
        lemma_cell_readable(store, g, iy, c.0, c.1, c.2);
        assert(store.n_pad <= 0x7fff_ffff * 0x7fff_ffff) by (nonlinear_arith)
            requires store.n_pad == store.row_stride * (store.ny + 2 * store.my), 0 <= store.row_stride <= 0x7fff_ffff,
                0 <= store.ny + 2 * store.my <= 0x7fff_ffff;
    }
}

/// Smallest and largest value of the reached cells among headings `0 .. k` of
/// the column at `col`, and whether there is one; `(MAX_COST, MAX_COST, false)` when none.
pub open spec fn col_range(cps: Seq<u64>, pens: Seq<u64>, col: int, k: int) -> (u64, u64, bool)
    decreases k,
{
    if k <= 0 {
        (MAX_COST, MAX_COST, false)
    } else {
        let p = col_range(cps, pens, col, k - 1);
        let j = col + k - 1;
        if cps[j] != UNREACHED {
            let v = u64_specs::wrapping_sub(cps[j], pens[j]);
            if !p.2 { (v, v, true) } else { (if v < p.0 { v } else { p.0 }, if v > p.1 { v } else { p.1 }, true) }
        } else {
            p
        }
    }
}

/// Range of values of the reached cells of column `(ix, iy)`; `(MAX_COST, MAX_COST)` when none.
pub fn column_range(store: &BlockStore, g: &Geom, ix: i32, iy: i32) -> (r: (u64, u64))
    requires
        store.wf(),
        store.laid_out(*g),
        0 <= ix < g.nx,
        0 <= iy < g.ny,
        window_ready(*store, iy as int),
    ensures
        ({
            let c = col_range(store.cps(), store.pens(),
                pad_index(ix as int, iy as int, 0, g.nx as int, g.nt as int, g.mx as int, g.my as int), g.nt as int);
            r == (c.0, c.1)
        }),
{
    let pad_col = g.pad_col(ix, iy);
    let ghost col = pad_col as int;
    let mut mn: u64 = MAX_COST;
    let mut mx: u64 = MAX_COST;
    let mut any = false;
    let mut it: i32 = 0;
    while it < g.nt
        invariant
            0 <= it <= g.nt,
            store.wf(),
            store.laid_out(*g),
            0 <= ix < g.nx,
            0 <= iy < g.ny,
            window_ready(*store, iy as int),
            col == pad_index(ix as int, iy as int, 0, g.nx as int, g.nt as int, g.mx as int, g.my as int),
            pad_col == col,
            (mn, mx, any) == col_range(store.cps(), store.pens(), col, it as int),
        decreases g.nt - it,
    {
        proof {
            lemma_cell_readable(*store, *g, iy as int, ix as int, iy as int, it as int);
            assert(pad_index(ix as int, iy as int, it as int, g.nx as int, g.nt as int, g.mx as int, g.my as int) == col + it);
        }
        let pad_idx = (pad_col + it as i64) as usize;
        let cp = store.get(pad_idx);
        if cp != UNREACHED {
            let v = cp.wrapping_sub(store.pen(pad_idx));
            if !any {
                mn = v;
                mx = v;
                any = true;
            } else {
                if v < mn {
                    mn = v;
                }
                if v > mx {
                    mx = v;
                }
            }
        }
        it += 1;
    }
    (mn, mx)
}

/// Requirements shared by the column steps: `store` is laid out as `g`, which
/// holds the buckets of `acts`, and column `(ix, iy)` is in the grid.
pub open spec fn column_ok(store: BlockStore, g: Geom, acts: Seq<Action>, ix: int, iy: int) -> bool {
    &&& store.wf()
    &&& store.laid_out(g)
    &&& g.wf(acts)
    &&& actions_ok(acts, g.nx as int, g.ny as int, g.nt as int)
    &&& 0 <= ix < g.nx
    &&& 0 <= iy < g.ny
}

/// The best action from heading `it` of column `(ix, iy)` through the store,
/// whose window is built: [`fused_best`] over all actions.
fn best_in_store(store: &BlockStore, g: &Geom, ix: i32, iy: i32, it: i32, pad_col: i64, Ghost(acts): Ghost<Seq<Action>>)
    -> (r: (u64, Option<usize>))
    requires
        column_ok(*store, *g, acts, ix as int, iy as int),
        window_ready(*store, iy as int),
        0 <= it < g.nt,
        pad_col == pad_index(ix as int, iy as int, 0, g.nx as int, g.nt as int, g.mx as int, g.my as int),
    ensures
        r == fused_best(store.cps(), g.precomp@, it as int, pad_col as int, g.precomp@.len() as int),
{
    let na = g.precomp.len();
    let mut min_cost: u64 = MAX_COST;
    let mut min_action: Option<usize> = None;
    let mut ai: usize = 0;
    while ai < na
        invariant
            0 <= ai <= na,
            na == g.precomp@.len(),
            column_ok(*store, *g, acts, ix as int, iy as int),
            window_ready(*store, iy as int),
            0 <= it < g.nt,
            pad_col == pad_index(ix as int, iy as int, 0, g.nx as int, g.nt as int, g.mx as int, g.my as int),
            (min_cost, min_action) == fused_best(store.cps(), g.precomp@, it as int, pad_col as int, ai as int),
        decreases na - ai,
    {
        proof {
            lemma_window_reads(*store, *g, acts, ix as int, iy as int, it as int, ai as int);
        }
        let c = action_cost_fused(store, &g.precomp[ai][it as usize], pad_col);
        if c < min_cost {
            min_cost = c;
            min_action = Some(ai);
        }
        ai += 1;
    }
    (min_cost, min_action)
}

/// The value heading `t` of the column at `col` takes in a Jacobi update
/// read from `cps`: the least cost through the buckets when that lowers the
/// value of a cell that takes part in the update, else its value.
pub open spec fn jacobi_value(cps: Seq<u64>, pens: Seq<u64>, evals: Seq<bool>, precomp: Seq<Vec<Vec<(i64, u64)>>>, col: int, t: int) -> u64 {
    let j = col + t;
    let cur = value_of(cps, pens, j);
    let m = fused_best(cps, precomp, t, col, precomp.len() as int).0;
    if evals[j] && m < cur { m } else { cur }
}

/// The lowered headings `0 .. k` of the column at `col` in a Jacobi update read
/// from `cps`, in order: padded index and new fused value.
pub open spec fn jacobi_updates(cps: Seq<u64>, pens: Seq<u64>, evals: Seq<bool>, precomp: Seq<Vec<Vec<(i64, u64)>>>, col: int, k: int)
    -> Seq<(usize, u64)>
    decreases k,
{
    if k <= 0 {
        Seq::empty()
    } else {
        let p = jacobi_updates(cps, pens, evals, precomp, col, k - 1);
        let j = col + k - 1;
        let m = fused_best(cps, precomp, k - 1, col, precomp.len() as int).0;
        if evals[j] && m < value_of(cps, pens, j) {
            p.push((j as usize, u64_specs::wrapping_add(m, pens[j])))
        } else {
            p
        }
    }
}

/// Smallest and largest of the values of headings `0 .. k` after a Jacobi
/// update that are not `MAX_COST`, and whether there is one.
pub open spec fn jacobi_range(cps: Seq<u64>, pens: Seq<u64>, evals: Seq<bool>, precomp: Seq<Vec<Vec<(i64, u64)>>>, col: int, k: int)
    -> (u64, u64, bool)
    decreases k,
{
    if k <= 0 {
        (MAX_COST, MAX_COST, false)
    } else {
        let p = jacobi_range(cps, pens, evals, precomp, col, k - 1);
        let v = jacobi_value(cps, pens, evals, precomp, col, k - 1);
        if v != MAX_COST {
            if !p.2 { (v, v, true) } else { (if v < p.0 { v } else { p.0 }, if v > p.1 { v } else { p.1 }, true) }
        } else {
            p
        }
    }
}

/// Result of a Jacobi update of one column: its cell, the lowered headings
/// (padded index, new fused value), the range of its new values and whether
/// some heading fell.
pub struct ColResult {
    pub ixu: u32,
    pub iyu: u32,
    pub updates: Vec<(usize, u64)>,
    pub mn: u64,
    pub mx: u64,
    pub changed: bool,
}

/// Jacobi update of every heading of column `(ix, iy)`, whose window is built,
/// without writing: every read sees the store as it is.
pub fn compute_column_jacobi(store: &BlockStore, g: &Geom, ix: i32, iy: i32) -> (r: ColResult)
    requires
        exists|acts: Seq<Action>| column_ok(*store, *g, acts, ix as int, iy as int),
        window_ready(*store, iy as int),
    ensures
        ({
            let col = pad_index(ix as int, iy as int, 0, g.nx as int, g.nt as int, g.mx as int, g.my as int);
            let ups = jacobi_updates(store.cps(), store.pens(), store.evals(), g.precomp@, col, g.nt as int);
            let rg = jacobi_range(store.cps(), store.pens(), store.evals(), g.precomp@, col, g.nt as int);
            &&& r.ixu == ix
            &&& r.iyu == iy
            &&& r.updates@ == ups
            &&& r.mn == rg.0
            &&& r.mx == rg.1
            &&& r.changed == (ups.len() > 0)
        }),
{
    let ghost acts = choose|acts: Seq<Action>| column_ok(*store, *g, acts, ix as int, iy as int);
    let pad_col = g.pad_col(ix, iy);
    let ghost col = pad_col as int;
    let ghost cps = store.cps();
    let ghost pens = store.pens();
    let ghost evals = store.evals();
    let mut updates: Vec<(usize, u64)> = Vec::new();
    let mut changed = false;
    let mut mn: u64 = MAX_COST;
    let mut mx: u64 = MAX_COST;
    let mut first = true;
    let mut it: i32 = 0;
    while it < g.nt
        invariant
            0 <= it <= g.nt,
            column_ok(*store, *g, acts, ix as int, iy as int),
            window_ready(*store, iy as int),
            cps == store.cps(),
            pens == store.pens(),
            evals == store.evals(),
            col == pad_index(ix as int, iy as int, 0, g.nx as int, g.nt as int, g.mx as int, g.my as int),
            pad_col == col,
            updates@ == jacobi_updates(cps, pens, evals, g.precomp@, col, it as int),
            changed == (updates@.len() > 0),
            (mn, mx, !first) == jacobi_range(cps, pens, evals, g.precomp@, col, it as int),
        decreases g.nt - it,
    {
        proof {
            lemma_cell_readable(*store, *g, iy as int, ix as int, iy as int, it as int);
            assert(pad_index(ix as int, iy as int, it as int, g.nx as int, g.nt as int, g.mx as int, g.my as int) == col + it);
        }
        let pad_idx = (pad_col + it as i64) as usize;
        let cp_self = store.get(pad_idx);
        let pen_self = store.pen(pad_idx);
        let cur_v = if cp_self == UNREACHED { MAX_COST } else { cp_self.wrapping_sub(pen_self) };
        let new_v = if store.eval_ok(pad_idx) {
            let (m, _) = best_in_store(store, g, ix, iy, it, pad_col, Ghost(acts));
            if m < cur_v {
                updates.push((pad_idx, m.wrapping_add(pen_self)));
                changed = true;
                m
            } else {
                cur_v
            }
        } else {
            cur_v
        };
        if new_v != MAX_COST {
            if first {
                mn = new_v;
                mx = new_v;
                first = false;
            } else {
                if new_v < mn {
                    mn = new_v;
                }
                if new_v > mx {
                    mx = new_v;
                }
            }
        }
        it += 1;
    }
    ColResult { ixu: ix as u32, iyu: iy as u32, updates, mn, mx, changed }
}

/// Gauss–Seidel update of headings `0 .. k` of the column at `col` in place: a
/// heading that takes part in the update takes the least cost through the
/// buckets when that lowers its value.  Gives the fused values and how many fell.
pub open spec fn relax_all(cps: Seq<u64>, pens: Seq<u64>, evals: Seq<bool>, precomp: Seq<Vec<Vec<(i64, u64)>>>, col: int, k: int)
    -> (Seq<u64>, nat)
    decreases k,
{
    if k <= 0 {
        (cps, 0)
    } else {
        let p = relax_all(cps, pens, evals, precomp, col, k - 1);
        let j = col + k - 1;
        let m = fused_best(p.0, precomp, k - 1, col, precomp.len() as int).0;
        if evals[j] && m < value_of(p.0, pens, j) {
            (p.0.update(j, u64_specs::wrapping_add(m, pens[j])), p.1 + 1)
        } else {
            p
        }
    }
}

/// `new` holds the values of `old` after the in-place update of the column at
/// `col`, with everything else unchanged.
pub open spec fn relaxed(old: BlockStore, new: BlockStore, precomp: Seq<Vec<Vec<(i64, u64)>>>, col: int, nt: int) -> bool {
    &&& new.wf()
    &&& new.same_frame(old)
    &&& new.n_final@ == old.n_final@
    &&& new.cps() == relax_all(old.cps(), old.pens(), old.evals(), precomp, col, nt).0
    &&& new.pens() == old.pens()
    &&& new.evals() == old.evals()
    &&& new.fins() == old.fins()
}

/// Builds the window of column `(ix, iy)` and updates its headings in place;
/// gives whether a value fell, the range of the column's values after the
/// update, and how many values fell.
pub fn relax_column(store: &mut BlockStore, g: &Geom, ix: i32, iy: i32, states: &Vec<State>) -> (r: (bool, u64, u64, u64))
    requires
        exists|acts: Seq<Action>| column_ok(*old(store), *g, acts, ix as int, iy as int),
        states_ok(states@, g.nx as int, g.ny as int, g.nt as int),
        forall|b: int| window(*old(store), iy as int).0 <= b <= window(*old(store), iy as int).1
            ==> !(#[trigger] old(store).evicted@[b]),
    ensures
        exists|s1: BlockStore| #[trigger] window_built(*old(store), s1, states@, iy as int) && {
            let col = pad_index(ix as int, iy as int, 0, g.nx as int, g.nt as int, g.mx as int, g.my as int);
            let res = relax_all(s1.cps(), s1.pens(), s1.evals(), g.precomp@, col, g.nt as int);
            let rg = col_range(final(store).cps(), final(store).pens(), col, g.nt as int);
            &&& relaxed(s1, *final(store), g.precomp@, col, g.nt as int)
            &&& r.3 == res.1
            &&& r.0 == (res.1 > 0)
            &&& r.1 == rg.0
            &&& r.2 == rg.1
        },
{
    let ghost acts = choose|acts: Seq<Action>| column_ok(*store, *g, acts, ix as int, iy as int);
    let ghost s0 = *store;
    ensure_window(store, ix, iy, states);
    let ghost s1 = *store;
    proof {
        assert forall|b: int| window(*store, iy as int).0 <= b <= window(*store, iy as int).1 implies #[trigger] store.allocated(b) by {
            assert(window(*store, iy as int) == window(s0, iy as int));
            assert(!s0.evicted@[b]);
            let nb = s0.blocks@.len() as int;
            assert(0 <= b < nb) by {
                assert(0 <= iy as int / 8);
            }
            if !s0.allocated(b) {
            } else {
                assert(store.blocks@[b] == s0.blocks@[b]);
            }
        }
    }
    let pad_col = g.pad_col(ix, iy);
    let ghost col = pad_col as int;
    let mut changed = false;
    let mut ups: u64 = 0;
    let mut it: i32 = 0;
    while it < g.nt
        invariant
            0 <= it <= g.nt,
            column_ok(*store, *g, acts, ix as int, iy as int),
            window_ready(*store, iy as int),
            col == pad_index(ix as int, iy as int, 0, g.nx as int, g.nt as int, g.mx as int, g.my as int),
            pad_col == col,
            store.same_frame(s1),
            store.n_final@ == s1.n_final@,
            store.pens() == s1.pens(),
            store.evals() == s1.evals(),
            store.fins() == s1.fins(),
            store.cps() == relax_all(s1.cps(), s1.pens(), s1.evals(), g.precomp@, col, it as int).0,
            ups == relax_all(s1.cps(), s1.pens(), s1.evals(), g.precomp@, col, it as int).1,
            changed == (ups > 0),
            ups <= it,
        decreases g.nt - it,
    {
        proof {
            lemma_cell_readable(*store, *g, iy as int, ix as int, iy as int, it as int);
            assert(pad_index(ix as int, iy as int, it as int, g.nx as int, g.nt as int, g.mx as int, g.my as int) == col + it);
        }
        let pad_idx = (pad_col + it as i64) as usize;
        if store.eval_ok(pad_idx) {
            let cp_self = store.get(pad_idx);
            let pen_self = store.pen(pad_idx);
            let before = if cp_self == UNREACHED { MAX_COST } else { cp_self.wrapping_sub(pen_self) };
            let (min_cost, _) = best_in_store(store, g, ix, iy, it, pad_col, Ghost(acts));
            if min_cost < before {
                let ghost pre = *store;
                store.set_cp(pad_idx, min_cost.wrapping_add(pen_self));
                proof {
                    assert forall|b: int| window(*store, iy as int).0 <= b <= window(*store, iy as int).1
                        implies #[trigger] store.allocated(b) by {
                        assert(pre.allocated(b));
                    }
                }
                ups += 1;
                changed = true;
            }
        }
        it += 1;
    }
    let (mn, mx) = column_range(store, g, ix, iy);
    proof {
        assert(window_built(s0, s1, states@, iy as int));
    }
    (changed, mn, mx, ups)
}

/// Action written for heading `t` of the column at `col` when it is finalized:
/// the index of the best action of a reached cell that takes part in the
/// update, `-1` for none.
pub open spec fn final_action(cps: Seq<u64>, evals: Seq<bool>, precomp: Seq<Vec<Vec<(i64, u64)>>>, col: int, t: int) -> i32 {
    let j = col + t;
    if cps[j] != UNREACHED && evals[j] {
        match fused_best(cps, precomp, t, col, precomp.len() as int).1 {
            Some(a) => a as i32,
            None => -1i32,
        }
    } else {
        -1i32
    }
}

/// Headings among `0 .. k` of the column at `col` that are reached and take part in the update.
pub open spec fn final_cnt(cps: Seq<u64>, evals: Seq<bool>, col: int, k: int) -> nat
    decreases k,
{
    if k <= 0 { 0 } else { final_cnt(cps, evals, col, k - 1) + if cps[col + k - 1] != UNREACHED && evals[col + k - 1] { 1nat } else { 0nat } }
}

/// Those of them not final yet.
pub open spec fn fin_gain(cps: Seq<u64>, evals: Seq<bool>, fins: Seq<bool>, col: int, k: int) -> nat
    decreases k,
{
    if k <= 0 { 0 } else {
        fin_gain(cps, evals, fins, col, k - 1)
            + if cps[col + k - 1] != UNREACHED && evals[col + k - 1] && !fins[col + k - 1] { 1nat } else { 0nat }
    }
}

/// Final flags with headings `0 .. k` of the column at `col` set where reached
/// and taking part in the update.
pub open spec fn fins_after(cps: Seq<u64>, evals: Seq<bool>, fins: Seq<bool>, col: int, k: int) -> Seq<bool>
    decreases k,
{
    if k <= 0 { fins } else {
        let p = fins_after(cps, evals, fins, col, k - 1);
        let j = col + k - 1;
        if cps[j] != UNREACHED && evals[j] { p.update(j, true) } else { p }
    }
}

/// Builds the window of column `(ix, iy)`, writes the value of each heading and
/// the best action of each reached heading that takes part in the update to
/// `sink` at the column's states, and marks those headings final; gives how
/// many it marked.
#[verifier::spinoff_prover]
pub fn finalize_column<S: CompactSink>(store: &mut BlockStore, g: &Geom, ix: i32, iy: i32, states: &Vec<State>, sink: &mut S)
    -> (r: u64)
    requires
        exists|acts: Seq<Action>| column_ok(*old(store), *g, acts, ix as int, iy as int),
        states_ok(states@, g.nx as int, g.ny as int, g.nt as int),
        forall|b: int| window(*old(store), iy as int).0 <= b <= window(*old(store), iy as int).1
            ==> !(#[trigger] old(store).evicted@[b]),
        g.precomp@.len() <= i32::MAX,
        g.nx * g.ny * g.nt <= old(sink).len_spec(),
    ensures
        final(sink).len_spec() == old(sink).len_spec(),
        exists|s1: BlockStore| #[trigger] window_built(*old(store), s1, states@, iy as int) && {
            let col = pad_index(ix as int, iy as int, 0, g.nx as int, g.nt as int, g.mx as int, g.my as int);
            let base = index_of(ix as int, iy as int, 0, g.nx as int, g.nt as int);
            let b = (iy + g.my) / 8;
            &&& final(store).wf()
            &&& final(store).same_frame(s1)
            &&& final(store).cps() == s1.cps()
            &&& final(store).pens() == s1.pens()
            &&& final(store).evals() == s1.evals()
            &&& final(store).fins() == fins_after(s1.cps(), s1.evals(), s1.fins(), col, g.nt as int)
            &&& final(store).n_final@.len() == s1.n_final@.len()
            &&& (forall|b2: int| 0 <= b2 < s1.n_final@.len() && b2 != b ==> #[trigger] final(store).n_final@[b2] == s1.n_final@[b2])
            &&& final(store).n_final@[b] == s1.n_final@[b] + fin_gain(s1.cps(), s1.evals(), s1.fins(), col, g.nt as int)
            &&& r == final_cnt(s1.cps(), s1.evals(), col, g.nt as int)
            &&& forall|i: int| 0 <= i < old(sink).len_spec() ==> #[trigger] final(sink).at(i) ==
                if base <= i < base + g.nt {
                    (value_of(s1.cps(), s1.pens(), col + i - base), final_action(s1.cps(), s1.evals(), g.precomp@, col, i - base))
                } else {
                    old(sink).at(i)
                }
        },
{
    let ghost acts = choose|acts: Seq<Action>| column_ok(*store, *g, acts, ix as int, iy as int);
    let ghost s0 = *store;
    ensure_window(store, ix, iy, states);
    let ghost s1 = *store;
    proof {
        assert forall|b: int| window(*store, iy as int).0 <= b <= window(*store, iy as int).1 implies #[trigger] store.allocated(b) by {
            assert(window(*store, iy as int) == window(s0, iy as int));
            assert(!s0.evicted@[b]);
            if s0.allocated(b) {
                assert(store.blocks@[b] == s0.blocks@[b]);
            }
        }
    }
    let pad_col = g.pad_col(ix, iy);
    let ghost col = pad_col as int;
    let ghost bk = (iy + g.my) / 8;
    let nt = g.nt;
    let ntu = nt as usize;
    proof {
        lemma_cell_readable(*store, *g, iy as int, ix as int, iy as int, 0);
        store.lemma_locate(col);
    }
    let mut buf_v: Vec<u64> = Vec::new();
    let mut buf_a: Vec<i32> = Vec::new();
    let mut cnt: u64 = 0;
    let mut it: i32 = 0;
    while it < nt
        invariant
            0 <= it <= nt,
            nt == g.nt,
            ntu == nt,
            column_ok(*store, *g, acts, ix as int, iy as int),
            window_ready(*store, iy as int),
            col == pad_index(ix as int, iy as int, 0, g.nx as int, g.nt as int, g.mx as int, g.my as int),
            pad_col == col,
            bk == (iy + g.my) / 8,
            0 <= bk < store.blocks@.len(),
            store.same_frame(s1),
            store.cps() == s1.cps(),
            store.pens() == s1.pens(),
            store.evals() == s1.evals(),
            store.fins() == fins_after(s1.cps(), s1.evals(), s1.fins(), col, it as int),
            store.n_final@.len() == s1.n_final@.len(),
            forall|b2: int| 0 <= b2 < s1.n_final@.len() && b2 != bk ==> #[trigger] store.n_final@[b2] == s1.n_final@[b2],
            store.n_final@[bk] == s1.n_final@[bk] + fin_gain(s1.cps(), s1.evals(), s1.fins(), col, it as int),
            cnt == final_cnt(s1.cps(), s1.evals(), col, it as int),
            cnt <= it,
            buf_v@.len() == it,
            buf_a@.len() == it,
            forall|t: int| 0 <= t < it ==> #[trigger] buf_v@[t] == value_of(s1.cps(), s1.pens(), col + t)
                && buf_a@[t] == final_action(s1.cps(), s1.evals(), g.precomp@, col, t),
        decreases nt - it,
    {
        proof {
            lemma_cell_readable(*store, *g, iy as int, ix as int, iy as int, it as int);
            assert(pad_index(ix as int, iy as int, it as int, g.nx as int, g.nt as int, g.mx as int, g.my as int) == col + it);
        }
        let pad_idx = (pad_col + it as i64) as usize;
        let ghost old_v = buf_v@;
        let ghost old_a = buf_a@;
        assert forall|t: int| 0 <= t < it implies #[trigger] old_v[t] == value_of(s1.cps(), s1.pens(), col + t)
            && old_a[t] == final_action(s1.cps(), s1.evals(), g.precomp@, col, t) by {
            assert(buf_v@[t] == value_of(s1.cps(), s1.pens(), col + t));
        }
        proof {
            lemma_fins_after(s1.cps(), s1.evals(), s1.fins(), col, it as int, col + it);
        }
        let cp = store.get(pad_idx);
        if cp == UNREACHED {
            buf_v.push(MAX_COST);
            buf_a.push(-1);
        } else {
            let pen = store.pen(pad_idx);
            buf_v.push(cp.wrapping_sub(pen));
            if store.eval_ok(pad_idx) {
                let (_, best) = best_in_store(store, g, ix, iy, it, pad_col, Ghost(acts));
                let a: i32 = match best {
                    Some(ai) => ai as i32,
                    None => -1,
                };
                buf_a.push(a);
                let ghost pre = *store;
                store.set_final(pad_idx);
                proof {
                    assert forall|b: int| window(*store, iy as int).0 <= b <= window(*store, iy as int).1
                        implies #[trigger] store.allocated(b) by {
                        assert(pre.allocated(b));
                    }
                }
                proof {
                    assert(pre.block_of(pad_idx as int) == bk);
                    assert(pre.fins()[pad_idx as int] == s1.fins()[col + it]);
                }
                cnt += 1;
            } else {
                buf_a.push(-1);
            }
        }
        proof {
            assert(buf_v@[it as int] == value_of(s1.cps(), s1.pens(), col + it));
            assert(buf_a@[it as int] == final_action(s1.cps(), s1.evals(), g.precomp@, col, it as int));
            assert forall|t: int| 0 <= t < it + 1 implies #[trigger] buf_v@[t] == value_of(s1.cps(), s1.pens(), col + t)
                && buf_a@[t] == final_action(s1.cps(), s1.evals(), g.precomp@, col, t) by {
                if t < it {
                    assert(buf_v@[t] == old_v[t] && buf_a@[t] == old_a[t]);
                    assert(old_v[t] == value_of(s1.cps(), s1.pens(), col + t));
                }
            }
        }
        it += 1;
    }
    proof {
        lemma_index_bound(ix as int, iy as int, 0, g.nx as int, g.ny as int, g.nt as int);
        assert(index_of(ix as int, iy as int, 0, g.nx as int, g.nt as int) + g.nt <= g.nx * g.ny * g.nt) by (nonlinear_arith)
            requires 0 <= ix < g.nx, 0 <= iy < g.ny, 1 <= g.nt,
                index_of(ix as int, iy as int, 0, g.nx as int, g.nt as int) == ix * g.nt + iy * (g.nt * g.nx);
    }
    let base = (ix as i64 * nt as i64 + iy as i64 * (nt as i64 * g.nx as i64)) as usize;
    sink.write_column(base, buf_v.as_slice(), buf_a.as_slice());
    proof {
        assert(window_built(s0, s1, states@, iy as int));
    }
    cnt
}

/// Setting the final flags of headings `0 .. k` leaves every other index as it was.
proof fn lemma_fins_after(cps: Seq<u64>, evals: Seq<bool>, fins: Seq<bool>, col: int, k: int, j: int)
    requires
        0 <= k,
        0 <= col,
        col + k <= fins.len(),
        0 <= j < fins.len(),
        j < col || j >= col + k,
    ensures
        fins_after(cps, evals, fins, col, k)[j] == fins[j],
        fins_after(cps, evals, fins, col, k).len() == fins.len(),
    decreases k,
{
    if k > 0 {
        lemma_fins_after(cps, evals, fins, col, k - 1, j);
    }
}

/// Decoding a padded index gives back the padded cell it was made from, so a
/// block built from the states holds, at the padded index of each in-grid
/// cell, that cell's fused value, penalties and update flag, as the fused
/// layout does, and `(UNREACHED, 0, false)` on the padding.
pub proof fn lemma_pad_cell(states: Seq<State>, g: Geom, x: int, y: int, t: int)
    requires
        0 <= g.nx,
        0 <= g.ny,
        1 <= g.nt,
        1 <= g.mx,
        1 <= g.my,
        g.row_stride == g.nt * (g.nx + 2 * g.mx),
        in_box(g, x, y, t),
    ensures
        pad_cell(pad_index(x, y, t, g.nx as int, g.nt as int, g.mx as int, g.my as int), g.row_stride as int,
            g.nt as int, g.mx as int, g.my as int) == (x, y, t),
        cell_entry(states, pad_index(x, y, t, g.nx as int, g.nt as int, g.mx as int, g.my as int), g.row_stride as int,
            g.nx as int, g.ny as int, g.nt as int, g.mx as int, g.my as int)
            == if 0 <= x < g.nx && 0 <= y < g.ny {
                let s = states[index_of(x, y, t, g.nx as int, g.nt as int)];
                (cp_of(s), pen_of(s), eval_of(s))
            } else {
                (UNREACHED, 0u64, false)
            },
{
    let nt = g.nt as int;
    let w = g.nx + 2 * g.mx;
    let rs = g.row_stride as int;
    let j = pad_index(x, y, t, g.nx as int, nt, g.mx as int, g.my as int);
    let r = t + (x + g.mx) * nt;
    assert(0 <= r < rs) by (nonlinear_arith)
        requires r == t + (x + g.mx) * nt, 0 <= t < nt, 0 <= x + g.mx < w, rs == nt * w;
    assert(j == (y + g.my) * rs + r) by (nonlinear_arith)
        requires j == t + (x + g.mx) * nt + (y + g.my) * (nt * w), rs == nt * w, r == t + (x + g.mx) * nt;
    vstd::arithmetic::div_mod::lemma_fundamental_div_mod_converse(j, rs, y + g.my, r);
    assert(r == (x + g.mx) * nt + t);
    vstd::arithmetic::div_mod::lemma_fundamental_div_mod_converse(r, nt, x + g.mx, t);
}

/// The action a sink entry stands for: none below zero.
pub open spec fn sink_action(a: i32) -> Option<usize> {
    if a < 0 { None } else { Some(a as usize) }
}

/// Copies the finalized values and actions of `sink` into the states of `vi`,
/// each state reading the entry of its own index.
pub fn write_back_sink<S: CompactSink>(vi: &mut StateSpace, g: &Geom, sink: &S)
    requires
        states_ok(old(vi).states@, g.nx as int, g.ny as int, g.nt as int),
        old(vi).states@.len() <= sink.len_spec(),
    ensures
        final(vi).actions@ == old(vi).actions@,
        final(vi).cell_num_x == old(vi).cell_num_x,
        final(vi).cell_num_y == old(vi).cell_num_y,
        final(vi).cell_num_t == old(vi).cell_num_t,
        final(vi).states@.len() == old(vi).states@.len(),
        forall|k: int| 0 <= k < old(vi).states@.len() ==> #[trigger] final(vi).states@[k] == (State {
            total_cost: sink.at(k).0,
            optimal_action: sink_action(sink.at(k).1),
            ..old(vi).states@[k]
        }),
{
    let ghost st = vi.states@;
    let n = vi.states.len();
    let mut k: usize = 0;
    while k < n
        invariant
            0 <= k <= n,
            n == st.len(),
            st == old(vi).states@,
            states_ok(st, g.nx as int, g.ny as int, g.nt as int),
            n <= sink.len_spec(),
            vi.states@.len() == n,
            vi.actions@ == old(vi).actions@,
            vi.cell_num_x == old(vi).cell_num_x,
            vi.cell_num_y == old(vi).cell_num_y,
            vi.cell_num_t == old(vi).cell_num_t,
            forall|k2: int| 0 <= k2 < k ==> #[trigger] vi.states@[k2] == (State {
                total_cost: sink.at(k2).0,
                optimal_action: sink_action(sink.at(k2).1),
                ..st[k2]
            }),
            forall|k2: int| k <= k2 < n ==> #[trigger] vi.states@[k2] == st[k2],
        decreases n - k,
    {
        let mut s = vi.states[k];
        proof {
            assert(vi.states@[k as int] == st[k as int]);
            assert(in_grid(s, g.nx as int, g.ny as int, g.nt as int));
            lemma_index_bound(s.ix as int, s.iy as int, s.it as int, g.nx as int, g.ny as int, g.nt as int);
            assert(0 <= s.ix * g.nt <= g.nx * g.nt) by (nonlinear_arith) requires 0 <= s.ix < g.nx, 0 <= g.nt;
            assert(0 <= s.iy * (g.nt * g.nx) <= g.ny * (g.nt * g.nx)) by (nonlinear_arith)
                requires 0 <= s.iy < g.ny, 0 <= g.nt, 0 <= g.nx;
            assert(g.ny * (g.nt * g.nx) == g.nx * g.ny * g.nt) by (nonlinear_arith);
        }
        let orig = (s.it as i64 + s.ix as i64 * g.nt as i64 + s.iy as i64 * (g.nt as i64 * g.nx as i64)) as usize;
        proof {
            assert(orig == k);
        }
        let (v, a) = sink.read(orig);
        s.total_cost = v;
        s.optimal_action = if a < 0 { None } else { Some(a as usize) };
        vi.states.set(k, s);
        k += 1;
    }
}

} // verus!
