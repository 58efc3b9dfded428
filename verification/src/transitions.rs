//! The per-(action, theta) outcome table and its flat word encoding.
//!
//! Packed layout: record `b = a * N_THETA + it` occupies the words
//! `[b * TRANS_WORD_STRIDE, (b + 1) * TRANS_WORD_STRIDE)`; word 0 holds the outcome
//! count `n`, then for each outcome `k < n` word `2k + 1` holds the packed offsets
//! `(dix, diy, dit)` (one byte each, low byte first) and word `2k + 2` its probability.
use vstd::prelude::*;
use crate::params::{MAX_OUTCOMES, N_ACTIONS, N_THETA, TRANS_TABLE_SIZE, TRANS_WORD_STRIDE};

verus! {

/// A signed cell offset.
pub type Offset = i8;

/// The flat word encoding of a [`TransitionModel`].
pub struct PackedTransitions(pub Vec<u32>);

/// Outcome table indexed `[action][theta][outcome]`.
pub struct TransitionModel {
    pub n_outcomes: [[u8; N_THETA]; N_ACTIONS],
    pub dix: [[[Offset; MAX_OUTCOMES]; N_THETA]; N_ACTIONS],
    pub diy: [[[Offset; MAX_OUTCOMES]; N_THETA]; N_ACTIONS],
    pub dit: [[[Offset; MAX_OUTCOMES]; N_THETA]; N_ACTIONS],
    pub prob: [[[u32; MAX_OUTCOMES]; N_THETA]; N_ACTIONS],
}

/// `(action, theta)` is an index pair of the table.
pub open spec fn valid_pair(a: int, it: int) -> bool {
    0 <= a < N_ACTIONS && 0 <= it < N_THETA
}

/// `(action, theta, outcome)` is an index triple of the table.
pub open spec fn valid_triple(a: int, it: int, k: int) -> bool {
    valid_pair(a, it) && 0 <= k < MAX_OUTCOMES
}

/// The three offsets packed into one word, one byte each.
pub open spec fn spec_pack_delta(dix: i8, diy: i8, dit: i8) -> u32 {
    (dix as u8 as u32) | ((diy as u8 as u32) << 8u32) | ((dit as u8 as u32) << 16u32)
}

/// The three offsets read back from the low three bytes of a word.
pub open spec fn spec_unpack_delta(word: u32) -> (i8, i8, i8) {
    (
        (word & 0xFFu32) as u8 as i8,
        ((word >> 8u32) & 0xFFu32) as u8 as i8,
        ((word >> 16u32) & 0xFFu32) as u8 as i8,
    )
}

/// Word `j` of the record holding `n` outcomes with the given rows.
pub open spec fn row_word(
    n: u8,
    dix: [Offset; MAX_OUTCOMES],
    diy: [Offset; MAX_OUTCOMES],
    dit: [Offset; MAX_OUTCOMES],
    prob: [u32; MAX_OUTCOMES],
    j: int,
) -> u32 {
    if j == 0 {
        n as u32
    } else if j % 2 == 1 {
        let k = (j - 1) / 2;
        if k < n as int {
            spec_pack_delta(dix[k], diy[k], dit[k])
        } else {
            0
        }
    } else {
        let k = (j - 2) / 2;
        if k < n as int {
            prob[k]
        } else {
            0
        }
    }
}

/// Word `j` of record `b` in the packed encoding of `m`.
pub open spec fn record_word(m: TransitionModel, b: int, j: int) -> u32 {
    let a = b / (N_THETA as int);
    let it = b % (N_THETA as int);
    row_word(m.n_outcomes[a][it], m.dix[a][it], m.diy[a][it], m.dit[a][it], m.prob[a][it], j)
}

/// The packed encoding of `m`.
pub open spec fn spec_pack(m: TransitionModel) -> Seq<u32> {
    Seq::new(
        TRANS_TABLE_SIZE as nat,
        |i: int| record_word(m, i / (TRANS_WORD_STRIDE as int), i % (TRANS_WORD_STRIDE as int)),
    )
}

/// Every record count word of `words` is at most `MAX_OUTCOMES`.
pub open spec fn packed_counts_bounded(words: Seq<u32>) -> bool {
    forall|b: int|
        0 <= b < N_ACTIONS * N_THETA ==> #[trigger] words[b * TRANS_WORD_STRIDE] <= MAX_OUTCOMES
}

/// `m` is the model decoded from `words`: counts come from the count words, the
/// first `n` outcomes from their words, and every unused outcome slot is zero.
pub open spec fn unpacked_from(m: TransitionModel, words: Seq<u32>) -> bool {
    forall|a: int, it: int, k: int| valid_triple(a, it, k) ==> #[trigger] decoded_at(m, words, a, it, k)
}

/// Largest `|d|` over the live outcomes of one offset table.
pub open spec fn abs_i8(d: i8) -> int {
    if d < 0 { -d } else { d as int }
}

impl TransitionModel {
    /// Every outcome count is at most `MAX_OUTCOMES`.
    pub open spec fn counts_bounded(&self) -> bool {
        forall|a: int, it: int| valid_pair(a, it) ==> #[trigger] self.n_outcomes[a][it] <= MAX_OUTCOMES
    }

    /// Every entry of the table is zero.
    pub open spec fn is_zero(&self) -> bool {
        &&& forall|a: int, it: int| valid_pair(a, it) ==> #[trigger] self.n_outcomes[a][it] == 0
        &&& forall|a: int, it: int, k: int|
            #![trigger self.dix[a][it][k]]
            #![trigger self.diy[a][it][k]]
            #![trigger self.dit[a][it][k]]
            #![trigger self.prob[a][it][k]]
            valid_triple(a, it, k) ==> self.dix[a][it][k] == 0 && self.diy[a][it][k] == 0
                && self.dit[a][it][k] == 0 && self.prob[a][it][k] == 0
    }

    /// `self` and `other` have the same counts and the same live outcomes.
    pub open spec fn same_outcomes(&self, other: &TransitionModel) -> bool {
        &&& forall|a: int, it: int| valid_pair(a, it) ==> #[trigger] self.n_outcomes[a][it] == other.n_outcomes[a][it]
        &&& forall|a: int, it: int, k: int|
            #![trigger self.dix[a][it][k]]
            valid_triple(a, it, k) && k < self.n_outcomes[a][it] ==> {
                &&& self.dix[a][it][k] == other.dix[a][it][k]
                &&& self.diy[a][it][k] == other.diy[a][it][k]
                &&& self.dit[a][it][k] == other.dit[a][it][k]
                &&& self.prob[a][it][k] == other.prob[a][it][k]
            }
    }

    /// Some live outcome of the table has `|dix| == v` (or `v == 0`), and none exceeds `v`.
    pub open spec fn is_max_abs(&self, table: [[[Offset; MAX_OUTCOMES]; N_THETA]; N_ACTIONS], v: int) -> bool {
        &&& forall|a: int, it: int, k: int|
            #![trigger table[a][it][k]]
            valid_triple(a, it, k) && k < self.n_outcomes[a][it] ==> abs_i8(table[a][it][k]) <= v
        &&& (v == 0 || exists|a: int, it: int, k: int|
            #![trigger table[a][it][k]]
            valid_triple(a, it, k) && k < self.n_outcomes[a][it] && abs_i8(table[a][it][k]) == v)
    }
}

impl Default for TransitionModel {
    /// The all-zero table (no outcomes anywhere).
    fn default() -> (r: Self)
        ensures
            r.is_zero(),
    {
        TransitionModel {
            n_outcomes: [[0u8; N_THETA]; N_ACTIONS],
            dix: [[[0i8; MAX_OUTCOMES]; N_THETA]; N_ACTIONS],
            diy: [[[0i8; MAX_OUTCOMES]; N_THETA]; N_ACTIONS],
            dit: [[[0i8; MAX_OUTCOMES]; N_THETA]; N_ACTIONS],
            prob: [[[0u32; MAX_OUTCOMES]; N_THETA]; N_ACTIONS],
        }
    }
}

fn pack_delta(dix: Offset, diy: Offset, dit: Offset) -> (r: u32)
    ensures
        r == spec_pack_delta(dix, diy, dit),
{
    (dix as u8 as u32) | ((diy as u8 as u32) << 8u32) | ((dit as u8 as u32) << 16u32)
}

fn unpack_delta(word: u32) -> (r: (Offset, Offset, Offset))
    ensures
        r == spec_unpack_delta(word),
{
    let dix = (word & 0xFF) as u8 as i8;
    let diy = ((word >> 8u32) & 0xFF) as u8 as i8;
    let dit = ((word >> 16u32) & 0xFF) as u8 as i8;
    (dix, diy, dit)
}

/// Reading the offsets back from a packed word gives the offsets that were packed.
pub proof fn lemma_delta_roundtrip(dix: i8, diy: i8, dit: i8)
    ensures
        spec_unpack_delta(spec_pack_delta(dix, diy, dit)) == (dix, diy, dit),
{
    let w = spec_pack_delta(dix, diy, dit);
    assert((w & 0xFFu32) as u8 as i8 == dix) by (bit_vector)
        requires w == (dix as u8 as u32) | ((diy as u8 as u32) << 8u32) | ((dit as u8 as u32) << 16u32);
    assert(((w >> 8u32) & 0xFFu32) as u8 as i8 == diy) by (bit_vector)
        requires w == (dix as u8 as u32) | ((diy as u8 as u32) << 8u32) | ((dit as u8 as u32) << 16u32);
    assert(((w >> 16u32) & 0xFFu32) as u8 as i8 == dit) by (bit_vector)
        requires w == (dix as u8 as u32) | ((diy as u8 as u32) << 8u32) | ((dit as u8 as u32) << 16u32);
}

/// The outcome rows of one record decoded from the words starting at `base`.
pub open spec fn record_decoded(
    n: u8,
    dix: [Offset; MAX_OUTCOMES],
    diy: [Offset; MAX_OUTCOMES],
    dit: [Offset; MAX_OUTCOMES],
    prob: [u32; MAX_OUTCOMES],
    words: Seq<u32>,
    base: int,
) -> bool {
    &&& n == words[base] as u8
    &&& forall|k: int|
        #![trigger dix[k]]
        #![trigger diy[k]]
        #![trigger dit[k]]
        #![trigger prob[k]]
        0 <= k < MAX_OUTCOMES ==> {
            let live = k < words[base] as int;
            &&& dix[k] == (if live { spec_unpack_delta(words[base + 2 * k + 1]).0 } else { 0 })
            &&& diy[k] == (if live { spec_unpack_delta(words[base + 2 * k + 1]).1 } else { 0 })
            &&& dit[k] == (if live { spec_unpack_delta(words[base + 2 * k + 1]).2 } else { 0 })
            &&& prob[k] == (if live { words[base + 2 * k + 2] } else { 0 })
        }
}

/// Decode one record from the words starting at `base`.
fn unpack_record(words: &Vec<u32>, base: usize) -> (r: (u8, [Offset; MAX_OUTCOMES], [Offset; MAX_OUTCOMES], [Offset; MAX_OUTCOMES], [u32; MAX_OUTCOMES]))
    requires
        base + TRANS_WORD_STRIDE <= words@.len(),
        words@[base as int] <= MAX_OUTCOMES,
    ensures
        record_decoded(r.0, r.1, r.2, r.3, r.4, words@, base as int),
{
    let n_out = words[base] as usize;
    let mut dx = [0i8; MAX_OUTCOMES];
    let mut dy = [0i8; MAX_OUTCOMES];
    let mut dt = [0i8; MAX_OUTCOMES];
    let mut pr = [0u32; MAX_OUTCOMES];
    for k in 0..n_out
        invariant
            n_out == words@[base as int],
            n_out <= MAX_OUTCOMES,
            base + TRANS_WORD_STRIDE <= words.len(),
            forall|k2: int|
                #![trigger dx[k2]]
                #![trigger dy[k2]]
                #![trigger dt[k2]]
                #![trigger pr[k2]]
                0 <= k2 < MAX_OUTCOMES ==> {
                    let done = k2 < k;
                    &&& dx[k2] == (if done { spec_unpack_delta(words@[base + 2 * k2 + 1]).0 } else { 0 })
                    &&& dy[k2] == (if done { spec_unpack_delta(words@[base + 2 * k2 + 1]).1 } else { 0 })
                    &&& dt[k2] == (if done { spec_unpack_delta(words@[base + 2 * k2 + 1]).2 } else { 0 })
                    &&& pr[k2] == (if done { words@[base + 2 * k2 + 2] } else { 0 })
                },
    {
        let (a, b, c) = unpack_delta(words[base + 2 * k + 1]);
        dx[k] = a;
        dy[k] = b;
        dt[k] = c;
        pr[k] = words[base + 2 * k + 2];
    }
    (n_out as u8, dx, dy, dt, pr)
}

/// Write one record at `base`.
fn pack_record(
    v: &mut Vec<u32>,
    base: usize,
    n: u8,
    dix: &[Offset; MAX_OUTCOMES],
    diy: &[Offset; MAX_OUTCOMES],
    dit: &[Offset; MAX_OUTCOMES],
    prob: &[u32; MAX_OUTCOMES],
)
    requires
        base + TRANS_WORD_STRIDE <= old(v)@.len(),
        n <= MAX_OUTCOMES,
        forall|j: int| 0 <= j < TRANS_WORD_STRIDE ==> #[trigger] old(v)@[base + j] == 0,
    ensures
        final(v)@.len() == old(v)@.len(),
        forall|i: int|
            0 <= i < old(v)@.len() ==> #[trigger] final(v)@[i] == (if base <= i < base + TRANS_WORD_STRIDE {
                row_word(n, *dix, *diy, *dit, *prob, i - base)
            } else {
                old(v)@[i]
            }),
{
    let n_out = n as usize;
    v.set(base, n_out as u32);
    for k in 0..n_out
        invariant
            n_out == n,
            n <= MAX_OUTCOMES,
            base + TRANS_WORD_STRIDE <= v.len(),
            v@.len() == old(v)@.len(),
            forall|i: int|
                0 <= i < old(v)@.len() ==> #[trigger] v@[i] == (if base <= i < base + 1 + 2 * k {
                    row_word(n, *dix, *diy, *dit, *prob, i - base)
                } else {
                    old(v)@[i]
                }),
    {
        v.set(base + 2 * k + 1, pack_delta(dix[k], diy[k], dit[k]));
        v.set(base + 2 * k + 2, prob[k]);
    }
    proof {
        assert forall|i: int| 0 <= i < old(v)@.len() implies #[trigger] v@[i] == (if base <= i < base + TRANS_WORD_STRIDE {
            row_word(n, *dix, *diy, *dit, *prob, i - base)
        } else {
            old(v)@[i]
        }) by {
            if base + 1 + 2 * n_out <= i < base + TRANS_WORD_STRIDE {
                assert(old(v)@[base + (i - base)] == 0);
            }
        }
    }
}

impl TransitionModel {
    /// Encode the table. Every count must be at most `MAX_OUTCOMES`.
    pub fn pack(&self) -> (r: PackedTransitions)
        requires
            self.counts_bounded(),
        ensures
            r.0@ == spec_pack(*self),
    {
        let mut v = vec![0u32; TRANS_TABLE_SIZE];
        for a in 0..N_ACTIONS
            invariant
                self.counts_bounded(),
                v@.len() == TRANS_TABLE_SIZE,
                forall|i: int| 0 <= i < TRANS_TABLE_SIZE ==> #[trigger] v@[i] == (if i < a * N_THETA * TRANS_WORD_STRIDE {
                    record_word(*self, i / (TRANS_WORD_STRIDE as int), i % (TRANS_WORD_STRIDE as int))
                } else {
                    0
                }),
        {
            for it in 0..N_THETA
                invariant
                    0 <= a < N_ACTIONS,
                    self.counts_bounded(),
                    v@.len() == TRANS_TABLE_SIZE,
                    forall|i: int| 0 <= i < TRANS_TABLE_SIZE ==> #[trigger] v@[i] == (if i < (a * N_THETA + it) * TRANS_WORD_STRIDE {
                        record_word(*self, i / (TRANS_WORD_STRIDE as int), i % (TRANS_WORD_STRIDE as int))
                    } else {
                        0
                    }),
            {
                let base = (a * N_THETA + it) * TRANS_WORD_STRIDE;
                proof {
                    assert(self.n_outcomes[a as int][it as int] <= MAX_OUTCOMES);
                    assert forall|j: int| 0 <= j < TRANS_WORD_STRIDE implies #[trigger] v@[base + j] == 0 by {
                        assert(v@[base + j] == 0);
                    }
                }
                pack_record(&mut v, base, self.n_outcomes[a][it], &self.dix[a][it], &self.diy[a][it], &self.dit[a][it], &self.prob[a][it]);
                proof {
                    assert forall|i: int| 0 <= i < TRANS_TABLE_SIZE implies #[trigger] v@[i] == (if i < (a * N_THETA + it + 1) * TRANS_WORD_STRIDE {
                        record_word(*self, i / (TRANS_WORD_STRIDE as int), i % (TRANS_WORD_STRIDE as int))
                    } else {
                        0
                    }) by {
                        if base <= i < base + TRANS_WORD_STRIDE {
                            assert(i / (TRANS_WORD_STRIDE as int) == a * N_THETA + it);
                            assert(i % (TRANS_WORD_STRIDE as int) == i - base);
                            assert((a * N_THETA + it) / (N_THETA as int) == a);
                            assert((a * N_THETA + it) % (N_THETA as int) == it);
                        }
                    }
                }
            }
        }
        proof {
            assert(v@ =~= spec_pack(*self));
        }
        PackedTransitions(v)
    }
}

impl PackedTransitions {
    /// Decode the table. Each count word must be at most `MAX_OUTCOMES`.
    pub fn unpack(&self) -> (m: TransitionModel)
        requires
            self.0@.len() >= TRANS_TABLE_SIZE,
            packed_counts_bounded(self.0@),
        ensures
            unpacked_from(m, self.0@),
    {
        let mut m = TransitionModel::default();
        let ghost words = self.0@;
        for a in 0..N_ACTIONS
            invariant
                words == self.0@,
                words.len() >= TRANS_TABLE_SIZE,
                packed_counts_bounded(words),
                forall|a2: int, it2: int|
                    #![trigger m.dix[a2][it2]]
                    0 <= a2 < a && 0 <= it2 < N_THETA ==> record_decoded(
                        m.n_outcomes[a2][it2], m.dix[a2][it2], m.diy[a2][it2], m.dit[a2][it2], m.prob[a2][it2],
                        words, (a2 * N_THETA + it2) * TRANS_WORD_STRIDE),
        {
            let mut an = [0u8; N_THETA];
            let mut ax = [[0i8; MAX_OUTCOMES]; N_THETA];
            let mut ay = [[0i8; MAX_OUTCOMES]; N_THETA];
            let mut at = [[0i8; MAX_OUTCOMES]; N_THETA];
            let mut ap = [[0u32; MAX_OUTCOMES]; N_THETA];
            for it in 0..N_THETA
                invariant
                    0 <= a < N_ACTIONS,
                    words == self.0@,
                    words.len() >= TRANS_TABLE_SIZE,
                    packed_counts_bounded(words),
                    forall|it2: int|
                        #![trigger ax[it2]]
                        0 <= it2 < it ==> record_decoded(
                            an[it2], ax[it2], ay[it2], at[it2], ap[it2],
                            words, (a * N_THETA + it2) * TRANS_WORD_STRIDE),
            {
                let base = (a * N_THETA + it) * TRANS_WORD_STRIDE;
                proof {
                    assert(words[(a * N_THETA + it) * TRANS_WORD_STRIDE] <= MAX_OUTCOMES);
                }
                let (n, dx, dy, dt, pr) = unpack_record(&self.0, base);
                an[it] = n;
                ax[it] = dx;
                ay[it] = dy;
                at[it] = dt;
                ap[it] = pr;
            }
            m.n_outcomes[a] = an;
            m.dix[a] = ax;
            m.diy[a] = ay;
            m.dit[a] = at;
            m.prob[a] = ap;
        }
        proof {
            assert forall|a: int, it: int, k: int| valid_triple(a, it, k) implies #[trigger] decoded_at(m, words, a, it, k) by {
                assert(record_decoded(
                    m.n_outcomes[a][it], m.dix[a][it], m.diy[a][it], m.dit[a][it], m.prob[a][it],
                    words, (a * N_THETA + it) * TRANS_WORD_STRIDE));
                assert(m.dix[a][it][k] == m.dix[a][it][k]);
                assert(m.diy[a][it][k] == m.diy[a][it][k]);
                assert(m.dit[a][it][k] == m.dit[a][it][k]);
                assert(m.prob[a][it][k] == m.prob[a][it][k]);
            }
        }
        m
    }
}

/// Outcome slot `(a, it, k)` of `m` is decoded from `words`.
pub open spec fn decoded_at(m: TransitionModel, words: Seq<u32>, a: int, it: int, k: int) -> bool {
    let base = (a * N_THETA + it) * TRANS_WORD_STRIDE;
    let n = words[base] as int;
    &&& m.n_outcomes[a][it] == words[base] as u8
    &&& m.dix[a][it][k] == (if k < n { spec_unpack_delta(words[base + 2 * k + 1]).0 } else { 0 })
    &&& m.diy[a][it][k] == (if k < n { spec_unpack_delta(words[base + 2 * k + 1]).1 } else { 0 })
    &&& m.dit[a][it][k] == (if k < n { spec_unpack_delta(words[base + 2 * k + 1]).2 } else { 0 })
    &&& m.prob[a][it][k] == (if k < n { words[base + 2 * k + 2] } else { 0 })
}

impl TransitionModel {
    /// Largest `|offset|` over the live outcomes, per axis.
    pub fn max_displacement(&self) -> (r: (u8, u8, u8))
        requires
            self.counts_bounded(),
        ensures
            self.is_max_abs(self.dix, r.0 as int),
            self.is_max_abs(self.diy, r.1 as int),
            self.is_max_abs(self.dit, r.2 as int),
    {
        let mx = max_abs_table(self, &self.dix);
        let my = max_abs_table(self, &self.diy);
        let mt = max_abs_table(self, &self.dit);
        (mx, my, mt)
    }
}

fn unsigned_abs_i8(d: i8) -> (r: u8)
    ensures
        r as int == abs_i8(d),
{
    if d < 0 {
        (0i16 - d as i16) as u8
    } else {
        d as u8
    }
}

/// Largest `|table[a][it][k]|` over the live outcomes of `m`.
fn max_abs_table(m: &TransitionModel, table: &[[[Offset; MAX_OUTCOMES]; N_THETA]; N_ACTIONS]) -> (r: u8)
    requires
        m.counts_bounded(),
    ensures
        m.is_max_abs(*table, r as int),
{
    let mut best: u8 = 0;
    for a in 0..N_ACTIONS
        invariant
            m.counts_bounded(),
            forall|a2: int, it: int, k: int|
                #![trigger table[a2][it][k]]
                valid_triple(a2, it, k) && k < m.n_outcomes[a2][it] && a2 < a ==> abs_i8(table[a2][it][k]) <= best,
            best == 0 || exists|a2: int, it: int, k: int|
                #![trigger table[a2][it][k]]
                valid_triple(a2, it, k) && k < m.n_outcomes[a2][it] && abs_i8(table[a2][it][k]) == best,
    {
        for it in 0..N_THETA
            invariant
                0 <= a < N_ACTIONS,
                m.counts_bounded(),
                forall|a2: int, it2: int, k: int|
                    #![trigger table[a2][it2][k]]
                    valid_triple(a2, it2, k) && k < m.n_outcomes[a2][it2] && (a2 < a || (a2 == a && it2 < it))
                        ==> abs_i8(table[a2][it2][k]) <= best,
                best == 0 || exists|a2: int, it2: int, k: int|
                    #![trigger table[a2][it2][k]]
                    valid_triple(a2, it2, k) && k < m.n_outcomes[a2][it2] && abs_i8(table[a2][it2][k]) == best,
        {
            let n_out = m.n_outcomes[a][it] as usize;
            proof {
                assert(m.n_outcomes[a as int][it as int] <= MAX_OUTCOMES);
            }
            for k in 0..n_out
                invariant
                    0 <= a < N_ACTIONS,
                    0 <= it < N_THETA,
                    n_out == m.n_outcomes[a as int][it as int],
                    n_out <= MAX_OUTCOMES,
                    m.counts_bounded(),
                    forall|a2: int, it2: int, k2: int|
                        #![trigger table[a2][it2][k2]]
                        valid_triple(a2, it2, k2) && k2 < m.n_outcomes[a2][it2] && (a2 < a || (a2 == a && it2 < it)
                            || (a2 == a && it2 == it && k2 < k)) ==> abs_i8(table[a2][it2][k2]) <= best,
                    best == 0 || exists|a2: int, it2: int, k2: int|
                        #![trigger table[a2][it2][k2]]
                        valid_triple(a2, it2, k2) && k2 < m.n_outcomes[a2][it2] && abs_i8(table[a2][it2][k2]) == best,
            {
                let d = unsigned_abs_i8(table[a][it][k]);
                if d > best {
                    best = d;
                }
            }
        }
    }
    best
}

/// Encoding a table whose counts are at most `MAX_OUTCOMES` and decoding the
/// words again gives back the same counts and the same live outcomes.
pub proof fn lemma_unpack_after_pack(m: TransitionModel, m2: TransitionModel)
    requires
        m.counts_bounded(),
        unpacked_from(m2, spec_pack(m)),
    ensures
        m.same_outcomes(&m2),
{
    let words = spec_pack(m);
    assert forall|a: int, it: int| valid_pair(a, it) implies #[trigger] m.n_outcomes[a][it] == m2.n_outcomes[a][it] by {
        let b = a * N_THETA + it;
        let base = b * TRANS_WORD_STRIDE;
        assert(decoded_at(m2, words, a, it, 0));
        assert(base / (TRANS_WORD_STRIDE as int) == b);
        assert(base % (TRANS_WORD_STRIDE as int) == 0);
        assert(b / (N_THETA as int) == a);
        assert(b % (N_THETA as int) == it);
        assert(m.n_outcomes[a][it] <= MAX_OUTCOMES);
    }
    assert forall|a: int, it: int, k: int| valid_triple(a, it, k) && k < m.n_outcomes[a][it] implies {
        &&& #[trigger] m.dix[a][it][k] == m2.dix[a][it][k]
        &&& m.diy[a][it][k] == m2.diy[a][it][k]
        &&& m.dit[a][it][k] == m2.dit[a][it][k]
        &&& m.prob[a][it][k] == m2.prob[a][it][k]
    } by {
        let b = a * N_THETA + it;
        let base = b * TRANS_WORD_STRIDE;
        assert(decoded_at(m2, words, a, it, k));
        assert(b / (N_THETA as int) == a);
        assert(b % (N_THETA as int) == it);
        assert((base + 2 * k + 1) / (TRANS_WORD_STRIDE as int) == b);
        assert((base + 2 * k + 1) % (TRANS_WORD_STRIDE as int) == 2 * k + 1);
        assert((base + 2 * k + 2) / (TRANS_WORD_STRIDE as int) == b);
        assert((base + 2 * k + 2) % (TRANS_WORD_STRIDE as int) == 2 * k + 2);
        assert(base / (TRANS_WORD_STRIDE as int) == b);
        assert(base % (TRANS_WORD_STRIDE as int) == 0);
        assert(m.n_outcomes[a][it] <= MAX_OUTCOMES);
        lemma_delta_roundtrip(m.dix[a][it][k], m.diy[a][it][k], m.dit[a][it][k]);
    }
}

/// The encoding of a table whose counts are at most `MAX_OUTCOMES` has the full
/// table length and count words that are again at most `MAX_OUTCOMES`, so it can
/// always be decoded.
pub proof fn lemma_pack_is_decodable(m: TransitionModel)
    requires
        m.counts_bounded(),
    ensures
        spec_pack(m).len() == TRANS_TABLE_SIZE,
        packed_counts_bounded(spec_pack(m)),
{
    assert forall|b: int| 0 <= b < N_ACTIONS * N_THETA implies #[trigger] spec_pack(m)[b * TRANS_WORD_STRIDE] <= MAX_OUTCOMES by {
        let base = b * TRANS_WORD_STRIDE;
        assert(base / (TRANS_WORD_STRIDE as int) == b);
        assert(base % (TRANS_WORD_STRIDE as int) == 0);
        let a = b / (N_THETA as int);
        let it = b % (N_THETA as int);
        assert(valid_pair(a, it));
        assert(m.n_outcomes[a][it] <= MAX_OUTCOMES);
    }
}

} // verus!
