//! RAID detection evidence: classifying rows of blocks read at the same
//! offset of every image, entropy edges and stripe-size votes.
use vstd::prelude::*;
use vstd::arithmetic::power2::{lemma2_to64, pow2};

use crate::raid::{normalize_raid, spec_normalize_raid};
use crate::text::{decimal, push_decimal, string_of};
use crate::features::{block_views, is_parity_row, lemma_permutation_onto, occurs, vec_views, xor_is_zero};

verus! {

/// The user's detection settings.
pub struct DetectionOptions {
    pub block_size: usize,
    pub max_blocks: usize,
    pub top: usize,
    pub forced_raid: String,
    pub forced_stripe: Option<usize>,
}

/// How many sampled rows looked mirrored, looked like RAID-5 parity rows, or
/// matched neither; every row read falls in exactly one of the three.
pub struct TypeStats {
    pub mirrored_blocks: usize,
    pub parity_blocks: usize,
    pub unassigned_blocks: usize,
}

impl Default for TypeStats {
    fn default() -> (s: Self)
        ensures
            s.mirrored_blocks == 0,
            s.parity_blocks == 0,
            s.unassigned_blocks == 0,
    {
        TypeStats { mirrored_blocks: 0, parity_blocks: 0, unassigned_blocks: 0 }
    }
}

/// What one row of blocks (one block per image, at the same offset) shows.
#[derive(PartialEq, Eq, Structural)]
pub enum RowClass {
    /// Every block is identical: a RAID-1 trace.
    Mirrored,
    /// The blocks XOR to zero: a RAID-5 parity trace.
    Parity,
    /// Neither.
    Unassigned,
}

/// Every block of the row is identical to the next.
pub open spec fn row_all_equal(rows: Seq<Seq<u8>>) -> bool {
    forall|k: int| 0 <= k < rows.len() - 1 ==> #[trigger] rows[k] == rows[k + 1]
}

proof fn lemma_all_equal_to_first(rows: Seq<Seq<u8>>, i: int)
    requires
        row_all_equal(rows),
        0 <= i < rows.len(),
    ensures
        rows[i] == rows[0],
    decreases i,
{
    if i > 0 {
        lemma_all_equal_to_first(rows, i - 1);
        assert(rows[i - 1] == rows[i]);
    }
}

/// The class of a row: identical blocks make a mirrored row, blocks that
/// XOR to zero a parity row, anything else an unassigned row.
pub open spec fn spec_classify_row(rows: Seq<Seq<u8>>) -> RowClass {
    if row_all_equal(rows) {
        RowClass::Mirrored
    } else if is_parity_row(rows) {
        RowClass::Parity
    } else {
        RowClass::Unassigned
    }
}

/// A row counts as mirrored exactly when all its blocks are the same block:
/// two images whose blocks differ never make a mirrored row.
pub proof fn lemma_mirrored_iff_blocks_equal(rows: Seq<Seq<u8>>)
    ensures
        (spec_classify_row(rows) == RowClass::Mirrored) <==> forall|i: int, j: int|
            0 <= i < rows.len() && 0 <= j < rows.len() ==> #[trigger] rows[i] == #[trigger] rows[j],
{
    if row_all_equal(rows) {
        assert forall|i: int, j: int| 0 <= i < rows.len() && 0 <= j < rows.len() implies #[trigger] rows[i]
            == #[trigger] rows[j] by {
            lemma_all_equal_to_first(rows, i);
            lemma_all_equal_to_first(rows, j);
        }
    } else {
        let k = choose|k: int| 0 <= k < rows.len() - 1 && #[trigger] rows[k] != rows[k + 1];
        assert(rows[k] != rows[k + 1]);
    }
}

fn bytes_eq(a: &[u8], b: &[u8]) -> (r: bool)
    ensures
        r == (a@ == b@),
{
    if a.len() != b.len() {
        return false;
    }
    let mut i: usize = 0;
    while i < a.len()
        invariant
            a@.len() == b@.len(),
            i <= a@.len(),
            forall|j: int| 0 <= j < i ==> a@[j] == b@[j],
        decreases a@.len() - i,
    {
        if a[i] != b[i] {
            return false;
        }
        i = i + 1;
    }
    assert(a@ =~= b@);
    true
}

/// Classifies one row of blocks read at the same offset of every image.
pub fn classify_row(blocks: &Vec<Vec<u8>>) -> (c: RowClass)
    ensures
        c == spec_classify_row(vec_views(blocks@)),
{
    let ghost rows = vec_views(blocks@);
    let mut equal = true;
    let mut k: usize = 1;
    while k < blocks.len()
        invariant
            rows == vec_views(blocks@),
            1 <= k,
            k <= blocks@.len() || blocks@.len() == 0,
            equal == forall|j: int| 0 <= j < k - 1 && j < rows.len() - 1 ==> #[trigger] rows[j] == rows[j + 1],
        decreases blocks@.len() - k,
    {
        let e = bytes_eq(blocks[k - 1].as_slice(), blocks[k].as_slice());
        assert(rows[k - 1] == blocks@[k - 1]@);
        assert(rows[k as int] == blocks@[k as int]@);
        equal = equal && e;
        k = k + 1;
    }
    if equal {
        return RowClass::Mirrored;
    }
    let mut refs: Vec<&[u8]> = Vec::new();
    let mut k: usize = 0;
    while k < blocks.len()
        invariant
            rows == vec_views(blocks@),
            k <= blocks@.len(),
            refs@.len() == k,
            block_views(refs@) =~= rows.take(k as int),
        decreases blocks@.len() - k,
    {
        let ghost before = refs@;
        let b: &[u8] = blocks[k].as_slice();
        assert(b@ == rows[k as int]);
        refs.push(b);
        assert(refs@[k as int]@ == rows[k as int]);
        assert(block_views(refs@) =~= block_views(before).push(rows[k as int]));
        assert(rows.take(k + 1) =~= rows.take(k as int).push(rows[k as int]));
        k = k + 1;
    }
    assert(rows.take(k as int) =~= rows);
    if xor_is_zero(refs.as_slice()) {
        RowClass::Parity
    } else {
        RowClass::Unassigned
    }
}

impl TypeStats {
    /// The number of rows counted so far.
    pub open spec fn total(&self) -> int {
        self.mirrored_blocks + self.parity_blocks + self.unassigned_blocks
    }

    /// Counts one row of blocks read at the same offset of every image:
    /// identical rows (all-zero rows among them) count as mirrored, rows
    /// that XOR to zero as parity, the rest as unassigned.
    pub fn observe_row(&mut self, blocks: &Vec<Vec<u8>>)
        requires
            old(self).total() < usize::MAX,
        ensures
            ({
                let c = spec_classify_row(vec_views(blocks@));
                &&& final(self).mirrored_blocks == old(self).mirrored_blocks + if c == RowClass::Mirrored { 1int } else { 0int }
                &&& final(self).parity_blocks == old(self).parity_blocks + if c == RowClass::Parity { 1int } else { 0int }
                &&& final(self).unassigned_blocks == old(self).unassigned_blocks + if c == RowClass::Unassigned { 1int } else { 0int }
            }),
            final(self).total() == old(self).total() + 1,
    {
        match classify_row(blocks) {
            RowClass::Mirrored => {
                self.mirrored_blocks = self.mirrored_blocks + 1;
            },
            RowClass::Parity => {
                self.parity_blocks = self.parity_blocks + 1;
            },
            RowClass::Unassigned => {
                self.unassigned_blocks = self.unassigned_blocks + 1;
            },
        }
    }
}


/// Where a block's entropy falls against the low and high thresholds of
/// edge detection.
#[derive(PartialEq, Eq, Structural, Clone, Copy)]
pub enum EntropyLevel {
    /// At or below the low threshold.
    Low,
    /// Strictly between the thresholds.
    Mid,
    /// At or above the high threshold.
    High,
}

/// Every level in `levels[from..to]` is `level`.
pub open spec fn run_of(levels: Seq<EntropyLevel>, from: int, to: int, level: EntropyLevel) -> bool {
    forall|j: int| from <= j < to ==> #[trigger] levels[j] == level
}

/// Block `idx` starts an entropy edge: the `window` blocks before it are all
/// low and the `window` blocks from it on all high, or the other way round.
pub open spec fn is_entropy_edge(levels: Seq<EntropyLevel>, window: int, idx: int) -> bool {
    ||| run_of(levels, idx - window, idx, EntropyLevel::Low) && run_of(levels, idx, idx + window, EntropyLevel::High)
    ||| run_of(levels, idx - window, idx, EntropyLevel::High) && run_of(levels, idx, idx + window, EntropyLevel::Low)
}

/// The offsets of the edges among blocks `window..upto`, in order.
pub open spec fn edges_upto(levels: Seq<EntropyLevel>, offsets: Seq<usize>, window: int, upto: int) -> Seq<usize>
    decreases upto - window,
{
    if upto <= window {
        Seq::empty()
    } else {
        let prev = edges_upto(levels, offsets, window, upto - 1);
        if is_entropy_edge(levels, window, upto - 1) {
            prev.push(offsets[upto - 1])
        } else {
            prev
        }
    }
}

/// The offsets of the blocks that start an entropy edge, for blocks with a
/// full window on both sides; none when there are fewer than `2 * window + 1`
/// blocks.
pub open spec fn spec_entropy_edges(levels: Seq<EntropyLevel>, offsets: Seq<usize>, window: nat) -> Seq<usize> {
    if levels.len() < 2 * window + 1 {
        Seq::empty()
    } else {
        edges_upto(levels, offsets, window as int, levels.len() - window)
    }
}

fn all_level(levels: &[EntropyLevel], from: usize, to: usize, level: EntropyLevel) -> (r: bool)
    requires
        from <= to <= levels@.len(),
    ensures
        r == run_of(levels@, from as int, to as int, level),
{
    let mut j = from;
    while j < to
        invariant
            from <= j <= to,
            to <= levels@.len(),
            run_of(levels@, from as int, j as int, level),
        decreases to - j,
    {
        if levels[j] != level {
            return false;
        }
        j = j + 1;
    }
    true
}

/// The offsets at which block entropy jumps from low to high or from high to
/// low and stays there for `window` blocks on each side.
pub fn entropy_edges(levels: &[EntropyLevel], offsets: &[usize], window: usize) -> (edges: Vec<usize>)
    requires
        window * 2 + 1 <= usize::MAX,
        levels@.len() >= window * 2 + 1 ==> offsets@.len() >= levels@.len() - window,
    ensures
        edges@ == spec_entropy_edges(levels@, offsets@, window as nat),
{
    if levels.len() < (window * 2) + 1 {
        return Vec::new();
    }
    let mut edges: Vec<usize> = Vec::new();
    let end = levels.len() - window;
    let mut idx = window;
    while idx < end
        invariant
            window <= idx <= end,
            end == levels@.len() - window,
            levels@.len() == end + window,
            end + window <= usize::MAX,
            offsets@.len() >= end,
            edges@ == edges_upto(levels@, offsets@, window as int, idx as int),
        decreases end - idx,
    {
        let start = idx - window;
        let stop = idx + window;
        let low_to_high = all_level(levels, start, idx, EntropyLevel::Low)
            && all_level(levels, idx, stop, EntropyLevel::High);
        let high_to_low = all_level(levels, start, idx, EntropyLevel::High)
            && all_level(levels, idx, stop, EntropyLevel::Low);
        if low_to_high || high_to_low {
            edges.push(offsets[idx]);
        }
        idx = idx + 1;
    }
    edges
}

/// The stripe sizes voted on, largest first: 1 MiB down to 1 KiB by powers of
/// two, each with no vote yet.
pub open spec fn spec_stripe_candidates() -> Seq<(usize, usize)> {
    seq![
        (1048576usize, 0usize), (524288usize, 0usize), (262144usize, 0usize), (131072usize, 0usize),
        (65536usize, 0usize), (32768usize, 0usize), (16384usize, 0usize), (8192usize, 0usize),
        (4096usize, 0usize), (2048usize, 0usize), (1024usize, 0usize),
    ]
}

/// The stripe sizes voted on, each with a count of zero.
pub fn stripe_candidates() -> (votes: Vec<(usize, usize)>)
    ensures
        votes@ == spec_stripe_candidates(),
{
    let votes: Vec<(usize, usize)> = vec![
        (1024 * 1024, 0),
        (512 * 1024, 0),
        (256 * 1024, 0),
        (128 * 1024, 0),
        (64 * 1024, 0),
        (32 * 1024, 0),
        (16 * 1024, 0),
        (8 * 1024, 0),
        (4 * 1024, 0),
        (2 * 1024, 0),
        (1024, 0),
    ];
    assert(votes@ =~= spec_stripe_candidates());
    votes
}

/// The distance between consecutive edges `i` and `i + 1`.
pub open spec fn edge_distance(edges: Seq<usize>, i: int) -> nat {
    if edges[i + 1] >= edges[i] {
        (edges[i + 1] - edges[i]) as nat
    } else {
        (edges[i] - edges[i + 1]) as nat
    }
}

/// The first candidate, at or after `k`, whose stripe size divides `d`.
pub open spec fn first_divisor(votes: Seq<(usize, usize)>, d: nat, k: nat) -> Option<nat>
    decreases votes.len() - k,
{
    if k >= votes.len() {
        None
    } else if d % (votes[k as int].0 as nat) == 0 {
        Some(k)
    } else {
        first_divisor(votes, d, k + 1)
    }
}

/// The stripe sizes voted on are the powers of two from 1 MiB (2^20) down to
/// 1 KiB (2^10), each once, largest first, and none has a vote yet.
pub proof fn lemma_stripe_candidates_are_powers_of_two()
    ensures
        spec_stripe_candidates().len() == 11,
        forall|k: int| 0 <= k < 11 ==> {
            &&& #[trigger] spec_stripe_candidates()[k].0 as nat == pow2((20 - k) as nat)
            &&& spec_stripe_candidates()[k].1 == 0
        },
{
    lemma2_to64();
    let c = spec_stripe_candidates();
    assert forall|k: int| 0 <= k < 11 implies #[trigger] c[k].0 as nat == pow2((20 - k) as nat) && c[k].1 == 0 by {
        if k == 0 {
        } else if k == 1 {
        } else if k == 2 {
        } else if k == 3 {
        } else if k == 4 {
        } else if k == 5 {
        } else if k == 6 {
        } else if k == 7 {
        } else if k == 8 {
        } else if k == 9 {
        } else {
        }
    }
}

proof fn lemma_first_divisor(votes: Seq<(usize, usize)>, d: nat, i: nat)
    requires
        i <= votes.len(),
    ensures
        match first_divisor(votes, d, i) {
            Some(k) => i <= k < votes.len() && d % (votes[k as int].0 as nat) == 0
                && forall|j: int| i <= j < k ==> d % (#[trigger] votes[j].0 as nat) != 0,
            None => forall|j: int| i <= j < votes.len() ==> d % (#[trigger] votes[j].0 as nat) != 0,
        },
    decreases votes.len() - i,
{
    if i < votes.len() {
        lemma_first_divisor(votes, d, i + 1);
    }
}

/// A distance between edges votes for the largest power of two from 1 KiB
/// to 1 MiB that divides it: the candidate it picks is `2^e` for some `e`
/// in `10..=20` that divides the distance while no larger power up to 2^20
/// does, and it picks none when 1 KiB does not divide it.
pub proof fn lemma_vote_goes_to_largest_power_of_two(votes: Seq<(usize, usize)>, d: nat)
    requires
        votes.len() == 11,
        forall|k: int| 0 <= k < 11 ==> #[trigger] votes[k].0 == spec_stripe_candidates()[k].0,
    ensures
        match first_divisor(votes, d, 0) {
            Some(k) => {
                &&& k < 11
                &&& votes[k as int].0 as nat == pow2((20 - k) as nat)
                &&& d % pow2((20 - k) as nat) == 0
                &&& forall|e: nat| 20 - k < e <= 20 ==> d % #[trigger] pow2(e) != 0
            },
            None => forall|e: nat| 10 <= e <= 20 ==> d % #[trigger] pow2(e) != 0,
        },
{
    lemma_stripe_candidates_are_powers_of_two();
    lemma_first_divisor(votes, d, 0);
    match first_divisor(votes, d, 0) {
        Some(k) => {
            assert(votes[k as int].0 == spec_stripe_candidates()[k as int].0);
            assert forall|e: nat| 20 - k < e <= 20 implies d % #[trigger] pow2(e) != 0 by {
                let j = 20 - e;
                assert(votes[j].0 == spec_stripe_candidates()[j].0);
                assert(d % (votes[j].0 as nat) != 0);
            }
        },
        None => {
            assert forall|e: nat| 10 <= e <= 20 implies d % #[trigger] pow2(e) != 0 by {
                let j = 20 - e;
                assert(votes[j].0 == spec_stripe_candidates()[j].0);
                assert(d % (votes[j].0 as nat) != 0);
            }
        },
    }
}

/// One vote for a distance `d` between edges: it goes to the first (largest)
/// candidate stripe size that divides it; a zero distance casts no vote.
pub open spec fn add_vote(votes: Seq<(usize, usize)>, d: nat) -> Seq<(usize, usize)> {
    if d == 0 {
        votes
    } else {
        match first_divisor(votes, d, 0) {
            Some(k) => votes.update(k as int, (votes[k as int].0, (votes[k as int].1 + 1) as usize)),
            None => votes,
        }
    }
}

/// The votes after counting the distances between the first `p + 1` edges.
pub open spec fn tally_pairs(votes: Seq<(usize, usize)>, edges: Seq<usize>, p: nat) -> Seq<(usize, usize)>
    decreases p,
{
    if p == 0 {
        votes
    } else {
        add_vote(tally_pairs(votes, edges, (p - 1) as nat), edge_distance(edges, p - 1))
    }
}

/// The votes after counting every pair of consecutive edges.
pub open spec fn spec_tally(votes: Seq<(usize, usize)>, edges: Seq<usize>) -> Seq<(usize, usize)> {
    if edges.len() < 2 {
        votes
    } else {
        tally_pairs(votes, edges, (edges.len() - 1) as nat)
    }
}

/// Adds to `votes` the stripe-size votes of the distances between
/// consecutive entropy edges of one image.
pub fn tally_stripe_votes(votes: &mut Vec<(usize, usize)>, edges: &[usize])
    requires
        forall|k: int| 0 <= k < old(votes)@.len() ==> #[trigger] old(votes)@[k].0 > 0,
        forall|k: int| 0 <= k < old(votes)@.len() ==> #[trigger] old(votes)@[k].1 + edges@.len() <= usize::MAX,
    ensures
        final(votes)@ == spec_tally(old(votes)@, edges@),
{
    if edges.len() < 2 {
        return;
    }
    let ghost start = votes@;
    let pairs = edges.len() - 1;
    let mut p: usize = 0;
    while p < pairs
        invariant
            pairs == edges@.len() - 1,
            p <= pairs,
            votes@.len() == start.len(),
            votes@ == tally_pairs(start, edges@, p as nat),
            forall|k: int| 0 <= k < votes@.len() ==> #[trigger] votes@[k].0 == start[k].0,
            forall|k: int| 0 <= k < start.len() ==> #[trigger] start[k].0 > 0,
            forall|k: int| 0 <= k < votes@.len() ==> #[trigger] votes@[k].1 <= start[k].1 + p,
            forall|k: int| 0 <= k < start.len() ==> #[trigger] start[k].1 + edges@.len() <= usize::MAX,
        decreases pairs - p,
    {
        let a = edges[p];
        let b = edges[p + 1];
        let distance = if b >= a { b - a } else { a - b };
        assert(distance as nat == edge_distance(edges@, p as int));
        let ghost before = votes@;
        if distance != 0 {
            if let Some(k) = first_divisor_index(votes, distance) {
                let (stripe, count) = votes[k];
                assert(votes@[k as int].1 <= start[k as int].1 + p);
                votes.set(k, (stripe, count + 1));
            }
        }
        assert(votes@ =~= add_vote(before, distance as nat));
        assert(tally_pairs(start, edges@, (p + 1) as nat) == add_vote(tally_pairs(start, edges@, p as nat), edge_distance(edges@, p as int)));
        p = p + 1;
    }
}

fn first_divisor_index(votes: &Vec<(usize, usize)>, d: usize) -> (r: Option<usize>)
    requires
        forall|k: int| 0 <= k < votes@.len() ==> #[trigger] votes@[k].0 > 0,
    ensures
        match first_divisor(votes@, d as nat, 0) {
            Some(k) => r is Some && r->0 == k && k < votes@.len(),
            None => r is None,
        },
{
    let mut k: usize = 0;
    while k < votes.len()
        invariant
            k <= votes@.len(),
            forall|j: int| 0 <= j < votes@.len() ==> #[trigger] votes@[j].0 > 0,
            first_divisor(votes@, d as nat, 0) == first_divisor(votes@, d as nat, k as nat),
        decreases votes@.len() - k,
    {
        if d % votes[k].0 == 0 {
            return Some(k);
        }
        k = k + 1;
    }
    None
}


/// `r` is `v` reordered by vote count, highest first, with candidates of
/// equal count kept in their order in `v`; `p` says where in `v` each entry
/// of `r` comes from.
pub open spec fn is_stable_ranking(v: Seq<(usize, usize)>, r: Seq<(usize, usize)>, p: Seq<int>) -> bool {
    &&& p.len() == r.len()
    &&& r.len() == v.len()
    &&& forall|i: int| 0 <= i < r.len() ==> 0 <= #[trigger] p[i] < v.len() && r[i] == v[p[i]]
    &&& forall|i: int, j: int| 0 <= i < j < r.len() ==> p[i] != p[j]
    &&& forall|i: int, j: int| 0 <= i < j < r.len() ==>
        r[i].1 > r[j].1 || (r[i].1 == r[j].1 && p[i] < p[j])
}

fn insertion_point(out: &Vec<(usize, usize)>, count: usize) -> (pos: usize)
    ensures
        pos <= out@.len(),
        forall|i: int| 0 <= i < pos ==> #[trigger] out@[i].1 >= count,
        pos < out@.len() ==> out@[pos as int].1 < count,
{
    let mut pos: usize = 0;
    while pos < out.len()
        invariant
            pos <= out@.len(),
            forall|i: int| 0 <= i < pos ==> #[trigger] out@[i].1 >= count,
        decreases out@.len() - pos,
    {
        if out[pos].1 < count {
            return pos;
        }
        pos = pos + 1;
    }
    pos
}

/// The stripe-size votes ordered by count, highest first; candidates with
/// equal counts keep their order (largest stripe size first).
pub fn rank_stripe_votes(votes: Vec<(usize, usize)>) -> (ranked: Vec<(usize, usize)>)
    ensures
        exists|p: Seq<int>| is_stable_ranking(votes@, ranked@, p),
{
    let mut out: Vec<(usize, usize)> = Vec::new();
    let ghost mut p: Seq<int> = Seq::empty();
    let mut k: usize = 0;
    while k < votes.len()
        invariant
            k <= votes@.len(),
            is_stable_ranking(votes@.take(k as int), out@, p),
        decreases votes@.len() - k,
    {
        let x = votes[k];
        let pos = insertion_point(&out, x.1);
        let ghost old_out = out@;
        let ghost old_p = p;
        out.insert(pos, x);
        proof {
            p = old_p.insert(pos as int, k as int);
            let dom = votes@.take(k + 1);
            assert(votes@.take(k as int) =~= dom.drop_last());
            assert forall|i: int| 0 <= i < out@.len() implies 0 <= #[trigger] p[i] < dom.len() && out@[i] == dom[p[i]] by {
                if i < pos {
                    assert(out@[i] == old_out[i]);
                    assert(p[i] == old_p[i]);
                } else if i > pos {
                    assert(out@[i] == old_out[i - 1]);
                    assert(p[i] == old_p[i - 1]);
                }
            }
            assert forall|i: int, j: int| 0 <= i < j < out@.len() implies p[i] != p[j] by {
                if i != pos && j != pos {
                    let oi = if i < pos { i } else { i - 1 };
                    let oj = if j < pos { j } else { j - 1 };
                    assert(p[i] == old_p[oi]);
                    assert(p[j] == old_p[oj]);
                } else if i == pos {
                    assert(p[j] == old_p[j - 1]);
                } else {
                    assert(p[i] == old_p[i]);
                }
            }
            assert forall|i: int, j: int| 0 <= i < j < out@.len() implies
                out@[i].1 > out@[j].1 || (out@[i].1 == out@[j].1 && p[i] < p[j]) by {
                if i != pos && j != pos {
                    let oi = if i < pos { i } else { i - 1 };
                    let oj = if j < pos { j } else { j - 1 };
                    assert(p[i] == old_p[oi] && out@[i] == old_out[oi]);
                    assert(p[j] == old_p[oj] && out@[j] == old_out[oj]);
                } else if i == pos {
                    assert(out@[j] == old_out[j - 1]);
                    if j - 1 > pos {
                        assert(old_out[pos as int].1 >= old_out[j - 1].1);
                    }
                } else {
                    assert(out@[i] == old_out[i]);
                    assert(p[i] == old_p[i]);
                }
            }
        }
        k = k + 1;
    }
    assert(votes@.take(k as int) =~= votes@);
    out
}


/// The canonical RAID name of a user-forced RAID type (see
/// `spec_normalize_raid`).
pub fn normalize_raid_name(name: &str) -> (r: String)
    ensures
        r@ == spec_normalize_raid(name@),
{
    normalize_raid(name)
}

/// A size in bytes as shown to the user: whole mebibytes as `<n>M`, whole
/// kibibytes as `<n>K`, anything else as the plain number.
pub open spec fn spec_format_size(size: nat) -> Seq<char> {
    if size % 1048576 == 0 {
        decimal(size / 1024 / 1024).push('M')
    } else if size % 1024 == 0 {
        decimal(size / 1024).push('K')
    } else {
        decimal(size)
    }
}

/// Formats a stripe size for display (see `spec_format_size`).
pub fn format_size(size: usize) -> (s: String)
    ensures
        s@ == spec_format_size(size as nat),
{
    let mut v: Vec<char> = Vec::new();
    if size % (1024 * 1024) == 0 {
        push_decimal(&mut v, size / 1024 / 1024);
        v.push('M');
    } else if size % 1024 == 0 {
        push_decimal(&mut v, size / 1024);
        v.push('K');
    } else {
        push_decimal(&mut v, size);
    }
    assert(v@ =~= spec_format_size(size as nat));
    string_of(&v)
}


/// The votes after tallying the edges of each image in turn, starting from
/// the candidates with no votes.
pub open spec fn tally_images(edge_lists: Seq<Seq<usize>>) -> Seq<(usize, usize)>
    decreases edge_lists.len(),
{
    if edge_lists.len() == 0 {
        spec_stripe_candidates()
    } else {
        spec_tally(tally_images(edge_lists.drop_last()), edge_lists.last())
    }
}

/// How many edges the images have in all.
pub open spec fn total_edges(edge_lists: Seq<Seq<usize>>) -> nat
    decreases edge_lists.len(),
{
    if edge_lists.len() == 0 {
        0
    } else {
        total_edges(edge_lists.drop_last()) + edge_lists.last().len()
    }
}

/// The edge offsets of each image.
pub open spec fn edge_views(edge_lists: Seq<Vec<usize>>) -> Seq<Seq<usize>> {
    Seq::new(edge_lists.len(), |i: int| edge_lists[i]@)
}

proof fn lemma_tally_keeps_sizes_and_bounds(votes: Seq<(usize, usize)>, edges: Seq<usize>, p: nat)
    requires
        forall|k: int| 0 <= k < votes.len() ==> #[trigger] votes[k].0 > 0,
        forall|k: int| 0 <= k < votes.len() ==> #[trigger] votes[k].1 + p <= usize::MAX,
        p + 1 <= edges.len() || p == 0,
    ensures
        tally_pairs(votes, edges, p).len() == votes.len(),
        forall|k: int| 0 <= k < votes.len() ==> #[trigger] tally_pairs(votes, edges, p)[k].0 == votes[k].0,
        forall|k: int| 0 <= k < votes.len() ==> #[trigger] tally_pairs(votes, edges, p)[k].1 <= votes[k].1 + p,
    decreases p,
{
    if p > 0 {
        lemma_tally_keeps_sizes_and_bounds(votes, edges, (p - 1) as nat);
        let prev = tally_pairs(votes, edges, (p - 1) as nat);
        let d = edge_distance(edges, p - 1);
        if d != 0 {
            match first_divisor(prev, d, 0) {
                Some(k) => {
                    lemma_first_divisor_in_range(prev, d, 0);
                },
                None => {},
            }
        }
    }
}

proof fn lemma_first_divisor_in_range(votes: Seq<(usize, usize)>, d: nat, k: nat)
    ensures
        first_divisor(votes, d, k) matches Some(j) ==> k <= j < votes.len(),
    decreases votes.len() - k,
{
    if k < votes.len() {
        lemma_first_divisor_in_range(votes, d, k + 1);
    }
}

proof fn lemma_tally_images_bounds(edge_lists: Seq<Seq<usize>>)
    requires
        total_edges(edge_lists) <= usize::MAX,
    ensures
        tally_images(edge_lists).len() == 11,
        forall|k: int| 0 <= k < 11 ==> #[trigger] tally_images(edge_lists)[k].0 == spec_stripe_candidates()[k].0,
        forall|k: int| 0 <= k < 11 ==> #[trigger] tally_images(edge_lists)[k].1 <= total_edges(edge_lists),
    decreases edge_lists.len(),
{
    if edge_lists.len() > 0 {
        let rest = edge_lists.drop_last();
        let edges = edge_lists.last();
        lemma_tally_images_bounds(rest);
        let votes = tally_images(rest);
        if edges.len() >= 2 {
            lemma_tally_keeps_sizes_and_bounds(votes, edges, (edges.len() - 1) as nat);
        }
    }
}

/// The stripe-size votes of all images, ranked: each image's entropy edges
/// vote in turn, then the candidates are ordered by votes, highest first.
pub fn detect_stripe_sizes(edge_lists: &Vec<Vec<usize>>) -> (ranked: Vec<(usize, usize)>)
    requires
        total_edges(edge_views(edge_lists@)) <= usize::MAX,
    ensures
        exists|p: Seq<int>| is_stable_ranking(tally_images(edge_views(edge_lists@)), ranked@, p),
{
    let ghost lists = edge_views(edge_lists@);
    let mut votes = stripe_candidates();
    let mut i: usize = 0;
    assert(lists.take(0) =~= Seq::<Seq<usize>>::empty());
    while i < edge_lists.len()
        invariant
            lists == edge_views(edge_lists@),
            i <= edge_lists@.len(),
            total_edges(lists) <= usize::MAX,
            votes@ == tally_images(lists.take(i as int)),
        decreases edge_lists@.len() - i,
    {
        let ghost prefix = lists.take(i + 1);
        assert(prefix.drop_last() =~= lists.take(i as int));
        assert(prefix.last() == edge_lists@[i as int]@);
        proof {
            lemma_total_edges_prefix(lists, i + 1);
            lemma_tally_images_bounds(lists.take(i as int));
            lemma_stripe_candidates_positive();
        }
        tally_stripe_votes(&mut votes, edge_lists[i].as_slice());
        i = i + 1;
    }
    assert(lists.take(i as int) =~= lists);
    rank_stripe_votes(votes)
}

proof fn lemma_stripe_candidates_positive()
    ensures
        forall|k: int| 0 <= k < 11 ==> #[trigger] spec_stripe_candidates()[k].0 > 0,
{
}

proof fn lemma_total_edges_prefix(lists: Seq<Seq<usize>>, i: int)
    requires
        0 <= i <= lists.len(),
    ensures
        total_edges(lists.take(i)) <= total_edges(lists),
    decreases lists.len() - i,
{
    if i < lists.len() {
        lemma_total_edges_prefix(lists, i + 1);
        assert(lists.take(i + 1).drop_last() =~= lists.take(i));
    } else {
        assert(lists.take(i) =~= lists);
    }
}


proof fn lemma_ranking_onto(v: Seq<(usize, usize)>, r: Seq<(usize, usize)>, p: Seq<int>)
    requires
        is_stable_ranking(v, r, p),
    ensures
        forall|a: int| 0 <= a < v.len() ==> #[trigger] occurs(p, a),
{
    lemma_permutation_onto(p, v.len());
}

proof fn lemma_rankings_agree_up_to(
    v: Seq<(usize, usize)>,
    r1: Seq<(usize, usize)>,
    p1: Seq<int>,
    r2: Seq<(usize, usize)>,
    p2: Seq<int>,
    k: int,
)
    requires
        is_stable_ranking(v, r1, p1),
        is_stable_ranking(v, r2, p2),
        0 <= k <= v.len(),
    ensures
        forall|i: int| 0 <= i < k ==> p1[i] == p2[i],
    decreases k,
{
    if k > 0 {
        lemma_rankings_agree_up_to(v, r1, p1, r2, p2, k - 1);
        let i = k - 1;
        if p1[i] != p2[i] {
            let a = p1[i];
            let b = p2[i];
            lemma_ranking_onto(v, r1, p1);
            lemma_ranking_onto(v, r2, p2);
            assert(occurs(p2, a) && occurs(p1, b));
            let j = choose|j: int| 0 <= j < p2.len() && p2[j] == a;
            let jj = choose|j: int| 0 <= j < p1.len() && p1[j] == b;
            if j < i {
                assert(p1[j] == p2[j]);
                assert(p1[j] != p1[i]);
            }
            if jj < i {
                assert(p1[jj] == p2[jj]);
                assert(p2[jj] != p2[i]);
            }
            assert(j > i && jj > i);
            assert(r2[i] == v[b] && r2[j] == v[a]);
            assert(r1[i] == v[a] && r1[jj] == v[b]);
        }
    }
}

/// The stable ranking of a list of votes is unique: whichever witness order
/// is chosen, the ranked list is the same. So `rank_stripe_votes` and
/// `detect_stripe_sizes` determine their results completely.
pub proof fn lemma_stable_ranking_unique(
    v: Seq<(usize, usize)>,
    r1: Seq<(usize, usize)>,
    p1: Seq<int>,
    r2: Seq<(usize, usize)>,
    p2: Seq<int>,
)
    requires
        is_stable_ranking(v, r1, p1),
        is_stable_ranking(v, r2, p2),
    ensures
        r1 == r2,
{
    lemma_rankings_agree_up_to(v, r1, p1, r2, p2, v.len() as int);
    assert forall|i: int| 0 <= i < r1.len() implies r1[i] == r2[i] by {
        assert(p1[i] == p2[i]);
    }
    assert(r1 =~= r2);
}


/// The sampling of rows for type evidence: rows of blocks at the same offset
/// of every image are read until `max_rows` rows have been read or an image
/// ends, whichever comes first.
pub struct TypeScan {
    pub max_rows: usize,
    pub rows_read: usize,
    pub ended: bool,
    pub stats: TypeStats,
}

impl TypeScan {
    /// Every row read so far is counted once, and no more rows were read
    /// than allowed.
    pub open spec fn well_formed(&self) -> bool {
        &&& self.rows_read <= self.max_rows
        &&& self.stats.total() == self.rows_read
    }

    /// Whether another row should be read.
    pub open spec fn spec_wants_row(&self) -> bool {
        !self.ended && self.rows_read < self.max_rows
    }

    /// A scan that will read at most `max_rows` rows and has read none.
    pub fn new(max_rows: usize) -> (scan: Self)
        ensures
            scan.well_formed(),
            scan.max_rows == max_rows,
            scan.rows_read == 0,
            !scan.ended,
            scan.stats.mirrored_blocks == 0 && scan.stats.parity_blocks == 0 && scan.stats.unassigned_blocks == 0,
    {
        TypeScan { max_rows, rows_read: 0, ended: false, stats: TypeStats::default() }
    }

    /// Whether another row should be read: no image has ended and fewer than
    /// `max_rows` rows have been read.
    pub fn wants_row(&self) -> (r: bool)
        ensures
            r == self.spec_wants_row(),
    {
        !self.ended && self.rows_read < self.max_rows
    }

    /// Takes the next row (`None` when one of the images has no block left,
    /// which ends the scan) and counts it.
    pub fn observe(&mut self, row: Option<Vec<Vec<u8>>>)
        requires
            old(self).well_formed(),
            old(self).spec_wants_row(),
        ensures
            final(self).well_formed(),
            final(self).max_rows == old(self).max_rows,
            match row {
                None => {
                    &&& final(self).ended
                    &&& final(self).rows_read == old(self).rows_read
                    &&& final(self).stats == old(self).stats
                },
                Some(blocks) => {
                    let c = spec_classify_row(vec_views(blocks@));
                    &&& !final(self).ended
                    &&& final(self).rows_read == old(self).rows_read + 1
                    &&& final(self).stats.mirrored_blocks == old(self).stats.mirrored_blocks + if c == RowClass::Mirrored { 1int } else { 0int }
                    &&& final(self).stats.parity_blocks == old(self).stats.parity_blocks + if c == RowClass::Parity { 1int } else { 0int }
                    &&& final(self).stats.unassigned_blocks == old(self).stats.unassigned_blocks + if c == RowClass::Unassigned { 1int } else { 0int }
                },
            },
    {
        match row {
            None => {
                self.ended = true;
            },
            Some(blocks) => {
                self.stats.observe_row(&blocks);
                self.rows_read = self.rows_read + 1;
            },
        }
    }
}

} // verus!
