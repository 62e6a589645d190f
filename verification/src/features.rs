use vstd::prelude::*;
use vstd::set_lib::{lemma_int_range, lemma_map_size, lemma_subset_equality, set_int_range};

verus! {

/// A block is zero when every byte in it is zero.
pub open spec fn all_zero(block: Seq<u8>) -> bool {
    forall|i: int| 0 <= i < block.len() ==> block[i] == 0
}

/// Returns whether every byte of `block` is zero (an empty block counts as zero).
pub fn is_zero(block: &[u8]) -> (res: bool)
    ensures
        res == all_zero(block@),
{
    let mut i: usize = 0;
    while i < block.len()
        invariant
            i <= block@.len(),
            forall|j: int| 0 <= j < i ==> block@[j] == 0,
        decreases block@.len() - i,
    {
        if block[i] != 0 {
            return false;
        }
        i = i + 1;
    }
    true
}

/// The bytes of `dst` after XOR-ing `src` into it position by position,
/// over the positions both blocks have.
pub open spec fn xor_prefix(dst: Seq<u8>, src: Seq<u8>) -> Seq<u8> {
    Seq::new(dst.len(), |i: int| if i < src.len() { dst[i] ^ src[i] } else { dst[i] })
}

/// XORs `src` into `dst` over the shorter of the two lengths; the rest of `dst` is untouched.
pub fn xor_into(dst: &mut [u8], src: &[u8])
    ensures
        final(dst)@ == xor_prefix(old(dst)@, src@),
{
    let n = if dst.len() < src.len() { dst.len() } else { src.len() };
    let mut i: usize = 0;
    while i < n
        invariant
            n <= dst@.len(),
            n <= src@.len(),
            n == dst@.len() || n == src@.len(),
            i <= n,
            dst@.len() == old(dst)@.len(),
            forall|j: int| 0 <= j < i ==> dst@[j] == old(dst)@[j] ^ src@[j],
            forall|j: int| i <= j < dst@.len() ==> dst@[j] == old(dst)@[j],
        decreases n - i,
    {
        let v = dst[i] ^ src[i];
        dst[i] = v;
        i = i + 1;
    }
    assert(dst@ =~= xor_prefix(old(dst)@, src@));
}


/// Column `i` of the byte-wise XOR of `rows`; a row too short to reach
/// column `i` contributes nothing to it.
pub open spec fn xor_col(rows: Seq<Seq<u8>>, i: int) -> u8
    decreases rows.len(),
{
    if rows.len() == 0 {
        0
    } else {
        let prev = xor_col(rows.drop_last(), i);
        if 0 <= i < rows.last().len() {
            prev ^ rows.last()[i]
        } else {
            prev
        }
    }
}

/// The byte-wise XOR of `rows`, taken over the first `n` columns.
pub open spec fn xor_rows(rows: Seq<Seq<u8>>, n: nat) -> Seq<u8> {
    Seq::new(n, |i: int| xor_col(rows, i))
}

/// The byte contents of each block.
pub open spec fn block_views(blocks: Seq<&[u8]>) -> Seq<Seq<u8>> {
    Seq::new(blocks.len(), |i: int| blocks[i]@)
}

/// The byte contents of each of `blocks`.
pub open spec fn vec_views(blocks: Seq<Vec<u8>>) -> Seq<Seq<u8>> {
    Seq::new(blocks.len(), |i: int| blocks[i]@)
}

/// A row of blocks is a parity row when there is at least one block, all
/// blocks have the same length, and their byte-wise XOR is zero.
pub open spec fn is_parity_row(rows: Seq<Seq<u8>>) -> bool {
    &&& rows.len() > 0
    &&& forall|k: int| 0 <= k < rows.len() ==> #[trigger] rows[k].len() == rows[0].len()
    &&& all_zero(xor_rows(rows, rows[0].len()))
}

pub(crate) proof fn lemma_xor_rows_step(rows: Seq<Seq<u8>>, k: int, n: nat)
    requires
        0 <= k < rows.len(),
    ensures
        xor_prefix(xor_rows(rows.take(k), n), rows[k]) =~= xor_rows(rows.take(k + 1), n),
{
    assert(rows.take(k + 1).drop_last() =~= rows.take(k));
}

/// Returns whether `blocks` form a parity row: non-empty, of equal lengths,
/// and XOR-ing to zero.
pub fn xor_is_zero(blocks: &[&[u8]]) -> (res: bool)
    ensures
        res == is_parity_row(block_views(blocks@)),
{
    let ghost rows = block_views(blocks@);
    if blocks.len() == 0 {
        return false;
    }
    let first: &[u8] = blocks[0];
    let n = first.len();
    let mut acc: Vec<u8> = Vec::new();
    while acc.len() < n
        invariant
            acc@.len() <= n,
            forall|j: int| 0 <= j < acc@.len() ==> acc@[j] == 0u8,
        decreases n - acc@.len(),
    {
        acc.push(0u8);
    }
    assert(acc@ =~= xor_rows(rows.take(0), n as nat));
    let mut k: usize = 0;
    while k < blocks.len()
        invariant
            rows == block_views(blocks@),
            n == rows[0].len(),
            k <= blocks@.len(),
            forall|j: int| 0 <= j < k ==> #[trigger] rows[j].len() == n,
            acc@ == xor_rows(rows.take(k as int), n as nat),
        decreases blocks@.len() - k,
    {
        let block: &[u8] = blocks[k];
        if block.len() != acc.len() {
            assert(rows[k as int].len() != rows[0].len());
            return false;
        }
        proof {
            lemma_xor_rows_step(rows, k as int, n as nat);
        }
        xor_into(acc.as_mut_slice(), block);
        k = k + 1;
    }
    assert(rows.take(k as int) =~= rows);
    is_zero(acc.as_slice())
}


/// What block `row` contributes to column `i` of an XOR.
pub open spec fn col_byte(row: Seq<u8>, i: int) -> u8 {
    if 0 <= i < row.len() {
        row[i]
    } else {
        0
    }
}

proof fn lemma_xor_col_last(rows: Seq<Seq<u8>>, i: int)
    requires
        rows.len() > 0,
    ensures
        xor_col(rows, i) == xor_col(rows.drop_last(), i) ^ col_byte(rows.last(), i),
{
    let p = xor_col(rows.drop_last(), i);
    assert(p ^ 0u8 == p) by (bit_vector);
}

proof fn lemma_xor_col_remove(rows: Seq<Seq<u8>>, k: int, i: int)
    requires
        0 <= k < rows.len(),
    ensures
        xor_col(rows, i) == xor_col(rows.remove(k), i) ^ col_byte(rows[k], i),
    decreases rows.len(),
{
    lemma_xor_col_last(rows, i);
    if k == rows.len() - 1 {
        assert(rows.remove(k) =~= rows.drop_last());
    } else {
        let rest = rows.remove(k);
        assert(rest.drop_last() =~= rows.drop_last().remove(k));
        assert(rest.last() == rows.last());
        lemma_xor_col_remove(rows.drop_last(), k, i);
        lemma_xor_col_last(rest, i);
        let a = xor_col(rest.drop_last(), i);
        let b = col_byte(rows[k], i);
        let c = col_byte(rows.last(), i);
        assert((a ^ b) ^ c == (a ^ c) ^ b) by (bit_vector);
    }
}

/// Appending, as a parity block, the XOR of equal-length data blocks always
/// yields a parity row.
pub proof fn lemma_parity_block_completes_row(data: Seq<Seq<u8>>, n: nat)
    requires
        forall|k: int| 0 <= k < data.len() ==> #[trigger] data[k].len() == n,
    ensures
        is_parity_row(data.push(xor_rows(data, n))),
{
    let rows = data.push(xor_rows(data, n));
    assert(rows.drop_last() =~= data);
    assert forall|k: int| 0 <= k < rows.len() implies #[trigger] rows[k].len() == rows[0].len() by {
        if data.len() > 0 {
            assert(rows[0] == data[0]);
        }
    }
    assert(rows[0].len() == n) by {
        if data.len() > 0 {
            assert(rows[0] == data[0]);
        }
    }
    assert forall|i: int| 0 <= i < n implies #[trigger] xor_rows(rows, n)[i] == 0 by {
        let x = xor_col(data, i);
        lemma_xor_col_last(rows, i);
        assert(x ^ x == 0u8) by (bit_vector);
    }
}

/// In a parity row, every block equals the XOR of all the other blocks: a
/// single missing block can be rebuilt from the rest.
pub proof fn lemma_parity_row_rebuilds_block(rows: Seq<Seq<u8>>, k: int)
    requires
        is_parity_row(rows),
        0 <= k < rows.len(),
    ensures
        xor_rows(rows.remove(k), rows[0].len()) == rows[k],
{
    let n = rows[0].len();
    assert(rows[k].len() == n);
    assert forall|i: int| 0 <= i < n implies #[trigger] xor_rows(rows.remove(k), n)[i] == rows[k][i] by {
        lemma_xor_col_remove(rows, k, i);
        let a = xor_col(rows.remove(k), i);
        let b = rows[k][i];
        assert(xor_rows(rows, n)[i] == 0);
        assert(a ^ b == 0u8 ==> a == b) by (bit_vector);
    }
    assert(xor_rows(rows.remove(k), n) =~= rows[k]);
}


/// How many bytes of `s` equal `v`.
pub open spec fn count_byte(s: Seq<u8>, v: u8) -> nat
    decreases s.len(),
{
    if s.len() == 0 {
        0
    } else {
        count_byte(s.drop_last(), v) + if s.last() == v {
            1nat
        } else {
            0nat
        }
    }
}

proof fn lemma_count_byte_bound(s: Seq<u8>, v: u8)
    ensures
        count_byte(s, v) <= s.len(),
    decreases s.len(),
{
    if s.len() > 0 {
        lemma_count_byte_bound(s.drop_last(), v);
    }
}

/// The byte histogram of `block`: entry `v` is how many bytes of `block`
/// equal `v`. This is the integer part of the block's Shannon entropy.
pub fn byte_counts(block: &[u8]) -> (counts: Vec<usize>)
    ensures
        counts@.len() == 256,
        forall|v: int| 0 <= v < 256 ==> #[trigger] counts@[v] == count_byte(block@, v as u8),
{
    let mut counts: Vec<usize> = Vec::new();
    while counts.len() < 256
        invariant
            counts@.len() <= 256,
            forall|v: int| 0 <= v < counts@.len() ==> counts@[v] == 0,
        decreases 256 - counts@.len(),
    {
        counts.push(0);
    }
    let mut i: usize = 0;
    while i < block.len()
        invariant
            i <= block@.len(),
            counts@.len() == 256,
            forall|v: int| 0 <= v < 256 ==> #[trigger] counts@[v] == count_byte(block@.take(i as int), v as u8),
        decreases block@.len() - i,
    {
        let b = block[i];
        let ghost pre = block@.take(i as int);
        let ghost post = block@.take(i + 1);
        assert(post.drop_last() =~= pre);
        proof {
            lemma_count_byte_bound(pre, b);
        }
        let c = counts[b as usize];
        counts.set(b as usize, c + 1);
        assert forall|v: int| 0 <= v < 256 implies #[trigger] counts@[v] == count_byte(post, v as u8) by {
            assert(post.last() == b);
            if v != b as int {
                assert(v as u8 != b);
            }
        }
        i = i + 1;
    }
    assert(block@.take(i as int) =~= block@);
    counts
}


/// XOR-ing the same block into a buffer twice leaves the buffer as it was.
pub proof fn lemma_xor_into_twice_restores(dst: Seq<u8>, src: Seq<u8>)
    ensures
        xor_prefix(xor_prefix(dst, src), src) == dst,
{
    assert forall|i: int| 0 <= i < dst.len() implies #[trigger] xor_prefix(xor_prefix(dst, src), src)[i] == dst[i] by {
        if i < src.len() {
            let a = dst[i];
            let b = src[i];
            assert((a ^ b) ^ b == a) by (bit_vector);
        }
    }
    assert(xor_prefix(xor_prefix(dst, src), src) =~= dst);
}


/// A row of one block is a parity row exactly when the block is all zero.
pub proof fn lemma_single_block_parity_row(block: Seq<u8>)
    ensures
        is_parity_row(seq![block]) == all_zero(block),
{
    let rows = seq![block];
    assert(rows.drop_last() =~= Seq::<Seq<u8>>::empty());
    assert(rows.last() == block);
    assert(rows[0] == block);
    assert forall|i: int| 0 <= i < block.len() implies #[trigger] xor_rows(rows, block.len())[i] == block[i] by {
        let b = block[i];
        assert(xor_col(rows.drop_last(), i) == 0);
        assert(0u8 ^ b == b) by (bit_vector);
    }
    assert(xor_rows(rows, block.len()) =~= block);
}

/// `p` lists each index `0..n` exactly once.
pub open spec fn is_permutation(p: Seq<int>, n: nat) -> bool {
    &&& p.len() == n
    &&& forall|i: int| 0 <= i < n ==> 0 <= #[trigger] p[i] < n
    &&& forall|i: int, j: int| 0 <= i < j < n ==> p[i] != p[j]
}

/// Index `a` occurs among the entries of `p`.
pub open spec fn occurs(p: Seq<int>, a: int) -> bool {
    exists|i: int| 0 <= i < p.len() && p[i] == a
}

/// `rows` reordered: entry `i` of the result is `rows[p[i]]`.
pub open spec fn permute(rows: Seq<Seq<u8>>, p: Seq<int>) -> Seq<Seq<u8>> {
    Seq::new(p.len(), |i: int| rows[p[i]])
}

/// A list of `n` distinct indices below `n` names every index below `n`.
pub proof fn lemma_permutation_onto(p: Seq<int>, n: nat)
    requires
        p.len() == n,
        forall|i: int| 0 <= i < n ==> 0 <= #[trigger] p[i] < n,
        forall|i: int, j: int| 0 <= i < j < n ==> p[i] != p[j],
    ensures
        forall|a: int| 0 <= a < n ==> #[trigger] occurs(p, a),
{
    let domain = set_int_range(0, n as int);
    let f = |i: int| p[i];
    lemma_int_range(0, n as int);
    assert(vstd::relations::injective_on(f, domain)) by {
        assert forall|x: int, y: int| domain.contains(x) && domain.contains(y) && #[trigger] f(x) == #[trigger] f(y) implies x == y by {
            if x < y {
                assert(p[x] != p[y]);
            } else if y < x {
                assert(p[y] != p[x]);
            }
        }
    }
    let image = domain.map(f);
    lemma_map_size(domain, image, f);
    assert(image.subset_of(domain)) by {
        assert forall|a: int| image.contains(a) implies domain.contains(a) by {
            let i = choose|i: int| domain.contains(i) && f(i) == a;
            assert(0 <= p[i] < n);
        }
    }
    lemma_subset_equality(image, domain);
    assert forall|a: int| 0 <= a < n implies #[trigger] occurs(p, a) by {
        assert(domain.contains(a));
        assert(image.contains(a));
        let i = choose|i: int| domain.contains(i) && f(i) == a;
        assert(p[i] == a);
    }
}

proof fn lemma_xor_col_permuted(rows: Seq<Seq<u8>>, p: Seq<int>, i: int)
    requires
        is_permutation(p, rows.len()),
    ensures
        xor_col(permute(rows, p), i) == xor_col(rows, i),
    decreases rows.len(),
{
    let n = rows.len();
    if n == 0 {
        assert(permute(rows, p) =~= Seq::<Seq<u8>>::empty());
    } else {
        let j = p[n - 1];
        let rest = rows.remove(j);
        let q = Seq::new((n - 1) as nat, |k: int| if p[k] < j { p[k] } else { p[k] - 1 });
        assert forall|k: int| 0 <= k < n - 1 implies 0 <= #[trigger] q[k] < n - 1 by {
            assert(p[k] != p[n - 1]);
        }
        assert forall|a: int, b: int| 0 <= a < b < n - 1 implies q[a] != q[b] by {
            assert(p[a] != p[b]);
            assert(p[a] != j && p[b] != j);
        }
        assert(permute(rest, q) =~= permute(rows, p).drop_last()) by {
            assert forall|k: int| 0 <= k < n - 1 implies #[trigger] permute(rest, q)[k] == permute(rows, p)[k] by {
                assert(p[k] != j);
            }
        }
        lemma_xor_col_permuted(rest, q, i);
        lemma_xor_col_last(permute(rows, p), i);
        lemma_xor_col_remove(rows, j, i);
    }
}

/// Whether blocks form a parity row does not depend on their order.
pub proof fn lemma_parity_row_any_order(rows: Seq<Seq<u8>>, p: Seq<int>)
    requires
        is_permutation(p, rows.len()),
    ensures
        is_parity_row(permute(rows, p)) == is_parity_row(rows),
{
    let n = rows.len();
    let r2 = permute(rows, p);
    if n > 0 {
        lemma_permutation_onto(p, n);
        let len = rows[0].len();
        let len2 = r2[0].len();
        if forall|k: int| 0 <= k < n ==> #[trigger] rows[k].len() == len {
            assert(len2 == len);
            assert forall|k: int| 0 <= k < n implies #[trigger] r2[k].len() == len2 by {
                assert(r2[k] == rows[p[k]]);
            }
        }
        if forall|k: int| 0 <= k < n ==> #[trigger] r2[k].len() == len2 {
            assert forall|k: int| 0 <= k < n implies #[trigger] rows[k].len() == len by {
                assert(occurs(p, k));
                assert(occurs(p, 0));
                let a = choose|a: int| 0 <= a < p.len() && p[a] == k;
                let b = choose|b: int| 0 <= b < p.len() && p[b] == 0;
                assert(r2[a] == rows[k]);
                assert(r2[b] == rows[0]);
            }
        }
        if forall|k: int| 0 <= k < n ==> #[trigger] rows[k].len() == len {
            assert forall|i: int| 0 <= i < len implies #[trigger] xor_rows(r2, len2)[i] == xor_rows(rows, len)[i] by {
                lemma_xor_col_permuted(rows, p, i);
            }
            assert(xor_rows(r2, len2) =~= xor_rows(rows, len));
        }
    }
}

} // verus!
