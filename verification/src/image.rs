//! Disk images as the library sees them: a path and a size in bytes.
use vstd::prelude::*;

use crate::features::{all_zero, is_zero};

verus! {

/// One disk image: where it lives and how many bytes it holds.
pub struct Image {
    pub path: String,
    pub size: u64,
}

/// The disk images of one array, in the order the user gave them.
pub struct ImageSet {
    pub images: Vec<Image>,
}

/// The smallest value of `s`, or 0 when `s` is empty.
pub open spec fn seq_min(s: Seq<u64>) -> u64
    decreases s.len(),
{
    if s.len() == 0 {
        0
    } else if s.len() == 1 {
        s[0]
    } else {
        let m = seq_min(s.drop_last());
        if s.last() < m {
            s.last()
        } else {
            m
        }
    }
}

/// `seq_min` of a non-empty sequence is one of its values and no value is below it.
pub proof fn lemma_seq_min_is_minimum(s: Seq<u64>)
    requires
        s.len() > 0,
    ensures
        exists|i: int| 0 <= i < s.len() && s[i] == seq_min(s),
        forall|i: int| 0 <= i < s.len() ==> seq_min(s) <= s[i],
    decreases s.len(),
{
    if s.len() > 1 {
        lemma_seq_min_is_minimum(s.drop_last());
        let m = seq_min(s.drop_last());
        let i = choose|i: int| 0 <= i < s.len() - 1 && s.drop_last()[i] == m;
        if s.last() < m {
            assert(s[s.len() - 1] == seq_min(s));
        } else {
            assert(s[i] == seq_min(s));
        }
        assert forall|j: int| 0 <= j < s.len() implies seq_min(s) <= s[j] by {
            if j < s.len() - 1 {
                assert(s.drop_last()[j] == s[j]);
            }
        }
    } else {
        assert(s[0] == seq_min(s));
    }
}

impl ImageSet {
    /// The sizes of the images, in order.
    pub open spec fn sizes(&self) -> Seq<u64> {
        Seq::new(self.images@.len(), |i: int| self.images@[i].size)
    }

    /// The size of the smallest image, or 0 when there is none.
    pub fn min_size(&self) -> (m: u64)
        ensures
            m == seq_min(self.sizes()),
    {
        let mut m: u64 = 0;
        let mut i: usize = 0;
        while i < self.images.len()
            invariant
                i <= self.images@.len(),
                m == seq_min(self.sizes().take(i as int)),
            decreases self.images@.len() - i,
        {
            let size = self.images[i].size;
            let ghost pre = self.sizes().take(i as int);
            assert(self.sizes().take(i + 1).drop_last() =~= pre);
            if i == 0 || size < m {
                m = size;
            }
            i = i + 1;
        }
        assert(self.sizes().take(i as int) =~= self.sizes());
        m
    }
}


/// The scan of one image block by block: blocks are read until `max_blocks`
/// blocks have been read or the image ends, and the all-zero ones counted.
pub struct BlockScan {
    pub max_blocks: usize,
    pub blocks_read: usize,
    pub zero_blocks: usize,
    pub ended: bool,
}

impl BlockScan {
    /// No more blocks were read than allowed, and at most all of them are zero.
    pub open spec fn well_formed(&self) -> bool {
        self.zero_blocks <= self.blocks_read <= self.max_blocks
    }

    /// Whether another block should be read.
    pub open spec fn spec_wants_block(&self) -> bool {
        !self.ended && self.blocks_read < self.max_blocks
    }

    /// A scan that will read at most `max_blocks` blocks and has read none.
    pub fn new(max_blocks: usize) -> (scan: Self)
        ensures
            scan.well_formed(),
            scan.max_blocks == max_blocks,
            scan.blocks_read == 0,
            scan.zero_blocks == 0,
            !scan.ended,
    {
        BlockScan { max_blocks, blocks_read: 0, zero_blocks: 0, ended: false }
    }

    /// Whether another block should be read: the image has not ended and
    /// fewer than `max_blocks` blocks have been read.
    pub fn wants_block(&self) -> (r: bool)
        ensures
            r == self.spec_wants_block(),
    {
        !self.ended && self.blocks_read < self.max_blocks
    }

    /// Takes the next block (`None` at the end of the image, which ends the
    /// scan) and counts it, as a zero block when every byte is zero.
    pub fn observe(&mut self, block: Option<&[u8]>)
        requires
            old(self).well_formed(),
            old(self).spec_wants_block(),
        ensures
            final(self).well_formed(),
            final(self).max_blocks == old(self).max_blocks,
            match block {
                None => {
                    &&& final(self).ended
                    &&& final(self).blocks_read == old(self).blocks_read
                    &&& final(self).zero_blocks == old(self).zero_blocks
                },
                Some(b) => {
                    &&& !final(self).ended
                    &&& final(self).blocks_read == old(self).blocks_read + 1
                    &&& final(self).zero_blocks == old(self).zero_blocks + if all_zero(b@) { 1int } else { 0int }
                },
            },
    {
        match block {
            None => {
                self.ended = true;
            },
            Some(b) => {
                if is_zero(b) {
                    self.zero_blocks = self.zero_blocks + 1;
                }
                self.blocks_read = self.blocks_read + 1;
            },
        }
    }
}

} // verus!
