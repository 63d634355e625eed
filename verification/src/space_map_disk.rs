//! The two-tier space map: 2-bit bitmap entries for counts up to two, an
//! overflow table for everything above.
//!
//! A bitmap slot holding 3 is an escape sentinel: the block's real count
//! lives in the overflow table, and the two stay in step — a slot reads 3
//! exactly when the overflow table holds its block.

use vstd::prelude::*;
use crate::errors::MetadataError;
use crate::space_map::{SpaceMap, count_allocated, IndexEntry, ENTRIES_PER_BITMAP};

verus! {

/// The count the overflow table holds for `b`, if any.
pub open spec fn ov_lookup(ov: Seq<(u64, u32)>, b: u64) -> Option<u32>
    decreases ov.len(),
{
    if ov.len() == 0 {
        None
    } else if ov[0].0 == b {
        Some(ov[0].1)
    } else {
        ov_lookup(ov.drop_first(), b)
    }
}

/// No block appears twice in the overflow table.
pub open spec fn ov_unique(ov: Seq<(u64, u32)>) -> bool {
    forall|i: int, j: int| 0 <= i < j < ov.len() ==> (#[trigger] ov[i]).0 != (#[trigger] ov[j]).0
}

/// With unique keys, the entry at `i` is what lookup finds for its block.
proof fn lemma_ov_lookup_at(ov: Seq<(u64, u32)>, i: int)
    requires
        ov_unique(ov),
        0 <= i < ov.len(),
    ensures
        ov_lookup(ov, ov[i].0) == Some(ov[i].1),
    decreases i,
{
    if i > 0 {
        assert(ov.drop_first() =~= ov.subrange(1, ov.len() as int));
        lemma_ov_lookup_at(ov.drop_first(), i - 1);
    }
}

/// A block on no entry is not found.
proof fn lemma_ov_lookup_none(ov: Seq<(u64, u32)>, b: u64)
    requires
        forall|i: int| 0 <= i < ov.len() ==> (#[trigger] ov[i]).0 != b,
    ensures
        ov_lookup(ov, b) is None,
    decreases ov.len(),
{
    if ov.len() > 0 {
        lemma_ov_lookup_none(ov.drop_first(), b);
    }
}

/// Finds the position of `b` in the overflow table.
fn ov_find(ov: &Vec<(u64, u32)>, b: u64) -> (r: Option<usize>)
    requires
        ov_unique(ov@),
    ensures
        r matches Some(i) ==> i < ov@.len() && ov@[i as int].0 == b && ov_lookup(ov@, b) == Some(
            ov@[i as int].1,
        ),
        r is None ==> ov_lookup(ov@, b) is None,
{
    let mut k: usize = 0;
    while k < ov.len()
        invariant
            k <= ov@.len(),
            ov_unique(ov@),
            forall|i: int| 0 <= i < k ==> (#[trigger] ov@[i]).0 != b,
        decreases ov@.len() - k,
    {
        if ov[k].0 == b {
            proof {
                lemma_ov_lookup_at(ov@, k as int);
            }
            return Some(k);
        }
        k = k + 1;
    }
    proof {
        lemma_ov_lookup_none(ov@, b);
    }
    None
}

/// Changing one entry's count changes only that block's lookup.
proof fn lemma_ov_update(ov: Seq<(u64, u32)>, i: int, c: u32)
    requires
        ov_unique(ov),
        0 <= i < ov.len(),
    ensures
        ov_unique(ov.update(i, (ov[i].0, c))),
        ov_lookup(ov.update(i, (ov[i].0, c)), ov[i].0) == Some(c),
        forall|b: u64|
            b != ov[i].0 ==> #[trigger] ov_lookup(ov.update(i, (ov[i].0, c)), b) == ov_lookup(
                ov,
                b,
            ),
{
    let t = ov.update(i, (ov[i].0, c));
    lemma_ov_lookup_at(t, i);
    assert forall|b: u64| b != ov[i].0 implies #[trigger] ov_lookup(t, b) == ov_lookup(ov, b) by {
        lemma_ov_update_other(ov, i, c, b);
    }
}

/// Lookup of a different block ignores an updated entry.
proof fn lemma_ov_update_other(ov: Seq<(u64, u32)>, i: int, c: u32, b: u64)
    requires
        0 <= i < ov.len(),
        b != ov[i].0,
    ensures
        ov_lookup(ov.update(i, (ov[i].0, c)), b) == ov_lookup(ov, b),
    decreases ov.len(),
{
    let t = ov.update(i, (ov[i].0, c));
    if i == 0 {
        assert(t.drop_first() =~= ov.drop_first());
    } else {
        assert(t.drop_first() =~= ov.drop_first().update(i - 1, (ov[i].0, c)));
        lemma_ov_update_other(ov.drop_first(), i - 1, c, b);
    }
}

/// Appending a fresh entry adds exactly its block to the table.
proof fn lemma_ov_push(ov: Seq<(u64, u32)>, b: u64, c: u32)
    requires
        ov_lookup(ov, b) is None,
        ov_unique(ov),
    ensures
        ov_unique(ov.push((b, c))),
        ov_lookup(ov.push((b, c)), b) == Some(c),
        forall|b2: u64|
            b2 != b ==> #[trigger] ov_lookup(ov.push((b, c)), b2) == ov_lookup(ov, b2),
{
    assert forall|i: int| 0 <= i < ov.len() implies (#[trigger] ov[i]).0 != b by {
        if ov[i].0 == b {
            lemma_ov_lookup_at(ov, i);
        }
    }
    lemma_ov_lookup_at(ov.push((b, c)), ov.len() as int);
    assert forall|b2: u64| b2 != b implies #[trigger] ov_lookup(ov.push((b, c)), b2) == ov_lookup(
        ov,
        b2,
    ) by {
        lemma_ov_push_other(ov, b, c, b2);
    }
}

/// Lookup of a different block ignores a pushed entry.
proof fn lemma_ov_push_other(ov: Seq<(u64, u32)>, b: u64, c: u32, b2: u64)
    requires
        b2 != b,
    ensures
        ov_lookup(ov.push((b, c)), b2) == ov_lookup(ov, b2),
    decreases ov.len(),
{
    reveal_with_fuel(ov_lookup, 3);
    if ov.len() == 0 {
        assert(ov.push((b, c))[0] == (b, c));
        assert(ov.push((b, c)).drop_first() =~= Seq::<(u64, u32)>::empty());
    } else {
        assert(ov.push((b, c))[0] == ov[0]);
        assert(ov.push((b, c)).drop_first() =~= ov.drop_first().push((b, c)));
        lemma_ov_push_other(ov.drop_first(), b, c, b2);
    }
}

/// Removing an entry removes exactly its block from the table.
proof fn lemma_ov_remove(ov: Seq<(u64, u32)>, i: int)
    requires
        ov_unique(ov),
        0 <= i < ov.len(),
    ensures
        ov_unique(ov.remove(i)),
        ov_lookup(ov.remove(i), ov[i].0) is None,
        forall|b2: u64|
            b2 != ov[i].0 ==> #[trigger] ov_lookup(ov.remove(i), b2) == ov_lookup(ov, b2),
{
    let t = ov.remove(i);
    assert forall|j: int| 0 <= j < t.len() implies (#[trigger] t[j]).0 != ov[i].0 by {
        if j < i {
            assert(t[j] == ov[j]);
        } else {
            assert(t[j] == ov[j + 1]);
        }
    }
    lemma_ov_lookup_none(t, ov[i].0);
    assert forall|b2: u64| b2 != ov[i].0 implies #[trigger] ov_lookup(t, b2) == ov_lookup(
        ov,
        b2,
    ) by {
        lemma_ov_remove_other(ov, i, b2);
    }
}

/// Lookup of a different block ignores a removed entry.
proof fn lemma_ov_remove_other(ov: Seq<(u64, u32)>, i: int, b2: u64)
    requires
        0 <= i < ov.len(),
        b2 != ov[i].0,
    ensures
        ov_lookup(ov.remove(i), b2) == ov_lookup(ov, b2),
    decreases ov.len(),
{
    if i == 0 {
        assert(ov.remove(0) =~= ov.drop_first());
    } else {
        assert(ov.remove(i).drop_first() =~= ov.drop_first().remove(i - 1));
        lemma_ov_remove_other(ov.drop_first(), i - 1, b2);
    }
}

/// The two-tier reference-count map, held in core in its on-disk shape.
#[derive(Clone, Debug)]
pub struct DiskSpaceMap {
    /// One 2-bit value per block: the count, or 3 for "see overflow".
    entries: Vec<u8>,
    /// The real count of every block whose bitmap slot reads 3.
    overflow: Vec<(u64, u32)>,
}

impl DiskSpaceMap {
    /// The sentinel discipline: slots hold at most 3; a slot reads 3
    /// exactly when the overflow table knows the block, and overflow
    /// counts start above 2.
    pub closed spec fn inv(&self) -> bool {
        &&& forall|i: int| 0 <= i < self.entries@.len() ==> (#[trigger] self.entries@[i]) <= 3
        &&& ov_unique(self.overflow@)
        &&& forall|j: int|
            0 <= j < self.overflow@.len() ==> (#[trigger] self.overflow@[j]).1 >= 3
                && self.overflow@[j].0 < self.entries@.len()
                && self.entries@[self.overflow@[j].0 as int] == 3
        &&& forall|i: int|
            0 <= i < self.entries@.len() && (#[trigger] self.entries@[i]) == 3 ==> ov_lookup(
                self.overflow@,
                i as u64,
            ) is Some
    }

    /// The bitmap slot of block `b`.
    pub closed spec fn spec_entry(&self, b: int) -> u8 {
        self.entries@[b]
    }

    /// Whether the overflow table holds block `b`.
    pub closed spec fn spec_in_overflow(&self, b: u64) -> bool {
        ov_lookup(self.overflow@, b) is Some
    }

    /// Law: the sentinel and the overflow table agree — a block's bitmap
    /// slot reads 3 exactly when the overflow table holds that block.
    pub proof fn lemma_overflow_iff_sentinel(&self, b: u64)
        requires
            self.inv(),
            b < self.spec_nr_blocks(),
        ensures
            self.spec_entry(b as int) == 3 <==> self.spec_in_overflow(b),
    {
        if ov_lookup(self.overflow@, b) is Some {
            lemma_ov_some_means_member(self.overflow@, b);
            let j = choose|j: int|
                0 <= j < self.overflow@.len() && (#[trigger] self.overflow@[j]).0 == b;
            assert(self.entries@[b as int] == 3);
        }
    }

    /// Law: a block's bitmap slot reads the overflow sentinel exactly when
    /// its reference count is three or more. With the pointwise `inc` and
    /// `dec` contracts this pins the slot transitions: driving a count
    /// from zero past two raises the sentinel, and bringing it back to two
    /// clears it.
    pub proof fn lemma_sentinel_iff_large_count(&self, b: u64)
        requires
            self.inv(),
            b < self.spec_nr_blocks(),
        ensures
            self.spec_entry(b as int) == 3 <==> self.sm_view()[b as int] >= 3,
            self.spec_entry(b as int) != 3 ==> self.sm_view()[b as int] == self.spec_entry(
                b as int,
            ),
    {
        if self.entries@[b as int] == 3 {
            lemma_ov_some_means_member(self.overflow@, b);
            let j = choose|j: int|
                0 <= j < self.overflow@.len() && (#[trigger] self.overflow@[j]).0 == b;
            lemma_ov_lookup_at(self.overflow@, j);
            assert(self.sm_view()[b as int] == self.overflow@[j].1);
        }
    }

    /// How many blocks the map covers.
    pub closed spec fn spec_nr_blocks(&self) -> nat {
        self.entries@.len()
    }

    /// Builds a map of `nr_blocks` free blocks.
    pub fn new(nr_blocks: u64) -> (r: DiskSpaceMap)
        requires
            nr_blocks <= usize::MAX,
        ensures
            r.inv(),
            r.sm_view().len() == nr_blocks,
            forall|i: int| 0 <= i < nr_blocks ==> r.sm_view()[i] == 0,
    {
        let r = DiskSpaceMap { entries: vec![0u8; nr_blocks as usize], overflow: Vec::new() };
        proof {
            assert(forall|i: int|
                0 <= i < nr_blocks ==> #[trigger] r.sm_view()[i] == 0);
        }
        r
    }
}

/// A found block is on some entry.
proof fn lemma_ov_some_means_member(ov: Seq<(u64, u32)>, b: u64)
    requires
        ov_lookup(ov, b) is Some,
    ensures
        exists|j: int| 0 <= j < ov.len() && (#[trigger] ov[j]).0 == b,
    decreases ov.len(),
{
    if ov.len() > 0 && ov[0].0 != b {
        lemma_ov_some_means_member(ov.drop_first(), b);
        let j = choose|j: int|
            0 <= j < ov.drop_first().len() && (#[trigger] ov.drop_first()[j]).0 == b;
        assert(ov[j + 1].0 == b);
    }
}

impl DiskSpaceMap {
    /// The reference count of every block: the slot value, or the
    /// overflow count where the slot reads the sentinel.
    pub closed spec fn sm_view(&self) -> Seq<u32> {
        Seq::new(
            self.entries@.len(),
            |i: int|
                if self.entries@[i] < 3 {
                    self.entries@[i] as u32
                } else {
                    ov_lookup(self.overflow@, i as u64).unwrap_or(3u32)
                },
        )
    }

    /// The reference count of block `b`.
    pub fn get(&self, b: u64) -> (r: Result<u32, MetadataError>)
        requires
            self.inv(),
            b < self.sm_view().len(),
        ensures
            r == Ok::<u32, MetadataError>(self.sm_view()[b as int]),
    {
        let n = self.entries.len();
        let e = self.entries[b as usize];
        if e < 3 {
            Ok(e as u32)
        } else {
            match ov_find(&self.overflow, b) {
                Some(i) => Ok(self.overflow[i].1),
                None => {
                    proof {
                        assert(false);
                    }
                    Err(MetadataError::Corrupt)
                },
            }
        }
    }

    /// Raises the count of every block in `begin .. begin + len` by one.
    pub fn inc(&mut self, begin: u64, len: u64) -> (r: Result<(), MetadataError>)
        requires
            old(self).inv(),
            begin + len <= old(self).sm_view().len(),
            forall|i: int| begin <= i < begin + len ==> old(self).sm_view()[i] < 0xffff_ffffu32,
        ensures
            r == Ok::<(), MetadataError>(()),
            final(self).inv(),
            final(self).sm_view().len() == old(self).sm_view().len(),
            forall|i: int|
                0 <= i < old(self).sm_view().len() ==> final(self).sm_view()[i] == (if begin <= i
                    < begin + len {
                    old(self).sm_view()[i] + 1
                } else {
                    old(self).sm_view()[i] as int
                }),
    {
        let n = self.entries.len();
        let mut k: u64 = 0;
        while k < len
            invariant
                k <= len,
                begin + len <= old(self).sm_view().len(),
                old(self).sm_view().len() == n,
                self.inv(),
                self.sm_view().len() == old(self).sm_view().len(),
                forall|i: int|
                    begin <= i < begin + len ==> old(self).sm_view()[i] < 0xffff_ffffu32,
                forall|i: int|
                    0 <= i < old(self).sm_view().len() ==> #[trigger] self.sm_view()[i] == (
                    if begin <= i < begin + k {
                        old(self).sm_view()[i] + 1
                    } else {
                        old(self).sm_view()[i] as int
                    }),
            decreases len - k,
        {
            inc_one(self, begin + k);
            k = k + 1;
        }
        Ok(())
    }

    /// Lowers the count of every block in `begin .. begin + len` by one.
    pub fn dec(&mut self, begin: u64, len: u64) -> (r: Result<(), MetadataError>)
        requires
            old(self).inv(),
            begin + len <= old(self).sm_view().len(),
            forall|i: int| begin <= i < begin + len ==> old(self).sm_view()[i] > 0,
        ensures
            r == Ok::<(), MetadataError>(()),
            final(self).inv(),
            final(self).sm_view().len() == old(self).sm_view().len(),
            forall|i: int|
                0 <= i < old(self).sm_view().len() ==> final(self).sm_view()[i] == (if begin <= i
                    < begin + len {
                    old(self).sm_view()[i] - 1
                } else {
                    old(self).sm_view()[i] as int
                }),
    {
        let n = self.entries.len();
        let mut k: u64 = 0;
        while k < len
            invariant
                k <= len,
                begin + len <= old(self).sm_view().len(),
                old(self).sm_view().len() == n,
                self.inv(),
                self.sm_view().len() == old(self).sm_view().len(),
                forall|i: int| begin <= i < begin + len ==> old(self).sm_view()[i] > 0,
                forall|i: int|
                    0 <= i < old(self).sm_view().len() ==> #[trigger] self.sm_view()[i] == (
                    if begin <= i < begin + k {
                        old(self).sm_view()[i] - 1
                    } else {
                        old(self).sm_view()[i] as int
                    }),
            decreases len - k,
        {
            dec_one(self, begin + k);
            k = k + 1;
        }
        Ok(())
    }

    /// Hands out the first block whose count is zero, raising it to one.
    pub fn allocate(&mut self) -> (r: Result<u64, MetadataError>)
        requires
            old(self).inv(),
        ensures
            final(self).inv(),
            r matches Ok(b) ==> b < old(self).sm_view().len() && old(self).sm_view()[b as int]
                == 0 && (forall|i: int| 0 <= i < b ==> old(self).sm_view()[i] > 0)
                && final(self).sm_view() == old(self).sm_view().update(b as int, 1u32),
            r matches Err(e) ==> e == MetadataError::OutOfSpace && (forall|i: int|
                0 <= i < old(self).sm_view().len() ==> old(self).sm_view()[i] > 0)
                && final(self).sm_view() == old(self).sm_view(),
    {
        let mut k: usize = 0;
        let n = self.entries.len();
        while k < n
            invariant
                k <= n,
                n == self.entries@.len(),
                self.inv(),
                self == old(self),
                forall|i: int| 0 <= i < k ==> #[trigger] self.sm_view()[i] > 0,
            decreases n - k,
        {
            if self.entries[k] == 0 {
                let ghost before = self.sm_view();
                self.entries[k] = 1;
                proof {
                    assert(forall|j: int|
                        0 <= j < self.overflow@.len() ==> (#[trigger] self.overflow@[j]).0
                            != k as u64);
                    assert(self.sm_view() =~= before.update(k as int, 1u32));
                }
                return Ok(k as u64);
            }
            proof {
                if self.entries@[k as int] == 3 {
                    lemma_ov_some_means_member(self.overflow@, k as u64);
                    let j = choose|j: int|
                        0 <= j < self.overflow@.len() && (#[trigger] self.overflow@[j]).0
                            == k as u64;
                    lemma_ov_lookup_at(self.overflow@, j);
                }
            }
            k = k + 1;
        }
        Err(MetadataError::OutOfSpace)
    }

    /// How many blocks hold a positive count.
    pub fn nr_allocated(&self) -> (r: u64)
        requires
            self.inv(),
            self.sm_view().len() <= u64::MAX,
        ensures
            r == count_allocated(self.sm_view()),
    {
        let n = self.entries.len();
        let mut cnt: u64 = 0;
        let mut k: usize = 0;
        while k < n
            invariant
                k <= n,
                n == self.entries@.len(),
                n <= u64::MAX,
                self.inv(),
                cnt == count_allocated(self.sm_view().subrange(0, k as int)),
                cnt <= k,
            decreases n - k,
        {
            proof {
                let s = self.sm_view();
                assert(s.subrange(0, k as int + 1) =~= s.subrange(0, k as int).push(s[k as int]));
                crate::space_map::lemma_count_allocated_push(s.subrange(0, k as int), s[k as int]);
                if self.entries@[k as int] == 3 {
                    lemma_ov_some_means_member(self.overflow@, k as u64);
                    let j = choose|j: int|
                        0 <= j < self.overflow@.len() && (#[trigger] self.overflow@[j]).0
                            == k as u64;
                    lemma_ov_lookup_at(self.overflow@, j);
                }
            }
            if self.entries[k] > 0 {
                cnt = cnt + 1;
            }
            k = k + 1;
        }
        proof {
            assert(self.sm_view().subrange(0, n as int) =~= self.sm_view());
        }
        cnt
    }

    /// How many blocks the map covers.
    pub fn nr_blocks(&self) -> (r: u64)
        ensures
            r == self.sm_view().len(),
    {
        self.entries.len() as u64
    }

    /// The slot count, as an in-core length.
    pub fn nr_entries_len(&self) -> (r: usize)
        ensures
            r == self.spec_nr_blocks(),
    {
        self.entries.len()
    }

    /// The raw 2-bit slot of block `k`.
    pub fn entry_at(&self, k: usize) -> (r: u8)
        requires
            k < self.spec_nr_blocks(),
        ensures
            r == self.spec_entry(k as int),
    {
        self.entries[k]
    }
}

/// Raises one block's count, crossing into the overflow tier at three.
fn inc_one(sm: &mut DiskSpaceMap, b: u64)
    requires
        old(sm).inv(),
        b < old(sm).sm_view().len(),
        old(sm).sm_view()[b as int] < 0xffff_ffffu32,
    ensures
        final(sm).inv(),
        final(sm).sm_view() == old(sm).sm_view().update(
            b as int,
            (old(sm).sm_view()[b as int] + 1) as u32,
        ),
{
    let n = sm.entries.len();
    let e = sm.entries[b as usize];
    if e < 2 {
        sm.entries[b as usize] = e + 1;
        proof {
            assert forall|j: int| 0 <= j < sm.overflow@.len() implies (
            #[trigger] sm.overflow@[j]).0 != b by {
                if sm.overflow@[j].0 == b {
                    assert(old(sm).entries@[b as int] == 3);
                }
            }
            assert(sm.sm_view() =~= old(sm).sm_view().update(
                b as int,
                (old(sm).sm_view()[b as int] + 1) as u32,
            ));
        }
    } else if e == 2 {
        sm.entries[b as usize] = 3;
        let ghost ov0 = sm.overflow@;
        proof {
            assert forall|j: int| 0 <= j < ov0.len() implies (#[trigger] ov0[j]).0 != b by {
                if ov0[j].0 == b {
                    assert(old(sm).entries@[b as int] == 3);
                }
            }
            lemma_ov_lookup_none(ov0, b);
            lemma_ov_push(ov0, b, 3);
        }
        sm.overflow.push((b, 3));
        proof {
            assert(sm.sm_view() =~= old(sm).sm_view().update(b as int, 3u32));
        }
    } else {
        match ov_find(&sm.overflow, b) {
            Some(i) => {
                let c = sm.overflow[i].1;
                proof {
                    lemma_ov_update(sm.overflow@, i as int, (c + 1) as u32);
                }
                sm.overflow[i] = (b, c + 1);
                proof {
                    assert(sm.sm_view() =~= old(sm).sm_view().update(b as int, (c + 1) as u32));
                }
            },
            None => {
                proof {
                    assert(false);
                }
            },
        }
    }
}

/// Lowers one block's count, leaving the overflow tier at two.
fn dec_one(sm: &mut DiskSpaceMap, b: u64)
    requires
        old(sm).inv(),
        b < old(sm).sm_view().len(),
        old(sm).sm_view()[b as int] > 0,
    ensures
        final(sm).inv(),
        final(sm).sm_view() == old(sm).sm_view().update(
            b as int,
            (old(sm).sm_view()[b as int] - 1) as u32,
        ),
{
    let n = sm.entries.len();
    let e = sm.entries[b as usize];
    if e < 3 {
        proof {
            assert forall|j: int| 0 <= j < sm.overflow@.len() implies (
            #[trigger] sm.overflow@[j]).0 != b by {
                if sm.overflow@[j].0 == b {
                    assert(old(sm).entries@[b as int] == 3);
                }
            }
            assert(e >= 1);
        }
        sm.entries[b as usize] = e - 1;
        proof {
            assert(sm.sm_view() =~= old(sm).sm_view().update(
                b as int,
                (old(sm).sm_view()[b as int] - 1) as u32,
            ));
        }
    } else {
        match ov_find(&sm.overflow, b) {
            Some(i) => {
                let c = sm.overflow[i].1;
                if c == 3 {
                    proof {
                        lemma_ov_remove(sm.overflow@, i as int);
                    }
                    sm.overflow.remove(i);
                    sm.entries[b as usize] = 2;
                    proof {
                        assert forall|j: int|
                            0 <= j < sm.overflow@.len() implies (#[trigger] sm.overflow@[j]).1
                            >= 3 && sm.overflow@[j].0 < sm.entries@.len() && sm.entries@[
                        sm.overflow@[j].0 as int] == 3 by {
                            let oj = if j < i as int {
                                j
                            } else {
                                j + 1
                            };
                            assert(sm.overflow@[j] == old(sm).overflow@[oj]);
                            assert(old(sm).overflow@[oj].0 != b);
                        }
                        assert(sm.sm_view() =~= old(sm).sm_view().update(b as int, 2u32));
                    }
                } else {
                    proof {
                        lemma_ov_update(sm.overflow@, i as int, (c - 1) as u32);
                    }
                    sm.overflow[i] = (b, c - 1);
                    proof {
                        assert(sm.sm_view() =~= old(sm).sm_view().update(
                            b as int,
                            (c - 1) as u32,
                        ));
                    }
                }
            },
            None => {
                proof {
                    assert(false);
                }
            },
        }
    }
}

/// The first slot of the run that index entry `j` covers.
pub open spec fn spec_run_lo(n: int, j: int) -> int {
    if 16320 * j < n {
        16320 * j
    } else {
        n
    }
}

/// One past the last slot of the run that index entry `j` covers.
pub open spec fn spec_run_hi(n: int, j: int) -> int {
    if spec_run_lo(n, j) + 16320 < n {
        spec_run_lo(n, j) + 16320
    } else {
        n
    }
}

/// How many slots in `lo .. hi` read zero.
pub open spec fn count_zero_slots(sm: DiskSpaceMap, lo: int, hi: int) -> nat
    decreases hi - lo,
{
    if lo >= hi {
        0
    } else {
        (if sm.spec_entry(lo) == 0 {
            1nat
        } else {
            0nat
        }) + count_zero_slots(sm, lo + 1, hi)
    }
}

/// Extending a scan by one slot counts that slot.
proof fn lemma_count_zero_step(sm: DiskSpaceMap, lo: int, k: int)
    requires
        lo <= k,
    ensures
        count_zero_slots(sm, lo, k + 1) == count_zero_slots(sm, lo, k) + (if sm.spec_entry(k)
            == 0 {
            1int
        } else {
            0int
        }),
    decreases k - lo,
{
    reveal_with_fuel(count_zero_slots, 3);
    if lo < k {
        lemma_count_zero_step(sm, lo + 1, k);
    } else {
        assert(count_zero_slots(sm, k + 1, k + 1) == 0);
    }
}

/// Builds the index entries that describe a bitmap array on disk: entry
/// `j` carries the block number of bitmap `j`, how many of the run's
/// slots are free, and a hint below which no slot of the run is free.
pub fn build_index_entries(sm: &DiskSpaceMap, blocknrs: &Vec<u64>) -> (r: Vec<IndexEntry>)
    requires
        sm.inv(),
    ensures
        r@.len() == blocknrs@.len(),
        forall|j: int| 0 <= j < r@.len() ==> (#[trigger] r@[j]).blocknr == blocknrs@[j],
        forall|j: int|
            0 <= j < r@.len() ==> (#[trigger] r@[j]).nr_free == count_zero_slots(
                *sm,
                spec_run_lo(sm.spec_nr_blocks() as int, j),
                spec_run_hi(sm.spec_nr_blocks() as int, j),
            ),
        forall|j: int| 0 <= j < r@.len() ==> (#[trigger] r@[j]).none_free_before <= 16320,
        forall|j: int|
            #![trigger r@[j]]
            0 <= j < r@.len() ==> (forall|k: int|
                spec_run_lo(sm.spec_nr_blocks() as int, j) <= k < spec_run_lo(
                    sm.spec_nr_blocks() as int,
                    j,
                ) + r@[j].none_free_before && k < spec_run_hi(sm.spec_nr_blocks() as int, j)
                    ==> #[trigger] sm.spec_entry(k) != 0),
{
    let mut out: Vec<IndexEntry> = Vec::new();
    let n = sm.nr_entries_len();
    let ghost nn = n as int;
    let mut lo: usize = 0;
    let mut j: usize = 0;
    while j < blocknrs.len()
        invariant
            j <= blocknrs@.len(),
            lo <= n,
            lo == spec_run_lo(nn, j as int),
            nn == n as int,
            n == sm.spec_nr_blocks(),
            sm.inv(),
            out@.len() == j,
            forall|x: int| 0 <= x < j ==> (#[trigger] out@[x]).blocknr == blocknrs@[x],
            forall|x: int|
                0 <= x < j ==> (#[trigger] out@[x]).nr_free == count_zero_slots(
                    *sm,
                    spec_run_lo(nn, x),
                    spec_run_hi(nn, x),
                ),
            forall|x: int| 0 <= x < j ==> (#[trigger] out@[x]).none_free_before <= 16320,
            forall|x: int|
                #![trigger out@[x]]
                0 <= x < j ==> (forall|k: int|
                    spec_run_lo(nn, x) <= k < spec_run_lo(nn, x) + out@[x].none_free_before && k
                        < spec_run_hi(nn, x) ==> #[trigger] sm.spec_entry(k) != 0),
        decreases blocknrs@.len() - j,
    {
        let hi = if n - lo < ENTRIES_PER_BITMAP {
            n
        } else {
            lo + ENTRIES_PER_BITMAP
        };
        proof {
            assert(hi == spec_run_hi(nn, j as int));
        }
        let mut nr_free: u32 = 0;
        let mut first_free: u32 = ENTRIES_PER_BITMAP as u32;
        let mut k: usize = lo;
        while k < hi
            invariant
                lo <= k <= hi <= n,
                nn == n as int,
                n == sm.spec_nr_blocks(),
                sm.inv(),
                hi - lo <= ENTRIES_PER_BITMAP,
                nr_free == count_zero_slots(*sm, lo as int, k as int),
                nr_free <= k - lo,
                first_free == 16320 || first_free < 16320,
                first_free == 16320 ==> forall|x: int|
                    lo <= x < k ==> #[trigger] sm.spec_entry(x) != 0,
                first_free < 16320 ==> lo + first_free < k && sm.spec_entry(
                    lo as int + first_free,
                ) == 0 && (forall|x: int|
                    lo <= x < lo + first_free ==> #[trigger] sm.spec_entry(x) != 0),
            decreases hi - k,
        {
            proof {
                lemma_count_zero_step(*sm, lo as int, k as int);
            }
            if sm.entry_at(k) == 0 {
                nr_free = nr_free + 1;
                if first_free == ENTRIES_PER_BITMAP as u32 {
                    first_free = (k - lo) as u32;
                }
            }
            k = k + 1;
        }
        out.push(IndexEntry { blocknr: blocknrs[j], nr_free, none_free_before: first_free });
        proof {
            assert(spec_run_lo(nn, j as int + 1) == hi as int);
        }
        lo = hi;
        j = j + 1;
    }
    out
}

} // verus!
