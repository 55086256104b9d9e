//! The sectors of a disk as the file system sees them.
//!
//! A `Disk` holds the sectors that were loaded so far and the list of sectors
//! that were changed, in the order of the changes. A read of a sector that was
//! not loaded yet fails with `FsError::Missing`: the caller fetches that
//! sector from the drive, hands it over with `load` (or, if the drive could not
//! read it, says so with `fail`) and asks again. The caller writes the changed
//! sectors, which `pending` lists, out in that order. Those that the drive took are
//! settled; those from a refused one on are taken back.

use std::collections::HashMap;
use vstd::prelude::*;

verus! {

/// Why a file-system request did not succeed.
#[derive(Clone, Copy, Debug, PartialEq, Eq)]
pub enum FsError {
    /// The request needs this sector, which was not loaded yet.
    Missing(u32),
    /// The request was refused.
    Failed(&'static str),
}

/// What a `Disk` stands for: the known sectors, the changes not yet written out, and
/// what was known of the sector of each change before it.
#[verifier::ext_equal]
pub struct DiskView {
    pub sectors: Map<int, Seq<u8>>,
    pub failures: Map<int, &'static str>,
    pub pending: Seq<(int, Seq<u8>)>,
    pub undo: Seq<Option<Seq<u8>>>,
}

impl DiskView {
    pub open spec fn has(self, lba: int) -> bool {
        self.sectors.dom().contains(lba)
    }

    pub open spec fn at(self, lba: int) -> Seq<u8> {
        self.sectors[lba]
    }

    /// What a read of a sector that is not known comes to.
    pub open spec fn read_error(self, lba: int) -> FsError {
        if self.failures.dom().contains(lba) {
            FsError::Failed(self.failures[lba])
        } else {
            FsError::Missing(lba as u32)
        }
    }

    /// Sectors have 512 bytes.
    pub open spec fn wf(self) -> bool {
        forall|lba: int| self.has(lba) ==> (#[trigger] self.at(lba)).len() == 512
    }

    /// The disk after `bytes` went to sector `lba`.
    pub open spec fn put(self, lba: int, bytes: Seq<u8>) -> DiskView {
        DiskView {
            sectors: self.sectors.insert(lba, bytes),
            failures: self.failures,
            pending: self.pending.push((lba, bytes)),
            undo: self.undo.push(
                if self.has(lba) {
                    Some(self.at(lba))
                } else {
                    None
                },
            ),
        }
    }

    /// The disk after all these changes, one after the other.
    pub open spec fn after(self, changes: Seq<(int, Seq<u8>)>) -> DiskView
        decreases changes.len(),
    {
        if changes.len() == 0 {
            self
        } else {
            self.after(changes.drop_last()).put(changes.last().0, changes.last().1)
        }
    }

    /// The disk before its last change.
    pub open spec fn without_last(self) -> DiskView {
        let lba = self.pending.last().0;
        DiskView {
            sectors: match self.undo.last() {
                Some(bytes) => self.sectors.insert(lba, bytes),
                None => self.sectors.remove(lba),
            },
            failures: self.failures,
            pending: self.pending.drop_last(),
            undo: self.undo.drop_last(),
        }
    }

    /// The disk when `n` changes were pending.
    pub open spec fn undone(self, n: int) -> DiskView
        decreases self.pending.len(),
    {
        if n < 0 || self.pending.len() <= n {
            self
        } else {
            self.without_last().undone(n)
        }
    }

    /// The disk with nothing pending any more.
    pub open spec fn settled(self) -> DiskView {
        DiskView { pending: Seq::empty(), undo: Seq::empty(), ..self }
    }

    /// The disk with sector `lba` unknown.
    pub open spec fn forgot(self, lba: int) -> DiskView {
        DiskView { sectors: self.sectors.remove(lba), ..self }
    }

    /// The disk once the drive took the first `taken` changes, and refused the next one, if
    /// there is one: that sector has to be read again, and no change behind it happened.
    pub open spec fn finished(self, taken: int) -> DiskView {
        if taken < self.pending.len() {
            self.undone(taken).forgot(self.pending[taken].0).settled()
        } else {
            self.settled()
        }
    }
}

/// Changes are pending in their order.
pub proof fn after_is_pending(d: DiskView, changes: Seq<(int, Seq<u8>)>)
    ensures
        d.after(changes).pending == d.pending + changes,
        d.after(changes).undo.len() == d.undo.len() + changes.len(),
        d.after(changes).failures == d.failures,
        forall|l: int| #[trigger] d.has(l) ==> d.after(changes).has(l),
    decreases changes.len(),
{
    if changes.len() == 0 {
        assert(d.pending + changes =~= d.pending);
    } else {
        after_is_pending(d, changes.drop_last());
        assert(changes.drop_last().push(changes.last()) =~= changes);
        assert(d.after(changes).pending =~= d.pending + changes);
    }
}

/// A change that is taken back leaves the disk as it was before it.
pub proof fn put_taken_back(d: DiskView, lba: int, bytes: Seq<u8>)
    ensures
        d.put(lba, bytes).without_last() == d,
{
    let back = d.put(lba, bytes).without_last();
    assert(back.pending =~= d.pending);
    assert(back.undo =~= d.undo);
    assert(back.sectors =~= d.sectors);
}

/// Taking changes back leaves the disk as it is after those that are kept.
pub proof fn changes_taken_back(d: DiskView, changes: Seq<(int, Seq<u8>)>, kept: int)
    requires
        0 <= kept <= changes.len(),
    ensures
        d.after(changes).undone(d.pending.len() + kept) == d.after(changes.take(kept)),
    decreases changes.len() - kept,
{
    after_is_pending(d, changes);
    if kept < changes.len() {
        let front = changes.drop_last();
        put_taken_back(d.after(front), changes.last().0, changes.last().1);
        changes_taken_back(d, front, kept);
        assert(front.take(kept) =~= changes.take(kept));
    } else {
        assert(changes.take(kept) =~= changes);
    }
}

/// A change of a sector, and what was known of the sector before.
struct Change {
    lba: u32,
    bytes: [u8; 512],
    before: Option<[u8; 512]>,
}

pub struct Disk {
    sectors: HashMap<u32, [u8; 512]>,
    failures: HashMap<u32, &'static str>,
    changes: Vec<Change>,
}

impl View for Disk {
    type V = DiskView;

    closed spec fn view(&self) -> DiskView {
        DiskView {
            sectors: Map::new(
                |lba: int| 0 <= lba <= u32::MAX && self.sectors@.dom().contains(lba as u32),
                |lba: int| self.sectors@[lba as u32]@,
            ),
            failures: Map::new(
                |lba: int| 0 <= lba <= u32::MAX && self.failures@.dom().contains(lba as u32),
                |lba: int| self.failures@[lba as u32],
            ),
            pending: self.changes@.map_values(|c: Change| (c.lba as int, c.bytes@)),
            undo: self.changes@.map_values(
                |c: Change|
                    match c.before {
                        Some(b) => Some(b@),
                        None => None,
                    },
            ),
        }
    }
}

impl Disk {
    /// A disk of which nothing is known yet.
    pub fn new() -> (d: Disk)
        ensures
            d@.sectors == Map::<int, Seq<u8>>::empty(),
            d@.failures == Map::<int, &'static str>::empty(),
            d@.pending == Seq::<(int, Seq<u8>)>::empty(),
            d@.undo == Seq::<Option<Seq<u8>>>::empty(),
    {
        broadcast use vstd::std_specs::hash::group_hash_axioms;

        let d = Disk { sectors: HashMap::new(), failures: HashMap::new(), changes: Vec::new() };
        assert(d@.sectors =~= Map::<int, Seq<u8>>::empty());
        assert(d@.failures =~= Map::<int, &'static str>::empty());
        assert(d@.pending =~= Seq::<(int, Seq<u8>)>::empty());
        assert(d@.undo =~= Seq::<Option<Seq<u8>>>::empty());
        d
    }

    /// Records what the drive holds in sector `lba`.
    pub fn load(&mut self, lba: u32, bytes: &[u8; 512])
        ensures
            final(self)@.sectors == old(self)@.sectors.insert(lba as int, bytes@),
            final(self)@.failures == old(self)@.failures,
            final(self)@.pending == old(self)@.pending,
            final(self)@.undo == old(self)@.undo,
    {
        broadcast use vstd::std_specs::hash::group_hash_axioms;

        self.sectors.insert(lba, *bytes);
        assert(self@.sectors =~= old(self)@.sectors.insert(lba as int, bytes@));
        assert(self@.failures =~= old(self)@.failures);
        assert(self@.pending =~= old(self)@.pending);
        assert(self@.undo =~= old(self)@.undo);
    }

    /// Records that the drive could not read sector `lba`, and why.
    pub fn fail(&mut self, lba: u32, reason: &'static str)
        ensures
            final(self)@.sectors == old(self)@.sectors,
            final(self)@.failures == old(self)@.failures.insert(lba as int, reason),
            final(self)@.pending == old(self)@.pending,
            final(self)@.undo == old(self)@.undo,
    {
        broadcast use vstd::std_specs::hash::group_hash_axioms;

        self.failures.insert(lba, reason);
        assert(self@.failures =~= old(self)@.failures.insert(lba as int, reason));
        assert(self@.sectors =~= old(self)@.sectors);
        assert(self@.pending =~= old(self)@.pending);
        assert(self@.undo =~= old(self)@.undo);
    }

    /// Forgets which sectors the drive could not read, so that they are asked for again.
    pub fn forget_failures(&mut self)
        ensures
            final(self)@.sectors == old(self)@.sectors,
            final(self)@.failures == Map::<int, &'static str>::empty(),
            final(self)@.pending == old(self)@.pending,
            final(self)@.undo == old(self)@.undo,
    {
        broadcast use vstd::std_specs::hash::group_hash_axioms;

        self.failures.clear();
        assert(self@.failures =~= Map::<int, &'static str>::empty());
        assert(self@.sectors =~= old(self)@.sectors);
        assert(self@.pending =~= old(self)@.pending);
        assert(self@.undo =~= old(self)@.undo);
    }

    /// The contents of sector `lba`, if it is known.
    pub fn read_sector(&self, lba: u32) -> (r: Result<[u8; 512], FsError>)
        ensures
            self@.has(lba as int) ==> (r matches Ok(b) && b@ == self@.at(lba as int)),
            !self@.has(lba as int) ==> r == Err::<[u8; 512], FsError>(
                self@.read_error(lba as int),
            ),
    {
        broadcast use vstd::std_specs::hash::group_hash_axioms;

        match self.sectors.get(&lba) {
            Some(b) => Ok(*b),
            None => match self.failures.get(&lba) {
                Some(reason) => Err(FsError::Failed(*reason)),
                None => Err(FsError::Missing(lba)),
            },
        }
    }

    /// Changes sector `lba` to `bytes`.
    pub fn write_sector(&mut self, lba: u32, bytes: &[u8; 512])
        ensures
            final(self)@ == old(self)@.put(lba as int, bytes@),
    {
        broadcast use vstd::std_specs::hash::group_hash_axioms;

        let before: Option<[u8; 512]> = match self.sectors.get(&lba) {
            Some(b) => Some(*b),
            None => None,
        };
        self.sectors.insert(lba, *bytes);
        self.changes.push(Change { lba, bytes: *bytes, before });
        let ghost want = old(self)@.put(lba as int, bytes@);
        assert(self@.sectors =~= want.sectors);
        assert(self@.failures =~= want.failures);
        assert(self@.pending =~= want.pending);
        assert(self@.undo =~= want.undo);
    }

    /// The known sectors have the size of a sector.
    pub proof fn sector_sizes(&self)
        ensures
            self@.wf(),
    {
        assert forall|lba: int| self@.has(lba) implies (#[trigger] self@.at(lba)).len() == 512 by {
            assert(self@.at(lba) == self.sectors@[lba as u32]@);
        }
    }

    /// The changes that were not written out yet, oldest first.
    pub fn pending(&self) -> (writes: Vec<(u32, [u8; 512])>)
        ensures
            writes@.len() == self@.pending.len(),
            forall|i: int|
                0 <= i < writes@.len() ==> (#[trigger] writes@[i]).0 == self@.pending[i].0
                    && writes@[i].1@ == self@.pending[i].1,
    {
        let mut writes: Vec<(u32, [u8; 512])> = Vec::new();
        let mut i: usize = 0;
        while i < self.changes.len()
            invariant
                i <= self.changes.len(),
                writes@.len() == i,
                forall|k: int|
                    0 <= k < i ==> (#[trigger] writes@[k]).0 == self@.pending[k].0
                        && writes@[k].1@ == self@.pending[k].1,
            decreases self.changes.len() - i,
        {
            writes.push((self.changes[i].lba, self.changes[i].bytes));
            i = i + 1;
        }
        writes
    }

    /// Takes the last change back.
    fn take_back(&mut self)
        requires
            old(self)@.pending.len() > 0,
        ensures
            final(self)@ == old(self)@.without_last(),
    {
        broadcast use vstd::std_specs::hash::group_hash_axioms;

        let ghost want = self@.without_last();
        if let Some(change) = self.changes.pop() {
            match change.before {
                Some(bytes) => {
                    self.sectors.insert(change.lba, bytes);
                },
                None => {
                    self.sectors.remove(&change.lba);
                },
            }
            assert(self@.sectors =~= want.sectors);
            assert(self@.failures =~= want.failures);
            assert(self@.pending =~= want.pending);
            assert(self@.undo =~= want.undo);
        }
    }

    /// Takes changes back until `n` are pending.
    pub fn undo_to(&mut self, n: usize)
        requires
            n <= old(self)@.pending.len(),
        ensures
            final(self)@ == old(self)@.undone(n as int),
    {
        let ghost before = self@;
        while n < self.changes.len()
            invariant
                n <= self.changes.len(),
                self@.pending.len() == self.changes.len(),
                self@.undone(n as int) == before.undone(n as int),
            decreases self.changes.len(),
        {
            self.take_back();
            assert(self@.pending.len() == self.changes@.len());
        }
    }

    /// Forgets what sector `lba` holds, so that it is asked for again.
    pub fn forget(&mut self, lba: u32)
        ensures
            final(self)@ == old(self)@.forgot(lba as int),
    {
        broadcast use vstd::std_specs::hash::group_hash_axioms;

        self.sectors.remove(&lba);
        assert(self@ =~= old(self)@.forgot(lba as int));
    }

    /// Counts all changes as written.
    pub fn settle(&mut self)
        ensures
            final(self)@ == old(self)@.settled(),
    {
        self.changes.clear();
        assert(self@ =~= old(self)@.settled());
    }
}

/// Once the drive refused a change, the disk is what it is after the changes in front of that one, but
/// the sector of the refused one has to be read again; once it took all, the disk is what it is
/// after all. Nothing is pending any more either way.
pub proof fn refused_changes_did_not_happen(d: DiskView, changes: Seq<(int, Seq<u8>)>, taken: int)
    requires
        d.pending.len() == 0,
        0 <= taken <= changes.len(),
    ensures
        ({
            let end = d.after(changes).finished(taken);
            let kept = d.after(changes.take(taken));
            &&& end.pending.len() == 0
            &&& end.undo.len() == 0
            &&& end.failures == d.failures
            &&& taken == changes.len() ==> end.sectors == kept.sectors
            &&& taken < changes.len() ==> !end.has(changes[taken].0) && forall|lba: int|
                lba != changes[taken].0 ==> #[trigger] end.has(lba) == kept.has(lba) && (kept.has(lba)
                    ==> end.at(lba) == kept.at(lba))
        }),
{
    after_is_pending(d, changes);
    changes_taken_back(d, changes, taken);
    after_keeps_failures(d, changes);
    after_keeps_failures(d, changes.take(taken));
    assert(d.pending + changes =~= changes);
    if taken == changes.len() {
        assert(changes.take(taken) =~= changes);
    }
}

proof fn after_keeps_failures(d: DiskView, changes: Seq<(int, Seq<u8>)>)
    ensures
        d.after(changes).failures == d.failures,
    decreases changes.len(),
{
    if changes.len() > 0 {
        after_keeps_failures(d, changes.drop_last());
    }
}

/// A sector holds what was last written to it.
pub proof fn last_write_counts(d: DiskView, changes: Seq<(int, Seq<u8>)>, i: int)
    requires
        0 <= i < changes.len(),
        forall|j: int| i < j < changes.len() ==> (#[trigger] changes[j]).0 != changes[i].0,
    ensures
        d.after(changes).has(changes[i].0),
        d.after(changes).at(changes[i].0) == changes[i].1,
    decreases changes.len(),
{
    if i < changes.len() - 1 {
        let front = changes.drop_last();
        assert(changes[changes.len() - 1].0 != changes[i].0);
        assert forall|j: int| i < j < front.len() implies (#[trigger] front[j]).0 != front[i].0 by {
            assert(changes[j].0 != changes[i].0);
        }
        last_write_counts(d, front, i);
    }
}

/// A sector that nothing was written to is what it was.
pub proof fn other_sectors_stay(d: DiskView, changes: Seq<(int, Seq<u8>)>, lba: int)
    requires
        forall|j: int| 0 <= j < changes.len() ==> (#[trigger] changes[j]).0 != lba,
    ensures
        d.after(changes).has(lba) == d.has(lba),
        d.has(lba) ==> d.after(changes).at(lba) == d.at(lba),
    decreases changes.len(),
{
    if changes.len() > 0 {
        let front = changes.drop_last();
        assert(changes[changes.len() - 1].0 != lba);
        assert forall|j: int| 0 <= j < front.len() implies (#[trigger] front[j]).0 != lba by {
            assert(changes[j].0 != lba);
        }
        other_sectors_stay(d, front, lba);
    }
}

/// A sector that was never read is asked for by its number; one that could not be read fails for
/// the reason that was given.
pub proof fn unread_sectors_are_asked_for(d: DiskView, lba: u32)
    ensures
        d.failures.dom().contains(lba as int) ==> d.read_error(lba as int) == FsError::Failed(
            d.failures[lba as int],
        ),
        !d.failures.dom().contains(lba as int) ==> d.read_error(lba as int) == FsError::Missing(lba),
{
}

} // verus!
