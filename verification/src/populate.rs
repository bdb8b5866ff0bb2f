//! Populating one record: searching an index for the link that points at
//! the record's device node.
use vstd::prelude::*;
use crate::blockdevs::BlockDevice;
use crate::blockdevs::DeviceView;
use crate::error::Failure;
use crate::error::LsblkError;
use crate::scan::pass_walk;
use crate::scan::step_of;
use crate::scan::walk;
use crate::scan::Step;
use crate::symlinks::item_view;
use crate::symlinks::ls_symlinks;
use crate::symlinks::DirRead;
use crate::symlinks::Slot;

verus! {

/// What a search of `steps` for a link to `target` ends in: the name of the
/// first such link, or the failure that comes before any; nothing where
/// there is neither.
pub open spec fn resolve(steps: Seq<Step>, target: Seq<char>) -> Result<Option<Seq<char>>, Failure>
    decreases steps.len(),
{
    if steps.len() == 0 {
        Ok(None)
    } else {
        match steps[0] {
            Err(failure) => Err(failure),
            Ok(link) => if link.target == target {
                Ok(Some(link.name))
            } else {
                resolve(steps.drop_first(), target)
            },
        }
    }
}

/// The record `device` after a search of each of `passes` in turn for its
/// device node: each pass that finds the node puts the name in its slot,
/// and the first failure ends it.
pub open spec fn populated(device: DeviceView, passes: Seq<(Slot, DirRead)>) -> Result<
    DeviceView,
    Failure,
>
    decreases passes.len(),
{
    if passes.len() == 0 {
        Ok(device)
    } else {
        let slot = passes[0].0;
        match resolve(pass_walk(passes[0]), device.fullname) {
            Err(failure) => Err(failure),
            Ok(None) => populated(device, passes.drop_first()),
            Ok(Some(name)) => populated(device.with_slot(slot, Some(name)), passes.drop_first()),
        }
    }
}

/// What an attribute that was looked up says.
pub open spec fn name_view(name: Option<&str>) -> Option<Seq<char>> {
    match name {
        Some(s) => Some(s@),
        None => None,
    }
}

/// What populating `slot` of the record `before` from `read` comes to: the
/// record `after` and the outcome `r`. Where the index has a link to the
/// device, the name of the first one stands in the slot and is returned;
/// where it has none, or a failure comes first, the record is as before.
pub open spec fn populates(
    before: BlockDevice,
    after: BlockDevice,
    slot: Slot,
    read: DirRead,
    r: Result<Option<&str>, LsblkError>,
) -> bool {
    match resolve(pass_walk((slot, read)), before.fullname@) {
        Err(failure) => r is Err && r->Err_0@ == failure && after == before,
        Ok(None) => r is Ok && r->Ok_0 is None && after == before,
        Ok(Some(name)) => {
            &&& r is Ok
            &&& name_view(r->Ok_0) == Some(name)
            &&& after@ == before@.with_slot(slot, Some(name))
        },
    }
}

impl BlockDevice {
    /// The attribute in `slot`.
    pub fn attr(&self, slot: Slot) -> (name: Option<&str>)
        ensures
            name_view(name) == self@.slot(slot),
    {
        let held = match slot {
            Slot::Diskseq => &self.diskseq,
            Slot::Path => &self.path,
            Slot::Uuid => &self.uuid,
            Slot::Partuuid => &self.partuuid,
            Slot::Label => &self.label,
            Slot::Partlabel => &self.partlabel,
            Slot::Id => &self.id,
        };
        match held {
            Some(s) => Some(s.as_str()),
            None => None,
        }
    }

    /// Searches the index of `slot`, read as `read`, for the first link to
    /// this device, puts its name in the slot and returns it. Where there
    /// is no such link, or a failure comes first, the record stays as it is.
    pub fn populate(&mut self, slot: Slot, read: DirRead) -> (r: Result<Option<&str>, LsblkError>)
        ensures
            populates(*old(self), *final(self), slot, read, r),
    {
        let dir = slot.directory();
        let ghost steps = walk(slot, dir@, read);
        let items = match ls_symlinks(dir, read) {
            Ok(items) => items,
            Err(e) => {
                return Err(e);
            },
        };
        assert(steps.skip(0) =~= steps);
        for item in it: items.into_iter()
            invariant
                it.seq() == items@,
                *self == *old(self),
                steps == pass_walk((slot, read)),
                steps.len() == items.len(),
                forall|i: int|
                    0 <= i < items.len() ==> steps[i] == step_of(slot, item_view(items[i])),
                resolve(steps, self.fullname@) == resolve(
                    steps.skip(it.index() as int),
                    self.fullname@,
                ),
        {
            let ghost k = it.index() as int;
            proof {
                assert(steps.skip(k).drop_first() =~= steps.skip(k + 1));
            }
            match item {
                Err(e) => {
                    return Err(e);
                },
                Ok((dest, name)) => {
                    if dest == self.fullname {
                        self.set(slot, name);
                        return Ok(self.attr(slot));
                    }
                },
            }
        }
        Ok(None)
    }
}

/// A value that holds the record of a block device and can populate it
/// slot by slot, each from what reading the index of that slot gave.
pub trait Populate {
    /// The record that this value holds.
    spec fn device(&self) -> BlockDevice;

    /// The record, to be changed.
    fn as_mut(&mut self) -> (device: &mut BlockDevice)
        ensures
            *device == old(self).device(),
            final(self).device() == *final(device),
    ;

    /// The record.
    fn as_ref(&self) -> (device: &BlockDevice)
        ensures
            *device == self.device(),
    ;

    /// Populates `diskseq` from `/dev/disk/by-diskseq`.
    fn populate_diskseq(&mut self, read: DirRead) -> (r: Result<Option<&str>, LsblkError>)
        ensures
            populates(old(self).device(), final(self).device(), Slot::Diskseq, read, r),
    {
        match self.as_mut().populate(Slot::Diskseq, read) {
            Err(e) => Err(e),
            Ok(None) => Ok(None),
            Ok(Some(_)) => Ok(self.as_ref().attr(Slot::Diskseq)),
        }
    }

    /// Populates `path` from `/dev/disk/by-path`.
    fn populate_path(&mut self, read: DirRead) -> (r: Result<Option<&str>, LsblkError>)
        ensures
            populates(old(self).device(), final(self).device(), Slot::Path, read, r),
    {
        match self.as_mut().populate(Slot::Path, read) {
            Err(e) => Err(e),
            Ok(None) => Ok(None),
            Ok(Some(_)) => Ok(self.as_ref().attr(Slot::Path)),
        }
    }

    /// Populates `uuid` from `/dev/disk/by-uuid`.
    fn populate_uuid(&mut self, read: DirRead) -> (r: Result<Option<&str>, LsblkError>)
        ensures
            populates(old(self).device(), final(self).device(), Slot::Uuid, read, r),
    {
        match self.as_mut().populate(Slot::Uuid, read) {
            Err(e) => Err(e),
            Ok(None) => Ok(None),
            Ok(Some(_)) => Ok(self.as_ref().attr(Slot::Uuid)),
        }
    }

    /// Populates `partuuid` from `/dev/disk/by-partuuid`.
    fn populate_partuuid(&mut self, read: DirRead) -> (r: Result<Option<&str>, LsblkError>)
        ensures
            populates(old(self).device(), final(self).device(), Slot::Partuuid, read, r),
    {
        match self.as_mut().populate(Slot::Partuuid, read) {
            Err(e) => Err(e),
            Ok(None) => Ok(None),
            Ok(Some(_)) => Ok(self.as_ref().attr(Slot::Partuuid)),
        }
    }

    /// Populates `label` from `/dev/disk/by-label`.
    fn populate_label(&mut self, read: DirRead) -> (r: Result<Option<&str>, LsblkError>)
        ensures
            populates(old(self).device(), final(self).device(), Slot::Label, read, r),
    {
        match self.as_mut().populate(Slot::Label, read) {
            Err(e) => Err(e),
            Ok(None) => Ok(None),
            Ok(Some(_)) => Ok(self.as_ref().attr(Slot::Label)),
        }
    }

    /// Populates `partlabel` from `/dev/disk/by-partlabel`.
    fn populate_partlabel(&mut self, read: DirRead) -> (r: Result<Option<&str>, LsblkError>)
        ensures
            populates(old(self).device(), final(self).device(), Slot::Partlabel, read, r),
    {
        match self.as_mut().populate(Slot::Partlabel, read) {
            Err(e) => Err(e),
            Ok(None) => Ok(None),
            Ok(Some(_)) => Ok(self.as_ref().attr(Slot::Partlabel)),
        }
    }

    /// Populates `id` from `/dev/disk/by-id`.
    fn populate_id(&mut self, read: DirRead) -> (r: Result<Option<&str>, LsblkError>)
        ensures
            populates(old(self).device(), final(self).device(), Slot::Id, read, r),
    {
        match self.as_mut().populate(Slot::Id, read) {
            Err(e) => Err(e),
            Ok(None) => Ok(None),
            Ok(Some(_)) => Ok(self.as_ref().attr(Slot::Id)),
        }
    }
}

impl Populate for BlockDevice {
    open spec fn device(&self) -> BlockDevice {
        *self
    }

    fn as_mut(&mut self) -> (device: &mut BlockDevice) {
        self
    }

    fn as_ref(&self) -> (device: &BlockDevice) {
        self
    }
}

} // verus!
