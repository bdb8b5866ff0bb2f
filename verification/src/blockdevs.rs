//! Block devices: one record for each device node, put together from the
//! symlink indexes that name it.
use vstd::prelude::*;
use vstd::string::StrSliceExecFns;
use crate::error::Failure;
use crate::error::LsblkError;
use crate::populate::populated;
use crate::reconcile::device_views;
use crate::reconcile::lemma_one_record_per_node;
use crate::reconcile::reconcile;
use crate::reconcile::reconciled;
use crate::scan::first_failure;
use crate::scan::lemma_first_failure_concat;
use crate::scan::lemma_links_met_concat;
use crate::scan::link_views;
use crate::scan::links_met;
use crate::scan::scan_pass;
use crate::scan::scan_passes;
use crate::scan::walk;
use crate::scan::walk_all;
use crate::scan::Link;
use crate::scan::LinkView;
use crate::scan::Step;
use crate::symlinks::DirRead;
use crate::symlinks::Slot;
use crate::text::has_prefix;

verus! {

/// A block device.
#[derive(Debug)]
pub struct BlockDevice {
    /// The device's short name: its node's path below `/dev/`.
    pub name: String,
    /// The canonical path of the device node. Two records with the same
    /// path stand for the same device.
    pub fullname: String,
    /// The device's name in `/dev/disk/by-diskseq`.
    pub diskseq: Option<String>,
    /// The device's name in `/dev/disk/by-path`: where the hardware sits.
    pub path: Option<String>,
    /// The UUID of the filesystem on the device.
    pub uuid: Option<String>,
    /// The UUID of the partition.
    pub partuuid: Option<String>,
    /// The label of the filesystem.
    pub label: Option<String>,
    /// The label of the partition.
    pub partlabel: Option<String>,
    /// The device's name in `/dev/disk/by-id`.
    pub id: Option<String>,
}

/// A block device's record as plain text.
pub struct DeviceView {
    pub name: Seq<char>,
    pub fullname: Seq<char>,
    pub diskseq: Option<Seq<char>>,
    pub path: Option<Seq<char>>,
    pub uuid: Option<Seq<char>>,
    pub partuuid: Option<Seq<char>>,
    pub label: Option<Seq<char>>,
    pub partlabel: Option<Seq<char>>,
    pub id: Option<Seq<char>>,
}

/// The characters of an attribute that may be absent.
pub open spec fn attr_view(attr: Option<String>) -> Option<Seq<char>> {
    match attr {
        Some(s) => Some(s@),
        None => None,
    }
}

impl View for BlockDevice {
    type V = DeviceView;

    open spec fn view(&self) -> DeviceView {
        DeviceView {
            name: self.name@,
            fullname: self.fullname@,
            diskseq: attr_view(self.diskseq),
            path: attr_view(self.path),
            uuid: attr_view(self.uuid),
            partuuid: attr_view(self.partuuid),
            label: attr_view(self.label),
            partlabel: attr_view(self.partlabel),
            id: attr_view(self.id),
        }
    }
}

/// Whether `path` lies below `/dev/`.
pub open spec fn under_dev(path: Seq<char>) -> bool {
    has_prefix(path, "/dev/"@)
}

/// The short name of the device node at `path`: what follows `/dev/`.
pub open spec fn device_name(path: Seq<char>) -> Seq<char> {
    path.skip(5)
}

/// The directory of the identity-defining index, the one that a listing
/// scans first.
pub const IDENTITY_DIRECTORY: &'static str = "/dev/disk/by-diskseq/";

/// Whether each of `links` points below `/dev/`.
pub open spec fn all_under_dev(links: Seq<LinkView>) -> bool {
    forall|i: int| 0 <= i < links.len() ==> under_dev((#[trigger] links[i]).target)
}

/// What a listing of all devices scans, in order: the identity-defining
/// index, `/dev/disk/by-diskseq/`, and then each of `passes`.
pub open spec fn listing_walk(identity: DirRead, passes: Seq<(Slot, DirRead)>) -> Seq<Step> {
    walk(Slot::Diskseq, IDENTITY_DIRECTORY@, identity) + walk_all(passes)
}

/// The links of `a` and then `b` all point below `/dev/` where those of
/// `a` do and those of `b` do.
pub proof fn lemma_all_under_dev_concat(a: Seq<LinkView>, b: Seq<LinkView>)
    ensures
        all_under_dev(a + b) == (all_under_dev(a) && all_under_dev(b)),
{
    if all_under_dev(a + b) {
        assert forall|i: int| 0 <= i < a.len() implies under_dev((#[trigger] a[i]).target) by {
            assert((a + b)[i] == a[i]);
        }
        assert forall|i: int| 0 <= i < b.len() implies under_dev((#[trigger] b[i]).target) by {
            assert((a + b)[a.len() + i] == b[i]);
        }
    }
}

/// Whether each link that a scan of the directory `dir`, read as `read`,
/// meets points below `/dev/`, and, where each does, whether the scan fails.
fn check_pass(Ghost(slot): Ghost<Slot>, Ghost(dir): Ghost<Seq<char>>, read: &DirRead) -> (r: (
    bool,
    bool,
))
    ensures
        r.0 == all_under_dev(links_met(walk(slot, dir, *read))),
        r.0 ==> r.1 == (first_failure(walk(slot, dir, *read)) is Some),
{
    let ghost steps = walk(slot, dir, *read);
    match read {
        DirRead::Absent => (true, false),
        DirRead::Unreadable(_) => (true, true),
        DirRead::Entries(entries) => {
            let mut i: usize = 0;
            while i < entries.len()
                invariant
                    i <= entries.len(),
                    *read == DirRead::Entries(*entries),
                    steps == walk(slot, dir, *read),
                    first_failure(steps.take(i as int)) is None,
                    all_under_dev(links_met(steps.take(i as int))),
                decreases entries.len() - i,
            {
                let ghost before = steps.take(i as int);
                proof {
                    assert(steps.take(i + 1) =~= before + seq![steps[i as int]]);
                    assert(steps =~= steps.take(i + 1) + steps.skip(i + 1));
                    crate::scan::lemma_single_step(steps[i as int]);
                    lemma_first_failure_concat(before, seq![steps[i as int]]);
                    lemma_links_met_concat(before, seq![steps[i as int]]);
                    lemma_first_failure_concat(steps.take(i + 1), steps.skip(i + 1));
                    lemma_links_met_concat(steps.take(i + 1), steps.skip(i + 1));
                    lemma_all_under_dev_concat(links_met(before), links_met(seq![steps[i as int]]));
                    lemma_all_under_dev_concat(
                        links_met(steps.take(i + 1)),
                        links_met(steps.skip(i + 1)),
                    );
                }
                match &entries[i].target {
                    Err(_) => {
                        return (true, true);
                    },
                    Ok(target) => {
                        proof {
                            let link = steps[i as int]->Ok_0;
                            assert(seq![link][0] == link);
                        }
                        if !BlockDevice::is_device_path(target.as_str()) {
                            return (false, false);
                        }
                    },
                }
                i += 1;
            }
            assert(steps.take(entries.len() as int) =~= steps);
            (true, false)
        },
    }
}

impl DeviceView {
    /// The attribute in `slot`.
    pub open spec fn slot(self, slot: Slot) -> Option<Seq<char>> {
        match slot {
            Slot::Diskseq => self.diskseq,
            Slot::Path => self.path,
            Slot::Uuid => self.uuid,
            Slot::Partuuid => self.partuuid,
            Slot::Label => self.label,
            Slot::Partlabel => self.partlabel,
            Slot::Id => self.id,
        }
    }

    /// This record with `value` in `slot`, and nothing else changed.
    pub open spec fn with_slot(self, slot: Slot, value: Option<Seq<char>>) -> DeviceView {
        match slot {
            Slot::Diskseq => DeviceView { diskseq: value, ..self },
            Slot::Path => DeviceView { path: value, ..self },
            Slot::Uuid => DeviceView { uuid: value, ..self },
            Slot::Partuuid => DeviceView { partuuid: value, ..self },
            Slot::Label => DeviceView { label: value, ..self },
            Slot::Partlabel => DeviceView { partlabel: value, ..self },
            Slot::Id => DeviceView { id: value, ..self },
        }
    }

    /// Whether the device is a partition: it has a partition UUID.
    pub open spec fn is_part(self) -> bool {
        self.partuuid is Some
    }

    /// Whether the device is a disk: it is no partition.
    pub open spec fn is_disk(self) -> bool {
        !self.is_part()
    }

    /// Whether the device is physical: it has a place in the index by
    /// path, or its name begins with `mmcblk`.
    pub open spec fn is_physical(self) -> bool {
        self.path is Some || has_prefix(self.name, "mmcblk"@)
    }

    /// The record of the device node at `fullname` with no attribute known.
    pub open spec fn unpopulated(fullname: Seq<char>) -> DeviceView {
        DeviceView {
            name: device_name(fullname),
            fullname,
            diskseq: None,
            path: None,
            uuid: None,
            partuuid: None,
            label: None,
            partlabel: None,
            id: None,
        }
    }
}

/// A copy of an attribute.
fn clone_attr(attr: &Option<String>) -> (copy: Option<String>)
    ensures
        copy == *attr,
{
    match attr {
        Some(s) => Some(s.clone()),
        None => None,
    }
}

impl Clone for BlockDevice {
    fn clone(&self) -> (copy: BlockDevice)
        ensures
            copy == *self,
    {
        BlockDevice {
            name: self.name.clone(),
            fullname: self.fullname.clone(),
            diskseq: clone_attr(&self.diskseq),
            path: clone_attr(&self.path),
            uuid: clone_attr(&self.uuid),
            partuuid: clone_attr(&self.partuuid),
            label: clone_attr(&self.label),
            partlabel: clone_attr(&self.partlabel),
            id: clone_attr(&self.id),
        }
    }
}

impl Default for BlockDevice {
    fn default() -> (dev: BlockDevice)
        ensures
            dev@ == (DeviceView {
                name: Seq::empty(),
                fullname: Seq::empty(),
                diskseq: None,
                path: None,
                uuid: None,
                partuuid: None,
                label: None,
                partlabel: None,
                id: None,
            }),
    {
        BlockDevice {
            name: String::new(),
            fullname: String::new(),
            diskseq: None,
            path: None,
            uuid: None,
            partuuid: None,
            label: None,
            partlabel: None,
            id: None,
        }
    }
}

impl BlockDevice {
    /// Whether `path` lies below `/dev/`, as the path of a device node does.
    pub fn is_device_path(path: &str) -> (b: bool)
        ensures
            b == under_dev(path@),
    {
        crate::text::starts_with(path, "/dev/")
    }

    /// The record of the device node at `absolute_path`, which is of the
    /// form `/dev/{name}`, with no attribute known.
    pub fn from_abs_path_unpopulated(absolute_path: String) -> (dev: BlockDevice)
        requires
            under_dev(absolute_path@),
        ensures
            dev@ == DeviceView::unpopulated(absolute_path@),
    {
        proof {
            reveal_strlit("/dev/");
        }
        let n: usize = absolute_path.as_str().unicode_len();
        let name = absolute_path.as_str().substring_char(5, n).to_owned();
        BlockDevice {
            name,
            fullname: absolute_path,
            diskseq: None,
            path: None,
            uuid: None,
            partuuid: None,
            label: None,
            partlabel: None,
            id: None,
        }
    }

    /// Whether [`BlockDevice::list`] can be called on `identity` and
    /// `passes`: each link that the scan meets points below `/dev/`.
    pub fn listable(identity: &DirRead, passes: &Vec<(Slot, DirRead)>) -> (b: bool)
        ensures
            b == all_under_dev(links_met(listing_walk(*identity, passes@))),
    {
        let ghost first = walk(Slot::Diskseq, IDENTITY_DIRECTORY@, *identity);
        let ghost all = passes@;
        proof {
            lemma_links_met_concat(first, walk_all(all));
            lemma_all_under_dev_concat(links_met(first), links_met(walk_all(all)));
        }
        let (clean, failed) = check_pass(
            Ghost(Slot::Diskseq),
            Ghost(IDENTITY_DIRECTORY@),
            identity,
        );
        if !clean || failed {
            return clean;
        }
        let mut i: usize = 0;
        while i < passes.len()
            invariant
                i <= passes.len(),
                all == passes@,
                first == walk(Slot::Diskseq, IDENTITY_DIRECTORY@, *identity),
                first_failure(first) is None,
                all_under_dev(links_met(first)),
                first_failure(walk_all(all.take(i as int))) is None,
                all_under_dev(links_met(walk_all(all.take(i as int)))),
            decreases passes.len() - i,
        {
            let ghost done = walk_all(all.take(i as int));
            let ghost this = crate::scan::pass_walk(all[i as int]);
            let ghost rest = walk_all(all.skip(i + 1));
            proof {
                assert(all.take(i + 1) =~= all.take(i as int) + seq![all[i as int]]);
                assert(all =~= all.take(i + 1) + all.skip(i + 1));
                crate::scan::lemma_walk_all_concat(all.take(i as int), seq![all[i as int]]);
                crate::scan::lemma_walk_all_single(all[i as int]);
                crate::scan::lemma_walk_all_concat(all.take(i + 1), all.skip(i + 1));
                lemma_first_failure_concat(done, this);
                lemma_links_met_concat(done, this);
                lemma_links_met_concat(done + this, rest);
                lemma_all_under_dev_concat(links_met(done), links_met(this));
                lemma_all_under_dev_concat(links_met(done + this), links_met(rest));
                lemma_links_met_concat(first, walk_all(all));
                lemma_all_under_dev_concat(links_met(first), links_met(walk_all(all)));
            }
            let (clean, failed) = check_pass(
                Ghost(passes[i as int].0),
                Ghost(passes[i as int].0.directory_spec()),
                &passes[i].1,
            );
            if !clean || failed {
                return clean;
            }
            i += 1;
        }
        assert(all.take(passes.len() as int) =~= all);
        true
    }

    /// All block devices, from what reading the identity-defining index
    /// `/dev/disk/by-diskseq/` and then each index of `passes` gave.
    ///
    /// The scan stops at the first failure, a directory that cannot be
    /// listed or a link that cannot be resolved, and returns it. Where there
    /// is none, each device node that a link points at has one record, with
    /// its name, its path, and in each slot its name in that slot's index:
    /// that of the last link to it there. The records stand in the order in
    /// which their nodes are first met.
    ///
    /// The links that the scan meets must point below `/dev/`:
    /// [`BlockDevice::listable`] tells whether they do.
    pub fn list(identity: DirRead, passes: Vec<(Slot, DirRead)>) -> (r: Result<
        Vec<BlockDevice>,
        LsblkError,
    >)
        requires
            all_under_dev(links_met(listing_walk(identity, passes@))),
        ensures
            match first_failure(listing_walk(identity, passes@)) {
                Some(failure) => r is Err && r->Err_0@ == failure,
                None => r is Ok && device_views(r->Ok_0@) == reconciled(
                    links_met(listing_walk(identity, passes@)),
                ),
            },
            r is Ok ==> forall|i: int, j: int|
                0 <= i < j < r->Ok_0.len() ==> r->Ok_0[i].fullname@ != r->Ok_0[j].fullname@,
    {
        let ghost first = walk(Slot::Diskseq, IDENTITY_DIRECTORY@, identity);
        let ghost rest = walk_all(passes@);
        proof {
            lemma_first_failure_concat(first, rest);
            lemma_links_met_concat(first, rest);
        }
        let mut links: Vec<Link> = Vec::new();
        match scan_pass(Slot::Diskseq, IDENTITY_DIRECTORY, identity, &mut links) {
            Ok(()) => {},
            Err(e) => {
                return Err(e);
            },
        }
        match scan_passes(passes, &mut links) {
            Ok(()) => {},
            Err(e) => {
                return Err(e);
            },
        }
        let ghost met = links_met(first + rest);
        assert forall|i: int| 0 <= i < links.len() implies under_dev(
            #[trigger] links[i].target@,
        ) by {
            assert(met[i] == links[i]@);
        }
        let devices = reconcile(links);
        proof {
            lemma_one_record_per_node(met);
            assert forall|i: int, j: int| 0 <= i < j < devices.len() implies devices[i].fullname@
                != devices[j].fullname@ by {
                assert(device_views(devices@)[i] == devices[i]@);
                assert(device_views(devices@)[j] == devices[j]@);
            }
        }
        Ok(devices)
    }

    /// The record of the device at `path`, with each attribute that the
    /// indexes of `passes` give it.
    ///
    /// `resolved` is the canonical path of `path`, which lies below `/dev/`,
    /// or why `path` could not be resolved: that is a failure. Each pass in
    /// turn is searched for the first link to the device, whose name goes
    /// to the slot of the pass; a directory that cannot be listed, or a
    /// link that cannot be resolved and comes before any to the device,
    /// ends the call.
    pub fn from_path(
        path: &str,
        resolved: Result<String, std::io::Error>,
        passes: Vec<(Slot, DirRead)>,
    ) -> (r: Result<BlockDevice, LsblkError>)
        requires
            resolved is Ok ==> under_dev(resolved->Ok_0@),
        ensures
            match resolved {
                Err(cause) => r is Err && r->Err_0@ == Failure::BadSymlink(path@, cause),
                Ok(canonical) => match populated(DeviceView::unpopulated(canonical@), passes@) {
                    Err(failure) => r is Err && r->Err_0@ == failure,
                    Ok(device) => r is Ok && r->Ok_0@ == device,
                },
            },
    {
        let canonical = match resolved {
            Ok(canonical) => canonical,
            Err(cause) => {
                return Err(LsblkError::BadSymlink(path.to_owned(), cause));
            },
        };
        let mut device = BlockDevice::from_abs_path_unpopulated(canonical);
        let ghost start = device@;
        let ghost all = passes@;
        assert(all.skip(0) =~= all);
        for pass in it: passes.into_iter()
            invariant
                it.seq() == all,
                all == passes@,
                resolved is Ok,
                start == DeviceView::unpopulated(resolved->Ok_0@),
                populated(start, all) == populated(device@, all.skip(it.index() as int)),
        {
            let ghost k = it.index() as int;
            proof {
                assert(all.skip(k).drop_first() =~= all.skip(k + 1));
            }
            let (slot, read) = pass;
            match device.populate(slot, read) {
                Ok(_) => {},
                Err(e) => {
                    return Err(e);
                },
            }
        }
        Ok(device)
    }

    /// The record of the device whose canonical path is `resolved`, which
    /// lies below `/dev/`, with no attribute known; or the reason why the
    /// path could not be resolved.
    pub fn from_path_unpopulated(resolved: Result<String, std::io::Error>) -> (r: Result<
        BlockDevice,
        std::io::Error,
    >)
        requires
            resolved is Ok ==> under_dev(resolved->Ok_0@),
        ensures
            match resolved {
                Err(cause) => r == Err::<BlockDevice, std::io::Error>(cause),
                Ok(canonical) => r is Ok && r->Ok_0@ == DeviceView::unpopulated(canonical@),
            },
    {
        match resolved {
            Ok(canonical) => Ok(BlockDevice::from_abs_path_unpopulated(canonical)),
            Err(cause) => Err(cause),
        }
    }

    /// Puts `value` in `slot`.
    pub fn set(&mut self, slot: Slot, value: String)
        ensures
            final(self)@ == old(self)@.with_slot(slot, Some(value@)),
    {
        match slot {
            Slot::Diskseq => { self.diskseq = Some(value); },
            Slot::Path => { self.path = Some(value); },
            Slot::Uuid => { self.uuid = Some(value); },
            Slot::Partuuid => { self.partuuid = Some(value); },
            Slot::Label => { self.label = Some(value); },
            Slot::Partlabel => { self.partlabel = Some(value); },
            Slot::Id => { self.id = Some(value); },
        }
    }

    /// Whether the device is a partition: it has a partition UUID.
    pub fn is_part(&self) -> (b: bool)
        ensures
            b == self@.is_part(),
    {
        self.partuuid.is_some()
    }

    /// Whether the device is a disk: it is no partition.
    pub fn is_disk(&self) -> (b: bool)
        ensures
            b == self@.is_disk(),
            b == !self@.is_part(),
    {
        !self.is_part()
    }

    /// Whether the device is physical: it has a place in
    /// `/dev/disk/by-path`, or it is an eMMC drive, named `mmcblk...`, which
    /// has none there.
    pub fn is_physical(&self) -> (b: bool)
        ensures
            b == self@.is_physical(),
    {
        self.path.is_some() || crate::text::starts_with(self.name.as_str(), "mmcblk")
    }
}

} // verus!
