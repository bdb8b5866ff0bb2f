//! Reconciling the indexes: from the links that name device nodes, one
//! record for each node, with each attribute as its index gives it.
use vstd::prelude::*;
use crate::blockdevs::under_dev;
use crate::blockdevs::BlockDevice;
use crate::blockdevs::DeviceView;
use crate::scan::link_views;
use crate::scan::Link;
use crate::scan::LinkView;
use crate::symlinks::Slot;

verus! {

/// The device nodes that `links` point at, each once, in the order in which
/// they are first met.
pub open spec fn targets(links: Seq<LinkView>) -> Seq<Seq<char>>
    decreases links.len(),
{
    if links.len() == 0 {
        Seq::empty()
    } else {
        let earlier = targets(links.drop_last());
        if earlier.contains(links.last().target) {
            earlier
        } else {
            earlier.push(links.last().target)
        }
    }
}

/// The name under which the index of `slot` has the device node `target`:
/// that of the last link of that slot to that node, if there is one.
pub open spec fn last_name(links: Seq<LinkView>, slot: Slot, target: Seq<char>) -> Option<
    Seq<char>,
>
    decreases links.len(),
{
    if links.len() == 0 {
        None
    } else if links.last().slot == slot && links.last().target == target {
        Some(links.last().name)
    } else {
        last_name(links.drop_last(), slot, target)
    }
}

/// The record of the device node `target` as `links` give it: each
/// attribute is the node's name in the index of its slot.
pub open spec fn merged(links: Seq<LinkView>, target: Seq<char>) -> DeviceView {
    DeviceView {
        name: crate::blockdevs::device_name(target),
        fullname: target,
        diskseq: last_name(links, Slot::Diskseq, target),
        path: last_name(links, Slot::Path, target),
        uuid: last_name(links, Slot::Uuid, target),
        partuuid: last_name(links, Slot::Partuuid, target),
        label: last_name(links, Slot::Label, target),
        partlabel: last_name(links, Slot::Partlabel, target),
        id: last_name(links, Slot::Id, target),
    }
}

/// The records that `links` come to: one for each device node that they
/// point at, in the order of [`targets`].
pub open spec fn reconciled(links: Seq<LinkView>) -> Seq<DeviceView> {
    Seq::new(targets(links).len(), |i: int| merged(links, targets(links)[i]))
}

/// The records in `devices`, each as plain text.
pub open spec fn device_views(devices: Seq<BlockDevice>) -> Seq<DeviceView> {
    devices.map_values(|d: BlockDevice| d@)
}

/// No device node occurs twice among the targets, and each is the target
/// of one of the links.
pub proof fn lemma_targets(links: Seq<LinkView>)
    ensures
        targets(links).no_duplicates(),
        forall|p: Seq<char>|
            (#[trigger] targets(links).contains(p)) <==> exists|i: int|
                0 <= i < links.len() && (#[trigger] links[i]).target == p,
    decreases links.len(),
{
    if links.len() > 0 {
        let init = links.drop_last();
        let last = links.last();
        lemma_targets(init);
        let earlier = targets(init);
        assert forall|p: Seq<char>| #[trigger]
            targets(links).contains(p) implies exists|i: int|
            0 <= i < links.len() && (#[trigger] links[i]).target == p by {
            if earlier.contains(p) {
                let i = choose|i: int| 0 <= i < init.len() && (#[trigger] init[i]).target == p;
                assert(links[i] == init[i]);
            } else {
                let j = choose|j: int| 0 <= j < targets(links).len() && targets(links)[j] == p;
                assert(p == last.target);
            }
        }
        assert forall|p: Seq<char>|
            (exists|i: int| 0 <= i < links.len() && (#[trigger] links[i]).target == p) implies
            #[trigger] targets(links).contains(p) by {
            let i = choose|i: int| 0 <= i < links.len() && (#[trigger] links[i]).target == p;
            if i < init.len() {
                assert(init[i] == links[i]);
                assert(earlier.contains(p));
                let j = choose|j: int| 0 <= j < earlier.len() && earlier[j] == p;
                assert(targets(links)[j] == p);
            } else {
                if !earlier.contains(p) {
                    assert(targets(links)[earlier.len() as int] == p);
                }
            }
        }
    }
}

/// No two records of one listing have the same path: each device node has
/// one record, and each record is that of a node that a link points at.
pub proof fn lemma_one_record_per_node(links: Seq<LinkView>)
    ensures
        forall|i: int, j: int|
            0 <= i < j < reconciled(links).len() ==> reconciled(links)[i].fullname != reconciled(
                links,
            )[j].fullname,
        forall|i: int|
            0 <= i < reconciled(links).len() ==> exists|k: int|
                0 <= k < links.len() && (#[trigger] links[k]).target == (#[trigger] reconciled(
                    links,
                )[i]).fullname,
        forall|k: int|
            0 <= k < links.len() ==> exists|i: int|
                0 <= i < reconciled(links).len() && (#[trigger] reconciled(links)[i]).fullname == (
                #[trigger] links[k]).target,
{
    lemma_targets(links);
    assert forall|i: int| 0 <= i < reconciled(links).len() implies exists|k: int|
        0 <= k < links.len() && (#[trigger] links[k]).target == (#[trigger] reconciled(
            links,
        )[i]).fullname by {
        assert(targets(links).contains(targets(links)[i]));
    }
    assert forall|k: int| 0 <= k < links.len() implies exists|i: int|
        0 <= i < reconciled(links).len() && (#[trigger] reconciled(links)[i]).fullname == (
        #[trigger] links[k]).target by {
        assert(targets(links).contains(links[k].target));
        let i = choose|i: int|
            0 <= i < targets(links).len() && targets(links)[i] == links[k].target;
        assert(reconciled(links)[i].fullname == links[k].target);
    }
}

/// A device node that is no target has no name in any index.
pub proof fn lemma_last_name_of_stranger(links: Seq<LinkView>, slot: Slot, target: Seq<char>)
    requires
        !targets(links).contains(target),
    ensures
        last_name(links, slot, target) is None,
    decreases links.len(),
{
    if links.len() > 0 {
        let earlier = targets(links.drop_last());
        if !earlier.contains(links.last().target) {
            assert(earlier.push(links.last().target)[earlier.len() as int] == links.last().target);
            assert forall|j: int| 0 <= j < earlier.len() implies earlier[j] != target by {
                assert(earlier.push(links.last().target)[j] == earlier[j]);
            }
        }
        lemma_last_name_of_stranger(links.drop_last(), slot, target);
    }
}

/// Where the device node `target` stands among `devices`, if it does.
fn position_of(devices: &Vec<BlockDevice>, target: &String) -> (found: Option<usize>)
    ensures
        match found {
            Some(k) => k < devices.len() && devices[k as int].fullname@ == target@,
            None => forall|i: int| 0 <= i < devices.len() ==> devices[i].fullname@ != target@,
        },
{
    let mut i: usize = 0;
    while i < devices.len()
        invariant
            i <= devices.len(),
            forall|j: int| 0 <= j < i ==> devices[j].fullname@ != target@,
        decreases devices.len() - i,
    {
        if devices[i].fullname == *target {
            return Some(i);
        }
        i += 1;
    }
    None
}

/// One record for each device node that `links` point at: the node's name
/// and path, and in each slot the name that the last link of that slot to
/// the node bears. The records stand in the order in which their nodes are
/// first met.
///
/// The records are gathered in a vector in which no path stands twice: for
/// each link the vector is searched for the record of its node, which takes
/// time in proportion to the number of devices.
pub fn reconcile(links: Vec<Link>) -> (devices: Vec<BlockDevice>)
    requires
        forall|i: int| 0 <= i < links.len() ==> under_dev(#[trigger] links[i].target@),
    ensures
        device_views(devices@) == reconciled(link_views(links@)),
{
    let mut devices: Vec<BlockDevice> = Vec::new();
    let ghost all = link_views(links@);
    for link in it: links.into_iter()
        invariant
            it.seq() == links@,
            all == link_views(links@),
            forall|i: int| 0 <= i < links.len() ==> under_dev(#[trigger] links[i].target@),
            device_views(devices@) == reconciled(all.take(it.index() as int)),
    {
        let ghost k = it.index() as int;
        let ghost seen = all.take(k);
        let ghost now = all.take(k + 1);
        let ghost before = devices@;
        let Link { slot, target, name } = link;
        proof {
            assert(now.drop_last() =~= seen);
            lemma_targets(seen);
            assert(device_views(before).len() == before.len());
            assert forall|i: int| 0 <= i < before.len() implies #[trigger] before[i].fullname@
                == targets(seen)[i] by {
                assert(device_views(before)[i] == before[i]@);
            }
        }
        match position_of(&devices, &target) {
            Some(at) => {
                devices[at].set(slot, name);
                proof {
                    assert forall|i: int| 0 <= i < devices.len() implies #[trigger] device_views(
                        devices@,
                    )[i] == reconciled(now)[i] by {
                        assert(device_views(before)[i] == before[i]@);
                    }
                }
            },
            None => {
                let mut device = BlockDevice::from_abs_path_unpopulated(target);
                device.set(slot, name);
                devices.push(device);
                proof {
                    assert(!targets(seen).contains(target@)) by {
                        if targets(seen).contains(target@) {
                            let j = choose|j: int|
                                0 <= j < targets(seen).len() && targets(seen)[j] == target@;
                            assert(before[j].fullname@ == target@);
                        }
                    }
                    lemma_last_name_of_stranger(seen, Slot::Diskseq, target@);
                    lemma_last_name_of_stranger(seen, Slot::Path, target@);
                    lemma_last_name_of_stranger(seen, Slot::Uuid, target@);
                    lemma_last_name_of_stranger(seen, Slot::Partuuid, target@);
                    lemma_last_name_of_stranger(seen, Slot::Label, target@);
                    lemma_last_name_of_stranger(seen, Slot::Partlabel, target@);
                    lemma_last_name_of_stranger(seen, Slot::Id, target@);
                    assert forall|i: int| 0 <= i < devices.len() implies #[trigger] device_views(
                        devices@,
                    )[i] == reconciled(now)[i] by {
                        if i < before.len() {
                            assert(device_views(before)[i] == before[i]@);
                        }
                    }
                }
            },
        }
    }
    assert(all.take(links.len() as int) =~= all);
    devices
}

} // verus!
