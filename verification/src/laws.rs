//! What holds of every listing and every resolution.
use vstd::prelude::*;
use vstd::seq_lib::to_multiset_contains;
use crate::blockdevs::listing_walk;
use crate::blockdevs::IDENTITY_DIRECTORY;
use crate::blockdevs::DeviceView;
use crate::error::Failure;
use crate::populate::populated;
use crate::populate::resolve;
use crate::reconcile::last_name;
use crate::reconcile::lemma_targets;
use crate::reconcile::merged;
use crate::reconcile::reconciled;
use crate::reconcile::targets;
use crate::scan::first_failure;
use crate::scan::lemma_first_failure_concat;
use crate::scan::lemma_links_met_concat;
use crate::scan::lemma_walk_all_concat;
use crate::scan::lemma_walk_all_single;
use crate::scan::links_met;
use crate::scan::pass_walk;
use crate::scan::walk;
use crate::scan::walk_all;
use crate::scan::LinkView;
use crate::scan::Step;
use crate::symlinks::DirRead;
use crate::symlinks::Slot;

verus! {

/// The links that a scan of `pass` meets.
pub open spec fn pass_links(pass: (Slot, DirRead)) -> Seq<LinkView> {
    links_met(pass_walk(pass))
}

/// The records `records` as a mapping from the path of a device node to
/// the node's record.
pub open spec fn by_path(records: Seq<DeviceView>) -> Map<Seq<char>, DeviceView>
    decreases records.len(),
{
    if records.len() == 0 {
        Map::empty()
    } else {
        by_path(records.drop_last()).insert(records.last().fullname, records.last())
    }
}

/// Whether no two of `passes` are for the same slot.
pub open spec fn distinct_slots(passes: Seq<(Slot, DirRead)>) -> bool {
    forall|i: int, j: int|
        0 <= i < j < passes.len() ==> (#[trigger] passes[i]).0 != (#[trigger] passes[j]).0
}

/// Whether the directory of `pass` names the device node `target` but
/// once: the first link to it there bears the name of the last.
pub open spec fn names_once(pass: (Slot, DirRead), target: Seq<char>) -> bool {
    resolve(pass_walk(pass), target) == Ok::<Option<Seq<char>>, Failure>(
        last_name(pass_links(pass), pass.0, target),
    )
}

/// The seven passes of a resolution that match a listing over `identity`
/// and `passes`: the identity-defining index first.
pub open spec fn resolving_passes(identity: DirRead, passes: Seq<(Slot, DirRead)>) -> Seq<
    (Slot, DirRead),
> {
    seq![(Slot::Diskseq, identity)] + passes
}

/// Whether no index in `links` names a device node twice: no two links are
/// of the same slot and point at the same node.
pub open spec fn named_once(links: Seq<LinkView>) -> bool {
    forall|i: int, j: int|
        0 <= i < j < links.len() ==> !((#[trigger] links[i]).slot == (#[trigger] links[j]).slot
            && links[i].target == links[j].target)
}

/// The order of the passes does not matter: a listing over passes for
/// different slots, and one over the same passes in any other order, both
/// fail or both succeed, and where they succeed they come to the same
/// mapping from the path of a device node to the node's record, field by
/// field.
pub proof fn lemma_pass_order(
    identity: DirRead,
    passes: Seq<(Slot, DirRead)>,
    reordered: Seq<(Slot, DirRead)>,
)
    requires
        reordered.to_multiset() == passes.to_multiset(),
        distinct_slots(passes),
    ensures
        first_failure(listing_walk(identity, reordered)) is None <==> first_failure(
            listing_walk(identity, passes),
        ) is None,
        first_failure(listing_walk(identity, passes)) is None ==> by_path(
            reconciled(links_met(listing_walk(identity, reordered))),
        ) == by_path(reconciled(links_met(listing_walk(identity, passes)))),
{
    lemma_reordered(passes, reordered);
    if first_failure(listing_walk(identity, passes)) is None {
        lemma_failure_reordered(identity, passes, reordered);
        assert forall|slot: Slot, target: Seq<char>| #[trigger]
            last_name(links_met(listing_walk(identity, reordered)), slot, target) == last_name(
                links_met(listing_walk(identity, passes)),
                slot,
                target,
            ) by {
            lemma_last_name_reordered(identity, passes, reordered, slot, target);
        }
        lemma_same_names_same_records(
            links_met(listing_walk(identity, reordered)),
            links_met(listing_walk(identity, passes)),
        );
    }
    if first_failure(listing_walk(identity, reordered)) is None {
        lemma_failure_reordered(identity, reordered, passes);
    }
}

/// Scanning an index once more changes nothing: a listing over passes for
/// different slots that succeeds, and the listing that scans one of the
/// passes again at the end, come to the same mapping from paths to records.
pub proof fn lemma_pass_again(identity: DirRead, passes: Seq<(Slot, DirRead)>, i: int)
    requires
        distinct_slots(passes),
        0 <= i < passes.len(),
        first_failure(listing_walk(identity, passes)) is None,
    ensures
        first_failure(listing_walk(identity, passes.push(passes[i]))) is None,
        by_path(reconciled(links_met(listing_walk(identity, passes.push(passes[i]))))) == by_path(
            reconciled(links_met(listing_walk(identity, passes))),
        ),
{
    let again = passes.push(passes[i]);
    let first = walk(Slot::Diskseq, IDENTITY_DIRECTORY@, identity);
    let once = listing_walk(identity, passes);
    assert(again =~= passes + seq![passes[i]]);
    lemma_walk_all_concat(passes, seq![passes[i]]);
    lemma_walk_all_single(passes[i]);
    assert(listing_walk(identity, again) =~= once + pass_walk(passes[i]));
    lemma_first_failure_concat(first, walk_all(passes));
    lemma_links_met_concat(first, walk_all(passes));
    lemma_walk_all_failure(passes);
    lemma_first_failure_concat(once, pass_walk(passes[i]));
    lemma_links_met_concat(once, pass_walk(passes[i]));
    assert forall|slot: Slot, target: Seq<char>| #[trigger]
        last_name(links_met(listing_walk(identity, again)), slot, target) == last_name(
            links_met(once),
            slot,
            target,
        ) by {
        lemma_last_name_concat(links_met(once), pass_links(passes[i]), slot, target);
        if slot == passes[i].0 {
            lemma_last_name_concat(links_met(first), links_met(walk_all(passes)), slot, target);
            lemma_last_name_walk_all(passes, slot, target);
        } else {
            lemma_last_name_other_slot(passes[i], slot, target);
        }
    }
    lemma_same_names_same_records(links_met(listing_walk(identity, again)), links_met(once));
}

/// The order in which links are met does not matter where no index names
/// a device node twice: the same links in any other order come to the same
/// mapping from paths to records.
pub proof fn lemma_link_order(links: Seq<LinkView>, reordered: Seq<LinkView>)
    requires
        reordered.to_multiset() == links.to_multiset(),
        named_once(links),
    ensures
        by_path(reconciled(reordered)) == by_path(reconciled(links)),
{
    assert forall|i: int| 0 <= i < links.len() implies reordered.contains(#[trigger] links[i]) by {
        to_multiset_contains(links, links[i]);
        to_multiset_contains(reordered, links[i]);
    }
    assert forall|j: int| 0 <= j < reordered.len() implies links.contains(
        #[trigger] reordered[j],
    ) by {
        to_multiset_contains(links, reordered[j]);
        to_multiset_contains(reordered, reordered[j]);
    }
    assert(named_once(reordered)) by {
        links.lemma_multiset_has_no_duplicates();
        reordered.lemma_multiset_has_no_duplicates_conv();
        assert forall|i: int, j: int| 0 <= i < j < reordered.len() implies !((
        #[trigger] reordered[i]).slot == (#[trigger] reordered[j]).slot && reordered[i].target
            == reordered[j].target) by {
            let a = choose|a: int| 0 <= a < links.len() && links[a] == reordered[i];
            let b = choose|b: int| 0 <= b < links.len() && links[b] == reordered[j];
            assert(a != b);
        }
    }
    assert forall|slot: Slot, target: Seq<char>| #[trigger]
        last_name(reordered, slot, target) == last_name(links, slot, target) by {
        lemma_last_name_is_of_a_link(links, slot, target);
        lemma_last_name_is_of_a_link(reordered, slot, target);
        if last_name(links, slot, target) is Some {
            let k = choose|k: int|
                0 <= k < links.len() && (#[trigger] links[k]).slot == slot && links[k].target
                    == target;
            lemma_last_name_when_named_once(links, k);
            let j = choose|j: int| 0 <= j < reordered.len() && reordered[j] == links[k];
            lemma_last_name_when_named_once(reordered, j);
        } else if last_name(reordered, slot, target) is Some {
            let j = choose|j: int|
                0 <= j < reordered.len() && (#[trigger] reordered[j]).slot == slot
                    && reordered[j].target == target;
            let k = choose|k: int| 0 <= k < links.len() && links[k] == reordered[j];
            assert(links[k].slot == slot && links[k].target == target);
        }
    }
    lemma_same_names_same_records(reordered, links);
}

/// A pass writes its own slot and no other, and clears none: after a
/// further pass each record has in every other slot what it had, and a
/// slot that held a name still holds one.
pub proof fn lemma_pass_writes_its_slot(
    links: Seq<LinkView>,
    pass: (Slot, DirRead),
    slot: Slot,
    target: Seq<char>,
)
    ensures
        slot != pass.0 ==> merged(links + pass_links(pass), target).slot(slot) == merged(
            links,
            target,
        ).slot(slot),
        merged(links, target).slot(slot) is Some ==> merged(
            links + pass_links(pass),
            target,
        ).slot(slot) is Some,
{
    lemma_last_name_concat(links, pass_links(pass), slot, target);
    if slot != pass.0 {
        lemma_last_name_other_slot(pass, slot, target);
    }
}

/// A device is a disk where it is no partition, and a partition where it
/// is no disk.
pub proof fn lemma_disk_or_partition(device: DeviceView)
    ensures
        device.is_disk() == !device.is_part(),
{
}

/// Where every index directory is absent, a listing succeeds and has no
/// record.
pub proof fn lemma_nothing_to_list(identity: DirRead, passes: Seq<(Slot, DirRead)>)
    requires
        identity is Absent,
        forall|i: int| 0 <= i < passes.len() ==> (#[trigger] passes[i]).1 is Absent,
    ensures
        first_failure(listing_walk(identity, passes)) is None,
        reconciled(links_met(listing_walk(identity, passes))).len() == 0,
{
    lemma_walk_all_empty(passes);
}

/// Resolving a device by its path agrees with the listing: for a record of
/// a listing that succeeded, a resolution of the record's path over the
/// same seven directories gives the same record, attribute by attribute,
/// where each directory names the device but once.
pub proof fn lemma_resolution_agrees_with_listing(
    identity: DirRead,
    passes: Seq<(Slot, DirRead)>,
    i: int,
)
    requires
        first_failure(listing_walk(identity, passes)) is None,
        0 <= i < reconciled(links_met(listing_walk(identity, passes))).len(),
        forall|k: int|
            0 <= k < resolving_passes(identity, passes).len() ==> names_once(
                #[trigger] resolving_passes(identity, passes)[k],
                reconciled(links_met(listing_walk(identity, passes)))[i].fullname,
            ),
    ensures
        populated(
            DeviceView::unpopulated(
                reconciled(links_met(listing_walk(identity, passes)))[i].fullname,
            ),
            resolving_passes(identity, passes),
        ) == Ok::<DeviceView, Failure>(reconciled(links_met(listing_walk(identity, passes)))[i]),
{
    let links = links_met(listing_walk(identity, passes));
    let record = reconciled(links)[i];
    let target = record.fullname;
    let all = resolving_passes(identity, passes);
    let first = walk(Slot::Diskseq, IDENTITY_DIRECTORY@, identity);
    lemma_first_failure_concat(first, walk_all(passes));
    lemma_walk_whatever_the_name(
        Slot::Diskseq,
        IDENTITY_DIRECTORY@,
        Slot::Diskseq.directory_spec(),
        identity,
    );
    lemma_walk_all_concat(seq![(Slot::Diskseq, identity)], passes);
    lemma_walk_all_single((Slot::Diskseq, identity));
    let start = DeviceView::unpopulated(target);
    lemma_populated(start, all);
    let found = populated(start, all)->Ok_0;
    assert(found.slot(Slot::Diskseq) == record.slot(Slot::Diskseq));
    assert(found.slot(Slot::Path) == record.slot(Slot::Path));
    assert(found.slot(Slot::Uuid) == record.slot(Slot::Uuid));
    assert(found.slot(Slot::Partuuid) == record.slot(Slot::Partuuid));
    assert(found.slot(Slot::Label) == record.slot(Slot::Label));
    assert(found.slot(Slot::Partlabel) == record.slot(Slot::Partlabel));
    assert(found.slot(Slot::Id) == record.slot(Slot::Id));
}

/// Among the links `a` and then `b`, the name of a device node in the index
/// of a slot is its name among `b`, or that among `a` where `b` has none.
proof fn lemma_last_name_concat(a: Seq<LinkView>, b: Seq<LinkView>, slot: Slot, target: Seq<char>)
    ensures
        last_name(a + b, slot, target) == match last_name(b, slot, target) {
            Some(name) => Some(name),
            None => last_name(a, slot, target),
        },
    decreases b.len(),
{
    if b.len() > 0 {
        assert((a + b).drop_last() =~= a + b.drop_last());
        lemma_last_name_concat(a, b.drop_last(), slot, target);
    }
}

/// A device node has a name in the index of a slot where some link of that
/// slot points at it.
proof fn lemma_last_name_is_of_a_link(links: Seq<LinkView>, slot: Slot, target: Seq<char>)
    ensures
        last_name(links, slot, target) is Some <==> exists|k: int|
            0 <= k < links.len() && (#[trigger] links[k]).slot == slot && links[k].target == target,
    decreases links.len(),
{
    if links.len() > 0 {
        let init = links.drop_last();
        lemma_last_name_is_of_a_link(init, slot, target);
        if last_name(init, slot, target) is Some {
            let k = choose|k: int|
                0 <= k < init.len() && (#[trigger] init[k]).slot == slot && init[k].target
                    == target;
            assert(links[k] == init[k]);
        }
        if exists|k: int|
            0 <= k < links.len() && (#[trigger] links[k]).slot == slot && links[k].target
                == target {
            let k = choose|k: int|
                0 <= k < links.len() && (#[trigger] links[k]).slot == slot && links[k].target
                    == target;
            if k < init.len() {
                assert(init[k] == links[k]);
            }
        }
    }
}

/// A scan without failure meets each of its steps as a link.
proof fn lemma_steps_without_failure(steps: Seq<Step>)
    requires
        first_failure(steps) is None,
    ensures
        links_met(steps).len() == steps.len(),
        forall|i: int| 0 <= i < steps.len() ==> #[trigger] steps[i] == Ok::<LinkView, Failure>(
            links_met(steps)[i],
        ),
    decreases steps.len(),
{
    if steps.len() > 0 {
        let rest = steps.drop_first();
        lemma_steps_without_failure(rest);
        assert forall|i: int| 0 <= i < steps.len() implies #[trigger] steps[i] == Ok::<
            LinkView,
            Failure,
        >(links_met(steps)[i]) by {
            if i > 0 {
                assert(steps[i] == rest[i - 1]);
            }
        }
    }
}

/// A scan that meets no failure meets the same, whatever the directory is
/// called.
proof fn lemma_walk_whatever_the_name(slot: Slot, dir: Seq<char>, other: Seq<char>, read: DirRead)
    requires
        first_failure(walk(slot, dir, read)) is None,
    ensures
        walk(slot, other, read) == walk(slot, dir, read),
{
    let steps = walk(slot, dir, read);
    lemma_steps_without_failure(steps);
    if read is Entries {
        assert(walk(slot, other, read) =~= steps);
    }
}

/// The links that a scan of a pass meets are of the slot of the pass.
proof fn lemma_pass_links_slot(pass: (Slot, DirRead), k: int)
    requires
        0 <= k < pass_links(pass).len(),
    ensures
        pass_links(pass)[k].slot == pass.0,
{
    let steps = pass_walk(pass);
    lemma_links_are_steps(steps, k);
    let i = choose|i: int|
        0 <= i < steps.len() && steps[i] == Ok::<LinkView, Failure>(links_met(steps)[k]);
    assert(steps[i]->Ok_0.slot == pass.0);
}

/// Each link that a scan meets is one of its steps.
proof fn lemma_links_are_steps(steps: Seq<Step>, k: int)
    requires
        0 <= k < links_met(steps).len(),
    ensures
        exists|i: int|
            0 <= i < steps.len() && #[trigger] steps[i] == Ok::<LinkView, Failure>(
                links_met(steps)[k],
            ),
    decreases steps.len(),
{
    if k > 0 {
        let rest = steps.drop_first();
        lemma_links_are_steps(rest, k - 1);
        let i = choose|i: int|
            0 <= i < rest.len() && #[trigger] rest[i] == Ok::<LinkView, Failure>(
                links_met(rest)[k - 1],
            );
        assert(steps[i + 1] == rest[i]);
    }
}

/// A pass gives no name in the index of another slot than its own.
proof fn lemma_last_name_other_slot(pass: (Slot, DirRead), slot: Slot, target: Seq<char>)
    requires
        pass.0 != slot,
    ensures
        last_name(pass_links(pass), slot, target) is None,
{
    lemma_last_name_is_of_a_link(pass_links(pass), slot, target);
    if last_name(pass_links(pass), slot, target) is Some {
        let k = choose|k: int|
            0 <= k < pass_links(pass).len() && (#[trigger] pass_links(pass)[k]).slot == slot
                && pass_links(pass)[k].target == target;
        lemma_pass_links_slot(pass, k);
    }
}

/// A scan of passes meets no failure where the scan of each meets none.
proof fn lemma_walk_all_failure(passes: Seq<(Slot, DirRead)>)
    ensures
        first_failure(walk_all(passes)) is None <==> forall|i: int|
            0 <= i < passes.len() ==> first_failure(pass_walk(#[trigger] passes[i])) is None,
    decreases passes.len(),
{
    if passes.len() > 0 {
        let init = passes.drop_last();
        lemma_walk_all_failure(init);
        lemma_first_failure_concat(walk_all(init), pass_walk(passes.last()));
        if first_failure(walk_all(passes)) is None {
            assert forall|i: int| 0 <= i < passes.len() implies first_failure(
                pass_walk(#[trigger] passes[i]),
            ) is None by {
                if i < init.len() {
                    assert(init[i] == passes[i]);
                }
            }
        }
    }
}

/// Among passes for different slots that meet no failure, the name of a
/// device node in the index of a slot is its name in the one pass for that
/// slot, and there is none where no pass is for the slot.
proof fn lemma_last_name_walk_all(passes: Seq<(Slot, DirRead)>, slot: Slot, target: Seq<char>)
    requires
        first_failure(walk_all(passes)) is None,
        distinct_slots(passes),
    ensures
        forall|i: int|
            0 <= i < passes.len() && (#[trigger] passes[i]).0 == slot ==> last_name(
                links_met(walk_all(passes)),
                slot,
                target,
            ) == last_name(pass_links(passes[i]), slot, target),
        (forall|i: int| 0 <= i < passes.len() ==> (#[trigger] passes[i]).0 != slot) ==> last_name(
            links_met(walk_all(passes)),
            slot,
            target,
        ) is None,
    decreases passes.len(),
{
    if passes.len() > 0 {
        let init = passes.drop_last();
        let last = passes.last();
        lemma_first_failure_concat(walk_all(init), pass_walk(last));
        lemma_links_met_concat(walk_all(init), pass_walk(last));
        lemma_last_name_concat(links_met(walk_all(init)), pass_links(last), slot, target);
        lemma_last_name_walk_all(init, slot, target);
        if last.0 != slot {
            lemma_last_name_other_slot(last, slot, target);
        }
        assert forall|i: int|
            0 <= i < passes.len() && (#[trigger] passes[i]).0 == slot implies last_name(
            links_met(walk_all(passes)),
            slot,
            target,
        ) == last_name(pass_links(passes[i]), slot, target) by {
            if i < init.len() {
                assert(init[i] == passes[i]);
            }
        }
    }
}

/// A reordering of passes for different slots is of passes for different
/// slots, and holds the same passes.
proof fn lemma_reordered(passes: Seq<(Slot, DirRead)>, reordered: Seq<(Slot, DirRead)>)
    requires
        reordered.to_multiset() == passes.to_multiset(),
        distinct_slots(passes),
    ensures
        distinct_slots(reordered),
        forall|i: int| 0 <= i < passes.len() ==> reordered.contains(#[trigger] passes[i]),
        forall|j: int| 0 <= j < reordered.len() ==> passes.contains(#[trigger] reordered[j]),
{
    assert forall|i: int| 0 <= i < passes.len() implies reordered.contains(
        #[trigger] passes[i],
    ) by {
        to_multiset_contains(passes, passes[i]);
        to_multiset_contains(reordered, passes[i]);
    }
    assert forall|j: int| 0 <= j < reordered.len() implies passes.contains(
        #[trigger] reordered[j],
    ) by {
        to_multiset_contains(passes, reordered[j]);
        to_multiset_contains(reordered, reordered[j]);
    }
    passes.lemma_multiset_has_no_duplicates();
    reordered.lemma_multiset_has_no_duplicates_conv();
}

/// A listing that meets no failure meets none when its passes are scanned
/// in another order.
proof fn lemma_failure_reordered(
    identity: DirRead,
    passes: Seq<(Slot, DirRead)>,
    reordered: Seq<(Slot, DirRead)>,
)
    requires
        forall|j: int| 0 <= j < reordered.len() ==> passes.contains(#[trigger] reordered[j]),
        first_failure(listing_walk(identity, passes)) is None,
    ensures
        first_failure(listing_walk(identity, reordered)) is None,
{
    let first = walk(Slot::Diskseq, IDENTITY_DIRECTORY@, identity);
    lemma_first_failure_concat(first, walk_all(passes));
    lemma_first_failure_concat(first, walk_all(reordered));
    lemma_walk_all_failure(passes);
    lemma_walk_all_failure(reordered);
}

/// The name of a device node in the index of a slot does not depend on the
/// order of the passes.
proof fn lemma_last_name_reordered(
    identity: DirRead,
    passes: Seq<(Slot, DirRead)>,
    reordered: Seq<(Slot, DirRead)>,
    slot: Slot,
    target: Seq<char>,
)
    requires
        reordered.to_multiset() == passes.to_multiset(),
        distinct_slots(passes),
        first_failure(listing_walk(identity, passes)) is None,
    ensures
        last_name(links_met(listing_walk(identity, reordered)), slot, target) == last_name(
            links_met(listing_walk(identity, passes)),
            slot,
            target,
        ),
{
    let first = walk(Slot::Diskseq, IDENTITY_DIRECTORY@, identity);
    lemma_reordered(passes, reordered);
    lemma_failure_reordered(identity, passes, reordered);
    lemma_first_failure_concat(first, walk_all(passes));
    lemma_first_failure_concat(first, walk_all(reordered));
    lemma_links_met_concat(first, walk_all(passes));
    lemma_links_met_concat(first, walk_all(reordered));
    lemma_last_name_concat(links_met(first), links_met(walk_all(passes)), slot, target);
    lemma_last_name_concat(links_met(first), links_met(walk_all(reordered)), slot, target);
    lemma_last_name_walk_all(passes, slot, target);
    lemma_last_name_walk_all(reordered, slot, target);
    if exists|i: int| 0 <= i < passes.len() && (#[trigger] passes[i]).0 == slot {
        let i = choose|i: int| 0 <= i < passes.len() && (#[trigger] passes[i]).0 == slot;
        let j = choose|j: int| 0 <= j < reordered.len() && reordered[j] == passes[i];
        assert(reordered[j].0 == slot);
    }
}

/// Records of which no two have the same path, as a mapping: each path
/// leads to its record, and no other path leads anywhere.
proof fn lemma_by_path(records: Seq<DeviceView>)
    requires
        forall|i: int, j: int|
            0 <= i < j < records.len() ==> records[i].fullname != records[j].fullname,
    ensures
        forall|p: Seq<char>|
            (#[trigger] by_path(records).dom().contains(p)) <==> exists|i: int|
                0 <= i < records.len() && (#[trigger] records[i]).fullname == p,
        forall|i: int|
            0 <= i < records.len() ==> by_path(records)[(#[trigger] records[i]).fullname]
                == records[i],
    decreases records.len(),
{
    if records.len() > 0 {
        let init = records.drop_last();
        let last = records.last();
        lemma_by_path(init);
        assert forall|p: Seq<char>| #[trigger]
            by_path(records).dom().contains(p) implies exists|i: int|
            0 <= i < records.len() && (#[trigger] records[i]).fullname == p by {
            if p != last.fullname {
                assert(by_path(init).dom().contains(p));
                let i = choose|i: int| 0 <= i < init.len() && (#[trigger] init[i]).fullname == p;
                assert(records[i] == init[i]);
            }
        }
        assert forall|p: Seq<char>|
            (exists|i: int| 0 <= i < records.len() && (#[trigger] records[i]).fullname == p) implies
            #[trigger] by_path(records).dom().contains(p) by {
            let i = choose|i: int| 0 <= i < records.len() && (#[trigger] records[i]).fullname == p;
            if i < init.len() {
                assert(init[i] == records[i]);
            }
        }
        assert forall|i: int| 0 <= i < records.len() implies by_path(records)[(
        #[trigger] records[i]).fullname] == records[i] by {
            if i < init.len() {
                assert(init[i] == records[i]);
            }
        }
    }
}

/// The records of a listing as a mapping: the paths are the device nodes
/// that the links point at, and each leads to the node's merged record.
proof fn lemma_by_path_reconciled(links: Seq<LinkView>)
    ensures
        forall|p: Seq<char>|
            (#[trigger] by_path(reconciled(links)).dom().contains(p)) <==> targets(links).contains(
                p,
            ),
        forall|p: Seq<char>|
            targets(links).contains(p) ==> #[trigger] by_path(reconciled(links))[p] == merged(
                links,
                p,
            ),
{
    let records = reconciled(links);
    lemma_targets(links);
    lemma_by_path(records);
    assert forall|p: Seq<char>| targets(links).contains(p) implies #[trigger] by_path(
        records,
    ).dom().contains(p) by {
        let i = choose|i: int| 0 <= i < targets(links).len() && targets(links)[i] == p;
        assert(records[i].fullname == p);
    }
    assert forall|p: Seq<char>| targets(links).contains(p) implies #[trigger] by_path(records)[p]
        == merged(links, p) by {
        let i = choose|i: int| 0 <= i < targets(links).len() && targets(links)[i] == p;
        assert(records[i].fullname == p);
    }
}

/// A device node is a target where it has a name in the index of some slot.
proof fn lemma_target_has_a_name(links: Seq<LinkView>, target: Seq<char>)
    ensures
        targets(links).contains(target) <==> exists|slot: Slot|
            (#[trigger] last_name(links, slot, target)) is Some,
{
    lemma_targets(links);
    if targets(links).contains(target) {
        let k = choose|k: int| 0 <= k < links.len() && (#[trigger] links[k]).target == target;
        lemma_last_name_is_of_a_link(links, links[k].slot, target);
    }
    if exists|slot: Slot| #[trigger] last_name(links, slot, target) is Some {
        let slot = choose|slot: Slot| #[trigger] last_name(links, slot, target) is Some;
        lemma_last_name_is_of_a_link(links, slot, target);
    }
}

/// Links that give each device node the same name in each index come to
/// the same mapping from paths to records.
proof fn lemma_same_names_same_records(a: Seq<LinkView>, b: Seq<LinkView>)
    requires
        forall|slot: Slot, target: Seq<char>| #[trigger]
            last_name(a, slot, target) == last_name(b, slot, target),
    ensures
        by_path(reconciled(a)) == by_path(reconciled(b)),
{
    lemma_by_path_reconciled(a);
    lemma_by_path_reconciled(b);
    assert forall|p: Seq<char>| targets(a).contains(p) == targets(b).contains(p) by {
        lemma_target_has_a_name(a, p);
        lemma_target_has_a_name(b, p);
        if targets(a).contains(p) {
            let slot = choose|slot: Slot| #[trigger] last_name(a, slot, p) is Some;
            assert(last_name(b, slot, p) is Some);
        }
        if targets(b).contains(p) {
            let slot = choose|slot: Slot| #[trigger] last_name(b, slot, p) is Some;
            assert(last_name(a, slot, p) is Some);
        }
    }
}

/// A scan of absent directories meets nothing.
proof fn lemma_walk_all_empty(passes: Seq<(Slot, DirRead)>)
    requires
        forall|i: int| 0 <= i < passes.len() ==> (#[trigger] passes[i]).1 is Absent,
    ensures
        walk_all(passes) == Seq::<Step>::empty(),
    decreases passes.len(),
{
    if passes.len() > 0 {
        let init = passes.drop_last();
        lemma_walk_all_empty(init);
    }
}

/// Populating a record from passes that meet no failure, each of which
/// names the device but once: each slot then holds the device's name in
/// the index of that slot, or is as before where the index has none.
proof fn lemma_populated(device: DeviceView, passes: Seq<(Slot, DirRead)>)
    requires
        first_failure(walk_all(passes)) is None,
        forall|i: int| 0 <= i < passes.len() ==> names_once(#[trigger] passes[i], device.fullname),
    ensures
        populated(device, passes) is Ok,
        populated(device, passes)->Ok_0.name == device.name,
        populated(device, passes)->Ok_0.fullname == device.fullname,
        forall|slot: Slot| #[trigger]
            populated(device, passes)->Ok_0.slot(slot) == match last_name(
                links_met(walk_all(passes)),
                slot,
                device.fullname,
            ) {
                Some(name) => Some(name),
                None => device.slot(slot),
            },
    decreases passes.len(),
{
    let target = device.fullname;
    if passes.len() > 0 {
        let head = passes[0];
        let rest = passes.drop_first();
        assert(passes =~= seq![head] + rest);
        lemma_walk_all_concat(seq![head], rest);
        lemma_walk_all_single(head);
        lemma_first_failure_concat(pass_walk(head), walk_all(rest));
        lemma_links_met_concat(pass_walk(head), walk_all(rest));
        let found = last_name(pass_links(head), head.0, target);
        let next = match found {
            Some(name) => device.with_slot(head.0, Some(name)),
            None => device,
        };
        lemma_populated(next, rest);
        assert forall|slot: Slot| #[trigger]
            populated(device, passes)->Ok_0.slot(slot) == match last_name(
                links_met(walk_all(passes)),
                slot,
                target,
            ) {
                Some(name) => Some(name),
                None => device.slot(slot),
            } by {
            lemma_last_name_concat(pass_links(head), links_met(walk_all(rest)), slot, target);
            if slot != head.0 {
                lemma_last_name_other_slot(head, slot, target);
            }
        }
    }
}

/// Where no index names a device node twice, the name of a node in the
/// index of a slot is that of the one link of the slot that points at it.
proof fn lemma_last_name_when_named_once(links: Seq<LinkView>, k: int)
    requires
        named_once(links),
        0 <= k < links.len(),
    ensures
        last_name(links, links[k].slot, links[k].target) == Some(links[k].name),
    decreases links.len(),
{
    if k < links.len() - 1 {
        let init = links.drop_last();
        lemma_last_name_when_named_once(init, k);
    }
}

} // verus!
