//! Scanning the indexes: the links and failures that a pass over the
//! directories meets, in order, and where such a scan stops.
use vstd::prelude::*;
use crate::error::Failure;
use crate::error::LsblkError;
use crate::symlinks::entry_outcome;
use crate::symlinks::item_view;
use crate::symlinks::ls_symlinks;
use crate::symlinks::DirRead;
use crate::symlinks::Slot;

verus! {

/// One link of an index: the slot of the index, the canonical path of the
/// device node that the link points at, and the link's own name.
#[derive(Debug)]
pub struct Link {
    pub slot: Slot,
    pub target: String,
    pub name: String,
}

/// A [`Link`] as plain text.
pub struct LinkView {
    pub slot: Slot,
    pub target: Seq<char>,
    pub name: Seq<char>,
}

impl View for Link {
    type V = LinkView;

    open spec fn view(&self) -> LinkView {
        LinkView { slot: self.slot, target: self.target@, name: self.name@ }
    }
}

/// The links in `links`, each as plain text.
pub open spec fn link_views(links: Seq<Link>) -> Seq<LinkView> {
    links.map_values(|l: Link| l@)
}

/// One step of a scan: a link that was found, or a failure.
pub type Step = Result<LinkView, Failure>;

/// An outcome of [`entry_outcome`] as a step of the scan of `slot`'s index.
pub open spec fn step_of(slot: Slot, outcome: Result<(Seq<char>, Seq<char>), Failure>) -> Step {
    match outcome {
        Ok(pair) => Ok(LinkView { slot, target: pair.0, name: pair.1 }),
        Err(failure) => Err(failure),
    }
}

/// What a scan of the directory `dir` for `slot` meets, in order: nothing
/// where the directory is absent, one failure where it cannot be listed,
/// else one step for each of its links.
pub open spec fn walk(slot: Slot, dir: Seq<char>, read: DirRead) -> Seq<Step> {
    match read {
        DirRead::Absent => Seq::empty(),
        DirRead::Unreadable(cause) => seq![Err(Failure::ReadDir(dir, cause))],
        DirRead::Entries(entries) => Seq::new(
            entries@.len(),
            |i: int| step_of(slot, entry_outcome(dir, entries@[i])),
        ),
    }
}

/// What a scan of `pass` meets: that of the directory of its slot.
pub open spec fn pass_walk(pass: (Slot, DirRead)) -> Seq<Step> {
    walk(pass.0, pass.0.directory_spec(), pass.1)
}

/// What a scan of `passes` meets, one pass after the other.
pub open spec fn walk_all(passes: Seq<(Slot, DirRead)>) -> Seq<Step>
    decreases passes.len(),
{
    if passes.len() == 0 {
        Seq::empty()
    } else {
        walk_all(passes.drop_last()) + pass_walk(passes.last())
    }
}

/// The first failure among `steps`, if there is one.
pub open spec fn first_failure(steps: Seq<Step>) -> Option<Failure>
    decreases steps.len(),
{
    if steps.len() == 0 {
        None
    } else {
        match steps[0] {
            Err(failure) => Some(failure),
            Ok(_) => first_failure(steps.drop_first()),
        }
    }
}

/// The links that come before the first failure among `steps`: all of them
/// where there is no failure.
pub open spec fn links_met(steps: Seq<Step>) -> Seq<LinkView>
    decreases steps.len(),
{
    if steps.len() == 0 {
        Seq::empty()
    } else {
        match steps[0] {
            Err(_) => Seq::empty(),
            Ok(link) => seq![link] + links_met(steps.drop_first()),
        }
    }
}

/// A scan of one step: it fails if the step is a failure, and meets the
/// link if it is one.
pub proof fn lemma_single_step(step: Step)
    ensures
        first_failure(seq![step]) == match step {
            Err(failure) => Some(failure),
            Ok(_) => None,
        },
        links_met(seq![step]) == match step {
            Err(_) => Seq::<LinkView>::empty(),
            Ok(link) => seq![link],
        },
{
    let rest = seq![step].drop_first();
    assert(first_failure(rest) is None);
    assert(links_met(rest) =~= Seq::<LinkView>::empty());
}

/// A scan of `a` and then `b` fails where `a` fails, else where `b` does.
pub proof fn lemma_first_failure_concat(a: Seq<Step>, b: Seq<Step>)
    ensures
        first_failure(a + b) == match first_failure(a) {
            Some(failure) => Some(failure),
            None => first_failure(b),
        },
    decreases a.len(),
{
    if a.len() > 0 {
        assert((a + b).drop_first() =~= a.drop_first() + b);
        lemma_first_failure_concat(a.drop_first(), b);
    }
}

/// A scan of `a` and then `b` meets the links of `a` and, where `a` does not
/// fail, those of `b` after them.
pub proof fn lemma_links_met_concat(a: Seq<Step>, b: Seq<Step>)
    ensures
        links_met(a + b) == if first_failure(a) is Some {
            links_met(a)
        } else {
            links_met(a) + links_met(b)
        },
    decreases a.len(),
{
    if a.len() > 0 {
        assert((a + b).drop_first() =~= a.drop_first() + b);
        lemma_links_met_concat(a.drop_first(), b);
    }
}

/// Scans the directory `dir` for `slot` and adds the links that it meets
/// to `links`, up to the first failure, which it returns.
pub fn scan_pass(slot: Slot, dir: &str, read: DirRead, links: &mut Vec<Link>) -> (r: Result<
    (),
    LsblkError,
>)
    ensures
        link_views(final(links)@) == link_views(old(links)@) + links_met(walk(slot, dir@, read)),
        match first_failure(walk(slot, dir@, read)) {
            Some(failure) => r is Err && r->Err_0@ == failure,
            None => r is Ok,
        },
{
    let ghost steps = walk(slot, dir@, read);
    let items = match ls_symlinks(dir, read) {
        Ok(items) => items,
        Err(e) => {
            return Err(e);
        },
    };
    for item in it: items.into_iter()
        invariant
            it.seq() == items@,
            steps == walk(slot, dir@, read),
            steps.len() == items.len(),
            forall|i: int| 0 <= i < items.len() ==> steps[i] == step_of(slot, item_view(items[i])),
            first_failure(steps.take(it.index() as int)) is None,
            link_views(links@) == link_views(old(links)@) + links_met(
                steps.take(it.index() as int),
            ),
    {
        let ghost k = it.index() as int;
        let ghost before = steps.take(k);
        proof {
            assert(steps.take(k + 1) =~= before + seq![steps[k]]);
            assert(steps =~= steps.take(k + 1) + steps.skip(k + 1));
            lemma_first_failure_concat(before, seq![steps[k]]);
            lemma_links_met_concat(before, seq![steps[k]]);
            lemma_first_failure_concat(steps.take(k + 1), steps.skip(k + 1));
            lemma_links_met_concat(steps.take(k + 1), steps.skip(k + 1));
            lemma_single_step(steps[k]);
        }
        match item {
            Ok((target, name)) => {
                let ghost earlier = links@;
                links.push(Link { slot, target, name });
                proof {
                    let link = steps[k]->Ok_0;
                    assert(link_views(links@) =~= link_views(earlier).push(link));
                }
            },
            Err(e) => {
                return Err(e);
            },
        }
    }
    assert(steps.take(items.len() as int) =~= steps);
    Ok(())
}

/// What a scan of the passes `a` and then `b` meets is what the scan of `a`
/// meets and then what that of `b` meets.
pub proof fn lemma_walk_all_concat(a: Seq<(Slot, DirRead)>, b: Seq<(Slot, DirRead)>)
    ensures
        walk_all(a + b) == walk_all(a) + walk_all(b),
    decreases b.len(),
{
    if b.len() > 0 {
        assert((a + b).drop_last() =~= a + b.drop_last());
        lemma_walk_all_concat(a, b.drop_last());
    }
}

/// What a scan of the one pass `pass` meets.
pub proof fn lemma_walk_all_single(pass: (Slot, DirRead))
    ensures
        walk_all(seq![pass]) == pass_walk(pass),
{
    let one = seq![pass];
    assert(walk_all(one.drop_last()) =~= Seq::<Step>::empty());
}

/// Scans `passes` one after the other, each in the directory of its slot,
/// and adds the links that the scan meets to `links`, up to the first
/// failure, which it returns.
pub fn scan_passes(passes: Vec<(Slot, DirRead)>, links: &mut Vec<Link>) -> (r: Result<
    (),
    LsblkError,
>)
    ensures
        link_views(final(links)@) == link_views(old(links)@) + links_met(walk_all(passes@)),
        match first_failure(walk_all(passes@)) {
            Some(failure) => r is Err && r->Err_0@ == failure,
            None => r is Ok,
        },
{
    let ghost all = passes@;
    for pass in it: passes.into_iter()
        invariant
            it.seq() == all,
            all == passes@,
            first_failure(walk_all(all.take(it.index() as int))) is None,
            link_views(links@) == link_views(old(links)@) + links_met(
                walk_all(all.take(it.index() as int)),
            ),
    {
        let ghost k = it.index() as int;
        let ghost done = walk_all(all.take(k));
        let ghost this = pass_walk(pass);
        proof {
            assert(all.take(k + 1) =~= all.take(k) + seq![pass]);
            assert(all =~= all.take(k + 1) + all.skip(k + 1));
            lemma_walk_all_concat(all.take(k), seq![pass]);
            lemma_walk_all_single(pass);
            lemma_walk_all_concat(all.take(k + 1), all.skip(k + 1));
            lemma_first_failure_concat(done, this);
            lemma_links_met_concat(done, this);
            lemma_first_failure_concat(done + this, walk_all(all.skip(k + 1)));
            lemma_links_met_concat(done + this, walk_all(all.skip(k + 1)));
        }
        let (slot, read) = pass;
        let outcome = scan_pass(slot, slot.directory(), read, links);
        match outcome {
            Ok(()) => {},
            Err(e) => {
                return Err(e);
            },
        }
    }
    assert(all.take(passes.len() as int) =~= all);
    Ok(())
}

} // verus!
