//! The symlink indexes under `/dev/disk`: what listing one directory gave,
//! the symbolic links among its entries, and the links or failures that a
//! scan of it meets, in order.
use vstd::prelude::*;
use vstd::string::StringExecFns;
use vstd::string::StrSliceExecFns;
use crate::error::Failure;
use crate::error::LsblkError;

verus! {

/// One attribute of a block device, and with it the index that names the
/// device by that attribute.
#[derive(Clone, Copy, Debug, PartialEq, Eq, Hash, Structural)]
pub enum Slot {
    Diskseq,
    Path,
    Uuid,
    Partuuid,
    Label,
    Partlabel,
    Id,
}

impl Slot {
    /// The directory that holds the index of this slot.
    pub open spec fn directory_spec(self) -> Seq<char> {
        match self {
            Slot::Diskseq => "/dev/disk/by-diskseq"@,
            Slot::Path => "/dev/disk/by-path"@,
            Slot::Uuid => "/dev/disk/by-uuid"@,
            Slot::Partuuid => "/dev/disk/by-partuuid"@,
            Slot::Label => "/dev/disk/by-label"@,
            Slot::Partlabel => "/dev/disk/by-partlabel"@,
            Slot::Id => "/dev/disk/by-id"@,
        }
    }

    /// The six slots that a listing fills after the identity-defining index,
    /// in the order in which it scans their indexes.
    pub open spec fn attributes_spec() -> Seq<Slot> {
        seq![Slot::Path, Slot::Uuid, Slot::Partuuid, Slot::Label, Slot::Partlabel, Slot::Id]
    }

    /// The six slots that a listing fills after the identity-defining index,
    /// in the order in which it scans their indexes.
    pub fn attributes() -> (slots: Vec<Slot>)
        ensures
            slots@ == Slot::attributes_spec(),
    {
        vec![Slot::Path, Slot::Uuid, Slot::Partuuid, Slot::Label, Slot::Partlabel, Slot::Id]
    }

    /// All seven slots, in the order in which a resolution scans their
    /// indexes: the identity-defining one first.
    pub fn all() -> (slots: Vec<Slot>)
        ensures
            slots@ == seq![Slot::Diskseq] + Slot::attributes_spec(),
    {
        vec![
            Slot::Diskseq,
            Slot::Path,
            Slot::Uuid,
            Slot::Partuuid,
            Slot::Label,
            Slot::Partlabel,
            Slot::Id,
        ]
    }

    /// The directory that holds the index of this slot.
    pub fn directory(self) -> (dir: &'static str)
        ensures
            dir@ == self.directory_spec(),
    {
        match self {
            Slot::Diskseq => "/dev/disk/by-diskseq",
            Slot::Path => "/dev/disk/by-path",
            Slot::Uuid => "/dev/disk/by-uuid",
            Slot::Partuuid => "/dev/disk/by-partuuid",
            Slot::Label => "/dev/disk/by-label",
            Slot::Partlabel => "/dev/disk/by-partlabel",
            Slot::Id => "/dev/disk/by-id",
        }
    }
}

/// One symbolic link as it was read: its file name, and the canonical path
/// of what it points at, or why that could not be had.
#[derive(Debug)]
pub struct LinkRead {
    pub name: String,
    pub target: Result<String, std::io::Error>,
}

/// The symbolic links of one index directory: what [`DirRead::from_listing`]
/// keeps of a listing.
#[derive(Debug)]
pub enum DirRead {
    /// There is no such directory.
    Absent,
    /// The directory is there and cannot be listed.
    Unreadable(std::io::Error),
    /// The symbolic links in it, in the order in which they were read.
    Entries(Vec<LinkRead>),
}

/// One entry of a directory as it was read: its file name, what a stat of
/// the entry itself said, and the canonical path of the entry.
#[derive(Debug)]
pub struct EntryRead {
    pub name: String,
    /// Whether the entry is a symbolic link, or why its metadata could not
    /// be read.
    pub symlink: Result<bool, std::io::Error>,
    /// The canonical path of what the entry points at, or why that could
    /// not be had.
    pub target: Result<String, std::io::Error>,
}

/// What listing one index directory gave, entry by entry.
#[derive(Debug)]
pub enum DirListing {
    /// There is no such directory.
    Absent,
    /// The directory is there and cannot be listed.
    Unreadable(std::io::Error),
    /// Its entries in the order in which they were read, each as it was
    /// read, or why it could not be.
    Entries(Vec<Result<EntryRead, std::io::Error>>),
}

/// Whether `entry` counts as a link of the index: it could be read, and the
/// stat of it could be had and says that it is a symbolic link.
pub open spec fn is_link(entry: Result<EntryRead, std::io::Error>) -> bool {
    entry is Ok && entry->Ok_0.symlink is Ok && entry->Ok_0.symlink->Ok_0
}

/// The symbolic links among `entries`, in their order. Entries that could
/// not be read, entries whose metadata could not be read, and entries that
/// are no symbolic links are passed over.
pub open spec fn links_among(entries: Seq<Result<EntryRead, std::io::Error>>) -> Seq<LinkRead>
    decreases entries.len(),
{
    if entries.len() == 0 {
        Seq::empty()
    } else if is_link(entries.last()) {
        links_among(entries.drop_last()).push(
            LinkRead { name: entries.last()->Ok_0.name, target: entries.last()->Ok_0.target },
        )
    } else {
        links_among(entries.drop_last())
    }
}

impl DirRead {
    /// The symbolic links of a directory, from what listing it gave: an
    /// absent directory stays absent, one that cannot be listed stays so,
    /// and of the entries only the symbolic links are kept, in their order.
    pub fn from_listing(listing: DirListing) -> (read: DirRead)
        ensures
            match listing {
                DirListing::Absent => read is Absent,
                DirListing::Unreadable(cause) => read == DirRead::Unreadable(cause),
                DirListing::Entries(entries) => read matches DirRead::Entries(links) && links@
                    == links_among(entries@),
            },
    {
        match listing {
            DirListing::Absent => DirRead::Absent,
            DirListing::Unreadable(cause) => DirRead::Unreadable(cause),
            DirListing::Entries(entries) => {
                let mut links: Vec<LinkRead> = Vec::new();
                for entry in it: entries.into_iter()
                    invariant
                        it.seq() == entries@,
                        links@ == links_among(entries@.take(it.index() as int)),
                {
                    let ghost k = it.index() as int;
                    assert(entries@.take(k + 1).drop_last() =~= entries@.take(k));
                    match entry {
                        Ok(EntryRead { name, symlink: Ok(true), target }) => {
                            links.push(LinkRead { name, target });
                        },
                        _ => {},
                    }
                }
                assert(entries@.take(entries.len() as int) =~= entries@);
                DirRead::Entries(links)
            },
        }
    }
}

/// The path of the entry `name` in the directory `dir`: a separator comes
/// between the two unless `dir` is empty or ends in one.
pub open spec fn entry_path(dir: Seq<char>, name: Seq<char>) -> Seq<char> {
    if dir.len() > 0 && dir.last() != '/' {
        dir + seq!['/'] + name
    } else {
        dir + name
    }
}

/// What one entry of the directory `dir` comes to: its target and name, or
/// the failure to resolve it, which names the entry's own path.
pub open spec fn entry_outcome(dir: Seq<char>, entry: LinkRead) -> Result<
    (Seq<char>, Seq<char>),
    Failure,
> {
    match entry.target {
        Ok(target) => Ok((target@, entry.name@)),
        Err(cause) => Err(Failure::BadSymlink(entry_path(dir, entry.name@), cause)),
    }
}

/// What an item that [`ls_symlinks`] yields says.
pub open spec fn item_view(item: Result<(String, String), LsblkError>) -> Result<
    (Seq<char>, Seq<char>),
    Failure,
> {
    match item {
        Ok(pair) => Ok((pair.0@, pair.1@)),
        Err(e) => Err(e@),
    }
}

/// The path of the entry `name` in the directory `dir`.
fn path_of_entry(dir: &str, name: &str) -> (path: String)
    ensures
        path@ == entry_path(dir@, name@),
{
    let n: usize = dir.unicode_len();
    let mut path = String::from_str(dir);
    if n > 0 && dir.get_char(n - 1) != '/' {
        proof {
            reveal_strlit("/");
        }
        path.append("/");
    }
    path.append(name);
    path
}

/// The links of the directory `dir`, each with its canonical target and its
/// name, from what reading the directory gave. An absent directory has no
/// links; one that cannot be listed is a failure of the whole; a link that
/// cannot be resolved is a failure of its own, in its place.
pub fn ls_symlinks(dir: &str, read: DirRead) -> (r: Result<
    Vec<Result<(String, String), LsblkError>>,
    LsblkError,
>)
    ensures
        match read {
            DirRead::Absent => r is Ok && r->Ok_0.len() == 0,
            DirRead::Unreadable(cause) => r is Err && r->Err_0@ == Failure::ReadDir(dir@, cause),
            DirRead::Entries(entries) => {
                &&& r is Ok
                &&& r->Ok_0.len() == entries.len()
                &&& forall|i: int|
                    0 <= i < entries.len() ==> item_view(#[trigger] r->Ok_0[i]) == entry_outcome(
                        dir@,
                        entries[i],
                    )
            },
        },
{
    match read {
        DirRead::Absent => Ok(Vec::new()),
        DirRead::Unreadable(cause) => Err(LsblkError::ReadDir(String::from_str(dir), cause)),
        DirRead::Entries(entries) => {
            let mut items: Vec<Result<(String, String), LsblkError>> = Vec::new();
            for entry in it: entries.into_iter()
                invariant
                    it.seq() == entries@,
                    items.len() == it.index(),
                    forall|i: int|
                        0 <= i < items.len() ==> item_view(#[trigger] items[i]) == entry_outcome(
                            dir@,
                            entries[i],
                        ),
            {
                let LinkRead { name, target } = entry;
                let item = match target {
                    Ok(dest) => Ok((dest, name)),
                    Err(cause) => Err(
                        LsblkError::BadSymlink(path_of_entry(dir, name.as_str()), cause),
                    ),
                };
                items.push(item);
            }
            Ok(items)
        },
    }
}

} // verus!
