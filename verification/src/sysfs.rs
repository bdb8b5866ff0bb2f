//! What sysfs says of a device: where its entry is, the disk that a
//! partition lies on, and its capacity.
use vstd::prelude::*;
use vstd::string::StrSliceExecFns;
use vstd::string::StringExecFns;
use crate::blockdevs::attr_view;
use crate::blockdevs::BlockDevice;
use crate::numbers::decimal;
use crate::numbers::digits_to_u64;
use crate::numbers::parse_u64;
use crate::numbers::push_decimal;
use crate::text::chars_of;
use crate::text::first_index;
use crate::text::has_prefix;

verus! {

/// The major number in the device number `rdev`: its bits 8 to 19, and
/// above them its bits 44 to 63.
pub open spec fn major_of(rdev: u64) -> u32 {
    ((rdev / 0x100) % 0x1000 + (rdev / 0x1000_0000_0000) * 0x1000) as u32
}

/// The minor number in the device number `rdev`: its bits 0 to 7, and
/// above them its bits 20 to 43.
pub open spec fn minor_of(rdev: u64) -> u32 {
    (rdev % 0x100 + ((rdev / 0x10_0000) % 0x100_0000) * 0x100) as u32
}

/// The path of the sysfs entry of the block device `major`:`minor`.
pub open spec fn sysfs_path(major: u32, minor: u32) -> Seq<char> {
    "/sys/dev/block/"@ + decimal(major as nat) + seq![':'] + decimal(minor as nat) + seq!['/']
}

/// `text` without the newline that ends it, if one does: one newline is
/// taken off, and no other character.
pub open spec fn without_newline(text: Seq<char>) -> Seq<char> {
    if text.len() > 0 && text.last() == '\n' {
        text.drop_last()
    } else {
        text
    }
}

/// The directory in sysfs that holds one entry for each disk.
pub const DISKS_DIRECTORY: &'static str = "/sys/block";

/// The last component of `path`: what follows its last `/`, or all of it
/// where it has none.
pub open spec fn file_name(path: Seq<char>) -> Seq<char>
    decreases path.len(),
{
    let i = first_index(path, '/');
    if 0 <= i < path.len() {
        file_name(path.skip(i + 1))
    } else {
        path
    }
}

/// Whether `path` ends in the name of a file: its last component is not
/// empty and is neither `.` nor `..`.
pub open spec fn names_a_file(path: Seq<char>) -> bool {
    let last = file_name(path);
    last.len() > 0 && last != seq!['.'] && last != seq!['.', '.']
}

/// The first of the disks `disks` whose name `name` begins with. A disk
/// whose name could not be read ends the search with nothing.
pub open spec fn disk_by_prefix(name: Seq<char>, disks: Seq<Option<String>>) -> Option<Seq<char>>
    decreases disks.len(),
{
    if disks.len() == 0 {
        None
    } else {
        match disks[0] {
            None => None,
            Some(disk) => if has_prefix(name, disk@) {
                Some(disk@)
            } else {
                disk_by_prefix(name, disks.drop_first())
            },
        }
    }
}

/// The index in `s` at which its last component begins.
fn file_name_start(s: &Vec<char>) -> (start: usize)
    ensures
        start <= s.len(),
        file_name(s@) == s@.skip(start as int),
{
    let mut start: usize = 0;
    assert(s@.skip(0) =~= s@);
    loop
        invariant
            start <= s.len(),
            file_name(s@) == file_name(s@.skip(start as int)),
        decreases s.len() - start,
    {
        let at: usize = crate::text::find_char(s, start, s.len(), '/');
        if at == s.len() {
            return start;
        }
        proof {
            assert(s@.skip(start as int).skip(at - start + 1) =~= s@.skip(at + 1));
        }
        start = at + 1;
    }
}

/// Whether `path` ends in the name of a file.
pub fn ends_in_file_name(path: &str) -> (b: bool)
    ensures
        b == names_a_file(path@),
{
    let chars = chars_of(path);
    let start: usize = file_name_start(&chars);
    let n: usize = chars.len() - start;
    let ghost last = chars@.skip(start as int);
    proof {
        let dot = seq!['.'];
        let dots = seq!['.', '.'];
        if n == 1 {
            if last[0] == '.' {
                assert(last =~= dot);
            }
        }
        if n == 2 {
            if last[0] == '.' && last[1] == '.' {
                assert(last =~= dots);
            }
        }
    }
    if n == 0 {
        false
    } else if n == 1 {
        chars[start] != '.'
    } else if n == 2 {
        !(chars[start] == '.' && chars[start + 1] == '.')
    } else {
        true
    }
}

impl BlockDevice {
    /// The major and minor numbers of the device, from the device number
    /// `rdev` that a stat of its node gave, or the reason why it gave none.
    pub fn major_minor(rdev: Result<u64, std::io::Error>) -> (r: Result<(u32, u32), std::io::Error>)
        ensures
            match rdev {
                Ok(rdev) => r == Ok::<(u32, u32), std::io::Error>((major_of(rdev), minor_of(rdev))),
                Err(cause) => r == Err::<(u32, u32), std::io::Error>(cause),
            },
    {
        let rdev: u64 = match rdev {
            Ok(rdev) => rdev,
            Err(cause) => {
                return Err(cause);
            },
        };
        let major: u64 = ((rdev >> 32) & 0xffff_f000) | ((rdev >> 8) & 0x0000_0fff);
        let minor: u64 = ((rdev >> 12) & 0xffff_ff00) | (rdev & 0x0000_00ff);
        assert(major == (rdev / 0x100) % 0x1000 + (rdev / 0x1000_0000_0000) * 0x1000 && major
            <= 0xffff_ffff) by (bit_vector)
            requires
                major == ((rdev >> 32) & 0xffff_f000) | ((rdev >> 8) & 0x0000_0fff),
        ;
        assert(minor == rdev % 0x100 + ((rdev / 0x10_0000) % 0x100_0000) * 0x100 && minor
            <= 0xffff_ffff) by (bit_vector)
            requires
                minor == ((rdev >> 12) & 0xffff_ff00) | (rdev & 0x0000_00ff),
        ;
        Ok((major as u32, minor as u32))
    }

    /// The path of the device's entry in sysfs, `/sys/dev/block/` with the
    /// major and the minor number in decimal, from the device number that a
    /// stat of its node gave, or the reason why it gave none.
    pub fn sysfs(rdev: Result<u64, std::io::Error>) -> (r: Result<String, std::io::Error>)
        ensures
            match rdev {
                Ok(rdev) => r is Ok && r->Ok_0@ == sysfs_path(major_of(rdev), minor_of(rdev)),
                Err(cause) => r == Err::<String, std::io::Error>(cause),
            },
    {
        let (major, minor) = match BlockDevice::major_minor(rdev) {
            Ok(pair) => pair,
            Err(cause) => {
                return Err(cause);
            },
        };
        proof {
            reveal_strlit(":");
            reveal_strlit("/");
        }
        let mut path = String::from_str("/sys/dev/block/");
        push_decimal(&mut path, major);
        path.append(":");
        push_decimal(&mut path, minor);
        path.append("/");
        Ok(path)
    }

    /// The path of the file in sysfs that holds the capacity of the device:
    /// `size` in the device's entry. `rdev` is as for [`BlockDevice::sysfs`].
    pub fn size_file(rdev: Result<u64, std::io::Error>) -> (r: Result<String, std::io::Error>)
        ensures
            match rdev {
                Ok(rdev) => r is Ok && r->Ok_0@ == sysfs_path(major_of(rdev), minor_of(rdev))
                    + "size"@,
                Err(cause) => r == Err::<String, std::io::Error>(cause),
            },
    {
        match BlockDevice::sysfs(rdev) {
            Ok(mut path) => {
                path.append("size");
                Ok(path)
            },
            Err(cause) => Err(cause),
        }
    }

    /// The path of the directory above the device's entry in sysfs, as it
    /// stands before it is resolved: `..` in the entry. `rdev` is as for
    /// [`BlockDevice::sysfs`].
    pub fn parent_entry(rdev: Result<u64, std::io::Error>) -> (r: Result<String, std::io::Error>)
        ensures
            match rdev {
                Ok(rdev) => r is Ok && r->Ok_0@ == sysfs_path(major_of(rdev), minor_of(rdev))
                    + ".."@,
                Err(cause) => r == Err::<String, std::io::Error>(cause),
            },
    {
        match BlockDevice::sysfs(rdev) {
            Ok(mut path) => {
                path.append("..");
                Ok(path)
            },
            Err(cause) => Err(cause),
        }
    }

    /// The name of the disk that the device lies on. A device that is no
    /// partition is its own disk, and `parent` is not looked at. For a
    /// partition, `parent` is the canonical path of the directory above its
    /// entry in sysfs ([`BlockDevice::parent_entry`]), whose name is the
    /// disk's, or the reason why that path could not be had.
    pub fn disk_name(&self, parent: Result<String, std::io::Error>) -> (r: Result<
        String,
        std::io::Error,
    >)
        requires
            self@.is_part() && parent is Ok ==> names_a_file(parent->Ok_0@),
        ensures
            if !self@.is_part() {
                r is Ok && r->Ok_0@ == self.name@
            } else {
                match parent {
                    Ok(path) => r is Ok && r->Ok_0@ == file_name(path@),
                    Err(cause) => r == Err::<String, std::io::Error>(cause),
                }
            },
    {
        if !self.is_part() {
            return Ok(self.name.clone());
        }
        let path = match parent {
            Ok(path) => path,
            Err(cause) => {
                return Err(cause);
            },
        };
        let chars = chars_of(path.as_str());
        let start: usize = file_name_start(&chars);
        let name = path.as_str().substring_char(start, chars.len()).to_owned();
        Ok(name)
    }

    /// The name of the disk that the device lies on, by its own name: the
    /// first of the disks in [`DISKS_DIRECTORY`] whose name this device's
    /// name begins with. `disks` is that directory as it was read, each entry
    /// with its name where the entry and its name could be read, or nothing
    /// where the directory could not be listed. There is no answer where
    /// the directory could not be listed, where an entry that could not be
    /// read comes before any such disk, or where there is no such disk.
    ///
    /// This serves where the device's entry in sysfs cannot be had;
    /// [`BlockDevice::disk_name`] goes by that entry.
    pub fn disk_name_by_prefix(&self, disks: Option<Vec<Option<String>>>) -> (r: Option<String>)
        ensures
            attr_view(r) == match disks {
                Some(entries) => disk_by_prefix(self.name@, entries@),
                None => None,
            },
    {
        let entries = match disks {
            Some(entries) => entries,
            None => {
                return None;
            },
        };
        let ghost all = entries@;
        assert(all.skip(0) =~= all);
        for entry in it: entries.into_iter()
            invariant
                it.seq() == all,
                disks == Some(entries),
                all == entries@,
                disk_by_prefix(self.name@, all) == disk_by_prefix(
                    self.name@,
                    all.skip(it.index() as int),
                ),
        {
            let ghost k = it.index() as int;
            proof {
                assert(all.skip(k).drop_first() =~= all.skip(k + 1));
            }
            match entry {
                None => {
                    return None;
                },
                Some(disk) => {
                    if crate::text::starts_with(self.name.as_str(), disk.as_str()) {
                        return Some(disk);
                    }
                },
            }
        }
        None
    }

    /// The capacity of the device in sectors of 512 bytes, from the content
    /// of its `size` file in sysfs ([`BlockDevice::size_file`]), or the
    /// reason why the file could not be read. The content is a decimal
    /// number, with or without the one newline that ends it: that newline
    /// is taken off, and nothing else is. Where what is left is no number
    /// that fits in 64 bits, the capacity is unknown.
    pub fn capacity(content: Result<String, std::io::Error>) -> (r: Result<
        Option<u64>,
        std::io::Error,
    >)
        ensures
            match content {
                Ok(text) => r == Ok::<Option<u64>, std::io::Error>(
                    parse_u64(without_newline(text@)),
                ),
                Err(cause) => r == Err::<Option<u64>, std::io::Error>(cause),
            },
    {
        let text = match content {
            Ok(text) => text,
            Err(cause) => {
                return Err(cause);
            },
        };
        let mut chars = chars_of(text.as_str());
        let n: usize = chars.len();
        if n > 0 && chars[n - 1] == '\n' {
            chars.truncate(n - 1);
        }
        assert(chars@ =~= without_newline(text@));
        if chars.len() > 0 && chars[0] == '+' {
            Ok(digits_to_u64(&chars, 1))
        } else {
            assert(chars@.skip(0) =~= chars@);
            Ok(digits_to_u64(&chars, 0))
        }
    }
}

} // verus!
