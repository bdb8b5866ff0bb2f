//! The mount table: one record for each well-formed line of `/proc/mounts`.
use vstd::prelude::*;
use vstd::string::StrSliceExecFns;
use crate::error::Failure;
use crate::error::LsblkError;
use crate::text::chars_of;
use crate::text::find_char;
use crate::text::first_index;
use crate::text::has_suffix;
use crate::text::split;
use crate::text::split_ranges;
use crate::text::trim_end_matches;
use crate::text::trimmed_len;

verus! {

/// The file that holds the mount table.
pub const MOUNT_TABLE: &'static str = "/proc/mounts";

/// A mountpoint.
#[derive(Debug)]
pub struct Mount {
    /// The device as the kernel writes it: a path, or a name such as `zram0`.
    pub device: String,
    /// The directory that the device is mounted at.
    pub mountpoint: String,
    /// The type of the filesystem.
    pub fstype: String,
    /// The mount options, joined by commas.
    pub mountopts: String,
}

/// A [`Mount`] as plain text.
pub struct MountView {
    pub device: Seq<char>,
    pub mountpoint: Seq<char>,
    pub fstype: Seq<char>,
    pub mountopts: Seq<char>,
}

impl View for Mount {
    type V = MountView;

    open spec fn view(&self) -> MountView {
        MountView {
            device: self.device@,
            mountpoint: self.mountpoint@,
            fstype: self.fstype@,
            mountopts: self.mountopts@,
        }
    }
}

impl Clone for Mount {
    fn clone(&self) -> (copy: Mount)
        ensures
            copy == *self,
    {
        Mount {
            device: self.device.clone(),
            mountpoint: self.mountpoint.clone(),
            fstype: self.fstype.clone(),
            mountopts: self.mountopts.clone(),
        }
    }
}

impl Default for Mount {
    fn default() -> (mount: Mount)
        ensures
            mount@ == (MountView {
                device: Seq::empty(),
                mountpoint: Seq::empty(),
                fstype: Seq::empty(),
                mountopts: Seq::empty(),
            }),
    {
        Mount {
            device: String::new(),
            mountpoint: String::new(),
            fstype: String::new(),
            mountopts: String::new(),
        }
    }
}

/// The record that one line of the mount table comes to. The two closing
/// fields ` 0 0` are taken off the end of the line as often as they stand
/// there, and what is left is split at each single space: the first four
/// fields are the device, the mountpoint, the type of the filesystem and
/// the options, as they stand. A line with fewer fields gives no record.
///
/// So a line whose type and options are both `0` loses them with the
/// closing fields: `dev /mnt 0 0 0 0` is left as `dev /mnt` and gives no
/// record, and `dev /mnt ext4 rw 0 0 0 0` gives the same record as
/// `dev /mnt ext4 rw 0 0`.
pub open spec fn parse_line(line: Seq<char>) -> Option<MountView> {
    let fields = split(trim_end_matches(line, " 0 0"@), ' ');
    if fields.len() >= 4 {
        Some(
            MountView {
                device: fields[0],
                mountpoint: fields[1],
                fstype: fields[2],
                mountopts: fields[3],
            },
        )
    } else {
        None
    }
}

/// The records of the lines `lines`, in order, without the lines that give
/// none.
pub open spec fn parse_lines(lines: Seq<Seq<char>>) -> Seq<MountView>
    decreases lines.len(),
{
    if lines.len() == 0 {
        Seq::empty()
    } else {
        match parse_line(lines.last()) {
            Some(mount) => parse_lines(lines.drop_last()).push(mount),
            None => parse_lines(lines.drop_last()),
        }
    }
}

/// The records of the lines `a` and then `b` are those of `a` and then
/// those of `b`.
pub proof fn lemma_parse_lines_concat(a: Seq<Seq<char>>, b: Seq<Seq<char>>)
    ensures
        parse_lines(a + b) == parse_lines(a) + parse_lines(b),
    decreases b.len(),
{
    if b.len() == 0 {
    } else {
        assert((a + b).drop_last() =~= a + b.drop_last());
        lemma_parse_lines_concat(a, b.drop_last());
    }
}

/// A line with fewer than four fields is passed over, and the lines after
/// it are read as if it were not there.
pub proof fn lemma_short_line_is_skipped(
    before: Seq<Seq<char>>,
    line: Seq<char>,
    after: Seq<Seq<char>>,
)
    requires
        split(trim_end_matches(line, " 0 0"@), ' ').len() < 4,
    ensures
        parse_lines(before.push(line) + after) == parse_lines(before + after),
{
    lemma_parse_lines_concat(before.push(line), after);
    lemma_parse_lines_concat(before, after);
    assert(before.push(line).drop_last() =~= before);
}

/// The line that the mount table holds for `mount`: its four fields and
/// the two closing fields, a single space between each two.
pub open spec fn line_of(mount: MountView) -> Seq<char> {
    mount.device + seq![' '] + mount.mountpoint + seq![' '] + mount.fstype + seq![' ']
        + mount.mountopts + seq![' ', '0', ' ', '0']
}

/// Whether `mount` can be read back from its line: none of its fields
/// holds a space, and its last two are not both `0`, which would read as
/// closing fields.
pub open spec fn readable(mount: MountView) -> bool {
    &&& !mount.device.contains(' ')
    &&& !mount.mountpoint.contains(' ')
    &&& !mount.fstype.contains(' ')
    &&& !mount.mountopts.contains(' ')
    &&& !(mount.fstype == seq!['0'] && mount.mountopts == seq!['0'])
}

/// A record is read back from its line as it was.
pub proof fn lemma_line_round_trip(mount: MountView)
    requires
        readable(mount),
    ensures
        parse_line(line_of(mount)) == Some(mount),
{
    reveal_strlit(" 0 0");
    let sp = seq![' '];
    let closing = seq![' ', '0', ' ', '0'];
    assert(" 0 0"@ =~= closing);
    let f = mount.fstype;
    let o = mount.mountopts;
    let front = mount.device + sp + mount.mountpoint + sp;
    let body = front + f + sp + o;
    let line = line_of(mount);
    assert(line =~= body + closing);
    assert(line.skip(line.len() - 4) =~= closing);
    assert(line.take(line.len() - 4) =~= body);
    assert(!has_suffix(body, closing)) by {
        if has_suffix(body, closing) {
            let n = body.len() as int;
            let tail = body.skip(n - 4);
            assert(tail[0] == ' ' && tail[1] == '0' && tail[2] == ' ' && tail[3] == '0');
            assert(body[n - 4] == tail[0]);
            assert(body[n - 3] == tail[1]);
            assert(body[n - 2] == tail[2]);
            assert(body[n - 1] == tail[3]);
            if o.len() == 0 {
                assert(body[n - 1] == ' ');
            } else if o.len() >= 2 {
                assert(body[n - 2] == o[o.len() - 2]);
                assert(o.contains(o[o.len() - 2]));
            } else {
                assert(body[n - 1] == o[0]);
                assert(o =~= seq!['0']);
                if f.len() == 0 {
                    assert(body[n - 3] == ' ');
                } else if f.len() >= 2 {
                    assert(body[n - 4] == f[f.len() - 2]);
                    assert(f.contains(f[f.len() - 2]));
                } else {
                    assert(body[n - 3] == f[0]);
                    assert(f =~= seq!['0']);
                }
            }
        }
    }
    assert(trim_end_matches(body, closing) == body);
    assert(trim_end_matches(line, closing) == body);
    let after_device = mount.mountpoint + sp + f + sp + o;
    let after_mountpoint = f + sp + o;
    assert(body =~= mount.device + sp + after_device);
    assert(after_device =~= mount.mountpoint + sp + after_mountpoint);
    crate::text::lemma_split_field(mount.device, ' ', after_device);
    crate::text::lemma_split_field(mount.mountpoint, ' ', after_mountpoint);
    crate::text::lemma_split_field(f, ' ', o);
    crate::text::lemma_split_last(o, ' ');
    let fields = split(body, ' ');
    assert(fields =~= seq![mount.device, mount.mountpoint, f, o]);
}

/// How many of `lines` were read before the first that could not be: all
/// of them where each could.
pub open spec fn first_unread(lines: Seq<Result<String, std::io::Error>>) -> int
    decreases lines.len(),
{
    if lines.len() == 0 || lines[0] is Err {
        0
    } else {
        1 + first_unread(lines.drop_first())
    }
}

/// The lines that count: those that come before the first that could not
/// be read, each as plain text.
pub open spec fn lines_read(lines: Seq<Result<String, std::io::Error>>) -> Seq<Seq<char>> {
    Seq::new(first_unread(lines) as nat, |i: int| lines[i]->Ok_0@)
}

/// `k` lines were read before the first that could not be if each of the
/// first `k` could, and the one after them could not or there is none.
pub proof fn lemma_first_unread(lines: Seq<Result<String, std::io::Error>>, k: int)
    requires
        0 <= k <= lines.len(),
        forall|j: int| 0 <= j < k ==> lines[j] is Ok,
        k == lines.len() || lines[k] is Err,
    ensures
        first_unread(lines) == k,
    decreases k,
{
    if k > 0 {
        let rest = lines.drop_first();
        assert forall|j: int| 0 <= j < k - 1 implies rest[j] is Ok by {
            assert(rest[j] == lines[j + 1]);
        }
        lemma_first_unread(rest, k - 1);
    }
}

/// The records in `mounts`, each as plain text.
pub open spec fn mount_views(mounts: Seq<Mount>) -> Seq<MountView> {
    mounts.map_values(|m: Mount| m@)
}

/// One mount option: its key, and its value where it has one. The value is
/// what follows the first `=`.
pub open spec fn option_of(token: Seq<char>) -> (Seq<char>, Option<Seq<char>>) {
    let i = first_index(token, '=');
    if 0 <= i < token.len() {
        (token.take(i), Some(token.skip(i + 1)))
    } else {
        (token, None)
    }
}

/// An option of the form `key=value` has that key and that value: the key
/// ends at the first `=`, and the value may hold more of them.
pub proof fn lemma_option_with_value(key: Seq<char>, value: Seq<char>)
    requires
        !key.contains('='),
    ensures
        option_of(key + seq!['='] + value) == (key, Some(value)),
{
    let token = key + seq!['='] + value;
    crate::text::lemma_first_index(token, '=', key.len() as int);
}

/// An option without `=` is a key without a value.
pub proof fn lemma_option_without_value(key: Seq<char>)
    requires
        !key.contains('='),
    ensures
        option_of(key) == (key, None::<Seq<char>>),
{
    crate::text::lemma_first_index(key, '=', key.len() as int);
}

/// What a mount option as returned says.
pub open spec fn option_view(option: (&str, Option<&str>)) -> (Seq<char>, Option<Seq<char>>) {
    (
        option.0@,
        match option.1 {
            Some(value) => Some(value@),
            None => None,
        },
    )
}

impl Mount {
    /// The record of one line of the mount table, if the line has the four
    /// fields of one once its closing fields ` 0 0` are taken off, as often
    /// as they stand at its end: see [`parse_line`].
    pub fn parse(line: &str) -> (mount: Option<Mount>)
        ensures
            match parse_line(line@) {
                Some(view) => mount is Some && mount->Some_0@ == view,
                None => mount is None,
            },
    {
        let mut chars = chars_of(line);
        let closing = chars_of(" 0 0");
        let end: usize = trimmed_len(&chars, &closing);
        chars.truncate(end);
        let ranges = split_ranges(&chars, ' ');
        if ranges.len() < 4 {
            return None;
        }
        proof {
            let kept = line@.take(end as int);
            assert forall|k: int| 0 <= k < 4 implies split(kept, ' ')[k] == line@.subrange(
                ranges[k].0 as int,
                ranges[k].1 as int,
            ) by {
                assert(kept.subrange(ranges[k].0 as int, ranges[k].1 as int) =~= line@.subrange(
                    ranges[k].0 as int,
                    ranges[k].1 as int,
                ));
            }
        }
        Some(
            Mount {
                device: line.substring_char(ranges[0].0, ranges[0].1).to_owned(),
                mountpoint: line.substring_char(ranges[1].0, ranges[1].1).to_owned(),
                fstype: line.substring_char(ranges[2].0, ranges[2].1).to_owned(),
                mountopts: line.substring_char(ranges[3].0, ranges[3].1).to_owned(),
            },
        )
    }

    /// All mountpoints, from the lines of [`MOUNT_TABLE`] as they were read,
    /// or the reason why the file could not be opened: that is a failure.
    /// The listing ends without failure before the first line that could
    /// not be read. Of the lines before it, each that has the four fields
    /// of a record gives one, in the order of the lines; the others are
    /// passed over.
    pub fn list(opened: Result<Vec<Result<String, std::io::Error>>, std::io::Error>) -> (r: Result<
        Vec<Mount>,
        LsblkError,
    >)
        ensures
            match opened {
                Err(cause) => r is Err && r->Err_0@ == Failure::ReadFile(MOUNT_TABLE@, cause),
                Ok(lines) => r is Ok && mount_views(r->Ok_0@) == parse_lines(lines_read(lines@)),
            },
    {
        let lines = match opened {
            Ok(lines) => lines,
            Err(cause) => {
                return Err(LsblkError::ReadFile(MOUNT_TABLE.to_owned(), cause));
            },
        };
        let mut mounts: Vec<Mount> = Vec::new();
        let ghost mut seen: Seq<Seq<char>> = Seq::empty();
        let mut i: usize = 0;
        while i < lines.len()
            invariant
                i <= lines.len(),
                opened == Ok::<Vec<Result<String, std::io::Error>>, std::io::Error>(lines),
                forall|j: int| 0 <= j < i ==> lines[j] is Ok,
                seen.len() == i,
                forall|j: int| 0 <= j < i ==> seen[j] == lines[j]->Ok_0@,
                mount_views(mounts@) == parse_lines(seen),
            decreases lines.len() - i,
        {
            let line = match &lines[i] {
                Ok(line) => line,
                Err(_) => {
                    proof {
                        lemma_first_unread(lines@, i as int);
                        assert(seen =~= lines_read(lines@));
                    }
                    return Ok(mounts);
                },
            };
            proof {
                assert(seen.push(line@).drop_last() =~= seen);
                seen = seen.push(line@);
            }
            match Mount::parse(line.as_str()) {
                Some(mount) => {
                    mounts.push(mount);
                },
                None => {},
            }
            i += 1;
        }
        proof {
            lemma_first_unread(lines@, lines.len() as int);
            assert(seen =~= lines_read(lines@));
        }
        Ok(mounts)
    }

    /// The mount options, in order: each with its key and, where the option
    /// has the form `key=value`, its value.
    pub fn iter_mountopts(&self) -> (options: Vec<(&str, Option<&str>)>)
        ensures
            options.len() == split(self.mountopts@, ',').len(),
            forall|k: int|
                0 <= k < options.len() ==> option_view(#[trigger] options[k]) == option_of(
                    split(self.mountopts@, ',')[k],
                ),
    {
        let text = self.mountopts.as_str();
        let chars = chars_of(text);
        let ranges = split_ranges(&chars, ',');
        let mut options: Vec<(&str, Option<&str>)> = Vec::new();
        let mut k: usize = 0;
        while k < ranges.len()
            invariant
                k <= ranges.len(),
                chars@ == text@,
                text@ == self.mountopts@,
                options.len() == k,
                ranges.len() == split(text@, ',').len(),
                forall|j: int|
                    0 <= j < ranges.len() ==> {
                        &&& (#[trigger] ranges[j]).0 <= ranges[j].1 <= chars.len()
                        &&& split(text@, ',')[j] == text@.subrange(
                            ranges[j].0 as int,
                            ranges[j].1 as int,
                        )
                    },
                forall|j: int|
                    0 <= j < k ==> option_view(#[trigger] options[j]) == option_of(
                        split(text@, ',')[j],
                    ),
            decreases ranges.len() - k,
        {
            let (from, to) = ranges[k];
            let at: usize = find_char(&chars, from, to, '=');
            let option = if at < to {
                (text.substring_char(from, at), Some(text.substring_char(at + 1, to)))
            } else {
                (text.substring_char(from, to), None)
            };
            options.push(option);
            k += 1;
        }
        options
    }
}

} // verus!
