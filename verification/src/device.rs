//! Block devices as `lsblk -J -b -O` describes them, and the properties that
//! older `lsblk` leaves out and sysfs supplies.

use vstd::prelude::*;
use crate::num::{IntErrorKind, parse_u64, parse_u64_spec};
use crate::text::{str_eq, trim, trimmed};

verus! {

/// A block device and, through `children`, the devices it holds.
pub struct Device {
    pub name: String,
    pub serial: Option<String>,
    pub model: Option<String>,
    pub partlabel: Option<String>,
    pub parttype: Option<String>,
    pub partuuid: Option<String>,
    pub children: Option<Vec<Device>>,
    pub size: u64,
    pub maj_min: Option<String>,
    /// Not given by older `lsblk`, nor for whole devices.
    pub start: Option<u64>,
    pub label: Option<String>,
    pub fstype: Option<String>,
    pub path: Option<String>,
}

/// The sysfs files read for a device tree: each entry is a path and the
/// text the file held. A path that is absent was not there to read.
pub struct SysfsFiles {
    pub files: Vec<(String, String)>,
}

impl View for SysfsFiles {
    type V = Seq<(Seq<char>, Seq<char>)>;

    open spec fn view(&self) -> Seq<(Seq<char>, Seq<char>)> {
        self.files@.map_values(|p: (String, String)| (p.0@, p.1@))
    }
}

/// The text recorded for `path`: that of its first entry.
pub open spec fn file_lookup(files: Seq<(Seq<char>, Seq<char>)>, path: Seq<char>) -> Option<Seq<char>>
    decreases files.len(),
{
    if files.len() == 0 {
        None
    } else if files[0].0 == path {
        Some(files[0].1)
    } else {
        file_lookup(files.drop_first(), path)
    }
}

/// `/dev/` followed by the name.
pub open spec fn dev_path(name: Seq<char>) -> Seq<char> {
    seq!['/', 'd', 'e', 'v', '/'] + name
}

/// The node of a device without a `path` is `/dev/` followed by its whole
/// name: taking off the prefix gives the name back, so different names give
/// different nodes.
pub proof fn law_dev_path_keeps_name(name: Seq<char>, other: Seq<char>)
    ensures
        dev_path(name).len() == name.len() + 5,
        dev_path(name).take(5) == seq!['/', 'd', 'e', 'v', '/'],
        dev_path(name).skip(5) == name,
        dev_path(name) == dev_path(other) ==> name == other,
{
    assert(dev_path(name).take(5) =~= seq!['/', 'd', 'e', 'v', '/']);
    assert(dev_path(name).skip(5) =~= name);
    assert(dev_path(other).skip(5) =~= other);
}

/// `/sys/dev/block/<maj:min>/start`, where the kernel gives a partition's
/// first sector.
pub open spec fn start_path(maj_min: Seq<char>) -> Seq<char> {
    seq!['/', 's', 'y', 's', '/', 'd', 'e', 'v', '/', 'b', 'l', 'o', 'c', 'k', '/'] + maj_min + seq![
        '/',
        's',
        't',
        'a',
        'r',
        't',
    ]
}

/// What backfilling `start` finds for `d` alone: nothing to do (`start`
/// already given, no `maj:min`, or no sysfs file), or the result of parsing
/// the file's trimmed text.
pub open spec fn start_update(d: Device, files: Seq<(Seq<char>, Seq<char>)>) -> Option<
    Result<u64, IntErrorKind>,
> {
    if d.start is Some {
        None
    } else {
        match d.maj_min {
            None => None,
            Some(m) => match file_lookup(files, start_path(m@)) {
                None => None,
                Some(text) => Some(parse_u64_spec(trim(text))),
            },
        }
    }
}

/// `b` is `a` with `start` replaced by `start` and `children` left aside.
pub open spec fn same_but_start(a: Device, b: Device, start: Option<u64>) -> bool {
    &&& b.name == a.name
    &&& b.serial == a.serial
    &&& b.model == a.model
    &&& b.partlabel == a.partlabel
    &&& b.parttype == a.parttype
    &&& b.partuuid == a.partuuid
    &&& b.size == a.size
    &&& b.maj_min == a.maj_min
    &&& b.start == start
    &&& b.label == a.label
    &&& b.fstype == a.fstype
    &&& b.path == a.path
}

/// The first error that backfilling meets in `d`'s tree, in pre-order.
pub open spec fn tree_error(d: Device, files: Seq<(Seq<char>, Seq<char>)>) -> Option<IntErrorKind>
    decreases d, 1int,
{
    match start_update(d, files) {
        Some(Err(kind)) => Some(kind),
        _ => match d.children {
            None => None,
            Some(v) => seq_error(v@, 0, files),
        },
    }
}

/// The first error that backfilling meets in the trees `s[i..]`.
pub open spec fn seq_error(s: Seq<Device>, i: int, files: Seq<(Seq<char>, Seq<char>)>) -> Option<
    IntErrorKind,
>
    decreases s, s.len() - i,
{
    if i < 0 || i >= s.len() {
        None
    } else {
        match tree_error(s[i], files) {
            Some(kind) => Some(kind),
            None => seq_error(s, i + 1, files),
        }
    }
}

/// `new` is what backfilling leaves of `old`'s tree: devices are visited in
/// pre-order; each that lacks `start` gets it from its sysfs file, where
/// there is one;
/// the first that fails to parse, and all after it, stay as they were.
pub open spec fn tree_backfilled(old: Device, new: Device, files: Seq<(Seq<char>, Seq<char>)>) -> bool
    decreases old, 1int,
{
    match start_update(old, files) {
        Some(Err(_)) => new == old,
        u => {
            &&& same_but_start(
                old,
                new,
                match u {
                    Some(Ok(v)) => Some(v),
                    _ => old.start,
                },
            )
            &&& match old.children {
                None => new.children is None,
                Some(v) => new.children matches Some(w) && seq_backfilled(v@, w@, 0, files),
            }
        },
    }
}

/// `news[i..]` is what backfilling leaves of `olds[i..]`, given that no
/// error came before `i`.
pub open spec fn seq_backfilled(
    olds: Seq<Device>,
    news: Seq<Device>,
    i: int,
    files: Seq<(Seq<char>, Seq<char>)>,
) -> bool
    decreases olds, olds.len() - i,
{
    if i < 0 || i >= olds.len() {
        olds.len() == news.len()
    } else {
        &&& tree_backfilled(olds[i], news[i], files)
        &&& match tree_error(olds[i], files) {
            Some(_) => olds.len() == news.len() && news.skip(i + 1) == olds.skip(i + 1),
            None => seq_backfilled(olds, news, i + 1, files),
        }
    }
}

proof fn lemma_file_lookup_first(files: Seq<(Seq<char>, Seq<char>)>, path: Seq<char>, j: int)
    requires
        0 <= j < files.len(),
        files[j].0 == path,
        forall|i: int| 0 <= i < j ==> files[i].0 != path,
    ensures
        file_lookup(files, path) == Some(files[j].1),
    decreases j,
{
    if j > 0 {
        let rest = files.drop_first();
        assert forall|i: int| 0 <= i < j - 1 implies rest[i].0 != path by {
            assert(rest[i] == files[i + 1]);
        }
        lemma_file_lookup_first(rest, path, j - 1);
    }
}

proof fn lemma_trim_decimal(v: u64)
    ensures
        trim(crate::num::decimal(v as nat)) == crate::num::decimal(v as nat),
        trim(crate::num::decimal(v as nat) + seq!['\n']) == crate::num::decimal(v as nat),
{
    let d = crate::num::decimal(v as nat);
    crate::num::lemma_decimal_digits(v as nat);
    assert(!crate::text::is_ws(d[0]));
    assert(!crate::text::is_ws(d.last()));
    assert(crate::text::trim_start(d) == d);
    assert(crate::text::trim_end(d) == d);
    let dn = d + seq!['\n'];
    assert(dn[0] == d[0]);
    assert(crate::text::trim_start(dn) == dn);
    assert(dn.drop_last() =~= d);
    assert(crate::text::is_ws(dn.last()));
    assert(crate::text::trim_end(dn) == crate::text::trim_end(d));
}

/// A device that lacks `start`, whatever children it holds, gets `start`
/// from the sysfs file named after its `maj:min` when that file holds a
/// decimal number (with or without a final newline): once backfilled, its
/// `start` is that number.
pub proof fn law_backfill_sets_start(
    d: Device,
    files: Seq<(Seq<char>, Seq<char>)>,
    j: int,
    v: u64,
    new: Device,
)
    requires
        d.start is None,
        d.maj_min is Some,
        0 <= j < files.len(),
        files[j].0 == seq!['/', 's', 'y', 's', '/', 'd', 'e', 'v', '/', 'b', 'l', 'o', 'c', 'k', '/']
            + d.maj_min->Some_0@ + seq!['/', 's', 't', 'a', 'r', 't'],
        forall|i: int| 0 <= i < j ==> files[i].0 != files[j].0,
        files[j].1 == crate::num::decimal(v as nat) || files[j].1 == crate::num::decimal(v as nat)
            + seq!['\n'],
        tree_backfilled(d, new, files),
    ensures
        new.start == Some(v),
{
    let m = d.maj_min->Some_0;
    assert(start_path(m@) == files[j].0);
    lemma_file_lookup_first(files, files[j].0, j);
    lemma_trim_decimal(v);
    crate::num::law_parse_decimal_roundtrip(v);
    assert(start_update(d, files) == Some(Ok::<u64, IntErrorKind>(v)));
}

/// The number of devices in `d`'s tree.
pub open spec fn tree_size(d: Device) -> nat
    decreases d, 1int,
{
    match d.children {
        None => 1,
        Some(v) => 1 + seq_size(v@, 0),
    }
}

pub open spec fn seq_size(s: Seq<Device>, i: int) -> nat
    decreases s, s.len() - i,
{
    if i < 0 || i >= s.len() {
        0
    } else {
        tree_size(s[i]) + seq_size(s, i + 1)
    }
}

proof fn lemma_seq_size_member(s: Seq<Device>, i: int, j: int)
    requires
        0 <= i <= j < s.len(),
    ensures
        tree_size(s[j]) <= seq_size(s, i),
    decreases j - i,
{
    if i < j {
        lemma_seq_size_member(s, i + 1, j);
    }
}

proof fn lemma_seq_backfilled(
    olds: Seq<Device>,
    news: Seq<Device>,
    i: int,
    e: int,
    files: Seq<(Seq<char>, Seq<char>)>,
)
    requires
        0 <= i <= e <= olds.len() == news.len(),
        forall|j: int| i <= j < e ==> tree_backfilled(olds[j], #[trigger] news[j], files),
        forall|j: int| i <= j < e ==> tree_error(#[trigger] olds[j], files) is None,
        e < olds.len() ==> tree_backfilled(olds[e], news[e], files),
        e < olds.len() ==> tree_error(olds[e], files) is Some,
        e < olds.len() ==> news.skip(e + 1) == olds.skip(e + 1),
    ensures
        seq_backfilled(olds, news, i, files),
    decreases e - i,
{
    if i < e {
        lemma_seq_backfilled(olds, news, i + 1, e, files);
    }
}

/// Looks `path` up in the files read.
fn file_lookup_exec<'a>(files: &'a SysfsFiles, path: &str) -> (r: Option<&'a String>)
    ensures
        r matches Some(t) ==> file_lookup(files@, path@) == Some(t@),
        r is None ==> file_lookup(files@, path@) is None,
{
    let mut i: usize = 0;
    assert(files@.skip(0) =~= files@);
    while i < files.files.len()
        invariant
            i <= files.files.len(),
            file_lookup(files@, path@) == file_lookup(files@.skip(i as int), path@),
        decreases files.files.len() - i,
    {
        let ghost rest = files@.skip(i as int);
        assert(rest.drop_first() =~= files@.skip(i + 1));
        if str_eq(files.files[i].0.as_str(), path) {
            return Some(&files.files[i].1);
        }
        i = i + 1;
    }
    None
}

/// Why no device came out of a listing.
#[derive(Debug, PartialEq, Eq)]
pub enum ListError {
    /// A sysfs value of a listed device did not parse.
    Backfill(IntErrorKind),
    /// The listing held no device.
    NoDevice,
}

/// Backfills every listed device, in order, then gives the first one, as
/// listing a single device with `lsblk` does.
pub fn first_listed_device(devices: Vec<Device>, files: &SysfsFiles) -> (r: Result<Device, ListError>)
    ensures
        match seq_error(devices@, 0, files@) {
            Some(kind) => r == Err::<Device, ListError>(ListError::Backfill(kind)),
            None => if devices@.len() == 0 {
                r == Err::<Device, ListError>(ListError::NoDevice)
            } else {
                r matches Ok(d) && tree_backfilled(devices@[0], d, files@)
            },
        },
{
    let mut devs = devices;
    let ghost olds = devs@;
    let n = devs.len();
    let mut i: usize = 0;
    assert(devs@.skip(0) =~= olds);
    while i < n
        invariant
            n == olds.len() == devs.len(),
            i <= n,
            olds == devices@,
            devs@.skip(i as int) == olds.skip(i as int),
            seq_error(olds, 0, files@) == seq_error(olds, i as int, files@),
            forall|j: int| 0 <= j < i ==> tree_backfilled(olds[j], #[trigger] devs@[j], files@),
            forall|j: int| 0 <= j < i ==> tree_error(#[trigger] olds[j], files@) is None,
        decreases n - i,
    {
        proof {
            assert(devs@.skip(i as int)[0] == devs@[i as int]);
            assert(olds.skip(i as int)[0] == olds[i as int]);
        }
        let ghost before = devs@;
        let res = devs[i].backfill_missing(files);
        proof {
            assert forall|j: int| 0 <= j < devs@.len() && j != i implies #[trigger] devs@[j]
                == before[j] by {}
        }
        match res {
            Err(kind) => {
                assert(seq_error(olds, i as int, files@) == Some(kind));
                return Err(ListError::Backfill(kind));
            },
            Ok(()) => {},
        }
        proof {
            assert(devs@.skip(i + 1) =~= olds.skip(i + 1)) by {
                assert forall|j: int| 0 <= j < n - i - 1 implies #[trigger] devs@.skip(i + 1)[j]
                    == olds.skip(i + 1)[j] by {
                    assert(olds.skip(i as int)[j + 1] == olds[i + 1 + j]);
                    assert(before.skip(i as int)[j + 1] == before[i + 1 + j]);
                }
            }
        }
        i = i + 1;
    }
    assert(seq_error(olds, n as int, files@) is None);
    if n == 0 {
        return Err(ListError::NoDevice);
    }
    let first = devs.swap_remove(0);
    Ok(first)
}

impl Device {
    /// The device node: `path` where `lsblk` gave it, else `/dev/<name>`.
    pub fn path(&self) -> (r: String)
        ensures
            r@ == match self.path {
                Some(p) => p@,
                None => dev_path(self.name@),
            },
    {
        match &self.path {
            Some(p) => p.clone(),
            None => {
                let mut s = "/dev/".to_owned();
                proof {
                    reveal_strlit("/dev/");
                    assert("/dev/"@ =~= seq!['/', 'd', 'e', 'v', '/']);
                }
                s.append(self.name.as_str());
                s
            },
        }
    }

    /// The device holds at least one other device.
    pub fn has_children(&self) -> (r: bool)
        ensures
            r == (self.children matches Some(v) && v@.len() > 0),
    {
        match &self.children {
            Some(v) => v.len() != 0,
            None => false,
        }
    }

    /// The sysfs file that gives this device's `start`, where it has a
    /// `maj:min`.
    pub fn sysfs_start_path(&self) -> (r: Option<String>)
        ensures
            match self.maj_min {
                None => r is None,
                Some(m) => r matches Some(p) && p@ == start_path(m@),
            },
    {
        match &self.maj_min {
            None => None,
            Some(m) => {
                let mut p = "/sys/dev/block/".to_owned();
                p.append(m.as_str());
                p.append("/start");
                proof {
                    reveal_strlit("/sys/dev/block/");
                    reveal_strlit("/start");
                    assert(p@ =~= start_path(m@));
                }
                Some(p)
            },
        }
    }

    /// Sets `start` from sysfs where `lsblk` did not give it.
    fn backfill_start(&mut self, files: &SysfsFiles) -> (r: Result<(), IntErrorKind>)
        ensures
            match start_update(*old(self), files@) {
                None => r is Ok && *final(self) == *old(self),
                Some(Ok(v)) => r is Ok && same_but_start(*old(self), *final(self), Some(v))
                    && final(self).children == old(self).children,
                Some(Err(kind)) => r == Err::<(), IntErrorKind>(kind) && *final(self) == *old(self),
            },
    {
        if self.start.is_some() {
            return Ok(());
        }
        let path = match self.sysfs_start_path() {
            None => return Ok(()),
            Some(p) => p,
        };
        let text = match file_lookup_exec(files, path.as_str()) {
            None => return Ok(()),
            Some(t) => t,
        };
        let t = trimmed(text.as_str());
        match parse_u64(t.as_str()) {
            Ok(v) => {
                self.start = Some(v);
                Ok(())
            },
            Err(kind) => Err(kind),
        }
    }

    /// Fills in, across the whole tree, the properties that older `lsblk`
    /// leaves out, from the sysfs files read in `files`. Stops at the first
    /// value that does not parse.
    pub fn backfill_missing(&mut self, files: &SysfsFiles) -> (r: Result<(), IntErrorKind>)
        ensures
            r == match tree_error(*old(self), files@) {
                None => Ok::<(), IntErrorKind>(()),
                Some(kind) => Err(kind),
            },
            tree_backfilled(*old(self), *final(self), files@),
        decreases tree_size(*old(self)),
    {
        let ghost start_dev = *self;
        match self.backfill_start(files) {
            Err(kind) => return Err(kind),
            Ok(()) => {},
        }
        let ghost after_own = *self;
        assert(after_own.children == start_dev.children);
        let mut result: Result<(), IntErrorKind> = Ok(());
        if let Some(kids) = &mut self.children {
            let n = kids.len();
            let ghost olds = kids@;
            assert(start_dev.children == Some(*kids));
            assert(kids@.skip(0) =~= olds);
            let mut i: usize = 0;
            loop
                invariant_except_break
                    result == Ok::<(), IntErrorKind>(()),
                    kids@.skip(i as int) == olds.skip(i as int),
                    seq_error(olds, 0, files@) == seq_error(olds, i as int, files@),
                    forall|j: int| 0 <= j < i ==> tree_backfilled(olds[j], #[trigger] kids@[j], files@),
                    forall|j: int| 0 <= j < i ==> tree_error(#[trigger] olds[j], files@) is None,
                invariant
                    n == olds.len(),
                    i <= n == kids.len(),
                    tree_size(start_dev) == 1 + seq_size(olds, 0),
                    start_dev == *old(self),
                ensures
                    seq_backfilled(olds, kids@, 0, files@),
                    result == match seq_error(olds, 0, files@) {
                        None => Ok::<(), IntErrorKind>(()),
                        Some(kind) => Err(kind),
                    },
                decreases n - i,
            {
                if i >= n {
                    proof {
                        lemma_seq_backfilled(olds, kids@, 0, n as int, files@);
                        assert(seq_error(olds, n as int, files@) is None);
                        assert(seq_error(olds, 0, files@) is None);
                        assert(result == Ok::<(), IntErrorKind>(()));
                    }
                    break;
                }
                proof {
                    lemma_seq_size_member(olds, 0, i as int);
                    assert(kids@.skip(i as int)[0] == kids@[i as int]);
                    assert(olds.skip(i as int)[0] == olds[i as int]);
                }
                let ghost before = kids@;
                let res = kids[i].backfill_missing(files);
                proof {
                    assert forall|j: int| 0 <= j < kids@.len() && j != i implies #[trigger] kids@[j]
                        == before[j] by {}
                }
                match res {
                    Err(kind) => {
                        proof {
                            assert(seq_error(olds, i as int, files@) == Some(kind));
                            assert forall|j: int| i < j < n implies #[trigger] kids@[j] == olds[j] by {
                                assert(olds.skip(i as int)[j - i] == olds[j]);
                                assert(before.skip(i as int)[j - i] == before[j]);
                            }
                            assert(kids@.skip(i + 1) =~= olds.skip(i + 1));
                            lemma_seq_backfilled(olds, kids@, 0, i as int, files@);
                        }
                        result = Err(kind);
                        break;
                    },
                    Ok(()) => {},
                }
                proof {
                    assert(kids@.skip(i + 1) =~= olds.skip(i + 1)) by {
                        assert forall|j: int| 0 <= j < n - i - 1 implies #[trigger] kids@.skip(i + 1)[j]
                            == olds.skip(i + 1)[j] by {
                            assert(olds.skip(i as int)[j + 1] == olds[i + 1 + j]);
                            assert(before.skip(i as int)[j + 1] == before[i + 1 + j]);
                        }
                    }
                }
                i = i + 1;
            }
        }
        result
    }
}

} // verus!
