//! Fast enumeration of an NTFS volume: the replies of the change journal are
//! read into a table of file records, and what lies below a directory is found
//! by following the records' parent references.
use crate::outside::text_from_utf16;
use crate::paths::{join_path, Platform};
use crate::text::chars_of;
use crate::walk::{DirEntry, EntryKind};
use crate::{lists, outside, paths, walk};
use std::collections::HashMap;
use vstd::prelude::*;

verus! {

/// Size of the journal's description of itself.
pub const JOURNAL_DATA_SIZE: usize = 56;

pub const FILE_ATTRIBUTE_DIRECTORY: u32 = 0x10;

pub const FILE_ATTRIBUTE_REPARSE_POINT: u32 = 0x400;

// ---------------------------------------------------------------------------
// Numbers in replies
// ---------------------------------------------------------------------------

/// The number that `n` bytes from `at` on write, lowest byte first.
pub open spec fn little_endian(bytes: Seq<u8>, at: int, n: nat) -> int
    decreases n,
{
    if n == 0 {
        0
    } else {
        bytes[at] + 256 * little_endian(bytes, at + 1, (n - 1) as nat)
    }
}

fn read_u16(bytes: &[u8], at: usize) -> (value: u16)
    requires
        at + 2 <= bytes@.len(),
    ensures
        value == little_endian(bytes@, at as int, 2),
{
    proof {
        reveal_with_fuel(little_endian, 3);
    }
    bytes[at] as u16 + 256 * (bytes[at + 1] as u16)
}

fn read_u32(bytes: &[u8], at: usize) -> (value: u32)
    requires
        at + 4 <= bytes@.len(),
    ensures
        value == little_endian(bytes@, at as int, 4),
{
    proof {
        reveal_with_fuel(little_endian, 5);
    }
    bytes[at] as u32 + 256 * (bytes[at + 1] as u32) + 65_536 * (bytes[at + 2] as u32) + 16_777_216
        * (bytes[at + 3] as u32)
}

fn read_u64(bytes: &[u8], at: usize) -> (value: u64)
    requires
        at + 8 <= bytes@.len(),
    ensures
        value == little_endian(bytes@, at as int, 8),
{
    let n = bytes.len();
    let low = read_u32(bytes, at);
    let high = read_u32(bytes, at + 4);
    proof {
        reveal_with_fuel(little_endian, 9);
    }
    low as u64 + 4_294_967_296 * (high as u64)
}

/// The sixteen-bit units of a piece of a reply; an odd byte at its end is
/// dropped.
pub open spec fn units_of(bytes: Seq<u8>, at: int, count: nat) -> Seq<u16> {
    Seq::new(count, |i: int| little_endian(bytes, at + 2 * i, 2) as u16)
}

fn read_units(bytes: &[u8], at: usize, count: usize) -> (units: Vec<u16>)
    requires
        at + 2 * count <= bytes@.len(),
    ensures
        units@ == units_of(bytes@, at as int, count as nat),
{
    let n = bytes.len();
    let mut units: Vec<u16> = Vec::new();
    for i in 0..count
        invariant
            at + 2 * count <= bytes@.len() == n,
            units@ =~= units_of(bytes@, at as int, i as nat),
    {
        units.push(read_u16(bytes, at + 2 * i));
    }
    units
}

/// The number of a file from the two halves in which the system reports it.
pub fn reference_number(high: u32, low: u32) -> (frn: u64)
    ensures
        frn == high * 0x1_0000_0000 + low,
{
    high as u64 * 0x1_0000_0000 + low as u64
}

// ---------------------------------------------------------------------------
// The volume and its journal
// ---------------------------------------------------------------------------

/// The root begins with a drive letter and a colon.
pub open spec fn on_drive(root: Seq<char>) -> bool {
    root.len() >= 2 && root[0] <= '\u{7f}' && root[1] == ':'
}

/// An ASCII letter in upper case, any other character as it is.
pub open spec fn upper_char(c: char) -> char {
    if 'a' <= c <= 'z' {
        (c as u32 - 32) as char
    } else {
        c
    }
}

fn upper(c: char) -> (up: char)
    ensures
        up == upper_char(c),
{
    if c >= 'a' && c <= 'z' {
        let code: u8 = c as u8;
        (code - 32) as char
    } else {
        c
    }
}

/// The device of the volume that a root lies on.
pub open spec fn volume_device(root: Seq<char>) -> Result<Seq<char>, Seq<char>> {
    if on_drive(root) {
        Ok("\\\\.\\"@ + seq![upper_char(root[0]), ':'])
    } else {
        Err("USN fast scan supports drive-letter roots only"@)
    }
}

pub fn volume_of_root(root: &str) -> (device: Result<String, String>)
    ensures
        match volume_device(root@) {
            Ok(name) => device is Ok && device->Ok_0@ == name,
            Err(error) => device is Err && device->Err_0@ == error,
        },
{
    let chars = chars_of(root);
    if chars.len() < 2 || chars[0] > '\u{7f}' || chars[1] != ':' {
        return Err("USN fast scan supports drive-letter roots only".to_string());
    }
    let mut device = "\\\\.\\".to_string();
    device.push(upper(chars[0]));
    device.push(':');
    proof {
        assert(device@ =~= "\\\\.\\"@ + seq![upper_char(root@[0]), ':']);
    }
    Ok(device)
}

/// The journal's number, from its description of itself. The enumeration asks
/// for the lower half of it.
pub open spec fn journal_number(reply: Seq<u8>) -> Result<int, Seq<char>> {
    if reply.len() < JOURNAL_DATA_SIZE {
        Err("short USN journal reply"@)
    } else {
        Ok(little_endian(reply, 0, 4))
    }
}

pub fn journal_id(reply: &[u8]) -> (id: Result<u32, String>)
    ensures
        match journal_number(reply@) {
            Ok(n) => id is Ok && id->Ok_0 == n,
            Err(error) => id is Err && id->Err_0@ == error,
        },
{
    if reply.len() < JOURNAL_DATA_SIZE {
        return Err("short USN journal reply".to_string());
    }
    Ok(read_u32(reply, 0))
}

// ---------------------------------------------------------------------------
// Records
// ---------------------------------------------------------------------------

/// One file or directory of the volume.
pub struct UsnRecord {
    pub frn: u64,
    pub parent: u64,
    pub name: String,
    pub attributes: u32,
}

#[verifier::ext_equal]
pub struct UsnRecordView {
    pub frn: u64,
    pub parent: u64,
    pub name: Seq<char>,
    pub attributes: u32,
}

impl View for UsnRecord {
    type V = UsnRecordView;

    open spec fn view(&self) -> UsnRecordView {
        UsnRecordView {
            frn: self.frn,
            parent: self.parent,
            name: self.name@,
            attributes: self.attributes,
        }
    }
}

pub open spec fn record_views(records: Seq<UsnRecord>) -> Seq<UsnRecordView> {
    records.map_values(|record: UsnRecord| record@)
}

/// The record in a piece of a reply. Only records of the second version are
/// read; one that is too short for its fields or its name holds none.
pub open spec fn record_in(bytes: Seq<u8>) -> Option<UsnRecordView> {
    if bytes.len() < 60 || little_endian(bytes, 4, 2) != 2 {
        None
    } else {
        let name_len = little_endian(bytes, 56, 2);
        let name_at = little_endian(bytes, 58, 2);
        if name_at + name_len > bytes.len() {
            None
        } else {
            Some(
                UsnRecordView {
                    frn: little_endian(bytes, 8, 8) as u64,
                    parent: little_endian(bytes, 16, 8) as u64,
                    name: outside::utf16_text(units_of(bytes, name_at, (name_len / 2) as nat)),
                    attributes: little_endian(bytes, 52, 4) as u32,
                },
            )
        }
    }
}

pub open spec fn record_option(record: Option<UsnRecord>) -> Option<UsnRecordView> {
    match record {
        Some(r) => Some(r@),
        None => None,
    }
}

fn read_record(bytes: &[u8]) -> (record: Option<UsnRecord>)
    ensures
        record_option(record) == record_in(bytes@),
{
    let n = bytes.len();
    if n < 60 || read_u16(bytes, 4) != 2 {
        return None;
    }
    let frn = read_u64(bytes, 8);
    let parent = read_u64(bytes, 16);
    let attributes = read_u32(bytes, 52);
    let name_len: usize = read_u16(bytes, 56) as usize;
    let name_at: usize = read_u16(bytes, 58) as usize;
    if name_at + name_len > n {
        return None;
    }
    let units = read_units(bytes, name_at, name_len / 2);
    let name = text_from_utf16(units.as_slice());
    Some(UsnRecord { frn, parent, name, attributes })
}

/// Where the record of a file number stands.
pub open spec fn at_frn(rows: Seq<UsnRecordView>, frn: u64) -> Option<int>
    decreases rows.len(),
{
    if rows.len() == 0 {
        None
    } else if rows.last().frn == frn {
        Some(rows.len() - 1)
    } else {
        at_frn(rows.drop_last(), frn)
    }
}

/// The table with a record put in: a later record of a file replaces the
/// earlier one.
pub open spec fn with_record(rows: Seq<UsnRecordView>, record: UsnRecordView) -> Seq<
    UsnRecordView,
> {
    match at_frn(rows, record.frn) {
        Some(k) => rows.update(k, record),
        None => rows.push(record),
    }
}

/// The table after the records of a reply from `at` on. A record without
/// length, or one that reaches over the end, ends the reply.
pub open spec fn with_reply(rows: Seq<UsnRecordView>, reply: Seq<u8>, at: int) -> Seq<
    UsnRecordView,
>
    decreases reply.len() - at,
{
    if at < 0 || at + 4 > reply.len() {
        rows
    } else {
        let len = little_endian(reply, at, 4);
        if len <= 0 || at + len > reply.len() {
            rows
        } else {
            let next = match record_in(reply.subrange(at, at + len)) {
                Some(record) => with_record(rows, record),
                None => rows,
            };
            with_reply(next, reply, at + len)
        }
    }
}

proof fn lemma_at_frn(rows: Seq<UsnRecordView>, frn: u64)
    ensures
        match at_frn(rows, frn) {
            Some(k) => 0 <= k < rows.len() && rows[k].frn == frn,
            None => forall|k: int| 0 <= k < rows.len() ==> (#[trigger] rows[k]).frn != frn,
        },
    decreases rows.len(),
{
    if rows.len() > 0 && rows.last().frn != frn {
        lemma_at_frn(rows.drop_last(), frn);
        match at_frn(rows.drop_last(), frn) {
            Some(k) => {
                assert(rows.drop_last()[k] == rows[k]);
            },
            None => {
                assert forall|k: int| 0 <= k < rows.len() implies (#[trigger] rows[k]).frn
                    != frn by {
                    if k < rows.len() - 1 {
                        assert(rows.drop_last()[k] == rows[k]);
                    }
                }
            },
        }
    }
}

/// The records of a volume, each file number once.
pub struct UsnTable {
    rows: Vec<UsnRecord>,
    at: HashMap<u64, usize>,
}

impl View for UsnTable {
    type V = Seq<UsnRecordView>;

    closed spec fn view(&self) -> Seq<UsnRecordView> {
        record_views(self.rows@)
    }
}

impl UsnTable {
    /// The lookup table leads to every record, and file numbers are distinct.
    pub closed spec fn wf(self) -> bool {
        &&& forall|k: int|
            0 <= k < self@.len() ==> self.at@.contains_key((#[trigger] self@[k]).frn)
                && self.at@[self@[k].frn] == k
        &&& forall|frn: u64| #[trigger]
            self.at@.contains_key(frn) ==> self.at@[frn] < self@.len()
                && self@[self.at@[frn] as int].frn == frn
    }

    pub fn new() -> (table: UsnTable)
        ensures
            table.wf(),
            table@ == Seq::<UsnRecordView>::empty(),
    {
        broadcast use vstd::std_specs::hash::group_hash_axioms;

        let table = UsnTable { rows: Vec::new(), at: HashMap::new() };
        proof {
            assert(table@ =~= Seq::<UsnRecordView>::empty());
        }
        table
    }

    fn put(&mut self, record: UsnRecord)
        requires
            old(self).wf(),
        ensures
            final(self).wf(),
            final(self)@ == with_record(old(self)@, record@),
    {
        broadcast use vstd::std_specs::hash::group_hash_axioms;

        let ghost before = self@;
        proof {
            lemma_at_frn(self@, record.frn);
        }
        let found: Option<usize> = match self.at.get(&record.frn) {
            Some(k) => Some(*k),
            None => None,
        };
        match found {
            Some(k) => {
                proof {
                    let place = at_frn(before, record.frn);
                    if place is None {
                        assert(before[k as int].frn != record.frn);
                    }
                    assert(place == Some(k as int));
                }
                self.rows.set(k, record);
                proof {
                    assert(self@ =~= before.update(k as int, record@));
                }
            },
            None => {
                let n = self.rows.len();
                let frn = record.frn;
                proof {
                    match at_frn(before, frn) {
                        Some(k) => {
                            assert(self.at@.contains_key(before[k].frn));
                        },
                        None => {},
                    }
                }
                self.at.insert(frn, n);
                self.rows.push(record);
                proof {
                    assert(self@ =~= before.push(record@));
                    assert forall|k: int| 0 <= k < self@.len() implies self.at@.contains_key(
                        (#[trigger] self@[k]).frn,
                    ) && self.at@[self@[k].frn] == k by {
                        if k < n {
                            assert(self@[k] == before[k]);
                            assert(before[k].frn != frn);
                        }
                    }
                    assert forall|other: u64| #[trigger]
                        self.at@.contains_key(other) implies self.at@[other] < self@.len()
                        && self@[self.at@[other] as int].frn == other by {
                        if other != frn {
                            assert(before[self.at@[other] as int].frn == other);
                        }
                    }
                }
            },
        }
    }

    /// Take in one reply of the enumeration: the number to go on from, and
    /// behind it the records. None where the enumeration has ended.
    pub fn absorb(&mut self, reply: &[u8]) -> (next: Option<u64>)
        requires
            old(self).wf(),
        ensures
            final(self).wf(),
            if reply@.len() <= 8 {
                next is None && final(self)@ == old(self)@
            } else {
                next is Some && next->0 == little_endian(reply@, 0, 8) && final(self)@
                    == with_reply(old(self)@, reply@, 8)
            },
    {
        let n = reply.len();
        if n <= 8 {
            return None;
        }
        let ghost goal = with_reply(self@, reply@, 8);
        let mut at: usize = 8;
        let mut open = true;
        while open && n - at >= 4
            invariant
                self.wf(),
                n == reply@.len(),
                8 <= at <= n,
                goal == with_reply(old(self)@, reply@, 8),
                open ==> goal == with_reply(self@, reply@, at as int),
                !open ==> goal == self@,
            decreases n - at + (if open {
                1int
            } else {
                0
            }),
        {
            let len: usize = read_u32(reply, at) as usize;
            if len == 0 || len > n - at {
                open = false;
            } else {
                let mut piece: Vec<u8> = Vec::new();
                for i in at..at + len
                    invariant
                        at + len <= n == reply@.len(),
                        piece@ =~= reply@.subrange(at as int, i as int),
                {
                    piece.push(reply[i]);
                }
                match read_record(piece.as_slice()) {
                    Some(record) => {
                        self.put(record);
                    },
                    None => {},
                }
                at = at + len;
            }
        }
        Some(read_u64(reply, 0))
    }
}

// ---------------------------------------------------------------------------
// The listing
// ---------------------------------------------------------------------------

pub open spec fn is_link(row: UsnRecordView) -> bool {
    row.attributes & FILE_ATTRIBUTE_REPARSE_POINT != 0
}

pub open spec fn is_directory(row: UsnRecordView) -> bool {
    row.attributes & FILE_ATTRIBUTE_DIRECTORY != 0
}

/// The path of a record, found by going up its parents to the root in at most
/// `steps` steps. None where they do not lead there, or lead through a link;
/// the root does not lie below itself.
pub open spec fn place_within(
    rows: Seq<UsnRecordView>,
    root: Seq<char>,
    frn: u64,
    k: int,
    steps: nat,
) -> Option<Seq<char>>
    decreases steps,
{
    let name = rows[k].name;
    if steps == 0 || rows[k].frn == frn || is_link(rows[k]) {
        None
    } else if rows[k].parent == frn {
        Some(paths::inside(Platform::Windows, root, name))
    } else {
        match at_frn(rows, rows[k].parent) {
            None => None,
            Some(p) => if !is_directory(rows[p]) {
                None
            } else {
                match place_within(rows, root, frn, p, (steps - 1) as nat) {
                    None => None,
                    Some(base) => Some(paths::inside(Platform::Windows, base, name)),
                }
            },
        }
    }
}

/// The path of a record below the root. No way up is longer than the table.
pub open spec fn place(rows: Seq<UsnRecordView>, root: Seq<char>, frn: u64, k: int) -> Option<
    Seq<char>,
> {
    place_within(rows, root, frn, k, rows.len())
}

pub open spec fn kind_of(row: UsnRecordView) -> EntryKind {
    if is_directory(row) {
        EntryKind::Directory
    } else {
        EntryKind::File
    }
}

/// The files and directories below the root among the first `n` records, in
/// the order of the table.
pub open spec fn listed_below(
    rows: Seq<UsnRecordView>,
    root: Seq<char>,
    frn: u64,
    n: nat,
) -> Seq<(Seq<char>, EntryKind)>
    decreases n,
{
    if n == 0 {
        Seq::empty()
    } else {
        let front = listed_below(rows, root, frn, (n - 1) as nat);
        match place(rows, root, frn, n - 1) {
            Some(path) => front.push((path, kind_of(rows[n - 1]))),
            None => front,
        }
    }
}

/// Everything below a root, or why it cannot be listed.
pub open spec fn paths_below(
    rows: Seq<UsnRecordView>,
    root: Seq<char>,
    frn: Result<u64, Seq<char>>,
) -> Result<Seq<(Seq<char>, EntryKind)>, Seq<char>> {
    if rows.len() == 0 {
        Err("USN enumeration returned nothing"@)
    } else {
        match frn {
            Err(error) => Err(error),
            Ok(number) => Ok(listed_below(rows, root, number, rows.len())),
        }
    }
}

/// The path that some records lead to from a directory, the last of them
/// first.
spec fn descended(rows: Seq<UsnRecordView>, base: Option<Seq<char>>, trail: Seq<int>) -> Option<
    Seq<char>,
>
    decreases trail.len(),
{
    match base {
        None => None,
        Some(path) => if trail.len() == 0 {
            base
        } else {
            descended(
                rows,
                Some(paths::inside(Platform::Windows, path, rows[trail.last()].name)),
                trail.drop_last(),
            )
        },
    }
}

impl UsnTable {
    fn find(&self, frn: u64) -> (found: Option<usize>)
        requires
            self.wf(),
        ensures
            match found {
                Some(k) => k < self.rows@.len() && at_frn(self@, frn) == Some(k as int),
                None => at_frn(self@, frn) is None,
            },
    {
        broadcast use vstd::std_specs::hash::group_hash_axioms;

        proof {
            lemma_at_frn(self@, frn);
            assert(self@.len() == self.rows@.len());
            match at_frn(self@, frn) {
                Some(k) => {
                    assert(self.at@.contains_key(self@[k].frn));
                },
                None => {},
            }
        }
        match self.at.get(&frn) {
            Some(k) => Some(*k),
            None => None,
        }
    }

    fn place(&self, root: &str, frn: u64, start: usize) -> (path: Option<String>)
        requires
            self.wf(),
            start < self.rows@.len(),
        ensures
            crate::model::text_option(path) == place(self@, root@, frn, start as int),
    {
        let rows = &self.rows;
        let ghost views = self@;
        let total = rows.len();
        proof {
            assert(views.len() == total);
            assert(views == record_views(rows@));
        }
        // The records passed on the way up, and the one that is reached.
        let mut trail: Vec<usize> = Vec::new();
        let mut k: usize = start;
        let mut left: usize = total;
        let mut base: Option<String> = None;
        let mut going = true;
        proof {
            assert(lists::ints(trail@) =~= Seq::<int>::empty());
        }
        while going && left > 0
            invariant
                self.wf(),
                views == self@,
                views == record_views(rows@),
                *rows == self.rows,
                k < rows@.len(),
                left <= total,
                trail@.len() + left <= total,
                forall|m: int| 0 <= m < trail@.len() ==> (#[trigger] trail@[m]) < rows@.len(),
                going ==> base is None && place(views, root@, frn, start as int) == descended(
                    views,
                    place_within(views, root@, frn, k as int, left as nat),
                    lists::ints(trail@),
                ),
                !going ==> place(views, root@, frn, start as int) == descended(
                    views,
                    crate::model::text_option(base),
                    lists::ints(trail@),
                ),
            decreases left + (if going {
                1int
            } else {
                0
            }),
        {
            proof {
                assert(views[k as int] == rows@[k as int]@);
            }
            let attributes: u32 = rows[k].attributes;
            if rows[k].frn == frn || attributes & FILE_ATTRIBUTE_REPARSE_POINT != 0 {
                going = false;
            } else if rows[k].parent == frn {
                base = Some(join_path(Platform::Windows, root, rows[k].name.as_str()));
                going = false;
            } else {
                match self.find(rows[k].parent) {
                    None => {
                        going = false;
                    },
                    Some(p) => {
                        proof {
                            assert(views[p as int] == rows@[p as int]@);
                        }
                        let above: u32 = rows[p].attributes;
                        if above & FILE_ATTRIBUTE_DIRECTORY == 0 {
                            going = false;
                        } else {
                            let ghost before = lists::ints(trail@);
                            trail.push(k);
                            proof {
                                assert(lists::ints(trail@) =~= before.push(k as int));
                                assert(before.push(k as int).drop_last() =~= before);
                            }
                            k = p;
                            left = left - 1;
                        }
                    },
                }
            }
        }
        let mut path = match base {
            None => return None,
            Some(path) => path,
        };
        while trail.len() > 0
            invariant
                views == record_views(rows@),
                forall|m: int| 0 <= m < trail@.len() ==> (#[trigger] trail@[m]) < rows@.len(),
                place(views, root@, frn, start as int) == descended(
                    views,
                    Some(path@),
                    lists::ints(trail@),
                ),
            decreases trail@.len(),
        {
            let ghost before = trail@;
            let n = trail.len();
            let last = trail[n - 1];
            trail.truncate(n - 1);
            proof {
                assert(lists::ints(before).last() == last);
                assert(lists::ints(trail@) =~= lists::ints(before).drop_last());
                assert(views[last as int] == rows@[last as int]@);
                assert forall|m: int| 0 <= m < trail@.len() implies (#[trigger] trail@[m])
                    < rows@.len() by {
                    assert(before[m] == trail@[m]);
                }
            }
            path = join_path(Platform::Windows, path.as_str(), rows[last].name.as_str());
        }
        Some(path)
    }
}

/// Every file and directory below `root`, in the order of the table, which is
/// that of the volume's own file table. Links are passed over, and with them
/// what lies behind them.
pub fn root_paths(table: &UsnTable, root: &str, root_frn: &Result<u64, String>) -> (list: Result<
    Vec<DirEntry>,
    String,
>)
    requires
        table.wf(),
    ensures
        match paths_below(table@, root@, outside::message_of(*root_frn)) {
            Ok(below) => list is Ok && walk::entry_views(list->Ok_0@) == below,
            Err(error) => list is Err && list->Err_0@ == error,
        },
{
    let rows = &table.rows;
    let ghost views = table@;
    let total = rows.len();
    proof {
        assert(views.len() == total);
        assert(views == record_views(rows@));
    }
    if total == 0 {
        return Err("USN enumeration returned nothing".to_string());
    }
    let frn: u64 = match root_frn {
        Err(error) => return Err(error.clone()),
        Ok(frn) => *frn,
    };
    let mut list: Vec<DirEntry> = Vec::new();
    proof {
        assert(walk::entry_views(list@) =~= listed_below(views, root@, frn, 0));
    }
    for i in 0..total
        invariant
            table.wf(),
            views == table@,
            views == record_views(rows@),
            *rows == table.rows,
            total == rows@.len(),
            walk::entry_views(list@) == listed_below(views, root@, frn, i as nat),
    {
        let ghost before = list@;
        match table.place(root, frn, i) {
            Some(path) => {
                proof {
                    assert(views[i as int] == rows@[i as int]@);
                }
                let attributes: u32 = rows[i].attributes;
                let kind = if attributes & FILE_ATTRIBUTE_DIRECTORY != 0 {
                    EntryKind::Directory
                } else {
                    EntryKind::File
                };
                list.push(DirEntry { path, kind });
                proof {
                    assert(walk::entry_views(list@) =~= walk::entry_views(before).push(
                        (path@, kind),
                    ));
                }
            },
            None => {},
        }
    }
    Ok(list)
}

// ---------------------------------------------------------------------------
// Laws of the listing
// ---------------------------------------------------------------------------

/// The records on the way up from a record, itself first.
spec fn way_up(rows: Seq<UsnRecordView>, frn: u64, k: int, steps: nat) -> Seq<int>
    decreases steps,
{
    if steps == 0 {
        Seq::empty()
    } else if rows[k].parent == frn {
        seq![k]
    } else {
        match at_frn(rows, rows[k].parent) {
            None => seq![k],
            Some(p) => seq![k] + way_up(rows, frn, p, (steps - 1) as nat),
        }
    }
}

/// Every record of the way but the last leads to the next, the last one to
/// the root.
spec fn is_way(rows: Seq<UsnRecordView>, frn: u64, way: Seq<int>) -> bool {
    &&& way.len() > 0
    &&& forall|x: int| 0 <= x < way.len() ==> 0 <= #[trigger] way[x] < rows.len()
    &&& forall|x: int|
        0 <= x < way.len() - 1 ==> rows[#[trigger] way[x]].parent != frn && at_frn(
            rows,
            rows[way[x]].parent,
        ) == Some(way[x + 1])
    &&& rows[way[way.len() - 1]].parent == frn
}

proof fn lemma_way_up(rows: Seq<UsnRecordView>, root: Seq<char>, frn: u64, k: int, steps: nat)
    requires
        0 <= k < rows.len(),
        place_within(rows, root, frn, k, steps) is Some,
    ensures
        is_way(rows, frn, way_up(rows, frn, k, steps)),
        way_up(rows, frn, k, steps)[0] == k,
    decreases steps,
{
    let way = way_up(rows, frn, k, steps);
    if rows[k].parent != frn {
        lemma_at_frn(rows, rows[k].parent);
        let p = at_frn(rows, rows[k].parent)->0;
        lemma_way_up(rows, root, frn, p, (steps - 1) as nat);
        let rest = way_up(rows, frn, p, (steps - 1) as nat);
        assert forall|x: int| 0 <= x < way.len() implies 0 <= #[trigger] way[x] < rows.len() by {
            if x > 0 {
                assert(way[x] == rest[x - 1]);
            }
        }
        assert forall|x: int| 0 <= x < way.len() - 1 implies rows[#[trigger] way[x]].parent != frn
            && at_frn(rows, rows[way[x]].parent) == Some(way[x + 1]) by {
            assert(way[x + 1] == rest[x]);
            if x > 0 {
                assert(way[x] == rest[x - 1]);
            }
        }
        assert(way[way.len() - 1] == rest[rest.len() - 1]);
    }
}

/// The way is found in as many steps as it has.
proof fn lemma_steps_suffice(
    rows: Seq<UsnRecordView>,
    root: Seq<char>,
    frn: u64,
    k: int,
    steps: nat,
    enough: nat,
)
    requires
        0 <= k < rows.len(),
        place_within(rows, root, frn, k, steps) is Some,
        enough >= way_up(rows, frn, k, steps).len(),
    ensures
        place_within(rows, root, frn, k, enough) == place_within(rows, root, frn, k, steps),
    decreases steps,
{
    if rows[k].parent != frn {
        lemma_at_frn(rows, rows[k].parent);
        let p = at_frn(rows, rows[k].parent)->0;
        assert(enough > 0);
        lemma_steps_suffice(rows, root, frn, p, (steps - 1) as nat, (enough - 1) as nat);
    } else {
        assert(enough > 0);
    }
}

proof fn lemma_ways_coincide(
    rows: Seq<UsnRecordView>,
    frn: u64,
    way: Seq<int>,
    i: int,
    j: int,
    x: int,
)
    requires
        is_way(rows, frn, way),
        0 <= i < j,
        0 <= x,
        j + x < way.len(),
        way[i] == way[j],
    ensures
        way[i + x] == way[j + x],
    decreases x,
{
    if x > 0 {
        lemma_ways_coincide(rows, frn, way, i, j, x - 1);
        assert(at_frn(rows, rows[way[i + x - 1]].parent) == Some(way[(i + x - 1) + 1]));
        assert(at_frn(rows, rows[way[j + x - 1]].parent) == Some(way[(j + x - 1) + 1]));
    }
}

/// A way to the root passes no record twice, so it is no longer than the
/// table.
proof fn lemma_ways_are_short(rows: Seq<UsnRecordView>, frn: u64, way: Seq<int>)
    requires
        is_way(rows, frn, way),
    ensures
        way.len() <= rows.len(),
{
    assert forall|i: int, j: int| 0 <= i < j < way.len() implies way[i] != way[j] by {
        if way[i] == way[j] {
            lemma_ways_coincide(rows, frn, way, i, j, way.len() - 1 - j);
            let early = i + (way.len() - 1 - j);
            assert(rows[way[early]].parent != frn);
        }
    }
    assert(way.no_duplicates());
    way.unique_seq_to_set();
    let all = vstd::set_lib::set_int_range(0, rows.len() as int);
    vstd::set_lib::lemma_int_range(0, rows.len() as int);
    assert(way.to_set().subset_of(all)) by {
        assert forall|k: int| way.to_set().contains(k) implies all.contains(k) by {
            let x = choose|x: int| 0 <= x < way.len() && way[x] == k;
            assert(0 <= way[x] < rows.len());
        }
    }
    vstd::set_lib::lemma_len_subset(way.to_set(), all);
}

/// Whatever lies in the root, or in a directory below it, lies below the root
/// itself, unless it is a link: nothing is left out, however deep it lies.
pub proof fn law_what_lies_in_a_directory_is_found(
    rows: Seq<UsnRecordView>,
    root: Seq<char>,
    frn: u64,
    k: int,
)
    requires
        0 <= k < rows.len(),
        rows[k].frn != frn,
        !is_link(rows[k]),
    ensures
        rows[k].parent == frn ==> place(rows, root, frn, k) == Some(
            paths::inside(Platform::Windows, root, rows[k].name),
        ),
        rows[k].parent != frn && at_frn(rows, rows[k].parent) is Some ==> {
            let p = at_frn(rows, rows[k].parent)->0;
            is_directory(rows[p]) && place(rows, root, frn, p) is Some ==> place(
                rows,
                root,
                frn,
                k,
            ) == Some(
                paths::inside(
                    Platform::Windows,
                    place(rows, root, frn, p)->0,
                    rows[k].name,
                ),
            )
        },
{
    if rows[k].parent != frn && at_frn(rows, rows[k].parent) is Some {
        let p = at_frn(rows, rows[k].parent)->0;
        if is_directory(rows[p]) && place(rows, root, frn, p) is Some {
            let steps = rows.len() + 1;
            assert(place_within(rows, root, frn, k, steps) is Some);
            lemma_way_up(rows, root, frn, k, steps);
            lemma_ways_are_short(rows, frn, way_up(rows, frn, k, steps));
            lemma_steps_suffice(rows, root, frn, k, steps, rows.len());
        }
    }
}

/// What is found lies in the root or in a directory that is found itself. No
/// link is, so nothing behind a link is either.
pub proof fn law_nothing_behind_a_link_is_found(
    rows: Seq<UsnRecordView>,
    root: Seq<char>,
    frn: u64,
    k: int,
)
    requires
        0 <= k < rows.len(),
        place(rows, root, frn, k) is Some,
    ensures
        rows[k].frn != frn,
        !is_link(rows[k]),
        rows[k].parent == frn || {
            let p = at_frn(rows, rows[k].parent);
            &&& p is Some
            &&& is_directory(rows[p->0])
            &&& !is_link(rows[p->0])
            &&& place(rows, root, frn, p->0) is Some
        },
{
    if rows[k].parent != frn {
        lemma_at_frn(rows, rows[k].parent);
        let p = at_frn(rows, rows[k].parent)->0;
        let steps = (rows.len() - 1) as nat;
        lemma_way_up(rows, root, frn, p, steps);
        lemma_ways_are_short(rows, frn, way_up(rows, frn, p, steps));
        lemma_steps_suffice(rows, root, frn, p, steps, rows.len());
    }
}

/// The list holds every record that lies below the root once, and nothing
/// else, in the order of the table: it grows by one entry with each such
/// record, and with no other.
pub proof fn law_listing_is_complete(
    rows: Seq<UsnRecordView>,
    root: Seq<char>,
    frn: u64,
    n: nat,
)
    requires
        n <= rows.len(),
    ensures
        listed_below(rows, root, frn, n).len() == lists::positions(
            n,
            |k: int| place(rows, root, frn, k) is Some,
        ).len(),
        forall|m: int|
            0 <= m < listed_below(rows, root, frn, n).len() ==> {
                let k = lists::positions(n, |k: int| place(rows, root, frn, k) is Some)[m];
                #[trigger] listed_below(rows, root, frn, n)[m] == (
                    place(rows, root, frn, k)->0,
                    kind_of(rows[k]),
                )
            },
    decreases n,
{
    if n > 0 {
        law_listing_is_complete(rows, root, frn, (n - 1) as nat);
        let keep = |k: int| place(rows, root, frn, k) is Some;
        let before = listed_below(rows, root, frn, (n - 1) as nat);
        let kept = lists::positions((n - 1) as nat, keep);
        assert(keep(n - 1) == place(rows, root, frn, n - 1) is Some);
        assert forall|m: int| 0 <= m < listed_below(rows, root, frn, n).len() implies {
            let k = lists::positions(n, keep)[m];
            #[trigger] listed_below(rows, root, frn, n)[m] == (
                place(rows, root, frn, k)->0,
                kind_of(rows[k]),
            )
        } by {
            if m < before.len() {
                assert(listed_below(rows, root, frn, n)[m] == before[m]);
                assert(lists::positions(n, keep)[m] == kept[m]);
            }
        }
    }
}

/// A later record of a file replaces the earlier one, and no other record
/// changes.
pub proof fn law_latest_record_counts(rows: Seq<UsnRecordView>, record: UsnRecordView)
    ensures
        exists|k: int|
            0 <= k < with_record(rows, record).len() && #[trigger] with_record(rows, record)[k]
                == record,
        forall|k: int|
            0 <= k < rows.len() && (#[trigger] rows[k]).frn != record.frn ==> with_record(
                rows,
                record,
            )[k] == rows[k],
{
    lemma_at_frn(rows, record.frn);
    match at_frn(rows, record.frn) {
        Some(k) => {
            assert(with_record(rows, record)[k] == record);
        },
        None => {
            assert(with_record(rows, record)[rows.len() as int] == record);
        },
    }
}

} // verus!
