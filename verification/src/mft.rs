//! NTFS master file table records: parsing the records that
//! `FSCTL_ENUM_USN_DATA` returns, resolving their paths, and filling the
//! catalog.  Opening the volume and issuing the control calls is left to the
//! caller.

use vstd::prelude::*;
use std::collections::HashMap;
use crate::catalog::{insert_spec, Catalog};
use crate::extract::utf16_lossy;
use crate::path::{join_path, join_path_exec};
use crate::text::{chars_eq, chars_of, string_of};
use crate::types::FileRecord;

verus! {

broadcast use vstd::std_specs::hash::group_hash_axioms;

pub const FILE_ATTRIBUTE_DIRECTORY: u32 = 0x10;

/// Index part of the MFT record number of the volume's root folder.
pub const MFT_ROOT_INDEX: u64 = 5;

/// The record-index bits of a file reference number.
pub const FRN_INDEX_MASK: u64 = 0x0000_FFFF_FFFF_FFFF;

/// 100-nanosecond intervals from 1601-01-01 to 1970-01-01.
pub const FILETIME_EPOCH_DIFF: i64 = 116444736000000000;

/// One file or folder of the table.
pub struct MftNode {
    pub parent: Option<u64>,
    pub name: String,
    pub is_dir: bool,
    /// Windows attribute bits.
    pub attributes: u32,
    /// Seconds since the epoch.
    pub modified: u64,
}

// ---------------------------------------------------------------------------
// Little-endian fields
// ---------------------------------------------------------------------------

pub open spec fn le_u16(b: Seq<u8>, i: int) -> int {
    b[i] as int + b[i + 1] as int * 0x100
}

pub open spec fn le_u32(b: Seq<u8>, i: int) -> int {
    le_u16(b, i) + le_u16(b, i + 2) * 0x10000
}

pub open spec fn le_u64(b: Seq<u8>, i: int) -> int {
    le_u32(b, i) + le_u32(b, i + 4) * 0x1_0000_0000
}

/// A signed 64-bit field (two's complement).
pub open spec fn le_i64(b: Seq<u8>, i: int) -> int {
    let v = le_u64(b, i);
    if v >= 0x8000_0000_0000_0000 {
        v - 0x1_0000_0000_0000_0000
    } else {
        v
    }
}

fn read_u16(b: &[u8], i: usize) -> (r: u16)
    requires
        i + 2 <= b@.len(),
    ensures
        r == le_u16(b@, i as int),
{
    (b[i] as u16) + (b[i + 1] as u16) * 256
}

fn read_u32(b: &[u8], i: usize) -> (r: u32)
    requires
        i + 4 <= b@.len(),
    ensures
        r == le_u32(b@, i as int),
{
    assert(b.len() == b@.len());
    (read_u16(b, i) as u32) + (read_u16(b, i + 2) as u32) * 0x10000
}

fn read_u64(b: &[u8], i: usize) -> (r: u64)
    requires
        i + 8 <= b@.len(),
    ensures
        r == le_u64(b@, i as int),
{
    assert(b.len() == b@.len());
    (read_u32(b, i) as u64) + (read_u32(b, i + 4) as u64) * 0x1_0000_0000
}

fn read_i64(b: &[u8], i: usize) -> (r: i64)
    requires
        i + 8 <= b@.len(),
    ensures
        r == le_i64(b@, i as int),
{
    let v = read_u64(b, i);
    if v >= 0x8000_0000_0000_0000 {
        ((v - 0x8000_0000_0000_0000) as i64) - 0x7FFF_FFFF_FFFF_FFFF - 1
    } else {
        v as i64
    }
}

// ---------------------------------------------------------------------------
// Records
// ---------------------------------------------------------------------------

/// Seconds since the epoch of a FILETIME (100 ns since 1601); times before
/// 1970 give 0.
pub open spec fn filetime_secs(ft: int) -> u64 {
    let t = ft - FILETIME_EPOCH_DIFF;
    if t <= 0 {
        0
    } else {
        let ns = if t * 100 > u64::MAX {
            u64::MAX as int
        } else {
            t * 100
        };
        (ns / 1_000_000_000) as u64
    }
}

pub fn filetime_to_secs(ft: i64) -> (r: u64)
    ensures
        r == filetime_secs(ft as int),
{
    let t: i128 = (ft as i128) - (FILETIME_EPOCH_DIFF as i128);
    if t <= 0 {
        return 0;
    }
    let ns: i128 = if t * 100 > u64::MAX as i128 {
        u64::MAX as i128
    } else {
        t * 100
    };
    (ns / 1_000_000_000) as u64
}

/// The 16-bit little-endian units of the bytes (an odd last byte is
/// dropped).
pub open spec fn le_units(b: Seq<u8>) -> Seq<u16> {
    Seq::new((b.len() / 2) as nat, |k: int| le_u16(b, 2 * k) as u16)
}

/// A name stored as UTF-16LE.
pub fn utf16le(bytes: &[u8]) -> (r: String)
    ensures
        r@ == utf16_lossy(le_units(bytes@)),
{
    let n = bytes.len() / 2;
    let mut units: Vec<u16> = Vec::new();
    let mut k: usize = 0;
    while k < n
        invariant
            k <= n,
            n == bytes@.len() / 2,
            bytes.len() == bytes@.len(),
            units.len() == k,
            forall|j: int| 0 <= j < k ==> #[trigger] units@[j] == le_units(bytes@)[j],
        decreases n - k,
    {
        assert(2 * k + 2 <= bytes@.len()) by (nonlinear_arith)
            requires
                k < n,
                n == bytes@.len() / 2,
        ;
        units.push(read_u16(bytes, 2 * k));
        k += 1;
    }
    assert(units@ =~= le_units(bytes@));
    crate::extract::string_from_utf16_lossy(&units)
}

/// The fields of a record by its major version (2 or 3): id, parent,
/// attributes, name length, name offset, and modification FILETIME.
pub open spec fn record_fields(rec: Seq<u8>, major: u16) -> Option<(u64, u64, u32, int, int, int)> {
    if major == 2 && rec.len() >= 60 {
        Some(
            (
                le_u64(rec, 8) as u64,
                le_u64(rec, 16) as u64,
                le_u32(rec, 52) as u32,
                le_u16(rec, 56),
                le_u16(rec, 58),
                le_i64(rec, 32),
            ),
        )
    } else if major == 3 && rec.len() >= 76 {
        Some(
            (
                le_u64(rec, 8) as u64,
                le_u64(rec, 24) as u64,
                le_u32(rec, 68) as u32,
                le_u16(rec, 72),
                le_u16(rec, 74),
                le_i64(rec, 48),
            ),
        )
    } else {
        None
    }
}

/// What a record holds: its id and node (parent 0 means none), unless the
/// version is unknown, the name lies outside the record, or the name is
/// empty.
pub open spec fn parse_one_spec(rec: Seq<u8>, major: u16) -> Option<(u64, Option<u64>, Seq<char>, u32, u64)> {
    match record_fields(rec, major) {
        None => None,
        Some((id, parent, attrs, nl, no, ts)) => if no + nl > rec.len() {
            None
        } else {
            let name = utf16_lossy(le_units(rec.subrange(no, no + nl)));
            if name.len() == 0 {
                None
            } else {
                Some(
                    (
                        id,
                        if parent == 0 {
                            None
                        } else {
                            Some(parent)
                        },
                        name,
                        attrs,
                        filetime_secs(ts),
                    ),
                )
            }
        },
    }
}

pub open spec fn node_view(id: u64, n: MftNode) -> (u64, Option<u64>, Seq<char>, u32, u64) {
    (id, n.parent, n.name@, n.attributes, n.modified)
}

fn copy_range(b: &[u8], from: usize, to: usize) -> (r: Vec<u8>)
    requires
        from <= to <= b@.len(),
    ensures
        r@ == b@.subrange(from as int, to as int),
{
    let mut r: Vec<u8> = Vec::new();
    let mut i = from;
    while i < to
        invariant
            from <= i <= to <= b@.len(),
            r@ == b@.subrange(from as int, i as int),
        decreases to - i,
    {
        r.push(b[i]);
        i += 1;
        assert(r@ =~= b@.subrange(from as int, i as int));
    }
    r
}

/// Parses one record of an enumeration buffer.
pub fn parse_one(rec: &[u8], major: u16) -> (r: Option<(u64, MftNode)>)
    ensures
        match r {
            Some((id, n)) => parse_one_spec(rec@, major) == Some(node_view(id, n)) && n.is_dir == (
            n.attributes & FILE_ATTRIBUTE_DIRECTORY != 0),
            None => parse_one_spec(rec@, major) is None,
        },
{
    assert(rec.len() == rec@.len());
    let (id, parent, attrs, name_len, name_off, ts) = if major == 2 && rec.len() >= 60 {
        (
            read_u64(rec, 8),
            read_u64(rec, 16),
            read_u32(rec, 52),
            read_u16(rec, 56) as usize,
            read_u16(rec, 58) as usize,
            read_i64(rec, 32),
        )
    } else if major == 3 && rec.len() >= 76 {
        (
            read_u64(rec, 8),
            read_u64(rec, 24),
            read_u32(rec, 68),
            read_u16(rec, 72) as usize,
            read_u16(rec, 74) as usize,
            read_i64(rec, 48),
        )
    } else {
        return None;
    };
    if name_len > rec.len() || name_off > rec.len() - name_len {
        return None;
    }
    let name = utf16le(copy_range(rec, name_off, name_off + name_len).as_slice());
    if name.as_str().is_empty() {
        return None;
    }
    Some(
        (
            id,
            MftNode {
                parent: if parent == 0 {
                    None
                } else {
                    Some(parent)
                },
                name,
                is_dir: attrs & FILE_ATTRIBUTE_DIRECTORY != 0,
                attributes: attrs,
                modified: filetime_to_secs(ts),
            },
        ),
    )
}

/// The records of an enumeration buffer from byte `off` on: each starts
/// with its length (at least 60, within the buffer) and its major version
/// at byte 4; the first bad length ends the buffer.
pub open spec fn records_from(buf: Seq<u8>, off: int) -> Seq<(u64, Option<u64>, Seq<char>, u32, u64)>
    decreases buf.len() - off,
{
    if off < 0 || off + 4 > buf.len() {
        Seq::empty()
    } else {
        let len = le_u32(buf, off);
        if len < 60 || off + len > buf.len() {
            Seq::empty()
        } else {
            let rec = buf.subrange(off, off + len);
            let rest = records_from(buf, off + len);
            match parse_one_spec(rec, le_u16(rec, 4) as u16) {
                Some(n) => seq![n] + rest,
                None => rest,
            }
        }
    }
}

/// Parses an enumeration buffer (the part after the next-record number).
pub fn parse_enum_records(buf: &[u8]) -> (r: Vec<(u64, MftNode)>)
    ensures
        r@.map_values(|p: (u64, MftNode)| node_view(p.0, p.1)) == records_from(buf@, 0),
        forall|k: int| 0 <= k < r.len() ==> (#[trigger] r@[k]).1.is_dir == (r@[k].1.attributes & FILE_ATTRIBUTE_DIRECTORY != 0),
{
    let mut out: Vec<(u64, MftNode)> = Vec::new();
    let mut off: usize = 0;
    let ghost b = buf@;
    assert(buf.len() == b.len());
    assert(out@.map_values(|p: (u64, MftNode)| node_view(p.0, p.1)) + records_from(b, 0) =~= records_from(b, 0));
    while off < buf.len()
        invariant
            off <= buf.len(),
            b == buf@,
            buf.len() == b.len(),
            out@.map_values(|p: (u64, MftNode)| node_view(p.0, p.1)) + records_from(b, off as int) == records_from(b, 0),
            forall|k: int| 0 <= k < out.len() ==> (#[trigger] out@[k]).1.is_dir == (out@[k].1.attributes & FILE_ATTRIBUTE_DIRECTORY != 0),
        ensures
            records_from(b, off as int) == Seq::<(u64, Option<u64>, Seq<char>, u32, u64)>::empty(),
        decreases buf.len() - off,
    {
        if buf.len() - off < 4 {
            assert(records_from(b, off as int) =~= Seq::empty());
            break;
        }
        let len = read_u32(buf, off) as usize;
        if len < 60 || len > buf.len() - off {
            assert(records_from(b, off as int) =~= Seq::empty());
            break;
        }
        let rec = copy_range(buf, off, off + len);
        let major = read_u16(rec.as_slice(), 4);
        let ghost before = out@.map_values(|p: (u64, MftNode)| node_view(p.0, p.1));
        match parse_one(rec.as_slice(), major) {
            Some(p) => {
                out.push(p);
                assert(out@.map_values(|p: (u64, MftNode)| node_view(p.0, p.1)) =~= before.push(
                    node_view(p.0, p.1),
                ));
                assert(before.push(node_view(p.0, p.1)) + records_from(b, off + len) =~= before + records_from(b, off as int));
            },
            None => {},
        }
        off = off + len;
    }
    let ghost done_view = out@.map_values(|p: (u64, MftNode)| node_view(p.0, p.1));
    assert(done_view + Seq::<(u64, Option<u64>, Seq<char>, u32, u64)>::empty() =~= done_view);
    assert(out@.map_values(|p: (u64, MftNode)| node_view(p.0, p.1)) =~= records_from(b, 0));
    out
}

/// `ERROR_HANDLE_EOF`: the enumeration has no more records.
pub const ERROR_HANDLE_EOF: i32 = 38;

/// `ERROR_MORE_DATA`: the buffer holds a partial answer.
pub const ERROR_MORE_DATA: i32 = 234;

/// What one answer of `FSCTL_ENUM_USN_DATA` means for the enumeration.
pub enum EnumStep {
    /// The enumeration is over.
    Done,
    /// The call failed; the caller reports the system error.
    Failed,
    /// The records of this answer; `next` is the record number to ask for
    /// next, and `more` tells whether to ask at all.
    Batch { next: u64, records: Vec<(u64, MftNode)>, more: bool },
}

/// A failed call still carries records when the system says more data is
/// waiting and the answer is longer than the next-record number.
pub open spec fn answer_usable(ok: bool, os_error: Option<i32>, bytes: u32) -> bool {
    ok || (os_error == Some(ERROR_MORE_DATA) && bytes > 8)
}

/// Reads one answer to an enumeration that started at record `start`: the
/// call's success, its system error, the buffer and the number of bytes it
/// filled.  An answer starts with the next record number, then holds the
/// records; the enumeration stops when that number does not move.
pub fn enum_step(start: u64, ok: bool, os_error: Option<i32>, buf: &[u8], bytes: u32) -> (r: EnumStep)
    requires
        bytes <= buf@.len(),
    ensures
        !answer_usable(ok, os_error, bytes) ==> (if os_error == Some(ERROR_HANDLE_EOF) {
            r is Done
        } else {
            r is Failed
        }),
        answer_usable(ok, os_error, bytes) && bytes < 8 ==> r is Done,
        answer_usable(ok, os_error, bytes) && bytes >= 8 ==> match r {
            EnumStep::Batch { next, records, more } => next == le_u64(buf@, 0)
                && records@.map_values(|p: (u64, MftNode)| node_view(p.0, p.1)) == records_from(
                buf@.subrange(8, bytes as int),
                0,
            ) && more == (next != start) && forall|k: int|
                0 <= k < records.len() ==> (#[trigger] records@[k]).1.is_dir == (records@[k].1.attributes
                    & FILE_ATTRIBUTE_DIRECTORY != 0),
            _ => false,
        },
{
    if !ok {
        let eof = match os_error {
            Some(e) => e == ERROR_HANDLE_EOF,
            None => false,
        };
        let more_data = match os_error {
            Some(e) => e == ERROR_MORE_DATA,
            None => false,
        };
        if eof {
            return EnumStep::Done;
        }
        if !(more_data && bytes > 8) {
            return EnumStep::Failed;
        }
    }
    let n = bytes as usize;
    if n < 8 {
        return EnumStep::Done;
    }
    assert(buf.len() == buf@.len());
    let next = read_u64(buf, 0);
    let part = copy_range(buf, 8, n);
    let records = parse_enum_records(part.as_slice());
    EnumStep::Batch { next, records, more: next != start }
}

// ---------------------------------------------------------------------------
// Volumes and paths
// ---------------------------------------------------------------------------

/// A volume name without a `\\.\` or `\\?\` prefix.
pub open spec fn strip_device_prefix(s: Seq<char>) -> Seq<char> {
    if crate::text::starts_with(s, "\\\\.\\"@) || crate::text::starts_with(s, "\\\\?\\"@) {
        s.skip(4)
    } else {
        s
    }
}

pub open spec fn upper_letter(c: char) -> char {
    if 'a' <= c && c <= 'z' {
        ((c as u8) - 32u8) as char
    } else {
        c
    }
}

fn upper_letter_exec(c: char) -> (r: char)
    ensures
        r == upper_letter(c),
{
    if 'a' <= c && c <= 'z' {
        ((c as u8) - 32u8) as char
    } else {
        c
    }
}

fn strip_device_prefix_exec(s: &Vec<char>) -> (r: Vec<char>)
    ensures
        r@ == strip_device_prefix(s@),
{
    if crate::text::starts_with_exec(s, &chars_of("\\\\.\\")) || crate::text::starts_with_exec(
        s,
        &chars_of("\\\\?\\"),
    ) {
        proof {
            reveal_strlit("\\\\.\\");
            reveal_strlit("\\\\?\\");
        }
        let r = crate::text::slice_chars(s, 4, s.len());
        assert(r@ =~= s@.skip(4));
        r
    } else {
        s.clone()
    }
}

/// The device of a volume (`\\.\C:`) from a name such as `C:\`, `c:` or
/// `\\.\C:`; `None` when no drive letter can be read.
pub open spec fn volume_device_spec(volume: Seq<char>) -> Option<Seq<char>> {
    let rest = crate::path::trim_end_seps(strip_device_prefix(volume));
    if rest.len() >= 2 && crate::text::is_ascii_alpha(rest[0]) && rest[1] == ':' {
        Some("\\\\.\\"@ + seq![upper_letter(rest[0]), ':'])
    } else {
        None
    }
}

pub fn volume_device_path(volume: &str) -> (r: Option<String>)
    ensures
        match r {
            Some(s) => volume_device_spec(volume@) == Some(s@),
            None => volume_device_spec(volume@) is None,
        },
{
    let rest = crate::path::trim_end_seps_exec(&strip_device_prefix_exec(&chars_of(volume)));
    if rest.len() >= 2 && (('a' <= rest[0] && rest[0] <= 'z') || ('A' <= rest[0] && rest[0] <= 'Z'))
        && rest[1] == ':' {
        let mut v = chars_of("\\\\.\\");
        v.push(upper_letter_exec(rest[0]));
        v.push(':');
        Some(string_of(&v))
    } else {
        None
    }
}

/// The root folder of a volume (`C:\`), or the name itself when no drive
/// letter can be read.
pub open spec fn volume_root_spec(volume: Seq<char>) -> Seq<char> {
    let rest = strip_device_prefix(volume);
    if rest.len() >= 2 && crate::text::is_ascii_alpha(rest[0]) && rest[1] == ':' {
        seq![upper_letter(rest[0]), ':', '\\']
    } else {
        volume
    }
}

pub fn volume_root_path(volume: &str) -> (r: String)
    ensures
        r@ == volume_root_spec(volume@),
{
    let v = chars_of(volume);
    let rest = strip_device_prefix_exec(&v);
    if rest.len() >= 2 && (('a' <= rest[0] && rest[0] <= 'z') || ('A' <= rest[0] && rest[0] <= 'Z'))
        && rest[1] == ':' {
        let out: Vec<char> = vec![upper_letter_exec(rest[0]), ':', '\\'];
        string_of(&out)
    } else {
        string_of(&v)
    }
}

/// The boot sector names the NTFS file system (`NTFS    ` at byte 3).
pub open spec fn is_ntfs_boot_spec(boot: Seq<u8>) -> bool {
    boot.len() >= 11 && boot.subrange(3, 11) == seq![0x4Eu8, 0x54, 0x46, 0x53, 0x20, 0x20, 0x20, 0x20]
}

pub fn is_ntfs_boot(boot: &[u8]) -> (r: bool)
    ensures
        r == is_ntfs_boot_spec(boot@),
{
    if boot.len() < 11 {
        return false;
    }
    let want: [u8; 8] = [0x4E, 0x54, 0x46, 0x53, 0x20, 0x20, 0x20, 0x20];
    let mut k: usize = 0;
    while k < 8
        invariant
            k <= 8,
            boot@.len() >= 11,
            want@ == seq![0x4Eu8, 0x54, 0x46, 0x53, 0x20, 0x20, 0x20, 0x20],
            forall|j: int| 0 <= j < k ==> boot@[3 + j] == want@[j],
        decreases 8 - k,
    {
        if boot[3 + k] != want[k] {
            assert(boot@.subrange(3, 11)[k as int] != want@[k as int]);
            return false;
        }
        k += 1;
    }
    assert(boot@.subrange(3, 11) =~= want@);
    true
}

/// The names from a node up to (not including) the root, child first: at
/// most `fuel` steps, stopping at the root record, an unknown or unnamed
/// node, or a node that is its own parent.
pub open spec fn path_parts(nodes: Map<u64, MftNode>, cur: u64, fuel: int) -> Seq<Seq<char>>
    decreases fuel,
{
    if fuel <= 0 || cur & FRN_INDEX_MASK == MFT_ROOT_INDEX || !nodes.contains_key(cur) {
        Seq::empty()
    } else {
        let n = nodes[cur];
        if n.name@.len() == 0 || n.name@ == "."@ {
            Seq::empty()
        } else {
            seq![n.name@] + match n.parent {
                Some(p) => if p != cur {
                    path_parts(nodes, p, fuel - 1)
                } else {
                    Seq::empty()
                },
                None => Seq::empty(),
            }
        }
    }
}

/// The root joined with the names, outermost first.
pub open spec fn join_parts(root: Seq<char>, parts: Seq<Seq<char>>) -> Seq<char>
    decreases parts.len(),
{
    if parts.len() == 0 {
        root
    } else {
        join_path(join_parts(root, parts.drop_first()), parts[0])
    }
}

/// The path of node `id` below `root`.
pub open spec fn node_path(nodes: Map<u64, MftNode>, id: u64, root: Seq<char>) -> Seq<char> {
    join_parts(root, path_parts(nodes, id, 512))
}

pub fn resolve_path(id: u64, nodes: &HashMap<u64, MftNode>, root: &str) -> (r: String)
    ensures
        r@ == node_path(nodes@, id, root@),
{
    let mut parts: Vec<Vec<char>> = Vec::new();
    let mut cur = id;
    let mut fuel: usize = 512;
    let ghost full = path_parts(nodes@, id, 512);
    assert(full =~= parts@.map_values(|v: Vec<char>| v@) + path_parts(nodes@, cur, fuel as int));
    while fuel > 0
        invariant_except_break
            full == parts@.map_values(|v: Vec<char>| v@) + path_parts(nodes@, cur, fuel as int),
        invariant
            fuel <= 512,
            full == path_parts(nodes@, id, 512),
        ensures
            full == parts@.map_values(|v: Vec<char>| v@),
        decreases fuel,
    {
        let ghost pv = parts@.map_values(|v: Vec<char>| v@);
        if cur & FRN_INDEX_MASK == MFT_ROOT_INDEX {
            assert(pv + Seq::<Seq<char>>::empty() =~= pv);
            break;
        }
        match nodes.get(&cur) {
            Some(node) => {
                let name = chars_of(node.name.as_str());
                if name.len() == 0 || chars_eq(&name, &chars_of(".")) {
                    assert(pv + Seq::<Seq<char>>::empty() =~= pv);
                    break;
                }
                let ghost rest = match node.parent {
                    Some(p) => if p != cur {
                        path_parts(nodes@, p, fuel - 1)
                    } else {
                        Seq::empty()
                    },
                    None => Seq::empty(),
                };
                parts.push(name);
                assert(parts@.map_values(|v: Vec<char>| v@) =~= pv.push(node.name@));
                assert(pv + (seq![node.name@] + rest) =~= pv.push(node.name@) + rest);
                let ghost now = parts@.map_values(|v: Vec<char>| v@);
                match node.parent {
                    Some(p) => {
                        if p != cur {
                            cur = p;
                            fuel = fuel - 1;
                        } else {
                            assert(now + Seq::<Seq<char>>::empty() =~= now);
                            break;
                        }
                    },
                    None => {
                        assert(now + Seq::<Seq<char>>::empty() =~= now);
                        break;
                    },
                }
            },
            None => {
                assert(pv + Seq::<Seq<char>>::empty() =~= pv);
                break;
            },
        }
    }
    let mut path = chars_of(root);
    let ghost pv = parts@.map_values(|v: Vec<char>| v@);
    let mut k = parts.len();
    assert(pv.skip(k as int) =~= Seq::<Seq<char>>::empty());
    while k > 0
        invariant
            k <= parts.len(),
            pv == parts@.map_values(|v: Vec<char>| v@),
            path@ == join_parts(root@, pv.skip(k as int)),
        decreases k,
    {
        k -= 1;
        assert(pv.skip(k as int).drop_first() =~= pv.skip(k + 1));
        assert(pv.skip(k as int)[0] == parts@[k as int]@);
        path = join_path_exec(&path, &parts[k]);
    }
    assert(pv.skip(0) =~= pv);
    string_of(&path)
}

/// The catalog record for a node: the root record has no parent.
pub open spec fn mft_record(id: u64, n: MftNode, path: Seq<char>) -> (u64, Option<u64>, Seq<char>, Seq<char>, u64, bool, u32) {
    (
        id,
        if id & FRN_INDEX_MASK != MFT_ROOT_INDEX {
            n.parent
        } else {
            None
        },
        n.name@,
        path,
        n.modified,
        n.is_dir,
        n.attributes,
    )
}

pub open spec fn record_view(r: FileRecord) -> (u64, Option<u64>, Seq<char>, Seq<char>, u64, bool, u32) {
    (r.id, r.parent_id, r.name@, r.path@, r.modified, r.is_dir, r.attributes)
}

/// The catalog records (size 0) for the nodes with ids `ids`, with their
/// paths resolved below `root`.
pub fn mft_records(ids: &Vec<u64>, nodes: &HashMap<u64, MftNode>, root: &str) -> (r: Vec<FileRecord>)
    requires
        forall|k: int| 0 <= k < ids.len() ==> nodes@.contains_key(#[trigger] ids@[k]),
    ensures
        r.len() == ids.len(),
        forall|k: int|
            0 <= k < ids.len() ==> #[trigger] record_view(r@[k]) == mft_record(
                ids@[k],
                nodes@[ids@[k]],
                node_path(nodes@, ids@[k], root@),
            ) && r@[k].size == 0,
{
    let mut out: Vec<FileRecord> = Vec::new();
    let mut i: usize = 0;
    while i < ids.len()
        invariant
            i <= ids.len(),
            out.len() == i,
            forall|k: int| 0 <= k < ids.len() ==> nodes@.contains_key(#[trigger] ids@[k]),
            forall|k: int|
                0 <= k < i ==> #[trigger] record_view(out@[k]) == mft_record(
                    ids@[k],
                    nodes@[ids@[k]],
                    node_path(nodes@, ids@[k], root@),
                ) && out@[k].size == 0,
        decreases ids.len() - i,
    {
        let id = ids[i];
        assert(nodes@.contains_key(ids@[i as int]));
        let node = nodes.get(&id).unwrap();
        let path = resolve_path(id, nodes, root);
        out.push(
            FileRecord {
                id,
                parent_id: if id & FRN_INDEX_MASK != MFT_ROOT_INDEX {
                    node.parent
                } else {
                    None
                },
                name: node.name.clone(),
                path,
                size: 0,
                modified: node.modified,
                is_dir: node.is_dir,
                attributes: node.attributes,
            },
        );
        i += 1;
    }
    out
}

} // verus!
