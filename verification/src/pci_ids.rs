//! The PCI ID database file (`pci.ids`): its vendor and device lines are read into the
//! vendor list that device lookups search, vendors and devices ordered by ID.
//!
//! Each line holds, after optional leading tabs, a hexadecimal ID, whitespace and a name.
//! A line without tabs starts a vendor, a line with one tab adds a device to the last
//! vendor, lines with two tabs (subsystems) are skipped, as are blank lines and comments.
//! The device class list that follows the vendors, starting at an ID of `C`, is not read.
use vstd::prelude::*;
use vstd::utf8::{valid_utf8, decode_utf8};
use crate::pci::{DeviceEntry, VendorEntry};

verus! {

/// Why a database file cannot be read.
#[derive(Copy, Clone, PartialEq, Eq, Structural, Debug)]
pub enum PciIdsError {
    /// A line starts with three tabs.
    TooDeep,
    /// An ID is not followed by whitespace and a name.
    MissingName,
    /// An ID is not a 16 bit hexadecimal number.
    BadId,
    /// A device line comes before any vendor line.
    DeviceWithoutVendor,
    /// A name is not valid UTF-8.
    BadName,
}

/// What a line of the database holds.
#[derive(Copy, Clone, PartialEq, Eq, Structural, Debug)]
pub enum LineKind {
    /// Blank, comment or subsystem line.
    Skip,
    /// Start of the device class list: the vendor list ends.
    Stop,
    Vendor(u16),
    Device(u16),
    Error(PciIdsError),
}

/// ASCII whitespace: tab, line feed, vertical tab, form feed, carriage return, space.
pub open spec fn ascii_ws(c: u8) -> bool {
    (9 <= c <= 13) || c == 32
}

/// The three bytes encode a Unicode whitespace character outside Latin-1.
pub open spec fn ws3(a: u8, b: u8, c: u8) -> bool {
    ||| a == 0xe1 && b == 0x9a && c == 0x80
    ||| a == 0xe2 && b == 0x80 && ((0x80 <= c <= 0x8a) || c == 0xa8 || c == 0xa9 || c == 0xaf)
    ||| a == 0xe2 && b == 0x81 && c == 0x9f
    ||| a == 0xe3 && b == 0x80 && c == 0x80
}

/// Length of the UTF-8 encoded Unicode whitespace character at `i` in `s`, 0 if there is
/// none there.
pub open spec fn ws_len(s: Seq<u8>, i: int) -> int {
    if 0 <= i < s.len() && ascii_ws(s[i]) {
        1
    } else if 0 <= i && i + 2 <= s.len() && s[i] == 0xc2 && (s[i + 1] == 0x85 || s[i + 1] == 0xa0) {
        2
    } else if 0 <= i && i + 3 <= s.len() && ws3(s[i], s[i + 1], s[i + 2]) {
        3
    } else {
        0
    }
}

/// Length of the whitespace character that ends `s`, 0 if there is none.
pub open spec fn ws_len_back(s: Seq<u8>) -> int {
    let n = s.len() as int;
    if n >= 1 && ascii_ws(s[n - 1]) {
        1
    } else if n >= 2 && s[n - 2] == 0xc2 && (s[n - 1] == 0x85 || s[n - 1] == 0xa0) {
        2
    } else if n >= 3 && ws3(s[n - 3], s[n - 2], s[n - 1]) {
        3
    } else {
        0
    }
}

/// `s` without leading whitespace.
pub open spec fn trim_start(s: Seq<u8>) -> Seq<u8>
    decreases s.len(),
{
    if ws_len(s, 0) > 0 {
        trim_start(s.skip(ws_len(s, 0)))
    } else {
        s
    }
}

/// `s` without trailing whitespace.
pub open spec fn trim_end(s: Seq<u8>) -> Seq<u8>
    decreases s.len(),
{
    if ws_len_back(s) > 0 {
        trim_end(s.take(s.len() - ws_len_back(s)))
    } else {
        s
    }
}

/// `s` without leading and trailing whitespace.
pub open spec fn trim(s: Seq<u8>) -> Seq<u8> {
    trim_end(trim_start(s))
}

/// Position of the first whitespace character in `s` at or after `i`.
pub open spec fn find_ws(s: Seq<u8>, i: int) -> Option<int>
    decreases s.len() - i,
{
    if i < 0 || i >= s.len() {
        None
    } else if ws_len(s, i) > 0 {
        Some(i)
    } else {
        find_ws(s, i + 1)
    }
}

/// Value of the hexadecimal digit `c`.
pub open spec fn hex_digit(c: u8) -> Option<nat> {
    if 48 <= c <= 57 {
        Some((c - 48) as nat)
    } else if 97 <= c <= 102 {
        Some((c - 87) as nat)
    } else if 65 <= c <= 70 {
        Some((c - 55) as nat)
    } else {
        None
    }
}

/// Value of the hexadecimal digits `d`, if they all are digits.
pub open spec fn hex_digits(d: Seq<u8>) -> Option<nat>
    decreases d.len(),
{
    if d.len() == 0 {
        Some(0)
    } else {
        match (hex_digits(d.drop_last()), hex_digit(d.last())) {
            (Some(v), Some(x)) => Some(v * 16 + x),
            _ => None,
        }
    }
}

/// The 16 bit number written in hexadecimal in `s`, with an optional `+` in front.
pub open spec fn hex_value(s: Seq<u8>) -> Option<u16> {
    let d = if s.len() > 0 && s[0] == 43 {
        s.skip(1)
    } else {
        s
    };
    if d.len() == 0 {
        None
    } else {
        match hex_digits(d) {
            Some(v) => if v <= 0xffff {
                Some(v as u16)
            } else {
                None
            },
            None => None,
        }
    }
}

/// Number of tabs that `line` starts with, up to three.
pub open spec fn tabs(line: Seq<u8>) -> int {
    if line.len() >= 3 && line[0] == 9 && line[1] == 9 && line[2] == 9 {
        3
    } else if line.len() >= 2 && line[0] == 9 && line[1] == 9 {
        2
    } else if line.len() >= 1 && line[0] == 9 {
        1
    } else {
        0
    }
}

/// What `line` holds.
pub open spec fn line_kind(line: Seq<u8>) -> LineKind {
    let t = trim(line);
    if t.len() == 0 || t[0] == 35 {
        LineKind::Skip
    } else if tabs(line) == 3 {
        LineKind::Error(PciIdsError::TooDeep)
    } else if tabs(line) == 2 {
        LineKind::Skip
    } else {
        match find_ws(t, 0) {
            None => LineKind::Error(PciIdsError::MissingName),
            Some(w) => if t.take(w) == seq![67u8] {
                LineKind::Stop
            } else {
                match hex_value(t.take(w)) {
                    None => LineKind::Error(PciIdsError::BadId),
                    Some(id) => if tabs(line) == 0 {
                        LineKind::Vendor(id)
                    } else {
                        LineKind::Device(id)
                    },
                }
            },
        }
    }
}

/// Name on a vendor or device `line`: what follows the ID, trimmed.
pub open spec fn line_name(line: Seq<u8>) -> Seq<u8> {
    let t = trim(line);
    trim(t.skip(find_ws(t, 0).unwrap()))
}

/// Length of the whitespace character at `i` of `s`.
fn ws_at(s: &[u8], i: usize) -> (r: usize)
    ensures
        r == ws_len(s@, i as int),
        r <= 3,
{
    let n = s.len();
    if i >= n {
        return 0;
    }
    let c = s[i];
    if (9 <= c && c <= 13) || c == 32 {
        return 1;
    }
    if n - i >= 2 && c == 0xc2 && (s[i + 1] == 0x85 || s[i + 1] == 0xa0) {
        return 2;
    }
    if n - i >= 3 {
        let b = s[i + 1];
        let d = s[i + 2];
        if (c == 0xe1 && b == 0x9a && d == 0x80) || (c == 0xe2 && b == 0x80 && ((0x80 <= d && d
            <= 0x8a) || d == 0xa8 || d == 0xa9 || d == 0xaf)) || (c == 0xe2 && b == 0x81 && d
            == 0x9f) || (c == 0xe3 && b == 0x80 && d == 0x80) {
            return 3;
        }
    }
    0
}

/// Length of the whitespace character that ends `s[start..end]`.
fn ws_before(s: &[u8], start: usize, end: usize) -> (r: usize)
    requires
        start <= end <= s@.len(),
    ensures
        r == ws_len_back(s@.subrange(start as int, end as int)),
        r <= end - start,
{
    let ghost t = s@.subrange(start as int, end as int);
    let n = end - start;
    if n >= 1 {
        let c = s[end - 1];
        if (9 <= c && c <= 13) || c == 32 {
            return 1;
        }
    }
    if n >= 2 && s[end - 2] == 0xc2 && (s[end - 1] == 0x85 || s[end - 1] == 0xa0) {
        return 2;
    }
    if n >= 3 {
        let a = s[end - 3];
        let b = s[end - 2];
        let d = s[end - 1];
        if (a == 0xe1 && b == 0x9a && d == 0x80) || (a == 0xe2 && b == 0x80 && ((0x80 <= d && d
            <= 0x8a) || d == 0xa8 || d == 0xa9 || d == 0xaf)) || (a == 0xe2 && b == 0x81 && d
            == 0x9f) || (a == 0xe3 && b == 0x80 && d == 0x80) {
            return 3;
        }
    }
    0
}

/// Bounds of `s[start..]` trimmed.
fn trim_range(s: &[u8], start: usize) -> (r: (usize, usize))
    requires
        start <= s@.len(),
    ensures
        start <= r.0 <= r.1 <= s@.len(),
        s@.subrange(r.0 as int, r.1 as int) == trim(s@.skip(start as int)),
{
    let n = s.len();
    let mut a = start;
    while a < n
        invariant
            start <= a <= n == s@.len(),
            trim_start(s@.skip(start as int)) == trim_start(s@.skip(a as int)),
        ensures
            start <= a <= n == s@.len(),
            trim_start(s@.skip(start as int)) == trim_start(s@.skip(a as int)),
            ws_len(s@.skip(a as int), 0) == 0,
        decreases n - a,
    {
        let w = ws_at(s, a);
        assert(ws_len(s@.skip(a as int), 0) == w);
        if w == 0 {
            break;
        }
        assert(s@.skip(a as int).skip(w as int) =~= s@.skip(a + w));
        a = a + w;
    }
    assert(ws_len(s@.skip(a as int), 0) == 0);
    assert(trim_start(s@.skip(start as int)) == s@.skip(a as int));
    let mut b = n;
    assert(s@.skip(a as int) =~= s@.subrange(a as int, b as int));
    while b > a
        invariant
            a <= b <= n == s@.len(),
            trim_end(s@.subrange(a as int, n as int)) == trim_end(s@.subrange(a as int, b as int)),
        ensures
            a <= b <= n == s@.len(),
            trim_end(s@.subrange(a as int, n as int)) == trim_end(s@.subrange(a as int, b as int)),
            ws_len_back(s@.subrange(a as int, b as int)) == 0,
        decreases b - a,
    {
        let w = ws_before(s, a, b);
        if w == 0 {
            break;
        }
        assert(s@.subrange(a as int, b as int).take(b - a - w) =~= s@.subrange(a as int, b - w));
        b = b - w;
    }
    assert(ws_len_back(s@.subrange(a as int, b as int)) == 0);
    (a, b)
}

/// Position of the first whitespace character in `s` at or after `i`.
fn first_ws(s: &[u8], i: usize) -> (r: Option<usize>)
    requires
        i <= s@.len(),
    ensures
        match find_ws(s@, i as int) {
            Some(w) => r == Some(w as usize),
            None => r is None,
        },
        r matches Some(w) ==> i <= w < s@.len() && find_ws(s@, i as int) == Some(w as int),
{
    let n = s.len();
    let mut j = i;
    while j < n
        invariant
            i <= j <= n == s@.len(),
            find_ws(s@, i as int) == find_ws(s@, j as int),
        decreases n - j,
    {
        if ws_at(s, j) > 0 {
            return Some(j);
        }
        j += 1;
    }
    None
}

/// The value of the hexadecimal number `s`, with an optional `+` in front, if it fits in
/// 16 bits.
fn parse_hex(s: &[u8]) -> (r: Option<u16>)
    ensures
        r == hex_value(s@),
{
    let n = s.len();
    let start: usize = if n > 0 && s[0] == 43 {
        1
    } else {
        0
    };
    let ghost d = if s@.len() > 0 && s@[0] == 43 { s@.skip(1) } else { s@ };
    assert(d =~= s@.skip(start as int));
    if start == n {
        return None;
    }
    let mut value: u32 = 0;
    let mut i = start;
    while i < n
        invariant
            start <= i <= n == s@.len(),
            start < n,
            d == s@.skip(start as int),
            d == (if s@.len() > 0 && s@[0] == 43 {
                s@.skip(1)
            } else {
                s@
            }),
            hex_digits(s@.subrange(start as int, i as int)) == Some(value as nat),
            value <= 0xffff,
        decreases n - i,
    {
        let c = s[i];
        let digit: u32 = if 48 <= c && c <= 57 {
            (c - 48) as u32
        } else if 97 <= c && c <= 102 {
            (c - 87) as u32
        } else if 65 <= c && c <= 70 {
            (c - 55) as u32
        } else {
            proof {
                assert(s@.subrange(start as int, n as int) =~= d);
                assert(d[i - start] == c);
                lemma_hex_digits_fail(d, (i - start) as int);
            }
            return None;
        };
        assert(s@.subrange(start as int, i + 1).drop_last() =~= s@.subrange(start as int, i as int));
        let next = value * 16 + digit;
        if next > 0xffff {
            proof {
                assert(s@.subrange(start as int, n as int) =~= d);
                assert(d.take((i - start + 1) as int) =~= s@.subrange(start as int, i + 1));
                assert(hex_digits(d.take((i - start + 1) as int)) == Some(next as nat));
                lemma_hex_digits_grow(d, (i - start + 1) as int);
            }
            return None;
        }
        value = next;
        i += 1;
    }
    assert(s@.subrange(start as int, n as int) =~= d);
    Some(value as u16)
}

/// A prefix of the digits that is not all digits makes the whole not all digits.
proof fn lemma_hex_digits_fail(d: Seq<u8>, k: int)
    requires
        0 <= k < d.len(),
        hex_digit(d[k]) is None,
    ensures
        hex_digits(d) is None,
    decreases d.len(),
{
    if k < d.len() - 1 {
        lemma_hex_digits_fail(d.drop_last(), k);
    }
}

/// Digits never lose value as more follow.
proof fn lemma_hex_digits_grow(d: Seq<u8>, k: int)
    requires
        0 <= k <= d.len(),
    ensures
        hex_digits(d.take(k)) is None ==> hex_digits(d) is None,
        (hex_digits(d) is Some && hex_digits(d.take(k)) is Some) ==> hex_digits(d.take(k))->0
            <= hex_digits(d)->0,
    decreases d.len(),
{
    if k < d.len() {
        lemma_hex_digits_grow(d.drop_last(), k);
        assert(d.drop_last().take(k) =~= d.take(k));
    } else {
        assert(d.take(k) =~= d);
    }
}


/// Kind of `line`, and where its name lies in it for a vendor or device line.
pub fn classify_line(line: &[u8]) -> (r: (LineKind, usize, usize))
    ensures
        r.0 == line_kind(line@),
        (r.0 is Vendor || r.0 is Device) ==> r.1 <= r.2 <= line@.len() && line@.subrange(
            r.1 as int,
            r.2 as int,
        ) == line_name(line@),
{
    let (ts, te) = trim_range(line, 0);
    assert(line@.skip(0) =~= line@);
    let t = vstd::slice::slice_subrange(line, ts, te);
    let tn = t.len();
    if tn == 0 || t[0] == 35 {
        return (LineKind::Skip, 0, 0);
    }
    let n = line.len();
    let depth: usize = if n >= 3 && line[0] == 9 && line[1] == 9 && line[2] == 9 {
        3
    } else if n >= 2 && line[0] == 9 && line[1] == 9 {
        2
    } else if n >= 1 && line[0] == 9 {
        1
    } else {
        0
    };
    if depth == 3 {
        return (LineKind::Error(PciIdsError::TooDeep), 0, 0);
    }
    if depth == 2 {
        return (LineKind::Skip, 0, 0);
    }
    let w = match first_ws(t, 0) {
        Some(w) => w,
        None => return (LineKind::Error(PciIdsError::MissingName), 0, 0),
    };
    let id_text = vstd::slice::slice_subrange(t, 0, w);
    assert(id_text@ =~= t@.take(w as int));
    let ghost tt = trim(line@);
    assert(tt == t@);
    assert(tt.len() != 0 && tt[0] != 35);
    assert(tabs(line@) == depth as int);
    assert(find_ws(tt, 0) == Some(w as int));
    if w == 1 && t[0] == 67 {
        assert(tt.take(1) =~= seq![67u8]);
        assert(line_kind(line@) == LineKind::Stop);
        return (LineKind::Stop, 0, 0);
    }
    proof {
        if t@.take(w as int) == seq![67u8] {
            assert(t@.take(w as int).len() == 1);
            assert(t@.take(w as int)[0] == 67);
        }
    }
    let id = match parse_hex(id_text) {
        Some(id) => id,
        None => return (LineKind::Error(PciIdsError::BadId), 0, 0),
    };
    let (ns, ne) = trim_range(t, w);
    assert(line@.subrange(ts + ns, ts + ne) =~= t@.subrange(ns as int, ne as int));
    if depth == 0 {
        (LineKind::Vendor(id), ts + ns, ts + ne)
    } else {
        (LineKind::Device(id), ts + ns, ts + ne)
    }
}

/// End of the line that starts at `pos`: the position of the next line feed, or the end
/// of `b`.
pub open spec fn line_end(b: Seq<u8>, pos: int) -> int
    decreases b.len() - pos,
{
    if pos >= b.len() {
        b.len() as int
    } else if b[pos] == 10 {
        pos
    } else {
        line_end(b, pos + 1)
    }
}

/// The line starting at `pos` ends at the next line feed or at the end of `b`.
pub proof fn lemma_line_end(b: Seq<u8>, pos: int)
    requires
        0 <= pos <= b.len(),
    ensures
        pos <= line_end(b, pos) <= b.len(),
        line_end(b, pos) < b.len() ==> b[line_end(b, pos)] == 10,
        forall|k: int| pos <= k < line_end(b, pos) ==> b[k] != 10,
    decreases b.len() - pos,
{
    if pos < b.len() && b[pos] != 10 {
        lemma_line_end(b, pos + 1);
    }
}

/// A vendor read from the file: its ID, name and devices, names as bytes.
pub type VendorLine = (u16, Seq<u8>, Seq<(u16, Seq<u8>)>);

/// The vendors of the lines of `b` from `pos` on, appended to `acc`, in file order; or the
/// first error.
pub open spec fn read_vendors(b: Seq<u8>, pos: int, acc: Seq<VendorLine>) -> Result<
    Seq<VendorLine>,
    PciIdsError,
>
    decreases b.len() + 1 - pos,
{
    if pos < 0 || pos > b.len() {
        Ok(acc)
    } else {
        let end = line_end(b, pos);
        proof {
            lemma_line_end(b, pos);
        }
        let line = b.subrange(pos, end);
        let name = line_name(line);
        match line_kind(line) {
            LineKind::Skip => read_vendors(b, end + 1, acc),
            LineKind::Stop => Ok(acc),
            LineKind::Error(e) => Err(e),
            LineKind::Vendor(id) => if !valid_utf8(name) {
                Err(PciIdsError::BadName)
            } else {
                read_vendors(b, end + 1, acc.push((id, name, Seq::empty())))
            },
            LineKind::Device(id) => if acc.len() == 0 {
                Err(PciIdsError::DeviceWithoutVendor)
            } else if !valid_utf8(name) {
                Err(PciIdsError::BadName)
            } else {
                let last = acc.last();
                read_vendors(b, end + 1, acc.drop_last().push((last.0, last.1, last.2.push((id, name)))))
            },
        }
    }
}

/// A device with its name as text.
pub open spec fn device_view(d: DeviceEntry) -> (u16, Seq<char>) {
    (d.device_id, d.name@)
}

/// A vendor with its name and devices as text.
pub open spec fn vendor_view(v: VendorEntry) -> (u16, Seq<char>, Seq<(u16, Seq<char>)>) {
    (v.vendor_id, v.name@, device_views(v.devices@))
}

/// A vendor read from the file with its names decoded.
pub open spec fn decoded(v: VendorLine) -> (u16, Seq<char>, Seq<(u16, Seq<char>)>) {
    (v.0, decode_utf8(v.1), v.2.map_values(|d: (u16, Seq<u8>)| (d.0, decode_utf8(d.1))))
}

/// The vendors `v` are those read from the file, `s`, with their names decoded.
pub open spec fn same_vendors(v: Seq<VendorEntry>, s: Seq<VendorLine>) -> bool {
    &&& v.len() == s.len()
    &&& forall|i: int| 0 <= i < v.len() ==> #[trigger] vendor_view(v[i]) == decoded(s[i])
}

/// The text of the UTF-8 bytes `bytes`.
fn to_string(bytes: &[u8]) -> (r: Option<String>)
    ensures
        r is Some <==> valid_utf8(bytes@),
        r matches Some(s) ==> s@ == decode_utf8(bytes@),
{
    match crate::elf::str_from_utf8(bytes) {
        Some(s) => {
            proof {
                vstd::utf8::encode_utf8_decode_utf8(s@);
            }
            Some(s.to_owned())
        },
        None => None,
    }
}

/// Read the vendors and their devices from the PCI ID database file `text`, in file order,
/// up to the device class list.
pub fn parse_pci_ids(text: &[u8]) -> (r: Result<Vec<VendorEntry>, PciIdsError>)
    ensures
        match read_vendors(text@, 0, Seq::empty()) {
            Ok(vs) => r matches Ok(v) && same_vendors(v@, vs),
            Err(e) => r == Err::<Vec<VendorEntry>, PciIdsError>(e),
        },
{
    let n = text.len();
    let mut vendors: Vec<VendorEntry> = Vec::new();
    let ghost mut acc: Seq<VendorLine> = Seq::empty();
    let mut pos: usize = 0;
    loop
        invariant
            n == text@.len(),
            pos <= n,
            read_vendors(text@, 0, Seq::empty()) == read_vendors(text@, pos as int, acc),
            same_vendors(vendors@, acc),
        decreases n - pos,
    {
        let mut end = pos;
        while end < n && text[end] != 10
            invariant
                pos <= end <= n == text@.len(),
                line_end(text@, pos as int) == line_end(text@, end as int),
            decreases n - end,
        {
            end += 1;
        }
        proof {
            lemma_line_end(text@, pos as int);
        }
        let line = vstd::slice::slice_subrange(text, pos, end);
        let ghost acc0 = acc;
        let (kind, ns, ne) = classify_line(line);
        match kind {
            LineKind::Skip => {},
            LineKind::Stop => return Ok(vendors),
            LineKind::Error(e) => return Err(e),
            LineKind::Vendor(id) => {
                let name = match to_string(vstd::slice::slice_subrange(line, ns, ne)) {
                    Some(name) => name,
                    None => return Err(PciIdsError::BadName),
                };
                let ghost entry: VendorLine = (id, line_name(line@), Seq::empty());
                vendors.push(VendorEntry { vendor_id: id, name, devices: Vec::new() });
                proof {
                    assert(device_views(Seq::<DeviceEntry>::empty()) =~= Seq::<DeviceView>::empty());
                    assert(entry.2.map_values(|d: (u16, Seq<u8>)| (d.0, decode_utf8(d.1))) =~= Seq::<
                        DeviceView,
                    >::empty());
                    acc = acc.push(entry);
                    assert(vendor_view(vendors@[vendors@.len() - 1]) == decoded(acc[acc.len() - 1]));
                    assert(same_vendors(vendors@, acc));
                }
            },
            LineKind::Device(id) => {
                if vendors.len() == 0 {
                    return Err(PciIdsError::DeviceWithoutVendor);
                }
                let name = match to_string(vstd::slice::slice_subrange(line, ns, ne)) {
                    Some(name) => name,
                    None => return Err(PciIdsError::BadName),
                };
                let ghost before = vendors@;
                let mut vendor = vendors.pop().unwrap();
                let ghost old_devices = vendor.devices@;
                let ghost name_text = name@;
                vendor.devices.push(DeviceEntry { device_id: id, name });
                let ghost last = acc.last();
                vendors.push(vendor);
                proof {
                    let gd = |d: (u16, Seq<u8>)| (d.0, decode_utf8(d.1));
                    assert(vendor_view(before[before.len() - 1]) == decoded(acc[acc.len() - 1]));
                    assert(device_views(old_devices) == last.2.map_values(gd));
                    assert(device_views(vendor.devices@) =~= device_views(old_devices).push(
                        (id, name_text),
                    ));
                    assert(last.2.push((id, line_name(line@))).map_values(gd) =~= last.2.map_values(
                        gd,
                    ).push((id, decode_utf8(line_name(line@)))));
                    acc = acc.drop_last().push((last.0, last.1, last.2.push((id, line_name(line@)))));
                    assert(vendor_view(vendors@[vendors@.len() - 1]) == decoded(acc[acc.len() - 1]));
                    assert(same_vendors(vendors@, acc));
                }
            },
        }
        assert(read_vendors(text@, pos as int, acc0) == read_vendors(text@, end + 1, acc));
        if end == n {
            assert(read_vendors(text@, end + 1, acc) == Ok::<Seq<VendorLine>, PciIdsError>(acc));
            return Ok(vendors);
        }
        pos = end + 1;
    }
}

/// Length of the longest prefix of `s` whose keys are at most `k`: where an element with
/// key `k` goes in `s` sorted by key, after the elements with the same key.
pub open spec fn prefix_le<T>(s: Seq<T>, key: spec_fn(T) -> u16, k: u16) -> nat
    decreases s.len(),
{
    if s.len() == 0 {
        0
    } else if key(s[0]) <= k {
        1 + prefix_le(s.drop_first(), key, k)
    } else {
        0
    }
}

/// `s` sorted by `key`, elements with equal keys in their order in `s`.
pub open spec fn sort_by<T>(s: Seq<T>, key: spec_fn(T) -> u16) -> Seq<T>
    decreases s.len(),
{
    if s.len() == 0 {
        s
    } else {
        let r = sort_by(s.drop_last(), key);
        r.insert(prefix_le(r, key, key(s.last())) as int, s.last())
    }
}

/// `s` is ordered by `key`.
pub open spec fn sorted_by<T>(s: Seq<T>, key: spec_fn(T) -> u16) -> bool {
    forall|i: int, j: int| 0 <= i < j < s.len() ==> key(s[i]) <= key(s[j])
}

proof fn lemma_prefix_le<T>(r: Seq<T>, key: spec_fn(T) -> u16, k: u16)
    ensures
        prefix_le(r, key, k) <= r.len(),
        forall|j: int| 0 <= j < prefix_le(r, key, k) ==> key(r[j]) <= k,
        prefix_le(r, key, k) < r.len() ==> key(r[prefix_le(r, key, k) as int]) > k,
    decreases r.len(),
{
    if r.len() > 0 && key(r[0]) <= k {
        lemma_prefix_le(r.drop_first(), key, k);
        assert forall|j: int| 0 <= j < prefix_le(r, key, k) implies key(r[j]) <= k by {
            if j > 0 {
                assert(r[j] == r.drop_first()[j - 1]);
            }
        }
    }
}

/// Sorting by a key orders the elements by it and keeps every element as often as it
/// occurs.
pub proof fn lemma_sort_by<T>(s: Seq<T>, key: spec_fn(T) -> u16)
    ensures
        sorted_by(sort_by(s, key), key),
        sort_by(s, key).to_multiset() == s.to_multiset(),
    decreases s.len(),
{
    broadcast use vstd::seq_lib::to_multiset_insert, vstd::seq_lib::to_multiset_build;

    if s.len() > 0 {
        let r = sort_by(s.drop_last(), key);
        let x = s.last();
        let k = key(x);
        lemma_sort_by(s.drop_last(), key);
        lemma_prefix_le(r, key, k);
        let p = prefix_le(r, key, k) as int;
        let t = r.insert(p, x);
        assert forall|i: int, j: int| 0 <= i < j < t.len() implies key(t[i]) <= key(t[j]) by {
            if j < p {
            } else if j == p {
            } else if i < p {
                assert(t[j] == r[j - 1]);
            } else if i == p {
                assert(t[j] == r[j - 1]);
                assert(key(r[p]) > k);
                if j - 1 > p {
                    assert(key(r[p]) <= key(r[j - 1]));
                }
            } else {
                assert(t[i] == r[i - 1] && t[j] == r[j - 1]);
            }
        }
        assert(s.drop_last().push(x) =~= s);
    }
}

/// Each vendor of the database has its devices in order of ID, and the vendors come in
/// order of ID: what the binary searches of the lookup rely on.
pub proof fn lemma_database_sorted(vs: Seq<VendorView>)
    ensures
        sorted_by(database(vs), vendor_key()),
        forall|i: int| 0 <= i < database(vs).len() ==> sorted_by(#[trigger] database(vs)[i].2, device_key()),
        database(vs).to_multiset() == kept(vs).to_multiset(),
{
    lemma_sort_by(kept(vs), vendor_key());
    lemma_kept_sorted(vs);
    assert forall|i: int| 0 <= i < database(vs).len() implies sorted_by(#[trigger] database(vs)[i].2, device_key()) by {
        let v = database(vs)[i];
        vstd::seq_lib::to_multiset_contains(database(vs), v);
        vstd::seq_lib::to_multiset_contains(kept(vs), v);
        assert(database(vs).contains(v));
    }
}

/// Every vendor kept has its devices sorted.
proof fn lemma_kept_sorted(vs: Seq<VendorView>)
    ensures
        forall|v: VendorView| kept(vs).contains(v) ==> sorted_by(v.2, device_key()),
    decreases vs.len(),
{
    if vs.len() > 0 {
        lemma_kept_sorted(vs.drop_last());
        lemma_sort_by(vs.last().2, device_key());
        let prev = kept(vs.drop_last());
        if vs.last().2.len() > 0 {
            let x = with_sorted_devices(vs.last());
            assert forall|v: VendorView| kept(vs).contains(v) implies sorted_by(v.2, device_key()) by {
                let i = choose|i: int| 0 <= i < kept(vs).len() && kept(vs)[i] == v;
                if i < prev.len() {
                    assert(prev[i] == v);
                    assert(prev.contains(v));
                } else {
                    assert(v == x);
                }
            }
        }
    }
}

pub type DeviceView = (u16, Seq<char>);

pub type VendorView = (u16, Seq<char>, Seq<DeviceView>);

pub open spec fn device_key() -> spec_fn(DeviceView) -> u16 {
    |d: DeviceView| d.0
}

pub open spec fn vendor_key() -> spec_fn(VendorView) -> u16 {
    |v: VendorView| v.0
}

/// Views of the devices `d`.
pub open spec fn device_views(d: Seq<DeviceEntry>) -> Seq<DeviceView> {
    Seq::new(d.len(), |i: int| device_view(d[i]))
}

/// Views of the vendors `v`.
pub open spec fn vendor_views(v: Seq<VendorEntry>) -> Seq<VendorView> {
    Seq::new(v.len(), |i: int| vendor_view(v[i]))
}

/// The vendor with its devices sorted by ID.
pub open spec fn with_sorted_devices(v: VendorView) -> VendorView {
    (v.0, v.1, sort_by(v.2, device_key()))
}

/// The vendors of `vs` that have devices, in file order, each with its devices sorted.
pub open spec fn kept(vs: Seq<VendorView>) -> Seq<VendorView>
    decreases vs.len(),
{
    if vs.len() == 0 {
        Seq::empty()
    } else if vs.last().2.len() > 0 {
        kept(vs.drop_last()).push(with_sorted_devices(vs.last()))
    } else {
        kept(vs.drop_last())
    }
}

/// The lookup database built from the vendors `vs` read from the file: vendors without
/// devices dropped, vendors sorted by ID and each vendor's devices sorted by ID, entries
/// with equal IDs keeping their order.
pub open spec fn database(vs: Seq<VendorView>) -> Seq<VendorView> {
    sort_by(kept(vs), vendor_key())
}

/// Sort `devices` by ID, keeping the order of devices with the same ID.
fn sort_devices(devices: Vec<DeviceEntry>) -> (r: Vec<DeviceEntry>)
    ensures
        device_views(r@) == sort_by(device_views(devices@), device_key()),
{
    let ghost all = device_views(devices@);
    let mut input = devices;
    let mut out: Vec<DeviceEntry> = Vec::new();
    let ghost mut done: nat = 0;
    while input.len() > 0
        invariant
            done + input@.len() == all.len(),
            device_views(input@) == all.skip(done as int),
            device_views(out@) == sort_by(all.take(done as int), device_key()),
        decreases input@.len(),
    {
        let ghost in0 = input@;
        let d = input.remove(0);
        let k = d.device_id;
        let ghost sorted = device_views(out@);
        proof {
            assert(device_views(in0)[0] == all.skip(done as int)[0]);
            assert(sorted.skip(0) =~= sorted);
        }
        let mut i: usize = 0;
        while i < out.len() && out[i].device_id <= k
            invariant
                i <= out@.len(),
                sorted == device_views(out@),
                prefix_le(sorted, device_key(), k) == i + prefix_le(sorted.skip(i as int), device_key(), k),
            decreases out@.len() - i,
        {
            proof {
                assert(sorted.skip(i as int).drop_first() =~= sorted.skip(i + 1));
            }
            i += 1;
        }
        proof {
            assert(prefix_le(sorted.skip(i as int), device_key(), k) == 0);
            assert(all.take(done + 1int).drop_last() =~= all.take(done as int));
            assert(all.take(done + 1int).last() == device_view(d));
        }
        out.insert(i, d);
        proof {
            assert(device_views(out@) =~= sorted.insert(i as int, device_view(d)));
            done = done + 1;
            assert forall|j: int| 0 <= j < input@.len() implies #[trigger] device_views(input@)[j]
                == all.skip(done as int)[j] by {
                assert(input@[j] == in0[j + 1]);
                assert(device_views(in0)[j + 1] == all.skip(done - 1)[j + 1]);
            }
            assert(device_views(input@) =~= all.skip(done as int));
        }
    }
    proof {
        assert(all.take(done as int) =~= all);
    }
    out
}

/// Build the lookup database from the vendors read from the file: vendors without devices
/// are dropped, vendors are sorted by ID and so are the devices of each vendor; entries
/// with the same ID keep their order.
pub fn build_database(vendors: Vec<VendorEntry>) -> (r: Vec<VendorEntry>)
    ensures
        vendor_views(r@) == database(vendor_views(vendors@)),
{
    let ghost all = vendor_views(vendors@);
    let mut input = vendors;
    let mut out: Vec<VendorEntry> = Vec::new();
    let ghost mut done: nat = 0;
    while input.len() > 0
        invariant
            done + input@.len() == all.len(),
            vendor_views(input@) == all.skip(done as int),
            vendor_views(out@) == sort_by(kept(all.take(done as int)), vendor_key()),
        decreases input@.len(),
    {
        let ghost in0 = input@;
        let v = input.remove(0);
        proof {
            assert(vendor_views(in0)[0] == all.skip(done as int)[0]);
            assert(all.take(done + 1int).drop_last() =~= all.take(done as int));
            assert(all.take(done + 1int).last() == vendor_view(v));
        }
        let ghost vv = vendor_view(v);
        let ghost kp = kept(all.take(done as int));
        if v.devices.len() > 0 {
            let VendorEntry { vendor_id, name, devices } = v;
            let devices = sort_devices(devices);
            let entry = VendorEntry { vendor_id, name, devices };
            let k = vendor_id;
            let ghost sorted = vendor_views(out@);
            assert(sorted.skip(0) =~= sorted);
            let mut i: usize = 0;
            while i < out.len() && out[i].vendor_id <= k
                invariant
                    i <= out@.len(),
                    sorted == vendor_views(out@),
                    prefix_le(sorted, vendor_key(), k) == i + prefix_le(sorted.skip(i as int), vendor_key(), k),
                decreases out@.len() - i,
            {
                proof {
                    assert(sorted.skip(i as int).drop_first() =~= sorted.skip(i + 1));
                }
                i += 1;
            }
            proof {
                assert(prefix_le(sorted.skip(i as int), vendor_key(), k) == 0);
                assert(vendor_view(entry) == with_sorted_devices(vendor_view(v)));
            }
            out.insert(i, entry);
            proof {
                assert(vendor_views(out@) =~= sorted.insert(i as int, vendor_view(entry)));
                let x = with_sorted_devices(vv);
                assert(kept(all.take(done + 1int)) == kp.push(x));
                assert(kp.push(x).drop_last() =~= kp);
            }
        } else {
            proof {
                assert(kept(all.take(done + 1int)) == kp);
            }
        }
        proof {
            done = done + 1;
            assert forall|j: int| 0 <= j < input@.len() implies #[trigger] vendor_views(input@)[j]
                == all.skip(done as int)[j] by {
                assert(input@[j] == in0[j + 1]);
                assert(vendor_views(in0)[j + 1] == all.skip(done - 1)[j + 1]);
            }
            assert(vendor_views(input@) =~= all.skip(done as int));
        }
    }
    proof {
        assert(all.take(done as int) =~= all);
    }
    out
}

} // verus!
