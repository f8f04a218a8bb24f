//! The drive list: drive letters with the volume label and drive type read
//! from a CSV table of logical disks (`DeviceID`, `VolumeName`, `DriveType`,
//! ... with a header line).
use vstd::prelude::*;
use crate::text::{
    chars_of, chars_equal, lines_chars, split_chars, split_on, string_of, text_lines, trim,
    trim_char, trim_char_chars, trim_chars, views,
};

verus! {

/// One row of the disk table: device (such as `C:`), volume label and the
/// name of the drive type.
#[derive(Debug)]
pub struct DriveRow {
    pub device: String,
    pub label: String,
    pub drive_type: String,
}

impl View for DriveRow {
    type V = (Seq<char>, Seq<char>, Seq<char>);

    open spec fn view(&self) -> (Seq<char>, Seq<char>, Seq<char>) {
        (self.device@, self.label@, self.drive_type@)
    }
}

/// A drive as listed: its root (such as `C:\`), volume label and type name.
#[derive(Debug)]
pub struct DriveInfo {
    pub letter: String,
    pub label: String,
    pub drive_type: String,
}

impl View for DriveInfo {
    type V = (Seq<char>, Seq<char>, Seq<char>);

    open spec fn view(&self) -> (Seq<char>, Seq<char>, Seq<char>) {
        (self.letter@, self.label@, self.drive_type@)
    }
}

/// The name of a drive type code: 2 removable, 3 local disk, 4 network,
/// 5 CD-ROM; other codes have no name.
pub open spec fn drive_type_name(code: Seq<char>) -> Seq<char> {
    if code == seq!['2'] {
        "Amovible"@
    } else if code == seq!['3'] {
        "Disque local"@
    } else if code == seq!['4'] {
        "Reseau"@
    } else if code == seq!['5'] {
        "CD-ROM"@
    } else {
        Seq::empty()
    }
}

/// The cells of a CSV line: the pieces between commas, each without
/// surrounding white space and then without surrounding double quotes.
pub open spec fn csv_cells(line: Seq<char>) -> Seq<Seq<char>> {
    split_on(line, seq![',']).map_values(|c: Seq<char>| trim_char(trim(c), '"'))
}

/// The rows read from the lines of the table body: one per line with at
/// least three cells, in order.
pub open spec fn table_rows(lines: Seq<Seq<char>>) -> Seq<(Seq<char>, Seq<char>, Seq<char>)>
    decreases lines.len(),
{
    if lines.len() == 0 {
        Seq::empty()
    } else {
        let rest = table_rows(lines.drop_last());
        let cells = csv_cells(lines.last());
        if cells.len() >= 3 {
            rest.push((cells[0], cells[1], drive_type_name(cells[2])))
        } else {
            rest
        }
    }
}

/// The rows of a whole table text: its lines after the header.
pub open spec fn drive_table(text: Seq<char>) -> Seq<(Seq<char>, Seq<char>, Seq<char>)> {
    let lines = text_lines(text);
    if lines.len() == 0 {
        Seq::empty()
    } else {
        table_rows(lines.drop_first())
    }
}

/// Label and type name of a device: those of the last row naming it (a
/// later row overrides an earlier one), empty when no row does.
pub open spec fn drive_label(rows: Seq<(Seq<char>, Seq<char>, Seq<char>)>, device: Seq<char>) -> (
    Seq<char>,
    Seq<char>,
)
    decreases rows.len(),
{
    if rows.len() == 0 {
        (Seq::empty(), Seq::empty())
    } else if rows.last().0 == device {
        (rows.last().1, rows.last().2)
    } else {
        drive_label(rows.drop_last(), device)
    }
}

/// The device name of a drive letter, such as `C:`.
pub open spec fn device_of(letter: char) -> Seq<char> {
    seq![letter, ':']
}

/// The root of a drive letter, such as `C:\`.
pub open spec fn root_of(letter: char) -> Seq<char> {
    seq![letter, ':', '\\']
}

/// The views of a sequence of rows.
pub open spec fn row_views(v: Seq<DriveRow>) -> Seq<(Seq<char>, Seq<char>, Seq<char>)> {
    v.map_values(|r: DriveRow| r@)
}

/// The drive as listed for a letter, given the table rows.
pub open spec fn drive_entry(letter: char, rows: Seq<(Seq<char>, Seq<char>, Seq<char>)>) -> (
    Seq<char>,
    Seq<char>,
    Seq<char>,
) {
    let (label, kind) = drive_label(rows, device_of(letter));
    (root_of(letter), label, kind)
}

/// The type name of a drive type code (see `drive_type_name`).
pub fn drive_type_of(code: &[char]) -> (r: String)
    ensures
        r@ == drive_type_name(code@),
{
    if code.len() == 1 {
        let c = code[0];
        assert(code@ =~= seq![c]);
        if c == '2' {
            return String::from_str("Amovible");
        } else if c == '3' {
            return String::from_str("Disque local");
        } else if c == '4' {
            return String::from_str("Reseau");
        } else if c == '5' {
            return String::from_str("CD-ROM");
        }
    }
    String::new()
}

/// The cells of a CSV line (see `csv_cells`).
pub fn csv_cells_of(line: &[char]) -> (r: Vec<Vec<char>>)
    ensures
        views(r@) == csv_cells(line@),
{
    let comma = vec![','];
    assert(comma@ =~= seq![',']);
    let pieces = split_chars(line, comma.as_slice());
    let ghost ps = views(pieces@);
    let mut r: Vec<Vec<char>> = Vec::new();
    let mut i: usize = 0;
    while i < pieces.len()
        invariant
            ps == views(pieces@),
            ps == split_on(line@, seq![',']),
            i <= pieces@.len(),
            views(r@) == ps.take(i as int).map_values(|c: Seq<char>| trim_char(trim(c), '"')),
        decreases pieces@.len() - i,
    {
        let t = trim_chars(pieces[i].as_slice());
        let cell = trim_char_chars(t.as_slice(), '"');
        proof {
            assert(ps[i as int] == pieces@[i as int]@);
            assert(ps.take(i + 1).map_values(|c: Seq<char>| trim_char(trim(c), '"')) =~= ps.take(
                i as int,
            ).map_values(|c: Seq<char>| trim_char(trim(c), '"')).push(trim_char(trim(ps[i as int]), '"')));
            assert(views(r@.push(cell)) =~= views(r@).push(cell@));
        }
        r.push(cell);
        i = i + 1;
    }
    assert(ps.take(ps.len() as int) =~= ps);
    r
}

/// Reads the rows of a disk table: every line after the header with at
/// least three cells gives device, label and type name (see `drive_table`).
pub fn parse_drive_table(text: &str) -> (r: Vec<DriveRow>)
    ensures
        row_views(r@) == drive_table(text@),
{
    let chars = chars_of(text);
    let lines = lines_chars(chars.as_slice());
    let ghost ls = views(lines@);
    let mut r: Vec<DriveRow> = Vec::new();
    if lines.len() == 0 {
        assert(row_views(r@) =~= Seq::<(Seq<char>, Seq<char>, Seq<char>)>::empty());
        return r;
    }
    let ghost body = ls.drop_first();
    let mut i: usize = 1;
    assert(body.take(0) =~= Seq::<Seq<char>>::empty());
    assert(row_views(r@) =~= table_rows(body.take(0)));
    while i < lines.len()
        invariant
            ls == views(lines@),
            ls == text_lines(chars@),
            chars@ == text@,
            lines@.len() >= 1,
            body == ls.drop_first(),
            1 <= i <= lines@.len(),
            row_views(r@) == table_rows(body.take(i - 1)),
        decreases lines@.len() - i,
    {
        let cells = csv_cells_of(lines[i].as_slice());
        proof {
            assert(body[i - 1] == ls[i as int]);
            assert(ls[i as int] == lines@[i as int]@);
            assert(body.take(i as int).drop_last() =~= body.take(i - 1));
            assert(body.take(i as int).last() == body[i - 1]);
        }
        if cells.len() >= 3 {
            let kind = drive_type_of(cells[2].as_slice());
            let row = DriveRow {
                device: string_of(cells[0].as_slice()),
                label: string_of(cells[1].as_slice()),
                drive_type: kind,
            };
            proof {
                let cs = csv_cells(lines@[i as int]@);
                assert(cs[0] == cells@[0]@);
                assert(cs[1] == cells@[1]@);
                assert(cs[2] == cells@[2]@);
                assert(row_views(r@.push(row)) =~= row_views(r@).push(row@));
            }
            r.push(row);
        }
        i = i + 1;
    }
    assert(body.take(lines@.len() - 1) =~= body);
    r
}

/// The listed drive for a letter: its root, and the label and type name of
/// the last row naming its device (empty when no row does).
pub fn drive_info(letter: char, rows: &[DriveRow]) -> (r: DriveInfo)
    ensures
        r@ == drive_entry(letter, row_views(rows@)),
{
    let ghost rs = row_views(rows@);
    let device = vec![letter, ':'];
    assert(device@ =~= device_of(letter));
    let mut label = String::new();
    let mut kind = String::new();
    let mut k: usize = rows.len();
    let mut found = false;
    assert(rs.take(k as int) =~= rs);
    while k > 0 && !found
        invariant
            rs == row_views(rows@),
            k <= rows@.len(),
            device@ == device_of(letter),
            !found ==> drive_label(rs, device_of(letter)) == drive_label(rs.take(k as int), device_of(letter)),
            !found ==> label@ == Seq::<char>::empty() && kind@ == Seq::<char>::empty(),
            found ==> drive_label(rs, device_of(letter)) == (label@, kind@),
        decreases k + (if found { 0int } else { 1int }),
    {
        let row = &rows[k - 1];
        let dev = chars_of(row.device.as_str());
        proof {
            let t = rs.take(k as int);
            assert(t.last() == row@);
            assert(t.drop_last() =~= rs.take(k - 1));
        }
        if chars_equal(dev.as_slice(), device.as_slice()) {
            label = row.label.clone();
            kind = row.drive_type.clone();
            found = true;
        } else {
            k = k - 1;
        }
    }
    if !found {
        assert(rs.take(0) =~= Seq::<(Seq<char>, Seq<char>, Seq<char>)>::empty());
    }
    let root = vec![letter, ':', '\\'];
    assert(root@ =~= root_of(letter));
    DriveInfo { letter: string_of(root.as_slice()), label, drive_type: kind }
}

/// The drives of the present letters, in the order given, each with the
/// label and type the disk table gives its device.
pub fn list_drive_infos(letters: &[char], table_text: &str) -> (r: Vec<DriveInfo>)
    ensures
        r@.len() == letters@.len(),
        forall|i: int|
            0 <= i < letters@.len() ==> #[trigger] r@[i]@ == drive_entry(
                letters@[i],
                drive_table(table_text@),
            ),
{
    let rows = parse_drive_table(table_text);
    let mut r: Vec<DriveInfo> = Vec::new();
    let mut i: usize = 0;
    while i < letters.len()
        invariant
            row_views(rows@) == drive_table(table_text@),
            i <= letters@.len(),
            r@.len() == i,
            forall|k: int|
                0 <= k < i ==> #[trigger] r@[k]@ == drive_entry(
                    letters@[k],
                    drive_table(table_text@),
                ),
        decreases letters@.len() - i,
    {
        let d = drive_info(letters[i], rows.as_slice());
        r.push(d);
        i = i + 1;
    }
    r
}

} // verus!
