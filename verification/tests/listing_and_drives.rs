use irl_renamer::drives::{drive_info, drive_type_of, list_drive_infos, parse_drive_table};
use irl_renamer::listing::{check_directory, sort_entries, FileEntry, ListingError};

fn entry(name: &str, is_dir: bool, size: u64) -> FileEntry {
    FileEntry { name: name.to_string(), is_dir, size }
}

#[test]
fn directories_come_first_then_names_ignoring_case() {
    let entries = vec![
        entry("b.txt", false, 3),
        entry("Zeta", true, 0),
        entry("a.txt", false, 1),
        entry("B.TXT", false, 2),
        entry("alpha", true, 0),
        entry("Ä.txt", false, 4),
    ];
    let sorted = sort_entries(&entries);
    let names: Vec<&str> = sorted.iter().map(|e| e.name.as_str()).collect();
    assert_eq!(names, vec!["alpha", "Zeta", "a.txt", "b.txt", "B.TXT", "Ä.txt"]);
    assert_eq!(sorted[3].size, 3);
    assert_eq!(sorted[4].size, 2);
    let first_file = sorted.iter().position(|e| !e.is_dir).unwrap();
    assert!(sorted[first_file..].iter().all(|e| !e.is_dir));
}

#[test]
fn equal_names_keep_their_order() {
    let entries = vec![entry("x", false, 1), entry("X", false, 2), entry("x", false, 3)];
    let sorted = sort_entries(&entries);
    let sizes: Vec<u64> = sorted.iter().map(|e| e.size).collect();
    assert_eq!(sizes, vec![1, 2, 3]);
    assert!(sort_entries(&Vec::new()).is_empty());
}

#[test]
fn directory_checks() {
    assert!(matches!(check_directory(false, false), Err(ListingError::NotFound)));
    assert!(matches!(check_directory(true, false), Err(ListingError::NotADirectory)));
    assert!(check_directory(true, true).is_ok());
    assert_eq!(ListingError::NotFound.message(), "Dossier introuvable");
    assert_eq!(ListingError::NotADirectory.message(), "Le chemin n'est pas un dossier");
    assert_eq!(
        ListingError::ReadFailed("denied".to_string()).message(),
        "Erreur lecture: denied"
    );
}

const TABLE: &str = "\"DeviceID\",\"VolumeName\",\"DriveType\",\"Size\"\r\n\
\"C:\",\"Windows\",\"3\",\"500\"\r\n\
\"D:\",\"USB KEY\",\"2\",\"16\"\r\n\
broken line\r\n\
\"E:\", \"Share\" , \"4\",\"\"\r\n\
\"F:\",\"\",\"5\",\"\"\r\n\
\"G:\",\"Odd\",\"9\",\"1\"\r\n\
\"D:\",\"Backup\",\"3\",\"32\"\r\n";

#[test]
fn table_rows_are_read_after_the_header() {
    let rows = parse_drive_table(TABLE);
    let got: Vec<(String, String, String)> = rows
        .iter()
        .map(|r| (r.device.clone(), r.label.clone(), r.drive_type.clone()))
        .collect();
    let want = vec![
        ("C:", "Windows", "Disque local"),
        ("D:", "USB KEY", "Amovible"),
        ("E:", "Share", "Reseau"),
        ("F:", "", "CD-ROM"),
        ("G:", "Odd", ""),
        ("D:", "Backup", "Disque local"),
    ];
    let want: Vec<(String, String, String)> =
        want.into_iter().map(|(a, b, c)| (a.to_string(), b.to_string(), c.to_string())).collect();
    assert_eq!(got, want);
}

#[test]
fn a_later_row_overrides_an_earlier_one() {
    let rows = parse_drive_table(TABLE);
    let d = drive_info('D', &rows);
    assert_eq!(d.letter, "D:\\");
    assert_eq!(d.label, "Backup");
    assert_eq!(d.drive_type, "Disque local");
}

#[test]
fn drives_without_a_row_have_no_label() {
    let infos = list_drive_infos(&['C', 'Z'], TABLE);
    assert_eq!(infos.len(), 2);
    assert_eq!(infos[0].letter, "C:\\");
    assert_eq!(infos[0].label, "Windows");
    assert_eq!(infos[1].letter, "Z:\\");
    assert_eq!(infos[1].label, "");
    assert_eq!(infos[1].drive_type, "");
    let none = list_drive_infos(&['C'], "");
    assert_eq!(none[0].label, "");
    assert!(parse_drive_table("only a header\n").is_empty());
}

#[test]
fn drive_type_names() {
    assert_eq!(drive_type_of(&['2']), "Amovible");
    assert_eq!(drive_type_of(&['3']), "Disque local");
    assert_eq!(drive_type_of(&['4']), "Reseau");
    assert_eq!(drive_type_of(&['5']), "CD-ROM");
    assert_eq!(drive_type_of(&['3', '3']), "");
    assert_eq!(drive_type_of(&[]), "");
}
