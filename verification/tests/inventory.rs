use calldown::{Dataset, Datasets, ZPool};

fn dataset_names(ds: &Datasets) -> Vec<String> {
    let mut names: Vec<String> = Vec::new();
    let mut it = ds.iter();
    while let Some(d) = it.next() {
        names.push(d.name());
    }
    names
}

#[test]
fn list_parser_keeps_count_and_order() {
    let ds = Datasets::new(b"tank\nrpool\nzdata".to_vec());
    assert_eq!(dataset_names(&ds), vec!["tank", "rpool", "zdata"]);
}

#[test]
fn list_parser_reiteration_is_identical() {
    let ds = Datasets::new(b"tank\nrpool\nzdata\n".to_vec());
    let first = dataset_names(&ds);
    let second = dataset_names(&ds);
    assert_eq!(first, vec!["tank", "rpool", "zdata"]);
    assert_eq!(first, second);
}

#[test]
fn empty_input_yields_one_empty_identifier() {
    let ds = Datasets::new(b"".to_vec());
    let names = dataset_names(&ds);
    assert_eq!(names.len(), 1);
    assert_eq!(names[0], "");
}

#[test]
fn whitespace_envelope_is_trimmed() {
    let ds = Datasets::new(b"  tank\nrpool\n\n".to_vec());
    assert_eq!(dataset_names(&ds), vec!["tank", "rpool"]);
}

#[test]
fn vertical_tab_envelope_is_trimmed() {
    let ds = Datasets::new(b"\x0btank\x0b".to_vec());
    assert_eq!(dataset_names(&ds), vec!["tank"]);
}

#[test]
fn unicode_whitespace_envelope_is_trimmed() {
    let ds = Datasets::new("\u{00A0}tank\u{3000}".as_bytes().to_vec());
    assert_eq!(dataset_names(&ds), vec!["tank"]);
}

#[test]
fn whitespace_envelope_never_changes_the_entries() {
    let plain = Datasets::new(b"tank\nrpool".to_vec());
    let wrapped = Datasets::new("\u{000B}\u{2028} tank\nrpool\r\n\u{205F}".as_bytes().to_vec());
    assert_eq!(dataset_names(&plain), dataset_names(&wrapped));
}

#[test]
fn interior_empty_lines_are_kept() {
    let ds = Datasets::new(b"tank\n\nrpool".to_vec());
    assert_eq!(dataset_names(&ds), vec!["tank", "", "rpool"]);
}

#[test]
fn invalid_utf8_is_replaced_not_rejected() {
    let ds = Datasets::new(vec![0x66, 0x6f, 0xff, 0x6f]);
    let names = dataset_names(&ds);
    assert_eq!(names.len(), 1);
    assert_eq!(names[0], "fo\u{FFFD}o");
}

#[test]
fn dataset_all_builds_from_captured_output() {
    let ds = Dataset::all(b"tank\ntank/home\ntank/home/user\n".to_vec());
    assert_eq!(dataset_names(&ds), vec!["tank", "tank/home", "tank/home/user"]);
}

#[test]
fn dataset_name_returns_the_stored_name() {
    let d = Dataset { name: String::from("tank/home") };
    assert_eq!(d.name(), "tank/home");
}

#[test]
fn iterator_is_exhausted_after_the_last_entry() {
    let ds = Datasets::new(b"tank".to_vec());
    let mut it = ds.iter();
    assert!(it.next().is_some());
    assert!(it.next().is_none());
    assert!(it.next().is_none());
}

#[test]
fn pool_datasets_scoped_listing() {
    let pool = ZPool { name: String::from("tank") };
    let ds = pool.datasets(b"tank\ntank/home\n".to_vec());
    assert_eq!(dataset_names(&ds), vec!["tank", "tank/home"]);
}
