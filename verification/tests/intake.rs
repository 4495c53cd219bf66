use model_scan::intake::{
    archive_kind, classify_dropped_path, scan_root, ArchiveKind, DropKind, UnpackedEntry,
};

#[test]
fn directory_is_scanned_whatever_its_name() {
    assert_eq!(classify_dropped_path(true, false, None), DropKind::Directory);
    assert_eq!(classify_dropped_path(true, false, Some("zip")), DropKind::Directory);
    assert_eq!(classify_dropped_path(true, true, Some("txt")), DropKind::Directory);
}

#[test]
fn archive_is_told_by_its_extension_in_any_case() {
    assert_eq!(classify_dropped_path(false, true, Some("zip")), DropKind::Archive(ArchiveKind::Zip));
    assert_eq!(classify_dropped_path(false, true, Some("ZIP")), DropKind::Archive(ArchiveKind::Zip));
    assert_eq!(classify_dropped_path(false, true, Some("Zip")), DropKind::Archive(ArchiveKind::Zip));
    assert_eq!(
        classify_dropped_path(false, true, Some("7z")),
        DropKind::Archive(ArchiveKind::SevenZip)
    );
    assert_eq!(
        classify_dropped_path(false, true, Some("7Z")),
        DropKind::Archive(ArchiveKind::SevenZip)
    );
}

#[test]
fn other_file_is_unsupported() {
    assert_eq!(classify_dropped_path(false, true, Some("rar")), DropKind::Unsupported);
    assert_eq!(classify_dropped_path(false, true, Some("zipx")), DropKind::Unsupported);
    assert_eq!(classify_dropped_path(false, true, Some("")), DropKind::Unsupported);
    assert_eq!(classify_dropped_path(false, true, None), DropKind::Unsupported);
}

#[test]
fn what_is_neither_file_nor_directory_is_invalid() {
    assert_eq!(classify_dropped_path(false, false, None), DropKind::Invalid);
    assert_eq!(classify_dropped_path(false, false, Some("zip")), DropKind::Invalid);
}

#[test]
fn refusals_have_their_messages() {
    assert_eq!(DropKind::Unsupported.refusal(), Some("Unsupported file type".to_string()));
    assert_eq!(DropKind::Invalid.refusal(), Some("Invalid path".to_string()));
    assert_eq!(DropKind::Directory.refusal(), None);
    assert_eq!(DropKind::Archive(ArchiveKind::Zip).refusal(), None);
    assert_eq!(DropKind::Archive(ArchiveKind::SevenZip).refusal(), None);
}

#[test]
fn archive_kind_goes_by_the_lowercase_extension() {
    assert_eq!(archive_kind("zip"), Some(ArchiveKind::Zip));
    assert_eq!(archive_kind("7z"), Some(ArchiveKind::SevenZip));
    assert_eq!(archive_kind("ZIP"), None);
    assert_eq!(archive_kind("zi"), None);
    assert_eq!(archive_kind(""), None);
}

fn entry(path: &str, is_directory: bool) -> UnpackedEntry {
    UnpackedEntry { path: path.to_string(), is_directory }
}

#[test]
fn single_unpacked_directory_is_the_scan_root() {
    assert_eq!(scan_root("/tmp/x", &vec![entry("/tmp/x/model", true)]), "/tmp/x/model");
}

#[test]
fn otherwise_the_place_of_unpacking_is_the_scan_root() {
    assert_eq!(scan_root("/tmp/x", &Vec::new()), "/tmp/x");
    assert_eq!(scan_root("/tmp/x", &vec![entry("/tmp/x/model.moc3", false)]), "/tmp/x");
    assert_eq!(
        scan_root("/tmp/x", &vec![entry("/tmp/x/a", true), entry("/tmp/x/b", true)]),
        "/tmp/x"
    );
}
