use model_scan::grouping::{
    classify, find_background_files, find_descriptor, process_files, FileKind,
};
use model_scan::listing::ListedFile;

fn listing(prefix: &str, names: &[&str]) -> Vec<ListedFile> {
    names
        .iter()
        .map(|name| ListedFile::new(prefix, name).expect("a name that can be listed"))
        .collect()
}

fn strings(texts: &[&str]) -> Vec<String> {
    texts.iter().map(|text| text.to_string()).collect()
}

fn no_groups() -> Vec<Vec<String>> {
    Vec::new()
}

#[test]
fn unrelated_files_give_no_group() {
    let files = listing("", &["readme.txt", "picture.png", "notes.json", "model.skel"]);
    assert_eq!(process_files(&files), no_groups());
}

#[test]
fn empty_directory_gives_no_group() {
    assert_eq!(process_files(&Vec::new()), no_groups());
}

#[test]
fn single_moc3_file_gives_one_group() {
    let files = listing("", &["a.moc3"]);
    assert_eq!(process_files(&files), vec![strings(&["a", ".moc3"])]);
}

#[test]
fn atlas_with_json_descriptor_and_background() {
    let files = listing("", &["model.atlas", "model.json", "model_bg1.json"]);
    assert_eq!(
        process_files(&files),
        vec![strings(&["model", ".json", ".atlas", "_bg1.json"])]
    );
}

#[test]
fn skel_descriptor_is_preferred_to_json() {
    let files = listing("", &["model.skel", "model.json", "model.atlas"]);
    let groups = process_files(&files);
    assert_eq!(groups, vec![strings(&["model", ".skel", ".atlas"])]);
    assert_eq!(groups[0][1], ".skel");
    let files = listing("", &["model.json", "model.atlas", "model.skel"]);
    assert_eq!(process_files(&files), vec![strings(&["model", ".skel", ".atlas"])]);
}

#[test]
fn background_atlas_alone_gives_no_group() {
    let files = listing("", &["char_bg.atlas"]);
    assert_eq!(process_files(&files), no_groups());
    let files = listing("", &["char_bg.atlas", "char_bg.json", "char_BG2.atlas", "char_bg2.skel"]);
    assert_eq!(process_files(&files), no_groups());
}

#[test]
fn background_atlas_beside_its_primary_is_no_root() {
    let files = listing("", &["char.atlas", "char_bg.atlas", "char.json", "char_bg.json"]);
    assert_eq!(
        process_files(&files),
        vec![strings(&["char", ".json", ".atlas", "_bg.json"])]
    );
}

#[test]
fn markers_are_found_whatever_their_case() {
    let files = listing("", &["MODEL.MOC3"]);
    assert_eq!(process_files(&files), vec![strings(&["MODEL", ".MOC3"])]);
    let files = listing("", &["Hero.Atlas", "HERO.SKEL", "hero_BG1.Skel"]);
    assert_eq!(
        process_files(&files),
        vec![strings(&["HERO", ".SKEL", ".Atlas", "_BG1.Skel"])]
    );
}

#[test]
fn letters_outside_ascii_are_matched_whatever_their_case() {
    let files = listing("", &["МОДЕЛЬ.atlas", "модель.json"]);
    assert_eq!(process_files(&files), vec![strings(&["модель", ".json", ".atlas"])]);
    let files = listing("", &["model.atlas", "model.s\u{212A}el"]);
    assert_eq!(
        process_files(&files),
        vec![strings(&["model", ".s\u{212A}el", ".atlas"])]
    );
}

#[test]
fn marker_in_the_middle_of_a_name_splits_it() {
    let files = listing("", &["Model.moc3.bytes"]);
    assert_eq!(process_files(&files), vec![strings(&["Model", ".moc3.bytes"])]);
    let files = listing("", &["a.b.moc.moc3"]);
    assert_eq!(process_files(&files), vec![strings(&["a.b.moc", ".moc3"])]);
}

#[test]
fn moc_files_are_told_from_moc3_files() {
    let files = listing("", &["old.moc", "new.moc3"]);
    assert_eq!(
        process_files(&files),
        vec![strings(&["new", ".moc3"]), strings(&["old", ".moc"])]
    );
}

#[test]
fn a_name_with_several_markers_counts_once() {
    let files = listing("", &["x.atlas.moc3", "x.json"]);
    assert_eq!(process_files(&files), vec![strings(&["x.atlas", ".moc3"])]);
    let files = listing("", &["y.moc.atlas", "y.json"]);
    assert_eq!(process_files(&files), vec![strings(&["y", ".moc.atlas"])]);
    let files = listing("", &["z.moc3.moc"]);
    assert_eq!(process_files(&files), vec![strings(&["z", ".moc3.moc"])]);
}

#[test]
fn base_name_loses_the_first_segment_of_the_relative_path() {
    let files = listing("A/", &["a.moc3"]);
    assert_eq!(process_files(&files), vec![strings(&["a", ".moc3"])]);
    let files = listing("A/B/", &["b.moc3"]);
    assert_eq!(process_files(&files), vec![strings(&["B/b", ".moc3"])]);
    let files = listing("A/B/C/", &["m.atlas", "m.skel", "m_bg.skel"]);
    assert_eq!(
        process_files(&files),
        vec![strings(&["B/C/m", ".skel", ".atlas", "_bg.skel"])]
    );
}

#[test]
fn atlas_without_descriptor_is_dropped() {
    let files = listing("", &["lonely.atlas", "other.json", "lonely.png"]);
    assert_eq!(process_files(&files), no_groups());
}

#[test]
fn descriptor_extension_is_what_stands_behind_the_length_of_the_base_name() {
    let files = listing("", &["model.atlas", "my_model.skel"]);
    assert_eq!(
        process_files(&files),
        vec![strings(&["my_mo", "del.skel", ".atlas"])]
    );
    let files = listing("", &["m.atlas.txt", "m.json.bak"]);
    assert_eq!(
        process_files(&files),
        vec![strings(&["m", ".json.bak", ".atlas.txt"])]
    );
}

#[test]
fn repeated_extension_is_trimmed_from_the_descriptor_path() {
    let files = listing("", &["x.json.atlas", "x.json.json"]);
    assert_eq!(process_files(&files), vec![strings(&["x", ".json", ".atlas"])]);
}

#[test]
fn groups_are_sorted_by_base_name() {
    let files = listing(
        "",
        &["z.moc3", "B.moc3", "a.moc", "m.atlas", "m.json", "Z.moc3", "b.moc3"],
    );
    assert_eq!(
        process_files(&files),
        vec![
            strings(&["B", ".moc3"]),
            strings(&["Z", ".moc3"]),
            strings(&["a", ".moc"]),
            strings(&["b", ".moc3"]),
            strings(&["m", ".json", ".atlas"]),
            strings(&["z", ".moc3"]),
        ]
    );
}

#[test]
fn groups_do_not_depend_on_the_order_of_the_listing() {
    let names = ["m.atlas", "m.skel", "m_bg2.skel", "m_bg1.skel", "a.moc3", "k.moc"];
    let mut reversed = names;
    reversed.reverse();
    let expected = vec![
        strings(&["a", ".moc3"]),
        strings(&["k", ".moc"]),
        strings(&["m", ".skel", ".atlas", "_bg1.skel", "_bg2.skel"]),
    ];
    assert_eq!(process_files(&listing("", &names)), expected);
    assert_eq!(process_files(&listing("", &reversed)), expected);
}

#[test]
fn groups_with_one_base_name_are_ordered_by_what_follows() {
    let files = listing("", &["m.moc3", "m.moc", "m.atlas", "m.json"]);
    assert_eq!(
        process_files(&files),
        vec![
            strings(&["m", ".json", ".atlas"]),
            strings(&["m", ".moc"]),
            strings(&["m", ".moc3"]),
        ]
    );
}

#[test]
fn atlases_with_one_base_name_give_one_group() {
    let files = listing("", &["m.atlas", "m.atlas.txt", "m.json"]);
    assert_eq!(process_files(&files), vec![strings(&["m", ".json", ".atlas.txt"])]);
    let files = listing("", &["m.atlas.txt", "m.json", "m.atlas"]);
    assert_eq!(process_files(&files), vec![strings(&["m", ".json", ".atlas"])]);
}

#[test]
fn atlases_that_differ_in_case_each_give_a_group() {
    let files = listing("", &["Model.atlas", "MODEL.ATLAS", "model.json"]);
    assert_eq!(
        process_files(&files),
        vec![
            strings(&["model", ".json", ".ATLAS"]),
            strings(&["model", ".json", ".atlas"]),
        ]
    );
}

#[test]
fn of_files_with_one_lowercase_name_the_last_is_looked_up() {
    let files = listing("", &["a.atlas", "A.JSON", "a.json"]);
    assert_eq!(process_files(&files), vec![strings(&["a", ".json", ".atlas"])]);
    let files = listing("", &["a.atlas", "a.json", "A.JSON"]);
    assert_eq!(process_files(&files), vec![strings(&["A", ".JSON", ".atlas"])]);
    let files = listing("", &["a.atlas", "a.json", "a_bg.json", "A_BG.JSON"]);
    assert_eq!(
        process_files(&files),
        vec![strings(&["a", ".json", ".atlas", "_BG.JSON"])]
    );
}

#[test]
fn a_file_is_listed_twice_gives_its_group_twice() {
    let files = listing("", &["a.moc3", "a.moc3"]);
    assert_eq!(
        process_files(&files),
        vec![strings(&["a", ".moc3"]), strings(&["a", ".moc3"])]
    );
}

#[test]
fn background_files_are_sorted() {
    let files = listing("", &["m_bg2.json", "m.json", "m_bg10.json", "m_bg1.json", "m_bg.skel"]);
    assert_eq!(
        find_background_files("m", &files, ".JSON"),
        strings(&["_bg1.json", "_bg10.json", "_bg2.json"])
    );
}

#[test]
fn background_file_must_hold_tag_and_extension_side_by_side() {
    let files = listing("", &["m_bg", "m_bgx", "m_b.g", "m_bg.g", "xm_bg.g", "m_bg.H", "m_bg_bg"]);
    assert_eq!(find_background_files("m", &files, "_bg"), strings(&["_bg_bg"]));
    assert_eq!(find_background_files("m", &files, "g"), strings(&["_bg.g", "_bg_bg"]));
    assert_eq!(find_background_files("m", &files, ".g"), strings(&["_bg.g"]));
    assert_eq!(find_background_files("m", &files, ".h"), strings(&["_bg.H"]));
    assert_eq!(
        find_background_files("m", &files, ""),
        strings(&["_bg", "_bg.H", "_bg.g", "_bg_bg", "_bgx"])
    );
    assert_eq!(find_background_files("q", &files, ".g"), Vec::<String>::new());
}

#[test]
fn descriptor_is_the_first_file_on_record_that_holds_the_pattern() {
    let files = listing("", &["m.json", "m.skel.bak", "m.skel", "M.JSON"]);
    assert_eq!(find_descriptor(&files, "m"), Some(1));
    let files = listing("", &["m.json", "n.skel", "M.JSON"]);
    assert_eq!(find_descriptor(&files, "m"), Some(2));
    assert_eq!(find_descriptor(&files, "n"), Some(1));
    assert_eq!(find_descriptor(&files, "o"), None);
}

#[test]
fn kinds_go_by_the_first_marker_of_moc3_moc_atlas() {
    assert_eq!(classify("a.moc3"), FileKind::Moc3);
    assert_eq!(classify("a.moc"), FileKind::Moc);
    assert_eq!(classify("a.atlas"), FileKind::Atlas);
    assert_eq!(classify("a.atlas.moc"), FileKind::Moc);
    assert_eq!(classify("a.atlas.moc3"), FileKind::Moc3);
    assert_eq!(classify("a.moc.moc3"), FileKind::Moc3);
    assert_eq!(classify("a.mo"), FileKind::Other);
    assert_eq!(classify("atlas"), FileKind::Other);
    assert_eq!(classify("a.MOC3"), FileKind::Other);
    assert_eq!(classify(""), FileKind::Other);
}
