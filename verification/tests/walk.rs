use model_scan::walk::Walker;

fn texts(items: &[&str]) -> Vec<String> {
    items.iter().map(|item| item.to_string()).collect()
}

#[test]
fn directories_are_flattened() {
    let mut walker = Walker::new("/root", '/', true);
    assert_eq!(walker.next_directory(), Some("/root".to_string()));
    walker.listed(&texts(&["readme.txt"]), &texts(&["/root/A"]));
    assert_eq!(walker.next_directory(), Some("/root/A".to_string()));
    walker.listed(&texts(&["a.moc3"]), &texts(&["/root/A/B"]));
    assert_eq!(walker.next_directory(), Some("/root/A/B".to_string()));
    walker.listed(&texts(&["b.moc3"]), &Vec::new());
    assert_eq!(walker.next_directory(), None);
    let found = walker.finish().expect("a walk without failure");
    assert_eq!(found.len(), 2);
    assert_eq!(found.get("/root/A/"), Some(&vec![texts(&["a", ".moc3"])]));
    assert_eq!(found.get("/root/A/B/"), Some(&vec![texts(&["B/b", ".moc3"])]));
    assert_eq!(found.get("/root/"), None);
    assert_eq!(
        found.into_entries(),
        vec![
            ("/root/A/".to_string(), vec![texts(&["a", ".moc3"])]),
            ("/root/A/B/".to_string(), vec![texts(&["B/b", ".moc3"])]),
        ]
    );
}

#[test]
fn subdirectories_are_walked_depth_first_in_listing_order() {
    let mut walker = Walker::new("r", '/', true);
    walker.listed(&Vec::new(), &texts(&["r/x", "r/y"]));
    assert_eq!(walker.next_directory(), Some("r/x".to_string()));
    walker.listed(&Vec::new(), &texts(&["r/x/1", "r/x/2"]));
    assert_eq!(walker.next_directory(), Some("r/x/1".to_string()));
    walker.listed(&Vec::new(), &Vec::new());
    assert_eq!(walker.next_directory(), Some("r/x/2".to_string()));
    walker.listed(&Vec::new(), &Vec::new());
    assert_eq!(walker.next_directory(), Some("r/y".to_string()));
    walker.listed(&Vec::new(), &Vec::new());
    assert_eq!(walker.next_directory(), None);
    assert!(walker.finish().expect("a walk without failure").is_empty());
}

#[test]
fn root_that_is_no_directory_gives_an_empty_map() {
    let walker = Walker::new("/nowhere", '/', false);
    assert_eq!(walker.next_directory(), None);
    let found = walker.finish().expect("no failure");
    assert!(found.is_empty());
    assert_eq!(found.len(), 0);
}

#[test]
fn failure_gives_up_the_walk_and_keeps_nothing() {
    let mut walker = Walker::new("/root", '/', true);
    walker.listed(&texts(&["a.moc3"]), &texts(&["/root/A", "/root/B"]));
    walker.failed("permission denied".to_string());
    assert_eq!(walker.next_directory(), None);
    walker.listed(&texts(&["b.moc3"]), &Vec::new());
    match walker.finish() {
        Ok(_) => panic!("the walk failed"),
        Err(message) => assert_eq!(message, "permission denied"),
    }
}

#[test]
fn keys_use_slashes_and_end_with_one() {
    let mut walker = Walker::new("C:\\models\\", '\\', true);
    walker.listed(&texts(&["top.moc"]), &texts(&["C:\\models\\Sub"]));
    walker.listed(&texts(&["Hero.MOC3.bytes"]), &Vec::new());
    let found = walker.finish().expect("a walk without failure");
    assert_eq!(found.get("C:/models/"), Some(&vec![texts(&["top", ".moc"])]));
    assert_eq!(found.get("C:/models/Sub/"), Some(&vec![texts(&["Hero", ".MOC3.bytes"])]));
}

#[test]
fn walking_twice_gives_the_same_outcome() {
    let run = || {
        let mut walker = Walker::new("/root", '/', true);
        walker.listed(
            &texts(&["z.moc3", "a.moc3", "m.atlas", "m.skel", "m_bg2.skel", "m_bg1.skel"]),
            &texts(&["/root/A"]),
        );
        walker.listed(&texts(&["x.moc"]), &Vec::new());
        walker.finish().expect("a walk without failure").into_entries()
    };
    let first = run();
    assert_eq!(first, run());
    assert_eq!(
        first,
        vec![
            (
                "/root/".to_string(),
                vec![
                    texts(&["a", ".moc3"]),
                    texts(&["m", ".skel", ".atlas", "_bg1.skel", "_bg2.skel"]),
                    texts(&["z", ".moc3"]),
                ]
            ),
            ("/root/A/".to_string(), vec![texts(&["x", ".moc"])]),
        ]
    );
}

#[test]
fn directory_outside_the_root_has_bare_relative_paths() {
    let mut walker = Walker::new("/root", '/', true);
    walker.listed(&Vec::new(), &texts(&["/elsewhere/A/B"]));
    assert_eq!(walker.next_directory(), Some("/elsewhere/A/B".to_string()));
    walker.listed(&texts(&["b.moc3"]), &Vec::new());
    let found = walker.finish().expect("a walk without failure");
    assert_eq!(found.get("/elsewhere/A/B/"), Some(&vec![texts(&["b", ".moc3"])]));
}

#[test]
fn names_that_cannot_be_listed_are_passed_over() {
    let mut walker = Walker::new("/root", '/', true);
    walker.listed(&texts(&["\u{130}.moc3", "a/b.moc3", "ok.moc3"]), &Vec::new());
    let found = walker.finish().expect("a walk without failure");
    assert_eq!(found.get("/root/"), Some(&vec![texts(&["ok", ".moc3"])]));
}

#[test]
fn directory_with_unrelated_files_is_absent() {
    let mut walker = Walker::new("/root", '/', true);
    walker.listed(&texts(&["readme.txt", "a.json", "b.skel"]), &texts(&["/root/A"]));
    walker.listed(&texts(&["c.png"]), &Vec::new());
    let found = walker.finish().expect("a walk without failure");
    assert!(found.is_empty());
    assert_eq!(found.get("/root/"), None);
    assert_eq!(found.get("/root/A/"), None);
}

#[test]
fn directory_without_groups_above_one_with_groups_is_absent() {
    let mut walker = Walker::new("/root", '/', true);
    walker.listed(&texts(&["readme.txt"]), &texts(&["/root/A"]));
    walker.listed(&Vec::new(), &texts(&["/root/A/B"]));
    walker.listed(&texts(&["m.atlas", "m.json"]), &Vec::new());
    let found = walker.finish().expect("a walk without failure");
    assert_eq!(
        found.into_entries(),
        vec![("/root/A/B/".to_string(), vec![texts(&["B/m", ".json", ".atlas"])])]
    );
}

#[test]
fn listing_after_the_end_changes_nothing() {
    let mut walker = Walker::new("/root", '/', true);
    walker.listed(&texts(&["a.moc3"]), &Vec::new());
    assert_eq!(walker.next_directory(), None);
    walker.listed(&texts(&["b.moc3"]), &texts(&["/root/A"]));
    walker.failed("late".to_string());
    assert_eq!(walker.next_directory(), None);
    let found = walker.finish().expect("a walk without failure");
    assert_eq!(
        found.into_entries(),
        vec![("/root/".to_string(), vec![texts(&["a", ".moc3"])])]
    );
}

#[test]
fn failure_at_the_root_gives_the_error() {
    let mut walker = Walker::new("/root", '/', true);
    walker.failed("cannot read".to_string());
    assert_eq!(walker.finish().err(), Some("cannot read".to_string()));
}
