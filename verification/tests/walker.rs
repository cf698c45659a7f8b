use fileperson::{
    load, load_rec, report, report_rec, Cause, Directory, Entry, Event, ExtensionFilter, Found,
    FsNode, LoadError, Scan,
};

fn file(dir: &str, name: &str) -> Entry {
    Entry { name: name.to_string(), path: format!("{dir}/{name}"), found: Found::File }
}

fn folder(dir: &str, name: &str, entries: Vec<Entry>) -> Entry {
    Entry {
        name: name.to_string(),
        path: format!("{dir}/{name}"),
        found: Found::Directory(Scan::Listed(entries)),
    }
}

fn odd(dir: &str, name: &str, found: Found) -> Entry {
    Entry { name: name.to_string(), path: format!("{dir}/{name}"), found }
}

fn extensions(list: &[&str]) -> Vec<String> {
    list.iter().map(|s| s.to_string()).collect()
}

/// The tree written out, one line for each node, indented by depth.
fn outline(dir: &Directory, depth: usize, out: &mut Vec<String>) {
    for node in dir.entries() {
        match node {
            FsNode::File(path) => out.push(format!("{}F {}", "  ".repeat(depth), path)),
            FsNode::Directory(sub) => {
                out.push(format!("{}D {}", "  ".repeat(depth), sub.path()));
                outline(sub, depth + 1, out);
            }
        }
    }
}

fn lines(dir: &Directory) -> Vec<String> {
    let mut out = Vec::new();
    outline(dir, 0, &mut out);
    out
}

fn leaves(dir: &Directory, out: &mut Vec<String>) {
    for node in dir.entries() {
        match node {
            FsNode::File(path) => out.push(path.clone()),
            FsNode::Directory(sub) => leaves(sub, out),
        }
    }
}

fn branches(dir: &Directory, out: &mut Vec<String>) {
    for node in dir.entries() {
        if let FsNode::Directory(sub) = node {
            out.push(sub.path().to_string());
            branches(sub, out);
        }
    }
}

fn fixture() -> Scan {
    Scan::Listed(vec![
        folder("root", "sub", vec![file("root/sub", "c.wav"), file("root/sub", "b.mp3")]),
        file("root", "a.txt"),
    ])
}

#[test]
fn filter_keeps_only_admitted_files_and_every_directory() {
    let (tree, flat) = load("root", &fixture(), extensions(&["mp3"])).unwrap();
    assert_eq!(tree.path(), "root");
    assert_eq!(flat.path(), "root");
    assert_eq!(lines(&flat), vec!["F root/sub/b.mp3"]);
    assert_eq!(lines(&tree), vec!["D root/sub", "  F root/sub/b.mp3"]);
}

#[test]
fn siblings_stand_in_natural_order_without_regard_to_case() {
    let scan = Scan::Listed(vec![
        file("r", "img2.png"),
        file("r", "img10.png"),
        file("r", "Img1.png"),
    ]);
    let (tree, flat) = load("r", &scan, extensions(&["png"])).unwrap();
    let expected = vec!["F r/Img1.png", "F r/img2.png", "F r/img10.png"];
    assert_eq!(lines(&tree), expected);
    assert_eq!(lines(&flat), expected);
}

#[test]
fn numbers_in_names_count_by_value() {
    let scan = Scan::Listed(vec![file("r", "file10.x"), file("r", "file2.x"), file("r", "File1.x")]);
    let (tree, _) = load("r", &scan, extensions(&["x"])).unwrap();
    assert_eq!(lines(&tree), vec!["F r/File1.x", "F r/file2.x", "F r/file10.x"]);
}

#[test]
fn flat_holds_the_leaves_of_the_tree_in_their_order() {
    let scan = Scan::Listed(vec![
        file("r", "z.mp3"),
        folder(
            "r",
            "m",
            vec![
                file("r/m", "2.wav"),
                folder("r/m", "deep", vec![file("r/m/deep", "x.MP3"), file("r/m/deep", "x.txt")]),
                file("r/m", "1.mp3"),
            ],
        ),
        file("r", "a.wav"),
        folder("r", "empty", vec![]),
    ]);
    let (tree, flat) = load("r", &scan, extensions(&["mp3", "WAV"])).unwrap();
    let mut from_tree = Vec::new();
    leaves(&tree, &mut from_tree);
    let mut from_flat = Vec::new();
    leaves(&flat, &mut from_flat);
    assert_eq!(from_flat, from_tree);
    assert_eq!(
        from_flat,
        vec!["r/a.wav", "r/m/1.mp3", "r/m/2.wav", "r/m/deep/x.MP3", "r/z.mp3"]
    );
    assert_eq!(
        lines(&tree),
        vec![
            "F r/a.wav",
            "D r/empty",
            "D r/m",
            "  F r/m/1.mp3",
            "  F r/m/2.wav",
            "  D r/m/deep",
            "    F r/m/deep/x.MP3",
            "F r/z.mp3",
        ]
    );
}

#[test]
fn directories_stay_whatever_the_filter() {
    let scan = Scan::Listed(vec![
        folder("r", "b", vec![file("r/b", "x.txt"), folder("r/b", "c", vec![])]),
        folder("r", "a", vec![]),
    ]);
    for list in [vec![], vec!["txt"], vec!["mp3"]] {
        let (tree, _) = load("r", &scan, extensions(&list)).unwrap();
        let mut found = Vec::new();
        branches(&tree, &mut found);
        assert_eq!(found, vec!["r/a", "r/b", "r/b/c"]);
    }
}

#[test]
fn no_extensions_admit_no_file() {
    let (tree, flat) = load("root", &fixture(), Vec::new()).unwrap();
    assert_eq!(lines(&tree), vec!["D root/sub"]);
    assert!(flat.entries().is_empty());
}

#[test]
fn an_unlisted_root_is_the_one_failure() {
    let failed = load("gone", &Scan::Failed, extensions(&["mp3"]));
    assert!(matches!(failed, Err(LoadError::RootAccessFailure)));
    let empty = load("here", &Scan::Listed(vec![]), extensions(&["mp3"]));
    let (tree, flat) = empty.unwrap();
    assert!(tree.entries().is_empty());
    assert!(flat.entries().is_empty());
}

#[test]
fn entries_that_are_no_file_or_directory_are_passed_over() {
    let scan = Scan::Listed(vec![
        odd("r", "socket.mp3", Found::Other),
        odd("r", "locked.mp3", Found::Unreadable),
        odd("r", "bad\u{fffd}.mp3", Found::NotText),
        Entry {
            name: "closed".to_string(),
            path: "r/closed".to_string(),
            found: Found::Directory(Scan::Failed),
        },
        file("r", "ok.mp3"),
    ]);
    let (tree, flat) = load("r", &scan, extensions(&["mp3"])).unwrap();
    assert_eq!(lines(&tree), vec!["D r/closed", "F r/ok.mp3"]);
    assert_eq!(lines(&flat), vec!["F r/ok.mp3"]);
}

#[test]
fn the_counter_goes_up_by_one_for_each_entry_visited() {
    let filter = ExtensionFilter::new(extensions(&["mp3"]));
    let mut tree = Directory::new("root".to_string());
    let mut flat = Directory::new("root".to_string());
    let mut count: u32 = 7;
    load_rec(&mut tree, &mut flat, &fixture(), &filter, &mut count);
    assert_eq!(count, 7 + 4);
    assert_eq!(lines(&tree), vec!["D root/sub", "  F root/sub/b.mp3"]);

    let mut count: u32 = 0;
    let closed = Scan::Listed(vec![Entry {
        name: "closed".to_string(),
        path: "r/closed".to_string(),
        found: Found::Directory(Scan::Failed),
    }]);
    load_rec(&mut tree, &mut flat, &closed, &filter, &mut count);
    assert_eq!(count, 2);
}

#[test]
fn the_counter_wraps_like_a_u32() {
    let filter = ExtensionFilter::new(Vec::new());
    let mut tree = Directory::new("r".to_string());
    let mut flat = Directory::new("r".to_string());
    let mut count: u32 = u32::MAX - 1;
    load_rec(&mut tree, &mut flat, &fixture(), &filter, &mut count);
    assert_eq!(count, 2);
}

#[test]
fn load_rec_appends_behind_what_is_there() {
    let filter = ExtensionFilter::new(extensions(&["txt"]));
    let mut tree = Directory::new("root".to_string());
    let mut flat = Directory::new("root".to_string());
    tree.push(FsNode::File("root/0.txt".to_string()));
    let mut count: u32 = 0;
    load_rec(&mut tree, &mut flat, &fixture(), &filter, &mut count);
    assert_eq!(lines(&tree), vec!["F root/0.txt", "F root/a.txt", "D root/sub"]);
    assert_eq!(lines(&flat), vec!["F root/a.txt"]);
}

#[test]
fn unreadable_entries_come_first_and_equal_names_keep_their_order() {
    // Names that differ only in letter case or in blanks rank the same, so
    // the order in which they were read decides among them.
    let scan = Scan::Listed(vec![
        folder("r", "b", vec![]),
        folder("r", "A", vec![]),
        folder("r", "a", vec![]),
        odd("r", "", Found::Unreadable),
        folder("r", " a", vec![]),
    ]);
    let (tree, _) = load("r", &scan, Vec::new()).unwrap();
    assert_eq!(lines(&tree), vec!["D r/A", "D r/a", "D r/ a", "D r/b"]);
}

#[test]
fn a_copy_of_a_tree_is_the_same_tree() {
    let (tree, _) = load("root", &fixture(), extensions(&["mp3", "txt"])).unwrap();
    let copy = tree.clone();
    assert_eq!(copy.path(), "root");
    assert_eq!(lines(&copy), lines(&tree));
    assert_eq!(lines(&copy), vec!["F root/a.txt", "D root/sub", "  F root/sub/b.mp3"]);
}

fn told(events: &[Event]) -> Vec<String> {
    events
        .iter()
        .map(|event| match event {
            Event::Progress(count) => format!("at {count}"),
            Event::Skipped { path, cause } => format!("{path}: {cause:?}"),
        })
        .collect()
}

#[test]
fn what_is_passed_over_is_reported_with_its_cause() {
    let scan = Scan::Listed(vec![
        odd("r", "socket", Found::Other),
        file("r", "kept.mp3"),
        file("r", "dropped.txt"),
        odd("r", "locked", Found::Unreadable),
        odd("r", "bad\u{fffd}", Found::NotText),
        Entry {
            name: "closed".to_string(),
            path: "r/closed".to_string(),
            found: Found::Directory(Scan::Failed),
        },
    ]);
    assert_eq!(
        told(&report("r", &scan)),
        vec![
            "at 0",
            "r/locked: EntryAccessFailure",
            "r/bad\u{fffd}: PathEncodingFailure",
            "r/closed: EntryAccessFailure",
            "r/socket: NotFileOrDirectory",
        ]
    );
}

#[test]
fn a_root_that_cannot_be_listed_is_reported_as_such() {
    assert_eq!(told(&report("gone", &Scan::Failed)), vec!["at 0", "gone: EntryAccessFailure"]);
    assert_eq!(told(&report("empty", &Scan::Listed(vec![]))), Vec::<String>::new());
}

#[test]
fn progress_is_reported_at_every_hundredth_entry() {
    let mut entries = Vec::new();
    for i in 0..150 {
        entries.push(file("r/in", &format!("{i}.x")));
    }
    let scan = Scan::Listed(vec![
        folder("r", "in", entries),
        odd("r", "z", Found::Other),
        folder("r", "more", (0..60).map(|i| file("r/more", &format!("{i}.y"))).collect()),
    ]);
    // Visits: `in` is the first, its files the next 150; `more` and its 60
    // files follow; `z` is the last of 213.
    assert_eq!(
        told(&report("r", &scan)),
        vec!["at 0", "at 100", "at 200", "r/z: NotFileOrDirectory"]
    );

    let mut log = Vec::new();
    let mut count: u32 = 95;
    report_rec("r", &scan, &mut count, &mut log);
    assert_eq!(count, 95 + 213);
    assert_eq!(told(&log), vec!["at 100", "at 200", "at 300", "r/z: NotFileOrDirectory"]);
}

#[test]
fn the_report_counts_as_the_walk_does() {
    let filter = ExtensionFilter::new(Vec::new());
    let mut tree = Directory::new("root".to_string());
    let mut flat = Directory::new("root".to_string());
    let mut walked: u32 = u32::MAX - 2;
    load_rec(&mut tree, &mut flat, &fixture(), &filter, &mut walked);
    let mut log = Vec::new();
    let mut reported: u32 = u32::MAX - 2;
    report_rec("root", &fixture(), &mut reported, &mut log);
    assert_eq!(walked, reported);
    assert_eq!(reported, 1);
    // The counter wrapped to 0 on the way: progress is due there.
    assert_eq!(told(&log), vec!["at 0"]);
    assert!(matches!(Cause::EntryAccessFailure, Cause::EntryAccessFailure));
}
