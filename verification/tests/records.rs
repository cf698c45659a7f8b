use fileperson::{FileInfo, Tag};

fn tags(list: &[&str]) -> Vec<Tag> {
    list.iter().map(|s| Tag::from(*s)).collect()
}

#[test]
fn a_record_is_questionable_only_when_marked_and_tagged() {
    for (delete, tagged, expected) in [
        (None, false, false),
        (None, true, false),
        (Some(false), false, false),
        (Some(false), true, false),
        (Some(true), false, false),
        (Some(true), true, true),
    ] {
        let list: &[&str] = if tagged { &["t"] } else { &[] };
        let info = FileInfo::new("p".to_string(), delete, tags(list));
        assert_eq!(info.questionable_state(), expected);
    }
}

#[test]
fn a_fresh_record_is_untouched() {
    let info = FileInfo::from("some/path");
    assert_eq!(info.path(), "some/path");
    assert_eq!(info.delete(), None);
    assert!(info.tags().is_empty());
    assert!(!info.touched());
    assert!(!info.questionable_state());
}

#[test]
fn a_mark_or_a_tag_touches_the_record() {
    let mut info = FileInfo::from("p");
    info.set_delete(Some(false));
    assert!(info.touched());
    info.set_delete(None);
    assert!(!info.touched());
    info.set_tags(tags(&["a"]));
    assert!(info.touched());
    info.set_tags(Vec::new());
    assert!(!info.touched());
    info.set_delete(Some(true));
    assert!(info.touched());
}

#[test]
fn set_tags_replaces_the_tags_and_leaves_the_mark() {
    let mut info = FileInfo::new("p".to_string(), None, tags(&["old", "older"]));
    info.set_tags(tags(&["new"]));
    assert_eq!(info.delete(), None);
    assert_eq!(info.tags().len(), 1);
    assert_eq!(info.tags()[0].display(), "new");

    let mut marked = FileInfo::new("p".to_string(), Some(false), Vec::new());
    marked.set_tags(tags(&["a", "b"]));
    assert_eq!(marked.delete(), Some(false));
    assert_eq!(marked.tags().len(), 2);
    assert_eq!(marked.path(), "p");
}

#[test]
fn a_copy_has_the_same_parts() {
    let info = FileInfo::new("p".to_string(), Some(true), tags(&["a", "B"]));
    let copy = info.clone();
    assert_eq!(copy.path(), "p");
    assert_eq!(copy.delete(), Some(true));
    assert_eq!(copy.tags().len(), 2);
    assert_eq!(copy.tags()[1].display(), "B");
    assert!(copy.is_about("p"));
    assert!(!copy.is_about("P"));
    assert!(!copy.is_about("p/"));
}

#[test]
fn records_are_equal_when_all_their_parts_are() {
    let a = FileInfo::new("p".to_string(), Some(true), tags(&["Red", "blue"]));
    assert!(a == FileInfo::new("p".to_string(), Some(true), tags(&["red", "BLUE"])));
    assert!(a == a.clone());
    assert!(a != FileInfo::new("q".to_string(), Some(true), tags(&["Red", "blue"])));
    assert!(a != FileInfo::new("p".to_string(), None, tags(&["Red", "blue"])));
    assert!(a != FileInfo::new("p".to_string(), Some(false), tags(&["Red", "blue"])));
    assert!(a != FileInfo::new("p".to_string(), Some(true), tags(&["blue", "Red"])));
    assert!(a != FileInfo::new("p".to_string(), Some(true), tags(&["Red"])));
    assert!(a != FileInfo::new("p".to_string(), Some(true), tags(&["Red", "blue", "x"])));
    assert!(FileInfo::from("p") == FileInfo::new("p".to_string(), None, Vec::new()));
}
