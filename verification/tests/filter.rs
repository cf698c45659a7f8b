use fileperson::ExtensionFilter;

fn filter(list: &[&str]) -> ExtensionFilter {
    ExtensionFilter::new(list.iter().map(|s| s.to_string()).collect())
}

#[test]
fn the_extension_is_what_follows_the_last_dot() {
    let f = filter(&["mp3"]);
    assert!(f.admits("song.mp3"));
    assert!(f.admits("archive.tar.mp3"));
    assert!(f.admits(".mp3"));
    assert!(!f.admits("song.mp3.txt"));
    assert!(!f.admits("song.mp3."));
    assert!(!f.admits("song.mp"));
    assert!(!f.admits("songmp3"));
}

#[test]
fn a_name_without_a_dot_is_rejected() {
    let f = filter(&["mp3", "Makefile", ""]);
    assert!(!f.admits("mp3"));
    assert!(!f.admits("Makefile"));
    assert!(!f.admits(""));
}

#[test]
fn an_empty_extension_is_an_extension() {
    assert!(filter(&[""]).admits("name."));
    assert!(!filter(&["x"]).admits("name."));
}

#[test]
fn letter_case_does_not_count_on_either_side() {
    let f = filter(&["MP3", "Wav"]);
    assert!(f.admits("a.mp3"));
    assert!(f.admits("a.Mp3"));
    assert!(f.admits("a.WAV"));
    assert!(!f.admits("a.flac"));
    // Lowercase is Unicode's, not only ASCII's.
    assert!(filter(&["ÄÖ"]).admits("x.äö"));
    assert!(filter(&["äö"]).admits("x.ÄÖ"));
}

#[test]
fn the_empty_filter_admits_nothing() {
    let f = filter(&[]);
    assert!(!f.admits("a.mp3"));
    assert!(!f.admits("a."));
}

#[test]
fn names_are_read_by_characters_not_bytes() {
    let f = filter(&["ogg"]);
    assert!(f.admits("żółć.ogg"));
    assert!(f.admits("日本語.OGG"));
    assert!(!f.admits("ogg.日本語"));
}
