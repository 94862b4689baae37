use std::path::PathBuf;
use zenmanager::library::{is_audio, sort_tracks, tag_to_read, track_from_tags, LocalTrack, TagInfo};

fn local(file_name: &str, title: &str, artist: &str, album: &str, track_no: u32) -> LocalTrack {
    LocalTrack {
        path: PathBuf::new(),
        file_name: file_name.into(),
        title: title.into(),
        artist: artist.into(),
        album: album.into(),
        genre: String::new(),
        track_no,
        duration: 0,
        size: 0,
        tagged: true,
    }
}

#[test]
fn tracks_are_ordered_by_artist_then_album_then_track_number() {
    let mut tracks = vec![
        local("c", "C", "Beta", "X", 1),
        local("b", "B", "Alpha", "X", 2),
        local("a", "A", "Alpha", "X", 1),
    ];

    sort_tracks(&mut tracks);

    let order: Vec<_> = tracks.iter().map(|t| t.file_name.as_str()).collect();
    assert_eq!(order, vec!["a", "b", "c"]);
}

#[test]
fn sorting_ignores_case_and_falls_back_to_title() {
    let mut tracks = vec![
        local("1", "b", "alpha", "x", 3),
        local("2", "A", "ALPHA", "X", 3),
        local("3", "z", "Alpha", "W", 9),
        local("4", "same", "Alpha", "X", 3),
        local("5", "SAME", "alpha", "x", 3),
    ];
    sort_tracks(&mut tracks);
    let order: Vec<_> = tracks.iter().map(|t| t.file_name.as_str()).collect();
    assert_eq!(order, vec!["3", "2", "1", "4", "5"]);
}

#[test]
fn extension_matching_is_case_insensitive() {
    assert!(is_audio("loud.MP3"));
    assert!(is_audio("Track.WmA"));
    assert!(is_audio("a.flac"));
    assert!(!is_audio("notes.txt"));
    assert!(!is_audio("mp3"));
    assert!(!is_audio(".mp3"));
    assert!(!is_audio(""));
    assert!(is_audio("archive.tar.mp3"));
    assert!(!is_audio("song.mp3.txt"));
}

#[test]
fn tags_with_a_title_make_a_tagged_track() {
    let t = track_from_tags(
        PathBuf::from("m/s.mp3"),
        "s.mp3".into(),
        "s".into(),
        42,
        1500,
        Some(TagInfo {
            title: Some("Song".into()),
            artist: Some("Band".into()),
            album: None,
            genre: Some("Rock".into()),
            track: Some(4),
        }),
    );
    assert!(t.tagged);
    assert_eq!(t.title, "Song");
    assert_eq!(t.artist, "Band");
    assert_eq!(t.album, "");
    assert_eq!(t.genre, "Rock");
    assert_eq!(t.track_no, 4);
    assert_eq!(t.size, 42);
    assert_eq!(t.duration, 1500);
    assert_eq!(t.path, PathBuf::from("m/s.mp3"));
}

#[test]
fn unreadable_tags_fall_back_to_the_file_stem() {
    for tag in [
        None,
        Some(TagInfo { title: None, artist: Some("Band".into()), album: None, genre: None, track: Some(2) }),
    ] {
        let t = track_from_tags(PathBuf::from("My Song.mp3"), "My Song.mp3".into(), "My Song".into(), 3, 0, tag);
        assert!(!t.tagged);
        assert_eq!(t.title, "My Song");
        assert_eq!(t.artist, "");
        assert_eq!(t.track_no, 0);
    }
}

#[test]
fn the_primary_tag_is_read_before_the_first() {
    let tag = |title: &str| TagInfo {
        title: Some(title.to_string()),
        artist: None,
        album: None,
        genre: None,
        track: None,
    };
    let chosen = tag_to_read(Some(tag("Primary")), Some(tag("First")));
    assert_eq!(chosen.and_then(|t| t.title), Some("Primary".to_string()));
    let chosen = tag_to_read(None, Some(tag("First")));
    assert_eq!(chosen.and_then(|t| t.title), Some("First".to_string()));
    assert!(tag_to_read(None, None).is_none());
}

#[test]
fn the_audio_check_reads_the_last_path_component() {
    assert!(is_audio("a.mp3/"));
    assert!(is_audio("a.mp3/."));
    assert!(is_audio("a.mp3//"));
    assert!(is_audio("dir/song.MP3"));
    assert!(!is_audio("d/.mp3"));
    assert!(!is_audio("a.mp3/.."));
    assert!(!is_audio("/"));
    assert!(!is_audio("."));
    assert!(!is_audio(".."));
    assert!(!is_audio("song."));
    assert!(!is_audio(""));
}
