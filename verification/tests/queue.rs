use std::path::PathBuf;
use zenmanager::library::LocalTrack;
use zenmanager::queue::{
    entries_for_paths, entry_for, evaluate, total_size, transferable, DeviceState, Dropped, Issue,
    QueuedFile,
};

fn track(name: &str, size: u64, tagged: bool) -> LocalTrack {
    LocalTrack {
        path: PathBuf::from(name),
        file_name: name.to_string(),
        title: "T".into(),
        artist: "A".into(),
        album: "B".into(),
        genre: String::new(),
        track_no: 1,
        duration: 0,
        size,
        tagged,
    }
}

fn queued(name: &str, size: u64, tagged: bool) -> QueuedFile {
    QueuedFile {
        path: PathBuf::from(name),
        name: name.to_string(),
        size,
        track: Some(track(name, size, tagged)),
        issue: Issue::Ready,
    }
}

fn device(free: u64, names: &[&str]) -> DeviceState {
    DeviceState {
        free_space: free,
        track_names: names.iter().map(|n| n.to_lowercase()).collect(),
        supported_extensions: ["mp3", "wma", "wav"].iter().map(|s| s.to_string()).collect(),
    }
}

#[test]
fn without_a_device_nothing_is_blocked() {
    let mut files = vec![queued("a.mp3", 100, true), queued("b.mp3", 100, true)];
    evaluate(&mut files, None);
    assert_eq!(transferable(&files).len(), 2);
}

#[test]
fn untagged_files_are_warned_but_still_transfer() {
    let mut files = vec![queued("a.mp3", 10, false)];
    evaluate(&mut files, Some(&device(1000, &[])));
    assert_eq!(files[0].issue, Issue::NoTags);
    assert_eq!(transferable(&files).len(), 1);
}

#[test]
fn files_already_on_the_device_are_blocked() {
    let mut files = vec![queued("a.mp3", 10, true), queued("b.mp3", 10, true)];
    evaluate(&mut files, Some(&device(1000, &["A.MP3"])));
    assert_eq!(files[0].issue, Issue::AlreadyOnDevice);
    assert_eq!(files[1].issue, Issue::Ready);
    assert_eq!(transferable(&files).len(), 1);
}

#[test]
fn space_is_counted_cumulatively_across_the_queue() {
    let mut files = vec![
        queued("a.mp3", 60, true),
        queued("b.mp3", 60, true),
        queued("c.mp3", 10, true),
    ];
    evaluate(&mut files, Some(&device(100, &[])));

    assert_eq!(files[0].issue, Issue::Ready);
    // 60 + 60 exceeds 100, so the second is blocked...
    assert_eq!(files[1].issue, Issue::NotEnoughSpace);
    // ...but a smaller file after it still fits in what remains.
    assert_eq!(files[2].issue, Issue::Ready);
}

#[test]
fn a_blocked_file_does_not_consume_space() {
    let mut files = vec![queued("dup.mp3", 90, true), queued("b.mp3", 90, true)];
    evaluate(&mut files, Some(&device(100, &["dup.mp3"])));

    assert_eq!(files[0].issue, Issue::AlreadyOnDevice);
    assert_eq!(files[1].issue, Issue::Ready);
}

#[test]
fn formats_the_device_cannot_play_are_blocked() {
    // The Zen Micro reports only nine filetypes; FLAC is not one of them.
    let mut files = vec![queued("track.flac", 10, true), queued("track.mp3", 10, true)];
    evaluate(&mut files, Some(&device(1000, &[])));

    assert_eq!(files[0].issue, Issue::UnsupportedByDevice);
    assert_eq!(files[1].issue, Issue::Ready);
    assert_eq!(transferable(&files).len(), 1);
}

#[test]
fn a_device_reporting_no_formats_blocks_nothing() {
    // Never reject everything just because the device stayed quiet.
    let mut files = vec![queued("track.flac", 10, true)];
    let mut state = device(1000, &[]);
    state.supported_extensions.clear();
    evaluate(&mut files, Some(&state));

    assert_eq!(files[0].issue, Issue::Ready);
}

#[test]
fn an_unplayable_file_does_not_consume_space() {
    let mut files = vec![queued("big.flac", 90, true), queued("ok.mp3", 90, true)];
    evaluate(&mut files, Some(&device(100, &[])));

    assert_eq!(files[0].issue, Issue::UnsupportedByDevice);
    assert_eq!(files[1].issue, Issue::Ready);
}

#[test]
fn unparsed_files_keep_their_original_reason() {
    let mut files = vec![QueuedFile {
        path: PathBuf::from("notes.txt"),
        name: "notes.txt".into(),
        size: 5,
        track: None,
        issue: Issue::UnsupportedFormat,
    }];
    evaluate(&mut files, Some(&device(1000, &[])));

    assert_eq!(files[0].issue, Issue::UnsupportedFormat);
    assert!(transferable(&files).is_empty());
}

#[test]
fn upper_case_extensions_match_the_device_formats() {
    let mut files = vec![queued("LOUD.MP3", 10, true), queued("noext", 10, true)];
    evaluate(&mut files, Some(&device(1000, &[])));
    assert_eq!(files[0].issue, Issue::Ready);
    assert_eq!(files[1].issue, Issue::UnsupportedByDevice);
}

#[test]
fn duplicates_are_found_ignoring_unicode_case() {
    let mut files = vec![queued("ÉTÉ.mp3", 10, true)];
    evaluate(&mut files, Some(&device(1000, &["été.mp3"])));
    assert_eq!(files[0].issue, Issue::AlreadyOnDevice);
}

#[test]
fn a_file_filling_the_space_exactly_fits() {
    let mut files = vec![queued("a.mp3", 100, true), queued("b.mp3", 1, true)];
    evaluate(&mut files, Some(&device(100, &[])));
    assert_eq!(files[0].issue, Issue::Ready);
    assert_eq!(files[1].issue, Issue::NotEnoughSpace);
}

#[test]
fn evaluating_twice_changes_nothing() {
    let mut files = vec![
        queued("a.mp3", 60, true),
        queued("b.mp3", 60, false),
        queued("c.mp3", 30, false),
    ];
    let state = device(100, &[]);
    evaluate(&mut files, Some(&state));
    let first: Vec<Issue> = files.iter().map(|f| f.issue.clone()).collect();
    evaluate(&mut files, Some(&state));
    let second: Vec<Issue> = files.iter().map(|f| f.issue.clone()).collect();
    assert_eq!(first, second);
    assert_eq!(first, vec![Issue::Ready, Issue::NotEnoughSpace, Issue::NoTags]);
}

#[test]
fn issues_block_and_describe_themselves() {
    assert!(!Issue::Ready.blocks_transfer());
    assert!(!Issue::NoTags.blocks_transfer());
    for issue in [
        Issue::UnsupportedFormat,
        Issue::UnsupportedByDevice,
        Issue::Unreadable,
        Issue::AlreadyOnDevice,
        Issue::NotEnoughSpace,
    ] {
        assert!(issue.blocks_transfer());
        assert_eq!(issue.glyph(), "✕");
        assert!(!issue.message().is_empty());
    }
    assert_eq!(Issue::Ready.glyph(), "✓");
    assert_eq!(Issue::NoTags.glyph(), "⚠");
    assert_eq!(Issue::Ready.message(), "");
    assert_eq!(Issue::NotEnoughSpace.message(), "Not enough space on the ZEN");
}

#[test]
fn total_size_adds_every_entry() {
    let files = vec![queued("a.mp3", 60, true), queued("b.mp3", 7, true)];
    assert_eq!(total_size(&files), 67);
    assert_eq!(total_size(&Vec::new()), 0);
}

#[test]
fn dropped_files_become_entries_with_reasons() {
    let audio = entry_for(PathBuf::from("x/a.mp3"), "a.mp3".into(), 5, Some(track("a.mp3", 9, true)));
    assert_eq!(audio.issue, Issue::Ready);
    assert_eq!(audio.size, 9);
    let unreadable = entry_for(PathBuf::from("x/b.ogg"), "b.ogg".into(), 5, None);
    assert_eq!(unreadable.issue, Issue::Unreadable);
    assert_eq!(unreadable.size, 5);
    let text = entry_for(PathBuf::from("x/n.txt"), "n.txt".into(), 3, None);
    assert_eq!(text.issue, Issue::UnsupportedFormat);
    assert!(text.track.is_none());
}

#[test]
fn dropped_folders_queue_every_track_in_order() {
    let entries = entries_for_paths(vec![
        Dropped::Folder(vec![track("a.mp3", 1, true), track("b.mp3", 2, false)]),
        Dropped::File { path: PathBuf::from("c.txt"), name: "c.txt".into(), size: 3, track: None },
    ]);
    let names: Vec<&str> = entries.iter().map(|e| e.name.as_str()).collect();
    assert_eq!(names, vec!["a.mp3", "b.mp3", "c.txt"]);
    assert_eq!(entries[0].path, PathBuf::from("a.mp3"));
    assert_eq!(entries[1].issue, Issue::Ready);
    assert_eq!(entries[2].issue, Issue::UnsupportedFormat);
}

#[test]
fn extensions_are_read_from_the_last_path_component() {
    let mut files = vec![
        queued("x.mp3/", 10, true),
        queued("d/.mp3", 10, true),
        queued("y.wav/.", 10, true),
    ];
    evaluate(&mut files, Some(&device(1000, &[])));
    assert_eq!(files[0].issue, Issue::Ready);
    assert_eq!(files[1].issue, Issue::UnsupportedByDevice);
    assert_eq!(files[2].issue, Issue::Ready);
}
