use std::path::PathBuf;
use zenmanager::batch::{Deletion, Step, Transfer};
use zenmanager::library::LocalTrack;
use zenmanager::mtp::DeviceTrack;
use zenmanager::music::{MusicTree, NodePath};
use zenmanager::queue::{Issue, QueuedFile};
use zenmanager::status;

fn entry(name: &str, issue: Issue, with_track: bool) -> QueuedFile {
    let track = LocalTrack {
        path: PathBuf::from(name),
        file_name: name.to_string(),
        title: name.to_string(),
        artist: String::new(),
        album: String::new(),
        genre: String::new(),
        track_no: 0,
        duration: 0,
        size: 1,
        tagged: true,
    };
    QueuedFile {
        path: PathBuf::from(name),
        name: name.to_string(),
        size: 1,
        track: if with_track { Some(track) } else { None },
        issue,
    }
}

#[test]
fn a_transfer_sends_the_unblocked_entries_in_order() {
    let queue = vec![
        entry("a.mp3", Issue::Ready, true),
        entry("b.mp3", Issue::AlreadyOnDevice, true),
        entry("c.mp3", Issue::NoTags, true),
        entry("d.mp3", Issue::Ready, false),
        entry("e.mp3", Issue::Ready, true),
    ];
    let mut run = Transfer::begin(&queue);
    assert_eq!(run.indices, vec![0, 2, 3, 4]);

    assert_eq!(run.next(&queue, false), Step::Go { nth: 0, index: 0 });
    run.record_sent(PathBuf::from("a.mp3"));
    assert_eq!(run.next(&queue, false), Step::Go { nth: 1, index: 2 });
    run.record_failure("c.mp3: refused".to_string(), false);
    // An entry with no track is passed over.
    assert_eq!(run.next(&queue, false), Step::Go { nth: 3, index: 4 });
    run.record_sent(PathBuf::from("e.mp3"));
    assert_eq!(run.next(&queue, false), Step::Done);

    let report = run.report();
    assert_eq!(report.code, status::SENT);
    assert_eq!(report.succeeded, 2);
    assert_eq!(report.total, 4);
    assert_eq!(report.failed, 1);
    assert_eq!(report.detail, "c.mp3: refused");
    assert_eq!(run.sent, vec![PathBuf::from("a.mp3"), PathBuf::from("e.mp3")]);
}

#[test]
fn cancelling_stops_before_the_next_send() {
    let queue = vec![entry("a.mp3", Issue::Ready, true), entry("b.mp3", Issue::Ready, true)];
    let mut run = Transfer::begin(&queue);
    assert_eq!(run.next(&queue, false), Step::Go { nth: 0, index: 0 });
    run.record_sent(PathBuf::from("a.mp3"));
    assert_eq!(run.next(&queue, true), Step::Done);
    assert_eq!(run.next(&queue, false), Step::Done);
    let report = run.report();
    assert_eq!(report.code, status::CANCELLED);
    assert_eq!(report.succeeded, 1);
    assert_eq!(report.failed, 0);
    assert_eq!(report.detail, "");
}

#[test]
fn a_failure_while_cancelling_ends_the_run_uncounted() {
    let queue = vec![entry("a.mp3", Issue::Ready, true), entry("b.mp3", Issue::Ready, true)];
    let mut run = Transfer::begin(&queue);
    assert_eq!(run.next(&queue, false), Step::Go { nth: 0, index: 0 });
    run.record_failure("a.mp3: cancelled".to_string(), true);
    assert_eq!(run.next(&queue, false), Step::Done);
    let report = run.report();
    assert_eq!(report.code, status::CANCELLED);
    assert_eq!(report.failed, 0);
    assert!(run.sent.is_empty());
}

fn device_track(id: u32, artist: &str, title: &str) -> DeviceTrack {
    DeviceTrack {
        id,
        name: format!("{title}.mp3"),
        size: 10,
        title: title.to_string(),
        artist: artist.to_string(),
        album: "Album".to_string(),
    }
}

#[test]
fn a_deletion_counts_what_went_and_what_failed() {
    let mut tree = MusicTree::build(&[
        device_track(4, "A", "One"),
        device_track(9, "A", "Two"),
        device_track(6, "B", "Three"),
    ]);
    tree.set_checked(NodePath::Artist(0), true);
    let mut run = Deletion::begin(&tree);
    assert_eq!(run.ids, vec![4, 9]);
    assert_eq!(run.next(), Step::Go { nth: 0, index: 0 });
    run.record(Ok(()));
    assert_eq!(run.next(), Step::Go { nth: 1, index: 1 });
    run.record(Err("Failed to delete track".to_string()));
    assert_eq!(run.next(), Step::Done);
    let report = run.report();
    assert_eq!(report.code, status::DELETED_MANY);
    assert_eq!(report.succeeded, 1);
    assert_eq!(report.total, 2);
    assert_eq!(report.failed, 1);
    assert_eq!(report.detail, "Failed to delete track");
}
