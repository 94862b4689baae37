use std::path::PathBuf;
use zenmanager::library::LocalTrack;
use zenmanager::mtp::{Battery, DeviceInfo, DeviceTrack};
use zenmanager::music::{CheckState, NodePath};
use zenmanager::queue::{Issue, QueuedFile};
use zenmanager::session::{check_code, format_duration, or_dash, queue_row, Session};
use zenmanager::status;

fn queued(name: &str, size: u64) -> QueuedFile {
    QueuedFile {
        path: PathBuf::from(name),
        name: name.to_string(),
        size,
        track: Some(LocalTrack {
            path: PathBuf::from(name),
            file_name: name.to_string(),
            title: "T".into(),
            artist: " ".into(),
            album: "B".into(),
            genre: String::new(),
            track_no: 7,
            duration: 125_000,
            size,
            tagged: true,
        }),
        issue: Issue::Ready,
    }
}

fn device_track(id: u32, name: &str, artist: &str) -> DeviceTrack {
    DeviceTrack {
        id,
        name: name.into(),
        size: 10,
        title: String::new(),
        artist: artist.into(),
        album: "Album".into(),
    }
}

fn info(model: &str, manufacturer: &str, battery: Option<Battery>) -> DeviceInfo {
    DeviceInfo {
        model: model.into(),
        manufacturer: manufacturer.into(),
        storage: "Internal".into(),
        capacity: 100,
        free: 30,
        battery,
    }
}

#[test]
fn the_same_file_dropped_twice_is_queued_once() {
    let mut session = Session::new();
    session.add_entries(vec![queued("a.mp3", 1), queued("b.mp3", 1)]);
    session.add_entries(vec![queued("a.mp3", 1), queued("c.mp3", 1)]);
    let names: Vec<&str> = session.queue.iter().map(|f| f.name.as_str()).collect();
    assert_eq!(names, vec!["a.mp3", "b.mp3", "c.mp3"]);
}

#[test]
fn sent_files_leave_the_queue() {
    let mut session = Session::new();
    session.add_entries(vec![queued("a.mp3", 1), queued("b.mp3", 1)]);
    assert!(session.finish_transfer(&vec![PathBuf::from("a.mp3")]));
    assert_eq!(session.queue.len(), 1);
    assert_eq!(session.queue[0].name, "b.mp3");
    assert!(!session.finish_transfer(&vec![]));
    assert_eq!(session.queue.len(), 1);
}

#[test]
fn the_queue_status_follows_what_can_be_sent() {
    let mut session = Session::new();
    let summary = session.refresh_queue();
    assert_eq!(summary.code, status::NONE);
    session.add_entries(vec![queued("a.mp3", 10), queued("b.flac", 10)]);
    let summary = session.refresh_queue();
    assert_eq!(summary.code, status::READY);
    assert_eq!(summary.total_size, 20);
    session.connect(&info("Zen", "Creative", None), vec![], vec!["mp3".into()]);
    let summary = session.refresh_queue();
    assert_eq!(summary.code, status::READY_SKIPPING);
    assert_eq!(summary.blocked, 1);
    assert_eq!(session.queue[1].issue, Issue::UnsupportedByDevice);
    session.remove_at(0);
    let summary = session.refresh_queue();
    assert_eq!(summary.code, status::NONE_SENDABLE);
    session.remove_at(5);
    assert_eq!(session.queue.len(), 1);
    session.clear_queue();
    assert!(session.queue.is_empty());
}

#[test]
fn connecting_builds_the_tree_and_names_the_device() {
    let mut session = Session::new();
    let summary = session.connect(
        &info("Zen Micro", "Creative", Some(Battery::Level { current: 128, max: 255 })),
        vec![device_track(1, "b.mp3", "X"), device_track(2, "a.mp3", "Y")],
        vec![],
    );
    assert_eq!(summary.name, "Creative Zen Micro");
    assert_eq!(summary.detail, "Internal");
    assert_eq!(
        (summary.battery_state, summary.battery_percent, summary.battery_current, summary.battery_max),
        (1, 50, 128, 255)
    );
    assert_eq!(summary.used, 70);
    assert_eq!(summary.track_count, 2);
    let view = session.music_view();
    assert_eq!(view.rows.len(), 2);
    assert_eq!(view.total, 2);
    assert!(session.toggle_row(1));
    assert!(!session.toggle_row(9));
    let view = session.music_view();
    assert_eq!(view.rows.len(), 3);
    assert!(session.check_row(0, true));
    let view = session.music_view();
    assert_eq!(view.checked, 1);
    assert_eq!(session.tree.checked_ids(), vec![1]);
    assert_eq!(session.paths[2], NodePath::Album(1, 0));
    let state = session.device_state().expect("connected");
    assert_eq!(state.track_names, vec!["b.mp3".to_string(), "a.mp3".to_string()]);
    session.disconnect();
    assert!(session.device_state().is_none());
    assert_eq!(session.music_view().rows.len(), 0);
}

#[test]
fn devices_without_names_or_batteries() {
    let mut session = Session::new();
    let s = session.connect(&info("", "Creative", Some(Battery::ExternalPower)), vec![], vec![]);
    assert_eq!(s.name, "MTP device");
    assert_eq!((s.battery_state, s.battery_percent), (2, 0));
    let s = session.connect(&info("Zen", "", None), vec![], vec![]);
    assert_eq!(s.name, "Zen");
    assert_eq!(s.battery_state, 0);
}

#[test]
fn queue_rows_dash_what_is_missing() {
    let row = queue_row(&queued("a.mp3", 1));
    assert_eq!(row.title, "T");
    assert_eq!(row.artist, "—");
    assert_eq!(row.track_no, "7");
    assert_eq!(row.duration, "2:05");
    assert_eq!(row.glyph, "✓");
    assert!(!row.blocked);
    let bare = QueuedFile {
        path: PathBuf::from("n.txt"),
        name: "n.txt".into(),
        size: 1,
        track: None,
        issue: Issue::UnsupportedFormat,
    };
    let row = queue_row(&bare);
    assert_eq!(row.title, "—");
    assert_eq!(row.duration, "—");
    assert!(row.blocked);
    assert_eq!(row.message, "Not an audio file");
}

#[test]
fn durations_and_codes() {
    assert_eq!(format_duration(0), "—");
    assert_eq!(format_duration(999), "—");
    assert_eq!(format_duration(1000), "0:01");
    assert_eq!(format_duration(3_600_000), "60:00");
    assert_eq!(format_duration(61_500), "1:01");
    assert_eq!(or_dash("  "), "—");
    assert_eq!(or_dash(" x "), " x ");
    assert_eq!(check_code(CheckState::Unchecked), 0);
    assert_eq!(check_code(CheckState::Partial), 1);
    assert_eq!(check_code(CheckState::Checked), 2);
}

#[test]
fn a_file_named_twice_in_one_drop_is_queued_once() {
    let mut session = Session::new();
    session.add_entries(vec![queued("a.mp3", 1)]);
    // A folder dropped with a file inside it names that file twice.
    session.add_entries(vec![queued("b.mp3", 1), queued("c.mp3", 1), queued("b.mp3", 1), queued("a.mp3", 1)]);
    let names: Vec<&str> = session.queue.iter().map(|f| f.name.as_str()).collect();
    assert_eq!(names, vec!["a.mp3", "b.mp3", "c.mp3"]);
}
