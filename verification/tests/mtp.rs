use std::path::PathBuf;
use zenmanager::library::LocalTrack;
use zenmanager::mtp::{
    device_info, filetype_for, is_audio_object, listing_action, plan_send, sort_device_tracks,
    supported_extensions, track_properties, Battery, DeviceTrack, Filetype, ListingAction,
    SendRefusal, StorageReport,
};

#[test]
fn declared_audio_filetypes_are_music() {
    assert!(is_audio_object(&Filetype::Mp3, "song.mp3"));
    assert!(is_audio_object(&Filetype::Flac, "song.flac"));
    // Some devices report audio only as "undefined audio".
    assert!(is_audio_object(&Filetype::UndefAudio, "song.mp3"));
}

#[test]
fn audio_reported_as_unknown_is_still_music() {
    // Tracks written by other software come back like this; dropping them
    // would hide files that are really on the device.
    assert!(is_audio_object(&Filetype::Unknown, "01 Overcompensate.mp3"));
    assert!(is_audio_object(&Filetype::Unknown, "Track.WMA"));
}

#[test]
fn the_devices_own_unknown_files_are_not_music() {
    assert!(!is_audio_object(&Filetype::Unknown, "WMPInfo.xml"));
    assert!(!is_audio_object(&Filetype::Unknown, "DevIcon.fil"));
    assert!(!is_audio_object(&Filetype::Unknown, "DevLogo.fil"));
}

#[test]
fn non_audio_filetypes_are_never_music() {
    assert!(!is_audio_object(&Filetype::Jpeg, "cover.jpg"));
    assert!(!is_audio_object(&Filetype::Folder, "Music"));
    // An extension alone must not override a declared non-audio type.
    assert!(!is_audio_object(&Filetype::Text, "notes.mp3"));
}

#[test]
fn battery_percent_uses_the_devices_scale() {
    assert_eq!(Battery::Level { current: 255, max: 255 }.percent(), Some(100));
    assert_eq!(Battery::Level { current: 128, max: 255 }.percent(), Some(50));
    assert_eq!(Battery::Level { current: 200, max: 100 }.percent(), Some(100));
    assert_eq!(Battery::Level { current: 3, max: 0 }.percent(), None);
    assert_eq!(Battery::ExternalPower.percent(), None);
}

#[test]
fn filetypes_follow_the_extension() {
    assert_eq!(filetype_for("a.MP3"), Filetype::Mp3);
    assert_eq!(filetype_for("a.flac"), Filetype::Flac);
    assert_eq!(filetype_for("a.m4a"), Filetype::M4a);
    assert_eq!(filetype_for("a.xyz"), Filetype::UndefAudio);
    assert_eq!(filetype_for("noext"), Filetype::UndefAudio);
}

#[test]
fn supported_extensions_skip_non_audio_types() {
    let exts = supported_extensions(&vec![Filetype::Mp3, Filetype::Jpeg, Filetype::Audible, Filetype::Wma]);
    assert_eq!(exts, vec!["mp3".to_string(), "aa".to_string(), "wma".to_string()]);
}

#[test]
fn folders_are_entered_only_under_the_depth_bound() {
    assert_eq!(listing_action(Filetype::Folder, "Music", 0), ListingAction::Descend);
    assert_eq!(listing_action(Filetype::Folder, "Deep", 3), ListingAction::Descend);
    assert_eq!(listing_action(Filetype::Folder, "Deeper", 4), ListingAction::Skip);
    assert_eq!(listing_action(Filetype::Unknown, "a.mp3", 9), ListingAction::Keep);
    assert_eq!(listing_action(Filetype::Jpeg, "a.jpg", 0), ListingAction::Skip);
}

#[test]
fn the_roomiest_storage_takes_the_track() {
    assert_eq!(plan_send(&vec![10, 50, 50, 20], 40), Ok(2));
    assert_eq!(plan_send(&vec![10, 30], 40), Err(SendRefusal::NotEnoughSpace { pool: 1, free: 30 }));
    assert_eq!(plan_send(&vec![], 1), Err(SendRefusal::NoStorage));
    assert_eq!(plan_send(&vec![5], 5), Ok(0));
}

#[test]
fn device_info_totals_its_pools() {
    let pools = vec![
        StorageReport { capacity: 100, free: 40, description: Some(String::new()) },
        StorageReport { capacity: 50, free: 10, description: None },
        StorageReport { capacity: 1, free: 1, description: Some("Card".into()) },
    ];
    let info = device_info("Zen".into(), "Creative".into(), Some(Battery::ExternalPower), &pools);
    assert_eq!(info.capacity, 151);
    assert_eq!(info.free, 51);
    assert_eq!(info.storage, "Storage");
    assert_eq!(info.model, "Zen");
    assert_eq!(info.battery, Some(Battery::ExternalPower));
}

#[test]
fn sent_tracks_carry_their_tags() {
    let track = LocalTrack {
        path: PathBuf::from("x/song.FLAC"),
        file_name: "song.FLAC".into(),
        title: "Song".into(),
        artist: String::new(),
        album: String::new(),
        genre: "Jazz".into(),
        track_no: 70000,
        duration: 5_000_000_000_000,
        size: 1,
        tagged: true,
    };
    let p = track_properties(&track);
    assert_eq!(p.filetype, Filetype::Flac);
    assert_eq!(p.name, "Song");
    assert_eq!(p.artist, None);
    assert_eq!(p.album, "unknown");
    assert_eq!(p.genre.as_deref(), Some("Jazz"));
    assert_eq!(p.track, Some(u16::MAX));
    assert_eq!(p.duration, Some(u32::MAX));
}

#[test]
fn device_tracks_sort_by_lowercase_name() {
    let mk = |id: u32, name: &str| DeviceTrack {
        id,
        name: name.into(),
        size: 0,
        title: String::new(),
        artist: String::new(),
        album: String::new(),
    };
    let mut tracks = vec![mk(1, "b.mp3"), mk(2, "A.mp3"), mk(3, "a.MP3"), mk(4, "C.mp3")];
    sort_device_tracks(&mut tracks);
    let ids: Vec<u32> = tracks.iter().map(|t| t.id).collect();
    assert_eq!(ids, vec![2, 3, 1, 4]);
}

#[test]
fn whatever_is_sent_lists_back_as_music() {
    for name in ["song.MP3", "notes.txt", "noext", "a.flac", ".hidden"] {
        let sent = filetype_for(name);
        assert!(is_audio_object(&sent, "WMPInfo.xml"));
    }
}

#[test]
fn unknown_objects_are_judged_by_their_last_path_component() {
    assert!(is_audio_object(&Filetype::Unknown, "a.mp3/"));
    assert!(!is_audio_object(&Filetype::Unknown, "d/.mp3"));
    assert_eq!(filetype_for("x.flac/"), Filetype::Flac);
    assert_eq!(filetype_for("x/.flac"), Filetype::UndefAudio);
}
