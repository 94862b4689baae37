use zenmanager::mtp::{DeviceTrack, UNKNOWN_ALBUM};
use zenmanager::music::{CheckState, MusicTree, NodeKind, NodePath, UNKNOWN_ARTIST};

fn track(id: u32, artist: &str, album: &str, title: &str) -> DeviceTrack {
    DeviceTrack {
        id,
        name: format!("{title}.mp3"),
        size: 100,
        title: title.to_string(),
        artist: artist.to_string(),
        album: album.to_string(),
    }
}

fn sized(id: u32, artist: &str, album: &str, title: &str, size: u64) -> DeviceTrack {
    DeviceTrack {
        size,
        ..track(id, artist, album, title)
    }
}

#[test]
fn tracks_group_into_artists_and_albums() {
    let tree = MusicTree::build(&[
        track(1, "A-ha", "Hunting High and Low", "Take On Me"),
        track(2, "A-ha", "Hunting High and Low", "Train of Thought"),
        track(3, "Judas Priest", "Painkiller", "Painkiller"),
    ]);

    assert_eq!(tree.artists.len(), 2);
    assert_eq!(tree.artists[0].name, "A-ha");
    assert_eq!(tree.artists[0].albums[0].tracks.len(), 2);
    assert_eq!(tree.track_count(), 3);
}

#[test]
fn missing_tags_fall_back_to_placeholders_rather_than_vanishing() {
    let tree = MusicTree::build(&[track(1, "", "", "Mystery")]);

    assert_eq!(tree.artists[0].name, UNKNOWN_ARTIST);
    assert_eq!(tree.artists[0].albums[0].name, UNKNOWN_ALBUM);
    assert_eq!(tree.track_count(), 1);
}

#[test]
fn a_track_with_no_title_falls_back_to_its_filename() {
    let mut t = track(1, "X", "Y", "");
    t.name = "weird-file.mp3".into();
    let tree = MusicTree::build(&[t]);

    assert_eq!(tree.artists[0].albums[0].tracks[0].title, "weird-file.mp3");
}

#[test]
fn collapsed_artists_hide_their_albums_and_tracks() {
    let tree = MusicTree::build(&[track(1, "A-ha", "Hunting High and Low", "Take On Me")]);
    let (rows, paths) = tree.rows();

    assert_eq!(rows.len(), 1);
    assert_eq!(rows[0].kind, NodeKind::Artist);
    assert_eq!(paths[0], NodePath::Artist(0));
}

#[test]
fn expanding_reveals_the_next_level_only() {
    let mut tree = MusicTree::build(&[track(1, "A-ha", "Hunting High and Low", "Take On Me")]);

    tree.toggle_expanded(NodePath::Artist(0));
    let (rows, _) = tree.rows();
    assert_eq!(rows.len(), 2, "artist plus its album");
    assert_eq!(rows[1].kind, NodeKind::Album);

    tree.toggle_expanded(NodePath::Album(0, 0));
    let (rows, paths) = tree.rows();
    assert_eq!(rows.len(), 3);
    assert_eq!(rows[2].kind, NodeKind::Track);
    assert_eq!(paths[2], NodePath::Track(0, 0, 0));
}

#[test]
fn checking_an_artist_checks_every_track_beneath_it() {
    let mut tree = MusicTree::build(&[
        track(1, "A-ha", "Hunting High and Low", "Take On Me"),
        track(2, "A-ha", "Scoundrel Days", "The Swing of Things"),
    ]);

    tree.set_checked(NodePath::Artist(0), true);

    assert_eq!(tree.checked_ids().len(), 2);
    let (rows, _) = tree.rows();
    assert_eq!(rows[0].check, CheckState::Checked);
}

#[test]
fn a_partly_checked_artist_reports_partial() {
    let mut tree = MusicTree::build(&[
        track(1, "A-ha", "Hunting High and Low", "Take On Me"),
        track(2, "A-ha", "Scoundrel Days", "The Swing of Things"),
    ]);

    tree.set_checked(NodePath::Album(0, 0), true);

    let (rows, _) = tree.rows();
    assert_eq!(rows[0].check, CheckState::Partial);
    assert_eq!(tree.checked_ids(), vec![1]);
}

#[test]
fn unchecking_an_album_leaves_other_albums_alone() {
    let mut tree = MusicTree::build(&[
        track(1, "A-ha", "Hunting High and Low", "Take On Me"),
        track(2, "A-ha", "Scoundrel Days", "The Swing of Things"),
    ]);

    tree.set_all_checked(true);
    tree.set_checked(NodePath::Album(0, 0), false);

    assert_eq!(tree.checked_ids(), vec![2]);
}

#[test]
fn artist_rows_total_their_tracks_and_bytes() {
    let tree = MusicTree::build(&[
        sized(1, "A-ha", "Hunting High and Low", "Take On Me", 40),
        sized(2, "A-ha", "Scoundrel Days", "The Swing of Things", 60),
    ]);

    let (rows, _) = tree.rows();
    assert_eq!(rows[0].track_count, 2);
    assert_eq!(rows[0].size, 100);
}

#[test]
fn artists_differing_only_in_case_are_one_artist() {
    let tree = MusicTree::build(&[
        track(1, "A-ha", "Hunting High and Low", "Take On Me"),
        track(2, "A-HA", "Hunting High and Low", "Train of Thought"),
    ]);

    assert_eq!(tree.artists.len(), 1);
    assert_eq!(tree.artists[0].albums.len(), 1);
}

#[test]
fn expand_all_reveals_every_row() {
    let mut tree = MusicTree::build(&[
        track(1, "A-ha", "Hunting High and Low", "Take On Me"),
        track(2, "Judas Priest", "Painkiller", "Painkiller"),
    ]);

    tree.set_all_expanded(true);
    let (rows, _) = tree.rows();

    // Two artists, each with one album and one track.
    assert_eq!(rows.len(), 6);
}

#[test]
fn artists_albums_and_tracks_are_sorted_ignoring_case() {
    let tree = MusicTree::build(&[
        track(1, "zed", "b side", "beta"),
        track(2, "Alpha", "A Side", "Zulu"),
        track(3, "zed", "A side", "alpha"),
        track(4, "Alpha", "A Side", "apple"),
    ]);

    let names: Vec<&str> = tree.artists.iter().map(|a| a.name.as_str()).collect();
    assert_eq!(names, vec!["Alpha", "zed"]);
    let albums: Vec<&str> = tree.artists[1].albums.iter().map(|a| a.name.as_str()).collect();
    assert_eq!(albums, vec!["A side", "b side"]);
    let titles: Vec<&str> = tree.artists[0].albums[0].tracks.iter().map(|t| t.title.as_str()).collect();
    assert_eq!(titles, vec!["apple", "Zulu"]);
}

#[test]
fn equal_titles_keep_their_listing_order() {
    let tree = MusicTree::build(&[
        track(7, "X", "Y", "Intro"),
        track(3, "X", "Y", "intro"),
        track(5, "X", "Y", "INTRO"),
    ]);
    let ids: Vec<u32> = tree.artists[0].albums[0].tracks.iter().map(|t| t.id).collect();
    assert_eq!(ids, vec![7, 3, 5]);
}

#[test]
fn the_first_spelling_of_an_artist_names_it() {
    let tree = MusicTree::build(&[
        track(1, "  a-HA ", "Album", "One"),
        track(2, "A-ha", "ALBUM", "Two"),
    ]);
    assert_eq!(tree.artists.len(), 1);
    assert_eq!(tree.artists[0].name, "a-HA");
    assert_eq!(tree.artists[0].albums[0].name, "Album");
    assert_eq!(tree.track_count(), 2);
}

#[test]
fn whitespace_only_tags_count_as_missing() {
    let mut t = track(1, "   ", "\t", "  ");
    t.name = "file.wma".into();
    let tree = MusicTree::build(&[t]);
    assert_eq!(tree.artists[0].name, UNKNOWN_ARTIST);
    assert_eq!(tree.artists[0].albums[0].name, UNKNOWN_ALBUM);
    assert_eq!(tree.artists[0].albums[0].tracks[0].title, "file.wma");
}

#[test]
fn toggling_twice_restores_the_rows() {
    let mut tree = MusicTree::build(&[track(1, "A", "B", "C")]);
    tree.toggle_expanded(NodePath::Artist(0));
    tree.toggle_expanded(NodePath::Artist(0));
    let (rows, _) = tree.rows();
    assert_eq!(rows.len(), 1);
    assert!(!rows[0].expanded);
}

#[test]
fn paths_that_name_no_node_change_nothing() {
    let mut tree = MusicTree::build(&[track(1, "A", "B", "C")]);
    tree.toggle_expanded(NodePath::Artist(5));
    tree.toggle_expanded(NodePath::Album(0, 3));
    tree.toggle_expanded(NodePath::Track(0, 0, 0));
    tree.set_checked(NodePath::Track(0, 0, 9), true);
    tree.set_checked(NodePath::Album(2, 0), true);
    let (rows, _) = tree.rows();
    assert_eq!(rows.len(), 1);
    assert!(tree.checked_ids().is_empty());
}

#[test]
fn checking_one_track_marks_its_album_partial() {
    let mut tree = MusicTree::build(&[track(1, "A", "B", "C"), track(2, "A", "B", "D")]);
    tree.set_all_expanded(true);
    tree.set_checked(NodePath::Track(0, 0, 1), true);
    let (rows, paths) = tree.rows();
    assert_eq!(rows[0].check, CheckState::Partial);
    assert_eq!(rows[1].check, CheckState::Partial);
    assert_eq!(rows[2].check, CheckState::Unchecked);
    assert_eq!(rows[3].check, CheckState::Checked);
    assert_eq!(paths[3], NodePath::Track(0, 0, 1));
    assert_eq!(rows[3].depth, 2);
    assert_eq!(rows[3].track_count, 0);
    assert_eq!(tree.checked_ids(), vec![2]);
}

#[test]
fn an_empty_listing_gives_an_empty_tree() {
    let tree = MusicTree::build(&[]);
    assert!(tree.artists.is_empty());
    assert_eq!(tree.track_count(), 0);
    assert!(tree.rows().0.is_empty());
    assert!(tree.sizes_fit());
}

#[test]
fn oversized_totals_are_reported() {
    let tree = MusicTree::build(&[sized(1, "A", "B", "C", u64::MAX), sized(2, "A", "B", "D", 1)]);
    assert!(!tree.sizes_fit());
    let tree = MusicTree::build(&[sized(1, "A", "B", "C", u64::MAX)]);
    assert!(tree.sizes_fit());
}

#[test]
fn every_row_shows_the_node_its_path_names() {
    let mut tree = MusicTree::build(&[
        track(1, "Judas Priest", "Painkiller", "Painkiller"),
        track(2, "A-ha", "Scoundrel Days", "The Swing of Things"),
        track(3, "A-ha", "Hunting High and Low", "Take On Me"),
    ]);
    tree.set_all_expanded(true);
    let (rows, paths) = tree.rows();
    assert_eq!(rows.len(), 2 + 3 + 3);
    for (row, path) in rows.iter().zip(paths.iter()) {
        let name = match *path {
            NodePath::Artist(a) => tree.artists[a].name.clone(),
            NodePath::Album(a, b) => tree.artists[a].albums[b].name.clone(),
            NodePath::Track(a, b, t) => tree.artists[a].albums[b].tracks[t].title.clone(),
        };
        assert_eq!(row.label, name);
    }
    tree.set_all_expanded(false);
    assert_eq!(tree.rows().0.len(), 2);
}

#[test]
fn checking_everything_selects_every_track_in_tree_order() {
    let mut tree = MusicTree::build(&[
        track(7, "B", "X", "Two"),
        track(3, "A", "Y", "One"),
        track(5, "B", "X", "Three"),
    ]);
    tree.set_all_checked(true);
    assert_eq!(tree.checked_ids(), vec![3, 5, 7]);
    tree.set_all_checked(false);
    assert!(tree.checked_ids().is_empty());
}
