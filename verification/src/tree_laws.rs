//! What holds of every tree `MusicTree::build` makes, and of the edits made
//! to a tree afterwards.

use vstd::prelude::*;
use crate::mtp::DeviceTrackModel;
use crate::music::{
    AlbumModel,
    ArtistModel,
    CheckState,
    NodePath,
    RowModel,
    TrackModel,
    album_row,
    album_rows,
    albums_rows,
    artist_expanded,
    artist_row,
    artist_rows,
    track_row,
    track_rows,
    tree_rows,
    album_checked,
    album_states,
    artist_checked,
    artist_state,
    checked_ids_of,
    combined,
    ids_of,
    is_checked,
    state_of,
    track_states,
    with_checked,
    with_toggled,
    album_key,
    album_label,
    album_names,
    albums_track_count,
    albums_tracks,
    all_tracks,
    arrange_album,
    arrange_artist,
    arranged_albums,
    arranged_artists,
    artist_key,
    artist_label,
    artist_names,
    artist_rank,
    both,
    built,
    distinct_names,
    distinct_step,
    grouped,
    grouped_album,
    grouped_artist,
    matches_name,
    of_artist,
    of_album,
    album_rank,
    track_rank,
    track_model,
    track_models,
};
use crate::order::{
    is_sorted_by,
    lemma_sort_ranked,
    lemma_sorted_from,
    lemma_sorted_no_duplicates,
    lemma_sum_congruent,
    lemma_sum_map,
    lemma_sum_sorted,
    sort_ranked,
    sum_by,
};
use crate::text::ascii_case_eq;

verus! {

// ---------------------------------------------------------------------------
// Distinct names
// ---------------------------------------------------------------------------

/// The distinct names differ pairwise ignoring ASCII case, every name is
/// matched by one of them, and each of them is one of the names.
pub proof fn lemma_distinct_names(names: Seq<Seq<char>>)
    ensures
        forall|i: int, j: int|
            0 <= i < j < distinct_names(names).len() ==> !ascii_case_eq(
                #[trigger] distinct_names(names)[i],
                #[trigger] distinct_names(names)[j],
            ),
        forall|k: int|
            #![trigger names[k]]
            0 <= k < names.len() ==> exists|i: int|
                0 <= i < distinct_names(names).len() && ascii_case_eq(
                    #[trigger] distinct_names(names)[i],
                    names[k],
                ),
        forall|i: int|
            0 <= i < distinct_names(names).len() ==> names.contains(
                #[trigger] distinct_names(names)[i],
            ),
    decreases names.len(),
{
    if names.len() > 0 {
        let prev = names.drop_last();
        let x = names.last();
        lemma_distinct_names(prev);
        let dp = distinct_names(prev);
        let d = distinct_names(names);
        assert(d == distinct_step(dp, x));
        assert forall|k: int| #![trigger names[k]] 0 <= k < names.len() implies exists|i: int|
            0 <= i < d.len() && ascii_case_eq(#[trigger] d[i], names[k]) by {
            if k < names.len() - 1 {
                assert(names[k] == prev[k]);
                let i = choose|i: int| 0 <= i < dp.len() && ascii_case_eq(#[trigger] dp[i], prev[k]);
                assert(d[i] == dp[i]);
            } else if exists|i: int| 0 <= i < dp.len() && ascii_case_eq(#[trigger] dp[i], x) {
                let i = choose|i: int| 0 <= i < dp.len() && ascii_case_eq(#[trigger] dp[i], x);
                assert(d[i] == dp[i]);
            } else {
                assert(d[dp.len() as int] == x);
            }
        }
        assert forall|i: int| 0 <= i < d.len() implies names.contains(#[trigger] d[i]) by {
            if i < dp.len() {
                assert(d[i] == dp[i]);
                assert(prev.contains(dp[i]));
                let k = choose|k: int| 0 <= k < prev.len() && prev[k] == dp[i];
                assert(names[k] == prev[k]);
            } else {
                assert(names[names.len() - 1] == x);
            }
        }
    }
}

// ---------------------------------------------------------------------------
// Counting by class
// ---------------------------------------------------------------------------

/// How many items of `s` have a key matching `d` ignoring ASCII case.
pub open spec fn class_size<X>(s: Seq<X>, key: spec_fn(X) -> Seq<char>) -> spec_fn(Seq<char>) -> nat {
    |d: Seq<char>| s.filter(matches_name(key, d)).len()
}

/// 1 for each of `names` that `y` matches ignoring ASCII case.
pub open spec fn matching_count(names: Seq<Seq<char>>, y: Seq<char>) -> nat
    decreases names.len(),
{
    if names.len() == 0 {
        0
    } else {
        matching_count(names.drop_last(), y) + if ascii_case_eq(y, names.last()) {
            1nat
        } else {
            0nat
        }
    }
}

proof fn lemma_matching_zero(names: Seq<Seq<char>>, y: Seq<char>)
    requires
        forall|i: int| 0 <= i < names.len() ==> !ascii_case_eq(#[trigger] names[i], y),
    ensures
        matching_count(names, y) == 0,
    decreases names.len(),
{
    if names.len() > 0 {
        assert forall|i: int| 0 <= i < names.drop_last().len() implies !ascii_case_eq(
            #[trigger] names.drop_last()[i],
            y,
        ) by {
            assert(names.drop_last()[i] == names[i]);
        }
        lemma_matching_zero(names.drop_last(), y);
        assert(!ascii_case_eq(names[names.len() - 1], y));
    }
}

proof fn lemma_matching_one(names: Seq<Seq<char>>, y: Seq<char>)
    requires
        forall|i: int, j: int| 0 <= i < j < names.len() ==> !ascii_case_eq(#[trigger] names[i], #[trigger] names[j]),
        exists|i: int| 0 <= i < names.len() && ascii_case_eq(#[trigger] names[i], y),
    ensures
        matching_count(names, y) == 1,
    decreases names.len(),
{
    let prev = names.drop_last();
    let last = names[names.len() - 1];
    assert forall|i: int, j: int| 0 <= i < j < prev.len() implies !ascii_case_eq(
        #[trigger] prev[i],
        #[trigger] prev[j],
    ) by {
        assert(prev[i] == names[i] && prev[j] == names[j]);
    }
    if ascii_case_eq(last, y) {
        assert forall|i: int| 0 <= i < prev.len() implies !ascii_case_eq(#[trigger] prev[i], y) by {
            assert(prev[i] == names[i]);
            assert(!ascii_case_eq(names[i], names[names.len() - 1]));
        }
        lemma_matching_zero(prev, y);
    } else {
        let i = choose|i: int| 0 <= i < names.len() && ascii_case_eq(#[trigger] names[i], y);
        assert(i < names.len() - 1);
        assert(prev[i] == names[i]);
        lemma_matching_one(prev, y);
    }
}

proof fn lemma_classes_push<X>(t: Seq<X>, x: X, key: spec_fn(X) -> Seq<char>, names: Seq<Seq<char>>)
    ensures
        sum_by(names, class_size(t.push(x), key)) == sum_by(names, class_size(t, key)) + matching_count(
            names,
            key(x),
        ),
    decreases names.len(),
{
    if names.len() > 0 {
        lemma_classes_push(t, x, key, names.drop_last());
        let d = names[names.len() - 1];
        t.lemma_filter_push(x, matches_name(key, d));
    }
}

proof fn lemma_class_empty<X>(t: Seq<X>, key: spec_fn(X) -> Seq<char>, y: Seq<char>)
    requires
        forall|k: int| 0 <= k < t.len() ==> !ascii_case_eq(key(#[trigger] t[k]), y),
    ensures
        class_size(t, key)(y) == 0,
    decreases t.len(),
{
    if t.len() > 0 {
        let prev = t.drop_last();
        assert forall|k: int| 0 <= k < prev.len() implies !ascii_case_eq(key(#[trigger] prev[k]), y) by {
            assert(prev[k] == t[k]);
        }
        lemma_class_empty(prev, key, y);
        assert(t =~= prev.push(t[t.len() - 1]));
        prev.lemma_filter_push(t[t.len() - 1], matches_name(key, y));
    }
}

/// Grouping by a key ignoring ASCII case loses and repeats nothing: the
/// classes of the distinct keys add up to the whole sequence.
pub proof fn lemma_partition<X>(s: Seq<X>, key: spec_fn(X) -> Seq<char>)
    ensures
        sum_by(distinct_names(s.map_values(key)), class_size(s, key)) == s.len(),
    decreases s.len(),
{
    if s.len() > 0 {
        let t = s.drop_last();
        let x = s[s.len() - 1];
        assert(s =~= t.push(x));
        lemma_partition(t, key);
        let lt = t.map_values(key);
        assert(s.map_values(key) =~= lt.push(key(x)));
        assert(s.map_values(key).drop_last() =~= lt);
        let dt = distinct_names(lt);
        lemma_distinct_names(lt);
        let ds = distinct_names(s.map_values(key));
        assert(ds == distinct_step(dt, key(x)));
        if exists|i: int| 0 <= i < dt.len() && ascii_case_eq(#[trigger] dt[i], key(x)) {
            lemma_classes_push(t, x, key, dt);
            lemma_matching_one(dt, key(x));
        } else {
            lemma_classes_push(t, x, key, dt);
            assert forall|i: int| 0 <= i < dt.len() implies !ascii_case_eq(#[trigger] dt[i], key(x)) by {}
            lemma_matching_zero(dt, key(x));
            assert forall|k: int| 0 <= k < t.len() implies !ascii_case_eq(key(#[trigger] t[k]), key(x)) by {
                assert(lt[k] == key(t[k]));
                let i = choose|i: int| 0 <= i < dt.len() && ascii_case_eq(#[trigger] dt[i], lt[k]);
            }
            lemma_class_empty(t, key, key(x));
            t.lemma_filter_push(x, matches_name(key, key(x)));
            assert(ds == dt.push(key(x)));
            assert(ds.drop_last() =~= dt);
        }
    }
}

proof fn lemma_filter_both<X>(s: Seq<X>, p: spec_fn(X) -> bool, q: spec_fn(X) -> bool)
    ensures
        s.filter(p).filter(q) == s.filter(both(p, q)),
    decreases s.len(),
{
    if s.len() > 0 {
        let t = s.drop_last();
        let x = s[s.len() - 1];
        assert(s =~= t.push(x));
        lemma_filter_both(t, p, q);
        t.lemma_filter_push(x, p);
        t.lemma_filter_push(x, both(p, q));
        t.filter(p).lemma_filter_push(x, q);
    }
}

// ---------------------------------------------------------------------------
// Nothing vanishes
// ---------------------------------------------------------------------------

/// How many tracks an album holds.
pub open spec fn album_len() -> spec_fn(AlbumModel) -> nat {
    |b: AlbumModel| b.tracks.len()
}

/// How many tracks an artist holds.
pub open spec fn artist_len() -> spec_fn(ArtistModel) -> nat {
    |a: ArtistModel| albums_track_count(a.albums)
}

proof fn lemma_albums_count_sum(bs: Seq<AlbumModel>)
    ensures
        albums_track_count(bs) == sum_by(bs, album_len()),
        albums_tracks(bs).len() == albums_track_count(bs),
    decreases bs.len(),
{
    if bs.len() > 0 {
        lemma_albums_count_sum(bs.drop_last());
    }
}

proof fn lemma_all_tracks_sum(s: Seq<ArtistModel>)
    ensures
        all_tracks(s).len() == sum_by(s, artist_len()),
    decreases s.len(),
{
    if s.len() > 0 {
        lemma_all_tracks_sum(s.drop_last());
        lemma_albums_count_sum(s.last().albums);
    }
}

proof fn lemma_arrange_keeps_count(a: ArtistModel)
    ensures
        artist_len()(arrange_artist(a)) == artist_len()(a),
{
    let arranged = arranged_albums(a.albums);
    lemma_albums_count_sum(sort_ranked(arranged, album_rank()));
    lemma_sum_sorted(arranged, album_rank(), album_len());
    assert forall|i: int| 0 <= i < a.albums.len() implies album_len()(
        arrange_album(#[trigger] a.albums[i]),
    ) == album_len()(a.albums[i]) by {
        lemma_sort_ranked(a.albums[i].tracks, track_rank());
    }
    lemma_sum_map(a.albums, |b: AlbumModel| arrange_album(b), album_len(), album_len());
    lemma_albums_count_sum(a.albums);
}

/// How many tracks artist `a` holds in the grouping of `ts`.
pub open spec fn grouped_len(ts: Seq<DeviceTrackModel>) -> spec_fn(Seq<char>) -> nat {
    |a: Seq<char>| albums_track_count(grouped_artist(ts, a).albums)
}

proof fn lemma_grouped_artist_count(ts: Seq<DeviceTrackModel>, a: Seq<char>)
    ensures
        grouped_len(ts)(a) == ts.filter(of_artist(a)).len(),
{
    let sa = ts.filter(of_artist(a));
    let names = album_names(ts, a);
    let albums = grouped_artist(ts, a).albums;
    lemma_albums_count_sum(albums);
    assert forall|i: int| 0 <= i < names.len() implies album_len()(grouped_album(ts, a, #[trigger] names[i]))
        == class_size(sa, album_key())(names[i]) by {
        lemma_filter_both(ts, of_artist(a), matches_name(album_key(), names[i]));
    }
    lemma_sum_map(names, |b: Seq<char>| grouped_album(ts, a, b), album_len(), class_size(sa, album_key()));
    lemma_partition(sa, album_key());
}

/// Every track of the listing appears in the tree built from it, once: the
/// tree holds exactly as many tracks as the listing. Tracks with missing
/// tags are filed under placeholders rather than dropped, so nothing on the
/// device is invisible in the tree.
pub proof fn lemma_build_keeps_every_track(ts: Seq<DeviceTrackModel>)
    ensures
        all_tracks(built(ts)).len() == ts.len(),
{
    let g = grouped(ts);
    let arranged = arranged_artists(g);
    lemma_all_tracks_sum(built(ts));
    lemma_sum_sorted(arranged, artist_rank(), artist_len());
    assert forall|i: int| 0 <= i < g.len() implies artist_len()(arrange_artist(#[trigger] g[i])) == artist_len()(
        g[i],
    ) by {
        lemma_arrange_keeps_count(g[i]);
    }
    lemma_sum_map(g, |a: ArtistModel| arrange_artist(a), artist_len(), artist_len());
    let names = artist_names(ts);
    assert forall|i: int| 0 <= i < names.len() implies artist_len()(grouped_artist(ts, #[trigger] names[i]))
        == class_size(ts, artist_key())(names[i]) by {
        lemma_grouped_artist_count(ts, names[i]);
    }
    lemma_sum_map(names, |a: Seq<char>| grouped_artist(ts, a), artist_len(), class_size(ts, artist_key()));
    lemma_partition(ts, artist_key());
}


/// Every element of a sequence is still there once it is sorted.
proof fn lemma_sorted_keeps<X>(s: Seq<X>, rank: spec_fn(X) -> crate::order::KeyView, x: X)
    requires
        s.contains(x),
    ensures
        sort_ranked(s, rank).contains(x),
{
    lemma_sort_ranked(s, rank);
    s.to_multiset_ensures();
    sort_ranked(s, rank).to_multiset_ensures();
    assert(s.to_multiset().count(x) > 0);
}

/// Every track of the listing shows in the tree built from it, as an
/// unchecked track with its id, size and title, under the artist and the
/// album it is filed under (matched ignoring ASCII case).
pub proof fn lemma_build_files_every_track(ts: Seq<DeviceTrackModel>, k: int)
    requires
        0 <= k < ts.len(),
    ensures
        exists|i: int, j: int, l: int|
            #![trigger built(ts)[i].albums[j].tracks[l]]
            0 <= i < built(ts).len() && 0 <= j < built(ts)[i].albums.len() && 0 <= l
                < built(ts)[i].albums[j].tracks.len() && ascii_case_eq(
                built(ts)[i].name,
                artist_label(ts[k]),
            ) && ascii_case_eq(built(ts)[i].albums[j].name, album_label(ts[k]))
                && built(ts)[i].albums[j].tracks[l] == track_model(ts[k]),
{
    let t = ts[k];
    let labels = crate::music::artist_labels(ts);
    lemma_distinct_names(labels);
    assert(labels[k] == artist_label(t));
    let names = artist_names(ts);
    let p = choose|p: int| 0 <= p < names.len() && ascii_case_eq(#[trigger] names[p], labels[k]);
    let a = names[p];
    let g = grouped(ts);
    assert(g[p] == grouped_artist(ts, a));
    // The track is among the artist's tracks.
    let sa = ts.filter(of_artist(a));
    assert(of_artist(a)(t));
    ts.lemma_filter_contains(of_artist(a), k);
    let m = choose|m: int| 0 <= m < sa.len() && sa[m] == t;
    let album_labels_a = crate::music::album_labels(sa);
    lemma_distinct_names(album_labels_a);
    assert(album_labels_a[m] == album_label(t));
    let bnames = album_names(ts, a);
    let q = choose|q: int| 0 <= q < bnames.len() && ascii_case_eq(#[trigger] bnames[q], album_labels_a[m]);
    let b = bnames[q];
    let album = g[p].albums[q];
    assert(album == grouped_album(ts, a, b));
    // The track is among the album's tracks.
    assert(of_album(a, b)(t));
    ts.lemma_filter_contains(of_album(a, b), k);
    let sb = ts.filter(of_album(a, b));
    let r = choose|r: int| 0 <= r < sb.len() && sb[r] == t;
    assert(album.tracks[r] == track_model(t));
    assert(album.tracks.contains(track_model(t)));
    // Sorting keeps the track, the album and the artist.
    lemma_sorted_keeps(album.tracks, track_rank(), track_model(t));
    let arranged_album = arrange_album(album);
    let bs = arranged_albums(g[p].albums);
    assert(bs[q] == arranged_album);
    assert(bs.contains(arranged_album));
    lemma_sorted_keeps(bs, album_rank(), arranged_album);
    let artist = arrange_artist(g[p]);
    let arranged = arranged_artists(g);
    assert(arranged[p] == artist);
    assert(arranged.contains(artist));
    lemma_sorted_keeps(arranged, artist_rank(), artist);
    let tree = built(ts);
    let i = choose|i: int| 0 <= i < tree.len() && tree[i] == artist;
    let j = choose|j: int| 0 <= j < artist.albums.len() && artist.albums[j] == arranged_album;
    let l = choose|l: int| 0 <= l < arranged_album.tracks.len() && arranged_album.tracks[l] == track_model(t);
    assert(tree[i].albums[j].tracks[l] == track_model(t));
}

/// An artist some track is filed under has albums, and each has tracks.
proof fn lemma_grouped_artist_filled(ts: Seq<DeviceTrackModel>, a: Seq<char>, k: int)
    requires
        0 <= k < ts.len(),
        artist_label(ts[k]) == a,
    ensures
        grouped_artist(ts, a).albums.len() > 0,
        forall|q: int|
            0 <= q < grouped_artist(ts, a).albums.len() ==> (
            #[trigger] grouped_artist(ts, a).albums[q]).tracks.len() > 0,
{
    assert(of_artist(a)(ts[k]));
    ts.lemma_filter_contains(of_artist(a), k);
    let sa = ts.filter(of_artist(a));
    let m = choose|m: int| 0 <= m < sa.len() && sa[m] == ts[k];
    let blabels = crate::music::album_labels(sa);
    lemma_distinct_names(blabels);
    let bnames = album_names(ts, a);
    assert(blabels[m] == album_label(ts[k]));
    let q0 = choose|q: int| 0 <= q < bnames.len() && ascii_case_eq(#[trigger] bnames[q], blabels[m]);
    assert forall|q: int| 0 <= q < grouped_artist(ts, a).albums.len() implies (
    #[trigger] grouped_artist(ts, a).albums[q]).tracks.len() > 0 by {
        let b = bnames[q];
        assert(grouped_artist(ts, a).albums[q] == grouped_album(ts, a, b));
        assert(blabels.contains(b));
        let r = choose|r: int| 0 <= r < blabels.len() && blabels[r] == b;
        ts.lemma_filter_pred(of_artist(a), r);
        assert(blabels[r] == album_key()(sa[r]));
        assert(matches_name(album_key(), b)(sa[r]));
        lemma_filter_both(ts, of_artist(a), matches_name(album_key(), b));
        sa.lemma_filter_contains(matches_name(album_key(), b), r);
        let sb = ts.filter(of_album(a, b));
        assert(sb == sa.filter(matches_name(album_key(), b)));
        assert(sb.len() > 0);
    }
}

/// A built tree has no empty node: every artist has an album and every album
/// a track.
pub proof fn lemma_build_has_no_empty_nodes(ts: Seq<DeviceTrackModel>)
    ensures
        forall|i: int| 0 <= i < built(ts).len() ==> (#[trigger] built(ts)[i]).albums.len() > 0,
        forall|i: int, j: int|
            0 <= i < built(ts).len() && 0 <= j < built(ts)[i].albums.len() ==> (
            #[trigger] built(ts)[i].albums[j]).tracks.len() > 0,
{
    let g = grouped(ts);
    let names = artist_names(ts);
    let labels = crate::music::artist_labels(ts);
    lemma_distinct_names(labels);
    assert forall|i: int| 0 <= i < built(ts).len() implies (#[trigger] built(ts)[i]).albums.len() > 0
        && forall|j: int| 0 <= j < built(ts)[i].albums.len() ==> (
        #[trigger] built(ts)[i].albums[j]).tracks.len() > 0 by {
        lemma_built_member(ts, i);
        let p = choose|p: int| 0 <= p < g.len() && built(ts)[i] == arrange_artist(#[trigger] g[p]);
        let a = names[p];
        assert(g[p] == grouped_artist(ts, a));
        assert(labels.contains(a));
        let k = choose|k: int| 0 <= k < labels.len() && labels[k] == a;
        lemma_grouped_artist_filled(ts, a, k);
        lemma_sort_ranked(arranged_albums(g[p].albums), album_rank());
        assert forall|j: int| 0 <= j < built(ts)[i].albums.len() implies (
        #[trigger] built(ts)[i].albums[j]).tracks.len() > 0 by {
            lemma_arranged_album_member(g[p], j);
            let q = choose|q: int|
                0 <= q < g[p].albums.len() && arrange_artist(g[p]).albums[j] == arrange_album(
                    #[trigger] g[p].albums[q],
                );
            lemma_sort_ranked(g[p].albums[q].tracks, track_rank());
        }
    }
}

// ---------------------------------------------------------------------------
// Shape of a built tree
// ---------------------------------------------------------------------------

proof fn lemma_sort_keeps_distinct<X>(
    s: Seq<X>,
    name: spec_fn(X) -> Seq<char>,
    rank: spec_fn(X) -> crate::order::KeyView,
)
    requires
        forall|i: int, j: int| 0 <= i < j < s.len() ==> !ascii_case_eq(name(#[trigger] s[i]), name(#[trigger] s[j])),
    ensures
        forall|i: int, j: int|
            0 <= i < j < sort_ranked(s, rank).len() ==> !ascii_case_eq(
                name(#[trigger] sort_ranked(s, rank)[i]),
                name(#[trigger] sort_ranked(s, rank)[j]),
            ),
{
    assert(s.no_duplicates()) by {
        assert forall|i: int, j: int| 0 <= i < s.len() && 0 <= j < s.len() && i != j implies s[i] != s[j] by {
            if i < j {
                assert(!ascii_case_eq(name(s[i]), name(s[j])));
            } else {
                assert(!ascii_case_eq(name(s[j]), name(s[i])));
            }
        }
    }
    lemma_sorted_no_duplicates(s, rank);
    lemma_sorted_from(s, rank);
    let sr = sort_ranked(s, rank);
    assert forall|i: int, j: int| 0 <= i < j < sr.len() implies !ascii_case_eq(
        name(#[trigger] sr[i]),
        name(#[trigger] sr[j]),
    ) by {
        assert(s.contains(sr[i]));
        assert(s.contains(sr[j]));
        let p = choose|p: int| 0 <= p < s.len() && s[p] == sr[i];
        let q = choose|q: int| 0 <= q < s.len() && s[q] == sr[j];
        assert(sr[i] != sr[j]);
        if p < q {
            assert(!ascii_case_eq(name(s[p]), name(s[q])));
        } else {
            assert(!ascii_case_eq(name(s[q]), name(s[p])));
        }
    }
}

/// Each artist of a built tree is one of the grouped artists, arranged.
proof fn lemma_built_member(ts: Seq<DeviceTrackModel>, i: int)
    requires
        0 <= i < built(ts).len(),
    ensures
        exists|p: int|
            0 <= p < grouped(ts).len() && built(ts)[i] == arrange_artist(#[trigger] grouped(ts)[p]),
{
    let g = grouped(ts);
    lemma_sorted_from(arranged_artists(g), artist_rank());
    assert(arranged_artists(g).contains(built(ts)[i]));
    let p = choose|p: int| 0 <= p < arranged_artists(g).len() && arranged_artists(g)[p] == built(ts)[i];
    assert(built(ts)[i] == arrange_artist(g[p]));
}

/// Each album of an arranged artist is one of its albums, arranged.
proof fn lemma_arranged_album_member(a: ArtistModel, j: int)
    requires
        0 <= j < arrange_artist(a).albums.len(),
    ensures
        exists|q: int|
            0 <= q < a.albums.len() && arrange_artist(a).albums[j] == arrange_album(#[trigger] a.albums[q]),
{
    lemma_sorted_from(arranged_albums(a.albums), album_rank());
    let bs = arranged_albums(a.albums);
    assert(bs.contains(arrange_artist(a).albums[j]));
    let q = choose|q: int| 0 <= q < bs.len() && bs[q] == arrange_artist(a).albums[j];
    assert(bs[q] == arrange_album(a.albums[q]));
}

/// In a built tree no two artists match ignoring ASCII case, and no two
/// albums of one artist do: artists (and albums) differing only in case are
/// one.
pub proof fn lemma_build_merges_case_variants(ts: Seq<DeviceTrackModel>)
    ensures
        forall|i: int, j: int|
            0 <= i < j < built(ts).len() ==> !ascii_case_eq(
                (#[trigger] built(ts)[i]).name,
                (#[trigger] built(ts)[j]).name,
            ),
        forall|i: int, j: int, k: int|
            0 <= i < built(ts).len() && 0 <= j < k < built(ts)[i].albums.len() ==> !ascii_case_eq(
                (#[trigger] built(ts)[i].albums[j]).name,
                (#[trigger] built(ts)[i].albums[k]).name,
            ),
{
    let g = grouped(ts);
    let names = artist_names(ts);
    lemma_distinct_names(crate::music::artist_labels(ts));
    let arranged = arranged_artists(g);
    let artist_name = |a: ArtistModel| a.name;
    assert forall|i: int, j: int| 0 <= i < j < arranged.len() implies !ascii_case_eq(
        artist_name(#[trigger] arranged[i]),
        artist_name(#[trigger] arranged[j]),
    ) by {
        assert(arranged[i].name == names[i]);
        assert(arranged[j].name == names[j]);
    }
    lemma_sort_keeps_distinct(arranged, artist_name, artist_rank());
    assert forall|i: int, j: int, k: int|
        0 <= i < built(ts).len() && 0 <= j < k < built(ts)[i].albums.len() implies !ascii_case_eq(
        (#[trigger] built(ts)[i].albums[j]).name,
        (#[trigger] built(ts)[i].albums[k]).name,
    ) by {
        lemma_built_member(ts, i);
        let p = choose|p: int| 0 <= p < g.len() && built(ts)[i] == arrange_artist(#[trigger] g[p]);
        let a = g[p];
        let album_names_of = album_names(ts, names[p]);
        lemma_distinct_names(crate::music::album_labels(ts.filter(of_artist(names[p]))));
        let bs = arranged_albums(a.albums);
        let album_name = |b: AlbumModel| b.name;
        assert forall|x: int, y: int| 0 <= x < y < bs.len() implies !ascii_case_eq(
            album_name(#[trigger] bs[x]),
            album_name(#[trigger] bs[y]),
        ) by {
            assert(bs[x].name == album_names_of[x]);
            assert(bs[y].name == album_names_of[y]);
        }
        lemma_sort_keeps_distinct(bs, album_name, album_rank());
        assert(built(ts)[i].albums == sort_ranked(bs, album_rank()));
        assert(album_name(sort_ranked(bs, album_rank())[j]) == built(ts)[i].albums[j].name);
        assert(album_name(sort_ranked(bs, album_rank())[k]) == built(ts)[i].albums[k].name);
    }
}

/// A built tree lists artists, each artist's albums and each album's tracks
/// in order of their lowercase names; it starts with every node collapsed
/// and every track unchecked.
pub proof fn lemma_build_is_sorted_and_fresh(ts: Seq<DeviceTrackModel>)
    ensures
        is_sorted_by(built(ts), artist_rank()),
        forall|i: int| 0 <= i < built(ts).len() ==> {
            &&& !(#[trigger] built(ts)[i]).expanded
            &&& is_sorted_by(built(ts)[i].albums, album_rank())
        },
        forall|i: int, j: int|
            0 <= i < built(ts).len() && 0 <= j < built(ts)[i].albums.len() ==> {
                &&& !(#[trigger] built(ts)[i].albums[j]).expanded
                &&& is_sorted_by(built(ts)[i].albums[j].tracks, track_rank())
                &&& forall|k: int|
                    0 <= k < built(ts)[i].albums[j].tracks.len() ==> !(
                    #[trigger] built(ts)[i].albums[j].tracks[k]).checked
            },
{
    let g = grouped(ts);
    lemma_sort_ranked(arranged_artists(g), artist_rank());
    assert forall|i: int| 0 <= i < built(ts).len() implies {
        &&& !(#[trigger] built(ts)[i]).expanded
        &&& is_sorted_by(built(ts)[i].albums, album_rank())
    } by {
        lemma_built_member(ts, i);
        let p = choose|p: int| 0 <= p < g.len() && built(ts)[i] == arrange_artist(#[trigger] g[p]);
        lemma_sort_ranked(arranged_albums(g[p].albums), album_rank());
    }
    assert forall|i: int, j: int|
        0 <= i < built(ts).len() && 0 <= j < built(ts)[i].albums.len() implies {
            &&& !(#[trigger] built(ts)[i].albums[j]).expanded
            &&& is_sorted_by(built(ts)[i].albums[j].tracks, track_rank())
            &&& forall|k: int|
                0 <= k < built(ts)[i].albums[j].tracks.len() ==> !(
                #[trigger] built(ts)[i].albums[j].tracks[k]).checked
        } by {
        lemma_built_member(ts, i);
        let p = choose|p: int| 0 <= p < g.len() && built(ts)[i] == arrange_artist(#[trigger] g[p]);
        let a = g[p];
        lemma_arranged_album_member(a, j);
        let q = choose|q: int|
            0 <= q < a.albums.len() && arrange_artist(a).albums[j] == arrange_album(#[trigger] a.albums[q]);
        let b = a.albums[q];
        lemma_sort_ranked(b.tracks, track_rank());
        lemma_sorted_from(b.tracks, track_rank());
        assert forall|k: int| 0 <= k < built(ts)[i].albums[j].tracks.len() implies !(
            #[trigger] built(ts)[i].albums[j].tracks[k]).checked by {
            let t = built(ts)[i].albums[j].tracks[k];
            assert(sort_ranked(b.tracks, track_rank())[k] == t);
            assert(b.tracks.contains(t));
            let r = choose|r: int| 0 <= r < b.tracks.len() && b.tracks[r] == t;
        }
    }
}

// ---------------------------------------------------------------------------
// Edits
// ---------------------------------------------------------------------------

/// Expanding or collapsing the same node twice leaves the tree as it was.
pub proof fn lemma_toggle_twice_restores(s: Seq<ArtistModel>, path: NodePath)
    ensures
        with_toggled(with_toggled(s, path), path) == s,
{
    let t = with_toggled(with_toggled(s, path), path);
    match path {
        NodePath::Artist(ai) => {
            if ai < s.len() {
                assert(t[ai as int].albums =~= s[ai as int].albums);
            }
        },
        NodePath::Album(ai, bi) => {
            if ai < s.len() && bi < s[ai as int].albums.len() {
                assert(t[ai as int].albums[bi as int].tracks =~= s[ai as int].albums[bi as int].tracks);
                assert(t[ai as int].albums =~= s[ai as int].albums);
            }
        },
        NodePath::Track(..) => {},
    }
    assert(t =~= s);
}

/// States that are all `x`, and at least one, combine to `x`.
proof fn lemma_combined_uniform(states: Seq<CheckState>, x: CheckState)
    requires
        states.len() > 0,
        x != CheckState::Partial,
        forall|i: int| 0 <= i < states.len() ==> states[i] == x,
    ensures
        combined(states) == x,
{
    assert(states[0] == x);
    assert(states.contains(x));
    if x == CheckState::Checked {
        assert(!states.contains(CheckState::Unchecked));
        assert(!states.contains(CheckState::Partial));
    } else {
        assert(!states.contains(CheckState::Checked));
        assert(!states.contains(CheckState::Partial));
    }
}

/// Some tracks with every check mark set to `c`.
pub open spec fn tracks_checked(ts: Seq<TrackModel>, c: bool) -> Seq<TrackModel> {
    ts.map_values(|t: TrackModel| TrackModel { id: t.id, title: t.title, size: t.size, checked: c })
}

proof fn lemma_albums_tracks_checked(bs: Seq<AlbumModel>, c: bool)
    ensures
        albums_tracks(bs.map_values(|b: AlbumModel| album_checked(b, c))) == tracks_checked(
            albums_tracks(bs),
            c,
        ),
    decreases bs.len(),
{
    let m = bs.map_values(|b: AlbumModel| album_checked(b, c));
    if bs.len() > 0 {
        assert(m.drop_last() =~= bs.drop_last().map_values(|b: AlbumModel| album_checked(b, c)));
        lemma_albums_tracks_checked(bs.drop_last(), c);
        assert(albums_tracks(m) =~= tracks_checked(albums_tracks(bs), c));
    } else {
        assert(albums_tracks(m) =~= tracks_checked(albums_tracks(bs), c));
    }
}

proof fn lemma_all_tracks_checked(s: Seq<ArtistModel>, c: bool)
    ensures
        all_tracks(s.map_values(|a: ArtistModel| artist_checked(a, c))) == tracks_checked(
            all_tracks(s),
            c,
        ),
    decreases s.len(),
{
    let m = s.map_values(|a: ArtistModel| artist_checked(a, c));
    if s.len() > 0 {
        assert(m.drop_last() =~= s.drop_last().map_values(|a: ArtistModel| artist_checked(a, c)));
        lemma_all_tracks_checked(s.drop_last(), c);
        lemma_albums_tracks_checked(s.last().albums, c);
        assert(all_tracks(m) =~= tracks_checked(all_tracks(s), c));
    } else {
        assert(all_tracks(m) =~= tracks_checked(all_tracks(s), c));
    }
}

/// Filtering keeps every item of a sequence whose items all pass, and none
/// of one whose items all fail.
proof fn lemma_filter_uniform<X>(s: Seq<X>, p: spec_fn(X) -> bool, all: bool)
    requires
        forall|i: int| 0 <= i < s.len() ==> p(#[trigger] s[i]) == all,
    ensures
        s.filter(p) == (if all { s } else { Seq::<X>::empty() }),
    decreases s.len(),
{
    if s.len() > 0 {
        let prev = s.drop_last();
        lemma_filter_uniform(prev, p, all);
        prev.lemma_filter_push(s.last(), p);
        assert(prev.push(s.last()) =~= s);
        assert(p(s[s.len() - 1]) == all);
        if all {
            assert(s.filter(p) =~= s);
        } else {
            assert(s.filter(p) =~= Seq::<X>::empty());
        }
    } else {
        assert(s.filter(p) =~= Seq::<X>::empty());
    }
}

/// Checking everything selects every track of the tree, in tree order;
/// unchecking everything selects none.
pub proof fn lemma_check_all_selects_every_track(s: Seq<ArtistModel>, c: bool)
    ensures
        checked_ids_of(s.map_values(|a: ArtistModel| artist_checked(a, c))) == (if c {
            ids_of(all_tracks(s))
        } else {
            Seq::<u32>::empty()
        }),
{
    let m = s.map_values(|a: ArtistModel| artist_checked(a, c));
    lemma_all_tracks_checked(s, c);
    let ts = all_tracks(m);
    lemma_filter_uniform(ts, is_checked(), c);
    if c {
        assert(ids_of(ts) =~= ids_of(all_tracks(s)));
    } else {
        assert(ids_of(Seq::<TrackModel>::empty()) =~= Seq::<u32>::empty());
    }
}

/// Checking an artist sets the mark of every track beneath it to `c` and
/// leaves every other artist as it was; an artist whose albums all hold
/// tracks, and that has albums, then shows that state.
pub proof fn lemma_checking_an_artist_reaches_every_track(s: Seq<ArtistModel>, ai: usize, c: bool)
    requires
        ai < s.len(),
    ensures
        with_checked(s, NodePath::Artist(ai), c).len() == s.len(),
        forall|j: int|
            0 <= j < s.len() && j != ai ==> #[trigger] with_checked(s, NodePath::Artist(ai), c)[j]
                == s[j],
        albums_tracks(with_checked(s, NodePath::Artist(ai), c)[ai as int].albums) == tracks_checked(
            albums_tracks(s[ai as int].albums),
            c,
        ),
        (s[ai as int].albums.len() > 0 && forall|b: int|
            0 <= b < s[ai as int].albums.len() ==> (#[trigger] s[ai as int].albums[b]).tracks.len() > 0)
            ==> artist_state(with_checked(s, NodePath::Artist(ai), c)[ai as int]) == state_of(c),
{
    let a = s[ai as int];
    let t = with_checked(s, NodePath::Artist(ai), c);
    assert(t[ai as int] == artist_checked(a, c));
    lemma_albums_tracks_checked(a.albums, c);
    if a.albums.len() > 0 && forall|b: int| 0 <= b < a.albums.len() ==> (#[trigger] a.albums[b]).tracks.len() > 0 {
        let bs = artist_checked(a, c).albums;
        assert forall|b: int| 0 <= b < bs.len() implies album_states(bs)[b] == state_of(c) by {
            assert(bs[b] == album_checked(a.albums[b], c));
            assert(a.albums[b].tracks.len() > 0);
            lemma_combined_uniform(track_states(bs[b].tracks), state_of(c));
        }
        lemma_combined_uniform(album_states(bs), state_of(c));
    }
}

/// Checking an album sets the mark of every track on it to `c` and leaves
/// every other album, and every other artist, as it was.
pub proof fn lemma_checking_an_album_leaves_the_rest(s: Seq<ArtistModel>, ai: usize, bi: usize, c: bool)
    requires
        ai < s.len(),
        bi < s[ai as int].albums.len(),
    ensures
        with_checked(s, NodePath::Album(ai, bi), c).len() == s.len(),
        forall|j: int|
            0 <= j < s.len() && j != ai ==> #[trigger] with_checked(s, NodePath::Album(ai, bi), c)[j]
                == s[j],
        with_checked(s, NodePath::Album(ai, bi), c)[ai as int].albums.len() == s[ai as int].albums.len(),
        forall|k: int|
            0 <= k < s[ai as int].albums.len() && k != bi ==> #[trigger] with_checked(
                s,
                NodePath::Album(ai, bi),
                c,
            )[ai as int].albums[k] == s[ai as int].albums[k],
        with_checked(s, NodePath::Album(ai, bi), c)[ai as int].albums[bi as int].tracks == tracks_checked(
            s[ai as int].albums[bi as int].tracks,
            c,
        ),
{
    let t = with_checked(s, NodePath::Album(ai, bi), c);
    assert(t[ai as int].albums[bi as int] == album_checked(s[ai as int].albums[bi as int], c));
    assert(t[ai as int].albums[bi as int].tracks =~= tracks_checked(s[ai as int].albums[bi as int].tracks, c));
}

// ---------------------------------------------------------------------------
// Rows
// ---------------------------------------------------------------------------

/// The row the node at `path` shows, when `path` names a node of the tree.
pub open spec fn node_row(s: Seq<ArtistModel>, path: NodePath) -> Option<RowModel> {
    match path {
        NodePath::Artist(ai) => if ai < s.len() {
            Some(artist_row(s[ai as int]))
        } else {
            None
        },
        NodePath::Album(ai, bi) => if ai < s.len() && bi < s[ai as int].albums.len() {
            Some(album_row(s[ai as int].albums[bi as int]))
        } else {
            None
        },
        NodePath::Track(ai, bi, ti) => if ai < s.len() && bi < s[ai as int].albums.len() && ti
            < s[ai as int].albums[bi as int].tracks.len() {
            Some(track_row(s[ai as int].albums[bi as int].tracks[ti as int]))
        } else {
            None
        },
    }
}

/// Every count in the tree fits a `usize`, as it does in a tree held in
/// vectors.
pub open spec fn indexable(s: Seq<ArtistModel>) -> bool {
    &&& s.len() <= usize::MAX
    &&& forall|i: int| 0 <= i < s.len() ==> (#[trigger] s[i]).albums.len() <= usize::MAX
    &&& forall|i: int, j: int|
        0 <= i < s.len() && 0 <= j < s[i].albums.len() ==> (#[trigger] s[i].albums[j]).tracks.len()
            <= usize::MAX
}

proof fn lemma_albums_rows_address(s: Seq<ArtistModel>, ai: int, bs: Seq<AlbumModel>)
    requires
        indexable(s),
        0 <= ai < s.len(),
        bs.len() <= s[ai].albums.len(),
        forall|j: int| 0 <= j < bs.len() ==> s[ai].albums[j] == bs[j],
    ensures
        forall|k: int|
            0 <= k < albums_rows(ai, bs).len() ==> node_row(s, (#[trigger] albums_rows(ai, bs)[k]).1)
                == Some(albums_rows(ai, bs)[k].0),
    decreases bs.len(),
{
    if bs.len() > 0 {
        let prev = bs.drop_last();
        lemma_albums_rows_address(s, ai, prev);
        let n = bs.len() - 1;
        let b = bs.last();
        let left = albums_rows(ai, prev);
        let right = album_rows(ai, n, b);
        let all = albums_rows(ai, bs);
        assert(all == left + right);
        assert(s[ai].albums.len() <= usize::MAX);
        assert(s[ai].albums[n] == b);
        assert(s[ai].albums[n].tracks.len() <= usize::MAX);
        assert forall|k: int| 0 <= k < all.len() implies node_row(s, (#[trigger] all[k]).1) == Some(
            all[k].0,
        ) by {
            if k < left.len() {
                assert(all[k] == left[k]);
            } else {
                let r = k - left.len();
                assert(all[k] == right[r]);
                if r > 0 {
                    assert(right[r] == track_rows(ai, n, b.tracks)[r - 1]);
                }
            }
        }
    }
}

proof fn lemma_node_row_prefix(p: Seq<ArtistModel>, s: Seq<ArtistModel>, path: NodePath)
    requires
        p.len() <= s.len(),
        forall|i: int| 0 <= i < p.len() ==> p[i] == s[i],
        node_row(p, path) is Some,
    ensures
        node_row(s, path) == node_row(p, path),
{
    match path {
        NodePath::Artist(ai) => {
            assert(p[ai as int] == s[ai as int]);
        },
        NodePath::Album(ai, bi) => {
            assert(p[ai as int] == s[ai as int]);
        },
        NodePath::Track(ai, bi, ti) => {
            assert(p[ai as int] == s[ai as int]);
        },
    }
}

/// Each visible row is the row of the node its path names, so an index the
/// UI sends back reaches the node it showed.
pub proof fn lemma_rows_address_their_nodes(s: Seq<ArtistModel>)
    requires
        indexable(s),
    ensures
        forall|k: int|
            0 <= k < tree_rows(s).len() ==> node_row(s, (#[trigger] tree_rows(s)[k]).1) == Some(
                tree_rows(s)[k].0,
            ),
    decreases s.len(),
{
    if s.len() > 0 {
        let p = s.drop_last();
        assert(indexable(p)) by {
            assert forall|i: int| 0 <= i < p.len() implies (#[trigger] p[i]).albums.len() <= usize::MAX by {
                assert(p[i] == s[i]);
            }
            assert forall|i: int, j: int|
                0 <= i < p.len() && 0 <= j < p[i].albums.len() implies (
                #[trigger] p[i].albums[j]).tracks.len() <= usize::MAX by {
                assert(p[i] == s[i]);
            }
        }
        lemma_rows_address_their_nodes(p);
        let n = s.len() - 1;
        let a = s.last();
        let left = tree_rows(p);
        let right = artist_rows(n, a);
        let all = tree_rows(s);
        assert(all == left + right);
        assert(s[n] == a);
        lemma_albums_rows_address(s, n, a.albums);
        assert forall|k: int| 0 <= k < all.len() implies node_row(s, (#[trigger] all[k]).1) == Some(
            all[k].0,
        ) by {
            if k < left.len() {
                assert(all[k] == left[k]);
                lemma_node_row_prefix(p, s, left[k].1);
            } else {
                let r = k - left.len();
                assert(all[k] == right[r]);
                if r > 0 {
                    assert(right[r] == albums_rows(n, a.albums)[r - 1]);
                }
            }
        }
    }
}

/// Number of albums in a tree.
pub open spec fn album_count(s: Seq<ArtistModel>) -> nat
    decreases s.len(),
{
    if s.len() == 0 {
        0
    } else {
        album_count(s.drop_last()) + s.last().albums.len()
    }
}

/// A tree whose artists are all collapsed shows one row per artist, in
/// order, and nothing else.
pub proof fn lemma_collapsed_rows(s: Seq<ArtistModel>)
    requires
        forall|i: int| 0 <= i < s.len() ==> !(#[trigger] s[i]).expanded,
    ensures
        tree_rows(s).len() == s.len(),
        forall|i: int|
            0 <= i < s.len() ==> #[trigger] tree_rows(s)[i] == (artist_row(s[i]), NodePath::Artist(
                i as usize,
            )),
    decreases s.len(),
{
    if s.len() > 0 {
        let p = s.drop_last();
        assert forall|i: int| 0 <= i < p.len() implies !(#[trigger] p[i]).expanded by {
            assert(p[i] == s[i]);
        }
        lemma_collapsed_rows(p);
        assert(!s[s.len() - 1].expanded);
        assert(artist_rows(s.len() - 1, s.last()) =~= seq![(artist_row(s.last()), NodePath::Artist((s.len() - 1) as usize))]);
        assert forall|i: int| 0 <= i < s.len() implies #[trigger] tree_rows(s)[i] == (
        artist_row(s[i]), NodePath::Artist(i as usize)) by {
            if i < p.len() {
                assert(tree_rows(s)[i] == tree_rows(p)[i]);
                assert(p[i] == s[i]);
            }
        }
    }
}

proof fn lemma_expanded_albums_rows(ai: int, bs: Seq<AlbumModel>)
    requires
        forall|j: int| 0 <= j < bs.len() ==> (#[trigger] bs[j]).expanded,
    ensures
        albums_rows(ai, bs).len() == bs.len() + albums_tracks(bs).len(),
    decreases bs.len(),
{
    if bs.len() > 0 {
        let p = bs.drop_last();
        assert forall|j: int| 0 <= j < p.len() implies (#[trigger] p[j]).expanded by {
            assert(p[j] == bs[j]);
        }
        lemma_expanded_albums_rows(ai, p);
        assert(bs[bs.len() - 1].expanded);
    }
}

proof fn lemma_expanded_rows(s: Seq<ArtistModel>)
    requires
        forall|i: int| 0 <= i < s.len() ==> (#[trigger] s[i]).expanded,
        forall|i: int, j: int|
            0 <= i < s.len() && 0 <= j < s[i].albums.len() ==> (#[trigger] s[i].albums[j]).expanded,
    ensures
        tree_rows(s).len() == s.len() + album_count(s) + all_tracks(s).len(),
    decreases s.len(),
{
    if s.len() > 0 {
        let p = s.drop_last();
        let n = s.len() - 1;
        assert forall|i: int| 0 <= i < p.len() implies (#[trigger] p[i]).expanded by {
            assert(p[i] == s[i]);
        }
        assert forall|i: int, j: int|
            0 <= i < p.len() && 0 <= j < p[i].albums.len() implies (#[trigger] p[i].albums[j]).expanded by {
            assert(p[i] == s[i]);
        }
        lemma_expanded_rows(p);
        assert(s[n].expanded);
        assert forall|j: int| 0 <= j < s[n].albums.len() implies (#[trigger] s[n].albums[j]).expanded by {
            assert(s[n].albums[j].expanded);
        }
        lemma_expanded_albums_rows(n, s[n].albums);
    }
}

proof fn lemma_albums_tracks_expanded(bs: Seq<AlbumModel>, e: bool)
    ensures
        albums_tracks(bs.map_values(|b: AlbumModel| AlbumModel { name: b.name, expanded: e, tracks: b.tracks }))
            == albums_tracks(bs),
    decreases bs.len(),
{
    let m = bs.map_values(|b: AlbumModel| AlbumModel { name: b.name, expanded: e, tracks: b.tracks });
    if bs.len() > 0 {
        assert(m.drop_last() =~= bs.drop_last().map_values(
            |b: AlbumModel| AlbumModel { name: b.name, expanded: e, tracks: b.tracks },
        ));
        lemma_albums_tracks_expanded(bs.drop_last(), e);
        assert(albums_tracks(m) =~= albums_tracks(bs));
    } else {
        assert(albums_tracks(m) =~= albums_tracks(bs));
    }
}

proof fn lemma_expand_all_keeps_contents(s: Seq<ArtistModel>, e: bool)
    ensures
        all_tracks(s.map_values(|a: ArtistModel| artist_expanded(a, e))) == all_tracks(s),
        album_count(s.map_values(|a: ArtistModel| artist_expanded(a, e))) == album_count(s),
    decreases s.len(),
{
    let m = s.map_values(|a: ArtistModel| artist_expanded(a, e));
    if s.len() > 0 {
        assert(m.drop_last() =~= s.drop_last().map_values(|a: ArtistModel| artist_expanded(a, e)));
        lemma_expand_all_keeps_contents(s.drop_last(), e);
        lemma_albums_tracks_expanded(s.last().albums, e);
        assert(all_tracks(m) =~= all_tracks(s));
    } else {
        assert(all_tracks(m) =~= all_tracks(s));
    }
}

/// Expanding everything shows a row for every artist, every album and every
/// track; collapsing everything shows only the artists.
pub proof fn lemma_expand_all_shows_every_row(s: Seq<ArtistModel>)
    ensures
        tree_rows(s.map_values(|a: ArtistModel| artist_expanded(a, true))).len() == s.len()
            + album_count(s) + all_tracks(s).len(),
        tree_rows(s.map_values(|a: ArtistModel| artist_expanded(a, false))).len() == s.len(),
{
    let up = s.map_values(|a: ArtistModel| artist_expanded(a, true));
    let down = s.map_values(|a: ArtistModel| artist_expanded(a, false));
    lemma_expand_all_keeps_contents(s, true);
    assert forall|i: int, j: int|
        0 <= i < up.len() && 0 <= j < up[i].albums.len() implies (#[trigger] up[i].albums[j]).expanded by {
        assert(up[i] == artist_expanded(s[i], true));
    }
    lemma_expanded_rows(up);
    lemma_collapsed_rows(down);
}

/// In a freshly built tree, checking an artist shows the artist as checked,
/// and unchecking it as unchecked.
pub proof fn lemma_checking_a_built_artist_shows_it(ts: Seq<DeviceTrackModel>, ai: usize, c: bool)
    requires
        ai < built(ts).len(),
    ensures
        artist_state(with_checked(built(ts), NodePath::Artist(ai), c)[ai as int]) == state_of(c),
{
    lemma_build_has_no_empty_nodes(ts);
    let s = built(ts);
    assert(s[ai as int].albums.len() > 0);
    assert forall|b: int| 0 <= b < s[ai as int].albums.len() implies (#[trigger] s[ai as int].albums[b]).tracks.len() > 0 by {
        assert(s[ai as int].albums[b].tracks.len() > 0);
    }
    lemma_checking_an_artist_reaches_every_track(s, ai, c);
}

/// How a node's check state follows from its children's: partial when any
/// child is partial, or when some are checked and some unchecked; checked
/// when there are children and all are checked; unchecked when all are
/// unchecked, and for a node with no children.
pub proof fn lemma_check_state_rules(states: Seq<CheckState>)
    ensures
        states.contains(CheckState::Partial) ==> combined(states) == CheckState::Partial,
        states.contains(CheckState::Checked) && states.contains(CheckState::Unchecked) ==> combined(
            states,
        ) == CheckState::Partial,
        states.len() > 0 && (forall|i: int| 0 <= i < states.len() ==> states[i] == CheckState::Checked)
            ==> combined(states) == CheckState::Checked,
        (forall|i: int| 0 <= i < states.len() ==> states[i] == CheckState::Unchecked) ==> combined(
            states,
        ) == CheckState::Unchecked,
{
    if states.len() > 0 && (forall|i: int| 0 <= i < states.len() ==> states[i] == CheckState::Checked) {
        lemma_combined_uniform(states, CheckState::Checked);
    }
    if (forall|i: int| 0 <= i < states.len() ==> states[i] == CheckState::Unchecked) {
        if states.len() > 0 {
            lemma_combined_uniform(states, CheckState::Unchecked);
        } else {
            assert(!states.contains(CheckState::Partial));
            assert(!states.contains(CheckState::Checked));
        }
    }
}

/// Checking or unchecking one track sets that track's mark to `c`, keeps
/// its id, title and size, and leaves the shape of the tree and every other
/// track as they were.
pub proof fn lemma_checking_a_track(s: Seq<ArtistModel>, ai: usize, bi: usize, ti: usize, c: bool)
    requires
        ai < s.len(),
        bi < s[ai as int].albums.len(),
        ti < s[ai as int].albums[bi as int].tracks.len(),
    ensures
        with_checked(s, NodePath::Track(ai, bi, ti), c).len() == s.len(),
        forall|i: int|
            0 <= i < s.len() ==> (#[trigger] with_checked(s, NodePath::Track(ai, bi, ti), c)[i]).albums.len()
                == s[i].albums.len(),
        forall|i: int, j: int|
            0 <= i < s.len() && 0 <= j < s[i].albums.len() ==> (#[trigger] with_checked(
                s,
                NodePath::Track(ai, bi, ti),
                c,
            )[i].albums[j]).tracks.len() == s[i].albums[j].tracks.len(),
        forall|i: int, j: int, k: int|
            0 <= i < s.len() && 0 <= j < s[i].albums.len() && 0 <= k < s[i].albums[j].tracks.len() && !(i
                == ai && j == bi && k == ti) ==> #[trigger] with_checked(
                s,
                NodePath::Track(ai, bi, ti),
                c,
            )[i].albums[j].tracks[k] == s[i].albums[j].tracks[k],
        with_checked(s, NodePath::Track(ai, bi, ti), c)[ai as int].albums[bi as int].tracks[ti as int].checked
            == c,
        with_checked(s, NodePath::Track(ai, bi, ti), c)[ai as int].albums[bi as int].tracks[ti as int].id
            == s[ai as int].albums[bi as int].tracks[ti as int].id,
        with_checked(s, NodePath::Track(ai, bi, ti), c)[ai as int].albums[bi as int].tracks[ti as int].title
            == s[ai as int].albums[bi as int].tracks[ti as int].title,
        with_checked(s, NodePath::Track(ai, bi, ti), c)[ai as int].albums[bi as int].tracks[ti as int].size
            == s[ai as int].albums[bi as int].tracks[ti as int].size,
{
}

} // verus!
