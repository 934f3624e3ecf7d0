use absinthium::m3u::{M3uEntry, M3uMetadata};
use absinthium::plaintext::{PlainEntry, PlainInfo, PlainMetadata};
use absinthium::{entry_title, file_base_name, playlist::same_entry, uri_is_file};
use absinthium::{Entry, EntryMetadata, Playlist, PlaylistError, PlaylistInfo};

fn plain(num: u32, name: &str) -> PlainEntry {
    PlainEntry { num, fname: name.to_string(), metadata: None }
}

fn info(name: &str) -> PlainInfo {
    PlainInfo { title: None, filename: name.to_string() }
}

fn m3u(reference: &str, meta: Option<(u32, &str)>) -> M3uEntry {
    M3uEntry {
        num: 0,
        reference: reference.to_string(),
        metadata: meta.map(|(length, title)| M3uMetadata { length, title: title.to_string() }),
    }
}

fn names<M: EntryMetadata, E: Entry<M>>(pl: &Playlist<PlainInfo, M, E>) -> Vec<String> {
    pl.entries().iter().map(|e| e.filename()).collect()
}

#[test]
fn dedup_keeps_first_occurrence() {
    let mut pl = Playlist::from_parts(
        info("list.m3u"),
        vec![
            m3u("a.mp3", Some((215, "Artist - Song"))),
            m3u("b.mp3", None),
            m3u("a.mp3", Some((215, "Artist - Song"))),
            m3u("c.mp3", Some((10, "C"))),
        ],
    );
    assert_eq!(pl.dedup_entries(), 1);
    assert_eq!(names(&pl), vec!["a.mp3", "b.mp3", "c.mp3"]);
    assert_eq!(pl.entries()[0].metadata().unwrap().len(), Some(215));
}

#[test]
fn dedup_twice_removes_nothing_more() {
    let mut pl = Playlist::from_parts(
        info("list.m3u"),
        vec![
            m3u("a.mp3", None),
            m3u("a.mp3", None),
            m3u("b.mp3", None),
            m3u("a.mp3", None),
            m3u("b.mp3", Some((3, "B"))),
        ],
    );
    assert_eq!(pl.dedup_entries(), 2);
    assert_eq!(pl.dedup_entries(), 0);
    assert_eq!(pl.count(), 3);
    let es = pl.entries();
    for i in 0..es.len() {
        for j in (i + 1)..es.len() {
            assert!(!same_entry(&es[i], &es[j]));
        }
    }
}

#[test]
fn dedup_distinguishes_metadata_info() {
    let mut pl = Playlist::from_parts(
        info("list.m3u"),
        vec![m3u("a.mp3", Some((1, "A"))), m3u("a.mp3", Some((2, "A"))), m3u("a.mp3", None)],
    );
    assert_eq!(pl.dedup_entries(), 0);
    assert_eq!(pl.count(), 3);
}

#[test]
fn dedup_on_empty_playlist() {
    let mut pl: Playlist<PlainInfo, PlainMetadata, PlainEntry> =
        Playlist::from_parts(info("empty"), vec![]);
    assert_eq!(pl.dedup_entries(), 0);
    assert_eq!(pl.count(), 0);
}

#[test]
fn merge_concatenates_and_keeps_receiver_info() {
    let x = Playlist::from_parts(info("x.m3u"), vec![plain(0, "a"), plain(1, "b")]);
    let y = Playlist::from_parts(info("y.m3u"), vec![plain(0, "c"), plain(1, "a"), plain(2, "d")]);
    let m = x.merge(y);
    assert_eq!(m.count(), 5);
    assert_eq!(names(&m), vec!["a", "b", "c", "a", "d"]);
    assert_eq!(m.get_metadata().filename(), "x.m3u");
    assert_eq!(names(&x), vec!["a", "b"]);
}

#[test]
fn remove_past_end_fails() {
    let mut pl = Playlist::from_parts(info("p"), vec![plain(0, "a"), plain(1, "b")]);
    assert_eq!(pl.remove_entry(2).err(), Some(PlaylistError::Index { index: 2, count: 2 }));
    assert_eq!(pl.count(), 2);
    let removed = pl.remove_entry(0).ok().unwrap();
    assert_eq!(removed.fname, "a");
    assert_eq!(names(&pl), vec!["b"]);
}

#[test]
fn add_at_bounds() {
    let mut pl = Playlist::from_parts(info("p"), vec![plain(0, "a"), plain(1, "b")]);
    assert_eq!(pl.add_entry_at(plain(9, "z"), 3), Err(PlaylistError::Index { index: 3, count: 2 }));
    assert_eq!(pl.count(), 2);
    assert_eq!(pl.add_entry_at(plain(2, "c"), 2), Ok(()));
    assert_eq!(names(&pl), vec!["a", "b", "c"]);
    assert_eq!(pl.add_entry_at(plain(3, "first"), 0), Ok(()));
    assert_eq!(names(&pl), vec!["first", "a", "b", "c"]);
}

#[test]
fn add_entry_appends() {
    let mut pl = Playlist::from_parts(info("p"), vec![plain(0, "a")]);
    pl.add_entry(plain(1, "b"));
    assert_eq!(pl.count(), 2);
    assert_eq!(names(&pl), vec!["a", "b"]);
}

#[test]
fn rename_changes_filename_only() {
    let mut pl = Playlist::from_parts(
        PlainInfo { title: Some("Mix".to_string()), filename: "old.m3u".to_string() },
        vec![plain(0, "a")],
    );
    pl.rename("new.m3u");
    let meta = pl.get_metadata();
    assert_eq!(meta.filename(), "new.m3u");
    assert_eq!(meta.title(), Some("Mix".to_string()));
    assert_eq!(pl.count(), 1);
}

#[test]
fn fallback_title_from_reference() {
    let e = plain(0, "music/song.mp3");
    assert!(e.metadata().is_none());
    assert_eq!(entry_title(&e), "song.mp3");
}

#[test]
fn metadata_title_wins_over_reference() {
    let e = m3u("music/song.mp3", Some((215, "Artist - Song")));
    assert_eq!(entry_title(&e), "Artist - Song");
}

#[test]
fn plain_metadata_title_is_base_name() {
    let mut e = plain(4, "a/b/c.ogg");
    e.write_metadata(PlainMetadata { owner: 4, parent: "a/b/c.ogg".to_string() });
    let m = e.metadata().unwrap();
    assert_eq!(m.title(), "c.ogg");
    assert_eq!(m.len(), None);
    assert_eq!(m.info(), "c.ogg");
    assert_eq!(e.entry_num(), 4);
}

#[test]
fn base_name_edges() {
    assert_eq!(file_base_name("song.mp3"), "song.mp3");
    assert_eq!(file_base_name("dir/"), "");
    assert_eq!(file_base_name(""), "");
    assert_eq!(file_base_name("/abs/path/x"), "x");
}

#[test]
fn m3u_metadata_info_text() {
    let m = M3uMetadata { length: 215, title: "Artist - Song".to_string() };
    assert_eq!(m.info(), "215,Artist - Song");
    assert_eq!(m.len(), Some(215));
    let z = M3uMetadata { length: 0, title: String::new() };
    assert_eq!(z.info(), "0,");
}

#[test]
fn uri_is_never_a_file() {
    assert!(!uri_is_file("file:///tmp/a.mp3"));
    assert!(!uri_is_file("music/song.mp3"));
}

#[test]
fn plain_metadata_equality_follows_owner() {
    let a = PlainMetadata { owner: 0, parent: "x/a.mp3".to_string() };
    let b = PlainMetadata { owner: 0, parent: "x/a.mp3".to_string() };
    let c = PlainMetadata { owner: 0, parent: "y/a.mp3".to_string() };
    let d = PlainMetadata { owner: 1, parent: "x/a.mp3".to_string() };
    assert!(a == b);
    assert!(a != c);
    assert!(a != d);
}

#[test]
fn plain_metadata_info_holds_title() {
    let m = PlainMetadata { owner: 0, parent: "music/song.mp3".to_string() };
    assert_eq!(m.info(), "song.mp3");
    assert_eq!(m.title(), "song.mp3");
}
