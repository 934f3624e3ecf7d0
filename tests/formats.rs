use absinthium::m3u::{
    parse_entry, parse_entry_metadata, parse_m3u, parse_playlist_info, write_decimal, write_m3u,
    ExtM3u, FormatError,
};
use absinthium::plaintext::{parse_plain, write_plain, PlainListing};
use absinthium::plaintext::parse_entry as parse_plain_entry;
use absinthium::{Entry, EntryMetadata, PlaylistFormat, PlaylistInfo};

#[test]
fn extm3u_scenario() {
    let pl = parse_m3u("#EXTM3U\n#EXTINF:215,Artist - Song\nmusic/song.mp3\n", "list.m3u").unwrap();
    assert_eq!(pl.count(), 1);
    let e = &pl.entries()[0];
    assert_eq!(e.filename(), "music/song.mp3");
    let m = e.metadata().unwrap();
    assert_eq!(m.len(), Some(215));
    assert_eq!(m.title(), "Artist - Song");
    assert_eq!(pl.get_metadata().filename(), "list.m3u");
    assert_eq!(pl.get_metadata().title(), None);
}

#[test]
fn extm3u_round_trip() {
    let text = "#EXTM3U\n# a comment\n\n#EXTINF:007,Title, with comma\nmusic/a.mp3\nb.flac\n#EXTINF:0,\nc.ogg";
    let pl = parse_m3u(text, "p.m3u").unwrap();
    let out = write_m3u(&pl);
    assert_eq!(out, "#EXTM3U\n#EXTINF:7,Title, with comma\nmusic/a.mp3\nb.flac\n#EXTINF:0,\nc.ogg\n");
    let again = parse_m3u(&out, "p.m3u").unwrap();
    assert_eq!(again.count(), pl.count());
    for i in 0..pl.count() {
        let (a, b) = (&pl.entries()[i], &again.entries()[i]);
        assert_eq!(a.filename(), b.filename());
        assert_eq!(a.entry_num(), i as u32);
        assert_eq!(a.metadata().map(|m| m.info()), b.metadata().map(|m| m.info()));
    }
}

#[test]
fn m3u_without_header_skips_comments() {
    let pl = parse_m3u("#EXTINF:bad\na.mp3\n\n#note\nb.mp3", "p").unwrap();
    assert_eq!(pl.count(), 2);
    assert_eq!(pl.entries()[1].filename(), "b.mp3");
    assert!(pl.entries()[0].metadata().is_none());
    assert_eq!(write_m3u(&pl), "#EXTM3U\na.mp3\nb.mp3\n");
}

#[test]
fn extinf_without_number_is_rejected() {
    let r = parse_m3u("#EXTM3U\n#EXTINF:abc,Song\na.mp3\n", "p");
    assert_eq!(r.err(), Some(FormatError::BadExtinf { line: 2 }));
    let r = parse_m3u("#EXTM3U\n#EXTINF:12\na.mp3\n", "p");
    assert_eq!(r.err(), Some(FormatError::BadExtinf { line: 2 }));
    let r = parse_m3u("#EXTM3U\n#EXTINF:4294967296,Big\na.mp3\n", "p");
    assert_eq!(r.err(), Some(FormatError::BadExtinf { line: 2 }));
    let ok = parse_m3u("#EXTM3U\n#EXTINF:4294967295,Big\na.mp3\n", "p").unwrap();
    assert_eq!(ok.entries()[0].metadata().unwrap().len(), Some(4294967295));
}

#[test]
fn extinf_without_reference_is_rejected() {
    let r = parse_m3u("#EXTM3U\nx.mp3\n#EXTINF:5,Song\n#EXTINF:6,Other\na.mp3\n", "p");
    assert_eq!(r.err(), Some(FormatError::MissingReference { line: 3 }));
    let r = parse_m3u("#EXTM3U\n#EXTINF:5,Song\n", "p");
    assert_eq!(r.err(), Some(FormatError::MissingReference { line: 2 }));
    let r = parse_m3u("#EXTM3U\n#EXTINF:5,Song\n\na.mp3\n", "p");
    assert_eq!(r.err(), Some(FormatError::MissingReference { line: 2 }));
}

#[test]
fn empty_m3u_files() {
    assert_eq!(parse_m3u("", "p").unwrap().count(), 0);
    assert_eq!(parse_m3u("#EXTM3U\n", "p").unwrap().count(), 0);
}

#[test]
fn decimal_digits() {
    let mut s = String::from("n=");
    write_decimal(&mut s, 0);
    assert_eq!(s, "n=0");
    let mut s = String::new();
    write_decimal(&mut s, 4294967295);
    assert_eq!(s, "4294967295");
    let mut s = String::new();
    write_decimal(&mut s, 1090);
    assert_eq!(s, "1090");
}

#[test]
fn plain_listing_round_trip() {
    let pl = parse_plain("a.mp3\n\n#not a comment\ndir/b.mp3", "list.txt");
    assert_eq!(pl.count(), 3);
    assert_eq!(pl.entries()[1].fname, "#not a comment");
    assert_eq!(pl.entries()[2].num, 2);
    let out = write_plain(&pl);
    assert_eq!(out, "a.mp3\n#not a comment\ndir/b.mp3\n");
    let again = parse_plain(&out, "list.txt");
    assert_eq!(again.count(), 3);
    assert_eq!(write_plain(&again), out);
}

#[test]
fn formats_through_the_trait() {
    let pl = ExtM3u::parse("#EXTM3U\n#EXTINF:1,One\none.mp3\n", "x").unwrap();
    assert_eq!(ExtM3u::write(&pl), "#EXTM3U\n#EXTINF:1,One\none.mp3\n");
    let pl = PlainListing::parse("one\ntwo\n", "y").unwrap();
    assert_eq!(PlainListing::write(&pl), "one\ntwo\n");
    assert_eq!(pl.get_metadata().filename(), "y");
}

#[test]
fn single_reference_line() {
    let e = parse_entry("music/song.mp3", 3).unwrap();
    assert_eq!(e.filename(), "music/song.mp3");
    assert_eq!(e.entry_num(), 3);
    assert!(e.metadata().is_none());
    assert_eq!(parse_entry("#comment", 0).err(), Some(FormatError::BadReference { line: 1 }));
    assert_eq!(parse_entry("", 0).err(), Some(FormatError::BadReference { line: 1 }));
    assert_eq!(parse_entry("a\nb", 0).err(), Some(FormatError::BadReference { line: 1 }));
}

#[test]
fn single_extinf_line() {
    let m = parse_entry_metadata("#EXTINF:215,Artist - Song").unwrap();
    assert_eq!(m.len(), Some(215));
    assert_eq!(m.title(), "Artist - Song");
    assert_eq!(m.info(), "215,Artist - Song");
    assert_eq!(parse_entry_metadata("#EXTINF:,x").err(), Some(FormatError::BadExtinf { line: 1 }));
    assert_eq!(parse_entry_metadata("song.mp3").err(), Some(FormatError::BadExtinf { line: 1 }));
    assert_eq!(parse_entry_metadata("#EXTINF:1,a\nb").err(), Some(FormatError::BadExtinf { line: 1 }));
}

#[test]
fn header_line_gives_info() {
    let info = parse_playlist_info("#EXTM3U", "list.m3u").unwrap();
    assert_eq!(info.filename(), "list.m3u");
    assert_eq!(info.title(), None);
    assert_eq!(parse_playlist_info("#EXTM3", "x").err(), Some(FormatError::MissingHeader { line: 1 }));
    assert_eq!(parse_playlist_info("#EXTM3U ", "x").err(), Some(FormatError::MissingHeader { line: 1 }));
}

#[test]
fn single_plain_line() {
    let e = parse_plain_entry("#kept", 7).unwrap();
    assert_eq!(e.fname, "#kept");
    assert_eq!(e.num, 7);
    assert_eq!(parse_plain_entry("", 0).err(), Some(FormatError::BadReference { line: 1 }));
}

#[test]
fn trait_round_trip_keeps_content() {
    let text = "#EXTM3U\n#EXTINF:42,Answer\ndeep/thought.ogg\nplain.mp3\n";
    let p = ExtM3u::parse(text, "l.m3u").unwrap();
    let q = ExtM3u::parse(&ExtM3u::write(&p), "l.m3u").unwrap();
    assert_eq!(q.count(), 2);
    assert_eq!(q.entries()[0].metadata().unwrap().info(), "42,Answer");
    assert_eq!(q.entries()[1].filename(), "plain.mp3");
    assert_eq!(q.get_metadata().filename(), p.get_metadata().filename());
}
