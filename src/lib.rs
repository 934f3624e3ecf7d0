//! Absinthium: managing and mangling playlist files.
//!
//! The capability traits of this module describe what any playlist dialect offers
//! (entry metadata, entries, playlist info). [`playlist::Playlist`] is the container
//! that is generic over them, and the format modules parse and write concrete dialects.
use vstd::prelude::*;

pub mod lines;
pub mod m3u;
pub mod plaintext;
pub mod playlist;

pub use playlist::{Playlist, PlaylistError};



verus! {

/// Whether a URI names a local file. No reference is classified as a local file yet,
/// so this answers `false` for every input.
pub fn uri_is_file(uri: &str) -> (r: bool)
    ensures
        !r,
{
    false
}

/// The view of an optional string as an optional character sequence.
pub open spec fn opt_str_view(o: Option<String>) -> Option<Seq<char>> {
    match o {
        Some(s) => Some(s@),
        None => None,
    }
}

/// The final path segment of a reference: everything after its last `/`.
pub open spec fn base_name(s: Seq<char>) -> Seq<char>
    decreases s.len(),
{
    if s.len() == 0 {
        s
    } else if s.last() == '/' {
        Seq::empty()
    } else {
        base_name(s.drop_last()).push(s.last())
    }
}

/// The barest metadata reasonably present on a playlist entry.
pub trait EntryMetadata: Sized {
    spec fn title_view(&self) -> Seq<char>;

    spec fn len_view(&self) -> Option<u32>;

    spec fn info_view(&self) -> Seq<char>;

    /// The title or name set for the entry, or a fallback derived from its reference.
    fn title(&self) -> (r: String)
        ensures
            r@ == self.title_view(),
    ;

    /// The entry length in whole seconds, if known.
    fn len(&self) -> (r: Option<u32>)
        ensures
            r == self.len_view(),
    ;

    /// All known info for the entry, formatted as text.
    fn info(&self) -> (r: String)
        ensures
            r@ == self.info_view(),
    ;

    /// A fresh copy of this metadata.
    fn duplicate(&self) -> (r: Self)
        ensures
            r == *self,
    ;
}

/// Basic information of a playlist entry.
pub trait Entry<M: EntryMetadata>: Sized {
    spec fn num_view(&self) -> u32;

    spec fn filename_view(&self) -> Seq<char>;

    spec fn metadata_view(&self) -> Option<M>;

    /// The number of the entry, or its position in the playlist if none is declared.
    fn entry_num(&self) -> (r: u32)
        ensures
            r == self.num_view(),
    ;

    /// The filename or URI this entry points to.
    fn filename(&self) -> (r: String)
        ensures
            r@ == self.filename_view(),
    ;

    /// A snapshot of the attached metadata, if any.
    fn metadata(&self) -> (r: Option<M>)
        ensures
            r == self.metadata_view(),
    ;

    /// Replaces the attached metadata as a whole.
    fn write_metadata(&mut self, metadata: M)
        ensures
            final(self).metadata_view() == Some(metadata),
            final(self).filename_view() == old(self).filename_view(),
            final(self).num_view() == old(self).num_view(),
    ;

    /// A fresh copy of this entry.
    fn duplicate(&self) -> (r: Self)
        ensures
            r == *self,
    ;
}

/// Basic metadata of the playlist itself.
pub trait PlaylistInfo: Sized {
    spec fn title_view(&self) -> Option<Seq<char>>;

    spec fn filename_view(&self) -> Seq<char>;

    /// The title or name of the playlist, if it defines one.
    fn title(&self) -> (r: Option<String>)
        ensures
            opt_str_view(r) == self.title_view(),
    ;

    /// The filename or URI of the playlist, relative or absolute.
    fn filename(&self) -> (r: String)
        ensures
            r@ == self.filename_view(),
    ;

    /// The same info, pointing at another filename.
    fn with_filename(&self, name: &str) -> (r: Self)
        ensures
            r.filename_view() == name@,
            r.title_view() == self.title_view(),
    ;

    /// A fresh copy of this info.
    fn duplicate(&self) -> (r: Self)
        ensures
            r == *self,
    ;
}

/// A playlist dialect: the one place where a file grammar lives. It reads text into
/// a [`Playlist`] and writes a playlist back as text.
pub trait PlaylistFormat<P: PlaylistInfo, M: EntryMetadata, E: Entry<M>> {
    /// Whether `r` is what reading `text`, the content of the file `filename`, gives.
    spec fn parse_spec(
        text: Seq<char>,
        filename: Seq<char>,
        r: Result<Playlist<P, M, E>, m3u::FormatError>,
    ) -> bool;

    /// The text that a playlist is written as.
    spec fn text_spec(pl: Playlist<P, M, E>) -> Seq<char>;

    /// Round trip: a playlist read from a well-formed text, written out and read
    /// again, has the same content.
    proof fn lemma_round_trip(
        text: Seq<char>,
        filename: Seq<char>,
        p: Playlist<P, M, E>,
        q: Result<Playlist<P, M, E>, m3u::FormatError>,
    )
        requires
            Self::parse_spec(text, filename, Ok(p)),
            Self::parse_spec(Self::text_spec(p), filename, q),
        ensures
            q matches Ok(q) && playlist::same_content::<P, M, E>(p, q),
    ;

    /// Reads a whole playlist from its text and its own filename.
    fn parse(text: &str, filename: &str) -> (r: Result<Playlist<P, M, E>, m3u::FormatError>)
        ensures
            Self::parse_spec(text@, filename@, r),
    ;

    /// Writes a playlist as text.
    fn write(pl: &Playlist<P, M, E>) -> (r: String)
        ensures
            r@ == Self::text_spec(*pl),
    ;
}

/// The title shown for an entry: the title of its metadata, or, when it has none,
/// the final path segment of its reference.
pub open spec fn display_title<M: EntryMetadata, E: Entry<M>>(e: E) -> Seq<char> {
    match e.metadata_view() {
        Some(m) => m.title_view(),
        None => base_name(e.filename_view()),
    }
}

/// The final path segment of `s`, stripped of any directory components.
pub fn file_base_name(s: &str) -> (r: String)
    ensures
        r@ == base_name(s@),
{
    let n = s.unicode_len();
    let mut i: usize = n;
    let mut found = false;
    assert(s@.subrange(0, n as int) =~= s@);
    assert(s@.subrange(n as int, n as int) =~= Seq::<char>::empty());
    while i > 0 && !found
        invariant
            i <= n,
            n == s@.len(),
            found ==> i > 0 && s@[i - 1] == '/',
            base_name(s@) == base_name(s@.subrange(0, i as int)) + s@.subrange(i as int, n as int),
        decreases i + (if found { 0int } else { 1int }),
    {
        let c = s.get_char(i - 1);
        if c == '/' {
            found = true;
        } else {
            proof {
                let pre = s@.subrange(0, i as int);
                assert(pre.drop_last() =~= s@.subrange(0, i - 1));
                assert(s@.subrange(i - 1, n as int) =~= seq![c] + s@.subrange(i as int, n as int));
                assert(base_name(pre) == base_name(pre.drop_last()).push(c));
                assert(base_name(s@) =~= base_name(s@.subrange(0, i - 1)) + s@.subrange(i - 1, n as int));
            }
            i = i - 1;
        }
    }
    proof {
        let pre = s@.subrange(0, i as int);
        if i > 0 {
            assert(pre.last() == '/');
        }
        assert(base_name(pre) =~= Seq::<char>::empty());
    }
    let tail = s.substring_char(i, n);
    assert(base_name(s@) =~= tail@);
    String::from_str(tail)
}

/// The title shown for an entry, falling back to the final path segment of its
/// reference when no metadata is attached.
pub fn entry_title<M: EntryMetadata, E: Entry<M>>(e: &E) -> (r: String)
    ensures
        r@ == display_title::<M, E>(*e),
{
    match e.metadata() {
        Some(m) => m.title(),
        None => {
            let f = e.filename();
            file_base_name(f.as_str())
        },
    }
}

} // verus!
