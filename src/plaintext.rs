//! Plain file listings: one reference per line.
//!
//! A plain listing carries no metadata, so an entry's title always falls back to the
//! final path segment of its reference.
use crate::lines::{
    has_no_newline, join_lines, lemma_lines_no_newline, lemma_lines_of_join, lines_of, no_newline, split_lines,
};
use crate::playlist::{entry_key, Playlist};
use crate::m3u::FormatError;
use crate::{base_name, opt_str_view, Entry, EntryMetadata, PlaylistFormat, PlaylistInfo};
use vstd::prelude::*;

verus! {

/// Metadata of a plain entry. It names its owning entry by that entry's number and
/// reference, and derives its title from the reference.
pub struct PlainMetadata {
    pub owner: u32,
    pub parent: String,
}

impl EntryMetadata for PlainMetadata {
    open spec fn title_view(&self) -> Seq<char> {
        base_name(self.parent@)
    }

    open spec fn len_view(&self) -> Option<u32> {
        None
    }

    /// All that a plain listing knows of an entry beyond its reference: its title.
    open spec fn info_view(&self) -> Seq<char> {
        base_name(self.parent@)
    }

    fn title(&self) -> (r: String) {
        crate::file_base_name(self.parent.as_str())
    }

    fn len(&self) -> (r: Option<u32>) {
        None
    }

    fn info(&self) -> (r: String) {
        crate::file_base_name(self.parent.as_str())
    }

    fn duplicate(&self) -> (r: Self) {
        PlainMetadata { owner: self.owner, parent: self.parent.clone() }
    }
}

/// Two plain metadata values are equal when their info text is equal and they
/// belong to the same entry: the same entry number and the same reference.
impl PartialEq for PlainMetadata {
    fn eq(&self, other: &PlainMetadata) -> (r: bool) {
        let same_info = self.info() == other.info();
        same_info && self.owner == other.owner && self.parent == other.parent
    }
}

impl vstd::std_specs::cmp::PartialEqSpecImpl for PlainMetadata {
    open spec fn obeys_eq_spec() -> bool {
        true
    }

    open spec fn eq_spec(&self, other: &PlainMetadata) -> bool {
        &&& self.info_view() == other.info_view()
        &&& self.owner == other.owner
        &&& self.parent@ == other.parent@
    }
}

/// An entry of a plain listing.
pub struct PlainEntry {
    pub num: u32,
    pub fname: String,
    pub metadata: Option<PlainMetadata>,
}

impl Entry<PlainMetadata> for PlainEntry {
    open spec fn num_view(&self) -> u32 {
        self.num
    }

    open spec fn filename_view(&self) -> Seq<char> {
        self.fname@
    }

    open spec fn metadata_view(&self) -> Option<PlainMetadata> {
        self.metadata
    }

    fn entry_num(&self) -> (r: u32) {
        self.num
    }

    fn filename(&self) -> (r: String) {
        self.fname.clone()
    }

    fn metadata(&self) -> (r: Option<PlainMetadata>) {
        match &self.metadata {
            Some(m) => Some(m.duplicate()),
            None => None,
        }
    }

    fn write_metadata(&mut self, metadata: PlainMetadata) {
        self.metadata = Some(metadata);
    }

    fn duplicate(&self) -> (r: Self) {
        PlainEntry { num: self.num, fname: self.fname.clone(), metadata: self.metadata() }
    }
}

/// Playlist info shared by the line-based formats: an optional title and the
/// playlist's own filename.
pub struct PlainInfo {
    pub title: Option<String>,
    pub filename: String,
}

impl PlaylistInfo for PlainInfo {
    open spec fn title_view(&self) -> Option<Seq<char>> {
        opt_str_view(self.title)
    }

    open spec fn filename_view(&self) -> Seq<char> {
        self.filename@
    }

    fn title(&self) -> (r: Option<String>) {
        match &self.title {
            Some(t) => Some(t.clone()),
            None => None,
        }
    }

    fn filename(&self) -> (r: String) {
        self.filename.clone()
    }

    fn with_filename(&self, name: &str) -> (r: Self) {
        PlainInfo { title: self.title(), filename: String::from_str(name) }
    }

    fn duplicate(&self) -> (r: Self) {
        let title = match &self.title {
            Some(t) => Some(t.clone()),
            None => None,
        };
        PlainInfo { title, filename: self.filename.clone() }
    }
}

/// A plain-listing playlist.
pub type PlainPlaylist = Playlist<PlainInfo, PlainMetadata, PlainEntry>;

/// The non-empty lines of `ls`, in order.
pub open spec fn nonempty_lines(ls: Seq<Seq<char>>) -> Seq<Seq<char>>
    decreases ls.len(),
{
    if ls.len() == 0 {
        ls
    } else {
        let rest = nonempty_lines(ls.drop_last());
        if ls.last().len() > 0 {
            rest.push(ls.last())
        } else {
            rest
        }
    }
}

/// The references of a plain listing.
pub open spec fn plain_refs(text: Seq<char>) -> Seq<Seq<char>> {
    nonempty_lines(lines_of(text))
}

/// Whether `e` is the entry at position `i` with reference `reference` and no metadata.
pub open spec fn is_plain_entry(e: PlainEntry, i: int, reference: Seq<char>) -> bool {
    e.num == i as u32 && e.fname@ == reference && e.metadata is None
}

proof fn lemma_nonempty_lines_keep(ls: Seq<Seq<char>>)
    requires
        forall|i: int| 0 <= i < ls.len() ==> (#[trigger] ls[i]).len() > 0,
    ensures
        nonempty_lines(ls) == ls,
    decreases ls.len(),
{
    if ls.len() > 0 {
        let p = ls.drop_last();
        assert forall|i: int| 0 <= i < p.len() implies (#[trigger] p[i]).len() > 0 by {
            assert(p[i] == ls[i]);
        }
        lemma_nonempty_lines_keep(p);
        assert(ls[ls.len() - 1] == ls.last());
        assert(p.push(ls.last()) =~= ls);
    }
}

proof fn lemma_nonempty_lines_props(ls: Seq<Seq<char>>)
    requires
        forall|i: int| 0 <= i < ls.len() ==> no_newline(#[trigger] ls[i]),
    ensures
        forall|i: int|
            0 <= i < nonempty_lines(ls).len() ==> no_newline(#[trigger] nonempty_lines(ls)[i])
                && nonempty_lines(ls)[i].len() > 0,
    decreases ls.len(),
{
    if ls.len() > 0 {
        let p = ls.drop_last();
        assert forall|i: int| 0 <= i < p.len() implies no_newline(#[trigger] p[i]) by {
            assert(p[i] == ls[i]);
        }
        lemma_nonempty_lines_props(p);
        assert(ls[ls.len() - 1] == ls.last());
        let rest = nonempty_lines(p);
        if ls.last().len() > 0 {
            let d = rest.push(ls.last());
            assert forall|i: int| 0 <= i < d.len() implies no_newline(#[trigger] d[i]) && d[i].len()
                > 0 by {
                if i < rest.len() {
                    assert(d[i] == rest[i]);
                }
            }
        }
    }
}

/// Writing out the references of a plain listing and reading the result back gives
/// the same references.
pub proof fn lemma_plain_round_trip(text: Seq<char>)
    ensures
        plain_refs(join_lines(plain_refs(text))) == plain_refs(text),
{
    let refs = plain_refs(text);
    lemma_lines_no_newline(text);
    lemma_nonempty_lines_props(lines_of(text));
    lemma_lines_of_join(refs);
    lemma_nonempty_lines_keep(refs);
}

/// Whether `pl` is what reading the plain listing `text` of the file `filename`
/// gives: one entry for each non-empty line, numbered by its position, without
/// metadata, and no title.
pub open spec fn plain_parsed(text: Seq<char>, filename: Seq<char>, pl: PlainPlaylist) -> bool {
    &&& pl.entries_view().len() == plain_refs(text).len()
    &&& forall|i: int|
        0 <= i < pl.entries_view().len() ==> is_plain_entry(
            #[trigger] pl.entries_view()[i],
            i,
            plain_refs(text)[i],
        )
    &&& pl.info_view().title is None
    &&& pl.info_view().filename@ == filename
}

/// Reads one line of a plain listing into an entry with the number `num` and no
/// metadata. A line that is empty or holds a newline is no entry.
pub fn parse_entry(text: &str, num: u32) -> (r: Result<PlainEntry, FormatError>)
    ensures
        text@.len() > 0 && no_newline(text@) <==> r is Ok,
        r matches Ok(e) ==> is_plain_entry(e, num as int, text@) && e.num == num,
        r is Err ==> r == Err::<PlainEntry, FormatError>(FormatError::BadReference { line: 1 }),
{
    if text.unicode_len() > 0 && has_no_newline(text) {
        Ok(PlainEntry { num, fname: String::from_str(text), metadata: None })
    } else {
        Err(FormatError::BadReference { line: 1 })
    }
}

/// Reads a plain listing: each non-empty line is a reference, numbered by its
/// position among the entries.
pub fn parse_plain(text: &str, filename: &str) -> (r: PlainPlaylist)
    ensures
        plain_parsed(text@, filename@, r),
{
    let ls = split_lines(text);
    let ghost lv = ls@.map_values(|l: String| l@);
    let mut entries: Vec<PlainEntry> = Vec::new();
    let mut i: usize = 0;
    while i < ls.len()
        invariant
            lv == ls@.map_values(|l: String| l@),
            lv == lines_of(text@),
            i <= ls@.len(),
            entries@.len() == nonempty_lines(lv.take(i as int)).len(),
            forall|j: int|
                0 <= j < entries@.len() ==> is_plain_entry(
                    #[trigger] entries@[j],
                    j,
                    nonempty_lines(lv.take(i as int))[j],
                ),
        decreases ls@.len() - i,
    {
        let line = &ls[i];
        let ghost pre = lv.take(i as int);
        proof {
            assert(lv.take(i + 1).drop_last() =~= pre);
            assert(lv.take(i + 1).last() == line@);
        }
        if line.unicode_len() > 0 {
            let num = entries.len() as u32;
            entries.push(PlainEntry { num, fname: line.clone(), metadata: None });
        }
        i = i + 1;
    }
    assert(lv.take(ls@.len() as int) =~= lv);
    let info = PlainInfo { title: None, filename: String::from_str(filename) };
    Playlist::from_parts(info, entries)
}

/// Writes the references of any playlist, one per line.
pub fn write_plain<P: PlaylistInfo, M: EntryMetadata, E: Entry<M>>(pl: &Playlist<P, M, E>) -> (r:
    String)
    ensures
        r@ == join_lines(pl.entries_view().map_values(|e: E| e.filename_view())),
{
    let entries = pl.entries();
    let ghost fs = entries@.map_values(|e: E| e.filename_view());
    let mut out = String::new();
    let mut i: usize = 0;
    assert(fs.skip(0) =~= fs);
    assert(out@ + join_lines(fs) =~= join_lines(fs));
    while i < entries.len()
        invariant
            fs == entries@.map_values(|e: E| e.filename_view()),
            i <= entries@.len(),
            out@ + join_lines(fs.skip(i as int)) == join_lines(fs),
        decreases entries@.len() - i,
    {
        let f = entries[i].filename();
        proof {
            reveal_strlit("\n");
            let rest = fs.skip(i as int);
            assert(rest[0] == f@);
            assert(rest.drop_first() =~= fs.skip(i + 1));
        }
        out.append(f.as_str());
        out.append("\n");
        i = i + 1;
    }
    assert(join_lines(fs.skip(entries@.len() as int)) =~= Seq::<char>::empty());
    out
}

/// The plain-listing dialect.
pub struct PlainListing;

impl PlaylistFormat<PlainInfo, PlainMetadata, PlainEntry> for PlainListing {
    /// Reading a plain listing never fails.
    open spec fn parse_spec(
        text: Seq<char>,
        filename: Seq<char>,
        r: Result<PlainPlaylist, FormatError>,
    ) -> bool {
        match r {
            Ok(pl) => plain_parsed(text, filename, pl),
            Err(_) => false,
        }
    }

    open spec fn text_spec(pl: PlainPlaylist) -> Seq<char> {
        join_lines(pl.entries_view().map_values(|e: PlainEntry| e.fname@))
    }

    proof fn lemma_round_trip(
        text: Seq<char>,
        filename: Seq<char>,
        p: PlainPlaylist,
        q: Result<PlainPlaylist, FormatError>,
    ) {
        let a = p.entries_view();
        assert(a.map_values(|e: PlainEntry| e.fname@) =~= plain_refs(text));
        lemma_plain_round_trip(text);
        let b = q->Ok_0.entries_view();
        assert forall|i: int| 0 <= i < a.len() implies entry_key::<PlainMetadata, PlainEntry>(
            #[trigger] a[i],
        ) == entry_key::<PlainMetadata, PlainEntry>(b[i]) && a[i].num_view() == b[i].num_view() by {
            assert(is_plain_entry(a[i], i, plain_refs(text)[i]));
            assert(is_plain_entry(b[i], i, plain_refs(text)[i]));
        }
    }

    fn parse(text: &str, filename: &str) -> Result<PlainPlaylist, FormatError> {
        Ok(parse_plain(text, filename))
    }

    fn write(pl: &PlainPlaylist) -> String {
        let r = write_plain(pl);
        assert(pl.entries_view().map_values(|e: PlainEntry| e.filename_view()) =~= pl.entries_view().map_values(
            |e: PlainEntry| e.fname@,
        ));
        r
    }
}

} // verus!
