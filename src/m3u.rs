//! M3U and extended M3U.
//!
//! A file whose first line is `#EXTM3U` is extended: a line
//! `#EXTINF:<seconds>,<title>` gives the length and title of the reference on the
//! line right after it. Any other line that begins with `#` is a comment, and so
//! is every such line of a file without that header.
use crate::lines::{
    first_pos, has_no_newline, join_lines, lemma_first_pos, lemma_lines_no_newline, lemma_lines_of_join, lines_of,
    no_newline, split_lines,
};
use crate::plaintext::PlainInfo;
use crate::playlist::{entry_key, Playlist};
use crate::{Entry, EntryMetadata, PlaylistFormat};
use vstd::prelude::*;

verus! {

/// Errors of reading an extended M3U file. `line` counts from 1.
#[derive(Debug, Clone, Copy, PartialEq, Eq, Structural)]
pub enum FormatError {
    /// An `#EXTINF` line without a whole number of seconds, a comma and a title.
    BadExtinf { line: usize },
    /// An `#EXTINF` line that is not followed right away by a reference line.
    MissingReference { line: usize },
    /// A line that was to be a reference but is empty, a comment or holds a newline.
    BadReference { line: usize },
    /// A first line that is not `#EXTM3U`.
    MissingHeader { line: usize },
}

pub open spec fn is_digit(c: char) -> bool {
    '0' <= c && c <= '9'
}

pub open spec fn digit_val(c: char) -> nat {
    (c as u32 - '0' as u32) as nat
}

pub open spec fn digit_char(d: nat) -> char {
    if d == 0 {
        '0'
    } else if d == 1 {
        '1'
    } else if d == 2 {
        '2'
    } else if d == 3 {
        '3'
    } else if d == 4 {
        '4'
    } else if d == 5 {
        '5'
    } else if d == 6 {
        '6'
    } else if d == 7 {
        '7'
    } else if d == 8 {
        '8'
    } else {
        '9'
    }
}

pub open spec fn all_digits(s: Seq<char>) -> bool {
    forall|i: int| 0 <= i < s.len() ==> is_digit(#[trigger] s[i])
}

/// The number that a run of decimal digits denotes.
pub open spec fn digits_value(s: Seq<char>) -> nat
    decreases s.len(),
{
    if s.len() == 0 {
        0
    } else {
        digits_value(s.drop_last()) * 10 + digit_val(s.last())
    }
}

/// `n` written in decimal, without leading zeros.
pub open spec fn decimal(n: nat) -> Seq<char>
    decreases n,
{
    if n < 10 {
        seq![digit_char(n)]
    } else {
        decimal(n / 10).push(digit_char(n % 10))
    }
}

proof fn lemma_digit_char(d: nat)
    requires
        d < 10,
    ensures
        is_digit(digit_char(d)),
        digit_val(digit_char(d)) == d,
{
}

pub proof fn lemma_decimal(n: nat)
    ensures
        decimal(n).len() > 0,
        all_digits(decimal(n)),
        digits_value(decimal(n)) == n,
    decreases n,
{
    lemma_digit_char(n % 10);
    let d = decimal(n);
    if n < 10 {
        assert(d.drop_last() =~= Seq::<char>::empty());
        assert(d.last() == digit_char(n));
        assert(digits_value(Seq::<char>::empty()) == 0);
    } else {
        lemma_decimal(n / 10);
        assert(d.drop_last() == decimal(n / 10));
        assert(d.last() == digit_char(n % 10));
        assert(digits_value(d) == (n / 10) * 10 + n % 10);
        assert forall|i: int| 0 <= i < d.len() implies is_digit(#[trigger] d[i]) by {
            if i < d.len() - 1 {
                assert(d[i] == decimal(n / 10)[i]);
            }
        }
    }
}

proof fn lemma_digits_value_prefix(s: Seq<char>, k: int)
    requires
        0 <= k <= s.len(),
    ensures
        digits_value(s.take(k)) <= digits_value(s),
    decreases s.len(),
{
    if k < s.len() {
        assert(s.drop_last().take(k) =~= s.take(k));
        lemma_digits_value_prefix(s.drop_last(), k);
    } else {
        assert(s.take(k) =~= s);
    }
}

pub open spec fn extinf_tag() -> Seq<char> {
    seq!['#', 'E', 'X', 'T', 'I', 'N', 'F', ':']
}

pub open spec fn header_line() -> Seq<char> {
    seq!['#', 'E', 'X', 'T', 'M', '3', 'U']
}

/// Whether `l` begins with `#EXTINF:`.
pub open spec fn has_tag(l: Seq<char>) -> bool {
    l.len() >= 8 && l.take(8) == extinf_tag()
}

/// The length and title of an `#EXTINF` line, or `None` when it is malformed.
pub open spec fn extinf_of(l: Seq<char>) -> Option<(u32, Seq<char>)> {
    let body = l.skip(8);
    let c = first_pos(body, ',');
    let digits = body.take(c as int);
    if c < body.len() && c > 0 && all_digits(digits) && digits_value(digits) <= u32::MAX {
        Some((digits_value(digits) as u32, body.skip(c as int + 1)))
    } else {
        None
    }
}

/// The `#EXTINF` line for a length and a title.
pub open spec fn extinf_line(len: u32, title: Seq<char>) -> Seq<char> {
    extinf_tag() + decimal(len as nat) + seq![','] + title
}

pub proof fn lemma_extinf_line(len: u32, title: Seq<char>)
    ensures
        has_tag(extinf_line(len, title)),
        extinf_of(extinf_line(len, title)) == Some((len, title)),
{
    let l = extinf_line(len, title);
    let d = decimal(len as nat);
    lemma_decimal(len as nat);
    assert(l.take(8) =~= extinf_tag());
    let body = l.skip(8);
    assert(body =~= d + seq![','] + title);
    assert forall|i: int| 0 <= i < d.len() implies body[i] != ',' by {
        assert(body[i] == d[i]);
        assert(is_digit(d[i]));
    }
    lemma_first_pos(body, ',', d.len() as int);
    assert(body.take(d.len() as int) =~= d);
    assert(body.skip(d.len() as int + 1) =~= title);
}

/// The text of `d` as a string, for `d` below ten.
fn digit_str(d: u32) -> (r: &'static str)
    requires
        d < 10,
    ensures
        r@ == seq![digit_char(d as nat)],
{
    proof {
        reveal_strlit("0");
        reveal_strlit("1");
        reveal_strlit("2");
        reveal_strlit("3");
        reveal_strlit("4");
        reveal_strlit("5");
        reveal_strlit("6");
        reveal_strlit("7");
        reveal_strlit("8");
        reveal_strlit("9");
    }
    if d == 0 {
        "0"
    } else if d == 1 {
        "1"
    } else if d == 2 {
        "2"
    } else if d == 3 {
        "3"
    } else if d == 4 {
        "4"
    } else if d == 5 {
        "5"
    } else if d == 6 {
        "6"
    } else if d == 7 {
        "7"
    } else if d == 8 {
        "8"
    } else {
        "9"
    }
}

/// Appends `n` in decimal to `out`.
pub fn write_decimal(out: &mut String, n: u32)
    ensures
        final(out)@ == old(out)@ + decimal(n as nat),
    decreases n,
{
    if n >= 10 {
        write_decimal(out, n / 10);
    }
    out.append(digit_str(n % 10));
    assert(decimal(n as nat) =~= if n < 10 {
        seq![digit_char(n as nat)]
    } else {
        decimal((n / 10) as nat).push(digit_char((n % 10) as nat))
    });
}

/// Whether `s` begins with `p`.
pub fn has_prefix(s: &str, p: &str) -> (r: bool)
    ensures
        r == (p@.len() <= s@.len() && s@.take(p@.len() as int) == p@),
{
    let n = s.unicode_len();
    let m = p.unicode_len();
    if m > n {
        return false;
    }
    let mut i: usize = 0;
    while i < m
        invariant
            n == s@.len(),
            m == p@.len(),
            m <= n,
            i <= m,
            s@.take(i as int) == p@.take(i as int),
        decreases m - i,
    {
        if s.get_char(i) != p.get_char(i) {
            assert(s@.take(m as int)[i as int] != p@[i as int]);
            return false;
        }
        assert(s@.take(i + 1) =~= s@.take(i as int).push(s@[i as int]));
        assert(p@.take(i + 1) =~= p@.take(i as int).push(p@[i as int]));
        i = i + 1;
    }
    assert(p@.take(m as int) =~= p@);
    true
}

/// The length and title of an `#EXTINF` line, or `None` when it is malformed.
pub fn parse_extinf(l: &str) -> (r: Option<(u32, String)>)
    requires
        has_tag(l@),
    ensures
        match r {
            Some((len, title)) => extinf_of(l@) == Some((len, title@)),
            None => extinf_of(l@) is None,
        },
{
    let n = l.unicode_len();
    let body = l.substring_char(8, n);
    let bn = n - 8;
    assert(body@ =~= l@.skip(8));
    let mut c: usize = 0;
    while c < bn && body.get_char(c) != ','
        invariant
            bn == body@.len(),
            c <= bn,
            forall|i: int| 0 <= i < c ==> body@[i] != ',',
        decreases bn - c,
    {
        c = c + 1;
    }
    proof {
        lemma_first_pos(body@, ',', c as int);
    }
    if c == bn || c == 0 {
        return None;
    }
    let mut v: u64 = 0;
    let mut j: usize = 0;
    while j < c
        invariant
            bn == body@.len(),
            body@ == l@.skip(8),
            first_pos(body@, ',') == c,
            0 < c < bn,
            j <= c,
            v == digits_value(body@.take(j as int)),
            v <= u32::MAX,
            all_digits(body@.take(j as int)),
        decreases c - j,
    {
        let ch = body.get_char(j);
        let ghost digits = body@.take(c as int);
        if !('0' <= ch && ch <= '9') {
            assert(digits[j as int] == ch);
            assert(!all_digits(digits));
            return None;
        }
        let d = (ch as u32 - '0' as u32) as u64;
        let ghost next = body@.take(j + 1);
        assert(next.drop_last() =~= body@.take(j as int));
        assert(next.last() == ch);
        assert(all_digits(next)) by {
            assert forall|i: int| 0 <= i < next.len() implies is_digit(#[trigger] next[i]) by {
                if i < j {
                    assert(next[i] == body@.take(j as int)[i]);
                }
            }
        }
        v = v * 10 + d;
        assert(digits_value(next) == v);
        if v > u32::MAX as u64 {
            proof {
                if all_digits(digits) {
                    assert(digits.take(j + 1) =~= next);
                    lemma_digits_value_prefix(digits, j + 1);
                }
            }
            return None;
        }
        j = j + 1;
    }
    let title = String::from_str(body.substring_char(c + 1, bn));
    assert(title@ =~= body@.skip(c + 1));
    Some((v as u32, title))
}

/// Metadata of an extended M3U entry: its length and its title.
pub struct M3uMetadata {
    pub length: u32,
    pub title: String,
}

impl EntryMetadata for M3uMetadata {
    open spec fn title_view(&self) -> Seq<char> {
        self.title@
    }

    open spec fn len_view(&self) -> Option<u32> {
        Some(self.length)
    }

    /// The length in seconds, a comma and the title.
    open spec fn info_view(&self) -> Seq<char> {
        decimal(self.length as nat) + seq![','] + self.title@
    }

    fn title(&self) -> (r: String) {
        self.title.clone()
    }

    fn len(&self) -> (r: Option<u32>) {
        Some(self.length)
    }

    fn info(&self) -> (r: String) {
        let mut out = String::new();
        write_decimal(&mut out, self.length);
        out.append(",");
        out.append(self.title.as_str());
        proof {
            reveal_strlit(",");
        }
        assert(out@ =~= self.info_view());
        out
    }

    fn duplicate(&self) -> (r: Self) {
        M3uMetadata { length: self.length, title: self.title.clone() }
    }
}

/// An entry of an M3U file.
pub struct M3uEntry {
    pub num: u32,
    pub reference: String,
    pub metadata: Option<M3uMetadata>,
}

impl Entry<M3uMetadata> for M3uEntry {
    open spec fn num_view(&self) -> u32 {
        self.num
    }

    open spec fn filename_view(&self) -> Seq<char> {
        self.reference@
    }

    open spec fn metadata_view(&self) -> Option<M3uMetadata> {
        self.metadata
    }

    fn entry_num(&self) -> (r: u32) {
        self.num
    }

    fn filename(&self) -> (r: String) {
        self.reference.clone()
    }

    fn metadata(&self) -> (r: Option<M3uMetadata>) {
        match &self.metadata {
            Some(m) => Some(m.duplicate()),
            None => None,
        }
    }

    fn write_metadata(&mut self, metadata: M3uMetadata) {
        self.metadata = Some(metadata);
    }

    fn duplicate(&self) -> (r: Self) {
        M3uEntry { num: self.num, reference: self.reference.clone(), metadata: self.metadata() }
    }
}

/// An M3U playlist.
pub type M3uPlaylist = Playlist<PlainInfo, M3uMetadata, M3uEntry>;

/// What a file says of one entry: its length and title, when an `#EXTINF` line
/// gives them, and its reference.
pub type Item = (Option<(u32, Seq<char>)>, Seq<char>);

pub open spec fn item_of(e: M3uEntry) -> Item {
    (
        match e.metadata {
            Some(m) => Some((m.length, m.title@)),
            None => None,
        },
        e.reference@,
    )
}

pub open spec fn items_of(es: Seq<M3uEntry>) -> Seq<Item> {
    es.map_values(|e: M3uEntry| item_of(e))
}

/// Whether a line is a reference: not empty, and not beginning with `#`.
pub open spec fn is_reference(l: Seq<char>) -> bool {
    l.len() > 0 && l[0] != '#'
}

/// `done` in front of the items of `r`, or the error of `r`.
pub open spec fn chain(done: Seq<Item>, r: Result<Seq<Item>, FormatError>) -> Result<
    Seq<Item>,
    FormatError,
> {
    match r {
        Ok(x) => Ok(done + x),
        Err(e) => Err(e),
    }
}

/// The items of the lines `ls`, the first of which is line number `line` of the
/// file. `ext` says whether `#EXTINF` lines are read or skipped as comments.
pub open spec fn read_items(ls: Seq<Seq<char>>, line: nat, ext: bool) -> Result<
    Seq<Item>,
    FormatError,
>
    decreases ls.len(),
{
    if ls.len() == 0 {
        Ok(Seq::empty())
    } else {
        let l = ls[0];
        if l.len() == 0 {
            read_items(ls.drop_first(), line + 1, ext)
        } else if ext && has_tag(l) {
            match extinf_of(l) {
                None => Err(FormatError::BadExtinf { line: line as usize }),
                Some(md) => if ls.len() >= 2 && is_reference(ls[1]) {
                    chain(seq![(Some(md), ls[1])], read_items(ls.skip(2), line + 2, ext))
                } else {
                    Err(FormatError::MissingReference { line: line as usize })
                },
            }
        } else if l[0] == '#' {
            read_items(ls.drop_first(), line + 1, ext)
        } else {
            chain(seq![(None, l)], read_items(ls.drop_first(), line + 1, ext))
        }
    }
}

/// The items of an M3U file, extended when its first line is `#EXTM3U`.
pub open spec fn m3u_items(text: Seq<char>) -> Result<Seq<Item>, FormatError> {
    let ls = lines_of(text);
    if ls.len() > 0 && ls[0] == header_line() {
        read_items(ls.drop_first(), 2, true)
    } else {
        read_items(ls, 1, false)
    }
}

proof fn lemma_chain(a: Seq<Item>, b: Seq<Item>, r: Result<Seq<Item>, FormatError>)
    ensures
        chain(a, chain(b, r)) == chain(a + b, r),
{
    if let Ok(x) = r {
        assert(a + (b + x) =~= (a + b) + x);
    }
}

fn is_reference_line(l: &str) -> (r: bool)
    ensures
        r == is_reference(l@),
{
    l.unicode_len() > 0 && l.get_char(0) != '#'
}

/// Reads one reference line into an entry with the number `num` and no metadata.
pub fn parse_entry(text: &str, num: u32) -> (r: Result<M3uEntry, FormatError>)
    ensures
        is_reference(text@) && no_newline(text@) <==> r is Ok,
        r matches Ok(e) ==> e.reference@ == text@ && e.num == num && e.metadata is None,
        r is Err ==> r == Err::<M3uEntry, FormatError>(FormatError::BadReference { line: 1 }),
{
    if is_reference_line(text) && has_no_newline(text) {
        Ok(M3uEntry { num, reference: String::from_str(text), metadata: None })
    } else {
        Err(FormatError::BadReference { line: 1 })
    }
}

/// Reads one `#EXTINF` line into the metadata it gives.
pub fn parse_entry_metadata(text: &str) -> (r: Result<M3uMetadata, FormatError>)
    ensures
        (no_newline(text@) && has_tag(text@) && extinf_of(text@) is Some) <==> r is Ok,
        r matches Ok(m) ==> extinf_of(text@) == Some((m.length, m.title@)),
        r is Err ==> r == Err::<M3uMetadata, FormatError>(FormatError::BadExtinf { line: 1 }),
{
    proof {
        reveal_strlit("#EXTINF:");
        assert("#EXTINF:"@ =~= extinf_tag());
    }
    if has_no_newline(text) && has_prefix(text, "#EXTINF:") {
        match parse_extinf(text) {
            Some((length, title)) => Ok(M3uMetadata { length, title }),
            None => Err(FormatError::BadExtinf { line: 1 }),
        }
    } else {
        Err(FormatError::BadExtinf { line: 1 })
    }
}

/// Reads the header line of an extended M3U file into the info of the playlist kept
/// in `filename`, which has no title.
pub fn parse_playlist_info(text: &str, filename: &str) -> (r: Result<PlainInfo, FormatError>)
    ensures
        text@ == header_line() <==> r is Ok,
        r matches Ok(info) ==> info.title is None && info.filename@ == filename@,
        r is Err ==> r == Err::<PlainInfo, FormatError>(FormatError::MissingHeader { line: 1 }),
{
    proof {
        reveal_strlit("#EXTM3U");
        assert("#EXTM3U"@ =~= header_line());
        if text@.len() == 7 {
            assert(text@.take(7) =~= text@);
        }
    }
    if has_prefix(text, "#EXTM3U") && text.unicode_len() == 7 {
        Ok(PlainInfo { title: None, filename: String::from_str(filename) })
    } else {
        Err(FormatError::MissingHeader { line: 1 })
    }
}

/// Whether `r` is what reading the M3U text `text` of the file `filename` gives:
/// on success, the items of the text, each entry numbered by its position, no title
/// and the filename; otherwise the error that the text calls for.
pub open spec fn m3u_parsed(
    text: Seq<char>,
    filename: Seq<char>,
    r: Result<M3uPlaylist, FormatError>,
) -> bool {
    match r {
        Ok(pl) => {
            &&& m3u_items(text) == Ok::<Seq<Item>, FormatError>(items_of(pl.entries_view()))
            &&& forall|j: int|
                0 <= j < pl.entries_view().len() ==> (#[trigger] pl.entries_view()[j]).num == j as u32
            &&& pl.info_view().title is None
            &&& pl.info_view().filename@ == filename
        },
        Err(e) => m3u_items(text) == Err::<Seq<Item>, FormatError>(e),
    }
}

/// Reads an M3U file. The entries are numbered by their position.
pub fn parse_m3u(text: &str, filename: &str) -> (r: Result<M3uPlaylist, FormatError>)
    ensures
        m3u_parsed(text@, filename@, r),
{
    let ls = split_lines(text);
    let ghost lv = ls@.map_values(|l: String| l@);
    let n = ls.len();
    proof {
        reveal_strlit("#EXTM3U");
        reveal_strlit("#EXTINF:");
        assert("#EXTM3U"@ =~= header_line());
        assert("#EXTINF:"@ =~= extinf_tag());
    }
    let ext = n > 0 && has_prefix(ls[0].as_str(), "#EXTM3U") && ls[0].unicode_len() == 7;
    let start: usize = if ext { 1 } else { 0 };
    proof {
        if n > 0 {
            assert(lv[0] == ls@[0]@);
            if ls@[0]@.len() == 7 {
                assert(ls@[0]@.take(7) =~= ls@[0]@);
            }
        }
        assert(lv.skip(1) =~= lv.drop_first());
        assert(lv.skip(0) =~= lv);
        lemma_chain(Seq::empty(), Seq::empty(), read_items(lv.skip(start as int), (start + 1) as nat, ext));
        assert(Seq::<Item>::empty() + Seq::<Item>::empty() =~= Seq::<Item>::empty());
        if let Ok(x) = read_items(lv.skip(start as int), (start + 1) as nat, ext) {
            assert(Seq::<Item>::empty() + x =~= x);
        }
    }
    let mut entries: Vec<M3uEntry> = Vec::new();
    let mut i: usize = start;
    while i < n
        invariant
            lv == ls@.map_values(|l: String| l@),
            lv == lines_of(text@),
            n == ls@.len(),
            i <= n,
            "#EXTINF:"@ == extinf_tag(),
            chain(items_of(entries@), read_items(lv.skip(i as int), (i + 1) as nat, ext)) == m3u_items(
                text@,
            ),
            forall|j: int| 0 <= j < entries@.len() ==> (#[trigger] entries@[j]).num == j as u32,
        decreases n - i,
    {
        let l = &ls[i];
        let ghost rest = lv.skip(i as int);
        proof {
            assert(rest[0] == l@);
            assert(rest.drop_first() =~= lv.skip(i + 1));
        }
        if l.unicode_len() == 0 {
            i = i + 1;
        } else if ext && has_prefix(l.as_str(), "#EXTINF:") {
            match parse_extinf(l.as_str()) {
                None => {
                    return Err(FormatError::BadExtinf { line: i + 1 });
                },
                Some((length, title)) => {
                    if i + 1 < n && is_reference_line(ls[i + 1].as_str()) {
                        let ghost done = items_of(entries@);
                        let e = M3uEntry {
                            num: entries.len() as u32,
                            reference: ls[i + 1].clone(),
                            metadata: Some(M3uMetadata { length, title }),
                        };
                        entries.push(e);
                        proof {
                            assert(rest[1] == lv[i + 1]);
                            assert(rest.skip(2) =~= lv.skip(i + 2));
                            assert(items_of(entries@) =~= done + seq![item_of(e)]);
                            lemma_chain(done, seq![item_of(e)], read_items(lv.skip(i + 2), (i + 3) as nat, ext));
                        }
                        i = i + 2;
                    } else {
                        proof {
                            if i + 1 < n {
                                assert(rest[1] == lv[i + 1]);
                            }
                        }
                        return Err(FormatError::MissingReference { line: i + 1 });
                    }
                },
            }
        } else if l.as_str().get_char(0) == '#' {
            i = i + 1;
        } else {
            let ghost done = items_of(entries@);
            let e = M3uEntry { num: entries.len() as u32, reference: l.clone(), metadata: None };
            entries.push(e);
            proof {
                assert(items_of(entries@) =~= done + seq![item_of(e)]);
                lemma_chain(done, seq![item_of(e)], read_items(lv.skip(i + 1), (i + 2) as nat, ext));
            }
            i = i + 1;
        }
    }
    proof {
        assert(lv.skip(n as int) =~= Seq::<Seq<char>>::empty());
        assert(items_of(entries@) + Seq::<Item>::empty() =~= items_of(entries@));
    }
    let info = PlainInfo { title: None, filename: String::from_str(filename) };
    Ok(Playlist::from_parts(info, entries))
}

/// The lines that describe one item.
pub open spec fn item_lines(it: Item) -> Seq<Seq<char>> {
    match it.0 {
        Some((len, title)) => seq![extinf_line(len, title), it.1],
        None => seq![it.1],
    }
}

/// The lines that describe the items `its`, in order.
pub open spec fn items_lines(its: Seq<Item>) -> Seq<Seq<char>>
    decreases its.len(),
{
    if its.len() == 0 {
        Seq::empty()
    } else {
        item_lines(its[0]) + items_lines(its.drop_first())
    }
}

/// The extended M3U text of the items `its`.
pub open spec fn m3u_text(its: Seq<Item>) -> Seq<char> {
    join_lines(seq![header_line()] + items_lines(its))
}

/// Whether an item can be written out and read back: its reference is a reference
/// line, and neither it nor the title holds a newline.
pub open spec fn valid_item(it: Item) -> bool {
    &&& is_reference(it.1)
    &&& no_newline(it.1)
    &&& match it.0 {
        Some((_, title)) => no_newline(title),
        None => true,
    }
}

pub proof fn lemma_join_lines_append(a: Seq<Seq<char>>, b: Seq<Seq<char>>)
    ensures
        join_lines(a + b) == join_lines(a) + join_lines(b),
    decreases a.len(),
{
    if a.len() == 0 {
        assert(a + b =~= b);
        assert(join_lines(a) + join_lines(b) =~= join_lines(b));
    } else {
        lemma_join_lines_append(a.drop_first(), b);
        assert((a + b).drop_first() =~= a.drop_first() + b);
        assert((a + b)[0] == a[0]);
        assert(join_lines(a + b) =~= join_lines(a) + join_lines(b));
    }
}

proof fn lemma_items_lines_unfold(its: Seq<Item>, i: int)
    requires
        0 <= i < its.len(),
    ensures
        items_lines(its.skip(i)) == item_lines(its[i]) + items_lines(its.skip(i + 1)),
{
    assert(its.skip(i)[0] == its[i]);
    assert(its.skip(i).drop_first() =~= its.skip(i + 1));
}

proof fn lemma_join_two(a: Seq<char>, b: Seq<char>)
    ensures
        join_lines(seq![a, b]) == a + seq!['\n'] + b + seq!['\n'],
        join_lines(seq![a]) == a + seq!['\n'],
{
    assert(seq![a, b].drop_first() =~= seq![b]);
    assert(seq![b].drop_first() =~= Seq::<Seq<char>>::empty());
    assert(seq![a].drop_first() =~= Seq::<Seq<char>>::empty());
    assert(join_lines(Seq::<Seq<char>>::empty()) == Seq::<char>::empty());
    assert(join_lines(seq![b]) =~= b + seq!['\n']);
    assert(join_lines(seq![a, b]) =~= a + seq!['\n'] + b + seq!['\n']);
    assert(join_lines(seq![a]) =~= a + seq!['\n']);
}

/// Writes a playlist as extended M3U: the header, then for each entry its
/// `#EXTINF` line, when it has metadata, and its reference.
pub fn write_m3u(pl: &M3uPlaylist) -> (r: String)
    ensures
        r@ == m3u_text(items_of(pl.entries_view())),
{
    let entries = pl.entries();
    let ghost its = items_of(entries@);
    let mut out = String::new();
    out.append("#EXTM3U\n");
    proof {
        reveal_strlit("#EXTM3U\n");
        reveal_strlit("#EXTINF:");
        reveal_strlit(",");
        reveal_strlit("\n");
        lemma_join_two(header_line(), Seq::empty());
        assert(out@ =~= join_lines(seq![header_line()]));
        lemma_join_lines_append(seq![header_line()], items_lines(its));
        assert(its.skip(0) =~= its);
    }
    let mut i: usize = 0;
    while i < entries.len()
        invariant
            its == items_of(entries@),
            i <= entries@.len(),
            out@ + join_lines(items_lines(its.skip(i as int))) == m3u_text(its),
            "#EXTINF:"@ == extinf_tag(),
            ","@ == seq![','],
            "\n"@ == seq!['\n'],
        decreases entries@.len() - i,
    {
        let e = &entries[i];
        let ghost before = out@;
        proof {
            lemma_items_lines_unfold(its, i as int);
            lemma_join_lines_append(item_lines(its[i as int]), items_lines(its.skip(i + 1)));
            assert(its[i as int] == item_of(*e));
        }
        match &e.metadata {
            Some(m) => {
                out.append("#EXTINF:");
                write_decimal(&mut out, m.length);
                out.append(",");
                out.append(m.title.as_str());
                out.append("\n");
                proof {
                    lemma_join_two(extinf_line(m.length, m.title@), e.reference@);
                }
            },
            None => {
                proof {
                    lemma_join_two(e.reference@, Seq::empty());
                }
            },
        }
        out.append(e.reference.as_str());
        out.append("\n");
        assert(out@ =~= before + join_lines(item_lines(its[i as int])));
        i = i + 1;
    }
    proof {
        assert(its.skip(entries@.len() as int) =~= Seq::<Item>::empty());
        assert(out@ + join_lines(Seq::<Seq<char>>::empty()) =~= out@);
    }
    out
}

/// The items read from lines without newlines can be written out and read back.
pub proof fn lemma_read_items_valid(ls: Seq<Seq<char>>, line: nat, ext: bool)
    requires
        forall|i: int| 0 <= i < ls.len() ==> no_newline(#[trigger] ls[i]),
    ensures
        read_items(ls, line, ext) is Ok ==> forall|k: int|
            0 <= k < read_items(ls, line, ext)->Ok_0.len() ==> valid_item(
                #[trigger] read_items(ls, line, ext)->Ok_0[k],
            ),
    decreases ls.len(),
{
    if ls.len() > 0 {
        let l = ls[0];
        let tail = ls.drop_first();
        assert forall|i: int| 0 <= i < tail.len() implies no_newline(#[trigger] tail[i]) by {
            assert(tail[i] == ls[i + 1]);
        }
        lemma_read_items_valid(tail, line + 1, ext);
        if ls.len() >= 2 {
            let tail2 = ls.skip(2);
            assert forall|i: int| 0 <= i < tail2.len() implies no_newline(#[trigger] tail2[i]) by {
                assert(tail2[i] == ls[i + 2]);
            }
            lemma_read_items_valid(tail2, line + 2, ext);
        }
        assert(no_newline(l));
        let r = read_items(ls, line, ext);
        if l.len() > 0 && r is Ok {
            if ext && has_tag(l) {
                if let Some(md) = extinf_of(l) {
                    let body = l.skip(8);
                    let c = first_pos(body, ',');
                    assert(md.1 == body.skip(c as int + 1));
                    assert forall|i: int| 0 <= i < md.1.len() implies md.1[i] != '\n' by {
                        assert(md.1[i] == l[8 + c + 1 + i]);
                    }
                    assert(no_newline(ls[1]));
                    let x = read_items(ls.skip(2), line + 2, ext)->Ok_0;
                    let d = seq![(Some(md), ls[1])];
                    assert forall|k: int| 0 <= k < r->Ok_0.len() implies valid_item(
                        #[trigger] r->Ok_0[k],
                    ) by {
                        assert(r->Ok_0 == d + x);
                        if k > 0 {
                            assert(r->Ok_0[k] == x[k - 1]);
                        }
                    }
                }
            } else if l[0] != '#' {
                let x = read_items(tail, line + 1, ext)->Ok_0;
                let d = seq![(None::<(u32, Seq<char>)>, l)];
                assert forall|k: int| 0 <= k < r->Ok_0.len() implies valid_item(
                    #[trigger] r->Ok_0[k],
                ) by {
                    assert(r->Ok_0 == d + x);
                    if k > 0 {
                        assert(r->Ok_0[k] == x[k - 1]);
                    }
                }
            }
        }
    }
}

/// The lines written for valid items hold no newline.
proof fn lemma_items_lines_no_newline(its: Seq<Item>)
    requires
        forall|k: int| 0 <= k < its.len() ==> valid_item(#[trigger] its[k]),
    ensures
        forall|i: int|
            0 <= i < items_lines(its).len() ==> no_newline(#[trigger] items_lines(its)[i]),
    decreases its.len(),
{
    if its.len() > 0 {
        let rest = its.drop_first();
        assert forall|k: int| 0 <= k < rest.len() implies valid_item(#[trigger] rest[k]) by {
            assert(rest[k] == its[k + 1]);
        }
        lemma_items_lines_no_newline(rest);
        let it = its[0];
        assert(valid_item(it));
        let a = item_lines(it);
        assert forall|i: int| 0 <= i < a.len() implies no_newline(#[trigger] a[i]) by {
            if let Some((len, title)) = it.0 {
                if i == 0 {
                    let l = extinf_line(len, title);
                    let d = decimal(len as nat);
                    lemma_decimal(len as nat);
                    assert forall|j: int| 0 <= j < l.len() implies l[j] != '\n' by {
                        if 8 <= j < 8 + d.len() {
                            assert(l[j] == d[j - 8]);
                            assert(is_digit(d[j - 8]));
                        } else if j >= 8 + d.len() + 1 {
                            assert(l[j] == title[j - 8 - d.len() - 1]);
                        }
                    }
                }
            }
        }
        let all = items_lines(its);
        assert forall|i: int| 0 <= i < all.len() implies no_newline(#[trigger] all[i]) by {
            assert(all == a + items_lines(rest));
            if i >= a.len() {
                assert(all[i] == items_lines(rest)[i - a.len()]);
            } else {
                assert(all[i] == a[i]);
            }
        }
    }
}

/// Reading the lines written for valid items gives the items back.
proof fn lemma_read_written(its: Seq<Item>, line: nat)
    requires
        forall|k: int| 0 <= k < its.len() ==> valid_item(#[trigger] its[k]),
    ensures
        read_items(items_lines(its), line, true) == Ok::<Seq<Item>, FormatError>(its),
    decreases its.len(),
{
    let ls = items_lines(its);
    if its.len() == 0 {
        assert(ls.len() == 0);
        assert(its =~= Seq::<Item>::empty());
    } else {
        let rest = its.drop_first();
        assert forall|k: int| 0 <= k < rest.len() implies valid_item(#[trigger] rest[k]) by {
            assert(rest[k] == its[k + 1]);
        }
        let it = its[0];
        assert(valid_item(it));
        let a = item_lines(it);
        assert(ls == a + items_lines(rest));
        match it.0 {
            Some((len, title)) => {
                lemma_read_written(rest, line + 2);
                lemma_extinf_line(len, title);
                assert(ls[0] == extinf_line(len, title));
                assert(ls[0].len() >= 8);
                assert(ls.len() >= 2);
                assert(ls[1] == it.1);
                assert(is_reference(ls[1]));
                assert(ls.skip(2) =~= items_lines(rest));
                assert(seq![(Some((len, title)), it.1)] + rest =~= its);
            },
            None => {
                lemma_read_written(rest, line + 1);
                assert(ls[0] == it.1);
                let l = ls[0];
                if has_tag(l) {
                    assert(l.take(8)[0] == l[0]);
                }
                assert(l.len() > 0 && l[0] != '#');
                assert(ls.drop_first() =~= items_lines(rest));
                assert(seq![(None::<(u32, Seq<char>)>, it.1)] + rest =~= its);
            },
        }
    }
}

/// Writing out what an M3U file was read as and reading the result gives the same
/// entries again.
pub proof fn lemma_m3u_round_trip(text: Seq<char>)
    requires
        m3u_items(text) is Ok,
    ensures
        m3u_items(m3u_text(m3u_items(text)->Ok_0)) == m3u_items(text),
{
    let ls = lines_of(text);
    let its = m3u_items(text)->Ok_0;
    lemma_lines_no_newline(text);
    if ls.len() > 0 && ls[0] == header_line() {
        let tail = ls.drop_first();
        assert forall|i: int| 0 <= i < tail.len() implies no_newline(#[trigger] tail[i]) by {
            assert(tail[i] == ls[i + 1]);
        }
        lemma_read_items_valid(tail, 2, true);
    } else {
        lemma_read_items_valid(ls, 1, false);
    }
    lemma_items_lines_no_newline(its);
    let all = seq![header_line()] + items_lines(its);
    assert forall|i: int| 0 <= i < all.len() implies no_newline(#[trigger] all[i]) by {
        if i > 0 {
            assert(all[i] == items_lines(its)[i - 1]);
        }
    }
    lemma_lines_of_join(all);
    assert(all.drop_first() =~= items_lines(its));
    lemma_read_written(its, 2);
}

/// The extended M3U dialect.
pub struct ExtM3u;

impl PlaylistFormat<PlainInfo, M3uMetadata, M3uEntry> for ExtM3u {
    open spec fn parse_spec(
        text: Seq<char>,
        filename: Seq<char>,
        r: Result<M3uPlaylist, FormatError>,
    ) -> bool {
        m3u_parsed(text, filename, r)
    }

    open spec fn text_spec(pl: M3uPlaylist) -> Seq<char> {
        m3u_text(items_of(pl.entries_view()))
    }

    proof fn lemma_round_trip(
        text: Seq<char>,
        filename: Seq<char>,
        p: M3uPlaylist,
        q: Result<M3uPlaylist, FormatError>,
    ) {
        lemma_m3u_round_trip(text);
        let q = q->Ok_0;
        let (a, b) = (p.entries_view(), q.entries_view());
        assert(items_of(a).len() == a.len() && items_of(b).len() == b.len());
        assert forall|i: int| 0 <= i < a.len() implies entry_key::<M3uMetadata, M3uEntry>(
            #[trigger] a[i],
        ) == entry_key::<M3uMetadata, M3uEntry>(b[i]) && a[i].num_view() == b[i].num_view() by {
            assert(items_of(a)[i] == item_of(a[i]));
            assert(items_of(b)[i] == item_of(b[i]));
        }
    }

    fn parse(text: &str, filename: &str) -> Result<M3uPlaylist, FormatError> {
        parse_m3u(text, filename)
    }

    fn write(pl: &M3uPlaylist) -> String {
        write_m3u(pl)
    }
}

} // verus!
