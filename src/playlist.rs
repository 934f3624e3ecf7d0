//! The playlist container, generic over the capability traits.
use crate::{Entry, EntryMetadata, PlaylistInfo};
use std::marker::PhantomData;
use vstd::prelude::*;

verus! {

/// Errors of the container's structural operations.
#[derive(Debug, Clone, Copy, PartialEq, Eq, Structural)]
pub enum PlaylistError {
    /// An index past the end of the entry sequence.
    Index { index: usize, count: usize },
}

/// The key under which two entries count as equal: their reference and the
/// formatted info text of their metadata.
pub open spec fn entry_key<M: EntryMetadata, E: Entry<M>>(e: E) -> (Seq<char>, Option<Seq<char>>) {
    (
        e.filename_view(),
        match e.metadata_view() {
            Some(m) => Some(m.info_view()),
            None => None,
        },
    )
}

/// Whether some entry of `s` has the key `k`.
pub open spec fn has_key<M: EntryMetadata, E: Entry<M>>(
    s: Seq<E>,
    k: (Seq<char>, Option<Seq<char>>),
) -> bool {
    exists|j: int| 0 <= j < s.len() && entry_key::<M, E>(#[trigger] s[j]) == k
}

/// `s` without the entries whose key an earlier entry already has, the survivors in
/// the order in which they came.
pub open spec fn dedup_seq<M: EntryMetadata, E: Entry<M>>(s: Seq<E>) -> Seq<E>
    decreases s.len(),
{
    if s.len() == 0 {
        s
    } else {
        let rest = dedup_seq::<M, E>(s.drop_last());
        if has_key::<M, E>(s.drop_last(), entry_key::<M, E>(s.last())) {
            rest
        } else {
            rest.push(s.last())
        }
    }
}

/// Whether no two entries of `s` have the same key.
pub open spec fn keys_distinct<M: EntryMetadata, E: Entry<M>>(s: Seq<E>) -> bool {
    forall|i: int, j: int|
        0 <= i < j < s.len() ==> entry_key::<M, E>(#[trigger] s[i]) != entry_key::<M, E>(
            #[trigger] s[j],
        )
}

/// The keys of `p.push(e)` are those of `p` and the key of `e`.
pub proof fn lemma_has_key_push<M: EntryMetadata, E: Entry<M>>(
    p: Seq<E>,
    e: E,
    k: (Seq<char>, Option<Seq<char>>),
)
    ensures
        has_key::<M, E>(p.push(e), k) <==> (has_key::<M, E>(p, k) || entry_key::<M, E>(e) == k),
{
    let s = p.push(e);
    if has_key::<M, E>(p, k) {
        let j = choose|j: int| 0 <= j < p.len() && entry_key::<M, E>(#[trigger] p[j]) == k;
        assert(s[j] == p[j]);
    }
    if entry_key::<M, E>(e) == k {
        assert(s[p.len() as int] == e);
    }
    if has_key::<M, E>(s, k) {
        let j = choose|j: int| 0 <= j < s.len() && entry_key::<M, E>(#[trigger] s[j]) == k;
        if j < p.len() {
            assert(s[j] == p[j]);
        }
    }
}

/// The survivors of dedup hold exactly the keys of the input, each once.
pub proof fn lemma_dedup_keys<M: EntryMetadata, E: Entry<M>>(s: Seq<E>)
    ensures
        forall|k| has_key::<M, E>(dedup_seq::<M, E>(s), k) <==> has_key::<M, E>(s, k),
        keys_distinct::<M, E>(dedup_seq::<M, E>(s)),
    decreases s.len(),
{
    if s.len() > 0 {
        let p = s.drop_last();
        lemma_dedup_keys::<M, E>(p);
        let rest = dedup_seq::<M, E>(p);
        let lk = entry_key::<M, E>(s.last());
        assert(p.push(s.last()) =~= s);
        assert forall|k| has_key::<M, E>(dedup_seq::<M, E>(s), k) <==> has_key::<M, E>(s, k) by {
            lemma_has_key_push::<M, E>(p, s.last(), k);
            lemma_has_key_push::<M, E>(rest, s.last(), k);
        }
        if !has_key::<M, E>(p, lk) {
            let d = rest.push(s.last());
            assert forall|i: int, j: int|
                0 <= i < j < d.len() implies entry_key::<M, E>(#[trigger] d[i]) != entry_key::<M, E>(
                #[trigger] d[j],
            ) by {
                if j == rest.len() {
                    assert(d[i] == rest[i]);
                    assert(d[j] == s.last());
                    if entry_key::<M, E>(d[i]) == lk {
                        assert(has_key::<M, E>(rest, lk));
                    }
                } else {
                    assert(d[i] == rest[i] && d[j] == rest[j]);
                }
            }
        }
    }
}

/// A sequence whose keys are distinct is left as it is by dedup.
pub proof fn lemma_dedup_distinct<M: EntryMetadata, E: Entry<M>>(s: Seq<E>)
    requires
        keys_distinct::<M, E>(s),
    ensures
        dedup_seq::<M, E>(s) == s,
    decreases s.len(),
{
    if s.len() > 0 {
        let p = s.drop_last();
        assert(keys_distinct::<M, E>(p)) by {
            assert forall|i: int, j: int| 0 <= i < j < p.len() implies entry_key::<M, E>(
                #[trigger] p[i],
            ) != entry_key::<M, E>(#[trigger] p[j]) by {
                assert(p[i] == s[i] && p[j] == s[j]);
            }
        }
        lemma_dedup_distinct::<M, E>(p);
        if has_key::<M, E>(p, entry_key::<M, E>(s.last())) {
            let j = choose|j: int|
                0 <= j < p.len() && entry_key::<M, E>(#[trigger] p[j]) == entry_key::<M, E>(s.last());
            assert(s[j] == p[j]);
            assert(s[s.len() - 1] == s.last());
        }
        assert(p.push(s.last()) =~= s);
    }
}

/// Dedup is idempotent: its survivors have pairwise distinct keys, and a second
/// dedup removes nothing.
pub proof fn lemma_dedup_idempotent<M: EntryMetadata, E: Entry<M>>(s: Seq<E>)
    ensures
        keys_distinct::<M, E>(dedup_seq::<M, E>(s)),
        dedup_seq::<M, E>(dedup_seq::<M, E>(s)) == dedup_seq::<M, E>(s),
{
    lemma_dedup_keys::<M, E>(s);
    lemma_dedup_distinct::<M, E>(dedup_seq::<M, E>(s));
}

/// Whether two playlists hold the same content: entries with the same keys and
/// numbers, in the same order, and info with the same title and filename.
pub open spec fn same_content<P: PlaylistInfo, M: EntryMetadata, E: Entry<M>>(
    a: Playlist<P, M, E>,
    b: Playlist<P, M, E>,
) -> bool {
    &&& a.entries_view().len() == b.entries_view().len()
    &&& forall|i: int|
        0 <= i < a.entries_view().len() ==> entry_key::<M, E>(#[trigger] a.entries_view()[i])
            == entry_key::<M, E>(b.entries_view()[i]) && a.entries_view()[i].num_view()
            == b.entries_view()[i].num_view()
    &&& a.info_view().title_view() == b.info_view().title_view()
    &&& a.info_view().filename_view() == b.info_view().filename_view()
}

/// An ordered sequence of entries together with one playlist info value.
pub struct Playlist<P: PlaylistInfo, M: EntryMetadata, E: Entry<M>> {
    entries: Vec<E>,
    info: P,
    phantom: PhantomData<M>,
}

impl<P: PlaylistInfo, M: EntryMetadata, E: Entry<M>> Playlist<P, M, E> {
    /// The entries, in order.
    pub closed spec fn entries_view(&self) -> Seq<E> {
        self.entries@
    }

    /// The playlist info.
    pub closed spec fn info_view(&self) -> P {
        self.info
    }

    /// Creates a playlist from a block of metadata and a sequence of entries.
    pub fn from_parts(info: P, entries: Vec<E>) -> (r: Self)
        ensures
            r.entries_view() == entries@,
            r.info_view() == info,
    {
        Playlist { entries, info, phantom: PhantomData }
    }

    /// A copy of the playlist info.
    pub fn get_metadata(&self) -> (r: P)
        ensures
            r == self.info_view(),
    {
        self.info.duplicate()
    }

    /// The entries, in order.
    pub fn entries(&self) -> (r: &Vec<E>)
        ensures
            r@ == self.entries_view(),
    {
        &self.entries
    }

    /// Appends an entry.
    pub fn add_entry(&mut self, entry: E)
        ensures
            final(self).entries_view() == old(self).entries_view().push(entry),
            final(self).info_view() == old(self).info_view(),
    {
        self.entries.push(entry)
    }

    /// Inserts an entry at `index`, shifting the later entries; fails when `index`
    /// is past the end.
    pub fn add_entry_at(&mut self, entry: E, index: usize) -> (r: Result<(), PlaylistError>)
        ensures
            final(self).info_view() == old(self).info_view(),
            index <= old(self).entries_view().len() ==> r is Ok && final(self).entries_view()
                == old(self).entries_view().insert(index as int, entry),
            index > old(self).entries_view().len() ==> r == Err::<(), PlaylistError>(
                PlaylistError::Index { index, count: old(self).entries_view().len() as usize },
            ) && final(self).entries_view() == old(self).entries_view(),
    {
        let count = self.entries.len();
        if index > count {
            Err(PlaylistError::Index { index, count })
        } else {
            self.entries.insert(index, entry);
            Ok(())
        }
    }

    /// Removes and returns the entry at `index`, shifting the later entries; fails
    /// when there is no entry there.
    pub fn remove_entry(&mut self, index: usize) -> (r: Result<E, PlaylistError>)
        ensures
            final(self).info_view() == old(self).info_view(),
            index < old(self).entries_view().len() ==> r == Ok::<E, PlaylistError>(
                old(self).entries_view()[index as int],
            ) && final(self).entries_view() == old(self).entries_view().remove(index as int),
            index >= old(self).entries_view().len() ==> r == Err::<E, PlaylistError>(
                PlaylistError::Index { index, count: old(self).entries_view().len() as usize },
            ) && final(self).entries_view() == old(self).entries_view(),
    {
        let count = self.entries.len();
        if index >= count {
            Err(PlaylistError::Index { index, count })
        } else {
            Ok(self.entries.remove(index))
        }
    }

    /// The number of entries.
    pub fn count(&self) -> (r: usize)
        ensures
            r == self.entries_view().len(),
    {
        self.entries.len()
    }

    /// Points the playlist at another filename; touches no file.
    pub fn rename(&mut self, new_name: &str)
        ensures
            final(self).info_view().filename_view() == new_name@,
            final(self).info_view().title_view() == old(self).info_view().title_view(),
            final(self).entries_view() == old(self).entries_view(),
    {
        self.info = self.info.with_filename(new_name);
    }

    /// A new playlist with this playlist's entries followed by `other`'s, and a copy
    /// of this playlist's info. No entry is dropped.
    pub fn merge(&self, other: Self) -> (r: Self)
        requires
            self.entries_view().len() + other.entries_view().len() <= usize::MAX,
        ensures
            r.entries_view() == self.entries_view() + other.entries_view(),
            r.entries_view().len() == self.entries_view().len() + other.entries_view().len(),
            r.info_view() == self.info_view(),
    {
        let mut new_list: Vec<E> = Vec::new();
        let n = self.entries.len();
        let mut i: usize = 0;
        while i < n
            invariant
                n == self.entries@.len(),
                i <= n,
                new_list@ == self.entries@.subrange(0, i as int),
            decreases n - i,
        {
            new_list.push(self.entries[i].duplicate());
            assert(self.entries@.subrange(0, i + 1) =~= self.entries@.subrange(0, i as int).push(
                self.entries@[i as int],
            ));
            i = i + 1;
        }
        assert(self.entries@.subrange(0, n as int) =~= self.entries@);
        let mut rest = other.entries;
        new_list.append(&mut rest);
        Playlist { entries: new_list, info: self.info.duplicate(), phantom: PhantomData }
    }

    /// Removes every entry whose key an earlier entry already has, keeping the
    /// survivors in order; returns how many were removed.
    pub fn dedup_entries(&mut self) -> (r: usize)
        ensures
            final(self).entries_view() == dedup_seq::<M, E>(old(self).entries_view()),
            r == old(self).entries_view().len() - final(self).entries_view().len(),
            final(self).info_view() == old(self).info_view(),
    {
        let n = self.entries.len();
        let mut kept: Vec<E> = Vec::new();
        let mut i: usize = 0;
        while i < n
            invariant
                n == self.entries@.len(),
                i <= n,
                kept@ == dedup_seq::<M, E>(self.entries@.subrange(0, i as int)),
                kept@.len() <= i,
            decreases n - i,
        {
            let e = &self.entries[i];
            let seen = contains_key(&kept, e);
            let ghost pre = self.entries@.subrange(0, i as int);
            let ghost next = self.entries@.subrange(0, i + 1);
            proof {
                assert(next.drop_last() =~= pre);
                assert(next.last() == self.entries@[i as int]);
                lemma_dedup_keys::<M, E>(pre);
            }
            if !seen {
                kept.push(e.duplicate());
            }
            i = i + 1;
        }
        assert(self.entries@.subrange(0, n as int) =~= self.entries@);
        let removed = n - kept.len();
        self.entries = kept;
        removed
    }
}

/// Whether some entry of `v` has the key of `e`.
fn contains_key<M: EntryMetadata, E: Entry<M>>(v: &Vec<E>, e: &E) -> (r: bool)
    ensures
        r == has_key::<M, E>(v@, entry_key::<M, E>(*e)),
{
    let mut i: usize = 0;
    while i < v.len()
        invariant
            i <= v@.len(),
            forall|j: int| 0 <= j < i ==> entry_key::<M, E>(#[trigger] v@[j]) != entry_key::<M, E>(*e),
        decreases v@.len() - i,
    {
        if same_entry(&v[i], e) {
            return true;
        }
        i = i + 1;
    }
    false
}

/// Whether two entries have the same key.
pub fn same_entry<M: EntryMetadata, E: Entry<M>>(a: &E, b: &E) -> (r: bool)
    ensures
        r == (entry_key::<M, E>(*a) == entry_key::<M, E>(*b)),
{
    let fa = a.filename();
    let fb = b.filename();
    if fa != fb {
        return false;
    }
    match (a.metadata(), b.metadata()) {
        (None, None) => true,
        (Some(ma), Some(mb)) => {
            let ia = ma.info();
            let ib = mb.info();
            ia == ib
        },
        _ => false,
    }
}

} // verus!
