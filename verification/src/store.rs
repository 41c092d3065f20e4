use crate::errors::VaultError;
use vstd::prelude::*;

verus! {

/// One row of the note table.
#[derive(Debug, PartialEq, Eq)]
pub struct Note {
    pub id: u64,
    pub title: Vec<u8>,
    pub content: Vec<u8>,
    pub hidden: bool,
}

/// The mathematical image of a row: plain values only.
#[verifier::ext_equal]
pub struct NoteView {
    pub id: u64,
    pub title: Seq<u8>,
    pub content: Seq<u8>,
    pub hidden: bool,
}

impl View for Note {
    type V = NoteView;

    open spec fn view(&self) -> NoteView {
        NoteView {
            id: self.id,
            title: self.title@,
            content: self.content@,
            hidden: self.hidden,
        }
    }
}

/// The decrypted snapshot: the note table and the next free id.
#[derive(Debug, PartialEq, Eq)]
pub struct NoteStore {
    pub notes: Vec<Note>,
    pub next_id: u64,
}

/// The mathematical image of a snapshot.
#[verifier::ext_equal]
pub struct StoreView {
    pub notes: Seq<NoteView>,
    pub next_id: u64,
}

impl View for NoteStore {
    type V = StoreView;

    open spec fn view(&self) -> StoreView {
        StoreView { notes: self.notes@.map_values(|n: Note| n@), next_id: self.next_id }
    }
}

/// A well-formed table: ids strictly increase along the table (so they are
/// unique and the listing order is stable), and every id is below the next
/// free one.
pub open spec fn store_wf(s: StoreView) -> bool {
    &&& forall|i: int| 0 <= i < s.notes.len() ==> (#[trigger] s.notes[i]).id < s.next_id
    &&& forall|i: int, j: int|
        0 <= i < j < s.notes.len() ==> #[trigger] s.notes[i].id < #[trigger] s.notes[j].id
}

/// In a well-formed table, distinct rows carry distinct ids.
pub proof fn lemma_wf_ids_distinct(s: StoreView, i: int, j: int)
    requires
        store_wf(s),
        0 <= i < s.notes.len(),
        0 <= j < s.notes.len(),
        i != j,
    ensures
        s.notes[i].id != s.notes[j].id,
{
}

/// In a well-formed table the id of each row is at least its index: the ids
/// rise strictly from the first row on.
pub proof fn lemma_wf_id_at_least_index(v: StoreView, i: int)
    requires
        store_wf(v),
        0 <= i < v.notes.len(),
    ensures
        v.notes[i].id >= i,
    decreases i,
{
    if i > 0 {
        lemma_wf_id_at_least_index(v, i - 1);
        assert(v.notes[i - 1].id < v.notes[i].id);
    }
}

/// A well-formed table can hold at most `next_id` rows.
pub proof fn lemma_wf_len_bound(v: StoreView)
    requires
        store_wf(v),
    ensures
        v.notes.len() <= v.next_id,
{
    if v.notes.len() > 0 {
        let last = v.notes.len() - 1;
        lemma_wf_id_at_least_index(v, last);
        assert(v.notes[last].id < v.next_id);
    }
}

/// The table after an insert: the new row is appended, visible, and takes
/// the next free id.
pub open spec fn insert_spec(v: StoreView, title: Seq<u8>, content: Seq<u8>) -> StoreView {
    StoreView {
        notes: v.notes.push(
            NoteView { id: v.next_id, title: title, content: content, hidden: false },
        ),
        next_id: (v.next_id + 1) as u64,
    }
}

/// The first row with this id, hidden or not.
pub open spec fn find_note(s: Seq<NoteView>, id: u64) -> Option<NoteView>
    decreases s.len(),
{
    if s.len() == 0 {
        None
    } else if s[0].id == id {
        Some(s[0])
    } else {
        find_note(s.skip(1), id)
    }
}

/// What a read by id yields: the title and content of the row with this id,
/// or nothing when the row is absent or hidden.
pub open spec fn fetch_spec(s: Seq<NoteView>, id: u64) -> Option<(Seq<u8>, Seq<u8>)> {
    match find_note(s, id) {
        Some(n) => if n.hidden {
            None
        } else {
            Some((n.title, n.content))
        },
        None => None,
    }
}

/// One row after an update aimed at `id`: a matching row gets the new title
/// and content and keeps its id and hidden flag; any other row is unchanged.
pub open spec fn update_one(n: NoteView, id: u64, title: Seq<u8>, content: Seq<u8>) -> NoteView {
    if n.id == id {
        NoteView { id: n.id, title: title, content: content, hidden: n.hidden }
    } else {
        n
    }
}

/// The table after an update aimed at `id`.
pub open spec fn update_spec(v: StoreView, id: u64, title: Seq<u8>, content: Seq<u8>) -> StoreView {
    StoreView {
        notes: v.notes.map_values(|n: NoteView| update_one(n, id, title, content)),
        next_id: v.next_id,
    }
}

/// One row after a soft delete aimed at `id`: a matching row becomes hidden
/// and keeps everything else; any other row is unchanged.
pub open spec fn hide_one(n: NoteView, id: u64) -> NoteView {
    if n.id == id {
        NoteView { id: n.id, title: n.title, content: n.content, hidden: true }
    } else {
        n
    }
}

/// The table after a soft delete aimed at `id`; no row is ever removed.
pub open spec fn soft_delete_spec(v: StoreView, id: u64) -> StoreView {
    StoreView { notes: v.notes.map_values(|n: NoteView| hide_one(n, id)), next_id: v.next_id }
}

/// The visible listing: the (id, title) pairs of the non-hidden rows, in
/// table order.
pub open spec fn visible_of(s: Seq<NoteView>) -> Seq<(u64, Seq<u8>)>
    decreases s.len(),
{
    if s.len() == 0 {
        Seq::empty()
    } else {
        let rest = visible_of(s.drop_last());
        if s.last().hidden {
            rest
        } else {
            rest.push((s.last().id, s.last().title))
        }
    }
}

/// The mathematical image of a listing held in a `Vec`.
pub open spec fn pairs_view(v: Seq<(u64, Vec<u8>)>) -> Seq<(u64, Seq<u8>)> {
    v.map_values(|p: (u64, Vec<u8>)| (p.0, p.1@))
}

fn copy_bytes(src: &Vec<u8>) -> (r: Vec<u8>)
    ensures
        r@ == src@,
{
    let mut out: Vec<u8> = Vec::new();
    let mut i: usize = 0;
    while i < src.len()
        invariant
            i <= src@.len(),
            out@ =~= src@.take(i as int),
        decreases src@.len() - i,
    {
        out.push(src[i]);
        i = i + 1;
    }
    proof {
        assert(src@.take(src@.len() as int) =~= src@);
    }
    out
}

impl NoteStore {
    /// A fresh empty table; ids are assigned from 1 up.
    pub fn new() -> (s: Self)
        ensures
            s@.notes.len() == 0,
            s@.next_id == 1,
            store_wf(s@),
    {
        NoteStore { notes: Vec::new(), next_id: 1 }
    }

    fn index_of(&self, id: u64) -> (r: Option<usize>)
        ensures
            match r {
                Some(i) => i < self@.notes.len() && self@.notes[i as int].id == id
                    && find_note(self@.notes, id) == Some(self@.notes[i as int]),
                None => find_note(self@.notes, id) is None,
            },
    {
        let ghost s = self@.notes;
        proof {
            assert(s.skip(0) =~= s);
        }
        let mut i: usize = 0;
        while i < self.notes.len()
            invariant
                i <= s.len(),
                s == self@.notes,
                s.len() == self.notes@.len(),
                find_note(s, id) == find_note(s.skip(i as int), id),
            decreases s.len() - i,
        {
            if self.notes[i].id == id {
                proof {
                    assert(s.skip(i as int)[0] == s[i as int]);
                }
                return Some(i);
            }
            proof {
                assert(s.skip(i as int)[0] == s[i as int]);
                assert(s.skip(i as int).skip(1) =~= s.skip(i as int + 1));
            }
            i = i + 1;
        }
        proof {
            assert(s.skip(s.len() as int).len() == 0);
        }
        None
    }

    /// Add a new visible note; it receives the next free id, and the next
    /// free id moves past it.
    pub fn insert(&mut self, title: Vec<u8>, content: Vec<u8>) -> (id: u64)
        requires
            store_wf(old(self)@),
            old(self).next_id < u64::MAX,
        ensures
            id == old(self)@.next_id,
            final(self)@ == insert_spec(old(self)@, title@, content@),
            store_wf(final(self)@),
    {
        let id = self.next_id;
        let ghost tv = title@;
        let ghost cv = content@;
        self.notes.push(Note { id: id, title: title, content: content, hidden: false });
        self.next_id = self.next_id + 1;
        proof {
            assert(self@.notes =~= old(self)@.notes.push(
                NoteView { id: id, title: tv, content: cv, hidden: false },
            ));
            assert(self@ =~= insert_spec(old(self)@, tv, cv));
        }
        id
    }

    /// All visible notes, as (id, title) pairs in table order; hidden rows
    /// are never listed.
    pub fn list_visible(&self) -> (r: Vec<(u64, Vec<u8>)>)
        ensures
            pairs_view(r@) == visible_of(self@.notes),
    {
        let ghost s = self@.notes;
        let mut out: Vec<(u64, Vec<u8>)> = Vec::new();
        let mut i: usize = 0;
        while i < self.notes.len()
            invariant
                i <= s.len(),
                s == self@.notes,
                s.len() == self.notes@.len(),
                pairs_view(out@) =~= visible_of(s.take(i as int)),
            decreases s.len() - i,
        {
            proof {
                assert(s.take(i as int + 1).drop_last() =~= s.take(i as int));
                assert(s.take(i as int + 1).last() == s[i as int]);
            }
            if !self.notes[i].hidden {
                let t = copy_bytes(&self.notes[i].title);
                out.push((self.notes[i].id, t));
                proof {
                    assert(pairs_view(out@) =~= visible_of(s.take(i as int + 1)));
                }
            }
            i = i + 1;
        }
        proof {
            assert(s.take(s.len() as int) =~= s);
        }
        out
    }

    /// Read a note by id. A row that is absent and a row that is hidden are
    /// alike not found: soft-deleted notes are gone from the read path.
    pub fn fetch(&self, id: u64) -> (r: Result<(Vec<u8>, Vec<u8>), VaultError>)
        ensures
            match r {
                Ok(p) => fetch_spec(self@.notes, id) == Some((p.0@, p.1@)),
                Err(e) => e == VaultError::NotFoundError && fetch_spec(self@.notes, id) is None,
            },
    {
        match self.index_of(id) {
            Some(i) => {
                if self.notes[i].hidden {
                    Err(VaultError::NotFoundError)
                } else {
                    let t = copy_bytes(&self.notes[i].title);
                    let c = copy_bytes(&self.notes[i].content);
                    Ok((t, c))
                }
            },
            None => Err(VaultError::NotFoundError),
        }
    }

    /// Overwrite the title and content of the row with this id, hidden or
    /// not; the row keeps its id and hidden flag. Fails exactly when no row
    /// carries the id, and the table is then unchanged.
    pub fn update(&mut self, id: u64, title: Vec<u8>, content: Vec<u8>) -> (r: Result<
        (),
        VaultError,
    >)
        requires
            store_wf(old(self)@),
        ensures
            store_wf(final(self)@),
            match r {
                Ok(()) => find_note(old(self)@.notes, id) is Some && final(self)@ == update_spec(
                    old(self)@,
                    id,
                    title@,
                    content@,
                ),
                Err(e) => e == VaultError::NotFoundError && find_note(old(self)@.notes, id) is None
                    && final(self)@ == old(self)@,
            },
    {
        let ghost tv = title@;
        let ghost cv = content@;
        match self.index_of(id) {
            Some(i) => {
                let prev = self.notes.remove(i);
                self.notes.insert(
                    i,
                    Note { id: prev.id, title: title, content: content, hidden: prev.hidden },
                );
                proof {
                    let target = update_spec(old(self)@, id, tv, cv);
                    assert forall|j: int| 0 <= j < self@.notes.len() implies self@.notes[j]
                        == target.notes[j] by {
                        if j != i as int {
                            lemma_wf_ids_distinct(old(self)@, i as int, j);
                        }
                    }
                    assert(self@.notes =~= target.notes);
                    assert(self@ =~= target);
                    assert forall|j: int| 0 <= j < self@.notes.len() implies (
                    #[trigger] self@.notes[j]).id == old(self)@.notes[j].id by {}
                    assert(store_wf(self@));
                }
                Ok(())
            },
            None => Err(VaultError::NotFoundError),
        }
    }

    /// Hide the row with this id; its content stays in the table, but reads
    /// and listings no longer see it. Fails exactly when no row carries the
    /// id, and the table is then unchanged. Hiding an already-hidden row
    /// succeeds and changes nothing.
    pub fn soft_delete(&mut self, id: u64) -> (r: Result<(), VaultError>)
        requires
            store_wf(old(self)@),
        ensures
            store_wf(final(self)@),
            match r {
                Ok(()) => find_note(old(self)@.notes, id) is Some && final(self)@
                    == soft_delete_spec(old(self)@, id),
                Err(e) => e == VaultError::NotFoundError && find_note(old(self)@.notes, id) is None
                    && final(self)@ == old(self)@,
            },
    {
        match self.index_of(id) {
            Some(i) => {
                let prev = self.notes.remove(i);
                self.notes.insert(
                    i,
                    Note { id: prev.id, title: prev.title, content: prev.content, hidden: true },
                );
                proof {
                    let target = soft_delete_spec(old(self)@, id);
                    assert forall|j: int| 0 <= j < self@.notes.len() implies self@.notes[j]
                        == target.notes[j] by {
                        if j != i as int {
                            lemma_wf_ids_distinct(old(self)@, i as int, j);
                        }
                    }
                    assert(self@.notes =~= target.notes);
                    assert(self@ =~= target);
                    assert forall|j: int| 0 <= j < self@.notes.len() implies (
                    #[trigger] self@.notes[j]).id == old(self)@.notes[j].id by {}
                    assert(store_wf(self@));
                }
                Ok(())
            },
            None => Err(VaultError::NotFoundError),
        }
    }
}

/// Soft-deleting the same id twice leaves the table exactly as deleting it
/// once: hiding an already-hidden row changes nothing.
pub proof fn lemma_soft_delete_idempotent(v: StoreView, id: u64)
    ensures
        soft_delete_spec(soft_delete_spec(v, id), id) == soft_delete_spec(v, id),
{
    let a = soft_delete_spec(v, id);
    let b = soft_delete_spec(a, id);
    assert forall|j: int| 0 <= j < b.notes.len() implies b.notes[j] == a.notes[j] by {}
    assert(b.notes =~= a.notes);
    assert(b =~= a);
}

/// Every pair the visible listing yields is the id and title of some
/// non-hidden row of the table.
pub proof fn lemma_visible_excludes_hidden(s: Seq<NoteView>, k: int)
    requires
        0 <= k < visible_of(s).len(),
    ensures
        exists|i: int|
            0 <= i < s.len() && !(#[trigger] s[i]).hidden && s[i].id == visible_of(s)[k].0 && s[i].title
                == visible_of(s)[k].1,
    decreases s.len(),
{
    let rest = visible_of(s.drop_last());
    if s.last().hidden || k < rest.len() {
        lemma_visible_excludes_hidden(s.drop_last(), k);
        let i = choose|i: int|
            0 <= i < s.drop_last().len() && !(#[trigger] s.drop_last()[i]).hidden && s.drop_last()[i].id
                == visible_of(s.drop_last())[k].0 && s.drop_last()[i].title == visible_of(
                s.drop_last(),
            )[k].1;
        assert(s[i] == s.drop_last()[i]);
        assert(!(s[i]).hidden && s[i].id == visible_of(s)[k].0 && s[i].title == visible_of(s)[k].1);
    } else {
        let i = s.len() - 1;
        assert(s[i] == s.last());
        assert(!(s[i]).hidden && s[i].id == visible_of(s)[k].0 && s[i].title == visible_of(s)[k].1);
    }
}

/// The visible listing never includes a hidden id: in a well-formed table,
/// no pair of the listing carries the id of a hidden row.
pub proof fn lemma_listing_omits_hidden_ids(v: StoreView, i: int, k: int)
    requires
        store_wf(v),
        0 <= i < v.notes.len(),
        v.notes[i].hidden,
        0 <= k < visible_of(v.notes).len(),
    ensures
        visible_of(v.notes)[k].0 != v.notes[i].id,
{
    let s = v.notes;
    lemma_visible_excludes_hidden(s, k);
    let w = choose|w: int|
        0 <= w < s.len() && !(#[trigger] s[w]).hidden && s[w].id == visible_of(s)[k].0 && s[w].title
            == visible_of(s)[k].1;
    assert(w != i);
    lemma_wf_ids_distinct(v, i, w);
}

} // verus!
