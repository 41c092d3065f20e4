use crate::errors::VaultError;
use crate::store::{store_wf, Note, NoteStore, NoteView, StoreView};
use vstd::prelude::*;
use vstd::slice::{slice_subrange, slice_to_vec};

verus! {

/// A `u64` written as 8 bytes, least significant first.
pub open spec fn u64_le(x: u64) -> Seq<u8> {
    seq![
        x as u8,
        (x >> 8) as u8,
        (x >> 16) as u8,
        (x >> 24) as u8,
        (x >> 32) as u8,
        (x >> 40) as u8,
        (x >> 48) as u8,
        (x >> 56) as u8,
    ]
}

/// The `u64` read from 8 bytes, least significant first.
pub open spec fn u64_of_le(b: Seq<u8>) -> u64
    recommends
        b.len() == 8,
{
    (b[0] as u64) | ((b[1] as u64) << 8) | ((b[2] as u64) << 16) | ((b[3] as u64) << 24) | ((
    b[4] as u64) << 32) | ((b[5] as u64) << 40) | ((b[6] as u64) << 48) | ((b[7] as u64) << 56)
}

/// Reading back the 8 bytes of a `u64` yields the `u64`.
pub proof fn lemma_u64_le_round(x: u64)
    ensures
        u64_of_le(u64_le(x)) == x,
{
    let b = u64_le(x);
    assert(b[0] == x as u8);
    assert(b[1] == (x >> 8) as u8);
    assert(b[2] == (x >> 16) as u8);
    assert(b[3] == (x >> 24) as u8);
    assert(b[4] == (x >> 32) as u8);
    assert(b[5] == (x >> 40) as u8);
    assert(b[6] == (x >> 48) as u8);
    assert(b[7] == (x >> 56) as u8);
    assert((x as u8 as u64) | ((x >> 8) as u8 as u64) << 8 | ((x >> 16) as u8 as u64) << 16 | ((x
        >> 24) as u8 as u64) << 24 | ((x >> 32) as u8 as u64) << 32 | ((x >> 40) as u8 as u64) << 40
        | ((x >> 48) as u8 as u64) << 48 | ((x >> 56) as u8 as u64) << 56 == x) by (bit_vector);
}

/// One encoded row: id, hidden flag, then length-prefixed title and content.
pub open spec fn enc_note(n: NoteView) -> Seq<u8> {
    u64_le(n.id) + seq![if n.hidden { 1u8 } else { 0u8 }] + u64_le(n.title.len() as u64) + n.title
        + u64_le(n.content.len() as u64) + n.content
}

/// The rows of a table, encoded one after the other in table order.
pub open spec fn enc_notes(s: Seq<NoteView>) -> Seq<u8>
    decreases s.len(),
{
    if s.len() == 0 {
        Seq::empty()
    } else {
        enc_notes(s.drop_last()) + enc_note(s.last())
    }
}

/// The byte form of a snapshot: next free id, row count, then the rows.
pub open spec fn enc_store(v: StoreView) -> Seq<u8> {
    u64_le(v.next_id) + u64_le(v.notes.len() as u64) + enc_notes(v.notes)
}

/// Whether every length in a snapshot fits the 8-byte fields of the codec.
pub open spec fn store_fits(v: StoreView) -> bool {
    &&& v.notes.len() <= u64::MAX
    &&& forall|i: int|
        0 <= i < v.notes.len() ==> (#[trigger] v.notes[i]).title.len() <= u64::MAX
            && v.notes[i].content.len() <= u64::MAX
}

fn push_u64_le(out: &mut Vec<u8>, x: u64)
    ensures
        final(out)@ == old(out)@ + u64_le(x),
{
    out.push(x as u8);
    out.push((x >> 8) as u8);
    out.push((x >> 16) as u8);
    out.push((x >> 24) as u8);
    out.push((x >> 32) as u8);
    out.push((x >> 40) as u8);
    out.push((x >> 48) as u8);
    out.push((x >> 56) as u8);
    proof {
        assert(out@ =~= old(out)@ + u64_le(x));
    }
}

fn push_bytes(out: &mut Vec<u8>, src: &Vec<u8>)
    ensures
        final(out)@ == old(out)@ + src@,
{
    let mut i: usize = 0;
    while i < src.len()
        invariant
            i <= src@.len(),
            out@ =~= old(out)@ + src@.take(i as int),
        decreases src@.len() - i,
    {
        out.push(src[i]);
        i = i + 1;
    }
    proof {
        assert(src@.take(src@.len() as int) =~= src@);
    }
}

/// Write a snapshot out as bytes, exactly in the codec's format.
pub fn encode_store(s: &NoteStore) -> (r: Vec<u8>)
    ensures
        r@ == enc_store(s@),
{
    let mut out: Vec<u8> = Vec::new();
    push_u64_le(&mut out, s.next_id);
    push_u64_le(&mut out, s.notes.len() as u64);
    let ghost header = u64_le(s@.next_id) + u64_le(s@.notes.len() as u64);
    proof {
        assert(s@.notes.len() == s.notes@.len());
        assert(out@ =~= header + enc_notes(s@.notes.take(0)));
    }
    let mut i: usize = 0;
    while i < s.notes.len()
        invariant
            i <= s.notes@.len(),
            s@.notes.len() == s.notes@.len(),
            header == u64_le(s@.next_id) + u64_le(s@.notes.len() as u64),
            out@ =~= header + enc_notes(s@.notes.take(i as int)),
        decreases s.notes@.len() - i,
    {
        let n = &s.notes[i];
        push_u64_le(&mut out, n.id);
        if n.hidden {
            out.push(1u8);
        } else {
            out.push(0u8);
        }
        push_u64_le(&mut out, n.title.len() as u64);
        push_bytes(&mut out, &n.title);
        push_u64_le(&mut out, n.content.len() as u64);
        push_bytes(&mut out, &n.content);
        proof {
            let t = s@.notes.take(i as int + 1);
            assert(t.drop_last() =~= s@.notes.take(i as int));
            assert(t.last() == s@.notes[i as int]);
            assert(out@ =~= header + (enc_notes(s@.notes.take(i as int)) + enc_note(
                s@.notes[i as int],
            )));
            assert(out@ =~= header + enc_notes(t));
        }
        i = i + 1;
    }
    proof {
        assert(s@.notes.take(s@.notes.len() as int) =~= s@.notes);
        assert(out@ =~= enc_store(s@));
    }
    out
}

/// Split a `u64` off the front of a byte stream.
pub open spec fn dec_u64(b: Seq<u8>) -> Option<(u64, Seq<u8>)> {
    if b.len() >= 8 {
        Some((u64_of_le(b.take(8)), b.skip(8)))
    } else {
        None
    }
}

/// Split a length-prefixed byte string off the front of a byte stream.
pub open spec fn dec_bytes(b: Seq<u8>) -> Option<(Seq<u8>, Seq<u8>)> {
    match dec_u64(b) {
        Some((n, rest)) => if rest.len() >= n as int {
            Some((rest.take(n as int), rest.skip(n as int)))
        } else {
            None
        },
        None => None,
    }
}

/// Split one encoded row off the front of a byte stream.
pub open spec fn dec_note(b: Seq<u8>) -> Option<(NoteView, Seq<u8>)> {
    match dec_u64(b) {
        Some((id, r1)) => if r1.len() >= 1 && (r1[0] == 0u8 || r1[0] == 1u8) {
            match dec_bytes(r1.skip(1)) {
                Some((title, r2)) => match dec_bytes(r2) {
                    Some((content, r3)) => Some(
                        (NoteView { id: id, title: title, content: content, hidden: r1[0] == 1u8 }, r3),
                    ),
                    None => None,
                },
                None => None,
            }
        } else {
            None
        },
        None => None,
    }
}

/// Split `k` encoded rows off the front of a byte stream.
pub open spec fn dec_notes(b: Seq<u8>, k: nat) -> Option<(Seq<NoteView>, Seq<u8>)>
    decreases k,
{
    if k == 0 {
        Some((Seq::empty(), b))
    } else {
        match dec_note(b) {
            Some((n, rest)) => match dec_notes(rest, (k - 1) as nat) {
                Some((ns, rest2)) => Some((seq![n] + ns, rest2)),
                None => None,
            },
            None => None,
        }
    }
}

/// Parse a whole snapshot: the header, that many rows, nothing left over,
/// and the table well-formed.
pub open spec fn dec_store(b: Seq<u8>) -> Option<StoreView> {
    match dec_u64(b) {
        Some((next_id, r1)) => match dec_u64(r1) {
            Some((count, r2)) => match dec_notes(r2, count as nat) {
                Some((notes, rest)) => {
                    let v = StoreView { notes: notes, next_id: next_id };
                    if rest.len() == 0 && store_wf(v) {
                        Some(v)
                    } else {
                        None
                    }
                },
                None => None,
            },
            None => None,
        },
        None => None,
    }
}

spec fn dec_notes_join(prefix: Seq<NoteView>, b: Seq<u8>, k: nat) -> Option<
    (Seq<NoteView>, Seq<u8>),
> {
    match dec_notes(b, k) {
        Some(p) => Some((prefix + p.0, p.1)),
        None => None,
    }
}

proof fn lemma_adjacent_sorted(s: Seq<NoteView>, i: int, j: int)
    requires
        forall|k: int| 0 <= k < s.len() - 1 ==> (#[trigger] s[k]).id < s[k + 1].id,
        0 <= i < j < s.len(),
    ensures
        s[i].id < s[j].id,
    decreases j - i,
{
    if i + 1 < j {
        lemma_adjacent_sorted(s, i, j - 1);
        assert((s[j - 1]).id < s[j].id);
    }
}

fn read_u64_le(b: &Vec<u8>, pos: usize) -> (x: u64)
    requires
        pos + 8 <= b@.len(),
    ensures
        x == u64_of_le(b@.subrange(pos as int, pos as int + 8)),
{
    let _blen = b.len();
    let x0 = b[pos] as u64;
    let x1 = b[pos + 1] as u64;
    let x2 = b[pos + 2] as u64;
    let x3 = b[pos + 3] as u64;
    let x4 = b[pos + 4] as u64;
    let x5 = b[pos + 5] as u64;
    let x6 = b[pos + 6] as u64;
    let x7 = b[pos + 7] as u64;
    let r = x0 | (x1 << 8) | (x2 << 16) | (x3 << 24) | (x4 << 32) | (x5 << 40) | (x6 << 48) | (x7
        << 56);
    proof {
        let s = b@.subrange(pos as int, pos as int + 8);
        assert(s[0] == b@[pos as int]);
        assert(s[1] == b@[pos as int + 1]);
        assert(s[2] == b@[pos as int + 2]);
        assert(s[3] == b@[pos as int + 3]);
        assert(s[4] == b@[pos as int + 4]);
        assert(s[5] == b@[pos as int + 5]);
        assert(s[6] == b@[pos as int + 6]);
        assert(s[7] == b@[pos as int + 7]);
    }
    r
}

fn read_bytes(b: &Vec<u8>, pos: usize) -> (r: Option<(Vec<u8>, usize)>)
    requires
        pos <= b@.len(),
    ensures
        match r {
            Some(p) => p.1 <= b@.len() && dec_bytes(b@.skip(pos as int)) == Some(
                (p.0@, b@.skip(p.1 as int)),
            ),
            None => dec_bytes(b@.skip(pos as int)) is None,
        },
{
    let ghost sb = b@.skip(pos as int);
    if b.len() - pos < 8 {
        return None;
    }
    let n64 = read_u64_le(b, pos);
    proof {
        assert(sb.take(8) =~= b@.subrange(pos as int, pos as int + 8));
        assert(sb.skip(8) =~= b@.skip(pos as int + 8));
    }
    let rem = b.len() - pos - 8;
    if n64 > rem as u64 {
        return None;
    }
    let n = n64 as usize;
    let start = pos + 8;
    let v = slice_to_vec(slice_subrange(b.as_slice(), start, start + n));
    proof {
        let rest = sb.skip(8);
        assert(rest.take(n as int) =~= b@.subrange(start as int, start as int + n as int));
        assert(rest.skip(n as int) =~= b@.skip(start as int + n as int));
    }
    Some((v, start + n))
}

fn read_note(b: &Vec<u8>, pos: usize) -> (r: Option<(Note, usize)>)
    requires
        pos <= b@.len(),
    ensures
        match r {
            Some(p) => p.1 <= b@.len() && dec_note(b@.skip(pos as int)) == Some(
                (p.0@, b@.skip(p.1 as int)),
            ),
            None => dec_note(b@.skip(pos as int)) is None,
        },
{
    let ghost sb = b@.skip(pos as int);
    if b.len() - pos < 8 {
        return None;
    }
    let id = read_u64_le(b, pos);
    proof {
        assert(sb.take(8) =~= b@.subrange(pos as int, pos as int + 8));
        assert(sb.skip(8) =~= b@.skip(pos as int + 8));
    }
    let fpos = pos + 8;
    let ghost r1 = sb.skip(8);
    if fpos >= b.len() {
        return None;
    }
    let flag = b[fpos];
    proof {
        assert(r1[0] == b@[fpos as int]);
    }
    if flag > 1 {
        return None;
    }
    let hidden = flag == 1;
    proof {
        assert(r1.skip(1) =~= b@.skip(fpos as int + 1));
    }
    match read_bytes(b, fpos + 1) {
        Some((title, p1)) => {
            match read_bytes(b, p1) {
                Some((content, p2)) => {
                    let n = Note { id: id, title: title, content: content, hidden: hidden };
                    proof {
                        assert(dec_note(sb) == Some((n@, b@.skip(p2 as int))));
                    }
                    Some((n, p2))
                },
                None => None,
            }
        },
        None => None,
    }
}

/// Read a snapshot back from bytes. Succeeds exactly when the bytes are the
/// codec's own form of a well-formed table; anything else is `SchemaError`.
#[verifier::loop_isolation(false)]
pub fn decode_store(b: &Vec<u8>) -> (r: Result<NoteStore, VaultError>)
    ensures
        match r {
            Ok(s) => dec_store(b@) == Some(s@) && store_wf(s@) && store_fits(s@),
            Err(e) => e == VaultError::SchemaError && dec_store(b@) is None,
        },
{
    if b.len() < 8 {
        return Err(VaultError::SchemaError);
    }
    let next_id = read_u64_le(b, 0);
    proof {
        assert(b@.take(8) =~= b@.subrange(0, 8));
    }
    if b.len() < 16 {
        proof {
            assert(b@.skip(8).len() < 8);
        }
        return Err(VaultError::SchemaError);
    }
    let count = read_u64_le(b, 8);
    proof {
        assert(b@.skip(8).take(8) =~= b@.subrange(8, 16));
        assert(b@.skip(8).skip(8) =~= b@.skip(16));
    }
    let ghost r2 = b@.skip(16);
    let ghost total = count as nat;
    let mut acc: Vec<Note> = Vec::new();
    let mut pos: usize = 16;
    let mut done: u64 = 0;
    proof {
        assert(acc@.map_values(|n: Note| n@) =~= Seq::<NoteView>::empty());
        match dec_notes(r2, total) {
            Some(p) => {
                assert(Seq::<NoteView>::empty() + p.0 =~= p.0);
            },
            None => {},
        }
    }
    while done < count
        invariant
            16 <= pos <= b@.len(),
            done <= count,
            acc@.len() == done as nat,
            forall|j: int|
                0 <= j < acc@.len() ==> (#[trigger] acc@[j])@.title.len() <= u64::MAX
                    && acc@[j]@.content.len() <= u64::MAX,
            dec_notes(r2, total) == dec_notes_join(
                acc@.map_values(|n: Note| n@),
                b@.skip(pos as int),
                (count - done) as nat,
            ),
        decreases count - done,
    {
        match read_note(b, pos) {
            Some((note, newpos)) => {
                proof {
                    let av = acc@.map_values(|n: Note| n@);
                    let rem = (count - done) as nat;
                    let sp = b@.skip(pos as int);
                    let snp = b@.skip(newpos as int);
                    match dec_notes(snp, (rem - 1) as nat) {
                        Some(p) => {
                            assert(av + (seq![note@] + p.0) =~= av.push(note@) + p.0);
                            assert(acc@.push(note).map_values(|n: Note| n@) =~= av.push(note@));
                        },
                        None => {},
                    }
                }
                acc.push(note);
                pos = newpos;
                done = done + 1;
            },
            None => {
                return Err(VaultError::SchemaError);
            },
        }
    }
    let ghost av = acc@.map_values(|n: Note| n@);
    proof {
        assert(av + Seq::<NoteView>::empty() =~= av);
        assert(dec_notes(r2, total) == Some((av, b@.skip(pos as int))));
    }
    if pos != b.len() {
        proof {
            assert(b@.skip(pos as int).len() > 0);
        }
        return Err(VaultError::SchemaError);
    }
    let ghost v = StoreView { notes: av, next_id: next_id };
    let mut k: usize = 0;
    while k < acc.len()
        invariant
            k <= acc@.len(),
            forall|j: int| 0 <= j < k ==> (#[trigger] av[j]).id < next_id,
            forall|j: int| 0 <= j < k && j + 1 < av.len() ==> av[j].id < (#[trigger] av[j + 1]).id,
        decreases acc@.len() - k,
    {
        if acc[k].id >= next_id {
            proof {
                assert(v.notes[k as int].id >= v.next_id);
                assert(!store_wf(v));
            }
            return Err(VaultError::SchemaError);
        }
        if k + 1 < acc.len() {
            if acc[k + 1].id <= acc[k].id {
                proof {
                    assert(v.notes[k as int + 1].id <= v.notes[k as int].id);
                    assert(!store_wf(v));
                }
                return Err(VaultError::SchemaError);
            }
        }
        k = k + 1;
    }
    proof {
        assert forall|i: int, j: int| 0 <= i < j < av.len() implies av[i].id < av[j].id by {
            lemma_adjacent_sorted(av, i, j);
        }
        assert(store_wf(v));
        assert(store_fits(v));
    }
    Ok(NoteStore { notes: acc, next_id: next_id })
}

proof fn lemma_dec_u64_of_enc(x: u64, rest: Seq<u8>)
    ensures
        dec_u64(u64_le(x) + rest) == Some((x, rest)),
{
    let b = u64_le(x) + rest;
    assert(b.take(8) =~= u64_le(x));
    assert(b.skip(8) =~= rest);
    lemma_u64_le_round(x);
}

proof fn lemma_dec_bytes_of_enc(p: Seq<u8>, rest: Seq<u8>)
    requires
        p.len() <= u64::MAX,
    ensures
        dec_bytes(u64_le(p.len() as u64) + p + rest) == Some((p, rest)),
{
    let b = u64_le(p.len() as u64) + p + rest;
    assert(b =~= u64_le(p.len() as u64) + (p + rest));
    lemma_dec_u64_of_enc(p.len() as u64, p + rest);
    assert((p + rest).take(p.len() as int) =~= p);
    assert((p + rest).skip(p.len() as int) =~= rest);
}

proof fn lemma_dec_note_of_enc(n: NoteView, rest: Seq<u8>)
    requires
        n.title.len() <= u64::MAX,
        n.content.len() <= u64::MAX,
    ensures
        dec_note(enc_note(n) + rest) == Some((n, rest)),
{
    let flag = if n.hidden { 1u8 } else { 0u8 };
    let tl = u64_le(n.title.len() as u64);
    let cl = u64_le(n.content.len() as u64);
    let b = enc_note(n) + rest;
    let tail1 = seq![flag] + (tl + n.title + (cl + n.content + rest));
    assert(b =~= u64_le(n.id) + tail1);
    lemma_dec_u64_of_enc(n.id, tail1);
    assert(tail1[0] == flag);
    assert(tail1.len() >= 1);
    assert(tail1.skip(1) =~= tl + n.title + (cl + n.content + rest));
    lemma_dec_bytes_of_enc(n.title, cl + n.content + rest);
    lemma_dec_bytes_of_enc(n.content, rest);
    assert(dec_bytes(tail1.skip(1)) == Some((n.title, cl + n.content + rest)));
    assert(dec_bytes(cl + n.content + rest) == Some((n.content, rest)));
    assert(NoteView { id: n.id, title: n.title, content: n.content, hidden: tail1[0] == 1u8 }
        =~= n);
}

proof fn lemma_enc_notes_front(s: Seq<NoteView>)
    requires
        s.len() > 0,
    ensures
        enc_notes(s) == enc_note(s[0]) + enc_notes(s.skip(1)),
    decreases s.len(),
{
    if s.len() == 1 {
        assert(s.drop_last().len() == 0);
        assert(s.skip(1).len() == 0);
        assert(enc_notes(s) == enc_notes(s.drop_last()) + enc_note(s.last()));
        assert(enc_notes(s) =~= enc_note(s[0]) + enc_notes(s.skip(1)));
    } else {
        lemma_enc_notes_front(s.drop_last());
        assert(s.skip(1).drop_last() =~= s.drop_last().skip(1));
        assert(s.skip(1).last() == s.last());
        assert(s.drop_last()[0] == s[0]);
        assert(enc_notes(s.skip(1)) == enc_notes(s.skip(1).drop_last()) + enc_note(s.skip(1).last()));
        assert(enc_notes(s) == enc_notes(s.drop_last()) + enc_note(s.last()));
        assert(enc_notes(s.drop_last()) == enc_note(s[0]) + enc_notes(s.drop_last().skip(1)));
        assert((enc_note(s[0]) + enc_notes(s.drop_last().skip(1))) + enc_note(s.last()) =~= enc_note(
            s[0],
        ) + (enc_notes(s.drop_last().skip(1)) + enc_note(s.last())));
    }
}

proof fn lemma_dec_notes_cons(n0: NoteView, tail: Seq<NoteView>, b: Seq<u8>, b2: Seq<u8>, rest: Seq<u8>)
    requires
        dec_note(b) == Some((n0, b2)),
        dec_notes(b2, tail.len()) == Some((tail, rest)),
    ensures
        dec_notes(b, tail.len() + 1) == Some((seq![n0] + tail, rest)),
{
}

#[verifier::spinoff_prover]
#[verifier::rlimit(100)]
proof fn lemma_dec_notes_of_enc(s: Seq<NoteView>, rest: Seq<u8>)
    requires
        forall|i: int|
            0 <= i < s.len() ==> (#[trigger] s[i]).title.len() <= u64::MAX && s[i].content.len()
                <= u64::MAX,
    ensures
        dec_notes(enc_notes(s) + rest, s.len()) == Some((s, rest)),
    decreases s.len(),
{
    if s.len() == 0 {
        assert(enc_notes(s) + rest =~= rest);
        assert(dec_notes(rest, 0) == Some((Seq::<NoteView>::empty(), rest)));
        assert(Seq::<NoteView>::empty() =~= s);
    } else {
        let b = enc_notes(s) + rest;
        let b2 = enc_notes(s.skip(1)) + rest;
        lemma_enc_notes_front(s);
        assert(b =~= enc_note(s[0]) + b2);
        lemma_dec_note_of_enc(s[0], b2);
        assert forall|i: int| 0 <= i < s.skip(1).len() implies (#[trigger] s.skip(1)[i]).title.len()
            <= u64::MAX && s.skip(1)[i].content.len() <= u64::MAX by {
            assert(s.skip(1)[i] == s[i + 1]);
        }
        lemma_dec_notes_of_enc(s.skip(1), rest);
        lemma_dec_notes_cons(s[0], s.skip(1), b, b2, rest);
        assert(s.skip(1).len() + 1 == s.len());
        assert(seq![s[0]] + s.skip(1) =~= s);
    }
}

/// Decoding inverts encoding: a well-formed snapshot written out by the
/// codec reads back exactly as it was.
pub proof fn lemma_codec_round_trip(v: StoreView)
    requires
        store_wf(v),
        store_fits(v),
    ensures
        dec_store(enc_store(v)) == Some(v),
{
    let b = enc_store(v);
    let cnt = v.notes.len() as u64;
    assert(b =~= u64_le(v.next_id) + (u64_le(cnt) + enc_notes(v.notes)));
    lemma_dec_u64_of_enc(v.next_id, u64_le(cnt) + enc_notes(v.notes));
    assert(u64_le(cnt) + enc_notes(v.notes) =~= u64_le(cnt) + (enc_notes(v.notes)
        + Seq::<u8>::empty()));
    lemma_dec_u64_of_enc(cnt, enc_notes(v.notes) + Seq::<u8>::empty());
    lemma_dec_notes_of_enc(v.notes, Seq::<u8>::empty());
    assert(cnt as nat == v.notes.len());
    assert(StoreView { notes: v.notes, next_id: v.next_id } =~= v);
}

} // verus!
