//! The rotating file store.
//!
//! The writer drains the shared buffer into one active file. The active file
//! holds at most `max_file_size` bytes; once it is full, the next byte rotates
//! it: the full file is archived under an increasing integer suffix (the
//! newest archive carries suffix 1) and a fresh active file is begun. At most
//! `max_files` archived generations are retained; a rotation beyond that
//! deletes the oldest.
//!
//! [`RotatingStore`] is this behaviour over in-memory byte vectors, verified
//! against the byte-by-byte transition [`push_byte`]. The unverified shell
//! performs the same steps against the file system.

use vstd::prelude::*;

verus! {

/// Abstract state of a rotating store.
///
/// `archives` is ordered newest first: `archives[0]` is the most recent
/// archived generation (suffix 1), the last element the oldest.
#[verifier::ext_equal]
pub struct StoreView {
    /// Content of the active file.
    pub active: Seq<u8>,
    /// Contents of the archived generations, newest first.
    pub archives: Seq<Seq<u8>>,
    /// Greatest number of archived generations retained.
    pub max_files: nat,
    /// Greatest size in bytes of each file.
    pub max_file_size: nat,
}

/// A fresh store: nothing written, nothing archived.
pub open spec fn empty_store(max_files: nat, max_file_size: nat) -> StoreView {
    StoreView { active: Seq::empty(), archives: Seq::empty(), max_files, max_file_size }
}

/// Well-formedness: positive bounds, the active file within its size limit,
/// at most `max_files` archives, and every archive exactly full (files are
/// rotated precisely when full).
pub open spec fn view_wf(v: StoreView) -> bool {
    &&& v.max_files >= 1
    &&& v.max_file_size >= 1
    &&& v.active.len() <= v.max_file_size
    &&& v.archives.len() <= v.max_files
    &&& forall|i: int|
        0 <= i < v.archives.len() ==> (#[trigger] v.archives[i]).len() == v.max_file_size
}

/// Retention: keep only the `max_files` newest archives.
pub open spec fn cap_archives(archives: Seq<Seq<u8>>, max_files: nat) -> Seq<Seq<u8>> {
    if archives.len() <= max_files {
        archives
    } else {
        archives.take(max_files as int)
    }
}

/// One byte arriving at the store. While the active file has room the byte is
/// appended to it; a byte arriving at a full active file first rotates it —
/// the full file becomes the newest archive, the oldest archive beyond the
/// retention limit is deleted — and then begins the fresh active file.
pub open spec fn push_byte(v: StoreView, b: u8) -> StoreView {
    if v.active.len() >= v.max_file_size {
        StoreView {
            active: seq![b],
            archives: cap_archives(seq![v.active] + v.archives, v.max_files),
            ..v
        }
    } else {
        StoreView { active: v.active.push(b), ..v }
    }
}

/// A whole slice arriving at the store, byte by byte, oldest first.
pub open spec fn append_bytes(v: StoreView, bytes: Seq<u8>) -> StoreView
    decreases bytes.len(),
{
    if bytes.len() == 0 {
        v
    } else {
        push_byte(append_bytes(v, bytes.drop_last()), bytes.last())
    }
}

/// The archives concatenated oldest first.
pub open spec fn concat_old_to_new(archives: Seq<Seq<u8>>) -> Seq<u8>
    decreases archives.len(),
{
    if archives.len() == 0 {
        Seq::empty()
    } else {
        archives.last() + concat_old_to_new(archives.drop_last())
    }
}

/// Everything the store currently holds, oldest byte first: the archives from
/// oldest to newest, then the active file.
pub open spec fn persisted(v: StoreView) -> Seq<u8> {
    concat_old_to_new(v.archives) + v.active
}

/// The size- and count-limited rotating set of files, as in-memory byte
/// vectors.
pub struct RotatingStore {
    active: Vec<u8>,
    archives: Vec<Vec<u8>>,
    max_files: usize,
    max_file_size: usize,
}

impl View for RotatingStore {
    type V = StoreView;

    closed spec fn view(&self) -> StoreView {
        StoreView {
            active: self.active@,
            archives: Seq::new(self.archives@.len(), |i: int| self.archives@[i]@),
            max_files: self.max_files as nat,
            max_file_size: self.max_file_size as nat,
        }
    }
}

impl RotatingStore {
    /// Well-formedness of the store.
    pub open spec fn wf(&self) -> bool {
        view_wf(self@)
    }

    /// A fresh store with the given bounds.
    pub fn new(max_files: usize, max_file_size: usize) -> (r: RotatingStore)
        requires
            max_files >= 1,
            max_file_size >= 1,
        ensures
            r.wf(),
            r@ == empty_store(max_files as nat, max_file_size as nat),
    {
        let r = RotatingStore { active: Vec::new(), archives: Vec::new(), max_files, max_file_size };
        proof {
            assert(r@ =~~= empty_store(max_files as nat, max_file_size as nat));
        }
        r
    }

    /// Appends a drained chunk to the store, rotating and deleting as the
    /// limits demand.
    pub fn append(&mut self, bytes: &[u8])
        requires
            old(self).wf(),
        ensures
            final(self).wf(),
            final(self)@ == append_bytes(old(self)@, bytes@),
    {
        let mut i: usize = 0;
        while i < bytes.len()
            invariant
                i <= bytes@.len(),
                view_wf(self@),
                self@ == append_bytes(old(self)@, bytes@.take(i as int)),
            decreases bytes@.len() - i,
        {
            let ghost pre = self@;
            let b = bytes[i];
            if self.active.len() >= self.max_file_size {
                let mut full: Vec<u8> = Vec::new();
                core::mem::swap(&mut self.active, &mut full);
                self.archives.insert(0, full);
                if self.archives.len() > self.max_files {
                    self.archives.pop();
                }
            }
            self.active.push(b);
            proof {
                assert(self@ =~~= push_byte(pre, b));
                lemma_push_byte_wf(pre, b);
                assert(bytes@.take(i + 1).drop_last() =~= bytes@.take(i as int));
                assert(bytes@.take(i + 1).last() == bytes@[i as int]);
            }
            i += 1;
        }
        proof {
            assert(bytes@.take(bytes@.len() as int) =~= bytes@);
        }
    }

    /// Number of archived generations currently retained.
    pub fn archive_count(&self) -> (r: usize)
        ensures
            r == self@.archives.len(),
    {
        self.archives.len()
    }

    /// The content of archived generation `i`, newest first: `archived(0)` is
    /// the most recent archive (suffix 1).
    pub fn archived(&self, i: usize) -> (r: &Vec<u8>)
        requires
            i < self@.archives.len(),
        ensures
            r@ == self@.archives[i as int],
    {
        &self.archives[i]
    }

    /// The content of the active file.
    pub fn active(&self) -> (r: &Vec<u8>)
        ensures
            r@ == self@.active,
    {
        &self.active
    }

    /// The whole persisted stream, oldest byte first: the archives from
    /// oldest to newest, then the active file.
    pub fn persisted_bytes(&self) -> (r: Vec<u8>)
        ensures
            r@ == persisted(self@),
    {
        let mut r: Vec<u8> = Vec::new();
        let mut i: usize = self.archives.len();
        proof {
            assert(self@.archives.skip(i as int) =~= Seq::<Seq<u8>>::empty());
            assert(r@ =~= concat_old_to_new(self@.archives.skip(i as int)));
        }
        while i > 0
            invariant
                i <= self@.archives.len(),
                r@ == concat_old_to_new(self@.archives.skip(i as int)),
            decreases i,
        {
            extend_bytes(&mut r, &self.archives[i - 1]);
            proof {
                assert(self@.archives.skip(i as int - 1) =~= seq![self@.archives[i as int - 1]]
                    + self@.archives.skip(i as int));
                lemma_concat_cons(self@.archives[i as int - 1], self@.archives.skip(i as int));
            }
            i -= 1;
        }
        proof {
            assert(self@.archives.skip(0) =~= self@.archives);
        }
        extend_bytes(&mut r, &self.active);
        r
    }
}

/// Appends one byte vector to another.
fn extend_bytes(dst: &mut Vec<u8>, src: &Vec<u8>)
    ensures
        final(dst)@ == old(dst)@ + src@,
{
    let mut j: usize = 0;
    while j < src.len()
        invariant
            j <= src@.len(),
            dst@ == old(dst)@ + src@.take(j as int),
        decreases src@.len() - j,
    {
        dst.push(src[j]);
        proof {
            assert(dst@ =~= old(dst)@ + src@.take(j as int + 1));
        }
        j += 1;
    }
    proof {
        assert(src@.take(src@.len() as int) =~= src@);
    }
}

/// One byte keeps the store well formed.
pub proof fn lemma_push_byte_wf(v: StoreView, b: u8)
    requires
        view_wf(v),
    ensures
        view_wf(push_byte(v, b)),
        push_byte(v, b).max_files == v.max_files,
        push_byte(v, b).max_file_size == v.max_file_size,
{
}

/// Any slice keeps the store well formed.
pub proof fn lemma_append_wf(v: StoreView, bytes: Seq<u8>)
    requires
        view_wf(v),
    ensures
        view_wf(append_bytes(v, bytes)),
        append_bytes(v, bytes).max_files == v.max_files,
        append_bytes(v, bytes).max_file_size == v.max_file_size,
    decreases bytes.len(),
{
    if bytes.len() > 0 {
        lemma_append_wf(v, bytes.drop_last());
        lemma_push_byte_wf(append_bytes(v, bytes.drop_last()), bytes.last());
    }
}

/// Appending is one slice at a time: a concatenation may be split.
pub proof fn lemma_append_split(v: StoreView, a: Seq<u8>, b: Seq<u8>)
    ensures
        append_bytes(v, a + b) == append_bytes(append_bytes(v, a), b),
    decreases b.len(),
{
    if b.len() == 0 {
        assert(a + b =~= a);
    } else {
        lemma_append_split(v, a, b.drop_last());
        assert((a + b).drop_last() =~= a + b.drop_last());
        assert((a + b).last() == b.last());
    }
}

/// Archiving one more file puts it behind the newer persisted content.
proof fn lemma_concat_cons(x: Seq<u8>, archives: Seq<Seq<u8>>)
    ensures
        concat_old_to_new(seq![x] + archives) == concat_old_to_new(archives) + x,
    decreases archives.len(),
{
    if archives.len() == 0 {
        assert(seq![x] + archives =~= seq![x]);
        assert(seq![x].drop_last() =~= archives);
        assert(concat_old_to_new(archives) == Seq::<u8>::empty());
        assert(concat_old_to_new(seq![x]) == x + concat_old_to_new(archives));
        assert(concat_old_to_new(seq![x]) =~= concat_old_to_new(archives) + x);
    } else {
        lemma_concat_cons(x, archives.drop_last());
        assert((seq![x] + archives).drop_last() =~= seq![x] + archives.drop_last());
        assert((seq![x] + archives).last() == archives.last());
        assert(concat_old_to_new(seq![x] + archives) == archives.last() + concat_old_to_new(
            seq![x] + archives.drop_last(),
        ));
        assert(concat_old_to_new(seq![x] + archives) =~= concat_old_to_new(archives) + x);
    }
}

/// Bytes that fit the active file's remaining room are simply appended: no
/// rotation, no archive touched.
pub proof fn lemma_append_no_rotation(v: StoreView, bytes: Seq<u8>)
    requires
        view_wf(v),
        v.active.len() + bytes.len() <= v.max_file_size,
    ensures
        append_bytes(v, bytes) == (StoreView { active: v.active + bytes, ..v }),
    decreases bytes.len(),
{
    if bytes.len() == 0 {
        assert(v.active + bytes =~= v.active);
        assert(append_bytes(v, bytes) =~~= (StoreView { active: v.active + bytes, ..v }));
    } else {
        lemma_append_no_rotation(v, bytes.drop_last());
        let w = append_bytes(v, bytes.drop_last());
        assert(w.active.len() < v.max_file_size);
        assert(push_byte(w, bytes.last()).active == w.active.push(bytes.last()));
        assert((v.active + bytes.drop_last()).push(bytes.last()) =~= v.active + bytes);
        assert(append_bytes(v, bytes) =~~= (StoreView { active: v.active + bytes, ..v }));
    }
}

/// A chunk of at most one file's worth arriving at a full active file first
/// rotates it and then fills the fresh file with the chunk.
pub proof fn lemma_append_chunk_to_full(v: StoreView, bytes: Seq<u8>)
    requires
        view_wf(v),
        v.active.len() == v.max_file_size,
        1 <= bytes.len() <= v.max_file_size,
    ensures
        append_bytes(v, bytes) == (StoreView {
            active: bytes,
            archives: cap_archives(seq![v.active] + v.archives, v.max_files),
            ..v
        }),
{
    let first = bytes.take(1);
    let rest = bytes.skip(1);
    assert(bytes =~= first + rest);
    lemma_append_split(v, first, rest);
    assert(first.drop_last() =~= Seq::<u8>::empty());
    assert(first.last() == bytes[0]);
    assert(append_bytes(v, Seq::<u8>::empty()) == v);
    assert(append_bytes(v, first) == push_byte(v, bytes[0]));
    let w = push_byte(v, bytes[0]);
    assert(w.active =~= seq![bytes[0]]);
    lemma_push_byte_wf(v, bytes[0]);
    lemma_append_no_rotation(w, rest);
    assert(seq![bytes[0]] + rest =~= bytes);
    assert(append_bytes(v, bytes) =~~= (StoreView {
        active: bytes,
        archives: cap_archives(seq![v.active] + v.archives, v.max_files),
        ..v
    }));
}

/// Rotation boundary: one byte more than one file's worth, drained into a
/// fresh store, produces exactly two files — the archive holds the first
/// `max_file_size` bytes, the active file the remainder.
pub proof fn lemma_rotation_split(max_files: nat, max_file_size: nat, bytes: Seq<u8>)
    requires
        max_files >= 1,
        max_file_size >= 1,
        bytes.len() == max_file_size + 1,
    ensures
        append_bytes(empty_store(max_files, max_file_size), bytes) == (StoreView {
            active: bytes.skip(max_file_size as int),
            archives: seq![bytes.take(max_file_size as int)],
            max_files,
            max_file_size,
        }),
{
    let v0 = empty_store(max_files, max_file_size);
    let a = bytes.take(max_file_size as int);
    let b = bytes.skip(max_file_size as int);
    assert(bytes =~= a + b);
    lemma_append_split(v0, a, b);
    lemma_append_no_rotation(v0, a);
    let w = append_bytes(v0, a);
    assert(w.active =~= a);
    lemma_append_chunk_to_full(w, b);
    assert(cap_archives(seq![a] + w.archives, max_files) =~= seq![a]);
    assert(append_bytes(v0, bytes) =~~= (StoreView {
        active: b,
        archives: seq![a],
        max_files,
        max_file_size,
    }));
}

/// Retaining only the newest: prepending one more archive and then capping is
/// capping the longer list directly.
proof fn lemma_cap_absorb(x: Seq<u8>, archives: Seq<Seq<u8>>, max_files: nat)
    requires
        max_files >= 1,
    ensures
        cap_archives(seq![x] + cap_archives(archives, max_files), max_files) == cap_archives(
            seq![x] + archives,
            max_files,
        ),
{
    if archives.len() <= max_files {
        assert(cap_archives(archives, max_files) == archives);
    } else {
        assert(cap_archives(seq![x] + cap_archives(archives, max_files), max_files) =~= cap_archives(
            seq![x] + archives,
            max_files,
        ));
    }
}

/// Draining whole files one after another: each fills the active file, and
/// the next one rotates it in; the archives end up newest first, capped to
/// the retention limit.
proof fn lemma_append_full_chunks(max_files: nat, max_file_size: nat, payloads: Seq<Seq<u8>>)
    requires
        max_files >= 1,
        max_file_size >= 1,
        payloads.len() >= 1,
        forall|i: int| 0 <= i < payloads.len() ==> (#[trigger] payloads[i]).len() == max_file_size,
    ensures
        ({
            let r = append_bytes(empty_store(max_files, max_file_size), payloads.flatten());
            &&& r.max_files == max_files
            &&& r.max_file_size == max_file_size
            &&& r.active == payloads.last()
            &&& r.archives == cap_archives(payloads.drop_last().reverse(), max_files)
        }),
    decreases payloads.len(),
{
    let v0 = empty_store(max_files, max_file_size);
    if payloads.len() == 1 {
        payloads.lemma_flatten_one_element();
        lemma_append_no_rotation(v0, payloads.first());
        assert(v0.active + payloads.first() =~= payloads.last());
        assert(payloads.drop_last().reverse() =~= Seq::<Seq<u8>>::empty());
    } else {
        let ps = payloads.drop_last();
        let p = payloads.last();
        ps.lemma_flatten_and_flatten_alt_are_equivalent();
        payloads.lemma_flatten_and_flatten_alt_are_equivalent();
        assert(payloads.flatten_alt() == ps.flatten_alt() + p);
        lemma_append_split(v0, ps.flatten(), p);
        lemma_append_full_chunks(max_files, max_file_size, ps);
        let w = append_bytes(v0, ps.flatten());
        lemma_append_wf(v0, ps.flatten());
        lemma_append_chunk_to_full(w, p);
        lemma_cap_absorb(ps.last(), ps.drop_last().reverse(), max_files);
        assert(seq![ps.last()] + ps.drop_last().reverse() =~= ps.reverse());
        assert(append_bytes(v0, payloads.flatten()).archives == cap_archives(
            ps.reverse(),
            max_files,
        ));
    }
}

/// Retention: draining a run of whole files and then part of another leaves
/// the later part in the active file and, of the whole files, only the
/// `max_files` newest as archives, newest first — everything older has been
/// deleted.
pub proof fn lemma_retention(
    max_files: nat,
    max_file_size: nat,
    payloads: Seq<Seq<u8>>,
    rest: Seq<u8>,
)
    requires
        max_files >= 1,
        max_file_size >= 1,
        payloads.len() >= 1,
        forall|i: int| 0 <= i < payloads.len() ==> (#[trigger] payloads[i]).len() == max_file_size,
        1 <= rest.len() <= max_file_size,
    ensures
        ({
            let r = append_bytes(
                empty_store(max_files, max_file_size),
                payloads.flatten() + rest,
            );
            &&& r.active == rest
            &&& r.archives.len() == if payloads.len() <= max_files {
                payloads.len()
            } else {
                max_files
            }
            &&& forall|i: int|
                0 <= i < r.archives.len() ==> r.archives[i] == payloads[payloads.len() - 1 - i]
        }),
{
    let v0 = empty_store(max_files, max_file_size);
    lemma_append_split(v0, payloads.flatten(), rest);
    lemma_append_full_chunks(max_files, max_file_size, payloads);
    let w = append_bytes(v0, payloads.flatten());
    lemma_append_wf(v0, payloads.flatten());
    lemma_append_chunk_to_full(w, rest);
    lemma_cap_absorb(payloads.last(), payloads.drop_last().reverse(), max_files);
    assert(seq![payloads.last()] + payloads.drop_last().reverse() =~= payloads.reverse());
    let r = append_bytes(v0, payloads.flatten() + rest);
    assert(r.archives == cap_archives(payloads.reverse(), max_files));
}

/// With every archive exactly full, the archived content has a known length.
proof fn lemma_concat_len_full(archives: Seq<Seq<u8>>, size: nat)
    requires
        forall|i: int| 0 <= i < archives.len() ==> (#[trigger] archives[i]).len() == size,
    ensures
        concat_old_to_new(archives).len() == archives.len() * size,
    decreases archives.len(),
{
    if archives.len() > 0 {
        lemma_concat_len_full(archives.drop_last(), size);
        assert((archives.len() - 1) * size + size == archives.len() * size) by (nonlinear_arith);
    }
}

/// How much a well-formed store holds: its full archives and its active file.
pub proof fn lemma_persisted_len(v: StoreView)
    requires
        view_wf(v),
    ensures
        persisted(v).len() == v.archives.len() * v.max_file_size + v.active.len(),
{
    lemma_concat_len_full(v.archives, v.max_file_size);
}

/// Nothing is lost while there is room: as long as the append never rotates
/// past the retention limit — the store's total content stays within
/// `(max_files + 1)` files' worth — the persisted stream afterwards is the
/// persisted stream before with exactly the appended bytes at its tail.
pub proof fn lemma_append_preserves_persisted(v: StoreView, bytes: Seq<u8>)
    requires
        view_wf(v),
        persisted(v).len() + bytes.len() <= (v.max_files + 1) * v.max_file_size,
    ensures
        view_wf(append_bytes(v, bytes)),
        append_bytes(v, bytes).max_files == v.max_files,
        append_bytes(v, bytes).max_file_size == v.max_file_size,
        persisted(append_bytes(v, bytes)) == persisted(v) + bytes,
    decreases bytes.len(),
{
    lemma_persisted_len(v);
    if bytes.len() == 0 {
        assert(persisted(v) + bytes =~= persisted(v));
    } else {
        lemma_append_preserves_persisted(v, bytes.drop_last());
        let w = append_bytes(v, bytes.drop_last());
        let b = bytes.last();
        lemma_push_byte_wf(w, b);
        lemma_persisted_len(w);
        let m = v.max_file_size;
        let k = w.archives.len();
        if w.active.len() >= m {
            // The byte rotates the full active file in; the retention bound
            // leaves room, so no archive is deleted.
            assert(k * m + m + 1 <= (v.max_files + 1) * m);
            assert(k < v.max_files) by (nonlinear_arith)
                requires
                    k * m + m + 1 <= (v.max_files + 1) * m,
                    m >= 1,
                    k >= 0,
            ;
            assert(cap_archives(seq![w.active] + w.archives, w.max_files) == seq![w.active]
                + w.archives);
            lemma_concat_cons(w.active, w.archives);
            assert(persisted(push_byte(w, b)) =~= persisted(w).push(b));
        } else {
            assert(persisted(push_byte(w, b)) =~= persisted(w).push(b));
        }
        assert(persisted(v) + bytes =~= (persisted(v) + bytes.drop_last()).push(b));
    }
}

} // verus!
