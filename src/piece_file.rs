//! The piece table: a document held as an ordered list of pieces over the
//! original file's bytes and an append-only log of inserted text, with a
//! linear undo and redo history.
use vstd::prelude::*;
use vstd::string::StringSliceAdditionalSpecFns;
use vstd::utf8::{decode_utf8, valid_utf8};
use crate::piece::{
    Piece, SourceFile, Span, all_valid, concat, layout_of, lemma_byte_at, lemma_concat_append,
    lemma_concat_len, lemma_concat_one, lemma_split_around, lemma_splice, lemma_start_mono,
    cut_between, lemma_concat_extend, lemma_cut_between, lemma_layout_push, split_around,
    lemma_total_split, lemma_total_take_step, span_bytes, span_of, span_valid, start_of, store, total,
};

verus! {

/// The kind of an edit.
#[derive(Debug, Clone, Copy, PartialEq, Eq, Structural)]
pub enum Operation {
    Insert,
    Delete,
}

/// One edit of the document, with what it takes to reverse it and to make it again.
pub struct Action {
    /// The kind of edit.
    pub op: Operation,
    /// Offset in the document at which the edit begins.
    pub offset: u64,
    /// For an insert, the inserted piece. For a delete, the fragments that were
    /// removed, the last one in the document first; each one carries the offset
    /// of the delete as its logical offset.
    pub pieces: Vec<Piece>,
    /// Number of bytes inserted or deleted.
    pub length: u64,
    /// The edit left a remainder of a split piece before it.
    pub merge_down: bool,
    /// The edit left a remainder of a split piece after it.
    pub merge_up: bool,
    /// Index of the first piece that the edit replaced.
    pub index: usize,
    /// The pieces that stood at `index` before the edit.
    pub removed: Vec<Piece>,
    /// How many pieces stand at `index` in their place after the edit.
    pub added: usize,
}

/// Where a seek counts from.
#[derive(Debug, Clone, Copy, PartialEq, Eq, Structural)]
pub enum SeekFrom {
    /// From the start of the document.
    Start(u64),
    /// From the end of the document.
    End(i64),
    /// From the current read offset.
    Current(i64),
}

/// A document held as a piece table.
pub struct PieceFile {
    /// Every edit, oldest first; the last `history_offset` of them are undone.
    actions: Vec<Action>,
    /// Every byte ever inserted; written once, never changed.
    append_file: Vec<u8>,
    /// The bytes of the original file.
    original: Vec<u8>,
    /// Whether the document was opened from a file.
    backed: bool,
    /// The number of actions currently undone.
    history_offset: usize,
    /// The length of the document in bytes.
    length: u64,
    /// The offset the next read starts at.
    offset: u64,
    /// The pieces, in document order.
    piece_table: Vec<Piece>,
    /// Layout of the document before each applied action, and the current one.
    layouts: Ghost<Seq<Seq<Span>>>,
    /// Content of the document before each action, and after the last one.
    texts: Ghost<Seq<Seq<u8>>>,
}

/// The longest prefix of `b` that is valid UTF-8, found by dropping the last
/// byte until what is left decodes.
pub open spec fn valid_prefix(b: Seq<u8>) -> Seq<u8>
    decreases b.len(),
{
    if b.len() == 0 || valid_utf8(b) {
        b
    } else {
        valid_prefix(b.drop_last())
    }
}

/// The byte range `[start, end)` that a read of `n` bytes at `cursor` covers in
/// a document of `len` bytes: both ends are clamped to the document.
pub open spec fn read_range(cursor: u64, n: u64, len: nat) -> (int, int) {
    let start = if cursor <= len { cursor as int } else { len as int };
    let end = if start + n <= len { start + n } else { len as int };
    (start, end)
}

/// Text that a read of `n` bytes at `cursor` returns from the document `t`.
pub open spec fn read_result(t: Seq<u8>, cursor: u64, n: u64) -> Seq<char> {
    let (start, end) = read_range(cursor, n, t.len());
    decode_utf8(valid_prefix(t.subrange(start, end)))
}

/// Where a seek lands, if that is an offset a `u64` can hold; `None` where it
/// would fall below zero or beyond.
pub open spec fn seek_target(pos: SeekFrom, cursor: u64, len: nat) -> Option<u64> {
    let t: int = match pos {
        SeekFrom::Start(v) => v as int,
        SeekFrom::End(d) => len + d,
        SeekFrom::Current(d) => cursor + d,
    };
    if 0 <= t <= u64::MAX {
        Some(t as u64)
    } else {
        None
    }
}

/// Relies on `String::from_utf8`: it succeeds exactly when the bytes are valid
/// UTF-8, and the string then holds the characters they encode.
#[verifier::external_body]
fn string_from_utf8(bytes: Vec<u8>) -> (r: Option<String>)
    ensures
        r.is_some() == valid_utf8(bytes@),
        r.is_some() ==> r.unwrap()@ == decode_utf8(bytes@),
{
    String::from_utf8(bytes).ok()
}

/// Decodes the longest prefix of `bytes` that is valid UTF-8.
pub fn decode_prefix(bytes: &Vec<u8>) -> (r: String)
    ensures
        r@ == decode_utf8(valid_prefix(bytes@)),
{
    let mut k: usize = bytes.len();
    assert(bytes@.take(k as int) =~= bytes@);
    loop
        invariant
            k <= bytes@.len(),
            valid_prefix(bytes@) == valid_prefix(bytes@.take(k as int)),
        decreases k,
    {
        let mut cand: Vec<u8> = Vec::new();
        let mut i: usize = 0;
        while i < k
            invariant
                i <= k <= bytes@.len(),
                cand@ == bytes@.take(i as int),
            decreases k - i,
        {
            cand.push(bytes[i]);
            i = i + 1;
            assert(cand@ =~= bytes@.take(i as int));
        }
        let ghost c = cand@;
        match string_from_utf8(cand) {
            Some(s) => {
                assert(valid_prefix(c) == c);
                return s;
            },
            None => {
                assert(k > 0) by {
                    if k == 0 {
                        assert(valid_utf8(c));
                    }
                }
                assert(c.drop_last() =~= bytes@.take(k - 1));
                k = k - 1;
            },
        }
    }
}

/// Appends `bytes` to `log`.
fn append_bytes(log: &mut Vec<u8>, bytes: &[u8])
    ensures
        final(log)@ == old(log)@ + bytes@,
{
    let mut i: usize = 0;
    while i < bytes.len()
        invariant
            i <= bytes@.len(),
            log@ == old(log)@ + bytes@.take(i as int),
        decreases bytes@.len() - i,
    {
        log.push(bytes[i]);
        i = i + 1;
        assert(log@ =~= old(log)@ + bytes@.take(i as int));
    }
    assert(bytes@.take(i as int) =~= bytes@);
}

/// Copies the pieces `src[from..to]` to the end of `res`, giving each one the
/// offset in the document that `target` puts it at.
fn push_run(
    res: &mut Vec<Piece>,
    off: &mut u64,
    src: &Vec<Piece>,
    from: usize,
    to: usize,
    Ghost(target): Ghost<Seq<Span>>,
)
    requires
        from <= to <= src@.len(),
        old(res)@.len() + (to - from) <= target.len(),
        total(target) <= u64::MAX,
        layout_of(old(res)@) == target.take(old(res)@.len() as int),
        *old(off) == start_of(target, old(res)@.len() as int),
        forall|i: int|
            0 <= i < old(res)@.len() ==> (#[trigger] old(res)@[i]).logical_offset == start_of(
                target,
                i,
            ),
        target.subrange(old(res)@.len() as int, old(res)@.len() + (to - from)) == layout_of(
            src@,
        ).subrange(from as int, to as int),
    ensures
        final(res)@.len() == old(res)@.len() + (to - from),
        layout_of(final(res)@) == target.take(final(res)@.len() as int),
        *final(off) == start_of(target, final(res)@.len() as int),
        forall|i: int|
            0 <= i < final(res)@.len() ==> (#[trigger] final(res)@[i]).logical_offset == start_of(
                target,
                i,
            ),
{
    let ghost base = old(res)@.len() as int;
    assert forall|m: int| base <= m < base + (to - from) implies #[trigger] target[m] == span_of(
        src@[from + m - base],
    ) by {
        assert(target.subrange(base, base + (to - from))[m - base] == target[m]);
        assert(layout_of(src@).subrange(from as int, to as int)[m - base] == layout_of(
            src@,
        )[from + m - base]);
    }
    let mut k = from;
    while k < to
        invariant
            from <= k <= to <= src@.len(),
            res@.len() == base + (k - from),
            base + (to - from) <= target.len(),
            total(target) <= u64::MAX,
            layout_of(res@) == target.take(res@.len() as int),
            *off == start_of(target, res@.len() as int),
            forall|i: int|
                0 <= i < res@.len() ==> (#[trigger] res@[i]).logical_offset == start_of(target, i),
            forall|m: int|
                base <= m < base + (to - from) ==> #[trigger] target[m] == span_of(
                    src@[from + m - base],
                ),
        decreases to - k,
    {
        let ghost r = res.len() as int;
        let p = src[k];
        assert(target[r] == span_of(p));
        proof {
            lemma_total_take_step(target, r);
            lemma_total_split(target, r + 1);
        }
        let q = Piece {
            file: p.file,
            file_offset: p.file_offset,
            length: p.length,
            logical_offset: *off,
        };
        res.push(q);
        *off = *off + p.length;
        k = k + 1;
        assert(layout_of(res@) =~= target.take(res@.len() as int));
    }
}

/// The pieces `pt[0..start]`, then `with`, then `pt[start + count..]`, with
/// their offsets in the document recomputed; and the length of that document.
fn rebuild(pt: &Vec<Piece>, start: usize, count: usize, with: &Vec<Piece>) -> (r: (
    Vec<Piece>,
    u64,
))
    requires
        start + count <= pt@.len(),
        total(
            layout_of(pt@).take(start as int) + layout_of(with@) + layout_of(pt@).skip(
                start + count,
            ),
        ) <= u64::MAX,
    ensures
        layout_of(r.0@) == layout_of(pt@).take(start as int) + layout_of(with@) + layout_of(
            pt@,
        ).skip(start + count),
        r.1 == total(layout_of(r.0@)),
        forall|i: int|
            0 <= i < r.0@.len() ==> (#[trigger] r.0@[i]).logical_offset == start_of(
                layout_of(r.0@),
                i,
            ),
{
    let ghost l = layout_of(pt@);
    let ghost w = layout_of(with@);
    let ghost target = l.take(start as int) + w + l.skip(start + count);
    let n = pt.len();
    let mut res: Vec<Piece> = Vec::new();
    let mut off: u64 = 0;
    assert(layout_of(res@) =~= target.take(0));
    assert(target.subrange(0, start as int) =~= l.subrange(0, start as int));
    push_run(&mut res, &mut off, pt, 0, start, Ghost(target));
    assert(target.subrange(start as int, start + with@.len()) =~= w.subrange(
        0,
        with@.len() as int,
    ));
    push_run(&mut res, &mut off, with, 0, with.len(), Ghost(target));
    assert(target.subrange(start + with@.len(), start + with@.len() + (pt@.len() - (start + count)))
        =~= l.subrange(start + count, pt@.len() as int));
    push_run(&mut res, &mut off, pt, start + count, n, Ghost(target));
    assert(target.take(res@.len() as int) =~= target);
    proof {
        assert(start_of(target, res@.len() as int) == total(target));
    }
    (res, off)
}

impl PieceFile {
    /// The pieces' spans, in document order.
    pub closed spec fn layout(&self) -> Seq<Span> {
        layout_of(self.piece_table@)
    }

    /// The content of the document.
    pub closed spec fn text(&self) -> Seq<u8> {
        concat(self.layout(), self.original@, self.append_file@)
    }

    /// The offset the next read starts at.
    pub closed spec fn cursor(&self) -> u64 {
        self.offset
    }

    /// The append log: every byte ever inserted, in the order it came.
    pub closed spec fn append_log(&self) -> Seq<u8> {
        self.append_file@
    }

    /// The size of the append log.
    pub open spec fn append_len(&self) -> nat {
        self.append_log().len()
    }

    /// Every recorded edit, oldest first; the last `undone()` of them are undone.
    pub closed spec fn history(&self) -> Seq<Action> {
        self.actions@
    }

    /// Whether the document was opened from a file.
    pub closed spec fn has_file(&self) -> bool {
        self.backed
    }

    /// The number of edits that are applied.
    pub closed spec fn applied(&self) -> nat {
        (self.actions@.len() - self.history_offset) as nat
    }

    /// The number of edits that are undone and can be redone.
    pub closed spec fn undone(&self) -> nat {
        self.history_offset as nat
    }

    /// The layout before each applied edit, and the current one last.
    pub closed spec fn past_layouts(&self) -> Seq<Seq<Span>> {
        self.layouts@
    }

    /// The content before each edit, applied or undone, and after the last one.
    pub closed spec fn past_texts(&self) -> Seq<Seq<u8>> {
        self.texts@
    }

    /// The pieces are valid, their offsets are their starts, and `length` is the total.
    closed spec fn wf_table(&self) -> bool {
        let l = self.layout();
        &&& all_valid(l, self.original@, self.append_file@)
        &&& self.length == total(l)
        &&& forall|i: int|
            0 <= i < self.piece_table@.len() ==> (#[trigger] self.piece_table@[i]).logical_offset
                == start_of(l, i)
    }

    closed spec fn state_ok(&self, j: int) -> bool {
        &&& all_valid(self.layouts@[j], self.original@, self.append_file@)
        &&& concat(self.layouts@[j], self.original@, self.append_file@) == self.texts@[j]
    }

    closed spec fn step_ok(&self, j: int) -> bool {
        restores(self.actions@[j], self.layouts@[j], self.layouts@[j + 1])
    }

    closed spec fn replay_ok(&self, j: int) -> bool {
        replays(self.actions@[j], self.texts@[j], self.texts@[j + 1], self.append_file@)
    }

    closed spec fn wf_history(&self) -> bool {
        let n = self.actions@.len();
        let c = self.applied() as int;
        &&& self.history_offset <= n
        &&& self.layouts@.len() == c + 1
        &&& self.texts@.len() == n + 1
        &&& self.layouts@[c] == self.layout()
        &&& self.texts@[c] == self.text()
        &&& forall|j: int| 0 <= j <= c ==> #[trigger] self.state_ok(j)
        &&& forall|j: int| 0 <= j < c ==> #[trigger] self.step_ok(j)
        &&& forall|j: int| 0 <= j < n ==> #[trigger] self.replay_ok(j)
        &&& forall|j: int| 0 <= j <= n ==> (#[trigger] self.texts@[j]).len() <= u64::MAX
    }

    /// The buffer is well formed.
    pub closed spec fn wf(&self) -> bool {
        &&& self.wf_table()
        &&& self.wf_history()
    }

    /// Index of the piece that holds byte `off` of the document; an offset at
    /// the very end resolves to the last piece.
    fn locate(&self, off: u64) -> (r: usize)
        requires
            self.wf_table(),
            0 < self.length,
            off <= self.length,
        ensures
            r < self.piece_table@.len(),
            off < self.length ==> start_of(self.layout(), r as int) <= off < start_of(
                self.layout(),
                r as int,
            ) + self.layout()[r as int].2,
            off == self.length ==> r == self.piece_table@.len() - 1,
    {
        let ghost l = self.layout();
        let mut i: usize = 0;
        while i < self.piece_table.len()
            invariant
                self.wf_table(),
                l == self.layout(),
                0 < self.length,
                off <= self.length,
                i <= self.piece_table@.len(),
                start_of(l, i as int) <= off,
            decreases self.piece_table@.len() - i,
        {
            let p = self.piece_table[i];
            proof {
                lemma_total_take_step(l, i as int);
                lemma_total_split(l, i + 1);
            }
            if off < p.logical_offset + p.length {
                return i;
            }
            i = i + 1;
        }
        proof {
            assert(l.take(l.len() as int) =~= l);
            if l.len() == 0 {
                assert(l.take(0) =~= l);
            }
        }
        i - 1
    }

    /// Byte `idx` of the store `f`.
    fn byte_of(&self, f: SourceFile, idx: u64) -> (r: u8)
        requires
            idx < store(self.original@, self.append_file@, f).len(),
        ensures
            r == store(self.original@, self.append_file@, f)[idx as int],
    {
        match f {
            SourceFile::Original => {
                let _ = self.original.len();
                self.original[idx as usize]
            },
            SourceFile::Append => {
                let _ = self.append_file.len();
                self.append_file[idx as usize]
            },
        }
    }

    /// The bytes `[start, start + n)` of the document.
    #[verifier::rlimit(60)]
    #[verifier::spinoff_prover]
    fn bytes_at(&self, start: u64, n: u64) -> (r: Vec<u8>)
        requires
            self.wf_table(),
            start + n <= self.length,
        ensures
            r@ == self.text().subrange(start as int, start + n),
    {
        let ghost l = self.layout();
        let ghost t = self.text();
        let ghost orig = self.original@;
        let ghost app = self.append_file@;
        proof {
            lemma_concat_len(l, orig, app);
        }
        let mut res: Vec<u8> = Vec::new();
        if n == 0 {
            assert(res@ =~= t.subrange(start as int, start + n));
            return res;
        }
        let end = start + n;
        let mut i = self.locate(start);
        let mut pos = start;
        while pos < end
            invariant
                self.wf_table(),
                l == self.layout(),
                t == self.text(),
                orig == self.original@,
                app == self.append_file@,
                t.len() == total(l),
                start <= pos <= end,
                end == start + n,
                end <= self.length,
                i < l.len(),
                start_of(l, i as int) <= pos <= start_of(l, i as int) + l[i as int].2,
                res@ == t.subrange(start as int, pos as int),
            decreases end - pos,
        {
            let p0 = self.piece_table[i];
            proof {
                assert(l[i as int] == span_of(p0));
                lemma_total_take_step(l, i as int);
                lemma_total_split(l, i + 1);
            }
            if pos == p0.logical_offset + p0.length {
                proof {
                    if i + 1 >= l.len() {
                        assert(l.take(i + 1) =~= l);
                    }
                }
                let _ = self.piece_table.len();
                i = i + 1;
            }
            let p = self.piece_table[i];
            proof {
                assert(l[i as int] == span_of(p));
                assert(span_valid(l[i as int], orig, app));
                lemma_byte_at(l, i as int, pos as int, orig, app);
            }
            let b = self.byte_of(p.file, p.logical_to_file(pos));
            res.push(b);
            pos = pos + 1;
            assert(res@ =~= t.subrange(start as int, pos as int));
        }
        res
    }

    /// Everything but the piece table and the length is as in `old`.
    closed spec fn same_but_table(&self, old: &PieceFile) -> bool {
        &&& self.actions == old.actions
        &&& self.append_file == old.append_file
        &&& self.original == old.original
        &&& self.backed == old.backed
        &&& self.history_offset == old.history_offset
        &&& self.offset == old.offset
        &&& self.layouts == old.layouts
        &&& self.texts == old.texts
    }

    /// Replacing the pieces `[idx, idx + cnt)`, which are `removed`, by `with`
    /// turns the document into `expected`.
    closed spec fn plan_ok(
        &self,
        with: Seq<Piece>,
        removed: Seq<Piece>,
        idx: int,
        cnt: int,
        expected: Seq<u8>,
    ) -> bool {
        let l = self.layout();
        let t = self.text();
        &&& 0 <= idx
        &&& 0 <= cnt
        &&& idx + cnt <= l.len()
        &&& all_valid(layout_of(with), self.original@, self.append_file@)
        &&& layout_of(removed) == l.subrange(idx, idx + cnt)
        &&& t.take(start_of(l, idx) as int) + concat(
            layout_of(with),
            self.original@,
            self.append_file@,
        ) + t.skip(start_of(l, idx + cnt) as int) == expected
    }

    /// Replaces the pieces `[idx, idx + cnt)` by `with`.
    fn apply_plan(
        &mut self,
        with: &Vec<Piece>,
        idx: usize,
        cnt: usize,
        Ghost(removed): Ghost<Seq<Piece>>,
        Ghost(expected): Ghost<Seq<u8>>,
    )
        requires
            old(self).wf_table(),
            old(self).plan_ok(with@, removed, idx as int, cnt as int, expected),
            expected.len() <= u64::MAX,
        ensures
            final(self).wf_table(),
            final(self).same_but_table(old(self)),
            final(self).text() == expected,
            final(self).layout() == old(self).layout().take(idx as int) + layout_of(with@)
                + old(self).layout().skip(idx + cnt),
            old(self).layout() == final(self).layout().take(idx as int) + layout_of(removed)
                + final(self).layout().skip(idx + with@.len()),
            idx + with@.len() <= final(self).layout().len(),
    {
        let ghost l = self.layout();
        let ghost orig = self.original@;
        let ghost app = self.append_file@;
        let ghost w = layout_of(with@);
        let ghost target = l.take(idx as int) + w + l.skip(idx + cnt);
        proof {
            lemma_splice(l, idx as int, cnt as int, w, orig, app);
            lemma_concat_len(l, orig, app);
            lemma_concat_len(target, orig, app);
            lemma_start_mono(l, idx as int, idx + cnt);
            assert(concat(l, orig, app).take(start_of(l, idx as int) as int) + concat(w, orig, app)
                + concat(l, orig, app).skip(start_of(l, idx + cnt) as int) == expected);
        }
        let (np, tot) = rebuild(&self.piece_table, idx, cnt, with);
        self.piece_table = np;
        self.length = tot;
        proof {
            assert(l =~= target.take(idx as int) + layout_of(removed) + target.skip(
                idx + with@.len(),
            ));
        }
    }

    /// Where an insert of `p` at `off`, strictly inside the document, puts it:
    /// the piece holding `off` is replaced by its part before `off`, if any, `p`
    /// and its part from `off` on.
    #[verifier::rlimit(80)]
    #[verifier::spinoff_prover]
    fn plan_split(&self, p: Piece, off: u64) -> (r: (Vec<Piece>, Vec<Piece>, usize, bool))
        requires
            self.wf_table(),
            span_valid(span_of(p), self.original@, self.append_file@),
            0 < off < self.length,
        ensures
            self.plan_ok(
                r.0@,
                r.1@,
                r.2 as int,
                1,
                self.text().take(off as int) + span_bytes(
                    span_of(p),
                    self.original@,
                    self.append_file@,
                ) + self.text().skip(off as int),
            ),
            holds(self.layout(), r.2 as int, off as int),
            layout_of(r.0@) == split_around(
                self.layout()[r.2 as int],
                off - start_of(self.layout(), r.2 as int),
                span_of(p),
            ),
            r.3 == (off > start_of(self.layout(), r.2 as int)),
    {
        let ghost l = self.layout();
        let ghost t = self.text();
        let ghost orig = self.original@;
        let ghost app = self.append_file@;
        let ghost pb = span_bytes(span_of(p), orig, app);
        let i = self.locate(off);
        let q = self.piece_table[i];
        let ghost st = start_of(l, i as int) as int;
        proof {
            assert(l[i as int] == span_of(q));
            lemma_total_take_step(l, i as int);
            lemma_total_split(l, i + 1);
            assert(span_valid(l[i as int], orig, app));
        }
        let lower = off - q.logical_offset;
        let upper = q.logical_offset + q.length - off;
        let hi = Piece { file: q.file, file_offset: q.file_offset + lower, length: upper, logical_offset: 0 };
        let mut with: Vec<Piece> = Vec::new();
        if lower > 0 {
            with.push(Piece { file: q.file, file_offset: q.file_offset, length: lower, logical_offset: 0 });
        }
        with.push(p);
        with.push(hi);
        let mut removed: Vec<Piece> = Vec::new();
        removed.push(q);
        proof {
            assert(q.logical_offset == st);
            lemma_split_around(l, i as int, lower as int, span_of(p), orig, app);
            if lower > 0 {
                assert(layout_of(with@) =~= split_around(l[i as int], lower as int, span_of(p)));
            } else {
                assert(layout_of(with@) =~= split_around(l[i as int], lower as int, span_of(p)));
            }
            assert(layout_of(removed@) =~= l.subrange(i as int, i + 1));
        }
        (with, removed, i, lower > 0)
    }

    /// Puts the piece `p` into the document at offset `off`, splitting the
    /// piece that holds `off` where needed.
    #[verifier::spinoff_prover]
    fn insert_piece(&mut self, p: Piece, off: u64) -> (a: Action)
        requires
            old(self).wf_table(),
            span_valid(span_of(p), old(self).original@, old(self).append_file@),
            off <= old(self).length,
            old(self).length + p.length <= u64::MAX,
        ensures
            final(self).wf_table(),
            final(self).same_but_table(old(self)),
            final(self).text() == old(self).text().take(off as int) + span_bytes(
                span_of(p),
                old(self).original@,
                old(self).append_file@,
            ) + old(self).text().skip(off as int),
            restores(a, old(self).layout(), final(self).layout()),
            a.op == Operation::Insert,
            a.offset == off,
            a.length == p.length,
            a.pieces@ == seq![p],
            off == 0 ==> final(self).layout() == seq![span_of(p)] + old(self).layout(),
            off == old(self).length ==> final(self).layout() == old(self).layout().push(
                span_of(p),
            ),
            a.merge_up == (0 < off < old(self).length),
            (off == 0 || off == old(self).length) ==> !a.merge_down,
            0 < off < old(self).length ==> exists|k: int|
                #![trigger holds(old(self).layout(), k, off as int)]
                holds(old(self).layout(), k, off as int) && a.merge_down == (off > start_of(
                    old(self).layout(),
                    k,
                )) && final(self).layout() == old(self).layout().take(k) + split_around(
                    old(self).layout()[k],
                    off - start_of(old(self).layout(), k),
                    span_of(p),
                ) + old(self).layout().skip(k + 1),
    {
        let ghost l = self.layout();
        let ghost t = self.text();
        let ghost orig = self.original@;
        let ghost app = self.append_file@;
        let ghost pb = span_bytes(span_of(p), orig, app);
        let ghost expected = t.take(off as int) + pb + t.skip(off as int);
        proof {
            lemma_concat_len(l, orig, app);
            lemma_concat_one(span_of(p), orig, app);
        }
        let n = self.piece_table.len();
        let with: Vec<Piece>;
        let removed: Vec<Piece>;
        let idx: usize;
        let cnt: usize;
        let mut down = false;
        let mut up = false;
        if off == 0 || off == self.length {
            let mut w: Vec<Piece> = Vec::new();
            w.push(p);
            with = w;
            removed = Vec::new();
            idx = if off == 0 { 0 } else { n };
            cnt = 0;
            proof {
                assert(layout_of(with@) =~= seq![span_of(p)]);
                assert(layout_of(removed@) =~= l.subrange(idx as int, idx as int));
                assert(l.take(idx as int) + layout_of(with@) + l.skip(idx as int) =~= l.take(
                    idx as int,
                ) + seq![span_of(p)] + l.skip(idx as int));
                if idx == 0 {
                    assert(l.take(0) =~= Seq::<Span>::empty());
                    assert(l.skip(0) =~= l);
                } else {
                    assert(l.take(n as int) =~= l);
                    assert(l.skip(n as int) =~= Seq::<Span>::empty());
                }
                assert(t.take(start_of(l, idx as int) as int) =~= t.take(off as int));
                assert(t.skip(start_of(l, idx as int) as int) =~= t.skip(off as int));
                if off == self.length {
                    assert(l.len() == 0 || idx == n) by {
                        if l.len() > 0 && idx == 0 {
                            assert(span_valid(l[l.len() - 1], orig, app));
                        }
                    }
                    assert(seq![span_of(p)] + l =~= l.push(span_of(p)) || idx == n);
                }
                assert(all_valid(layout_of(with@), orig, app)) by {
                    assert forall|k: int| 0 <= k < 1 implies #[trigger] span_valid(
                        layout_of(with@)[k],
                        orig,
                        app,
                    ) by {}
                }
            }
        } else {
            let (w, rm, i, d) = self.plan_split(p, off);
            with = w;
            removed = rm;
            idx = i;
            cnt = 1;
            down = d;
            up = true;
        }
        self.apply_plan(&with, idx, cnt, Ghost(removed@), Ghost(expected));
        let mut pieces: Vec<Piece> = Vec::new();
        pieces.push(p);
        proof {
            assert(pieces@ =~= seq![p]);
            if 0 < off < old(self).length {
                assert(holds(l, idx as int, off as int));
            }
        }
        Action {
            op: Operation::Insert,
            offset: off,
            pieces,
            length: p.length,
            merge_down: down,
            merge_up: up,
            index: idx,
            removed,
            added: with.len(),
        }
    }

    /// The pieces `[s, e]`.
    fn pieces_between(&self, s: usize, e: usize) -> (r: Vec<Piece>)
        requires
            s <= e < self.piece_table@.len(),
        ensures
            layout_of(r@) == self.layout().subrange(s as int, e + 1),
    {
        let ghost l = self.layout();
        let mut removed: Vec<Piece> = Vec::new();
        let np = self.piece_table.len();
        let mut k = s;
        while k <= e
            invariant
                s <= k <= e + 1,
                e < np,
                np == self.piece_table@.len(),
                l == self.layout(),
                layout_of(removed@) == l.subrange(s as int, k as int),
            decreases e + 1 - k,
        {
            let p = self.piece_table[k];
            proof {
                lemma_layout_push(removed@, p);
                assert(l[k as int] == span_of(p));
            }
            removed.push(p);
            k = k + 1;
            assert(layout_of(removed@) =~= l.subrange(s as int, k as int));
        }
        removed
    }

    /// The fragments that a delete of `[off, off + n)` from the pieces `s` to
    /// `e` removes, the last one in the document first, each with `off` as its
    /// logical offset.
    fn deleted_fragments(&self, s: usize, e: usize, off: u64, n: u64) -> (r: Vec<Piece>)
        requires
            self.wf_table(),
            s <= e < self.piece_table@.len(),
            off + n <= self.length,
            start_of(self.layout(), s as int) <= off,
            off < start_of(self.layout(), s as int) + self.layout()[s as int].2,
            start_of(self.layout(), e as int) < off + n <= start_of(self.layout(), e as int)
                + self.layout()[e as int].2,
        ensures
            r@ == fragments(self.layout(), s as int, e as int, off, n),
    {
        let ghost l = self.layout();
        let ps = self.piece_table[s];
        let pe = self.piece_table[e];
        proof {
            assert(l[s as int] == span_of(ps));
            assert(l[e as int] == span_of(pe));
            assert(span_valid(l[s as int], self.original@, self.append_file@));
        }
        let lower = off - ps.logical_offset;
        let mut pieces: Vec<Piece> = Vec::new();
        if s == e {
            pieces.push(Piece { file: ps.file, file_offset: ps.file_offset + lower, length: n, logical_offset: off });
            assert(pieces@ =~= fragments(l, s as int, e as int, off, n));
        } else {
            let head = off + n - pe.logical_offset;
            let first = Piece { file: pe.file, file_offset: pe.file_offset, length: head, logical_offset: off };
            pieces.push(first);
            assert(first == part(l[e as int], 0, head as int, off));
            let ghost mids = Seq::new(
                (e - s - 1) as nat,
                |m: int| part(l[e - 1 - m], 0, l[e - 1 - m].2 as int, off),
            );
            assert(pieces@ =~= seq![first] + mids.take(0));
            let mut j = e - 1;
            while j > s
                invariant
                    s < e < self.piece_table@.len(),
                    s <= j < e,
                    l == self.layout(),
                    mids.len() == e - s - 1,
                    forall|m: int| 0 <= m < mids.len() ==> #[trigger] mids[m] == part(l[e - 1 - m], 0, l[e - 1 - m].2 as int, off),
                    pieces@ == seq![first] + mids.take(e - 1 - j),
                decreases j,
            {
                let mid = self.piece_table[j];
                assert(l[j as int] == span_of(mid));
                assert(mids[e - 1 - j] == Piece { logical_offset: off, ..mid });
                pieces.push(Piece { logical_offset: off, ..mid });
                j = j - 1;
                assert(pieces@ =~= seq![first] + mids.take(e - 1 - j));
            }
            assert(mids.take(e - 1 - j) =~= mids);
            pieces.push(
                Piece {
                    file: ps.file,
                    file_offset: ps.file_offset + lower,
                    length: ps.length - lower,
                    logical_offset: off,
                },
            );
            assert(pieces@ =~= fragments(l, s as int, e as int, off, n));
        }
        pieces
    }

    /// The pieces that hold the first and the last byte of `[off, off + n)`.
    fn cut_ends(&self, off: u64, n: u64) -> (r: (usize, usize))
        requires
            self.wf_table(),
            n > 0,
            off + n <= self.length,
        ensures
            r.0 <= r.1,
            holds(self.layout(), r.0 as int, off as int),
            holds(self.layout(), r.1 as int, off + n - 1),
    {
        let ghost l = self.layout();
        let s = self.locate(off);
        let e = self.locate(off + n - 1);
        proof {
            lemma_total_take_step(l, e as int);
            assert(s <= e) by {
                if e < s {
                    lemma_start_mono(l, e + 1, s as int);
                }
            }
        }
        (s, e)
    }

    /// Where a delete of `[off, off + n)` leaves the document: the pieces `s`
    /// to `e` that hold those bytes are replaced by what is left of them.
    #[verifier::rlimit(100)]
    #[verifier::spinoff_prover]
    fn plan_cut(&self, off: u64, n: u64) -> (r: (Vec<Piece>, usize, usize, bool, bool))
        requires
            self.wf_table(),
            n > 0,
            off + n <= self.length,
        ensures
            r.1 <= r.2 < self.layout().len(),
            start_of(self.layout(), r.1 as int) <= off < start_of(self.layout(), r.1 as int)
                + self.layout()[r.1 as int].2,
            start_of(self.layout(), r.2 as int) < off + n <= start_of(self.layout(), r.2 as int)
                + self.layout()[r.2 as int].2,
            all_valid(layout_of(r.0@), self.original@, self.append_file@),
            self.text().take(start_of(self.layout(), r.1 as int) as int) + concat(
                layout_of(r.0@),
                self.original@,
                self.append_file@,
            ) + self.text().skip(start_of(self.layout(), r.2 + 1) as int) == self.text().take(
                off as int,
            ) + self.text().skip(off + n),
            layout_of(r.0@) == cut_between(
                self.layout()[r.1 as int],
                off - start_of(self.layout(), r.1 as int),
                self.layout()[r.2 as int],
                off + n - start_of(self.layout(), r.2 as int),
            ),
            r.3 == (off > start_of(self.layout(), r.1 as int)),
            r.4 == (off + n < start_of(self.layout(), r.2 as int) + self.layout()[r.2 as int].2),
    {
        let ghost l = self.layout();
        let ghost t = self.text();
        let ghost orig = self.original@;
        let ghost app = self.append_file@;
        let end = off + n;
        let (s, e) = self.cut_ends(off, n);
        let ps = self.piece_table[s];
        let pe = self.piece_table[e];
        proof {
            assert(l[s as int] == span_of(ps));
            assert(l[e as int] == span_of(pe));
            lemma_total_take_step(l, e as int);
            lemma_total_split(l, e + 1);
            assert(span_valid(l[s as int], orig, app));
            assert(span_valid(l[e as int], orig, app));
        }
        let lower = off - ps.logical_offset;
        let head = end - pe.logical_offset;
        let mut with: Vec<Piece> = Vec::new();
        if lower > 0 {
            with.push(Piece { file: ps.file, file_offset: ps.file_offset, length: lower, logical_offset: 0 });
        }
        if head < pe.length {
            with.push(
                Piece {
                    file: pe.file,
                    file_offset: pe.file_offset + head,
                    length: pe.length - head,
                    logical_offset: 0,
                },
            );
        }
        proof {
            lemma_cut_between(l, s as int, e as int, lower as int, head as int, orig, app);
            assert(layout_of(with@) =~= cut_between(l[s as int], lower as int, l[e as int], head as int));
        }
        (with, s, e, lower > 0, head < pe.length)
    }

    /// Removes the bytes `[off, off + n)` from the document.
    #[verifier::rlimit(100)]
    #[verifier::spinoff_prover]
    fn delete_range(&mut self, off: u64, n: u64) -> (a: Action)
        requires
            old(self).wf_table(),
            n > 0,
            off + n <= old(self).length,
        ensures
            final(self).wf_table(),
            final(self).same_but_table(old(self)),
            final(self).text() == old(self).text().take(off as int) + old(self).text().skip(
                off + n,
            ),
            restores(a, old(self).layout(), final(self).layout()),
            a.op == Operation::Delete,
            a.offset == off,
            a.length == n,
            exists|s: int, e: int|
                #![trigger holds(old(self).layout(), s, off as int), holds(old(self).layout(), e, off + n - 1)]
                s <= e && holds(old(self).layout(), s, off as int) && holds(
                    old(self).layout(),
                    e,
                    off + n - 1,
                ) && final(self).layout() == old(self).layout().take(s) + cut_between(
                    old(self).layout()[s],
                    off - start_of(old(self).layout(), s),
                    old(self).layout()[e],
                    off + n - start_of(old(self).layout(), e),
                ) + old(self).layout().skip(e + 1) && a.pieces@ == fragments(
                    old(self).layout(),
                    s,
                    e,
                    off,
                    n,
                ) && a.merge_down == (off > start_of(old(self).layout(), s)) && a.merge_up == (off
                    + n < start_of(old(self).layout(), e) + old(self).layout()[e].2),
    {
        let ghost t = self.text();
        proof {
            lemma_concat_len(self.layout(), self.original@, self.append_file@);
        }
        let (with, s, e, down, up) = self.plan_cut(off, n);
        let removed = self.pieces_between(s, e);
        let pieces = self.deleted_fragments(s, e, off, n);
        let ghost expected = t.take(off as int) + t.skip(off + n);
        let _ = self.piece_table.len();
        let cnt = e - s + 1;
        assert(s + cnt == e + 1);
        assert(self.plan_ok(with@, removed@, s as int, cnt as int, expected));
        self.apply_plan(&with, s, cnt, Ghost(removed@), Ghost(expected));
        proof {
            let l0 = old(self).layout();
            assert(holds(l0, s as int, off as int));
            assert(holds(l0, e as int, off + n - 1));
        }
        Action {
            op: Operation::Delete,
            offset: off,
            pieces,
            length: n,
            merge_down: down,
            merge_up: up,
            index: s,
            removed,
            added: with.len(),
        }
    }

    /// `self` is `prev` after the append log grew and the pieces changed by
    /// the edit `a`; history is as in `prev`.
    closed spec fn after_edit(&self, prev: &PieceFile, a: Action) -> bool {
        &&& self.wf_table()
        &&& prev.wf()
        &&& self.original == prev.original
        &&& self.backed == prev.backed
        &&& self.offset == prev.offset
        &&& self.actions == prev.actions
        &&& self.history_offset == prev.history_offset
        &&& self.layouts == prev.layouts
        &&& self.texts == prev.texts
        &&& prev.append_file@.len() <= self.append_file@.len()
        &&& prev.append_file@ == self.append_file@.take(prev.append_file@.len() as int)
        &&& restores(a, prev.layout(), self.layout())
        &&& replays(a, prev.text(), self.text(), self.append_file@)
        &&& self.text().len() <= u64::MAX
    }

    /// Records the edit `a`, which turned `prev` into the current document;
    /// any undone edits are dropped.
    #[verifier::spinoff_prover]
    #[verifier::rlimit(100)]
    fn record(&mut self, a: Action, Ghost(prev): Ghost<PieceFile>)
        requires
            old(self).after_edit(&prev, a),
        ensures
            final(self).wf(),
            edited(prev, *final(self), old(self).text()),
            final(self).history() == prev.history().take(prev.applied() as int).push(a),
            final(self).layout() == old(self).layout(),
            final(self).append_file == old(self).append_file,
            final(self).original == old(self).original,
    {
        let ghost orig = self.original@;
        let ghost app0 = prev.append_file@;
        let ghost app = self.append_file@;
        let ghost more = app.skip(app0.len() as int);
        let ghost c = prev.applied() as int;
        let ghost n = prev.actions@.len();
        proof {
            assert(app0 + more =~= app);
            assert forall|j: int| 0 <= j <= c implies #[trigger] self.state_ok(j) by {
                assert(prev.state_ok(j));
                lemma_concat_extend(self.layouts@[j], orig, app0, more);
            }
            assert forall|j: int| 0 <= j < n implies #[trigger] self.replay_ok(j) by {
                assert(prev.replay_ok(j));
                let aj = self.actions@[j];
                if aj.op == Operation::Insert {
                    let q = aj.pieces@[0];
                    assert(app.subrange(q.file_offset as int, q.file_offset + q.length)
                        =~= app0.subrange(q.file_offset as int, q.file_offset + q.length));
                }
            }
            lemma_concat_extend(prev.layout(), orig, app0, more);
        }
        let keep = self.actions.len() - self.history_offset;
        self.actions.truncate(keep);
        self.history_offset = 0;
        self.actions.push(a);
        assert(self.actions@ == prev.actions@.take(c).push(a));
        assert(self.actions@.take(c) =~= prev.actions@.take(c));
        self.layouts = Ghost(self.layouts@.push(self.layout()));
        self.texts = Ghost(self.texts@.take(c + 1).push(self.text()));
        proof {
            assert forall|j: int| 0 <= j <= c + 1 implies #[trigger] self.state_ok(j) by {
                if j <= c {
                    assert(old(self).state_ok(j));
                }
            }
            assert forall|j: int| 0 <= j < c + 1 implies #[trigger] self.step_ok(j) by {
                if j < c {
                    assert(prev.step_ok(j));
                }
            }
            assert forall|j: int| 0 <= j < c + 1 implies #[trigger] self.replay_ok(j) by {
                if j < c {
                    assert(old(self).replay_ok(j));
                }
            }
            assert forall|j: int| 0 <= j <= c + 1 implies (#[trigger] self.texts@[j]).len()
                <= u64::MAX by {
                if j <= c {
                    assert(prev.texts@[j].len() <= u64::MAX);
                }
            }
        }
    }

    /// What a well-formed buffer's history holds: the current layout and
    /// content come last among the applied states.
    pub proof fn lemma_history(&self)
        requires
            self.wf(),
        ensures
            self.past_layouts().len() == self.applied() + 1,
            self.past_layouts()[self.applied() as int] == self.layout(),
            self.past_texts().len() == self.applied() + self.undone() + 1,
            self.past_texts()[self.applied() as int] == self.text(),
            self.text().len() <= u64::MAX,
            self.history().len() == self.applied() + self.undone(),
            total(self.layout()) == self.text().len(),
            forall|i: int| 0 <= i < self.layout().len() ==> (#[trigger] self.layout()[i]).2 > 0,
    {
        lemma_concat_len(self.layout(), self.original@, self.append_file@);
        assert forall|i: int| 0 <= i < self.layout().len() implies (#[trigger] self.layout()[i]).2 > 0 by {
            assert(span_valid(self.layout()[i], self.original@, self.append_file@));
        }
    }

    /// The read offset plays no part in well-formedness.
    proof fn lemma_move_cursor(a: PieceFile, b: PieceFile)
        requires
            a.wf(),
            b == (PieceFile { offset: b.offset, ..a }),
        ensures
            b.wf(),
            same_document(a, b),
    {
        assert forall|j: int| 0 <= j <= b.applied() implies #[trigger] b.state_ok(j) by {
            assert(a.state_ok(j));
        }
        assert forall|j: int| 0 <= j < b.applied() implies #[trigger] b.step_ok(j) by {
            assert(a.step_ok(j));
        }
        assert forall|j: int| 0 <= j < b.actions@.len() implies #[trigger] b.replay_ok(j) by {
            assert(a.replay_ok(j));
        }
    }

    /// An empty document that refers to no file.
    pub fn empty() -> (r: PieceFile)
        ensures
            r.wf(),
            r.text() == Seq::<u8>::empty(),
            r.layout() == Seq::<Span>::empty(),
            !r.has_file(),
            r.applied() == 0,
            r.append_log() == Seq::<u8>::empty(),
            r.history() == Seq::<Action>::empty(),
            r.undone() == 0,
            r.cursor() == 0,
    {
        let ghost ls = seq![Seq::<Span>::empty()];
        let ghost ts = seq![Seq::<u8>::empty()];
        let r = PieceFile {
            actions: Vec::new(),
            append_file: Vec::new(),
            original: Vec::new(),
            backed: false,
            history_offset: 0,
            length: 0,
            offset: 0,
            piece_table: Vec::new(),
            layouts: Ghost(ls),
            texts: Ghost(ts),
        };
        proof {
            assert(r.layout() =~= Seq::<Span>::empty());
            assert(r.state_ok(0));
        }
        r
    }

    /// A document over the bytes of an original file: one piece spans them all.
    pub fn with_original(bytes: Vec<u8>) -> (r: PieceFile)
        ensures
            r.wf(),
            r.text() == bytes@,
            bytes@.len() > 0 ==> r.layout() == seq![(SourceFile::Original, 0u64, bytes@.len() as u64)],
            bytes@.len() == 0 ==> r.layout() == Seq::<Span>::empty(),
            r.has_file(),
            r.applied() == 0,
            r.append_log() == Seq::<u8>::empty(),
            r.history() == Seq::<Action>::empty(),
            r.undone() == 0,
            r.cursor() == 0,
    {
        let n = bytes.len();
        assert(n <= u64::MAX);
        let size = n as u64;
        let mut pieces: Vec<Piece> = Vec::new();
        if size > 0 {
            pieces.push(Piece { file: SourceFile::Original, file_offset: 0, length: size, logical_offset: 0 });
        }
        let ghost l = layout_of(pieces@);
        let ghost orig = bytes@;
        let ghost app = Seq::<u8>::empty();
        proof {
            if size > 0 {
                assert(l =~= seq![(SourceFile::Original, 0u64, size)]);
                lemma_concat_one(l[0], orig, app);
                assert(orig.subrange(0, size as int) =~= orig);
                assert(l.take(0) =~= Seq::<Span>::empty());
                assert(l.drop_last() =~= Seq::<Span>::empty());
            } else {
                assert(l =~= Seq::<Span>::empty());
                assert(orig =~= Seq::<u8>::empty());
            }
        }
        let ghost ls = seq![l];
        let ghost ts = seq![orig];
        let r = PieceFile {
            actions: Vec::new(),
            append_file: Vec::new(),
            original: bytes,
            backed: true,
            history_offset: 0,
            length: size,
            offset: 0,
            piece_table: pieces,
            layouts: Ghost(ls),
            texts: Ghost(ts),
        };
        proof {
            assert(r.layout() == l);
            if size > 0 {
                assert(span_valid(l[0], orig, app));
                assert(r.piece_table@[0].logical_offset == start_of(l, 0));
            }
            assert(all_valid(l, orig, app));
            assert(r.text() == orig);
            assert(r.wf_table());
            assert(r.state_ok(0));
        }
        r
    }

    /// The length of the document in bytes.
    pub fn len(&self) -> (r: u64)
        requires
            self.wf(),
        ensures
            r == self.text().len(),
            r == total(self.layout()),
    {
        proof {
            lemma_concat_len(self.layout(), self.original@, self.append_file@);
        }
        self.length
    }

    /// Whether the document refers to no file; an empty file still counts as one.
    pub fn is_empty(&self) -> (r: bool)
        ensures
            r == !self.has_file(),
    {
        !self.backed
    }

    /// The pieces, in document order.
    pub fn pieces(&self) -> (r: &Vec<Piece>)
        requires
            self.wf(),
        ensures
            layout_of(r@) == self.layout(),
            forall|i: int| 0 <= i < r@.len() ==> (#[trigger] r@[i]).logical_offset == start_of(self.layout(), i),
            forall|i: int| 0 <= i < r@.len() ==> (#[trigger] r@[i]).length > 0,
            total(self.layout()) == self.text().len(),
    {
        proof {
            self.lemma_history();
            assert forall|i: int| 0 <= i < self.piece_table@.len() implies (#[trigger] self.piece_table@[i]).length > 0 by {
                assert(self.layout()[i] == span_of(self.piece_table@[i]));
            }
        }
        &self.piece_table
    }

    /// Every recorded edit, oldest first, undone ones included.
    pub fn actions(&self) -> (r: &Vec<Action>)
        requires
            self.wf(),
        ensures
            r@ == self.history(),
            r@.len() == self.applied() + self.undone(),
    {
        &self.actions
    }

    /// Reads up to `num_bytes` bytes from the read offset, without moving it.
    /// The read stops at the end of the document, and then drops bytes from
    /// its end until what is left is valid UTF-8.
    pub fn read(&self, num_bytes: u64) -> (r: String)
        requires
            self.wf(),
        ensures
            r@ == read_result(self.text(), self.cursor(), num_bytes),
    {
        proof {
            lemma_concat_len(self.layout(), self.original@, self.append_file@);
        }
        let start = if self.offset <= self.length { self.offset } else { self.length };
        let n = if num_bytes <= self.length - start { num_bytes } else { self.length - start };
        let bytes = self.bytes_at(start, n);
        decode_prefix(&bytes)
    }

    /// Moves the read offset to `offset`, then reads as `read` does.
    pub fn read_at(&mut self, offset: u64, num_bytes: u64) -> (r: String)
        requires
            old(self).wf(),
        ensures
            final(self).wf(),
            same_document(*old(self), *final(self)),
            final(self).cursor() == offset,
            r@ == read_result(final(self).text(), offset, num_bytes),
    {
        let ghost prev = *self;
        self.offset = offset;
        proof {
            PieceFile::lemma_move_cursor(prev, *self);
        }
        self.read(num_bytes)
    }

    /// Moves the read offset and returns it. A target below zero, or beyond
    /// what a `u64` holds, is a caller's error.
    pub fn seek(&mut self, pos: SeekFrom) -> (r: u64)
        requires
            old(self).wf(),
            seek_target(pos, old(self).cursor(), old(self).text().len()) is Some,
        ensures
            final(self).wf(),
            r == seek_target(pos, old(self).cursor(), old(self).text().len())->0,
            same_document(*old(self), *final(self)),
            final(self).cursor() == r,
    {
        proof {
            lemma_concat_len(self.layout(), self.original@, self.append_file@);
        }
        let t: i128 = match pos {
            SeekFrom::Start(v) => v as i128,
            SeekFrom::End(d) => self.length as i128 + d as i128,
            SeekFrom::Current(d) => self.offset as i128 + d as i128,
        };
        let ghost prev = *self;
        self.offset = t as u64;
        proof {
            PieceFile::lemma_move_cursor(prev, *self);
        }
        self.offset
    }

    /// Inserts `text` at byte `offset` of the document. An empty text changes nothing.
    #[verifier::spinoff_prover]
    pub fn insert(&mut self, text: &str, offset: u64)
        requires
            old(self).wf(),
            offset <= old(self).text().len(),
            old(self).text().len() + text.spec_bytes().len() <= u64::MAX,
            old(self).append_len() + text.spec_bytes().len() <= u64::MAX,
        ensures
            final(self).wf(),
            inserted(*old(self), *final(self), text.spec_bytes(), offset),
    {
        let bytes = text.as_bytes();
        let n = bytes.len();
        let ghost prev = *self;
        let ghost app0 = self.append_file@;
        proof {
            lemma_concat_len(self.layout(), self.original@, self.append_file@);
        }
        let fo = self.append_file.len() as u64;
        if n == 0 {
            let mut pieces: Vec<Piece> = Vec::new();
            pieces.push(Piece { file: SourceFile::Append, file_offset: fo, length: 0, logical_offset: offset });
            let a = Action {
                op: Operation::Insert,
                offset,
                pieces,
                length: 0,
                merge_down: false,
                merge_up: false,
                index: 0,
                removed: Vec::new(),
                added: 0,
            };
            proof {
                let l = self.layout();
                assert(l.take(0) + layout_of(a.removed@) + l.skip(0) =~= l);
                let t = self.text();
                assert(t.take(offset as int) + self.append_file@.subrange(fo as int, fo as int)
                    + t.skip(offset as int) =~= t);
                assert(bytes@ =~= Seq::<u8>::empty());
                assert(self.append_file@ =~= app0 + bytes@);
                assert(self.append_file@.take(app0.len() as int) =~= app0);
                assert(self.after_edit(&prev, a));
            }
            self.record(a, Ghost(prev));
            proof {
                assert(prev.text().take(offset as int) + bytes@ + prev.text().skip(offset as int)
                    =~= prev.text());
            }
            return;
        }
        append_bytes(&mut self.append_file, bytes);
        let p = Piece { file: SourceFile::Append, file_offset: fo, length: n as u64, logical_offset: offset };
        proof {
            lemma_concat_extend(prev.layout(), self.original@, app0, bytes@);
            assert(span_bytes(span_of(p), self.original@, self.append_file@) =~= bytes@);
        }
        let ghost mid = *self;
        let a = self.insert_piece(p, offset);
        proof {
            assert(self.append_file@.subrange(fo as int, fo + n) =~= bytes@);
            assert(self.append_file@.take(app0.len() as int) =~= app0);
            assert(mid.text() == prev.text());
            assert(replays(a, prev.text(), self.text(), self.append_file@));
            assert(self.after_edit(&prev, a));
        }
        self.record(a, Ghost(prev));
        proof {
            assert(self.history().last() == a);
            assert(mid.layout() == prev.layout());
            assert(self.append_file@ =~= app0 + bytes@);
        }
    }

    /// Deletes the bytes `[offset, offset + num_bytes)`. Deleting no bytes changes nothing.
    #[verifier::spinoff_prover]
    pub fn delete(&mut self, offset: u64, num_bytes: u64)
        requires
            old(self).wf(),
            offset + num_bytes <= old(self).text().len(),
        ensures
            final(self).wf(),
            deleted(*old(self), *final(self), offset, num_bytes),
    {
        if num_bytes == 0 {
            return;
        }
        let ghost prev = *self;
        proof {
            lemma_concat_len(self.layout(), self.original@, self.append_file@);
        }
        let a = self.delete_range(offset, num_bytes);
        let ghost mid = *self;
        proof {
            assert(self.append_file@.take(prev.append_file@.len() as int) =~= prev.append_file@);
            assert(replays(a, prev.text(), self.text(), self.append_file@));
            assert(self.after_edit(&prev, a));
        }
        self.record(a, Ghost(prev));
        proof {
            assert(self.history().last() == a);
            assert(self.layout() == mid.layout());
        }
    }

    /// Undoes the latest applied edit: the pieces are put back as they stood
    /// before it. Does nothing when no edit is applied.
    #[verifier::spinoff_prover]
    #[verifier::rlimit(100)]
    pub fn undo(&mut self)
        requires
            old(self).wf(),
        ensures
            final(self).wf(),
            undid(*old(self), *final(self)),
    {
        if self.history_offset == self.actions.len() {
            return;
        }
        let c = self.actions.len() - self.history_offset;
        let ghost l = self.layout();
        let ghost orig = self.original@;
        let ghost app = self.append_file@;
        let ghost before = self.layouts@[c - 1];
        proof {
            assert(self.step_ok(c - 1));
            assert(self.state_ok(c - 1));
            assert(self.texts@[c - 1].len() <= u64::MAX);
            lemma_concat_len(before, orig, app);
        }
        let (np, tot) = rebuild(
            &self.piece_table,
            self.actions[c - 1].index,
            self.actions[c - 1].added,
            &self.actions[c - 1].removed,
        );
        self.piece_table = np;
        self.length = tot;
        self.history_offset = self.history_offset + 1;
        self.layouts = Ghost(self.layouts@.drop_last());
        proof {
            assert(self.layout() == before);
            assert forall|j: int| 0 <= j <= c - 1 implies #[trigger] self.state_ok(j) by {
                assert(old(self).state_ok(j));
            }
            assert forall|j: int| 0 <= j < c - 1 implies #[trigger] self.step_ok(j) by {
                assert(old(self).step_ok(j));
            }
            assert forall|j: int| 0 <= j < self.actions@.len() implies #[trigger] self.replay_ok(
                j,
            ) by {
                assert(old(self).replay_ok(j));
            }
        }
    }

    /// Makes the latest undone edit again, from its recorded offset and length
    /// (and, for an insert, the bytes it put in the append log). Does nothing
    /// when no edit is undone.
    #[verifier::spinoff_prover]
    #[verifier::rlimit(100)]
    pub fn redo(&mut self)
        requires
            old(self).wf(),
        ensures
            final(self).wf(),
            redid(*old(self), *final(self)),
    {
        if self.history_offset == 0 {
            return;
        }
        let c = self.actions.len() - self.history_offset;
        let ghost prev = *self;
        let ghost orig = self.original@;
        let ghost app = self.append_file@;
        proof {
            assert(self.replay_ok(c as int));
            assert(self.texts@[c + 1].len() <= u64::MAX);
            lemma_concat_len(self.layout(), orig, app);
        }
        let op = self.actions[c].op;
        let off = self.actions[c].offset;
        let len = self.actions[c].length;
        if op == Operation::Insert && len == 0 {
            self.history_offset = self.history_offset - 1;
            self.layouts = Ghost(self.layouts@.push(self.layout()));
            proof {
                let l = self.layout();
                let t = self.text();
                let q = prev.actions@[c as int].pieces@[0];
                assert(t.take(off as int) + app.subrange(q.file_offset as int, q.file_offset + q.length)
                    + t.skip(off as int) =~= t);
                assert(l.take(0) + layout_of(prev.actions@[c as int].removed@) + l.skip(0) =~= l);
                assert forall|j: int| 0 <= j <= c + 1 implies #[trigger] self.state_ok(j) by {
                    if j <= c {
                        assert(prev.state_ok(j));
                    }
                }
                assert forall|j: int| 0 <= j < c + 1 implies #[trigger] self.step_ok(j) by {
                    if j < c {
                        assert(prev.step_ok(j));
                    }
                }
                assert forall|j: int| 0 <= j < self.actions@.len() implies #[trigger] self.replay_ok(
                    j,
                ) by {
                    assert(prev.replay_ok(j));
                }
            }
            return;
        }
        let a = if op == Operation::Insert {
            let p = self.actions[c].pieces[0];
            proof {
                assert(span_bytes(span_of(p), orig, app) == app.subrange(
                    p.file_offset as int,
                    p.file_offset + p.length,
                ));
            }
            self.insert_piece(p, off)
        } else {
            self.delete_range(off, len)
        };
        self.actions.set(c, a);
        self.history_offset = self.history_offset - 1;
        self.layouts = Ghost(self.layouts@.push(self.layout()));
        proof {
            assert forall|j: int| 0 <= j <= c + 1 implies #[trigger] self.state_ok(j) by {
                if j <= c {
                    assert(prev.state_ok(j));
                }
            }
            assert forall|j: int| 0 <= j < c + 1 implies #[trigger] self.step_ok(j) by {
                if j < c {
                    assert(prev.step_ok(j));
                }
            }
            assert forall|j: int| 0 <= j < self.actions@.len() implies #[trigger] self.replay_ok(
                j,
            ) by {
                assert(prev.replay_ok(j));
            }
        }
    }
}

/// `a` and `b` hold the same document, with the same history; only their
/// read offsets may differ.
pub open spec fn same_document(a: PieceFile, b: PieceFile) -> bool {
    &&& a.text() == b.text()
    &&& a.layout() == b.layout()
    &&& a.has_file() == b.has_file()
    &&& a.append_len() == b.append_len()
    &&& a.applied() == b.applied()
    &&& a.undone() == b.undone()
    &&& a.past_layouts() == b.past_layouts()
    &&& a.past_texts() == b.past_texts()
}

/// `new` is `old` after one new edit that left the content `t`: the edit is
/// applied and recorded after the applied ones, every undone edit is gone, and
/// `old`'s state stays reachable by undo.
pub open spec fn edited(old: PieceFile, new: PieceFile, t: Seq<u8>) -> bool {
    &&& new.text() == t
    &&& new.applied() == old.applied() + 1
    &&& new.undone() == 0
    &&& new.history().len() == old.applied() + 1
    &&& new.history().take(old.applied() as int) == old.history().take(old.applied() as int)
    &&& new.past_layouts() == old.past_layouts().push(new.layout())
    &&& new.past_texts() == old.past_texts().take(old.applied() + 1int).push(t)
    &&& new.cursor() == old.cursor()
    &&& new.has_file() == old.has_file()
}

/// Byte `off` of the document falls in span `k` of the layout `l`.
pub open spec fn holds(l: Seq<Span>, k: int, off: int) -> bool {
    &&& 0 <= k < l.len()
    &&& start_of(l, k) <= off < start_of(l, k) + l[k].2
}

/// The record of `len` bytes that start `from` bytes into the span `s`, with
/// `at` as its logical offset.
pub open spec fn part(s: Span, from: int, len: int, at: u64) -> Piece {
    Piece { file: s.0, file_offset: (s.1 + from) as u64, length: len as u64, logical_offset: at }
}

/// The fragments that deleting `[off, off + n)` removes from the spans `s` to
/// `e` of `l`, the last one in the document first, each with `off` as its
/// logical offset.
pub open spec fn fragments(l: Seq<Span>, s: int, e: int, off: u64, n: u64) -> Seq<Piece> {
    let lower = off - start_of(l, s);
    let head = off + n - start_of(l, e);
    if s == e {
        seq![part(l[s], lower, n as int, off)]
    } else {
        seq![part(l[e], 0, head, off)] + Seq::new(
            (e - s - 1) as nat,
            |j: int| part(l[e - 1 - j], 0, l[e - 1 - j].2 as int, off),
        ) + seq![part(l[s], lower, l[s].2 - lower, off)]
    }
}

/// `new` is `old` after inserting the bytes `b` at offset `off`. The bytes go
/// to the end of the append log; a new piece for them goes first, last, or in
/// place of the piece that holds `off`, between what is left of it on either
/// side. An empty text is recorded too, and changes no piece.
pub open spec fn inserted(old: PieceFile, new: PieceFile, b: Seq<u8>, off: u64) -> bool {
    let l = old.layout();
    let added = (SourceFile::Append, old.append_len() as u64, b.len() as u64);
    let a = new.history().last();
    let inside = b.len() > 0 && 0 < off < old.text().len();
    &&& edited(old, new, old.text().take(off as int) + b + old.text().skip(off as int))
    &&& new.append_log() == old.append_log() + b
    &&& a.op == Operation::Insert
    &&& a.offset == off
    &&& a.length == b.len()
    &&& a.pieces@ == seq![
        Piece {
            file: SourceFile::Append,
            file_offset: old.append_len() as u64,
            length: b.len() as u64,
            logical_offset: off,
        },
    ]
    &&& a.merge_up == inside
    &&& b.len() == 0 ==> new.layout() == l && !a.merge_down
    &&& b.len() > 0 && off == 0 ==> new.layout() == seq![added] + l && !a.merge_down
    &&& b.len() > 0 && off == old.text().len() ==> new.layout() == l.push(added) && !a.merge_down
    &&& inside ==> exists|k: int|
        #![trigger holds(l, k, off as int)]
        holds(l, k, off as int) && a.merge_down == (off > start_of(l, k)) && new.layout()
            == l.take(k) + split_around(l[k], off - start_of(l, k), added) + l.skip(k + 1)
}

/// `new` is `old` after deleting the bytes `[off, off + n)`: the pieces `s` to
/// `e` that hold them give way to what is left of the first before `off` and
/// of the last after `off + n`. Deleting no bytes changes nothing.
pub open spec fn deleted(old: PieceFile, new: PieceFile, off: u64, n: u64) -> bool {
    let l = old.layout();
    let a = new.history().last();
    if n == 0 {
        new == old
    } else {
        &&& edited(old, new, old.text().take(off as int) + old.text().skip(off + n))
        &&& new.append_log() == old.append_log()
        &&& a.op == Operation::Delete
        &&& a.offset == off
        &&& a.length == n
        &&& exists|s: int, e: int|
            #![trigger holds(l, s, off as int), holds(l, e, off + n - 1)]
            s <= e && holds(l, s, off as int) && holds(l, e, off + n - 1) && new.layout() == l.take(s)
                + cut_between(l[s], off - start_of(l, s), l[e], off + n - start_of(l, e))
                + l.skip(e + 1) && a.pieces@ == fragments(l, s, e, off, n) && a.merge_down == (off
                > start_of(l, s)) && a.merge_up == (off + n < start_of(l, e) + l[e].2)
    }
}

/// `new` is `old` after undoing its latest applied edit, if it has one. The
/// recorded edits stay as they are.
pub open spec fn undid(old: PieceFile, new: PieceFile) -> bool {
    if old.applied() == 0 {
        new == old
    } else {
        &&& new.layout() == old.past_layouts()[old.applied() - 1]
        &&& new.text() == old.past_texts()[old.applied() - 1]
        &&& new.applied() == old.applied() - 1
        &&& new.undone() == old.undone() + 1
        &&& new.history() == old.history()
        &&& new.past_layouts() == old.past_layouts().drop_last()
        &&& new.past_texts() == old.past_texts()
        &&& new.cursor() == old.cursor()
        &&& new.has_file() == old.has_file()
        &&& new.append_log() == old.append_log()
    }
}

/// `new` is `old` after redoing its latest undone edit, if it has one. That
/// edit is made again from its kind, offset and length, and its record is
/// replaced by the one the new edit makes; the other records stay.
pub open spec fn redid(old: PieceFile, new: PieceFile) -> bool {
    let c = old.applied() as int;
    if old.undone() == 0 {
        new == old
    } else {
        &&& new.text() == old.past_texts()[c + 1]
        &&& new.applied() == old.applied() + 1
        &&& new.undone() == old.undone() - 1
        &&& new.history().len() == old.history().len()
        &&& forall|j: int|
            0 <= j < old.history().len() && j != c ==> #[trigger] new.history()[j]
                == old.history()[j]
        &&& new.history()[c].op == old.history()[c].op
        &&& new.history()[c].offset == old.history()[c].offset
        &&& new.history()[c].length == old.history()[c].length
        &&& new.past_layouts() == old.past_layouts().push(new.layout())
        &&& new.past_texts() == old.past_texts()
        &&& new.cursor() == old.cursor()
        &&& new.has_file() == old.has_file()
        &&& new.append_log() == old.append_log()
    }
}

/// Reversing the splice that `a` records turns the layout `after` back into `before`.
pub closed spec fn restores(a: Action, before: Seq<Span>, after: Seq<Span>) -> bool {
    &&& a.index + a.added <= after.len()
    &&& before == after.take(a.index as int) + layout_of(a.removed@) + after.skip(
        a.index + a.added,
    )
}

/// Making the edit `a` again on content `t0` gives `t1`, with the inserted
/// bytes read from the append log `app`.
pub closed spec fn replays(a: Action, t0: Seq<u8>, t1: Seq<u8>, app: Seq<u8>) -> bool {
    match a.op {
        Operation::Insert => {
            let p = a.pieces@[0];
            &&& a.pieces@.len() >= 1
            &&& p.file == SourceFile::Append
            &&& p.length == a.length
            &&& p.file_offset + p.length <= app.len()
            &&& p.file_offset + p.length <= u64::MAX
            &&& a.length == 0 ==> a.index == 0 && a.added == 0 && a.removed@.len() == 0
            &&& a.offset <= t0.len()
            &&& t1 == t0.take(a.offset as int) + app.subrange(
                p.file_offset as int,
                p.file_offset + p.length,
            ) + t0.skip(a.offset as int)
        },
        Operation::Delete => {
            &&& a.length > 0
            &&& a.offset + a.length <= t0.len()
            &&& t1 == t0.take(a.offset as int) + t0.skip(a.offset + a.length)
        },
    }
}

} // verus!
