//! Pieces: runs of bytes in one of the two backing stores, and the
//! mathematical model of a sequence of them.
use vstd::prelude::*;

verus! {

/// The store a piece refers to.
#[derive(Debug, Clone, Copy, PartialEq, Eq, Structural)]
pub enum SourceFile {
    /// The original file the document was opened from.
    Original,
    /// The in-memory append log that holds every inserted text.
    Append,
}

/// A run of bytes of the document, taken from one store.
#[derive(Debug, Clone, Copy, PartialEq, Eq, Structural)]
pub struct Piece {
    /// The store the bytes live in.
    pub file: SourceFile,
    /// Offset of the run inside its store.
    pub file_offset: u64,
    /// Length of the run in bytes.
    pub length: u64,
    /// Offset of the run inside the document; derived from the pieces before it.
    pub logical_offset: u64,
}

impl Piece {
    /// Converts an offset in the document into the offset of the same byte in
    /// the piece's store.
    pub fn logical_to_file(&self, offset: u64) -> (r: u64)
        requires
            self.logical_offset <= offset,
            offset - self.logical_offset + self.file_offset <= u64::MAX,
        ensures
            r == offset - self.logical_offset + self.file_offset,
    {
        (offset - self.logical_offset) + self.file_offset
    }
}

/// What a piece says about the document, without its derived logical offset:
/// its store, its offset in that store and its length.
pub type Span = (SourceFile, u64, u64);

pub open spec fn span_of(p: Piece) -> Span {
    (p.file, p.file_offset, p.length)
}

pub open spec fn layout_of(ps: Seq<Piece>) -> Seq<Span> {
    ps.map_values(|p: Piece| span_of(p))
}

pub proof fn lemma_layout_push(ps: Seq<Piece>, p: Piece)
    ensures
        layout_of(ps.push(p)) == layout_of(ps).push(span_of(p)),
{
    assert(layout_of(ps.push(p)) =~= layout_of(ps).push(span_of(p)));
}

pub open spec fn store(orig: Seq<u8>, app: Seq<u8>, f: SourceFile) -> Seq<u8> {
    match f {
        SourceFile::Original => orig,
        SourceFile::Append => app,
    }
}

/// A span is non-empty and lies inside its store, at offsets a `u64` holds.
pub open spec fn span_valid(s: Span, orig: Seq<u8>, app: Seq<u8>) -> bool {
    &&& s.2 > 0
    &&& s.1 + s.2 <= store(orig, app, s.0).len()
    &&& s.1 + s.2 <= u64::MAX
}

pub open spec fn span_bytes(s: Span, orig: Seq<u8>, app: Seq<u8>) -> Seq<u8> {
    store(orig, app, s.0).subrange(s.1 as int, s.1 + s.2)
}

pub open spec fn all_valid(l: Seq<Span>, orig: Seq<u8>, app: Seq<u8>) -> bool {
    forall|i: int| 0 <= i < l.len() ==> #[trigger] span_valid(l[i], orig, app)
}

/// Sum of the lengths of the spans.
pub open spec fn total(l: Seq<Span>) -> nat
    decreases l.len(),
{
    if l.len() == 0 {
        0
    } else {
        total(l.drop_last()) + (l.last().2 as nat)
    }
}

/// The bytes that the spans stand for, in order.
pub open spec fn concat(l: Seq<Span>, orig: Seq<u8>, app: Seq<u8>) -> Seq<u8>
    decreases l.len(),
{
    if l.len() == 0 {
        seq![]
    } else {
        concat(l.drop_last(), orig, app) + span_bytes(l.last(), orig, app)
    }
}

/// Offset in the document at which the span of index `i` starts.
pub open spec fn start_of(l: Seq<Span>, i: int) -> nat {
    total(l.take(i))
}

pub proof fn lemma_total_append(a: Seq<Span>, b: Seq<Span>)
    ensures
        total(a + b) == total(a) + total(b),
    decreases b.len(),
{
    if b.len() == 0 {
        assert(a + b =~= a);
    } else {
        assert((a + b).drop_last() =~= a + b.drop_last());
        lemma_total_append(a, b.drop_last());
    }
}

pub proof fn lemma_concat_append(a: Seq<Span>, b: Seq<Span>, orig: Seq<u8>, app: Seq<u8>)
    ensures
        concat(a + b, orig, app) == concat(a, orig, app) + concat(b, orig, app),
    decreases b.len(),
{
    if b.len() == 0 {
        assert(a + b =~= a);
        assert(concat(a, orig, app) + concat(b, orig, app) =~= concat(a, orig, app));
    } else {
        assert((a + b).drop_last() =~= a + b.drop_last());
        lemma_concat_append(a, b.drop_last(), orig, app);
        assert(concat(a + b, orig, app) =~= concat(a, orig, app) + concat(b, orig, app));
    }
}

pub proof fn lemma_concat_len(l: Seq<Span>, orig: Seq<u8>, app: Seq<u8>)
    requires
        all_valid(l, orig, app),
    ensures
        concat(l, orig, app).len() == total(l),
    decreases l.len(),
{
    if l.len() > 0 {
        assert(span_valid(l[l.len() - 1], orig, app));
        lemma_concat_len(l.drop_last(), orig, app);
    }
}

pub proof fn lemma_total_take_step(l: Seq<Span>, k: int)
    requires
        0 <= k < l.len(),
    ensures
        total(l.take(k + 1)) == total(l.take(k)) + l[k].2,
{
    assert(l.take(k + 1).drop_last() =~= l.take(k));
}

pub proof fn lemma_total_split(l: Seq<Span>, k: int)
    requires
        0 <= k <= l.len(),
    ensures
        total(l) == total(l.take(k)) + total(l.skip(k)),
        total(l.take(k)) <= total(l),
{
    assert(l =~= l.take(k) + l.skip(k));
    lemma_total_append(l.take(k), l.skip(k));
}

/// Starts of spans grow with their index.
pub proof fn lemma_start_mono(l: Seq<Span>, i: int, j: int)
    requires
        0 <= i <= j <= l.len(),
    ensures
        start_of(l, i) <= start_of(l, j),
{
    lemma_total_split(l.take(j), i);
    assert(l.take(j).take(i) =~= l.take(i));
}

pub proof fn lemma_valid_sub(l: Seq<Span>, a: int, b: int, orig: Seq<u8>, app: Seq<u8>)
    requires
        all_valid(l, orig, app),
        0 <= a <= b <= l.len(),
    ensures
        all_valid(l.subrange(a, b), orig, app),
{
    assert forall|i: int| 0 <= i < b - a implies #[trigger] span_valid(
        l.subrange(a, b)[i],
        orig,
        app,
    ) by {
        assert(span_valid(l[a + i], orig, app));
    }
}

pub proof fn lemma_valid_append(a: Seq<Span>, b: Seq<Span>, orig: Seq<u8>, app: Seq<u8>)
    requires
        all_valid(a, orig, app),
        all_valid(b, orig, app),
    ensures
        all_valid(a + b, orig, app),
{
    assert forall|i: int| 0 <= i < (a + b).len() implies #[trigger] span_valid(
        (a + b)[i],
        orig,
        app,
    ) by {
        if i < a.len() {
            assert(span_valid(a[i], orig, app));
        } else {
            assert(span_valid(b[i - a.len()], orig, app));
        }
    }
}

/// The bytes of span `i` stand in the document from its start on.
pub proof fn lemma_span_in_concat(l: Seq<Span>, i: int, orig: Seq<u8>, app: Seq<u8>)
    requires
        all_valid(l, orig, app),
        0 <= i < l.len(),
    ensures
        start_of(l, i) + l[i].2 <= total(l),
        concat(l, orig, app).len() == total(l),
        concat(l, orig, app).subrange(start_of(l, i) as int, start_of(l, i) + l[i].2) == span_bytes(
            l[i],
            orig,
            app,
        ),
{
    let pre = l.take(i);
    let one = seq![l[i]];
    let post = l.skip(i + 1);
    assert(l =~= pre + one + post);
    lemma_concat_append(pre + one, post, orig, app);
    lemma_concat_append(pre, one, orig, app);
    lemma_total_append(pre + one, post);
    lemma_total_append(pre, one);
    assert(one.drop_last() =~= Seq::<Span>::empty());
    lemma_valid_sub(l, 0, i, orig, app);
    lemma_valid_sub(l, i + 1, l.len() as int, orig, app);
    assert(pre =~= l.subrange(0, i));
    assert(post =~= l.subrange(i + 1, l.len() as int));
    lemma_concat_len(pre, orig, app);
    lemma_concat_len(post, orig, app);
    lemma_concat_len(l, orig, app);
    assert(span_valid(l[i], orig, app));
    assert(concat(one.drop_last(), orig, app) =~= Seq::<u8>::empty());
    assert(concat(one, orig, app) =~= span_bytes(l[i], orig, app));
    assert(concat(l, orig, app).subrange(start_of(l, i) as int, start_of(l, i) + l[i].2)
        =~= span_bytes(l[i], orig, app));
}

/// Byte `pos` of the document is read from the store of the span that holds it.
pub proof fn lemma_byte_at(l: Seq<Span>, i: int, pos: int, orig: Seq<u8>, app: Seq<u8>)
    requires
        all_valid(l, orig, app),
        0 <= i < l.len(),
        start_of(l, i) <= pos < start_of(l, i) + l[i].2,
    ensures
        concat(l, orig, app).len() == total(l),
        pos < total(l),
        l[i].1 + (pos - start_of(l, i)) < store(orig, app, l[i].0).len(),
        concat(l, orig, app)[pos] == store(orig, app, l[i].0)[l[i].1 + (pos - start_of(l, i))],
{
    lemma_span_in_concat(l, i, orig, app);
    assert(span_valid(l[i], orig, app));
    let s = start_of(l, i) as int;
    assert(concat(l, orig, app).subrange(s, s + l[i].2)[pos - s] == concat(l, orig, app)[pos]);
}

pub proof fn lemma_concat_one(x: Span, orig: Seq<u8>, app: Seq<u8>)
    ensures
        concat(seq![x], orig, app) == span_bytes(x, orig, app),
{
    assert(seq![x].drop_last() =~= Seq::<Span>::empty());
    assert(concat(seq![x].drop_last(), orig, app) =~= Seq::<u8>::empty());
    assert(concat(seq![x], orig, app) =~= span_bytes(x, orig, app));
}

/// The part `[a, b)` of span `i` is a valid span, and stands for the bytes
/// `[start + a, start + b)` of the document.
pub proof fn lemma_span_part(l: Seq<Span>, i: int, a: int, b: int, orig: Seq<u8>, app: Seq<u8>)
    requires
        all_valid(l, orig, app),
        0 <= i < l.len(),
        0 <= a < b <= l[i].2,
    ensures
        span_valid((l[i].0, (l[i].1 + a) as u64, (b - a) as u64), orig, app),
        start_of(l, i) + l[i].2 <= total(l),
        concat(l, orig, app).len() == total(l),
        span_bytes((l[i].0, (l[i].1 + a) as u64, (b - a) as u64), orig, app) == concat(
            l,
            orig,
            app,
        ).subrange(start_of(l, i) + a, start_of(l, i) + b),
{
    lemma_span_in_concat(l, i, orig, app);
    assert(span_valid(l[i], orig, app));
    let st = start_of(l, i) as int;
    let whole = concat(l, orig, app).subrange(st, st + l[i].2);
    assert(span_bytes((l[i].0, (l[i].1 + a) as u64, (b - a) as u64), orig, app) =~= whole.subrange(
        a,
        b,
    ));
    assert(whole.subrange(a, b) =~= concat(l, orig, app).subrange(st + a, st + b));
}

/// The spans that replace span `i` when `x` is put in it after its first
/// `lower` bytes.
pub open spec fn split_around(q: Span, lower: int, x: Span) -> Seq<Span> {
    let hi = (q.0, (q.1 + lower) as u64, (q.2 - lower) as u64);
    if lower > 0 {
        seq![(q.0, q.1, lower as u64), x, hi]
    } else {
        seq![x, hi]
    }
}

/// Putting `x` inside span `i` after its first `lower` bytes puts its bytes at
/// that offset of the document.
pub proof fn lemma_split_around(
    l: Seq<Span>,
    i: int,
    lower: int,
    x: Span,
    orig: Seq<u8>,
    app: Seq<u8>,
)
    requires
        all_valid(l, orig, app),
        0 <= i < l.len(),
        0 <= lower < l[i].2,
        span_valid(x, orig, app),
    ensures
        all_valid(split_around(l[i], lower, x), orig, app),
        start_of(l, i + 1) == start_of(l, i) + l[i].2,
        ({
            let t = concat(l, orig, app);
            let st = start_of(l, i) as int;
            t.take(st) + concat(split_around(l[i], lower, x), orig, app) + t.skip(st + l[i].2)
                == t.take(st + lower) + span_bytes(x, orig, app) + t.skip(st + lower)
        }),
{
    let q = l[i];
    let t = concat(l, orig, app);
    let st = start_of(l, i) as int;
    let hi = (q.0, (q.1 + lower) as u64, (q.2 - lower) as u64);
    let w = split_around(q, lower, x);
    lemma_total_take_step(l, i);
    lemma_span_part(l, i, lower, q.2 as int, orig, app);
    lemma_concat_one(x, orig, app);
    lemma_concat_one(hi, orig, app);
    if lower > 0 {
        let lo = (q.0, q.1, lower as u64);
        lemma_span_part(l, i, 0, lower, orig, app);
        assert(lo == (q.0, (q.1 + 0) as u64, (lower - 0) as u64));
        lemma_concat_one(lo, orig, app);
        assert(w =~= seq![lo] + seq![x] + seq![hi]);
        lemma_concat_append(seq![lo] + seq![x], seq![hi], orig, app);
        lemma_concat_append(seq![lo], seq![x], orig, app);
        assert forall|k: int| 0 <= k < w.len() implies #[trigger] span_valid(w[k], orig, app) by {}
    } else {
        assert(w =~= seq![x] + seq![hi]);
        lemma_concat_append(seq![x], seq![hi], orig, app);
        assert forall|k: int| 0 <= k < w.len() implies #[trigger] span_valid(w[k], orig, app) by {}
    }
    assert(concat(w, orig, app) =~= t.subrange(st, st + lower) + span_bytes(x, orig, app)
        + t.subrange(st + lower, st + q.2));
    assert(t.take(st) + concat(w, orig, app) + t.skip(st + q.2) =~= t.take(st + lower)
        + span_bytes(x, orig, app) + t.skip(st + lower));
}

/// What is left of the spans `first` to `last` when the bytes from `lower`
/// into `first` up to `head` into `last` are cut out.
pub open spec fn cut_between(first: Span, lower: int, last: Span, head: int) -> Seq<Span> {
    let before: Seq<Span> = if lower > 0 {
        seq![(first.0, first.1, lower as u64)]
    } else {
        seq![]
    };
    let after: Seq<Span> = if head < last.2 {
        seq![(last.0, (last.1 + head) as u64, (last.2 - head) as u64)]
    } else {
        seq![]
    };
    before + after
}

/// Cutting from `lower` bytes into span `s` to `head` bytes into span `e`
/// removes exactly those bytes of the document.
pub proof fn lemma_cut_between(
    l: Seq<Span>,
    s: int,
    e: int,
    lower: int,
    head: int,
    orig: Seq<u8>,
    app: Seq<u8>,
)
    requires
        all_valid(l, orig, app),
        0 <= s <= e < l.len(),
        0 <= lower < l[s].2,
        0 < head <= l[e].2,
        start_of(l, s) + lower <= start_of(l, e) + head,
    ensures
        all_valid(cut_between(l[s], lower, l[e], head), orig, app),
        start_of(l, e + 1) == start_of(l, e) + l[e].2,
        ({
            let t = concat(l, orig, app);
            t.take(start_of(l, s) as int) + concat(cut_between(l[s], lower, l[e], head), orig, app)
                + t.skip(start_of(l, e + 1) as int) == t.take(start_of(l, s) + lower) + t.skip(
                start_of(l, e) + head,
            )
        }),
{
    let t = concat(l, orig, app);
    let ss = start_of(l, s) as int;
    let se = start_of(l, e) as int;
    let first = l[s];
    let last = l[e];
    lemma_total_take_step(l, e);
    lemma_total_split(l, e + 1);
    lemma_concat_len(l, orig, app);
    let before: Seq<Span> = if lower > 0 {
        seq![(first.0, first.1, lower as u64)]
    } else {
        seq![]
    };
    let after: Seq<Span> = if head < last.2 {
        seq![(last.0, (last.1 + head) as u64, (last.2 - head) as u64)]
    } else {
        seq![]
    };
    let w = cut_between(first, lower, last, head);
    assert(w == before + after);
    lemma_concat_append(before, after, orig, app);
    if lower > 0 {
        lemma_span_part(l, s, 0, lower, orig, app);
        assert(before[0] == (first.0, (first.1 + 0) as u64, (lower - 0) as u64));
        lemma_concat_one(before[0], orig, app);
        assert(before =~= seq![before[0]]);
        assert(concat(before, orig, app) =~= t.subrange(ss, ss + lower));
    } else {
        assert(concat(before, orig, app) =~= t.subrange(ss, ss + lower));
    }
    if head < last.2 {
        lemma_span_part(l, e, head, last.2 as int, orig, app);
        lemma_concat_one(after[0], orig, app);
        assert(after =~= seq![after[0]]);
        assert(concat(after, orig, app) =~= t.subrange(se + head, se + last.2));
    } else {
        assert(concat(after, orig, app) =~= t.subrange(se + head, se + last.2));
    }
    lemma_span_in_concat(l, e, orig, app);
    assert forall|k: int| 0 <= k < w.len() implies #[trigger] span_valid(w[k], orig, app) by {
        if lower > 0 && k == 0 {
            lemma_span_part(l, s, 0, lower, orig, app);
        } else {
            lemma_span_part(l, e, head, last.2 as int, orig, app);
        }
    }
    assert(t.take(ss) + concat(w, orig, app) + t.skip(se + last.2) =~= t.take(ss + lower) + t.skip(
        se + head,
    ));
}

/// Growing the append log leaves valid spans, and what they stand for, unchanged.
pub proof fn lemma_concat_extend(l: Seq<Span>, orig: Seq<u8>, app: Seq<u8>, more: Seq<u8>)
    requires
        all_valid(l, orig, app),
    ensures
        all_valid(l, orig, app + more),
        concat(l, orig, app + more) == concat(l, orig, app),
    decreases l.len(),
{
    assert forall|i: int| 0 <= i < l.len() implies #[trigger] span_valid(l[i], orig, app + more) by {
        assert(span_valid(l[i], orig, app));
    }
    if l.len() > 0 {
        let s = l.last();
        assert(span_valid(l[l.len() - 1], orig, app));
        lemma_valid_sub(l, 0, l.len() - 1, orig, app);
        assert(l.drop_last() =~= l.subrange(0, l.len() - 1));
        lemma_concat_extend(l.drop_last(), orig, app, more);
        assert(span_bytes(s, orig, app + more) =~= span_bytes(s, orig, app));
    }
}

/// Replacing the spans `[i, i + k)` by `a` replaces the bytes they stood for.
pub proof fn lemma_splice(l: Seq<Span>, i: int, k: int, a: Seq<Span>, orig: Seq<u8>, app: Seq<u8>)
    requires
        all_valid(l, orig, app),
        all_valid(a, orig, app),
        0 <= i <= i + k <= l.len(),
    ensures
        start_of(l, i) <= start_of(l, i + k) <= total(l),
        all_valid(l.take(i) + a + l.skip(i + k), orig, app),
        concat(l.take(i) + a + l.skip(i + k), orig, app) == concat(l, orig, app).take(
            start_of(l, i) as int,
        ) + concat(a, orig, app) + concat(l, orig, app).skip(start_of(l, i + k) as int),
{
    let pre = l.take(i);
    let mid = l.subrange(i, i + k);
    let post = l.skip(i + k);
    assert(l =~= pre + mid + post);
    lemma_concat_append(pre + mid, post, orig, app);
    lemma_concat_append(pre, mid, orig, app);
    lemma_concat_append(pre + a, post, orig, app);
    lemma_concat_append(pre, a, orig, app);
    lemma_valid_sub(l, 0, i, orig, app);
    lemma_valid_sub(l, i, i + k, orig, app);
    assert(pre =~= l.subrange(0, i));
    lemma_concat_len(pre, orig, app);
    lemma_concat_len(mid, orig, app);
    lemma_total_append(pre, mid);
    assert(l.take(i + k) =~= pre + mid);
    lemma_start_mono(l, i, i + k);
    lemma_total_split(l, i + k);
    lemma_valid_sub(l, i + k, l.len() as int, orig, app);
    assert(post =~= l.subrange(i + k, l.len() as int));
    lemma_valid_append(pre, a, orig, app);
    lemma_valid_append(pre + a, post, orig, app);
    let c = concat(l, orig, app);
    assert(c.take(start_of(l, i) as int) =~= concat(pre, orig, app));
    assert(c.skip(start_of(l, i + k) as int) =~= concat(post, orig, app));
}

} // verus!
