//! Lines of a document: where each one starts, how long its content is and
//! how many bytes its line ending takes.
use vstd::prelude::*;

verus! {

/// One line of a document.
#[derive(Debug, Clone, Copy, PartialEq, Eq, Structural)]
pub struct Line {
    /// The line number, starting at 1.
    pub number: usize,
    /// Offset of the line's first byte in the document.
    pub offset: usize,
    /// Length of the line in bytes, without its line ending.
    pub content_length: usize,
    /// Bytes taken by the line ending: 0 at the end of the document, 1 for
    /// `\n`, 2 for `\r\n`.
    pub line_ending_length: usize,
}

impl Line {
    /// The line's offsets fit in a `usize`.
    pub open spec fn wf(&self) -> bool {
        self.offset + self.content_length + self.line_ending_length <= usize::MAX
    }

    /// Whether `offset` falls inside the line, its ending included.
    pub fn contains(&self, offset: usize) -> (r: bool)
        requires
            self.wf(),
        ensures
            r == (self.offset <= offset < self.offset + self.content_length
                + self.line_ending_length),
    {
        offset >= self.start() && offset < self.end()
    }

    /// Offset just past the line's content.
    pub fn content_end(&self) -> (r: usize)
        requires
            self.offset + self.content_length <= usize::MAX,
        ensures
            r == self.offset + self.content_length,
    {
        self.offset + self.content_length
    }

    /// Offset just past the line, its ending included.
    pub fn end(&self) -> (r: usize)
        requires
            self.wf(),
        ensures
            r == self.offset + self.content_length + self.line_ending_length,
    {
        self.offset + self.len()
    }

    /// Bytes taken by the line ending.
    pub fn end_size(&self) -> (r: usize)
        ensures
            r == self.line_ending_length,
    {
        self.line_ending_length
    }

    /// Length of the line in bytes, its ending included.
    pub fn len(&self) -> (r: usize)
        requires
            self.content_length + self.line_ending_length <= usize::MAX,
        ensures
            r == self.content_length + self.line_ending_length,
    {
        self.content_length + self.line_ending_length
    }

    /// The line number, starting at 1.
    pub fn number(&self) -> (r: usize)
        ensures
            r == self.number,
    {
        self.number
    }

    /// Offset of the line's first byte.
    pub fn start(&self) -> (r: usize)
        ensures
            r == self.offset,
    {
        self.offset
    }
}

/// Number of `\n` bytes in `s`.
pub open spec fn newlines(s: Seq<u8>) -> nat
    decreases s.len(),
{
    if s.len() == 0 {
        0
    } else {
        newlines(s.drop_last()) + if s.last() == 10u8 {
            1nat
        } else {
            0nat
        }
    }
}

/// Offset just past the line `l`, its ending included.
pub open spec fn line_end(l: Line) -> int {
    l.offset + l.content_length + l.line_ending_length
}

/// `l` is line `i` of `text`, one that a `\n` ends: it holds no `\n` before
/// its last byte, which is the `\n`, and its ending takes the `\r` before that
/// `\n` too, if there is one.
#[verifier::opaque]
pub open spec fn ended_line(text: Seq<u8>, l: Line, i: int) -> bool {
    let end = line_end(l);
    &&& l.wf()
    &&& l.number == i + 1
    &&& end <= text.len()
    &&& text[end - 1] == 10u8
    &&& l.line_ending_length == if end - 1 > l.offset && text[end - 2] == 13u8 {
        2int
    } else {
        1int
    }
    &&& forall|k: int| l.offset <= k < end - 1 ==> text[k] != 10u8
}

/// Each line of `r` starts where the one before it ends, the first at 0.
pub open spec fn contiguous(r: Seq<Line>) -> bool {
    &&& r.len() > 0 ==> r[0].offset == 0
    &&& forall|i: int| 0 < i < r.len() ==> (#[trigger] r[i]).offset == line_end(r[i - 1])
}

/// The lines of `text`: each `\n` ends one, and what follows the last `\n`
/// (maybe nothing) is the last line, with no ending.
pub open spec fn lines_ok(text: Seq<u8>, r: Seq<Line>) -> bool {
    let n = r.len() - 1;
    &&& r.len() == newlines(text) + 1
    &&& contiguous(r)
    &&& forall|i: int| 0 <= i < n ==> ended_line(text, #[trigger] r[i], i)
    &&& r[n].number == n + 1
    &&& r[n].offset + r[n].content_length == text.len()
    &&& r[n].line_ending_length == 0
    &&& forall|k: int| r[n].offset <= k < text.len() ==> text[k] != 10u8
}

/// Splits `text` into its lines. A text that does not end in a newline gets
/// no empty line after its last one.
#[verifier::spinoff_prover]
pub fn lines_of(text: &[u8]) -> (r: Vec<Line>)
    requires
        text@.len() < usize::MAX,
    ensures
        lines_ok(text@, r@),
{
    let mut lines: Vec<Line> = Vec::new();
    let mut line_start: usize = 0;
    let mut k: usize = 0;
    let n = text.len();
    while k < n
        invariant
            n == text@.len(),
            line_start <= k <= n,
            lines@.len() == newlines(text@.take(k as int)),
            lines@.len() <= k,
            contiguous(lines@),
            forall|i: int| 0 <= i < lines@.len() ==> ended_line(text@, #[trigger] lines@[i], i),
            line_start == if lines@.len() == 0 {
                0
            } else {
                line_end(lines@[lines@.len() - 1])
            },
            forall|j: int| line_start <= j < k ==> text@[j] != 10u8,
        decreases n - k,
    {
        assert(text@.take(k + 1).drop_last() =~= text@.take(k as int));
        if text[k] == 10u8 {
            let ending: usize = if k > line_start && text[k - 1] == 13u8 {
                2
            } else {
                1
            };
            let line = Line {
                number: lines.len() + 1,
                offset: line_start,
                content_length: k + 1 - line_start - ending,
                line_ending_length: ending,
            };
            assert(ended_line(text@, line, lines@.len() as int)) by {
                reveal(ended_line);
            }
            let ghost prev = lines@;
            lines.push(line);
            assert(forall|i: int| 0 <= i < prev.len() ==> lines@[i] == prev[i]);
            line_start = k + 1;
        }
        k = k + 1;
    }
    assert(text@.take(n as int) =~= text@);
    let last = Line {
        number: lines.len() + 1,
        offset: line_start,
        content_length: n - line_start,
        line_ending_length: 0,
    };
    let ghost prev = lines@;
    lines.push(last);
    proof {
        assert forall|i: int| 0 <= i < prev.len() implies ended_line(
            text@,
            #[trigger] lines@[i],
            i,
        ) by {
            assert(lines@[i] == prev[i]);
        }
        assert forall|i: int| 0 < i < lines@.len() implies (#[trigger] lines@[i]).offset
            == line_end(lines@[i - 1]) by {
            assert(lines@[i - 1] == if i - 1 < prev.len() {
                prev[i - 1]
            } else {
                last
            });
            if i < prev.len() {
                assert(lines@[i] == prev[i]);
            }
        }
    }
    lines
}

} // verus!
