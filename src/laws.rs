//! Laws that relate the buffer's operations to each other.
use vstd::prelude::*;
use vstd::utf8::{decode_utf8, valid_utf8};
use crate::piece_file::{
    PieceFile, deleted, edited, inserted, read_result, redid, undid, valid_prefix,
};

verus! {

/// Reading the whole document from its start gives back all of its text,
/// when that text is valid UTF-8.
pub proof fn law_read_whole(f: PieceFile)
    requires
        f.wf(),
        valid_utf8(f.text()),
    ensures
        read_result(f.text(), 0, f.text().len() as u64) == decode_utf8(f.text()),
{
    f.lemma_history();
    assert(f.text().subrange(0, f.text().len() as int) =~= f.text());
    assert(valid_prefix(f.text()) == f.text());
}

/// Undoing an edit right after making it restores the content and the exact
/// piece layout from before the edit.
pub proof fn law_undo_restores(f0: PieceFile, f1: PieceFile, f2: PieceFile, t: Seq<u8>)
    requires
        f0.wf(),
        edited(f0, f1, t),
        undid(f1, f2),
    ensures
        f2.text() == f0.text(),
        f2.layout() == f0.layout(),
{
    f0.lemma_history();
    let c = f0.applied() as int;
    assert(f1.past_layouts()[c] == f0.past_layouts()[c]);
    assert(f1.past_texts()[c] == f0.past_texts().take(c + 1)[c]);
}

/// Undoing an insert restores the content and the exact piece layout from
/// before it.
pub proof fn law_undo_insert(f0: PieceFile, f1: PieceFile, f2: PieceFile, b: Seq<u8>, off: u64)
    requires
        f0.wf(),
        inserted(f0, f1, b, off),
        undid(f1, f2),
    ensures
        f2.text() == f0.text(),
        f2.layout() == f0.layout(),
{
    law_undo_restores(f0, f1, f2, f1.text());
}

/// Undoing a delete of at least one byte restores the content and the exact
/// piece layout from before it.
pub proof fn law_undo_delete(f0: PieceFile, f1: PieceFile, f2: PieceFile, off: u64, n: u64)
    requires
        f0.wf(),
        n > 0,
        deleted(f0, f1, off, n),
        undid(f1, f2),
    ensures
        f2.text() == f0.text(),
        f2.layout() == f0.layout(),
{
    law_undo_restores(f0, f1, f2, f1.text());
}

/// Redoing an edit right after undoing it gives back the content the edit made.
pub proof fn law_redo_after_undo(
    f0: PieceFile,
    f1: PieceFile,
    f2: PieceFile,
    f3: PieceFile,
    t: Seq<u8>,
)
    requires
        f0.wf(),
        edited(f0, f1, t),
        undid(f1, f2),
        redid(f2, f3),
    ensures
        f3.text() == f1.text(),
        f3.text().len() == f1.text().len(),
{
    f0.lemma_history();
    let c = f0.applied() as int;
    assert(f1.past_texts()[c + 1] == t);
}

/// After an edit, an undo and another edit, the first edit is gone: redo
/// changes nothing.
pub proof fn law_edit_drops_redo(
    f0: PieceFile,
    f1: PieceFile,
    f2: PieceFile,
    f3: PieceFile,
    f4: PieceFile,
    ta: Seq<u8>,
    tb: Seq<u8>,
)
    requires
        f0.wf(),
        edited(f0, f1, ta),
        undid(f1, f2),
        edited(f2, f3, tb),
        redid(f3, f4),
    ensures
        f4 == f3,
{
}

/// On a buffer with no history, undo and redo change nothing.
pub proof fn law_fresh_undo_redo(f0: PieceFile, f1: PieceFile, f2: PieceFile)
    requires
        f0.wf(),
        f0.applied() == 0,
        f0.undone() == 0,
        undid(f0, f1),
        redid(f0, f2),
    ensures
        f1 == f0,
        f2 == f0,
{
}

} // verus!
