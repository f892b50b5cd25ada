//! A cursor: a character offset into a rope, with the row and the column
//! that the offset has in the rope's text.

use vstd::prelude::*;
use crate::error::RopeError;
use crate::text::Rope;

verus! {

/// The character that ends a line.
pub open spec fn line_end() -> char {
    '\n'
}

/// The number of line ends before `offset`.
pub open spec fn row_of(text: Seq<char>, offset: int) -> nat
    decreases offset,
{
    if offset <= 0 {
        0
    } else if text[offset - 1] == line_end() {
        row_of(text, offset - 1) + 1
    } else {
        row_of(text, offset - 1)
    }
}

/// The number of characters between the last line end before `offset`, or
/// the start of the text, and `offset`.
pub open spec fn column_of(text: Seq<char>, offset: int) -> nat
    decreases offset,
{
    if offset <= 0 {
        0
    } else if text[offset - 1] == line_end() {
        0
    } else {
        column_of(text, offset - 1) + 1
    }
}

/// The text after `t` was inserted at index `at`.
pub open spec fn with_insert(text: Seq<char>, t: Seq<char>, at: int) -> Seq<char> {
    text.take(at) + t + text.skip(at)
}

/// Where a cursor at `offset` stands after `count` characters were inserted
/// at index `at`: pushed forward if the insertion was at or before it.
pub open spec fn offset_after_insert(offset: int, at: int, count: int) -> int {
    if at <= offset {
        offset + count
    } else {
        offset
    }
}

/// The text after the characters from index `at` up to `at + count` were
/// taken out.
pub open spec fn with_delete(text: Seq<char>, at: int, count: int) -> Seq<char> {
    text.take(at) + text.skip(at + count)
}

/// Where a cursor at `offset` stands after `count` characters were taken out
/// from index `at` on: pulled back by `count` if it stood behind them, set to
/// `at` if it stood among them.
pub open spec fn offset_after_delete(offset: int, at: int, count: int) -> int {
    if offset <= at {
        offset
    } else if offset >= at + count {
        offset - count
    } else {
        at
    }
}

/// A column counts back to a line end or to the start, over no line end.
pub proof fn lemma_column_of(text: Seq<char>, offset: int)
    requires
        0 <= offset <= text.len(),
    ensures
        column_of(text, offset) <= offset,
        row_of(text, offset) <= offset,
        column_of(text, offset) < offset ==> text[offset - column_of(text, offset) - 1]
            == line_end(),
        column_of(text, offset) == offset ==> row_of(text, offset) == 0,
        forall|j: int|
            offset - column_of(text, offset) <= j < offset ==> #[trigger] text[j] != line_end(),
    decreases offset,
{
    if offset > 0 {
        lemma_column_of(text, offset - 1);
    }
}

/// Row and column at an offset depend on the text before the offset alone.
pub proof fn lemma_row_column_prefix(a: Seq<char>, b: Seq<char>, offset: int)
    requires
        0 <= offset <= a.len(),
        offset <= b.len(),
        a.take(offset) == b.take(offset),
    ensures
        row_of(a, offset) == row_of(b, offset),
        column_of(a, offset) == column_of(b, offset),
    decreases offset,
{
    if offset > 0 {
        assert(a.take(offset - 1) =~= a.take(offset).take(offset - 1));
        assert(b.take(offset - 1) =~= b.take(offset).take(offset - 1));
        assert(a[offset - 1] == a.take(offset)[offset - 1]);
        assert(b[offset - 1] == b.take(offset)[offset - 1]);
        lemma_row_column_prefix(a, b, offset - 1);
    }
}

/// A cursor that was pushed forward by an insertion at or before it stands
/// at the character it stood at, and one before the insertion stays where it
/// was.
pub proof fn lemma_insert_keeps_character(text: Seq<char>, t: Seq<char>, at: int, offset: int)
    requires
        0 <= at <= text.len(),
        0 <= offset < text.len(),
    ensures
        with_insert(text, t, at)[offset_after_insert(offset, at, t.len() as int)] == text[offset],
{
}

/// A cursor that did not stand among the characters that were taken out
/// stands at the character it stood at.
pub proof fn lemma_delete_keeps_character(text: Seq<char>, at: int, count: int, offset: int)
    requires
        0 <= at,
        0 <= count,
        at + count <= text.len(),
        0 <= offset < text.len(),
        offset < at || offset >= at + count,
    ensures
        with_delete(text, at, count)[offset_after_delete(offset, at, count)] == text[offset],
{
}

/// The value of a cursor: its offset, and the row and column it reports.
pub struct Place {
    pub offset: nat,
    pub row: nat,
    pub column: nat,
}

/// A position in a rope. A cursor does not own its rope: after the rope was
/// edited, the cursor is brought up to date with `after_insert`.
#[derive(Clone, Copy, Debug)]
pub struct Cursor {
    offset: usize,
    row: usize,
    column: usize,
}

impl View for Cursor {
    type V = Place;

    closed spec fn view(&self) -> Place {
        Place { offset: self.offset as nat, row: self.row as nat, column: self.column as nat }
    }
}

impl Cursor {
    /// The cursor lies within `text`, and its row and column are those of
    /// its offset in `text`.
    pub open spec fn tracks(&self, text: Seq<char>) -> bool {
        &&& self@.offset <= text.len()
        &&& self@.row == row_of(text, self@.offset as int)
        &&& self@.column == column_of(text, self@.offset as int)
    }

    /// Row and column of `offset` in the rope's text.
    fn locate(rope: &Rope, offset: usize) -> (place: (usize, usize))
        requires
            rope.wf(),
            offset <= rope@.len(),
        ensures
            place.0 == row_of(rope@, offset as int),
            place.1 == column_of(rope@, offset as int),
    {
        let before = match rope.substr(0, offset) {
            Ok(text) => text,
            Err(_) => String::new(),
        };
        let mut row: usize = 0;
        let mut column: usize = 0;
        for c in it: before.as_str().chars()
            invariant
                it.seq() == before@,
                before@.len() == offset,
                row == row_of(before@, it.index()),
                column == column_of(before@, it.index()),
                row <= it.index(),
                column <= it.index(),
        {
            if c == '\n' {
                row = row + 1;
                column = 0;
            } else {
                column = column + 1;
            }
        }
        proof {
            assert(before@.take(offset as int) =~= rope@.take(offset as int));
            lemma_row_column_prefix(before@, rope@, offset as int);
        }
        (row, column)
    }

    /// A cursor at `offset` in `rope`. An offset beyond the rope's length is
    /// refused.
    pub fn new(rope: &Rope, offset: usize) -> (res: Result<Cursor, RopeError>)
        requires
            rope.wf(),
        ensures
            offset <= rope@.len() ==> res is Ok && res->Ok_0@.offset == offset
                && res->Ok_0.tracks(rope@),
            offset > rope@.len() ==> res == Err::<Cursor, RopeError>(RopeError::OutOfRange),
    {
        if offset > rope.len() {
            return Err(RopeError::OutOfRange);
        }
        let (row, column) = Cursor::locate(rope, offset);
        Ok(Cursor { offset, row, column })
    }

    /// The character index at which the cursor stands.
    pub fn offset(&self) -> (n: usize)
        ensures
            n == self@.offset,
    {
        self.offset
    }

    /// The number of line ends before the cursor.
    pub fn row(&self) -> (n: usize)
        ensures
            n == self@.row,
    {
        self.row
    }

    /// The number of characters between the start of the cursor's line and
    /// the cursor.
    pub fn column(&self) -> (n: usize)
        ensures
            n == self@.column,
    {
        self.column
    }

    /// Moves the cursor to `offset` in `rope`. An offset beyond the rope's
    /// length is refused and the cursor stays as it is.
    pub fn set_offset(&mut self, rope: &Rope, offset: usize) -> (res: Result<(), RopeError>)
        requires
            rope.wf(),
        ensures
            offset <= rope@.len() ==> res is Ok && final(self)@.offset == offset && final(self).tracks(rope@),
            offset > rope@.len() ==> res == Err::<(), RopeError>(RopeError::OutOfRange) && *final(self) == *old(self),
    {
        if offset > rope.len() {
            return Err(RopeError::OutOfRange);
        }
        let (row, column) = Cursor::locate(rope, offset);
        self.offset = offset;
        self.row = row;
        self.column = column;
        Ok(())
    }

    /// Moves the cursor by `delta` characters, forward or back. A move that
    /// would leave the rope is refused and the cursor stays as it is.
    pub fn advance_by(&mut self, rope: &Rope, delta: isize) -> (res: Result<(), RopeError>)
        requires
            rope.wf(),
        ensures
            0 <= old(self)@.offset + delta <= rope@.len() ==> res is Ok && final(self)@.offset
                == old(self)@.offset + delta && final(self).tracks(rope@),
            !(0 <= old(self)@.offset + delta <= rope@.len()) ==> res == Err::<(), RopeError>(
                RopeError::OutOfRange,
            ) && *final(self) == *old(self),
    {
        proof {
            rope.lemma_wf();
        }
        if delta >= 0 {
            let step = delta as usize;
            if step > usize::MAX - self.offset {
                return Err(RopeError::OutOfRange);
            }
            self.set_offset(rope, self.offset + step)
        } else {
            let back: usize = (-(delta + 1)) as usize + 1;
            if back > self.offset {
                return Err(RopeError::OutOfRange);
            }
            self.set_offset(rope, self.offset - back)
        }
    }

    /// Brings the cursor up to date after `count` characters were inserted
    /// at index `at`; `rope` is the rope after the insertion. A cursor at or
    /// behind the insertion is pushed forward by `count`, one before it
    /// keeps its offset; row and column are found anew. Where the new offset
    /// does not lie in `rope`, the call is refused and the cursor stays as
    /// it is.
    pub fn after_insert(&mut self, rope: &Rope, at: usize, count: usize) -> (res: Result<
        (),
        RopeError,
    >)
        requires
            rope.wf(),
        ensures
            offset_after_insert(old(self)@.offset as int, at as int, count as int) <= rope@.len()
                ==> res is Ok && final(self)@.offset == offset_after_insert(
                old(self)@.offset as int,
                at as int,
                count as int,
            ) && final(self).tracks(rope@),
            offset_after_insert(old(self)@.offset as int, at as int, count as int) > rope@.len()
                ==> res == Err::<(), RopeError>(RopeError::OutOfRange) && *final(self) == *old(
                self,
            ),
    {
        proof {
            rope.lemma_wf();
        }
        if at <= self.offset {
            if count > usize::MAX - self.offset {
                return Err(RopeError::OutOfRange);
            }
            self.set_offset(rope, self.offset + count)
        } else {
            self.set_offset(rope, self.offset)
        }
    }

    /// Brings the cursor up to date after `count` characters were taken out
    /// from index `at` on; `rope` is the rope after that. A cursor behind
    /// them is pulled back by `count`, one among them is set to `at`, one at
    /// or before `at` keeps its offset; row and column are found anew. Where
    /// the new offset does not lie in `rope`, the call is refused and the
    /// cursor stays as it is.
    pub fn after_delete(&mut self, rope: &Rope, at: usize, count: usize) -> (res: Result<
        (),
        RopeError,
    >)
        requires
            rope.wf(),
        ensures
            offset_after_delete(old(self)@.offset as int, at as int, count as int) <= rope@.len()
                ==> res is Ok && final(self)@.offset == offset_after_delete(
                old(self)@.offset as int,
                at as int,
                count as int,
            ) && final(self).tracks(rope@),
            offset_after_delete(old(self)@.offset as int, at as int, count as int) > rope@.len()
                ==> res == Err::<(), RopeError>(RopeError::OutOfRange) && *final(self) == *old(
                self,
            ),
    {
        if self.offset <= at {
            self.set_offset(rope, self.offset)
        } else if self.offset - at >= count {
            self.set_offset(rope, self.offset - count)
        } else {
            self.set_offset(rope, at)
        }
    }
}

} // verus!
