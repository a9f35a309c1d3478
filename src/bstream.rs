use vstd::prelude::*;
use crate::hlist::HeadedList;
use crate::syntax::Location;
use vstd::string::{StrSliceExecFns, StringSliceAdditionalSpecFns};

verus! {

pub const NEWLINE: u8 = 10;

/// The line of the position after the bytes `s`: one more than the number of
/// newlines in `s`.
pub open spec fn line_at(s: Seq<u8>) -> nat
    decreases s.len(),
{
    if s.len() == 0 {
        1
    } else if s.last() == NEWLINE {
        line_at(s.drop_last()) + 1
    } else {
        line_at(s.drop_last())
    }
}

/// The column counters after the bytes `s`, one per line begun so far,
/// the current line first.
pub open spec fn cols_at(s: Seq<u8>) -> Seq<nat>
    decreases s.len(),
{
    if s.len() == 0 {
        seq![1nat]
    } else if s.last() == NEWLINE {
        seq![1nat] + cols_at(s.drop_last())
    } else {
        let c = cols_at(s.drop_last());
        c.update(0, c[0] + 1)
    }
}

/// The column of the position after the bytes `s`.
pub open spec fn column_at(s: Seq<u8>) -> nat {
    cols_at(s)[0]
}

pub proof fn lemma_cols_bounds(s: Seq<u8>)
    ensures
        cols_at(s).len() >= 1,
        forall|i: int| 0 <= i < cols_at(s).len() ==> 1 <= #[trigger] cols_at(s)[i] <= s.len() + 1,
        1 <= line_at(s) <= s.len() + 1,
    decreases s.len(),
{
    if s.len() > 0 {
        lemma_cols_bounds(s.drop_last());
    }
}

/// A reader over bytes that knows the line and column of its position.
#[derive(Debug)]
pub struct ByteStream {
    bytes: Vec<u8>,
    pos: usize,
    file: String,
    line: u64,
    cols: HeadedList<u64>,
}

impl ByteStream {
    /// All bytes of the stream.
    pub closed spec fn text(&self) -> Seq<u8> {
        self.bytes@
    }

    /// The number of bytes read so far.
    pub closed spec fn offset(&self) -> int {
        self.pos as int
    }

    pub closed spec fn file_name(&self) -> Seq<char> {
        self.file@
    }

    /// The bytes read so far.
    pub open spec fn consumed(&self) -> Seq<u8> {
        self.text().take(self.offset())
    }

    pub closed spec fn wf(&self) -> bool {
        let p = self.bytes@.take(self.pos as int);
        &&& self.pos <= self.bytes@.len()
        &&& self.bytes@.len() < u64::MAX
        &&& self.line as nat == line_at(p)
        &&& self.cols@.len() == cols_at(p).len()
        &&& forall|i: int| 0 <= i < cols_at(p).len() ==> self.cols@[i] as nat == #[trigger] cols_at(p)[i]
    }

    pub proof fn lemma_wf(&self)
        requires
            self.wf(),
        ensures
            0 <= self.offset() <= self.text().len() < u64::MAX,
    {
    }

    pub fn from_str(file: String, bytes: &str) -> (r: Self)
        requires
            bytes.spec_bytes().len() < u64::MAX,
        ensures
            r.wf(),
            r.text() == bytes.spec_bytes(),
            r.offset() == 0,
            r.file_name() == file@,
    {
        Self::from_bstr(file, bytes.as_bytes_vec())
    }

    pub fn from_bstr(file: String, bytes: Vec<u8>) -> (r: Self)
        requires
            bytes@.len() < u64::MAX,
        ensures
            r.wf(),
            r.text() == bytes@,
            r.offset() == 0,
            r.file_name() == file@,
    {
        let r = Self { bytes, pos: 0, file, line: 1, cols: HeadedList::new(1, None) };
        proof {
            let p = r.bytes@.take(0);
            assert(p.len() == 0);
            assert(r.cols@ =~= seq![1u64]);
        }
        r
    }

    /// Where the stream stands: its file, line and column.
    pub fn loc(&self) -> (r: Location)
        requires
            self.wf(),
        ensures
            r.file@ == self.file_name(),
            r.line as nat == line_at(self.consumed()),
            r.column as nat == column_at(self.consumed()),
    {
        proof {
            lemma_cols_bounds(self.consumed());
        }
        Location { file: self.file.clone(), line: self.line, column: self.cols.val_cpy() }
    }

    /// The byte at the position, if any is left.
    pub fn current(&self) -> (r: Option<u8>)
        requires
            self.wf(),
        ensures
            self.offset() < self.text().len() ==> r == Some(self.text()[self.offset()]),
            self.offset() >= self.text().len() ==> r is None,
    {
        if self.pos < self.bytes.len() {
            Some(self.bytes[self.pos])
        } else {
            None
        }
    }

    /// Moves one byte forward; false, with nothing changed, at the end.
    pub fn next(&mut self) -> (r: bool)
        requires
            old(self).wf(),
        ensures
            final(self).wf(),
            final(self).text() == old(self).text(),
            final(self).file_name() == old(self).file_name(),
            r == (old(self).offset() < old(self).text().len()),
            final(self).offset() == if r { old(self).offset() + 1 } else { old(self).offset() },
    {
        if self.pos < self.bytes.len() {
            let ch = self.bytes[self.pos];
            let ghost p = self.bytes@.take(self.pos as int);
            let ghost q = self.bytes@.take(self.pos as int + 1);
            proof {
                assert(q.drop_last() =~= p);
                assert(q.last() == ch);
                lemma_cols_bounds(p);
                assert(self.cols@[0] as nat == cols_at(p)[0]);
            }
            if ch == NEWLINE {
                self.line = self.line + 1;
                self.cols.receive(1);
            } else {
                let c = self.cols.val_mut();
                *c = *c + 1;
            }
            self.pos = self.pos + 1;
            proof {
                assert(self.bytes@.take(self.pos as int) == q);
                assert forall|i: int| 0 <= i < cols_at(q).len() implies self.cols@[i] as nat == #[trigger] cols_at(q)[i] by {
                    if ch != NEWLINE && i > 0 {
                        assert(self.cols@[i] == old(self).cols@[i]);
                    }
                }
            }
            true
        } else {
            false
        }
    }

    /// Moves one byte back; false, with nothing changed, at the start.
    pub fn previous(&mut self) -> (r: bool)
        requires
            old(self).wf(),
        ensures
            final(self).wf(),
            final(self).text() == old(self).text(),
            final(self).file_name() == old(self).file_name(),
            r == (old(self).offset() > 0),
            final(self).offset() == if r { old(self).offset() - 1 } else { old(self).offset() },
    {
        if self.pos == 0 {
            false
        } else {
            let ch = self.bytes[self.pos - 1];
            let ghost p = self.bytes@.take(self.pos as int - 1);
            let ghost q = self.bytes@.take(self.pos as int);
            proof {
                assert(q.drop_last() =~= p);
                assert(q.last() == ch);
                lemma_cols_bounds(p);
                assert(self.cols@[0] as nat == cols_at(q)[0]);
            }
            if ch == NEWLINE {
                self.line = self.line - 1;
                self.cols.take();
            } else {
                let c = self.cols.val_mut();
                *c = *c - 1;
            }
            self.pos = self.pos - 1;
            proof {
                assert(self.bytes@.take(self.pos as int) == p);
                assert forall|i: int| 0 <= i < cols_at(p).len() implies self.cols@[i] as nat == #[trigger] cols_at(p)[i] by {
                    if ch == NEWLINE {
                        assert(cols_at(q)[i + 1] == cols_at(p)[i]);
                    } else if i > 0 {
                        assert(self.cols@[i] == old(self).cols@[i]);
                        assert(cols_at(q)[i] == cols_at(p)[i]);
                    }
                }
            }
            true
        }
    }

    pub fn is_eof(&self) -> (r: bool)
        requires
            self.wf(),
        ensures
            r == (self.offset() >= self.text().len()),
    {
        self.pos >= self.bytes.len()
    }

    pub fn is_start(&self) -> (r: bool)
        ensures
            r == (self.offset() == 0),
    {
        self.pos == 0
    }
}

} // verus!
