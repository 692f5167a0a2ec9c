//! The data stack of the virtual machine: 64-bit cells in an arena, growing
//! downward from the end of its buffer.

use core::marker::PhantomData;
use vstd::prelude::*;
use vstd::string::StringExecFns;
use crate::memory::{Memory, lemma_read_after_write, lemma_write_frame};
use crate::number::{decimal_string, decimal_text};

verus! {

/// The bytes of one cell.
pub const CELL: usize = 8;

/// The cell `i` places above the bottom of a stack that lives in `bytes`.
pub open spec fn cell_at(bytes: Seq<u8>, i: int) -> u64 {
    Memory::value_at::<u64>(bytes, bytes.len() - CELL * (i + 1))
}

/// The cells between `top` and the end of `bytes`, the bottom cell first.
pub open spec fn cells_of(bytes: Seq<u8>, top: int) -> Seq<u64> {
    Seq::new(((bytes.len() - top) / CELL as int) as nat, |i: int| cell_at(bytes, i))
}

/// The cells written one after the other, each between two spaces.
pub open spec fn cells_text(cells: Seq<u64>) -> Seq<char>
    decreases cells.len(),
{
    if cells.len() == 0 {
        Seq::empty()
    } else {
        cells_text(cells.drop_last()) + " "@ + decimal_text(cells.last() as nat) + " "@
    }
}

/// A stack as it is shown: the cells from the bottom up, each between two
/// spaces, in square brackets.
pub open spec fn stack_text(cells: Seq<u64>) -> Seq<char> {
    "["@ + cells_text(cells) + "]"@
}

/// Writes a stack as it is shown.
pub fn show_cells(cells: &Vec<u64>) -> (text: String)
    ensures
        text@ == stack_text(cells@),
{
    let mut text = String::from_str("[");
    let mut i: usize = 0;
    assert(cells@.take(0) =~= Seq::<u64>::empty());
    assert(text@ =~= "["@ + cells_text(cells@.take(0)));
    while i < cells.len()
        invariant
            i <= cells.len(),
            text@ == "["@ + cells_text(cells@.take(i as int)),
        decreases cells.len() - i,
    {
        let number = decimal_string(cells[i]);
        proof {
            assert(cells@.take(i + 1).drop_last() =~= cells@.take(i as int));
            assert(cells@.take(i + 1).last() == cells@[i as int]);
        }
        text.append(" ");
        text.append(number.as_str());
        text.append(" ");
        i += 1;
        assert(text@ =~= "["@ + cells_text(cells@.take(i as int)));
    }
    assert(cells@.take(cells@.len() as int) =~= cells@);
    text.append("]");
    text
}

/// A stack of cells over a `Memory` region.
#[derive(Debug)]
pub struct VMStack<T> {
    marker: PhantomData<T>,
    data: Memory,
    top: usize,
}

impl View for VMStack<u64> {
    type V = Seq<u64>;

    /// The cells of the stack, the bottom cell first.
    closed spec fn view(&self) -> Seq<u64> {
        cells_of(self.data@, self.top as int)
    }
}

impl VMStack<u64> {
    /// The top index lies in the buffer, a whole number of cells from its end.
    pub closed spec fn wf(&self) -> bool {
        &&& self.top <= self.data@.len()
        &&& (self.data@.len() - self.top) % CELL as int == 0
    }

    /// The number of cells that the buffer has room for.
    pub closed spec fn capacity(&self) -> nat {
        self.data@.len() / CELL as nat
    }

    /// At most `capacity()` cells are on the stack.
    pub proof fn lemma_len_bound(&self)
        requires
            self.wf(),
        ensures
            self@.len() <= self.capacity(),
    {
    }

    /// An empty stack over a buffer of `size` bytes.
    pub fn new(size: usize) -> (s: Self)
        ensures
            s.wf(),
            s@.len() == 0,
            s.capacity() == size as nat / CELL as nat,
    {
        let data = Memory::new(size);
        let top = data.size();
        let s = Self { data, top, marker: PhantomData };
        assert(s@ =~= Seq::empty());
        s
    }

    /// Puts `value` on top.
    pub fn push(&mut self, value: u64)
        requires
            old(self).wf(),
            old(self)@.len() < old(self).capacity(),
        ensures
            final(self).wf(),
            final(self)@ == old(self)@.push(value),
            final(self).capacity() == old(self).capacity(),
    {
        let ghost before = self.data@;
        let ghost n = self@.len() as int;
        self.top -= CELL;
        self.data.write(self.top, value);
        self.data.set_write_pos(self.top);
        proof {
            lemma_read_after_write::<u64>(before, self.top as int, value);
            assert forall|i: int| 0 <= i < n implies cell_at(self.data@, i) == cell_at(before, i) by {
                let lo = before.len() - CELL * (i + 1);
                lemma_write_frame::<u64>(before, self.top as int, value, lo, lo + 8);
            }
            assert(self@ =~= old(self)@.push(value));
        }
    }

    /// Takes the top cell off.
    pub fn pop(&mut self) -> (value: u64)
        requires
            old(self).wf(),
            old(self)@.len() > 0,
        ensures
            final(self).wf(),
            value == old(self)@.last(),
            final(self)@ == old(self)@.drop_last(),
            final(self).capacity() == old(self).capacity(),
    {
        let index = self.top;
        let size = self.data.size();
        assert(index + CELL <= size);
        self.top += CELL;
        let value = self.data.read::<u64>(index);
        proof {
            assert(self@ =~= old(self)@.drop_last());
        }
        value
    }

    /// The number of cells on the stack.
    pub fn len(&self) -> (n: usize)
        requires
            self.wf(),
        ensures
            n == self@.len(),
    {
        (self.data.size() - self.top) / CELL
    }

    /// The number of cells that can still be pushed.
    pub fn room(&self) -> (n: usize)
        requires
            self.wf(),
        ensures
            n == self.capacity() - self@.len(),
    {
        self.top / CELL
    }

    /// The cell `depth` places below the top, 0 being the top.
    pub fn peek(&self, depth: usize) -> (value: u64)
        requires
            self.wf(),
            depth < self@.len(),
        ensures
            value == self@[self@.len() - 1 - depth],
    {
        let size = self.data.size();
        assert(self.top + (depth + 1) * CELL <= size);
        let value = self.data.read::<u64>(self.top + depth * CELL);
        assert(self.top + depth * CELL == self.data@.len() - CELL * ((self@.len() - 1 - depth) + 1));
        value
    }

    /// The stack as it is shown.
    pub fn to_text(&self) -> (text: String)
        requires
            self.wf(),
        ensures
            text@ == stack_text(self@),
    {
        let cells = self.cells();
        show_cells(&cells)
    }

    /// The cells of the stack, the bottom cell first.
    pub fn cells(&self) -> (out: Vec<u64>)
        requires
            self.wf(),
        ensures
            out@ == self@,
    {
        let n = self.len();
        let mut out: Vec<u64> = Vec::new();
        let mut i: usize = 0;
        while i < n
            invariant
                self.wf(),
                n == self@.len(),
                i <= n,
                out@ == self@.subrange(0, i as int),
            decreases n - i,
        {
            let v = self.peek(n - 1 - i);
            out.push(v);
            i += 1;
            assert(out@ =~= self@.subrange(0, i as int));
        }
        assert(out@ =~= self@);
        out
    }
}

} // verus!
