use crate::puzzle::{lemma_nine_values, Puzzle};
use vstd::prelude::*;

verus! {

/// The value of a cell that nothing was entered in yet.
pub const EMPTY: u8 = 9;

/// A board while it is entered, cell by cell in row-major order.
pub struct SetPuzzle {
    current: u8,
    content: [u8; 9],
}

impl SetPuzzle {
    /// The values entered so far, in the order of the cells.
    pub closed spec fn entered(&self) -> Seq<u8> {
        self.content@.take(self.current as int)
    }

    /// The nine cells: the values entered, then `EMPTY` for the others.
    pub closed spec fn cells(&self) -> Seq<u8> {
        self.content@
    }

    /// The values entered are different values below 9, and the cells
    /// behind them are empty.
    pub closed spec fn wf(&self) -> bool {
        &&& self.current <= 9
        &&& forall|i: int| 0 <= i < self.current ==> #[trigger] self.content@[i] < 9
        &&& forall|i: int, j: int|
            0 <= i < j < self.current ==> self.content@[i] != self.content@[j]
        &&& forall|i: int| self.current <= i < 9 ==> #[trigger] self.content@[i] == EMPTY
    }

    /// An entry with nothing entered.
    pub fn new() -> (s: SetPuzzle)
        ensures
            s.wf(),
            s.entered() == Seq::<u8>::empty(),
    {
        let s = SetPuzzle { current: 0, content: [9; 9] };
        assert(s.entered() =~= Seq::<u8>::empty());
        s
    }

    /// The number of values entered: the index of the cell that the next
    /// value goes to.
    pub fn current(&self) -> (c: u8)
        ensures
            self.wf() ==> c == self.entered().len() && c <= 9,
    {
        self.current
    }

    /// The value in cell `i`; `EMPTY` where none was entered.
    pub fn value_at(&self, i: usize) -> (v: u8)
        requires
            i < 9,
        ensures
            v == self.cells()[i as int],
    {
        self.content[i]
    }

    /// Enters `value` in the next cell, unless it was entered before.
    /// Returns whether it was entered now.
    pub fn set_value(&mut self, value: u8) -> (done: bool)
        requires
            old(self).wf(),
            value < 9,
        ensures
            final(self).wf(),
            done == !old(self).entered().contains(value),
            done ==> final(self).entered() == old(self).entered().push(value),
            !done ==> final(self).entered() == old(self).entered() && final(self).cells() == old(
                self,
            ).cells(),
    {
        let mut i: usize = 0;
        while i < 9
            invariant
                i <= 9,
                *self == *old(self),
                self.wf(),
                value < 9,
                forall|k: int| 0 <= k < i ==> self.content@[k] != value,
            decreases 9 - i,
        {
            if self.content[i] == value {
                proof {
                    assert(i < self.current);
                    assert(self.entered()[i as int] == value);
                }
                return false;
            }
            i += 1;
        }
        proof {
            if self.current == 9 {
                lemma_nine_values(self.content@, value);
            }
            assert(!self.entered().contains(value)) by {
                if self.entered().contains(value) {
                    let k = choose|k: int|
                        0 <= k < self.entered().len() && self.entered()[k] == value;
                    assert(self.content@[k] == value);
                }
            }
        }
        let at = self.current as usize;
        self.content[at] = value;
        self.current = self.current + 1;
        proof {
            assert(self.entered() =~= old(self).entered().push(value));
        }
        true
    }

    /// The board, once all nine cells are entered.
    pub fn get_puzzle(&self) -> (r: Option<Puzzle>)
        ensures
            r is Some <==> forall|i: int| 0 <= i < 9 ==> self.cells()[i] != EMPTY,
            self.wf() ==> (r is Some <==> self.entered().len() == 9),
            r matches Some(p) ==> p.cells() == self.cells() && (self.wf() ==> p.wf()),
    {
        let mut i: usize = 0;
        while i < 9
            invariant
                i <= 9,
                forall|k: int| 0 <= k < i ==> self.content@[k] != EMPTY,
            decreases 9 - i,
        {
            if self.content[i] == EMPTY {
                proof {
                    assert(self.cells()[i as int] == EMPTY);
                    if self.wf() && self.current == 9 {
                        assert(self.content@[i as int] < 9);
                    }
                }
                return None;
            }
            i += 1;
        }
        let p = Puzzle::new(
            [
                [self.content[0], self.content[1], self.content[2]],
                [self.content[3], self.content[4], self.content[5]],
                [self.content[6], self.content[7], self.content[8]],
            ],
        );
        proof {
            assert forall|k: int| 0 <= k < 9 implies p.cell(k) == #[trigger] self.content@[k] by {
                let r = k / 3;
                let c = k % 3;
                assert(p.at(r, c) == p.cell(3 * r + c));
            }
            assert(p.cells() =~= self.content@);
            if self.wf() {
                if self.current < 9 {
                    assert(self.content@[self.current as int] == EMPTY);
                }
                assert forall|k: int| 0 <= k < 9 implies #[trigger] p.cell(k) < 9 by {
                    assert(self.content@[k] < 9);
                }
                assert forall|a: int, b: int| 0 <= a < b < 9 implies #[trigger] p.cell(a)
                    != #[trigger] p.cell(b) by {
                    assert(self.content@[a] != self.content@[b]);
                }
            }
        }
        Some(p)
    }
}

} // verus!
