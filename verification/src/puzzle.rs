use vstd::prelude::*;

verus! {

/// One of the four ways the blank can slide.
#[derive(Clone, Copy, PartialEq, Eq, Structural, Debug, Hash)]
pub enum Direction {
    Up,
    Down,
    Left,
    Right,
}

impl Direction {
    /// The direction that undoes `self`.
    pub open spec fn opposite(self) -> Direction {
        match self {
            Direction::Up => Direction::Down,
            Direction::Down => Direction::Up,
            Direction::Left => Direction::Right,
            Direction::Right => Direction::Left,
        }
    }

    /// The place of the direction in the order in which successors are generated.
    pub open spec fn index(self) -> int {
        match self {
            Direction::Up => 0,
            Direction::Down => 1,
            Direction::Left => 2,
            Direction::Right => 3,
        }
    }

    /// The four directions in the order in which successors are generated.
    pub open spec fn order() -> Seq<Direction> {
        seq![Direction::Up, Direction::Down, Direction::Left, Direction::Right]
    }

    /// All directions, in successor-generation order.
    pub fn all() -> (r: [Direction; 4])
        ensures
            r@ == Direction::order(),
    {
        let r = [Direction::Up, Direction::Down, Direction::Left, Direction::Right];
        assert(r@ =~= Direction::order());
        r
    }

    /// The opposite direction.
    pub fn reverse(&self) -> (r: Direction)
        ensures
            r == self.opposite(),
    {
        match self {
            Direction::Up => Direction::Down,
            Direction::Down => Direction::Up,
            Direction::Left => Direction::Right,
            Direction::Right => Direction::Left,
        }
    }
}

/// Row-major index of the cell that the blank at index `k` trades places with
/// when it slides in direction `d`; `None` when the blank is at the grid edge.
pub open spec fn slide_target(k: int, d: Direction) -> Option<int> {
    if !(0 <= k < 9) {
        None
    } else {
        match d {
            Direction::Up => if k >= 3 {
                Some(k - 3)
            } else {
                None
            },
            Direction::Down => if k < 6 {
                Some(k + 3)
            } else {
                None
            },
            Direction::Left => if k % 3 != 0 {
                Some(k - 1)
            } else {
                None
            },
            Direction::Right => if k % 3 != 2 {
                Some(k + 1)
            } else {
                None
            },
        }
    }
}

/// A 3x3 sliding-tile board. The nine cells are kept in row-major order;
/// the value 0 stands for the blank.
#[derive(Clone, Copy, PartialEq, Eq, Structural, Debug, Hash)]
pub struct Puzzle {
    c0: u8,
    c1: u8,
    c2: u8,
    c3: u8,
    c4: u8,
    c5: u8,
    c6: u8,
    c7: u8,
    c8: u8,
}

impl Puzzle {
    /// The value in the cell with row-major index `k` (0 to 8).
    pub closed spec fn cell(self, k: int) -> u8 {
        if k == 0 {
            self.c0
        } else if k == 1 {
            self.c1
        } else if k == 2 {
            self.c2
        } else if k == 3 {
            self.c3
        } else if k == 4 {
            self.c4
        } else if k == 5 {
            self.c5
        } else if k == 6 {
            self.c6
        } else if k == 7 {
            self.c7
        } else {
            self.c8
        }
    }

    /// The value at (`row`, `col`).
    pub open spec fn at(self, row: int, col: int) -> u8 {
        self.cell(3 * row + col)
    }

    /// The nine cells in row-major order.
    pub open spec fn cells(self) -> Seq<u8> {
        Seq::new(9, |k: int| self.cell(k))
    }

    /// The board with the value of cell `k` replaced by `v`.
    pub closed spec fn put(self, k: int, v: u8) -> Puzzle {
        if k == 0 {
            Puzzle { c0: v, ..self }
        } else if k == 1 {
            Puzzle { c1: v, ..self }
        } else if k == 2 {
            Puzzle { c2: v, ..self }
        } else if k == 3 {
            Puzzle { c3: v, ..self }
        } else if k == 4 {
            Puzzle { c4: v, ..self }
        } else if k == 5 {
            Puzzle { c5: v, ..self }
        } else if k == 6 {
            Puzzle { c6: v, ..self }
        } else if k == 7 {
            Puzzle { c7: v, ..self }
        } else {
            Puzzle { c8: v, ..self }
        }
    }

    /// The board with the contents of cells `a` and `b` exchanged.
    pub open spec fn swapped(self, a: int, b: int) -> Puzzle {
        self.put(a, self.cell(b)).put(b, self.cell(a))
    }

    /// Index of the first cell, in row-major order, that holds the blank;
    /// 9 when no cell does.
    pub open spec fn blank(self) -> int {
        if self.cell(0) == 0 {
            0
        } else if self.cell(1) == 0 {
            1
        } else if self.cell(2) == 0 {
            2
        } else if self.cell(3) == 0 {
            3
        } else if self.cell(4) == 0 {
            4
        } else if self.cell(5) == 0 {
            5
        } else if self.cell(6) == 0 {
            6
        } else if self.cell(7) == 0 {
            7
        } else if self.cell(8) == 0 {
            8
        } else {
            9
        }
    }

    /// A proper board: every value from 0 to 8 occurs in exactly one cell.
    pub open spec fn wf(self) -> bool {
        &&& forall|k: int| 0 <= k < 9 ==> #[trigger] self.cell(k) < 9
        &&& forall|i: int, j: int| 0 <= i < j < 9 ==> #[trigger] self.cell(i) != #[trigger] self.cell(j)
    }

    /// The board after the blank slides in direction `d`, where that is possible.
    pub open spec fn moved(self, d: Direction) -> Option<Puzzle> {
        match slide_target(self.blank(), d) {
            Some(t) => Some(self.swapped(self.blank(), t)),
            None => None,
        }
    }

    /// `other` is reached from `self` by one slide of the blank.
    pub open spec fn adjacent(self, other: Puzzle) -> bool {
        exists|d: Direction| self.moved(d) == Some(other)
    }

    /// The nine cells read as the digits of a number in base 256.
    pub closed spec fn key_of(self) -> u128 {
        (((((((((self.c8 as int) * 256 + self.c7) * 256 + self.c6) * 256 + self.c5) * 256
            + self.c4) * 256 + self.c3) * 256 + self.c2) * 256 + self.c1) * 256 + self.c0) as u128
    }

    /// The nine cells read as the digits of a number in base 9.
    pub closed spec fn rank(self) -> nat {
        (((((((((self.c8 as int) * 9 + self.c7) * 9 + self.c6) * 9 + self.c5) * 9 + self.c4) * 9
            + self.c3) * 9 + self.c2) * 9 + self.c1) * 9 + self.c0) as nat
    }

    /// Two boards with the same nine cells are the same board.
    pub proof fn lemma_cells_determine(self, other: Puzzle)
        requires
            forall|k: int| 0 <= k < 9 ==> self.cell(k) == other.cell(k),
        ensures
            self == other,
    {
        assert(self.cell(0) == other.cell(0));
        assert(self.cell(1) == other.cell(1));
        assert(self.cell(2) == other.cell(2));
        assert(self.cell(3) == other.cell(3));
        assert(self.cell(4) == other.cell(4));
        assert(self.cell(5) == other.cell(5));
        assert(self.cell(6) == other.cell(6));
        assert(self.cell(7) == other.cell(7));
        assert(self.cell(8) == other.cell(8));
    }

    /// `put` changes the one cell it names and no other.
    pub proof fn lemma_put(self, k: int, v: u8)
        requires
            0 <= k < 9,
        ensures
            self.put(k, v).cell(k) == v,
            forall|j: int| 0 <= j < 9 && j != k ==> #[trigger] self.put(k, v).cell(j) == self.cell(j),
    {
    }

    /// What a swap of two cells does to every cell.
    pub proof fn lemma_swapped(self, a: int, b: int)
        requires
            0 <= a < 9,
            0 <= b < 9,
        ensures
            self.swapped(a, b).cell(a) == self.cell(b),
            self.swapped(a, b).cell(b) == self.cell(a),
            forall|j: int|
                0 <= j < 9 && j != a && j != b ==> #[trigger] self.swapped(a, b).cell(j)
                    == self.cell(j),
    {
        self.lemma_put(a, self.cell(b));
        self.put(a, self.cell(b)).lemma_put(b, self.cell(a));
    }

    /// A proper board holds exactly one blank, at index `blank()`.
    pub proof fn lemma_wf_blank(self)
        requires
            self.wf(),
        ensures
            0 <= self.blank() < 9,
            self.cell(self.blank()) == 0,
            forall|k: int| 0 <= k < 9 && k != self.blank() ==> #[trigger] self.cell(k) != 0,
    {
        assert(self.blank() != 9) by {
            lemma_some_cell_blank(self);
        }
        let b = self.blank();
        assert forall|k: int| 0 <= k < 9 && k != b implies #[trigger] self.cell(k) != 0 by {
            if k < b {
            } else {
                assert(self.cell(b) != self.cell(k));
            }
        }
    }

    /// What one slide does to the cells: the blank and one tile trade places,
    /// and every other cell keeps its value.
    pub proof fn lemma_moved(self, d: Direction)
        requires
            self.moved(d) is Some,
        ensures
            ({
                let t = self.moved(d)->0;
                let b = self.blank();
                let k = slide_target(b, d)->0;
                &&& slide_target(b, d) is Some
                &&& 0 <= b < 9
                &&& 0 <= k < 9
                &&& b != k
                &&& self.cell(b) == 0
                &&& t.cell(b) == self.cell(k)
                &&& t.cell(k) == 0
                &&& forall|j: int| 0 <= j < 9 && j != b && j != k ==> #[trigger] t.cell(j) == self.cell(j)
            }),
    {
        let b = self.blank();
        let k = slide_target(b, d)->0;
        self.lemma_swapped(b, k);
    }

    /// A slide takes a proper board to a proper board.
    pub proof fn lemma_moved_wf(self, d: Direction)
        requires
            self.wf(),
            self.moved(d) is Some,
        ensures
            (self.moved(d)->0).wf(),
    {
        let t = self.moved(d)->0;
        let b = self.blank();
        let k = slide_target(b, d)->0;
        self.lemma_moved(d);
        let src = |j: int| if j == b { k } else if j == k { b } else { j };
        assert forall|j: int| 0 <= j < 9 implies #[trigger] t.cell(j) < 9 by {
            assert(t.cell(j) == self.cell(src(j)));
        }
        assert forall|i: int, j: int| 0 <= i < j < 9 implies #[trigger] t.cell(i) != #[trigger] t.cell(j) by {
            assert(t.cell(i) == self.cell(src(i)));
            assert(t.cell(j) == self.cell(src(j)));
            if src(i) < src(j) {
                assert(self.cell(src(i)) != self.cell(src(j)));
            } else {
                assert(self.cell(src(j)) != self.cell(src(i)));
            }
        }
    }

    /// Sliding the blank back undoes a slide.
    pub proof fn lemma_move_reverse(self, d: Direction)
        requires
            self.wf(),
            self.moved(d) is Some,
        ensures
            (self.moved(d)->0).moved(d.opposite()) == Some(self),
    {
        let t = self.moved(d)->0;
        let b = self.blank();
        let k = slide_target(b, d)->0;
        self.lemma_moved(d);
        self.lemma_moved_wf(d);
        self.lemma_wf_blank();
        t.lemma_wf_blank();
        assert(t.blank() == k) by {
            if t.blank() != k {
                assert(t.cell(k) != 0);
            }
        }
        assert(slide_target(k, d.opposite()) == Some(b));
        let back = t.moved(d.opposite())->0;
        t.lemma_moved(d.opposite());
        assert forall|j: int| 0 <= j < 9 implies back.cell(j) == self.cell(j) by {
            if j != b && j != k {
                assert(t.cell(j) == self.cell(j));
            }
        }
        back.lemma_cells_determine(self);
    }

    /// A slide changes the board.
    pub proof fn lemma_moved_differs(self, d: Direction)
        requires
            self.wf(),
            self.moved(d) is Some,
        ensures
            self.moved(d)->0 != self,
    {
        self.lemma_moved(d);
        let b = self.blank();
        let k = slide_target(b, d)->0;
        if b < k {
            assert(self.cell(b) != self.cell(k));
        } else {
            assert(self.cell(k) != self.cell(b));
        }
    }

    /// On proper boards adjacency goes both ways.
    pub proof fn lemma_adjacent_symmetric(self, other: Puzzle)
        requires
            self.wf(),
            self.adjacent(other),
        ensures
            other.adjacent(self),
            other.wf(),
    {
        let d = choose|d: Direction| self.moved(d) == Some(other);
        self.lemma_move_reverse(d);
        self.lemma_moved_wf(d);
    }

    /// The leading part of the board's number in base `b`: the digits of
    /// cells `from` to 8.
    spec fn digits(self, b: int, from: int) -> int
        decreases 9 - from,
    {
        if from >= 8 {
            self.c8 as int
        } else {
            self.digits(b, from + 1) * b + self.cell(from)
        }
    }

    proof fn lemma_digits_bound(self, b: int, from: int)
        requires
            0 <= from <= 8,
            b >= 2,
            forall|k: int| 0 <= k < 9 ==> #[trigger] self.cell(k) < b,
        ensures
            0 <= self.digits(b, from) < vstd::arithmetic::power::pow(b, (9 - from) as nat),
        decreases 9 - from,
    {
        reveal(vstd::arithmetic::power::pow);
        if from < 8 {
            self.lemma_digits_bound(b, from + 1);
            let hi = self.digits(b, from + 1);
            let top = vstd::arithmetic::power::pow(b, (8 - from) as nat);
            assert(hi * b + self.cell(from) < top * b) by (nonlinear_arith)
                requires
                    0 <= hi < top,
                    0 <= self.cell(from) < b,
            ;
            assert(top * b == vstd::arithmetic::power::pow(b, (9 - from) as nat)) by (nonlinear_arith)
                requires
                    vstd::arithmetic::power::pow(b, (9 - from) as nat) == b * top,
            ;
            assert(0 <= hi * b) by (nonlinear_arith)
                requires
                    0 <= hi,
                    b >= 2,
            ;
        } else {
            assert(self.cell(8) < b);
            assert(vstd::arithmetic::power::pow(b, 1) == b) by {
                vstd::arithmetic::power::lemma_pow1(b);
            }
        }
    }

    proof fn lemma_digits_injective(self, other: Puzzle, b: int, from: int)
        requires
            0 <= from <= 8,
            b >= 2,
            forall|k: int| 0 <= k < 9 ==> #[trigger] self.cell(k) < b,
            forall|k: int| 0 <= k < 9 ==> #[trigger] other.cell(k) < b,
            self.digits(b, from) == other.digits(b, from),
        ensures
            forall|k: int| from <= k < 9 ==> self.cell(k) == other.cell(k),
        decreases 9 - from,
    {
        if from < 8 {
            assert(self.cell(from) < b);
            assert(other.cell(from) < b);
            lemma_digit(
                b,
                self.cell(from) as int,
                self.digits(b, from + 1),
                other.cell(from) as int,
                other.digits(b, from + 1),
            );
            self.lemma_digits_injective(other, b, from + 1);
        }
    }

    proof fn lemma_key_is_digits(self)
        ensures
            self.key_of() == self.digits(256, 0),
    {
        reveal_with_fuel(Puzzle::digits, 10);
        assert forall|k: int| 0 <= k < 9 implies #[trigger] self.cell(k) < 256 by {}
        self.lemma_digits_bound(256, 0);
        assert(vstd::arithmetic::power::pow(256, 9) < 0x1_0000_0000_0000_0000_0000) by {
            reveal_with_fuel(vstd::arithmetic::power::pow, 10);
        }
    }

    proof fn lemma_rank_is_digits(self)
        ensures
            self.rank() == self.digits(9, 0),
    {
        reveal_with_fuel(Puzzle::digits, 10);
    }

    /// Different boards have different keys.
    pub proof fn lemma_key_injective(self, other: Puzzle)
        requires
            self.key_of() == other.key_of(),
        ensures
            self == other,
    {
        self.lemma_key_is_digits();
        other.lemma_key_is_digits();
        assert forall|k: int| 0 <= k < 9 implies #[trigger] self.cell(k) < 256 by {}
        assert forall|k: int| 0 <= k < 9 implies #[trigger] other.cell(k) < 256 by {}
        self.lemma_digits_injective(other, 256, 0);
        self.lemma_cells_determine(other);
    }

    /// Different proper boards have different ranks, all below 9^9.
    pub proof fn lemma_rank(self, other: Puzzle)
        requires
            self.wf(),
            other.wf(),
        ensures
            self.rank() < 387_420_489,
            self.rank() == other.rank() ==> self == other,
    {
        self.lemma_rank_is_digits();
        other.lemma_rank_is_digits();
        self.lemma_digits_bound(9, 0);
        assert(vstd::arithmetic::power::pow(9, 9) == 387_420_489) by {
            reveal_with_fuel(vstd::arithmetic::power::pow, 10);
        }
        if self.rank() == other.rank() {
            self.lemma_digits_injective(other, 9, 0);
            self.lemma_cells_determine(other);
        }
    }

    /// A board from its three rows.
    pub fn new(board: [[u8; 3]; 3]) -> (p: Puzzle)
        ensures
            forall|i: int, j: int| 0 <= i < 3 && 0 <= j < 3 ==> p.at(i, j) == #[trigger] board[i][j],
    {
        Puzzle {
            c0: board[0][0],
            c1: board[0][1],
            c2: board[0][2],
            c3: board[1][0],
            c4: board[1][1],
            c5: board[1][2],
            c6: board[2][0],
            c7: board[2][1],
            c8: board[2][2],
        }
    }

    /// The value in cell `k`.
    fn cell_at(&self, k: usize) -> (v: u8)
        requires
            k < 9,
        ensures
            v == self.cell(k as int),
    {
        match k {
            0 => self.c0,
            1 => self.c1,
            2 => self.c2,
            3 => self.c3,
            4 => self.c4,
            5 => self.c5,
            6 => self.c6,
            7 => self.c7,
            _ => self.c8,
        }
    }

    /// The board with cell `k` set to `v`.
    fn with_cell(&self, k: usize, v: u8) -> (p: Puzzle)
        requires
            k < 9,
        ensures
            p == self.put(k as int, v),
    {
        let mut p = *self;
        match k {
            0 => { p.c0 = v; },
            1 => { p.c1 = v; },
            2 => { p.c2 = v; },
            3 => { p.c3 = v; },
            4 => { p.c4 = v; },
            5 => { p.c5 = v; },
            6 => { p.c6 = v; },
            7 => { p.c7 = v; },
            _ => { p.c8 = v; },
        }
        p
    }

    /// The value at row `i`, column `j`.
    pub fn get_value(&self, i: usize, j: usize) -> (v: u8)
        requires
            i < 3,
            j < 3,
        ensures
            v == self.at(i as int, j as int),
    {
        self.cell_at(3 * i + j)
    }

    /// Row and column of the blank: of the first one in row-major order,
    /// should the board hold several; `None` when it holds none.
    pub fn find_zero(&self) -> (r: Option<(usize, usize)>)
        ensures
            match r {
                Some((i, j)) => i < 3 && j < 3 && self.blank() == 3 * i + j,
                None => self.blank() == 9,
            },
            self.wf() ==> r is Some,
    {
        proof {
            if self.wf() {
                self.lemma_wf_blank();
            }
        }
        let mut k: usize = 0;
        while k < 9
            invariant
                k <= 9,
                forall|m: int| 0 <= m < k ==> self.cell(m) != 0,
            decreases 9 - k,
        {
            if self.cell_at(k) == 0 {
                return Some((k / 3, k % 3));
            }
            k += 1;
        }
        None
    }

    /// Slides the blank in `direction`. `None` when the blank is at the grid
    /// edge in that direction, or when the board holds no blank.
    pub fn move_zero(&self, direction: Direction) -> (r: Option<Puzzle>)
        ensures
            r == self.moved(direction),
    {
        match self.find_zero() {
            Some((i, j)) => {
                let target: Option<(usize, usize)> = match direction {
                    Direction::Up => if i >= 1 {
                        Some((i - 1, j))
                    } else {
                        None
                    },
                    Direction::Down => if i + 1 < 3 {
                        Some((i + 1, j))
                    } else {
                        None
                    },
                    Direction::Left => if j >= 1 {
                        Some((i, j - 1))
                    } else {
                        None
                    },
                    Direction::Right => if j + 1 < 3 {
                        Some((i, j + 1))
                    } else {
                        None
                    },
                };
                match target {
                    Some((new_i, new_j)) => {
                        let from: usize = 3 * i + j;
                        let to: usize = 3 * new_i + new_j;
                        assert(slide_target(from as int, direction) == Some(to as int));
                        let tile = self.cell_at(to);
                        let blank = self.cell_at(from);
                        Some(self.with_cell(from, tile).with_cell(to, blank))
                    },
                    None => None,
                }
            },
            None => None,
        }
    }

    /// Whether the board is a proper one.
    pub fn is_valid(&self) -> (b: bool)
        ensures
            b == self.wf(),
    {
        let mut i: usize = 0;
        while i < 9
            invariant
                i <= 9,
                forall|k: int| 0 <= k < i ==> #[trigger] self.cell(k) < 9,
                forall|a: int, b: int| 0 <= a < b < i ==> #[trigger] self.cell(a) != #[trigger] self.cell(b),
            decreases 9 - i,
        {
            let v = self.cell_at(i);
            if v >= 9 {
                return false;
            }
            let mut j: usize = 0;
            while j < i
                invariant
                    j <= i,
                    i < 9,
                    v == self.cell(i as int),
                    forall|a: int| 0 <= a < j ==> #[trigger] self.cell(a) != v,
                decreases i - j,
            {
                if self.cell_at(j) == v {
                    return false;
                }
                j += 1;
            }
            i += 1;
        }
        true
    }

    /// A number that identifies the board among all boards.
    pub fn key(&self) -> (k: u128)
        ensures
            k == self.key_of(),
    {
        let mut k: u128 = self.c8 as u128;
        k = k * 256 + self.c7 as u128;
        k = k * 256 + self.c6 as u128;
        k = k * 256 + self.c5 as u128;
        k = k * 256 + self.c4 as u128;
        k = k * 256 + self.c3 as u128;
        k = k * 256 + self.c2 as u128;
        k = k * 256 + self.c1 as u128;
        k = k * 256 + self.c0 as u128;
        k
    }
}

/// Nine pairwise different values below 9 include every value below 9.
pub proof fn lemma_nine_values(s: Seq<u8>, v: u8)
    requires
        s.len() == 9,
        forall|i: int, j: int| 0 <= i < j < 9 ==> s[i] != s[j],
        forall|k: int| 0 <= k < 9 ==> #[trigger] s[k] < 9,
        v < 9,
    ensures
        exists|k: int| 0 <= k < 9 && s[k] == v,
{
    if forall|k: int| 0 <= k < 9 ==> s[k] != v {
        let t = s.map_values(|x: u8| x as int);
        assert(t.no_duplicates()) by {
            assert forall|i: int, j: int|
                0 <= i < t.len() && 0 <= j < t.len() && i != j implies t[i] != t[j] by {
                if i < j {
                    assert(s[i] != s[j]);
                } else {
                    assert(s[j] != s[i]);
                }
            }
        }
        t.unique_seq_to_set();
        let range = vstd::set_lib::set_int_range(0, 9).remove(v as int);
        vstd::set_lib::lemma_int_range(0, 9);
        assert(t.to_set().subset_of(range)) by {
            assert forall|x: int| t.to_set().contains(x) implies range.contains(x) by {
                let k = choose|k: int| 0 <= k < t.len() && t[k] == x;
                assert(s[k] < 9);
                assert(s[k] != v);
            }
        }
        vstd::set_lib::lemma_len_subset(t.to_set(), range);
    }
}

/// Nine pairwise different values below 9 include 0.
proof fn lemma_some_cell_blank(p: Puzzle)
    requires
        forall|i: int, j: int| 0 <= i < j < 9 ==> #[trigger] p.cell(i) != #[trigger] p.cell(j),
        forall|k: int| 0 <= k < 9 ==> #[trigger] p.cell(k) < 9,
    ensures
        exists|k: int| 0 <= k < 9 && p.cell(k) == 0,
{
    let s = p.cells();
    assert forall|i: int, j: int| 0 <= i < j < 9 implies s[i] != s[j] by {
        assert(p.cell(i) != p.cell(j));
    }
    assert forall|k: int| 0 <= k < 9 implies #[trigger] s[k] < 9 by {
        assert(p.cell(k) < 9);
    }
    lemma_nine_values(s, 0);
    let k = choose|k: int| 0 <= k < 9 && s[k] == 0;
    assert(p.cell(k) == 0);
}

/// The last digit and the leading part of a number written in base `b` are
/// determined by the number.
proof fn lemma_digit(b: int, lo1: int, hi1: int, lo2: int, hi2: int)
    requires
        b > 0,
        0 <= lo1 < b,
        0 <= lo2 < b,
        hi1 * b + lo1 == hi2 * b + lo2,
    ensures
        lo1 == lo2,
        hi1 == hi2,
{
    assert((hi1 - hi2) * b == lo2 - lo1) by (nonlinear_arith)
        requires
            hi1 * b + lo1 == hi2 * b + lo2,
    ;
    assert(hi1 == hi2) by (nonlinear_arith)
        requires
            (hi1 - hi2) * b == lo2 - lo1,
            -b < lo2 - lo1 < b,
            b > 0,
    ;
}

} // verus!
