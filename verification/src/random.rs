use crate::puzzle::Puzzle;
use rand::Rng;
use vstd::prelude::*;

verus! {

/// The generator of random numbers that each thread has.
#[verifier::external_type_specification]
#[verifier::external_body]
pub struct ExThreadRng(rand::rngs::ThreadRng);

/// `rand::thread_rng`: a handle to the generator of the current thread.
/// Nothing is claimed of it.
#[verifier::external_body]
fn thread_rng() -> (rng: rand::rngs::ThreadRng) {
    rand::thread_rng()
}

/// `Rng::gen_range` on the range from 0 up to, not including, `n`: some
/// number of that range. The call panics on an empty range, which the
/// precondition leaves out.
#[verifier::external_body]
fn gen_below(rng: &mut rand::rngs::ThreadRng, n: usize) -> (r: usize)
    requires
        n > 0,
    ensures
        r < n,
{
    rng.gen_range(0..n)
}

/// The tiles in the order in which they are dealt: each pick names a place
/// among the tiles that are left, and takes the tile at that place away.
pub open spec fn deal(left: Seq<u8>, picks: Seq<usize>) -> Seq<u8>
    decreases picks.len(),
{
    if picks.len() == 0 {
        Seq::empty()
    } else {
        seq![left[picks[0] as int]] + deal(left.remove(picks[0] as int), picks.drop_first())
    }
}

/// The eight tiles in rising order.
pub open spec fn all_tiles() -> Seq<u8> {
    seq![1u8, 2u8, 3u8, 4u8, 5u8, 6u8, 7u8, 8u8]
}

/// The picks are eight, and each names one of the tiles that are left when
/// it is made.
pub open spec fn picks_valid(picks: Seq<usize>) -> bool {
    &&& picks.len() == 8
    &&& forall|k: int| 0 <= k < 8 ==> #[trigger] picks[k] < 8 - k
}

/// The tiles dealt so far and the tiles left are together the eight tiles,
/// each once.
spec fn split(dealt: Seq<u8>, left: Seq<u8>) -> bool {
    &&& (dealt + left).no_duplicates()
    &&& forall|i: int| 0 <= i < (dealt + left).len() ==> 1 <= #[trigger] (dealt + left)[i] <= 8
}

proof fn lemma_split_step(dealt: Seq<u8>, left: Seq<u8>, at: int)
    requires
        split(dealt, left),
        0 <= at < left.len(),
    ensures
        split(dealt.push(left[at]), left.remove(at)),
{
    let a = dealt + left;
    let b = dealt.push(left[at]) + left.remove(at);
    let n = dealt.len() as int;
    // Where each member of the new sequence stood in the old one.
    let from = |i: int|
        if i < n {
            i
        } else if i == n {
            n + at
        } else if i - n - 1 < at {
            i - 1
        } else {
            i
        };
    assert forall|i: int| 0 <= i < b.len() implies b[i] == a[from(i)] && 0 <= from(i) < a.len() by {}
    assert forall|i: int| 0 <= i < b.len() implies 1 <= #[trigger] b[i] <= 8 by {
        assert(b[i] == a[from(i)]);
    }
    assert forall|i: int, j: int| 0 <= i < b.len() && 0 <= j < b.len() && i != j implies b[i]
        != b[j] by {
        assert(b[i] == a[from(i)]);
        assert(b[j] == a[from(j)]);
        assert(from(i) != from(j));
    }
}

impl Puzzle {
    /// The board with the blank in cell `zero_pos` and, in the other cells
    /// from the first to the last, the tiles as the picks deal them.
    pub fn from_picks(zero_pos: usize, picks: &Vec<usize>) -> (p: Puzzle)
        requires
            zero_pos < 9,
            picks_valid(picks@),
        ensures
            p.wf(),
            p.cells() == deal(all_tiles(), picks@).insert(zero_pos as int, 0u8),
    {
        let mut numbers: Vec<u8> = Vec::new();
        numbers.push(1);
        numbers.push(2);
        numbers.push(3);
        numbers.push(4);
        numbers.push(5);
        numbers.push(6);
        numbers.push(7);
        numbers.push(8);
        let mut cells: Vec<u8> = Vec::new();
        let ghost mut dealt: Seq<u8> = Seq::empty();
        proof {
            assert(numbers@ =~= all_tiles());
            assert(dealt + numbers@ =~= all_tiles());
            assert(picks@.skip(0) =~= picks@);
            assert(dealt + deal(numbers@, picks@) =~= deal(all_tiles(), picks@));
        }
        let mut taken: usize = 0;
        let mut i: usize = 0;
        while i < 9
            invariant
                i <= 9,
                zero_pos < 9,
                picks_valid(picks@),
                taken == if i > zero_pos {
                    i - 1
                } else {
                    i as int
                },
                dealt.len() == taken,
                numbers@.len() == 8 - taken,
                split(dealt, numbers@),
                dealt + deal(numbers@, picks@.skip(taken as int)) == deal(all_tiles(), picks@),
                cells@ == if i > zero_pos {
                    dealt.insert(zero_pos as int, 0u8)
                } else {
                    dealt
                },
            decreases 9 - i,
        {
            if i != zero_pos {
                let at = picks[taken];
                let ghost before = numbers@;
                let ghost rest = picks@.skip(taken as int);
                let v = numbers.remove(at);
                cells.push(v);
                proof {
                    assert(rest[0] == at);
                    assert(rest.drop_first() =~= picks@.skip(taken + 1));
                    lemma_split_step(dealt, before, at as int);
                    assert(dealt + deal(before, rest) =~= dealt.push(v) + deal(
                        before.remove(at as int),
                        rest.drop_first(),
                    ));
                    if i > zero_pos {
                        assert(cells@ =~= dealt.push(v).insert(zero_pos as int, 0u8));
                    }
                    dealt = dealt.push(v);
                }
                taken = taken + 1;
            } else {
                cells.push(0);
                proof {
                    assert(cells@ =~= dealt.insert(zero_pos as int, 0u8));
                }
            }
            i += 1;
        }
        proof {
            assert(picks@.skip(8) =~= Seq::<usize>::empty());
            assert(dealt =~= deal(all_tiles(), picks@));
            assert(dealt + numbers@ =~= dealt);
        }
        let p = Puzzle::new(
            [
                [cells[0], cells[1], cells[2]],
                [cells[3], cells[4], cells[5]],
                [cells[6], cells[7], cells[8]],
            ],
        );
        proof {
            let want = dealt.insert(zero_pos as int, 0u8);
            assert forall|k: int| 0 <= k < 9 implies p.cell(k) == #[trigger] want[k] by {
                let r = k / 3;
                let c = k % 3;
                assert(p.at(r, c) == p.cell(3 * r + c));
            }
            assert(p.cells() =~= want);
            assert forall|k: int| 0 <= k < 9 implies #[trigger] p.cell(k) < 9 by {
                if k < zero_pos {
                    assert(dealt[k] == (dealt + numbers@)[k]);
                } else if k > zero_pos {
                    assert(dealt[k - 1] == (dealt + numbers@)[k - 1]);
                }
            }
            assert forall|a: int, b: int| 0 <= a < b < 9 implies #[trigger] p.cell(a)
                != #[trigger] p.cell(b) by {
                let ia = if a < zero_pos {
                    a
                } else {
                    a - 1
                };
                let ib = if b < zero_pos {
                    b
                } else {
                    b - 1
                };
                if a != zero_pos {
                    assert(1 <= (dealt + numbers@)[ia] <= 8);
                }
                if b != zero_pos {
                    assert(1 <= (dealt + numbers@)[ib] <= 8);
                }
                if a != zero_pos && b != zero_pos {
                    assert(dealt[ia] != dealt[ib]);
                }
            }
        }
        p
    }

    /// A proper board chosen at random: first the cell of the blank, then
    /// for each other cell one of the tiles that are left.
    pub fn from_random() -> (p: Puzzle)
        ensures
            p.wf(),
    {
        let mut rnd = thread_rng();
        let zero_pos = gen_below(&mut rnd, 9);
        let mut picks: Vec<usize> = Vec::new();
        while picks.len() < 8
            invariant
                picks@.len() <= 8,
                forall|k: int| 0 <= k < picks@.len() ==> #[trigger] picks@[k] < 8 - k,
            decreases 8 - picks@.len(),
        {
            let left = 8 - picks.len();
            let pick = gen_below(&mut rnd, left);
            picks.push(pick);
        }
        Puzzle::from_picks(zero_pos, &picks)
    }
}

} // verus!
