//! One line of the board (a row or a column), oriented so that position 0
//! is the compaction edge: the side the tiles slide toward.
//!
//! A cell holds 0 when empty, otherwise the rank `r >= 1` of a tile whose
//! displayed value is `2^r`.  A move first packs the line against the edge
//! (three sliding passes), then combines equal adjacent tiles once per pair
//! scanning outward from the edge, then packs again.

use vstd::prelude::*;

use vstd::arithmetic::power2::{
    lemma2_to64, lemma2_to64_rest, lemma_pow2_pos, lemma_pow2_strictly_increases,
    lemma_pow2_unfold, pow2,
};

verus! {

/// The ranks of the occupied cells of a line, kept in order.
pub open spec fn occupied(l: Seq<u8>) -> Seq<u8>
    decreases l.len(),
{
    if l.len() == 0 {
        Seq::empty()
    } else if l[0] == 0 {
        occupied(l.skip(1))
    } else {
        seq![l[0]] + occupied(l.skip(1))
    }
}

/// `n` empty cells.
pub open spec fn zero_fill(n: nat) -> Seq<u8> {
    Seq::new(n, |i: int| 0u8)
}

/// The line with its occupied cells packed against the edge, in their
/// original order, and the empty cells after them.
pub open spec fn packed(l: Seq<u8>) -> Seq<u8> {
    occupied(l) + zero_fill((l.len() - occupied(l).len()) as nat)
}

/// No occupied cell follows an empty one.
pub open spec fn is_packed(l: Seq<u8>) -> bool {
    forall|i: int, j: int| 0 <= i < j < l.len() && l[i] == 0 ==> l[j] == 0
}

/// One sliding pass over a four-cell line: an occupied cell moves into an
/// adjacent empty cell nearer the edge, tried at the pairs (2,3), (1,2),
/// (0,1) in that order, so a tile can travel several cells in one pass.
pub open spec fn slide_step(l: Seq<u8>) -> Seq<u8>
    recommends
        l.len() == 4,
{
    let a = if l[2] == 0 && l[3] != 0 {
        l.update(2, l[3] as u8).update(3, 0u8)
    } else {
        l
    };
    let b = if a[1] == 0 && a[2] != 0 {
        a.update(1, a[2] as u8).update(2, 0u8)
    } else {
        a
    };
    if b[0] == 0 && b[1] != 0 {
        b.update(0, b[1] as u8).update(1, 0u8)
    } else {
        b
    }
}

/// The packed ranks after the merge pass: scanning outward from the edge,
/// the first two equal ranks combine into one tile of the next rank, and a
/// combined tile never takes part in a second combination.
pub open spec fn combined(ts: Seq<u8>) -> Seq<u8>
    decreases ts.len(),
{
    if ts.len() < 2 {
        ts
    } else if ts[0] == ts[1] {
        seq![(ts[0] + 1) as u8] + combined(ts.skip(2))
    } else {
        seq![ts[0]] + combined(ts.skip(1))
    }
}

/// The score a merge pass earns: `2^(r+1)` for every pair of rank-`r`
/// tiles that combines.
pub open spec fn combine_score(ts: Seq<u8>) -> nat
    decreases ts.len(),
{
    if ts.len() < 2 {
        0
    } else if ts[0] == ts[1] {
        pow2((ts[0] + 1) as nat) + combine_score(ts.skip(2))
    } else {
        combine_score(ts.skip(1))
    }
}

/// What one move does to a line: pack, combine, pack.
pub open spec fn moved_line(l: Seq<u8>) -> Seq<u8> {
    let ts = combined(occupied(l));
    ts + zero_fill((l.len() - ts.len()) as nat)
}

/// The score one move earns on this line.
pub open spec fn line_gain(l: Seq<u8>) -> nat {
    combine_score(occupied(l))
}

/// The displayed value of a cell: `2^r` for a tile of rank `r`, 0 for an
/// empty cell.
pub open spec fn tile_value(r: u8) -> nat {
    if r == 0 {
        0
    } else {
        pow2(r as nat)
    }
}

/// The summed displayed value of a line's tiles.
pub open spec fn line_value(l: Seq<u8>) -> nat
    decreases l.len(),
{
    if l.len() == 0 {
        0
    } else {
        tile_value(l[0]) + line_value(l.skip(1))
    }
}

pub proof fn lemma_occupied_len(l: Seq<u8>)
    ensures
        occupied(l).len() <= l.len(),
    decreases l.len(),
{
    if l.len() > 0 {
        lemma_occupied_len(l.skip(1));
    }
}

/// Three sliding passes pack any four-cell line.
pub proof fn lemma_slide3_packs(l: Seq<u8>)
    requires
        l.len() == 4,
    ensures
        slide_step(slide_step(slide_step(l))) == packed(l),
{
    reveal_with_fuel(occupied, 5);
    lemma_occupied_len(l);
    assert(slide_step(slide_step(slide_step(l))) =~= packed(l));
}

pub proof fn lemma_line_value_split(s: Seq<u8>, t: Seq<u8>)
    ensures
        line_value(s + t) == line_value(s) + line_value(t),
    decreases s.len(),
{
    if s.len() == 0 {
        assert(s + t =~= t);
    } else {
        assert((s + t).skip(1) =~= s.skip(1) + t);
        lemma_line_value_split(s.skip(1), t);
    }
}

pub proof fn lemma_singleton_value(x: u8)
    ensures
        line_value(seq![x]) == tile_value(x),
{
    assert(seq![x].skip(1) =~= Seq::<u8>::empty());
    assert(line_value(seq![x].skip(1)) == 0);
}

pub proof fn lemma_line_value_two(ts: Seq<u8>)
    requires
        ts.len() >= 2,
    ensures
        line_value(ts) == tile_value(ts[0]) + tile_value(ts[1]) + line_value(ts.skip(2)),
{
    assert(ts.skip(1).skip(1) =~= ts.skip(2));
    assert(line_value(ts.skip(1)) == tile_value(ts.skip(1)[0]) + line_value(ts.skip(1).skip(1)));
    assert(ts.skip(1)[0] == ts[1]);
}

pub proof fn lemma_zero_fill_value(n: nat)
    ensures
        line_value(zero_fill(n)) == 0,
    decreases n,
{
    if n > 0 {
        assert(zero_fill(n).skip(1) =~= zero_fill((n - 1) as nat));
        lemma_zero_fill_value((n - 1) as nat);
    }
}

/// Dropping the empty cells does not change what a line is worth.
pub proof fn lemma_occupied_value(l: Seq<u8>)
    ensures
        line_value(occupied(l)) == line_value(l),
    decreases l.len(),
{
    if l.len() > 0 {
        lemma_occupied_value(l.skip(1));
        assert(line_value(l) == tile_value(l[0]) + line_value(l.skip(1)));
        if l[0] != 0 {
            lemma_line_value_split(seq![l[0]], occupied(l.skip(1)));
            lemma_singleton_value(l[0]);
        }
    }
}

pub proof fn lemma_occupied_nonzero(l: Seq<u8>)
    ensures
        forall|i: int| 0 <= i < occupied(l).len() ==> occupied(l)[i] != 0,
    decreases l.len(),
{
    if l.len() > 0 {
        lemma_occupied_nonzero(l.skip(1));
        if l[0] == 0 {
            assert(occupied(l) == occupied(l.skip(1)));
            assert forall|i: int| 0 <= i < occupied(l).len() implies occupied(l)[i] != 0 by {
                assert(occupied(l)[i] == occupied(l.skip(1))[i]);
            }
        } else {
            assert forall|i: int| 0 <= i < occupied(l).len() implies occupied(l)[i] != 0 by {
                if i > 0 {
                    assert(occupied(l)[i] == occupied(l.skip(1))[i - 1]);
                }
            }
        }
    }
}

/// Every cell's value is bounded by its line's value.
pub proof fn lemma_value_component(l: Seq<u8>, i: int)
    requires
        0 <= i < l.len(),
    ensures
        tile_value(l[i]) <= line_value(l),
    decreases l.len(),
{
    if i > 0 {
        lemma_value_component(l.skip(1), i - 1);
    }
}

/// A power of two that fits in a u64 has an exponent under 64.
pub proof fn lemma_small_exponent(e: nat)
    requires
        pow2(e) <= u64::MAX,
    ensures
        e < 64,
{
    if e >= 64 {
        lemma2_to64_rest();
        if e > 64 {
            lemma_pow2_strictly_increases(64, e);
        }
    }
}

/// A four-cell line's value, written out cell by cell.
pub proof fn lemma_line_value4(l: Seq<u8>)
    requires
        l.len() == 4,
    ensures
        line_value(l) == tile_value(l[0]) + tile_value(l[1]) + tile_value(l[2]) + tile_value(
            l[3],
        ),
{
    reveal_with_fuel(line_value, 5);
    assert(l.skip(1).skip(1) =~= l.skip(2));
    assert(l.skip(2).skip(1) =~= l.skip(3));
    assert(l.skip(3).skip(1) =~= l.skip(4));
    assert(l.skip(4).len() == 0);
}

/// Combining conserves the summed value: two rank-`r` tiles are worth
/// exactly the one rank-`r + 1` tile they become.
pub proof fn lemma_combined_value(ts: Seq<u8>)
    requires
        forall|i: int| 0 <= i < ts.len() ==> ts[i] != 0,
        line_value(ts) <= u64::MAX,
    ensures
        line_value(combined(ts)) == line_value(ts),
    decreases ts.len(),
{
    if ts.len() >= 2 {
        assert(ts.skip(1).skip(1) =~= ts.skip(2));
        lemma_line_value_two(ts);
        if ts[0] == ts[1] {
            let r = ts[0];
            lemma_value_component(ts, 0);
            assert(pow2(r as nat) <= line_value(ts));
            lemma_small_exponent(r as nat);
            lemma_pow2_unfold((r + 1) as nat);
            assert(pow2((r + 1) as nat) == 2 * pow2(r as nat));
            lemma_combined_value(ts.skip(2));
            lemma_line_value_split(seq![(r + 1) as u8], combined(ts.skip(2)));
            lemma_singleton_value((r + 1) as u8);
            assert(tile_value((r + 1) as u8) == pow2((r + 1) as nat));
        } else {
            lemma_combined_value(ts.skip(1));
            lemma_line_value_split(seq![ts[0]], combined(ts.skip(1)));
            lemma_singleton_value(ts[0]);
        }
    }
}

/// The score of a merge pass never exceeds the value of the line it ran on.
pub proof fn lemma_combine_score_bound(ts: Seq<u8>)
    requires
        forall|i: int| 0 <= i < ts.len() ==> ts[i] != 0,
    ensures
        combine_score(ts) <= line_value(ts),
    decreases ts.len(),
{
    if ts.len() >= 2 {
        assert(ts.skip(1).skip(1) =~= ts.skip(2));
        lemma_line_value_two(ts);
        if ts[0] == ts[1] {
            lemma_pow2_unfold((ts[0] + 1) as nat);
            assert(pow2((ts[0] + 1) as nat) == 2 * pow2(ts[0] as nat));
            lemma_combine_score_bound(ts.skip(2));
        } else {
            lemma_combine_score_bound(ts.skip(1));
            assert(line_value(ts) == tile_value(ts[0]) + line_value(ts.skip(1)));
        }
    }
}

/// The tiles a merge pass leaves are all real tiles.
pub proof fn lemma_combined_nonzero(ts: Seq<u8>)
    requires
        forall|i: int| 0 <= i < ts.len() ==> ts[i] != 0,
        line_value(ts) <= u64::MAX,
    ensures
        forall|i: int| 0 <= i < combined(ts).len() ==> combined(ts)[i] != 0,
    decreases ts.len(),
{
    if ts.len() >= 2 {
        assert(ts.skip(1).skip(1) =~= ts.skip(2));
        lemma_line_value_two(ts);
        if ts[0] == ts[1] {
            let r = ts[0];
            lemma_value_component(ts, 0);
            lemma_small_exponent(r as nat);
            lemma_combined_nonzero(ts.skip(2));
            assert forall|i: int| 0 <= i < combined(ts).len() implies combined(ts)[i] != 0 by {
                if i > 0 {
                    assert(combined(ts)[i] == combined(ts.skip(2))[i - 1]);
                }
            }
        } else {
            lemma_combined_nonzero(ts.skip(1));
            assert forall|i: int| 0 <= i < combined(ts).len() implies combined(ts)[i] != 0 by {
                if i > 0 {
                    assert(combined(ts)[i] == combined(ts.skip(1))[i - 1]);
                }
            }
        }
    }
}

/// Packing a sequence of real tiles and reading the occupied cells back
/// gives the same tiles.
pub proof fn lemma_occupied_pad(ts: Seq<u8>, n: nat)
    requires
        forall|i: int| 0 <= i < ts.len() ==> ts[i] != 0,
    ensures
        occupied(ts + zero_fill(n)) == ts,
    decreases ts.len() + n,
{
    if ts.len() == 0 {
        if n == 0 {
            assert(ts + zero_fill(n) =~= Seq::<u8>::empty());
        } else {
            assert((ts + zero_fill(n))[0] == 0);
            assert((ts + zero_fill(n)).skip(1) =~= Seq::<u8>::empty() + zero_fill((n - 1) as nat));
            lemma_occupied_pad(Seq::empty(), (n - 1) as nat);
            assert(Seq::<u8>::empty() + zero_fill((n - 1) as nat) =~= zero_fill((n - 1) as nat));
            assert(ts + zero_fill((n - 1) as nat) =~= zero_fill((n - 1) as nat));
        }
    } else {
        assert((ts + zero_fill(n))[0] == ts[0]);
        assert((ts + zero_fill(n)).skip(1) =~= ts.skip(1) + zero_fill(n));
        lemma_occupied_pad(ts.skip(1), n);
        assert(seq![ts[0]] + ts.skip(1) =~= ts);
    }
}

/// A packed line stays packed.
pub proof fn lemma_packed_is_packed(l: Seq<u8>)
    ensures
        is_packed(packed(l)),
{
    lemma_occupied_len(l);
    lemma_occupied_nonzero(l);
    assert forall|i: int, j: int|
        0 <= i < j < packed(l).len() && packed(l)[i] == 0 implies packed(l)[j] == 0 by {
        assert(i >= occupied(l).len());
    }
}

/// Packing a line does not change which tiles it holds.
pub proof fn lemma_occupied_packed(l: Seq<u8>)
    ensures
        occupied(packed(l)) == occupied(l),
{
    lemma_occupied_len(l);
    lemma_occupied_nonzero(l);
    lemma_occupied_pad(occupied(l), (l.len() - occupied(l).len()) as nat);
}

/// The score a move earns on a line never exceeds the line's value.
pub proof fn lemma_line_gain_le_value(l: Seq<u8>)
    ensures
        line_gain(l) <= line_value(l),
{
    lemma_occupied_nonzero(l);
    lemma_combine_score_bound(occupied(l));
    lemma_occupied_value(l);
}

/// Packing conserves a line's value.
pub proof fn lemma_packed_value(l: Seq<u8>)
    ensures
        line_value(packed(l)) == line_value(l),
{
    lemma_occupied_value(packed(l));
    lemma_occupied_packed(l);
    lemma_occupied_value(l);
}

/// One move conserves a line's value.
pub proof fn lemma_moved_line_value(l: Seq<u8>)
    requires
        line_value(l) <= u64::MAX,
    ensures
        line_value(moved_line(l)) == line_value(l),
{
    lemma_occupied_value(l);
    lemma_occupied_nonzero(l);
    lemma_combined_value(occupied(l));
    let ts = combined(occupied(l));
    lemma_line_value_split(ts, zero_fill((l.len() - ts.len()) as nat));
    lemma_zero_fill_value((l.len() - ts.len()) as nat);
}

pub proof fn lemma_combined_len(ts: Seq<u8>)
    ensures
        combined(ts).len() <= ts.len(),
    decreases ts.len(),
{
    if ts.len() >= 2 {
        if ts[0] == ts[1] {
            lemma_combined_len(ts.skip(2));
        } else {
            lemma_combined_len(ts.skip(1));
        }
    }
}

/// A move keeps a line's length.
pub proof fn lemma_moved_line_len(l: Seq<u8>)
    ensures
        moved_line(l).len() == l.len(),
{
    lemma_occupied_len(l);
    lemma_combined_len(occupied(l));
}

/// Every rank a merge pass leaves is at most one above some rank it was
/// given.
pub proof fn lemma_combined_rank(ts: Seq<u8>, i: int)
    requires
        0 <= i < combined(ts).len(),
    ensures
        exists|j: int| 0 <= j < ts.len() && combined(ts)[i] <= ts[j] + 1,
    decreases ts.len(),
{
    if ts.len() < 2 {
        assert(combined(ts)[i] <= ts[i] + 1);
    } else if ts[0] == ts[1] {
        if i == 0 {
            assert(combined(ts)[0] <= ts[0] + 1);
        } else {
            assert(combined(ts)[i] == combined(ts.skip(2))[i - 1]);
            lemma_combined_rank(ts.skip(2), i - 1);
            let j2 = choose|j: int|
                0 <= j < ts.skip(2).len() && combined(ts.skip(2))[i - 1] <= ts.skip(2)[j] + 1;
            assert(0 <= j2 + 2 < ts.len() && combined(ts)[i] <= ts[j2 + 2] + 1);
        }
    } else {
        if i == 0 {
            assert(combined(ts)[0] <= ts[0] + 1);
        } else {
            assert(combined(ts)[i] == combined(ts.skip(1))[i - 1]);
            lemma_combined_rank(ts.skip(1), i - 1);
            let j1 = choose|j: int|
                0 <= j < ts.skip(1).len() && combined(ts.skip(1))[i - 1] <= ts.skip(1)[j] + 1;
            assert(0 <= j1 + 1 < ts.len() && combined(ts)[i] <= ts[j1 + 1] + 1);
        }
    }
}

/// Every occupied rank comes from some cell of the line.
pub proof fn lemma_occupied_member(l: Seq<u8>, i: int)
    requires
        0 <= i < occupied(l).len(),
    ensures
        exists|j: int| 0 <= j < l.len() && occupied(l)[i] == l[j],
    decreases l.len(),
{
    if l[0] == 0 {
        assert(occupied(l)[i] == occupied(l.skip(1))[i]);
        lemma_occupied_member(l.skip(1), i);
        let j1 = choose|j: int| 0 <= j < l.skip(1).len() && occupied(l.skip(1))[i] == l.skip(1)[j];
        assert(0 <= j1 + 1 < l.len() && occupied(l)[i] == l[j1 + 1]);
    } else if i == 0 {
        assert(occupied(l)[0] == l[0]);
    } else {
        assert(occupied(l)[i] == occupied(l.skip(1))[i - 1]);
        lemma_occupied_member(l.skip(1), i - 1);
        let j1 = choose|j: int|
            0 <= j < l.skip(1).len() && occupied(l.skip(1))[i - 1] == l.skip(1)[j];
        assert(0 <= j1 + 1 < l.len() && occupied(l)[i] == l[j1 + 1]);
    }
}

/// No tile a move leaves in a line outranks every tile that stood in that
/// line before the move by more than one: a tile merges at most once per
/// move.
pub proof fn lemma_move_rank_bound(l: Seq<u8>, i: int)
    requires
        l.len() == 4,
        0 <= i < 4,
        moved_line(l)[i] != 0,
    ensures
        exists|j: int| 0 <= j < 4 && l[j] != 0 && moved_line(l)[i] <= l[j] + 1,
{
    let ts = occupied(l);
    let cts = combined(ts);
    lemma_occupied_len(l);
    lemma_combined_len(ts);
    lemma_occupied_nonzero(l);
    assert(i < cts.len());
    assert(moved_line(l)[i] == cts[i]);
    lemma_combined_rank(ts, i);
    let j1 = choose|j: int| 0 <= j < ts.len() && cts[i] <= ts[j] + 1;
    lemma_occupied_member(l, j1);
    let j = choose|j: int| 0 <= j < l.len() && ts[j1] == l[j];
    assert(0 <= j < 4 && l[j] != 0 && moved_line(l)[i] <= l[j] + 1);
}

/// A merge pass that moves nothing scores nothing.
pub proof fn lemma_fixed_combine_no_score(ts: Seq<u8>)
    requires
        combined(ts) == ts,
    ensures
        combine_score(ts) == 0,
    decreases ts.len(),
{
    if ts.len() >= 2 {
        if ts[0] == ts[1] {
            lemma_combined_len(ts.skip(2));
            assert(combined(ts).len() < ts.len());
        } else {
            assert forall|i: int| 0 <= i < ts.skip(1).len() implies combined(ts.skip(1))[i]
                == ts.skip(1)[i] by {
                assert(combined(ts.skip(1))[i] == combined(ts)[i + 1]);
            }
            assert(combined(ts.skip(1)).len() == ts.len() - 1);
            assert(combined(ts.skip(1)) =~= ts.skip(1));
            lemma_fixed_combine_no_score(ts.skip(1));
        }
    }
}

/// A move that leaves a line as it stood earns no score on it.
pub proof fn lemma_still_line_no_gain(l: Seq<u8>)
    requires
        l.len() == 4,
        line_value(l) <= u64::MAX,
        moved_line(l) == l,
    ensures
        line_gain(l) == 0,
{
    let ts = occupied(l);
    lemma_occupied_nonzero(l);
    lemma_occupied_value(l);
    lemma_occupied_len(l);
    lemma_combined_nonzero(ts);
    lemma_combined_len(ts);
    lemma_occupied_pad(combined(ts), (l.len() - combined(ts).len()) as nat);
    assert(occupied(moved_line(l)) == combined(ts));
    assert(combined(ts) == ts);
    lemma_fixed_combine_no_score(ts);
}

/// One sliding pass over a line of the board.
pub fn slide_line_once(l: &mut [u8; 4])
    ensures
        final(l)@ == slide_step(old(l)@),
{
    if l[2] == 0 && l[3] != 0 {
        l[2] = l[3];
        l[3] = 0;
    }
    if l[1] == 0 && l[2] != 0 {
        l[1] = l[2];
        l[2] = 0;
    }
    if l[0] == 0 && l[1] != 0 {
        l[0] = l[1];
        l[1] = 0;
    }
    proof {
        assert(l@ =~= slide_step(old(l)@));
    }
}

/// `2^e` as a machine word.
pub fn pow2_u64(e: u8) -> (r: u64)
    requires
        (e as nat) < 64,
    ensures
        r as nat == pow2(e as nat),
{
    let mut r: u64 = 1;
    let mut i: u8 = 0;
    proof {
        lemma2_to64();
    }
    while i < e
        invariant
            i <= e,
            (e as nat) < 64,
            r as nat == pow2(i as nat),
        decreases e - i,
    {
        proof {
            lemma_pow2_unfold((i + 1) as nat);
            if ((i + 1) as nat) < 63 {
                lemma_pow2_strictly_increases((i + 1) as nat, 63);
            }
            lemma2_to64_rest();
        }
        r = r * 2;
        i = i + 1;
    }
    r
}

/// The merge pass of a move on a packed line: scanning outward from the
/// edge, a pair of equal adjacent tiles combines into the cell nearer the
/// edge, which steps up one rank; the emptied cell keeps a later pair from
/// combining with the new tile.  Returns the score the pass earns.
pub fn combine_line(l: &mut [u8; 4]) -> (gain: u64)
    requires
        is_packed(old(l)@),
        line_value(old(l)@) <= u64::MAX,
    ensures
        occupied(final(l)@) == combined(occupied(old(l)@)),
        gain as nat == combine_score(occupied(old(l)@)),
{
    proof {
        lemma_line_value4(old(l)@);
        lemma_pow2_pos(old(l)@[0] as nat);
        lemma_pow2_pos(old(l)@[1] as nat);
        lemma_pow2_pos(old(l)@[2] as nat);
        if old(l)@[0] != 0 && old(l)@[0] == old(l)@[1] {
            lemma_pow2_unfold((old(l)@[0] + 1) as nat);
            lemma_small_exponent((old(l)@[0] + 1) as nat);
        }
        if old(l)@[1] != 0 && old(l)@[1] == old(l)@[2] {
            lemma_pow2_unfold((old(l)@[1] + 1) as nat);
            lemma_small_exponent((old(l)@[1] + 1) as nat);
        }
        if old(l)@[2] != 0 && old(l)@[2] == old(l)@[3] {
            lemma_pow2_unfold((old(l)@[2] + 1) as nat);
            lemma_small_exponent((old(l)@[2] + 1) as nat);
        }
    }
    let mut gain: u64 = 0;
    if l[0] != 0 && l[0] == l[1] {
        l[0] = l[0] + 1;
        l[1] = 0;
        gain = gain + pow2_u64(l[0]);
    }
    if l[1] != 0 && l[1] == l[2] {
        l[1] = l[1] + 1;
        l[2] = 0;
        gain = gain + pow2_u64(l[1]);
    }
    if l[2] != 0 && l[2] == l[3] {
        l[2] = l[2] + 1;
        l[3] = 0;
        gain = gain + pow2_u64(l[2]);
    }
    proof {
        reveal_with_fuel(occupied, 5);
        reveal_with_fuel(combined, 5);
        reveal_with_fuel(combine_score, 5);
        assert(occupied(l@) =~= combined(occupied(old(l)@)));
    }
    gain
}

} // verus!
