//! The Towers of Hanoi.

use vstd::prelude::*;

verus! {

/// One of the three pegs.
#[derive(Clone, Copy, Debug, PartialEq, Eq, Structural)]
pub enum Peg {
    A,
    B,
    C,
}

/// A move between two pegs: (source, destination).
pub type Move = (Peg, Peg);

/// The moves that take `n` discs from `src` to `dst` by way of `aux`: the
/// `n - 1` smaller discs go to `aux`, the largest goes to `dst`, and the
/// smaller ones follow it.
pub open spec fn hanoi_moves(n: nat, src: Peg, aux: Peg, dst: Peg) -> Seq<Move>
    decreases n,
{
    if n == 0 {
        Seq::empty()
    } else {
        hanoi_moves((n - 1) as nat, src, dst, aux).push((src, dst)) + hanoi_moves(
            (n - 1) as nat,
            aux,
            src,
            dst,
        )
    }
}

/// Two to the power `n`.
pub open spec fn pow2(n: nat) -> nat
    decreases n,
{
    if n == 0 {
        1
    } else {
        2 * pow2((n - 1) as nat)
    }
}

/// Solves for the sequence of moves that takes all discs from `src` to
/// `dst`.
pub fn hanoi(num_discs: u32, src: Peg, aux: Peg, dst: Peg) -> (moves: Vec<Move>)
    ensures
        moves@ == hanoi_moves(num_discs as nat, src, aux, dst),
    decreases num_discs,
{
    if num_discs == 0 {
        return Vec::new();
    }
    let mut moves: Vec<Move> = Vec::new();
    let mut first = hanoi(num_discs - 1, src, dst, aux);
    moves.append(&mut first);
    moves.push((src, dst));
    let mut second = hanoi(num_discs - 1, aux, src, dst);
    moves.append(&mut second);
    assert(moves@ =~= hanoi_moves(num_discs as nat, src, aux, dst));
    moves
}

/// Moving `n` discs takes two to the power `n`, less one, moves.
pub proof fn law_hanoi_length(n: nat, src: Peg, aux: Peg, dst: Peg)
    ensures
        hanoi_moves(n, src, aux, dst).len() == pow2(n) - 1,
    decreases n,
{
    if n > 0 {
        law_hanoi_length((n - 1) as nat, src, dst, aux);
        law_hanoi_length((n - 1) as nat, aux, src, dst);
    }
}

/// The discs on each peg, from the bottom up, each disc by its size.
pub type Piles = Map<Peg, Seq<nat>>;

/// A tower of the discs `n` down to 1, the largest at the bottom.
pub open spec fn tower(n: nat) -> Seq<nat> {
    Seq::new(n, |i: int| (n - i) as nat)
}

/// Whether every disc of the pile is larger than `n`.
pub open spec fn all_above(pile: Seq<nat>, n: nat) -> bool {
    forall|i: int| 0 <= i < pile.len() ==> #[trigger] pile[i] > n
}

/// The piles after the move, if the rules allow it: the top disc of one peg
/// goes onto another peg that is empty or has a larger disc on top.
pub open spec fn move_disc(piles: Piles, m: Move) -> Option<Piles> {
    let (from, to) = m;
    if from != to && piles[from].len() > 0 && (piles[to].len() == 0 || piles[from].last()
        < piles[to].last()) {
        Some(piles.insert(from, piles[from].drop_last()).insert(to, piles[to].push(piles[from].last())))
    } else {
        None
    }
}

/// The piles after the moves, made one after the other, if the rules allow
/// every one of them.
pub open spec fn play(piles: Piles, moves: Seq<Move>) -> Option<Piles>
    decreases moves.len(),
{
    if moves.len() == 0 {
        Some(piles)
    } else {
        match move_disc(piles, moves[0]) {
            Some(next) => play(next, moves.drop_first()),
            None => None,
        }
    }
}

/// Playing two lists of moves one after the other is playing the first and
/// then, from where it ends, the second.
proof fn lemma_play_both(piles: Piles, first: Seq<Move>, second: Seq<Move>)
    ensures
        play(piles, first + second) == match play(piles, first) {
            Some(next) => play(next, second),
            None => None,
        },
    decreases first.len(),
{
    if first.len() == 0 {
        assert(first + second =~= second);
    } else {
        assert((first + second)[0] == first[0]);
        assert((first + second).drop_first() =~= first.drop_first() + second);
        match move_disc(piles, first[0]) {
            Some(next) => {
                lemma_play_both(next, first.drop_first(), second);
            },
            None => {},
        }
    }
}

/// Discs that are all larger than `n` are larger than anything below `n`
/// too, and stay so with `n` itself on top.
proof fn lemma_above_less(pile: Seq<nat>, n: nat)
    requires
        n > 0,
        all_above(pile, n),
    ensures
        all_above(pile, (n - 1) as nat),
        all_above(pile.push(n), (n - 1) as nat),
{
    assert forall|i: int| 0 <= i < pile.len() implies #[trigger] pile[i] > n - 1 by {
        assert(pile[i] > n);
    }
    assert forall|i: int| 0 <= i < pile.push(n).len() implies #[trigger] pile.push(n)[i] > n
        - 1 by {
        if i < pile.len() {
            assert(pile[i] > n);
        }
    }
}

/// The disc `n` may go from the top of one peg onto another on which every
/// disc is larger.
proof fn lemma_largest_moves(piles: Piles, src: Peg, dst: Peg, under: Seq<nat>, n: nat)
    requires
        src != dst,
        piles[src] == under.push(n),
        all_above(piles[dst], n),
    ensures
        play(piles, seq![(src, dst)]) == Some(
            piles.insert(src, under).insert(dst, piles[dst].push(n)),
        ),
{
    let moves: Seq<Move> = seq![(src, dst)];
    assert(under.push(n).drop_last() =~= under);
    if piles[dst].len() > 0 {
        assert(piles[dst][piles[dst].len() - 1] > n);
    }
    let next = piles.insert(src, under).insert(dst, piles[dst].push(n));
    assert(move_disc(piles, moves[0]) == Some(next));
    assert(moves.drop_first() =~= Seq::<Move>::empty());
    assert(play(next, moves.drop_first()) == Some(next));
}

/// A tower of `n` discs is the disc `n` with a tower of `n - 1` on it.
proof fn lemma_tower_split(pile: Seq<nat>, n: nat)
    requires
        n > 0,
    ensures
        pile + tower(n) == pile.push(n) + tower((n - 1) as nat),
{
    assert(pile + tower(n) =~= pile.push(n) + tower((n - 1) as nat));
}

/// The moves for `n` discs are all allowed, and they take a tower of `n`
/// discs from the top of the source peg to the top of the destination peg,
/// when the three pegs differ and every other disc on them is larger. What
/// lies under the tower, and on the other pegs, is as before.
pub proof fn law_hanoi_moves_tower(
    n: nat,
    src: Peg,
    aux: Peg,
    dst: Peg,
    piles: Piles,
    under: Seq<nat>,
)
    requires
        src != aux && aux != dst && src != dst,
        piles.dom().contains(src) && piles.dom().contains(aux) && piles.dom().contains(dst),
        piles[src] == under + tower(n),
        all_above(under, n),
        all_above(piles[aux], n),
        all_above(piles[dst], n),
    ensures
        play(piles, hanoi_moves(n, src, aux, dst)) == Some(
            piles.insert(src, under).insert(dst, piles[dst] + tower(n)),
        ),
    decreases n,
{
    let end = piles.insert(src, under).insert(dst, piles[dst] + tower(n));
    if n == 0 {
        assert(under + tower(0) =~= under);
        assert(piles[dst] + tower(0) =~= piles[dst]);
        assert(end =~= piles);
    } else {
        let m = (n - 1) as nat;
        let first = hanoi_moves(m, src, dst, aux);
        let second = hanoi_moves(m, aux, src, dst);
        let middle: Seq<Move> = seq![(src, dst)];
        assert(hanoi_moves(n, src, aux, dst) =~= first + (middle + second));
        lemma_tower_split(under, n);
        lemma_tower_split(piles[dst], n);
        lemma_above_less(under, n);
        lemma_above_less(piles[aux], n);
        lemma_above_less(piles[dst], n);
        // The smaller discs go to the spare peg.
        law_hanoi_moves_tower(m, src, dst, aux, piles, under.push(n));
        let one = piles.insert(src, under.push(n)).insert(aux, piles[aux] + tower(m));
        assert(play(piles, first) == Some(one));
        // The largest disc goes to the destination.
        lemma_largest_moves(one, src, dst, under, n);
        let two = one.insert(src, under).insert(dst, piles[dst].push(n));
        assert(play(one, middle) == Some(two));
        // The smaller discs follow it.
        law_hanoi_moves_tower(m, aux, src, dst, two, piles[aux]);
        let three = two.insert(aux, piles[aux]).insert(dst, piles[dst].push(n) + tower(m));
        assert(play(two, second) == Some(three));
        assert(three =~= end);
        lemma_play_both(one, middle, second);
        lemma_play_both(piles, first, middle + second);
    }
}

} // verus!
