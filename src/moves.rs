//! The moves of a rule set, and the ones legal on a given board.
use vstd::prelude::*;
use crate::pyramide::{
    Coup,
    Direction,
    Orientation,
    Pyramide,
    Cell,
    is_diagonal,
    is_theoretical,
    move_valid_on,
    cells_after,
    pegs_of,
};
use crate::layout::peg_count;

verus! {

/// Position of an orientation in the order moves are listed; `-1` when the
/// rules do not allow it.
pub open spec fn orientation_rank(diag_allowed: bool, o: Orientation) -> int {
    if diag_allowed {
        match o {
            Orientation::DiagonalD => 0,
            Orientation::DiagonalG => 1,
            Orientation::Horizontal => 2,
            Orientation::Vertical => 3,
        }
    } else {
        match o {
            Orientation::Horizontal => 0,
            Orientation::Vertical => 1,
            _ => -1,
        }
    }
}

pub open spec fn direction_rank(d: Direction) -> int {
    match d {
        Direction::Bas => 0,
        Direction::Haut => 1,
    }
}

/// Whether `m` comes before position (`a`, `b`, `c`) of the listing: orientation
/// rank, direction rank, then centre.
pub open spec fn listed_before(diag_allowed: bool, m: Coup, a: int, b: int, c: int) -> bool {
    let ra = orientation_rank(diag_allowed, m.orientation);
    let rb = direction_rank(m.dir);
    &&& ra >= 0
    &&& ra < a || (ra == a && rb < b) || (ra == a && rb == b && m.mil < c)
}

/// Number of orientations the rules allow.
pub open spec fn orientation_count(diag_allowed: bool) -> nat {
    if diag_allowed {
        4
    } else {
        2
    }
}

/// The moves of `keep` that are legal on `b`, in their order.
pub open spec fn legal_among(b: Pyramide, keep: Seq<Coup>) -> Seq<Coup>
    decreases keep.len(),
{
    if keep.len() == 0 {
        Seq::empty()
    } else {
        let rest = legal_among(b, keep.drop_last());
        if b.valid_move(keep.last()) {
            rest.push(keep.last())
        } else {
            rest
        }
    }
}

/// Every well-formed move of the rules of `pyra`, each once: every centre, every
/// allowed orientation, both directions.
pub fn coups_theoriques(pyra: &Pyramide) -> (r: Vec<Coup>)
    requires
        pyra.wf(),
    ensures
        r@.no_duplicates(),
        forall|m: Coup| r@.contains(m) <==> is_theoretical(pyra.rules(), m),
        r@.len() == pyra.lines * pyra.lines * 2 * orientation_count(pyra.diag_allowed),
{
    assert(pyra.lines * pyra.lines <= 121) by (nonlinear_arith)
        requires
            pyra.lines <= 11,
    ;
    let nn = pyra.lines * pyra.lines;
    let diag = pyra.diag_allowed;
    let orients: Vec<Orientation> = if diag {
        vec![
            Orientation::DiagonalD,
            Orientation::DiagonalG,
            Orientation::Horizontal,
            Orientation::Vertical,
        ]
    } else {
        vec![Orientation::Horizontal, Orientation::Vertical]
    };
    let directions = [Direction::Bas, Direction::Haut];
    let mut res: Vec<Coup> = Vec::new();
    let mut a: usize = 0;
    assert(0 * 2 * nn == 0) by (nonlinear_arith);
    while a < orients.len()
        invariant
            nn == pyra.lines * pyra.lines,
            nn <= 121,
            diag == pyra.diag_allowed,
            orients@.len() == orientation_count(diag),
            forall|i: int|
                0 <= i < orients@.len() ==> orientation_rank(diag, #[trigger] orients@[i]) == i,
            directions@ == seq![Direction::Bas, Direction::Haut],
            a <= orients@.len(),
            res@.len() == a * 2 * nn,
            res@.no_duplicates(),
            forall|m: Coup|
                res@.contains(m) <==> (m.mil < nn && listed_before(diag, m, a as int, 0, 0)),
        decreases orients@.len() - a,
    {
        let orientation = orients[a];
        let mut b: usize = 0;
        while b < 2
            invariant
                nn == pyra.lines * pyra.lines,
                nn <= 121,
                diag == pyra.diag_allowed,
                orients@.len() == orientation_count(diag),
                a < orients@.len(),
                orientation == orients@[a as int],
                orientation_rank(diag, orientation) == a,
                directions@ == seq![Direction::Bas, Direction::Haut],
                b <= 2,
                res@.len() == a * 2 * nn + b * nn,
                res@.no_duplicates(),
                forall|m: Coup|
                    res@.contains(m) <==> (m.mil < nn && listed_before(
                        diag,
                        m,
                        a as int,
                        b as int,
                        0,
                    )),
            decreases 2 - b,
        {
            let dir = directions[b];
            let mut mil: usize = 0;
            while mil < nn
                invariant
                    nn == pyra.lines * pyra.lines,
                    nn <= 121,
                    a < orients@.len(),
                    orientation_rank(diag, orientation) == a,
                    b < 2,
                    direction_rank(dir) == b,
                    mil <= nn,
                    res@.len() == a * 2 * nn + b * nn + mil,
                    res@.no_duplicates(),
                    forall|m: Coup|
                        res@.contains(m) <==> (m.mil < nn && listed_before(
                            diag,
                            m,
                            a as int,
                            b as int,
                            mil as int,
                        )),
                decreases nn - mil,
            {
                assert(a * 2 * nn + b * nn + mil < 4 * 2 * 121) by (nonlinear_arith)
                    requires
                        a < 4,
                        b < 2,
                        mil < nn,
                        nn <= 121,
                ;
                let m = Coup { mil, orientation, dir };
                let ghost before = res@;
                res.push(m);
                proof {
                    assert forall|x: Coup| res@.contains(x) <==> (x.mil < nn && listed_before(
                        diag,
                        x,
                        a as int,
                        b as int,
                        mil + 1,
                    )) by {
                        if res@.contains(x) {
                            let j = choose|j: int| 0 <= j < res@.len() && res@[j] == x;
                            if j < before.len() {
                                assert(before.contains(x));
                            }
                        }
                        if x.mil < nn && listed_before(diag, x, a as int, b as int, mil + 1) {
                            if x == m {
                                assert(res@[before.len() as int] == x);
                            } else {
                                assert(listed_before(diag, x, a as int, b as int, mil as int)) by {
                                    if orientation_rank(diag, x.orientation) == a
                                        && direction_rank(x.dir) == b && x.mil == mil {
                                        assert(x.orientation == orientation) by {
                                            if diag {
                                            } else {
                                            }
                                        }
                                        assert(x.dir == dir);
                                    }
                                }
                                assert(before.contains(x));
                                let j = choose|j: int| 0 <= j < before.len() && before[j] == x;
                                assert(res@[j] == x);
                            }
                        }
                    }
                    assert forall|i: int, j: int|
                        0 <= i < res@.len() && 0 <= j < res@.len() && i != j implies res@[i]
                        != res@[j] by {
                        if i < before.len() && j < before.len() {
                        } else if i < before.len() {
                            assert(before.contains(res@[i]));
                        } else if j < before.len() {
                            assert(before.contains(res@[j]));
                        }
                    }
                }
                mil = mil + 1;
            }
            proof {
                assert forall|x: Coup| #[trigger] res@.contains(x) <==> (x.mil < nn && listed_before(
                    diag,
                    x,
                    a as int,
                    b + 1,
                    0,
                )) by {}
            }
            b = b + 1;
            assert(res@.len() == a * 2 * nn + b * nn) by (nonlinear_arith)
                requires
                    res@.len() == a * 2 * nn + (b - 1) * nn + nn,
            ;
        }
        proof {
            assert forall|x: Coup| #[trigger] res@.contains(x) <==> (x.mil < nn && listed_before(
                diag,
                x,
                a + 1,
                0,
                0,
            )) by {
                let rb = direction_rank(x.dir);
                assert(0 <= rb < 2);
            }
        }
        a = a + 1;
        assert(res@.len() == a * 2 * nn) by (nonlinear_arith)
            requires
                res@.len() == (a - 1) * 2 * nn + 2 * nn,
        ;
    }
    assert(res@.len() == nn * 2 * orientation_count(diag)) by (nonlinear_arith)
        requires
            res@.len() == a * 2 * nn,
            a == orientation_count(diag),
    ;
    proof {
        assert forall|m: Coup| res@.contains(m) <==> is_theoretical(pyra.rules(), m) by {
            let ra = orientation_rank(diag, m.orientation);
            assert(ra < orientation_count(diag));
            assert(ra >= 0 <==> (diag || !is_diagonal(m.orientation)));
        }
    }
    res
}

/// The moves of `coups` that are legal on `pyramide`, in their order; `None`
/// when there is none.
pub fn cherche_coups_possibles(pyramide: &Pyramide, coups: &Vec<Coup>) -> (r: Option<Vec<Coup>>)
    requires
        pyramide.wf(),
    ensures
        r is None <==> legal_among(*pyramide, coups@).len() == 0,
        r is Some ==> r->0@ == legal_among(*pyramide, coups@),
{
    let mut res: Vec<Coup> = Vec::new();
    let mut i: usize = 0;
    proof {
        assert(coups@.take(0) =~= Seq::<Coup>::empty());
    }
    while i < coups.len()
        invariant
            pyramide.wf(),
            i <= coups@.len(),
            res@ == legal_among(*pyramide, coups@.take(i as int)),
        decreases coups@.len() - i,
    {
        let m = coups[i];
        proof {
            assert(coups@.take(i + 1).drop_last() =~= coups@.take(i as int));
        }
        if pyramide.is_coup_valid(&m) {
            res.push(m);
        }
        i = i + 1;
    }
    proof {
        assert(coups@.take(coups@.len() as int) =~= coups@);
    }
    if res.len() > 0 {
        Some(res)
    } else {
        None
    }
}

/// A move is legal among a list iff it is in the list and legal on the board.
pub proof fn lemma_legal_among(b: Pyramide, keep: Seq<Coup>, m: Coup)
    ensures
        legal_among(b, keep).contains(m) <==> (keep.contains(m) && b.valid_move(m)),
    decreases keep.len(),
{
    if keep.len() > 0 {
        let rest = keep.drop_last();
        lemma_legal_among(b, rest, m);
        if keep.contains(m) && m != keep.last() {
            let j = choose|j: int| 0 <= j < keep.len() && keep[j] == m;
            assert(rest[j] == m);
        }
        if rest.contains(m) {
            let j = choose|j: int| 0 <= j < rest.len() && rest[j] == m;
            assert(keep[j] == m);
        }
        if b.valid_move(keep.last()) {
            let l = legal_among(b, rest);
            assert(l.push(keep.last())[l.len() as int] == keep.last());
            assert(keep[keep.len() - 1] == keep.last());
            if l.push(keep.last()).contains(m) && m != keep.last() {
                let j = choose|j: int| 0 <= j < l.len() + 1 && l.push(keep.last())[j] == m;
                assert(l[j] == m);
            }
            if l.contains(m) {
                let j = choose|j: int| 0 <= j < l.len() && l[j] == m;
                assert(l.push(keep.last())[j] == m);
            }
        } else {
            assert(keep[keep.len() - 1] == keep.last());
        }
    }
}

/// Plays `moves` in order on the buffer `cells` until one is not legal or the
/// game is won; gives the buffer reached and the move that was not legal, if any.
pub open spec fn play(n: int, diag_allowed: bool, cells: Seq<Cell>, moves: Seq<Coup>) -> (
    Seq<Cell>,
    Option<Coup>,
)
    decreases moves.len(),
{
    if moves.len() == 0 {
        (cells, None)
    } else if !move_valid_on(n, diag_allowed, cells, moves[0]) {
        (cells, Some(moves[0]))
    } else {
        let next = cells_after(n, cells, moves[0]);
        if peg_count(pegs_of(n, next)) == 1 {
            (next, None)
        } else {
            play(n, diag_allowed, next, moves.drop_first())
        }
    }
}

/// Plays `coups` in order, stopping once the game is won. The first move that
/// is not legal stops the sequence and is returned; the moves before it stay played.
pub fn enchainer_coups(coups: Vec<Coup>, pyramide: &mut Pyramide) -> (r: Result<(), Coup>)
    requires
        old(pyramide).wf(),
    ensures
        final(pyramide).wf(),
        final(pyramide).lines == old(pyramide).lines,
        final(pyramide).diag_allowed == old(pyramide).diag_allowed,
        final(pyramide).cells@ == play(
            old(pyramide).lines as int,
            old(pyramide).diag_allowed,
            old(pyramide).cells@,
            coups@,
        ).0,
        match r {
            Ok(()) => play(
                old(pyramide).lines as int,
                old(pyramide).diag_allowed,
                old(pyramide).cells@,
                coups@,
            ).1 is None,
            Err(c) => play(
                old(pyramide).lines as int,
                old(pyramide).diag_allowed,
                old(pyramide).cells@,
                coups@,
            ).1 == Some(c),
        },
{
    let ghost n = pyramide.lines as int;
    let ghost diag = pyramide.diag_allowed;
    let ghost outcome = play(n, diag, pyramide.cells@, coups@);
    let ghost lines = pyramide.lines;
    let mut i: usize = 0;
    proof {
        assert(coups@.skip(0) =~= coups@);
    }
    while i < coups.len()
        invariant
            pyramide.wf(),
            pyramide.lines == lines,
            lines == old(pyramide).lines,
            diag == old(pyramide).diag_allowed,
            outcome == play(n, diag, old(pyramide).cells@, coups@),
            n == lines as int,
            pyramide.diag_allowed == diag,
            i <= coups@.len(),
            outcome == play(n, diag, pyramide.cells@, coups@.skip(i as int)),
        decreases coups@.len() - i,
    {
        let coup = coups[i];
        assert(coups@.skip(i as int)[0] == coup);
        let played = pyramide.coup(&coup);
        if played.is_err() {
            return Err(coup);
        }
        if pyramide.partie_gagne() {
            return Ok(());
        }
        assert(coups@.skip(i as int).drop_first() =~= coups@.skip(i + 1));
        i = i + 1;
    }
    Ok(())
}

} // verus!
