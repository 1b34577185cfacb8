//! Facts about the move rules that hold of every board.

use vstd::prelude::*;
use crate::board::{cell_at, in_bounds, other, Game, MoveError, Owner, Piece};
use crate::moves::{
    bishop_dirs, clear_path, is_candidate, is_direction, lemma_rays_apart, move_applied, open_to, queen_dirs, ray_hit, ray_point,
    rook_dirs, slide_hit,
};

verus! {

/// No piece may go to its own square or to a square held by its own side.
pub proof fn lemma_no_own_capture(
    b: Seq<Option<(Piece, Owner)>>,
    src: (int, int),
    dest: (int, int),
    piece: Piece,
    owner: Owner,
)
    requires
        cell_at(b, src) == Some((piece, owner)),
        is_candidate(b, src, dest),
    ensures
        dest != src,
        !(cell_at(b, dest) matches Some((_, o)) && o == owner),
{
}

/// A walk along one direction stops at the first occupied square: no square
/// beyond it along that direction is reached.
pub proof fn lemma_ray_stops_at_blocker(
    b: Seq<Option<(Piece, Owner)>>,
    src: (int, int),
    d: (i32, i32),
    owner: Owner,
    k: int,
    m: int,
)
    requires
        in_bounds(src),
        is_direction(d),
        1 <= k < m,
        cell_at(b, ray_point(src, d, k)) is Some,
    ensures
        !ray_hit(b, src, d, owner, ray_point(src, d, m)),
{
    if ray_hit(b, src, d, owner, ray_point(src, d, m)) {
        let j = choose|j: int|
            j >= 1 && ray_point(src, d, m) == #[trigger] ray_point(src, d, j) && open_to(
                b,
                ray_point(src, d, m),
                owner,
            ) && clear_path(b, src, d, j);
        assert(j == m);
        assert(in_bounds(ray_point(src, d, k)) && cell_at(b, ray_point(src, d, k)) is None);
    }
}

/// A rook, bishop or queen has no candidate beyond the first occupied square
/// along any of its directions.
pub proof fn lemma_slider_blocked(
    b: Seq<Option<(Piece, Owner)>>,
    src: (int, int),
    d: (i32, i32),
    k: int,
    m: int,
)
    requires
        in_bounds(src),
        cell_at(b, src) matches Some((p, _)) && (p == Piece::Rook || p == Piece::Bishop || p
            == Piece::Queen),
        is_direction(d),
        1 <= k < m,
        cell_at(b, ray_point(src, d, k)) is Some,
    ensures
        !is_candidate(b, src, ray_point(src, d, m)),
{
    let (piece, owner) = cell_at(b, src).unwrap();
    let dest = ray_point(src, d, m);
    let dirs = match piece {
        Piece::Rook => rook_dirs(),
        Piece::Bishop => bishop_dirs(),
        _ => queen_dirs(),
    };
    let n = dirs.len() as int;
    if is_candidate(b, src, dest) {
        assert(slide_hit(b, src, dirs, n, owner, dest));
        let j = choose|j: int| 0 <= j < n && #[trigger] ray_hit(b, src, dirs[j], owner, dest);
        let e = dirs[j];
        assert(is_direction(e));
        let mm = choose|mm: int|
            mm >= 1 && dest == #[trigger] ray_point(src, e, mm) && open_to(b, dest, owner)
                && clear_path(b, src, e, mm);
        lemma_rays_apart(src, d, e, m, mm);
        lemma_ray_stops_at_blocker(b, src, d, owner, k, m);
    }
}

/// A refused move changes nothing, so asking for it again is refused for the
/// same reason and again changes nothing.
pub proof fn lemma_refusal_repeats(
    g: Game,
    src: (usize, usize),
    dest: (usize, usize),
    r1: Result<(), MoveError>,
    g1: Game,
    r2: Result<(), MoveError>,
    g2: Game,
)
    requires
        g.wf(),
        move_applied(g, src, dest, r1, g1),
        move_applied(g1, src, dest, r2, g2),
        r1 is Err,
    ensures
        g1 == g,
        g2 == g,
        r2 == r1,
{
}

/// The turn passes to the other side on each accepted move and stays put on
/// each refused one.
pub proof fn lemma_turn_passes(
    g: Game,
    src: (usize, usize),
    dest: (usize, usize),
    r: Result<(), MoveError>,
    g1: Game,
)
    requires
        g.wf(),
        move_applied(g, src, dest, r, g1),
    ensures
        r is Ok ==> g1.turn == other(g.turn) && g1.turn != g.turn,
        r is Err ==> g1.turn == g.turn,
{
}

/// Two accepted moves in a row give the turn back to the side that started.
pub proof fn lemma_turn_returns(
    g: Game,
    s1: (usize, usize),
    d1: (usize, usize),
    g1: Game,
    s2: (usize, usize),
    d2: (usize, usize),
    g2: Game,
)
    requires
        g.wf(),
        move_applied(g, s1, d1, Ok(()), g1),
        move_applied(g1, s2, d2, Ok(()), g2),
    ensures
        g2.turn == g.turn,
{
}

} // verus!
