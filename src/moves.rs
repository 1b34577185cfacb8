//! Candidate destinations for each kind of piece, and the checked move.

use vstd::prelude::*;
use crate::board::{cell_at, in_bounds, index_of, moved, other, pos_int, Game, MoveError, Owner, Piece, Tile, BOARD_SIZE, NUM_SQUARES};

verus! {

/// The square `src` shifted by `d`.
pub open spec fn shifted(src: (int, int), d: (i32, i32)) -> (int, int) {
    (src.0 + d.0, src.1 + d.1)
}

/// `k` times a direction component that is -1, 0 or 1.
pub open spec fn scale(k: int, c: i32) -> int {
    if c > 0 {
        k
    } else if c < 0 {
        -k
    } else {
        0
    }
}

/// The square `k` steps from `src` in direction `d`.
pub open spec fn ray_point(src: (int, int), d: (i32, i32), k: int) -> (int, int) {
    (src.0 + scale(k, d.0), src.1 + scale(k, d.1))
}

/// A direction of travel for a sliding piece: one step in any of the eight ways.
pub open spec fn is_direction(d: (i32, i32)) -> bool {
    -1 <= d.0 <= 1 && -1 <= d.1 <= 1 && (d.0 != 0 || d.1 != 0)
}

pub open spec fn knight_offsets() -> Seq<(i32, i32)> {
    seq![(1i32, 2i32), (2i32, 1i32), (-1i32, 2i32), (-2i32, 1i32), (1i32, -2i32), (2i32, -1i32), (-1i32, -2i32), (-2i32, -1i32)]
}

pub open spec fn king_offsets() -> Seq<(i32, i32)> {
    seq![(-1i32, -1i32), (0i32, -1i32), (1i32, -1i32), (-1i32, 0i32), (1i32, 0i32), (-1i32, 1i32), (0i32, 1i32), (1i32, 1i32)]
}

pub open spec fn rook_dirs() -> Seq<(i32, i32)> {
    seq![(1i32, 0i32), (-1i32, 0i32), (0i32, 1i32), (0i32, -1i32)]
}

pub open spec fn bishop_dirs() -> Seq<(i32, i32)> {
    seq![(1i32, -1i32), (-1i32, -1i32), (1i32, 1i32), (-1i32, 1i32)]
}

pub open spec fn queen_dirs() -> Seq<(i32, i32)> {
    rook_dirs() + bishop_dirs()
}

/// The rank step of a pawn: White moves toward rank 0, Black away from it.
pub open spec fn forward(owner: Owner) -> int {
    match owner {
        Owner::White => -1,
        Owner::Black => 1,
    }
}

/// `p` is on the board and holds no piece of `owner`.
pub open spec fn open_to(b: Seq<Option<(Piece, Owner)>>, p: (int, int), owner: Owner) -> bool {
    in_bounds(p) && match cell_at(b, p) {
        Some((_, o)) => o != owner,
        None => true,
    }
}

/// `p` holds a piece of the side opposing `owner`.
pub open spec fn enemy_at(b: Seq<Option<(Piece, Owner)>>, p: (int, int), owner: Owner) -> bool {
    cell_at(b, p) matches Some((_, o)) && o != owner
}

/// `dest` is one of the first `n` fixed offsets from `src`, open to `owner`.
pub open spec fn jump_hit(
    b: Seq<Option<(Piece, Owner)>>,
    src: (int, int),
    offsets: Seq<(i32, i32)>,
    n: int,
    owner: Owner,
    dest: (int, int),
) -> bool {
    exists|j: int| 0 <= j < n && dest == #[trigger] shifted(src, offsets[j]) && open_to(b, dest, owner)
}

/// Every square strictly between `src` and the `k`-th step along `d` is on
/// the board and empty.
pub open spec fn clear_path(b: Seq<Option<(Piece, Owner)>>, src: (int, int), d: (i32, i32), k: int) -> bool {
    forall|j: int|
        1 <= j < k ==> in_bounds(#[trigger] ray_point(src, d, j)) && cell_at(b, ray_point(src, d, j)) is None
}

/// Walking from `src` along `d`, `dest` is reached over empty squares and is
/// itself empty or held by the other side.
pub open spec fn ray_hit(
    b: Seq<Option<(Piece, Owner)>>,
    src: (int, int),
    d: (i32, i32),
    owner: Owner,
    dest: (int, int),
) -> bool {
    exists|k: int|
        k >= 1 && dest == #[trigger] ray_point(src, d, k) && open_to(b, dest, owner) && clear_path(
            b,
            src,
            d,
            k,
        )
}

/// `dest` is reached along one of the first `n` directions of `dirs`.
pub open spec fn slide_hit(
    b: Seq<Option<(Piece, Owner)>>,
    src: (int, int),
    dirs: Seq<(i32, i32)>,
    n: int,
    owner: Owner,
    dest: (int, int),
) -> bool {
    exists|j: int| 0 <= j < n && #[trigger] ray_hit(b, src, dirs[j], owner, dest)
}

/// A pawn steps forward onto an empty square, or diagonally forward onto a
/// square held by the other side.
pub open spec fn pawn_hit(b: Seq<Option<(Piece, Owner)>>, src: (int, int), owner: Owner, dest: (int, int)) -> bool {
    let f = forward(owner);
    ||| (dest == (src.0, src.1 + f) && in_bounds(dest) && cell_at(b, dest) is None)
    ||| ((dest == (src.0 - 1, src.1 + f) || dest == (src.0 + 1, src.1 + f)) && enemy_at(b, dest, owner))
}

/// `dest` is a candidate destination for whatever stands on `src`.
pub open spec fn is_candidate(b: Seq<Option<(Piece, Owner)>>, src: (int, int), dest: (int, int)) -> bool {
    match cell_at(b, src) {
        None => false,
        Some((piece, owner)) => match piece {
            Piece::Pawn => pawn_hit(b, src, owner, dest),
            Piece::Knight => jump_hit(b, src, knight_offsets(), 8, owner, dest),
            Piece::King => jump_hit(b, src, king_offsets(), 8, owner, dest),
            Piece::Rook => slide_hit(b, src, rook_dirs(), 4, owner, dest),
            Piece::Bishop => slide_hit(b, src, bishop_dirs(), 4, owner, dest),
            Piece::Queen => slide_hit(b, src, queen_dirs(), 8, owner, dest),
        },
    }
}

/// Some piece of `by` has `target` among its candidates.
pub open spec fn attacked(b: Seq<Option<(Piece, Owner)>>, target: (int, int), by: Owner) -> bool {
    exists|q: (int, int)|
        (cell_at(b, q) matches Some((_, o)) && o == by) && #[trigger] is_candidate(b, q, target)
}

/// `owner` has a king on `b` and the other side attacks it.
pub open spec fn king_attacked(b: Seq<Option<(Piece, Owner)>>, owner: Owner) -> bool {
    exists|k: (int, int)| #[trigger] cell_at(b, k) == Some((Piece::King, owner)) && attacked(b, k, other(owner))
}

/// What a request to move from `src` to `dest` on grid `b` comes to.
pub open spec fn move_outcome(b: Seq<Option<(Piece, Owner)>>, src: (int, int), dest: (int, int)) -> Result<
    (),
    MoveError,
> {
    match cell_at(b, src) {
        None => Err(MoveError::InvalidSource),
        Some((_, owner)) => if !is_candidate(b, src, dest) {
            Err(MoveError::InvalidDest)
        } else if king_attacked(moved(b, index_of(src), index_of(dest)), owner) {
            Err(MoveError::Check)
        } else {
            Ok(())
        },
    }
}

/// `after` is `before` once a request to move from `src` to `dest` has
/// answered `r`: on success the piece has moved and the turn has passed; on
/// failure nothing has changed.
pub open spec fn move_applied(
    before: Game,
    src: (usize, usize),
    dest: (usize, usize),
    r: Result<(), MoveError>,
    after: Game,
) -> bool {
    &&& after.wf()
    &&& r == move_outcome(before.cells(), pos_int(src), pos_int(dest))
    &&& r is Ok ==> after.cells() == moved(
        before.cells(),
        index_of(pos_int(src)),
        index_of(pos_int(dest)),
    ) && after.turn == other(before.turn)
    &&& r is Err ==> after == before
}

/// `moves` holds exactly the positions that `hit` accepts, on top of `before`.
pub open spec fn extends_by(
    moves: Seq<(usize, usize)>,
    before: Seq<(usize, usize)>,
    hit: spec_fn((int, int)) -> bool,
) -> bool {
    forall|p: (usize, usize)| #[trigger] moves.contains(p) <==> before.contains(p) || hit(pos_int(p))
}

proof fn lemma_push_contains(s: Seq<(usize, usize)>, m: (usize, usize))
    ensures
        forall|p: (usize, usize)| #[trigger] s.push(m).contains(p) <==> s.contains(p) || p == m,
{
    assert forall|p: (usize, usize)| #[trigger] s.push(m).contains(p) <==> s.contains(p) || p == m by {
        if s.contains(p) {
            let i = choose|i: int| 0 <= i < s.len() && s[i] == p;
            assert(s.push(m)[i] == p);
        }
        if p == m {
            assert(s.push(m)[s.len() as int] == p);
        }
        if s.push(m).contains(p) && p != m {
            let i = choose|i: int| 0 <= i < s.len() + 1 && s.push(m)[i] == p;
            assert(s[i] == p);
        }
    }
}

proof fn lemma_push_no_duplicates(s: Seq<(usize, usize)>, m: (usize, usize))
    requires
        s.no_duplicates(),
        !s.contains(m),
    ensures
        s.push(m).no_duplicates(),
{
    assert forall|i: int, j: int|
        0 <= i < s.len() + 1 && 0 <= j < s.len() + 1 && i != j implies s.push(m)[i] != s.push(m)[j] by {
        if i == s.len() as int {
            assert(s[j] == s.push(m)[j]);
        } else if j == s.len() as int {
            assert(s[i] == s.push(m)[i]);
        }
    }
}

/// Two rays from one square meet again only when they share a direction.
pub proof fn lemma_rays_apart(src: (int, int), d: (i32, i32), e: (i32, i32), m: int, n: int)
    requires
        is_direction(d),
        is_direction(e),
        m >= 1,
        n >= 1,
        ray_point(src, d, m) == ray_point(src, e, n),
    ensures
        d == e,
        m == n,
{
}

/// Along a direction, distinct step counts reach distinct squares.
proof fn lemma_ray_injective(s: (int, int), d: (i32, i32), k1: int, k2: int)
    requires
        is_direction(d),
        ray_point(s, d, k1) == ray_point(s, d, k2),
    ensures
        k1 == k2,
{
}

/// When the `k`-th square along `d` is off the board or occupied, and the
/// squares before it are empty, the walk reaches exactly the squares before
/// it, and the `k`-th too when the other side holds it.
proof fn lemma_ray_stops(b: Seq<Option<(Piece, Owner)>>, s: (int, int), d: (i32, i32), owner: Owner, k: int, dest: (int, int))
    requires
        in_bounds(s),
        is_direction(d),
        k >= 1,
        clear_path(b, s, d, k),
        !in_bounds(ray_point(s, d, k)) || cell_at(b, ray_point(s, d, k)) is Some,
    ensures
        ray_hit(b, s, d, owner, dest) <==> (exists|j: int| 1 <= j < k && dest == #[trigger] ray_point(s, d, j))
            || (dest == ray_point(s, d, k) && open_to(b, dest, owner)),
{
    if ray_hit(b, s, d, owner, dest) {
        let m = choose|m: int|
            m >= 1 && dest == #[trigger] ray_point(s, d, m) && open_to(b, dest, owner) && clear_path(b, s, d, m);
        if m < k {
            assert(1 <= m < k && dest == ray_point(s, d, m));
        } else if m > k {
            assert(in_bounds(ray_point(s, d, k)) && cell_at(b, ray_point(s, d, k)) is None);
        }
    }
    if exists|j: int| 1 <= j < k && dest == #[trigger] ray_point(s, d, j) {
        let j = choose|j: int| 1 <= j < k && dest == #[trigger] ray_point(s, d, j);
        assert(in_bounds(ray_point(s, d, j)) && cell_at(b, ray_point(s, d, j)) is None);
        assert(clear_path(b, s, d, j));
    }
    if dest == ray_point(s, d, k) && open_to(b, dest, owner) {
        assert(ray_hit(b, s, d, owner, dest));
    }
}

impl Game {
    /// `src` shifted by `shift`; a coordinate that would fall below zero
    /// comes back as `usize::MAX`, which is off the board.
    pub fn general_move(src: (usize, usize), shift: (i32, i32)) -> (r: (usize, usize))
        requires
            src.0 <= i32::MAX,
            src.1 <= i32::MAX,
        ensures
            shifted(pos_int(src), shift).0 >= 0 ==> r.0 == shifted(pos_int(src), shift).0,
            shifted(pos_int(src), shift).0 < 0 ==> r.0 == usize::MAX,
            shifted(pos_int(src), shift).1 >= 0 ==> r.1 == shifted(pos_int(src), shift).1,
            shifted(pos_int(src), shift).1 < 0 ==> r.1 == usize::MAX,
    {
        let x = src.0 as i64 + shift.0 as i64;
        let y = src.1 as i64 + shift.1 as i64;
        let rx: usize = if x < 0 {
            usize::MAX
        } else {
            x as usize
        };
        let ry: usize = if y < 0 {
            usize::MAX
        } else {
            y as usize
        };
        (rx, ry)
    }
    /// `p` is on the board and holds no piece of `owner`.
    fn is_open_to(&self, p: (usize, usize), owner: Owner) -> (r: bool)
        requires
            self.wf(),
        ensures
            r == open_to(self.cells(), pos_int(p), owner),
    {
        if p.0 >= BOARD_SIZE || p.1 >= BOARD_SIZE {
            return false;
        }
        match self.squares[p.0 * BOARD_SIZE + p.1].occupant {
            Some((_, o)) => o != owner,
            None => true,
        }
    }

    /// `p` holds a piece of the side opposing `owner`.
    fn is_enemy_at(&self, p: (usize, usize), owner: Owner) -> (r: bool)
        requires
            self.wf(),
        ensures
            r == enemy_at(self.cells(), pos_int(p), owner),
    {
        if p.0 >= BOARD_SIZE || p.1 >= BOARD_SIZE {
            return false;
        }
        match self.squares[p.0 * BOARD_SIZE + p.1].occupant {
            Some((_, o)) => o != owner,
            None => false,
        }
    }

    /// Appends the fixed-offset destinations of a knight or king.
    fn jump_moves(
        &self,
        src: (usize, usize),
        owner: Owner,
        offsets: &Vec<(i32, i32)>,
        moves: &mut Vec<(usize, usize)>,
    )
        requires
            self.wf(),
            in_bounds(pos_int(src)),
            offsets@.no_duplicates(),
            old(moves)@.len() == 0,
        ensures
            extends_by(
                final(moves)@,
                old(moves)@,
                |p: (int, int)|
                    jump_hit(self.cells(), pos_int(src), offsets@, offsets@.len() as int, owner, p),
            ),
            final(moves)@.no_duplicates(),
    {
        let ghost before = moves@;
        let mut j: usize = 0;
        while j < offsets.len()
            invariant
                self.wf(),
                in_bounds(pos_int(src)),
                offsets@.no_duplicates(),
                before.len() == 0,
                moves@.no_duplicates(),
                j <= offsets@.len(),
                extends_by(
                    moves@,
                    before,
                    |p: (int, int)| jump_hit(self.cells(), pos_int(src), offsets@, j as int, owner, p),
                ),
            decreases offsets.len() - j,
        {
            let m = Self::general_move(src, offsets[j]);
            let ghost prev = moves@;
            if self.is_open_to(m, owner) {
                proof {
                    if prev.contains(m) {
                        let jj = choose|jj: int| 0 <= jj < j && pos_int(m) == #[trigger] shifted(pos_int(src), offsets@[jj]) && open_to(self.cells(), pos_int(m), owner);
                        assert(offsets@[jj] == offsets@[j as int]);
                    }
                    lemma_push_no_duplicates(prev, m);
                }
                moves.push(m);
            }
            proof {
                assert forall|p: (usize, usize)|
                    #[trigger] moves@.contains(p) <==> before.contains(p) || jump_hit(
                        self.cells(),
                        pos_int(src),
                        offsets@,
                        j + 1,
                        owner,
                        pos_int(p),
                    ) by {
                    if pos_int(p) == shifted(pos_int(src), offsets@[j as int]) && open_to(self.cells(), pos_int(p), owner) {
                        assert(p == m);
                        assert(moves@[moves@.len() - 1] == m);
                    }
                    if jump_hit(self.cells(), pos_int(src), offsets@, j + 1, owner, pos_int(p)) {
                        let jj = choose|jj: int| 0 <= jj < j + 1 && pos_int(p) == #[trigger] shifted(pos_int(src), offsets@[jj]) && open_to(self.cells(), pos_int(p), owner);
                        if jj < j {
                            assert(jump_hit(self.cells(), pos_int(src), offsets@, j as int, owner, pos_int(p)));
                            assert(prev.contains(p) || before.contains(p));
                        }
                    }
                    if prev.contains(p) {
                        let i = choose|i: int| 0 <= i < prev.len() && prev[i] == p;
                        assert(moves@[i] == p);
                    }
                    if moves@.contains(p) && !prev.contains(p) {
                        let i = choose|i: int| 0 <= i < moves@.len() && moves@[i] == p;
                        if i < prev.len() {
                            assert(prev[i] == p);
                        }
                    }
                }
            }
            j += 1;
        }
    }
    /// Appends the squares reached by walking from `src` along `d`: each empty
    /// square, then the first occupied one if the other side holds it.
    fn walk(&self, src: (usize, usize), owner: Owner, d: (i32, i32), moves: &mut Vec<(usize, usize)>)
        requires
            self.wf(),
            in_bounds(pos_int(src)),
            is_direction(d),
            old(moves)@.no_duplicates(),
            forall|p: (usize, usize)|
                #[trigger] old(moves)@.contains(p) ==> !ray_hit(self.cells(), pos_int(src), d, owner, pos_int(p)),
        ensures
            extends_by(
                final(moves)@,
                old(moves)@,
                |p: (int, int)| ray_hit(self.cells(), pos_int(src), d, owner, p),
            ),
            final(moves)@.no_duplicates(),
    {
        let ghost b = self.cells();
        let ghost s = pos_int(src);
        let ghost before = moves@;
        let mut cur = Self::general_move(src, d);
        let mut k: usize = 1;
        assert(ray_point(s, d, 1) == shifted(s, d));
        loop
            invariant_except_break
                1 <= k <= 8,
                in_bounds(ray_point(s, d, k as int)) ==> pos_int(cur) == ray_point(s, d, k as int),
                !in_bounds(ray_point(s, d, k as int)) ==> !in_bounds(pos_int(cur)),
                clear_path(b, s, d, k as int),
                extends_by(
                    moves@,
                    before,
                    |p: (int, int)| exists|j: int| 1 <= j < k && p == #[trigger] ray_point(s, d, j),
                ),
            invariant
                self.wf(),
                in_bounds(s),
                is_direction(d),
                b == self.cells(),
                s == pos_int(src),
                moves@.no_duplicates(),
                forall|p: (usize, usize)| #[trigger] before.contains(p) ==> !ray_hit(b, s, d, owner, pos_int(p)),
            ensures
                extends_by(moves@, before, |p: (int, int)| ray_hit(b, s, d, owner, p)),
                moves@.no_duplicates(),
            decreases 8 - k,
        {
            let ghost prev = moves@;
            if cur.0 >= BOARD_SIZE || cur.1 >= BOARD_SIZE {
                proof {
                    assert forall|p: (usize, usize)|
                        #[trigger] moves@.contains(p) <==> before.contains(p) || ray_hit(b, s, d, owner, pos_int(p)) by {
                        lemma_ray_stops(b, s, d, owner, k as int, pos_int(p));
                    }
                }
                break;
            }
            let ghost kk = k as int;
            proof {
                if prev.contains(cur) && !before.contains(cur) {
                    let j = choose|j: int| 1 <= j < kk && pos_int(cur) == #[trigger] ray_point(s, d, j);
                    lemma_ray_injective(s, d, j, kk);
                }
                if open_to(b, pos_int(cur), owner) {
                    assert(ray_hit(b, s, d, owner, pos_int(cur)));
                }
            }
            match self.squares[cur.0 * BOARD_SIZE + cur.1].occupant {
                None => {
                    proof {
                        lemma_push_no_duplicates(prev, cur);
                    }
                    moves.push(cur);
                },
                Some((_, o)) => {
                    if o != owner {
                        proof {
                            lemma_push_no_duplicates(prev, cur);
                        }
                        moves.push(cur);
                    }
                    proof {
                        lemma_push_contains(prev, cur);
                        assert forall|p: (usize, usize)|
                            #[trigger] moves@.contains(p) <==> before.contains(p) || ray_hit(b, s, d, owner, pos_int(p)) by {
                            lemma_ray_stops(b, s, d, owner, kk, pos_int(p));
                            if pos_int(p) == ray_point(s, d, kk) {
                                assert(p == cur);
                            }
                        }
                    }
                    break;
                },
            }
            proof {
                lemma_push_contains(prev, cur);
                assert forall|p: (usize, usize)|
                    #[trigger] moves@.contains(p) <==> before.contains(p) || (exists|j: int| 1 <= j < kk + 1 && pos_int(p) == #[trigger] ray_point(s, d, j)) by {
                    if exists|j: int| 1 <= j < kk + 1 && pos_int(p) == #[trigger] ray_point(s, d, j) {
                        let j = choose|j: int| 1 <= j < kk + 1 && pos_int(p) == #[trigger] ray_point(s, d, j);
                        if j == kk {
                            assert(p == cur);
                        } else {
                            assert(prev.contains(p));
                        }
                    }
                    if p == cur {
                        assert(pos_int(p) == ray_point(s, d, kk));
                    }
                }
                assert(ray_point(s, d, kk + 1) == shifted(ray_point(s, d, kk), d));
                assert(kk <= 7);
            }
            cur = Self::general_move(cur, d);
            k += 1;
        }
    }
    /// Appends the squares reached along each direction in `dirs`.
    fn slide_moves(
        &self,
        src: (usize, usize),
        owner: Owner,
        dirs: &Vec<(i32, i32)>,
        moves: &mut Vec<(usize, usize)>,
    )
        requires
            self.wf(),
            in_bounds(pos_int(src)),
            forall|i: int| 0 <= i < dirs@.len() ==> is_direction(#[trigger] dirs@[i]),
            dirs@.no_duplicates(),
            old(moves)@.len() == 0,
        ensures
            extends_by(
                final(moves)@,
                old(moves)@,
                |p: (int, int)|
                    slide_hit(self.cells(), pos_int(src), dirs@, dirs@.len() as int, owner, p),
            ),
            final(moves)@.no_duplicates(),
    {
        let ghost before = moves@;
        let mut j: usize = 0;
        while j < dirs.len()
            invariant
                self.wf(),
                in_bounds(pos_int(src)),
                forall|i: int| 0 <= i < dirs@.len() ==> is_direction(#[trigger] dirs@[i]),
                dirs@.no_duplicates(),
                before.len() == 0,
                moves@.no_duplicates(),
                j <= dirs@.len(),
                extends_by(
                    moves@,
                    before,
                    |p: (int, int)| slide_hit(self.cells(), pos_int(src), dirs@, j as int, owner, p),
                ),
            decreases dirs.len() - j,
        {
            let ghost prev = moves@;
            proof {
                let b = self.cells();
                let sp = pos_int(src);
                assert forall|p: (usize, usize)|
                    #[trigger] prev.contains(p) implies !ray_hit(b, sp, dirs@[j as int], owner, pos_int(p)) by {
                    let jj = choose|jj: int| 0 <= jj < j && #[trigger] ray_hit(b, sp, dirs@[jj], owner, pos_int(p));
                    if ray_hit(b, sp, dirs@[j as int], owner, pos_int(p)) {
                        let m1 = choose|m: int|
                            m >= 1 && pos_int(p) == #[trigger] ray_point(sp, dirs@[jj], m) && open_to(b, pos_int(p), owner)
                                && clear_path(b, sp, dirs@[jj], m);
                        let m2 = choose|m: int|
                            m >= 1 && pos_int(p) == #[trigger] ray_point(sp, dirs@[j as int], m) && open_to(b, pos_int(p), owner)
                                && clear_path(b, sp, dirs@[j as int], m);
                        lemma_rays_apart(sp, dirs@[jj], dirs@[j as int], m1, m2);
                    }
                }
            }
            self.walk(src, owner, dirs[j], moves);
            proof {
                assert forall|p: (usize, usize)|
                    #[trigger] moves@.contains(p) <==> before.contains(p) || slide_hit(
                        self.cells(),
                        pos_int(src),
                        dirs@,
                        j + 1,
                        owner,
                        pos_int(p),
                    ) by {
                    if slide_hit(self.cells(), pos_int(src), dirs@, j + 1, owner, pos_int(p)) {
                        let jj = choose|jj: int| 0 <= jj < j + 1 && #[trigger] ray_hit(self.cells(), pos_int(src), dirs@[jj], owner, pos_int(p));
                        if jj < j {
                            assert(slide_hit(self.cells(), pos_int(src), dirs@, j as int, owner, pos_int(p)));
                        }
                    }
                    if ray_hit(self.cells(), pos_int(src), dirs@[j as int], owner, pos_int(p)) {
                        assert(slide_hit(self.cells(), pos_int(src), dirs@, j + 1, owner, pos_int(p)));
                    }
                    if slide_hit(self.cells(), pos_int(src), dirs@, j as int, owner, pos_int(p)) {
                        let jj = choose|jj: int| 0 <= jj < j && #[trigger] ray_hit(self.cells(), pos_int(src), dirs@[jj], owner, pos_int(p));
                        assert(slide_hit(self.cells(), pos_int(src), dirs@, j + 1, owner, pos_int(p)));
                    }
                }
            }
            j += 1;
        }
    }

    /// Appends a pawn's forward step and diagonal captures.
    fn pawn_moves(&self, src: (usize, usize), owner: Owner, moves: &mut Vec<(usize, usize)>)
        requires
            self.wf(),
            in_bounds(pos_int(src)),
            old(moves)@.len() == 0,
        ensures
            extends_by(
                final(moves)@,
                old(moves)@,
                |p: (int, int)| pawn_hit(self.cells(), pos_int(src), owner, p),
            ),
            final(moves)@.no_duplicates(),
    {
        let ghost before = moves@;
        let f: i32 = match owner {
            Owner::White => -1,
            Owner::Black => 1,
        };
        let ahead = Self::general_move(src, (0, f));
        let ghost m0 = moves@;
        if ahead.0 < BOARD_SIZE && ahead.1 < BOARD_SIZE
            && self.squares[ahead.0 * BOARD_SIZE + ahead.1].occupant.is_none() {
            moves.push(ahead);
        }
        let left = Self::general_move(src, (-1, f));
        let ghost m1 = moves@;
        if self.is_enemy_at(left, owner) {
            moves.push(left);
        }
        let right = Self::general_move(src, (1, f));
        let ghost m2 = moves@;
        if self.is_enemy_at(right, owner) {
            moves.push(right);
        }
        proof {
            lemma_push_contains(m0, ahead);
            lemma_push_contains(m1, left);
            lemma_push_contains(m2, right);
            assert(m0.no_duplicates());
            if m1.len() > 0 {
                assert(m1 =~= m0.push(ahead));
                lemma_push_no_duplicates(m0, ahead);
            }
            if m2.len() > m1.len() {
                assert(m2 =~= m1.push(left));
                lemma_push_no_duplicates(m1, left);
            }
            if moves@.len() > m2.len() {
                lemma_push_no_duplicates(m2, right);
            }
        }
    }

    /// The candidate destinations of the piece on `pos`, in no particular
    /// order; none when `pos` is off the board or empty.
    pub fn compute_candidates(&self, pos: (usize, usize)) -> (r: Vec<(usize, usize)>)
        requires
            self.wf(),
        ensures
            forall|p: (usize, usize)|
                #[trigger] r@.contains(p) <==> is_candidate(self.cells(), pos_int(pos), pos_int(p)),
            r@.no_duplicates(),
    {
        let mut moves: Vec<(usize, usize)> = Vec::new();
        if pos.0 >= BOARD_SIZE || pos.1 >= BOARD_SIZE {
            return moves;
        }
        let (piece, owner) = match self.squares[pos.0 * BOARD_SIZE + pos.1].occupant {
            None => {
                return moves;
            },
            Some(po) => po,
        };
        match piece {
            Piece::Pawn => self.pawn_moves(pos, owner, &mut moves),
            Piece::Knight => {
                let offsets = knight_jumps();
                self.jump_moves(pos, owner, &offsets, &mut moves);
            },
            Piece::King => {
                let offsets = king_steps();
                self.jump_moves(pos, owner, &offsets, &mut moves);
            },
            Piece::Rook => {
                let dirs = rook_lines();
                self.slide_moves(pos, owner, &dirs, &mut moves);
            },
            Piece::Bishop => {
                let dirs = bishop_lines();
                self.slide_moves(pos, owner, &dirs, &mut moves);
            },
            Piece::Queen => {
                let dirs = queen_lines();
                self.slide_moves(pos, owner, &dirs, &mut moves);
            },
        }
        moves
    }
    /// Recomputes the candidates of the piece on `pos` and caches them on its tile.
    pub fn calc_moves(&mut self, pos: (usize, usize))
        requires
            old(self).wf(),
            in_bounds(pos_int(pos)),
            old(self).occ(pos_int(pos)) is Some,
        ensures
            final(self).wf(),
            final(self).cells() == old(self).cells(),
            final(self).white_king == old(self).white_king,
            final(self).black_king == old(self).black_king,
            final(self).turn == old(self).turn,
            final(self).squares@.len() == 64,
            forall|j: int|
                0 <= j < 64 && j != index_of(pos_int(pos)) ==> #[trigger] final(self).squares@[j]
                    == old(self).squares@[j],
            final(self).squares@[index_of(pos_int(pos))].pos == old(self).squares@[index_of(
                pos_int(pos),
            )].pos,
            final(self).squares@[index_of(pos_int(pos))].shade == old(self).squares@[index_of(
                pos_int(pos),
            )].shade,
            forall|p: (usize, usize)|
                #[trigger] final(self).squares@[index_of(pos_int(pos))].moves@.contains(p)
                    <==> is_candidate(old(self).cells(), pos_int(pos), pos_int(p)),
            final(self).squares@[index_of(pos_int(pos))].moves@.no_duplicates(),
    {
        let moves = self.compute_candidates(pos);
        let i = pos.0 * BOARD_SIZE + pos.1;
        self.squares[i].moves = moves;
        assert(self.cells() =~= old(self).cells());
    }

    /// Some piece of `by` has `target` among its candidates.
    pub fn is_attacked(&self, target: (usize, usize), by: Owner) -> (r: bool)
        requires
            self.wf(),
        ensures
            r == attacked(self.cells(), pos_int(target), by),
    {
        let ghost b = self.cells();
        let mut x: usize = 0;
        let mut y: usize = 0;
        while x < BOARD_SIZE
            invariant
                self.wf(),
                b == self.cells(),
                x <= 8,
                y < 8,
                x == 8 ==> y == 0,
                forall|q: (int, int)|
                    in_bounds(q) && (q.0 < x || (q.0 == x && q.1 < y)) ==> !((cell_at(b, q) matches Some((_, o)) && o == by)
                        && #[trigger] is_candidate(b, q, pos_int(target))),
            decreases 64 - (x * 8 + y),
        {
            if let Some((_, o)) = self.squares[x * BOARD_SIZE + y].occupant {
                if o == by {
                    let c = self.compute_candidates((x, y));
                    if holds(&c, target) {
                        assert(is_candidate(b, pos_int((x, y)), pos_int(target)));
                        return true;
                    }
                }
            }
            if y == 7 {
                y = 0;
                x += 1;
            } else {
                y += 1;
            }
        }
        assert forall|q: (int, int)|
            (cell_at(b, q) matches Some((_, o)) && o == by) implies !#[trigger] is_candidate(b, q, pos_int(target)) by {
            assert(in_bounds(q));
        }
        false
    }

    /// A copy of the board with empty move caches.
    fn snapshot(&self) -> (g: Game)
        requires
            self.wf(),
        ensures
            g.wf(),
            g.cells() == self.cells(),
            g.white_king == self.white_king,
            g.black_king == self.black_king,
            g.turn == self.turn,
    {
        let mut squares: Vec<Tile> = Vec::new();
        let mut i: usize = 0;
        while i < NUM_SQUARES
            invariant
                self.wf(),
                i <= 64,
                squares@.len() == i,
                forall|j: int|
                    0 <= j < i ==> (#[trigger] squares@[j]).pos == self.squares@[j].pos
                        && squares@[j].occupant == self.squares@[j].occupant,
            decreases 64 - i,
        {
            let t = &self.squares[i];
            squares.push(Tile { moves: Vec::new(), pos: t.pos, occupant: t.occupant, shade: t.shade });
            i += 1;
        }
        let g = Game { squares, white_king: self.white_king, black_king: self.black_king, turn: self.turn };
        assert(g.cells() =~= self.cells());
        assert forall|j: int| 0 <= j < 64 implies in_bounds(pos_int((#[trigger] g.squares@[j]).pos)) && index_of(pos_int(g.squares@[j].pos)) == j by {
            assert(in_bounds(pos_int(self.squares@[j].pos)));
        }
        g
    }

    /// Whether moving `src` to `dest` leaves `owner`'s king attacked, worked
    /// out on a scratch copy so that the board itself is never touched.
    fn exposes_king(&self, src: (usize, usize), dest: (usize, usize), owner: Owner) -> (r: bool)
        requires
            self.wf(),
            in_bounds(pos_int(src)),
            in_bounds(pos_int(dest)),
        ensures
            r == king_attacked(
                moved(self.cells(), index_of(pos_int(src)), index_of(pos_int(dest))),
                owner,
            ),
    {
        let mut scratch = self.snapshot();
        scratch.move_piece(src, dest);
        let ghost b = scratch.cells();
        let king = match owner {
            Owner::White => scratch.white_king,
            Owner::Black => scratch.black_king,
        };
        match king {
            None => {
                assert forall|k: (int, int)| #[trigger] cell_at(b, k) == Some((Piece::King, owner)) implies false by {
                    assert(b[index_of(k)] == Some((Piece::King, owner)));
                }
                false
            },
            Some(k) => {
                let r = scratch.is_attacked(k, owner.opponent());
                assert forall|q: (int, int)| #[trigger] cell_at(b, q) == Some((Piece::King, owner)) implies q == pos_int(k) by {
                    assert(b[index_of(q)] == Some((Piece::King, owner)));
                }
                assert(cell_at(b, pos_int(k)) == Some((Piece::King, owner)));
                r
            },
        }
    }

    /// Moves the piece on `src` to `dest` if `dest` is among its candidates
    /// and the move leaves its own king unattacked, then passes the turn.
    /// On any error the game is left exactly as it was.
    pub fn validate_and_move(&mut self, src: (usize, usize), dest: (usize, usize)) -> (r: Result<
        (),
        MoveError,
    >)
        requires
            old(self).wf(),
        ensures
            move_applied(*old(self), src, dest, r, *final(self)),
    {
        if src.0 >= BOARD_SIZE || src.1 >= BOARD_SIZE {
            return Err(MoveError::InvalidSource);
        }
        let owner = match self.squares[src.0 * BOARD_SIZE + src.1].occupant {
            None => {
                return Err(MoveError::InvalidSource);
            },
            Some((_, o)) => o,
        };
        let candidates = self.compute_candidates(src);
        if !holds(&candidates, dest) {
            return Err(MoveError::InvalidDest);
        }
        if self.exposes_king(src, dest, owner) {
            return Err(MoveError::Check);
        }
        self.move_piece(src, dest);
        self.turn = self.turn.opponent();
        Ok(())
    }
}

/// Whether `p` is an element of `v`.
fn holds(v: &Vec<(usize, usize)>, p: (usize, usize)) -> (r: bool)
    ensures
        r == v@.contains(p),
{
    let mut i: usize = 0;
    while i < v.len()
        invariant
            i <= v@.len(),
            forall|j: int| 0 <= j < i ==> v@[j] != p,
        decreases v.len() - i,
    {
        if v[i].0 == p.0 && v[i].1 == p.1 {
            return true;
        }
        i += 1;
    }
    false
}

fn knight_jumps() -> (v: Vec<(i32, i32)>)
    ensures
        v@ == knight_offsets(),
{
    let v = vec![(1, 2), (2, 1), (-1, 2), (-2, 1), (1, -2), (2, -1), (-1, -2), (-2, -1)];
    assert(v@ =~= knight_offsets());
    v
}

fn king_steps() -> (v: Vec<(i32, i32)>)
    ensures
        v@ == king_offsets(),
{
    let v = vec![(-1, -1), (0, -1), (1, -1), (-1, 0), (1, 0), (-1, 1), (0, 1), (1, 1)];
    assert(v@ =~= king_offsets());
    v
}

fn rook_lines() -> (v: Vec<(i32, i32)>)
    ensures
        v@ == rook_dirs(),
        forall|i: int| 0 <= i < v@.len() ==> is_direction(#[trigger] v@[i]),
{
    let v = vec![(1, 0), (-1, 0), (0, 1), (0, -1)];
    assert(v@ =~= rook_dirs());
    v
}

fn bishop_lines() -> (v: Vec<(i32, i32)>)
    ensures
        v@ == bishop_dirs(),
        forall|i: int| 0 <= i < v@.len() ==> is_direction(#[trigger] v@[i]),
{
    let v = vec![(1, -1), (-1, -1), (1, 1), (-1, 1)];
    assert(v@ =~= bishop_dirs());
    v
}

fn queen_lines() -> (v: Vec<(i32, i32)>)
    ensures
        v@ == queen_dirs(),
        forall|i: int| 0 <= i < v@.len() ==> is_direction(#[trigger] v@[i]),
{
    let v = vec![(1, 0), (-1, 0), (0, 1), (0, -1), (1, -1), (-1, -1), (1, 1), (-1, 1)];
    assert(v@ =~= queen_dirs());
    v
}


} // verus!
