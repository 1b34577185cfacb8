//! The board model: an 8x8 grid of tiles, each with an optional occupant,
//! plus a cache of where each side's king stands.

use vstd::prelude::*;

verus! {

/// Number of files and of ranks on the board.
pub const BOARD_SIZE: usize = 8;

/// Number of squares on the board.
pub const NUM_SQUARES: usize = 64;

#[derive(Clone, Copy, Debug, PartialEq, Eq, Structural)]
pub enum Piece {
    Pawn,
    Rook,
    Knight,
    Bishop,
    Queen,
    King,
}

#[derive(Clone, Copy, Debug, PartialEq, Eq, Structural)]
pub enum Owner {
    Black,
    White,
}

/// Why a request on the board was refused.
#[derive(Clone, Copy, Debug, PartialEq, Eq, Structural)]
pub enum MoveError {
    /// The source square holds no piece.
    InvalidSource,
    /// The destination is not among the source piece's legal destinations.
    InvalidDest,
    /// The move would leave the mover's own king attacked.
    Check,
    /// A position lies outside the grid.
    OutOfBounds,
}

/// A short description of each error, for messages shown to players.
pub open spec fn error_message(e: MoveError) -> Seq<char> {
    match e {
        MoveError::InvalidSource => "source tile invalid"@,
        MoveError::InvalidDest => "destination tile invalid"@,
        MoveError::Check => "puts owner's king in check"@,
        MoveError::OutOfBounds => "position off the board"@,
    }
}

impl MoveError {
    pub fn message(self) -> (r: &'static str)
        ensures
            r@ == error_message(self),
    {
        match self {
            MoveError::InvalidSource => "source tile invalid",
            MoveError::InvalidDest => "destination tile invalid",
            MoveError::Check => "puts owner's king in check",
            MoveError::OutOfBounds => "position off the board",
        }
    }
}

/// The side that is not `o`.
pub open spec fn other(o: Owner) -> Owner {
    match o {
        Owner::Black => Owner::White,
        Owner::White => Owner::Black,
    }
}

impl Owner {
    pub fn opponent(self) -> (r: Owner)
        ensures
            r == other(self),
    {
        match self {
            Owner::Black => Owner::White,
            Owner::White => Owner::Black,
        }
    }
}

/// A position given as signed coordinates (file, rank).
pub open spec fn in_bounds(p: (int, int)) -> bool {
    0 <= p.0 < 8 && 0 <= p.1 < 8
}

/// The index of an in-bounds position in the row-major list of squares.
pub open spec fn index_of(p: (int, int)) -> int {
    p.0 * 8 + p.1
}

pub open spec fn pos_int(p: (usize, usize)) -> (int, int) {
    (p.0 as int, p.1 as int)
}

/// What stands at `p` on the occupancy grid `b`; nothing outside the grid.
pub open spec fn cell_at(b: Seq<Option<(Piece, Owner)>>, p: (int, int)) -> Option<(Piece, Owner)> {
    if in_bounds(p) {
        b[index_of(p)]
    } else {
        None
    }
}

/// `cache` names the one square of `b` that holds `owner`'s king, or is
/// empty when `owner` has no king on `b`.
pub open spec fn king_cache_ok(
    b: Seq<Option<(Piece, Owner)>>,
    owner: Owner,
    cache: Option<(usize, usize)>,
) -> bool {
    &&& (cache matches Some(k) ==> in_bounds(pos_int(k)) && b[index_of(pos_int(k))] == Some(
        (Piece::King, owner),
    ))
    &&& forall|i: int|
        0 <= i < 64 && #[trigger] b[i] == Some((Piece::King, owner)) ==> (cache matches Some(k)
            && index_of(pos_int(k)) == i)
}

/// Grid `b` after `o` is put on square index `i`. A king put on the board
/// replaces any other king of its owner, so each side keeps at most one.
pub open spec fn placed(b: Seq<Option<(Piece, Owner)>>, i: int, o: Option<(Piece, Owner)>) -> Seq<
    Option<(Piece, Owner)>,
> {
    let cleared = match o {
        Some((Piece::King, w)) => b.map_values(
            |c: Option<(Piece, Owner)>|
                if c == Some((Piece::King, w)) {
                    None
                } else {
                    c
                },
        ),
        _ => b,
    };
    cleared.update(i, o)
}

/// Grid `b` after the occupant of square index `s` moves to square index `d`,
/// replacing whatever stood there.
pub open spec fn moved(b: Seq<Option<(Piece, Owner)>>, s: int, d: int) -> Seq<Option<(Piece, Owner)>> {
    if s == d {
        b
    } else {
        b.update(d, b[s]).update(s, None)
    }
}

/// The king cache of `w` after a move from index `s` to the square `dest`.
pub open spec fn cache_after_move(
    b: Seq<Option<(Piece, Owner)>>,
    w: Owner,
    c: Option<(usize, usize)>,
    s: int,
    dest: (usize, usize),
) -> Option<(usize, usize)> {
    if b[s] == Some((Piece::King, w)) {
        Some(dest)
    } else if b[index_of(pos_int(dest))] == Some((Piece::King, w)) {
        None
    } else {
        c
    }
}

proof fn lemma_move_keeps_cache(
    b: Seq<Option<(Piece, Owner)>>,
    w: Owner,
    c: Option<(usize, usize)>,
    s: int,
    dest: (usize, usize),
)
    requires
        b.len() == 64,
        king_cache_ok(b, w, c),
        0 <= s < 64,
        in_bounds(pos_int(dest)),
        s != index_of(pos_int(dest)),
    ensures
        king_cache_ok(moved(b, s, index_of(pos_int(dest))), w, cache_after_move(b, w, c, s, dest)),
{
    let d = index_of(pos_int(dest));
    let b1 = moved(b, s, d);
    let c1 = cache_after_move(b, w, c, s, dest);
    assert forall|i: int|
        0 <= i < 64 && #[trigger] b1[i] == Some((Piece::King, w)) implies (c1 matches Some(k)
        && index_of(pos_int(k)) == i) by {
        if i != d {
            assert(b[i] == Some((Piece::King, w)));
        }
    }
    if let Some(k) = c {
        assert(b[index_of(pos_int(k))] == Some((Piece::King, w)));
    }
}

/// The king cache of `w` after `o` is put on square `pos`.
pub open spec fn cache_after_place(
    b: Seq<Option<(Piece, Owner)>>,
    w: Owner,
    c: Option<(usize, usize)>,
    o: Option<(Piece, Owner)>,
    pos: (usize, usize),
) -> Option<(usize, usize)> {
    if o == Some((Piece::King, w)) {
        Some(pos)
    } else if b[index_of(pos_int(pos))] == Some((Piece::King, w)) {
        None
    } else {
        c
    }
}

proof fn lemma_place_keeps_cache(
    b: Seq<Option<(Piece, Owner)>>,
    w: Owner,
    c: Option<(usize, usize)>,
    o: Option<(Piece, Owner)>,
    pos: (usize, usize),
)
    requires
        b.len() == 64,
        king_cache_ok(b, w, c),
        in_bounds(pos_int(pos)),
    ensures
        king_cache_ok(
            placed(b, index_of(pos_int(pos)), o),
            w,
            cache_after_place(b, w, c, o, pos),
        ),
{
    let p = index_of(pos_int(pos));
    let b1 = placed(b, p, o);
    let c1 = cache_after_place(b, w, c, o, pos);
    assert forall|i: int|
        0 <= i < 64 && #[trigger] b1[i] == Some((Piece::King, w)) implies (c1 matches Some(k)
        && index_of(pos_int(k)) == i) by {
        if i != p {
            assert(b[i] == Some((Piece::King, w)));
        }
    }
    if let Some(k) = c {
        assert(b[index_of(pos_int(k))] == Some((Piece::King, w)));
    }
}

/// One square of the board.
pub struct Tile {
    /// Destinations last computed for the occupant; refreshed on demand.
    pub moves: Vec<(usize, usize)>,
    /// The square's own position (file, rank).
    pub pos: (usize, usize),
    pub occupant: Option<(Piece, Owner)>,
    /// Side whose influence covers this square; reserved for threat display.
    pub shade: Option<Owner>,
}

impl Tile {
    pub fn blank() -> (t: Tile)
        ensures
            t.moves@.len() == 0,
            t.pos == (0usize, 0usize),
            t.occupant is None,
            t.shade is None,
    {
        Tile { moves: Vec::new(), pos: (0, 0), occupant: None, shade: None }
    }
}

/// The board and the side to move.
pub struct Game {
    /// Row-major: the tile at (file, rank) has index file * 8 + rank.
    pub squares: Vec<Tile>,
    pub white_king: Option<(usize, usize)>,
    pub black_king: Option<(usize, usize)>,
    pub turn: Owner,
}

impl Game {
    /// The occupancy grid, in the order of `squares`.
    pub open spec fn cells(self) -> Seq<Option<(Piece, Owner)>> {
        self.squares@.map_values(|t: Tile| t.occupant)
    }

    pub open spec fn occ(self, p: (int, int)) -> Option<(Piece, Owner)> {
        cell_at(self.cells(), p)
    }

    pub open spec fn king_cache(self, owner: Owner) -> Option<(usize, usize)> {
        match owner {
            Owner::White => self.white_king,
            Owner::Black => self.black_king,
        }
    }

    /// 64 tiles, each knowing its own position, and both king caches exact.
    pub open spec fn wf(self) -> bool {
        &&& self.squares@.len() == 64
        &&& forall|i: int|
            0 <= i < 64 ==> in_bounds(pos_int((#[trigger] self.squares@[i]).pos)) && index_of(
                pos_int(self.squares@[i].pos),
            ) == i
        &&& king_cache_ok(self.cells(), Owner::White, self.white_king)
        &&& king_cache_ok(self.cells(), Owner::Black, self.black_king)
    }

    /// An empty board, White to move.
    pub fn empty() -> (g: Game)
        ensures
            g.wf(),
            g.turn == Owner::White,
            forall|i: int| 0 <= i < 64 ==> #[trigger] g.cells()[i] is None,
    {
        let mut squares: Vec<Tile> = Vec::new();
        let mut x: usize = 0;
        while x < BOARD_SIZE
            invariant
                x <= 8,
                squares@.len() == x * 8,
                forall|i: int|
                    0 <= i < squares@.len() ==> in_bounds(pos_int((#[trigger] squares@[i]).pos))
                        && index_of(pos_int(squares@[i].pos)) == i && squares@[i].occupant is None,
            decreases 8 - x,
        {
            let mut y: usize = 0;
            while y < BOARD_SIZE
                invariant
                    x < 8,
                    y <= 8,
                    squares@.len() == x * 8 + y,
                    forall|i: int|
                        0 <= i < squares@.len() ==> in_bounds(pos_int((#[trigger] squares@[i]).pos))
                            && index_of(pos_int(squares@[i].pos)) == i && squares@[i].occupant is None,
                decreases 8 - y,
            {
                let mut t = Tile::blank();
                t.pos = (x, y);
                squares.push(t);
                y += 1;
            }
            x += 1;
        }
        let g = Game { squares, white_king: None, black_king: None, turn: Owner::White };
        assert forall|i: int| 0 <= i < 64 implies #[trigger] g.cells()[i] is None by {
            assert(g.squares@[i].occupant is None);
        }
        g
    }

    pub fn get_tile(&self, pos: (usize, usize)) -> (r: Option<&Tile>)
        requires
            self.wf(),
        ensures
            r is Some <==> in_bounds(pos_int(pos)),
            r matches Some(t) ==> *t == self.squares@[index_of(pos_int(pos))],
    {
        if pos.0 < BOARD_SIZE && pos.1 < BOARD_SIZE {
            Some(&self.squares[pos.0 * BOARD_SIZE + pos.1])
        } else {
            None
        }
    }

    /// Mutable access to a tile. The caller keeps the board well formed.
    pub fn get_mut_tile(&mut self, pos: (usize, usize)) -> (r: Option<&mut Tile>)
        requires
            old(self).wf(),
        ensures
            r is Some <==> in_bounds(pos_int(pos)),
            r is None ==> *final(self) == *old(self),
            r is Some ==> *r.unwrap() == old(self).squares@[index_of(pos_int(pos))]
                && final(self).squares@ == old(self).squares@.update(
                index_of(pos_int(pos)),
                *final(r.unwrap()),
            ) && final(self).white_king == old(self).white_king && final(self).black_king == old(
                self,
            ).black_king && final(self).turn == old(self).turn,
    {
        if pos.0 < BOARD_SIZE && pos.1 < BOARD_SIZE {
            Some(&mut self.squares[pos.0 * BOARD_SIZE + pos.1])
        } else {
            None
        }
    }
    /// Puts `o` on the tile with index `i`, leaving every other field as it was.
    fn set_occupant(&mut self, i: usize, o: Option<(Piece, Owner)>)
        requires
            i < old(self).squares@.len(),
        ensures
            final(self).squares@.len() == old(self).squares@.len(),
            forall|j: int|
                0 <= j < old(self).squares@.len() ==> (#[trigger] final(self).squares@[j]).pos == old(
                    self,
                ).squares@[j].pos,
            final(self).cells() == old(self).cells().update(i as int, o),
            final(self).white_king == old(self).white_king,
            final(self).black_king == old(self).black_king,
            final(self).turn == old(self).turn,
    {
        self.squares[i].occupant = o;
        assert(self.cells() =~= old(self).cells().update(i as int, o));
    }

    /// Forgets the cached king of whichever side `o` is the king of.
    fn forget_king(&mut self, o: Option<(Piece, Owner)>)
        ensures
            final(self).squares == old(self).squares,
            final(self).turn == old(self).turn,
            final(self).white_king == (if o == Some((Piece::King, Owner::White)) {
                None
            } else {
                old(self).white_king
            }),
            final(self).black_king == (if o == Some((Piece::King, Owner::Black)) {
                None
            } else {
                old(self).black_king
            }),
    {
        match o {
            Some((Piece::King, Owner::White)) => self.white_king = None,
            Some((Piece::King, Owner::Black)) => self.black_king = None,
            _ => {},
        }
    }

    /// Records `pos` as the square of the king `o`, if `o` is a king.
    fn record_king(&mut self, o: Option<(Piece, Owner)>, pos: (usize, usize))
        ensures
            final(self).squares == old(self).squares,
            final(self).turn == old(self).turn,
            final(self).white_king == (if o == Some((Piece::King, Owner::White)) {
                Some(pos)
            } else {
                old(self).white_king
            }),
            final(self).black_king == (if o == Some((Piece::King, Owner::Black)) {
                Some(pos)
            } else {
                old(self).black_king
            }),
    {
        match o {
            Some((Piece::King, Owner::White)) => self.white_king = Some(pos),
            Some((Piece::King, Owner::Black)) => self.black_king = Some(pos),
            _ => {},
        }
    }

    /// Puts `o` on an in-bounds square; a king put on the board takes the
    /// place of any other king of the same owner.
    fn put(&mut self, o: Option<(Piece, Owner)>, pos: (usize, usize))
        requires
            old(self).wf(),
            in_bounds(pos_int(pos)),
        ensures
            final(self).wf(),
            final(self).turn == old(self).turn,
            final(self).cells() == placed(old(self).cells(), index_of(pos_int(pos)), o),
    {
        let i = pos.0 * BOARD_SIZE + pos.1;
        let ghost b0 = self.cells();
        if let Some((Piece::King, owner)) = o {
            let prev = match owner {
                Owner::White => self.white_king,
                Owner::Black => self.black_king,
            };
            if let Some(k) = prev {
                self.set_occupant(k.0 * BOARD_SIZE + k.1, None);
            }
            assert(self.cells() =~= b0.map_values(
                |c: Option<(Piece, Owner)>|
                    if c == Some((Piece::King, owner)) {
                        None
                    } else {
                        c
                    },
            ));
        }
        let replaced = self.squares[i].occupant;
        assert(replaced == self.cells()[i as int]);
        self.forget_king(replaced);
        self.set_occupant(i, o);
        self.record_king(o, pos);
        assert(self.cells() =~= placed(b0, i as int, o));
        proof {
            lemma_place_keeps_cache(b0, Owner::White, old(self).white_king, o, pos);
            lemma_place_keeps_cache(b0, Owner::Black, old(self).black_king, o, pos);
        }
    }

    /// Sets the occupant of an in-bounds square. A king put on the board
    /// takes the place of any other king of the same owner.
    pub fn place(&mut self, piece: Piece, owner: Owner, pos: (usize, usize)) -> (r: Result<
        (),
        MoveError,
    >)
        requires
            old(self).wf(),
        ensures
            final(self).wf(),
            final(self).turn == old(self).turn,
            r is Err <==> !in_bounds(pos_int(pos)),
            r is Err ==> r == Err::<(), MoveError>(MoveError::OutOfBounds) && *final(self) == *old(
                self,
            ),
            r is Ok ==> final(self).cells() == placed(
                old(self).cells(),
                index_of(pos_int(pos)),
                Some((piece, owner)),
            ),
    {
        if pos.0 >= BOARD_SIZE || pos.1 >= BOARD_SIZE {
            return Err(MoveError::OutOfBounds);
        }
        self.put(Some((piece, owner)), pos);
        Ok(())
    }

    /// Empties an in-bounds square.
    pub fn clear(&mut self, pos: (usize, usize)) -> (r: Result<(), MoveError>)
        requires
            old(self).wf(),
        ensures
            final(self).wf(),
            final(self).turn == old(self).turn,
            r is Err <==> !in_bounds(pos_int(pos)),
            r is Err ==> r == Err::<(), MoveError>(MoveError::OutOfBounds) && *final(self) == *old(
                self,
            ),
            r is Ok ==> final(self).cells() == old(self).cells().update(index_of(pos_int(pos)), None),
    {
        if pos.0 >= BOARD_SIZE || pos.1 >= BOARD_SIZE {
            return Err(MoveError::OutOfBounds);
        }
        self.put(None, pos);
        Ok(())
    }

    /// Relocates the occupant of `src` to `dest`, clearing `src` and
    /// replacing whatever stood on `dest`. No rule of play is checked here.
    pub fn move_piece(&mut self, src: (usize, usize), dest: (usize, usize))
        requires
            old(self).wf(),
            in_bounds(pos_int(src)),
            in_bounds(pos_int(dest)),
        ensures
            final(self).wf(),
            final(self).turn == old(self).turn,
            final(self).cells() == moved(
                old(self).cells(),
                index_of(pos_int(src)),
                index_of(pos_int(dest)),
            ),
    {
        if src.0 == dest.0 && src.1 == dest.1 {
            return;
        }
        let s = src.0 * BOARD_SIZE + src.1;
        proof {
            lemma_move_keeps_cache(old(self).cells(), Owner::White, old(self).white_king, s as int, dest);
            lemma_move_keeps_cache(old(self).cells(), Owner::Black, old(self).black_king, s as int, dest);
        }
        let d = dest.0 * BOARD_SIZE + dest.1;
        let mover = self.squares[s].occupant;
        let replaced = self.squares[d].occupant;
        self.forget_king(replaced);
        self.set_occupant(d, mover);
        self.set_occupant(s, None);
        self.record_king(mover, dest);
        assert(self.cells() =~= moved(old(self).cells(), s as int, d as int));
    }
}

} // verus!
