//! Building a game from an initial layout: records of
//! (piece-kind name, file, rank, owner name).

use vstd::prelude::*;
use crate::board::{in_bounds, index_of, placed, pos_int, Game, MoveError, Owner, Piece};

verus! {

/// The piece kind a name stands for; names are matched exactly.
pub open spec fn piece_named(s: Seq<char>) -> Option<Piece> {
    if s == "pawn"@ {
        Some(Piece::Pawn)
    } else if s == "rook"@ {
        Some(Piece::Rook)
    } else if s == "knight"@ {
        Some(Piece::Knight)
    } else if s == "bishop"@ {
        Some(Piece::Bishop)
    } else if s == "queen"@ {
        Some(Piece::Queen)
    } else if s == "king"@ {
        Some(Piece::King)
    } else {
        None
    }
}

/// The side a name stands for; names are matched exactly.
pub open spec fn owner_named(s: Seq<char>) -> Option<Owner> {
    if s == "black"@ {
        Some(Owner::Black)
    } else if s == "white"@ {
        Some(Owner::White)
    } else {
        None
    }
}

/// The name of a piece kind, as a layout writes it.
pub open spec fn piece_name(p: Piece) -> Seq<char> {
    match p {
        Piece::Pawn => "pawn"@,
        Piece::Rook => "rook"@,
        Piece::Knight => "knight"@,
        Piece::Bishop => "bishop"@,
        Piece::Queen => "queen"@,
        Piece::King => "king"@,
    }
}

/// The name of a side, as a layout writes it.
pub open spec fn owner_name(o: Owner) -> Seq<char> {
    match o {
        Owner::Black => "black"@,
        Owner::White => "white"@,
    }
}

/// Each piece kind is recognised by its own name.
pub proof fn lemma_piece_name_round_trip(p: Piece)
    ensures
        piece_named(piece_name(p)) == Some(p),
{
    reveal_strlit("pawn");
    reveal_strlit("rook");
    reveal_strlit("knight");
    reveal_strlit("bishop");
    reveal_strlit("queen");
    reveal_strlit("king");
    assert("pawn"@[0] == 'p' && "rook"@[0] == 'r' && "knight"@[1] == 'n' && "bishop"@[0] == 'b'
        && "queen"@[0] == 'q' && "king"@[1] == 'i');
}

/// Each side is recognised by its own name.
pub proof fn lemma_owner_name_round_trip(o: Owner)
    ensures
        owner_named(owner_name(o)) == Some(o),
{
    reveal_strlit("black");
    reveal_strlit("white");
    assert("black"@[0] == 'b' && "white"@[0] == 'w');
}

/// What a record puts on its square: nothing unless both names are known.
pub open spec fn occupant_named(piece: Seq<char>, owner: Seq<char>) -> Option<(Piece, Owner)> {
    match (piece_named(piece), owner_named(owner)) {
        (Some(p), Some(o)) => Some((p, o)),
        _ => None,
    }
}

pub open spec fn record_in_bounds(r: (String, usize, usize, String)) -> bool {
    in_bounds((r.1 as int, r.2 as int))
}

/// The grid after the records are applied in order to an empty board.
pub open spec fn layout_cells(recs: Seq<(String, usize, usize, String)>) -> Seq<
    Option<(Piece, Owner)>,
>
    decreases recs.len(),
{
    if recs.len() == 0 {
        Seq::new(64, |i: int| None)
    } else {
        let r = recs.last();
        placed(
            layout_cells(recs.drop_last()),
            index_of((r.1 as int, r.2 as int)),
            occupant_named(r.0@, r.3@),
        )
    }
}

/// Index of the first ',' at or after `i` in `s`, or `s.len()` if there is none.
pub open spec fn next_comma(s: Seq<char>, i: int) -> int
    decreases s.len() - i,
{
    if i >= s.len() || i < 0 {
        s.len() as int
    } else if s[i] == ',' {
        i
    } else {
        next_comma(s, i + 1)
    }
}

/// Where the `n`-th comma-separated field of `s` starts; past `s.len()`
/// when `s` has fewer than `n + 1` fields.
pub open spec fn field_start(s: Seq<char>, n: nat) -> int
    decreases n,
{
    if n == 0 {
        0
    } else {
        next_comma(s, field_start(s, (n - 1) as nat)) + 1
    }
}

/// The `n`-th comma-separated field of `s`.
pub open spec fn field(s: Seq<char>, n: nat) -> Seq<char> {
    s.subrange(field_start(s, n), next_comma(s, field_start(s, n)))
}

pub open spec fn is_digit(c: char) -> bool {
    '0' <= c <= '9'
}

/// A non-empty run of decimal digits.
pub open spec fn is_decimal(s: Seq<char>) -> bool {
    s.len() > 0 && forall|i: int| 0 <= i < s.len() ==> is_digit(#[trigger] s[i])
}

/// The value of a run of decimal digits.
pub open spec fn decimal_value(s: Seq<char>) -> int
    decreases s.len(),
{
    if s.len() == 0 {
        0
    } else {
        decimal_value(s.drop_last()) * 10 + (s.last() as u32 - '0' as u32)
    }
}

/// A coordinate field: decimal digits whose value fits a `usize`.
pub open spec fn coordinate_ok(s: Seq<char>) -> bool {
    is_decimal(s) && decimal_value(s) <= usize::MAX
}

/// A record line has at least four fields, the second and third of which are
/// coordinates; any fields after the fourth are ignored.
pub open spec fn record_ok(s: Seq<char>) -> bool {
    field_start(s, 3) <= s.len() && coordinate_ok(field(s, 1)) && coordinate_ok(field(s, 2))
}

proof fn lemma_decimal_grows(s: Seq<char>, i: int, j: int)
    requires
        0 <= i <= j <= s.len(),
        forall|k: int| 0 <= k < j ==> is_digit(#[trigger] s[k]),
    ensures
        0 <= decimal_value(s.take(i)) <= decimal_value(s.take(j)),
    decreases j,
{
    if j == 0 {
        assert(s.take(0) =~= Seq::<char>::empty());
    } else {
        let m = if i < j { i } else { j - 1 };
        lemma_decimal_grows(s, m, j - 1);
        assert(s.take(j).drop_last() =~= s.take(j - 1));
        assert(is_digit(s[j - 1]));
    }
}

/// Whether the text of `s` is exactly that of `t`.
pub fn text_is(s: &str, t: &str) -> (r: bool)
    ensures
        r == (s@ == t@),
{
    let n = s.unicode_len();
    if n != t.unicode_len() {
        return false;
    }
    let mut i: usize = 0;
    while i < n
        invariant
            n == s@.len(),
            n == t@.len(),
            i <= n,
            forall|j: int| 0 <= j < i ==> s@[j] == t@[j],
        decreases n - i,
    {
        if s.get_char(i) != t.get_char(i) {
            return false;
        }
        i += 1;
    }
    assert(s@ =~= t@);
    true
}

/// Index of the first ',' at or after `i` in `s`, or the length of `s`.
fn comma_from(s: &str, n: usize, i: usize) -> (r: usize)
    requires
        n == s@.len(),
        i <= n,
    ensures
        r == next_comma(s@, i as int),
        i <= r <= n,
{
    let mut k = i;
    while k < n
        invariant
            n == s@.len(),
            i <= k <= n,
            next_comma(s@, i as int) == next_comma(s@, k as int),
        decreases n - k,
    {
        if s.get_char(k) == ',' {
            return k;
        }
        k += 1;
    }
    k
}

/// The value of `s` read as decimal digits, if it is a non-empty run of
/// digits whose value fits a `usize`.
pub fn parse_decimal(s: &str) -> (r: Option<usize>)
    ensures
        r is Some <==> coordinate_ok(s@),
        r matches Some(v) ==> v == decimal_value(s@),
{
    let n = s.unicode_len();
    if n == 0 {
        return None;
    }
    let mut v: usize = 0;
    let mut i: usize = 0;
    while i < n
        invariant
            n == s@.len(),
            i <= n,
            forall|k: int| 0 <= k < i ==> is_digit(#[trigger] s@[k]),
            v == decimal_value(s@.take(i as int)),
        decreases n - i,
    {
        let c = s.get_char(i);
        assert(s@.take(i + 1).drop_last() =~= s@.take(i as int));
        if c < '0' || c > '9' {
            return None;
        }
        let d = (c as u32 - '0' as u32) as usize;
        let next = match v.checked_mul(10) {
            Some(t) => t.checked_add(d),
            None => None,
        };
        match next {
            Some(t) => {
                v = t;
            },
            None => {
                proof {
                    if is_decimal(s@) {
                        lemma_decimal_grows(s@, i + 1, n as int);
                        assert(s@.take(n as int) =~= s@);
                    }
                }
                return None;
            },
        }
        i += 1;
    }
    assert(s@.take(n as int) =~= s@);
    Some(v)
}

/// Reads a record line `piece,file,rank,owner`. Fields after the fourth are
/// ignored; the names are kept as they are, to be recognised later.
pub fn parse_record(line: &str) -> (r: Option<(String, usize, usize, String)>)
    ensures
        r is Some <==> record_ok(line@),
        r matches Some(t) ==> t.0@ == field(line@, 0) && t.1 == decimal_value(field(line@, 1))
            && t.2 == decimal_value(field(line@, 2)) && t.3@ == field(line@, 3),
{
    let ghost s = line@;
    let n = line.unicode_len();
    let e0 = comma_from(line, n, 0);
    assert(field_start(s, 0) == 0);
    assert(field_start(s, 1) == e0 + 1);
    if e0 >= n {
        assert(field_start(s, 2) == n + 1);
        assert(field_start(s, 3) == n + 1);
        return None;
    }
    let e1 = comma_from(line, n, e0 + 1);
    assert(field_start(s, 2) == e1 + 1);
    if e1 >= n {
        assert(field_start(s, 3) == n + 1);
        return None;
    }
    let e2 = comma_from(line, n, e1 + 1);
    assert(field_start(s, 3) == e2 + 1);
    if e2 >= n {
        return None;
    }
    let e3 = comma_from(line, n, e2 + 1);
    let file = match parse_decimal(line.substring_char(e0 + 1, e1)) {
        Some(v) => v,
        None => {
            return None;
        },
    };
    let rank = match parse_decimal(line.substring_char(e1 + 1, e2)) {
        Some(v) => v,
        None => {
            return None;
        },
    };
    let piece = line.substring_char(0, e0).to_owned();
    let owner = line.substring_char(e2 + 1, e3).to_owned();
    Some((piece, file, rank, owner))
}

impl Piece {
    /// The piece kind named `pawn`, `rook`, `knight`, `bishop`, `queen` or `king`.
    pub fn from_name(name: &str) -> (r: Option<Piece>)
        ensures
            r == piece_named(name@),
    {
        if text_is(name, "pawn") {
            Some(Piece::Pawn)
        } else if text_is(name, "rook") {
            Some(Piece::Rook)
        } else if text_is(name, "knight") {
            Some(Piece::Knight)
        } else if text_is(name, "bishop") {
            Some(Piece::Bishop)
        } else if text_is(name, "queen") {
            Some(Piece::Queen)
        } else if text_is(name, "king") {
            Some(Piece::King)
        } else {
            None
        }
    }
}

impl Piece {
    pub fn name(self) -> (r: &'static str)
        ensures
            r@ == piece_name(self),
    {
        match self {
            Piece::Pawn => "pawn",
            Piece::Rook => "rook",
            Piece::Knight => "knight",
            Piece::Bishop => "bishop",
            Piece::Queen => "queen",
            Piece::King => "king",
        }
    }
}

impl Owner {
    pub fn name(self) -> (r: &'static str)
        ensures
            r@ == owner_name(self),
    {
        match self {
            Owner::Black => "black",
            Owner::White => "white",
        }
    }

    /// The side named `black` or `white`.
    pub fn from_name(name: &str) -> (r: Option<Owner>)
        ensures
            r == owner_named(name@),
    {
        if text_is(name, "black") {
            Some(Owner::Black)
        } else if text_is(name, "white") {
            Some(Owner::White)
        } else {
            None
        }
    }
}

impl Game {
    /// A game set up from `records`, applied in order to an empty board,
    /// White to move. A record whose piece or owner name is not known
    /// empties its square. Fails if any record lies off the board.
    pub fn build_game(records: &Vec<(String, usize, usize, String)>) -> (r: Result<Game, MoveError>)
        ensures
            r is Err <==> exists|i: int|
                0 <= i < records@.len() && !record_in_bounds(#[trigger] records@[i]),
            r is Err ==> r == Err::<Game, MoveError>(MoveError::OutOfBounds),
            r matches Ok(g) ==> g.wf() && g.turn == Owner::White && g.cells() == layout_cells(
                records@,
            ),
    {
        let mut g = Game::empty();
        assert(g.cells() =~= layout_cells(records@.subrange(0, 0)));
        let mut i: usize = 0;
        while i < records.len()
            invariant
                i <= records@.len(),
                g.wf(),
                g.turn == Owner::White,
                g.cells() == layout_cells(records@.subrange(0, i as int)),
                forall|j: int| 0 <= j < i ==> record_in_bounds(#[trigger] records@[j]),
            decreases records.len() - i,
        {
            let rec = &records[i];
            let occupant = match (Piece::from_name(rec.0.as_str()), Owner::from_name(rec.3.as_str())) {
                (Some(p), Some(o)) => Some((p, o)),
                _ => None,
            };
            let res = match occupant {
                Some((p, o)) => g.place(p, o, (rec.1, rec.2)),
                None => g.clear((rec.1, rec.2)),
            };
            if res.is_err() {
                return Err(MoveError::OutOfBounds);
            }
            assert(records@.subrange(0, i + 1).drop_last() =~= records@.subrange(0, i as int));
            i += 1;
        }
        assert(records@.subrange(0, i as int) =~= records@);
        Ok(g)
    }
}

} // verus!
