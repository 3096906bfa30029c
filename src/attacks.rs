use vstd::prelude::*;

use crate::bitboard::{has_bit, lemma_or_bits, lemma_single_bit, lemma_zero_bits, squares_of, Bitboard};

verus! {

/// The side a pawn belongs to: white pawns move towards rank 8, black ones
/// towards rank 1.
#[derive(Clone, Copy, Debug, PartialEq, Eq, Structural)]
pub enum Color {
    White,
    Black,
}

pub open spec fn rank_of(s: int) -> int {
    s / 8
}

pub open spec fn file_of(s: int) -> int {
    s % 8
}

pub open spec fn on_board(r: int, f: int) -> bool {
    0 <= r < 8 && 0 <= f < 8
}

pub open spec fn square_at(r: int, f: int) -> int {
    r * 8 + f
}

pub open spec fn abs(x: int) -> int {
    if x < 0 {
        -x
    } else {
        x
    }
}

/// A knight's jump: two squares along one axis and one along the other.
pub open spec fn knight_hop(s: int, t: int) -> bool {
    let dr = abs(rank_of(t) - rank_of(s));
    let df = abs(file_of(t) - file_of(s));
    (dr == 1 && df == 2) || (dr == 2 && df == 1)
}

/// A king's step: to any neighbouring square, diagonals included.
pub open spec fn king_step(s: int, t: int) -> bool {
    let dr = abs(rank_of(t) - rank_of(s));
    let df = abs(file_of(t) - file_of(s));
    dr <= 1 && df <= 1 && !(dr == 0 && df == 0)
}

/// A pawn's capture: one square diagonally forward for its color.
pub open spec fn pawn_capture(s: int, color: Color, t: int) -> bool {
    let forward = if color == Color::White {
        1int
    } else {
        -1int
    };
    rank_of(t) - rank_of(s) == forward && abs(file_of(t) - file_of(s)) == 1
}

pub open spec fn knight_set(s: int) -> Set<int> {
    Set::new(|t: int| 0 <= t < 64 && knight_hop(s, t))
}

pub open spec fn king_set(s: int) -> Set<int> {
    Set::new(|t: int| 0 <= t < 64 && king_step(s, t))
}

pub open spec fn pawn_set(s: int, color: Color) -> Set<int> {
    Set::new(|t: int| 0 <= t < 64 && pawn_capture(s, color, t))
}

/// The pieces whose attacks do not depend on the occupancy.
#[derive(Clone, Copy)]
enum Leaper {
    Knight,
    King,
    Pawn(Color),
}

spec fn leaps(kind: Leaper, s: int, t: int) -> bool {
    match kind {
        Leaper::Knight => knight_hop(s, t),
        Leaper::King => king_step(s, t),
        Leaper::Pawn(c) => pawn_capture(s, c, t),
    }
}

spec fn leap_set(kind: Leaper, s: int) -> Set<int> {
    Set::new(|t: int| 0 <= t < 64 && leaps(kind, s, t))
}

fn leaps_to(kind: Leaper, s: u8, t: u8) -> (r: bool)
    requires
        s < 64,
        t < 64,
    ensures
        r == leaps(kind, s as int, t as int),
{
    let dr: i8 = (t / 8) as i8 - (s / 8) as i8;
    let df: i8 = (t % 8) as i8 - (s % 8) as i8;
    let ar: i8 = if dr < 0 {
        -dr
    } else {
        dr
    };
    let af: i8 = if df < 0 {
        -df
    } else {
        df
    };
    match kind {
        Leaper::Knight => (ar == 1 && af == 2) || (ar == 2 && af == 1),
        Leaper::King => ar <= 1 && af <= 1 && !(ar == 0 && af == 0),
        Leaper::Pawn(Color::White) => dr == 1 && af == 1,
        Leaper::Pawn(Color::Black) => dr == -1 && af == 1,
    }
}

/// The attack mask of `kind` on square `s`, found by testing every target.
fn leap_mask(kind: Leaper, s: u8) -> (r: u64)
    requires
        s < 64,
    ensures
        squares_of(r) == leap_set(kind, s as int),
{
    let mut acc: u64 = 0;
    let mut t: u8 = 0;
    proof {
        lemma_zero_bits();
    }
    while t < 64
        invariant
            s < 64,
            t <= 64,
            squares_of(acc) == Set::new(|u: int| 0 <= u < t && leaps(kind, s as int, u)),
        decreases 64 - t,
    {
        if leaps_to(kind, s, t) {
            proof {
                lemma_or_bits(acc, 1u64 << t);
                lemma_single_bit(t as u64);
            }
            acc = acc | (1u64 << t);
        }
        assert(squares_of(acc) =~= Set::new(|u: int| 0 <= u < t + 1 && leaps(kind, s as int, u)));
        t = t + 1;
    }
    assert(squares_of(acc) =~= leap_set(kind, s as int));
    acc
}

spec fn holds_masks(v: Seq<u64>, kind: Leaper) -> bool {
    &&& v.len() == 64
    &&& forall|s: int| 0 <= s < 64 ==> #[trigger] squares_of(v[s]) == leap_set(kind, s)
}

/// The masks of `kind` on all 64 squares, indexed by square.
fn leap_table(kind: Leaper) -> (r: Vec<u64>)
    ensures
        holds_masks(r@, kind),
{
    let mut v: Vec<u64> = Vec::new();
    let mut s: u8 = 0;
    while s < 64
        invariant
            s <= 64,
            v@.len() == s,
            forall|q: int| 0 <= q < s ==> #[trigger] squares_of(v@[q]) == leap_set(kind, q),
        decreases 64 - s,
    {
        let m = leap_mask(kind, s);
        v.push(m);
        s = s + 1;
    }
    v
}

/// A direction of travel on the board: one step in rank and file, not both zero.
pub open spec fn is_direction(dr: int, df: int) -> bool {
    -1 <= dr <= 1 && -1 <= df <= 1 && !(dr == 0 && df == 0)
}

/// The squares that a sliding piece on rank `r`, file `f` attacks in direction
/// `(dr, df)`, taking at most `fuel` steps: every empty square in turn, then
/// the first occupied one, where the ray stops; it also stops at the edge.
pub open spec fn ray(r: int, f: int, dr: int, df: int, occ: Set<int>, fuel: nat) -> Set<int>
    decreases fuel,
{
    if fuel == 0 {
        Set::empty()
    } else {
        let nr = r + dr;
        let nf = f + df;
        if !on_board(nr, nf) {
            Set::empty()
        } else if occ.contains(square_at(nr, nf)) {
            set![square_at(nr, nf)]
        } else {
            ray(nr, nf, dr, df, occ, (fuel - 1) as nat).insert(square_at(nr, nf))
        }
    }
}

/// The ray from square `s` in direction `(dr, df)`; seven steps cross the board.
pub open spec fn ray_from(s: int, dr: int, df: int, occ: Set<int>) -> Set<int> {
    ray(rank_of(s), file_of(s), dr, df, occ, 7)
}

pub open spec fn rook_set(s: int, occ: Set<int>) -> Set<int> {
    ray_from(s, 1, 0, occ).union(ray_from(s, -1, 0, occ)).union(ray_from(s, 0, 1, occ)).union(
        ray_from(s, 0, -1, occ),
    )
}

pub open spec fn bishop_set(s: int, occ: Set<int>) -> Set<int> {
    ray_from(s, 1, 1, occ).union(ray_from(s, 1, -1, occ)).union(ray_from(s, -1, 1, occ)).union(
        ray_from(s, -1, -1, occ),
    )
}

/// The queen slides in all eight directions.
pub open spec fn queen_set(s: int, occ: Set<int>) -> Set<int> {
    Set::new(
        |t: int|
            exists|dr: int, df: int| is_direction(dr, df) && #[trigger] ray_from(s, dr, df, occ).contains(t),
    )
}

/// The squares attacked along one ray, cast step by step.
fn ray_bits(r: i8, f: i8, dr: i8, df: i8, occ: u64, fuel: u8) -> (res: u64)
    requires
        on_board(r as int, f as int),
        is_direction(dr as int, df as int),
    ensures
        squares_of(res) == ray(r as int, f as int, dr as int, df as int, squares_of(occ), fuel as nat),
    decreases fuel,
{
    if fuel == 0 {
        proof {
            lemma_zero_bits();
        }
        return 0;
    }
    let nr = r + dr;
    let nf = f + df;
    if nr < 0 || nr >= 8 || nf < 0 || nf >= 8 {
        proof {
            lemma_zero_bits();
        }
        return 0;
    }
    let t = (nr * 8 + nf) as u8;
    let bit = 1u64 << t;
    proof {
        lemma_single_bit(t as u64);
    }
    if has_bit(occ, t) {
        bit
    } else {
        let rest = ray_bits(nr, nf, dr, df, occ, fuel - 1);
        proof {
            lemma_or_bits(rest, bit);
        }
        let res = rest | bit;
        assert(squares_of(res) =~= ray(r as int, f as int, dr as int, df as int, squares_of(occ), fuel as nat));
        res
    }
}

fn ray_from_square(square: u8, dr: i8, df: i8, occ: u64) -> (res: u64)
    requires
        square < 64,
        is_direction(dr as int, df as int),
    ensures
        squares_of(res) == ray_from(square as int, dr as int, df as int, squares_of(occ)),
{
    ray_bits((square / 8) as i8, (square % 8) as i8, dr, df, occ, 7)
}

/// The queen's attacks are exactly the rook's and the bishop's together, on
/// every square and every occupancy.
pub proof fn lemma_queen_is_rook_and_bishop(s: int, occ: Set<int>)
    ensures
        rook_set(s, occ).union(bishop_set(s, occ)) == queen_set(s, occ),
{
    let rb = rook_set(s, occ).union(bishop_set(s, occ));
    assert forall|t: int| queen_set(s, occ).contains(t) implies rb.contains(t) by {
        let (dr, df) = choose|dr: int, df: int|
            is_direction(dr, df) && #[trigger] ray_from(s, dr, df, occ).contains(t);
        assert(ray_from(s, dr, df, occ).contains(t));
    }
    assert forall|t: int| rb.contains(t) implies queen_set(s, occ).contains(t) by {
        if ray_from(s, 1, 0, occ).contains(t) {
            assert(is_direction(1, 0));
        } else if ray_from(s, -1, 0, occ).contains(t) {
            assert(is_direction(-1, 0));
        } else if ray_from(s, 0, 1, occ).contains(t) {
            assert(is_direction(0, 1));
        } else if ray_from(s, 0, -1, occ).contains(t) {
            assert(is_direction(0, -1));
        } else if ray_from(s, 1, 1, occ).contains(t) {
            assert(is_direction(1, 1));
        } else if ray_from(s, 1, -1, occ).contains(t) {
            assert(is_direction(1, -1));
        } else if ray_from(s, -1, 1, occ).contains(t) {
            assert(is_direction(-1, 1));
        } else {
            assert(ray_from(s, -1, -1, occ).contains(t));
            assert(is_direction(-1, -1));
        }
    }
    assert(rb =~= queen_set(s, occ));
}

/// Attack masks for every piece kind from every square, built once.
pub struct AttackTable {
    knight: Vec<u64>,
    king: Vec<u64>,
    white_pawn: Vec<u64>,
    black_pawn: Vec<u64>,
}

impl AttackTable {
    /// Every fixed mask holds the attacks of its piece on its square.
    pub closed spec fn wf(&self) -> bool {
        &&& holds_masks(self.knight@, Leaper::Knight)
        &&& holds_masks(self.king@, Leaper::King)
        &&& holds_masks(self.white_pawn@, Leaper::Pawn(Color::White))
        &&& holds_masks(self.black_pawn@, Leaper::Pawn(Color::Black))
    }

    /// Builds every fixed mask.
    pub fn new() -> (r: AttackTable)
        ensures
            r.wf(),
    {
        AttackTable {
            knight: leap_table(Leaper::Knight),
            king: leap_table(Leaper::King),
            white_pawn: leap_table(Leaper::Pawn(Color::White)),
            black_pawn: leap_table(Leaper::Pawn(Color::Black)),
        }
    }

    /// The squares a knight on `square` attacks.
    pub fn knight_attacks(&self, square: u8) -> (r: Bitboard)
        requires
            self.wf(),
            square < 64,
        ensures
            r@ == knight_set(square as int),
    {
        let r = Bitboard { bits: self.knight[square as usize] };
        assert(r@ =~= knight_set(square as int));
        r
    }

    /// The squares a king on `square` attacks.
    pub fn king_attacks(&self, square: u8) -> (r: Bitboard)
        requires
            self.wf(),
            square < 64,
        ensures
            r@ == king_set(square as int),
    {
        let r = Bitboard { bits: self.king[square as usize] };
        assert(r@ =~= king_set(square as int));
        r
    }

    /// The squares a pawn of `color` on `square` attacks. A pawn on its own
    /// back rank cannot stand there in play; its attacks are given anyway.
    pub fn pawn_attacks(&self, square: u8, color: Color) -> (r: Bitboard)
        requires
            self.wf(),
            square < 64,
        ensures
            r@ == pawn_set(square as int, color),
    {
        let bits = match color {
            Color::White => self.white_pawn[square as usize],
            Color::Black => self.black_pawn[square as usize],
        };
        let r = Bitboard { bits };
        assert(r@ =~= pawn_set(square as int, color));
        r
    }

    /// The squares a rook on `square` attacks when `occupancy` holds the pieces.
    pub fn rook_attacks(&self, square: u8, occupancy: Bitboard) -> (r: Bitboard)
        requires
            square < 64,
        ensures
            r@ == rook_set(square as int, occupancy@),
    {
        let occ = occupancy.bits;
        let a = ray_from_square(square, 1, 0, occ);
        let b = ray_from_square(square, -1, 0, occ);
        let c = ray_from_square(square, 0, 1, occ);
        let d = ray_from_square(square, 0, -1, occ);
        proof {
            lemma_or_bits(a, b);
            lemma_or_bits(a | b, c);
            lemma_or_bits(a | b | c, d);
        }
        Bitboard { bits: a | b | c | d }
    }

    /// The squares a bishop on `square` attacks when `occupancy` holds the pieces.
    pub fn bishop_attacks(&self, square: u8, occupancy: Bitboard) -> (r: Bitboard)
        requires
            square < 64,
        ensures
            r@ == bishop_set(square as int, occupancy@),
    {
        let occ = occupancy.bits;
        let a = ray_from_square(square, 1, 1, occ);
        let b = ray_from_square(square, 1, -1, occ);
        let c = ray_from_square(square, -1, 1, occ);
        let d = ray_from_square(square, -1, -1, occ);
        proof {
            lemma_or_bits(a, b);
            lemma_or_bits(a | b, c);
            lemma_or_bits(a | b | c, d);
        }
        Bitboard { bits: a | b | c | d }
    }

    /// The squares a queen on `square` attacks when `occupancy` holds the pieces.
    pub fn queen_attacks(&self, square: u8, occupancy: Bitboard) -> (r: Bitboard)
        requires
            square < 64,
        ensures
            r@ == queen_set(square as int, occupancy@),
    {
        let rook = self.rook_attacks(square, occupancy);
        let bishop = self.bishop_attacks(square, occupancy);
        proof {
            lemma_queen_is_rook_and_bishop(square as int, occupancy@);
        }
        rook.union(bishop)
    }
}

pub open spec fn sign(x: int) -> int {
    if x > 0 {
        1
    } else if x < 0 {
        -1
    } else {
        0
    }
}

/// The coordinate reached from `x` after `k` steps of `d`, for `d` in -1, 0, 1.
pub open spec fn walk(x: int, d: int, k: int) -> int {
    if d > 0 {
        x + k
    } else if d < 0 {
        x - k
    } else {
        x
    }
}

proof fn lemma_square_coords(r: int, f: int)
    requires
        on_board(r, f),
    ensures
        rank_of(square_at(r, f)) == r,
        file_of(square_at(r, f)) == f,
        0 <= square_at(r, f) < 64,
{
}

/// Every square of a ray lies on the board, strictly ahead of its origin in
/// the ray's direction.
proof fn lemma_ray_region(r: int, f: int, dr: int, df: int, occ: Set<int>, fuel: nat, t: int)
    requires
        is_direction(dr, df),
        ray(r, f, dr, df, occ, fuel).contains(t),
    ensures
        0 <= t < 64,
        sign(rank_of(t) - r) == dr,
        sign(file_of(t) - f) == df,
    decreases fuel,
{
    let nr = r + dr;
    let nf = f + df;
    lemma_square_coords(nr, nf);
    if t != square_at(nr, nf) {
        lemma_ray_region(nr, nf, dr, df, occ, (fuel - 1) as nat, t);
    }
}

/// The square `k` steps along a ray is attacked exactly when the `k - 1`
/// squares before it are empty.
proof fn lemma_ray_step(r: int, f: int, dr: int, df: int, occ: Set<int>, fuel: nat, k: int)
    requires
        on_board(r, f),
        is_direction(dr, df),
        1 <= k <= fuel,
        on_board(walk(r, dr, k), walk(f, df, k)),
    ensures
        ray(r, f, dr, df, occ, fuel).contains(square_at(walk(r, dr, k), walk(f, df, k))) <==> forall|
            j: int,
        |
            1 <= j < k ==> !occ.contains(#[trigger] square_at(walk(r, dr, j), walk(f, df, j))),
    decreases k,
{
    let nr = r + dr;
    let nf = f + df;
    assert(on_board(nr, nf));
    let t = square_at(walk(r, dr, k), walk(f, df, k));
    lemma_square_coords(nr, nf);
    lemma_square_coords(walk(r, dr, k), walk(f, df, k));
    if k > 1 {
        assert(t != square_at(nr, nf));
        assert(walk(r, dr, 1) == nr && walk(f, df, 1) == nf);
        if !occ.contains(square_at(nr, nf)) {
            lemma_ray_step(nr, nf, dr, df, occ, (fuel - 1) as nat, k - 1);
            assert(walk(nr, dr, k - 1) == walk(r, dr, k) && walk(nf, df, k - 1) == walk(f, df, k));
            assert forall|j: int| 1 <= j < k - 1 implies square_at(walk(nr, dr, j), walk(nf, df, j))
                == #[trigger] square_at(walk(r, dr, j + 1), walk(f, df, j + 1)) by {}
            if forall|j: int| 1 <= j < k ==> !occ.contains(#[trigger] square_at(walk(r, dr, j), walk(f, df, j))) {
                assert forall|j: int| 1 <= j < k - 1 implies !occ.contains(
                    #[trigger] square_at(walk(nr, dr, j), walk(nf, df, j)),
                ) by {
                    assert(square_at(walk(nr, dr, j), walk(nf, df, j)) == square_at(
                        walk(r, dr, j + 1),
                        walk(f, df, j + 1),
                    ));
                }
            } else {
                let j = choose|j: int|
                    1 <= j < k && occ.contains(#[trigger] square_at(walk(r, dr, j), walk(f, df, j)));
                assert(j != 1);
                assert(square_at(walk(nr, dr, j - 1), walk(nf, df, j - 1)) == square_at(
                    walk(r, dr, j),
                    walk(f, df, j),
                ));
            }
        } else {
            assert(square_at(walk(r, dr, 1), walk(f, df, 1)) == square_at(nr, nf));
        }
    }
}

/// Along each of the rook's four directions, the square `k` steps from `s` is
/// attacked exactly when every square before it is empty: the ray takes in
/// the empty squares and the first occupied one, and nothing beyond.
pub proof fn lemma_rook_ray_stops_at_first_blocker(s: int, occ: Set<int>, dr: int, df: int, k: int)
    requires
        0 <= s < 64,
        is_direction(dr, df),
        dr == 0 || df == 0,
        k >= 1,
        on_board(walk(rank_of(s), dr, k), walk(file_of(s), df, k)),
    ensures
        rook_set(s, occ).contains(square_at(walk(rank_of(s), dr, k), walk(file_of(s), df, k)))
            <==> forall|j: int|
            1 <= j < k ==> !occ.contains(
                #[trigger] square_at(walk(rank_of(s), dr, j), walk(file_of(s), df, j)),
            ),
{
    let r = rank_of(s);
    let f = file_of(s);
    let t = square_at(walk(r, dr, k), walk(f, df, k));
    lemma_square_coords(walk(r, dr, k), walk(f, df, k));
    lemma_ray_step(r, f, dr, df, occ, 7, k);
    if ray_from(s, 1, 0, occ).contains(t) {
        lemma_ray_region(r, f, 1, 0, occ, 7, t);
    }
    if ray_from(s, -1, 0, occ).contains(t) {
        lemma_ray_region(r, f, -1, 0, occ, 7, t);
    }
    if ray_from(s, 0, 1, occ).contains(t) {
        lemma_ray_region(r, f, 0, 1, occ, 7, t);
    }
    if ray_from(s, 0, -1, occ).contains(t) {
        lemma_ray_region(r, f, 0, -1, occ, 7, t);
    }
}

/// On an empty board a rook attacks its whole rank and file, save its own square.
pub proof fn lemma_rook_empty_board(s: int)
    requires
        0 <= s < 64,
    ensures
        rook_set(s, Set::empty()) == Set::new(
            |t: int|
                0 <= t < 64 && t != s && (rank_of(t) == rank_of(s) || file_of(t) == file_of(s)),
        ),
{
    let occ = Set::<int>::empty();
    let line = Set::new(
        |t: int| 0 <= t < 64 && t != s && (rank_of(t) == rank_of(s) || file_of(t) == file_of(s)),
    );
    let r = rank_of(s);
    let f = file_of(s);
    assert forall|t: int| rook_set(s, occ).contains(t) implies line.contains(t) by {
        if ray_from(s, 1, 0, occ).contains(t) {
            lemma_ray_region(r, f, 1, 0, occ, 7, t);
        } else if ray_from(s, -1, 0, occ).contains(t) {
            lemma_ray_region(r, f, -1, 0, occ, 7, t);
        } else if ray_from(s, 0, 1, occ).contains(t) {
            lemma_ray_region(r, f, 0, 1, occ, 7, t);
        } else {
            lemma_ray_region(r, f, 0, -1, occ, 7, t);
        }
    }
    assert forall|t: int| line.contains(t) implies rook_set(s, occ).contains(t) by {
        let tr = rank_of(t);
        let tf = file_of(t);
        assert(t == square_at(tr, tf));
        if tr == r {
            let df = sign(tf - f);
            let k = abs(tf - f);
            assert(walk(r, 0, k) == tr && walk(f, df, k) == tf);
            lemma_ray_step(r, f, 0, df, occ, 7, k);
        } else {
            let dr = sign(tr - r);
            let k = abs(tr - r);
            assert(walk(r, dr, k) == tr && walk(f, 0, k) == tf);
            lemma_ray_step(r, f, dr, 0, occ, 7, k);
        }
    }
    assert(rook_set(s, occ) =~= line);
}

} // verus!
