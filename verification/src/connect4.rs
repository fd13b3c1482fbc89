use vstd::prelude::*;

verus! {

pub const WIDTH: usize = 9;
pub const HEIGHT: usize = 7;

/// Start cells of the diagonals that go up-left to down-right (columns 0..6, rows 3..7).
pub const D1_MASK: u64 = 0x3c78f1e3c78;
/// Start cells of the diagonals that go down-left to up-right (columns 0..6, rows 0..4).
pub const D2_MASK: u64 = 0x78f1e3c78f;
/// Start cells of horizontal lines (columns 0..6).
pub const H_MASK: u64 = 0x3ffffffffff;
/// Start cells of vertical lines (rows 0..4 of every column).
pub const V_MASK: u64 = 0xf1e3c78f1e3c78f;

/// Bit `i` of `x` is set.
pub open spec fn bit(x: u64, i: int) -> bool {
    0 <= i < 64 && (x >> (i as u64)) & 1 == 1
}

/// The cell at column `col`, row `row` (row 0 at the bottom) lies on the board and is set in `bb`.
/// Column `c` occupies bits `7c .. 7c + 7` of a bitboard.
pub open spec fn cell(bb: u64, col: int, row: int) -> bool {
    0 <= col < WIDTH && 0 <= row < HEIGHT && bit(bb, 7 * col + row)
}

/// Four set cells of `bb` in a row, starting at (`col`, `row`) and going in direction (`dc`, `dr`).
pub open spec fn four(bb: u64, col: int, row: int, dc: int, dr: int) -> bool {
    &&& cell(bb, col, row)
    &&& cell(bb, col + dc, row + dr)
    &&& cell(bb, col + 2 * dc, row + 2 * dr)
    &&& cell(bb, col + 3 * dc, row + 3 * dr)
}

/// Four set cells in a row, starting at (`col`, `row`), vertically, horizontally or diagonally.
pub open spec fn line_from(bb: u64, col: int, row: int) -> bool {
    ||| four(bb, col, row, 0, 1)
    ||| four(bb, col, row, 1, 0)
    ||| four(bb, col, row, 1, 1)
    ||| four(bb, col, row, 1, -1)
}

/// The stones of `bb` hold four in a row somewhere on the board.
pub open spec fn has_four(bb: u64) -> bool {
    exists|col: int, row: int| #[trigger] line_from(bb, col, row)
}

proof fn lemma_masks(i: u64)
    requires
        i < 64,
    ensures
        ((H_MASK >> i) & 1 == 1) <==> i / 7 < 6,
        ((V_MASK >> i) & 1 == 1) <==> (i / 7 < 9 && i % 7 < 4),
        ((D1_MASK >> i) & 1 == 1) <==> (i / 7 < 6 && i % 7 >= 3),
        ((D2_MASK >> i) & 1 == 1) <==> (i / 7 < 6 && i % 7 < 4),
{
    assert(((0x3ffffffffffu64 >> i) & 1 == 1) <==> i / 7 < 6) by (bit_vector)
        requires
            i < 64,
    ;
    assert(((0xf1e3c78f1e3c78fu64 >> i) & 1 == 1) <==> (i / 7 < 9 && i % 7 < 4)) by (bit_vector)
        requires
            i < 64,
    ;
    assert(((0x3c78f1e3c78u64 >> i) & 1 == 1) <==> (i / 7 < 6 && i % 7 >= 3)) by (bit_vector)
        requires
            i < 64,
    ;
    assert(((0x78f1e3c78fu64 >> i) & 1 == 1) <==> (i / 7 < 6 && i % 7 < 4)) by (bit_vector)
        requires
            i < 64,
    ;
}

/// The mask of start cells that belongs to direction (`dc`, `dr`), whose bit stride is `s`.
spec fn direction(s: u64, m: u64, dc: int, dr: int) -> bool {
    ||| (s == 1 && m == V_MASK && dc == 0 && dr == 1)
    ||| (s == 7 && m == H_MASK && dc == 1 && dr == 0)
    ||| (s == 8 && m == D2_MASK && dc == 1 && dr == 1)
    ||| (s == 6 && m == D1_MASK && dc == 1 && dr == -1)
}

/// The start cells that the mask of a direction selects are exactly those from which
/// four cells in that direction stay on the board.
proof fn lemma_mask_geometry(i: u64, s: u64, m: u64, dc: int, dr: int)
    requires
        i < 64,
        direction(s, m, dc, dr),
    ensures
        ((m >> i) & 1 == 1) <==> ({
            let c = i / 7;
            let r = i % 7;
            &&& 0 <= c + 3 * dc < WIDTH
            &&& 0 <= r + 3 * dr < HEIGHT
            &&& c < WIDTH
        }),
{
    lemma_masks(i);
}

proof fn lemma_term_bit(bb: u64, s: u64, m: u64, i: u64)
    requires
        i < 64,
        1 <= s <= 8,
    ensures
        (((bb & (bb >> s) & (bb >> (2 * s) as u64) & (bb >> (3 * s) as u64) & m) >> i) & 1 == 1) <==> {
            &&& (m >> i) & 1 == 1
            &&& (bb >> i) & 1 == 1
            &&& (bb >> (i + s) as u64) & 1 == 1
            &&& (bb >> (i + 2 * s) as u64) & 1 == 1
            &&& (bb >> (i + 3 * s) as u64) & 1 == 1
        },
{
    assert((((bb & (bb >> s) & (bb >> (2 * s) as u64) & (bb >> (3 * s) as u64) & m) >> i) & 1 == 1) <==> {
            &&& (m >> i) & 1 == 1
            &&& (bb >> i) & 1 == 1
            &&& (bb >> (i + s) as u64) & 1 == 1
            &&& (bb >> (i + 2 * s) as u64) & 1 == 1
            &&& (bb >> (i + 3 * s) as u64) & 1 == 1
        }) by (bit_vector)
        requires
            i < 64,
            1 <= s <= 8,
    ;
}


/// The bits of `bb` that start four set cells with stride `s`, restricted to the start cells in `m`.
pub open spec fn term(bb: u64, s: u64, m: u64) -> u64 {
    bb & (bb >> s) & (bb >> (2 * s) as u64) & (bb >> (3 * s) as u64) & m
}

/// A direction's term is nonzero exactly when the board holds four in a row in that direction.
proof fn lemma_term(bb: u64, s: u64, m: u64, dc: int, dr: int)
    requires
        direction(s, m, dc, dr),
    ensures
        term(bb, s, m) != 0 <==> exists|col: int, row: int| #[trigger] four(bb, col, row, dc, dr),
{
    let t = term(bb, s, m);
    if t != 0 {
        vstd::std_specs::bits::axiom_u64_trailing_zeros(t);
        let i = vstd::std_specs::bits::u64_trailing_zeros(t) as u64;
        assert(i < 64);
        assert((t >> i) & 1 == 1);
        lemma_term_bit(bb, s, m, i);
        lemma_mask_geometry(i, s, m, dc, dr);
        let c = (i / 7) as int;
        let r = (i % 7) as int;
        assert(i == 7 * c + r);
        assert(s == 7 * dc + dr);
        assert(four(bb, c, r, dc, dr));
    }
    if exists|col: int, row: int| #[trigger] four(bb, col, row, dc, dr) {
        let (c, r) = choose|col: int, row: int| #[trigger] four(bb, col, row, dc, dr);
        let i = (7 * c + r) as u64;
        assert(i / 7 == c && i % 7 == r);
        assert(s == 7 * dc + dr);
        lemma_mask_geometry(i, s, m, dc, dr);
        lemma_term_bit(bb, s, m, i);
        assert((t >> i) & 1 == 1);
        assert(t != 0) by (bit_vector)
            requires
                (t >> i) & 1 == 1,
        ;
    }
}


/// The position holds four in a row. The bitboard test shifts `bb` along each of the four
/// directions and keeps only the start cells from which a line fits on the board.
pub fn won(bb: u64) -> (r: bool)
    ensures
        r == has_four(bb),
{
    let d1 = bb & (bb >> 6) & (bb >> 12) & (bb >> 18) & D1_MASK;
    let d2 = bb & (bb >> 8) & (bb >> 16) & (bb >> 24) & D2_MASK;
    let h = bb & (bb >> 7) & (bb >> 14) & (bb >> 21) & H_MASK;
    let v = bb & (bb >> 1) & (bb >> 2) & (bb >> 3) & V_MASK;
    assert(d1 <= 0x3c78f1e3c78 && d2 <= 0x78f1e3c78f && h <= 0x3ffffffffff && v <= 0xf1e3c78f1e3c78f) by (bit_vector)
        requires
            d1 == bb & (bb >> 6) & (bb >> 12) & (bb >> 18) & 0x3c78f1e3c78u64,
            d2 == bb & (bb >> 8) & (bb >> 16) & (bb >> 24) & 0x78f1e3c78fu64,
            h == bb & (bb >> 7) & (bb >> 14) & (bb >> 21) & 0x3ffffffffffu64,
            v == bb & (bb >> 1) & (bb >> 2) & (bb >> 3) & 0xf1e3c78f1e3c78fu64,
    ;
    proof {
        assert(d1 == term(bb, 6, D1_MASK));
        assert(d2 == term(bb, 8, D2_MASK));
        assert(h == term(bb, 7, H_MASK));
        assert(v == term(bb, 1, V_MASK));
        lemma_term(bb, 6, D1_MASK, 1, -1);
        lemma_term(bb, 8, D2_MASK, 1, 1);
        lemma_term(bb, 7, H_MASK, 1, 0);
        lemma_term(bb, 1, V_MASK, 0, 1);
        if has_four(bb) {
            let (c, r) = choose|col: int, row: int| #[trigger] line_from(bb, col, row);
            if four(bb, c, r, 0, 1) {
            } else if four(bb, c, r, 1, 0) {
            } else if four(bb, c, r, 1, 1) {
            } else {
            }
        }
        if d1 != 0 {
            let (c, r) = choose|col: int, row: int| #[trigger] four(bb, col, row, 1, -1);
            assert(line_from(bb, c, r));
        }
        if d2 != 0 {
            let (c, r) = choose|col: int, row: int| #[trigger] four(bb, col, row, 1, 1);
            assert(line_from(bb, c, r));
        }
        if h != 0 {
            let (c, r) = choose|col: int, row: int| #[trigger] four(bb, col, row, 1, 0);
            assert(line_from(bb, c, r));
        }
        if v != 0 {
            let (c, r) = choose|col: int, row: int| #[trigger] four(bb, col, row, 0, 1);
            assert(line_from(bb, c, r));
        }
    }
    v + h + d1 + d2 > 0
}


/// Number of set bits of `x` among its lowest `n` bits.
pub open spec fn count_bits(x: u64, n: nat) -> nat
    decreases n,
{
    if n == 0 {
        0
    } else {
        count_bits(x, (n - 1) as nat) + if bit(x, n - 1) {
            1nat
        } else {
            0nat
        }
    }
}

/// Number of set bits of `x`.
pub open spec fn popcount(x: u64) -> nat {
    count_bits(x, 64)
}

#[derive(Debug, Eq, PartialEq, Clone, Copy, Structural)]
pub enum Outcome {
    Win,
    Draw,
    Undecided,
}

/// A Connect-4 position on a 9 x 7 board, stored as two bitboards: the stones of the player
/// to move (`my_bb`) and those of the opponent (`op_bb`).
#[allow(non_snake_case)]
#[derive(Debug, Eq, PartialEq, Clone, Copy)]
pub struct Connect4 {
    pub my_bb: u64,
    pub op_bb: u64,
    height: [u8; WIDTH],
    player: u8,
    pub outcome: Outcome,
    pub lastMove: u8,
}

/// The mathematical content of a `Connect4` value.
pub struct Position {
    pub my_bb: u64,
    pub op_bb: u64,
    /// Number of stones in each column.
    pub height: Seq<u8>,
    /// 0 for the player who moved first, 1 for the other one.
    pub player: u8,
    pub outcome: Outcome,
    pub last_move: u8,
}

impl View for Connect4 {
    type V = Position;

    closed spec fn view(&self) -> Position {
        Position {
            my_bb: self.my_bb,
            op_bb: self.op_bb,
            height: self.height@,
            player: self.player,
            outcome: self.outcome,
            last_move: self.lastMove,
        }
    }
}

impl Position {
    /// The empty board, first player to move.
    pub open spec fn initial() -> Position {
        Position {
            my_bb: 0,
            op_bb: 0,
            height: Seq::new(WIDTH as nat, |i: int| 0u8),
            player: 0,
            outcome: Outcome::Undecided,
            last_move: u8::MAX,
        }
    }

    /// All stones on the board.
    pub open spec fn stones(self) -> u64 {
        self.my_bb | self.op_bb
    }

    /// Number of stones on the board.
    pub open spec fn turn(self) -> nat {
        popcount(self.stones())
    }

    /// The bit of the cell where a stone dropped into column `col` lands.
    pub open spec fn landing_bit(self, col: int) -> u64 {
        (1u64 << ((self.height[col] + 7 * col) as u64))
    }

    /// The position after the player to move drops a stone into column `col`.
    pub open spec fn stepped(self, col: int) -> Position {
        let mover = self.my_bb ^ self.landing_bit(col);
        let after = Position {
            my_bb: self.op_bb,
            op_bb: mover,
            height: self.height.update(col, (self.height[col] + 1) as u8),
            player: (1 - self.player) as u8,
            outcome: self.outcome,
            last_move: col as u8,
        };
        Position {
            outcome: if has_four(mover) {
                Outcome::Win
            } else if after.turn() == WIDTH * HEIGHT {
                Outcome::Draw
            } else {
                self.outcome
            },
            ..after
        }
    }

    /// Column `col` can take one more stone.
    pub open spec fn can_play(self, col: int) -> bool {
        0 <= col < WIDTH && self.height[col] < HEIGHT
    }

    /// A position reachable by play: heights within the board, the two bitboards disjoint,
    /// and each column filled from the bottom up to its height, with no stone elsewhere.
    pub open spec fn wf(self) -> bool {
        &&& self.height.len() == WIDTH
        &&& self.player <= 1
        &&& forall|c: int| 0 <= c < WIDTH ==> #[trigger] self.height[c] <= HEIGHT
        &&& self.my_bb & self.op_bb == 0
        &&& forall|i: int| 0 <= i < 64 ==> (#[trigger] bit(self.stones(), i) <==> {
            let c = i / 7;
            let r = i % 7;
            c < WIDTH && r < self.height[c]
        })
    }
}

/// Name for the digest that std's `DefaultHasher`, freshly built through
/// `BuildHasherDefault::default()`, returns after hashing the pair `(a, b)`: that is after
/// `write_u64(a)`, `write_u64(b)` and `finish()`. The hasher is built with fixed keys, so the
/// digest depends on `a` and `b` alone (for a given build of std).
pub uninterp spec fn default_hash_of_pair(a: u64, b: u64) -> u64;

/// Trusted: hashes `(a, b)` with std's `BuildHasher::hash_one` on a fresh
/// `BuildHasherDefault<DefaultHasher>`; the contract only names the result.
#[verifier::external_body]
fn hash_pair(a: u64, b: u64) -> (r: u64)
    ensures
        r == default_hash_of_pair(a, b),
{
    std::hash::BuildHasher::hash_one(
        &std::hash::BuildHasherDefault::<std::collections::hash_map::DefaultHasher>::default(),
        (a, b),
    )
}

impl Connect4 {
    /// A hash of the two bitboards.
    pub fn hash(&self) -> (r: usize)
        ensures
            r == default_hash_of_pair(self@.my_bb, self@.op_bb) as usize,
    {
        hash_pair(self.my_bb, self.op_bb) as usize
    }

    pub fn new() -> (r: Self)
        ensures
            r@ == Position::initial(),
    {
        let r = Self {
            my_bb: 0,
            op_bb: 0,
            height: [0; WIDTH],
            player: 0,
            outcome: Outcome::Undecided,
            lastMove: u8::MAX,
        };
        assert(r@.height =~= Position::initial().height);
        r
    }

    /// Number of stones on the board.
    pub fn turn(self) -> (r: i32)
        ensures
            r == self@.turn(),
    {
        let u = self.my_bb | self.op_bb;
        let mut count: i32 = 0;
        let mut i: u64 = 0;
        while i < 64
            invariant
                i <= 64,
                u == self@.stones(),
                count == count_bits(u, i as nat),
                count <= i,
            decreases 64 - i,
        {
            if (u >> i) & 1 == 1 {
                count += 1;
            }
            i += 1;
        }
        count
    }

    fn full(self) -> (r: bool)
        ensures
            r == (self@.turn() == WIDTH * HEIGHT),
    {
        self.turn() == (WIDTH * HEIGHT) as i32
    }

    /// The columns that can take one more stone, in increasing order.
    pub fn valid_actions(&self) -> (r: Vec<u8>)
        ensures
            forall|k: int| 0 <= k < r.len() ==> self@.can_play(#[trigger] r[k] as int),
            forall|k1: int, k2: int| 0 <= k1 < k2 < r.len() ==> r[k1] < r[k2],
            forall|c: int| #[trigger] self@.can_play(c) ==> r@.contains(c as u8),
    {
        let mut r: Vec<u8> = Vec::new();
        let mut i: usize = 0;
        while i < WIDTH
            invariant
                i <= WIDTH,
                self@.height.len() == WIDTH,
                forall|k: int| 0 <= k < r.len() ==> self@.can_play(#[trigger] r[k] as int) && r[k] < i,
                forall|k1: int, k2: int| 0 <= k1 < k2 < r.len() ==> r[k1] < r[k2],
                forall|c: int| 0 <= c < i && #[trigger] self@.can_play(c) ==> r@.contains(c as u8),
            decreases WIDTH - i,
        {
            let ghost before = r@;
            if self.height[i] < HEIGHT as u8 {
                r.push(i as u8);
                assert(r[r.len() - 1] == i as u8);
            }
            assert forall|c: int| 0 <= c < i + 1 && #[trigger] self@.can_play(c) implies r@.contains(c as u8) by {
                if c < i {
                    let k = choose|k: int| 0 <= k < before.len() && before[k] == c as u8;
                    assert(r@[k] == c as u8);
                } else {
                    assert(r@[r.len() - 1] == c as u8);
                }
            }
            i += 1;
        }
        r
    }

    /// Calls `func` once for each column that can take one more stone, in increasing order.
    /// Every such column has been handed to `func`: the call with it is among its outcomes.
    #[allow(non_snake_case)]
    pub fn OnValidActions<T>(&self, func: &mut T)
        where T: FnMut(u8),
        requires
            forall|a: u8| #[trigger] self@.can_play(a as int) ==> call_requires(*old(func), (a,)),
        ensures
            forall|a: u8| #[trigger] self@.can_play(a as int) ==> call_ensures(*old(func), (a,), ()),
    {
        let actions = self.valid_actions();
        let mut k: usize = 0;
        while k < actions.len()
            invariant
                k <= actions.len(),
                forall|a: u8| #[trigger] self@.can_play(a as int) ==> call_requires(*old(func), (a,)),
                forall|j: int| 0 <= j < actions.len() ==> self@.can_play(#[trigger] actions[j] as int),
                *func == *old(func),
                forall|j: int| 0 <= j < k ==> call_ensures(*old(func), (#[trigger] actions[j],), ()),
            decreases actions.len() - k,
        {
            func(actions[k]);
            k += 1;
        }
        assert forall|a: u8| #[trigger] self@.can_play(a as int) implies call_ensures(*old(func), (a,), ()) by {
            assert(actions@.contains(a as int as u8));
        }
    }

    /// The player to move (0 or 1) drops a stone into column `action`.
    pub fn step(&mut self, action: u8)
        requires
            action < WIDTH,
            old(self)@.height[action as int] + 7 * action < 64,
            old(self)@.player <= 1,
        ensures
            final(self)@ == old(self)@.stepped(action as int),
            has_four(final(self)@.op_bb) ==> final(self)@.outcome == Outcome::Win,
            !has_four(final(self)@.op_bb) && final(self)@.turn() == WIDTH * HEIGHT ==> final(self)@.outcome
                == Outcome::Draw,
            !has_four(final(self)@.op_bb) && final(self)@.turn() != WIDTH * HEIGHT ==> final(self)@.outcome
                == old(self)@.outcome,
            final(self)@.op_bb == old(self)@.my_bb ^ (1u64 << ((old(self)@.height[action as int] + 7 * action) as u64)),
            final(self)@.my_bb == old(self)@.op_bb,
    {
        let a = action as usize;
        let shift = self.height[a] as u64 + (HEIGHT as u64) * (a as u64);
        self.my_bb ^= 1u64 << shift;
        self.height[a] += 1;
        let tmp = self.my_bb;
        self.my_bb = self.op_bb;
        self.op_bb = tmp;
        self.player = 1 - self.player;
        self.lastMove = action;
        if won(self.op_bb) {
            self.outcome = Outcome::Win;
        } else if self.full() {
            self.outcome = Outcome::Draw;
        }
    }
}


/// The character shown for the cell at (`col`, `row`): `O` for a stone of the player to move,
/// `X` for one of the opponent, `.` for an empty cell.
pub open spec fn glyph(p: Position, col: int, row: int) -> u8 {
    if cell(p.my_bb, col, row) {
        79u8
    } else if cell(p.op_bb, col, row) {
        88u8
    } else {
        46u8
    }
}

/// One line of the board picture: each cell of row `row` followed by a space, then a newline.
pub open spec fn row_text(p: Position, row: int) -> Seq<u8> {
    Seq::new(2 * WIDTH as nat, |k: int| if k % 2 == 0 { glyph(p, k / 2, row) } else { 32u8 }).push(
        10u8,
    )
}

/// The top `n` lines of the board picture, top row first.
pub open spec fn rows_text(p: Position, n: nat) -> Seq<u8>
    decreases n,
{
    if n == 0 {
        Seq::empty()
    } else {
        rows_text(p, (n - 1) as nat) + row_text(p, HEIGHT - n)
    }
}

/// The column numbers under the board: `0 1 2 3 4 5 6 7 8` and a newline.
pub open spec fn footer_text() -> Seq<u8> {
    Seq::new((2 * WIDTH - 1) as nat, |k: int| if k % 2 == 0 { (48 + k / 2) as u8 } else { 32u8 }).push(
        10u8,
    )
}

/// The whole board picture: the seven rows from top to bottom, then the column numbers.
pub open spec fn board_text(p: Position) -> Seq<u8> {
    rows_text(p, HEIGHT as nat) + footer_text()
}

proof fn lemma_single_bit(x: u64, i: u64)
    requires
        i < 64,
    ensures
        (x & (1u64 << i) != 0) <==> ((x >> i) & 1 == 1),
{
    assert((x & (1u64 << i) != 0) <==> ((x >> i) & 1 == 1)) by (bit_vector)
        requires
            i < 64,
    ;
}

impl Connect4 {
    fn glyph_at(&self, col: usize, row: usize) -> (r: u8)
        requires
            col < WIDTH,
            row < HEIGHT,
        ensures
            r == glyph(self@, col as int, row as int),
    {
        let i: u64 = (row + HEIGHT * col) as u64;
        let index: u64 = 1u64 << i;
        proof {
            lemma_single_bit(self.my_bb, i);
            lemma_single_bit(self.op_bb, i);
        }
        if self.my_bb & index != 0 {
            79
        } else if self.op_bb & index != 0 {
            88
        } else {
            46
        }
    }

    fn push_row(&self, row: usize, out: &mut Vec<u8>)
        requires
            row < HEIGHT,
        ensures
            final(out)@ == old(out)@ + row_text(self@, row as int),
    {
        let ghost line = row_text(self@, row as int);
        let mut col: usize = 0;
        while col < WIDTH
            invariant
                col <= WIDTH,
                row < HEIGHT,
                line == row_text(self@, row as int),
                out@ == old(out)@ + line.take(2 * col as int),
            decreases WIDTH - col,
        {
            let g = self.glyph_at(col, row);
            out.push(g);
            out.push(32);
            assert(line[2 * col as int] == g);
            assert(line[2 * col + 1] == 32u8);
            assert(line.take(2 * (col + 1) as int) =~= line.take(2 * col as int).push(g).push(32u8));
            col += 1;
        }
        out.push(10);
        assert(line =~= line.take(2 * WIDTH as int).push(10u8));
    }

    /// The board as text, top row first: `O` for the stones of the player to move, `X` for the
    /// opponent's, `.` for empty cells, each followed by a space; then the column numbers.
    pub fn board_text(&self) -> (r: Vec<u8>)
        ensures
            r@ == board_text(self@),
    {
        let mut out: Vec<u8> = Vec::new();
        let mut n: usize = 0;
        while n < HEIGHT
            invariant
                n <= HEIGHT,
                out@ == rows_text(self@, n as nat),
            decreases HEIGHT - n,
        {
            self.push_row(HEIGHT - 1 - n, &mut out);
            n += 1;
        }
        let ghost before = out@;
        let mut c: u8 = 0;
        while c < WIDTH as u8
            invariant
                c <= WIDTH,
                out@ == before + footer_text().take(if c == 0 { 0 } else { 2 * c - 1 }),
            decreases WIDTH - c,
        {
            if c > 0 {
                out.push(32);
            }
            out.push(48 + c);
            assert(footer_text().take(2 * c + 1) =~= if c == 0 {
                seq![48u8]
            } else {
                footer_text().take(2 * c - 1).push(32u8).push((48 + c) as u8)
            });
            c += 1;
        }
        out.push(10);
        assert(footer_text() =~= footer_text().take(2 * WIDTH - 1).push(10u8));
        out
    }
}

/// Total number of stones in the first `n` columns.
pub open spec fn sum_heights(height: Seq<u8>, n: int) -> int
    decreases n,
{
    if n <= 0 {
        0
    } else {
        sum_heights(height, n - 1) + height[n - 1]
    }
}

proof fn lemma_bit_or_single(x: u64, j: u64, i: int)
    requires
        j < 64,
        0 <= i < 64,
    ensures
        bit(x | (1u64 << j), i) <==> (bit(x, i) || i == j),
{
    let k = i as u64;
    assert(((x | (1u64 << j)) >> k) & 1 == 1 <==> ((x >> k) & 1 == 1 || k == j)) by (bit_vector)
        requires
            j < 64,
            k < 64,
    ;
}

proof fn lemma_count_or_bit(x: u64, j: u64, n: nat)
    requires
        j < 64,
        n <= 64,
        !bit(x, j as int),
    ensures
        count_bits(x | (1u64 << j), n) == count_bits(x, n) + if j < n {
            1nat
        } else {
            0nat
        },
    decreases n,
{
    if n > 0 {
        lemma_count_or_bit(x, j, (n - 1) as nat);
        lemma_bit_or_single(x, j, n - 1);
    }
}

proof fn lemma_count_columns(p: Position, c: int, r: int)
    requires
        p.wf(),
        0 <= c < WIDTH,
        0 <= r <= HEIGHT,
    ensures
        count_bits(p.stones(), (7 * c + r) as nat) == sum_heights(p.height, c) + if r < p.height[c] {
            r
        } else {
            p.height[c] as int
        },
    decreases c, r,
{
    if r > 0 {
        lemma_count_columns(p, c, r - 1);
        let i = 7 * c + r - 1;
        assert(i / 7 == c && i % 7 == r - 1);
        assert(bit(p.stones(), i) <==> r - 1 < p.height[c]);
    } else if c > 0 {
        lemma_count_columns(p, c - 1, 7);
        assert(p.height[c - 1] <= HEIGHT);
    }
}

/// The number of stones on the board is the sum of the column heights.
pub proof fn lemma_turn_counts_stones(p: Position)
    requires
        p.wf(),
    ensures
        p.turn() == sum_heights(p.height, WIDTH as int),
{
    lemma_count_columns(p, 8, 7);
    assert(63int / 7 == 9);
    assert(!bit(p.stones(), 63));
    assert(p.height[8] <= HEIGHT);
}

proof fn lemma_sum_heights_bound(height: Seq<u8>, n: int)
    requires
        0 <= n <= height.len(),
        forall|c: int| 0 <= c < n ==> #[trigger] height[c] <= HEIGHT,
    ensures
        sum_heights(height, n) <= 7 * n,
        sum_heights(height, n) == 7 * n <==> forall|c: int| 0 <= c < n ==> #[trigger] height[c] == HEIGHT,
    decreases n,
{
    if n > 0 {
        lemma_sum_heights_bound(height, n - 1);
        if sum_heights(height, n) == 7 * n {
            assert forall|c: int| 0 <= c < n implies #[trigger] height[c] == HEIGHT by {
                if c < n - 1 {
                    assert(height[c] == HEIGHT);
                }
            }
        }
    }
}

/// The board counts as full (the draw test) exactly when every column holds seven stones.
pub proof fn lemma_full_means_every_column_full(p: Position)
    requires
        p.wf(),
    ensures
        p.turn() == WIDTH * HEIGHT <==> forall|c: int| 0 <= c < WIDTH ==> #[trigger] p.height[c] == HEIGHT,
{
    lemma_turn_counts_stones(p);
    lemma_sum_heights_bound(p.height, WIDTH as int);
}

/// A new game is a well-formed, empty position.
pub proof fn lemma_initial_wf()
    ensures
        Position::initial().wf(),
        Position::initial().turn() == 0,
{
    let p = Position::initial();
    assert forall|i: int| 0 <= i < 64 implies !#[trigger] bit(p.stones(), i) by {
        let k = i as u64;
        assert((0u64 | 0u64) >> k & 1 == 0) by (bit_vector);
    }
    assert(0u64 & 0u64 == 0) by (bit_vector);
    lemma_turn_counts_stones(p);
    assert(sum_heights(p.height, 9) == 0) by {
        reveal_with_fuel(sum_heights, 10);
    }
}

/// Dropping a stone into a column with room keeps the position well formed: the stone lands on
/// top of that column among the mover's stones, the mover's stones become the opponent's
/// bitboard (the other player moves next), and the stone count grows by one.
pub proof fn lemma_step_keeps_wf(p: Position, col: int)
    requires
        p.wf(),
        p.can_play(col),
    ensures
        p.stepped(col).wf(),
        p.stepped(col).my_bb == p.op_bb,
        p.stepped(col).op_bb == p.my_bb | p.landing_bit(col),
        forall|c: int, r: int| cell(p.stepped(col).op_bb, c, r) <==> (cell(p.my_bb, c, r) || (c == col && r == p.height[col])),
        p.stepped(col).turn() == p.turn() + 1,
        p.stepped(col).player == 1 - p.player,
{
    let q = p.stepped(col);
    let h = p.height[col];
    let j = (h + 7 * col) as u64;
    assert(j < 63);
    assert(j / 7 == col && j % 7 == h);
    assert(!bit(p.stones(), j as int));
    let my = p.my_bb;
    let op = p.op_bb;
    assert(p.landing_bit(col) == 1u64 << j);
    assert(my ^ (1u64 << j) == my | (1u64 << j) && op & (my | (1u64 << j)) == 0
        && op | (my | (1u64 << j)) == (my | op) | (1u64 << j)) by (bit_vector)
        requires
            j < 64,
            my & op == 0,
            ((my | op) >> j) & 1 != 1,
    ;
    assert(q.stones() == p.stones() | (1u64 << j));
    assert forall|i: int| 0 <= i < 64 implies (#[trigger] bit(q.stones(), i) <==> {
        let c = i / 7;
        let r = i % 7;
        c < WIDTH && r < q.height[c]
    }) by {
        lemma_bit_or_single(p.stones(), j, i);
    }
    assert forall|c: int| 0 <= c < WIDTH implies #[trigger] q.height[c] <= HEIGHT by {
        assert(p.height[c] <= HEIGHT);
    }
    assert forall|c: int, r: int| cell(q.op_bb, c, r) <==> (cell(my, c, r) || (c == col && r == h)) by {
        if 0 <= c < WIDTH && 0 <= r < HEIGHT {
            lemma_bit_or_single(my, j, 7 * c + r);
        }
    }
    lemma_count_or_bit(p.stones(), j, 64);
}


/// The first player has as many stones as the second when it is to move, and one more otherwise.
pub open spec fn balanced(p: Position) -> bool {
    popcount(p.op_bb) == popcount(p.my_bb) + p.player
}

/// A legal move keeps the stone counts of the two players balanced.
pub proof fn lemma_step_keeps_balance(p: Position, col: int)
    requires
        p.wf(),
        p.can_play(col),
        balanced(p),
    ensures
        balanced(p.stepped(col)),
{
    lemma_step_keeps_wf(p, col);
    let h = p.height[col];
    let j = (h + 7 * col) as u64;
    assert(j / 7 == col && j % 7 == h);
    assert(!bit(p.stones(), j as int));
    let my = p.my_bb;
    let op = p.op_bb;
    assert(((my | op) >> j) & 1 != 1 ==> (my >> j) & 1 != 1) by (bit_vector);
    lemma_count_or_bit(my, j, 64);
}

/// The position after playing the columns of `moves` in order from the empty board.
pub open spec fn play_seq(moves: Seq<int>) -> Position
    decreases moves.len(),
{
    if moves.len() == 0 {
        Position::initial()
    } else {
        play_seq(moves.drop_last()).stepped(moves.last())
    }
}

/// Each column of `moves` has room when it is played.
pub open spec fn legal_seq(moves: Seq<int>) -> bool
    decreases moves.len(),
{
    moves.len() == 0 || (legal_seq(moves.drop_last()) && play_seq(moves.drop_last()).can_play(moves.last()))
}

/// Every position reached by legal moves from the empty board is well formed (disjoint bitboards,
/// bit 63 clear, each column filled from the bottom), holds one stone per move, and its two
/// players' stone counts differ by at most one: equal when the first player is to move.
pub proof fn lemma_play_invariants(moves: Seq<int>)
    requires
        legal_seq(moves),
    ensures
        play_seq(moves).wf(),
        play_seq(moves).turn() == moves.len(),
        balanced(play_seq(moves)),
        !bit(play_seq(moves).stones(), 63),
        play_seq(moves).player == moves.len() % 2,
    decreases moves.len(),
{
    if moves.len() == 0 {
        lemma_initial_wf();
        assert(0u64 | 0u64 == 0u64) by (bit_vector);
        assert(popcount(0u64) == Position::initial().turn());
    } else {
        let prev = moves.drop_last();
        lemma_play_invariants(prev);
        lemma_step_keeps_wf(play_seq(prev), moves.last());
        lemma_step_keeps_balance(play_seq(prev), moves.last());
    }
    assert(63int / 7 == 9);
}


/// After 63 legal moves the board is full, and the game ended: the last move either won or
/// drew.
pub proof fn lemma_full_game_is_decided(moves: Seq<int>)
    requires
        legal_seq(moves),
        moves.len() == WIDTH * HEIGHT,
    ensures
        forall|c: int| 0 <= c < WIDTH ==> #[trigger] play_seq(moves).height[c] == HEIGHT,
        play_seq(moves).outcome == Outcome::Win || play_seq(moves).outcome == Outcome::Draw,
{
    lemma_play_invariants(moves);
    lemma_full_means_every_column_full(play_seq(moves));
    let prev = moves.drop_last();
    lemma_play_invariants(prev);
}


/// A move that gives the mover four in a row, in any direction, wins; one that does not but
/// fills the board draws; any other move leaves the outcome as it was.
pub proof fn lemma_move_outcome(p: Position, col: int)
    requires
        p.wf(),
        p.can_play(col),
    ensures
        ({
            let mover = p.stepped(col).op_bb;
            &&& mover == p.my_bb | p.landing_bit(col)
            &&& (exists|c: int, r: int| #[trigger] line_from(mover, c, r)) ==> p.stepped(col).outcome == Outcome::Win
            &&& (!has_four(mover) && p.turn() + 1 == WIDTH * HEIGHT) ==> p.stepped(col).outcome == Outcome::Draw
            &&& (!has_four(mover) && p.turn() + 1 != WIDTH * HEIGHT) ==> p.stepped(col).outcome == p.outcome
        }),
{
    lemma_step_keeps_wf(p, col);
}

}
