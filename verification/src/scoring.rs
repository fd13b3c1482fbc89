use vstd::prelude::*;
use crate::fish::FishType;
use crate::scan::Scan;

verus! {

/// Number of creature colors.
pub const COLORS_PER_FISH: i32 = 4;
/// Number of distinct scans: one per (color, type) pair.
pub const SCAN_KINDS: usize = 12;
/// Turn after which the game is over.
pub const MAX_TURNS: i32 = 20;

/// Index of a creature type: 0, 1 and 2 in declaration order.
pub open spec fn type_idx(t: FishType) -> int {
    match t {
        FishType::JELLY => 0,
        FishType::FISH => 1,
        FishType::CRAB => 2,
    }
}

/// The creature type with index `i` (0, 1 or 2).
pub open spec fn type_at(i: int) -> FishType {
    if i == 0 {
        FishType::JELLY
    } else if i == 1 {
        FishType::FISH
    } else {
        FishType::CRAB
    }
}

/// A scan of a creature whose color is one of the game's colors.
pub open spec fn valid_scan(s: Scan) -> bool {
    0 <= s.color < COLORS_PER_FISH
}

/// Index of a scan among the twelve kinds: `color * 3 + type`.
pub open spec fn scan_id(s: Scan) -> int {
    s.color * 3 + type_idx(s.fish_type)
}

/// The scan with index `id`.
pub open spec fn scan_at(id: int) -> Scan {
    Scan { fish_type: type_at(id % 3), color: (id / 3) as i32 }
}

/// Points of the scan with index `id`: 1, 2 or 3 by creature type.
pub open spec fn id_value(id: int) -> int {
    id % 3 + 1
}

/// `f(0) + ... + f(n - 1)`.
pub open spec fn sum_to(n: int, f: spec_fn(int) -> int) -> int
    decreases n,
{
    if n <= 0 {
        0
    } else {
        sum_to(n - 1, f) + f(n - 1)
    }
}

pub fn type_index(t: FishType) -> (r: i32)
    ensures
        r == type_idx(t),
{
    match t {
        FishType::JELLY => 0,
        FishType::FISH => 1,
        FishType::CRAB => 2,
    }
}

fn type_of_index(i: i32) -> (r: FishType)
    requires
        0 <= i < 3,
    ensures
        r == type_at(i as int),
        type_idx(r) == i,
{
    if i == 0 {
        FishType::JELLY
    } else if i == 1 {
        FishType::FISH
    } else {
        FishType::CRAB
    }
}

/// What one player has scanned.
#[derive(Debug, Clone)]
pub struct PlayerScans {
    /// Scans saved by a report, by scan index.
    pub saved: [bool; SCAN_KINDS],
    /// Scans each drone carries and has not saved yet, by scan index.
    pub carried: Vec<[bool; SCAN_KINDS]>,
    pub points: i32,
    pub score: i32,
    /// The number of scans each report of a drone saved.
    pub count_fish_saved: Vec<i32>,
}

/// Scan records and bonus awards of a two-player game.
///
/// A `Some(p)` entry of a `first_to_scan*` table records that player `p` earned the bonus for
/// being first; the `_temp` tables hold this turn's candidates until they are persisted.
#[derive(Debug, Clone)]
pub struct ScoreBoard {
    pub players: [PlayerScans; 2],
    pub first_to_scan: [Option<i32>; SCAN_KINDS],
    pub first_to_scan_temp: [Option<i32>; SCAN_KINDS],
    pub first_to_scan_all_fish_of_color: [Option<i32>; 4],
    pub first_to_scan_all_fish_of_color_temp: [Option<i32>; 4],
    pub first_to_scan_all_fish_of_type: [Option<i32>; 3],
    pub first_to_scan_all_fish_of_type_temp: [Option<i32>; 3],
    pub game_turn: i32,
    pub turn_saved_fish: [[i32; SCAN_KINDS]; 2],
    pub fish_scanned: i32,
}

/// The mathematical content of a `ScoreBoard`; scans are named by their index.
pub struct ScoreModel {
    /// `saved[p][id]`: player `p` saved scan `id`.
    pub saved: Seq<Seq<bool>>,
    /// `carried[p][d][id]`: drone `d` of player `p` carries scan `id`.
    pub carried: Seq<Seq<Seq<bool>>>,
    pub points: Seq<i32>,
    pub score: Seq<i32>,
    pub count_fish_saved: Seq<Seq<i32>>,
    pub first: Seq<Option<i32>>,
    pub first_temp: Seq<Option<i32>>,
    pub first_color: Seq<Option<i32>>,
    pub first_color_temp: Seq<Option<i32>>,
    pub first_type: Seq<Option<i32>>,
    pub first_type_temp: Seq<Option<i32>>,
    pub game_turn: i32,
    pub turn_saved_fish: Seq<Seq<i32>>,
    pub fish_scanned: i32,
}

impl View for ScoreBoard {
    type V = ScoreModel;

    open spec fn view(&self) -> ScoreModel {
        ScoreModel {
            saved: Seq::new(2, |p: int| self.players[p].saved@),
            carried: Seq::new(2, |p: int| self.players[p].carried@.map_values(|a: [bool; SCAN_KINDS]| a@)),
            points: Seq::new(2, |p: int| self.players[p].points),
            score: Seq::new(2, |p: int| self.players[p].score),
            count_fish_saved: Seq::new(2, |p: int| self.players[p].count_fish_saved@),
            first: self.first_to_scan@,
            first_temp: self.first_to_scan_temp@,
            first_color: self.first_to_scan_all_fish_of_color@,
            first_color_temp: self.first_to_scan_all_fish_of_color_temp@,
            first_type: self.first_to_scan_all_fish_of_type@,
            first_type_temp: self.first_to_scan_all_fish_of_type_temp@,
            game_turn: self.game_turn,
            turn_saved_fish: Seq::new(2, |p: int| self.turn_saved_fish[p]@),
            fish_scanned: self.fish_scanned,
        }
    }
}

impl ScoreModel {
    /// Player `p` has saved the scan with index `id`.
    pub open spec fn saved(&self, p: int, id: int) -> bool {
        self.saved[p][id]
    }

    /// Player `p` has saved the scans of all four colors of type `t`.
    pub open spec fn all_of_type(&self, p: int, t: int) -> bool {
        forall|c: int| 0 <= c < 4 ==> #[trigger] self.saved(p, 3 * c + t)
    }

    /// Player `p` has saved the scans of all three types of color `c`.
    pub open spec fn all_of_color(&self, p: int, c: int) -> bool {
        forall|t: int| 0 <= t < 3 ==> #[trigger] self.saved(p, 3 * c + t)
    }

    /// A drone of player `p` carries the scan with index `id`.
    pub open spec fn carried(&self, p: int, id: int) -> bool {
        exists|d: int| 0 <= d < self.carried[p].len() && #[trigger] self.carried[p][d][id]
    }

    /// Points of player `p` for the scan with index `id`: its type's value if saved, twice that
    /// when `p` was first to save it.
    pub open spec fn scan_term(&self, p: int, id: int) -> int {
        if self.saved(p, id) {
            if self.first[id] == Some(p as i32) {
                2 * id_value(id)
            } else {
                id_value(id)
            }
        } else {
            0
        }
    }

    /// Points of player `p` for type `t`: 4 for saving all its colors, 4 more when first.
    pub open spec fn type_term(&self, p: int, t: int) -> int {
        (if self.all_of_type(p, t) {
            4int
        } else {
            0int
        }) + (if self.first_type[t] == Some(p as i32) {
            4int
        } else {
            0int
        })
    }

    /// Points of player `p` for color `c`: 3 for saving all its types, 3 more when first.
    pub open spec fn color_term(&self, p: int, c: int) -> int {
        (if self.all_of_color(p, c) {
            3int
        } else {
            0int
        }) + (if self.first_color[c] == Some(p as i32) {
            3int
        } else {
            0int
        })
    }

    pub open spec fn scan_sum(&self, p: int, n: int) -> int {
        sum_to(n, |id: int| self.scan_term(p, id))
    }

    pub open spec fn type_sum(&self, p: int, n: int) -> int {
        sum_to(n, |t: int| self.type_term(p, t))
    }

    pub open spec fn color_sum(&self, p: int, n: int) -> int {
        sum_to(n, |c: int| self.color_term(p, c))
    }

    /// The score of player `p`.
    pub open spec fn player_score(&self, p: int) -> int {
        self.scan_sum(p, SCAN_KINDS as int) + self.type_sum(p, 3) + self.color_sum(p, 4)
    }
}

/// No creature of the scan's type and color is left in `remaining`.
pub open spec fn escaped(remaining: Seq<Scan>, id: int) -> bool {
    !remaining.contains(scan_at(id))
}

impl ScoreModel {
    /// The scan with index `id` can still be saved by player `p`: it is not saved yet, and a
    /// drone of `p` carries it or its creature is still in the game.
    pub open spec fn scan_still_possible(&self, p: int, id: int, remaining: Seq<Scan>) -> bool {
        !self.saved(p, id) && (self.carried(p, id) || !escaped(remaining, id))
    }

    /// Scan `s` is lost for player `p`: no creature for it is left, no drone of `p` carries it,
    /// and `p` has not saved it.
    pub open spec fn scan_lost(&self, p: int, s: Scan, remaining: Seq<Scan>) -> bool {
        !remaining.contains(s) && !self.carries(p, s) && !self.has_saved(p, s)
    }

    /// Player `p` can still complete type `t`: not done yet, and none of its scans is lost.
    pub open spec fn type_combo_possible(&self, p: int, t: int, remaining: Seq<Scan>) -> bool {
        !self.all_of_type(p, t) && forall|c: int| 0 <= c < 4 ==> !#[trigger] self.scan_lost(p, Scan { fish_type: type_at(t), color: c as i32 }, remaining)
    }

    /// Player `p` can still complete color `c`: not done yet, and none of its scans is lost.
    pub open spec fn color_combo_possible(&self, p: int, c: i32, remaining: Seq<Scan>) -> bool {
        !(0 <= c < COLORS_PER_FISH && self.all_of_color(p, c as int))
            && forall|t: int| 0 <= t < 3 ==> !#[trigger] self.scan_lost(p, Scan { fish_type: type_at(t), color: c }, remaining)
    }

    /// What the scan with index `id` can still add to the score of player `p`: its value if `p`
    /// can still save it, twice that while nobody was first to save it.
    pub open spec fn extra_scan_term(&self, p: int, id: int, remaining: Seq<Scan>) -> int {
        if self.scan_still_possible(p, id, remaining) {
            if self.first[id] is None {
                2 * id_value(id)
            } else {
                id_value(id)
            }
        } else {
            0
        }
    }

    /// What type `t` can still add: 4 if `p` can still complete it, twice that while nobody was first.
    pub open spec fn extra_type_term(&self, p: int, t: int, remaining: Seq<Scan>) -> int {
        if self.type_combo_possible(p, t, remaining) {
            if self.first_type[t] is None {
                8int
            } else {
                4int
            }
        } else {
            0
        }
    }

    /// What color `c` can still add: 3 if `p` can still complete it, twice that while nobody was first.
    pub open spec fn extra_color_term(&self, p: int, c: int, remaining: Seq<Scan>) -> int {
        if self.color_combo_possible(p, c as i32, remaining) {
            if self.first_color[c] is None {
                6int
            } else {
                3int
            }
        } else {
            0
        }
    }

    pub open spec fn extra_scan_sum(&self, p: int, n: int, remaining: Seq<Scan>) -> int {
        sum_to(n, |id: int| self.extra_scan_term(p, id, remaining))
    }

    pub open spec fn extra_type_sum(&self, p: int, n: int, remaining: Seq<Scan>) -> int {
        sum_to(n, |t: int| self.extra_type_term(p, t, remaining))
    }

    pub open spec fn extra_color_sum(&self, p: int, n: int, remaining: Seq<Scan>) -> int {
        sum_to(n, |c: int| self.extra_color_term(p, c, remaining))
    }

    /// The highest score player `p` could still reach: its score plus everything that the scans,
    /// types and colors still in reach can add.
    pub open spec fn max_score(&self, p: int, remaining: Seq<Scan>) -> int {
        self.player_score(p) + self.extra_scan_sum(p, SCAN_KINDS as int, remaining) + self.extra_type_sum(
            p,
            3,
            remaining,
        ) + self.extra_color_sum(p, 4, remaining)
    }

}

impl ScoreModel {
    /// Player `p` has saved scan `s`.
    pub open spec fn has_saved(&self, p: int, s: Scan) -> bool {
        valid_scan(s) && self.saved(p, scan_id(s))
    }

    /// A drone of player `p` carries scan `s`.
    pub open spec fn carries(&self, p: int, s: Scan) -> bool {
        valid_scan(s) && self.carried(p, scan_id(s))
    }

    /// Bonus awards name player 0 or 1, and only a player who saved the whole type or color.
    pub open spec fn wf(&self) -> bool {
        &&& forall|t: int| 0 <= t < 3 ==> (#[trigger] self.first_type[t] matches Some(q)
            ==> 0 <= q < 2 && self.all_of_type(q as int, t))
        &&& forall|t: int| 0 <= t < 3 ==> (#[trigger] self.first_type_temp[t] matches Some(q)
            ==> 0 <= q < 2 && self.all_of_type(q as int, t))
        &&& forall|c: int| 0 <= c < 4 ==> (#[trigger] self.first_color[c] matches Some(q)
            ==> 0 <= q < 2 && self.all_of_color(q as int, c))
        &&& forall|c: int| 0 <= c < 4 ==> (#[trigger] self.first_color_temp[c] matches Some(q)
            ==> 0 <= q < 2 && self.all_of_color(q as int, c))
    }
}

proof fn lemma_index_scan(id: int)
    requires
        0 <= id < SCAN_KINDS,
    ensures
        valid_scan(scan_at(id)),
        scan_id(scan_at(id)) == id,
{
}

/// The index of a valid scan.
fn scan_index(s: &Scan) -> (r: usize)
    requires
        valid_scan(*s),
    ensures
        r == scan_id(*s),
        r < SCAN_KINDS,
{
    (s.color * 3 + type_index(s.fish_type)) as usize
}

fn is_player(o: Option<i32>, p: usize) -> (r: bool)
    requires
        p < 2,
    ensures
        r == (o == Some(p as i32)),
{
    match o {
        Some(q) => q == p as i32,
        None => false,
    }
}

impl ScoreBoard {
    pub fn player_scanned_scan(&self, player_index: usize, scan: &Scan) -> (r: bool)
        requires
            player_index < 2,
        ensures
            r == self@.has_saved(player_index as int, *scan),
    {
        if 0 <= scan.color && scan.color < COLORS_PER_FISH {
            self.players[player_index].saved[scan_index(scan)]
        } else {
            false
        }
    }

    pub fn is_fish_scanned_by_player_drone(&self, scan: &Scan, player_index: usize) -> (r: bool)
        requires
            player_index < 2,
        ensures
            r == self@.carries(player_index as int, *scan),
    {
        if !(0 <= scan.color && scan.color < COLORS_PER_FISH) {
            return false;
        }
        let id = scan_index(scan);
        let drones = &self.players[player_index].carried;
        let mut d: usize = 0;
        while d < drones.len()
            invariant
                d <= drones.len(),
                drones == self.players[player_index as int].carried,
                id == scan_id(*scan),
                id < SCAN_KINDS,
                player_index < 2,
                forall|e: int| 0 <= e < d ==> !#[trigger] self@.carried[player_index as int][e][id as int],
            decreases drones.len() - d,
        {
            assert(self@.carried[player_index as int][d as int] == drones[d as int]@);
            if drones[d][id] {
                assert(self@.carried[player_index as int][d as int][id as int]);
                return true;
            }
            d += 1;
        }
        false
    }

    /// No creature of the scan's type and color is left among `remaining`.
    pub fn has_fish_escaped(&self, scan: &Scan, remaining: &[Scan]) -> (r: bool)
        ensures
            r == !remaining@.contains(*scan),
    {
        let mut k: usize = 0;
        while k < remaining.len()
            invariant
                k <= remaining.len(),
                forall|j: int| 0 <= j < k ==> #[trigger] remaining@[j] != *scan,
            decreases remaining.len() - k,
        {
            let f = &remaining[k];
            if f.color == scan.color && f.fish_type == scan.fish_type {
                assert(remaining@[k as int] == *scan);
                return false;
            }
            k += 1;
        }
        true
    }

    pub fn player_scanned_all_fish_of_type(&self, player_index: usize, fish_type: FishType) -> (r: bool)
        requires
            player_index < 2,
        ensures
            r == self@.all_of_type(player_index as int, type_idx(fish_type)),
    {
        let mut color: i32 = 0;
        while color < COLORS_PER_FISH
            invariant
                0 <= color <= COLORS_PER_FISH,
                player_index < 2,
                forall|c: int| 0 <= c < color ==> #[trigger] self@.saved(player_index as int, 3 * c + type_idx(fish_type)),
            decreases COLORS_PER_FISH - color,
        {
            let found = self.player_scanned_scan(player_index, &Scan::new_from_type_color(fish_type, color));
            assert(found == self@.saved(player_index as int, 3 * color + type_idx(fish_type)));
            if !found {
                return false;
            }
            color += 1;
        }
        true
    }

    pub fn player_scanned_all_fish_of_color(&self, player_index: usize, color: i32) -> (r: bool)
        requires
            player_index < 2,
        ensures
            r == (0 <= color < COLORS_PER_FISH && self@.all_of_color(player_index as int, color as int)),
    {
        let types = FishType::variants();
        assert forall|t: int| 0 <= t < 3 implies #[trigger] scan_id(Scan { fish_type: type_at(t), color }) == 3 * color + t by {}
        let mut k: usize = 0;
        while k < types.len()
            invariant
                k <= types.len(),
                types@ == seq![FishType::JELLY, FishType::FISH, FishType::CRAB],
                player_index < 2,
                forall|t: int| 0 <= t < k ==> #[trigger] self@.has_saved(player_index as int, Scan { fish_type: type_at(t), color }),
            decreases types.len() - k,
        {
            let found = self.player_scanned_scan(player_index, &Scan::new_from_type_color(types[k], color));
            assert(types[k as int] == type_at(k as int));
            if !found {
                assert(!(0 <= color < COLORS_PER_FISH) || !self@.saved(player_index as int, 3 * color + k));
                return false;
            }
            k += 1;
        }
        assert(self@.has_saved(player_index as int, Scan { fish_type: type_at(0), color }));
        assert forall|t: int| 0 <= t < 3 implies #[trigger] self@.saved(player_index as int, 3 * color + t) by {
            assert(self@.has_saved(player_index as int, Scan { fish_type: type_at(t), color }));
        }
        true
    }
}

impl ScoreBoard {
    pub fn is_type_combo_still_possible(&self, player_index: usize, fish_type: &FishType, remaining: &[Scan]) -> (r: bool)
        requires
            player_index < 2,
        ensures
            r == self@.type_combo_possible(player_index as int, type_idx(*fish_type), remaining@),
    {
        let ghost t = type_idx(*fish_type);
        assert(type_at(t) == *fish_type);
        if self.player_scanned_all_fish_of_type(player_index, *fish_type) {
            return false;
        }
        let mut color: i32 = 0;
        while color < COLORS_PER_FISH
            invariant
                0 <= color <= COLORS_PER_FISH,
                player_index < 2,
                type_at(t) == *fish_type,
                forall|c: int| 0 <= c < color ==> !#[trigger] self@.scan_lost(player_index as int, Scan { fish_type: type_at(t), color: c as i32 }, remaining@),
            decreases COLORS_PER_FISH - color,
        {
            let scan = Scan::new_from_type_color(*fish_type, color);
            assert(scan == Scan { fish_type: type_at(t), color: color as int as i32 });
            if self.has_fish_escaped(&scan, remaining) && !self.is_fish_scanned_by_player_drone(&scan, player_index)
                && !self.player_scanned_scan(player_index, &scan) {
                assert(self@.scan_lost(player_index as int, Scan { fish_type: type_at(t), color: color as int as i32 }, remaining@));
                return false;
            }
            color += 1;
        }
        true
    }

    pub fn is_color_combo_still_possible(&self, player_index: usize, color: i32, remaining: &[Scan]) -> (r: bool)
        requires
            player_index < 2,
        ensures
            r == self@.color_combo_possible(player_index as int, color, remaining@),
    {
        if self.player_scanned_all_fish_of_color(player_index, color) {
            return false;
        }
        let types = FishType::variants();
        let mut k: usize = 0;
        while k < types.len()
            invariant
                k <= types.len(),
                types@ == seq![FishType::JELLY, FishType::FISH, FishType::CRAB],
                player_index < 2,
                forall|t: int| 0 <= t < k ==> !#[trigger] self@.scan_lost(player_index as int, Scan { fish_type: type_at(t), color }, remaining@),
            decreases types.len() - k,
        {
            let scan = Scan::new_from_type_color(types[k], color);
            assert(types[k as int] == type_at(k as int));
            if self.has_fish_escaped(&scan, remaining) && !self.is_fish_scanned_by_player_drone(&scan, player_index)
                && !self.player_scanned_scan(player_index, &scan) {
                assert(self@.scan_lost(player_index as int, Scan { fish_type: type_at(k as int), color }, remaining@));
                return false;
            }
            k += 1;
        }
        true
    }
}

impl ScoreBoard {
    pub fn compute_player_score(&self, player_index: usize) -> (r: i32)
        requires
            player_index < 2,
        ensures
            r == self@.player_score(player_index as int),
    {
        let ghost p = player_index as int;
        let mut total: i32 = 0;
        let mut id: usize = 0;
        while id < SCAN_KINDS
            invariant
                id <= SCAN_KINDS,
                player_index < 2,
                p == player_index as int,
                total == self@.scan_sum(p, id as int),
                0 <= total <= 6 * id,
            decreases SCAN_KINDS - id,
        {
            assert(self@.scan_sum(p, id + 1) == self@.scan_sum(p, id as int) + self@.scan_term(p, id as int));
            let ghost before = total as int;
            if self.players[player_index].saved[id] {
                let value = (id % 3 + 1) as i32;
                assert(value == id_value(id as int));
                total += value;
                if is_player(self.first_to_scan[id], player_index) {
                    total += value;
                }
            }
            assert(total == before + self@.scan_term(p, id as int));
            id += 1;
        }
        let types = FishType::variants();
        let mut k: usize = 0;
        let ghost base = total as int;
        while k < types.len()
            invariant
                k <= types.len(),
                types@ == seq![FishType::JELLY, FishType::FISH, FishType::CRAB],
                player_index < 2,
                p == player_index as int,
                base == self@.scan_sum(p, SCAN_KINDS as int),
                0 <= base <= 72,
                total == base + self@.type_sum(p, k as int),
                base <= total <= base + 8 * k,
            decreases types.len() - k,
        {
            assert(type_idx(types[k as int]) == k);
            assert(self@.type_sum(p, k + 1) == self@.type_sum(p, k as int) + self@.type_term(p, k as int));
            if self.player_scanned_all_fish_of_type(player_index, types[k]) {
                total += COLORS_PER_FISH;
            }
            if is_player(self.first_to_scan_all_fish_of_type[k], player_index) {
                total += COLORS_PER_FISH;
            }
            k += 1;
        }
        let ghost base2 = total as int;
        let mut color: i32 = 0;
        while color < COLORS_PER_FISH
            invariant
                0 <= color <= COLORS_PER_FISH,
                player_index < 2,
                p == player_index as int,
                base2 == self@.scan_sum(p, SCAN_KINDS as int) + self@.type_sum(p, 3),
                0 <= base2 <= 96,
                total == base2 + self@.color_sum(p, color as int),
                base2 <= total <= base2 + 6 * color,
            decreases COLORS_PER_FISH - color,
        {
            assert(self@.color_sum(p, color + 1) == self@.color_sum(p, color as int) + self@.color_term(p, color as int));
            if self.player_scanned_all_fish_of_color(player_index, color) {
                total += 3;
            }
            if is_player(self.first_to_scan_all_fish_of_color[color as usize], player_index) {
                total += 3;
            }
            color += 1;
        }
        total
    }
}

/// Twice the total value of the scans with index below `n`.
spec fn double_values(n: int) -> int
    decreases n,
{
    if n <= 0 {
        0
    } else {
        double_values(n - 1) + 2 * id_value(n - 1)
    }
}

proof fn lemma_scan_parts(sb: ScoreModel, p: int, remaining: Seq<Scan>, n: int)
    requires
        0 <= n <= SCAN_KINDS,
    ensures
        0 <= sb.scan_sum(p, n),
        0 <= sb.extra_scan_sum(p, n, remaining),
        sb.scan_sum(p, n) + sb.extra_scan_sum(p, n, remaining) <= double_values(n),
    decreases n,
{
    if n > 0 {
        lemma_scan_parts(sb, p, remaining, n - 1);
        assert(sb.scan_sum(p, n) == sb.scan_sum(p, n - 1) + sb.scan_term(p, n - 1));
        assert(sb.extra_scan_sum(p, n, remaining) == sb.extra_scan_sum(p, n - 1, remaining) + sb.extra_scan_term(p, n - 1, remaining));
    }
}

proof fn lemma_type_parts(sb: ScoreModel, p: int, remaining: Seq<Scan>, n: int)
    requires
        0 <= n <= 3,
    ensures
        0 <= sb.type_sum(p, n),
        0 <= sb.extra_type_sum(p, n, remaining),
        sb.type_sum(p, n) + sb.extra_type_sum(p, n, remaining) <= 8 * n,
    decreases n,
{
    if n > 0 {
        lemma_type_parts(sb, p, remaining, n - 1);
        let t = n - 1;
        assert(sb.type_sum(p, n) == sb.type_sum(p, t) + sb.type_term(p, t));
        assert(sb.extra_type_sum(p, n, remaining) == sb.extra_type_sum(p, t, remaining) + sb.extra_type_term(p, t, remaining));
    }
}

proof fn lemma_color_parts(sb: ScoreModel, p: int, remaining: Seq<Scan>, n: int)
    requires
        0 <= n <= 4,
    ensures
        0 <= sb.color_sum(p, n),
        0 <= sb.extra_color_sum(p, n, remaining),
        sb.color_sum(p, n) + sb.extra_color_sum(p, n, remaining) <= 6 * n,
    decreases n,
{
    if n > 0 {
        lemma_color_parts(sb, p, remaining, n - 1);
        let c = n - 1;
        assert(sb.color_sum(p, n) == sb.color_sum(p, c) + sb.color_term(p, c));
        assert(sb.extra_color_sum(p, n, remaining) == sb.extra_color_sum(p, c, remaining) + sb.extra_color_term(p, c, remaining));
    }
}

/// On any board, a player's score never exceeds the highest score it can still reach, and that
/// never exceeds 96: 48 for the twelve scans, 24 for the three types and 24 for the four colors.
pub proof fn lemma_max_score_bound(sb: ScoreModel, p: int, remaining: Seq<Scan>)
    requires
        0 <= p < 2,
    ensures
        0 <= sb.player_score(p) <= sb.max_score(p, remaining) <= 96,
{
    lemma_scan_parts(sb, p, remaining, SCAN_KINDS as int);
    lemma_type_parts(sb, p, remaining, 3);
    lemma_color_parts(sb, p, remaining, 4);
    assert(double_values(12) == 48) by {
        reveal_with_fuel(double_values, 13);
    }
}

impl ScoreBoard {
    /// The highest score player `player_index` can still reach; `remaining` lists the type and
    /// color of every creature still in the game.
    pub fn compute_max_player_score(&self, player_index: usize, remaining: &[Scan]) -> (r: i32)
        requires
            player_index < 2,
        ensures
            r == self@.max_score(player_index as int, remaining@),
            r <= 96,
    {
        let ghost p = player_index as int;
        let ghost rem = remaining@;
        proof {
            lemma_max_score_bound(self@, p, rem);
            lemma_scan_parts(self@, p, rem, SCAN_KINDS as int);
            lemma_type_parts(self@, p, rem, 3);
            lemma_color_parts(self@, p, rem, 4);
        }
        let mut total = self.compute_player_score(player_index);
        let ghost base = total as int;
        let mut id: usize = 0;
        while id < SCAN_KINDS
            invariant
                id <= SCAN_KINDS,
                player_index < 2,
                p == player_index as int,
                rem == remaining@,
                0 <= base <= 96,
                base == self@.player_score(p),
                total == base + self@.extra_scan_sum(p, id as int, rem),
                base <= total <= base + 6 * id,
            decreases SCAN_KINDS - id,
        {
            assert(self@.extra_scan_sum(p, id + 1, rem) == self@.extra_scan_sum(p, id as int, rem) + self@.extra_scan_term(p, id as int, rem));
            proof {
                lemma_index_scan(id as int);
            }
            let color = (id / 3) as i32;
            let fish_type = type_of_index((id % 3) as i32);
            let scan = Scan::new_from_type_color(fish_type, color);
            assert(scan == scan_at(id as int));
            if !self.player_scanned_scan(player_index, &scan) {
                if self.is_fish_scanned_by_player_drone(&scan, player_index) || !self.has_fish_escaped(&scan, remaining) {
                    let value = type_index(fish_type) + 1;
                    total += value;
                    if self.first_to_scan[id].is_none() {
                        total += value;
                    }
                }
            }
            id += 1;
        }
        let ghost base2 = total as int;
        let types = FishType::variants();
        let mut k: usize = 0;
        while k < types.len()
            invariant
                k <= types.len(),
                types@ == seq![FishType::JELLY, FishType::FISH, FishType::CRAB],
                player_index < 2,
                p == player_index as int,
                rem == remaining@,
                0 <= base2 <= 168,
                base2 == self@.player_score(p) + self@.extra_scan_sum(p, SCAN_KINDS as int, rem),
                total == base2 + self@.extra_type_sum(p, k as int, rem),
                base2 <= total <= base2 + 8 * k,
            decreases types.len() - k,
        {
            assert(type_idx(types[k as int]) == k);
            assert(self@.extra_type_sum(p, k + 1, rem) == self@.extra_type_sum(p, k as int, rem) + self@.extra_type_term(p, k as int, rem));
            if self.is_type_combo_still_possible(player_index, &types[k], remaining) {
                total += COLORS_PER_FISH;
                if self.first_to_scan_all_fish_of_type[k].is_none() {
                    total += COLORS_PER_FISH;
                }
            }
            k += 1;
        }
        let ghost base3 = total as int;
        let mut color: i32 = 0;
        while color < COLORS_PER_FISH
            invariant
                0 <= color <= COLORS_PER_FISH,
                player_index < 2,
                p == player_index as int,
                rem == remaining@,
                0 <= base3 <= 192,
                base3 == self@.player_score(p) + self@.extra_scan_sum(p, SCAN_KINDS as int, rem) + self@.extra_type_sum(p, 3, rem),
                total == base3 + self@.extra_color_sum(p, color as int, rem),
                base3 <= total <= base3 + 6 * color,
            decreases COLORS_PER_FISH - color,
        {
            assert(self@.extra_color_sum(p, color + 1, rem) == self@.extra_color_sum(p, color as int, rem) + self@.extra_color_term(p, color as int, rem));
            if self.is_color_combo_still_possible(player_index, color, remaining) {
                total += 3;
                if self.first_to_scan_all_fish_of_color[color as usize].is_none() {
                    total += 3;
                }
            }
            color += 1;
        }
        total
    }
}

/// Number of `true` entries among the first `n` of `s`.
pub open spec fn count_true(s: Seq<bool>, n: int) -> int
    decreases n,
{
    if n <= 0 {
        0
    } else {
        count_true(s, n - 1) + if s[n - 1] {
            1int
        } else {
            0int
        }
    }
}

/// The empty scan set.
pub open spec fn no_scans() -> Seq<bool> {
    Seq::new(SCAN_KINDS as nat, |id: int| false)
}

proof fn lemma_count_bounds(s: Seq<bool>, n: int)
    requires
        0 <= n,
    ensures
        0 <= count_true(s, n) <= n,
    decreases n,
{
    if n > 0 {
        lemma_count_bounds(s, n - 1);
    }
}

proof fn lemma_count_prefix(s: Seq<bool>, i: int, n: int)
    requires
        0 <= i <= n,
    ensures
        count_true(s, i) <= count_true(s, n),
    decreases n - i,
{
    if i < n {
        lemma_count_prefix(s, i, n - 1);
    }
}

/// Adding entries to a set raises its count exactly when an entry is new.
proof fn lemma_count_grows(s: Seq<bool>, t: Seq<bool>, n: int)
    requires
        0 <= n,
        forall|i: int| 0 <= i < n ==> s[i] ==> t[i],
    ensures
        count_true(s, n) <= count_true(t, n),
        count_true(s, n) < count_true(t, n) <==> exists|i: int| 0 <= i < n && t[i] && !s[i],
    decreases n,
{
    if n > 0 {
        lemma_count_grows(s, t, n - 1);
        if t[n - 1] && !s[n - 1] {
            assert(0 <= n - 1 < n && t[n - 1] && !s[n - 1]);
        }
        if exists|i: int| 0 <= i < n && t[i] && !s[i] {
            let i = choose|i: int| 0 <= i < n && t[i] && !s[i];
            if i < n - 1 {
                assert(0 <= i < n - 1 && t[i] && !s[i]);
            }
        }
    }
}

impl ScoreModel {
    /// Drone `d` of player `p` records scan `id`, unless `p` has saved it already.
    pub open spec fn recorded(self, p: int, d: int, id: int) -> ScoreModel {
        if self.saved[p][id] {
            self
        } else {
            ScoreModel {
                carried: self.carried.update(p, self.carried[p].update(d, self.carried[p][d].update(id, true))),
                ..self
            }
        }
    }

    /// Saving a scan that nobody was first for makes `p` this turn's candidate for the bonus,
    /// or, when the other player is candidate already, leaves nobody.
    pub open spec fn toggled_temp(self, p: int) -> Seq<Option<i32>> {
        Seq::new(
            SCAN_KINDS as nat,
            |id: int|
                if self.saved[p][id] && self.first[id] is None {
                    if self.first_temp[id] is Some {
                        None
                    } else {
                        Some(p as i32)
                    }
                } else {
                    self.first_temp[id]
                },
        )
    }

    /// Drone `d` of player `p` reports: the bonus candidacy is settled for each scan `p` had
    /// saved (and its turn recorded), and the drone's scans join `p`'s saved scans.
    pub open spec fn applied(self, p: int, d: int) -> ScoreModel {
        let carried = self.carried[p][d];
        let n = count_true(carried, SCAN_KINDS as int);
        ScoreModel {
            first_temp: self.toggled_temp(p),
            turn_saved_fish: self.turn_saved_fish.update(
                p,
                Seq::new(
                    SCAN_KINDS as nat,
                    |id: int|
                        if self.saved[p][id] {
                            self.game_turn
                        } else {
                            self.turn_saved_fish[p][id]
                        },
                ),
            ),
            fish_scanned: (self.fish_scanned + count_true(self.saved[p], SCAN_KINDS as int)) as i32,
            count_fish_saved: if n > 0 {
                self.count_fish_saved.update(p, self.count_fish_saved[p].push(n as i32))
            } else {
                self.count_fish_saved
            },
            saved: self.saved.update(p, Seq::new(SCAN_KINDS as nat, |id: int| self.saved[p][id] || carried[id])),
            carried: self.carried.update(p, self.carried[p].update(d, no_scans())),
            ..self
        }
    }

    /// Drone `d` of player `p` carries a scan that `p` has not saved.
    pub open spec fn report_gain(self, p: int, d: int) -> bool {
        exists|id: int| 0 <= id < SCAN_KINDS && #[trigger] self.carried[p][d][id] && !self.saved[p][id]
    }
}

fn count_scans(a: &[bool; SCAN_KINDS]) -> (r: usize)
    ensures
        r == count_true(a@, SCAN_KINDS as int),
        r <= SCAN_KINDS,
{
    let mut n: usize = 0;
    let mut id: usize = 0;
    while id < SCAN_KINDS
        invariant
            id <= SCAN_KINDS,
            n == count_true(a@, id as int),
            n <= id,
        decreases SCAN_KINDS - id,
    {
        if a[id] {
            n += 1;
        }
        id += 1;
    }
    n
}

impl ScoreBoard {
    /// Drone `drone_index` of player `player_index` scans a creature: the scan is recorded unless
    /// the player has saved it already. Returns whether the drone recorded a new scan.
    pub fn record_scan(&mut self, player_index: usize, drone_index: usize, scan: &Scan) -> (r: bool)
        requires
            player_index < 2,
            drone_index < old(self)@.carried[player_index as int].len(),
            valid_scan(*scan),
        ensures
            final(self)@ == old(self)@.recorded(player_index as int, drone_index as int, scan_id(*scan)),
            r == (!old(self)@.saved[player_index as int][scan_id(*scan)]
                && !old(self)@.carried[player_index as int][drone_index as int][scan_id(*scan)]),
    {
        let id = scan_index(scan);
        if self.players[player_index].saved[id] {
            return false;
        }
        let ghost (p, d) = (player_index as int, drone_index as int);
        let ghost m = old(self)@;
        let mut scans = self.players[player_index].carried[drone_index];
        assert(scans@ == m.carried[p][d]);
        if scans[id] {
            assert(m.carried[p][d].update(id as int, true) =~= m.carried[p][d]);
            assert(m.carried[p].update(d, m.carried[p][d]) =~= m.carried[p]);
            assert(m.carried.update(p, m.carried[p]) =~= m.carried);
            return false;
        }
        scans[id] = true;
        self.players[player_index].carried.set(drone_index, scans);
        let ghost want = m.recorded(p, d, id as int);
        assert(self@.carried[p] =~= want.carried[p]);
        assert(self@.carried =~= want.carried);
        assert(self@.saved =~= want.saved);
        assert(self@.points =~= want.points);
        assert(self@.score =~= want.score);
        assert(self@.count_fish_saved =~= want.count_fish_saved);
        assert(self@.turn_saved_fish =~= want.turn_saved_fish);
        true
    }
}

impl ScoreBoard {
    /// Drone `drone_index` of player `player_index` reports its scans. Returns whether the
    /// player saved a scan it did not have.
    pub fn apply_scans_for_report(&mut self, player_index: usize, drone_index: usize) -> (r: bool)
        requires
            player_index < 2,
            drone_index < old(self)@.carried[player_index as int].len(),
            old(self).fish_scanned + count_true(old(self)@.saved[player_index as int], SCAN_KINDS as int) <= i32::MAX,
        ensures
            final(self)@ == old(self)@.applied(player_index as int, drone_index as int),
            r == old(self)@.report_gain(player_index as int, drone_index as int),
    {
        let ghost (p, d) = (player_index as int, drone_index as int);
        let ghost m = old(self)@;
        let saved = self.players[player_index].saved;
        let first = self.first_to_scan;
        let mut temp = self.first_to_scan_temp;
        let mut turns = self.turn_saved_fish[player_index];
        let mut scanned = self.fish_scanned;
        let turn = self.game_turn;
        let mut id: usize = 0;
        while id < SCAN_KINDS
            invariant
                id <= SCAN_KINDS,
                player_index < 2,
                p == player_index as int,
                saved@ == m.saved[p],
                first@ == m.first,
                turn == m.game_turn,
                scanned == m.fish_scanned + count_true(m.saved[p], id as int),
                m.fish_scanned + count_true(m.saved[p], SCAN_KINDS as int) <= i32::MAX,
                forall|k: int| 0 <= k < SCAN_KINDS ==> #[trigger] temp[k] == if k < id {
                    m.toggled_temp(p)[k]
                } else {
                    m.first_temp[k]
                },
                forall|k: int| 0 <= k < SCAN_KINDS ==> #[trigger] turns[k] == if k < id && m.saved[p][k] {
                    m.game_turn
                } else {
                    m.turn_saved_fish[p][k]
                },
            decreases SCAN_KINDS - id,
        {
            proof {
                lemma_count_bounds(m.saved[p], id as int);
                lemma_count_prefix(m.saved[p], id + 1, SCAN_KINDS as int);
            }
            if saved[id] {
                if first[id].is_none() {
                    if temp[id].is_some() {
                        temp[id] = None;
                    } else {
                        temp[id] = Some(player_index as i32);
                    }
                }
                turns[id] = turn;
                scanned += 1;
            }
            id += 1;
        }
        self.first_to_scan_temp = temp;
        self.turn_saved_fish[player_index] = turns;
        self.fish_scanned = scanned;
        let carried = self.players[player_index].carried[drone_index];
        assert(carried@ == m.carried[p][d]);
        let n_carried = count_scans(&carried);
        if n_carried > 0 {
            self.players[player_index].count_fish_saved.push(n_carried as i32);
        }
        let size_before = count_scans(&saved);
        let mut merged = saved;
        let mut k: usize = 0;
        while k < SCAN_KINDS
            invariant
                k <= SCAN_KINDS,
                player_index < 2,
                p == player_index as int,
                saved@ == m.saved[p],
                carried@ == m.carried[p][d],
                forall|j: int| 0 <= j < SCAN_KINDS ==> #[trigger] merged[j] == if j < k {
                    m.saved[p][j] || carried[j]
                } else {
                    m.saved[p][j]
                },
            decreases SCAN_KINDS - k,
        {
            if carried[k] {
                merged[k] = true;
            }
            k += 1;
        }
        self.players[player_index].saved = merged;
        self.players[player_index].carried.set(drone_index, [false; SCAN_KINDS]);
        let size_after = count_scans(&merged);
        proof {
            lemma_count_grows(m.saved[p], merged@, SCAN_KINDS as int);
            if size_before < size_after {
                let j = choose|j: int| 0 <= j < SCAN_KINDS && merged@[j] && !m.saved[p][j];
                assert(m.carried[p][d][j]);
            }
            if m.report_gain(p, d) {
                let j = choose|j: int| 0 <= j < SCAN_KINDS && #[trigger] m.carried[p][d][j] && !m.saved[p][j];
                assert(merged@[j]);
            }
            let want = m.applied(p, d);
            assert(self@.saved[p] =~= want.saved[p]);
            assert(self@.saved =~= want.saved);
            assert(self@.carried[p][d] =~= want.carried[p][d]);
            assert(self@.carried[p] =~= want.carried[p]);
            assert(self@.carried =~= want.carried);
            assert(self@.points =~= want.points);
            assert(self@.score =~= want.score);
            assert(self@.count_fish_saved =~= want.count_fish_saved);
            assert(self@.turn_saved_fish[p] =~= want.turn_saved_fish[p]);
            assert(self@.turn_saved_fish =~= want.turn_saved_fish);
            assert(self@.first_temp =~= want.first_temp);
        }
        size_before < size_after
    }
}

impl ScoreModel {
    /// Player `p` becomes this turn's candidate for the bonus of each type and color it has
    /// completed while nobody was first; when the other player is candidate already, nobody is.
    pub open spec fn detected(self, p: int) -> ScoreModel {
        ScoreModel {
            first_type_temp: Seq::new(
                3,
                |t: int|
                    if self.first_type[t] is None && self.all_of_type(p, t) {
                        if self.first_type_temp[t] is Some {
                            None
                        } else {
                            Some(p as i32)
                        }
                    } else {
                        self.first_type_temp[t]
                    },
            ),
            first_color_temp: Seq::new(
                4,
                |c: int|
                    if self.first_color[c] is None && self.all_of_color(p, c) {
                        if self.first_color_temp[c] is Some {
                            None
                        } else {
                            Some(p as i32)
                        }
                    } else {
                        self.first_color_temp[c]
                    },
            ),
            ..self
        }
    }

    /// This turn's candidates get the bonuses nobody had yet; the candidate tables are emptied.
    pub open spec fn persisted(self) -> ScoreModel {
        ScoreModel {
            first: Seq::new(
                SCAN_KINDS as nat,
                |id: int|
                    if self.first[id] is None {
                        self.first_temp[id]
                    } else {
                        self.first[id]
                    },
            ),
            first_temp: Seq::new(SCAN_KINDS as nat, |id: int| None),
            first_type: Seq::new(
                3,
                |t: int|
                    if self.first_type[t] is None {
                        self.first_type_temp[t]
                    } else {
                        self.first_type[t]
                    },
            ),
            first_type_temp: Seq::new(3, |t: int| None),
            first_color: Seq::new(
                4,
                |c: int|
                    if self.first_color[c] is None {
                        self.first_color_temp[c]
                    } else {
                        self.first_color[c]
                    },
            ),
            first_color_temp: Seq::new(4, |c: int| None),
            ..self
        }
    }
}

impl ScoreBoard {
    pub fn detect_first_to_combo_bonuses(&mut self, player_index: usize)
        requires
            player_index < 2,
        ensures
            final(self)@ == old(self)@.detected(player_index as int),
    {
        let ghost p = player_index as int;
        let ghost m = old(self)@;
        let types = FishType::variants();
        let first_type = self.first_to_scan_all_fish_of_type;
        let mut type_temp = self.first_to_scan_all_fish_of_type_temp;
        let mut k: usize = 0;
        while k < types.len()
            invariant
                k <= types.len(),
                types@ == seq![FishType::JELLY, FishType::FISH, FishType::CRAB],
                player_index < 2,
                p == player_index as int,
                m == old(self)@,
                *self == *old(self),
                first_type@ == m.first_type,
                forall|t: int| 0 <= t < 3 ==> #[trigger] type_temp[t] == if t < k {
                    m.detected(p).first_type_temp[t]
                } else {
                    m.first_type_temp[t]
                },
            decreases types.len() - k,
        {
            assert(type_idx(types[k as int]) == k);
            if first_type[k].is_none() {
                if self.player_scanned_all_fish_of_type(player_index, types[k]) {
                    if type_temp[k].is_some() {
                        type_temp[k] = None;
                    } else {
                        type_temp[k] = Some(player_index as i32);
                    }
                }
            }
            k += 1;
        }
        let first_color = self.first_to_scan_all_fish_of_color;
        let mut color_temp = self.first_to_scan_all_fish_of_color_temp;
        let mut color: i32 = 0;
        while color < COLORS_PER_FISH
            invariant
                0 <= color <= COLORS_PER_FISH,
                player_index < 2,
                p == player_index as int,
                m == old(self)@,
                *self == *old(self),
                first_color@ == m.first_color,
                forall|c: int| 0 <= c < 4 ==> #[trigger] color_temp[c] == if c < color {
                    m.detected(p).first_color_temp[c]
                } else {
                    m.first_color_temp[c]
                },
            decreases COLORS_PER_FISH - color,
        {
            if first_color[color as usize].is_none() {
                if self.player_scanned_all_fish_of_color(player_index, color) {
                    if color_temp[color as usize].is_some() {
                        color_temp[color as usize] = None;
                    } else {
                        color_temp[color as usize] = Some(player_index as i32);
                    }
                }
            }
            color += 1;
        }
        self.first_to_scan_all_fish_of_type_temp = type_temp;
        self.first_to_scan_all_fish_of_color_temp = color_temp;
        proof {
            let want = m.detected(p);
            assert(self@.first_type_temp =~= want.first_type_temp);
            assert(self@.first_color_temp =~= want.first_color_temp);
            assert(self@.saved =~= want.saved);
            assert(self@.carried =~= want.carried);
            assert(self@.points =~= want.points);
            assert(self@.score =~= want.score);
            assert(self@.count_fish_saved =~= want.count_fish_saved);
            assert(self@.turn_saved_fish =~= want.turn_saved_fish);
        }
    }

    pub fn persist_first_to_scan_bonuses(&mut self)
        ensures
            final(self)@ == old(self)@.persisted(),
    {
        let ghost m = old(self)@;
        let mut id: usize = 0;
        while id < SCAN_KINDS
            invariant
                id <= SCAN_KINDS,
                m == old(self)@,
                self.first_to_scan_temp == old(self).first_to_scan_temp,
                self.players == old(self).players,
                self.game_turn == old(self).game_turn,
                self.turn_saved_fish == old(self).turn_saved_fish,
                self.fish_scanned == old(self).fish_scanned,
                self.first_to_scan_all_fish_of_type == old(self).first_to_scan_all_fish_of_type,
                self.first_to_scan_all_fish_of_type_temp == old(self).first_to_scan_all_fish_of_type_temp,
                self.first_to_scan_all_fish_of_color == old(self).first_to_scan_all_fish_of_color,
                self.first_to_scan_all_fish_of_color_temp == old(self).first_to_scan_all_fish_of_color_temp,
                forall|k: int| 0 <= k < SCAN_KINDS ==> #[trigger] self.first_to_scan[k] == if k < id {
                    m.persisted().first[k]
                } else {
                    m.first[k]
                },
            decreases SCAN_KINDS - id,
        {
            if self.first_to_scan[id].is_none() {
                self.first_to_scan[id] = self.first_to_scan_temp[id];
            }
            id += 1;
        }
        let mut t: usize = 0;
        while t < 3
            invariant
                t <= 3,
                m == old(self)@,
                self.first_to_scan_all_fish_of_type_temp == old(self).first_to_scan_all_fish_of_type_temp,
                forall|k: int| 0 <= k < 3 ==> #[trigger] self.first_to_scan_all_fish_of_type[k] == if k < t {
                    m.persisted().first_type[k]
                } else {
                    m.first_type[k]
                },
                self.players == old(self).players,
                self.game_turn == old(self).game_turn,
                self.turn_saved_fish == old(self).turn_saved_fish,
                self.fish_scanned == old(self).fish_scanned,
                self.first_to_scan@ == m.persisted().first,
                self.first_to_scan_temp == old(self).first_to_scan_temp,
                self.first_to_scan_all_fish_of_color == old(self).first_to_scan_all_fish_of_color,
                self.first_to_scan_all_fish_of_color_temp == old(self).first_to_scan_all_fish_of_color_temp,
            decreases 3 - t,
        {
            if self.first_to_scan_all_fish_of_type[t].is_none() {
                self.first_to_scan_all_fish_of_type[t] = self.first_to_scan_all_fish_of_type_temp[t];
            }
            t += 1;
        }
        let mut c: usize = 0;
        while c < 4
            invariant
                c <= 4,
                m == old(self)@,
                self.first_to_scan_all_fish_of_color_temp == old(self).first_to_scan_all_fish_of_color_temp,
                forall|k: int| 0 <= k < 4 ==> #[trigger] self.first_to_scan_all_fish_of_color[k] == if k < c {
                    m.persisted().first_color[k]
                } else {
                    m.first_color[k]
                },
                self.players == old(self).players,
                self.game_turn == old(self).game_turn,
                self.turn_saved_fish == old(self).turn_saved_fish,
                self.fish_scanned == old(self).fish_scanned,
                self.first_to_scan@ == m.persisted().first,
                self.first_to_scan_all_fish_of_type@ == m.persisted().first_type,
                self.first_to_scan_temp == old(self).first_to_scan_temp,
            decreases 4 - c,
        {
            if self.first_to_scan_all_fish_of_color[c].is_none() {
                self.first_to_scan_all_fish_of_color[c] = self.first_to_scan_all_fish_of_color_temp[c];
            }
            c += 1;
        }
        self.first_to_scan_temp = [None; SCAN_KINDS];
        self.first_to_scan_all_fish_of_color_temp = [None; 4];
        self.first_to_scan_all_fish_of_type_temp = [None; 3];
        proof {
            let want = m.persisted();
            assert(self@.first =~= want.first);
            assert(self@.first_type =~= want.first_type);
            assert(self@.first_color =~= want.first_color);
            assert(self@.first_temp =~= want.first_temp);
            assert(self@.first_type_temp =~= want.first_type_temp);
            assert(self@.first_color_temp =~= want.first_color_temp);
            assert(self@.saved =~= want.saved);
            assert(self@.carried =~= want.carried);
            assert(self@.points =~= want.points);
            assert(self@.score =~= want.score);
            assert(self@.count_fish_saved =~= want.count_fish_saved);
            assert(self@.turn_saved_fish =~= want.turn_saved_fish);
        }
    }
}

/// `n` drones, none of them dead or dying.
pub open spec fn none_dead(n: int) -> Seq<bool> {
    Seq::new(n as nat, |d: int| false)
}

impl ScoreModel {
    /// The drones of player `p` from `d` on report in order, skipping those marked in `dead`.
    pub open spec fn report_from(self, p: int, dead: Seq<bool>, d: int) -> ScoreModel
        decreases dead.len() - d,
    {
        if 0 <= d < dead.len() {
            let next = if dead[d] {
                self
            } else {
                self.applied(p, d)
            };
            next.report_from(p, dead, d + 1)
        } else {
            self
        }
    }

    /// For each drone of player `p` from `d` on: whether its report saved a new scan.
    pub open spec fn report_flags(self, p: int, dead: Seq<bool>, d: int) -> Seq<bool>
        decreases dead.len() - d,
    {
        if 0 <= d < dead.len() {
            let next = if dead[d] {
                self
            } else {
                self.applied(p, d)
            };
            seq![!dead[d] && self.report_gain(p, d)] + next.report_flags(p, dead, d + 1)
        } else {
            seq![]
        }
    }

    /// The turn's report: the live drones of player 0, then of player 1, report (each player's
    /// completed types and colors are checked after its drones); the bonuses are persisted and
    /// the points recomputed.
    pub open spec fn reported(self, dead: Seq<Seq<bool>>) -> ScoreModel {
        let a = self.report_from(0, dead[0], 0).detected(0);
        let b = a.report_from(1, dead[1], 0).detected(1);
        let c = b.persisted();
        ScoreModel { points: seq![c.player_score(0) as i32, c.player_score(1) as i32], ..c }
    }

    /// Which drones saved a new scan in the turn's report, per player.
    pub open spec fn reported_flags(self, dead: Seq<Seq<bool>>) -> Seq<Seq<bool>> {
        let a = self.report_from(0, dead[0], 0).detected(0);
        seq![self.report_flags(0, dead[0], 0), a.report_flags(1, dead[1], 0)]
    }

    /// The final report at the end of the game: every drone reports, bonuses are persisted, and
    /// each player's points and final score become its score.
    pub open spec fn ended(self) -> ScoreModel {
        let a = self.report_from(0, none_dead(self.carried[0].len() as int), 0).detected(0);
        let b = a.report_from(1, none_dead(a.carried[1].len() as int), 0).detected(1);
        let c = b.persisted();
        let scores = seq![c.player_score(0) as i32, c.player_score(1) as i32];
        ScoreModel { points: scores, score: scores, ..c }
    }

    /// The reports of player `p`'s drones from `d` on, skipping those marked in `dead`, never
    /// take the scan counter past `i32::MAX`: each report adds the number of scans saved so far.
    pub open spec fn report_fits(self, p: int, dead: Seq<bool>, d: int) -> bool
        decreases dead.len() - d,
    {
        if 0 <= d < dead.len() {
            let next = if dead[d] {
                self
            } else {
                self.applied(p, d)
            };
            &&& (dead[d] || self.fish_scanned + count_true(self.saved[p], SCAN_KINDS as int) <= i32::MAX)
            &&& next.report_fits(p, dead, d + 1)
        } else {
            true
        }
    }

    /// The turn's report, with `dead` marking the drones that do not report, never takes the
    /// scan counter past `i32::MAX`.
    pub open spec fn report_headroom(self, dead: Seq<Seq<bool>>) -> bool {
        &&& self.report_fits(0, dead[0], 0)
        &&& self.report_from(0, dead[0], 0).detected(0).report_fits(1, dead[1], 0)
    }

    /// The end-of-game report, where every drone reports, never takes the scan counter past
    /// `i32::MAX`.
    pub open spec fn end_headroom(self) -> bool {
        self.report_headroom(seq![none_dead(self.carried[0].len() as int), none_dead(self.carried[1].len() as int)])
    }
}

proof fn lemma_applied_shape(m: ScoreModel, p: int, d: int)
    requires
        0 <= p < 2,
        m.saved.len() == 2,
        m.carried.len() == 2,
        0 <= d < m.carried[p].len(),
    ensures
        m.applied(p, d).carried.len() == 2,
        m.applied(p, d).saved.len() == 2,
        m.applied(p, d).carried[0].len() == m.carried[0].len(),
        m.applied(p, d).carried[1].len() == m.carried[1].len(),
        m.fish_scanned <= m.applied(p, d).fish_scanned <= m.fish_scanned + SCAN_KINDS
            || m.fish_scanned + SCAN_KINDS > i32::MAX,
{
    lemma_count_bounds(m.saved[p], SCAN_KINDS as int);
}

impl ScoreBoard {
    /// The drones of player `player_index` report in order, skipping those marked dead or dying.
    fn report_player(&mut self, player_index: usize, dead_or_dying: &Vec<bool>) -> (flags: Vec<bool>)
        requires
            player_index < 2,
            dead_or_dying.len() == old(self)@.carried[player_index as int].len(),
            old(self)@.report_fits(player_index as int, dead_or_dying@, 0),
        ensures
            final(self)@ == old(self)@.report_from(player_index as int, dead_or_dying@, 0),
            flags@ == old(self)@.report_flags(player_index as int, dead_or_dying@, 0),
    {
        let ghost p = player_index as int;
        let ghost target = old(self)@.report_from(p, dead_or_dying@, 0);
        let ghost target_flags = old(self)@.report_flags(p, dead_or_dying@, 0);
        let mut flags: Vec<bool> = Vec::new();
        let mut d: usize = 0;
        while d < dead_or_dying.len()
            invariant
                d <= dead_or_dying.len(),
                player_index < 2,
                p == player_index as int,
                dead_or_dying.len() == self@.carried[p].len(),
                self@.report_from(p, dead_or_dying@, d as int) == target,
                flags@ + self@.report_flags(p, dead_or_dying@, d as int) == target_flags,
                self@.report_fits(p, dead_or_dying@, d as int),
            decreases dead_or_dying.len() - d,
        {
            let ghost before = self@;
            let ghost fl = flags@;
            if dead_or_dying[d] {
                flags.push(false);
            } else {
                proof {
                    lemma_applied_shape(before, p, d as int);
                }
                let gained = self.apply_scans_for_report(player_index, d);
                flags.push(gained);
            }
            assert(flags@ + self@.report_flags(p, dead_or_dying@, d + 1) =~= fl + before.report_flags(p, dead_or_dying@, d as int));
            d += 1;
        }
        assert(flags@ =~= flags@ + Seq::<bool>::empty());
        flags
    }
}

proof fn lemma_report_from_other(m: ScoreModel, p: int, dead: Seq<bool>, d: int)
    requires
        0 <= p < 2,
        m.saved.len() == 2,
        m.carried.len() == 2,
        0 <= d,
        dead.len() == m.carried[p].len(),
    ensures
        m.report_from(p, dead, d).saved[1 - p] == m.saved[1 - p],
        m.report_from(p, dead, d).carried[1 - p] == m.carried[1 - p],
    decreases dead.len() - d,
{
    if d < dead.len() {
        lemma_applied_shape(m, p, d);
        let next = if dead[d] {
            m
        } else {
            m.applied(p, d)
        };
        lemma_report_from_other(next, p, dead, d + 1);
    }
}

impl ScoreBoard {
    /// Runs the counter arithmetic of player `p`'s reports on the board's scans, starting the
    /// counter at `start`: `None` when a report would take it past `i32::MAX`, else its final value.
    fn fits_player(&self, p: usize, dead: &Vec<bool>, start: i32, Ghost(m0): Ghost<ScoreModel>) -> (r: Option<i32>)
        requires
            p < 2,
            m0.saved.len() == 2,
            m0.carried.len() == 2,
            m0.saved[p as int] == self@.saved[p as int],
            m0.carried[p as int] == self@.carried[p as int],
            m0.fish_scanned == start,
            dead.len() == m0.carried[p as int].len(),
        ensures
            r is Some <==> m0.report_fits(p as int, dead@, 0),
            r matches Some(v) ==> v == m0.report_from(p as int, dead@, 0).fish_scanned,
    {
        let ghost pp = p as int;
        let ghost mut cur = m0;
        let mut sim = self.players[p].saved;
        let mut total = start;
        let mut d: usize = 0;
        while d < dead.len()
            invariant
                p < 2,
                pp == p as int,
                d <= dead.len(),
                cur.saved.len() == 2,
                cur.carried.len() == 2,
                cur.carried[pp].len() == dead.len(),
                sim@ == cur.saved[pp],
                total == cur.fish_scanned,
                forall|e: int| d <= e < dead.len() ==> #[trigger] cur.carried[pp][e] == self@.carried[pp][e],
                self@.carried[pp].len() == dead.len(),
                m0.report_fits(pp, dead@, 0) == cur.report_fits(pp, dead@, d as int),
                m0.report_from(pp, dead@, 0) == cur.report_from(pp, dead@, d as int),
            decreases dead.len() - d,
        {
            if !dead[d] {
                let n = count_scans(&sim);
                if total as i64 + n as i64 > i32::MAX as i64 {
                    return None;
                }
                total = total + n as i32;
                let carried = self.players[p].carried[d];
                assert(carried@ == cur.carried[pp][d as int]);
                let ghost before = sim@;
                let mut k: usize = 0;
                while k < SCAN_KINDS
                    invariant
                        k <= SCAN_KINDS,
                        forall|j: int| 0 <= j < SCAN_KINDS ==> #[trigger] sim@[j] == if j < k {
                            before[j] || carried@[j]
                        } else {
                            before[j]
                        },
                    decreases SCAN_KINDS - k,
                {
                    if carried[k] {
                        sim[k] = true;
                    }
                    k += 1;
                }
                proof {
                    lemma_applied_shape(cur, pp, d as int);
                    let next = cur.applied(pp, d as int);
                    assert(sim@ =~= next.saved[pp]);
                    cur = next;
                }
            }
            d += 1;
        }
        Some(total)
    }

    /// Whether the turn's report, with `dead_or_dying` marking the drones that do not report,
    /// keeps the scan counter within `i32`.
    pub fn report_fits_now(&self, dead_or_dying: &Vec<Vec<bool>>) -> (r: bool)
        requires
            dead_or_dying.len() == 2,
            dead_or_dying[0].len() == self@.carried[0].len(),
            dead_or_dying[1].len() == self@.carried[1].len(),
        ensures
            r == self@.report_headroom(dead_or_dying@.map_values(|v: Vec<bool>| v@)),
    {
        let ghost dead = dead_or_dying@.map_values(|v: Vec<bool>| v@);
        let ghost m = self@;
        assert(dead[0] == dead_or_dying[0]@ && dead[1] == dead_or_dying[1]@);
        match self.fits_player(0, &dead_or_dying[0], self.fish_scanned, Ghost(m)) {
            None => false,
            Some(v) => {
                let ghost a = m.report_from(0, dead[0], 0).detected(0);
                proof {
                    lemma_report_from_other(m, 0, dead[0], 0);
                    lemma_report_from_shape(m, 0, dead[0], 0);
                }
                self.fits_player(1, &dead_or_dying[1], v, Ghost(a)).is_some()
            },
        }
    }
}

impl ScoreBoard {
    /// The turn's report. `dead_or_dying[p][d]` tells whether drone `d` of player `p` is dead or
    /// dying (such drones do not report). Returns, per drone, whether it saved a new scan.
    pub fn do_report(&mut self, dead_or_dying: &Vec<Vec<bool>>) -> (reported: Vec<Vec<bool>>)
        requires
            dead_or_dying.len() == 2,
            dead_or_dying[0].len() == old(self)@.carried[0].len(),
            dead_or_dying[1].len() == old(self)@.carried[1].len(),
            old(self)@.report_headroom(dead_or_dying@.map_values(|v: Vec<bool>| v@)),
        ensures
            final(self)@ == old(self)@.reported(dead_or_dying@.map_values(|v: Vec<bool>| v@)),
            reported@.map_values(|v: Vec<bool>| v@) == old(self)@.reported_flags(
                dead_or_dying@.map_values(|v: Vec<bool>| v@),
            ),
            forall|t: int| 0 <= t < 3 && #[trigger] old(self)@.first_type[t] is None && old(self)@.first_type_temp[t] is None
                ==> final(self)@.first_type[t] == sole_completer(final(self)@.all_of_type(0, t), final(self)@.all_of_type(1, t)),
            forall|c: int| 0 <= c < 4 && #[trigger] old(self)@.first_color[c] is None && old(self)@.first_color_temp[c] is None
                ==> final(self)@.first_color[c] == sole_completer(final(self)@.all_of_color(0, c), final(self)@.all_of_color(1, c)),
    {
        let ghost dead = dead_or_dying@.map_values(|v: Vec<bool>| v@);
        let ghost m = old(self)@;
        let f0 = self.report_player(0, &dead_or_dying[0]);
        self.detect_first_to_combo_bonuses(0);
        assert(self@.carried[1].len() == m.carried[1].len()) by {
            lemma_report_from_shape(m, 0, dead[0], 0);
        }
        let f1 = self.report_player(1, &dead_or_dying[1]);
        self.detect_first_to_combo_bonuses(1);
        self.persist_first_to_scan_bonuses();
        let s0 = self.compute_player_score(0);
        let s1 = self.compute_player_score(1);
        self.players[0].points = s0;
        self.players[1].points = s1;
        proof {
            assert(dead[0] == dead_or_dying[0]@);
            assert(dead[1] == dead_or_dying[1]@);
            let want = m.reported(dead);
            assert(self@.points =~= want.points);
            assert(self@.saved =~= want.saved);
            assert(self@.carried =~= want.carried);
            assert(self@.score =~= want.score);
            assert(self@.count_fish_saved =~= want.count_fish_saved);
            assert(self@.turn_saved_fish =~= want.turn_saved_fish);
        }
        proof {
            lemma_board_shaped(old(self));
            lemma_report_combo_bonuses(m, dead);
        }
        let reported = vec![f0, f1];
        assert(reported@.map_values(|v: Vec<bool>| v@) =~= m.reported_flags(dead));
        reported
    }
}

proof fn lemma_report_from_shape(m: ScoreModel, p: int, dead: Seq<bool>, d: int)
    requires
        0 <= p < 2,
        m.saved.len() == 2,
        m.carried.len() == 2,
        0 <= d,
        dead.len() == m.carried[p].len(),
    ensures
        m.report_from(p, dead, d).carried.len() == 2,
        m.report_from(p, dead, d).saved.len() == 2,
        m.report_from(p, dead, d).carried[0].len() == m.carried[0].len(),
        m.report_from(p, dead, d).carried[1].len() == m.carried[1].len(),
    decreases dead.len() - d,
{
    if d < dead.len() {
        lemma_applied_shape(m, p, d);
        let next = if dead[d] {
            m
        } else {
            m.applied(p, d)
        };
        lemma_report_from_shape(next, p, dead, d + 1);
    }
}

fn none_dead_vec(n: usize) -> (r: Vec<bool>)
    ensures
        r@ == none_dead(n as int),
{
    let mut r: Vec<bool> = Vec::new();
    let mut i: usize = 0;
    while i < n
        invariant
            i <= n,
            r@ == none_dead(i as int),
        decreases n - i,
    {
        r.push(false);
        i += 1;
        assert(r@ =~= none_dead(i as int));
    }
    r
}

impl ScoreBoard {
    /// The end-of-game report: every drone reports, and each player's points and final score
    /// are set to its score.
    pub fn compute_score_on_end(&mut self)
        requires
            old(self)@.end_headroom(),
        ensures
            final(self)@ == old(self)@.ended(),
    {
        let ghost m = old(self)@;
        let all0 = none_dead_vec(self.players[0].carried.len());
        self.report_player(0, &all0);
        self.detect_first_to_combo_bonuses(0);
        assert(self@.carried[1].len() == m.carried[1].len()) by {
            lemma_report_from_shape(m, 0, all0@, 0);
        }
        let ghost a = self@;
        let all1 = none_dead_vec(self.players[1].carried.len());
        self.report_player(1, &all1);
        self.detect_first_to_combo_bonuses(1);
        self.persist_first_to_scan_bonuses();
        let s0 = self.compute_player_score(0);
        let s1 = self.compute_player_score(1);
        self.players[0].score = s0;
        self.players[0].points = s0;
        self.players[1].score = s1;
        self.players[1].points = s1;
        proof {
            let want = m.ended();
            assert(self@.points =~= want.points);
            assert(self@.score =~= want.score);
            assert(self@.saved =~= want.saved);
            assert(self@.carried =~= want.carried);
            assert(self@.count_fish_saved =~= want.count_fish_saved);
            assert(self@.turn_saved_fish =~= want.turn_saved_fish);
        }
    }
}

impl ScoreModel {
    /// Player `p` has saved a scan of every creature in `remaining`.
    pub open spec fn scanned_all_remaining(self, p: int, remaining: Seq<Scan>) -> bool {
        forall|i: int| 0 <= i < remaining.len() ==> #[trigger] self.has_saved(p, remaining[i])
    }

    /// The game is over: both players saved every remaining creature, the last turn is reached,
    /// or one player can no longer catch up with the other's points.
    pub open spec fn game_over(self, remaining: Seq<Scan>) -> bool {
        ||| (self.scanned_all_remaining(0, remaining) && self.scanned_all_remaining(1, remaining))
        ||| self.game_turn >= MAX_TURNS
        ||| self.max_score(0, remaining) < self.points[1]
        ||| self.max_score(1, remaining) < self.points[0]
    }
}

impl ScoreBoard {
    /// An empty board for two players with `drones_per_player` drones each.
    pub fn new(drones_per_player: usize) -> (r: ScoreBoard)
        ensures
            r@.wf(),
            r@.carried[0].len() == drones_per_player,
            r@.carried[1].len() == drones_per_player,
            forall|p: int, d: int, id: int| 0 <= p < 2 && 0 <= d < drones_per_player && 0 <= id < SCAN_KINDS
                ==> !#[trigger] r@.carried[p][d][id],
            forall|p: int, id: int| 0 <= p < 2 && 0 <= id < SCAN_KINDS ==> !#[trigger] r@.saved[p][id],
            r@.points == seq![0i32, 0i32],
            r@.score == seq![0i32, 0i32],
            r@.count_fish_saved == seq![Seq::<i32>::empty(), Seq::<i32>::empty()],
            forall|id: int| 0 <= id < SCAN_KINDS ==> #[trigger] r@.first[id] is None && r@.first_temp[id] is None,
            forall|t: int| 0 <= t < 3 ==> #[trigger] r@.first_type[t] is None && r@.first_type_temp[t] is None,
            forall|c: int| 0 <= c < 4 ==> #[trigger] r@.first_color[c] is None && r@.first_color_temp[c] is None,
            r@.game_turn == 0,
            forall|p: int, id: int| 0 <= p < 2 && 0 <= id < SCAN_KINDS ==> #[trigger] r@.turn_saved_fish[p][id] == -1,
            r@.fish_scanned == 0,
    {
        let mut c0: Vec<[bool; SCAN_KINDS]> = Vec::new();
        let mut c1: Vec<[bool; SCAN_KINDS]> = Vec::new();
        let mut d: usize = 0;
        while d < drones_per_player
            invariant
                d <= drones_per_player,
                c0.len() == d,
                c1.len() == d,
                forall|e: int, id: int| 0 <= e < d && 0 <= id < SCAN_KINDS ==> !c0[e][id] && !c1[e][id],
            decreases drones_per_player - d,
        {
            c0.push([false; SCAN_KINDS]);
            c1.push([false; SCAN_KINDS]);
            d += 1;
        }
        let r = ScoreBoard {
            players: [
                PlayerScans { saved: [false; SCAN_KINDS], carried: c0, points: 0, score: 0, count_fish_saved: Vec::new() },
                PlayerScans { saved: [false; SCAN_KINDS], carried: c1, points: 0, score: 0, count_fish_saved: Vec::new() },
            ],
            first_to_scan: [None; SCAN_KINDS],
            first_to_scan_temp: [None; SCAN_KINDS],
            first_to_scan_all_fish_of_color: [None; 4],
            first_to_scan_all_fish_of_color_temp: [None; 4],
            first_to_scan_all_fish_of_type: [None; 3],
            first_to_scan_all_fish_of_type_temp: [None; 3],
            game_turn: 0,
            turn_saved_fish: [[-1; SCAN_KINDS], [-1; SCAN_KINDS]],
            fish_scanned: 0,
        };
        assert(r@.points =~= seq![0i32, 0i32]);
        assert(r@.score =~= seq![0i32, 0i32]);
        assert(r@.count_fish_saved =~= seq![Seq::<i32>::empty(), Seq::<i32>::empty()]);
        r
    }

    /// Drone `drone_index` of player `player_index` loses the scans it carries.
    pub fn clear_drone_scans(&mut self, player_index: usize, drone_index: usize)
        requires
            player_index < 2,
            drone_index < old(self)@.carried[player_index as int].len(),
        ensures
            final(self)@ == (ScoreModel {
                carried: old(self)@.carried.update(
                    player_index as int,
                    old(self)@.carried[player_index as int].update(drone_index as int, no_scans()),
                ),
                ..old(self)@
            }),
    {
        self.players[player_index].carried.set(drone_index, [false; SCAN_KINDS]);
        proof {
            let p = player_index as int;
            let want = ScoreModel {
                carried: old(self)@.carried.update(p, old(self)@.carried[p].update(drone_index as int, no_scans())),
                ..old(self)@
            };
            assert(self@.carried[p][drone_index as int] =~= no_scans());
            assert(self@.carried[p] =~= want.carried[p]);
            assert(self@.carried =~= want.carried);
            assert(self@.saved =~= want.saved);
            assert(self@.points =~= want.points);
            assert(self@.score =~= want.score);
            assert(self@.count_fish_saved =~= want.count_fish_saved);
            assert(self@.turn_saved_fish =~= want.turn_saved_fish);
        }
    }

    /// Number of scans drone `drone_index` of player `player_index` carries.
    pub fn drone_scan_count(&self, player_index: usize, drone_index: usize) -> (r: usize)
        requires
            player_index < 2,
            drone_index < self@.carried[player_index as int].len(),
        ensures
            r == count_true(self@.carried[player_index as int][drone_index as int], SCAN_KINDS as int),
    {
        count_scans(&self.players[player_index].carried[drone_index])
    }

    pub fn has_scanned_all_remaining_fish(&self, player_index: usize, remaining: &[Scan]) -> (r: bool)
        requires
            player_index < 2,
        ensures
            r == self@.scanned_all_remaining(player_index as int, remaining@),
    {
        let mut k: usize = 0;
        while k < remaining.len()
            invariant
                k <= remaining.len(),
                player_index < 2,
                forall|i: int| 0 <= i < k ==> #[trigger] self@.has_saved(player_index as int, remaining@[i]),
            decreases remaining.len() - k,
        {
            if !self.player_scanned_scan(player_index, &remaining[k]) {
                return false;
            }
            k += 1;
        }
        true
    }

    /// Player `player_index` holds the first-to-save bonus of `scan`.
    pub fn has_first_to_scan_bonus(&self, player_index: usize, scan: &Scan) -> (r: bool)
        requires
            player_index < 2,
        ensures
            r == (valid_scan(*scan) && self@.first[scan_id(*scan)] == Some(player_index as i32)),
    {
        if 0 <= scan.color && scan.color < COLORS_PER_FISH {
            is_player(self.first_to_scan[scan_index(scan)], player_index)
        } else {
            false
        }
    }

    /// Player `player_index` holds the first-to-complete bonus of type `fish_type`.
    pub fn has_first_to_scan_all_fish_of_type(&self, player_index: usize, fish_type: &FishType) -> (r: bool)
        requires
            player_index < 2,
        ensures
            r == (self@.first_type[type_idx(*fish_type)] == Some(player_index as i32)),
    {
        is_player(self.first_to_scan_all_fish_of_type[type_index(*fish_type) as usize], player_index)
    }

    /// Player `player_index` holds the first-to-complete bonus of color `color`.
    pub fn has_first_to_scan_all_fish_of_color(&self, player_index: usize, color: i32) -> (r: bool)
        requires
            player_index < 2,
        ensures
            r == (0 <= color < COLORS_PER_FISH && self@.first_color[color as int] == Some(player_index as i32)),
    {
        if 0 <= color && color < COLORS_PER_FISH {
            is_player(self.first_to_scan_all_fish_of_color[color as usize], player_index)
        } else {
            false
        }
    }

    pub fn both_players_have_scanned_all_remaining_fish(&self, remaining: &[Scan]) -> (r: bool)
        ensures
            r == (self@.scanned_all_remaining(0, remaining@) && self@.scanned_all_remaining(1, remaining@)),
    {
        self.has_scanned_all_remaining_fish(0, remaining) && self.has_scanned_all_remaining_fish(1, remaining)
    }

    /// `remaining` lists the type and color of every creature still in the game.
    pub fn is_game_over(&self, remaining: &[Scan]) -> (r: bool)
        ensures
            r == self@.game_over(remaining@),
            forall|p: int| 0 <= p < 2 && #[trigger] self@.max_score(1 - p, remaining@) < self@.points[p] ==> r,
            self@.game_turn >= MAX_TURNS ==> r,
    {
        if self.both_players_have_scanned_all_remaining_fish(remaining) {
            true
        } else {
            self.game_turn >= MAX_TURNS || self.compute_max_player_score(0, remaining) < self.players[1].points
                || self.compute_max_player_score(1, remaining) < self.players[0].points
        }
    }
}

impl ScoreModel {
    /// The shape every board has: two players, twelve scan kinds, drone lists per player.
    pub open spec fn shaped(self) -> bool {
        &&& self.saved.len() == 2
        &&& self.carried.len() == 2
        &&& self.first.len() == SCAN_KINDS
        &&& self.first_temp.len() == SCAN_KINDS
        &&& self.first_type.len() == 3
        &&& self.first_type_temp.len() == 3
        &&& self.first_color.len() == 4
        &&& self.first_color_temp.len() == 4
        &&& forall|p: int| 0 <= p < 2 ==> (#[trigger] self.saved[p]).len() == SCAN_KINDS
        &&& forall|p: int, d: int| 0 <= p < 2 && 0 <= d < self.carried[p].len() ==> (#[trigger] self.carried[p][d]).len() == SCAN_KINDS
    }

    /// Every scan saved in `self` is saved in `other`.
    pub open spec fn saved_within(self, other: ScoreModel) -> bool {
        forall|p: int, id: int| 0 <= p < 2 && 0 <= id < SCAN_KINDS && #[trigger] self.saved[p][id] ==> other.saved[p][id]
    }

    /// Every first-to-scan award of `self` stands unchanged in `other`.
    pub open spec fn awards_within(self, other: ScoreModel) -> bool {
        &&& forall|id: int| 0 <= id < SCAN_KINDS && #[trigger] self.first[id] is Some ==> other.first[id] == self.first[id]
        &&& forall|t: int| 0 <= t < 3 && #[trigger] self.first_type[t] is Some ==> other.first_type[t] == self.first_type[t]
        &&& forall|c: int| 0 <= c < 4 && #[trigger] self.first_color[c] is Some ==> other.first_color[c] == self.first_color[c]
    }
}

proof fn lemma_same_saved(m: ScoreModel, n: ScoreModel)
    requires
        m.saved.len() == 2,
        forall|q: int| 0 <= q < 2 ==> (#[trigger] m.saved[q]).len() == SCAN_KINDS,
        n.saved == m.saved,
    ensures
        forall|q: int, t: int| 0 <= q < 2 && 0 <= t < 3 ==> #[trigger] n.all_of_type(q, t) == m.all_of_type(q, t),
        forall|q: int, c: int| 0 <= q < 2 && 0 <= c < 4 ==> #[trigger] n.all_of_color(q, c) == m.all_of_color(q, c),
{
    assert forall|q: int, t: int| 0 <= q < 2 && 0 <= t < 3 implies #[trigger] n.all_of_type(q, t) == m.all_of_type(q, t) by {
        assert(n.saved[q] == m.saved[q]);
        assert forall|c: int|
            #![trigger n.saved(q, 3 * c + t)]
            #![trigger m.saved(q, 3 * c + t)]
            0 <= c < 4 implies n.saved(q, 3 * c + t) == m.saved(q, 3 * c + t) by {}
    }
    assert forall|q: int, c: int| 0 <= q < 2 && 0 <= c < 4 implies #[trigger] n.all_of_color(q, c) == m.all_of_color(q, c) by {
        assert(n.saved[q] == m.saved[q]);
        assert forall|t: int|
            #![trigger n.saved(q, 3 * c + t)]
            #![trigger m.saved(q, 3 * c + t)]
            0 <= t < 3 implies n.saved(q, 3 * c + t) == m.saved(q, 3 * c + t) by {}
    }
}

proof fn lemma_same_score(m: ScoreModel, n: ScoreModel, p: int)
    requires
        0 <= p < 2,
        m.shaped(),
        n.saved == m.saved,
        n.first == m.first,
        n.first_type == m.first_type,
        n.first_color == m.first_color,
    ensures
        n.player_score(p) == m.player_score(p),
{
    lemma_same_saved(m, n);
    lemma_same_sums(m, n, p, SCAN_KINDS as int);
    lemma_same_sums(m, n, p, 3);
    lemma_same_sums(m, n, p, 4);
}

proof fn lemma_same_sums(m: ScoreModel, n: ScoreModel, p: int, k: int)
    requires
        0 <= p < 2,
        0 <= k <= SCAN_KINDS,
        m.shaped(),
        n.saved == m.saved,
        n.first == m.first,
        n.first_type == m.first_type,
        n.first_color == m.first_color,
        forall|q: int, t: int| 0 <= q < 2 && 0 <= t < 3 ==> #[trigger] n.all_of_type(q, t) == m.all_of_type(q, t),
        forall|q: int, c: int| 0 <= q < 2 && 0 <= c < 4 ==> #[trigger] n.all_of_color(q, c) == m.all_of_color(q, c),
    ensures
        n.scan_sum(p, k) == m.scan_sum(p, k),
        k <= 3 ==> n.type_sum(p, k) == m.type_sum(p, k),
        k <= 4 ==> n.color_sum(p, k) == m.color_sum(p, k),
    decreases k,
{
    if k > 0 {
        lemma_same_sums(m, n, p, k - 1);
        assert(n.saved[p] == m.saved[p]);
        assert(n.scan_term(p, k - 1) == m.scan_term(p, k - 1));
        if k <= 3 {
            assert(n.type_term(p, k - 1) == m.type_term(p, k - 1));
        }
        if k <= 4 {
            assert(n.color_term(p, k - 1) == m.color_term(p, k - 1));
        }
    }
}

proof fn lemma_growth_keeps_wf(m: ScoreModel, n: ScoreModel)
    requires
        m.wf(),
        m.saved_within(n),
        n.first_type == m.first_type,
        n.first_type_temp == m.first_type_temp,
        n.first_color == m.first_color,
        n.first_color_temp == m.first_color_temp,
    ensures
        n.wf(),
{
    assert forall|q: int, t: int| 0 <= q < 2 && 0 <= t < 3 && m.all_of_type(q, t) implies n.all_of_type(q, t) by {
        assert forall|c: int| 0 <= c < 4 implies #[trigger] n.saved(q, 3 * c + t) by {
            assert(m.saved(q, 3 * c + t));
        }
    }
    assert forall|q: int, c: int| 0 <= q < 2 && 0 <= c < 4 && m.all_of_color(q, c) implies n.all_of_color(q, c) by {
        assert forall|t: int| 0 <= t < 3 implies #[trigger] n.saved(q, 3 * c + t) by {
            assert(m.saved(q, 3 * c + t));
        }
    }
}

proof fn lemma_applied_props(m: ScoreModel, p: int, d: int)
    requires
        m.shaped(),
        m.wf(),
        0 <= p < 2,
        0 <= d < m.carried[p].len(),
    ensures
        m.applied(p, d).shaped(),
        m.applied(p, d).wf(),
        m.saved_within(m.applied(p, d)),
        m.awards_within(m.applied(p, d)),
{
    let n = m.applied(p, d);
    assert(m.saved_within(n));
    lemma_growth_keeps_wf(m, n);
}

proof fn lemma_report_from_props(m: ScoreModel, p: int, dead: Seq<bool>, d: int)
    requires
        m.shaped(),
        m.wf(),
        0 <= p < 2,
        0 <= d,
        dead.len() == m.carried[p].len(),
    ensures
        m.report_from(p, dead, d).shaped(),
        m.report_from(p, dead, d).wf(),
        m.saved_within(m.report_from(p, dead, d)),
        m.awards_within(m.report_from(p, dead, d)),
        m.report_from(p, dead, d).carried[0].len() == m.carried[0].len(),
        m.report_from(p, dead, d).carried[1].len() == m.carried[1].len(),
    decreases dead.len() - d,
{
    if d < dead.len() {
        lemma_applied_shape(m, p, d);
        lemma_applied_props(m, p, d);
        let next = if dead[d] {
            m
        } else {
            m.applied(p, d)
        };
        lemma_report_from_props(next, p, dead, d + 1);
    }
}

proof fn lemma_detected_props(m: ScoreModel, p: int)
    requires
        m.shaped(),
        m.wf(),
        0 <= p < 2,
    ensures
        m.detected(p).shaped(),
        m.detected(p).wf(),
        m.saved_within(m.detected(p)),
        m.awards_within(m.detected(p)),
        m.detected(p).carried == m.carried,
{
    let n = m.detected(p);
    lemma_same_saved(m, n);
    assert forall|t: int| 0 <= t < 3 implies (#[trigger] n.first_type_temp[t] matches Some(q) ==> 0 <= q < 2
        && n.all_of_type(q as int, t)) by {
        if !(m.first_type[t] is None && m.all_of_type(p, t)) {
            assert(n.first_type_temp[t] == m.first_type_temp[t]);
        }
    }
    assert forall|c: int| 0 <= c < 4 implies (#[trigger] n.first_color_temp[c] matches Some(q) ==> 0 <= q < 2
        && n.all_of_color(q as int, c)) by {
        if !(m.first_color[c] is None && m.all_of_color(p, c)) {
            assert(n.first_color_temp[c] == m.first_color_temp[c]);
        }
    }
}

proof fn lemma_persisted_props(m: ScoreModel)
    requires
        m.shaped(),
        m.wf(),
    ensures
        m.persisted().shaped(),
        m.persisted().wf(),
        m.saved_within(m.persisted()),
        m.awards_within(m.persisted()),
        m.persisted().carried == m.carried,
{
    let n = m.persisted();
    lemma_same_saved(m, n);
    assert forall|t: int| 0 <= t < 3 implies (#[trigger] n.first_type[t] matches Some(q) ==> 0 <= q < 2
        && n.all_of_type(q as int, t)) by {
        if m.first_type[t] is None {
            assert(n.first_type[t] == m.first_type_temp[t]);
        } else {
            assert(n.first_type[t] == m.first_type[t]);
        }
    }
    assert forall|c: int| 0 <= c < 4 implies (#[trigger] n.first_color[c] matches Some(q) ==> 0 <= q < 2
        && n.all_of_color(q as int, c)) by {
        if m.first_color[c] is None {
            assert(n.first_color[c] == m.first_color_temp[c]);
        } else {
            assert(n.first_color[c] == m.first_color[c]);
        }
    }
    assert forall|t: int| 0 <= t < 3 implies (#[trigger] n.first_type_temp[t] matches Some(q) ==> 0 <= q < 2
        && n.all_of_type(q as int, t)) by {}
    assert forall|c: int| 0 <= c < 4 implies (#[trigger] n.first_color_temp[c] matches Some(q) ==> 0 <= q < 2
        && n.all_of_color(q as int, c)) by {}
}

proof fn lemma_sums_grow(m: ScoreModel, n: ScoreModel, p: int, k: int)
    requires
        0 <= p < 2,
        0 <= k <= SCAN_KINDS,
        m.shaped(),
        n.shaped(),
        m.saved_within(n),
        m.awards_within(n),
    ensures
        m.scan_sum(p, k) <= n.scan_sum(p, k),
        k <= 3 ==> m.type_sum(p, k) <= n.type_sum(p, k),
        k <= 4 ==> m.color_sum(p, k) <= n.color_sum(p, k),
    decreases k,
{
    if k > 0 {
        lemma_sums_grow(m, n, p, k - 1);
        let id = k - 1;
        if m.saved(p, id) {
            assert(n.saved(p, id));
            if m.first[id] is Some {
                assert(n.first[id] == m.first[id]);
            }
        }
        assert(m.scan_term(p, id) <= n.scan_term(p, id));
        if k <= 3 {
            let t = k - 1;
            if m.all_of_type(p, t) {
                assert forall|c: int| 0 <= c < 4 implies #[trigger] n.saved(p, 3 * c + t) by {
                    assert(m.saved(p, 3 * c + t));
                }
            }
            if m.first_type[t] is Some {
                assert(n.first_type[t] == m.first_type[t]);
            }
            assert(m.type_term(p, t) <= n.type_term(p, t));
        }
        if k <= 4 {
            let c = k - 1;
            if m.all_of_color(p, c) {
                assert forall|t: int| 0 <= t < 3 implies #[trigger] n.saved(p, 3 * c + t) by {
                    assert(m.saved(p, 3 * c + t));
                }
            }
            if m.first_color[c] is Some {
                assert(n.first_color[c] == m.first_color[c]);
            }
            assert(m.color_term(p, c) <= n.color_term(p, c));
        }
    }
}

/// A player's score never drops while saved scans are only added and first-to-scan awards,
/// once given, stay.
pub proof fn lemma_score_grows(m: ScoreModel, n: ScoreModel, p: int)
    requires
        0 <= p < 2,
        m.shaped(),
        n.shaped(),
        m.saved_within(n),
        m.awards_within(n),
    ensures
        m.player_score(p) <= n.player_score(p),
{
    lemma_sums_grow(m, n, p, SCAN_KINDS as int);
    lemma_sums_grow(m, n, p, 3);
    lemma_sums_grow(m, n, p, 4);
}

proof fn lemma_report_from_drones(m: ScoreModel, p: int, dead: Seq<bool>, d: int)
    requires
        m.shaped(),
        m.wf(),
        0 <= p < 2,
        0 <= d,
        dead.len() == m.carried[p].len(),
    ensures
        forall|e: int| 0 <= e < dead.len() && d <= e && !dead[e] ==> #[trigger] m.report_from(p, dead, d).carried[p][e] == no_scans(),
        forall|e: int| 0 <= e < dead.len() && !(d <= e && !dead[e]) ==> #[trigger] m.report_from(p, dead, d).carried[p][e] == m.carried[p][e],
        m.report_from(p, dead, d).carried[1 - p] == m.carried[1 - p],
        forall|e: int, id: int| 0 <= e < dead.len() && d <= e && !dead[e] && 0 <= id < SCAN_KINDS && #[trigger] m.carried[p][e][id]
            ==> m.report_from(p, dead, d).saved[p][id],
    decreases dead.len() - d,
{
    if d < dead.len() {
        lemma_applied_shape(m, p, d);
        lemma_applied_props(m, p, d);
        let next = if dead[d] {
            m
        } else {
            m.applied(p, d)
        };
        lemma_report_from_drones(next, p, dead, d + 1);
        lemma_report_from_props(next, p, dead, d + 1);
        let r = m.report_from(p, dead, d);
        assert(r == next.report_from(p, dead, d + 1));
        assert forall|e: int| 0 <= e < dead.len() && !(d <= e && !dead[e]) implies #[trigger] r.carried[p][e] == m.carried[p][e] by {
            assert(next.carried[p][e] == m.carried[p][e]);
        }
        assert forall|e: int| 0 <= e < dead.len() && d <= e && !dead[e] implies #[trigger] r.carried[p][e] == no_scans() by {
            if e > d {
                assert(next.carried[p][e] == m.carried[p][e]);
            }
        }
        assert forall|e: int, id: int| 0 <= e < dead.len() && d <= e && !dead[e] && 0 <= id < SCAN_KINDS && #[trigger] m.carried[p][e][id]
            implies r.saved[p][id] by {
            if e == d {
                assert(next.saved[p][id]);
            } else {
                assert(next.carried[p][e] == m.carried[p][e]);
            }
        }
    }
}

proof fn lemma_report_from_keeps_awards(m: ScoreModel, p: int, dead: Seq<bool>, d: int)
    requires
        0 <= p < 2,
        m.saved.len() == 2,
        m.carried.len() == 2,
        0 <= d,
        dead.len() == m.carried[p].len(),
    ensures
        m.report_from(p, dead, d).first == m.first,
        m.report_from(p, dead, d).first_type == m.first_type,
        m.report_from(p, dead, d).first_type_temp == m.first_type_temp,
        m.report_from(p, dead, d).first_color == m.first_color,
        m.report_from(p, dead, d).first_color_temp == m.first_color_temp,
        m.report_from(p, dead, d).saved.len() == 2,
        m.report_from(p, dead, d).carried.len() == 2,
    decreases dead.len() - d,
{
    if d < dead.len() {
        lemma_applied_shape(m, p, d);
        let next = if dead[d] {
            m
        } else {
            m.applied(p, d)
        };
        lemma_report_from_keeps_awards(next, p, dead, d + 1);
    }
}

/// Who holds the first-to-complete bonus of a type that nobody held before a report: the one
/// player who has completed the type after the report, or nobody when both or neither have.
pub open spec fn sole_completer(zero: bool, one: bool) -> Option<i32> {
    if zero && !one {
        Some(0i32)
    } else if one && !zero {
        Some(1i32)
    } else {
        None
    }
}

/// The first-to-complete bonuses after a report. A type (or color) that nobody held goes to the
/// player who has completed it once the drones have reported, and to nobody when both players
/// have (or neither has); a bonus already held stays with its holder.
pub proof fn lemma_report_combo_bonuses(m: ScoreModel, dead: Seq<Seq<bool>>)
    requires
        m.shaped(),
        dead.len() == 2,
        dead[0].len() == m.carried[0].len(),
        dead[1].len() == m.carried[1].len(),
    ensures
        forall|t: int| 0 <= t < 3 && #[trigger] m.first_type[t] is None && m.first_type_temp[t] is None
            ==> m.reported(dead).first_type[t] == sole_completer(
                m.reported(dead).all_of_type(0, t),
                m.reported(dead).all_of_type(1, t),
            ),
        forall|c: int| 0 <= c < 4 && #[trigger] m.first_color[c] is None && m.first_color_temp[c] is None
            ==> m.reported(dead).first_color[c] == sole_completer(
                m.reported(dead).all_of_color(0, c),
                m.reported(dead).all_of_color(1, c),
            ),
        forall|t: int| 0 <= t < 3 && #[trigger] m.first_type[t] is Some ==> m.reported(dead).first_type[t] == m.first_type[t],
        forall|c: int| 0 <= c < 4 && #[trigger] m.first_color[c] is Some ==> m.reported(dead).first_color[c] == m.first_color[c],
{
    let a0 = m.report_from(0, dead[0], 0);
    lemma_report_from_keeps_awards(m, 0, dead[0], 0);
    lemma_report_from_shape(m, 0, dead[0], 0);
    let a = a0.detected(0);
    let b0 = a.report_from(1, dead[1], 0);
    lemma_report_from_keeps_awards(a, 1, dead[1], 0);
    lemma_report_from_other(a, 1, dead[1], 0);
    let b = b0.detected(1);
    let c = b.persisted();
    let r = m.reported(dead);
    assert(r.saved == c.saved && c.saved == b0.saved && a.saved == a0.saved);
    assert(r.saved[0] == a0.saved[0]);
    assert(r.saved[1] == b0.saved[1]);
    lemma_same_player_saved(r, a0, 0);
    lemma_same_player_saved(r, b0, 1);
}

proof fn lemma_same_player_saved(m: ScoreModel, n: ScoreModel, q: int)
    requires
        m.saved[q] == n.saved[q],
    ensures
        forall|t: int| #[trigger] m.all_of_type(q, t) == n.all_of_type(q, t),
        forall|c: int| #[trigger] m.all_of_color(q, c) == n.all_of_color(q, c),
{
    assert forall|t: int| #[trigger] m.all_of_type(q, t) == n.all_of_type(q, t) by {
        if m.all_of_type(q, t) {
            assert forall|k: int| 0 <= k < 4 implies #[trigger] n.saved(q, 3 * k + t) by {
                assert(m.saved(q, 3 * k + t));
            }
        }
        if n.all_of_type(q, t) {
            assert forall|k: int| 0 <= k < 4 implies #[trigger] m.saved(q, 3 * k + t) by {
                assert(n.saved(q, 3 * k + t));
            }
        }
    }
    assert forall|c: int| #[trigger] m.all_of_color(q, c) == n.all_of_color(q, c) by {
        if m.all_of_color(q, c) {
            assert forall|k: int| 0 <= k < 3 implies #[trigger] n.saved(q, 3 * c + k) by {
                assert(m.saved(q, 3 * c + k));
            }
        }
        if n.all_of_color(q, c) {
            assert forall|k: int| 0 <= k < 3 implies #[trigger] m.saved(q, 3 * c + k) by {
                assert(n.saved(q, 3 * c + k));
            }
        }
    }
}

proof fn lemma_sum_point(n: int, f: spec_fn(int) -> int, g: spec_fn(int) -> int, k: int)
    requires
        0 <= n,
        forall|i: int| 0 <= i < n && i != k ==> #[trigger] f(i) == g(i),
    ensures
        sum_to(n, g) == sum_to(n, f) + if 0 <= k < n {
            g(k) - f(k)
        } else {
            0
        },
    decreases n,
{
    if n > 0 {
        lemma_sum_point(n - 1, f, g, k);
    }
}

/// A player that has saved nothing and holds no bonus scores 0.
pub proof fn lemma_score_of_nothing(m: ScoreModel, p: int)
    requires
        0 <= p < 2,
        forall|id: int| 0 <= id < 12 ==> !#[trigger] m.saved[p][id],
        forall|t: int| 0 <= t < 3 ==> #[trigger] m.first_type[t] != Some(p as i32),
        forall|c: int| 0 <= c < 4 ==> #[trigger] m.first_color[c] != Some(p as i32),
    ensures
        m.player_score(p) == 0,
{
    let z = |i: int| 0int;
    assert(sum_to(12, z) == 0) by {
        lemma_sum_point(12, z, z, -1);
        reveal_with_fuel(sum_to, 13);
    }
    lemma_sum_point(12, z, |i: int| m.scan_term(p, i), -1);
    assert forall|t: int| 0 <= t < 3 implies #[trigger] m.type_term(p, t) == 0 by {
        if m.all_of_type(p, t) {
            let k = 0int;
            assert(m.saved(p, 3 * k + t));
        }
    }
    assert forall|c: int| 0 <= c < 4 implies #[trigger] m.color_term(p, c) == 0 by {
        if m.all_of_color(p, c) {
            let k = 0int;
            assert(m.saved(p, 3 * c + k));
        }
    }
    lemma_sum_point(3, z, |t: int| m.type_term(p, t), -1);
    lemma_sum_point(4, z, |c: int| m.color_term(p, c), -1);
    assert(sum_to(3, z) == 0 && sum_to(4, z) == 0) by {
        reveal_with_fuel(sum_to, 5);
    }
}

/// Holding the first-to-complete bonus of color `c` is worth 3 points.
pub proof fn lemma_color_bonus_worth(m: ScoreModel, p: int, c: int)
    requires
        0 <= p < 2,
        0 <= c < 4,
        m.first_color.len() == 4,
        m.first_color[c] != Some(p as i32),
    ensures
        (ScoreModel { first_color: m.first_color.update(c, Some(p as i32)), ..m }).player_score(p) == m.player_score(p) + 3,
{
    let n = ScoreModel { first_color: m.first_color.update(c, Some(p as i32)), ..m };
    lemma_same_player_saved(m, n, p);
    assert forall|k: int| 0 <= k < 3 implies #[trigger] m.type_term(p, k) == n.type_term(p, k) by {}
    assert forall|k: int| 0 <= k < 4 && k != c implies #[trigger] m.color_term(p, k) == n.color_term(p, k) by {}
    lemma_sum_point(12, |i: int| m.scan_term(p, i), |i: int| n.scan_term(p, i), -1);
    lemma_sum_point(3, |t: int| m.type_term(p, t), |t: int| n.type_term(p, t), -1);
    lemma_sum_point(4, |k: int| m.color_term(p, k), |k: int| n.color_term(p, k), c);
}

/// Holding the first-to-complete bonus of type `t` is worth 4 points.
pub proof fn lemma_type_bonus_worth(m: ScoreModel, p: int, t: int)
    requires
        0 <= p < 2,
        0 <= t < 3,
        m.first_type.len() == 3,
        m.first_type[t] != Some(p as i32),
    ensures
        (ScoreModel { first_type: m.first_type.update(t, Some(p as i32)), ..m }).player_score(p) == m.player_score(p) + 4,
{
    let n = ScoreModel { first_type: m.first_type.update(t, Some(p as i32)), ..m };
    lemma_same_player_saved(m, n, p);
    assert forall|k: int| 0 <= k < 3 && k != t implies #[trigger] m.type_term(p, k) == n.type_term(p, k) by {}
    assert forall|k: int| 0 <= k < 4 implies #[trigger] m.color_term(p, k) == n.color_term(p, k) by {}
    lemma_sum_point(12, |i: int| m.scan_term(p, i), |i: int| n.scan_term(p, i), -1);
    lemma_sum_point(3, |k: int| m.type_term(p, k), |k: int| n.type_term(p, k), t);
    lemma_sum_point(4, |k: int| m.color_term(p, k), |k: int| n.color_term(p, k), -1);
}

/// Being first to save scan `id`, which the player has saved, doubles its value: 1, 2 or 3 by
/// creature type (`id % 3`).
pub proof fn lemma_scan_bonus_worth(m: ScoreModel, p: int, id: int)
    requires
        0 <= p < 2,
        0 <= id < 12,
        m.first.len() == 12,
        m.first[id] != Some(p as i32),
        m.saved[p][id],
    ensures
        (ScoreModel { first: m.first.update(id, Some(p as i32)), ..m }).player_score(p) == m.player_score(p) + id % 3 + 1,
{
    let n = ScoreModel { first: m.first.update(id, Some(p as i32)), ..m };
    lemma_same_player_saved(m, n, p);
    assert forall|k: int| 0 <= k < 3 implies #[trigger] m.type_term(p, k) == n.type_term(p, k) by {}
    assert forall|k: int| 0 <= k < 4 implies #[trigger] m.color_term(p, k) == n.color_term(p, k) by {}
    lemma_sum_point(12, |i: int| m.scan_term(p, i), |i: int| n.scan_term(p, i), id);
    lemma_sum_point(3, |k: int| m.type_term(p, k), |k: int| n.type_term(p, k), -1);
    lemma_sum_point(4, |k: int| m.color_term(p, k), |k: int| n.color_term(p, k), -1);
}

/// Saving a new scan `id` adds its value (1, 2 or 3 by creature type `id % 3`, doubled when the
/// player was first to save it), 4 more when it completes the four colors of its type, and 3
/// more when it completes the three types of its color (`id / 3`).
pub proof fn lemma_save_worth(m: ScoreModel, p: int, id: int)
    requires
        0 <= p < 2,
        0 <= id < 12,
        m.saved.len() == 2,
        m.saved[p].len() == 12,
        !m.saved[p][id],
    ensures
        ({
            let n = ScoreModel { saved: m.saved.update(p, m.saved[p].update(id, true)), ..m };
            n.player_score(p) == m.player_score(p) + (if m.first[id] == Some(p as i32) {
                2 * (id % 3 + 1)
            } else {
                id % 3 + 1
            }) + (if forall|k: int| 0 <= k < 4 ==> #[trigger] n.saved[p][3 * k + id % 3] {
                4int
            } else {
                0int
            }) + (if forall|k: int| 0 <= k < 3 ==> #[trigger] n.saved[p][3 * (id / 3) + k] {
                3int
            } else {
                0int
            })
        }),
{
    let n = ScoreModel { saved: m.saved.update(p, m.saved[p].update(id, true)), ..m };
    let t = id % 3;
    let c = id / 3;
    assert(id == 3 * c + t);
    lemma_sum_point(12, |i: int| m.scan_term(p, i), |i: int| n.scan_term(p, i), id);
    assert forall|k: int| 0 <= k < 3 && k != t implies #[trigger] m.type_term(p, k) == n.type_term(p, k) by {
        if m.all_of_type(p, k) {
            assert forall|j: int| 0 <= j < 4 implies #[trigger] n.saved(p, 3 * j + k) by {
                assert(m.saved(p, 3 * j + k));
            }
        }
        if n.all_of_type(p, k) {
            assert forall|j: int| 0 <= j < 4 implies #[trigger] m.saved(p, 3 * j + k) by {
                assert(n.saved(p, 3 * j + k));
                assert(3 * j + k != id);
            }
        }
    }
    assert forall|k: int| 0 <= k < 4 && k != c implies #[trigger] m.color_term(p, k) == n.color_term(p, k) by {
        if m.all_of_color(p, k) {
            assert forall|j: int| 0 <= j < 3 implies #[trigger] n.saved(p, 3 * k + j) by {
                assert(m.saved(p, 3 * k + j));
            }
        }
        if n.all_of_color(p, k) {
            assert forall|j: int| 0 <= j < 3 implies #[trigger] m.saved(p, 3 * k + j) by {
                assert(n.saved(p, 3 * k + j));
                assert(3 * k + j != id);
            }
        }
    }
    lemma_sum_point(3, |k: int| m.type_term(p, k), |k: int| n.type_term(p, k), t);
    lemma_sum_point(4, |k: int| m.color_term(p, k), |k: int| n.color_term(p, k), c);
    assert(!m.all_of_type(p, t)) by {
        assert(!m.saved(p, 3 * c + t));
    }
    assert(!m.all_of_color(p, c)) by {
        assert(!m.saved(p, 3 * c + t));
    }
    assert(n.all_of_type(p, t) == forall|k: int| 0 <= k < 4 ==> #[trigger] n.saved[p][3 * k + id % 3]) by {
        if forall|k: int| 0 <= k < 4 ==> #[trigger] n.saved[p][3 * k + id % 3] {
            assert forall|k: int| 0 <= k < 4 implies #[trigger] n.saved(p, 3 * k + t) by {
                assert(n.saved[p][3 * k + id % 3]);
            }
        }
        if n.all_of_type(p, t) {
            assert forall|k: int| 0 <= k < 4 implies #[trigger] n.saved[p][3 * k + id % 3] by {
                assert(n.saved(p, 3 * k + t));
            }
        }
    }
    assert(n.all_of_color(p, c) == forall|k: int| 0 <= k < 3 ==> #[trigger] n.saved[p][3 * (id / 3) + k]) by {
        if forall|k: int| 0 <= k < 3 ==> #[trigger] n.saved[p][3 * (id / 3) + k] {
            assert forall|k: int| 0 <= k < 3 implies #[trigger] n.saved(p, 3 * c + k) by {
                assert(n.saved[p][3 * (id / 3) + k]);
            }
        }
        if n.all_of_color(p, c) {
            assert forall|k: int| 0 <= k < 3 implies #[trigger] n.saved[p][3 * (id / 3) + k] by {
                assert(n.saved(p, 3 * c + k));
            }
        }
    }
}

proof fn lemma_sum_le(n: int, f: spec_fn(int) -> int, g: spec_fn(int) -> int, h: spec_fn(int) -> int)
    requires
        0 <= n,
        forall|i: int| 0 <= i < n ==> #[trigger] f(i) <= g(i) + h(i),
    ensures
        sum_to(n, f) <= sum_to(n, g) + sum_to(n, h),
    decreases n,
{
    if n > 0 {
        lemma_sum_le(n - 1, f, g, h);
    }
}

impl ScoreModel {
    /// `n` is a board player `p` can still reach from `self`, given the creatures `remaining`:
    /// saved scans stay saved; a newly saved scan is one that a drone of `p` carries or whose
    /// creature is still in the game; and a bonus newly held by `p` is one that nobody held and
    /// that `p` had not already earned the right to (the scan saved, the type or color completed).
    pub open spec fn can_reach(self, n: ScoreModel, p: int, remaining: Seq<Scan>) -> bool {
        &&& forall|id: int| 0 <= id < SCAN_KINDS && #[trigger] self.saved(p, id) ==> n.saved(p, id)
        &&& forall|id: int| 0 <= id < SCAN_KINDS && #[trigger] n.saved(p, id) ==> self.saved(p, id)
            || self.carried(p, id) || remaining.contains(scan_at(id))
        &&& forall|id: int| 0 <= id < SCAN_KINDS && #[trigger] n.first[id] == Some(p as i32) ==> self.first[id] == Some(
            p as i32,
        ) || (self.first[id] is None && !self.saved(p, id))
        &&& forall|t: int| 0 <= t < 3 && #[trigger] n.first_type[t] == Some(p as i32) ==> self.first_type[t] == Some(
            p as i32,
        ) || (self.first_type[t] is None && !self.all_of_type(p, t))
        &&& forall|c: int| 0 <= c < 4 && #[trigger] n.first_color[c] == Some(p as i32) ==> self.first_color[c] == Some(
            p as i32,
        ) || (self.first_color[c] is None && !self.all_of_color(p, c))
    }
}

/// The highest reachable score is an upper bound: no board that player `p` can still reach
/// (where bonuses go only to players who earned them) gives `p` more than `max_score`.
pub proof fn lemma_max_score_bounds_every_future(m: ScoreModel, n: ScoreModel, p: int, remaining: Seq<Scan>)
    requires
        0 <= p < 2,
        forall|id: int| 0 <= id < SCAN_KINDS && #[trigger] m.first[id] == Some(p as i32) ==> m.saved(p, id),
        n.wf(),
        m.can_reach(n, p, remaining),
    ensures
        n.player_score(p) <= m.max_score(p, remaining),
{
    assert forall|i: int| 0 <= i < SCAN_KINDS implies #[trigger] n.scan_term(p, i) <= m.scan_term(p, i)
        + m.extra_scan_term(p, i, remaining) by {
        if n.saved(p, i) && !m.saved(p, i) {
            assert(scan_id(scan_at(i)) == i);
            assert(m.scan_still_possible(p, i, remaining));
        }
        if n.saved(p, i) && m.saved(p, i) && n.first[i] == Some(p as i32) {
            assert(m.first[i] == Some(p as i32));
        }
    }
    assert forall|t: int| 0 <= t < 3 implies #[trigger] n.type_term(p, t) <= m.type_term(p, t) + m.extra_type_term(
        p,
        t,
        remaining,
    ) by {
        if n.all_of_type(p, t) && !m.all_of_type(p, t) {
            assert forall|c: int| 0 <= c < 4 implies !#[trigger] m.scan_lost(
                p,
                Scan { fish_type: type_at(t), color: c as i32 },
                remaining,
            ) by {
                let s = Scan { fish_type: type_at(t), color: c as i32 };
                let id = 3 * c + t;
                assert(n.saved(p, 3 * c + t));
                assert(type_idx(type_at(t)) == t);
                assert(scan_id(s) == id);
                assert(id % 3 == t && id / 3 == c);
                assert(scan_at(id) == s);
            }
            assert(m.type_combo_possible(p, t, remaining));
        }
        if n.first_type[t] == Some(p as i32) {
            assert(n.all_of_type(p, t));
        }
        if m.all_of_type(p, t) {
            assert forall|c: int| 0 <= c < 4 implies #[trigger] n.saved(p, 3 * c + t) by {
                assert(m.saved(p, 3 * c + t));
            }
        }
    }
    assert forall|c: int| 0 <= c < 4 implies #[trigger] n.color_term(p, c) <= m.color_term(p, c) + m.extra_color_term(
        p,
        c,
        remaining,
    ) by {
        if n.all_of_color(p, c) && !m.all_of_color(p, c) {
            assert forall|t: int| 0 <= t < 3 implies !#[trigger] m.scan_lost(
                p,
                Scan { fish_type: type_at(t), color: c as i32 },
                remaining,
            ) by {
                let s = Scan { fish_type: type_at(t), color: c as i32 };
                let id = 3 * c + t;
                assert(n.saved(p, 3 * c + t));
                assert(type_idx(type_at(t)) == t);
                assert(scan_id(s) == id);
                assert(id % 3 == t && id / 3 == c);
                assert(scan_at(id) == s);
            }
            assert(m.color_combo_possible(p, c as i32, remaining));
        }
        if n.first_color[c] == Some(p as i32) {
            assert(n.all_of_color(p, c));
        }
        if m.all_of_color(p, c) {
            assert forall|t: int| 0 <= t < 3 implies #[trigger] n.saved(p, 3 * c + t) by {
                assert(m.saved(p, 3 * c + t));
            }
        }
    }
    lemma_sum_le(SCAN_KINDS as int, |i: int| n.scan_term(p, i), |i: int| m.scan_term(p, i), |i: int| m.extra_scan_term(p, i, remaining));
    lemma_sum_le(3, |t: int| n.type_term(p, t), |t: int| m.type_term(p, t), |t: int| m.extra_type_term(p, t, remaining));
    lemma_sum_le(4, |c: int| n.color_term(p, c), |c: int| m.color_term(p, c), |c: int| m.extra_color_term(p, c, remaining));
}

/// The game ends for either player alike: as soon as one player's points exceed what the
/// other can still reach, as soon as the last turn is reached, or once both players have saved
/// every creature still in the game; and only then.
pub proof fn lemma_game_over_rule(m: ScoreModel, remaining: Seq<Scan>)
    ensures
        forall|p: int| 0 <= p < 2 && #[trigger] m.max_score(1 - p, remaining) < m.points[p] ==> m.game_over(remaining),
        m.game_turn >= MAX_TURNS ==> m.game_over(remaining),
        (forall|q: int, i: int| 0 <= q < 2 && 0 <= i < remaining.len() ==> #[trigger] m.has_saved(q, remaining[i]))
            ==> m.game_over(remaining),
        m.game_over(remaining) ==> (m.game_turn >= MAX_TURNS || m.max_score(0, remaining) < m.points[1]
            || m.max_score(1, remaining) < m.points[0] || forall|q: int, i: int| 0 <= q < 2 && 0 <= i
            < remaining.len() ==> #[trigger] m.has_saved(q, remaining[i])),
{
    assert forall|p: int| 0 <= p < 2 && #[trigger] m.max_score(1 - p, remaining) < m.points[p] implies m.game_over(remaining) by {
        if p == 0 {
            assert(m.max_score(1, remaining) < m.points[0]);
        } else {
            assert(m.max_score(0, remaining) < m.points[1]);
        }
    }
    if forall|q: int, i: int| 0 <= q < 2 && 0 <= i < remaining.len() ==> #[trigger] m.has_saved(q, remaining[i]) {
        assert(m.scanned_all_remaining(0, remaining) && m.scanned_all_remaining(1, remaining));
    }
    if m.game_over(remaining) && m.scanned_all_remaining(0, remaining) && m.scanned_all_remaining(1, remaining) {
        assert forall|q: int, i: int| 0 <= q < 2 && 0 <= i < remaining.len() implies #[trigger] m.has_saved(q, remaining[i]) by {
            if q == 0 {
                assert(m.has_saved(0, remaining[i]));
            } else {
                assert(m.has_saved(1, remaining[i]));
            }
        }
    }
}

/// A report keeps the board well formed; scans saved before stay saved, the scans of every drone
/// that reported are saved now and it carries none, a dead or dying drone keeps what it carries,
/// no first-to-scan award changes hands, no player's score drops, and each player's points
/// equal its score.
pub proof fn lemma_report_keeps_invariants(m: ScoreModel, dead: Seq<Seq<bool>>)
    requires
        m.shaped(),
        m.wf(),
        dead.len() == 2,
        dead[0].len() == m.carried[0].len(),
        dead[1].len() == m.carried[1].len(),
    ensures
        m.reported(dead).shaped(),
        m.reported(dead).wf(),
        m.saved_within(m.reported(dead)),
        m.awards_within(m.reported(dead)),
        m.reported(dead).points[0] == m.reported(dead).player_score(0),
        m.reported(dead).points[1] == m.reported(dead).player_score(1),
        m.player_score(0) <= m.reported(dead).player_score(0),
        m.player_score(1) <= m.reported(dead).player_score(1),
        forall|p: int, e: int| 0 <= p < 2 && 0 <= e < dead[p].len() && !dead[p][e]
            ==> #[trigger] m.reported(dead).carried[p][e] == no_scans(),
        forall|p: int, e: int| 0 <= p < 2 && 0 <= e < dead[p].len() && dead[p][e]
            ==> #[trigger] m.reported(dead).carried[p][e] == m.carried[p][e],
        forall|p: int, e: int, id: int| 0 <= p < 2 && 0 <= e < dead[p].len() && !dead[p][e] && 0 <= id < SCAN_KINDS
            && #[trigger] m.carried[p][e][id] ==> m.reported(dead).saved[p][id],
{
    let a0 = m.report_from(0, dead[0], 0);
    lemma_report_from_props(m, 0, dead[0], 0);
    let a = a0.detected(0);
    lemma_detected_props(a0, 0);
    let b0 = a.report_from(1, dead[1], 0);
    lemma_report_from_props(a, 1, dead[1], 0);
    let b = b0.detected(1);
    lemma_detected_props(b0, 1);
    let c = b.persisted();
    lemma_persisted_props(b);
    lemma_max_score_bound(c, 0, Seq::empty());
    lemma_max_score_bound(c, 1, Seq::empty());
    let r = m.reported(dead);
    lemma_same_score(c, r, 0);
    lemma_same_score(c, r, 1);
    lemma_same_saved(c, r);
    assert forall|q: int, t: int| 0 <= q < 2 && 0 <= t < 3 && c.all_of_type(q, t) implies r.all_of_type(q, t) by {
        assert forall|k: int| 0 <= k < 4 implies #[trigger] r.saved(q, 3 * k + t) by {
            assert(c.saved(q, 3 * k + t));
        }
    }
    assert forall|q: int, cc: int| 0 <= q < 2 && 0 <= cc < 4 && c.all_of_color(q, cc) implies r.all_of_color(q, cc) by {
        assert forall|k: int| 0 <= k < 3 implies #[trigger] r.saved(q, 3 * cc + k) by {
            assert(c.saved(q, 3 * cc + k));
        }
    }
    assert(m.saved_within(r) && m.awards_within(r) && r.shaped());
    lemma_score_grows(m, r, 0);
    lemma_score_grows(m, r, 1);
    lemma_report_from_drones(m, 0, dead[0], 0);
    lemma_report_from_drones(a, 1, dead[1], 0);
    assert(a.carried == a0.carried);
    assert(c.carried == b0.carried);
    assert(r.carried == c.carried && r.saved == c.saved);
    assert forall|p: int, e: int, id: int| 0 <= p < 2 && 0 <= e < dead[p].len() && !dead[p][e] && 0 <= id < SCAN_KINDS
        && #[trigger] m.carried[p][e][id] implies r.saved[p][id] by {
        if p == 0 {
            assert(a0.saved[0][id]);
            assert(a.saved_within(b0));
        } else {
            assert(a.carried[1] == m.carried[1]);
            assert(a.carried[1][e][id]);
            assert(b0.saved[1][id]);
        }
    }
}

/// Recording a scan keeps the board well formed and changes neither saved scans, nor awards,
/// nor any player's score.
pub proof fn lemma_record_keeps_invariants(m: ScoreModel, p: int, d: int, id: int)
    requires
        m.shaped(),
        m.wf(),
        0 <= p < 2,
        0 <= d < m.carried[p].len(),
        0 <= id < SCAN_KINDS,
    ensures
        m.recorded(p, d, id).shaped(),
        m.recorded(p, d, id).wf(),
        m.recorded(p, d, id).saved == m.saved,
        m.awards_within(m.recorded(p, d, id)),
        m.recorded(p, d, id).carried[p][d][id] == (!m.saved[p][id] || m.carried[p][d][id]),
        m.recorded(p, d, id).player_score(0) == m.player_score(0),
        m.recorded(p, d, id).player_score(1) == m.player_score(1),
{
    lemma_growth_keeps_wf(m, m.recorded(p, d, id));
    lemma_same_score(m, m.recorded(p, d, id), 0);
    lemma_same_score(m, m.recorded(p, d, id), 1);
}

/// The end-of-game report keeps the board well formed and keeps every saved scan and every
/// award, so no player's score drops; afterwards each player's points and final score equal its
/// score.
pub proof fn lemma_end_keeps_invariants(m: ScoreModel)
    requires
        m.shaped(),
        m.wf(),
    ensures
        m.ended().shaped(),
        m.ended().wf(),
        m.saved_within(m.ended()),
        m.awards_within(m.ended()),
        m.ended().points[0] == m.ended().player_score(0),
        m.ended().points[1] == m.ended().player_score(1),
        m.ended().score == m.ended().points,
        m.player_score(0) <= m.ended().player_score(0),
        m.player_score(1) <= m.ended().player_score(1),
{
    let a0 = m.report_from(0, none_dead(m.carried[0].len() as int), 0);
    lemma_report_from_props(m, 0, none_dead(m.carried[0].len() as int), 0);
    let a = a0.detected(0);
    lemma_detected_props(a0, 0);
    let b0 = a.report_from(1, none_dead(a.carried[1].len() as int), 0);
    lemma_report_from_props(a, 1, none_dead(a.carried[1].len() as int), 0);
    let b = b0.detected(1);
    lemma_detected_props(b0, 1);
    let c = b.persisted();
    lemma_persisted_props(b);
    lemma_max_score_bound(c, 0, Seq::empty());
    lemma_max_score_bound(c, 1, Seq::empty());
    let r = m.ended();
    lemma_same_score(c, r, 0);
    lemma_same_score(c, r, 1);
    lemma_same_saved(c, r);
    assert(m.saved_within(r) && m.awards_within(r) && r.shaped());
    lemma_score_grows(m, r, 0);
    lemma_score_grows(m, r, 1);
}

/// Every board has the expected shape.
pub proof fn lemma_board_shaped(sb: &ScoreBoard)
    ensures
        sb@.shaped(),
{
}

impl ScoreBoard {
    /// The result of the game for `player`: 1 for a win, -1 for a loss, 0 for a draw or while
    /// the game goes on.
    pub fn score(&self, player: usize, remaining: &[Scan]) -> (r: i32)
        requires
            player < 2,
        ensures
            r == if self@.game_over(remaining@) {
                if self@.player_score(player as int) > self@.player_score(1 - player) {
                    1int
                } else if self@.player_score(player as int) < self@.player_score(1 - player) {
                    -1int
                } else {
                    0int
                }
            } else {
                0int
            },
    {
        if self.is_game_over(remaining) {
            let mine = self.compute_player_score(player);
            let theirs = self.compute_player_score(1 - player);
            if mine > theirs {
                1
            } else if mine < theirs {
                -1
            } else {
                0
            }
        } else {
            0
        }
    }
}

} // verus!
