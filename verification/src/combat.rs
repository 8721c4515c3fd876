//! Combat heuristics: a fixed list of rules that turns a snapshot of a fight
//! into intents ordered by priority, and a helper that keeps a target at
//! attack range.

use crate::frontier::cell_set_contains;
use crate::grid::{gap, manhattan, Cell, GridPos};
use crate::ieee::{F32Bits, FIFTH_BITS, HALF_BITS, THREE_TENTHS_BITS};
use rustc_hash::FxHashSet;
use vstd::prelude::*;

verus! {

/// What to do.
#[derive(Debug, Clone, Copy, PartialEq, Eq, Structural)]
pub enum CombatAction {
    Attack,
    UseSkill,
    Retreat,
    MoveToPosition,
    Wait,
}

/// An intent with its priority and the reason for it.
#[derive(Debug, Clone)]
pub struct CombatDecision {
    pub action: CombatAction,
    pub target_pos: Option<GridPos>,
    pub priority: i32,
    pub reason: String,
}

/// A decision with its reason as text.
pub struct Intent {
    pub action: CombatAction,
    pub target_pos: Option<GridPos>,
    pub priority: int,
    pub reason: Seq<char>,
}

impl CombatDecision {
    /// The decision with its reason as text.
    pub open spec fn intent(self) -> Intent {
        Intent {
            action: self.action,
            target_pos: self.target_pos,
            priority: self.priority as int,
            reason: self.reason@,
        }
    }
}

/// The decisions with their reasons as text.
pub open spec fn intents(ds: Seq<CombatDecision>) -> Seq<Intent> {
    Seq::new(ds.len(), |i: int| ds[i].intent())
}

/// Namespace of the combat rules.
pub struct CombatEngine;

/// An enemy that can be finished off: health below 0.3 and fewer than five
/// steps away.
pub open spec fn killable(self_pos: GridPos, enemy: (GridPos, F32Bits)) -> bool {
    enemy.1.below(F32Bits { bits: THREE_TENTHS_BITS }) && manhattan(self_pos, enemy.0) < 5
}

/// `i` is the index of the first killable enemy.
pub open spec fn is_first_killable(
    self_pos: GridPos,
    enemies: Seq<(GridPos, F32Bits)>,
    i: int,
) -> bool {
    &&& 0 <= i < enemies.len()
    &&& killable(self_pos, enemies[i])
    &&& forall|j: int| 0 <= j < i ==> !killable(self_pos, #[trigger] enemies[j])
}

/// `i` is the index of the closest enemy, the first of them if several are
/// equally close.
pub open spec fn is_closest(self_pos: GridPos, enemies: Seq<(GridPos, F32Bits)>, i: int) -> bool {
    &&& 0 <= i < enemies.len()
    &&& forall|j: int|
        0 <= j < enemies.len() ==> manhattan(self_pos, (#[trigger] enemies[j]).0) >= manhattan(
            self_pos,
            enemies[i].0,
        )
    &&& forall|j: int|
        0 <= j < i ==> manhattan(self_pos, (#[trigger] enemies[j]).0) > manhattan(
            self_pos,
            enemies[i].0,
        )
}

/// A retreat without a target.
pub open spec fn retreat(priority: int, reason: Seq<char>) -> Intent {
    Intent { action: CombatAction::Retreat, target_pos: None, priority, reason }
}

/// The attack rule: attack the first killable enemy, priority 80.
pub open spec fn attack_part(self_pos: GridPos, enemies: Seq<(GridPos, F32Bits)>) -> Seq<Intent> {
    if exists|i: int| is_first_killable(self_pos, enemies, i) {
        let i = choose|i: int| is_first_killable(self_pos, enemies, i);
        seq![
            Intent {
                action: CombatAction::Attack,
                target_pos: Some(enemies[i].0),
                priority: 80,
                reason: "Low HP enemy nearby"@,
            },
        ]
    } else {
        Seq::empty()
    }
}

/// The skill rule: if the first skill is ready and the closest enemy is
/// fewer than six steps away, use the skill on it, priority 70.
pub open spec fn skill_part(
    self_pos: GridPos,
    enemies: Seq<(GridPos, F32Bits)>,
    skill_ready: Seq<bool>,
) -> Seq<Intent> {
    if skill_ready.len() > 0 && skill_ready[0] && enemies.len() > 0 {
        let i = choose|i: int| is_closest(self_pos, enemies, i);
        if manhattan(self_pos, enemies[i].0) < 6 {
            seq![
                Intent {
                    action: CombatAction::UseSkill,
                    target_pos: Some(enemies[i].0),
                    priority: 70,
                    reason: "Skill ready, enemy in range"@,
                },
            ]
        } else {
            Seq::empty()
        }
    } else {
        Seq::empty()
    }
}

/// The outnumbered rule: with health below 0.5 and more enemies than allies
/// plus oneself, retreat, priority 60.
pub open spec fn outnumbered_part(hp: F32Bits, enemies: int, allies: int) -> Seq<Intent> {
    if enemies > allies + 1 && hp.below(F32Bits { bits: HALF_BITS }) {
        seq![retreat(60, "Outnumbered with low HP"@)]
    } else {
        Seq::empty()
    }
}

/// The intents the rules give, in the order of their priorities.
pub open spec fn combat_plan(
    self_pos: GridPos,
    hp: F32Bits,
    enemies: Seq<(GridPos, F32Bits)>,
    allies: Seq<GridPos>,
    skill_ready: Seq<bool>,
    in_tower_range: bool,
) -> Seq<Intent> {
    if hp.below(F32Bits { bits: FIFTH_BITS }) {
        seq![retreat(100, "HP critical, must retreat"@)]
    } else if in_tower_range && allies.len() == 0 {
        seq![retreat(90, "In enemy tower range without allies"@)]
    } else {
        let acts = attack_part(self_pos, enemies) + skill_part(self_pos, enemies, skill_ready)
            + outnumbered_part(hp, enemies.len() as int, allies.len() as int);
        if acts.len() == 0 {
            seq![
                Intent {
                    action: CombatAction::Wait,
                    target_pos: None,
                    priority: 10,
                    reason: "No immediate action needed"@,
                },
            ]
        } else {
            acts
        }
    }
}

fn decide(action: CombatAction, target_pos: Option<GridPos>, priority: i32, reason: &str) -> (d:
    CombatDecision)
    ensures
        d.intent() == (Intent { action, target_pos, priority: priority as int, reason: reason@ }),
{
    CombatDecision { action, target_pos, priority, reason: reason.to_owned() }
}

fn first_killable(self_pos: GridPos, enemies: &[(GridPos, F32Bits)]) -> (r: Option<usize>)
    ensures
        match r {
            Some(i) => is_first_killable(self_pos, enemies@, i as int),
            None => forall|i: int| !is_first_killable(self_pos, enemies@, i),
        },
{
    let limit = F32Bits { bits: THREE_TENTHS_BITS };
    let mut i: usize = 0;
    while i < enemies.len()
        invariant
            i <= enemies@.len(),
            limit.bits == THREE_TENTHS_BITS,
            forall|j: int| 0 <= j < i ==> !killable(self_pos, #[trigger] enemies@[j]),
        decreases enemies@.len() - i,
    {
        let e = enemies[i];
        if e.1.lt(&limit) && self_pos.manhattan_wide(&e.0) < 5 {
            return Some(i);
        }
        i = i + 1;
    }
    None
}

fn closest(self_pos: GridPos, enemies: &[(GridPos, F32Bits)]) -> (r: usize)
    requires
        enemies@.len() > 0,
    ensures
        is_closest(self_pos, enemies@, r as int),
{
    let mut best: usize = 0;
    let mut best_d: i64 = self_pos.manhattan_wide(&enemies[0].0);
    let mut i: usize = 1;
    while i < enemies.len()
        invariant
            1 <= i <= enemies@.len(),
            best < i,
            best_d == manhattan(self_pos, enemies@[best as int].0),
            forall|j: int|
                0 <= j < i ==> manhattan(self_pos, (#[trigger] enemies@[j]).0) >= best_d,
            forall|j: int|
                0 <= j < best ==> manhattan(self_pos, (#[trigger] enemies@[j]).0) > best_d,
        decreases enemies@.len() - i,
    {
        let d: i64 = self_pos.manhattan_wide(&enemies[i].0);
        if d < best_d {
            best_d = d;
            best = i;
        }
        i = i + 1;
    }
    best
}

/// The descending order of priorities.
pub open spec fn by_priority(plan: Seq<Intent>) -> bool {
    forall|i: int, j: int| 0 <= i < j < plan.len() ==> plan[i].priority >= plan[j].priority
}

/// The rules always give at least one intent, in descending order of
/// priority.
pub proof fn lemma_plan_ordered(
    self_pos: GridPos,
    hp: F32Bits,
    enemies: Seq<(GridPos, F32Bits)>,
    allies: Seq<GridPos>,
    skill_ready: Seq<bool>,
    in_tower_range: bool,
)
    ensures
        combat_plan(self_pos, hp, enemies, allies, skill_ready, in_tower_range).len() >= 1,
        by_priority(combat_plan(self_pos, hp, enemies, allies, skill_ready, in_tower_range)),
{
}

impl CombatEngine {
    /// Applies the rules to a snapshot of the fight. The first two rules
    /// stand alone: critical health gives a single retreat, and so does
    /// standing in tower range without allies. Otherwise the attack, skill
    /// and outnumbered rules each add their intent, and if none does the
    /// answer is to wait.
    pub fn analyze_combat(
        self_pos: GridPos,
        self_hp_percent: F32Bits,
        enemies: &[(GridPos, F32Bits)],
        allies: &[GridPos],
        skill_ready: &[bool],
        in_tower_range: bool,
    ) -> (out: Vec<CombatDecision>)
        ensures
            intents(out@) == combat_plan(
                self_pos,
                self_hp_percent,
                enemies@,
                allies@,
                skill_ready@,
                in_tower_range,
            ),
    {
        let mut out: Vec<CombatDecision> = Vec::new();
        if self_hp_percent.lt(&F32Bits { bits: FIFTH_BITS }) {
            out.push(decide(CombatAction::Retreat, None, 100, "HP critical, must retreat"));
            proof {
                assert(intents(out@) =~= seq![retreat(100, "HP critical, must retreat"@)]);
            }
            return out;
        }
        if in_tower_range && allies.len() == 0 {
            out.push(
                decide(CombatAction::Retreat, None, 90, "In enemy tower range without allies"),
            );
            proof {
                assert(intents(out@) =~= seq![
                    retreat(90, "In enemy tower range without allies"@),
                ]);
            }
            return out;
        }
        match first_killable(self_pos, enemies) {
            Some(i) => {
                out.push(
                    decide(CombatAction::Attack, Some(enemies[i].0), 80, "Low HP enemy nearby"),
                );
                proof {
                    let c = choose|c: int| is_first_killable(self_pos, enemies@, c);
                    assert(is_first_killable(self_pos, enemies@, i as int));
                    assert(c == i);
                }
            },
            None => {},
        }
        proof {
            assert(intents(out@) =~= attack_part(self_pos, enemies@));
        }
        if skill_ready.len() > 0 && skill_ready[0] && enemies.len() > 0 {
            let i = closest(self_pos, enemies);
            proof {
                let c = choose|c: int| is_closest(self_pos, enemies@, c);
                assert(is_closest(self_pos, enemies@, i as int));
                assert(c == i);
            }
            if self_pos.manhattan_wide(&enemies[i].0) < 6 {
                out.push(
                    decide(
                        CombatAction::UseSkill,
                        Some(enemies[i].0),
                        70,
                        "Skill ready, enemy in range",
                    ),
                );
            }
        }
        proof {
            assert(intents(out@) =~= attack_part(self_pos, enemies@) + skill_part(
                self_pos,
                enemies@,
                skill_ready@,
            ));
        }
        if enemies.len() > allies.len() && enemies.len() - allies.len() > 1
            && self_hp_percent.lt(&F32Bits { bits: HALF_BITS }) {
            out.push(decide(CombatAction::Retreat, None, 60, "Outnumbered with low HP"));
        }
        proof {
            assert(intents(out@) =~= attack_part(self_pos, enemies@) + skill_part(
                self_pos,
                enemies@,
                skill_ready@,
            ) + outnumbered_part(
                self_hp_percent,
                enemies@.len() as int,
                allies@.len() as int,
            ));
        }
        if out.len() == 0 {
            out.push(decide(CombatAction::Wait, None, 10, "No immediate action needed"));
            proof {
                assert(intents(out@) =~= seq![
                    Intent {
                        action: CombatAction::Wait,
                        target_pos: None,
                        priority: 10,
                        reason: "No immediate action needed"@,
                    },
                ]);
            }
        }
        out
    }
}


/// The four moves the kiting helper considers, in the order it tries them.
pub open spec fn kite_move(k: int) -> (int, int) {
    if k == 0 {
        (0, 1)
    } else if k == 1 {
        (0, -1)
    } else if k == 2 {
        (1, 0)
    } else {
        (-1, 0)
    }
}

/// Where move `k` leads from `p`.
pub open spec fn kite_target(p: GridPos, k: int) -> (int, int) {
    (p.x + kite_move(k).0, p.y + kite_move(k).1)
}

/// Move `k` leads to a free cell of the grid.
pub open spec fn kite_open(p: GridPos, blocked: Set<Cell>, w: int, h: int, k: int) -> bool {
    let t = kite_target(p, k);
    0 <= t.0 < w && 0 <= t.1 < h && !blocked.contains((t.0 as i32, t.1 as i32))
}

/// How far the distance to the target is from the attack range after move
/// `k`.
pub open spec fn kite_miss(p: GridPos, target: GridPos, range: int, k: int) -> int {
    let t = kite_target(p, k);
    gap(gap(t.0, target.x as int) + gap(t.1, target.y as int), range)
}

/// Move `k` is possible and misses the range by the least, and is the first
/// such move.
pub open spec fn is_best_kite(
    p: GridPos,
    target: GridPos,
    range: int,
    blocked: Set<Cell>,
    w: int,
    h: int,
    k: int,
) -> bool {
    &&& 0 <= k < 4
    &&& kite_open(p, blocked, w, h, k)
    &&& forall|j: int|
        0 <= j < 4 && #[trigger] kite_open(p, blocked, w, h, j) ==> kite_miss(p, target, range, j)
            >= kite_miss(p, target, range, k)
    &&& forall|j: int|
        0 <= j < k && #[trigger] kite_open(p, blocked, w, h, j) ==> kite_miss(p, target, range, j)
            > kite_miss(p, target, range, k)
}

impl CombatEngine {
    /// Where to stand to keep `target_pos` at `attack_range`: the current
    /// cell if the distance is right already, otherwise the neighbouring free
    /// cell that brings the distance closest to the range, and nothing when
    /// no neighbouring cell is free.
    pub fn calculate_kite_position(
        self_pos: GridPos,
        target_pos: GridPos,
        attack_range: i32,
        obstacles: &FxHashSet<Cell>,
        grid_width: i32,
        grid_height: i32,
    ) -> (out: Option<GridPos>)
        ensures
            manhattan(self_pos, target_pos) == attack_range ==> out == Some(self_pos),
            manhattan(self_pos, target_pos) != attack_range ==> match out {
                Some(p) => exists|k: int| #[trigger]
                    is_best_kite(
                        self_pos,
                        target_pos,
                        attack_range as int,
                        obstacles@,
                        grid_width as int,
                        grid_height as int,
                        k,
                    ) && (p.x as int, p.y as int) == kite_target(self_pos, k),
                None => forall|k: int|
                    0 <= k < 4 ==> !#[trigger] kite_open(
                        self_pos,
                        obstacles@,
                        grid_width as int,
                        grid_height as int,
                        k,
                    ),
            },
    {
        if self_pos.manhattan_wide(&target_pos) == attack_range as i64 {
            return Some(self_pos);
        }
        let ghost blocked = obstacles@;
        let ghost w = grid_width as int;
        let ghost h = grid_height as int;
        let ghost range = attack_range as int;
        let mut best: Option<GridPos> = None;
        let mut best_miss: i64 = 0;
        let ghost mut best_k: int = 0;
        let mut k: usize = 0;
        while k < 4
            invariant
                k <= 4,
                blocked == obstacles@,
                w == grid_width as int,
                h == grid_height as int,
                range == attack_range as int,
                best is None ==> forall|j: int|
                    0 <= j < k ==> !#[trigger] kite_open(self_pos, blocked, w, h, j),
                best matches Some(p) ==> {
                    &&& 0 <= best_k < k
                    &&& kite_open(self_pos, blocked, w, h, best_k)
                    &&& (p.x as int, p.y as int) == kite_target(self_pos, best_k)
                    &&& best_miss == kite_miss(self_pos, target_pos, range, best_k)
                    &&& forall|j: int|
                        0 <= j < k && #[trigger] kite_open(self_pos, blocked, w, h, j) ==> kite_miss(
                            self_pos,
                            target_pos,
                            range,
                            j,
                        ) >= best_miss
                    &&& forall|j: int|
                        0 <= j < best_k && #[trigger] kite_open(self_pos, blocked, w, h, j)
                            ==> kite_miss(self_pos, target_pos, range, j) > best_miss
                },
            decreases 4 - k,
        {
            let dx: i64 = if k == 2 {
                1
            } else if k == 3 {
                -1
            } else {
                0
            };
            let dy: i64 = if k == 0 {
                1
            } else if k == 1 {
                -1
            } else {
                0
            };
            let nx: i64 = self_pos.x as i64 + dx;
            let ny: i64 = self_pos.y as i64 + dy;
            assert((nx as int, ny as int) == kite_target(self_pos, k as int));
            if nx >= 0 && nx < grid_width as i64 && ny >= 0 && ny < grid_height as i64 {
                let cell: Cell = (nx as i32, ny as i32);
                if !cell_set_contains(obstacles, cell) {
                    let tx: i64 = target_pos.x as i64;
                    let ty: i64 = target_pos.y as i64;
                    let ddx: i64 = if nx >= tx {
                        nx - tx
                    } else {
                        tx - nx
                    };
                    let ddy: i64 = if ny >= ty {
                        ny - ty
                    } else {
                        ty - ny
                    };
                    let dist: i64 = ddx + ddy;
                    let r: i64 = attack_range as i64;
                    let miss: i64 = if dist >= r {
                        dist - r
                    } else {
                        r - dist
                    };
                    assert(miss == kite_miss(self_pos, target_pos, range, k as int));
                    let better = match best {
                        None => true,
                        Some(_) => miss < best_miss,
                    };
                    if better {
                        best = Some(GridPos { x: cell.0, y: cell.1 });
                        best_miss = miss;
                        proof {
                            best_k = k as int;
                        }
                    }
                }
            }
            k = k + 1;
        }
        proof {
            if best is Some {
                assert(is_best_kite(self_pos, target_pos, range, blocked, w, h, best_k));
            }
        }
        best
    }
}

} // verus!
