//! Trees, their life stages and the registry of the trees that stand in the
//! world.
//!
//! Coordinates and weights are single-precision numbers. They are held here as
//! their IEEE-754 bit patterns, which is all this crate needs of them: it
//! carries them to and from the wire and compares a coordinate with two fixed
//! bounds.

use vstd::prelude::*;
use crate::math::Vec2i;

verus! {

/// Number of grid columns.
pub const WORLD_W: usize = 28;

/// Number of grid rows.
pub const WORLD_H: usize = 28;

/// Milliseconds between two ticks unless the world is told otherwise.
pub const TICK_DURATION: u64 = 2000;

/// A growing tree's counter above which it enters the next stage.
pub const GROWTH_THRESHOLD: i32 = 1000;

/// An adult's age above which it dies.
pub const ADULT_LIFESPAN: i32 = 50;

/// Age from which an adult counts as old.
pub const OLD_AGE: i32 = 25;

/// Smallest step of a growing tree's counter in one tick.
pub const MIN_TICK_RATE: i32 = 100;

/// Largest step of a growing tree's counter in one tick.
pub const MAX_TICK_RATE: i32 = 300;

/// Bit pattern of 0.5.
pub const HALF_BITS: u32 = 0x3f00_0000;

/// Bit pattern of `WORLD_W - 0.5`.
pub const X_LIMIT_BITS: u32 = 0x41dc_0000;

/// Bit pattern of `WORLD_H - 0.5`.
pub const Y_LIMIT_BITS: u32 = 0x41dc_0000;

/// The species of a tree.
#[derive(PartialEq, Eq, Structural, Copy, Clone, Debug)]
pub enum Species {
    A,
    B,
    C,
}

impl Species {
    /// The species' wire byte.
    pub open spec fn byte(self) -> u8 {
        match self {
            Species::A => 0,
            Species::B => 1,
            Species::C => 2,
        }
    }

    /// The species whose wire byte is `b`, if there is one.
    pub open spec fn of_byte(b: u8) -> Option<Species> {
        if b == 0 {
            Some(Species::A)
        } else if b == 1 {
            Some(Species::B)
        } else if b == 2 {
            Some(Species::C)
        } else {
            None
        }
    }

    /// The species' wire byte.
    pub fn to_byte(self) -> (b: u8)
        ensures
            b == self.byte(),
    {
        match self {
            Species::A => 0,
            Species::B => 1,
            Species::C => 2,
        }
    }

    /// The species whose wire byte is `b`, if there is one.
    pub fn from_byte(b: u8) -> (s: Option<Species>)
        ensures
            s == Species::of_byte(b),
    {
        match b {
            0 => Some(Species::A),
            1 => Some(Species::B),
            2 => Some(Species::C),
            _ => None,
        }
    }

    /// A species survives the trip through its wire byte, and no other byte
    /// than the three in use names a species.
    pub proof fn lemma_byte_round_trip(s: Species, b: u8)
        ensures
            Species::of_byte(s.byte()) == Some(s),
            Species::of_byte(b) matches Some(t) ==> t.byte() == b,
            Species::of_byte(b) is Some <==> b <= 2,
    {
    }
}

/// The life stage of a tree, with the counter that drives it.
#[derive(PartialEq, Eq, Structural, Copy, Clone, Debug)]
pub enum Maturity {
    Seed(i32),
    Child(i32),
    Adult(i32),
    Dead,
}

impl Maturity {
    /// The stage number sent to clients: 0 seed, 1 child, 2 young adult,
    /// 3 old adult, 4 dead.
    pub open spec fn stage_of(self) -> u8 {
        match self {
            Maturity::Seed(_) => 0,
            Maturity::Child(_) => 1,
            Maturity::Adult(x) => if x < OLD_AGE {
                2
            } else {
                3
            },
            Maturity::Dead => 4,
        }
    }

    /// The youngest maturity of the stage numbered `stage`.
    pub open spec fn of_stage(stage: u8) -> Option<Maturity> {
        if stage == 0 {
            Some(Maturity::Seed(0))
        } else if stage == 1 {
            Some(Maturity::Child(0))
        } else if stage == 2 {
            Some(Maturity::Adult(0))
        } else if stage == 3 {
            Some(Maturity::Adult(OLD_AGE))
        } else if stage == 4 {
            Some(Maturity::Dead)
        } else {
            None
        }
    }

    /// The maturity one tick later, for a growing tree whose counter moves by
    /// `rate`.
    pub open spec fn after_tick(self, rate: int) -> Maturity {
        match self {
            Maturity::Dead => Maturity::Dead,
            Maturity::Adult(t) => if t > ADULT_LIFESPAN {
                Maturity::Dead
            } else {
                Maturity::Adult((t + 1) as i32)
            },
            Maturity::Child(t) => if t > GROWTH_THRESHOLD {
                Maturity::Adult(0)
            } else {
                Maturity::Child((t + rate) as i32)
            },
            Maturity::Seed(t) => if t > GROWTH_THRESHOLD {
                Maturity::Child(0)
            } else {
                Maturity::Seed((t + rate) as i32)
            },
        }
    }

    /// Counters stay within what ticks at admissible rates can reach.
    pub open spec fn wf(self) -> bool {
        match self {
            Maturity::Seed(t) => 0 <= t <= GROWTH_THRESHOLD + MAX_TICK_RATE,
            Maturity::Child(t) => 0 <= t <= GROWTH_THRESHOLD + MAX_TICK_RATE,
            Maturity::Adult(t) => 0 <= t <= ADULT_LIFESPAN + 1,
            Maturity::Dead => true,
        }
    }

    /// Whether this is the last stage.
    pub fn is_dead(self) -> (b: bool)
        ensures
            b == (self is Dead),
    {
        match self {
            Maturity::Dead => true,
            _ => false,
        }
    }

    /// Stage number of this maturity.
    pub fn stage(self) -> (s: u8)
        ensures
            s == self.stage_of(),
            s <= 4,
    {
        match self {
            Maturity::Seed(_) => 0,
            Maturity::Child(_) => 1,
            Maturity::Adult(x) => if x < OLD_AGE {
                2
            } else {
                3
            },
            Maturity::Dead => 4,
        }
    }

    /// The youngest maturity of a stage; `None` for a number that names no
    /// stage.
    pub fn from_stage(stage: u8) -> (m: Option<Maturity>)
        ensures
            m == Maturity::of_stage(stage),
    {
        match stage {
            0 => Some(Maturity::Seed(0)),
            1 => Some(Maturity::Child(0)),
            2 => Some(Maturity::Adult(0)),
            3 => Some(Maturity::Adult(OLD_AGE)),
            4 => Some(Maturity::Dead),
            _ => None,
        }
    }

    /// One tick: a growing tree's counter moves by `rate` and promotes once it
    /// has passed the threshold, an adult ages by one and dies past its
    /// lifespan, and the dead stay dead.
    pub fn advance(self, rate: i32) -> (m: Maturity)
        requires
            MIN_TICK_RATE <= rate <= MAX_TICK_RATE,
        ensures
            m == self.after_tick(rate as int),
            self.wf() ==> m.wf(),
    {
        match self {
            Maturity::Dead => Maturity::Dead,
            Maturity::Adult(t) => if t > ADULT_LIFESPAN {
                Maturity::Dead
            } else {
                Maturity::Adult(t + 1)
            },
            Maturity::Child(t) => if t > GROWTH_THRESHOLD {
                Maturity::Adult(0)
            } else {
                Maturity::Child(t + rate)
            },
            Maturity::Seed(t) => if t > GROWTH_THRESHOLD {
                Maturity::Child(0)
            } else {
                Maturity::Seed(t + rate)
            },
        }
    }

    /// Sending a maturity's stage and reading it back lands in the same stage:
    /// decoding picks a maturity whose stage number is the one that was sent.
    pub proof fn lemma_stage_round_trip(m: Maturity)
        ensures
            Maturity::of_stage(m.stage_of()) is Some,
            Maturity::of_stage(m.stage_of())->0.stage_of() == m.stage_of(),
            (Maturity::of_stage(m.stage_of())->0 is Seed) == (m is Seed),
            (Maturity::of_stage(m.stage_of())->0 is Child) == (m is Child),
            (Maturity::of_stage(m.stage_of())->0 is Adult) == (m is Adult),
            (Maturity::of_stage(m.stage_of())->0 is Dead) == (m is Dead),
    {
    }

    /// Only the five stage numbers decode, and each decodes to a maturity of
    /// that stage.
    pub proof fn lemma_stage_decode(stage: u8)
        ensures
            Maturity::of_stage(stage) is Some <==> stage <= 4,
            Maturity::of_stage(stage) matches Some(m) ==> m.stage_of() == stage && m.wf(),
    {
    }
}

/// A point of the world: the bit patterns of its two coordinates.
#[derive(PartialEq, Eq, Structural, Copy, Clone, Debug)]
pub struct Position {
    pub x: u32,
    pub y: u32,
}

/// Whether a bit pattern is a number at all.
pub open spec fn is_number(bits: u32) -> bool {
    bits & 0x7fff_ffff <= 0x7f80_0000
}

/// Whether the number with the bit pattern `bits` lies in
/// `-0.5 <= v < limit`, for a positive `limit` given by its bit pattern.
/// Among numbers of one sign the order of the magnitudes' bit patterns is the
/// order of the magnitudes.
pub open spec fn within_axis(bits: u32, limit_bits: u32) -> bool {
    &&& is_number(bits)
    &&& if bits & 0x8000_0000 != 0 {
        bits & 0x7fff_ffff <= HALF_BITS
    } else {
        bits < limit_bits
    }
}

impl Position {
    /// Whether the point lies on the grid: `-0.5 <= x < WORLD_W - 0.5` and
    /// `-0.5 <= y < WORLD_H - 0.5`.
    pub open spec fn in_bounds(self) -> bool {
        within_axis(self.x, X_LIMIT_BITS) && within_axis(self.y, Y_LIMIT_BITS)
    }

    /// The point whose coordinates have the given bit patterns.
    pub fn new(x: u32, y: u32) -> (p: Position)
        ensures
            p == (Position { x, y }),
    {
        Position { x, y }
    }

    /// Whether the point lies on the grid.
    pub fn is_in_bounds(&self) -> (b: bool)
        ensures
            b == self.in_bounds(),
    {
        axis_in_bounds(self.x, X_LIMIT_BITS) && axis_in_bounds(self.y, Y_LIMIT_BITS)
    }
}

fn axis_in_bounds(bits: u32, limit_bits: u32) -> (b: bool)
    ensures
        b == within_axis(bits, limit_bits),
{
    let magnitude = bits & 0x7fff_ffff;
    if magnitude > 0x7f80_0000 {
        false
    } else if bits & 0x8000_0000 != 0 {
        magnitude <= HALF_BITS
    } else {
        bits < limit_bits
    }
}

/// A tree of the world.
#[derive(PartialEq, Eq, Structural, Copy, Clone, Debug)]
pub struct Tree {
    pub species: Species,
    pub maturity: Maturity,
    pub pos: Position,
    pub id: u32,
}

impl Tree {
    /// A tree as it is planted.
    pub open spec fn seedling(species: Species, pos: Position, id: u32) -> Tree {
        Tree { species, maturity: Maturity::Seed(0), pos, id }
    }

    /// The tree one tick later.
    pub open spec fn after_tick(self, rate: int) -> Tree {
        Tree { maturity: self.maturity.after_tick(rate), ..self }
    }

    /// Bit pattern of the weight with which the tree counts towards
    /// diversity: 0.25 as a seed, 0.5 as a child, 0.6 as a young adult, 1.0 as
    /// an old adult, 0.0 when dead.
    pub open spec fn diversity_contribution_bits(self) -> u32 {
        match self.maturity {
            Maturity::Seed(_) => 0x3e80_0000,
            Maturity::Child(_) => 0x3f00_0000,
            Maturity::Adult(x) => if x < OLD_AGE {
                0x3f19_999a
            } else {
                0x3f80_0000
            },
            Maturity::Dead => 0,
        }
    }

    /// Bit pattern of the rate at which the tree takes energy from the land:
    /// 1.0 as a seed, 0.8 as a child, 0.4 as a young adult, -1.0 as an old
    /// adult, 0.0 when dead.
    pub open spec fn consumption_rate_bits(self) -> u32 {
        match self.maturity {
            Maturity::Seed(_) => 0x3f80_0000,
            Maturity::Child(_) => 0x3f4c_cccd,
            Maturity::Adult(x) => if x < OLD_AGE {
                0x3ecc_cccd
            } else {
                0xbf80_0000
            },
            Maturity::Dead => 0,
        }
    }

    /// Whether the tree is dead.
    pub fn is_dead(&self) -> (b: bool)
        ensures
            b == (self.maturity is Dead),
    {
        match self.maturity {
            Maturity::Dead => true,
            _ => false,
        }
    }

    /// Whether the tree is an adult.
    pub fn is_mature(&self) -> (b: bool)
        ensures
            b == (self.maturity is Adult),
    {
        match self.maturity {
            Maturity::Adult(_) => true,
            _ => false,
        }
    }

    /// Whether the tree is a seed or a child.
    pub fn is_growing(&self) -> (b: bool)
        ensures
            b == (self.maturity is Seed || self.maturity is Child),
    {
        match self.maturity {
            Maturity::Seed(_) => true,
            Maturity::Child(_) => true,
            _ => false,
        }
    }

    /// Bit pattern of the tree's weight towards diversity.
    pub fn get_diversity_contribution(&self) -> (bits: u32)
        ensures
            bits == self.diversity_contribution_bits(),
    {
        match self.maturity {
            Maturity::Seed(_) => 0x3e80_0000,
            Maturity::Child(_) => 0x3f00_0000,
            Maturity::Adult(x) => if x < OLD_AGE {
                0x3f19_999a
            } else {
                0x3f80_0000
            },
            Maturity::Dead => 0,
        }
    }

    /// Bit pattern of the tree's consumption rate.
    pub fn get_consumption_rate(&self) -> (bits: u32)
        ensures
            bits == self.consumption_rate_bits(),
    {
        match self.maturity {
            Maturity::Seed(_) => 0x3f80_0000,
            Maturity::Child(_) => 0x3f4c_cccd,
            Maturity::Adult(x) => if x < OLD_AGE {
                0x3ecc_cccd
            } else {
                0xbf80_0000
            },
            Maturity::Dead => 0,
        }
    }

    /// The stage number sent to clients.
    pub fn get_maturity_stage(&self) -> (stage: u8)
        ensures
            stage == self.maturity.stage_of(),
    {
        self.maturity.stage()
    }
}

/// The trees that are not dead, in their order.
pub open spec fn living(trees: Seq<Tree>) -> Seq<Tree>
    decreases trees.len(),
{
    if trees.len() == 0 {
        Seq::empty()
    } else if trees.last().maturity is Dead {
        living(trees.drop_last())
    } else {
        living(trees.drop_last()).push(trees.last())
    }
}

/// The ids of the dead trees, in their order.
pub open spec fn dead_ids(trees: Seq<Tree>) -> Seq<u32>
    decreases trees.len(),
{
    if trees.len() == 0 {
        Seq::empty()
    } else if trees.last().maturity is Dead {
        dead_ids(trees.drop_last()).push(trees.last().id)
    } else {
        dead_ids(trees.drop_last())
    }
}

/// Id and stage of each tree that is not dead, in their order.
pub open spec fn stages_of(trees: Seq<Tree>) -> Seq<(u32, u8)>
    decreases trees.len(),
{
    if trees.len() == 0 {
        Seq::empty()
    } else if trees.last().maturity is Dead {
        stages_of(trees.drop_last())
    } else {
        stages_of(trees.drop_last()).push((trees.last().id, trees.last().maturity.stage_of()))
    }
}

/// Id, place and species of each tree that is not dead, in their order.
pub open spec fn placements_of(trees: Seq<Tree>) -> Seq<(u32, Position, Species)>
    decreases trees.len(),
{
    if trees.len() == 0 {
        Seq::empty()
    } else if trees.last().maturity is Dead {
        placements_of(trees.drop_last())
    } else {
        placements_of(trees.drop_last()).push(
            (trees.last().id, trees.last().pos, trees.last().species),
        )
    }
}

/// The trees after one tick at the given rates, one rate for each tree.
pub open spec fn grown(trees: Seq<Tree>, rates: Seq<i32>) -> Seq<Tree> {
    Seq::new(trees.len(), |i: int| trees[i].after_tick(rates[i] as int))
}

/// Every rate is one that the land's health can give.
pub open spec fn rates_admissible(rates: Seq<i32>) -> bool {
    forall|i: int| 0 <= i < rates.len() ==> MIN_TICK_RATE <= #[trigger] rates[i] <= MAX_TICK_RATE
}

/// Every tree stands on the grid with a counter in range, ids grow along the
/// list, and none reaches `bound`.
pub open spec fn trees_wf(trees: Seq<Tree>, bound: u32) -> bool {
    &&& forall|i: int|
        0 <= i < trees.len() ==> (#[trigger] trees[i]).maturity.wf() && trees[i].pos.in_bounds()
            && trees[i].id < bound
    &&& forall|i: int, j: int| 0 <= i < j < trees.len() ==> trees[i].id < trees[j].id
}

/// `x` held to `0 ..= limit - 1`.
pub open spec fn clamp_to(x: int, limit: int) -> int {
    if x < 0 {
        0
    } else if x >= limit {
        limit - 1
    } else {
        x
    }
}

/// Whether a dead tree of the list has the id.
pub open spec fn is_dead_id(trees: Seq<Tree>, id: u32) -> bool {
    exists|i: int| 0 <= i < trees.len() && (#[trigger] trees[i]).maturity is Dead && trees[i].id == id
}

/// The trees that survive a harvest are a sub-list of the trees: none of
/// them is dead, each stood there before, and the rest keeps what made the
/// list well-formed. The ids that a harvest reports are ids of trees that
/// stood there and are gone.
pub proof fn lemma_harvest(trees: Seq<Tree>, bound: u32)
    ensures
        living(trees).len() <= trees.len(),
        forall|k: int|
            0 <= k < living(trees).len() ==> !((#[trigger] living(trees)[k]).maturity is Dead)
                && trees.contains(living(trees)[k]),
        forall|k: int|
            0 <= k < dead_ids(trees).len() ==> is_dead_id(trees, #[trigger] dead_ids(trees)[k]),
        trees_wf(trees, bound) ==> trees_wf(living(trees), bound),
    decreases trees.len(),
{
    if trees.len() > 0 {
        let front = trees.drop_last();
        let kept = living(front);
        let out = living(trees);
        lemma_harvest(front, bound);
        assert forall|k: int| 0 <= k < out.len() implies !((#[trigger] out[k]).maturity is Dead)
            && trees.contains(out[k]) by {
            if k < kept.len() {
                assert(front.contains(kept[k]));
                let i = choose|i: int| 0 <= i < front.len() && front[i] == kept[k];
                assert(trees[i] == kept[k]);
            } else {
                assert(trees[trees.len() - 1] == out[k]);
            }
        }
        assert forall|k: int| 0 <= k < dead_ids(trees).len() implies is_dead_id(
            trees,
            #[trigger] dead_ids(trees)[k],
        ) by {
            if k < dead_ids(front).len() {
                assert(is_dead_id(front, dead_ids(front)[k]));
                let i = choose|i: int|
                    0 <= i < front.len() && (#[trigger] front[i]).maturity is Dead && front[i].id
                        == dead_ids(front)[k];
                assert(trees[i] == front[i]);
            } else {
                assert(trees[trees.len() - 1].id == dead_ids(trees)[k]);
            }
        }
        if trees_wf(trees, bound) {
            assert(trees_wf(front, bound));
            assert forall|i: int, j: int| 0 <= i < j < out.len() implies out[i].id
                < out[j].id by {
                if j == kept.len() {
                    assert(front.contains(kept[i]));
                    let a = choose|a: int| 0 <= a < front.len() && front[a] == kept[i];
                    assert(trees[a].id < trees[trees.len() - 1].id);
                }
            }
            assert forall|i: int| 0 <= i < out.len() implies (#[trigger] out[i]).maturity.wf()
                && out[i].pos.in_bounds() && out[i].id < bound by {
                assert(trees.contains(out[i]));
                let a = choose|a: int| 0 <= a < trees.len() && trees[a] == out[i];
                assert(trees[a].maturity.wf());
            }
        }
    }
}

/// What a world holds of its trees: the trees that stand, the id that is
/// handed out next, and the ids of trees that died and were not reported yet.
pub struct Registry {
    pub trees: Seq<Tree>,
    pub next_tree_id: u32,
    pub dead_trees: Seq<u32>,
}

/// What happens to the trees of a world.
pub enum WorldEvent {
    /// A tree of a species is to be planted at a place that the caller found
    /// clear of other trees, or not.
    Plant(Species, Position, bool),
    /// A tick, with the rate for each tree.
    Tick(Seq<i32>),
    /// The dead list is read and emptied.
    ReportDead,
}

impl Registry {
    /// Well-formed as a world is.
    pub open spec fn wf(self) -> bool {
        &&& trees_wf(self.trees, self.next_tree_id)
        &&& forall|k: int|
            0 <= k < self.dead_trees.len() ==> (#[trigger] self.dead_trees[k]) < self.next_tree_id
        &&& forall|k: int, i: int|
            0 <= k < self.dead_trees.len() && 0 <= i < self.trees.len()
                ==> #[trigger] self.dead_trees[k] != (#[trigger] self.trees[i]).id
    }

    /// Whether a tree can be planted at `pos`.
    pub open spec fn can_plant(self, pos: Position, clear: bool) -> bool {
        pos.in_bounds() && clear && self.next_tree_id < u32::MAX
    }

    /// The registry once a tree was asked for.
    pub open spec fn planted(self, s: Species, pos: Position, clear: bool) -> Registry {
        if self.can_plant(pos, clear) {
            Registry {
                trees: self.trees.push(Tree::seedling(s, pos, self.next_tree_id)),
                next_tree_id: (self.next_tree_id + 1) as u32,
                dead_trees: self.dead_trees,
            }
        } else {
            self
        }
    }

    /// The registry once every tree's maturity has moved on.
    pub open spec fn matured(self, rates: Seq<i32>) -> Registry {
        Registry { trees: grown(self.trees, rates), ..self }
    }

    /// The registry once the dead trees have left.
    pub open spec fn harvested(self) -> Registry {
        Registry {
            trees: living(self.trees),
            dead_trees: self.dead_trees + dead_ids(self.trees),
            ..self
        }
    }

    /// The registry after an event.
    pub open spec fn after(self, event: WorldEvent) -> Registry {
        match event {
            WorldEvent::Plant(s, pos, clear) => self.planted(s, pos, clear),
            WorldEvent::Tick(rates) => self.matured(rates).harvested(),
            WorldEvent::ReportDead => Registry { dead_trees: Seq::empty(), ..self },
        }
    }

    /// Whether an event can happen: a tick needs an admissible rate for each
    /// tree.
    pub open spec fn admits(self, event: WorldEvent) -> bool {
        match event {
            WorldEvent::Tick(rates) => rates.len() == self.trees.len() && rates_admissible(rates),
            _ => true,
        }
    }

    /// The registry after a run of events.
    pub open spec fn after_all(self, events: Seq<WorldEvent>) -> Registry
        decreases events.len(),
    {
        if events.len() == 0 {
            self
        } else {
            self.after_all(events.drop_last()).after(events.last())
        }
    }

    /// Whether each event of a run can happen when its turn comes.
    pub open spec fn admits_all(self, events: Seq<WorldEvent>) -> bool
        decreases events.len(),
    {
        if events.len() == 0 {
            true
        } else {
            self.admits_all(events.drop_last()) && self.after_all(events.drop_last()).admits(
                events.last(),
            )
        }
    }

    /// An event keeps the registry well-formed and never takes back an id:
    /// the next id does not fall, and a tree that is planted gets an id that
    /// no tree, standing or dead, has had.
    pub proof fn lemma_event_keeps_wf(self, event: WorldEvent)
        requires
            self.wf(),
            self.admits(event),
        ensures
            self.after(event).wf(),
            self.after(event).next_tree_id >= self.next_tree_id,
            event matches WorldEvent::Plant(s, pos, clear) ==> (self.can_plant(pos, clear)
                ==> self.after(event).trees.last().id == self.next_tree_id),
    {
        match event {
            WorldEvent::Plant(s, pos, clear) => {
                if self.can_plant(pos, clear) {
                    let out = self.after(event);
                    assert forall|i: int| 0 <= i < out.trees.len() implies (
                    #[trigger] out.trees[i]).maturity.wf() && out.trees[i].pos.in_bounds()
                        && out.trees[i].id < out.next_tree_id by {
                        if i < self.trees.len() {
                            assert(self.trees[i].maturity.wf());
                        }
                    }
                    assert forall|k: int, i: int|
                        0 <= k < out.dead_trees.len() && 0 <= i < out.trees.len()
                            implies #[trigger] out.dead_trees[k] != (#[trigger] out.trees[i]).id by {
                        if i < self.trees.len() {
                            assert(self.dead_trees[k] != self.trees[i].id);
                        } else {
                            assert(self.dead_trees[k] < self.next_tree_id);
                        }
                    }
                }
            },
            WorldEvent::Tick(rates) => {
                self.lemma_matured_keeps_wf(rates);
                self.matured(rates).lemma_harvest_keeps_wf();
            },
            WorldEvent::ReportDead => {},
        }
    }

    /// A tick's first step keeps the registry well-formed.
    pub proof fn lemma_matured_keeps_wf(self, rates: Seq<i32>)
        requires
            self.wf(),
            rates.len() == self.trees.len(),
            rates_admissible(rates),
        ensures
            self.matured(rates).wf(),
    {
        let mid = self.matured(rates);
        assert forall|i: int| 0 <= i < mid.trees.len() implies (
        #[trigger] mid.trees[i]).maturity.wf() && mid.trees[i].pos.in_bounds() && mid.trees[i].id
            < mid.next_tree_id by {
            assert(self.trees[i].maturity.wf());
            assert(MIN_TICK_RATE <= rates[i] <= MAX_TICK_RATE);
        }
        assert forall|a: int, b: int| 0 <= a < b < mid.trees.len() implies mid.trees[a].id
            < mid.trees[b].id by {
            assert(self.trees[a].id < self.trees[b].id);
        }
        assert forall|k: int, i: int|
            0 <= k < mid.dead_trees.len() && 0 <= i < mid.trees.len()
                implies #[trigger] mid.dead_trees[k] != (#[trigger] mid.trees[i]).id by {
            assert(self.dead_trees[k] != self.trees[i].id);
        }
    }

    /// A harvest keeps the registry well-formed.
    pub proof fn lemma_harvest_keeps_wf(self)
        requires
            self.wf(),
        ensures
            self.harvested().wf(),
    {
        let before = self.trees;
        let out = living(before);
        let gone = dead_ids(before);
        let dead = self.harvested().dead_trees;
        lemma_harvest(before, self.next_tree_id);
        assert forall|k: int, j: int|
            0 <= k < dead.len() && 0 <= j < out.len() implies #[trigger] dead[k] != (
        #[trigger] out[j]).id by {
            assert(before.contains(out[j]));
            let a = choose|a: int| 0 <= a < before.len() && before[a] == out[j];
            if k < self.dead_trees.len() {
                assert(self.dead_trees[k] != before[a].id);
            } else {
                let d = k - self.dead_trees.len();
                assert(dead[k] == gone[d]);
                assert(is_dead_id(before, gone[d]));
                let b = choose|b: int|
                    0 <= b < before.len() && (#[trigger] before[b]).maturity is Dead
                        && before[b].id == gone[d];
                assert(a != b);
                if a < b {
                    assert(before[a].id < before[b].id);
                } else {
                    assert(before[b].id < before[a].id);
                }
            }
        }
        assert forall|k: int| 0 <= k < dead.len() implies (#[trigger] dead[k])
            < self.next_tree_id by {
            if k >= self.dead_trees.len() {
                let d = k - self.dead_trees.len();
                assert(dead[k] == gone[d]);
                assert(is_dead_id(before, gone[d]));
                let b = choose|b: int|
                    0 <= b < before.len() && (#[trigger] before[b]).maturity is Dead
                        && before[b].id == gone[d];
                assert(before[b].id < self.next_tree_id);
            } else {
                assert(dead[k] == self.dead_trees[k]);
            }
        }
    }

    /// Whatever happens, in whatever order, the registry stays well-formed
    /// and ids are never handed out twice: the next id never falls.
    pub proof fn lemma_events_keep_wf(self, events: Seq<WorldEvent>)
        requires
            self.wf(),
            self.admits_all(events),
        ensures
            self.after_all(events).wf(),
            self.after_all(events).next_tree_id >= self.next_tree_id,
        decreases events.len(),
    {
        if events.len() > 0 {
            self.lemma_events_keep_wf(events.drop_last());
            self.after_all(events.drop_last()).lemma_event_keeps_wf(events.last());
        }
    }
}

/// No tree stands near a tree that was planted before it, for a given
/// meaning of "near".
pub open spec fn spaced(trees: Seq<Tree>, near: spec_fn(Position, Position) -> bool) -> bool {
    forall|i: int, j: int|
        0 <= i < j < trees.len() ==> !near((#[trigger] trees[i]).pos, (#[trigger] trees[j]).pos)
}

impl Registry {
    /// Whether the caller's verdict on a place was right: a place that it
    /// called clear is near no tree that stands.
    pub open spec fn told_right(
        self,
        event: WorldEvent,
        near: spec_fn(Position, Position) -> bool,
    ) -> bool {
        match event {
            WorldEvent::Plant(_, pos, clear) => clear ==> forall|i: int|
                0 <= i < self.trees.len() ==> !near((#[trigger] self.trees[i]).pos, pos),
            _ => true,
        }
    }

    /// Whether the caller's verdicts were right all through a run of events.
    pub open spec fn told_right_all(
        self,
        events: Seq<WorldEvent>,
        near: spec_fn(Position, Position) -> bool,
    ) -> bool
        decreases events.len(),
    {
        if events.len() == 0 {
            true
        } else {
            self.told_right_all(events.drop_last(), near) && self.after_all(
                events.drop_last(),
            ).told_right(events.last(), near)
        }
    }

    /// As long as the caller's verdict was right, an event leaves no tree
    /// near another.
    pub proof fn lemma_event_keeps_spacing(
        self,
        event: WorldEvent,
        near: spec_fn(Position, Position) -> bool,
    )
        requires
            self.wf(),
            self.admits(event),
            spaced(self.trees, near),
            self.told_right(event, near),
        ensures
            spaced(self.after(event).trees, near),
    {
        let out = self.after(event).trees;
        match event {
            WorldEvent::Plant(s, pos, clear) => {
                if self.can_plant(pos, clear) {
                    assert forall|i: int, j: int| 0 <= i < j < out.len() implies !near(
                        (#[trigger] out[i]).pos,
                        (#[trigger] out[j]).pos,
                    ) by {
                        assert(out[i] == self.trees[i]);
                        if j < self.trees.len() {
                            assert(out[j] == self.trees[j]);
                        }
                    }
                }
            },
            WorldEvent::Tick(rates) => {
                let mid = self.matured(rates).trees;
                self.lemma_matured_keeps_wf(rates);
                lemma_harvest(mid, self.next_tree_id);
                assert forall|i: int, j: int| 0 <= i < j < out.len() implies !near(
                    (#[trigger] out[i]).pos,
                    (#[trigger] out[j]).pos,
                ) by {
                    assert(mid.contains(out[i]));
                    assert(mid.contains(out[j]));
                    let a = choose|a: int| 0 <= a < mid.len() && mid[a] == out[i];
                    let b = choose|b: int| 0 <= b < mid.len() && mid[b] == out[j];
                    assert(out[i].id < out[j].id);
                    if a >= b {
                        if a > b {
                            assert(mid[b].id < mid[a].id);
                        }
                    }
                    assert(a < b);
                    assert(mid[a].pos == self.trees[a].pos);
                    assert(mid[b].pos == self.trees[b].pos);
                }
            },
            WorldEvent::ReportDead => {},
        }
    }

    /// However trees are planted and however the world ticks, as long as
    /// every place that the caller called clear was near no standing tree, no
    /// two standing trees are near each other.
    pub proof fn lemma_events_keep_spacing(
        self,
        events: Seq<WorldEvent>,
        near: spec_fn(Position, Position) -> bool,
    )
        requires
            self.wf(),
            self.admits_all(events),
            spaced(self.trees, near),
            self.told_right_all(events, near),
        ensures
            spaced(self.after_all(events).trees, near),
        decreases events.len(),
    {
        if events.len() > 0 {
            let front = events.drop_last();
            self.lemma_events_keep_wf(front);
            self.lemma_events_keep_spacing(front, near);
            self.after_all(front).lemma_event_keeps_spacing(events.last(), near);
        }
    }
}

/// The trees of two worlds that start with the same registry and see the
/// same events are the same, with the same ids and maturities, whatever
/// their clocks say.
pub proof fn lemma_same_events_same_trees(a: World, b: World, events: Seq<WorldEvent>)
    requires
        a.registry() == b.registry(),
    ensures
        a.registry().after_all(events) == b.registry().after_all(events),
{
}

/// The tree registry of the world, with the clock of its ticks. Times are
/// in milliseconds on the caller's clock.
pub struct World {
    pub trees: Vec<Tree>,
    pub next_tree_id: u32,
    pub last_tick: u64,
    pub tick_period: u64,
    pub dead_trees: Vec<u32>,
}

impl World {
    /// What the world holds of its trees.
    pub open spec fn registry(&self) -> Registry {
        Registry {
            trees: self.trees@,
            next_tree_id: self.next_tree_id,
            dead_trees: self.dead_trees@,
        }
    }

    /// The trees are well-formed under the next id, and the ids in the dead
    /// list were handed out and belong to no tree that stands.
    pub open spec fn wf(&self) -> bool {
        &&& trees_wf(self.trees@, self.next_tree_id)
        &&& forall|k: int|
            0 <= k < self.dead_trees@.len() ==> (#[trigger] self.dead_trees@[k])
                < self.next_tree_id
        &&& forall|k: int, i: int|
            0 <= k < self.dead_trees@.len() && 0 <= i < self.trees@.len()
                ==> #[trigger] self.dead_trees@[k] != (#[trigger] self.trees@[i]).id
    }

    /// A world is well-formed exactly if its registry is.
    pub proof fn lemma_wf_is_registry_wf(&self)
        ensures
            self.wf() == self.registry().wf(),
    {
        let r = self.registry();
        if self.wf() {
            assert forall|k: int| 0 <= k < r.dead_trees.len() implies (#[trigger] r.dead_trees[k])
                < r.next_tree_id by {
                assert(self.dead_trees@[k] < self.next_tree_id);
            }
            assert forall|k: int, i: int|
                0 <= k < r.dead_trees.len() && 0 <= i < r.trees.len()
                    implies #[trigger] r.dead_trees[k] != (#[trigger] r.trees[i]).id by {
                assert(self.dead_trees@[k] != self.trees@[i].id);
            }
        }
        if r.wf() {
            assert forall|k: int| 0 <= k < self.dead_trees@.len() implies (
            #[trigger] self.dead_trees@[k]) < self.next_tree_id by {
                assert(r.dead_trees[k] < r.next_tree_id);
            }
            assert forall|k: int, i: int|
                0 <= k < self.dead_trees@.len() && 0 <= i < self.trees@.len()
                    implies #[trigger] self.dead_trees@[k] != (#[trigger] self.trees@[i]).id by {
                assert(r.dead_trees[k] != r.trees[i].id);
            }
        }
    }

    /// An empty world, made at time `now`, that ticks every `TICK_DURATION`.
    pub fn new(now: u64) -> (w: World)
        ensures
            w.wf(),
            w.trees@.len() == 0,
            w.dead_trees@.len() == 0,
            w.next_tree_id == 0,
            w.last_tick == now,
            w.tick_period == TICK_DURATION,
    {
        World::with_tick_period(now, TICK_DURATION)
    }

    /// An empty world, made at time `now`, that ticks every `tick_period`.
    pub fn with_tick_period(now: u64, tick_period: u64) -> (w: World)
        ensures
            w.wf(),
            w.trees@.len() == 0,
            w.dead_trees@.len() == 0,
            w.next_tree_id == 0,
            w.last_tick == now,
            w.tick_period == tick_period,
    {
        World {
            trees: Vec::new(),
            next_tree_id: 0,
            last_tick: now,
            tick_period,
            dead_trees: Vec::new(),
        }
    }

    /// Whether the world is well-formed. What the functions of this module
    /// make stays so; this is for a caller that has written to the fields.
    pub fn is_well_formed(&self) -> (ok: bool)
        ensures
            ok == self.wf(),
    {
        let mut i: usize = 0;
        while i < self.trees.len()
            invariant
                i <= self.trees@.len(),
                trees_wf(self.trees@.take(i as int), self.next_tree_id),
            decreases self.trees@.len() - i,
        {
            let t = self.trees[i];
            let counter_ok = match t.maturity {
                Maturity::Seed(c) => 0 <= c && c <= GROWTH_THRESHOLD + MAX_TICK_RATE,
                Maturity::Child(c) => 0 <= c && c <= GROWTH_THRESHOLD + MAX_TICK_RATE,
                Maturity::Adult(c) => 0 <= c && c <= ADULT_LIFESPAN + 1,
                Maturity::Dead => true,
            };
            let order_ok = t.id < self.next_tree_id && (i == 0 || self.trees[i - 1].id < t.id);
            if !(counter_ok && t.pos.is_in_bounds() && order_ok) {
                proof {
                    if !(counter_ok && t.pos.in_bounds()) {
                        assert(!(self.trees@[i as int].maturity.wf() && self.trees@[i as int].pos.in_bounds()));
                    }
                }
                return false;
            }
            proof {
                let part = self.trees@.take(i as int);
                let next = self.trees@.take(i + 1);
                assert forall|k: int| 0 <= k < next.len() implies (#[trigger] next[k]).maturity.wf()
                    && next[k].pos.in_bounds() && next[k].id < self.next_tree_id by {
                    if k < i {
                        assert(part[k].maturity.wf());
                    }
                }
                assert forall|a: int, b: int| 0 <= a < b < next.len() implies next[a].id
                    < next[b].id by {
                    if b < i {
                        assert(part[a].id < part[b].id);
                    } else if a < i - 1 {
                        assert(part[a].id < part[i - 1].id);
                    }
                }
            }
            i += 1;
        }
        assert(self.trees@.take(i as int) =~= self.trees@);
        let mut k: usize = 0;
        while k < self.dead_trees.len()
            invariant
                k <= self.dead_trees@.len(),
                forall|d: int| 0 <= d < k ==> (#[trigger] self.dead_trees@[d]) < self.next_tree_id,
                forall|d: int, j: int|
                    0 <= d < k && 0 <= j < self.trees@.len() ==> #[trigger] self.dead_trees@[d] != (
                    #[trigger] self.trees@[j]).id,
            decreases self.dead_trees@.len() - k,
        {
            let id = self.dead_trees[k];
            if id >= self.next_tree_id {
                return false;
            }
            let mut j: usize = 0;
            while j < self.trees.len()
                invariant
                    j <= self.trees@.len(),
                    k < self.dead_trees@.len(),
                    id == self.dead_trees@[k as int],
                    forall|a: int| 0 <= a < j ==> (#[trigger] self.trees@[a]).id != id,
                decreases self.trees@.len() - j,
            {
                if self.trees[j].id == id {
                    return false;
                }
                j += 1;
            }
            k += 1;
        }
        true
    }

    /// Plants a seed of species `s` at `pos` and returns its id. `clear`
    /// says that the caller found every tree that stands farther than the
    /// tree radius from `pos`. Nothing is planted off the grid, where the place
    /// is not clear, or once the ids have run out.
    pub fn place_tree(&mut self, s: Species, pos: Position, clear: bool) -> (res: Option<u32>)
        requires
            old(self).wf(),
        ensures
            final(self).wf(),
            res is Some <==> old(self).registry().can_plant(pos, clear),
            res matches Some(id) ==> id == old(self).next_tree_id,
            final(self).registry() == old(self).registry().after(WorldEvent::Plant(s, pos, clear)),
            final(self).last_tick == old(self).last_tick,
            final(self).tick_period == old(self).tick_period,
    {
        if !pos.is_in_bounds() || !clear || self.next_tree_id == u32::MAX {
            return None;
        }
        let id = self.next_tree_id;
        self.trees.push(Tree { species: s, maturity: Maturity::Seed(0), pos, id });
        self.next_tree_id += 1;
        Some(id)
    }

    /// Says whether a tick is due at time `now`: whether the tick period has
    /// passed since the last one. If it is, `now` is the time of the tick
    /// that the caller now runs.
    pub fn update(&mut self, now: u64) -> (due: bool)
        ensures
            due == (now - old(self).last_tick >= old(self).tick_period),
            final(self).last_tick == (if due {
                now
            } else {
                old(self).last_tick
            }),
            final(self).trees == old(self).trees,
            final(self).dead_trees == old(self).dead_trees,
            final(self).next_tree_id == old(self).next_tree_id,
            final(self).tick_period == old(self).tick_period,
    {
        if now < self.last_tick {
            return false;
        }
        if now - self.last_tick < self.tick_period {
            return false;
        }
        self.last_tick = now;
        true
    }

    /// First step of a tick: every tree's maturity moves on, a growing
    /// tree's counter by the rate that the caller worked out from the health
    /// of the land under it.
    pub fn advance_maturity(&mut self, rates: &[i32])
        requires
            old(self).wf(),
            rates@.len() == old(self).trees@.len(),
            rates_admissible(rates@),
        ensures
            final(self).wf(),
            final(self).registry() == old(self).registry().matured(rates@),
            final(self).last_tick == old(self).last_tick,
            final(self).tick_period == old(self).tick_period,
    {
        let ghost before = self.trees@;
        let mut i: usize = 0;
        while i < self.trees.len()
            invariant
                i <= before.len(),
                rates@.len() == before.len(),
                rates_admissible(rates@),
                self.trees@.len() == before.len(),
                trees_wf(before, self.next_tree_id),
                forall|j: int|
                    0 <= j < before.len() ==> self.trees@[j] == (if j < i {
                        before[j].after_tick(rates@[j] as int)
                    } else {
                        before[j]
                    }),
                self.dead_trees == old(self).dead_trees,
                self.next_tree_id == old(self).next_tree_id,
                self.last_tick == old(self).last_tick,
                self.tick_period == old(self).tick_period,
            decreases before.len() - i,
        {
            let mut tree = self.trees[i];
            tree.maturity = tree.maturity.advance(rates[i]);
            self.trees[i] = tree;
            i += 1;
        }
        assert(self.trees@ =~= grown(before, rates@));
        proof {
            old(self).lemma_wf_is_registry_wf();
            old(self).registry().lemma_matured_keeps_wf(rates@);
            self.lemma_wf_is_registry_wf();
        }
    }

    /// Last step of a tick: the ids of the dead trees go to the dead list,
    /// and the dead trees leave the world.
    pub fn harvest_dead(&mut self)
        requires
            old(self).wf(),
        ensures
            final(self).wf(),
            final(self).registry() == old(self).registry().harvested(),
            final(self).last_tick == old(self).last_tick,
            final(self).tick_period == old(self).tick_period,
    {
        let ghost before = self.trees@;
        let ghost dead_before = self.dead_trees@;
        let mut kept: Vec<Tree> = Vec::new();
        let mut i: usize = 0;
        assert(before.take(0) =~= Seq::<Tree>::empty());
        assert(self.dead_trees@ =~= dead_before + dead_ids(before.take(0)));
        while i < self.trees.len()
            invariant
                i <= before.len(),
                self.trees@ == before,
                kept@ == living(before.take(i as int)),
                self.dead_trees@ == dead_before + dead_ids(before.take(i as int)),
                self.next_tree_id == old(self).next_tree_id,
                self.last_tick == old(self).last_tick,
                self.tick_period == old(self).tick_period,
            decreases before.len() - i,
        {
            let tree = self.trees[i];
            let ghost part = before.take(i + 1);
            assert(part.last() == before[i as int]);
            assert(part.drop_last() =~= before.take(i as int));
            if tree.is_dead() {
                self.dead_trees.push(tree.id);
                assert(self.dead_trees@ =~= dead_before + dead_ids(part));
            } else {
                kept.push(tree);
            }
            i += 1;
        }
        assert(before.take(i as int) =~= before);
        self.trees = kept;
        proof {
            old(self).lemma_wf_is_registry_wf();
            old(self).registry().lemma_harvest_keeps_wf();
            self.lemma_wf_is_registry_wf();
        }
    }

    /// Empties the dead list and returns what it held.
    pub fn take_dead(&mut self) -> (ids: Vec<u32>)
        requires
            old(self).wf(),
        ensures
            final(self).wf(),
            ids@ == old(self).dead_trees@,
            final(self).registry() == old(self).registry().after(WorldEvent::ReportDead),
            final(self).trees == old(self).trees,
            final(self).last_tick == old(self).last_tick,
            final(self).tick_period == old(self).tick_period,
    {
        let mut ids: Vec<u32> = Vec::new();
        ids.append(&mut self.dead_trees);
        assert(ids@ =~= old(self).dead_trees@);
        assert(self.dead_trees@ =~= Seq::<u32>::empty());
        ids
    }

    /// Id and stage of each tree that is not dead.
    pub fn maturity_stages(&self) -> (stages: Vec<(u32, u8)>)
        ensures
            stages@ == stages_of(self.trees@),
    {
        let mut stages: Vec<(u32, u8)> = Vec::new();
        let mut i: usize = 0;
        assert(self.trees@.take(0) =~= Seq::<Tree>::empty());
        while i < self.trees.len()
            invariant
                i <= self.trees@.len(),
                stages@ == stages_of(self.trees@.take(i as int)),
            decreases self.trees@.len() - i,
        {
            let ghost part = self.trees@.take(i + 1);
            assert(part.last() == self.trees@[i as int]);
            assert(part.drop_last() =~= self.trees@.take(i as int));
            let tree = self.trees[i];
            if !tree.is_dead() {
                stages.push((tree.id, tree.get_maturity_stage()));
            }
            i += 1;
        }
        assert(self.trees@.take(i as int) =~= self.trees@);
        stages
    }

    /// Id, place and species of each tree that is not dead.
    pub fn placements(&self) -> (placed: Vec<(u32, Position, Species)>)
        ensures
            placed@ == placements_of(self.trees@),
    {
        let mut placed: Vec<(u32, Position, Species)> = Vec::new();
        let mut i: usize = 0;
        assert(self.trees@.take(0) =~= Seq::<Tree>::empty());
        while i < self.trees.len()
            invariant
                i <= self.trees@.len(),
                placed@ == placements_of(self.trees@.take(i as int)),
            decreases self.trees@.len() - i,
        {
            let ghost part = self.trees@.take(i + 1);
            assert(part.last() == self.trees@[i as int]);
            assert(part.drop_last() =~= self.trees@.take(i as int));
            let tree = self.trees[i];
            if !tree.is_dead() {
                placed.push((tree.id, tree.pos, tree.species));
            }
            i += 1;
        }
        assert(self.trees@.take(i as int) =~= self.trees@);
        placed
    }

    /// Index into a row-major grid of the cell nearest to `cell` that lies
    /// on the grid: coordinates beyond an edge are held to the edge.
    pub fn cell_index(cell: Vec2i) -> (idx: usize)
        ensures
            idx == clamp_to(cell.x as int, WORLD_W as int) + clamp_to(
                cell.y as int,
                WORLD_H as int,
            ) * WORLD_W,
            idx < WORLD_W * WORLD_H,
    {
        let x: usize = if cell.x < 0 {
            0
        } else if cell.x >= WORLD_W as i32 {
            WORLD_W - 1
        } else {
            cell.x as usize
        };
        let y: usize = if cell.y < 0 {
            0
        } else if cell.y >= WORLD_H as i32 {
            WORLD_H - 1
        } else {
            cell.y as usize
        };
        x + y * WORLD_W
    }
}

} // verus!
