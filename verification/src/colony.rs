use vstd::prelude::*;

use crate::config::{ANT_STUCK_THRESHOLD, FOOD_PER_SOURCE};

verus! {

/// What an ant is doing: looking for food, or carrying food back to the nest.
#[derive(Clone, Copy, Debug, PartialEq, Eq, Structural)]
pub enum AntState {
    Searching,
    Returning,
}

/// The two pheromone channels: `Home` trails lead to the nest, `Food` trails
/// lead to food.
#[derive(Clone, Copy, Debug, PartialEq, Eq, Structural)]
pub enum PheromoneKind {
    Home,
    Food,
}

/// Channel an ant in `state` follows.
pub open spec fn follows(state: AntState) -> PheromoneKind {
    match state {
        AntState::Searching => PheromoneKind::Food,
        AntState::Returning => PheromoneKind::Home,
    }
}

/// Channel an ant in `state` lays behind it.
pub open spec fn lays(state: AntState) -> PheromoneKind {
    match state {
        AntState::Searching => PheromoneKind::Home,
        AntState::Returning => PheromoneKind::Food,
    }
}

impl AntState {
    /// The pheromone channel this ant steers by: searching ants follow food
    /// trails, returning ants follow home trails.
    pub fn follow_kind(self) -> (kind: PheromoneKind)
        ensures
            kind == follows(self),
    {
        match self {
            AntState::Searching => PheromoneKind::Food,
            AntState::Returning => PheromoneKind::Home,
        }
    }

    /// The pheromone channel this ant deposits: searching ants mark the way
    /// home, returning ants mark the way to food.
    pub fn deposit_kind(self) -> (kind: PheromoneKind)
        ensures
            kind == lays(self),
    {
        match self {
            AntState::Searching => PheromoneKind::Home,
            AntState::Returning => PheromoneKind::Food,
        }
    }
}

/// The two channels pair the two states: an ant never follows the channel it
/// lays, and each state follows exactly the channel the other state lays.
pub proof fn lemma_trails_pair_states(state: AntState)
    ensures
        follows(state) != lays(state),
        follows(AntState::Searching) == lays(AntState::Returning),
        follows(AntState::Returning) == lays(AntState::Searching),
{
}

/// The stuck counter after one frame: a frame in which the ant's move was
/// blocked adds one; a free move clears it. On reaching
/// `ANT_STUCK_THRESHOLD` blocked frames the ant is to be moved to the nest,
/// and the counter starts again from zero. Gives the new count and whether
/// to move the ant.
pub open spec fn stuck_next(stuck_frames: int, blocked: bool) -> (int, bool) {
    if !blocked {
        (0, false)
    } else if stuck_frames + 1 >= ANT_STUCK_THRESHOLD {
        (0, true)
    } else {
        (stuck_frames + 1, false)
    }
}

/// One frame of stuck detection for an ant (see [`stuck_next`]).
pub fn stuck_step(stuck_frames: u8, blocked: bool) -> (out: (u8, bool))
    ensures
        (out.0 as int, out.1) == stuck_next(stuck_frames as int, blocked),
{
    if !blocked {
        (0, false)
    } else if stuck_frames >= ANT_STUCK_THRESHOLD - 1 {
        (0, true)
    } else {
        (stuck_frames + 1, false)
    }
}

/// Counter and move-to-nest decision after `k` blocked frames in a row,
/// starting from a count of `c`.
pub open spec fn stuck_run(c: int, k: nat) -> (int, bool)
    decreases k,
{
    if k == 0 {
        (c, false)
    } else {
        stuck_next(stuck_run(c, (k - 1) as nat).0, true)
    }
}

/// A freshly spawned ant (count zero) that stays blocked is moved to the
/// nest on exactly its `ANT_STUCK_THRESHOLD`-th blocked frame, not before;
/// and a count below the threshold stays below it after any frame.
pub proof fn lemma_stuck_ant_returns_after_threshold(k: nat, c: int, blocked: bool)
    requires
        0 <= c < ANT_STUCK_THRESHOLD,
    ensures
        k < ANT_STUCK_THRESHOLD ==> stuck_run(0, k) == (k as int, false),
        k == ANT_STUCK_THRESHOLD ==> stuck_run(0, k) == (0int, true),
        0 <= stuck_next(c, blocked).0 < ANT_STUCK_THRESHOLD,
    decreases k,
{
    if k > 0 {
        lemma_stuck_ant_returns_after_threshold((k - 1) as nat, c, blocked);
    }
}

/// A food source with its remaining units.
#[derive(Clone, Copy)]
pub struct Food {
    pub units: u32,
}

impl Food {
    /// A fresh food source holding `FOOD_PER_SOURCE` units.
    pub fn new() -> (food: Food)
        ensures
            food.units == FOOD_PER_SOURCE,
    {
        Food { units: FOOD_PER_SOURCE }
    }

    /// Take one unit; reports whether that was the last one. An empty source
    /// gives nothing and reports nothing.
    pub fn take_unit(&mut self) -> (depleted: bool)
        ensures
            old(self).units > 0 ==> final(self).units == old(self).units - 1 && depleted == (
            final(self).units == 0),
            old(self).units == 0 ==> final(self).units == 0 && !depleted,
    {
        if self.units > 0 {
            self.units = self.units - 1;
            self.units == 0
        } else {
            false
        }
    }
}

/// Total food brought back to the nest.
pub struct FoodScore {
    pub collected: u32,
}

impl FoodScore {
    /// A score of zero.
    pub fn new() -> (score: FoodScore)
        ensures
            score.collected == 0,
    {
        FoodScore { collected: 0 }
    }
}

/// Food source `k` lies within reach and still holds food.
pub open spec fn available(in_reach: Seq<bool>, foods: Seq<Food>, k: int) -> bool {
    0 <= k < in_reach.len() && k < foods.len() && in_reach[k] && foods[k].units > 0
}

/// Some food source within reach still holds food.
pub open spec fn any_available(in_reach: Seq<bool>, foods: Seq<Food>) -> bool {
    exists|k: int| #[trigger] available(in_reach, foods, k)
}

/// `k` is the first food source within reach that still holds food.
pub open spec fn first_available(in_reach: Seq<bool>, foods: Seq<Food>, k: int) -> bool {
    &&& available(in_reach, foods, k)
    &&& forall|j: int| 0 <= j < k ==> !available(in_reach, foods, j)
}

/// The food source an ant takes from (see [`first_available`]).
pub open spec fn pickup_index(in_reach: Seq<bool>, foods: Seq<Food>) -> int {
    choose|k: int| first_available(in_reach, foods, k)
}

/// There is at most one first available source.
pub proof fn lemma_first_available_unique(in_reach: Seq<bool>, foods: Seq<Food>, a: int, b: int)
    requires
        first_available(in_reach, foods, a),
        first_available(in_reach, foods, b),
    ensures
        a == b,
{
}

/// An ant touching food: only a searching ant picks up, from the first source
/// in reach that still holds food (`in_reach[k]` says whether food source `k`
/// lies within the interaction radius). Returns the ant's next state and the
/// source it takes a unit from.
pub fn food_contact(state: AntState, in_reach: &Vec<bool>, foods: &Vec<Food>) -> (outcome: (
    AntState,
    Option<usize>,
))
    requires
        in_reach@.len() == foods@.len(),
    ensures
        state == AntState::Searching && any_available(in_reach@, foods@) ==> (outcome.0
            == AntState::Returning && (outcome.1 matches Some(k) && first_available(
            in_reach@,
            foods@,
            k as int,
        ))),
        !(state == AntState::Searching && any_available(in_reach@, foods@)) ==> outcome == (
            state,
            None::<usize>,
        ),
{
    if let AntState::Returning = state {
        return (state, None);
    }
    let mut k: usize = 0;
    while k < in_reach.len()
        invariant
            state == AntState::Searching,
            in_reach@.len() == foods@.len(),
            k <= in_reach@.len(),
            forall|j: int| 0 <= j < k ==> !available(in_reach@, foods@, j),
        decreases in_reach@.len() - k,
    {
        if in_reach[k] && foods[k].units > 0 {
            assert(available(in_reach@, foods@, k as int));
            return (AntState::Returning, Some(k));
        }
        k = k + 1;
    }
    (state, None)
}

/// One frame of food pickups over the first `n` ants, in order: each
/// searching ant with food in reach turns to returning and takes one unit
/// from the first source in reach that still holds food. Gives the ants'
/// states, the food sources, and the sources emptied, in the order they ran out.
pub open spec fn food_round(
    ants: Seq<AntState>,
    in_reach: Seq<Vec<bool>>,
    foods: Seq<Food>,
    n: nat,
) -> (Seq<AntState>, Seq<Food>, Seq<usize>)
    decreases n,
{
    if n == 0 {
        (ants, foods, seq![])
    } else {
        let (s, f, d) = food_round(ants, in_reach, foods, (n - 1) as nat);
        let a = n - 1;
        if ants[a] == AntState::Searching && any_available(in_reach[a]@, f) {
            let k = pickup_index(in_reach[a]@, f);
            let f2 = f.update(k, Food { units: (f[k].units - 1) as u32 });
            (
                s.update(a, AntState::Returning),
                f2,
                if f2[k].units == 0 {
                    d.push(k as usize)
                } else {
                    d
                },
            )
        } else {
            (s, f, d)
        }
    }
}

/// Total units held by `foods`.
pub open spec fn food_total(foods: Seq<Food>) -> int
    decreases foods.len(),
{
    if foods.len() == 0 {
        0
    } else {
        food_total(foods.drop_last()) + foods.last().units
    }
}

/// Number of the first `n` ants that went from searching to returning.
pub open spec fn switched(before: Seq<AntState>, after: Seq<AntState>, n: nat) -> int
    decreases n,
{
    if n == 0 {
        0
    } else {
        switched(before, after, (n - 1) as nat) + if before[n - 1] == AntState::Searching
            && after[n - 1] == AntState::Returning {
            1int
        } else {
            0
        }
    }
}

/// Taking one unit from source `k` lowers the total by one.
proof fn lemma_food_total_take(foods: Seq<Food>, k: int)
    requires
        0 <= k < foods.len(),
        foods[k].units > 0,
    ensures
        food_total(foods.update(k, Food { units: (foods[k].units - 1) as u32 })) == food_total(
            foods,
        ) - 1,
    decreases foods.len(),
{
    let g = foods.update(k, Food { units: (foods[k].units - 1) as u32 });
    if k < foods.len() - 1 {
        lemma_food_total_take(foods.drop_last(), k);
        assert(g.drop_last() =~= foods.drop_last().update(
            k,
            Food { units: (foods[k].units - 1) as u32 },
        ));
    } else {
        assert(g.drop_last() =~= foods.drop_last());
    }
}

/// `switched` looks only at the first `n` entries.
proof fn lemma_switched_prefix(before: Seq<AntState>, a1: Seq<AntState>, a2: Seq<AntState>, n: nat)
    requires
        n <= a1.len(),
        n <= a2.len(),
        forall|a: int| 0 <= a < n ==> a1[a] == a2[a],
    ensures
        switched(before, a1, n) == switched(before, a2, n),
    decreases n,
{
    if n > 0 {
        lemma_switched_prefix(before, a1, a2, (n - 1) as nat);
    }
}

/// Food bookkeeping over a frame of pickups: the units taken equal the ants
/// that turned from searching to returning; every source that ran out in the
/// frame is listed once, and only those are; no source goes below zero or
/// gains food; ants not yet processed are untouched.
pub proof fn lemma_food_round_accounting(
    ants: Seq<AntState>,
    in_reach: Seq<Vec<bool>>,
    foods: Seq<Food>,
    n: nat,
)
    requires
        n <= ants.len(),
        in_reach.len() == ants.len(),
        foods.len() <= usize::MAX,
        forall|a: int| 0 <= a < in_reach.len() ==> (#[trigger] in_reach[a])@.len() == foods.len(),
    ensures
        ({
            let (s, f, d) = food_round(ants, in_reach, foods, n);
            &&& s.len() == ants.len()
            &&& f.len() == foods.len()
            &&& forall|a: int| n <= a < ants.len() ==> s[a] == ants[a]
            &&& food_total(foods) - food_total(f) == switched(ants, s, n)
            &&& d.no_duplicates()
            &&& forall|k: int|
                0 <= k < d.len() ==> d[k] < foods.len() && foods[d[k] as int].units > 0 && f[d[k] as int].units == 0
            &&& forall|x: int|
                0 <= x < foods.len() && foods[x].units > 0 && f[x].units == 0 ==> d.contains(
                    x as usize,
                )
            &&& forall|x: int| 0 <= x < foods.len() ==> f[x].units <= foods[x].units
        }),
    decreases n,
{
    if n > 0 {
        lemma_food_round_accounting(ants, in_reach, foods, (n - 1) as nat);
        let (s, f, d) = food_round(ants, in_reach, foods, (n - 1) as nat);
        let a = n - 1;
        if ants[a] == AntState::Searching && any_available(in_reach[a]@, f) {
            let w = choose|k: int| #[trigger] available(in_reach[a]@, f, k);
            lemma_exists_first_available(in_reach[a]@, f, w);
            let k = pickup_index(in_reach[a]@, f);
            assert(0 <= k < f.len() && f[k].units > 0);
            let f2 = f.update(k, Food { units: (f[k].units - 1) as u32 });
            let s2 = s.update(a, AntState::Returning);
            lemma_food_total_take(f, k);
            lemma_switched_prefix(ants, s, s2, (n - 1) as nat);
            let d2 = if f2[k].units == 0 {
                d.push(k as usize)
            } else {
                d
            };
            if f2[k].units == 0 {
                assert(!d.contains(k as usize)) by {
                    if d.contains(k as usize) {
                        let j = choose|j: int| 0 <= j < d.len() && d[j] == k as usize;
                        assert(d[j] as int == k);
                        assert(f[d[j] as int].units == 0);
                    }
                }
                assert forall|p: int, q: int| 0 <= p < d2.len() && 0 <= q < d2.len() && p != q implies d2[p]
                    != d2[q] by {
                    if p == d.len() {
                        assert(d2[q] == d[q]);
                    } else if q == d.len() {
                        assert(d2[p] == d[p]);
                    }
                }
                assert forall|x: int|
                    0 <= x < foods.len() && foods[x].units > 0 && f2[x].units == 0 implies d2.contains(
                    x as usize,
                ) by {
                    if x == k {
                        assert(d2[d.len() as int] == k as usize);
                    } else {
                        let j = choose|j: int| 0 <= j < d.len() && d[j] == x as usize;
                        assert(d2[j] == x as usize);
                    }
                }
                assert forall|j: int| 0 <= j < d2.len() implies d2[j] < foods.len() && foods[d2[j] as int].units > 0
                    && f2[d2[j] as int].units == 0 by {
                    if j < d.len() {
                        assert(d2[j] == d[j]);
                        assert(d[j] as int != k);
                    } else {
                        assert(d2[j] as int == k);
                        assert(f[k].units <= foods[k].units);
                    }
                }
            } else {
                assert forall|j: int| 0 <= j < d.len() implies d[j] < foods.len() && foods[d[j] as int].units > 0
                    && f2[d[j] as int].units == 0 by {
                    assert(d[j] as int != k);
                }
            }
        }
    }
}

/// When some source is available, a first available one exists.
proof fn lemma_exists_first_available(in_reach: Seq<bool>, foods: Seq<Food>, w: int)
    requires
        available(in_reach, foods, w),
    ensures
        first_available(in_reach, foods, pickup_index(in_reach, foods)),
    decreases w,
{
    if exists|j: int| 0 <= j < w && available(in_reach, foods, j) {
        let j = choose|j: int| 0 <= j < w && available(in_reach, foods, j);
        lemma_exists_first_available(in_reach, foods, j);
    } else {
        assert(first_available(in_reach, foods, w));
    }
}

/// One frame of ant–food contact: every ant in turn, as [`food_round`]
/// describes. `in_reach[a][k]` says whether food source `k` lies within the
/// interaction radius of ant `a`. Returns the ants' states, the food sources,
/// and the sources emptied this frame (each once), which are to be despawned
/// and given a respawn timer.
pub fn food_interactions(ants: Vec<AntState>, in_reach: &Vec<Vec<bool>>, foods: Vec<Food>) -> (out: (
    Vec<AntState>,
    Vec<Food>,
    Vec<usize>,
))
    requires
        in_reach@.len() == ants@.len(),
        forall|a: int| 0 <= a < in_reach@.len() ==> (#[trigger] in_reach@[a])@.len() == foods@.len(),
    ensures
        (out.0@, out.1@, out.2@) == food_round(ants@, in_reach@, foods@, ants@.len()),
{
    let ghost ants0 = ants@;
    let ghost foods0 = foods@;
    let mut states = ants;
    let mut stock = foods;
    let mut emptied: Vec<usize> = Vec::new();
    let mut i: usize = 0;
    let n_foods: usize = stock.len();
    assert(foods0.len() == n_foods);
    while i < states.len()
        invariant
            i <= states@.len(),
            states@.len() == ants0.len(),
            foods0.len() <= usize::MAX,
            in_reach@.len() == ants0.len(),
            forall|a: int| 0 <= a < in_reach@.len() ==> (#[trigger] in_reach@[a])@.len() == foods0.len(),
            (states@, stock@, emptied@) == food_round(ants0, in_reach@, foods0, i as nat),
        decreases ants0.len() - i,
    {
        proof {
            lemma_food_round_accounting(ants0, in_reach@, foods0, i as nat);
            lemma_food_round_accounting(ants0, in_reach@, foods0, (i + 1) as nat);
        }
        let (next, taken) = food_contact(states[i], &in_reach[i], &stock);
        match taken {
            Some(k) => {
                proof {
                    let w = k as int;
                    lemma_exists_first_available(in_reach@[i as int]@, stock@, w);
                    lemma_first_available_unique(
                        in_reach@[i as int]@,
                        stock@,
                        w,
                        pickup_index(in_reach@[i as int]@, stock@),
                    );
                }
                let mut f = stock[k];
                let depleted = f.take_unit();
                stock.set(k, f);
                states.set(i, next);
                if depleted {
                    emptied.push(k);
                }
                proof {
                    assert(stock@ =~= food_round(ants0, in_reach@, foods0, (i + 1) as nat).1);
                    assert(states@ =~= food_round(ants0, in_reach@, foods0, (i + 1) as nat).0);
                }
            },
            None => {},
        }
        i = i + 1;
    }
    (states, stock, emptied)
}

/// An ant at the nest: a returning ant within reach drops its food, which
/// counts one unit for the colony, and goes back to searching.
pub fn nest_contact(state: AntState, in_reach: bool, score: &mut FoodScore) -> (next: AntState)
    requires
        state == AntState::Returning && in_reach ==> old(score).collected < u32::MAX,
    ensures
        state == AntState::Returning && in_reach ==> next == AntState::Searching
            && final(score).collected == old(score).collected + 1,
        !(state == AntState::Returning && in_reach) ==> next == state && final(score).collected
            == old(score).collected,
{
    if in_reach && matches!(state, AntState::Returning) {
        score.collected = score.collected + 1;
        AntState::Searching
    } else {
        state
    }
}

/// Colony-level population tracker: ants alive, deaths so far, and dead ants
/// waiting to be replaced.
pub struct Colony {
    /// Currently alive ants.
    pub active: usize,
    /// Cumulative deaths since startup.
    pub total_died: usize,
    /// Ants queued for respawning.
    pub pending_respawn: usize,
}

/// The colony after one death.
pub open spec fn died(c: Colony) -> Colony {
    Colony {
        active: if c.active > 0 {
            (c.active - 1) as usize
        } else {
            0
        },
        total_died: (c.total_died + 1) as usize,
        pending_respawn: (c.pending_respawn + 1) as usize,
    }
}

/// How many ants a respawn tick with batch size `batch` brings back.
pub open spec fn respawn_count(c: Colony, batch: usize) -> usize {
    if batch < c.pending_respawn {
        batch
    } else {
        c.pending_respawn
    }
}

/// The colony after a respawn tick with batch size `batch`.
pub open spec fn respawned(c: Colony, batch: usize) -> Colony {
    Colony {
        active: (c.active + respawn_count(c, batch)) as usize,
        total_died: c.total_died,
        pending_respawn: (c.pending_respawn - respawn_count(c, batch)) as usize,
    }
}

/// Something that happens to the colony's population.
pub enum ColonyEvent {
    /// A live ant reaches the end of its lifetime.
    Death,
    /// A respawn tick with the given batch size.
    Respawn(usize),
}

/// The colony after `events`, in order.
pub open spec fn replay(c: Colony, events: Seq<ColonyEvent>) -> Colony
    decreases events.len(),
{
    if events.len() == 0 {
        c
    } else {
        let before = replay(c, events.drop_last());
        match events.last() {
            ColonyEvent::Death => died(before),
            ColonyEvent::Respawn(batch) => respawned(before, batch),
        }
    }
}

/// Every death in `events` is that of a live ant, and the death counter does
/// not overflow.
pub open spec fn deaths_of_live_ants(c: Colony, events: Seq<ColonyEvent>) -> bool {
    forall|k: int|
        0 <= k < events.len() && #[trigger] events[k] is Death ==> replay(c, events.take(k)).active
            > 0 && replay(c, events.take(k)).total_died < usize::MAX
}

impl Colony {
    /// Ants alive plus ants waiting to respawn.
    pub open spec fn population(&self) -> int {
        self.active + self.pending_respawn
    }

    /// A colony of `initial_count` live ants.
    pub fn new(initial_count: usize) -> (colony: Colony)
        ensures
            colony.active == initial_count,
            colony.total_died == 0,
            colony.pending_respawn == 0,
    {
        Colony { active: initial_count, total_died: 0, pending_respawn: 0 }
    }

    /// Record one ant's death: it leaves the live count and joins the respawn queue.
    pub fn record_death(&mut self)
        requires
            old(self).total_died < usize::MAX,
            old(self).pending_respawn < usize::MAX,
        ensures
            *final(self) == died(*old(self)),
            old(self).active > 0 ==> final(self).population() == old(self).population(),
    {
        self.active = self.active.saturating_sub(1);
        self.total_died = self.total_died + 1;
        self.pending_respawn = self.pending_respawn + 1;
    }

    /// Respawn up to `batch` queued ants; returns how many to spawn.
    pub fn respawn_batch(&mut self, batch: usize) -> (spawned: usize)
        requires
            old(self).active + respawn_count(*old(self), batch) <= usize::MAX,
        ensures
            spawned == respawn_count(*old(self), batch),
            *final(self) == respawned(*old(self), batch),
            final(self).population() == old(self).population(),
    {
        let to_spawn = if batch < self.pending_respawn {
            batch
        } else {
            self.pending_respawn
        };
        self.pending_respawn = self.pending_respawn - to_spawn;
        self.active = self.active + to_spawn;
        to_spawn
    }
}

/// The population is capped: from a colony of `n` live ants, any sequence of
/// deaths of live ants and respawn ticks keeps live plus queued ants at
/// exactly `n`, so no more than `n` ants are ever alive.
pub proof fn lemma_population_capped(n: usize, events: Seq<ColonyEvent>)
    requires
        deaths_of_live_ants(Colony { active: n, total_died: 0, pending_respawn: 0 }, events),
    ensures
        replay(Colony { active: n, total_died: 0, pending_respawn: 0 }, events).population() == n,
        replay(Colony { active: n, total_died: 0, pending_respawn: 0 }, events).active <= n,
    decreases events.len(),
{
    let c0 = Colony { active: n, total_died: 0, pending_respawn: 0 };
    if events.len() > 0 {
        let prefix = events.drop_last();
        assert forall|k: int|
            0 <= k < prefix.len() && #[trigger] prefix[k] is Death implies replay(
            c0,
            prefix.take(k),
        ).active > 0 && replay(c0, prefix.take(k)).total_died < usize::MAX by {
            assert(prefix.take(k) =~= events.take(k));
            assert(events[k] is Death);
        }
        lemma_population_capped(n, prefix);
        let k = events.len() - 1;
        assert(events.take(k) =~= prefix);
        if events.last() is Death {
            assert(events[k] is Death);
        }
    }
}

} // verus!
