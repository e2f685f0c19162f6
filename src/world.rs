//! The world: a toroidal grid of agents, and the tick that moves them.
//!
//! A tick rebuilds the spatial index from the agents' positions, decides
//! every agent's move against that snapshot, and only then removes the
//! agents that were caught.
use vstd::prelude::*;
use crate::agent::{Agent, AgentType, WANDER_BASE, WANDER_TURN_LIMIT};
use crate::geometry::{lemma_step_unit, step_of, wrap, SCALING_FACTOR, VISION_RANGE};
use crate::grid::{cell_count, SpatialGrid};
use crate::random::random_in;

verus! {

/// Why a world or an agent was refused.
#[derive(Clone, Copy, PartialEq, Eq, Structural, Debug)]
pub enum WorldError {
    /// A width or height below one.
    InvalidDimensions,
    /// More index cells than a `usize` can count.
    TooLarge,
    /// A position outside the world.
    OutOfBounds,
}

/// The agents of a simulation and the index over their positions.
pub struct World {
    pub width: i32,
    pub height: i32,
    pub agents: Vec<Agent>,
    pub grid: SpatialGrid,
}

/// The indices `i < n` whose agent lies in cell `c` of `grid`, ascending.
pub open spec fn members(agents: Seq<Agent>, grid: SpatialGrid, c: int, n: int) -> Seq<usize>
    decreases n,
{
    if n <= 0 {
        Seq::empty()
    } else {
        let prefix = members(agents, grid, c, n - 1);
        if grid.cell_of(agents[n - 1].x as int, agents[n - 1].y as int) == c {
            prefix.push((n - 1) as usize)
        } else {
            prefix
        }
    }
}

/// Each cell of `grid` lists, ascending, the indices of the agents in it.
pub open spec fn built_from(grid: SpatialGrid, agents: Seq<Agent>) -> bool {
    forall|c: int|
        0 <= c < grid.contents().len() ==> #[trigger] grid.contents()[c] == members(
            agents,
            grid,
            c,
            agents.len() as int,
        )
}

/// One agent's move in a tick, decided on the snapshot `agents` with the
/// index `grid`, and the prey it caught, if any.
pub open spec fn decide(
    agents: Seq<Agent>,
    grid: SpatialGrid,
    i: int,
    follow_target: Option<(i32, i32)>,
    turn: int,
    width: int,
    height: int,
) -> (Agent, Option<usize>) {
    let a = agents[i];
    match follow_target {
        Some(t) => (a.moved_towards(t.0 as int, t.1 as int, width, height), None),
        None => match a.agent_type {
            AgentType::TypeA => match a.nearest_in(
                agents,
                grid.neighbors_of(a.x as int, a.y as int),
                AgentType::TypeB,
            ) {
                Some(j) => {
                    let p = agents[j as int];
                    let m = a.moved_towards(
                        p.x * SCALING_FACTOR,
                        p.y * SCALING_FACTOR,
                        width,
                        height,
                    );
                    (m, if m.x == p.x && m.y == p.y { Some(j) } else { None })
                },
                None => (a.wandered(turn, width, height), None),
            },
            AgentType::TypeB => match a.nearest_in(
                agents,
                grid.neighbors_of(a.x as int, a.y as int),
                AgentType::TypeA,
            ) {
                Some(j) => {
                    let p = agents[j as int];
                    (
                        a.moved_away_from(p.x * SCALING_FACTOR, p.y * SCALING_FACTOR, width, height),
                        None,
                    )
                },
                None => (a.wandered(turn, width, height), None),
            },
        },
    }
}

/// Whether one of the first `m` agents caught agent `j`.
pub open spec fn caught_by_first(
    agents: Seq<Agent>,
    grid: SpatialGrid,
    follow_target: Option<(i32, i32)>,
    turns: Seq<i64>,
    width: int,
    height: int,
    m: int,
    j: int,
) -> bool
    decreases m,
{
    if m <= 0 {
        false
    } else {
        decide(agents, grid, m - 1, follow_target, turns[m - 1] as int, width, height).1 == Some(
            j as usize,
        ) || caught_by_first(agents, grid, follow_target, turns, width, height, m - 1, j)
    }
}

/// Every agent after its move, before any removal.
pub open spec fn moved_all(
    agents: Seq<Agent>,
    grid: SpatialGrid,
    follow_target: Option<(i32, i32)>,
    turns: Seq<i64>,
    width: int,
    height: int,
) -> Seq<Agent> {
    Seq::new(
        agents.len(),
        |i: int| decide(agents, grid, i, follow_target, turns[i] as int, width, height).0,
    )
}

/// For each agent, whether some agent caught it.
pub open spec fn caught_all(
    agents: Seq<Agent>,
    grid: SpatialGrid,
    follow_target: Option<(i32, i32)>,
    turns: Seq<i64>,
    width: int,
    height: int,
) -> Seq<bool> {
    Seq::new(
        agents.len(),
        |j: int|
            caught_by_first(
                agents,
                grid,
                follow_target,
                turns,
                width,
                height,
                agents.len() as int,
                j,
            ),
    )
}

/// The agents of `s` whose flag is off, in their order.
pub open spec fn survivors(s: Seq<Agent>, flags: Seq<bool>) -> Seq<Agent>
    decreases s.len(),
{
    if s.len() == 0 || flags.len() == 0 {
        Seq::empty()
    } else {
        let prefix = survivors(s.drop_last(), flags.drop_last());
        if flags.last() {
            prefix
        } else {
            prefix.push(s.last())
        }
    }
}

/// The agents after a tick on the snapshot `agents`.
pub open spec fn tick_result(
    agents: Seq<Agent>,
    grid: SpatialGrid,
    follow_target: Option<(i32, i32)>,
    turns: Seq<i64>,
    width: int,
    height: int,
) -> Seq<Agent> {
    survivors(
        moved_all(agents, grid, follow_target, turns, width, height),
        caught_all(agents, grid, follow_target, turns, width, height),
    )
}

/// Every turn lies within the wander bound.
pub open spec fn turns_valid(turns: Seq<i64>) -> bool {
    forall|i: int| 0 <= i < turns.len() ==> -WANDER_TURN_LIMIT <= #[trigger] turns[i] <= WANDER_TURN_LIMIT
}

impl World {
    pub open spec fn wf(self) -> bool {
        &&& 1 <= self.width
        &&& 1 <= self.height
        &&& self.grid.wf()
        &&& self.grid.width == self.width
        &&& self.grid.height == self.height
        &&& self.grid.cell_size == VISION_RANGE
        &&& forall|i: int|
            0 <= i < self.agents@.len() ==> (#[trigger] self.agents@[i]).wf(
                self.width as int,
                self.height as int,
            )
    }

    /// An empty world, when both dimensions are positive and within the
    /// machine's limits.
    pub fn new(width: i32, height: i32) -> (r: Result<World, WorldError>)
        ensures
            (width < 1 || height < 1) <==> r == Err::<World, WorldError>(
                WorldError::InvalidDimensions,
            ),
            (1 <= width && 1 <= height && cell_count(
                VISION_RANGE as int,
                width as int,
                height as int,
            ) > usize::MAX)
                <==> r == Err::<World, WorldError>(WorldError::TooLarge),
            r matches Ok(w) ==> w.wf() && w.width == width && w.height == height && w.agents@.len()
                == 0,
    {
        if width < 1 || height < 1 {
            return Err(WorldError::InvalidDimensions);
        }
        let cols = ((width - 1) as i64 / VISION_RANGE + 1) as u64;
        let rows = ((height - 1) as i64 / VISION_RANGE + 1) as u64;
        assert(cols <= 0x7fff_ffff && rows <= 0x7fff_ffff) by {
            vstd::arithmetic::div_mod::lemma_div_is_ordered_by_denominator(
                (width - 1) as int,
                1,
                VISION_RANGE as int,
            );
            vstd::arithmetic::div_mod::lemma_div_is_ordered_by_denominator(
                (height - 1) as int,
                1,
                VISION_RANGE as int,
            );
        }
        assert(cols * rows <= 0x7fff_ffff * 0x7fff_ffff) by (nonlinear_arith)
            requires
                cols <= 0x7fff_ffff,
                rows <= 0x7fff_ffff,
        ;
        if cols * rows > usize::MAX as u64 {
            return Err(WorldError::TooLarge);
        }
        Ok(World::with_size(width, height))
    }

    /// An empty world of valid dimensions.
    pub fn with_size(width: i32, height: i32) -> (r: World)
        requires
            1 <= width,
            1 <= height,
            cell_count(VISION_RANGE as int, width as int, height as int) <= usize::MAX,
        ensures
            r.wf(),
            r.width == width,
            r.height == height,
            r.agents@.len() == 0,
    {
        let grid = SpatialGrid::new(VISION_RANGE as i32, width, height);
        World { width, height, agents: Vec::new(), grid }
    }

    /// Adds `pairs` agents of each kind, new (full health, facing along the
    /// x axis) at random positions inside the world, alternating `TypeA`
    /// and `TypeB`.
    pub fn scatter(&mut self, pairs: usize)
        requires
            old(self).wf(),
        ensures
            final(self).wf(),
            final(self).width == old(self).width,
            final(self).height == old(self).height,
            final(self).agents@.len() == old(self).agents@.len() + 2 * pairs,
            final(self).agents@.subrange(0, old(self).agents@.len() as int) == old(self).agents@,
            forall|k: int|
                old(self).agents@.len() <= k < final(self).agents@.len() ==> (#[trigger] final(self).agents@[k]).agent_type
                    == if (k - old(self).agents@.len()) % 2 == 0 {
                    AgentType::TypeA
                } else {
                    AgentType::TypeB
                },
            forall|k: int|
                old(self).agents@.len() <= k < final(self).agents@.len() ==> {
                    let a = #[trigger] final(self).agents@[k];
                    &&& a == Agent::new_spec(a.x, a.y, a.agent_type)
                    &&& 0 <= a.x < old(self).width
                    &&& 0 <= a.y < old(self).height
                },
    {
        let ghost start = self.agents@;
        let mut p: usize = 0;
        while p < pairs
            invariant
                p <= pairs,
                self.wf(),
                self.width == old(self).width,
                self.height == old(self).height,
                start == old(self).agents@,
                self.agents@.len() == start.len() + 2 * p,
                self.agents@.subrange(0, start.len() as int) == start,
                forall|k: int|
                    start.len() <= k < self.agents@.len() ==> (#[trigger] self.agents@[k]).agent_type
                        == if (k - start.len()) % 2 == 0 {
                        AgentType::TypeA
                    } else {
                        AgentType::TypeB
                    },
                forall|k: int|
                    start.len() <= k < self.agents@.len() ==> {
                        let a = #[trigger] self.agents@[k];
                        &&& a == Agent::new_spec(a.x, a.y, a.agent_type)
                        &&& 0 <= a.x < self.width
                        &&& 0 <= a.y < self.height
                    },
            decreases pairs - p,
        {
            let ghost before = self.agents@;
            let ax = random_in(0, self.width as i64 - 1) as i32;
            let ay = random_in(0, self.height as i64 - 1) as i32;
            let bx = random_in(0, self.width as i64 - 1) as i32;
            let by = random_in(0, self.height as i64 - 1) as i32;
            self.agents.push(Agent::new(ax, ay, AgentType::TypeA));
            self.agents.push(Agent::new(bx, by, AgentType::TypeB));
            assert(self.agents@.subrange(0, start.len() as int) =~= before.subrange(0, start.len() as int));
            p = p + 1;
        }
    }

    /// Adds a new agent at `(x, y)`, when that lies inside the world.
    pub fn add_agent(&mut self, x: i32, y: i32, agent_type: AgentType) -> (r: Result<(), WorldError>)
        requires
            old(self).wf(),
        ensures
            final(self).wf(),
            final(self).width == old(self).width,
            final(self).height == old(self).height,
            (0 <= x < old(self).width && 0 <= y < old(self).height) <==> r.is_ok(),
            r.is_err() ==> r == Err::<(), WorldError>(WorldError::OutOfBounds) && final(self).agents@
                == old(self).agents@,
            r.is_ok() ==> final(self).agents@ == old(self).agents@.push(Agent::new_spec(x, y, agent_type)),
    {
        if x < 0 || x >= self.width || y < 0 || y >= self.height {
            return Err(WorldError::OutOfBounds);
        }
        let a = Agent::new(x, y, agent_type);
        self.agents.push(a);
        Ok(())
    }
}

/// What `members` lists is below `n`.
proof fn lemma_members_below(agents: Seq<Agent>, grid: SpatialGrid, c: int, n: int)
    ensures
        forall|i: int| 0 <= i < members(agents, grid, c, n).len() ==> #[trigger] members(agents, grid, c, n)[i] < n,
    decreases n,
{
    if n > 0 {
        lemma_members_below(agents, grid, c, n - 1);
        let p = members(agents, grid, c, n - 1);
        let m = members(agents, grid, c, n);
        assert forall|i: int| 0 <= i < m.len() implies #[trigger] m[i] < n by {
            if i < p.len() {
                assert(m[i] == p[i]);
            }
        }
    }
}

impl World {
    /// Empties the index and inserts every agent at its current position.
    pub fn rebuild_index(&mut self)
        requires
            old(self).wf(),
        ensures
            final(self).wf(),
            final(self).width == old(self).width,
            final(self).height == old(self).height,
            final(self).agents@ == old(self).agents@,
            final(self).grid.cols == old(self).grid.cols,
            final(self).grid.rows == old(self).grid.rows,
            built_from(final(self).grid, final(self).agents@),
    {
        self.grid.clear();
        let n = self.agents.len();
        let mut i: usize = 0;
        while i < n
            invariant
                i <= n,
                n == self.agents@.len(),
                self.wf(),
                self.width == old(self).width,
                self.height == old(self).height,
                self.agents@ == old(self).agents@,
                self.grid.cols == old(self).grid.cols,
                self.grid.rows == old(self).grid.rows,
                forall|c: int|
                    0 <= c < self.grid.contents().len() ==> #[trigger] self.grid.contents()[c]
                        == members(self.agents@, self.grid, c, i as int),
            decreases n - i,
        {
            let x = self.agents[i].x;
            let y = self.agents[i].y;
            let ghost before = self.grid;
            self.grid.insert(x, y, i);
            assert forall|c: int|
                0 <= c < self.grid.contents().len() implies #[trigger] self.grid.contents()[c]
                    == members(self.agents@, self.grid, c, i + 1) by {
                let cell = before.cell_of(x as int, y as int);
                assert(self.grid.cell_of(x as int, y as int) == cell);
                lemma_members_same_layout(self.agents@, before, self.grid, c, i as int);
                lemma_members_same_layout(self.agents@, before, self.grid, c, i + 1);
                assert(before.contents()[c] == members(self.agents@, before, c, i as int));
                assert(x == self.agents@[i as int].x && y == self.agents@[i as int].y);
                let upd = before.contents().update(cell, before.contents()[cell].push(i));
                assert(self.grid.contents() == upd);
                assert(0 <= c < before.contents().len());
                assert(self.agents@[i as int].wf(self.width as int, self.height as int));
                before.lemma_cell_in_range(x as int, y as int);
                if c == cell {
                    assert(self.grid.contents()[c] == before.contents()[c].push(i));
                } else {
                    assert(upd[c] == before.contents()[c]);
                }
            }
            i = i + 1;
        }
    }
}

/// `members` depends on a grid's layout only.
proof fn lemma_members_same_layout(agents: Seq<Agent>, g1: SpatialGrid, g2: SpatialGrid, c: int, n: int)
    requires
        g1.cell_size == g2.cell_size,
        g1.cols == g2.cols,
    ensures
        members(agents, g1, c, n) == members(agents, g2, c, n),
    decreases n,
{
    if n > 0 {
        lemma_members_same_layout(agents, g1, g2, c, n - 1);
    }
}

/// An index built from `agents` holds indices of `agents` only.
proof fn lemma_built_indices_below(grid: SpatialGrid, agents: Seq<Agent>)
    requires
        built_from(grid, agents),
    ensures
        grid.indices_below(agents.len() as int),
{
    assert forall|c: int, j: int|
        0 <= c < grid.contents().len() && 0 <= j < grid.contents()[c].len() implies #[trigger] grid.contents()[c][j]
            < agents.len() by {
        lemma_members_below(agents, grid, c, agents.len() as int);
    }
}

impl World {
    /// The move of agent `i` in a tick, decided on the current agents and
    /// index, and the prey it caught, if any.
    pub fn decide_agent(&self, i: usize, follow_target: Option<(i32, i32)>, turn: i64) -> (r: (
        Agent,
        Option<usize>,
    ))
        requires
            self.wf(),
            built_from(self.grid, self.agents@),
            i < self.agents@.len(),
            -WANDER_TURN_LIMIT <= turn <= WANDER_TURN_LIMIT,
        ensures
            r == decide(
                self.agents@,
                self.grid,
                i as int,
                follow_target,
                turn as int,
                self.width as int,
                self.height as int,
            ),
            r.0.wf(self.width as int, self.height as int),
            r.1 matches Some(j) ==> j < self.agents@.len(),
    {
        let mut a = self.agents[i];
        assert(a.wf(self.width as int, self.height as int));
        proof {
            lemma_built_indices_below(self.grid, self.agents@);
            self.grid.lemma_gathered_below(a.x as int, a.y as int, 9, self.agents@.len() as int);
        }
        match follow_target {
            Some((tx, ty)) => {
                a.move_towards(tx as i64, ty as i64, self.width, self.height);
                (a, None)
            },
            None => {
                match a.agent_type {
                    AgentType::TypeA => {
                        match a.find_nearest_visible_agent(&self.agents, AgentType::TypeB, &self.grid) {
                            Some(j) => {
                                let p = self.agents[j];
                                assert(p.wf(self.width as int, self.height as int));
                                let px = p.x as i64 * SCALING_FACTOR;
                                let py = p.y as i64 * SCALING_FACTOR;
                                a.move_towards(px, py, self.width, self.height);
                                if a.x == p.x && a.y == p.y {
                                    (a, Some(j))
                                } else {
                                    (a, None)
                                }
                            },
                            None => {
                                a.move_with_turn(turn, self.width, self.height);
                                (a, None)
                            },
                        }
                    },
                    AgentType::TypeB => {
                        match a.find_nearest_visible_agent(&self.agents, AgentType::TypeA, &self.grid) {
                            Some(j) => {
                                let p = self.agents[j];
                                assert(p.wf(self.width as int, self.height as int));
                                let px = p.x as i64 * SCALING_FACTOR;
                                let py = p.y as i64 * SCALING_FACTOR;
                                a.move_away_from(px, py, self.width, self.height);
                                (a, None)
                            },
                            None => {
                                a.move_with_turn(turn, self.width, self.height);
                                (a, None)
                            },
                        }
                    },
                }
            },
        }
    }
}

impl World {
    /// One tick with the given wander turns, one per agent: rebuild the
    /// index, decide every move on the pre-tick snapshot, then remove each
    /// caught agent once.
    pub fn update_with_turns(&mut self, follow_target: Option<(i32, i32)>, turns: &Vec<i64>)
        requires
            old(self).wf(),
            turns@.len() == old(self).agents@.len(),
            turns_valid(turns@),
        ensures
            final(self).wf(),
            final(self).width == old(self).width,
            final(self).height == old(self).height,
            built_from(final(self).grid, old(self).agents@),
            final(self).agents@ == tick_result(
                old(self).agents@,
                final(self).grid,
                follow_target,
                turns@,
                old(self).width as int,
                old(self).height as int,
            ),
            final(self).agents@.len() == old(self).agents@.len() - count_true(
                caught_all(
                    old(self).agents@,
                    final(self).grid,
                    follow_target,
                    turns@,
                    old(self).width as int,
                    old(self).height as int,
                ),
            ),
    {
        self.rebuild_index();
        let n = self.agents.len();
        let ghost w = self.width as int;
        let ghost h = self.height as int;
        let mut moved: Vec<Agent> = Vec::new();
        let mut caught: Vec<bool> = Vec::new();
        let mut j: usize = 0;
        while j < n
            invariant
                j <= n,
                caught@.len() == j,
                forall|k: int| 0 <= k < j ==> !(#[trigger] caught@[k]),
            decreases n - j,
        {
            caught.push(false);
            j = j + 1;
        }
        let mut i: usize = 0;
        while i < n
            invariant
                i <= n,
                n == self.agents@.len(),
                self.wf(),
                built_from(self.grid, self.agents@),
                self.agents@ == old(self).agents@,
                w == self.width,
                h == self.height,
                turns@.len() == n,
                turns_valid(turns@),
                caught@.len() == n,
                moved@.len() == i,
                forall|k: int|
                    0 <= k < i ==> #[trigger] moved@[k] == decide(
                        self.agents@,
                        self.grid,
                        k,
                        follow_target,
                        turns@[k] as int,
                        w,
                        h,
                    ).0,
                forall|k: int| 0 <= k < i ==> (#[trigger] moved@[k]).wf(w, h),
                forall|k: int|
                    0 <= k < n ==> #[trigger] caught@[k] == caught_by_first(
                        self.agents@,
                        self.grid,
                        follow_target,
                        turns@,
                        w,
                        h,
                        i as int,
                        k,
                    ),
            decreases n - i,
        {
            let turn = turns[i];
            assert(-WANDER_TURN_LIMIT <= turns@[i as int] <= WANDER_TURN_LIMIT);
            let (a, hit) = self.decide_agent(i, follow_target, turn);
            moved.push(a);
            match hit {
                Some(c) => {
                    caught.set(c, true);
                },
                None => {},
            }
            i = i + 1;
        }
        let ghost snapshot = self.agents@;
        let ghost flags = caught@;
        assert(moved@ =~= moved_all(snapshot, self.grid, follow_target, turns@, w, h));
        assert(flags =~= caught_all(snapshot, self.grid, follow_target, turns@, w, h));
        let mut kept: Vec<Agent> = Vec::new();
        let mut k: usize = 0;
        while k < n
            invariant
                k <= n,
                moved@.len() == n,
                caught@.len() == n,
                kept@ == survivors(moved@.take(k as int), caught@.take(k as int)),
                forall|m: int| 0 <= m < n ==> (#[trigger] moved@[m]).wf(w, h),
                forall|m: int| 0 <= m < kept@.len() ==> (#[trigger] kept@[m]).wf(w, h),
            decreases n - k,
        {
            assert(moved@.take(k + 1).drop_last() =~= moved@.take(k as int));
            assert(caught@.take(k + 1).drop_last() =~= caught@.take(k as int));
            assert(moved@.take(k + 1).last() == moved@[k as int]);
            assert(caught@.take(k + 1).last() == caught@[k as int]);
            if !caught[k] {
                kept.push(moved[k]);
            }
            k = k + 1;
        }
        assert(moved@.take(n as int) =~= moved@);
        assert(caught@.take(n as int) =~= caught@);
        proof {
            lemma_survivors_len(moved@, caught@);
        }
        self.agents = kept;
    }

    /// One tick: wandering agents turn by a random angle of at most half a
    /// radian. With `follow_target`, every agent heads for that rendered
    /// point instead.
    pub fn update(&mut self, follow_target: Option<(i32, i32)>)
        requires
            old(self).wf(),
        ensures
            final(self).wf(),
            final(self).width == old(self).width,
            final(self).height == old(self).height,
            built_from(final(self).grid, old(self).agents@),
            exists|turns: Seq<i64>|
                turns.len() == old(self).agents@.len() && turns_valid(turns) && #[trigger] final(self).agents@
                    == tick_result(
                    old(self).agents@,
                    final(self).grid,
                    follow_target,
                    turns,
                    old(self).width as int,
                    old(self).height as int,
                ),
    {
        let n = self.agents.len();
        let mut turns: Vec<i64> = Vec::new();
        let mut i: usize = 0;
        while i < n
            invariant
                i <= n,
                turns@.len() == i,
                turns_valid(turns@),
            decreases n - i,
        {
            let t = random_in(-WANDER_TURN_LIMIT, WANDER_TURN_LIMIT);
            turns.push(t);
            i = i + 1;
        }
        self.update_with_turns(follow_target, &turns);
    }
}

/// How many flags are on.
pub open spec fn count_true(flags: Seq<bool>) -> int
    decreases flags.len(),
{
    if flags.len() == 0 {
        0
    } else {
        count_true(flags.drop_last()) + if flags.last() { 1int } else { 0 }
    }
}

/// `s` with the flagged positions below `n` removed one at a time, from the
/// highest position down.
pub open spec fn remove_descending(s: Seq<Agent>, flags: Seq<bool>, n: int) -> Seq<Agent>
    decreases n,
{
    if n <= 0 {
        s
    } else if flags[n - 1] {
        remove_descending(s.remove(n - 1), flags, n - 1)
    } else {
        remove_descending(s, flags, n - 1)
    }
}

/// Removal count: however many agents caught the same prey, the tick
/// leaves exactly as many agents fewer as there are distinct caught ones.
pub proof fn lemma_survivors_len(s: Seq<Agent>, flags: Seq<bool>)
    requires
        s.len() == flags.len(),
    ensures
        survivors(s, flags).len() == s.len() - count_true(flags),
    decreases s.len(),
{
    if s.len() > 0 {
        lemma_survivors_len(s.drop_last(), flags.drop_last());
    }
}

/// Removing the caught agents one by one from the highest index down
/// removes exactly the caught ones and keeps the others in order.
pub proof fn lemma_remove_descending(s: Seq<Agent>, flags: Seq<bool>)
    requires
        s.len() == flags.len(),
    ensures
        remove_descending(s, flags, s.len() as int) == survivors(s, flags),
{
    lemma_remove_descending_prefix(s, flags, s.len() as int);
    assert(s.take(s.len() as int) =~= s);
    assert(flags.take(s.len() as int) =~= flags);
    assert(s.skip(s.len() as int) =~= Seq::<Agent>::empty());
    assert(survivors(s, flags) + Seq::<Agent>::empty() =~= survivors(s, flags));
}

proof fn lemma_remove_descending_prefix(s: Seq<Agent>, flags: Seq<bool>, n: int)
    requires
        0 <= n <= s.len(),
        s.len() == flags.len(),
    ensures
        remove_descending(s, flags, n) == survivors(s.take(n), flags.take(n)) + s.skip(n),
    decreases n,
{
    if n == 0 {
        assert(s.skip(0) =~= s);
        assert(survivors(s.take(0), flags.take(0)) =~= Seq::<Agent>::empty());
        assert(Seq::<Agent>::empty() + s =~= s);
    } else {
        assert(s.take(n).drop_last() =~= s.take(n - 1));
        assert(flags.take(n).drop_last() =~= flags.take(n - 1));
        let prefix = survivors(s.take(n - 1), flags.take(n - 1));
        if flags[n - 1] {
            let s1 = s.remove(n - 1);
            lemma_remove_descending_prefix(s1, flags.remove(n - 1), n - 1);
            lemma_remove_descending_same_flags(s1, flags, flags.remove(n - 1), n - 1);
            assert(s1.take(n - 1) =~= s.take(n - 1));
            assert(flags.remove(n - 1).take(n - 1) =~= flags.take(n - 1));
            assert(s1.skip(n - 1) =~= s.skip(n));
        } else {
            lemma_remove_descending_prefix(s, flags, n - 1);
            assert(s.skip(n - 1) =~= seq![s[n - 1]] + s.skip(n));
            assert(prefix + s.skip(n - 1) =~= prefix.push(s[n - 1]) + s.skip(n));
        }
    }
}

/// `remove_descending` below `n` reads the flags below `n` only.
proof fn lemma_remove_descending_same_flags(s: Seq<Agent>, f1: Seq<bool>, f2: Seq<bool>, n: int)
    requires
        0 <= n <= f1.len(),
        0 <= n <= f2.len(),
        forall|k: int| 0 <= k < n ==> f1[k] == f2[k],
    ensures
        remove_descending(s, f1, n) == remove_descending(s, f2, n),
    decreases n,
{
    if n > 0 {
        if f1[n - 1] {
            lemma_remove_descending_same_flags(s.remove(n - 1), f1, f2, n - 1);
        } else {
            lemma_remove_descending_same_flags(s, f1, f2, n - 1);
        }
    }
}

/// The members of a cell include every agent in it.
proof fn lemma_members_contains(agents: Seq<Agent>, grid: SpatialGrid, n: int, j: int)
    requires
        0 <= j < n <= agents.len(),
    ensures
        members(agents, grid, grid.cell_of(agents[j].x as int, agents[j].y as int), n).contains(
            j as usize,
        ),
    decreases n,
{
    let c = grid.cell_of(agents[j].x as int, agents[j].y as int);
    if j == n - 1 {
        let m = members(agents, grid, c, n);
        assert(m[m.len() - 1] == j as usize);
    } else {
        lemma_members_contains(agents, grid, n - 1, j);
        let p = members(agents, grid, c, n - 1);
        let k = choose|k: int| 0 <= k < p.len() && p[k] == j as usize;
        assert(members(agents, grid, c, n)[k] == j as usize);
    }
}

/// Neighbour completeness in a world: once the index is rebuilt, the
/// neighbour query at an agent's position returns every agent within
/// `VISION_RANGE` of it.
pub proof fn lemma_world_neighbors_complete(world: World, i: int, j: int)
    requires
        world.wf(),
        built_from(world.grid, world.agents@),
        0 <= i < world.agents@.len(),
        0 <= j < world.agents@.len(),
        world.agents@[i].dist2_to(world.agents@[j]) <= VISION_RANGE * VISION_RANGE,
    ensures
        world.grid.neighbors_of(world.agents@[i].x as int, world.agents@[i].y as int).contains(
            j as usize,
        ),
{
    let a = world.agents@[i];
    let b = world.agents@[j];
    assert(a.wf(world.width as int, world.height as int));
    assert(b.wf(world.width as int, world.height as int));
    world.grid.lemma_cell_in_range(b.x as int, b.y as int);
    lemma_members_contains(world.agents@, world.grid, world.agents@.len() as int, j);
    let c = world.grid.cell_of(b.x as int, b.y as int);
    assert(world.grid.contents()[c] == members(world.agents@, world.grid, c, world.agents@.len() as int));
    assert((a.x - b.x) * (a.x - b.x) == (b.x - a.x) * (b.x - a.x)) by (nonlinear_arith);
    assert((a.y - b.y) * (a.y - b.y) == (b.y - a.y) * (b.y - a.y)) by (nonlinear_arith);
    world.grid.lemma_neighbors_complete(a.x as int, a.y as int, b.x as int, b.y as int, j as usize);
}

/// No-target fallback: without a follow target, an agent that spots no
/// agent of the other kind among its neighbours wanders, and so ends at
/// most one cell away on each axis (across the wrap).
pub proof fn lemma_no_target_wanders(
    agents: Seq<Agent>,
    grid: SpatialGrid,
    i: int,
    turn: int,
    width: int,
    height: int,
)
    requires
        0 <= i < agents.len(),
        1 <= width <= i32::MAX,
        1 <= height <= i32::MAX,
        agents[i].wf(width, height),
        -WANDER_TURN_LIMIT <= turn <= WANDER_TURN_LIMIT,
        forall|k: int|
            0 <= k < grid.neighbors_of(agents[i].x as int, agents[i].y as int).len() ==> !agents[i].spots(
                #[trigger] agents[grid.neighbors_of(agents[i].x as int, agents[i].y as int)[k] as int],
                if agents[i].agent_type == AgentType::TypeA { AgentType::TypeB } else { AgentType::TypeA },
            ),
    ensures
        ({
            let m = decide(agents, grid, i, None, turn, width, height).0;
            &&& m == agents[i].wandered(turn, width, height)
            &&& -1 <= step_of(m.direction).0 <= 1
            &&& -1 <= step_of(m.direction).1 <= 1
            &&& m.x == wrap(agents[i].x + step_of(m.direction).0, width)
            &&& m.y == wrap(agents[i].y + step_of(m.direction).1, height)
        }),
{
    let a = agents[i];
    let cands = grid.neighbors_of(a.x as int, a.y as int);
    let target = if a.agent_type == AgentType::TypeA { AgentType::TypeB } else { AgentType::TypeA };
    a.lemma_nearest_in_is_nearest(agents, cands, target);
    if let Some(j) = a.nearest_in(agents, cands, target) {
        let k = choose|k: int| 0 <= k < cands.len() && cands[k] == j;
        assert(!a.spots(agents[cands[k] as int], target));
    }
    let t = a.turned(WANDER_BASE as int, turn);
    let d = step_of(t.direction);
    lemma_step_unit(t.direction);
    assert(-1 <= d.0 <= 1 && -1 <= d.1 <= 1);
    let m = t.stepped(width, height);
    assert(0 <= wrap(t.x + d.0, width) < width);
    assert(0 <= wrap(t.y + d.1, height) < height);
    assert(m.x == wrap(a.x + d.0, width));
    assert(m.y == wrap(a.y + d.1, height));
}

/// Flags off on `[k, m)` leave `remove_descending` unchanged from `k` to `m`.
proof fn lemma_remove_descending_skip(s: Seq<Agent>, flags: Seq<bool>, k: int, m: int)
    requires
        0 <= k <= m <= flags.len(),
        forall|j: int| k <= j < m ==> !flags[j],
    ensures
        remove_descending(s, flags, m) == remove_descending(s, flags, k),
    decreases m,
{
    if m > k {
        lemma_remove_descending_skip(s, flags, k, m - 1);
    }
}

/// With exactly one flag on, at `p`, the survivors are `s` without `p`.
pub proof fn lemma_survivors_one(s: Seq<Agent>, flags: Seq<bool>, p: int)
    requires
        s.len() == flags.len(),
        0 <= p < s.len(),
        flags[p],
        forall|j: int| 0 <= j < flags.len() && j != p ==> !flags[j],
    ensures
        survivors(s, flags) == s.remove(p),
{
    lemma_remove_descending(s, flags);
    lemma_remove_descending_skip(s, flags, p + 1, s.len() as int);
    lemma_remove_descending_skip(s.remove(p), flags, 0, p);
}

/// With exactly two flags on, at `a < b`, the survivors are `s` without
/// `b` and then without `a`.
pub proof fn lemma_survivors_two(s: Seq<Agent>, flags: Seq<bool>, a: int, b: int)
    requires
        s.len() == flags.len(),
        0 <= a < b < s.len(),
        flags[a],
        flags[b],
        forall|j: int| 0 <= j < flags.len() && j != a && j != b ==> !flags[j],
    ensures
        survivors(s, flags) == s.remove(b).remove(a),
{
    lemma_remove_descending(s, flags);
    lemma_remove_descending_skip(s, flags, b + 1, s.len() as int);
    lemma_remove_descending_skip(s.remove(b), flags, a + 1, b);
    lemma_remove_descending_skip(s.remove(b).remove(a), flags, 0, a);
}

/// With no flag on, every agent survives.
pub proof fn lemma_survivors_none(s: Seq<Agent>, flags: Seq<bool>)
    requires
        s.len() == flags.len(),
        forall|j: int| 0 <= j < flags.len() ==> !flags[j],
    ensures
        survivors(s, flags) == s,
{
    lemma_remove_descending(s, flags);
    lemma_remove_descending_skip(s, flags, 0, s.len() as int);
}

/// A catch by one of the first `m` agents is recorded, and only such.
proof fn lemma_caught_by_first(
    agents: Seq<Agent>,
    grid: SpatialGrid,
    follow_target: Option<(i32, i32)>,
    turns: Seq<i64>,
    width: int,
    height: int,
    m: int,
    j: int,
)
    ensures
        caught_by_first(agents, grid, follow_target, turns, width, height, m, j) <==> exists|i: int|
            0 <= i < m && #[trigger] decide(
                agents,
                grid,
                i,
                follow_target,
                turns[i] as int,
                width,
                height,
            ).1 == Some(j as usize),
    decreases m,
{
    if m > 0 {
        lemma_caught_by_first(agents, grid, follow_target, turns, width, height, m - 1, j);
        if decide(agents, grid, m - 1, follow_target, turns[m - 1] as int, width, height).1 == Some(
            j as usize,
        ) {
            assert(0 <= m - 1 < m);
        }
    }
}

/// Capture dedup: when the prey `p` is caught in a tick (by one predator
/// or several) and no other agent is, the tick leaves every other agent
/// after its move, in order, and one agent fewer.
pub proof fn lemma_tick_single_capture(
    agents: Seq<Agent>,
    grid: SpatialGrid,
    follow_target: Option<(i32, i32)>,
    turns: Seq<i64>,
    width: int,
    height: int,
    q: int,
    p: int,
)
    requires
        agents.len() <= usize::MAX,
        turns.len() == agents.len(),
        0 <= p < agents.len(),
        0 <= q < agents.len(),
        decide(agents, grid, q, follow_target, turns[q] as int, width, height).1 == Some(p as usize),
        forall|i: int|
            0 <= i < agents.len() ==> match #[trigger] decide(
                agents,
                grid,
                i,
                follow_target,
                turns[i] as int,
                width,
                height,
            ).1 {
                Some(j) => j == p,
                None => true,
            },
    ensures
        tick_result(agents, grid, follow_target, turns, width, height) == moved_all(
            agents,
            grid,
            follow_target,
            turns,
            width,
            height,
        ).remove(p),
        tick_result(agents, grid, follow_target, turns, width, height).len() == agents.len() - 1,
{
    let flags = caught_all(agents, grid, follow_target, turns, width, height);
    let n = agents.len() as int;
    lemma_caught_by_first(agents, grid, follow_target, turns, width, height, n, p);
    assert forall|j: int| 0 <= j < flags.len() && j != p implies !flags[j] by {
        lemma_caught_by_first(agents, grid, follow_target, turns, width, height, n, j);
        if flags[j] {
            let i = choose|i: int|
                0 <= i < n && #[trigger] decide(
                    agents,
                    grid,
                    i,
                    follow_target,
                    turns[i] as int,
                    width,
                    height,
                ).1 == Some(j as usize);
        }
    }
    lemma_survivors_one(moved_all(agents, grid, follow_target, turns, width, height), flags, p);
}

/// Removal order: when exactly the agents `a < b` are caught in a tick, the
/// survivors are the moved agents with `b` removed first and then `a`, so
/// neither removal shifts the other.
pub proof fn lemma_tick_two_captures(
    agents: Seq<Agent>,
    grid: SpatialGrid,
    follow_target: Option<(i32, i32)>,
    turns: Seq<i64>,
    width: int,
    height: int,
    qa: int,
    qb: int,
    a: int,
    b: int,
)
    requires
        agents.len() <= usize::MAX,
        turns.len() == agents.len(),
        0 <= a < b < agents.len(),
        0 <= qa < agents.len(),
        0 <= qb < agents.len(),
        decide(agents, grid, qa, follow_target, turns[qa] as int, width, height).1 == Some(a as usize),
        decide(agents, grid, qb, follow_target, turns[qb] as int, width, height).1 == Some(b as usize),
        forall|i: int|
            0 <= i < agents.len() ==> match #[trigger] decide(
                agents,
                grid,
                i,
                follow_target,
                turns[i] as int,
                width,
                height,
            ).1 {
                Some(j) => j == a || j == b,
                None => true,
            },
    ensures
        tick_result(agents, grid, follow_target, turns, width, height) == moved_all(
            agents,
            grid,
            follow_target,
            turns,
            width,
            height,
        ).remove(b).remove(a),
        tick_result(agents, grid, follow_target, turns, width, height).len() == agents.len() - 2,
{
    let flags = caught_all(agents, grid, follow_target, turns, width, height);
    let n = agents.len() as int;
    lemma_caught_by_first(agents, grid, follow_target, turns, width, height, n, a);
    lemma_caught_by_first(agents, grid, follow_target, turns, width, height, n, b);
    assert forall|j: int| 0 <= j < flags.len() && j != a && j != b implies !flags[j] by {
        lemma_caught_by_first(agents, grid, follow_target, turns, width, height, n, j);
        if flags[j] {
            let i = choose|i: int|
                0 <= i < n && #[trigger] decide(
                    agents,
                    grid,
                    i,
                    follow_target,
                    turns[i] as int,
                    width,
                    height,
                ).1 == Some(j as usize);
        }
    }
    lemma_survivors_two(moved_all(agents, grid, follow_target, turns, width, height), flags, a, b);
}

/// No-target fallback for a whole world: where all agents are of one kind,
/// a tick without a follow target removes nobody and moves every agent by
/// its wander turn.
pub proof fn lemma_tick_one_kind_wanders(
    agents: Seq<Agent>,
    grid: SpatialGrid,
    turns: Seq<i64>,
    width: int,
    height: int,
)
    requires
        1 <= width <= i32::MAX,
        1 <= height <= i32::MAX,
        grid.wf(),
        built_from(grid, agents),
        turns.len() == agents.len(),
        turns_valid(turns),
        forall|i: int| 0 <= i < agents.len() ==> (#[trigger] agents[i]).wf(width, height),
        forall|i: int| 0 <= i < agents.len() ==> (#[trigger] agents[i]).agent_type == agents[0].agent_type,
    ensures
        tick_result(agents, grid, None, turns, width, height) == Seq::new(
            agents.len(),
            |i: int| agents[i].wandered(turns[i] as int, width, height),
        ),
        forall|i: int|
            0 <= i < agents.len() ==> {
                let m = #[trigger] tick_result(agents, grid, None, turns, width, height)[i];
                &&& m.agent_type == agents[i].agent_type
                &&& m.health == agents[i].health
                &&& -1 <= step_of(m.direction).0 <= 1
                &&& -1 <= step_of(m.direction).1 <= 1
                &&& m.x == wrap(agents[i].x + step_of(m.direction).0, width)
                &&& m.y == wrap(agents[i].y + step_of(m.direction).1, height)
            },
{
    let n = agents.len() as int;
    lemma_built_indices_below(grid, agents);
    assert forall|i: int| 0 <= i < n implies #[trigger] decide(
        agents,
        grid,
        i,
        None,
        turns[i] as int,
        width,
        height,
    ) == (agents[i].wandered(turns[i] as int, width, height), None::<usize>) by {
        let a = agents[i];
        let cands = grid.neighbors_of(a.x as int, a.y as int);
        grid.lemma_gathered_below(a.x as int, a.y as int, 9, n);
        let target = if a.agent_type == AgentType::TypeA { AgentType::TypeB } else { AgentType::TypeA };
        assert(-WANDER_TURN_LIMIT <= turns[i] <= WANDER_TURN_LIMIT);
        assert forall|k: int| 0 <= k < cands.len() implies !a.spots(#[trigger] agents[cands[k] as int], target) by {
            assert(cands[k] < n);
            assert(agents[cands[k] as int].agent_type == agents[0].agent_type);
        }
        lemma_no_target_wanders(agents, grid, i, turns[i] as int, width, height);
        a.lemma_nearest_in_is_nearest(agents, cands, target);
        if let Some(j) = a.nearest_in(agents, cands, target) {
            let k = choose|k: int| 0 <= k < cands.len() && cands[k] == j;
            assert(!a.spots(agents[cands[k] as int], target));
        }
    }
    let flags = caught_all(agents, grid, None, turns, width, height);
    assert forall|j: int| 0 <= j < flags.len() implies !flags[j] by {
        lemma_caught_by_first(agents, grid, None, turns, width, height, n, j);
        if flags[j] {
            let i = choose|i: int|
                0 <= i < n && #[trigger] decide(agents, grid, i, None, turns[i] as int, width, height).1
                    == Some(j as usize);
        }
    }
    let moved = moved_all(agents, grid, None, turns, width, height);
    lemma_survivors_none(moved, flags);
    assert(moved =~= Seq::new(agents.len(), |i: int| agents[i].wandered(turns[i] as int, width, height)));
    assert forall|i: int| 0 <= i < agents.len() implies {
        let m = #[trigger] tick_result(agents, grid, None, turns, width, height)[i];
        &&& m.agent_type == agents[i].agent_type
        &&& m.health == agents[i].health
        &&& -1 <= step_of(m.direction).0 <= 1
        &&& -1 <= step_of(m.direction).1 <= 1
        &&& m.x == wrap(agents[i].x + step_of(m.direction).0, width)
        &&& m.y == wrap(agents[i].y + step_of(m.direction).1, height)
    } by {
        let a = agents[i];
        let t = a.turned(WANDER_BASE as int, turns[i] as int);
        lemma_step_unit(t.direction);
        assert(a.wf(width, height));
        let d = step_of(t.direction);
        assert(0 <= wrap(t.x + d.0, width) < width);
        assert(0 <= wrap(t.y + d.1, height) < height);
    }
}

/// A predator that lands on its prey's cell in a world of one predator and
/// one prey leaves the predator alone: the count drops from two to one.
pub proof fn lemma_tick_pair_capture(
    agents: Seq<Agent>,
    grid: SpatialGrid,
    turns: Seq<i64>,
    width: int,
    height: int,
)
    requires
        agents.len() == 2,
        turns.len() == 2,
        agents[0].agent_type == AgentType::TypeA,
        agents[1].agent_type == AgentType::TypeB,
        decide(agents, grid, 0, None, turns[0] as int, width, height).1 == Some(1usize),
    ensures
        tick_result(agents, grid, None, turns, width, height).len() == 1,
        tick_result(agents, grid, None, turns, width, height)[0] == decide(
            agents,
            grid,
            0,
            None,
            turns[0] as int,
            width,
            height,
        ).0,
        tick_result(agents, grid, None, turns, width, height)[0].agent_type == AgentType::TypeA,
{
    assert forall|i: int| 0 <= i < agents.len() implies match #[trigger] decide(
        agents,
        grid,
        i,
        None,
        turns[i] as int,
        width,
        height,
    ).1 {
        Some(j) => j == 1,
        None => true,
    } by {}
    lemma_tick_single_capture(agents, grid, None, turns, width, height, 0, 1);
    let moved = moved_all(agents, grid, None, turns, width, height);
    assert(moved.remove(1)[0] == moved[0]);
}

/// No visible target is missed: once the index is rebuilt, an agent that
/// sees some agent of kind `target` gets a nearest one from its neighbour
/// query.
pub proof fn lemma_visible_target_found(world: World, i: int, j: int, target: AgentType)
    requires
        world.wf(),
        built_from(world.grid, world.agents@),
        world.agents@.len() <= usize::MAX,
        0 <= i < world.agents@.len(),
        0 <= j < world.agents@.len(),
        world.agents@[i].spots(world.agents@[j], target),
    ensures
        world.agents@[i].nearest_in(
            world.agents@,
            world.grid.neighbors_of(world.agents@[i].x as int, world.agents@[i].y as int),
            target,
        ) is Some,
{
    let a = world.agents@[i];
    let cands = world.grid.neighbors_of(a.x as int, a.y as int);
    lemma_world_neighbors_complete(world, i, j);
    let k = choose|k: int| 0 <= k < cands.len() && cands[k] == j as usize;
    a.lemma_nearest_in_is_nearest(world.agents@, cands, target);
    assert(a.spots(world.agents@[cands[k] as int], target));
}

} // verus!
