//! Agents: position, heading, kind, and the movement and vision rules.
use vstd::prelude::*;
use crate::geometry::{
    bearing, lemma_square_bound, lemma_step_unit, normalize, normalized, rotate_heading, rotated, sees, sees_point,
    step, step_of, wrap, wrap_step, Heading, RAW_LIMIT, ROTATION_LIMIT, SCALING_FACTOR, TARGET_LIMIT, VISION_RANGE, HEADING_HALF,
};
use crate::grid::SpatialGrid;
use crate::random::random_in;

verus! {

/// Length of the forward part of a wander rotation vector.
pub const WANDER_BASE: i64 = 1024;

/// Largest sideways part of a wander rotation vector: `atan(559 / 1024)`
/// is just under half a radian.
pub const WANDER_TURN_LIMIT: i64 = 559;

/// Health of a new agent.
pub const INITIAL_HEALTH: i32 = 100;

/// The two kinds of agent: `TypeA` hunts, `TypeB` is hunted.
#[derive(Clone, Copy, PartialEq, Eq, Structural, Debug)]
pub enum AgentType {
    TypeA,
    TypeB,
}

/// One agent of the simulation.
#[derive(Clone, Copy, Debug)]
pub struct Agent {
    pub x: i32,
    pub y: i32,
    pub health: i32,
    pub agent_type: AgentType,
    pub direction: Heading,
}

/// The squared distance between two points at most `VISION_RANGE` apart.
fn near_dist2(ax: i32, ay: i32, bx: i32, by: i32) -> (r: i64)
    requires
        dist2(ax as int, ay as int, bx as int, by as int) <= VISION_RANGE * VISION_RANGE,
    ensures
        r == dist2(ax as int, ay as int, bx as int, by as int),
{
    let dx = bx as i64 - ax as i64;
    let dy = by as i64 - ay as i64;
    proof {
        lemma_square_bound(dx as int, dy as int);
        lemma_square_bound(dy as int, dx as int);
    }
    assert(0 <= dx * dx <= 3600) by (nonlinear_arith)
        requires
            -60 <= dx <= 60,
    ;
    assert(0 <= dy * dy <= 3600) by (nonlinear_arith)
        requires
            -60 <= dy <= 60,
    ;
    dx * dx + dy * dy
}

pub open spec fn dist2(ax: int, ay: int, bx: int, by: int) -> int {
    (bx - ax) * (bx - ax) + (by - ay) * (by - ay)
}

impl Agent {
    /// Inside a `width` by `height` world, with a valid heading.
    pub open spec fn wf(self, width: int, height: int) -> bool {
        &&& 0 <= self.x < width
        &&& 0 <= self.y < height
        &&& self.direction.wf()
    }

    /// The agent facing the direction of `(vx, vy)` (stored form).
    pub open spec fn facing(self, vx: int, vy: int) -> Agent {
        let b = bearing(vx, vy);
        let n = normalized(b.0, b.1);
        Agent { direction: Heading { dx: n.0 as i64, dy: n.1 as i64 }, ..self }
    }

    /// The agent turned by the direction of `(c, s)`.
    pub open spec fn turned(self, c: int, s: int) -> Agent {
        let v = rotated(self.direction.dx as int, self.direction.dy as int, c, s);
        let n = normalized(v.0, v.1);
        Agent { direction: Heading { dx: n.0 as i64, dy: n.1 as i64 }, ..self }
    }

    /// The agent one step forward, wrapped around the world's edges.
    pub open spec fn stepped(self, width: int, height: int) -> Agent {
        let d = step_of(self.direction);
        Agent {
            x: wrap(self.x + d.0, width) as i32,
            y: wrap(self.y + d.1, height) as i32,
            ..self
        }
    }

    /// The agent after a wander move with sideways turn `t`.
    pub open spec fn wandered(self, t: int, width: int, height: int) -> Agent {
        self.turned(WANDER_BASE as int, t).stepped(width, height)
    }

    /// The agent after turning from its rendered position towards the
    /// rendered point `(tx, ty)` and stepping forward.
    pub open spec fn moved_towards(self, tx: int, ty: int, width: int, height: int) -> Agent {
        self.facing(tx - self.x * SCALING_FACTOR, ty - self.y * SCALING_FACTOR).stepped(
            width,
            height,
        )
    }

    /// The agent after turning away from the rendered point `(tx, ty)` and
    /// stepping forward.
    pub open spec fn moved_away_from(self, tx: int, ty: int, width: int, height: int) -> Agent {
        self.facing(self.x * SCALING_FACTOR - tx, self.y * SCALING_FACTOR - ty).stepped(
            width,
            height,
        )
    }

    /// This agent sees `other`, and `other` is of kind `target`.
    pub open spec fn spots(self, other: Agent, target: AgentType) -> bool {
        &&& other.agent_type == target
        &&& sees(self.x as int, self.y as int, self.direction, other.x as int, other.y as int)
    }

    pub open spec fn dist2_to(self, other: Agent) -> int {
        dist2(self.x as int, self.y as int, other.x as int, other.y as int)
    }

    /// Among the candidate indices, the first of those spotted that is
    /// strictly nearer than every spotted candidate before it.
    pub open spec fn nearest_in(self, agents: Seq<Agent>, cands: Seq<usize>, target: AgentType) -> Option<usize>
        decreases cands.len(),
    {
        if cands.len() == 0 {
            None
        } else {
            let best = self.nearest_in(agents, cands.drop_last(), target);
            let c = cands.last();
            if self.spots(agents[c as int], target) && (match best {
                Some(b) => self.dist2_to(agents[c as int]) < self.dist2_to(agents[b as int]),
                None => true,
            }) {
                Some(c)
            } else {
                best
            }
        }
    }

    /// The pick of `nearest_in` is a spotted candidate no farther than any
    /// other spotted candidate; there is none exactly when no candidate is
    /// spotted.
    pub proof fn lemma_nearest_in_is_nearest(self, agents: Seq<Agent>, cands: Seq<usize>, target: AgentType)
        ensures
            match self.nearest_in(agents, cands, target) {
                Some(j) => {
                    &&& cands.contains(j)
                    &&& self.spots(agents[j as int], target)
                    &&& forall|k: int|
                        0 <= k < cands.len() && self.spots(#[trigger] agents[cands[k] as int], target)
                            ==> self.dist2_to(agents[j as int]) <= self.dist2_to(agents[cands[k] as int])
                },
                None => forall|k: int|
                    0 <= k < cands.len() ==> !self.spots(#[trigger] agents[cands[k] as int], target),
            },
        decreases cands.len(),
    {
        if cands.len() > 0 {
            let rest = cands.drop_last();
            self.lemma_nearest_in_is_nearest(agents, rest, target);
            let c = cands.last();
            assert forall|k: int| 0 <= k < rest.len() implies rest[k] == cands[k] by {}
            match self.nearest_in(agents, rest, target) {
                Some(b) => {
                    let k0 = choose|k0: int| 0 <= k0 < rest.len() && rest[k0] == b;
                    assert(cands[k0] == b);
                },
                None => {},
            }
            match self.nearest_in(agents, cands, target) {
                Some(j) => {
                    if j == c && self.spots(agents[c as int], target) {
                        assert(cands[cands.len() - 1] == j);
                    } else {
                        assert(self.nearest_in(agents, rest, target) == Some(j));
                    }
                    assert forall|k: int|
                        0 <= k < cands.len() && self.spots(#[trigger] agents[cands[k] as int], target)
                            implies self.dist2_to(agents[j as int]) <= self.dist2_to(agents[cands[k] as int]) by {
                        if k < rest.len() {
                            assert(rest[k] == cands[k]);
                        }
                    }
                },
                None => {
                    assert forall|k: int| 0 <= k < cands.len() implies !self.spots(#[trigger] agents[cands[k] as int], target) by {
                        if k < rest.len() {
                            assert(rest[k] == cands[k]);
                        }
                    }
                },
            }
        }
    }

    /// A new agent at `(x, y)` with full health, facing along the x axis.
    pub open spec fn new_spec(x: i32, y: i32, agent_type: AgentType) -> Agent {
        Agent {
            x,
            y,
            health: INITIAL_HEALTH,
            agent_type,
            direction: Heading { dx: HEADING_HALF, dy: 0 },
        }
    }

    /// A new agent at `(x, y)`, facing along the x axis.
    pub fn new(x: i32, y: i32, agent_type: AgentType) -> (r: Agent)
        ensures
            r == Agent::new_spec(x, y, agent_type),
            r.x == x,
            r.y == y,
            r.health == INITIAL_HEALTH,
            r.agent_type == agent_type,
            r.direction.wf(),
            r.direction.dx > 0 && r.direction.dy == 0,
    {
        Agent { x, y, health: INITIAL_HEALTH, agent_type, direction: Heading::east() }
    }

    /// Turns the heading by the direction of the rotation vector `(c, s)`.
    pub fn rotate(&mut self, c: i64, s: i64)
        requires
            old(self).direction.wf(),
            !(c == 0 && s == 0),
            -ROTATION_LIMIT <= c <= ROTATION_LIMIT,
            -ROTATION_LIMIT <= s <= ROTATION_LIMIT,
        ensures
            *final(self) == old(self).turned(c as int, s as int),
            final(self).direction.wf(),
    {
        self.direction = rotate_heading(self.direction, c, s);
    }

    /// Steps one cell along the heading, wrapping around the world's edges.
    pub fn move_forward(&mut self, max_x: i32, max_y: i32)
        requires
            old(self).wf(max_x as int, max_y as int),
        ensures
            *final(self) == old(self).stepped(max_x as int, max_y as int),
            final(self).wf(max_x as int, max_y as int),
    {
        let (dx, dy) = step(self.direction);
        self.x = wrap_step(self.x, dx, max_x);
        self.y = wrap_step(self.y, dy, max_y);
    }

    /// Whether `other` is within `VISION_RANGE` and inside the forward cone.
    pub fn can_see(&self, other: &Agent) -> (r: bool)
        requires
            self.direction.wf(),
        ensures
            r == sees(self.x as int, self.y as int, self.direction, other.x as int, other.y as int),
    {
        sees_point(self.x, self.y, self.direction, other.x, other.y)
    }

    /// A wander move: turn by `(WANDER_BASE, turn)`, then step forward.
    pub fn move_with_turn(&mut self, turn: i64, max_x: i32, max_y: i32)
        requires
            old(self).wf(max_x as int, max_y as int),
            -WANDER_TURN_LIMIT <= turn <= WANDER_TURN_LIMIT,
        ensures
            *final(self) == old(self).wandered(turn as int, max_x as int, max_y as int),
            final(self).wf(max_x as int, max_y as int),
            final(self).agent_type == old(self).agent_type,
            final(self).health == old(self).health,
            -1 <= step_of(final(self).direction).0 <= 1,
            -1 <= step_of(final(self).direction).1 <= 1,
            final(self).x == wrap(old(self).x + step_of(final(self).direction).0, max_x as int),
            final(self).y == wrap(old(self).y + step_of(final(self).direction).1, max_y as int),
    {
        proof {
            lemma_step_unit(old(self).turned(WANDER_BASE as int, turn as int).direction);
        }
        self.rotate(WANDER_BASE, turn);
        self.move_forward(max_x, max_y);
    }

    /// A wander move with a random turn: the sideways part `t` of the
    /// rotation vector `(WANDER_BASE, t)` is drawn uniformly from the
    /// integers in `[-WANDER_TURN_LIMIT, WANDER_TURN_LIMIT]`. The angle is
    /// then `atan(t / 1024)`, at most about 0.49993 radian either way, and
    /// uniform in its tangent rather than in the angle itself.
    pub fn move_randomly(&mut self, max_x: i32, max_y: i32)
        requires
            old(self).wf(max_x as int, max_y as int),
        ensures
            exists|t: int|
                -WANDER_TURN_LIMIT <= t <= WANDER_TURN_LIMIT && *final(self) == old(self).wandered(
                    t,
                    max_x as int,
                    max_y as int,
                ),
            final(self).wf(max_x as int, max_y as int),
            final(self).agent_type == old(self).agent_type,
            final(self).health == old(self).health,
            -1 <= step_of(final(self).direction).0 <= 1,
            -1 <= step_of(final(self).direction).1 <= 1,
            final(self).x == wrap(old(self).x + step_of(final(self).direction).0, max_x as int),
            final(self).y == wrap(old(self).y + step_of(final(self).direction).1, max_y as int),
    {
        let turn = random_in(-WANDER_TURN_LIMIT, WANDER_TURN_LIMIT);
        self.move_with_turn(turn, max_x, max_y);
    }

    /// Turns from the rendered position towards the rendered point
    /// `(target_x, target_y)` and steps forward.
    pub fn move_towards(&mut self, target_x: i64, target_y: i64, max_x: i32, max_y: i32)
        requires
            old(self).wf(max_x as int, max_y as int),
            -TARGET_LIMIT <= target_x <= TARGET_LIMIT,
            -TARGET_LIMIT <= target_y <= TARGET_LIMIT,
        ensures
            *final(self) == old(self).moved_towards(
                target_x as int,
                target_y as int,
                max_x as int,
                max_y as int,
            ),
            final(self).wf(max_x as int, max_y as int),
    {
        let vx = target_x - self.x as i64 * SCALING_FACTOR;
        let vy = target_y - self.y as i64 * SCALING_FACTOR;
        self.face(vx, vy);
        self.move_forward(max_x, max_y);
    }

    /// Turns away from the rendered point `(target_x, target_y)` and steps
    /// forward.
    pub fn move_away_from(&mut self, target_x: i64, target_y: i64, max_x: i32, max_y: i32)
        requires
            old(self).wf(max_x as int, max_y as int),
            -TARGET_LIMIT <= target_x <= TARGET_LIMIT,
            -TARGET_LIMIT <= target_y <= TARGET_LIMIT,
        ensures
            *final(self) == old(self).moved_away_from(
                target_x as int,
                target_y as int,
                max_x as int,
                max_y as int,
            ),
            final(self).wf(max_x as int, max_y as int),
    {
        let vx = self.x as i64 * SCALING_FACTOR - target_x;
        let vy = self.y as i64 * SCALING_FACTOR - target_y;
        self.face(vx, vy);
        self.move_forward(max_x, max_y);
    }

    fn face(&mut self, vx: i64, vy: i64)
        requires
            -RAW_LIMIT <= vx <= RAW_LIMIT,
            -RAW_LIMIT <= vy <= RAW_LIMIT,
        ensures
            *final(self) == old(self).facing(vx as int, vy as int),
            final(self).direction.wf(),
    {
        if vx == 0 && vy == 0 {
            self.direction = normalize(1, 0);
        } else {
            self.direction = normalize(vx, vy);
        }
    }

    /// The index of the nearest agent of kind `target_type` that this agent
    /// sees, among the neighbour candidates that `grid` gives for its
    /// position; ties go to the candidate met first.
    pub fn find_nearest_visible_agent(
        &self,
        agents: &Vec<Agent>,
        target_type: AgentType,
        grid: &SpatialGrid,
    ) -> (r: Option<usize>)
        requires
            self.direction.wf(),
            grid.wf(),
            grid.in_bounds(self.x as int, self.y as int),
            forall|i: int|
                0 <= i < grid.neighbors_of(self.x as int, self.y as int).len() ==> (#[trigger] grid.neighbors_of(self.x as int, self.y as int)[i]) < agents@.len(),
        ensures
            r == self.nearest_in(agents@, grid.neighbors_of(self.x as int, self.y as int), target_type),
            r matches Some(j) ==> j < agents@.len(),
            r matches Some(j) ==> self.spots(agents@[j as int], target_type),
            r matches Some(j) ==> forall|k: int|
                0 <= k < grid.neighbors_of(self.x as int, self.y as int).len() && self.spots(
                    #[trigger] agents@[grid.neighbors_of(self.x as int, self.y as int)[k] as int],
                    target_type,
                ) ==> self.dist2_to(agents@[j as int]) <= self.dist2_to(
                    agents@[grid.neighbors_of(self.x as int, self.y as int)[k] as int],
                ),
            r is None <==> forall|k: int|
                0 <= k < grid.neighbors_of(self.x as int, self.y as int).len() ==> !self.spots(
                    #[trigger] agents@[grid.neighbors_of(self.x as int, self.y as int)[k] as int],
                    target_type,
                ),
    {
        proof {
            self.lemma_nearest_in_is_nearest(agents@, grid.neighbors_of(self.x as int, self.y as int), target_type);
        }
        let cands = grid.get_neighbors(self.x, self.y);
        let mut best: Option<usize> = None;
        let mut best_dist: i64 = 0;
        let mut k: usize = 0;
        while k < cands.len()
            invariant
                k <= cands@.len(),
                cands@ == grid.neighbors_of(self.x as int, self.y as int),
                forall|i: int| 0 <= i < cands@.len() ==> (#[trigger] cands@[i]) < agents@.len(),
                self.direction.wf(),
                best == self.nearest_in(agents@, cands@.take(k as int), target_type),
                match best {
                    Some(b) => b < agents@.len() && best_dist == self.dist2_to(agents@[b as int]),
                    None => true,
                },
            decreases cands@.len() - k,
        {
            let c = cands[k];
            assert(cands@.take(k + 1).drop_last() =~= cands@.take(k as int));
            assert(cands@.take(k + 1).last() == c);
            let other = &agents[c];
            if other.agent_type == target_type && self.can_see(other) {
                let d = near_dist2(self.x, self.y, other.x, other.y);
                let closer = match best {
                    Some(_) => d < best_dist,
                    None => true,
                };
                if closer {
                    best = Some(c);
                    best_dist = d;
                }
            }
            k = k + 1;
        }
        assert(cands@.take(k as int) =~= cands@);
        best
    }
}

} // verus!
