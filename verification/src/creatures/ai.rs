//! Creature planning: goals, the tasks that carry them out, task deadlines,
//! and walking to or chasing a target along paths found by A*.
use vstd::prelude::*;
use std::collections::VecDeque;
use crate::grid::{GridPos, abs};
use crate::world::world_generation::WorldMap;
pub use crate::creatures::pathfinding::{
    adjacent, astar, heuristic, is_walk, many_promising, reachable, search_bounds, walk_cost, MAX_SEARCH_TILES,
};

verus! {

/// What a creature is trying to achieve.
#[derive(Clone, Copy, Debug, PartialEq, Eq, Structural)]
pub enum Goal {
    /// Locate a random location, go there.
    Wander,
    GatherIntel,
    /// Locate food, go to it, eat it.
    Feed,
    /// Locate prey, chase it, attack.
    Hunt,
    /// Remember the nest, go there, sleep.
    Sleep,
    /// Locate a suitable nest, go there, remember it.
    Nest,
    /// Collect food, go to the nest, stash it.
    Stash,
    /// Go to the nest, retrieve food, eat it.
    Retrieve,
    /// Locate a mate, go there, mate.
    Mate,
    /// Locate a target, follow it.
    Follow,
    /// Rush, then strike.
    Attack,
    /// Retreat and keep a distance.
    Evade,
}

/// One step of a goal.
#[derive(Clone, Copy, Debug, PartialEq, Eq, Structural)]
pub enum Task {
    LocateFood,
    LocatePrey,
    LocateProspectiveNest,
    LocateMate,
    LocateTarget,
    LocateRandom,
    LocateNest,
    RememberNest,
    GoTo,
    Eat,
    Sleep,
    CollectFood,
    StashFood,
    RetrieveFood,
    Mate,
    Attack,
    Chase,
    Rush,
    Strike,
    Retreat,
    MaintainDistance,
}

/// The tasks that make up a goal, in order.
pub open spec fn goal_tasks(goal: Goal) -> Seq<Task> {
    match goal {
        Goal::Wander => seq![Task::LocateRandom, Task::GoTo],
        Goal::GatherIntel => seq![Task::LocateFood, Task::LocateMate],
        Goal::Feed => seq![Task::LocateFood, Task::GoTo, Task::CollectFood, Task::Eat],
        Goal::Hunt => seq![Task::LocatePrey, Task::Chase, Task::Attack],
        Goal::Sleep => seq![Task::LocateNest, Task::GoTo, Task::Sleep],
        Goal::Nest => seq![Task::LocateProspectiveNest, Task::GoTo, Task::RememberNest],
        Goal::Stash => seq![Task::LocateNest, Task::GoTo, Task::StashFood],
        Goal::Retrieve => seq![Task::LocateNest, Task::GoTo, Task::RetrieveFood, Task::Eat],
        Goal::Mate => seq![Task::LocateMate, Task::GoTo, Task::Mate],
        Goal::Follow => seq![Task::LocateTarget, Task::Chase],
        Goal::Attack => seq![Task::Rush, Task::Strike],
        Goal::Evade => seq![Task::Retreat, Task::MaintainDistance],
    }
}

impl Goal {
    /// The tasks that make up this goal, in order.
    pub fn tasks_for_goal(self) -> (tasks: &'static [Task])
        ensures
            tasks@ == goal_tasks(self),
    {
        match self {
            Goal::Wander => &[Task::LocateRandom, Task::GoTo],
            Goal::GatherIntel => &[Task::LocateFood, Task::LocateMate],
            Goal::Feed => &[Task::LocateFood, Task::GoTo, Task::CollectFood, Task::Eat],
            Goal::Hunt => &[Task::LocatePrey, Task::Chase, Task::Attack],
            Goal::Sleep => &[Task::LocateNest, Task::GoTo, Task::Sleep],
            Goal::Nest => &[Task::LocateProspectiveNest, Task::GoTo, Task::RememberNest],
            Goal::Stash => &[Task::LocateNest, Task::GoTo, Task::StashFood],
            Goal::Retrieve => &[Task::LocateNest, Task::GoTo, Task::RetrieveFood, Task::Eat],
            Goal::Mate => &[Task::LocateMate, Task::GoTo, Task::Mate],
            Goal::Follow => &[Task::LocateTarget, Task::Chase],
            Goal::Attack => &[Task::Rush, Task::Strike],
            Goal::Evade => &[Task::Retreat, Task::MaintainDistance],
        }
    }
}

/// Every goal has at least two tasks, and at most four.
pub proof fn lemma_goals_have_tasks(goal: Goal)
    ensures
        2 <= goal_tasks(goal).len() <= 4,
{
}

/// A task that looks for something: food, prey, a nest, a mate, a target or
/// a random spot.
pub open spec fn is_locate(t: Task) -> bool {
    ||| t == Task::LocateFood
    ||| t == Task::LocatePrey
    ||| t == Task::LocateProspectiveNest
    ||| t == Task::LocateMate
    ||| t == Task::LocateTarget
    ||| t == Task::LocateRandom
    ||| t == Task::LocateNest
}

/// A task that moves the creature towards somewhere: walking, chasing or
/// rushing.
pub open spec fn is_travel(t: Task) -> bool {
    t == Task::GoTo || t == Task::Chase || t == Task::Rush
}

/// How the tasks of a goal are ordered: no task comes twice; walking or
/// chasing comes second, right after the task that located where to go, and
/// walking is followed by what is done on arrival (except when wandering,
/// where arriving is all); and a goal starts by locating something, unless
/// it is an attack (which starts with a rush) or an evasion (which starts by
/// retreating). So a creature that sleeps first finds its nest, then walks
/// there, then sleeps.
pub proof fn lemma_goal_task_order(goal: Goal)
    ensures
        goal_tasks(goal).no_duplicates(),
        forall|i: int|
            0 <= i < goal_tasks(goal).len() && (#[trigger] goal_tasks(goal)[i] == Task::GoTo || goal_tasks(goal)[i]
                == Task::Chase) ==> i == 1 && is_locate(goal_tasks(goal)[0]),
        forall|i: int|
            0 <= i < goal_tasks(goal).len() && #[trigger] goal_tasks(goal)[i] == Task::GoTo && goal != Goal::Wander ==> i
                + 1 < goal_tasks(goal).len() && !is_locate(goal_tasks(goal)[i + 1]) && !is_travel(goal_tasks(goal)[i + 1]),
        is_locate(goal_tasks(goal)[0]) || (goal == Goal::Attack && goal_tasks(goal)[0] == Task::Rush) || (goal
            == Goal::Evade && goal_tasks(goal)[0] == Task::Retreat),
{
    let ts = goal_tasks(goal);
    assert(ts.no_duplicates()) by {
        assert forall|a: int, b: int| 0 <= a < ts.len() && 0 <= b < ts.len() && a != b implies ts[a] != ts[b] by {
        }
    }
}

/// How long a task may run, in milliseconds of game time; `None` for no limit.
pub open spec fn task_time_limit(task: Task) -> Option<u64> {
    match task {
        Task::LocateFood => Some(4000),
        Task::LocatePrey => Some(4000),
        Task::LocateMate => Some(4000),
        Task::LocateProspectiveNest => Some(6000),
        Task::LocateTarget => Some(3000),
        Task::LocateNest => Some(5000),
        Task::LocateRandom => Some(500),
        Task::GoTo => Some(20000),
        Task::Chase => Some(10000),
        Task::Rush => Some(10000),
        Task::Sleep => Some(15000),
        Task::Eat => Some(5000),
        Task::CollectFood => Some(3000),
        Task::StashFood => Some(3000),
        Task::RetrieveFood => Some(3000),
        Task::Mate => Some(5000),
        Task::Strike => Some(3000),
        Task::Retreat => Some(8000),
        Task::MaintainDistance => Some(8000),
        Task::Attack => Some(4000),
        Task::RememberNest => None,
    }
}

/// Whether running out of time abandons the whole goal rather than only
/// skipping to the next task.
pub open spec fn spec_timeout_fails_goal(task: Task) -> bool {
    task == Task::GoTo || task == Task::Rush || task == Task::Chase
}

/// Every task but remembering the nest has a positive time limit. Locating
/// gives up within six seconds; travelling gets longer: twenty seconds to
/// walk somewhere, ten to chase or to rush.
pub proof fn lemma_task_time_limits(t: Task)
    ensures
        task_time_limit(t) is None <==> t == Task::RememberNest,
        task_time_limit(t) matches Some(ms) ==> ms > 0,
        is_locate(t) ==> (task_time_limit(t) matches Some(ms) && ms <= 6000),
        is_travel(t) ==> (task_time_limit(t) matches Some(ms) && ms >= 10000),
        t == Task::GoTo ==> task_time_limit(t) == Some(20000u64),
        t == Task::Chase ==> task_time_limit(t) == Some(10000u64),
        t == Task::Rush ==> task_time_limit(t) == Some(10000u64),
{
}

/// Only travelling abandons its goal when time runs out: a task that could
/// not locate anything, or that acts, is skipped instead.
pub proof fn lemma_only_travel_abandons_goal(t: Task)
    ensures
        spec_timeout_fails_goal(t) <==> is_travel(t),
        is_locate(t) ==> !spec_timeout_fails_goal(t),
{
}

impl Task {
    /// How long a task of this kind may run, in milliseconds of game time; `None` means
    /// it runs until it reports itself finished.
    pub fn time_limit(&self) -> (limit: Option<u64>)
        ensures
            limit == task_time_limit(*self),
    {
        match self {
            Task::LocateFood => Some(4000),
            Task::LocatePrey => Some(4000),
            Task::LocateMate => Some(4000),
            Task::LocateProspectiveNest => Some(6000),
            Task::LocateTarget => Some(3000),
            Task::LocateNest => Some(5000),
            Task::LocateRandom => Some(500),
            Task::GoTo => Some(20000),
            Task::Chase => Some(10000),
            Task::Rush => Some(10000),
            Task::Sleep => Some(15000),
            Task::Eat => Some(5000),
            Task::CollectFood => Some(3000),
            Task::StashFood => Some(3000),
            Task::RetrieveFood => Some(3000),
            Task::Mate => Some(5000),
            Task::Strike => Some(3000),
            Task::Retreat => Some(8000),
            Task::MaintainDistance => Some(8000),
            Task::Attack => Some(4000),
            Task::RememberNest => None,
        }
    }

    /// If true, timing out abandons the whole goal; if false, timing out
    /// just skips to the next task.
    pub fn timeout_fails_goal(&self) -> (fails: bool)
        ensures
            fails == spec_timeout_fails_goal(*self),
    {
        match self {
            Task::GoTo | Task::Rush | Task::Chase => true,
            _ => false,
        }
    }
}

/// Index of the current task within the goal's task list.
#[derive(Clone, Copy, Debug, PartialEq, Eq, Structural)]
pub struct GoalProgress(pub usize);

/// What comes after a finished task.
#[derive(Clone, Copy, Debug, PartialEq, Eq, Structural)]
pub enum TaskStep {
    /// Carry on with the named task.
    Next(Task),
    /// The goal's tasks are all done.
    GoalFinished,
}

/// Moves a goal on past a finished task: the progress goes up by one, and the
/// task at the new position follows, or the goal is finished once the
/// position passes its last task.
pub fn transition_task(goal: Goal, progress: &mut GoalProgress) -> (step: TaskStep)
    requires
        old(progress).0 < usize::MAX,
    ensures
        final(progress).0 == old(progress).0 + 1,
        final(progress).0 >= goal_tasks(goal).len() ==> step == TaskStep::GoalFinished,
        final(progress).0 < goal_tasks(goal).len() ==> step == TaskStep::Next(goal_tasks(goal)[final(progress).0 as int]),
{
    progress.0 = progress.0 + 1;
    let tasks = goal.tasks_for_goal();
    if progress.0 >= tasks.len() {
        TaskStep::GoalFinished
    } else {
        TaskStep::Next(tasks[progress.0])
    }
}

/// Where a newly chosen goal starts: its first task, at position zero.
pub fn begin_goal(goal: Goal) -> (start: (Task, GoalProgress))
    ensures
        start.0 == goal_tasks(goal)[0],
        start.1.0 == 0,
{
    let tasks = goal.tasks_for_goal();
    (tasks[0], GoalProgress(0))
}

/// Nanoseconds in the longest span of time that a `std::time::Duration` holds.
pub const DURATION_MAX_NANOS: u128 = 18_446_744_073_709_551_615_999_999_999;

/// The moment, in nanoseconds of game time, at which a task started at `now`
/// runs out of time; `None` for a task without a limit.
pub fn task_deadline(task: Task, now: u128) -> (deadline: Option<u128>)
    requires
        task_time_limit(task) matches Some(ms) ==> now + ms * 1_000_000 <= DURATION_MAX_NANOS,
    ensures
        deadline == match task_time_limit(task) {
            Some(ms) => Some((now + ms * 1_000_000) as u128),
            None => None,
        },
{
    match task.time_limit() {
        Some(ms) => Some(now + (ms as u128) * 1_000_000),
        None => None,
    }
}

/// What to do with a task whose deadline has been checked.
#[derive(Clone, Copy, Debug, PartialEq, Eq, Structural)]
pub enum DeadlineCheck {
    /// Time remains.
    Running,
    /// Out of time: move on to the next task.
    SkipTask,
    /// Out of time: give up the goal.
    AbandonGoal,
}

/// Checks a task against its deadline at the moment `now`.
pub fn check_task_deadline(task: Task, now: u128, deadline: u128) -> (outcome: DeadlineCheck)
    ensures
        now < deadline ==> outcome == DeadlineCheck::Running,
        now >= deadline && spec_timeout_fails_goal(task) ==> outcome == DeadlineCheck::AbandonGoal,
        now >= deadline && !spec_timeout_fails_goal(task) ==> outcome == DeadlineCheck::SkipTask,
{
    if now >= deadline {
        if task.timeout_fails_goal() {
            DeadlineCheck::AbandonGoal
        } else {
            DeadlineCheck::SkipTask
        }
    } else {
        DeadlineCheck::Running
    }
}

/// Tiles a creature still has to walk through, nearest first.
pub struct Path {
    pub waypoints: VecDeque<GridPos>,
}

/// `waypoints` with the leading entries equal to `current` taken off.
pub open spec fn drop_reached(waypoints: Seq<GridPos>, current: GridPos) -> Seq<GridPos>
    decreases waypoints.len(),
{
    if waypoints.len() > 0 && waypoints[0] == current {
        drop_reached(waypoints.drop_first(), current)
    } else {
        waypoints
    }
}

/// Takes off the front of the path the waypoints equal to the tile the
/// creature stands on.
pub fn pop_reached_waypoints(path: &mut Path, current: GridPos)
    ensures
        final(path).waypoints@ == drop_reached(old(path).waypoints@, current),
{
    while path.waypoints.len() > 0 && path.waypoints[0] == current
        invariant
            drop_reached(path.waypoints@, current) == drop_reached(old(path).waypoints@, current),
        decreases path.waypoints@.len(),
    {
        let ghost before = path.waypoints@;
        path.waypoints.pop_front();
        assert(path.waypoints@ =~= before.drop_first());
    }
}

/// What a creature walking to a target does this frame.
#[derive(Clone, Copy, Debug, PartialEq, Eq, Structural)]
pub enum GoToStep {
    /// It stands on the target tile: the task is done.
    Arrived,
    /// A path to the target was found and stored.
    PathFound,
    /// No path to the target was found: the task is given up.
    Unreachable,
    /// Head for this waypoint.
    Steer(GridPos),
    /// The path has run out: the task is done.
    Exhausted,
}

/// A path search from `from` to `to` stays within machine arithmetic: it
/// needs no bounds when the two are the same tile.
pub open spec fn searchable(from: GridPos, to: GridPos) -> bool {
    from != to ==> search_bounds(from, to)
}

/// One frame of walking to a target tile. On the target the path is dropped;
/// without a path one is searched for; with one, the reached waypoints are
/// taken off and the creature heads for the next, or the task ends when none
/// is left.
pub fn go_to_step(current: GridPos, target: GridPos, path: &mut Option<Path>, world_map: &WorldMap) -> (step: GoToStep)
    requires
        current != target && *old(path) is None ==> searchable(current, target),
    ensures
        current == target ==> step == GoToStep::Arrived && *final(path) is None,
        current != target && *old(path) is None ==> (step == GoToStep::PathFound || step == GoToStep::Unreachable),
        step == GoToStep::PathFound ==> (*final(path) matches Some(p) && is_walk(world_map, current, target, p.waypoints@)
            && forall|w: Seq<GridPos>| #[trigger]
            is_walk(world_map, current, target, w) ==> walk_cost(world_map, current, p.waypoints@) <= walk_cost(
                world_map,
                current,
                w,
            )),
        step == GoToStep::Unreachable ==> *final(path) is None && (!reachable(world_map, current, target)
            || many_promising(world_map, current, target)),
        current != target && *old(path) is Some ==> {
            let rest = drop_reached(old(path).unwrap().waypoints@, current);
            if rest.len() > 0 {
                step == GoToStep::Steer(rest[0]) && (*final(path) matches Some(p) && p.waypoints@ == rest)
            } else {
                step == GoToStep::Exhausted && *final(path) is None
            }
        },
{
    if current == target {
        *path = None;
        return GoToStep::Arrived;
    }
    match path {
        None => match astar(current, target, world_map) {
            Some(waypoints) => {
                *path = Some(Path { waypoints });
                GoToStep::PathFound
            },
            None => GoToStep::Unreachable,
        },
        Some(p) => {
            pop_reached_waypoints(p, current);
            if p.waypoints.len() > 0 {
                GoToStep::Steer(p.waypoints[0])
            } else {
                *path = None;
                GoToStep::Exhausted
            }
        },
    }
}

/// Tiles the target may drift from the end of the path before it is searched
/// again.
pub const CHASE_REPATH_DISTANCE: i32 = 3;

/// A chase searches a new path when it has none, when its path is empty, or
/// when the path's last waypoint is more than `CHASE_REPATH_DISTANCE` tiles
/// from the target along either axis.
pub open spec fn spec_needs_repath(path: Option<Seq<GridPos>>, target: GridPos) -> bool {
    match path {
        None => true,
        Some(w) => w.len() == 0 || abs(w.last().x - target.x) > CHASE_REPATH_DISTANCE
            || abs(w.last().y - target.y) > CHASE_REPATH_DISTANCE,
    }
}

/// The waypoints of an optional path.
pub open spec fn waypoints_of(path: Option<Path>) -> Option<Seq<GridPos>> {
    match path {
        Some(p) => Some(p.waypoints@),
        None => None,
    }
}

/// Whether a chase has to search a new path towards `target`.
pub fn needs_repath(path: &Option<Path>, target: GridPos) -> (r: bool)
    requires
        path is Some && path.unwrap().waypoints@.len() > 0 ==> {
            let last = path.unwrap().waypoints@.last();
            &&& i32::MIN < last.x - target.x <= i32::MAX
            &&& i32::MIN < last.y - target.y <= i32::MAX
        },
    ensures
        r == spec_needs_repath(waypoints_of(*path), target),
{
    match path {
        None => true,
        Some(p) => {
            let n = p.waypoints.len();
            if n == 0 {
                true
            } else {
                let last = p.waypoints[n - 1];
                let dx = last.x - target.x;
                let dy = last.y - target.y;
                let adx = if dx < 0 { -dx } else { dx };
                let ady = if dy < 0 { -dy } else { dy };
                adx > CHASE_REPATH_DISTANCE || ady > CHASE_REPATH_DISTANCE
            }
        },
    }
}

/// What a chasing creature does this frame.
#[derive(Clone, Copy, Debug, PartialEq, Eq, Structural)]
pub enum ChaseStep {
    /// Close enough to the target: the task is done.
    Caught,
    /// A fresh path towards the target was stored; steering starts next frame.
    Repathed,
    /// No path to the target: the goal is given up.
    Unreachable,
    /// Head for this waypoint.
    Steer(GridPos),
    /// The path has run out; keep going next frame.
    Idle,
}

/// One frame of chasing a target. `close_enough` tells whether the chaser is
/// within reach of the target. When the path is missing, empty or has fallen
/// behind the target, a new one is searched; otherwise the reached waypoints
/// are taken off and the chaser heads for the next.
pub fn chase_step(
    current: GridPos,
    target: GridPos,
    close_enough: bool,
    path: &mut Option<Path>,
    world_map: &WorldMap,
) -> (step: ChaseStep)
    requires
        !close_enough && *old(path) is Some && old(path).unwrap().waypoints@.len() > 0 ==> ({
            let last = old(path).unwrap().waypoints@.last();
            &&& i32::MIN < last.x - target.x <= i32::MAX
            &&& i32::MIN < last.y - target.y <= i32::MAX
        }),
        !close_enough && spec_needs_repath(waypoints_of(*old(path)), target) ==> searchable(current, target),
    ensures
        close_enough ==> step == ChaseStep::Caught && *final(path) is None,
        !close_enough && spec_needs_repath(waypoints_of(*old(path)), target) ==> (step == ChaseStep::Repathed
            || step == ChaseStep::Unreachable),
        step == ChaseStep::Repathed ==> (*final(path) matches Some(p) && is_walk(world_map, current, target, p.waypoints@)
            && forall|w: Seq<GridPos>| #[trigger]
            is_walk(world_map, current, target, w) ==> walk_cost(world_map, current, p.waypoints@) <= walk_cost(
                world_map,
                current,
                w,
            )),
        step == ChaseStep::Unreachable ==> *final(path) is None && (!reachable(world_map, current, target)
            || many_promising(world_map, current, target)),
        !close_enough && !spec_needs_repath(waypoints_of(*old(path)), target) ==> {
            let rest = drop_reached(old(path).unwrap().waypoints@, current);
            &&& *final(path) matches Some(p) && p.waypoints@ == rest
            &&& rest.len() > 0 ==> step == ChaseStep::Steer(rest[0])
            &&& rest.len() == 0 ==> step == ChaseStep::Idle
        },
{
    if close_enough {
        *path = None;
        return ChaseStep::Caught;
    }
    if needs_repath(path, target) {
        match astar(current, target, world_map) {
            Some(waypoints) => {
                *path = Some(Path { waypoints });
                return ChaseStep::Repathed;
            },
            None => {
                *path = None;
                return ChaseStep::Unreachable;
            },
        }
    }
    match path {
        Some(p) => {
            pop_reached_waypoints(p, current);
            if p.waypoints.len() > 0 {
                ChaseStep::Steer(p.waypoints[0])
            } else {
                ChaseStep::Idle
            }
        },
        None => ChaseStep::Idle,
    }
}

} // verus!
