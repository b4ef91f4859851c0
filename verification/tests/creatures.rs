use std::collections::VecDeque;
use woodland::asset_loading::variant_index;
use woodland::creatures::ai::{
    astar, begin_goal, chase_step, check_task_deadline, go_to_step, heuristic, needs_repath, pop_reached_waypoints,
    task_deadline, transition_task, ChaseStep, DeadlineCheck, Goal, GoToStep, GoalProgress, Path, Task, TaskStep,
};
use woodland::creatures::attributes::Health;
use woodland::creatures::data::{CreatureDiet, CreatureRelations};
use woodland::grid::GridPos;
use woodland::world::world_generation::{Biome, Chunk, Foliage, TreeType, WorldMap, WorldTile};

fn grass_map() -> WorldMap {
    let mut map = WorldMap::new();
    map.insert_chunk(Chunk {
        coord: GridPos::new(0, 0),
        tile_data: [[WorldTile::Grass; 18]; 18],
        foliage_data: [[Foliage::Bare; 16]; 16],
        biome_data: [[Biome::Forest; 18]; 18],
    });
    map
}

fn p(x: i32, y: i32) -> GridPos {
    GridPos::new(x, y)
}

fn path_of(points: &[GridPos]) -> Path {
    Path { waypoints: points.iter().copied().collect::<VecDeque<GridPos>>() }
}

fn assert_walk(start: GridPos, goal: GridPos, path: &VecDeque<GridPos>) {
    let mut prev = start;
    for step in path {
        assert!(*step != prev);
        assert!((step.x - prev.x).abs() <= 1 && (step.y - prev.y).abs() <= 1);
        prev = *step;
    }
    assert_eq!(prev, goal);
}

#[test]
fn goals_list_their_tasks() {
    assert_eq!(Goal::Feed.tasks_for_goal(), &[Task::LocateFood, Task::GoTo, Task::CollectFood, Task::Eat]);
    assert_eq!(Goal::Wander.tasks_for_goal(), &[Task::LocateRandom, Task::GoTo]);
    assert_eq!(Goal::Hunt.tasks_for_goal(), &[Task::LocatePrey, Task::Chase, Task::Attack]);
    assert_eq!(Goal::Evade.tasks_for_goal(), &[Task::Retreat, Task::MaintainDistance]);
    for goal in [
        Goal::Wander,
        Goal::GatherIntel,
        Goal::Feed,
        Goal::Hunt,
        Goal::Sleep,
        Goal::Nest,
        Goal::Stash,
        Goal::Retrieve,
        Goal::Mate,
        Goal::Follow,
        Goal::Attack,
        Goal::Evade,
    ] {
        let n = goal.tasks_for_goal().len();
        assert!((2..=4).contains(&n));
    }
}

#[test]
fn task_time_limits() {
    assert_eq!(Task::GoTo.time_limit(), Some(20000));
    assert_eq!(Task::LocateRandom.time_limit(), Some(500));
    assert_eq!(Task::Sleep.time_limit(), Some(15000));
    assert_eq!(Task::RememberNest.time_limit(), None);
    assert!(Task::GoTo.timeout_fails_goal());
    assert!(Task::Rush.timeout_fails_goal());
    assert!(Task::Chase.timeout_fails_goal());
    assert!(!Task::Eat.timeout_fails_goal());
}

#[test]
fn goals_advance_through_tasks() {
    let (first, mut progress) = begin_goal(Goal::Feed);
    assert_eq!(first, Task::LocateFood);
    assert_eq!(progress, GoalProgress(0));
    assert_eq!(transition_task(Goal::Feed, &mut progress), TaskStep::Next(Task::GoTo));
    assert_eq!(transition_task(Goal::Feed, &mut progress), TaskStep::Next(Task::CollectFood));
    assert_eq!(transition_task(Goal::Feed, &mut progress), TaskStep::Next(Task::Eat));
    assert_eq!(transition_task(Goal::Feed, &mut progress), TaskStep::GoalFinished);
    assert_eq!(progress, GoalProgress(4));
    assert_eq!(begin_goal(Goal::Hunt), (Task::LocatePrey, GoalProgress(0)));
}

#[test]
fn deadlines() {
    assert_eq!(task_deadline(Task::GoTo, 1_000), Some(20_000_001_000));
    assert_eq!(task_deadline(Task::RememberNest, 1_000), None);
    assert_eq!(check_task_deadline(Task::Eat, 10, 11), DeadlineCheck::Running);
    assert_eq!(check_task_deadline(Task::Eat, 11, 11), DeadlineCheck::SkipTask);
    assert_eq!(check_task_deadline(Task::GoTo, 12, 11), DeadlineCheck::AbandonGoal);
}

#[test]
fn heuristic_is_land_cost_times_king_distance() {
    assert_eq!(heuristic(p(0, 0), p(3, -7)), 70);
    assert_eq!(heuristic(p(5, 5), p(5, 5)), 0);
}

#[test]
fn astar_straight_line() {
    let map = grass_map();
    let path = astar(p(1, 1), p(4, 1), &map).unwrap();
    assert_eq!(path, VecDeque::from(vec![p(2, 1), p(3, 1), p(4, 1)]));
}

#[test]
fn astar_diagonal() {
    let map = grass_map();
    let path = astar(p(1, 1), p(3, 3), &map).unwrap();
    assert_eq!(path, VecDeque::from(vec![p(2, 2), p(3, 3)]));
}

#[test]
fn astar_start_is_goal() {
    let map = grass_map();
    assert_eq!(astar(p(7, 7), p(7, 7), &map), Some(VecDeque::new()));
}

#[test]
fn astar_goes_around_water() {
    let mut map = WorldMap::new();
    let mut tiles = [[WorldTile::Grass; 18]; 18];
    tiles[2][5] = WorldTile::Water;
    map.insert_chunk(Chunk {
        coord: GridPos::new(0, 0),
        tile_data: tiles,
        foliage_data: [[Foliage::Bare; 16]; 16],
        biome_data: [[Biome::Forest; 18]; 18],
    });
    let path = astar(p(1, 5), p(3, 5), &map).unwrap();
    assert_eq!(path.len(), 2);
    assert!(!path.contains(&p(2, 5)));
    assert_walk(p(1, 5), p(3, 5), &path);
}

#[test]
fn astar_goes_around_trees() {
    let mut map = WorldMap::new();
    let mut foliage = [[Foliage::Bare; 16]; 16];
    for y in 0..16 {
        if y != 12 {
            foliage[5][y] = Foliage::Tree(TreeType::Oak);
        }
    }
    map.insert_chunk(Chunk {
        coord: GridPos::new(0, 0),
        tile_data: [[WorldTile::Grass; 18]; 18],
        foliage_data: foliage,
        biome_data: [[Biome::Forest; 18]; 18],
    });
    let path = astar(p(2, 2), p(8, 2), &map).unwrap();
    assert!(path.contains(&p(5, 12)));
    assert_walk(p(2, 2), p(8, 2), &path);
}

#[test]
fn astar_enclosed_goal_is_unreachable() {
    let mut map = WorldMap::new();
    let mut foliage = [[Foliage::Bare; 16]; 16];
    for x in 7..=9 {
        for y in 7..=9 {
            if x != 8 || y != 8 {
                foliage[x][y] = Foliage::Tree(TreeType::Oak);
            }
        }
    }
    map.insert_chunk(Chunk {
        coord: GridPos::new(0, 0),
        tile_data: [[WorldTile::Grass; 18]; 18],
        foliage_data: foliage,
        biome_data: [[Biome::Forest; 18]; 18],
    });
    assert_eq!(astar(p(1, 1), p(8, 8), &map), None);
}

#[test]
fn astar_to_ungenerated_land_is_none() {
    let map = grass_map();
    assert_eq!(astar(p(1, 1), p(40, 40), &map), None);
}

#[test]
fn reached_waypoints_are_dropped() {
    let mut path = path_of(&[p(1, 1), p(1, 1), p(2, 2), p(1, 1)]);
    pop_reached_waypoints(&mut path, p(1, 1));
    assert_eq!(path.waypoints, VecDeque::from(vec![p(2, 2), p(1, 1)]));
    pop_reached_waypoints(&mut path, p(9, 9));
    assert_eq!(path.waypoints, VecDeque::from(vec![p(2, 2), p(1, 1)]));
}

#[test]
fn go_to_walks_a_found_path() {
    let map = grass_map();
    let mut path: Option<Path> = None;
    assert_eq!(go_to_step(p(1, 1), p(4, 1), &mut path, &map), GoToStep::PathFound);
    assert_eq!(path.as_ref().unwrap().waypoints, VecDeque::from(vec![p(2, 1), p(3, 1), p(4, 1)]));
    assert_eq!(go_to_step(p(1, 1), p(4, 1), &mut path, &map), GoToStep::Steer(p(2, 1)));
    assert_eq!(go_to_step(p(2, 1), p(4, 1), &mut path, &map), GoToStep::Steer(p(3, 1)));
    assert_eq!(path.as_ref().unwrap().waypoints, VecDeque::from(vec![p(3, 1), p(4, 1)]));
    assert_eq!(go_to_step(p(4, 1), p(4, 1), &mut path, &map), GoToStep::Arrived);
    assert!(path.is_none());
}

#[test]
fn go_to_exhausted_and_unreachable() {
    let map = grass_map();
    let mut path = Some(path_of(&[p(5, 5)]));
    assert_eq!(go_to_step(p(5, 5), p(9, 9), &mut path, &map), GoToStep::Exhausted);
    assert!(path.is_none());
    let mut none: Option<Path> = None;
    assert_eq!(go_to_step(p(1, 1), p(40, 40), &mut none, &map), GoToStep::Unreachable);
    assert!(none.is_none());
}

#[test]
fn repath_when_target_drifts() {
    assert!(needs_repath(&None, p(0, 0)));
    assert!(needs_repath(&Some(path_of(&[])), p(0, 0)));
    let path = Some(path_of(&[p(9, 9), p(10, 10)]));
    assert!(!needs_repath(&path, p(13, 10)));
    assert!(!needs_repath(&path, p(7, 7)));
    assert!(needs_repath(&path, p(14, 10)));
    assert!(needs_repath(&path, p(10, 6)));
}

#[test]
fn chase_steps() {
    let map = grass_map();
    let mut path: Option<Path> = None;
    assert_eq!(chase_step(p(1, 1), p(4, 1), true, &mut path, &map), ChaseStep::Caught);
    assert!(path.is_none());
    assert_eq!(chase_step(p(1, 1), p(4, 1), false, &mut path, &map), ChaseStep::Repathed);
    assert_eq!(path.as_ref().unwrap().waypoints, VecDeque::from(vec![p(2, 1), p(3, 1), p(4, 1)]));
    assert_eq!(chase_step(p(2, 1), p(5, 1), false, &mut path, &map), ChaseStep::Steer(p(3, 1)));
    let mut short = Some(path_of(&[p(2, 1)]));
    assert_eq!(chase_step(p(2, 1), p(4, 1), false, &mut short, &map), ChaseStep::Idle);
    assert_eq!(short.as_ref().unwrap().waypoints.len(), 0);
    let mut lost: Option<Path> = None;
    assert_eq!(chase_step(p(1, 1), p(40, 40), false, &mut lost, &map), ChaseStep::Unreachable);
    assert!(lost.is_none());
}

fn strings(v: &[&str]) -> Vec<String> {
    v.iter().map(|s| s.to_string()).collect()
}

fn diet(kind: &str, prey: &[&str]) -> CreatureDiet {
    CreatureDiet { kind: kind.to_string(), eats: strings(&["grass"]), prey: strings(prey) }
}

#[test]
fn relations_from_database() {
    let entries = vec![diet("wolf", &["rabbit", "deer"]), diet("fox", &["rabbit", "mouse"]), diet("rabbit", &[])];
    let r = CreatureRelations::build(&entries);
    assert_eq!(r.prey_of("wolf").to_vec(), strings(&["rabbit", "deer"]));
    assert!(r.prey_of("rabbit").is_empty());
    assert!(r.prey_of("bear").is_empty());
    assert_eq!(r.predators_of("rabbit").to_vec(), strings(&["wolf", "fox"]));
    assert_eq!(r.predators_of("mouse").to_vec(), strings(&["fox"]));
    assert_eq!(r.predators_of("deer").to_vec(), strings(&["wolf"]));
    assert!(r.predators_of("wolf").is_empty());
    assert!(r.predators_of("bear").is_empty());
    assert!(r.is_prey("rabbit"));
    assert!(!r.is_prey("wolf"));
    assert!(r.is_predator("fox"));
    assert!(!r.is_predator("rabbit"));
    assert!(!r.is_predator("bear"));
    assert!(r.hunts("wolf", "deer"));
    assert!(!r.hunts("wolf", "mouse"));
    assert!(!r.hunts("bear", "rabbit"));
}

#[test]
fn relations_are_reverse_of_each_other() {
    let entries = vec![diet("owl", &["mouse", "vole"]), diet("cat", &["mouse"]), diet("hawk", &["vole", "mouse"])];
    let r = CreatureRelations::build(&entries);
    for hunter in ["owl", "cat", "hawk"] {
        for target in ["mouse", "vole", "owl"] {
            let listed = r.predators_of(target).iter().any(|h| h == hunter);
            assert_eq!(r.hunts(hunter, target), listed);
        }
    }
}

#[test]
fn last_database_entry_wins() {
    let entries = vec![diet("wolf", &["rabbit"]), diet("fox", &["mouse"]), diet("wolf", &["mouse"])];
    let r = CreatureRelations::build(&entries);
    assert_eq!(r.prey_of("wolf").to_vec(), strings(&["mouse"]));
    assert!(!r.hunts("wolf", "rabbit"));
    assert!(r.predators_of("rabbit").is_empty());
    assert_eq!(r.predators_of("mouse").to_vec(), strings(&["wolf", "fox"]));
}

#[test]
fn health_starts_at_zero() {
    assert_eq!(Health::default(), Health(0));
}

#[test]
fn variant_from_hash() {
    assert_eq!(variant_index(10, 3), 1);
    assert_eq!(variant_index(u64::MAX, 1), 0);
    assert_eq!(variant_index(7, 8), 7);
}

#[test]
fn astar_prefers_a_longer_dry_way() {
    let mut map = WorldMap::new();
    let mut tiles = [[WorldTile::Grass; 18]; 18];
    for x in 2..=4 {
        for y in 3..=7 {
            tiles[x][y] = WorldTile::Water;
        }
    }
    map.insert_chunk(Chunk {
        coord: GridPos::new(0, 0),
        tile_data: tiles,
        foliage_data: [[Foliage::Bare; 16]; 16],
        biome_data: [[Biome::Forest; 18]; 18],
    });
    let path = astar(p(1, 5), p(5, 5), &map).unwrap();
    assert_walk(p(1, 5), p(5, 5), &path);
    assert!(path.len() > 4);
    for step in &path {
        assert!(!((2..=4).contains(&step.x) && (3..=7).contains(&step.y)));
    }
}

#[test]
fn astar_start_is_goal_anywhere() {
    let map = WorldMap::new();
    assert_eq!(astar(p(2147483000, 0), p(2147483000, 0), &map), Some(VecDeque::new()));
    assert_eq!(astar(p(i32::MIN, i32::MAX), p(i32::MIN, i32::MAX), &map), Some(VecDeque::new()));
}

#[test]
fn go_to_and_chase_at_the_target_near_the_edge() {
    let map = WorldMap::new();
    let here = p(i32::MAX, i32::MIN);
    let mut path: Option<Path> = None;
    assert_eq!(go_to_step(here, here, &mut path, &map), GoToStep::Arrived);
    assert_eq!(chase_step(here, here, false, &mut path, &map), ChaseStep::Repathed);
    assert_eq!(path.as_ref().unwrap().waypoints.len(), 0);
}
