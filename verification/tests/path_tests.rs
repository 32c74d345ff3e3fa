use steel_core::map::GameMap;

fn blank() -> GameMap {
    GameMap::new(|_x: i32, _y: i32| None)
}

fn is_walk(map: &GameMap, start: (i32, i32), goals: &[(i32, i32)], p: &[(i32, i32)]) -> bool {
    if p.is_empty() || p[0] != start || !goals.contains(p.last().unwrap()) {
        return false;
    }
    p.windows(2).all(|w| {
        let (a, b) = (w[0], w[1]);
        let adj = (a.0 - b.0).abs() + (a.1 - b.1).abs() == 1;
        let t = map.get(b.0, b.1);
        adj && t.map(|t| !t.solid || goals.contains(&b)).unwrap_or(false)
    })
}

#[test]
fn straight_path_is_shortest() {
    let map = blank();
    let goals = [(5, 0)];
    let p = map.find_path(0, 0, &goals).unwrap();
    assert_eq!(p, vec![(0, 0), (1, 0), (2, 0), (3, 0), (4, 0), (5, 0)]);
}

#[test]
fn start_on_goal_gives_single_cell() {
    let map = blank();
    assert_eq!(map.find_path(3, 4, &[(3, 4), (9, 9)]), Some(vec![(3, 4)]));
}

#[test]
fn nearest_goal_wins() {
    let map = blank();
    let p = map.find_path(10, 10, &[(30, 10), (10, 13)]).unwrap();
    assert_eq!(p.len(), 4);
    assert_eq!(*p.last().unwrap(), (10, 13));
}

#[test]
fn walls_force_a_detour() {
    let mut map = blank();
    // a wall across x = 5 from y = 0 to y = 8
    for y in 0..9 {
        map.mark(5, y, 1, 100 + y as u64, true);
    }
    let goals = [(8, 0)];
    let p = map.find_path(2, 0, &goals).unwrap();
    assert!(is_walk(&map, (2, 0), &goals, &p));
    // up to row 9, across, and back down: 3 + 9 + 9 + 3 steps
    assert_eq!(p.len(), 3 + 9 + 9 + 3 + 1);
}

#[test]
fn enclosed_goal_is_unreachable() {
    let mut map = blank();
    for (x, y) in [(19, 20), (21, 20), (20, 19), (20, 21)] {
        map.mark(x, y, 1, 1, true);
    }
    assert!(map.find_path(0, 0, &[(20, 20)]).is_none());
}

#[test]
fn solid_goal_is_entered() {
    let mut map = blank();
    map.mark(18, 13, 3, 1, true);
    let goals: Vec<(i32, i32)> = (13..16).flat_map(|y| (18..21).map(move |x| (x, y))).collect();
    let p = map.find_path(18, 10, &goals).unwrap();
    assert_eq!(p, vec![(18, 10), (18, 11), (18, 12), (18, 13)]);
}

#[test]
fn off_map_start_or_no_goals_give_none() {
    let map = blank();
    assert!(map.find_path(-1, 0, &[(-1, 0)]).is_none());
    assert!(map.find_path(0, 0, &[]).is_none());
    assert!(map.find_path(0, 0, &[(50, 50)]).is_none());
}

#[test]
fn conveyors_do_not_block() {
    let mut map = blank();
    for y in 0..30 {
        map.mark(5, y, 1, 200, false);
    }
    let p = map.find_path(2, 0, &[(8, 0)]).unwrap();
    assert_eq!(p.len(), 7);
}

#[test]
fn ties_break_right_then_left_then_up_then_down() {
    let map = blank();
    // among the shortest routes, the search takes right steps first, then up
    let p = map.find_path(0, 0, &[(2, 2)]).unwrap();
    assert_eq!(p, vec![(0, 0), (1, 0), (2, 0), (2, 1), (2, 2)]);
    // going left and down: left steps come before down steps
    let p = map.find_path(5, 5, &[(3, 3)]).unwrap();
    assert_eq!(p, vec![(5, 5), (4, 5), (3, 5), (3, 4), (3, 3)]);
    // two goals at the same distance: the one reached by the earlier route wins
    let p = map.find_path(10, 10, &[(10, 12), (9, 11)]).unwrap();
    assert_eq!(p, vec![(10, 10), (9, 10), (9, 11)]);
}
