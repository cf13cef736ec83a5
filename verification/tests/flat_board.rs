use hypergo::game::GameState;
use hypergo::geometry::{Point, Spinor};
use hypergo::stone::{MoveOutcome, StoneType, Turn};
use std::f64::consts::PI;

#[derive(Clone, Copy, Debug, PartialEq)]
struct FlatPoint {
    x: f64,
    y: f64,
}

impl FlatPoint {
    fn distance(self, b: Self) -> f64 {
        ((self.x - b.x).powi(2) + (self.y - b.y).powi(2)).sqrt()
    }
}

impl Point for FlatPoint {
    fn spec_zero() -> Self {
        Self::zero()
    }

    fn spec_within(self, other: Self, tolerance: u32) -> bool {
        self.within(other, tolerance)
    }

    fn zero() -> Self {
        FlatPoint { x: 0.0, y: 0.0 }
    }

    fn within(self, other: Self, tolerance: u32) -> bool {
        self.distance(other) <= tolerance as f64 / 1000.0
    }
}

#[derive(Clone, Copy, Debug, PartialEq)]
struct FlatSpinor {
    s: f64,
    xy: f64,
    yw: f64,
    wx: f64,
}

impl FlatSpinor {
    fn translation(amt: f64, angle: f64) -> Self {
        let b2 = amt / 2.0;
        FlatSpinor { s: 1.0, xy: 0.0, yw: angle.cos() * b2, wx: angle.sin() * b2 }
    }

    fn translation_to(v: FlatPoint) -> Self {
        FlatSpinor { s: 1.0, xy: 0.0, yw: v.y / 2.0, wx: -v.x / 2.0 }
    }

    fn rotation(angle: f64) -> Self {
        let t2 = angle / 2.0;
        FlatSpinor { s: t2.cos(), xy: t2.sin(), yw: 0.0, wx: 0.0 }
    }

    fn magnitude(&self) -> f64 {
        (self.s * self.s + self.xy * self.xy).sqrt()
    }
}

impl Spinor for FlatSpinor {
    type Point = FlatPoint;

    fn spec_one() -> Self {
        Self::one()
    }

    fn spec_tiling_closes(sides: u32, around_vertex: u32) -> bool {
        Self::tiling_closes(sides, around_vertex)
    }

    fn spec_neighbor_direction(sides: u32, around_vertex: u32, step: u32) -> Self {
        Self::neighbor_direction(sides, around_vertex, step)
    }

    fn spec_reverse(self) -> Self {
        self.reverse()
    }

    fn spec_compose(self, rhs: Self) -> Self {
        self.compose(rhs)
    }

    fn spec_normalize(self) -> Self {
        let mut copy = self;
        copy.normalize();
        copy
    }

    fn spec_apply(self, v: FlatPoint) -> FlatPoint {
        self.apply(v)
    }

    fn one() -> Self {
        FlatSpinor { s: 1.0, xy: 0.0, yw: 0.0, wx: 0.0 }
    }

    fn tiling_closes(sides: u32, around_vertex: u32) -> bool {
        let angle = 2.0 * PI / (around_vertex as f64);
        ((PI / (sides as f64)).cos() / (0.5 * angle).sin() - 1.0).abs() <= 1e-11
    }

    fn neighbor_direction(_sides: u32, around_vertex: u32, step: u32) -> Self {
        let angle = 2.0 * PI / (around_vertex as f64);
        Self::translation(1.0, step as f64 * angle)
    }

    fn reverse(&self) -> Self {
        FlatSpinor { s: self.s, xy: -self.xy, yw: -self.yw, wx: -self.wx }
    }

    fn compose(self, rhs: Self) -> Self {
        FlatSpinor {
            s: rhs.s * self.s - rhs.xy * self.xy,
            xy: rhs.xy * self.s + rhs.s * self.xy,
            yw: rhs.yw * self.s + rhs.wx * self.xy + rhs.s * self.yw - rhs.xy * self.wx,
            wx: rhs.wx * self.s - rhs.yw * self.xy + rhs.xy * self.yw + rhs.s * self.wx,
        }
    }

    fn normalize(&mut self) {
        let f = 1.0 / self.magnitude();
        *self = FlatSpinor { s: f * self.s, xy: f * self.xy, yw: f * self.yw, wx: f * self.wx };
    }

    fn apply(&self, v: FlatPoint) -> FlatPoint {
        FlatPoint {
            x: (self.s * self.s - self.xy * self.xy) * v.x
                + (2.0 * self.s * self.xy) * v.y
                + (-2.0 * self.s * self.wx + 2.0 * self.yw * self.xy),
            y: (-2.0 * self.s * self.xy) * v.x
                + (self.s * self.s - self.xy * self.xy) * v.y
                + (2.0 * self.s * self.yw + 2.0 * self.wx * self.xy),
        }
    }
}

type Game = GameState<FlatSpinor>;

fn at(game: &Game, x: f64, y: f64) -> i32 {
    let target = FlatPoint { x, y };
    let mut found = -1;
    for i in 0..game.point_count() as i32 {
        if game.position_of(i).distance(target) < 1e-6 {
            assert_eq!(found, -1);
            found = i;
        }
    }
    assert!(found >= 0);
    found
}

fn stones(game: &Game) -> Vec<StoneType> {
    (0..game.point_count() as i32).map(|i| game.stone_at(i)).collect()
}

#[test]
fn test_translation() {
    let v = FlatPoint { x: 0.0, y: 1.0 };
    let s = FlatSpinor::translation(1.0, 0.0);
    assert!(s.apply(FlatPoint::zero()).distance(v) <= 1e-9);
    assert!(s.reverse().apply(v).distance(FlatPoint::zero()) <= 1e-9);
}

#[test]
fn euclidian_test_translation_to() {
    let v = FlatPoint { x: 0.7, y: -0.3 };
    let s = FlatSpinor::translation_to(v);
    assert!(s.apply(FlatPoint::zero()).distance(v) <= 1e-9);
    assert!(s.reverse().apply(v).distance(FlatPoint::zero()) <= 1e-9);
}

#[test]
fn reverse_undoes_a_motion() {
    let motions = [
        FlatSpinor::translation(1.0, 0.0),
        FlatSpinor::translation(3.5, 2.0),
        FlatSpinor::rotation(0.7),
        FlatSpinor::translation(2.0, 1.0).compose(FlatSpinor::rotation(-1.3)),
        FlatSpinor::rotation(2.2).compose(FlatSpinor::translation_to(FlatPoint { x: -4.0, y: 0.5 })),
    ];
    let points = [FlatPoint { x: 0.0, y: 0.0 }, FlatPoint { x: 0.7, y: -0.3 }, FlatPoint { x: -12.0, y: 5.0 }];
    for g in motions {
        for p in points {
            assert!(g.reverse().compose(g).apply(p).distance(p) <= 1e-6);
            assert!(g.compose(g.reverse()).apply(p).distance(p) <= 1e-6);
            assert!(g.reverse().apply(g.apply(p)).distance(p) <= 1e-6);
        }
    }
}

#[test]
fn composition_applies_the_right_factor_first() {
    let a = FlatSpinor::rotation(0.5);
    let b = FlatSpinor::translation(1.0, 0.3);
    let p = FlatPoint { x: 1.0, y: 0.2 };
    assert!(a.compose(b).apply(p).distance(a.apply(b.apply(p))) <= 1e-12);
    assert!(a.compose(b).apply(p).distance(b.apply(a.apply(p))) > 0.1);
    assert!(a.compose(FlatSpinor::one()).apply(p).distance(a.apply(p)) <= 1e-12);
    assert!(FlatSpinor::one().compose(a).apply(p).distance(a.apply(p)) <= 1e-12);
}

#[test]
fn normalizing_a_unit_motion_changes_nothing() {
    let mut g = FlatSpinor::translation(2.0, 1.0).compose(FlatSpinor::rotation(-1.3));
    g.normalize();
    let mut again = g;
    again.normalize();
    assert!((again.s - g.s).abs() <= 1e-15);
    assert!((again.xy - g.xy).abs() <= 1e-15);
    assert!((again.yw - g.yw).abs() <= 1e-15);
    assert!((again.wx - g.wx).abs() <= 1e-15);
    assert!((again.magnitude() - 1.0).abs() <= 1e-15);
    let mut scaled = FlatSpinor { s: 3.0 * g.s, xy: 3.0 * g.xy, yw: 3.0 * g.yw, wx: 3.0 * g.wx };
    scaled.normalize();
    assert!((scaled.magnitude() - 1.0).abs() <= 1e-15);
}

#[test]
fn occupied_points_and_hover_preview() {
    let mut game = Game::new(3, 4, 4);
    assert_eq!(game.occupied_points(), vec![]);
    assert_eq!(game.hover_preview(), None);
    assert!(game.select_index(4).accepted());
    assert!(game.select_index(1).accepted());
    assert_eq!(game.occupied_points(), vec![(1, StoneType::White), (4, StoneType::Black)]);
    game.check_hover_point(Some(game.position_of(2)));
    assert_eq!(game.hover_preview(), Some((2, Turn::Black)));
    game.check_hover_point(Some(game.position_of(4)));
    assert_eq!(game.hover_preview(), None);
    game.hover_idx = 100;
    assert_eq!(game.hover_preview(), None);
}

#[test]
fn try_new_rejects_even_boards_and_open_tilings() {
    assert!(Game::try_new(4, 4, 4).is_none());
    assert!(Game::try_new(3, 5, 4).is_none());
    assert!(Game::try_new(0, 4, 4).is_none());
    assert_eq!(Game::try_new(3, 4, 4).unwrap().point_count(), 9);
}

#[test]
fn three_by_three_board_has_nine_points() {
    let game = Game::new(3, 4, 4);
    assert_eq!(game.point_count(), 9);
    for x in [-1.0, 0.0, 1.0] {
        for y in [-1.0, 0.0, 1.0] {
            at(&game, x, y);
        }
    }
    assert_eq!(game.links().len(), 12);
    assert_eq!(game.turn(), Turn::Black);
    assert_eq!(game.get_turn_count(), 1);
    assert_eq!(game.hover_idx, -1);
    assert!(game.needs_render);
    assert!(stones(&game).iter().all(|s| *s == StoneType::Empty));
}

#[test]
fn single_point_board() {
    let game = Game::new(1, 4, 4);
    assert_eq!(game.point_count(), 1);
    assert_eq!(game.neighbors_of(0).len(), 0);
    assert_eq!(game.links().len(), 0);
}

#[test]
fn seed_stands_at_the_origin() {
    let game = Game::new(5, 4, 4);
    assert_eq!(game.position_of(0), FlatPoint { x: 0.0, y: 0.0 });
    assert_eq!(game.transform_of(0), FlatSpinor::one());
}

#[test]
fn interior_points_have_four_neighbors() {
    for edge in [3u32, 5, 7, 19] {
        let game = Game::new(edge, 4, 4);
        assert_eq!(game.point_count(), (edge * edge) as usize);
        let half = (edge / 2) as f64;
        for i in 0..game.point_count() as i32 {
            let p = game.position_of(i);
            let on_x_edge = (p.x.abs() - half).abs() < 1e-6;
            let on_y_edge = (p.y.abs() - half).abs() < 1e-6;
            let expected = 4 - on_x_edge as usize - on_y_edge as usize;
            assert_eq!(game.neighbors_of(i).len(), expected);
        }
    }
}

#[test]
fn neighbors_lie_one_edge_away() {
    let game = Game::new(5, 4, 4);
    for i in 0..game.point_count() as i32 {
        for &n in game.neighbors_of(i) {
            assert!((game.position_of(i).distance(game.position_of(n)) - 1.0).abs() < 1e-9);
        }
    }
}

#[test]
fn adjacency_is_symmetric() {
    let game = Game::new(7, 4, 4);
    for a in 0..game.point_count() as i32 {
        for &b in game.neighbors_of(a) {
            assert!(game.neighbors_of(b).contains(&a));
            assert_ne!(a, b);
        }
        let mut seen = game.neighbors_of(a).clone();
        seen.sort();
        seen.dedup();
        assert_eq!(seen.len(), game.neighbors_of(a).len());
    }
}

#[test]
fn links_name_every_linked_pair_once() {
    let game = Game::new(5, 4, 4);
    let links = game.links();
    let mut degree_sum = 0;
    for a in 0..game.point_count() as i32 {
        degree_sum += game.neighbors_of(a).len();
    }
    assert_eq!(links.len() * 2, degree_sum);
    for &(a, b) in links {
        assert!(a < b);
        assert!(game.neighbors_of(a).contains(&b));
    }
    assert_eq!(links.len(), 40);
}

#[test]
fn triangular_tiling_gives_six_neighbors() {
    let game = Game::new(5, 3, 6);
    assert_eq!(game.neighbors_of(0).len(), 6);
    for a in 0..game.point_count() as i32 {
        assert!(game.neighbors_of(a).len() <= 6);
        for &b in game.neighbors_of(a) {
            assert!(game.neighbors_of(b).contains(&a));
        }
    }
}

#[test]
fn hexagonal_tiling_gives_three_neighbors() {
    let game = Game::new(7, 6, 3);
    assert_eq!(game.neighbors_of(0).len(), 3);
    for a in 0..game.point_count() as i32 {
        assert!(game.neighbors_of(a).len() <= 3);
        for &b in game.neighbors_of(a) {
            assert!(game.neighbors_of(b).contains(&a));
            assert!((game.position_of(a).distance(game.position_of(b)) - 1.0).abs() < 1e-9);
        }
    }
}

#[test]
fn flat_tilings_that_close() {
    assert!(FlatSpinor::tiling_closes(4, 4));
    assert!(FlatSpinor::tiling_closes(3, 6));
    assert!(FlatSpinor::tiling_closes(6, 3));
    assert!(!FlatSpinor::tiling_closes(5, 4));
    assert!(!FlatSpinor::tiling_closes(3, 7));
}

#[test]
fn capture_of_the_center_stone() {
    let mut game = Game::new(3, 4, 4);
    let center = at(&game, 0.0, 0.0);
    let north = at(&game, 0.0, 1.0);
    let east = at(&game, 1.0, 0.0);
    let south = at(&game, 0.0, -1.0);
    let west = at(&game, -1.0, 0.0);
    let south_west = at(&game, -1.0, -1.0);
    let north_west = at(&game, -1.0, 1.0);
    assert_eq!(game.select_index(north), MoveOutcome::AcceptedNoCapture);
    assert_eq!(game.select_index(center), MoveOutcome::AcceptedNoCapture);
    assert_eq!(game.select_index(east), MoveOutcome::AcceptedNoCapture);
    assert_eq!(game.select_index(south_west), MoveOutcome::AcceptedNoCapture);
    assert_eq!(game.select_index(south), MoveOutcome::AcceptedNoCapture);
    assert_eq!(game.select_index(north_west), MoveOutcome::AcceptedNoCapture);
    assert_eq!(game.stone_at(center), StoneType::White);
    assert_eq!(game.turn(), Turn::Black);
    assert_eq!(game.select_index(west), MoveOutcome::CapturedAndAccepted);
    assert_eq!(game.stone_at(center), StoneType::Empty);
    assert_eq!(game.stone_at(south_west), StoneType::Empty);
    assert_eq!(game.stone_at(north_west), StoneType::Empty);
    for p in [north, east, south, west] {
        assert_eq!(game.stone_at(p), StoneType::Black);
    }
    assert_eq!(game.turn(), Turn::White);
    assert_eq!(game.get_turn_count(), 8);
}

#[test]
fn capture_of_a_lone_center_stone() {
    let mut game = Game::new(5, 4, 4);
    let center = at(&game, 0.0, 0.0);
    let far = [at(&game, 2.0, 2.0), at(&game, -2.0, 2.0), at(&game, -2.0, -2.0)];
    let around = [at(&game, 0.0, 1.0), at(&game, 1.0, 0.0), at(&game, 0.0, -1.0), at(&game, -1.0, 0.0)];
    assert!(game.select_index(around[0]).accepted());
    assert!(game.select_index(center).accepted());
    assert!(game.select_index(around[1]).accepted());
    assert!(game.select_index(far[0]).accepted());
    assert!(game.select_index(around[2]).accepted());
    assert!(game.select_index(far[1]).accepted());
    let before = stones(&game);
    assert_eq!(game.select_index(around[3]), MoveOutcome::CapturedAndAccepted);
    let after = stones(&game);
    for i in 0..before.len() {
        if i as i32 == center {
            assert_eq!(after[i], StoneType::Empty);
        } else if i as i32 == around[3] {
            assert_eq!(after[i], StoneType::Black);
        } else {
            assert_eq!(after[i], before[i]);
        }
    }
}

#[test]
fn self_capture_is_rejected() {
    let mut game = Game::new(3, 4, 4);
    let north = at(&game, 0.0, 1.0);
    let east = at(&game, 1.0, 0.0);
    let north_east = at(&game, 1.0, 1.0);
    let south_west = at(&game, -1.0, -1.0);
    assert!(game.select_index(north).accepted());
    assert!(game.select_index(south_west).accepted());
    assert!(game.select_index(east).accepted());
    let before = stones(&game);
    let count = game.get_turn_count();
    game.needs_render = false;
    assert_eq!(game.turn(), Turn::White);
    assert_eq!(game.select_index(north_east), MoveOutcome::RejectedSelfCapture);
    assert_eq!(game.stone_at(north_east), StoneType::Empty);
    assert_eq!(stones(&game), before);
    assert_eq!(game.turn(), Turn::White);
    assert_eq!(game.get_turn_count(), count);
    assert!(!game.needs_render);
}

#[test]
fn capturing_stone_without_own_liberty_stands() {
    let mut game = Game::new(3, 4, 4);
    let north = at(&game, 0.0, 1.0);
    let east = at(&game, 1.0, 0.0);
    let north_east = at(&game, 1.0, 1.0);
    let north_west = at(&game, -1.0, 1.0);
    let center = at(&game, 0.0, 0.0);
    let south_east = at(&game, 1.0, -1.0);
    assert!(game.try_select_index(north).accepted());
    assert!(game.select_index(east).accepted());
    assert_eq!(game.turn(), Turn::White);
    assert!(game.try_select_index(north_west).accepted());
    assert!(game.try_select_index(center).accepted());
    assert!(game.try_select_index(south_east).accepted());
    assert_eq!(game.select_index(north_east), MoveOutcome::CapturedAndAccepted);
    assert_eq!(game.stone_at(north_east), StoneType::White);
    assert_eq!(game.stone_at(north), StoneType::Empty);
    assert_eq!(game.stone_at(east), StoneType::Empty);
    assert_eq!(game.stone_at(center), StoneType::White);
    assert_eq!(game.turn(), Turn::Black);
}

#[test]
fn occupied_point_is_rejected() {
    let mut game = Game::new(3, 4, 4);
    let center = at(&game, 0.0, 0.0);
    assert_eq!(game.select_index(center), MoveOutcome::AcceptedNoCapture);
    let before = stones(&game);
    assert_eq!(game.select_index(center), MoveOutcome::RejectedOccupied);
    assert_eq!(stones(&game), before);
    assert_eq!(game.turn(), Turn::White);
    assert_eq!(game.get_turn_count(), 2);
}

#[test]
fn off_board_selection_is_rejected() {
    let mut game = Game::new(3, 4, 4);
    assert_eq!(game.select_index(-1), MoveOutcome::RejectedOffBoard);
    assert_eq!(game.select_index(9), MoveOutcome::RejectedOffBoard);
    assert_eq!(game.select_point(FlatPoint { x: 5.0, y: 5.0 }), MoveOutcome::RejectedOffBoard);
    assert_eq!(game.select_point(FlatPoint { x: 0.5, y: 0.5 }), MoveOutcome::RejectedOffBoard);
    assert_eq!(game.turn(), Turn::Black);
    assert_eq!(game.get_turn_count(), 1);
}

#[test]
fn select_point_places_on_the_nearest_point() {
    let mut game = Game::new(3, 4, 4);
    let east = at(&game, 1.0, 0.0);
    assert_eq!(game.select_point(FlatPoint { x: 1.2, y: -0.3 }), MoveOutcome::AcceptedNoCapture);
    assert_eq!(game.stone_at(east), StoneType::Black);
    assert_eq!(game.turn(), Turn::White);
}

#[test]
fn try_select_keeps_the_turn() {
    let mut game = Game::new(3, 4, 4);
    let east = at(&game, 1.0, 0.0);
    assert_eq!(game.try_select_point(FlatPoint { x: 1.0, y: 0.1 }), MoveOutcome::AcceptedNoCapture);
    assert_eq!(game.stone_at(east), StoneType::Black);
    assert_eq!(game.turn(), Turn::Black);
    assert_eq!(game.get_turn_count(), 2);
    assert_eq!(game.try_select_index(east), MoveOutcome::RejectedOccupied);
}

#[test]
fn update_captures_and_self_capture_on_a_set_position() {
    let mut game = Game::new(3, 4, 4);
    let center = at(&game, 0.0, 0.0);
    let north = at(&game, 0.0, 1.0);
    assert!(game.select_index(center).accepted());
    // White to move: the black center stone has liberties, nothing is taken around north.
    assert!(!game.update_captures(north));
    assert_eq!(game.stone_at(center), StoneType::Black);
    // An empty point is never a self-capture; a stone of the other player without regard to liberties is.
    assert!(!game.is_self_capture(north));
    assert!(game.is_self_capture(center));
}

#[test]
fn hover_within_stone_radius() {
    let mut game = Game::new(3, 4, 4);
    let east = at(&game, 1.0, 0.0);
    let hit = game.check_hover_point(Some(FlatPoint { x: 1.0, y: 0.39 }));
    assert_eq!(hit, Some((FlatPoint { x: game.position_of(east).x, y: game.position_of(east).y }, east)));
    assert_eq!(game.hover_idx, east);
    let miss = game.check_hover_point(Some(FlatPoint { x: 1.0, y: 0.41 }));
    assert_eq!(miss, None);
    assert_eq!(game.hover_idx, -1);
    game.check_hover_point(Some(FlatPoint { x: 0.0, y: 0.0 }));
    assert_eq!(game.hover_idx, at(&game, 0.0, 0.0));
    assert_eq!(game.check_hover_point(None), None);
    assert_eq!(game.hover_idx, -1);
}

#[test]
fn undo_then_redo_restores_the_stones() {
    let mut game = Game::new(5, 4, 4);
    let moves = [(0.0, 0.0), (1.0, 0.0), (0.0, 1.0), (2.0, 2.0), (-1.0, -1.0)];
    let mut snapshots = vec![stones(&game)];
    for (x, y) in moves {
        assert!(game.select_point(FlatPoint { x, y }).accepted());
        snapshots.push(stones(&game));
    }
    let n = moves.len() as i32;
    assert_eq!(game.get_turn_count(), n + 1);
    game.move_history(-n);
    assert_eq!(game.get_turn_count(), 1);
    assert_eq!(stones(&game), snapshots[0]);
    game.move_history(n);
    assert_eq!(game.get_turn_count(), n + 1);
    assert_eq!(stones(&game), snapshots[n as usize]);
    for back in 1..=n {
        game.move_history(-back);
        assert_eq!(stones(&game), snapshots[(n - back) as usize]);
        game.move_history(back);
        assert_eq!(stones(&game), snapshots[n as usize]);
    }
}

#[test]
fn history_requests_out_of_range_change_nothing() {
    let mut game = Game::new(3, 4, 4);
    assert!(game.select_index(0).accepted());
    assert!(game.select_index(1).accepted());
    let before = stones(&game);
    game.needs_render = false;
    game.move_history(1);
    assert_eq!(stones(&game), before);
    assert_eq!(game.get_turn_count(), 3);
    assert!(game.needs_render);
    game.move_history(-3);
    assert_eq!(stones(&game), before);
    assert_eq!(game.get_turn_count(), 3);
    game.move_history(i32::MAX);
    game.move_history(i32::MIN);
    assert_eq!(stones(&game), before);
    assert_eq!(game.get_turn_count(), 3);
    game.move_history(-2);
    assert_eq!(game.get_turn_count(), 1);
    assert!(stones(&game).iter().all(|s| *s == StoneType::Empty));
}

#[test]
fn new_move_discards_the_redo_branch() {
    let mut game = Game::new(3, 4, 4);
    assert!(game.select_index(0).accepted());
    assert!(game.select_index(1).accepted());
    assert!(game.select_index(2).accepted());
    game.move_history(-2);
    assert_eq!(game.get_turn_count(), 2);
    assert!(game.select_index(5).accepted());
    assert_eq!(game.get_turn_count(), 3);
    let branch = stones(&game);
    game.move_history(1);
    assert_eq!(game.get_turn_count(), 3);
    assert_eq!(stones(&game), branch);
    assert_eq!(game.stone_at(1), StoneType::Empty);
    assert_eq!(game.stone_at(2), StoneType::Empty);
    assert_ne!(game.stone_at(5), StoneType::Empty);
}

#[test]
fn floating_origin_follows_a_distant_viewpoint() {
    let mut game = Game::new(3, 4, 4);
    game.needs_render = false;
    let near = FlatSpinor::translation(1.9, 0.3);
    assert!(!game.floating_origin_drifted(&near));
    assert!(!game.follow_viewpoint(&near));
    assert_eq!(game.floating_origin(), FlatSpinor::one());
    assert!(!game.needs_render);
    let far = FlatSpinor::translation(2.1, 0.3);
    assert!(game.floating_origin_drifted(&far));
    assert!(game.follow_viewpoint(&far));
    assert_eq!(game.floating_origin(), far);
    assert!(game.needs_render);
    let mut far_r = far.reverse();
    far_r.normalize();
    for i in 0..game.point_count() as i32 {
        assert_eq!(game.relative_transform_of(i), far_r.compose(game.transform_of(i)));
        let seen = game.relative_transform_of(i).apply(FlatPoint::zero());
        let expected = far.reverse().apply(game.position_of(i));
        assert!(seen.distance(expected) < 1e-9);
    }
    assert!(!game.floating_origin_drifted(&FlatSpinor::translation(2.5, 0.3)));
}

#[test]
fn recentering_leaves_the_stones_alone() {
    let mut game = Game::new(3, 4, 4);
    assert!(game.select_index(0).accepted());
    assert!(game.select_index(3).accepted());
    let before = stones(&game);
    let turn = game.turn();
    game.update_floating_origin(&FlatSpinor::translation_to(FlatPoint { x: 3.0, y: -1.0 }));
    assert_eq!(stones(&game), before);
    assert_eq!(game.turn(), turn);
    assert_eq!(game.get_turn_count(), 3);
    game.update_floating_origin(&FlatSpinor::rotation(0.4));
    assert_eq!(stones(&game), before);
}

#[test]
fn tiling_parameters_are_kept() {
    let game = Game::new(5, 4, 4);
    let tiling = game.tiling_parameters();
    assert_eq!((tiling.edge_count, tiling.sides, tiling.around_vertex), (5, 4, 4));
}
