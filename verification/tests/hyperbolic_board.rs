use hypergo::game::GameState;
use hypergo::geometry::{Point, Spinor};
use hypergo::stone::{MoveOutcome, StoneType, Turn};
use std::f64::consts::PI;

#[derive(Clone, Copy, Debug, PartialEq)]
struct HyperPoint {
    x: f64,
    y: f64,
    w: f64,
}

impl HyperPoint {
    fn from_flat(x: f64, y: f64) -> Self {
        let w = (1.0 / (1.0 - x * x - y * y)).sqrt();
        HyperPoint { x: x * w, y: y * w, w }
    }

    fn distance(self, b: Self) -> f64 {
        let bl = self.w * b.w - self.x * b.x - self.y * b.y;
        assert!(bl > 0.99);
        bl.max(1.0).acosh()
    }

    fn close_to(self, b: Self, epsilon: f64) -> bool {
        (self.x - b.x).abs() <= epsilon && (self.y - b.y).abs() <= epsilon && (self.w - b.w).abs() <= epsilon
    }
}

impl Point for HyperPoint {
    fn spec_zero() -> Self {
        Self::zero()
    }

    fn spec_within(self, other: Self, tolerance: u32) -> bool {
        self.within(other, tolerance)
    }

    fn zero() -> Self {
        HyperPoint { x: 0.0, y: 0.0, w: 1.0 }
    }

    fn within(self, other: Self, tolerance: u32) -> bool {
        self.distance(other) <= tolerance as f64 / 1000.0
    }
}

#[derive(Clone, Copy, Debug, PartialEq)]
struct HyperSpinor {
    s: f64,
    xy: f64,
    yw: f64,
    wx: f64,
}

impl HyperSpinor {
    fn translation(amt: f64, angle: f64) -> Self {
        let b2 = amt / 2.0;
        HyperSpinor { s: b2.cosh(), xy: 0.0, yw: angle.cos() * b2.sinh(), wx: angle.sin() * b2.sinh() }
    }

    fn translation_to(v: HyperPoint) -> Self {
        let w_factor = (2.0 * (v.w + 1.0)).sqrt();
        HyperSpinor { s: (0.5 * (v.w + 1.0)).sqrt(), xy: 0.0, yw: v.y / w_factor, wx: -v.x / w_factor }
    }

    fn rotation(angle: f64) -> Self {
        let t2 = angle / 2.0;
        HyperSpinor { s: t2.cos(), xy: t2.sin(), yw: 0.0, wx: 0.0 }
    }

    fn magnitude2(&self) -> f64 {
        self.s * self.s + self.xy * self.xy - self.yw * self.yw - self.wx * self.wx
    }

    fn tiling_ratio(sides: u32, around_vertex: u32) -> f64 {
        let angle = 2.0 * PI / (around_vertex as f64);
        (PI / (sides as f64)).cos() / (0.5 * angle).sin()
    }
}

impl Spinor for HyperSpinor {
    type Point = HyperPoint;

    fn spec_one() -> Self {
        Self::one()
    }

    fn spec_tiling_closes(sides: u32, around_vertex: u32) -> bool {
        Self::tiling_closes(sides, around_vertex)
    }

    fn spec_neighbor_direction(sides: u32, around_vertex: u32, step: u32) -> Self {
        Self::neighbor_direction(sides, around_vertex, step)
    }

    fn spec_reverse(self) -> Self {
        self.reverse()
    }

    fn spec_compose(self, rhs: Self) -> Self {
        self.compose(rhs)
    }

    fn spec_normalize(self) -> Self {
        let mut copy = self;
        copy.normalize();
        copy
    }

    fn spec_apply(self, v: HyperPoint) -> HyperPoint {
        self.apply(v)
    }

    fn one() -> Self {
        HyperSpinor { s: 1.0, xy: 0.0, yw: 0.0, wx: 0.0 }
    }

    fn tiling_closes(sides: u32, around_vertex: u32) -> bool {
        sides >= 3 && around_vertex >= 3 && Self::tiling_ratio(sides, around_vertex) > 1.0 + 1e-11
    }

    fn neighbor_direction(sides: u32, around_vertex: u32, step: u32) -> Self {
        let angle = 2.0 * PI / (around_vertex as f64);
        let distance = 2.0 * Self::tiling_ratio(sides, around_vertex).acosh();
        Self::translation(distance, step as f64 * angle)
    }

    fn reverse(&self) -> Self {
        HyperSpinor { s: self.s, xy: -self.xy, yw: -self.yw, wx: -self.wx }
    }

    fn compose(self, rhs: Self) -> Self {
        HyperSpinor {
            s: self.s * rhs.s - self.xy * rhs.xy + self.yw * rhs.yw + self.wx * rhs.wx,
            xy: self.s * rhs.xy + self.xy * rhs.s + self.yw * rhs.wx - self.wx * rhs.yw,
            yw: self.s * rhs.yw + self.yw * rhs.s - self.wx * rhs.xy + self.xy * rhs.wx,
            wx: self.s * rhs.wx + self.wx * rhs.s - self.xy * rhs.yw + self.yw * rhs.xy,
        }
    }

    fn normalize(&mut self) {
        let f = 1.0 / self.magnitude2().sqrt();
        *self = HyperSpinor { s: f * self.s, xy: f * self.xy, yw: f * self.yw, wx: f * self.wx };
    }

    fn apply(&self, v: HyperPoint) -> HyperPoint {
        let (s, xy, yw, wx) = (self.s, self.xy, self.yw, self.wx);
        HyperPoint {
            x: (s * s + wx * wx - yw * yw - xy * xy) * v.x + (2.0 * s * xy - 2.0 * wx * yw) * v.y
                + (-2.0 * s * wx + 2.0 * yw * xy) * v.w,
            y: (-2.0 * s * xy - 2.0 * wx * yw) * v.x + (s * s - wx * wx + yw * yw - xy * xy) * v.y
                + (2.0 * s * yw + 2.0 * wx * xy) * v.w,
            w: (-2.0 * s * wx - 2.0 * yw * xy) * v.x + (2.0 * s * yw - 2.0 * wx * xy) * v.y
                + (s * s + wx * wx + yw * yw + xy * xy) * v.w,
        }
    }
}

type Game = GameState<HyperSpinor>;

fn stones(game: &Game) -> Vec<StoneType> {
    (0..game.point_count() as i32).map(|i| game.stone_at(i)).collect()
}

fn check_graph(game: &Game, around_vertex: usize, edge: f64) {
    let n = game.point_count() as i32;
    for a in 0..n {
        let neighbors = game.neighbors_of(a);
        assert!(neighbors.len() <= around_vertex);
        for (k, &b) in neighbors.iter().enumerate() {
            assert!(0 <= b && b < n && b != a);
            assert!(game.neighbors_of(b).contains(&a));
            assert!(!neighbors[..k].contains(&b));
            assert!((game.position_of(a).distance(game.position_of(b)) - edge).abs() < 1e-6);
        }
    }
}

#[test]
fn hyperbolic_test_translation_to() {
    let v = HyperPoint::from_flat(0.7, -0.4);
    let s = HyperSpinor::translation_to(v);
    assert!(s.apply(HyperPoint::zero()).close_to(v, 1e-9));
    assert!(s.reverse().apply(v).close_to(HyperPoint::zero(), 1e-9));
}

#[test]
fn test_distance() {
    let a = HyperPoint::from_flat(-7.617857059728038e-33, 0.7861513777574234);
    let b = HyperPoint::from_flat(0.0, 0.7861513777574233);
    assert!(a.distance(b) < 1.0);
}

#[test]
fn reverse_undoes_a_hyperbolic_motion() {
    let motions = [
        HyperSpinor::translation(1.0, 0.0),
        HyperSpinor::translation(2.5, 2.0),
        HyperSpinor::rotation(0.7),
        HyperSpinor::translation(2.0, 1.0).compose(HyperSpinor::rotation(-1.3)),
        HyperSpinor::rotation(2.2).compose(HyperSpinor::translation_to(HyperPoint::from_flat(-0.6, 0.5))),
    ];
    let points = [HyperPoint::zero(), HyperPoint::from_flat(0.7, -0.4), HyperPoint::from_flat(-0.2, 0.9)];
    for g in motions {
        for p in points {
            assert!(g.reverse().compose(g).apply(p).close_to(p, 1e-6));
            assert!(g.compose(g.reverse()).apply(p).close_to(p, 1e-6));
            assert!(g.reverse().apply(g.apply(p)).close_to(p, 1e-6));
        }
    }
}

#[test]
fn hyperbolic_composition_applies_the_right_factor_first() {
    let a = HyperSpinor::rotation(0.5);
    let b = HyperSpinor::translation(1.0, 0.3);
    let p = HyperPoint::from_flat(0.3, 0.2);
    assert!(a.compose(b).apply(p).close_to(a.apply(b.apply(p)), 1e-12));
    assert!(!a.compose(b).apply(p).close_to(b.apply(a.apply(p)), 0.1));
    assert!(a.compose(HyperSpinor::one()).apply(p).close_to(a.apply(p), 1e-12));
    assert!(HyperSpinor::one().compose(a).apply(p).close_to(a.apply(p), 1e-12));
}

#[test]
fn motions_keep_points_on_the_hyperboloid() {
    let g = HyperSpinor::translation(2.0, 1.0).compose(HyperSpinor::rotation(-1.3));
    for p in [HyperPoint::zero(), HyperPoint::from_flat(0.7, -0.4), HyperPoint::from_flat(-0.2, 0.9)] {
        let q = g.apply(p);
        assert!((q.w * q.w - (1.0 + q.x * q.x + q.y * q.y)).abs() <= 1e-9 * q.w * q.w);
    }
}

#[test]
fn normalizing_a_unit_hyperbolic_motion_changes_nothing() {
    let mut g = HyperSpinor::translation(2.0, 1.0).compose(HyperSpinor::rotation(-1.3));
    g.normalize();
    let mut again = g;
    again.normalize();
    assert!((again.s - g.s).abs() <= 1e-14);
    assert!((again.xy - g.xy).abs() <= 1e-14);
    assert!((again.yw - g.yw).abs() <= 1e-14);
    assert!((again.wx - g.wx).abs() <= 1e-14);
    assert!((again.magnitude2() - 1.0).abs() <= 1e-14);
}

#[test]
fn hyperbolic_tilings_that_close() {
    assert!(HyperSpinor::tiling_closes(5, 4));
    assert!(HyperSpinor::tiling_closes(4, 5));
    assert!(HyperSpinor::tiling_closes(7, 3));
    assert!(HyperSpinor::tiling_closes(3, 7));
    assert!(!HyperSpinor::tiling_closes(4, 4));
    assert!(!HyperSpinor::tiling_closes(3, 6));
    assert!(!HyperSpinor::tiling_closes(3, 3));
}

#[test]
fn try_new_tests_the_parameters() {
    assert!(Game::try_new(4, 5, 4).is_none());
    assert!(Game::try_new(3, 4, 4).is_none());
    assert!(Game::try_new(3, 3, 5).is_none());
    let game = Game::try_new(3, 5, 4).unwrap();
    assert!(game.point_count() > 1);
    assert_eq!(game.turn(), Turn::Black);
    assert_eq!(game.hover_idx, -1);
    assert!(game.needs_render);
    assert_eq!(game.floating_origin(), HyperSpinor::one());
}

#[test]
fn pentagon_board_is_a_sound_graph() {
    let game = Game::new(9, 5, 4);
    let edge = 2.0 * HyperSpinor::tiling_ratio(5, 4).acosh();
    assert!((edge - 1.061275061905036).abs() < 1e-12);
    check_graph(&game, 4, edge);
    assert_eq!(game.neighbors_of(0).len(), 4);
    assert!(game.point_count() < 2500);
    assert_eq!(game.get_turn_count(), 1);
}

#[test]
fn first_ring_of_the_pentagon_board() {
    let game = Game::new(3, 5, 4);
    // Four pentagons meet at the seed: the seed, its four neighbors,
    // and three more corners of each pentagon.
    assert_eq!(game.point_count(), 1 + 4 + 4 * 2);
    assert_eq!(game.neighbors_of(0).len(), 4);
    check_graph(&game, 4, 1.061275061905036);
}

#[test]
fn heptagon_and_triangle_boards_are_sound_graphs() {
    let heptagons = Game::new(5, 7, 3);
    check_graph(&heptagons, 3, 0.5662563067353151);
    assert_eq!(heptagons.neighbors_of(0).len(), 3);
    let triangles = Game::new(5, 3, 7);
    check_graph(&triangles, 7, 1.0905496635070862);
    assert_eq!(triangles.neighbors_of(0).len(), 7);
    let squares = Game::new(5, 4, 5);
    check_graph(&squares, 5, 1.2537393258123553);
    assert_eq!(squares.neighbors_of(0).len(), 5);
}

#[test]
fn inner_rings_have_full_valence() {
    let game = Game::new(7, 5, 4);
    let smaller = Game::new(5, 5, 4).point_count();
    let smallest = Game::new(3, 5, 4).point_count();
    assert!(smallest < smaller && smaller < game.point_count());
    for a in 0..smallest as i32 {
        assert_eq!(game.neighbors_of(a).len(), 4);
    }
}

#[test]
fn smaller_board_is_a_prefix_of_the_larger() {
    let small = Game::new(3, 5, 4);
    let large = Game::new(5, 5, 4);
    for i in 0..small.point_count() as i32 {
        assert_eq!(small.position_of(i), large.position_of(i));
        assert_eq!(small.transform_of(i), large.transform_of(i));
    }
}

#[test]
fn no_two_points_coincide() {
    let game = Game::new(5, 5, 4);
    let n = game.point_count() as i32;
    for a in 0..n {
        for b in 0..a {
            assert!(game.position_of(a).distance(game.position_of(b)) > 1e-3);
        }
    }
}

#[test]
fn generation_stops_at_the_point_ceiling() {
    let mut game = Game::new(99, 4, 5);
    assert_eq!(game.point_count(), 2500);
    assert_eq!(game.get_turn_count(), 1);
    let n = game.point_count() as i32;
    for a in 0..n {
        for &b in game.neighbors_of(a) {
            assert!(game.neighbors_of(b).contains(&a));
        }
    }
    assert_eq!(game.select_index(2499), MoveOutcome::AcceptedNoCapture);
    assert_eq!(game.get_turn_count(), 2);
    game.move_history(-1);
    assert!(stones(&game).iter().all(|s| *s == StoneType::Empty));
}

#[test]
fn capture_on_the_pentagon_board() {
    let mut game = Game::new(5, 5, 4);
    let around: Vec<i32> = game.neighbors_of(0).clone();
    assert_eq!(around.len(), 4);
    assert!(game.try_select_index(around[0]).accepted());
    assert!(game.try_select_index(around[1]).accepted());
    assert!(game.select_index(around[2]).accepted());
    assert_eq!(game.select_index(0), MoveOutcome::AcceptedNoCapture);
    assert_eq!(game.stone_at(0), StoneType::White);
    assert_eq!(game.select_index(around[3]), MoveOutcome::CapturedAndAccepted);
    assert_eq!(game.stone_at(0), StoneType::Empty);
    assert_eq!(game.select_index(0), MoveOutcome::RejectedSelfCapture);
    assert_eq!(game.stone_at(0), StoneType::Empty);
    assert_eq!(game.turn(), Turn::White);
}

#[test]
fn hover_and_select_by_position() {
    let mut game = Game::new(5, 5, 4);
    let target = 7;
    let pos = game.position_of(target);
    let nearby = HyperSpinor::translation_to(pos).compose(HyperSpinor::translation(0.3, 1.0)).apply(HyperPoint::zero());
    assert!((nearby.distance(pos) - 0.3).abs() < 1e-9);
    assert_eq!(game.check_hover_point(Some(nearby)), Some((pos, target)));
    assert_eq!(game.hover_preview(), Some((target, Turn::Black)));
    let beyond = HyperSpinor::translation_to(pos).compose(HyperSpinor::translation(0.45, 1.0)).apply(HyperPoint::zero());
    let expected_far = (0..game.point_count() as i32).all(|i| game.position_of(i).distance(beyond) > 0.4);
    assert!(expected_far);
    assert_eq!(game.check_hover_point(Some(beyond)), None);
    assert_eq!(game.hover_preview(), None);
    assert_eq!(game.select_point(beyond), MoveOutcome::RejectedOffBoard);
    assert_eq!(game.select_point(nearby), MoveOutcome::AcceptedNoCapture);
    assert_eq!(game.stone_at(target), StoneType::Black);
    game.check_hover_point(Some(nearby));
    assert_eq!(game.hover_idx, target);
    assert_eq!(game.hover_preview(), None);
    assert_eq!(game.occupied_points(), vec![(target, StoneType::Black)]);
}

#[test]
fn recentering_keeps_points_in_place() {
    let mut game = Game::new(5, 5, 4);
    let camera = HyperSpinor::translation(2.5, 0.7).compose(HyperSpinor::rotation(0.3));
    assert!(game.follow_viewpoint(&camera));
    assert_eq!(game.floating_origin(), camera);
    for i in 0..game.point_count() as i32 {
        let seen = game.relative_transform_of(i).apply(HyperPoint::zero());
        let expected = camera.reverse().apply(game.position_of(i));
        assert!(seen.distance(expected) < 1e-4);
    }
    let drift = camera.compose(HyperSpinor::translation(1.0, 2.0));
    assert!(!game.follow_viewpoint(&drift));
    assert_eq!(game.floating_origin(), camera);
}
