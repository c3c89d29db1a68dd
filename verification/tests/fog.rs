use lonely_tribes::fog::{LightCacher, FACTOR_ONE};
use lonely_tribes::point_light::PointLight;
use lonely_tribes::tile::TileTransform;
use lonely_tribes::visibility::VisibilityMap;

const WIDTH: i32 = 64;
const HEIGHT: i32 = 36;

fn light(x: i32, y: i32, radius: i32) -> (TileTransform, PointLight) {
    (TileTransform::new(x, y), PointLight::new(radius))
}

fn maps_equal_on_grid(a: &VisibilityMap, b: &VisibilityMap, w: i32, h: i32) -> bool {
    if a.len() != b.len() {
        return false;
    }
    for x in 0..w {
        for y in 0..h {
            let t = TileTransform::new(x, y);
            if a.get(t) != b.get(t) {
                return false;
            }
        }
    }
    true
}

#[test]
fn disabled_mode_returns_full_grid() {
    let mut cacher = LightCacher::default();
    let lights = vec![light(5, 5, 3), light(2, 2, 10)];
    let colls = vec![TileTransform::new(1, 1)];
    let map = cacher.get_lighted_cells(&lights, &colls, false, 8, 5);
    assert_eq!(map.len(), 40);
    for x in 0..8 {
        for y in 0..5 {
            assert_eq!(map.get(TileTransform::new(x, y)), Some(FACTOR_ONE));
        }
    }
    assert!(map.get(TileTransform::new(8, 0)).is_none());
    assert!(map.get(TileTransform::new(0, 5)).is_none());
    // the fast path must not touch the cache
    assert!(cacher.current.is_none());
}

#[test]
fn disabled_mode_ignores_light_and_collider_input() {
    let mut with_input = LightCacher::default();
    let mut without_input = LightCacher::default();
    let lights = vec![light(1, 1, 2)];
    let colls = vec![TileTransform::new(3, 3)];
    let a = with_input.get_lighted_cells(&lights, &colls, false, 6, 4);
    let b = without_input.get_lighted_cells(&Vec::new(), &Vec::new(), false, 6, 4);
    assert_eq!(a.len(), 24);
    assert!(maps_equal_on_grid(&a, &b, 6, 4));
}

#[test]
fn light_center_is_fully_lit_and_radius_is_strict() {
    let mut cacher = LightCacher::default();
    let lights = vec![light(5, 5, 3)];
    let map = cacher.get_lighted_cells(&lights, &Vec::new(), true, WIDTH, HEIGHT);
    // distance 0: full brightness
    assert_eq!(map.get(TileTransform::new(5, 5)), Some(FACTOR_ONE));
    // distance 4 >= radius 3: excluded
    assert_eq!(map.get(TileTransform::new(9, 5)), None);
    // distance 3 == radius 3: the test is strict, so excluded too
    assert_eq!(map.get(TileTransform::new(8, 5)), None);
    // linear falloff, fixed-point: (3 - 1) / 3 and (3 - 2) / 3
    assert_eq!(map.get(TileTransform::new(6, 5)), Some(666_666));
    assert_eq!(map.get(TileTransform::new(7, 5)), Some(333_333));
}

#[test]
fn overlapping_lights_saturate_at_full() {
    let mut cacher = LightCacher::default();
    let lights = vec![light(2, 2, 2), light(3, 2, 2)];
    let map = cacher.get_lighted_cells(&lights, &Vec::new(), true, WIDTH, HEIGHT);
    // each light fully lights its own tile; the neighbour's
    // contribution is clamped away
    assert_eq!(map.get(TileTransform::new(2, 2)), Some(FACTOR_ONE));
    assert_eq!(map.get(TileTransform::new(3, 2)), Some(FACTOR_ONE));
    // a tile reached by both lights sums their contributions:
    // 500_000 from (2,2) at distance 1, 292_893 from (3,2) at
    // distance sqrt(2)
    assert_eq!(map.get(TileTransform::new(2, 3)), Some(792_893));
    // nothing anywhere exceeds full brightness
    for x in 0..WIDTH {
        for y in 0..HEIGHT {
            if let Some(f) = map.get(TileTransform::new(x, y)) {
                assert!(f <= FACTOR_ONE);
            }
        }
    }
}

#[test]
fn large_radius_is_clamped_to_the_grid() {
    let mut cacher = LightCacher::default();
    let map = cacher.get_lighted_cells(&vec![light(4, 2, 100)], &Vec::new(), true, 8, 5);
    // the radius dwarfs the grid, so exactly the whole grid is lit
    assert_eq!(map.len(), 40);
    for x in 0..8 {
        for y in 0..5 {
            let f = map.get(TileTransform::new(x, y)).expect("tile lit");
            assert!(f <= FACTOR_ONE);
        }
    }
    assert_eq!(map.get(TileTransform::new(4, 2)), Some(FACTOR_ONE));
}

#[test]
fn repeated_call_returns_identical_map() {
    let mut cacher = LightCacher::default();
    let lights = vec![light(4, 4, 2), light(10, 8, 3)];
    let colls = vec![TileTransform::new(6, 6)];
    let first = cacher.get_lighted_cells(&lights, &colls, true, WIDTH, HEIGHT);
    let second = cacher.get_lighted_cells(&lights, &colls, true, WIDTH, HEIGHT);
    assert!(maps_equal_on_grid(&first, &second, WIDTH, HEIGHT));
    // the cache holds the produced map with the position lists
    let data = cacher.current.as_ref().expect("cache filled after a computation");
    assert_eq!(data.lights.len(), 2);
    assert_eq!(data.lights[0], TileTransform::new(4, 4));
    assert_eq!(data.lights[1], TileTransform::new(10, 8));
    assert_eq!(data.colls.len(), 1);
    assert!(maps_equal_on_grid(&data.tints, &first, WIDTH, HEIGHT));
}

#[test]
fn radius_change_alone_is_a_cache_hit() {
    let mut cacher = LightCacher::default();
    let first = cacher.get_lighted_cells(&vec![light(10, 10, 2)], &Vec::new(), true, WIDTH, HEIGHT);
    // same position, much larger radius: the position-only cache key
    // treats this as a hit, so the stale map comes back
    let second =
        cacher.get_lighted_cells(&vec![light(10, 10, 5)], &Vec::new(), true, WIDTH, HEIGHT);
    assert!(maps_equal_on_grid(&first, &second, WIDTH, HEIGHT));
    // a radius-5 light would reach this tile at distance 3; the stale
    // radius-2 map does not
    assert_eq!(second.get(TileTransform::new(13, 10)), None);
}

#[test]
fn position_change_is_a_cache_miss() {
    let mut cacher = LightCacher::default();
    let first = cacher.get_lighted_cells(&vec![light(10, 10, 2)], &Vec::new(), true, WIDTH, HEIGHT);
    assert_eq!(first.get(TileTransform::new(10, 10)), Some(FACTOR_ONE));
    let second =
        cacher.get_lighted_cells(&vec![light(20, 20, 2)], &Vec::new(), true, WIDTH, HEIGHT);
    assert_eq!(second.get(TileTransform::new(20, 20)), Some(FACTOR_ONE));
    assert_eq!(second.get(TileTransform::new(10, 10)), None);
}

#[test]
fn collider_change_is_a_cache_miss() {
    let mut cacher = LightCacher::default();
    let lights = vec![light(10, 10, 2)];
    let _ = cacher.get_lighted_cells(&lights, &Vec::new(), true, WIDTH, HEIGHT);
    let colls = vec![TileTransform::new(1, 2)];
    let _ = cacher.get_lighted_cells(&lights, &colls, true, WIDTH, HEIGHT);
    // the replaced entry records the collider list of the second call
    let data = cacher.current.as_ref().expect("cache filled");
    assert_eq!(data.colls.len(), 1);
    assert_eq!(data.colls[0], TileTransform::new(1, 2));
}

#[test]
fn edge_light_produces_no_out_of_bounds_tiles() {
    let mut cacher = LightCacher::default();
    let map = cacher.get_lighted_cells(&vec![light(0, 0, 2)], &Vec::new(), true, WIDTH, HEIGHT);
    // exactly the four in-grid tiles strictly within distance 2
    assert_eq!(map.len(), 4);
    assert_eq!(map.get(TileTransform::new(0, 0)), Some(FACTOR_ONE));
    assert_eq!(map.get(TileTransform::new(1, 0)), Some(500_000));
    assert_eq!(map.get(TileTransform::new(0, 1)), Some(500_000));
    assert_eq!(map.get(TileTransform::new(1, 1)), Some(292_893));
}

#[test]
fn zero_radius_lights_only_the_own_tile() {
    let mut cacher = LightCacher::default();
    let map = cacher.get_lighted_cells(&vec![light(3, 3, 0)], &Vec::new(), true, WIDTH, HEIGHT);
    assert_eq!(map.len(), 1);
    assert_eq!(map.get(TileTransform::new(3, 3)), Some(FACTOR_ONE));
}

#[test]
fn negative_radius_lights_only_the_own_tile() {
    let mut cacher = LightCacher::default();
    let map = cacher.get_lighted_cells(&vec![light(3, 3, -7)], &Vec::new(), true, WIDTH, HEIGHT);
    assert_eq!(map.len(), 1);
    assert_eq!(map.get(TileTransform::new(3, 3)), Some(FACTOR_ONE));
}

#[test]
fn coverage_includes_center_and_respects_bounds() {
    let colls = Vec::new();
    let cells =
        LightCacher::get_lighted_cells_no_cache(TileTransform::new(0, 0), 3, &colls, WIDTH, HEIGHT);
    assert!(cells.iter().any(|t| *t == TileTransform::new(0, 0)));
    for t in &cells {
        assert!(t.x >= 0 && t.x < WIDTH);
        assert!(t.y >= 0 && t.y < HEIGHT);
    }
    assert!(!cells.iter().any(|t| *t == TileTransform::new(3, 0)));
    assert!(cells.iter().any(|t| *t == TileTransform::new(2, 0)));
}

#[test]
fn coverage_of_nonpositive_radius_is_only_the_light() {
    let colls = Vec::new();
    let cells =
        LightCacher::get_lighted_cells_no_cache(TileTransform::new(7, 7), 0, &colls, WIDTH, HEIGHT);
    assert_eq!(cells.len(), 1);
    assert_eq!(cells[0], TileTransform::new(7, 7));
}

#[test]
fn lighting_data_equality_ignores_tints_and_radii() {
    let mut a = LightCacher::default();
    let mut b = LightCacher::default();
    // same light position, different radius: different tints
    let _ = a.get_lighted_cells(&vec![light(4, 4, 2)], &Vec::new(), true, WIDTH, HEIGHT);
    let _ = b.get_lighted_cells(&vec![light(4, 4, 6)], &Vec::new(), true, WIDTH, HEIGHT);
    let da = a.current.as_ref().unwrap();
    let db = b.current.as_ref().unwrap();
    assert!(da == db);
    // different light position: unequal
    let mut c = LightCacher::default();
    let _ = c.get_lighted_cells(&vec![light(5, 4, 2)], &Vec::new(), true, WIDTH, HEIGHT);
    let dc = c.current.as_ref().unwrap();
    assert!(da != dc);
}

#[test]
fn cloned_cacher_carries_the_cached_entry() {
    let mut cacher = LightCacher::default();
    let map = cacher.get_lighted_cells(&vec![light(4, 4, 2)], &Vec::new(), true, WIDTH, HEIGHT);
    let copy = cacher.clone();
    let data = copy.current.as_ref().expect("clone keeps the entry");
    assert!(maps_equal_on_grid(&data.tints, &map, WIDTH, HEIGHT));
    assert_eq!(data.lights[0], TileTransform::new(4, 4));
}
