use lonely_tribes::colliders::{Collider, ColliderList};
use lonely_tribes::colliders_list_system::CollidersListSystem;
use lonely_tribes::paused_state::{MovementDisabler, PausedStateMenuAction};
use lonely_tribes::sqrt::isqrt;
use lonely_tribes::tile::TileTransform;
use lonely_tribes::update_tile_transforms::UpdateTileTransforms;
use lonely_tribes::visibility::VisibilityMap;

#[test]
fn isqrt_small_values() {
    assert_eq!(isqrt(0), 0);
    assert_eq!(isqrt(1), 1);
    assert_eq!(isqrt(2), 1);
    assert_eq!(isqrt(3), 1);
    assert_eq!(isqrt(4), 2);
    assert_eq!(isqrt(99), 9);
    assert_eq!(isqrt(100), 10);
}

#[test]
fn isqrt_scaled_distances() {
    // the engine's scaled distances: FACTOR_ONE^2 times a squared
    // tile distance
    assert_eq!(isqrt(1_000_000_000_000), 1_000_000);
    assert_eq!(isqrt(2_000_000_000_000), 1_414_213);
    assert_eq!(isqrt(4_000_000_000_000), 2_000_000);
    assert_eq!(isqrt(5_000_000_000_000), 2_236_067);
}

#[test]
fn isqrt_extreme_values() {
    assert_eq!(isqrt(u128::MAX), u64::MAX as u128);
    let square = (u64::MAX as u128) * (u64::MAX as u128);
    assert_eq!(isqrt(square), u64::MAX as u128);
    assert_eq!(isqrt(square - 1), u64::MAX as u128 - 1);
}

#[test]
fn distance_sq_is_exact() {
    let a = TileTransform::new(5, 5);
    let b = TileTransform::new(9, 5);
    assert_eq!(a.distance_sq(&b), 16);
    assert_eq!(b.distance_sq(&a), 16);
    let c = TileTransform::new(-3, 4);
    let d = TileTransform::new(0, 0);
    assert_eq!(c.distance_sq(&d), 25);
    assert_eq!(c.distance_sq(&c), 0);
    let far = TileTransform::new(i32::MIN, i32::MIN);
    let near = TileTransform::new(i32::MAX, i32::MAX);
    let side = (i32::MAX as i64 - i32::MIN as i64) as u128;
    assert_eq!(far.distance_sq(&near), 2 * side * side);
}

#[test]
fn visibility_map_insert_get_len() {
    let mut m = VisibilityMap::new();
    assert_eq!(m.len(), 0);
    let t = TileTransform::new(2, 3);
    assert_eq!(m.get(t), None);
    m.insert(t, 7);
    assert_eq!(m.get(t), Some(7));
    assert_eq!(m.len(), 1);
    // overwriting keeps a single entry
    m.insert(t, 9);
    assert_eq!(m.get(t), Some(9));
    assert_eq!(m.len(), 1);
    m.insert(TileTransform::new(2, 4), 1);
    assert_eq!(m.len(), 2);
    assert_eq!(m.get(TileTransform::new(2, 4)), Some(1));
}

#[test]
fn visibility_map_clone_matches() {
    let mut m = VisibilityMap::new();
    m.insert(TileTransform::new(0, 0), 5);
    m.insert(TileTransform::new(1, 0), 6);
    let c = m.clone();
    assert_eq!(c.len(), 2);
    assert_eq!(c.get(TileTransform::new(0, 0)), Some(5));
    assert_eq!(c.get(TileTransform::new(1, 0)), Some(6));
}

#[test]
fn collider_constructors() {
    let plain = Collider::default();
    assert!(plain.trigger.is_none());
    let trig = Collider::new(12);
    assert_eq!(trig.trigger, Some(12));
}

#[test]
fn collider_list_set_and_get() {
    let mut list = ColliderList::new();
    assert!(list.get().is_empty());
    assert!(list.get_triggers().is_empty());
    list.set(vec![TileTransform::new(1, 1)]);
    list.set_triggers(vec![(TileTransform::new(2, 2), 4)]);
    assert_eq!(list.get().len(), 1);
    assert_eq!(list.get()[0], TileTransform::new(1, 1));
    assert_eq!(list.get_triggers().len(), 1);
    assert_eq!(list.get_triggers()[0].1, 4);
    let fresh = ColliderList::default();
    assert!(fresh.get().is_empty());
}

#[test]
fn colliders_list_system_partitions() {
    let items = vec![
        (TileTransform::new(0, 0), Collider::default()),
        (TileTransform::new(1, 0), Collider::new(7)),
        (TileTransform::new(2, 0), Collider::default()),
        (TileTransform::new(3, 0), Collider::new(9)),
    ];
    let mut list = ColliderList::new();
    let mut system = CollidersListSystem;
    system.run(&items, &mut list);
    assert_eq!(list.get().len(), 2);
    assert_eq!(list.get()[0], TileTransform::new(0, 0));
    assert_eq!(list.get()[1], TileTransform::new(2, 0));
    assert_eq!(list.get_triggers().len(), 2);
    assert_eq!(list.get_triggers()[0], (TileTransform::new(1, 0), 7));
    assert_eq!(list.get_triggers()[1], (TileTransform::new(3, 0), 9));
}

#[test]
fn tile_to_xyz_anchors_to_centre() {
    let (x, y) = UpdateTileTransforms::tile_to_xyz(TileTransform::new(2, 3), 36);
    assert_eq!(x, 20);
    assert_eq!(y, 260);
    let (x0, y0) = UpdateTileTransforms::tile_to_xyz(TileTransform::new(0, 0), 36);
    assert_eq!(x0, 4);
    assert_eq!(y0, 284);
}

#[test]
fn movement_disabler_defaults_to_enabled_movement() {
    let d = MovementDisabler::default();
    assert!(!d.enabled);
    let paused = MovementDisabler { enabled: true };
    assert!(paused.enabled);
}

#[test]
fn paused_menu_action_is_copied() {
    let a = PausedStateMenuAction::ToggleMovement;
    let b = a;
    assert!(matches!(b, PausedStateMenuAction::ToggleMovement));
}
