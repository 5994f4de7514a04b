use nyx::camera::CameraManager;
use nyx::color::Rgba;
use nyx::geometry::{check_collide, Recti, Vec2i};
use nyx::light::{Light, LightMode};
use nyx::player::{DirKey, KeysHeld, Player};
use nyx::toggle::ToggleKey;

fn grey() -> Rgba {
    Rgba::new(26, 26, 26, 255)
}

fn test_light() -> Light {
    Light::new(Vec2i::new(0, 0), 3600, LightMode::Static, grey()).unwrap()
}

fn held(up: bool, down: bool, left: bool, right: bool) -> KeysHeld {
    KeysHeld { up, down, left, right }
}

fn none_held() -> KeysHeld {
    held(false, false, false, false)
}

#[test]
fn toggle_reports_only_rising_edge() {
    let mut t = ToggleKey::new();
    assert!(t.down(true));
    assert!(!t.down(true));
    assert!(!t.down(false));
    assert!(t.down(true));
    assert!(!t.down(true));
}

#[test]
fn opposite_directions() {
    assert_eq!(DirKey::Up.opposite(), DirKey::Down);
    assert_eq!(DirKey::Down.opposite(), DirKey::Up);
    assert_eq!(DirKey::Left.opposite(), DirKey::Right);
    assert_eq!(DirKey::Right.opposite(), DirKey::Left);
}

#[test]
fn key_press_enters_intent_list_and_release_removes_it() {
    let mut p = Player::new(Vec2i::new(0, 0), 8000, 10000, test_light());
    p.set_keys_down(held(false, false, false, true));
    assert_eq!(p.keys, vec![DirKey::Right]);
    // Holding adds nothing more.
    p.set_keys_down(held(false, false, false, true));
    assert_eq!(p.keys, vec![DirKey::Right]);
    // A second key lands after the first.
    p.set_keys_down(held(true, false, false, true));
    assert_eq!(p.keys, vec![DirKey::Right, DirKey::Up]);
    // Releasing the first removes it and keeps the order of the rest.
    p.set_keys_down(held(true, false, false, false));
    assert_eq!(p.keys, vec![DirKey::Up]);
}

#[test]
fn latest_uncancelled_key_moves_the_player() {
    let mut p = Player::new(Vec2i::new(0, 0), 8000, 10000, test_light());
    p.set_keys_down(held(false, false, false, true));
    p.set_keys_down(held(true, false, false, true));
    // Up was pressed after right: up wins the scan.
    let (idle, dir) = p.calc_dir();
    assert!(!idle);
    assert_eq!(dir, DirKey::Up);
    assert_eq!(p.last_dir, DirKey::Up);
}

#[test]
fn opposite_keys_cancel_and_player_rests() {
    let mut p = Player::new(Vec2i::new(0, 0), 8000, 10000, test_light());
    p.set_keys_down(held(false, false, true, false));
    p.set_keys_down(held(false, false, true, true));
    // Left and right cancel; the stored direction stands in.
    let (idle, dir) = p.calc_dir();
    assert!(idle);
    assert_eq!(dir, DirKey::Right);
}

#[test]
fn cancelled_pair_falls_back_to_earlier_key() {
    let mut p = Player::new(Vec2i::new(0, 0), 8000, 10000, test_light());
    p.set_keys_down(held(false, true, false, false));
    p.set_keys_down(held(false, true, true, false));
    p.set_keys_down(held(false, true, true, true));
    // Left and right cancel; down, pressed first, still moves.
    let (idle, dir) = p.calc_dir();
    assert!(!idle);
    assert_eq!(dir, DirKey::Down);
}

#[test]
fn movement_speed_is_twenty_pixels_per_second() {
    let mut p = Player::new(Vec2i::new(1000, 2000), 8000, 10000, test_light());
    let disp = p.update(held(false, false, false, true), 500);
    // 20 milli-pixels per millisecond for 500 ms: 10000 milli-pixels right.
    assert_eq!(disp, Vec2i::new(10000, 0));
    assert_eq!(p.pt, Vec2i::new(11000, 2000));
    let disp2 = p.update(held(true, false, false, false), 250);
    // Up was pressed after right and both are held: up wins.
    assert_eq!(disp2, Vec2i::new(0, -5000));
    assert_eq!(p.pt, Vec2i::new(11000, -3000));
}

#[test]
fn update_without_keys_stays_put() {
    let mut p = Player::new(Vec2i::new(5000, 5000), 8000, 10000, test_light());
    let disp = p.update(none_held(), 16);
    assert_eq!(disp, Vec2i::new(0, 0));
    assert_eq!(p.pt, Vec2i::new(5000, 5000));
}

#[test]
fn update_recenters_the_carried_light() {
    let mut p = Player::new(Vec2i::new(0, 0), 8000, 10000, test_light());
    p.update(held(false, true, false, false), 100);
    // Down for 100 ms: 2000 milli-pixels; light at center of the body.
    assert_eq!(p.pt, Vec2i::new(0, 2000));
    assert_eq!(p.light.pt, Vec2i::new(4000, 7000));
}

#[test]
fn camera_follows_player_displacement() {
    let mut cm = CameraManager::new(Vec2i::new(0, 0), Vec2i::new(-124_000, -67_000));
    assert_eq!(cm.target_offset, Vec2i::new(-124_000, -67_000));
    let mut p = Player::new(Vec2i::new(0, 0), 8000, 10000, test_light());
    let disp = p.update(held(false, false, true, false), 1000);
    assert_eq!(disp, Vec2i::new(-20000, 0));
    cm.apply_displacement(disp);
    assert_eq!(cm.pt, Vec2i::new(-20000, 0));
    // A world point's screen position is the point minus the anchor.
    assert_eq!(cm.calc_offset(Vec2i::new(1000, 1000)), Vec2i::new(21000, 1000));
}

#[test]
fn check_collide_reports_overlap_region() {
    let a = Vec2i::new(0, 0);
    let b = Vec2i::new(5000, 3000);
    let ov = check_collide(a, 8000, 6000, b, 8000, 6000).unwrap();
    assert_eq!(ov, Recti { x: 5000, y: 3000, w: 3000, h: 3000 });
}

#[test]
fn check_collide_touching_rectangles_do_not_collide() {
    let a = Vec2i::new(0, 0);
    let b = Vec2i::new(8000, 0);
    assert!(check_collide(a, 8000, 6000, b, 8000, 6000).is_none());
    let c = Vec2i::new(9000, 0);
    assert!(check_collide(a, 8000, 6000, c, 8000, 6000).is_none());
}

#[test]
fn collision_pushes_out_along_smaller_overlap() {
    // Player 8x10 px at (0,0); obstacle overlapping its right edge with a
    // tall thin overlap: the push is horizontal.
    let mut p = Player::new(Vec2i::new(0, 0), 8000, 10000, test_light());
    let obstacle = Recti { x: 6000, y: -1000, w: 8000, h: 12000 };
    let (hit, mv) = p.collide_immovable(obstacle);
    assert!(hit);
    // Overlap is 2000 wide by 10000 tall: push left by rect.x + rect.w -
    // other.x = 8000 - 6000.
    assert_eq!(mv, Vec2i::new(-2000, 0));
    assert_eq!(p.pt, Vec2i::new(-2000, 0));
}

#[test]
fn collision_pushes_out_vertically_for_wide_overlap() {
    let mut p = Player::new(Vec2i::new(0, 0), 8000, 10000, test_light());
    let obstacle = Recti { x: -1000, y: 8000, w: 10000, h: 10000 };
    let (hit, mv) = p.collide_immovable(obstacle);
    assert!(hit);
    // Overlap is 8000 wide by 2000 tall: push up by other.y - (rect.y +
    // rect.h) = 8000 - 10000.
    assert_eq!(mv, Vec2i::new(0, -2000));
    assert_eq!(p.pt, Vec2i::new(0, -2000));
}

#[test]
fn collision_records_wall_direction_when_moving() {
    let mut p = Player::new(Vec2i::new(0, 0), 8000, 10000, test_light());
    p.set_keys_down(held(false, false, false, true));
    let obstacle = Recti { x: 6000, y: -1000, w: 8000, h: 12000 };
    let (hit, _mv) = p.collide_immovable(obstacle);
    assert!(hit);
    assert_eq!(p.wall_dirs, vec![DirKey::Right]);
    // The next full tick clears the record.
    p.update(none_held(), 16);
    assert!(p.wall_dirs.is_empty());
}

#[test]
fn no_collision_without_proper_overlap() {
    let mut p = Player::new(Vec2i::new(0, 0), 8000, 10000, test_light());
    let far = Recti { x: 50000, y: 50000, w: 1000, h: 1000 };
    let (hit, mv) = p.collide_immovable(far);
    assert!(!hit);
    assert_eq!(mv, Vec2i::new(0, 0));
    assert_eq!(p.pt, Vec2i::new(0, 0));
}

#[test]
fn vector_arithmetic() {
    let a = Vec2i::new(3, 4);
    let b = Vec2i::new(-1, 10);
    assert_eq!(a.add(b), Vec2i::new(2, 14));
    assert_eq!(a.sub(b), Vec2i::new(4, -6));
}
