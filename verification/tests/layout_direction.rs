use ttyama::layout::Rect;
use ttyama::ui::Direction;

fn rect(x: u16, y: u16, w: u16, h: u16) -> Rect {
    Rect::new(x, y, w, h)
}

#[test]
fn rect_new_keeps_fields_in_range() {
    let r = Rect::new(2, 2, 10, 3);
    assert_eq!(r, Rect { x: 2, y: 2, width: 10, height: 3 });
}

#[test]
fn rect_new_clamps_to_last_cell() {
    let r = Rect::new(65530, 65534, 10, 3);
    assert_eq!(r.x, 65530);
    assert_eq!(r.y, 65534);
    assert_eq!(r.width, 5);
    assert_eq!(r.height, 1);
}

#[test]
fn direction_horizontal() {
    let a = rect(0, 0, 10, 4);
    let b = rect(30, 2, 10, 4);
    assert_eq!(Direction::direction(a, b), Direction::Right);
    assert_eq!(Direction::direction(b, a), Direction::Left);
}

#[test]
fn direction_vertical() {
    let a = rect(0, 0, 10, 4);
    let b = rect(3, 20, 10, 4);
    assert_eq!(Direction::direction(a, b), Direction::Down);
    assert_eq!(Direction::direction(b, a), Direction::Up);
}

#[test]
fn direction_tie_is_vertical() {
    // centres (5, 2) and (15, 12): equal components
    let a = rect(0, 0, 10, 4);
    let b = rect(10, 10, 10, 4);
    assert_eq!(Direction::direction(a, b), Direction::Down);
    assert_eq!(Direction::direction(b, a), Direction::Up);
}

#[test]
fn direction_same_centre_is_down_both_ways() {
    let a = rect(0, 0, 10, 4);
    let b = rect(2, 1, 6, 2);
    assert_eq!(Direction::direction(a, b), Direction::Down);
    assert_eq!(Direction::direction(b, a), Direction::Down);
}

#[test]
fn direction_uses_rounded_centre() {
    // centres (0 + 3/2, 0) = (1, 0) and (2 + 1/2, 1) = (2, 1): tie, so vertical
    let a = rect(0, 0, 3, 1);
    let b = rect(2, 1, 1, 1);
    assert_eq!(Direction::direction(a, b), Direction::Down);
}

#[test]
fn direction_antisymmetric_on_samples() {
    let rects = [
        rect(0, 0, 10, 3),
        rect(12, 0, 10, 3),
        rect(0, 5, 10, 3),
        rect(40, 40, 4, 4),
        rect(7, 30, 20, 1),
    ];
    for a in rects.iter() {
        for b in rects.iter() {
            if a != b {
                let there = Direction::direction(*a, *b);
                let back = Direction::direction(*b, *a);
                assert_eq!(back, there.reverse());
            }
        }
    }
}

#[test]
fn reverse_is_involutive() {
    for d in [Direction::Up, Direction::Down, Direction::Left, Direction::Right] {
        assert_eq!(d.reverse().reverse(), d);
        assert_ne!(d.reverse(), d);
    }
}

#[test]
fn center_in_range_matches_bounds() {
    assert!(Rect::new(65530, 0, 10, 3).center_in_range());
    assert!(Rect { x: 65530, y: 0, width: 10, height: 3 }.center_in_range());
    assert!(!Rect { x: 65530, y: 0, width: 20, height: 3 }.center_in_range());
    assert!(!Rect { x: 0, y: 65535, width: 1, height: 2 }.center_in_range());
}
