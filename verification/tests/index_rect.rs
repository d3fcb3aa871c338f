use collider::index_rect::IndexRect;
use std::collections::HashSet;

#[test]
fn test_iterator() {
    let rect = IndexRect::new((2, 3), (5, 7));
    let mut set = HashSet::new();
    let mut iter = rect.iter();
    while let Some((x, y)) = iter.next() {
        assert!(x >= 2 && x < 5);
        assert!(y >= 3 && y < 7);
        assert!(set.insert((x, y)));
    }
    assert_eq!(set.len(), 12);
}

#[test]
fn test_contains() {
    let rect = IndexRect::new((2, 3), (5, 7));
    assert!(rect.contains((2, 3)));
    assert!(rect.contains((4, 6)));
    assert!(!rect.contains((1, 3)));
    assert!(!rect.contains((2, 2)));
    assert!(!rect.contains((5, 6)));
    assert!(!rect.contains((4, 7)));
}

#[test]
fn test_new() {
    IndexRect::new((4, -5), (5, -4));
}

#[test]
fn iteration_runs_y_fastest_and_restarts_after_the_end() {
    let rect = IndexRect::new((-1, 10), (1, 12));
    let mut iter = rect.iter();
    assert_eq!(iter.next(), Some((-1, 10)));
    assert_eq!(iter.next(), Some((-1, 11)));
    assert_eq!(iter.next(), Some((0, 10)));
    assert_eq!(iter.next(), Some((0, 11)));
    assert_eq!(iter.next(), None);
    assert_eq!(iter.next(), Some((-1, 10)));
}

#[test]
fn covering_is_never_empty() {
    let rect = IndexRect::covering((3, 4), (3, 9));
    assert_eq!(rect.start(), (3, 4));
    assert_eq!(rect.end(), (4, 9));
    let rect = IndexRect::covering((3, 4), (1, 2));
    assert_eq!(rect.end(), (4, 5));
    let rect = IndexRect::covering((-2, -2), (2, 2));
    assert_eq!(rect.end(), (2, 2));
}
