use collider::geom::mask_has_corner_sector;
use collider::geom::Card;
use collider::geom::CardMask;
use collider::geom::Sector;
use collider::geom::ShapeKind;
use collider::geom::Side;
use std::cmp::Ordering;

#[test]
fn flip_gives_the_opposite_direction() {
    assert_eq!(Card::MinusX.flip(), Card::PlusX);
    assert_eq!(Card::PlusX.flip(), Card::MinusX);
    assert_eq!(Card::MinusY.flip(), Card::PlusY);
    assert_eq!(Card::PlusY.flip(), Card::MinusY);
}

#[test]
fn flip_is_an_involution_without_fixed_points() {
    for card in Card::values() {
        assert_eq!(card.flip().flip(), card);
        assert_ne!(card.flip(), card);
    }
}

#[test]
fn values_lists_the_four_directions_in_order() {
    assert_eq!(
        Card::values(),
        [Card::MinusX, Card::MinusY, Card::PlusX, Card::PlusY]
    );
}

#[test]
fn empty_and_full_masks() {
    let empty = CardMask::empty();
    let full = CardMask::full();
    for card in Card::values() {
        assert!(!empty.get(card));
        assert!(full.get(card));
    }
    assert_ne!(empty, full);
}

#[test]
fn set_changes_one_flag() {
    let mut mask = CardMask::empty();
    mask.set(Card::PlusY, true);
    assert!(mask.get(Card::PlusY));
    assert!(!mask.get(Card::MinusY));
    assert!(!mask.get(Card::PlusX));
    assert!(!mask.get(Card::MinusX));
    mask.set(Card::PlusY, false);
    assert_eq!(mask, CardMask::empty());
}

#[test]
fn mask_from_card_allows_that_card_alone() {
    for card in Card::values() {
        let mask = CardMask::from(card);
        for other in Card::values() {
            assert_eq!(mask.get(other), other == card);
        }
    }
}

#[test]
fn mask_flip_swaps_opposites() {
    let mut mask = CardMask::empty();
    mask.set(Card::MinusX, true);
    mask.set(Card::PlusY, true);
    let flipped = mask.flip();
    assert!(flipped.get(Card::PlusX));
    assert!(flipped.get(Card::MinusY));
    assert!(!flipped.get(Card::MinusX));
    assert!(!flipped.get(Card::PlusY));
    assert_eq!(flipped.flip(), mask);
    assert_eq!(CardMask::full().flip(), CardMask::full());
}

#[test]
fn side_from_ordering() {
    assert_eq!(Side::from_ordering(Ordering::Less), Side::Below);
    assert_eq!(Side::from_ordering(Ordering::Equal), Side::Within);
    assert_eq!(Side::from_ordering(Ordering::Greater), Side::Above);
}

#[test]
fn sector_corners() {
    assert!(Sector::new(Side::Below, Side::Above).is_corner());
    assert!(Sector::new(Side::Above, Side::Below).is_corner());
    assert!(!Sector::new(Side::Within, Side::Above).is_corner());
    assert!(!Sector::new(Side::Below, Side::Within).is_corner());
    assert!(!Sector::new(Side::Within, Side::Within).is_corner());
}

#[test]
fn corner_cards_name_the_two_directions() {
    assert_eq!(
        Sector::new(Side::Below, Side::Below).corner_cards(),
        Some((Card::MinusX, Card::MinusY))
    );
    assert_eq!(
        Sector::new(Side::Above, Side::Below).corner_cards(),
        Some((Card::PlusX, Card::MinusY))
    );
    assert_eq!(
        Sector::new(Side::Below, Side::Above).corner_cards(),
        Some((Card::MinusX, Card::PlusY))
    );
    assert_eq!(
        Sector::new(Side::Above, Side::Above).corner_cards(),
        Some((Card::PlusX, Card::PlusY))
    );
    assert_eq!(Sector::new(Side::Within, Side::Above).corner_cards(), None);
    assert_eq!(Sector::new(Side::Above, Side::Within).corner_cards(), None);
}

#[test]
fn mask_has_corner_sector_needs_both_directions() {
    let corner = Sector::new(Side::Above, Side::Below);
    assert!(mask_has_corner_sector(corner, CardMask::full()));
    assert!(!mask_has_corner_sector(corner, CardMask::empty()));
    let mut mask = CardMask::full();
    mask.set(Card::PlusX, false);
    assert!(!mask_has_corner_sector(corner, mask));
    let mut mask = CardMask::empty();
    mask.set(Card::PlusX, true);
    mask.set(Card::MinusY, true);
    assert!(mask_has_corner_sector(corner, mask));
    assert!(!mask_has_corner_sector(
        Sector::new(Side::Within, Side::Below),
        CardMask::full()
    ));
}

#[test]
fn shape_kinds_differ() {
    assert_ne!(ShapeKind::Circle, ShapeKind::Rect);
}
