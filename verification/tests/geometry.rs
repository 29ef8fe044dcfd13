use tetrust::Block;
use tetrust::piece::Shape;
use tetrust::piece::Species;

const ALL_SPECIES: [Species; 7] = [
    Species::Line,
    Species::Square,
    Species::LRight,
    Species::LLeft,
    Species::SquiggleRight,
    Species::SquiggleLeft,
    Species::Hat,
];

#[test]
fn blocks_are_four_and_distinct_for_every_species_and_orientation() {
    let center = Block { x: 6, y: 5 };
    for species in ALL_SPECIES {
        for rotation in 0..4u8 {
            let blocks = Shape::blocks_for(species, &center, rotation);
            assert_eq!(blocks.len(), 4);
            for i in 0..4 {
                for j in 0..4 {
                    if i != j {
                        assert_ne!(blocks[i], blocks[j]);
                    }
                }
            }
        }
    }
}

#[test]
fn blocks_for_is_deterministic() {
    let center = Block { x: 4, y: 7 };
    for species in ALL_SPECIES {
        for rotation in 0..4u8 {
            let a = Shape::blocks_for(species, &center, rotation);
            let b = Shape::blocks_for(species, &center, rotation);
            assert_eq!(a, b);
        }
    }
}

#[test]
fn line_is_horizontal_then_vertical() {
    let center = Block { x: 3, y: 2 };
    let horizontal = Shape::blocks_for(Species::Line, &center, 0);
    assert_eq!(
        horizontal,
        vec![
            Block { x: 3, y: 2 },
            Block { x: 4, y: 2 },
            Block { x: 5, y: 2 },
            Block { x: 6, y: 2 },
        ]
    );
    let vertical = Shape::blocks_for(Species::Line, &center, 1);
    assert_eq!(
        vertical,
        vec![
            Block { x: 3, y: 2 },
            Block { x: 3, y: 3 },
            Block { x: 3, y: 4 },
            Block { x: 3, y: 5 },
        ]
    );
    assert_eq!(Shape::blocks_for(Species::Line, &center, 2), horizontal);
    assert_eq!(Shape::blocks_for(Species::Line, &center, 3), vertical);
}

#[test]
fn square_ignores_orientation() {
    let center = Block { x: 5, y: 5 };
    let expected = vec![
        Block { x: 5, y: 5 },
        Block { x: 6, y: 5 },
        Block { x: 5, y: 6 },
        Block { x: 6, y: 6 },
    ];
    for rotation in 0..4u8 {
        assert_eq!(Shape::blocks_for(Species::Square, &center, rotation), expected);
    }
}

#[test]
fn l_pieces_mirror_each_other_at_orientation_zero() {
    let center = Block { x: 6, y: 5 };
    let right = Shape::blocks_for(Species::LRight, &center, 0);
    let left = Shape::blocks_for(Species::LLeft, &center, 0);
    // Mirror across the center column: x -> 2 * center.x - x.
    for b in &right {
        let mirrored = Block { x: 2 * center.x - b.x, y: b.y };
        assert!(left.contains(&mirrored));
    }
}

#[test]
fn squiggles_mirror_each_other() {
    let center = Block { x: 6, y: 5 };
    let right = Shape::blocks_for(Species::SquiggleRight, &center, 0);
    let left = Shape::blocks_for(Species::SquiggleLeft, &center, 0);
    for b in &right {
        let mirrored = Block { x: 2 * center.x - b.x, y: b.y };
        assert!(left.contains(&mirrored));
    }
}

#[test]
fn hat_covers_center_and_stem_per_orientation() {
    let center = Block { x: 6, y: 5 };
    for rotation in 0..4u8 {
        let blocks = Shape::blocks_for(Species::Hat, &center, rotation);
        assert!(blocks.contains(&center));
        assert_eq!(blocks.len(), 4);
    }
    let up = Shape::blocks_for(Species::Hat, &center, 0);
    assert!(up.contains(&Block { x: 6, y: 4 }));
    assert!(up.contains(&Block { x: 5, y: 5 }));
    assert!(up.contains(&Block { x: 7, y: 5 }));
}

#[test]
fn four_rotations_return_to_the_original_layout() {
    let center = Block { x: 6, y: 5 };
    for species in ALL_SPECIES {
        for start in 0..4u8 {
            let original = Shape::blocks_for(species, &center, start);
            let mut rotation = start;
            for _ in 0..4 {
                rotation = if rotation >= 3 { 0 } else { rotation + 1 };
            }
            assert_eq!(rotation, start);
            assert_eq!(Shape::blocks_for(species, &center, rotation), original);
        }
    }
}

#[test]
fn spawn_starts_at_orientation_zero_with_the_given_color() {
    let anchor = Block { x: 6, y: 1 };
    let shape = Shape::spawn(Species::Hat, &anchor, 0xabcdef);
    assert_eq!(shape.rotation, 0);
    assert_eq!(shape.color, 0xabcdef);
    assert_eq!(shape.center, anchor);
    assert_eq!(shape.blocks, Shape::blocks_for(Species::Hat, &anchor, 0));
}

#[test]
fn l_right_layouts_per_orientation() {
    let c = Block { x: 6, y: 5 };
    assert_eq!(
        Shape::blocks_for(Species::LRight, &c, 0),
        vec![
            Block { x: 5, y: 6 },
            Block { x: 6, y: 6 },
            Block { x: 7, y: 6 },
            Block { x: 7, y: 5 },
        ]
    );
    assert_eq!(
        Shape::blocks_for(Species::LRight, &c, 1),
        vec![
            Block { x: 5, y: 4 },
            Block { x: 5, y: 5 },
            Block { x: 5, y: 6 },
            Block { x: 6, y: 6 },
        ]
    );
    assert_eq!(
        Shape::blocks_for(Species::LRight, &c, 2),
        vec![
            Block { x: 5, y: 4 },
            Block { x: 6, y: 4 },
            Block { x: 7, y: 4 },
            Block { x: 5, y: 5 },
        ]
    );
    assert_eq!(
        Shape::blocks_for(Species::LRight, &c, 3),
        vec![
            Block { x: 7, y: 4 },
            Block { x: 7, y: 5 },
            Block { x: 7, y: 6 },
            Block { x: 6, y: 4 },
        ]
    );
}

#[test]
fn l_left_layouts_per_orientation() {
    let c = Block { x: 6, y: 5 };
    assert_eq!(
        Shape::blocks_for(Species::LLeft, &c, 0),
        vec![
            Block { x: 5, y: 6 },
            Block { x: 6, y: 6 },
            Block { x: 7, y: 6 },
            Block { x: 5, y: 5 },
        ]
    );
    assert_eq!(
        Shape::blocks_for(Species::LLeft, &c, 1),
        vec![
            Block { x: 6, y: 4 },
            Block { x: 6, y: 5 },
            Block { x: 6, y: 6 },
            Block { x: 7, y: 4 },
        ]
    );
    assert_eq!(
        Shape::blocks_for(Species::LLeft, &c, 2),
        vec![
            Block { x: 5, y: 4 },
            Block { x: 6, y: 4 },
            Block { x: 7, y: 4 },
            Block { x: 7, y: 5 },
        ]
    );
    assert_eq!(
        Shape::blocks_for(Species::LLeft, &c, 3),
        vec![
            Block { x: 7, y: 4 },
            Block { x: 7, y: 5 },
            Block { x: 7, y: 6 },
            Block { x: 6, y: 6 },
        ]
    );
}

#[test]
fn squiggle_layouts_alternate_by_parity() {
    let c = Block { x: 6, y: 5 };
    let right_even = vec![
        Block { x: 5, y: 5 },
        Block { x: 5, y: 6 },
        Block { x: 6, y: 6 },
        Block { x: 6, y: 7 },
    ];
    let right_odd = vec![
        Block { x: 6, y: 5 },
        Block { x: 7, y: 5 },
        Block { x: 6, y: 6 },
        Block { x: 5, y: 6 },
    ];
    assert_eq!(Shape::blocks_for(Species::SquiggleRight, &c, 0), right_even);
    assert_eq!(Shape::blocks_for(Species::SquiggleRight, &c, 1), right_odd);
    assert_eq!(Shape::blocks_for(Species::SquiggleRight, &c, 2), right_even);
    assert_eq!(Shape::blocks_for(Species::SquiggleRight, &c, 3), right_odd);
    let left_even = vec![
        Block { x: 7, y: 5 },
        Block { x: 7, y: 6 },
        Block { x: 6, y: 6 },
        Block { x: 6, y: 7 },
    ];
    let left_odd = vec![
        Block { x: 6, y: 5 },
        Block { x: 5, y: 5 },
        Block { x: 6, y: 6 },
        Block { x: 7, y: 6 },
    ];
    assert_eq!(Shape::blocks_for(Species::SquiggleLeft, &c, 0), left_even);
    assert_eq!(Shape::blocks_for(Species::SquiggleLeft, &c, 1), left_odd);
    assert_eq!(Shape::blocks_for(Species::SquiggleLeft, &c, 2), left_even);
    assert_eq!(Shape::blocks_for(Species::SquiggleLeft, &c, 3), left_odd);
}

#[test]
fn hat_layouts_per_orientation() {
    let c = Block { x: 6, y: 5 };
    assert_eq!(
        Shape::blocks_for(Species::Hat, &c, 1),
        vec![
            Block { x: 6, y: 5 },
            Block { x: 6, y: 4 },
            Block { x: 7, y: 5 },
            Block { x: 6, y: 6 },
        ]
    );
    assert_eq!(
        Shape::blocks_for(Species::Hat, &c, 2),
        vec![
            Block { x: 6, y: 5 },
            Block { x: 5, y: 5 },
            Block { x: 6, y: 6 },
            Block { x: 7, y: 5 },
        ]
    );
    assert_eq!(
        Shape::blocks_for(Species::Hat, &c, 3),
        vec![
            Block { x: 6, y: 5 },
            Block { x: 6, y: 4 },
            Block { x: 5, y: 5 },
            Block { x: 6, y: 6 },
        ]
    );
}

#[test]
fn layout_depends_on_orientation_only_modulo_four() {
    let center = Block { x: 6, y: 5 };
    for species in ALL_SPECIES {
        for rotation in 0..16u8 {
            assert_eq!(
                Shape::blocks_for(species, &center, rotation),
                Shape::blocks_for(species, &center, rotation % 4)
            );
        }
    }
}
