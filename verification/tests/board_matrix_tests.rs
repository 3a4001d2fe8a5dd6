use c070r_lib::board_matrix::BoardMatrix;
use c070r_lib::color::Color;

#[test]
fn init_works() {
    let bm = BoardMatrix::blank();
    for x in 0..5 {
        for y in 0..5 {
            assert_eq!(bm.at(x, y), Color::_BLANK);
        }
    }
}

#[test]
#[should_panic]
fn set_out_of_range_panics() {
    let mut bm = BoardMatrix::blank();
    bm.set(9, 9, &Color::B);
}

#[test]
fn set_works() {
    let mut bm = BoardMatrix::new();
    match bm.at(2, 2) {
        Color::R => {
            bm.set(2, 2, &Color::B);
            assert_eq!(bm.at(2, 2), Color::B);
        }
        _ => {
            bm.set(2, 2, &Color::R);
            assert_eq!(bm.at(2, 2), Color::R);
        }
    }
}

#[test]
fn erase_connected_works() {
    let mut bm = BoardMatrix::blank();

    let c = Color::G;
    // let's form a 5-high 3-wide "cross"; total 7 `c` colors.
    for y in 0..5 {
        bm.set(2, y, &c);
    }
    bm.set(1, 2, &c);
    bm.set(3, 2, &c);

    let c = bm.at(2, 2);
    let erased = bm.erase_connected(2, 2, &c);
    // vertical mid-line is all _BLANK now, as it should?
    for y in 0..5 {
        assert_eq!(Color::_BLANK, bm.at(2, y))
    }
    assert_eq!(7, erased);
}

#[test]
fn erase_outofbounds_silently_ignored() {
    let mut bm = BoardMatrix::blank();
    let erased = bm.erase_connected(5 + 10, 5 + 10, &Color::B);
    assert_eq!(0, erased);
    for x in 0..5 {
        for y in 0..5 {
            assert_eq!(Color::_BLANK, bm.at(x, y));
        }
    }
}

#[test]
fn set_modifies_only_target() {
    let mut bm = BoardMatrix::blank();
    bm.set(2, 2, &Color::X);
    for x in 0..5 {
        for y in 0..5 {
            if x == 2 && y == 2 {
                assert_eq!(bm.at(x, y), Color::X);
            } else {
                assert_eq!(bm.at(x, y), Color::_BLANK);
            }
        }
    }
}

#[test]
fn set_then_at_round_trip() {
    let colors = [
        Color::_BLANK,
        Color::R,
        Color::G,
        Color::B,
        Color::Y,
        Color::X,
        Color::O,
    ];
    for c in &colors {
        let mut bm = BoardMatrix::blank();
        bm.set(1, 3, c);
        assert_eq!(bm.at(1, 3), *c);
    }
}

#[test]
fn erase_leaves_disconnected_region() {
    let mut bm = BoardMatrix::blank();
    // two red cells touching only diagonally are not 4-connected
    bm.set(0, 0, &Color::R);
    bm.set(1, 1, &Color::R);
    // a red pair in the far corner, 4-connected to each other only
    bm.set(4, 4, &Color::R);
    bm.set(4, 3, &Color::R);
    // a green cell right next to the starting cell never matches red
    bm.set(0, 1, &Color::G);

    let erased = bm.erase_connected(0, 0, &Color::R);
    assert_eq!(1, erased);
    assert_eq!(Color::_BLANK, bm.at(0, 0));
    assert_eq!(Color::R, bm.at(1, 1));
    assert_eq!(Color::R, bm.at(4, 4));
    assert_eq!(Color::R, bm.at(4, 3));
    assert_eq!(Color::G, bm.at(0, 1));
}

#[test]
fn erase_full_board_of_one_color() {
    let mut bm = BoardMatrix::blank();
    for x in 0..5 {
        for y in 0..5 {
            bm.set(x, y, &Color::Y);
        }
    }
    let erased = bm.erase_connected(0, 0, &Color::Y);
    assert_eq!(25, erased);
    for x in 0..5 {
        for y in 0..5 {
            assert_eq!(Color::_BLANK, bm.at(x, y));
        }
    }
}

#[test]
fn erase_mismatched_color_is_noop() {
    let mut bm = BoardMatrix::blank();
    bm.set(2, 2, &Color::B);
    let erased = bm.erase_connected(2, 2, &Color::R);
    assert_eq!(0, erased);
    assert_eq!(Color::B, bm.at(2, 2));
}

#[test]
fn random_board_has_no_blank_cell() {
    let bm = BoardMatrix::new();
    for x in 0..5 {
        for y in 0..5 {
            assert_ne!(bm.at(x, y), Color::_BLANK);
        }
    }
}

#[test]
fn is_out_of_bounds_matches_board_edges() {
    assert!(!BoardMatrix::is_out_of_bounds(0, 0));
    assert!(!BoardMatrix::is_out_of_bounds(4, 4));
    assert!(BoardMatrix::is_out_of_bounds(5, 0));
    assert!(BoardMatrix::is_out_of_bounds(0, 5));
    assert!(BoardMatrix::is_out_of_bounds(9, 9));
}

#[test]
fn render_blank_board() {
    let bm = BoardMatrix::blank();
    let expected = "+-----+\n|     |\n|     |\n|     |\n|     |\n|     |\n+-----+\n";
    assert_eq!(expected, bm.render());
}

#[test]
fn render_colored_board() {
    let mut bm = BoardMatrix::blank();
    bm.set(0, 0, &Color::B);
    bm.set(0, 1, &Color::G);
    bm.set(0, 2, &Color::O);
    bm.set(0, 3, &Color::R);
    bm.set(0, 4, &Color::Y);
    bm.set(1, 0, &Color::X);
    bm.set(4, 4, &Color::R);
    let expected = "+-----+\n|BG#RY|\n|-    |\n|     |\n|     |\n|    R|\n+-----+\n";
    assert_eq!(expected, bm.render());
}
