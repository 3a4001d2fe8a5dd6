use c070r_lib::color::Color;

#[test]
fn blank_is_the_blank_member() {
    assert_eq!(Color::blank(), Color::_BLANK);
}

#[test]
fn rgba_values_exact() {
    assert_eq!(Color::B.as_rgba(), (0, 0, 255, 255));
    assert_eq!(Color::G.as_rgba(), (0, 255, 0, 255));
    assert_eq!(Color::O.as_rgba(), (255, 255, 255, 255));
    assert_eq!(Color::R.as_rgba(), (255, 0, 0, 255));
    assert_eq!(Color::X.as_rgba(), (0, 0, 0, 255));
    assert_eq!(Color::Y.as_rgba(), (255, 255, 0, 255));
    assert_eq!(Color::_BLANK.as_rgba(), (0, 0, 0, 0));
}

#[test]
fn rgba_is_pure() {
    for c in [Color::_BLANK, Color::R, Color::G, Color::B, Color::Y, Color::X, Color::O] {
        assert_eq!(c.as_rgba(), c.as_rgba());
    }
}

#[test]
fn glyph_values_exact() {
    assert_eq!(Color::B.glyph(), "B");
    assert_eq!(Color::G.glyph(), "G");
    assert_eq!(Color::O.glyph(), "#");
    assert_eq!(Color::R.glyph(), "R");
    assert_eq!(Color::Y.glyph(), "Y");
    assert_eq!(Color::X.glyph(), "-");
    assert_eq!(Color::_BLANK.glyph(), " ");
}

#[test]
fn glyph_is_pure() {
    for c in [Color::_BLANK, Color::R, Color::G, Color::B, Color::Y, Color::X, Color::O] {
        assert_eq!(c.glyph(), c.glyph());
    }
}

#[test]
fn from_index_mapping_exact() {
    assert_eq!(Color::from_index(0), Color::B);
    assert_eq!(Color::from_index(1), Color::G);
    assert_eq!(Color::from_index(2), Color::O);
    assert_eq!(Color::from_index(3), Color::R);
    assert_eq!(Color::from_index(4), Color::X);
    assert_eq!(Color::from_index(5), Color::Y);
}

#[test]
fn random_never_blank_and_all_playable_appear() {
    let mut seen_b = false;
    let mut seen_g = false;
    let mut seen_o = false;
    let mut seen_r = false;
    let mut seen_x = false;
    let mut seen_y = false;
    for _ in 0..10_000 {
        match Color::random() {
            Color::_BLANK => panic!("random produced the blank sentinel"),
            Color::B => seen_b = true,
            Color::G => seen_g = true,
            Color::O => seen_o = true,
            Color::R => seen_r = true,
            Color::X => seen_x = true,
            Color::Y => seen_y = true,
        }
    }
    assert!(seen_b && seen_g && seen_o && seen_r && seen_x && seen_y);
}
