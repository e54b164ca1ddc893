use dinamika::{
    wrap_index, Align, BlendMode, Direction, Easing, Factor, FillRule, FilterQuality, Justify,
    LineCap, LineJoin, SpreadMode, TextAlign,
};

#[test]
fn wrap_index_pads_repeats_and_reflects() {
    assert_eq!(wrap_index(-3, 4, SpreadMode::Pad), 0);
    assert_eq!(wrap_index(2, 4, SpreadMode::Pad), 2);
    assert_eq!(wrap_index(9, 4, SpreadMode::Pad), 3);
    assert_eq!(wrap_index(5, 4, SpreadMode::Repeat), 1);
    assert_eq!(wrap_index(-1, 4, SpreadMode::Repeat), 3);
    assert_eq!(wrap_index(-5, 4, SpreadMode::Repeat), 3);
    assert_eq!(wrap_index(4, 4, SpreadMode::Reflect), 3);
    assert_eq!(wrap_index(7, 4, SpreadMode::Reflect), 0);
    assert_eq!(wrap_index(8, 4, SpreadMode::Reflect), 0);
    assert_eq!(wrap_index(-1, 4, SpreadMode::Reflect), 0);
    assert_eq!(wrap_index(-2, 4, SpreadMode::Reflect), 1);
    assert_eq!(wrap_index(5, 0, SpreadMode::Repeat), 0);
    assert_eq!(wrap_index(i32::MIN, 3, SpreadMode::Repeat), 1);
}

#[test]
fn porter_duff_table() {
    assert_eq!(BlendMode::Clear.porter_duff_factors(), Some((Factor::Zero, Factor::Zero)));
    assert_eq!(
        BlendMode::SourceOver.porter_duff_factors(),
        Some((Factor::One, Factor::OneMinusSourceAlpha))
    );
    assert_eq!(
        BlendMode::Xor.porter_duff_factors(),
        Some((Factor::OneMinusDestinationAlpha, Factor::OneMinusSourceAlpha))
    );
    assert_eq!(BlendMode::Plus.porter_duff_factors(), Some((Factor::One, Factor::One)));
    assert_eq!(BlendMode::Multiply.porter_duff_factors(), None);
    assert_eq!(BlendMode::ColorBurn.porter_duff_factors(), None);
}

#[test]
fn defaults_match_the_css_ones() {
    assert_eq!(BlendMode::default(), BlendMode::SourceOver);
    assert_eq!(SpreadMode::default(), SpreadMode::Pad);
    assert_eq!(FilterQuality::default(), FilterQuality::Nearest);
    assert_eq!(FillRule::default(), FillRule::NonZero);
    assert_eq!(LineCap::default(), LineCap::Butt);
    assert_eq!(LineJoin::default(), LineJoin::Miter);
    assert_eq!(Direction::default(), Direction::Row);
    assert_eq!(Justify::default(), Justify::Start);
    assert_eq!(Align::default(), Align::Start);
    assert_ne!(TextAlign::Left, TextAlign::Right);
    assert_eq!(Easing::default(), Easing::Linear);
}
