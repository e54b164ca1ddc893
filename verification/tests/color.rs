use dinamika::{ColorU8, PremultipliedColorU8};

#[test]
fn premultiply_roundtrip() {
    let c = ColorU8::from_rgba(200, 100, 50, 128);
    let p = c.premultiply();
    let back = p.demultiply();
    assert!((back.red() as i32 - 200).abs() <= 2);
    assert!((back.green() as i32 - 100).abs() <= 2);
    assert_eq!(back.alpha(), 128);
}

#[test]
fn opaque_premultiply_identity() {
    let c = ColorU8::from_rgba(10, 20, 30, 255).premultiply();
    assert_eq!(c, PremultipliedColorU8::from_rgba_unchecked(10, 20, 30, 255));
}

#[test]
fn premultiply_rounds_to_nearest() {
    let p = ColorU8::from_rgba(200, 100, 50, 128).premultiply();
    assert_eq!((p.red(), p.green(), p.blue(), p.alpha()), (100, 50, 25, 128));
    let q = ColorU8::from_rgba(255, 0, 0, 128).premultiply();
    assert_eq!((q.red(), q.green(), q.blue(), q.alpha()), (128, 0, 0, 128));
}

#[test]
fn clear_color_premultiplies_to_transparent() {
    let p = ColorU8::from_rgba(250, 140, 30, 0).premultiply();
    assert_eq!(p, PremultipliedColorU8::transparent());
}

#[test]
fn demultiply_divides_and_clamps() {
    let c = PremultipliedColorU8::from_rgba_unchecked(100, 50, 25, 128).demultiply();
    assert_eq!((c.red(), c.green(), c.blue(), c.alpha()), (199, 100, 50, 128));
    // An invalid value (channel above alpha) is clamped to 255.
    let d = PremultipliedColorU8::from_rgba_unchecked(200, 0, 0, 100).demultiply();
    assert_eq!(d.red(), 255);
    let z = PremultipliedColorU8::from_rgba_unchecked(7, 8, 9, 0).demultiply();
    assert_eq!(z, ColorU8::from_rgba(0, 0, 0, 0));
}

#[test]
fn premultiply_after_demultiply_is_identity_for_valid_colors() {
    for a in [1u8, 2, 17, 128, 200, 255] {
        for c in [0u8, 1, a / 3, a / 2, a] {
            let p = PremultipliedColorU8::from_rgba_unchecked(c, a / 2, 0, a);
            assert_eq!(p.demultiply().premultiply(), p);
        }
    }
}

#[test]
fn demultiply_after_premultiply_error_is_bounded() {
    for a in [1u8, 3, 64, 128, 254, 255] {
        for c in [0u8, 1, 99, 128, 200, 255] {
            let back = ColorU8::from_rgba(c, c, c, a).premultiply().demultiply();
            let err = (back.red() as i32 - c as i32).abs();
            assert!(2 * a as i32 * err <= 255 + a as i32, "a={a} c={c} back={}", back.red());
        }
    }
}
