use rplace::pixel::{basic_pixel_pattern, PixelColor};

const PALETTE: [(PixelColor, u32); 32] = [
    (PixelColor::Maroon, 0x6d001a),
    (PixelColor::Red, 0xbe0039),
    (PixelColor::RedOrange, 0xff4500),
    (PixelColor::Orange, 0xffa800),
    (PixelColor::Yellow, 0xffd635),
    (PixelColor::LightYellow, 0xfff8b8),
    (PixelColor::ForestGreen, 0x00a368),
    (PixelColor::Green, 0x00cc78),
    (PixelColor::YellowGreen, 0x7eed56),
    (PixelColor::DarkGreen, 0x00756f),
    (PixelColor::BlueGreen, 0x009eaa),
    (PixelColor::Aquamarine, 0x00ccc0),
    (PixelColor::DarkBlue, 0x2450a4),
    (PixelColor::Blue, 0x3690ea),
    (PixelColor::Teal, 0x51e9f4),
    (PixelColor::DarkBluePurple, 0x493ac1),
    (PixelColor::BluePurple, 0x6a5cff),
    (PixelColor::BabyBlue, 0x94b3ff),
    (PixelColor::Grape, 0x811e9f),
    (PixelColor::Purple, 0xb44ac0),
    (PixelColor::Lavender, 0xe4abff),
    (PixelColor::Lipstick, 0xde107f),
    (PixelColor::Salmon, 0xff3881),
    (PixelColor::LightSalmon, 0xff99aa),
    (PixelColor::Mud, 0x6d482f),
    (PixelColor::Brown, 0x9c6926),
    (PixelColor::Tan, 0xffb470),
    (PixelColor::Black, 0x000000),
    (PixelColor::DarkGrey, 0x515252),
    (PixelColor::Grey, 0x898d90),
    (PixelColor::LightGrey, 0xd4d7d9),
    (PixelColor::White, 0xffffff),
];

#[test]
fn palette_values() {
    for (i, (color, value)) in PALETTE.iter().enumerate() {
        assert_eq!(u32::from(*color), *value);
        assert_eq!(u64::from(*color), *value as u64);
        assert_eq!(color.to_rgb(), *value);
        assert_eq!(color.index(), i as u32);
        assert_eq!(PixelColor::from_index(i as u32), Some(*color));
        assert_eq!(PixelColor::try_from(*value), Ok(*color));
        assert_eq!(PixelColor::try_from(*value as u64), Ok(*color));
    }
    assert_eq!(PixelColor::COUNT, 32);
    assert_eq!(PixelColor::from_index(32), None);
    assert_eq!(PixelColor::from_index(u32::MAX), None);
}

#[test]
fn palette_in_order() {
    let all = PixelColor::iter();
    assert_eq!(all.len(), 32);
    for (i, color) in all.iter().enumerate() {
        assert_eq!(*color, PALETTE[i].0);
    }
}

#[test]
fn default_color_is_black() {
    assert_eq!(PixelColor::default(), PixelColor::Black);
}

#[test]
fn unknown_values_have_no_color() {
    assert_eq!(PixelColor::try_from(0x000001u32), Err(()));
    assert_eq!(PixelColor::try_from(0xfffffeu32), Err(()));
    assert_eq!(PixelColor::try_from(0x1_00ff_ffffu64), Err(()));
    assert_eq!(PixelColor::try_from(u64::MAX), Err(()));
    assert_eq!(PixelColor::from_rgb(0x6d001b), None);
}

#[test]
fn colors_from_hexadecimal_text() {
    assert_eq!(PixelColor::try_from(&"#FF4500".to_string()), Ok(PixelColor::RedOrange));
    assert_eq!(PixelColor::try_from(&"#ff4500".to_string()), Ok(PixelColor::RedOrange));
    assert_eq!(PixelColor::try_from(&"ff4500".to_string()), Ok(PixelColor::RedOrange));
    assert_eq!(PixelColor::try_from(&"##000000".to_string()), Ok(PixelColor::Black));
    assert_eq!(PixelColor::try_from(&"#0".to_string()), Ok(PixelColor::Black));
    assert_eq!(PixelColor::from_hex("#FFFFFF"), Ok(PixelColor::White));
    assert_eq!(PixelColor::from_hex("#6D001A"), Ok(PixelColor::Maroon));
    // no number
    assert_eq!(PixelColor::from_hex(""), Err(()));
    assert_eq!(PixelColor::from_hex("#"), Err(()));
    assert_eq!(PixelColor::from_hex("#GG0000"), Err(()));
    assert_eq!(PixelColor::from_hex("FF4500#"), Err(()));
    assert_eq!(PixelColor::from_hex("#1FFFFFFFF"), Err(()));
    // a number, but no color
    assert_eq!(PixelColor::from_hex("#123456"), Err(()));
}

#[test]
fn pattern_turns_the_palette() {
    let pixels = basic_pixel_pattern();
    assert_eq!(pixels.len(), 32);
    for i in 0..32 {
        assert_eq!(pixels[i].len(), 32);
        for j in 0..32 {
            assert_eq!(pixels[i][(i + j) % 32], PALETTE[j].0);
        }
    }
    assert_eq!(pixels[0][0], PixelColor::Maroon);
    assert_eq!(pixels[1][0], PixelColor::White);
    assert_eq!(pixels[1][1], PixelColor::Maroon);
    assert_eq!(pixels[31][0], PixelColor::Red);
}
