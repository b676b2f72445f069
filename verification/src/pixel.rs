use vstd::prelude::*;
use vstd::std_specs::convert::FromSpecImpl;
use vstd::std_specs::convert::TryFromSpecImpl;

verus! {

/// The palette of the canvas. The position of a variant in this list is the
/// number under which a color is stored in a record.
#[derive(Clone, Copy, Debug, PartialEq, Eq, Structural)]
pub enum PixelColor {
    Maroon,  // #6d001a
    Red,  // #be0039
    RedOrange,  // #ff4500
    Orange,  // #ffa800
    Yellow,  // #ffd635
    LightYellow,  // #fff8b8
    ForestGreen,  // #00a368
    Green,  // #00cc78
    YellowGreen,  // #7eed56
    DarkGreen,  // #00756f
    BlueGreen,  // #009eaa
    Aquamarine,  // #00ccc0
    DarkBlue,  // #2450a4
    Blue,  // #3690ea
    Teal,  // #51e9f4
    DarkBluePurple,  // #493ac1
    BluePurple,  // #6a5cff
    BabyBlue,  // #94b3ff
    Grape,  // #811e9f
    Purple,  // #b44ac0
    Lavender,  // #e4abff
    Lipstick,  // #de107f
    Salmon,  // #ff3881
    LightSalmon,  // #ff99aa
    Mud,  // #6d482f
    Brown,  // #9c6926
    Tan,  // #ffb470
    Black,  // #000000
    DarkGrey,  // #515252
    Grey,  // #898d90
    LightGrey,  // #d4d7d9
    White,  // #ffffff
}

/// How many colors the palette has.
pub const COLOR_COUNT: usize = 32;

/// The 24-bit RGB value of a color.
pub open spec fn rgb(c: PixelColor) -> u32 {
    match c {
            PixelColor::Maroon => 0x6d001a,
            PixelColor::Red => 0xbe0039,
            PixelColor::RedOrange => 0xff4500,
            PixelColor::Orange => 0xffa800,
            PixelColor::Yellow => 0xffd635,
            PixelColor::LightYellow => 0xfff8b8,
            PixelColor::ForestGreen => 0x00a368,
            PixelColor::Green => 0x00cc78,
            PixelColor::YellowGreen => 0x7eed56,
            PixelColor::DarkGreen => 0x00756f,
            PixelColor::BlueGreen => 0x009eaa,
            PixelColor::Aquamarine => 0x00ccc0,
            PixelColor::DarkBlue => 0x2450a4,
            PixelColor::Blue => 0x3690ea,
            PixelColor::Teal => 0x51e9f4,
            PixelColor::DarkBluePurple => 0x493ac1,
            PixelColor::BluePurple => 0x6a5cff,
            PixelColor::BabyBlue => 0x94b3ff,
            PixelColor::Grape => 0x811e9f,
            PixelColor::Purple => 0xb44ac0,
            PixelColor::Lavender => 0xe4abff,
            PixelColor::Lipstick => 0xde107f,
            PixelColor::Salmon => 0xff3881,
            PixelColor::LightSalmon => 0xff99aa,
            PixelColor::Mud => 0x6d482f,
            PixelColor::Brown => 0x9c6926,
            PixelColor::Tan => 0xffb470,
            PixelColor::Black => 0x000000,
            PixelColor::DarkGrey => 0x515252,
            PixelColor::Grey => 0x898d90,
            PixelColor::LightGrey => 0xd4d7d9,
            PixelColor::White => 0xffffff,
    }
}

/// The position of a color in the palette.
pub open spec fn color_index(c: PixelColor) -> u32 {
    match c {
            PixelColor::Maroon => 0,
            PixelColor::Red => 1,
            PixelColor::RedOrange => 2,
            PixelColor::Orange => 3,
            PixelColor::Yellow => 4,
            PixelColor::LightYellow => 5,
            PixelColor::ForestGreen => 6,
            PixelColor::Green => 7,
            PixelColor::YellowGreen => 8,
            PixelColor::DarkGreen => 9,
            PixelColor::BlueGreen => 10,
            PixelColor::Aquamarine => 11,
            PixelColor::DarkBlue => 12,
            PixelColor::Blue => 13,
            PixelColor::Teal => 14,
            PixelColor::DarkBluePurple => 15,
            PixelColor::BluePurple => 16,
            PixelColor::BabyBlue => 17,
            PixelColor::Grape => 18,
            PixelColor::Purple => 19,
            PixelColor::Lavender => 20,
            PixelColor::Lipstick => 21,
            PixelColor::Salmon => 22,
            PixelColor::LightSalmon => 23,
            PixelColor::Mud => 24,
            PixelColor::Brown => 25,
            PixelColor::Tan => 26,
            PixelColor::Black => 27,
            PixelColor::DarkGrey => 28,
            PixelColor::Grey => 29,
            PixelColor::LightGrey => 30,
            PixelColor::White => 31,
    }
}

/// The color at a position of the palette, if the position is one.
pub open spec fn color_at(i: int) -> Option<PixelColor> {
    if i == 0 {
        Some(PixelColor::Maroon)
    } else if i == 1 {
        Some(PixelColor::Red)
    } else if i == 2 {
        Some(PixelColor::RedOrange)
    } else if i == 3 {
        Some(PixelColor::Orange)
    } else if i == 4 {
        Some(PixelColor::Yellow)
    } else if i == 5 {
        Some(PixelColor::LightYellow)
    } else if i == 6 {
        Some(PixelColor::ForestGreen)
    } else if i == 7 {
        Some(PixelColor::Green)
    } else if i == 8 {
        Some(PixelColor::YellowGreen)
    } else if i == 9 {
        Some(PixelColor::DarkGreen)
    } else if i == 10 {
        Some(PixelColor::BlueGreen)
    } else if i == 11 {
        Some(PixelColor::Aquamarine)
    } else if i == 12 {
        Some(PixelColor::DarkBlue)
    } else if i == 13 {
        Some(PixelColor::Blue)
    } else if i == 14 {
        Some(PixelColor::Teal)
    } else if i == 15 {
        Some(PixelColor::DarkBluePurple)
    } else if i == 16 {
        Some(PixelColor::BluePurple)
    } else if i == 17 {
        Some(PixelColor::BabyBlue)
    } else if i == 18 {
        Some(PixelColor::Grape)
    } else if i == 19 {
        Some(PixelColor::Purple)
    } else if i == 20 {
        Some(PixelColor::Lavender)
    } else if i == 21 {
        Some(PixelColor::Lipstick)
    } else if i == 22 {
        Some(PixelColor::Salmon)
    } else if i == 23 {
        Some(PixelColor::LightSalmon)
    } else if i == 24 {
        Some(PixelColor::Mud)
    } else if i == 25 {
        Some(PixelColor::Brown)
    } else if i == 26 {
        Some(PixelColor::Tan)
    } else if i == 27 {
        Some(PixelColor::Black)
    } else if i == 28 {
        Some(PixelColor::DarkGrey)
    } else if i == 29 {
        Some(PixelColor::Grey)
    } else if i == 30 {
        Some(PixelColor::LightGrey)
    } else if i == 31 {
        Some(PixelColor::White)
    } else {
        None
    }
}

/// The color with a given RGB value, if the palette has one.
pub open spec fn color_of_rgb(v: int) -> Option<PixelColor> {
    if exists|c: PixelColor| rgb(c) == v {
        Some(choose|c: PixelColor| rgb(c) == v)
    } else {
        None
    }
}

/// Positions and colors correspond one to one.
pub proof fn lemma_color_index(c: PixelColor)
    ensures
        0 <= color_index(c) < COLOR_COUNT,
        color_at(color_index(c) as int) == Some(c),
{
}

/// Every position below the palette's size holds a color, and that color's
/// position is the one asked for.
pub proof fn lemma_color_at(i: int)
    ensures
        color_at(i) is Some <==> 0 <= i < COLOR_COUNT,
        color_at(i) matches Some(c) ==> color_index(c) == i,
{
}

/// No two colors share an RGB value.
pub proof fn lemma_rgb_injective(a: PixelColor, b: PixelColor)
    requires
        rgb(a) == rgb(b),
    ensures
        a == b,
{
}

/// `color_of_rgb` finds a color exactly where one has the value, and then
/// it is the only one.
pub proof fn lemma_color_of_rgb(v: int, c: PixelColor)
    ensures
        rgb(c) == v <==> color_of_rgb(v) == Some(c),
{
    if rgb(c) == v {
        let d = choose|d: PixelColor| rgb(d) == v;
        lemma_rgb_injective(c, d);
    }
}

impl PixelColor {
    /// The number of colors.
    pub const COUNT: usize = 32;

    /// The position of the color in the palette.
    pub fn index(self) -> (i: u32)
        ensures
            i == color_index(self),
            i < COLOR_COUNT,
    {
        match self {
            PixelColor::Maroon => 0,
            PixelColor::Red => 1,
            PixelColor::RedOrange => 2,
            PixelColor::Orange => 3,
            PixelColor::Yellow => 4,
            PixelColor::LightYellow => 5,
            PixelColor::ForestGreen => 6,
            PixelColor::Green => 7,
            PixelColor::YellowGreen => 8,
            PixelColor::DarkGreen => 9,
            PixelColor::BlueGreen => 10,
            PixelColor::Aquamarine => 11,
            PixelColor::DarkBlue => 12,
            PixelColor::Blue => 13,
            PixelColor::Teal => 14,
            PixelColor::DarkBluePurple => 15,
            PixelColor::BluePurple => 16,
            PixelColor::BabyBlue => 17,
            PixelColor::Grape => 18,
            PixelColor::Purple => 19,
            PixelColor::Lavender => 20,
            PixelColor::Lipstick => 21,
            PixelColor::Salmon => 22,
            PixelColor::LightSalmon => 23,
            PixelColor::Mud => 24,
            PixelColor::Brown => 25,
            PixelColor::Tan => 26,
            PixelColor::Black => 27,
            PixelColor::DarkGrey => 28,
            PixelColor::Grey => 29,
            PixelColor::LightGrey => 30,
            PixelColor::White => 31,
        }
    }

    /// The color at position `i` of the palette.
    pub fn from_index(i: u32) -> (r: Option<PixelColor>)
        ensures
            r == color_at(i as int),
            r is Some <==> i < COLOR_COUNT,
    {
        match i {
            0 => Some(PixelColor::Maroon),
            1 => Some(PixelColor::Red),
            2 => Some(PixelColor::RedOrange),
            3 => Some(PixelColor::Orange),
            4 => Some(PixelColor::Yellow),
            5 => Some(PixelColor::LightYellow),
            6 => Some(PixelColor::ForestGreen),
            7 => Some(PixelColor::Green),
            8 => Some(PixelColor::YellowGreen),
            9 => Some(PixelColor::DarkGreen),
            10 => Some(PixelColor::BlueGreen),
            11 => Some(PixelColor::Aquamarine),
            12 => Some(PixelColor::DarkBlue),
            13 => Some(PixelColor::Blue),
            14 => Some(PixelColor::Teal),
            15 => Some(PixelColor::DarkBluePurple),
            16 => Some(PixelColor::BluePurple),
            17 => Some(PixelColor::BabyBlue),
            18 => Some(PixelColor::Grape),
            19 => Some(PixelColor::Purple),
            20 => Some(PixelColor::Lavender),
            21 => Some(PixelColor::Lipstick),
            22 => Some(PixelColor::Salmon),
            23 => Some(PixelColor::LightSalmon),
            24 => Some(PixelColor::Mud),
            25 => Some(PixelColor::Brown),
            26 => Some(PixelColor::Tan),
            27 => Some(PixelColor::Black),
            28 => Some(PixelColor::DarkGrey),
            29 => Some(PixelColor::Grey),
            30 => Some(PixelColor::LightGrey),
            31 => Some(PixelColor::White),
            _ => None,
        }
    }

    /// All colors, in palette order.
    pub fn iter() -> (all: Vec<PixelColor>)
        ensures
            all@.len() == COLOR_COUNT,
            forall|i: int| 0 <= i < COLOR_COUNT ==> color_at(i) == Some(#[trigger] all@[i]),
    {
        let mut all: Vec<PixelColor> = Vec::new();
        let mut i: u32 = 0;
        while i < 32
            invariant
                i <= 32,
                all@.len() == i,
                forall|j: int| 0 <= j < i ==> color_at(j) == Some(#[trigger] all@[j]),
            decreases 32 - i,
        {
            match PixelColor::from_index(i) {
                Some(c) => all.push(c),
                None => {},
            }
            i += 1;
        }
        all
    }

    /// The 24-bit RGB value of the color.
    pub fn to_rgb(self) -> (v: u32)
        ensures
            v == rgb(self),
            v <= 0xffffff,
    {
        match self {
            PixelColor::Maroon => 0x6d001a,
            PixelColor::Red => 0xbe0039,
            PixelColor::RedOrange => 0xff4500,
            PixelColor::Orange => 0xffa800,
            PixelColor::Yellow => 0xffd635,
            PixelColor::LightYellow => 0xfff8b8,
            PixelColor::ForestGreen => 0x00a368,
            PixelColor::Green => 0x00cc78,
            PixelColor::YellowGreen => 0x7eed56,
            PixelColor::DarkGreen => 0x00756f,
            PixelColor::BlueGreen => 0x009eaa,
            PixelColor::Aquamarine => 0x00ccc0,
            PixelColor::DarkBlue => 0x2450a4,
            PixelColor::Blue => 0x3690ea,
            PixelColor::Teal => 0x51e9f4,
            PixelColor::DarkBluePurple => 0x493ac1,
            PixelColor::BluePurple => 0x6a5cff,
            PixelColor::BabyBlue => 0x94b3ff,
            PixelColor::Grape => 0x811e9f,
            PixelColor::Purple => 0xb44ac0,
            PixelColor::Lavender => 0xe4abff,
            PixelColor::Lipstick => 0xde107f,
            PixelColor::Salmon => 0xff3881,
            PixelColor::LightSalmon => 0xff99aa,
            PixelColor::Mud => 0x6d482f,
            PixelColor::Brown => 0x9c6926,
            PixelColor::Tan => 0xffb470,
            PixelColor::Black => 0x000000,
            PixelColor::DarkGrey => 0x515252,
            PixelColor::Grey => 0x898d90,
            PixelColor::LightGrey => 0xd4d7d9,
            PixelColor::White => 0xffffff,
        }
    }

    /// The color whose RGB value is `item`.
    pub fn from_rgb(item: u64) -> (r: Option<PixelColor>)
        ensures
            r == color_of_rgb(item as int),
    {
        let mut i: u32 = 0;
        while i < 32
            invariant
                i <= 32,
                forall|j: int| 0 <= j < i ==> rgb(#[trigger] color_at(j).unwrap()) != item,
            decreases 32 - i,
        {
            match PixelColor::from_index(i) {
                Some(c) => {
                    if c.to_rgb() as u64 == item {
                        proof {
                            lemma_color_of_rgb(item as int, c);
                        }
                        return Some(c);
                    }
                },
                None => {},
            }
            i += 1;
        }
        proof {
            assert forall|c: PixelColor| rgb(c) != item by {
                lemma_color_index(c);
                assert(color_at(color_index(c) as int).unwrap() == c);
            }
        }
        None
    }
}

impl Default for PixelColor {
    /// Black, the color of a cell that nobody has painted.
    fn default() -> (c: PixelColor)
        ensures
            c == PixelColor::Black,
    {
        PixelColor::Black
    }
}

impl From<PixelColor> for u32 {
    /// The RGB value of the color.
    fn from(item: PixelColor) -> (v: u32) {
        item.to_rgb()
    }
}

impl FromSpecImpl<PixelColor> for u32 {
    open spec fn obeys_from_spec() -> bool {
        true
    }

    open spec fn from_spec(item: PixelColor) -> u32 {
        rgb(item)
    }
}

impl From<PixelColor> for u64 {
    /// The RGB value of the color.
    fn from(item: PixelColor) -> (v: u64) {
        item.to_rgb() as u64
    }
}

impl FromSpecImpl<PixelColor> for u64 {
    open spec fn obeys_from_spec() -> bool {
        true
    }

    open spec fn from_spec(item: PixelColor) -> u64 {
        rgb(item) as u64
    }
}

impl TryFrom<u32> for PixelColor {
    type Error = ();

    /// The color with the RGB value `item`.
    fn try_from(item: u32) -> (r: Result<PixelColor, ()>) {
        match PixelColor::from_rgb(item as u64) {
            Some(c) => Ok(c),
            None => Err(()),
        }
    }
}

impl TryFromSpecImpl<u32> for PixelColor {
    open spec fn obeys_try_from_spec() -> bool {
        true
    }

    open spec fn try_from_spec(item: u32) -> Result<PixelColor, ()> {
        match color_of_rgb(item as int) {
            Some(c) => Ok(c),
            None => Err(()),
        }
    }
}

impl TryFrom<u64> for PixelColor {
    type Error = ();

    /// The color with the RGB value `item`.
    fn try_from(item: u64) -> (r: Result<PixelColor, ()>) {
        match PixelColor::from_rgb(item) {
            Some(c) => Ok(c),
            None => Err(()),
        }
    }
}

impl TryFromSpecImpl<u64> for PixelColor {
    open spec fn obeys_try_from_spec() -> bool {
        true
    }

    open spec fn try_from_spec(item: u64) -> Result<PixelColor, ()> {
        match color_of_rgb(item as int) {
            Some(c) => Ok(c),
            None => Err(()),
        }
    }
}

/// A text without the `#` signs that it starts with.
pub open spec fn without_hashes(text: Seq<char>) -> Seq<char>
    decreases text.len(),
{
    if text.len() > 0 && text[0] == '#' {
        without_hashes(text.drop_first())
    } else {
        text
    }
}

/// The number that a text stands for when read as hexadecimal digits by
/// `u32::from_str_radix`, where it stands for one.
pub uninterp spec fn hex_u32(text: Seq<char>) -> Option<u32>;

/// `str::trim_start_matches` with the pattern `"#"`: the text without the
/// `#` signs that it starts with.
#[verifier::external_body]
fn trim_hashes(text: &str) -> (r: &str)
    ensures
        r@ == without_hashes(text@),
{
    text.trim_start_matches("#")
}

/// `u32::from_str_radix` with radix 16: the number that the text stands for,
/// or nothing where it stands for none.
#[verifier::external_body]
fn parse_hex(text: &str) -> (r: Option<u32>)
    ensures
        r == hex_u32(text@),
{
    u32::from_str_radix(text, 16).ok()
}

/// The color that a text names by its RGB value in hexadecimal digits, with
/// or without `#` signs in front.
pub open spec fn color_of_hex(text: Seq<char>) -> Result<PixelColor, ()> {
    match hex_u32(without_hashes(text)) {
        Some(value) => match color_of_rgb(value as int) {
            Some(c) => Ok(c),
            None => Err(()),
        },
        None => Err(()),
    }
}

impl PixelColor {
    /// The color that a text such as `#FF4500` names.
    pub fn from_hex(item: &str) -> (r: Result<PixelColor, ()>)
        ensures
            r == color_of_hex(item@),
    {
        let no_prefix_item = trim_hashes(item);
        match parse_hex(no_prefix_item) {
            Some(value) => match PixelColor::from_rgb(value as u64) {
                Some(color) => Ok(color),
                None => Err(()),
            },
            None => Err(()),
        }
    }
}

impl TryFrom<&String> for PixelColor {
    type Error = ();

    /// The color that a text such as `#FF4500` names.
    fn try_from(item: &String) -> (r: Result<PixelColor, ()>) {
        PixelColor::from_hex(item.as_str())
    }
}

impl TryFromSpecImpl<&String> for PixelColor {
    open spec fn obeys_try_from_spec() -> bool {
        true
    }

    open spec fn try_from_spec(item: &String) -> Result<PixelColor, ()> {
        color_of_hex(item@)
    }
}

/// The column of row `i` of the pattern in which the color at position `j` of
/// the palette stands.
pub open spec fn pattern_column(i: int, j: int) -> int {
    (i + j) % 32
}

/// A square of colors, one row for each color of the palette: row `i` is the
/// palette turned by `i` places, so that the color at position `j` of the
/// palette stands in column `(i + j) % 32`.
pub fn basic_pixel_pattern() -> (pixels: Vec<Vec<PixelColor>>)
    ensures
        pixels@.len() == COLOR_COUNT,
        forall|i: int| 0 <= i < COLOR_COUNT ==> (#[trigger] pixels@[i])@.len() == COLOR_COUNT,
        forall|i: int, j: int|
            0 <= i < COLOR_COUNT && 0 <= j < COLOR_COUNT ==> color_at(j) == Some(
                #[trigger] pixels@[i]@[pattern_column(i, j)],
            ),
{
    let mut pixels: Vec<Vec<PixelColor>> = Vec::new();
    let mut i: usize = 0;
    while i < PixelColor::COUNT
        invariant
            i <= 32,
            pixels@.len() == i,
            forall|a: int| 0 <= a < i ==> (#[trigger] pixels@[a])@.len() == 32,
            forall|a: int, j: int|
                0 <= a < i && 0 <= j < 32 ==> color_at(j) == Some(
                    #[trigger] pixels@[a]@[pattern_column(a, j)],
                ),
        decreases 32 - i,
    {
        let row = PixelColor::iter();
        let mut rotated: Vec<PixelColor> = row.clone();
        assert(rotated@ == row@);
        let mut j: usize = 0;
        while j < PixelColor::COUNT
            invariant
                i < 32,
                j <= 32,
                row@.len() == 32,
                rotated@.len() == 32,
                forall|b: int|
                    0 <= b < j ==> #[trigger] rotated@[pattern_column(i as int, b)] == row@[b],
            decreases 32 - j,
        {
            let ghost before = rotated@;
            rotated[(i + j) % PixelColor::COUNT] = row[j];
            proof {
                assert forall|b: int| 0 <= b < j + 1 implies #[trigger] rotated@[pattern_column(
                    i as int,
                    b,
                )] == row@[b] by {
                    if b < j {
                        assert(pattern_column(i as int, b) != pattern_column(i as int, j as int));
                        assert(before[pattern_column(i as int, b)] == row@[b]);
                    }
                }
            }
            j += 1;
        }
        let ghost done = pixels@;
        pixels.push(rotated);
        proof {
            assert forall|a: int, b: int| 0 <= a < i + 1 && 0 <= b < 32 implies color_at(b) == Some(
                #[trigger] pixels@[a]@[pattern_column(a, b)],
            ) by {
                if a < i {
                    assert(pixels@[a] == done[a]);
                    assert(color_at(b) == Some(done[a]@[pattern_column(a, b)]));
                } else {
                    assert(rotated@[pattern_column(i as int, b)] == row@[b]);
                }
            }
        }
        i += 1;
    }
    pixels
}

} // verus!
