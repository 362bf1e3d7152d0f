//! The identity of one layer of liquid: a closed set of named colors,
//! an `Empty` marker, and an open `Other` variant carrying an opaque
//! color key for liquids outside the named set.
use vstd::prelude::*;

verus! {

/// The mathematical model of a liquid color: the same tags as
/// [`LiquidColor`], with the `Other` key abstracted to its characters.
pub enum ColorModel {
    Empty,
    Orange,
    Blue,
    Red,
    Pink,
    Green,
    Other(Seq<char>),
}

/// One layer of liquid in a tube. `Empty` marks an unfilled slot;
/// `Other` carries an opaque key (a lowercase hex encoding of an RGB
/// sample, or a name that no known tag matches).
#[derive(Debug, Clone, PartialEq)]
pub enum LiquidColor {
    Empty,
    Orange,
    Blue,
    Red,
    Pink,
    Green,
    Other(String),
}

impl View for LiquidColor {
    type V = ColorModel;

    open spec fn view(&self) -> ColorModel {
        match self {
            LiquidColor::Empty => ColorModel::Empty,
            LiquidColor::Orange => ColorModel::Orange,
            LiquidColor::Blue => ColorModel::Blue,
            LiquidColor::Red => ColorModel::Red,
            LiquidColor::Pink => ColorModel::Pink,
            LiquidColor::Green => ColorModel::Green,
            LiquidColor::Other(key) => ColorModel::Other(key@),
        }
    }
}

impl LiquidColor {
    /// Structural equality on the color model: same tag, and for
    /// `Other` the same key.
    pub fn same_color(&self, other: &LiquidColor) -> (r: bool)
        ensures
            r == (self@ == other@),
    {
        match (self, other) {
            (LiquidColor::Empty, LiquidColor::Empty) => true,
            (LiquidColor::Orange, LiquidColor::Orange) => true,
            (LiquidColor::Blue, LiquidColor::Blue) => true,
            (LiquidColor::Red, LiquidColor::Red) => true,
            (LiquidColor::Pink, LiquidColor::Pink) => true,
            (LiquidColor::Green, LiquidColor::Green) => true,
            (LiquidColor::Other(a), LiquidColor::Other(b)) => *a == *b,
            _ => false,
        }
    }

    /// A fresh value with the same color model.
    pub fn duplicate(&self) -> (r: LiquidColor)
        ensures
            r@ == self@,
    {
        match self {
            LiquidColor::Empty => LiquidColor::Empty,
            LiquidColor::Orange => LiquidColor::Orange,
            LiquidColor::Blue => LiquidColor::Blue,
            LiquidColor::Red => LiquidColor::Red,
            LiquidColor::Pink => LiquidColor::Pink,
            LiquidColor::Green => LiquidColor::Green,
            LiquidColor::Other(key) => LiquidColor::Other(key.clone()),
        }
    }

    /// True exactly on the `Empty` tag.
    pub fn is_empty_layer(&self) -> (r: bool)
        ensures
            r == (self@ is Empty),
    {
        match self {
            LiquidColor::Empty => true,
            _ => false,
        }
    }
}

} // verus!

verus! {

/// The character for one hex digit, lower case.
pub open spec fn hex_digit_char(n: u8) -> char {
    if n < 10 {
        (n + 48) as char
    } else {
        (n + 87) as char
    }
}

/// The lowercase hex encoding of a byte string: two digits per byte,
/// high nibble first.
pub open spec fn hex_of(bytes: Seq<u8>) -> Seq<char>
    decreases bytes.len(),
{
    if bytes.len() == 0 {
        Seq::empty()
    } else {
        seq![hex_digit_char(bytes[0] / 16), hex_digit_char(bytes[0] % 16)] + hex_of(
            bytes.skip(1),
        )
    }
}

/// Relies on hex::encode: each byte becomes two lowercase hex digits,
/// high nibble first.
#[verifier::external_body]
fn hex_encode_rgb(r: u8, g: u8, b: u8) -> (s: String)
    ensures
        s@ == hex_of(seq![r, g, b]),
{
    hex::encode([r, g, b])
}

impl LiquidColor {
    /// Classifies one sampled RGB pixel: a gray sample (all three
    /// channels equal) is an empty slot, anything else is an unnamed
    /// liquid keyed by the sample's lowercase hex encoding.
    pub fn new(r: u8, g: u8, b: u8) -> (c: LiquidColor)
        ensures
            c@ == (if r == g && g == b {
                ColorModel::Empty
            } else {
                ColorModel::Other(hex_of(seq![r, g, b]))
            }),
    {
        if r == g && g == b {
            LiquidColor::Empty
        } else {
            LiquidColor::Other(hex_encode_rgb(r, g, b))
        }
    }
}

/// The serialized name of a color: a fixed lowercase word for each
/// named tag, the carried key itself for `Other`.
pub open spec fn name_of_color(c: ColorModel) -> Seq<char> {
    match c {
        ColorModel::Empty => "empty"@,
        ColorModel::Orange => "orange"@,
        ColorModel::Blue => "blue"@,
        ColorModel::Red => "red"@,
        ColorModel::Pink => "pink"@,
        ColorModel::Green => "green"@,
        ColorModel::Other(key) => key,
    }
}

/// The color a serialized name denotes: the named tags for their
/// words, and `Other` carrying the name itself for anything
/// unrecognized, so unknown names survive a round trip.
pub open spec fn color_of_name(s: Seq<char>) -> ColorModel {
    if s == "empty"@ {
        ColorModel::Empty
    } else if s == "orange"@ {
        ColorModel::Orange
    } else if s == "blue"@ {
        ColorModel::Blue
    } else if s == "red"@ {
        ColorModel::Red
    } else if s == "pink"@ {
        ColorModel::Pink
    } else if s == "green"@ {
        ColorModel::Green
    } else {
        ColorModel::Other(s)
    }
}

/// The color's serialized form: the lowercase name of a named tag,
/// or the key carried by `Other`.
pub fn color_name(c: &LiquidColor) -> (r: String)
    ensures
        r@ == name_of_color(c@),
{
    match c {
        LiquidColor::Empty => "empty".to_owned(),
        LiquidColor::Orange => "orange".to_owned(),
        LiquidColor::Blue => "blue".to_owned(),
        LiquidColor::Red => "red".to_owned(),
        LiquidColor::Pink => "pink".to_owned(),
        LiquidColor::Green => "green".to_owned(),
        LiquidColor::Other(key) => key.clone(),
    }
}

/// Reads a serialized color name back: recognized lowercase names
/// give their tags, any other string becomes the key of an `Other`.
pub fn color_from_name(s: String) -> (r: LiquidColor)
    ensures
        r@ == color_of_name(s@),
{
    if s == "empty".to_owned() {
        LiquidColor::Empty
    } else if s == "orange".to_owned() {
        LiquidColor::Orange
    } else if s == "blue".to_owned() {
        LiquidColor::Blue
    } else if s == "red".to_owned() {
        LiquidColor::Red
    } else if s == "pink".to_owned() {
        LiquidColor::Pink
    } else if s == "green".to_owned() {
        LiquidColor::Green
    } else {
        LiquidColor::Other(s)
    }
}

} // verus!
