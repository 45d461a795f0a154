//! Colours: themes, hexadecimal notation, blending, contrast, and the
//! assignment of colours to shapes.
//!
//! A colour is written as `#` and six hexadecimal digits, two for each of
//! red, green and blue.  Fractions are whole numbers of thousandths.

use vstd::prelude::*;
use vstd::string::StrSliceExecFns;
use vstd::string::StringExecFns;
use rand_chacha::ChaCha8Rng;
use crate::generator::grid::TriangularGrid;
use crate::generator::grid::geometry::{
    Cell, is_adjacency_list, lemma_mesh_adjacent_symmetric, mesh_adjacent,
};
use crate::generator::random::{new_rng, random_below};
use crate::generator::shape::{Shape, contains_id};
use crate::sorting::{is_permutation, sorted_order};

verus! {

/// The colour themes.
#[derive(Debug, Clone, Copy, PartialEq, Eq, Structural)]
pub enum Theme {
    Mesos,
    Google,
    Blues,
    Greens,
    Reds,
    Purples,
    Rainbow,
}

/// The lower-case form of an ASCII letter; any other character is itself.
pub open spec fn ascii_lower(c: char) -> char {
    if 'A' <= c && c <= 'Z' {
        ((c as u32) + 32) as char
    } else {
        c
    }
}

/// The text with its ASCII letters in lower case.
pub open spec fn to_lower(text: Seq<char>) -> Seq<char> {
    Seq::new(text.len(), |i: int| ascii_lower(text[i]))
}

/// The theme that a name denotes, whatever the case of its letters.  A name
/// that denotes none stands for `Mesos`.
pub open spec fn theme_of(name: Seq<char>) -> Theme {
    let lower = to_lower(name);
    if lower == "mesos"@ {
        Theme::Mesos
    }     else if lower == "google"@ {
        Theme::Google
    }     else if lower == "blues"@ {
        Theme::Blues
    }     else if lower == "greens"@ {
        Theme::Greens
    }     else if lower == "reds"@ {
        Theme::Reds
    }     else if lower == "purples"@ {
        Theme::Purples
    }     else if lower == "rainbow"@ {
        Theme::Rainbow
    } else {
        Theme::Mesos
    }
}

/// Decides whether `text`, with its ASCII letters in lower case, is `name`.
fn is_name(text: &str, name: &str) -> (same: bool)
    ensures
        same == (to_lower(text@) == name@),
{
    let n: usize = text.unicode_len();
    if n != name.unicode_len() {
        return false;
    }
    let mut i: usize = 0;
    while i < n
        invariant
            i <= n,
            n == text@.len(),
            n == name@.len(),
            forall|k: int| 0 <= k < i ==> ascii_lower(text@[k]) == name@[k],
        decreases n - i,
    {
        let c: char = text.get_char(i);
        let lower: char = if c >= 'A' && c <= 'Z' {
            ((c as u8) + 32) as char
        } else {
            c
        };
        if lower != name.get_char(i) {
            assert(to_lower(text@)[i as int] != name@[i as int]);
            return false;
        }
        i = i + 1;
    }
    assert(to_lower(text@) =~= name@);
    true
}

impl From<&str> for Theme {
    /// The theme of that name, whatever the case of its letters; `Mesos` for
    /// a name that denotes none.
    fn from(name: &str) -> (theme: Theme) {
        if is_name(name, "mesos") {
            Theme::Mesos
        }         else if is_name(name, "google") {
            Theme::Google
        }         else if is_name(name, "blues") {
            Theme::Blues
        }         else if is_name(name, "greens") {
            Theme::Greens
        }         else if is_name(name, "reds") {
            Theme::Reds
        }         else if is_name(name, "purples") {
            Theme::Purples
        }         else if is_name(name, "rainbow") {
            Theme::Rainbow
        } else {
            Theme::Mesos
        }
    }
}

impl vstd::std_specs::convert::FromSpecImpl<&str> for Theme {
    open spec fn obeys_from_spec() -> bool {
        true
    }

    open spec fn from_spec(name: &str) -> Theme {
        theme_of(name@)
    }
}

impl Theme {
    /// The name of the theme, in lower case.
    pub open spec fn name(self) -> Seq<char> {
        match self {
            Theme::Mesos => "mesos"@,
            Theme::Google => "google"@,
            Theme::Blues => "blues"@,
            Theme::Greens => "greens"@,
            Theme::Reds => "reds"@,
            Theme::Purples => "purples"@,
            Theme::Rainbow => "rainbow"@,
        }
    }

    /// The colours of the theme, in order.
    pub open spec fn colors(self) -> Seq<Seq<char>> {
        match self {
            Theme::Mesos => seq![
                "#FFCC09"@,
                "#F68A21"@,
                "#E42728"@,
                "#E81F6F"@,
                "#BD3D93"@,
                "#71459B"@,
                "#4D499C"@,
                "#3960A9"@,
                "#20B7E8"@,
                "#46B78C"@,
                "#49B650"@,
                "#78BF44"@,
                "#B3675E"@,
                "#3EAF51"@,
                "#5A4FCF"@,
            ],
            Theme::Google => seq![
                "#4285F4"@,
                "#EA4335"@,
                "#FBBC05"@,
                "#34A853"@,
                "#1A73E8"@,
                "#D93025"@,
                "#F9AB00"@,
                "#1E8E3E"@,
                "#174EA6"@,
                "#A50E0E"@,
                "#E37400"@,
                "#0D652D"@,
                "#5BB974"@,
                "#81C995"@,
                "#8AB4F8"@,
            ],
            Theme::Blues => seq![
                "#0D47A1"@,
                "#1565C0"@,
                "#1976D2"@,
                "#1E88E5"@,
                "#2196F3"@,
                "#42A5F5"@,
                "#64B5F6"@,
                "#90CAF9"@,
                "#BBDEFB"@,
                "#2962FF"@,
                "#0277BD"@,
                "#01579B"@,
                "#039BE5"@,
                "#03A9F4"@,
                "#29B6F6"@,
            ],
            Theme::Greens => seq![
                "#1B5E20"@,
                "#2E7D32"@,
                "#388E3C"@,
                "#43A047"@,
                "#4CAF50"@,
                "#66BB6A"@,
                "#81C784"@,
                "#A5D6A7"@,
                "#C8E6C9"@,
                "#00C853"@,
                "#00695C"@,
                "#00796B"@,
                "#00897B"@,
                "#009688"@,
                "#26A69A"@,
            ],
            Theme::Reds => seq![
                "#B71C1C"@,
                "#C62828"@,
                "#D32F2F"@,
                "#E53935"@,
                "#F44336"@,
                "#EF5350"@,
                "#E57373"@,
                "#EF9A9A"@,
                "#FFCDD2"@,
                "#DD2C00"@,
                "#BF360C"@,
                "#E64A19"@,
                "#F4511E"@,
                "#FF5722"@,
                "#FF7043"@,
            ],
            Theme::Purples => seq![
                "#4A148C"@,
                "#6A1B9A"@,
                "#7B1FA2"@,
                "#8E24AA"@,
                "#9C27B0"@,
                "#AB47BC"@,
                "#BA68C8"@,
                "#CE93D8"@,
                "#E1BEE7"@,
                "#880E4F"@,
                "#AD1457"@,
                "#C2185B"@,
                "#D81B60"@,
                "#E91E63"@,
                "#EC407A"@,
            ],
            Theme::Rainbow => seq![
                "#FF0000"@,
                "#FF4500"@,
                "#FF8C00"@,
                "#FFA500"@,
                "#FFD700"@,
                "#FFFF00"@,
                "#ADFF2F"@,
                "#32CD32"@,
                "#008000"@,
                "#00FF7F"@,
                "#00FFFF"@,
                "#1E90FF"@,
                "#0000FF"@,
                "#4B0082"@,
                "#8A2BE2"@,
                "#FF00FF"@,
                "#C71585"@,
            ],
        }
    }

    /// The name of the theme, in lower case.
    pub fn to_string(&self) -> (name: String)
        ensures
            name@ == self.name(),
    {
        match self {
            Theme::Mesos => String::from_str("mesos"),
            Theme::Google => String::from_str("google"),
            Theme::Blues => String::from_str("blues"),
            Theme::Greens => String::from_str("greens"),
            Theme::Reds => String::from_str("reds"),
            Theme::Purples => String::from_str("purples"),
            Theme::Rainbow => String::from_str("rainbow"),
        }
    }

    /// The colours of the theme, in order.
    pub fn palette(&self) -> (palette: Vec<String>)
        ensures
            colors_of(palette@) == self.colors(),
    {
        let mut palette: Vec<String> = Vec::new();
        match self {
            Theme::Mesos => {
                palette.push(String::from_str("#FFCC09"));
                palette.push(String::from_str("#F68A21"));
                palette.push(String::from_str("#E42728"));
                palette.push(String::from_str("#E81F6F"));
                palette.push(String::from_str("#BD3D93"));
                palette.push(String::from_str("#71459B"));
                palette.push(String::from_str("#4D499C"));
                palette.push(String::from_str("#3960A9"));
                palette.push(String::from_str("#20B7E8"));
                palette.push(String::from_str("#46B78C"));
                palette.push(String::from_str("#49B650"));
                palette.push(String::from_str("#78BF44"));
                palette.push(String::from_str("#B3675E"));
                palette.push(String::from_str("#3EAF51"));
                palette.push(String::from_str("#5A4FCF"));
            },
            Theme::Google => {
                palette.push(String::from_str("#4285F4"));
                palette.push(String::from_str("#EA4335"));
                palette.push(String::from_str("#FBBC05"));
                palette.push(String::from_str("#34A853"));
                palette.push(String::from_str("#1A73E8"));
                palette.push(String::from_str("#D93025"));
                palette.push(String::from_str("#F9AB00"));
                palette.push(String::from_str("#1E8E3E"));
                palette.push(String::from_str("#174EA6"));
                palette.push(String::from_str("#A50E0E"));
                palette.push(String::from_str("#E37400"));
                palette.push(String::from_str("#0D652D"));
                palette.push(String::from_str("#5BB974"));
                palette.push(String::from_str("#81C995"));
                palette.push(String::from_str("#8AB4F8"));
            },
            Theme::Blues => {
                palette.push(String::from_str("#0D47A1"));
                palette.push(String::from_str("#1565C0"));
                palette.push(String::from_str("#1976D2"));
                palette.push(String::from_str("#1E88E5"));
                palette.push(String::from_str("#2196F3"));
                palette.push(String::from_str("#42A5F5"));
                palette.push(String::from_str("#64B5F6"));
                palette.push(String::from_str("#90CAF9"));
                palette.push(String::from_str("#BBDEFB"));
                palette.push(String::from_str("#2962FF"));
                palette.push(String::from_str("#0277BD"));
                palette.push(String::from_str("#01579B"));
                palette.push(String::from_str("#039BE5"));
                palette.push(String::from_str("#03A9F4"));
                palette.push(String::from_str("#29B6F6"));
            },
            Theme::Greens => {
                palette.push(String::from_str("#1B5E20"));
                palette.push(String::from_str("#2E7D32"));
                palette.push(String::from_str("#388E3C"));
                palette.push(String::from_str("#43A047"));
                palette.push(String::from_str("#4CAF50"));
                palette.push(String::from_str("#66BB6A"));
                palette.push(String::from_str("#81C784"));
                palette.push(String::from_str("#A5D6A7"));
                palette.push(String::from_str("#C8E6C9"));
                palette.push(String::from_str("#00C853"));
                palette.push(String::from_str("#00695C"));
                palette.push(String::from_str("#00796B"));
                palette.push(String::from_str("#00897B"));
                palette.push(String::from_str("#009688"));
                palette.push(String::from_str("#26A69A"));
            },
            Theme::Reds => {
                palette.push(String::from_str("#B71C1C"));
                palette.push(String::from_str("#C62828"));
                palette.push(String::from_str("#D32F2F"));
                palette.push(String::from_str("#E53935"));
                palette.push(String::from_str("#F44336"));
                palette.push(String::from_str("#EF5350"));
                palette.push(String::from_str("#E57373"));
                palette.push(String::from_str("#EF9A9A"));
                palette.push(String::from_str("#FFCDD2"));
                palette.push(String::from_str("#DD2C00"));
                palette.push(String::from_str("#BF360C"));
                palette.push(String::from_str("#E64A19"));
                palette.push(String::from_str("#F4511E"));
                palette.push(String::from_str("#FF5722"));
                palette.push(String::from_str("#FF7043"));
            },
            Theme::Purples => {
                palette.push(String::from_str("#4A148C"));
                palette.push(String::from_str("#6A1B9A"));
                palette.push(String::from_str("#7B1FA2"));
                palette.push(String::from_str("#8E24AA"));
                palette.push(String::from_str("#9C27B0"));
                palette.push(String::from_str("#AB47BC"));
                palette.push(String::from_str("#BA68C8"));
                palette.push(String::from_str("#CE93D8"));
                palette.push(String::from_str("#E1BEE7"));
                palette.push(String::from_str("#880E4F"));
                palette.push(String::from_str("#AD1457"));
                palette.push(String::from_str("#C2185B"));
                palette.push(String::from_str("#D81B60"));
                palette.push(String::from_str("#E91E63"));
                palette.push(String::from_str("#EC407A"));
            },
            Theme::Rainbow => {
                palette.push(String::from_str("#FF0000"));
                palette.push(String::from_str("#FF4500"));
                palette.push(String::from_str("#FF8C00"));
                palette.push(String::from_str("#FFA500"));
                palette.push(String::from_str("#FFD700"));
                palette.push(String::from_str("#FFFF00"));
                palette.push(String::from_str("#ADFF2F"));
                palette.push(String::from_str("#32CD32"));
                palette.push(String::from_str("#008000"));
                palette.push(String::from_str("#00FF7F"));
                palette.push(String::from_str("#00FFFF"));
                palette.push(String::from_str("#1E90FF"));
                palette.push(String::from_str("#0000FF"));
                palette.push(String::from_str("#4B0082"));
                palette.push(String::from_str("#8A2BE2"));
                palette.push(String::from_str("#FF00FF"));
                palette.push(String::from_str("#C71585"));
            },
        }
        assert(colors_of(palette@) =~= self.colors());
        palette
    }
}

/// The texts of a list of strings.
pub open spec fn colors_of(list: Seq<String>) -> Seq<Seq<char>> {
    Seq::new(list.len(), |i: int| list[i]@)
}

/// The red, green and blue components of a colour.
pub type Rgb = (u8, u8, u8);

/// The hexadecimal digit, in upper case, of a number below sixteen.
pub open spec fn hex_digit(n: int) -> char {
    if n < 10 {
        (48 + n) as char
    } else {
        (55 + n) as char
    }
}

/// The value of a hexadecimal digit of either case.
pub open spec fn hex_value(c: char) -> Option<int> {
    if '0' <= c && c <= '9' {
        Some(c as int - 48)
    } else if 'A' <= c && c <= 'F' {
        Some(c as int - 55)
    } else if 'a' <= c && c <= 'f' {
        Some(c as int - 87)
    } else {
        None
    }
}

/// The number of `#` characters at the start of a text.
pub open spec fn leading_hashes(text: Seq<char>) -> nat
    decreases text.len(),
{
    if text.len() > 0 && text.first() == '#' {
        1 + leading_hashes(text.drop_first())
    } else {
        0
    }
}

/// The component that the two characters at `at` spell: two hexadecimal
/// digits, or a plus sign and one digit.  Anything else, and a text that ends
/// before them, gives zero.
pub open spec fn channel(text: Seq<char>, at: int) -> u8 {
    if 0 <= at && at + 2 <= text.len() {
        match (hex_value(text[at]), hex_value(text[at + 1])) {
            (Some(high), Some(low)) => (16 * high + low) as u8,
            (None, Some(low)) => if text[at] == '+' {
                low as u8
            } else {
                0
            },
            _ => 0,
        }
    } else {
        0
    }
}

/// The components of a colour in hexadecimal notation: after any number of
/// `#`, two characters each for red, green and blue.
pub open spec fn parse_hex(text: Seq<char>) -> Rgb {
    let start = leading_hashes(text) as int;
    (channel(text, start), channel(text, start + 2), channel(text, start + 4))
}

/// The hexadecimal notation of a colour: `#` and six digits in upper case.
pub open spec fn format_hex(r: u8, g: u8, b: u8) -> Seq<char> {
    seq![
        '#',
        hex_digit(r as int / 16),
        hex_digit(r as int % 16),
        hex_digit(g as int / 16),
        hex_digit(g as int % 16),
        hex_digit(b as int / 16),
        hex_digit(b as int % 16),
    ]
}

/// Whether the text is a colour in the notation that `format_hex` writes.
pub open spec fn is_hex_color(text: Seq<char>) -> bool {
    &&& text.len() == 7
    &&& text[0] == '#'
    &&& forall|i: int| 1 <= i < 7 ==> is_upper_hex(#[trigger] text[i])
}

/// Whether the character is a hexadecimal digit in upper case.
pub open spec fn is_upper_hex(c: char) -> bool {
    ('0' <= c && c <= '9') || ('A' <= c && c <= 'F')
}

/// One component of a blend: the weighted mean of `a` and `b`, where `b`
/// weighs `alpha` thousandths, rounded to the nearest whole number, halves
/// upwards.
pub open spec fn blend_channel(a: u8, b: u8, alpha: int) -> int {
    (a * (1000 - alpha) + b * alpha + 500) / 1000
}

/// A fraction in thousandths, cut off at one.
pub open spec fn clamp_per_mille(value: u16) -> int {
    if value > 1000 {
        1000
    } else {
        value as int
    }
}

/// The blend of two colours, where the second weighs `opacity` thousandths
/// (cut off at one).
pub open spec fn blend(first: Seq<char>, second: Seq<char>, opacity: u16) -> Seq<char> {
    let a = parse_hex(first);
    let b = parse_hex(second);
    let alpha = clamp_per_mille(opacity);
    format_hex(
        blend_channel(a.0, b.0, alpha) as u8,
        blend_channel(a.1, b.1, alpha) as u8,
        blend_channel(a.2, b.2, alpha) as u8,
    )
}

/// The mean of two colours, every component rounded down.
pub open spec fn average(first: Seq<char>, second: Seq<char>) -> Seq<char> {
    let a = parse_hex(first);
    let b = parse_hex(second);
    format_hex(((a.0 + b.0) / 2) as u8, ((a.1 + b.1) / 2) as u8, ((a.2 + b.2) / 2) as u8)
}

/// The linear intensity, in millionths, of every value of an sRGB component
/// `c`: `c / 255 / 12.92` where `c / 255` is at most 0.03928, and
/// `((c / 255 + 0.055) / 1.055) ^ 2.4` above, rounded to the nearest
/// millionth.
pub const LINEAR_INTENSITY: [u32; 256] = [
    0, 304, 607, 911, 1214, 1518, 1821, 2125,
    2428, 2732, 3035, 3347, 3677, 4025, 4391, 4777,
    5182, 5605, 6049, 6512, 6995, 7499, 8023, 8568,
    9134, 9721, 10330, 10960, 11612, 12286, 12983, 13702,
    14444, 15209, 15996, 16807, 17642, 18500, 19382, 20289,
    21219, 22174, 23153, 24158, 25187, 26241, 27321, 28426,
    29557, 30713, 31896, 33105, 34340, 35601, 36889, 38204,
    39546, 40915, 42311, 43735, 45186, 46665, 48172, 49707,
    51269, 52861, 54480, 56128, 57805, 59511, 61246, 63010,
    64803, 66626, 68478, 70360, 72272, 74214, 76185, 78187,
    80220, 82283, 84376, 86500, 88656, 90842, 93059, 95307,
    97587, 99899, 102242, 104616, 107023, 109462, 111932, 114435,
    116971, 119538, 122139, 124772, 127438, 130136, 132868, 135633,
    138432, 141263, 144128, 147027, 149960, 152926, 155926, 158961,
    162029, 165132, 168269, 171441, 174647, 177888, 181164, 184475,
    187821, 191202, 194618, 198069, 201556, 205079, 208637, 212231,
    215861, 219526, 223228, 226966, 230740, 234551, 238398, 242281,
    246201, 250158, 254152, 258183, 262251, 266356, 270498, 274677,
    278894, 283149, 287441, 291771, 296138, 300544, 304987, 309469,
    313989, 318547, 323143, 327778, 332452, 337164, 341914, 346704,
    351533, 356400, 361307, 366253, 371238, 376262, 381326, 386429,
    391572, 396755, 401978, 407240, 412543, 417885, 423268, 428690,
    434154, 439657, 445201, 450786, 456411, 462077, 467784, 473531,
    479320, 485150, 491021, 496933, 502886, 508881, 514918, 520996,
    527115, 533276, 539479, 545724, 552011, 558340, 564712, 571125,
    577580, 584078, 590619, 597202, 603827, 610496, 617207, 623960,
    630757, 637597, 644480, 651406, 658375, 665387, 672443, 679542,
    686685, 693872, 701102, 708376, 715694, 723055, 730461, 737910,
    745404, 752942, 760525, 768151, 775822, 783538, 791298, 799103,
    806952, 814847, 822786, 830770, 838799, 846873, 854993, 863157,
    871367, 879622, 887923, 896269, 904661, 913099, 921582, 930111,
    938686, 947307, 955973, 964686, 973445, 982251, 991102, 1000000,
];

/// The relative luminance of a colour, in parts of ten thousand million:
/// 0.2126 of the linear red, 0.7152 of the green and 0.0722 of the blue.
pub open spec fn relative_luminance(r: u8, g: u8, b: u8) -> int {
    2126 * LINEAR_INTENSITY[r as int] + 7152 * LINEAR_INTENSITY[g as int] + 722
        * LINEAR_INTENSITY[b as int]
}

/// The contrast ratio of two luminances in thousandths, rounded down: the
/// lighter plus 0.05 over the darker plus 0.05.
pub open spec fn contrast_of(first: int, second: int) -> int {
    if first > second {
        1000 * (first + 500_000_000) / (second + 500_000_000)
    } else {
        1000 * (second + 500_000_000) / (first + 500_000_000)
    }
}

/// The contrast ratio of two colours, in thousandths.
pub open spec fn contrast(first: Seq<char>, second: Seq<char>) -> int {
    let a = parse_hex(first);
    let b = parse_hex(second);
    contrast_of(relative_luminance(a.0, a.1, a.2), relative_luminance(b.0, b.1, b.2))
}

/// Every entry of the table is at most a million.
pub proof fn lemma_linear_intensity_bound(c: u8)
    ensures
        LINEAR_INTENSITY[c as int] <= 1_000_000,
{
}

/// The table grows from nothing to one, and its first eleven entries, for
/// which `c / 255` is at most 0.03928, are `c / 255 / 12.92` in millionths,
/// rounded to the nearest.
pub proof fn lemma_linear_intensity_shape(a: u8, b: u8)
    ensures
        LINEAR_INTENSITY[0] == 0,
        LINEAR_INTENSITY[255] == 1_000_000,
        a <= b ==> LINEAR_INTENSITY[a as int] <= LINEAR_INTENSITY[b as int],
        a <= 10 ==> LINEAR_INTENSITY[a as int] == (20_000_000 * a + 32_946) / 65_892,
{
    if a < b {
        lemma_linear_intensity_grows(a, b);
    }
}

/// From one entry of the table to the next, the intensity grows.
proof fn lemma_linear_intensity_step(c: u8)
    requires
        c < 255,
    ensures
        LINEAR_INTENSITY[c as int] < LINEAR_INTENSITY[c + 1],
{
}

/// The table grows.
proof fn lemma_linear_intensity_grows(a: u8, b: u8)
    requires
        a < b,
    ensures
        LINEAR_INTENSITY[a as int] < LINEAR_INTENSITY[b as int],
    decreases b - a,
{
    lemma_linear_intensity_step(a);
    if a + 1 < b {
        lemma_linear_intensity_grows((a + 1) as u8, b);
    }
}

/// The ratio of a lighter to a darker luminance lies between one and
/// twenty-one.
pub proof fn lemma_contrast_bound(lighter: int, darker: int)
    requires
        0 <= darker <= lighter <= 10_000_000_000,
    ensures
        1000 <= 1000 * (lighter + 500_000_000) / (darker + 500_000_000) <= 21000,
{
    let n = 1000 * (lighter + 500_000_000);
    let d = darker + 500_000_000;
    assert(n / d >= 1000) by (nonlinear_arith)
        requires
            n >= 1000 * d,
            d > 0,
    ;
    assert(n / d <= 21000) by (nonlinear_arith)
        requires
            n <= 21000 * d,
            d > 0,
            n >= 0,
    ;
}

/// A digit that `hex_digit` writes reads back as its number.
pub proof fn lemma_hex_digit_value(n: int)
    requires
        0 <= n < 16,
    ensures
        hex_value(hex_digit(n)) == Some(n),
        is_upper_hex(hex_digit(n)),
        hex_digit(n) != '#',
{
}

/// Reading what `rgb_to_hex` wrote gives the components back.
pub proof fn lemma_hex_round_trip(r: u8, g: u8, b: u8)
    ensures
        parse_hex(format_hex(r, g, b)) == (r, g, b),
        is_hex_color(format_hex(r, g, b)),
{
    let text = format_hex(r, g, b);
    lemma_hex_digit_value(r as int / 16);
    lemma_hex_digit_value(r as int % 16);
    lemma_hex_digit_value(g as int / 16);
    lemma_hex_digit_value(g as int % 16);
    lemma_hex_digit_value(b as int / 16);
    lemma_hex_digit_value(b as int % 16);
    let rest = text.drop_first();
    assert(rest.len() > 0 && rest.first() == hex_digit(r as int / 16));
    assert(leading_hashes(rest) == 0);
    assert(leading_hashes(text) == 1);
}

/// A digit in upper case is the digit of its value.
pub proof fn lemma_hex_digit_of_value(c: char)
    requires
        is_upper_hex(c),
    ensures
        hex_value(c) is Some,
        0 <= hex_value(c).unwrap() < 16,
        hex_digit(hex_value(c).unwrap()) == c,
{
}

/// Two digits in upper case are the digits of the component they spell.
pub proof fn lemma_channel_digits(text: Seq<char>, at: int)
    requires
        0 <= at,
        at + 2 <= text.len(),
        is_upper_hex(text[at]),
        is_upper_hex(text[at + 1]),
    ensures
        hex_digit(channel(text, at) as int / 16) == text[at],
        hex_digit(channel(text, at) as int % 16) == text[at + 1],
{
    lemma_hex_digit_of_value(text[at]);
    lemma_hex_digit_of_value(text[at + 1]);
    let high = hex_value(text[at]).unwrap();
    let low = hex_value(text[at + 1]).unwrap();
    assert(channel(text, at) == 16 * high + low);
    assert((16 * high + low) / 16 == high);
    assert((16 * high + low) % 16 == low);
}

/// Writing the components of a colour in the notation of `format_hex` gives
/// the same text back.
pub proof fn lemma_format_of_parse(text: Seq<char>)
    requires
        is_hex_color(text),
    ensures
        ({
            let rgb = parse_hex(text);
            format_hex(rgb.0, rgb.1, rgb.2) == text
        }),
{
    let rest = text.drop_first();
    assert(rest.len() > 0 && rest.first() == text[1]);
    assert(is_upper_hex(text[1]));
    assert(leading_hashes(rest) == 0);
    assert(leading_hashes(text) == 1);
    assert(is_upper_hex(text[2]));
    assert(is_upper_hex(text[3]));
    assert(is_upper_hex(text[4]));
    assert(is_upper_hex(text[5]));
    assert(is_upper_hex(text[6]));
    lemma_channel_digits(text, 1);
    lemma_channel_digits(text, 3);
    lemma_channel_digits(text, 5);
    let rgb = parse_hex(text);
    assert(rgb.0 == channel(text, 1) && rgb.1 == channel(text, 3) && rgb.2 == channel(text, 5));
    assert(format_hex(rgb.0, rgb.1, rgb.2) =~= text);
}

/// A blend with no weight on the second colour is the first colour, and a
/// blend with all weight on the second is the second: as the components that
/// the colours spell and, for colours in the notation of `format_hex`, as
/// text.
pub proof fn lemma_blend_ends(first: Seq<char>, second: Seq<char>, opacity: u16)
    ensures
        parse_hex(blend(first, second, 0)) == parse_hex(first),
        opacity >= 1000 ==> parse_hex(blend(first, second, opacity)) == parse_hex(second),
        is_hex_color(first) ==> blend(first, second, 0) == first,
        is_hex_color(second) && opacity >= 1000 ==> blend(first, second, opacity) == second,
{
    let a = parse_hex(first);
    let b = parse_hex(second);
    lemma_hex_round_trip(a.0, a.1, a.2);
    lemma_hex_round_trip(b.0, b.1, b.2);
    assert(blend_channel(a.0, b.0, 0) == a.0);
    assert(blend_channel(a.1, b.1, 0) == a.1);
    assert(blend_channel(a.2, b.2, 0) == a.2);
    assert(blend_channel(a.0, b.0, 1000) == b.0);
    assert(blend_channel(a.1, b.1, 1000) == b.1);
    assert(blend_channel(a.2, b.2, 1000) == b.2);
    if is_hex_color(first) {
        lemma_format_of_parse(first);
    }
    if is_hex_color(second) {
        lemma_format_of_parse(second);
    }
}

/// A component of a blend is a component: it lies between the two it blends.
pub proof fn lemma_blend_channel_bound(a: u8, b: u8, alpha: int)
    requires
        0 <= alpha <= 1000,
    ensures
        0 <= blend_channel(a, b, alpha) <= 255,
        0 <= a * (1000 - alpha) <= 255_000,
        0 <= b * alpha <= 255_000,
{
    assert(0 <= a * (1000 - alpha) <= 255_000) by (nonlinear_arith)
        requires
            0 <= a <= 255,
            0 <= alpha <= 1000,
    ;
    assert(0 <= b * alpha <= 255_000) by (nonlinear_arith)
        requires
            0 <= b <= 255,
            0 <= alpha <= 1000,
    ;
    assert(a * (1000 - alpha) + b * alpha <= 255_000) by (nonlinear_arith)
        requires
            0 <= a <= 255,
            0 <= b <= 255,
            0 <= alpha <= 1000,
    ;
}

/// The colours of `Mesos` are colours in the notation of `format_hex`, and
/// no two of them are the same.
proof fn lemma_mesos_colors()
    ensures
        Theme::Mesos.colors().no_duplicates(),
        forall|k: int| 0 <= k < Theme::Mesos.colors().len() ==> is_hex_color(#[trigger] Theme::Mesos.colors()[k]),
{
    let colors = Theme::Mesos.colors();
    reveal_strlit("#FFCC09");
    assert("#FFCC09"@ =~= format_hex(255, 204, 9));
    lemma_hex_round_trip(255, 204, 9);
    assert(parse_hex(colors[0]) == (255u8, 204u8, 9u8) && is_hex_color(colors[0]));
    reveal_strlit("#F68A21");
    assert("#F68A21"@ =~= format_hex(246, 138, 33));
    lemma_hex_round_trip(246, 138, 33);
    assert(parse_hex(colors[1]) == (246u8, 138u8, 33u8) && is_hex_color(colors[1]));
    reveal_strlit("#E42728");
    assert("#E42728"@ =~= format_hex(228, 39, 40));
    lemma_hex_round_trip(228, 39, 40);
    assert(parse_hex(colors[2]) == (228u8, 39u8, 40u8) && is_hex_color(colors[2]));
    reveal_strlit("#E81F6F");
    assert("#E81F6F"@ =~= format_hex(232, 31, 111));
    lemma_hex_round_trip(232, 31, 111);
    assert(parse_hex(colors[3]) == (232u8, 31u8, 111u8) && is_hex_color(colors[3]));
    reveal_strlit("#BD3D93");
    assert("#BD3D93"@ =~= format_hex(189, 61, 147));
    lemma_hex_round_trip(189, 61, 147);
    assert(parse_hex(colors[4]) == (189u8, 61u8, 147u8) && is_hex_color(colors[4]));
    reveal_strlit("#71459B");
    assert("#71459B"@ =~= format_hex(113, 69, 155));
    lemma_hex_round_trip(113, 69, 155);
    assert(parse_hex(colors[5]) == (113u8, 69u8, 155u8) && is_hex_color(colors[5]));
    reveal_strlit("#4D499C");
    assert("#4D499C"@ =~= format_hex(77, 73, 156));
    lemma_hex_round_trip(77, 73, 156);
    assert(parse_hex(colors[6]) == (77u8, 73u8, 156u8) && is_hex_color(colors[6]));
    reveal_strlit("#3960A9");
    assert("#3960A9"@ =~= format_hex(57, 96, 169));
    lemma_hex_round_trip(57, 96, 169);
    assert(parse_hex(colors[7]) == (57u8, 96u8, 169u8) && is_hex_color(colors[7]));
    reveal_strlit("#20B7E8");
    assert("#20B7E8"@ =~= format_hex(32, 183, 232));
    lemma_hex_round_trip(32, 183, 232);
    assert(parse_hex(colors[8]) == (32u8, 183u8, 232u8) && is_hex_color(colors[8]));
    reveal_strlit("#46B78C");
    assert("#46B78C"@ =~= format_hex(70, 183, 140));
    lemma_hex_round_trip(70, 183, 140);
    assert(parse_hex(colors[9]) == (70u8, 183u8, 140u8) && is_hex_color(colors[9]));
    reveal_strlit("#49B650");
    assert("#49B650"@ =~= format_hex(73, 182, 80));
    lemma_hex_round_trip(73, 182, 80);
    assert(parse_hex(colors[10]) == (73u8, 182u8, 80u8) && is_hex_color(colors[10]));
    reveal_strlit("#78BF44");
    assert("#78BF44"@ =~= format_hex(120, 191, 68));
    lemma_hex_round_trip(120, 191, 68);
    assert(parse_hex(colors[11]) == (120u8, 191u8, 68u8) && is_hex_color(colors[11]));
    reveal_strlit("#B3675E");
    assert("#B3675E"@ =~= format_hex(179, 103, 94));
    lemma_hex_round_trip(179, 103, 94);
    assert(parse_hex(colors[12]) == (179u8, 103u8, 94u8) && is_hex_color(colors[12]));
    reveal_strlit("#3EAF51");
    assert("#3EAF51"@ =~= format_hex(62, 175, 81));
    lemma_hex_round_trip(62, 175, 81);
    assert(parse_hex(colors[13]) == (62u8, 175u8, 81u8) && is_hex_color(colors[13]));
    reveal_strlit("#5A4FCF");
    assert("#5A4FCF"@ =~= format_hex(90, 79, 207));
    lemma_hex_round_trip(90, 79, 207);
    assert(parse_hex(colors[14]) == (90u8, 79u8, 207u8) && is_hex_color(colors[14]));
    assert forall|i: int, j: int| 0 <= i < colors.len() && 0 <= j < colors.len() && i != j implies colors[i]
        != colors[j] by {
        assert(parse_hex(colors[i]) != parse_hex(colors[j]));
    }
}

/// The colours of `Google` are colours in the notation of `format_hex`, and
/// no two of them are the same.
proof fn lemma_google_colors()
    ensures
        Theme::Google.colors().no_duplicates(),
        forall|k: int| 0 <= k < Theme::Google.colors().len() ==> is_hex_color(#[trigger] Theme::Google.colors()[k]),
{
    let colors = Theme::Google.colors();
    reveal_strlit("#4285F4");
    assert("#4285F4"@ =~= format_hex(66, 133, 244));
    lemma_hex_round_trip(66, 133, 244);
    assert(parse_hex(colors[0]) == (66u8, 133u8, 244u8) && is_hex_color(colors[0]));
    reveal_strlit("#EA4335");
    assert("#EA4335"@ =~= format_hex(234, 67, 53));
    lemma_hex_round_trip(234, 67, 53);
    assert(parse_hex(colors[1]) == (234u8, 67u8, 53u8) && is_hex_color(colors[1]));
    reveal_strlit("#FBBC05");
    assert("#FBBC05"@ =~= format_hex(251, 188, 5));
    lemma_hex_round_trip(251, 188, 5);
    assert(parse_hex(colors[2]) == (251u8, 188u8, 5u8) && is_hex_color(colors[2]));
    reveal_strlit("#34A853");
    assert("#34A853"@ =~= format_hex(52, 168, 83));
    lemma_hex_round_trip(52, 168, 83);
    assert(parse_hex(colors[3]) == (52u8, 168u8, 83u8) && is_hex_color(colors[3]));
    reveal_strlit("#1A73E8");
    assert("#1A73E8"@ =~= format_hex(26, 115, 232));
    lemma_hex_round_trip(26, 115, 232);
    assert(parse_hex(colors[4]) == (26u8, 115u8, 232u8) && is_hex_color(colors[4]));
    reveal_strlit("#D93025");
    assert("#D93025"@ =~= format_hex(217, 48, 37));
    lemma_hex_round_trip(217, 48, 37);
    assert(parse_hex(colors[5]) == (217u8, 48u8, 37u8) && is_hex_color(colors[5]));
    reveal_strlit("#F9AB00");
    assert("#F9AB00"@ =~= format_hex(249, 171, 0));
    lemma_hex_round_trip(249, 171, 0);
    assert(parse_hex(colors[6]) == (249u8, 171u8, 0u8) && is_hex_color(colors[6]));
    reveal_strlit("#1E8E3E");
    assert("#1E8E3E"@ =~= format_hex(30, 142, 62));
    lemma_hex_round_trip(30, 142, 62);
    assert(parse_hex(colors[7]) == (30u8, 142u8, 62u8) && is_hex_color(colors[7]));
    reveal_strlit("#174EA6");
    assert("#174EA6"@ =~= format_hex(23, 78, 166));
    lemma_hex_round_trip(23, 78, 166);
    assert(parse_hex(colors[8]) == (23u8, 78u8, 166u8) && is_hex_color(colors[8]));
    reveal_strlit("#A50E0E");
    assert("#A50E0E"@ =~= format_hex(165, 14, 14));
    lemma_hex_round_trip(165, 14, 14);
    assert(parse_hex(colors[9]) == (165u8, 14u8, 14u8) && is_hex_color(colors[9]));
    reveal_strlit("#E37400");
    assert("#E37400"@ =~= format_hex(227, 116, 0));
    lemma_hex_round_trip(227, 116, 0);
    assert(parse_hex(colors[10]) == (227u8, 116u8, 0u8) && is_hex_color(colors[10]));
    reveal_strlit("#0D652D");
    assert("#0D652D"@ =~= format_hex(13, 101, 45));
    lemma_hex_round_trip(13, 101, 45);
    assert(parse_hex(colors[11]) == (13u8, 101u8, 45u8) && is_hex_color(colors[11]));
    reveal_strlit("#5BB974");
    assert("#5BB974"@ =~= format_hex(91, 185, 116));
    lemma_hex_round_trip(91, 185, 116);
    assert(parse_hex(colors[12]) == (91u8, 185u8, 116u8) && is_hex_color(colors[12]));
    reveal_strlit("#81C995");
    assert("#81C995"@ =~= format_hex(129, 201, 149));
    lemma_hex_round_trip(129, 201, 149);
    assert(parse_hex(colors[13]) == (129u8, 201u8, 149u8) && is_hex_color(colors[13]));
    reveal_strlit("#8AB4F8");
    assert("#8AB4F8"@ =~= format_hex(138, 180, 248));
    lemma_hex_round_trip(138, 180, 248);
    assert(parse_hex(colors[14]) == (138u8, 180u8, 248u8) && is_hex_color(colors[14]));
    assert forall|i: int, j: int| 0 <= i < colors.len() && 0 <= j < colors.len() && i != j implies colors[i]
        != colors[j] by {
        assert(parse_hex(colors[i]) != parse_hex(colors[j]));
    }
}

/// The colours of `Blues` are colours in the notation of `format_hex`, and
/// no two of them are the same.
proof fn lemma_blues_colors()
    ensures
        Theme::Blues.colors().no_duplicates(),
        forall|k: int| 0 <= k < Theme::Blues.colors().len() ==> is_hex_color(#[trigger] Theme::Blues.colors()[k]),
{
    let colors = Theme::Blues.colors();
    reveal_strlit("#0D47A1");
    assert("#0D47A1"@ =~= format_hex(13, 71, 161));
    lemma_hex_round_trip(13, 71, 161);
    assert(parse_hex(colors[0]) == (13u8, 71u8, 161u8) && is_hex_color(colors[0]));
    reveal_strlit("#1565C0");
    assert("#1565C0"@ =~= format_hex(21, 101, 192));
    lemma_hex_round_trip(21, 101, 192);
    assert(parse_hex(colors[1]) == (21u8, 101u8, 192u8) && is_hex_color(colors[1]));
    reveal_strlit("#1976D2");
    assert("#1976D2"@ =~= format_hex(25, 118, 210));
    lemma_hex_round_trip(25, 118, 210);
    assert(parse_hex(colors[2]) == (25u8, 118u8, 210u8) && is_hex_color(colors[2]));
    reveal_strlit("#1E88E5");
    assert("#1E88E5"@ =~= format_hex(30, 136, 229));
    lemma_hex_round_trip(30, 136, 229);
    assert(parse_hex(colors[3]) == (30u8, 136u8, 229u8) && is_hex_color(colors[3]));
    reveal_strlit("#2196F3");
    assert("#2196F3"@ =~= format_hex(33, 150, 243));
    lemma_hex_round_trip(33, 150, 243);
    assert(parse_hex(colors[4]) == (33u8, 150u8, 243u8) && is_hex_color(colors[4]));
    reveal_strlit("#42A5F5");
    assert("#42A5F5"@ =~= format_hex(66, 165, 245));
    lemma_hex_round_trip(66, 165, 245);
    assert(parse_hex(colors[5]) == (66u8, 165u8, 245u8) && is_hex_color(colors[5]));
    reveal_strlit("#64B5F6");
    assert("#64B5F6"@ =~= format_hex(100, 181, 246));
    lemma_hex_round_trip(100, 181, 246);
    assert(parse_hex(colors[6]) == (100u8, 181u8, 246u8) && is_hex_color(colors[6]));
    reveal_strlit("#90CAF9");
    assert("#90CAF9"@ =~= format_hex(144, 202, 249));
    lemma_hex_round_trip(144, 202, 249);
    assert(parse_hex(colors[7]) == (144u8, 202u8, 249u8) && is_hex_color(colors[7]));
    reveal_strlit("#BBDEFB");
    assert("#BBDEFB"@ =~= format_hex(187, 222, 251));
    lemma_hex_round_trip(187, 222, 251);
    assert(parse_hex(colors[8]) == (187u8, 222u8, 251u8) && is_hex_color(colors[8]));
    reveal_strlit("#2962FF");
    assert("#2962FF"@ =~= format_hex(41, 98, 255));
    lemma_hex_round_trip(41, 98, 255);
    assert(parse_hex(colors[9]) == (41u8, 98u8, 255u8) && is_hex_color(colors[9]));
    reveal_strlit("#0277BD");
    assert("#0277BD"@ =~= format_hex(2, 119, 189));
    lemma_hex_round_trip(2, 119, 189);
    assert(parse_hex(colors[10]) == (2u8, 119u8, 189u8) && is_hex_color(colors[10]));
    reveal_strlit("#01579B");
    assert("#01579B"@ =~= format_hex(1, 87, 155));
    lemma_hex_round_trip(1, 87, 155);
    assert(parse_hex(colors[11]) == (1u8, 87u8, 155u8) && is_hex_color(colors[11]));
    reveal_strlit("#039BE5");
    assert("#039BE5"@ =~= format_hex(3, 155, 229));
    lemma_hex_round_trip(3, 155, 229);
    assert(parse_hex(colors[12]) == (3u8, 155u8, 229u8) && is_hex_color(colors[12]));
    reveal_strlit("#03A9F4");
    assert("#03A9F4"@ =~= format_hex(3, 169, 244));
    lemma_hex_round_trip(3, 169, 244);
    assert(parse_hex(colors[13]) == (3u8, 169u8, 244u8) && is_hex_color(colors[13]));
    reveal_strlit("#29B6F6");
    assert("#29B6F6"@ =~= format_hex(41, 182, 246));
    lemma_hex_round_trip(41, 182, 246);
    assert(parse_hex(colors[14]) == (41u8, 182u8, 246u8) && is_hex_color(colors[14]));
    assert forall|i: int, j: int| 0 <= i < colors.len() && 0 <= j < colors.len() && i != j implies colors[i]
        != colors[j] by {
        assert(parse_hex(colors[i]) != parse_hex(colors[j]));
    }
}

/// The colours of `Greens` are colours in the notation of `format_hex`, and
/// no two of them are the same.
proof fn lemma_greens_colors()
    ensures
        Theme::Greens.colors().no_duplicates(),
        forall|k: int| 0 <= k < Theme::Greens.colors().len() ==> is_hex_color(#[trigger] Theme::Greens.colors()[k]),
{
    let colors = Theme::Greens.colors();
    reveal_strlit("#1B5E20");
    assert("#1B5E20"@ =~= format_hex(27, 94, 32));
    lemma_hex_round_trip(27, 94, 32);
    assert(parse_hex(colors[0]) == (27u8, 94u8, 32u8) && is_hex_color(colors[0]));
    reveal_strlit("#2E7D32");
    assert("#2E7D32"@ =~= format_hex(46, 125, 50));
    lemma_hex_round_trip(46, 125, 50);
    assert(parse_hex(colors[1]) == (46u8, 125u8, 50u8) && is_hex_color(colors[1]));
    reveal_strlit("#388E3C");
    assert("#388E3C"@ =~= format_hex(56, 142, 60));
    lemma_hex_round_trip(56, 142, 60);
    assert(parse_hex(colors[2]) == (56u8, 142u8, 60u8) && is_hex_color(colors[2]));
    reveal_strlit("#43A047");
    assert("#43A047"@ =~= format_hex(67, 160, 71));
    lemma_hex_round_trip(67, 160, 71);
    assert(parse_hex(colors[3]) == (67u8, 160u8, 71u8) && is_hex_color(colors[3]));
    reveal_strlit("#4CAF50");
    assert("#4CAF50"@ =~= format_hex(76, 175, 80));
    lemma_hex_round_trip(76, 175, 80);
    assert(parse_hex(colors[4]) == (76u8, 175u8, 80u8) && is_hex_color(colors[4]));
    reveal_strlit("#66BB6A");
    assert("#66BB6A"@ =~= format_hex(102, 187, 106));
    lemma_hex_round_trip(102, 187, 106);
    assert(parse_hex(colors[5]) == (102u8, 187u8, 106u8) && is_hex_color(colors[5]));
    reveal_strlit("#81C784");
    assert("#81C784"@ =~= format_hex(129, 199, 132));
    lemma_hex_round_trip(129, 199, 132);
    assert(parse_hex(colors[6]) == (129u8, 199u8, 132u8) && is_hex_color(colors[6]));
    reveal_strlit("#A5D6A7");
    assert("#A5D6A7"@ =~= format_hex(165, 214, 167));
    lemma_hex_round_trip(165, 214, 167);
    assert(parse_hex(colors[7]) == (165u8, 214u8, 167u8) && is_hex_color(colors[7]));
    reveal_strlit("#C8E6C9");
    assert("#C8E6C9"@ =~= format_hex(200, 230, 201));
    lemma_hex_round_trip(200, 230, 201);
    assert(parse_hex(colors[8]) == (200u8, 230u8, 201u8) && is_hex_color(colors[8]));
    reveal_strlit("#00C853");
    assert("#00C853"@ =~= format_hex(0, 200, 83));
    lemma_hex_round_trip(0, 200, 83);
    assert(parse_hex(colors[9]) == (0u8, 200u8, 83u8) && is_hex_color(colors[9]));
    reveal_strlit("#00695C");
    assert("#00695C"@ =~= format_hex(0, 105, 92));
    lemma_hex_round_trip(0, 105, 92);
    assert(parse_hex(colors[10]) == (0u8, 105u8, 92u8) && is_hex_color(colors[10]));
    reveal_strlit("#00796B");
    assert("#00796B"@ =~= format_hex(0, 121, 107));
    lemma_hex_round_trip(0, 121, 107);
    assert(parse_hex(colors[11]) == (0u8, 121u8, 107u8) && is_hex_color(colors[11]));
    reveal_strlit("#00897B");
    assert("#00897B"@ =~= format_hex(0, 137, 123));
    lemma_hex_round_trip(0, 137, 123);
    assert(parse_hex(colors[12]) == (0u8, 137u8, 123u8) && is_hex_color(colors[12]));
    reveal_strlit("#009688");
    assert("#009688"@ =~= format_hex(0, 150, 136));
    lemma_hex_round_trip(0, 150, 136);
    assert(parse_hex(colors[13]) == (0u8, 150u8, 136u8) && is_hex_color(colors[13]));
    reveal_strlit("#26A69A");
    assert("#26A69A"@ =~= format_hex(38, 166, 154));
    lemma_hex_round_trip(38, 166, 154);
    assert(parse_hex(colors[14]) == (38u8, 166u8, 154u8) && is_hex_color(colors[14]));
    assert forall|i: int, j: int| 0 <= i < colors.len() && 0 <= j < colors.len() && i != j implies colors[i]
        != colors[j] by {
        assert(parse_hex(colors[i]) != parse_hex(colors[j]));
    }
}

/// The colours of `Reds` are colours in the notation of `format_hex`, and
/// no two of them are the same.
proof fn lemma_reds_colors()
    ensures
        Theme::Reds.colors().no_duplicates(),
        forall|k: int| 0 <= k < Theme::Reds.colors().len() ==> is_hex_color(#[trigger] Theme::Reds.colors()[k]),
{
    let colors = Theme::Reds.colors();
    reveal_strlit("#B71C1C");
    assert("#B71C1C"@ =~= format_hex(183, 28, 28));
    lemma_hex_round_trip(183, 28, 28);
    assert(parse_hex(colors[0]) == (183u8, 28u8, 28u8) && is_hex_color(colors[0]));
    reveal_strlit("#C62828");
    assert("#C62828"@ =~= format_hex(198, 40, 40));
    lemma_hex_round_trip(198, 40, 40);
    assert(parse_hex(colors[1]) == (198u8, 40u8, 40u8) && is_hex_color(colors[1]));
    reveal_strlit("#D32F2F");
    assert("#D32F2F"@ =~= format_hex(211, 47, 47));
    lemma_hex_round_trip(211, 47, 47);
    assert(parse_hex(colors[2]) == (211u8, 47u8, 47u8) && is_hex_color(colors[2]));
    reveal_strlit("#E53935");
    assert("#E53935"@ =~= format_hex(229, 57, 53));
    lemma_hex_round_trip(229, 57, 53);
    assert(parse_hex(colors[3]) == (229u8, 57u8, 53u8) && is_hex_color(colors[3]));
    reveal_strlit("#F44336");
    assert("#F44336"@ =~= format_hex(244, 67, 54));
    lemma_hex_round_trip(244, 67, 54);
    assert(parse_hex(colors[4]) == (244u8, 67u8, 54u8) && is_hex_color(colors[4]));
    reveal_strlit("#EF5350");
    assert("#EF5350"@ =~= format_hex(239, 83, 80));
    lemma_hex_round_trip(239, 83, 80);
    assert(parse_hex(colors[5]) == (239u8, 83u8, 80u8) && is_hex_color(colors[5]));
    reveal_strlit("#E57373");
    assert("#E57373"@ =~= format_hex(229, 115, 115));
    lemma_hex_round_trip(229, 115, 115);
    assert(parse_hex(colors[6]) == (229u8, 115u8, 115u8) && is_hex_color(colors[6]));
    reveal_strlit("#EF9A9A");
    assert("#EF9A9A"@ =~= format_hex(239, 154, 154));
    lemma_hex_round_trip(239, 154, 154);
    assert(parse_hex(colors[7]) == (239u8, 154u8, 154u8) && is_hex_color(colors[7]));
    reveal_strlit("#FFCDD2");
    assert("#FFCDD2"@ =~= format_hex(255, 205, 210));
    lemma_hex_round_trip(255, 205, 210);
    assert(parse_hex(colors[8]) == (255u8, 205u8, 210u8) && is_hex_color(colors[8]));
    reveal_strlit("#DD2C00");
    assert("#DD2C00"@ =~= format_hex(221, 44, 0));
    lemma_hex_round_trip(221, 44, 0);
    assert(parse_hex(colors[9]) == (221u8, 44u8, 0u8) && is_hex_color(colors[9]));
    reveal_strlit("#BF360C");
    assert("#BF360C"@ =~= format_hex(191, 54, 12));
    lemma_hex_round_trip(191, 54, 12);
    assert(parse_hex(colors[10]) == (191u8, 54u8, 12u8) && is_hex_color(colors[10]));
    reveal_strlit("#E64A19");
    assert("#E64A19"@ =~= format_hex(230, 74, 25));
    lemma_hex_round_trip(230, 74, 25);
    assert(parse_hex(colors[11]) == (230u8, 74u8, 25u8) && is_hex_color(colors[11]));
    reveal_strlit("#F4511E");
    assert("#F4511E"@ =~= format_hex(244, 81, 30));
    lemma_hex_round_trip(244, 81, 30);
    assert(parse_hex(colors[12]) == (244u8, 81u8, 30u8) && is_hex_color(colors[12]));
    reveal_strlit("#FF5722");
    assert("#FF5722"@ =~= format_hex(255, 87, 34));
    lemma_hex_round_trip(255, 87, 34);
    assert(parse_hex(colors[13]) == (255u8, 87u8, 34u8) && is_hex_color(colors[13]));
    reveal_strlit("#FF7043");
    assert("#FF7043"@ =~= format_hex(255, 112, 67));
    lemma_hex_round_trip(255, 112, 67);
    assert(parse_hex(colors[14]) == (255u8, 112u8, 67u8) && is_hex_color(colors[14]));
    assert forall|i: int, j: int| 0 <= i < colors.len() && 0 <= j < colors.len() && i != j implies colors[i]
        != colors[j] by {
        assert(parse_hex(colors[i]) != parse_hex(colors[j]));
    }
}

/// The colours of `Purples` are colours in the notation of `format_hex`, and
/// no two of them are the same.
proof fn lemma_purples_colors()
    ensures
        Theme::Purples.colors().no_duplicates(),
        forall|k: int| 0 <= k < Theme::Purples.colors().len() ==> is_hex_color(#[trigger] Theme::Purples.colors()[k]),
{
    let colors = Theme::Purples.colors();
    reveal_strlit("#4A148C");
    assert("#4A148C"@ =~= format_hex(74, 20, 140));
    lemma_hex_round_trip(74, 20, 140);
    assert(parse_hex(colors[0]) == (74u8, 20u8, 140u8) && is_hex_color(colors[0]));
    reveal_strlit("#6A1B9A");
    assert("#6A1B9A"@ =~= format_hex(106, 27, 154));
    lemma_hex_round_trip(106, 27, 154);
    assert(parse_hex(colors[1]) == (106u8, 27u8, 154u8) && is_hex_color(colors[1]));
    reveal_strlit("#7B1FA2");
    assert("#7B1FA2"@ =~= format_hex(123, 31, 162));
    lemma_hex_round_trip(123, 31, 162);
    assert(parse_hex(colors[2]) == (123u8, 31u8, 162u8) && is_hex_color(colors[2]));
    reveal_strlit("#8E24AA");
    assert("#8E24AA"@ =~= format_hex(142, 36, 170));
    lemma_hex_round_trip(142, 36, 170);
    assert(parse_hex(colors[3]) == (142u8, 36u8, 170u8) && is_hex_color(colors[3]));
    reveal_strlit("#9C27B0");
    assert("#9C27B0"@ =~= format_hex(156, 39, 176));
    lemma_hex_round_trip(156, 39, 176);
    assert(parse_hex(colors[4]) == (156u8, 39u8, 176u8) && is_hex_color(colors[4]));
    reveal_strlit("#AB47BC");
    assert("#AB47BC"@ =~= format_hex(171, 71, 188));
    lemma_hex_round_trip(171, 71, 188);
    assert(parse_hex(colors[5]) == (171u8, 71u8, 188u8) && is_hex_color(colors[5]));
    reveal_strlit("#BA68C8");
    assert("#BA68C8"@ =~= format_hex(186, 104, 200));
    lemma_hex_round_trip(186, 104, 200);
    assert(parse_hex(colors[6]) == (186u8, 104u8, 200u8) && is_hex_color(colors[6]));
    reveal_strlit("#CE93D8");
    assert("#CE93D8"@ =~= format_hex(206, 147, 216));
    lemma_hex_round_trip(206, 147, 216);
    assert(parse_hex(colors[7]) == (206u8, 147u8, 216u8) && is_hex_color(colors[7]));
    reveal_strlit("#E1BEE7");
    assert("#E1BEE7"@ =~= format_hex(225, 190, 231));
    lemma_hex_round_trip(225, 190, 231);
    assert(parse_hex(colors[8]) == (225u8, 190u8, 231u8) && is_hex_color(colors[8]));
    reveal_strlit("#880E4F");
    assert("#880E4F"@ =~= format_hex(136, 14, 79));
    lemma_hex_round_trip(136, 14, 79);
    assert(parse_hex(colors[9]) == (136u8, 14u8, 79u8) && is_hex_color(colors[9]));
    reveal_strlit("#AD1457");
    assert("#AD1457"@ =~= format_hex(173, 20, 87));
    lemma_hex_round_trip(173, 20, 87);
    assert(parse_hex(colors[10]) == (173u8, 20u8, 87u8) && is_hex_color(colors[10]));
    reveal_strlit("#C2185B");
    assert("#C2185B"@ =~= format_hex(194, 24, 91));
    lemma_hex_round_trip(194, 24, 91);
    assert(parse_hex(colors[11]) == (194u8, 24u8, 91u8) && is_hex_color(colors[11]));
    reveal_strlit("#D81B60");
    assert("#D81B60"@ =~= format_hex(216, 27, 96));
    lemma_hex_round_trip(216, 27, 96);
    assert(parse_hex(colors[12]) == (216u8, 27u8, 96u8) && is_hex_color(colors[12]));
    reveal_strlit("#E91E63");
    assert("#E91E63"@ =~= format_hex(233, 30, 99));
    lemma_hex_round_trip(233, 30, 99);
    assert(parse_hex(colors[13]) == (233u8, 30u8, 99u8) && is_hex_color(colors[13]));
    reveal_strlit("#EC407A");
    assert("#EC407A"@ =~= format_hex(236, 64, 122));
    lemma_hex_round_trip(236, 64, 122);
    assert(parse_hex(colors[14]) == (236u8, 64u8, 122u8) && is_hex_color(colors[14]));
    assert forall|i: int, j: int| 0 <= i < colors.len() && 0 <= j < colors.len() && i != j implies colors[i]
        != colors[j] by {
        assert(parse_hex(colors[i]) != parse_hex(colors[j]));
    }
}

/// The colours of `Rainbow` are colours in the notation of `format_hex`, and
/// no two of them are the same.
proof fn lemma_rainbow_colors()
    ensures
        Theme::Rainbow.colors().no_duplicates(),
        forall|k: int| 0 <= k < Theme::Rainbow.colors().len() ==> is_hex_color(#[trigger] Theme::Rainbow.colors()[k]),
{
    let colors = Theme::Rainbow.colors();
    reveal_strlit("#FF0000");
    assert("#FF0000"@ =~= format_hex(255, 0, 0));
    lemma_hex_round_trip(255, 0, 0);
    assert(parse_hex(colors[0]) == (255u8, 0u8, 0u8) && is_hex_color(colors[0]));
    reveal_strlit("#FF4500");
    assert("#FF4500"@ =~= format_hex(255, 69, 0));
    lemma_hex_round_trip(255, 69, 0);
    assert(parse_hex(colors[1]) == (255u8, 69u8, 0u8) && is_hex_color(colors[1]));
    reveal_strlit("#FF8C00");
    assert("#FF8C00"@ =~= format_hex(255, 140, 0));
    lemma_hex_round_trip(255, 140, 0);
    assert(parse_hex(colors[2]) == (255u8, 140u8, 0u8) && is_hex_color(colors[2]));
    reveal_strlit("#FFA500");
    assert("#FFA500"@ =~= format_hex(255, 165, 0));
    lemma_hex_round_trip(255, 165, 0);
    assert(parse_hex(colors[3]) == (255u8, 165u8, 0u8) && is_hex_color(colors[3]));
    reveal_strlit("#FFD700");
    assert("#FFD700"@ =~= format_hex(255, 215, 0));
    lemma_hex_round_trip(255, 215, 0);
    assert(parse_hex(colors[4]) == (255u8, 215u8, 0u8) && is_hex_color(colors[4]));
    reveal_strlit("#FFFF00");
    assert("#FFFF00"@ =~= format_hex(255, 255, 0));
    lemma_hex_round_trip(255, 255, 0);
    assert(parse_hex(colors[5]) == (255u8, 255u8, 0u8) && is_hex_color(colors[5]));
    reveal_strlit("#ADFF2F");
    assert("#ADFF2F"@ =~= format_hex(173, 255, 47));
    lemma_hex_round_trip(173, 255, 47);
    assert(parse_hex(colors[6]) == (173u8, 255u8, 47u8) && is_hex_color(colors[6]));
    reveal_strlit("#32CD32");
    assert("#32CD32"@ =~= format_hex(50, 205, 50));
    lemma_hex_round_trip(50, 205, 50);
    assert(parse_hex(colors[7]) == (50u8, 205u8, 50u8) && is_hex_color(colors[7]));
    reveal_strlit("#008000");
    assert("#008000"@ =~= format_hex(0, 128, 0));
    lemma_hex_round_trip(0, 128, 0);
    assert(parse_hex(colors[8]) == (0u8, 128u8, 0u8) && is_hex_color(colors[8]));
    reveal_strlit("#00FF7F");
    assert("#00FF7F"@ =~= format_hex(0, 255, 127));
    lemma_hex_round_trip(0, 255, 127);
    assert(parse_hex(colors[9]) == (0u8, 255u8, 127u8) && is_hex_color(colors[9]));
    reveal_strlit("#00FFFF");
    assert("#00FFFF"@ =~= format_hex(0, 255, 255));
    lemma_hex_round_trip(0, 255, 255);
    assert(parse_hex(colors[10]) == (0u8, 255u8, 255u8) && is_hex_color(colors[10]));
    reveal_strlit("#1E90FF");
    assert("#1E90FF"@ =~= format_hex(30, 144, 255));
    lemma_hex_round_trip(30, 144, 255);
    assert(parse_hex(colors[11]) == (30u8, 144u8, 255u8) && is_hex_color(colors[11]));
    reveal_strlit("#0000FF");
    assert("#0000FF"@ =~= format_hex(0, 0, 255));
    lemma_hex_round_trip(0, 0, 255);
    assert(parse_hex(colors[12]) == (0u8, 0u8, 255u8) && is_hex_color(colors[12]));
    reveal_strlit("#4B0082");
    assert("#4B0082"@ =~= format_hex(75, 0, 130));
    lemma_hex_round_trip(75, 0, 130);
    assert(parse_hex(colors[13]) == (75u8, 0u8, 130u8) && is_hex_color(colors[13]));
    reveal_strlit("#8A2BE2");
    assert("#8A2BE2"@ =~= format_hex(138, 43, 226));
    lemma_hex_round_trip(138, 43, 226);
    assert(parse_hex(colors[14]) == (138u8, 43u8, 226u8) && is_hex_color(colors[14]));
    reveal_strlit("#FF00FF");
    assert("#FF00FF"@ =~= format_hex(255, 0, 255));
    lemma_hex_round_trip(255, 0, 255);
    assert(parse_hex(colors[15]) == (255u8, 0u8, 255u8) && is_hex_color(colors[15]));
    reveal_strlit("#C71585");
    assert("#C71585"@ =~= format_hex(199, 21, 133));
    lemma_hex_round_trip(199, 21, 133);
    assert(parse_hex(colors[16]) == (199u8, 21u8, 133u8) && is_hex_color(colors[16]));
    assert forall|i: int, j: int| 0 <= i < colors.len() && 0 <= j < colors.len() && i != j implies colors[i]
        != colors[j] by {
        assert(parse_hex(colors[i]) != parse_hex(colors[j]));
    }
}

/// The colours of every theme are colours in the notation of `format_hex`;
/// there are fifteen or more of them, and no two are the same.
pub proof fn lemma_theme_colors(theme: Theme)
    ensures
        theme.colors().no_duplicates(),
        theme.colors().len() >= 15,
        forall|k: int| 0 <= k < theme.colors().len() ==> is_hex_color(#[trigger] theme.colors()[k]),
{
    match theme {
        Theme::Mesos => lemma_mesos_colors(),
        Theme::Google => lemma_google_colors(),
        Theme::Blues => lemma_blues_colors(),
        Theme::Greens => lemma_greens_colors(),
        Theme::Reds => lemma_reds_colors(),
        Theme::Purples => lemma_purples_colors(),
        Theme::Rainbow => lemma_rainbow_colors(),
    }
}

/// The text of one hexadecimal digit.
fn digit_text(n: u8) -> (text: &'static str)
    requires
        n < 16,
    ensures
        text@ == seq![hex_digit(n as int)],
{
    proof {
        reveal_strlit("0");
        reveal_strlit("1");
        reveal_strlit("2");
        reveal_strlit("3");
        reveal_strlit("4");
        reveal_strlit("5");
        reveal_strlit("6");
        reveal_strlit("7");
        reveal_strlit("8");
        reveal_strlit("9");
        reveal_strlit("A");
        reveal_strlit("B");
        reveal_strlit("C");
        reveal_strlit("D");
        reveal_strlit("E");
        reveal_strlit("F");
    }
    let text: &'static str = if n == 0 {
        "0"
    } else if n == 1 {
        "1"
    } else if n == 2 {
        "2"
    } else if n == 3 {
        "3"
    } else if n == 4 {
        "4"
    } else if n == 5 {
        "5"
    } else if n == 6 {
        "6"
    } else if n == 7 {
        "7"
    } else if n == 8 {
        "8"
    } else if n == 9 {
        "9"
    } else if n == 10 {
        "A"
    } else if n == 11 {
        "B"
    } else if n == 12 {
        "C"
    } else if n == 13 {
        "D"
    } else if n == 14 {
        "E"
    } else {
        "F"
    };
    assert(text@ =~= seq![hex_digit(n as int)]);
    text
}

/// The value of a hexadecimal digit, if the character is one.
fn digit_value(c: char) -> (value: Option<u8>)
    ensures
        match hex_value(c) {
            Some(v) => value == Some(v as u8) && 0 <= v < 16,
            None => value.is_none(),
        },
{
    if c >= '0' && c <= '9' {
        Some((c as u8) - 48)
    } else if c >= 'A' && c <= 'F' {
        Some((c as u8) - 55)
    } else if c >= 'a' && c <= 'f' {
        Some((c as u8) - 87)
    } else {
        None
    }
}

/// Reads the component that stands at `at`.
fn read_channel(text: &str, length: usize, at: usize) -> (value: u8)
    requires
        length == text@.len(),
    ensures
        value == channel(text@, at as int),
{
    if at >= length || length - at < 2 {
        return 0;
    }
    let first: char = text.get_char(at);
    let second: char = text.get_char(at + 1);
    match digit_value(second) {
        Some(low) => match digit_value(first) {
            Some(high) => 16 * high + low,
            None => if first == '+' {
                low
            } else {
                0
            },
        },
        None => 0,
    }
}

/// Counts the `#` characters at the start of the text.
fn count_hashes(text: &str, length: usize) -> (count: usize)
    requires
        length == text@.len(),
    ensures
        count == leading_hashes(text@),
        count <= length,
{
    let mut i: usize = 0;
    assert(text@.skip(0) =~= text@);
    while i < length
        invariant
            i <= length,
            length == text@.len(),
            leading_hashes(text@) == i + leading_hashes(text@.skip(i as int)),
        decreases length - i,
    {
        let rest = Ghost(text@.skip(i as int));
        assert(rest@.len() > 0 && rest@.first() == text@[i as int]);
        if text.get_char(i) != '#' {
            return i;
        }
        assert(rest@.drop_first() =~= text@.skip(i + 1));
        i = i + 1;
    }
    assert(text@.skip(i as int).len() == 0);
    i
}

/// Why a colour manager could not be made.
#[derive(Debug, Clone, Copy, PartialEq, Eq, Structural)]
pub enum ColorError {
    /// The palette holds no colour.
    EmptyPalette,
    /// No seed was given and the system had no entropy to offer.
    EntropyUnavailable,
}

/// A list of colours that is never empty.
pub struct Palette {
    colors: Vec<String>,
}

impl Palette {
    #[verifier::type_invariant]
    spec fn inv(&self) -> bool {
        self.colors@.len() > 0
    }

    /// The colours, in order.
    pub closed spec fn view(&self) -> Seq<Seq<char>> {
        colors_of(self.colors@)
    }

    /// The colours as strings.
    pub fn list(&self) -> (colors: &Vec<String>)
        ensures
            colors_of(colors@) == self@,
            colors@.len() > 0,
    {
        proof {
            use_type_invariant(self);
        }
        &self.colors
    }
}

/// Picks colours from a palette, with a random source of its own.
pub struct ColorManager {
    palette: Palette,
    rng: ChaCha8Rng,
}

/// Decides whether `color` occurs in `list`.
pub fn contains_color(list: &Vec<String>, color: &String) -> (found: bool)
    ensures
        found == colors_of(list@).contains(color@),
{
    let mut i: usize = 0;
    while i < list.len()
        invariant
            i <= list@.len(),
            forall|k: int| 0 <= k < i ==> colors_of(list@)[k] != color@,
        decreases list@.len() - i,
    {
        if list[i] == *color {
            assert(colors_of(list@)[i as int] == color@);
            return true;
        }
        i = i + 1;
    }
    false
}

impl ColorManager {
    /// The colours of the palette, in order.
    pub closed spec fn colors(&self) -> Seq<Seq<char>> {
        self.palette@
    }

    /// Reads a colour in hexadecimal notation: after any number of `#`, two
    /// digits each for red, green and blue.  A component that is not written
    /// so is zero.
    pub fn hex_to_rgb(hex: &str) -> (rgb: (u8, u8, u8))
        ensures
            rgb == parse_hex(hex@),
    {
        let length: usize = hex.unicode_len();
        let start: usize = count_hashes(hex, length);
        let r: u8 = read_channel(hex, length, start);
        let g: u8 = if length - start >= 2 {
            read_channel(hex, length, start + 2)
        } else {
            0
        };
        let b: u8 = if length - start >= 4 {
            read_channel(hex, length, start + 4)
        } else {
            0
        };
        (r, g, b)
    }

    /// Writes a colour as `#` and six hexadecimal digits in upper case.
    pub fn rgb_to_hex(r: u8, g: u8, b: u8) -> (hex: String)
        ensures
            hex@ == format_hex(r, g, b),
    {
        proof {
            reveal_strlit("#");
        }
        let mut hex: String = String::from_str("#");
        hex.append(digit_text(r / 16));
        hex.append(digit_text(r % 16));
        hex.append(digit_text(g / 16));
        hex.append(digit_text(g % 16));
        hex.append(digit_text(b / 16));
        hex.append(digit_text(b % 16));
        assert(hex@ =~= format_hex(r, g, b));
        hex
    }

    /// Blends two colours: every component is the mean of the two, where
    /// the second weighs `opacity` thousandths (cut off at one), rounded to
    /// the nearest whole number.
    pub fn blend_colors(color1: &str, color2: &str, opacity: u16) -> (blended: String)
        ensures
            blended@ == blend(color1@, color2@, opacity),
    {
        let (r1, g1, b1) = Self::hex_to_rgb(color1);
        let (r2, g2, b2) = Self::hex_to_rgb(color2);
        let alpha: u32 = if opacity > 1000 {
            1000
        } else {
            opacity as u32
        };
        let r: u8 = blend_component(r1, r2, alpha);
        let g: u8 = blend_component(g1, g2, alpha);
        let b: u8 = blend_component(b1, b2, alpha);
        Self::rgb_to_hex(r, g, b)
    }

    /// The mean of two colours, every component rounded down.
    pub fn average_colors(color1: &str, color2: &str) -> (blended: String)
        ensures
            blended@ == average(color1@, color2@),
    {
        let (r1, g1, b1) = Self::hex_to_rgb(color1);
        let (r2, g2, b2) = Self::hex_to_rgb(color2);
        let r: u16 = (r1 as u16 + r2 as u16) / 2;
        let g: u16 = (g1 as u16 + g2 as u16) / 2;
        let b: u16 = (b1 as u16 + b2 as u16) / 2;
        Self::rgb_to_hex(r as u8, g as u8, b as u8)
    }

    /// The contrast ratio of two colours in thousandths, rounded down: from
    /// 1000 for equal luminance to 21000 for black on white.
    pub fn color_contrast(color1: &str, color2: &str) -> (ratio: u32)
        ensures
            ratio == contrast(color1@, color2@),
            1000 <= ratio <= 21000,
    {
        let (r1, g1, b1) = Self::hex_to_rgb(color1);
        let (r2, g2, b2) = Self::hex_to_rgb(color2);
        let l1: u64 = Self::relative_luminance(r1, g1, b1);
        let l2: u64 = Self::relative_luminance(r2, g2, b2);
        let ratio: u64 = if l1 > l2 {
            proof {
                lemma_contrast_bound(l1 as int, l2 as int);
            }
            1000 * (l1 + 500_000_000) / (l2 + 500_000_000)
        } else {
            proof {
                lemma_contrast_bound(l2 as int, l1 as int);
            }
            1000 * (l2 + 500_000_000) / (l1 + 500_000_000)
        };
        ratio as u32
    }

    /// The relative luminance of a colour, in parts of ten thousand million.
    fn relative_luminance(r: u8, g: u8, b: u8) -> (luminance: u64)
        ensures
            luminance == relative_luminance(r, g, b),
            luminance <= 10_000_000_000,
    {
        proof {
            lemma_linear_intensity_bound(r);
            lemma_linear_intensity_bound(g);
            lemma_linear_intensity_bound(b);
        }
        2126 * (LINEAR_INTENSITY[r as usize] as u64) + 7152 * (LINEAR_INTENSITY[g as usize] as u64)
            + 722 * (LINEAR_INTENSITY[b as usize] as u64)
    }
}

/// Blends one component.
fn blend_component(a: u8, b: u8, alpha: u32) -> (blended: u8)
    requires
        alpha <= 1000,
    ensures
        blended == blend_channel(a, b, alpha as int),
{
    proof {
        lemma_blend_channel_bound(a, b, alpha as int);
    }
    (((a as u32) * (1000 - alpha) + (b as u32) * alpha + 500) / 1000) as u8
}

impl ColorManager {
    /// Makes a manager of the given palette.  With a seed the random source
    /// is the one of that seed; without, it is seeded from the system's
    /// entropy.  An empty palette is refused.
    pub fn new(palette: Vec<String>, seed: Option<u64>) -> (manager: Result<ColorManager, ColorError>)
        ensures
            palette@.len() > 0 && seed.is_some() ==> manager.is_ok(),
            manager matches Ok(m) ==> m.colors() == colors_of(palette@) && palette@.len() > 0,
            manager matches Err(e) ==> (e == ColorError::EmptyPalette <==> palette@.len() == 0),
    {
        if palette.len() == 0 {
            return Err(ColorError::EmptyPalette);
        }
        match new_rng(seed) {
            Ok(rng) => Ok(ColorManager { palette: Palette { colors: palette }, rng }),
            Err(_) => Err(ColorError::EntropyUnavailable),
        }
    }

    /// The names of the themes.
    pub fn available_themes() -> (names: Vec<String>)
        ensures
            colors_of(names@) == seq![
                Theme::Mesos.name(),
                Theme::Google.name(),
                Theme::Blues.name(),
                Theme::Greens.name(),
                Theme::Reds.name(),
                Theme::Purples.name(),
                Theme::Rainbow.name(),
            ],
    {
        let mut names: Vec<String> = Vec::new();
        names.push(Theme::Mesos.to_string());
        names.push(Theme::Google.to_string());
        names.push(Theme::Blues.to_string());
        names.push(Theme::Greens.to_string());
        names.push(Theme::Reds.to_string());
        names.push(Theme::Purples.to_string());
        names.push(Theme::Rainbow.to_string());
        assert(colors_of(names@) =~= seq![
            Theme::Mesos.name(),
            Theme::Google.name(),
            Theme::Blues.name(),
            Theme::Greens.name(),
            Theme::Reds.name(),
            Theme::Purples.name(),
            Theme::Rainbow.name(),
        ]);
        names
    }

    /// Makes a manager of the palette of a theme.  With a seed this never
    /// fails.
    pub fn with_theme(theme: Theme, seed: Option<u64>) -> (manager: Result<ColorManager, ColorError>)
        ensures
            seed.is_some() ==> manager.is_ok(),
            manager matches Ok(m) ==> m.colors() == theme.colors(),
            manager matches Err(e) ==> e == ColorError::EntropyUnavailable,
    {
        let palette = theme.palette();
        assert(theme.colors().len() > 0);
        assert(colors_of(palette@).len() == palette@.len());
        Self::new(palette, seed)
    }

    /// Makes a manager of the palette of the theme of that name, whatever the
    /// case of its letters; of `Mesos` where the name denotes no theme.
    pub fn with_theme_name(theme_name: &str, seed: Option<u64>) -> (manager: Result<
        ColorManager,
        ColorError,
    >)
        ensures
            seed.is_some() ==> manager.is_ok(),
            manager matches Ok(m) ==> m.colors() == theme_of(theme_name@).colors(),
            manager matches Err(e) ==> e == ColorError::EntropyUnavailable,
    {
        let theme = Theme::from(theme_name);
        Self::with_theme(theme, seed)
    }

    /// Makes a manager of the palette of `Mesos`.
    pub fn default(seed: Option<u64>) -> (manager: Result<ColorManager, ColorError>)
        ensures
            seed.is_some() ==> manager.is_ok(),
            manager matches Ok(m) ==> m.colors() == Theme::Mesos.colors(),
            manager matches Err(e) ==> e == ColorError::EntropyUnavailable,
    {
        Self::mesos_theme(seed)
    }

    /// Makes a manager of the palette of `Mesos`: fifteen colours from yellow
    /// over red and blue to green.
    pub fn mesos_theme(seed: Option<u64>) -> (manager: Result<ColorManager, ColorError>)
        ensures
            seed.is_some() ==> manager.is_ok(),
            manager matches Ok(m) ==> m.colors() == Theme::Mesos.colors(),
            manager matches Err(e) ==> e == ColorError::EntropyUnavailable,
    {
        Self::with_theme(Theme::Mesos, seed)
    }

    /// Makes a manager of the palette of `Google`.
    pub fn google_theme(seed: Option<u64>) -> (manager: Result<ColorManager, ColorError>)
        ensures
            seed.is_some() ==> manager.is_ok(),
            manager matches Ok(m) ==> m.colors() == Theme::Google.colors(),
            manager matches Err(e) ==> e == ColorError::EntropyUnavailable,
    {
        Self::with_theme(Theme::Google, seed)
    }

    /// Makes a manager of the palette of `Blues`.
    pub fn blues_theme(seed: Option<u64>) -> (manager: Result<ColorManager, ColorError>)
        ensures
            seed.is_some() ==> manager.is_ok(),
            manager matches Ok(m) ==> m.colors() == Theme::Blues.colors(),
            manager matches Err(e) ==> e == ColorError::EntropyUnavailable,
    {
        Self::with_theme(Theme::Blues, seed)
    }

    /// Makes a manager of the palette of `Greens`.
    pub fn greens_theme(seed: Option<u64>) -> (manager: Result<ColorManager, ColorError>)
        ensures
            seed.is_some() ==> manager.is_ok(),
            manager matches Ok(m) ==> m.colors() == Theme::Greens.colors(),
            manager matches Err(e) ==> e == ColorError::EntropyUnavailable,
    {
        Self::with_theme(Theme::Greens, seed)
    }

    /// Makes a manager of the palette of `Reds`.
    pub fn reds_theme(seed: Option<u64>) -> (manager: Result<ColorManager, ColorError>)
        ensures
            seed.is_some() ==> manager.is_ok(),
            manager matches Ok(m) ==> m.colors() == Theme::Reds.colors(),
            manager matches Err(e) ==> e == ColorError::EntropyUnavailable,
    {
        Self::with_theme(Theme::Reds, seed)
    }

    /// Makes a manager of the palette of `Purples`.
    pub fn purples_theme(seed: Option<u64>) -> (manager: Result<ColorManager, ColorError>)
        ensures
            seed.is_some() ==> manager.is_ok(),
            manager matches Ok(m) ==> m.colors() == Theme::Purples.colors(),
            manager matches Err(e) ==> e == ColorError::EntropyUnavailable,
    {
        Self::with_theme(Theme::Purples, seed)
    }

    /// Makes a manager of the palette of `Rainbow`.
    pub fn rainbow_theme(seed: Option<u64>) -> (manager: Result<ColorManager, ColorError>)
        ensures
            seed.is_some() ==> manager.is_ok(),
            manager matches Ok(m) ==> m.colors() == Theme::Rainbow.colors(),
            manager matches Err(e) ==> e == ColorError::EntropyUnavailable,
    {
        Self::with_theme(Theme::Rainbow, seed)
    }

    /// The palette.
    pub fn palette(&self) -> (palette: &Vec<String>)
        ensures
            colors_of(palette@) == self.colors(),
            palette@.len() > 0,
    {
        self.palette.list()
    }

    /// Draws a colour from the palette.
    pub fn get_random_color(&mut self) -> (color: String)
        ensures
            final(self).colors() == old(self).colors(),
            old(self).colors().contains(color@),
    {
        let colors = self.palette.list();
        let index: usize = random_below(&mut self.rng, colors.len());
        let color = colors[index].clone();
        assert(colors_of(colors@)[index as int] == color@);
        color
    }

    /// Draws `count` colours from the palette, one after the other.
    pub fn get_random_colors(&mut self, count: usize) -> (colors: Vec<String>)
        ensures
            final(self).colors() == old(self).colors(),
            colors@.len() == count,
            forall|i: int| 0 <= i < count ==> old(self).colors().contains(#[trigger] colors@[i]@),
    {
        let mut colors: Vec<String> = Vec::new();
        let mut i: usize = 0;
        while i < count
            invariant
                i <= count,
                self.colors() == old(self).colors(),
                colors@.len() == i,
                forall|k: int| 0 <= k < i ==> old(self).colors().contains(#[trigger] colors@[k]@),
            decreases count - i,
        {
            let color = self.get_random_color();
            colors.push(color);
            i = i + 1;
        }
        colors
    }

    /// Draws a colour that is not among `existing`, if the draws allow it:
    /// after twenty draws in vain the colour drawn last is returned, whether
    /// it is among them or not.
    pub fn get_different_color(&mut self, existing_colors: &Vec<String>) -> (color: String)
        ensures
            final(self).colors() == old(self).colors(),
            old(self).colors().contains(color@),
    {
        let mut color = self.get_random_color();
        let mut attempts: u8 = 0;
        while attempts < MAX_COLOR_ATTEMPTS && contains_color(existing_colors, &color)
            invariant
                attempts <= MAX_COLOR_ATTEMPTS,
                self.colors() == old(self).colors(),
                old(self).colors().contains(color@),
            decreases MAX_COLOR_ATTEMPTS - attempts,
        {
            color = self.get_random_color();
            attempts = attempts + 1;
        }
        color
    }

    /// Draws two colours and blends them in equal parts.  The second colour
    /// differs from the first, unless the palette has no other colour: where
    /// the draws do not find one, the first other colour of the palette is
    /// taken.
    pub fn get_colors_with_blend(&mut self) -> (colors: (String, String, String))
        ensures
            final(self).colors() == old(self).colors(),
            old(self).colors().contains(colors.0@),
            old(self).colors().contains(colors.1@),
            colors.2@ == average(colors.0@, colors.1@),
            colors.0@ == colors.1@ ==> forall|k: int|
                0 <= k < old(self).colors().len() ==> (#[trigger] old(self).colors()[k]) == colors.0@,
    {
        let color1 = self.get_random_color();
        let mut existing: Vec<String> = Vec::new();
        existing.push(color1.clone());
        assert(colors_of(existing@) =~= seq![color1@]);
        let drawn = self.get_different_color(&existing);
        let palette = self.palette.list();
        let color2: String = if drawn == color1 {
            match first_free_color(palette, &existing) {
                Some(other) => {
                    proof {
                        assert(colors_of(palette@)[other as int] == palette@[other as int]@);
                        assert(colors_of(existing@)[0] == color1@);
                        assert(palette@[other as int]@ != color1@);
                    }
                    palette[other].clone()
                },
                None => {
                    proof {
                        assert forall|k: int| 0 <= k < self.colors().len() implies (#[trigger] self.colors()[k])
                            == color1@ by {
                            assert(colors_of(palette@)[k] == palette@[k]@);
                            assert(colors_of(existing@).contains(palette@[k]@));
                        }
                    }
                    drawn
                },
            }
        } else {
            drawn
        };
        let blended = Self::average_colors(color1.as_str(), color2.as_str());
        (color1, color2, blended)
    }
}

/// The number of further draws that `get_different_color` makes at most.
pub const MAX_COLOR_ATTEMPTS: u8 = 20;

/// Whether cell `i` of `a` shares an edge with cell `j` of `b`.
pub open spec fn touch_at(cells: Seq<Cell>, a: Seq<usize>, b: Seq<usize>, i: int, j: int) -> bool {
    &&& 0 <= i < a.len()
    &&& 0 <= j < b.len()
    &&& mesh_adjacent(cells, a[i] as int, b[j] as int)
}

/// Two groups of cells are adjacent when a cell of the one shares an edge
/// with a cell of the other.
pub open spec fn shapes_adjacent(cells: Seq<Cell>, a: Seq<usize>, b: Seq<usize>) -> bool {
    exists|i: int, j: int| #[trigger] touch_at(cells, a, b, i, j)
}

/// Adjacency of groups of cells is symmetric.
pub proof fn lemma_shapes_adjacent_symmetric(cells: Seq<Cell>, a: Seq<usize>, b: Seq<usize>)
    ensures
        shapes_adjacent(cells, a, b) == shapes_adjacent(cells, b, a),
{
    if shapes_adjacent(cells, a, b) {
        let (i, j) = choose|i: int, j: int| #[trigger] touch_at(cells, a, b, i, j);
        lemma_mesh_adjacent_symmetric(cells, a[i] as int, b[j] as int);
        assert(touch_at(cells, b, a, j, i));
    }
    if shapes_adjacent(cells, b, a) {
        let (i, j) = choose|i: int, j: int| #[trigger] touch_at(cells, b, a, i, j);
        lemma_mesh_adjacent_symmetric(cells, b[i] as int, a[j] as int);
        assert(touch_at(cells, a, b, j, i));
    }
}

/// No two adjacent shapes have the same colour.
pub open spec fn is_harmonious(cells: Seq<Cell>, shapes: Seq<Shape>) -> bool {
    forall|a: int, b: int|
        0 <= a < shapes.len() && 0 <= b < shapes.len() && a != b && #[trigger] shapes_adjacent(
            cells,
            shapes[a].cells@,
            shapes[b].cells@,
        ) ==> shapes[a].color@ != shapes[b].color@
}

/// Whether a neighbour of shape `at` has the colour.
pub open spec fn neighbour_has_color(cells: Seq<Cell>, shapes: Seq<Shape>, at: int, color: Seq<char>) -> bool {
    exists|t: int|
        0 <= t < shapes.len() && t != at && #[trigger] shapes_adjacent(cells, shapes[at].cells@, shapes[t].cells@)
            && shapes[t].color@ == color
}

/// Whether every colour of the palette is the colour of a neighbour of shape
/// `at`, so that no colour is left for the shape.
pub open spec fn palette_exhausted(cells: Seq<Cell>, shapes: Seq<Shape>, palette: Seq<Seq<char>>, at: int) -> bool {
    &&& 0 <= at < shapes.len()
    &&& forall|c: int| 0 <= c < palette.len() ==> neighbour_has_color(cells, shapes, at, #[trigger] palette[c])
}

/// Whether a neighbour of shape `at` has got the colour so far.
pub open spec fn neighbour_got_color(
    cells: Seq<Cell>,
    lists: Seq<Seq<usize>>,
    colored: Seq<Option<String>>,
    at: int,
    color: Seq<char>,
) -> bool {
    exists|t: int|
        0 <= t < lists.len() && t != at && #[trigger] shapes_adjacent(cells, lists[at], lists[t]) && colored[t].is_some()
            && colored[t].unwrap()@ == color
}

/// Whether every colour of the palette has gone to a neighbour of shape `at`
/// so far.
pub open spec fn exhausted_so_far(
    cells: Seq<Cell>,
    lists: Seq<Seq<usize>>,
    colored: Seq<Option<String>>,
    palette: Seq<Seq<char>>,
    at: int,
) -> bool {
    &&& 0 <= at < lists.len()
    &&& forall|c: int| 0 <= c < palette.len() ==> neighbour_got_color(cells, lists, colored, at, #[trigger] palette[c])
}

/// What is exhausted stays exhausted when one more shape gets a colour.
proof fn lemma_stays_exhausted(
    cells: Seq<Cell>,
    lists: Seq<Seq<usize>>,
    colored: Seq<Option<String>>,
    palette: Seq<Seq<char>>,
    at: int,
    next: int,
    color: String,
)
    requires
        exhausted_so_far(cells, lists, colored, palette, at),
        0 <= next < colored.len(),
        colored.len() == lists.len(),
        colored[next].is_none(),
    ensures
        exhausted_so_far(cells, lists, colored.update(next, Some(color)), palette, at),
{
    let after = colored.update(next, Some(color));
    assert forall|c: int| 0 <= c < palette.len() implies neighbour_got_color(
        cells,
        lists,
        after,
        at,
        #[trigger] palette[c],
    ) by {
        assert(neighbour_got_color(cells, lists, colored, at, palette[c]));
        let t = choose|t: int|
            0 <= t < lists.len() && t != at && #[trigger] shapes_adjacent(cells, lists[at], lists[t])
                && colored[t].is_some() && colored[t].unwrap()@ == palette[c];
        assert(after[t] == colored[t]);
    }
}

/// Where every colour of the palette is taken by a neighbour of shape `at`,
/// the palette is exhausted around it.
proof fn lemma_all_taken(
    cells: Seq<Cell>,
    lists: Seq<Seq<usize>>,
    colored: Seq<Option<String>>,
    palette: Seq<Seq<char>>,
    at: int,
    neighbours: Seq<usize>,
    taken: Seq<Seq<char>>,
)
    requires
        0 <= at < lists.len(),
        colored.len() == lists.len(),
        is_neighbour_list(cells, lists, at, neighbours),
        is_taken_list(neighbours, colored, taken),
        forall|c: int| 0 <= c < palette.len() ==> taken.contains(#[trigger] palette[c]),
    ensures
        exhausted_so_far(cells, lists, colored, palette, at),
{
    assert forall|c: int| 0 <= c < palette.len() implies neighbour_got_color(
        cells,
        lists,
        colored,
        at,
        #[trigger] palette[c],
    ) by {
        assert(taken.contains(palette[c]));
        let k = choose|k: int|
            0 <= k < neighbours.len() && colored[neighbours[k] as int].is_some() && colored[neighbours[k] as int].unwrap()@
                == palette[c];
        let t = neighbours[k] as int;
        assert(shapes_adjacent(cells, lists[at], lists[t]));
    }
}

/// A palette with as many different colours as there are shapes is never
/// exhausted: the neighbours of a shape, which are fewer, cannot have all its
/// colours between them.
pub proof fn lemma_enough_colors(cells: Seq<Cell>, shapes: Seq<Shape>, palette: Seq<Seq<char>>, at: int)
    requires
        palette.no_duplicates(),
        palette.len() >= shapes.len(),
        shapes.len() <= usize::MAX,
    ensures
        !palette_exhausted(cells, shapes, palette, at),
{
    if palette_exhausted(cells, shapes, palette, at) {
        let holder = |c: int|
            choose|t: int|
                0 <= t < shapes.len() && t != at && #[trigger] shapes_adjacent(
                    cells,
                    shapes[at].cells@,
                    shapes[t].cells@,
                ) && shapes[t].color@ == palette[c];
        let holders = Seq::new(palette.len(), |c: int| holder(c) as usize).push(at as usize);
        assert forall|c: int| 0 <= c < palette.len() implies 0 <= holder(c) < shapes.len() && holder(c) != at
            && shapes[holder(c)].color@ == palette[c] by {
            assert(neighbour_has_color(cells, shapes, at, palette[c]));
        }
        assert forall|a: int, b: int| 0 <= a < b < holders.len() implies holders[a] != holders[b] by {
            if b < palette.len() {
                assert(shapes[holder(a)].color@ == palette[a]);
                assert(shapes[holder(b)].color@ == palette[b]);
                assert(palette[a] != palette[b]);
            } else {
                assert(holder(a) != at);
            }
        }
        assert forall|k: int| 0 <= k < holders.len() implies (#[trigger] holders[k]) < shapes.len() by {
            if k < palette.len() {
                assert(0 <= holder(k) < shapes.len());
            }
        }
        crate::sorting::lemma_distinct_bounded(holders, shapes.len());
    }
}

/// Whether a shape that touches the group of cells has the colour.
pub open spec fn is_touching_color(
    cells: Seq<Cell>,
    shape_cells: Seq<usize>,
    existing: Seq<Shape>,
    color: Seq<char>,
) -> bool {
    exists|j: int|
        0 <= j < existing.len() && #[trigger] shapes_adjacent(cells, shape_cells, existing[j].cells@)
            && existing[j].color@ == color
}

/// The cells of every shape.
pub open spec fn cell_lists(shapes: Seq<Shape>) -> Seq<Seq<usize>> {
    Seq::new(shapes.len(), |i: int| shapes[i].cells@)
}

/// Among the shapes that have a colour so far, no two adjacent ones have the
/// same.
pub open spec fn conflict_free(
    cells: Seq<Cell>,
    lists: Seq<Seq<usize>>,
    colored: Seq<Option<String>>,
) -> bool {
    forall|a: int, b: int|
        0 <= a < lists.len() && 0 <= b < lists.len() && a != b && colored[a].is_some()
            && colored[b].is_some() && #[trigger] shapes_adjacent(cells, lists[a], lists[b])
            ==> colored[a].unwrap()@ != colored[b].unwrap()@
}

/// Whether `list` names exactly the shapes adjacent to shape `at`.
pub open spec fn is_neighbour_list(
    cells: Seq<Cell>,
    lists: Seq<Seq<usize>>,
    at: int,
    list: Seq<usize>,
) -> bool {
    &&& forall|k: int|
        0 <= k < list.len() ==> (#[trigger] list[k]) < lists.len() && list[k] != at && shapes_adjacent(
            cells,
            lists[at],
            lists[list[k] as int],
        )
    &&& forall|j: usize|
        j < lists.len() && j != at && #[trigger] shapes_adjacent(cells, lists[at], lists[j as int])
            ==> list.contains(j)
}

/// Whether `taken` holds exactly the colours of the neighbours that have one.
pub open spec fn is_taken_list(
    neighbours: Seq<usize>,
    colored: Seq<Option<String>>,
    taken: Seq<Seq<char>>,
) -> bool {
    &&& forall|k: int|
        0 <= k < neighbours.len() && colored[neighbours[k] as int].is_some() ==> taken.contains(
            #[trigger] colored[neighbours[k] as int].unwrap()@,
        )
    &&& forall|c: Seq<char>| #[trigger]
        taken.contains(c) ==> exists|k: int|
            0 <= k < neighbours.len() && colored[neighbours[k] as int].is_some() && colored[neighbours[k] as int].unwrap()@ == c
}

/// Decides whether a cell of `a` shares an edge with a cell of `b`.
pub fn shapes_touch(grid: &TriangularGrid, a: &Vec<usize>, b: &Vec<usize>) -> (touch: bool)
    ensures
        touch == shapes_adjacent(grid@.cells@, a@, b@),
{
    let mut i: usize = 0;
    while i < a.len()
        invariant
            i <= a@.len(),
            forall|k: int, j: int| 0 <= k < i ==> !#[trigger] touch_at(grid@.cells@, a@, b@, k, j),
        decreases a@.len() - i,
    {
        let around = grid.adjacent_cells(a[i]);
        let mut n: usize = 0;
        while n < around.len()
            invariant
                n <= around@.len(),
                i < a@.len(),
                is_adjacency_list(grid@.cells@, a@[i as int] as int, around@),
                forall|m: int| 0 <= m < n ==> !b@.contains(#[trigger] around@[m]),
            decreases around@.len() - n,
        {
            if contains_id(b, around[n]) {
                proof {
                    let j = choose|j: int| 0 <= j < b@.len() && b@[j] == around@[n as int];
                    assert(mesh_adjacent(grid@.cells@, a@[i as int] as int, around@[n as int] as int));
                    assert(touch_at(grid@.cells@, a@, b@, i as int, j));
                }
                return true;
            }
            n = n + 1;
        }
        proof {
            assert forall|j: int| !#[trigger] touch_at(grid@.cells@, a@, b@, i as int, j) by {
                if touch_at(grid@.cells@, a@, b@, i as int, j) {
                    assert(mesh_adjacent(grid@.cells@, a@[i as int] as int, b@[j] as int));
                    assert(around@.contains(b@[j]));
                    let m = choose|m: int| 0 <= m < around@.len() && around@[m] == b@[j];
                    assert(b@.contains(around@[m]));
                }
            }
        }
        i = i + 1;
    }
    false
}

/// Lists the shapes adjacent to shape `at`, in growing order.
pub fn adjacent_shapes(grid: &TriangularGrid, shapes: &Vec<Shape>, at: usize) -> (list: Vec<usize>)
    requires
        at < shapes@.len(),
    ensures
        is_neighbour_list(grid@.cells@, cell_lists(shapes@), at as int, list@),
{
    let mut list: Vec<usize> = Vec::new();
    let mut j: usize = 0;
    let ghost cells = grid@.cells@;
    let ghost lists = cell_lists(shapes@);
    while j < shapes.len()
        invariant
            j <= shapes@.len(),
            at < shapes@.len(),
            cells == grid@.cells@,
            lists == cell_lists(shapes@),
            forall|k: int|
                0 <= k < list@.len() ==> (#[trigger] list@[k]) < j && list@[k] != at && shapes_adjacent(
                    cells,
                    lists[at as int],
                    lists[list@[k] as int],
                ),
            forall|x: usize|
                x < j && x != at && #[trigger] shapes_adjacent(cells, lists[at as int], lists[x as int])
                    ==> list@.contains(x),
        decreases shapes@.len() - j,
    {
        let ghost before = list@;
        let touching: bool = j != at && shapes_touch(grid, &shapes[at].cells, &shapes[j].cells);
        if touching {
            list.push(j);
        }
        proof {
            assert forall|x: usize|
                x < j + 1 && x != at && #[trigger] shapes_adjacent(
                    cells,
                    lists[at as int],
                    lists[x as int],
                ) implies list@.contains(x) by {
                if x < j {
                    assert(before.contains(x));
                    let k = choose|k: int| 0 <= k < before.len() && before[k] == x;
                    assert(list@[k] == x);
                } else {
                    assert(list@[before.len() as int] == j);
                }
            }
        }
        j = j + 1;
    }
    list
}

/// Collects the colours of the neighbours that have one.
pub fn taken_colors(neighbours: &Vec<usize>, colored: &Vec<Option<String>>) -> (taken: Vec<String>)
    requires
        forall|k: int| 0 <= k < neighbours@.len() ==> (#[trigger] neighbours@[k]) < colored@.len(),
    ensures
        is_taken_list(neighbours@, colored@, colors_of(taken@)),
{
    let mut taken: Vec<String> = Vec::new();
    let mut k: usize = 0;
    while k < neighbours.len()
        invariant
            k <= neighbours@.len(),
            forall|m: int| 0 <= m < neighbours@.len() ==> (#[trigger] neighbours@[m]) < colored@.len(),
            forall|m: int|
                0 <= m < k && colored@[neighbours@[m] as int].is_some() ==> colors_of(taken@).contains(
                    #[trigger] colored@[neighbours@[m] as int].unwrap()@,
                ),
            forall|c: Seq<char>| #[trigger]
                colors_of(taken@).contains(c) ==> exists|m: int|
                    0 <= m < k && colored@[neighbours@[m] as int].is_some() && colored@[neighbours@[m] as int].unwrap()@ == c,
        decreases neighbours@.len() - k,
    {
        let ghost before = colors_of(taken@);
        match &colored[neighbours[k]] {
            Some(color) => {
                taken.push(color.clone());
                proof {
                    let after = colors_of(taken@);
                    assert(after =~= before.push(color@));
                    assert(after[before.len() as int] == color@);
                    assert forall|m: int|
                        0 <= m < k + 1 && colored@[neighbours@[m] as int].is_some() implies after.contains(
                        #[trigger] colored@[neighbours@[m] as int].unwrap()@,
                    ) by {
                        if m < k {
                            let c = colored@[neighbours@[m] as int].unwrap()@;
                            assert(before.contains(c));
                            let x = choose|x: int| 0 <= x < before.len() && before[x] == c;
                            assert(after[x] == c);
                        }
                    }
                    assert forall|c: Seq<char>| #[trigger] after.contains(c) implies exists|m: int|
                        0 <= m < k + 1 && colored@[neighbours@[m] as int].is_some() && colored@[neighbours@[m] as int].unwrap()@ == c by {
                        let x = choose|x: int| 0 <= x < after.len() && after[x] == c;
                        if x < before.len() {
                            assert(before[x] == c);
                            assert(before.contains(c));
                        } else {
                            assert(colored@[neighbours@[k as int] as int].is_some() && colored@[neighbours@[k as int] as int].unwrap()@ == c);
                        }
                    }
                }
            },
            None => {},
        }
        k = k + 1;
    }
    taken
}

/// Finds the first of the `available` colours that is not `taken`.
pub fn first_free_color(available: &Vec<String>, taken: &Vec<String>) -> (free: Option<usize>)
    ensures
        match free {
            Some(at) => at < available@.len() && !colors_of(taken@).contains(available@[at as int]@)
                && forall|k: int| 0 <= k < at ==> colors_of(taken@).contains(#[trigger] available@[k]@),
            None => forall|k: int|
                0 <= k < available@.len() ==> colors_of(taken@).contains(#[trigger] available@[k]@),
        },
{
    let mut at: usize = 0;
    while at < available.len()
        invariant
            at <= available@.len(),
            forall|k: int| 0 <= k < at ==> colors_of(taken@).contains(#[trigger] available@[k]@),
        decreases available@.len() - at,
    {
        if !contains_color(taken, &available[at]) {
            return Some(at);
        }
        at = at + 1;
    }
    None
}

/// Giving a colour to one more shape keeps the colouring free of conflicts
/// exactly if the colour is not taken by a neighbour.
proof fn lemma_color_one_more(
    cells: Seq<Cell>,
    lists: Seq<Seq<usize>>,
    colored: Seq<Option<String>>,
    at: int,
    neighbours: Seq<usize>,
    taken: Seq<Seq<char>>,
    color: String,
)
    requires
        0 <= at < lists.len() <= usize::MAX,
        colored.len() == lists.len(),
        colored[at].is_none(),
        is_neighbour_list(cells, lists, at, neighbours),
        is_taken_list(neighbours, colored, taken),
    ensures
        conflict_free(cells, lists, colored.update(at, Some(color))) == (conflict_free(
            cells,
            lists,
            colored,
        ) && !taken.contains(color@)),
{
    let after = colored.update(at, Some(color));
    if conflict_free(cells, lists, colored) && !taken.contains(color@) {
        assert forall|a: int, b: int|
            0 <= a < lists.len() && 0 <= b < lists.len() && a != b && after[a].is_some()
                && after[b].is_some() && #[trigger] shapes_adjacent(
                cells,
                lists[a],
                lists[b],
            ) implies after[a].unwrap()@ != after[b].unwrap()@ by {
            lemma_shapes_adjacent_symmetric(cells, lists[a], lists[b]);
            if a == at || b == at {
                let other = if a == at { b } else { a };
                assert(shapes_adjacent(cells, lists[at], lists[(other as usize) as int]));
                assert(neighbours.contains(other as usize));
                let k = choose|k: int| 0 <= k < neighbours.len() && neighbours[k] == other as usize;
                assert(after[other] == colored[other]);
                assert(colored[neighbours[k] as int].is_some());
                assert(taken.contains(colored[neighbours[k] as int].unwrap()@));
            }
        }
    }
    if conflict_free(cells, lists, after) {
        assert forall|a: int, b: int|
            0 <= a < lists.len() && 0 <= b < lists.len() && a != b && colored[a].is_some()
                && colored[b].is_some() && #[trigger] shapes_adjacent(
                cells,
                lists[a],
                lists[b],
            ) implies colored[a].unwrap()@ != colored[b].unwrap()@ by {
            assert(after[a] == colored[a] && after[b] == colored[b]);
        }
        if taken.contains(color@) {
            let k = choose|k: int|
                0 <= k < neighbours.len() && colored[neighbours[k] as int].is_some() && colored[neighbours[k] as int].unwrap()@ == color@;
            let other = neighbours[k] as int;
            assert(shapes_adjacent(cells, lists[at], lists[other]));
            assert(after[other] == colored[other]);
            assert(false);
        }
    }
}

impl ColorManager {
    /// Draws a colour for a group of cells that differs from the colour of
    /// every shape that one of the cells touches, unless these shapes have
    /// all the colours of the palette between them: where the draws do not
    /// find a colour, the first colour of the palette that is left is taken.
    pub fn get_color_avoiding_adjacency(
        &mut self,
        grid: &TriangularGrid,
        shape_cells: &Vec<usize>,
        existing_shapes: &Vec<Shape>,
    ) -> (color: String)
        ensures
            final(self).colors() == old(self).colors(),
            old(self).colors().contains(color@),
            is_touching_color(grid@.cells@, shape_cells@, existing_shapes@, color@) ==> forall|k: int|
                0 <= k < old(self).colors().len() ==> is_touching_color(
                    grid@.cells@,
                    shape_cells@,
                    existing_shapes@,
                    #[trigger] old(self).colors()[k],
                ),
    {
        let ghost cells = grid@.cells@;
        let mut avoid: Vec<String> = Vec::new();
        let mut j: usize = 0;
        while j < existing_shapes.len()
            invariant
                j <= existing_shapes@.len(),
                cells == grid@.cells@,
                forall|k: int|
                    0 <= k < avoid@.len() ==> is_touching_color(
                        cells,
                        shape_cells@,
                        existing_shapes@,
                        #[trigger] colors_of(avoid@)[k],
                    ),
                forall|m: int|
                    0 <= m < j && #[trigger] shapes_adjacent(cells, shape_cells@, existing_shapes@[m].cells@)
                        ==> colors_of(avoid@).contains(existing_shapes@[m].color@),
            decreases existing_shapes@.len() - j,
        {
            let ghost before = colors_of(avoid@);
            if shapes_touch(grid, shape_cells, &existing_shapes[j].cells) && !contains_color(
                &avoid,
                &existing_shapes[j].color,
            ) {
                avoid.push(existing_shapes[j].color.clone());
                proof {
                    assert(colors_of(avoid@) =~= before.push(existing_shapes@[j as int].color@));
                    assert(colors_of(avoid@)[before.len() as int] == existing_shapes@[j as int].color@);
                }
            }
            proof {
                let after = colors_of(avoid@);
                assert forall|x: Seq<char>| before.contains(x) implies after.contains(x) by {
                    let k = choose|k: int| 0 <= k < before.len() && before[k] == x;
                    assert(after[k] == x);
                }
                assert forall|k: int| 0 <= k < avoid@.len() implies is_touching_color(
                    cells,
                    shape_cells@,
                    existing_shapes@,
                    #[trigger] after[k],
                ) by {
                    if k < before.len() {
                        assert(after[k] == before[k]);
                    }
                }
            }
            j = j + 1;
        }
        let drawn = self.get_different_color(&avoid);
        let palette = self.palette.list();
        let color: String = if contains_color(&avoid, &drawn) {
            match first_free_color(palette, &avoid) {
                Some(free) => {
                    assert(colors_of(palette@)[free as int] == palette@[free as int]@);
                    palette[free].clone()
                },
                None => {
                    proof {
                        assert forall|k: int| 0 <= k < self.colors().len() implies is_touching_color(
                            cells,
                            shape_cells@,
                            existing_shapes@,
                            #[trigger] self.colors()[k],
                        ) by {
                            assert(colors_of(palette@)[k] == palette@[k]@);
                            assert(colors_of(avoid@).contains(palette@[k]@));
                            let m = choose|m: int| 0 <= m < avoid@.len() && colors_of(avoid@)[m] == palette@[k]@;
                            assert(is_touching_color(cells, shape_cells@, existing_shapes@, colors_of(avoid@)[m]));
                        }
                    }
                    drawn
                },
            }
        } else {
            drawn
        };
        proof {
            if is_touching_color(cells, shape_cells@, existing_shapes@, color@) {
                let m = choose|m: int|
                    0 <= m < existing_shapes@.len() && #[trigger] shapes_adjacent(
                        cells,
                        shape_cells@,
                        existing_shapes@[m].cells@,
                    ) && existing_shapes@[m].color@ == color@;
                assert(colors_of(avoid@).contains(color@));
            }
        }
        color
    }

    /// Gives every shape a colour of the palette so that adjacent shapes
    /// differ.  The shapes are taken by falling number of neighbours; each
    /// gets the first colour of a drawn working set that no neighbour has or,
    /// where every one is taken, a colour drawn anew, or at last the first
    /// colour of the palette that no neighbour has; the new colour joins the
    /// working set.  The result tells whether no two adjacent shapes ended
    /// with the same colour, which fails only where the neighbours of a shape
    /// have all the colours of the palette between them.
    pub fn assign_harmonious_colors(&mut self, grid: &TriangularGrid, shapes: &mut Vec<Shape>) -> (harmonious: bool)
        ensures
            final(self).colors() == old(self).colors(),
            final(shapes)@.len() == old(shapes)@.len(),
            forall|i: int|
                0 <= i < old(shapes)@.len() ==> {
                    &&& (#[trigger] final(shapes)@[i]).cells == old(shapes)@[i].cells
                    &&& final(shapes)@[i].opacity == old(shapes)@[i].opacity
                    &&& old(self).colors().contains(final(shapes)@[i].color@)
                },
            harmonious == is_harmonious(grid@.cells@, final(shapes)@),
            !harmonious ==> exists|at: int| #[trigger]
                palette_exhausted(grid@.cells@, final(shapes)@, old(self).colors(), at),
            old(self).colors().no_duplicates() && old(self).colors().len() >= old(shapes)@.len() ==> harmonious,
    {
        let n: usize = shapes.len();
        let ghost cells = grid@.cells@;
        let ghost lists = cell_lists(shapes@);
        let mut neighbours: Vec<Vec<usize>> = Vec::new();
        let mut degrees: Vec<u128> = Vec::new();
        let mut colored: Vec<Option<String>> = Vec::new();
        let mut i: usize = 0;
        while i < n
            invariant
                i <= n,
                n == shapes@.len(),
                lists == cell_lists(shapes@),
                cells == grid@.cells@,
                neighbours@.len() == i,
                degrees@.len() == i,
                colored@.len() == i,
                forall|k: int| 0 <= k < i ==> (#[trigger] colored@[k]).is_none(),
                forall|k: int| 0 <= k < i ==> is_neighbour_list(cells, lists, k, (#[trigger] neighbours@[k])@),
            decreases n - i,
        {
            let list = adjacent_shapes(grid, shapes, i);
            degrees.push(list.len() as u128);
            neighbours.push(list);
            colored.push(None);
            i = i + 1;
        }
        let order = sorted_order(&degrees, true);
        let palette_size: usize = self.palette.list().len();
        let wanted: usize = if palette_size > 3 && n < palette_size - 3 {
            n + 3
        } else {
            palette_size
        };
        let mut available = self.get_random_colors(wanted);
        let mut harmonious: bool = true;
        let mut k: usize = 0;
        assert(conflict_free(cells, lists, colored@));
        while k < n
            invariant
                k <= n,
                n == shapes@.len(),
                lists == cell_lists(shapes@),
                lists.len() == n,
                cells == grid@.cells@,
                self.colors() == old(self).colors(),
                neighbours@.len() == n,
                colored@.len() == n,
                is_permutation(order@, n as int),
                forall|s: int| 0 <= s < n ==> is_neighbour_list(cells, lists, s, (#[trigger] neighbours@[s])@),
                forall|m: int| 0 <= m < k ==> (#[trigger] colored@[order@[m] as int]).is_some(),
                forall|s: int|
                    0 <= s < n && (#[trigger] colored@[s]).is_some() ==> exists|m: int|
                        0 <= m < k && order@[m] == s,
                forall|s: int|
                    0 <= s < n && (#[trigger] colored@[s]).is_some() ==> old(self).colors().contains(
                        colored@[s].unwrap()@,
                    ),
                forall|m: int| 0 <= m < available@.len() ==> old(self).colors().contains(#[trigger] available@[m]@),
                harmonious == conflict_free(cells, lists, colored@),
                !harmonious ==> exists|s: int| #[trigger]
                    exhausted_so_far(cells, lists, colored@, old(self).colors(), s),
            decreases n - k,
        {
            let at: usize = order[k];
            proof {
                if colored@[at as int].is_some() {
                    let m = choose|m: int| 0 <= m < k && order@[m] == at;
                    assert(order@[m] == order@[k as int]);
                }
            }
            assert(is_neighbour_list(cells, lists, at as int, neighbours@[at as int]@));
            let taken = taken_colors(&neighbours[at], &colored);
            let (color, clash): (String, bool) = match first_free_color(&available, &taken) {
                Some(free) => (available[free].clone(), false),
                None => {
                    let drawn = self.get_different_color(&taken);
                    if !contains_color(&taken, &drawn) {
                        (drawn, false)
                    } else {
                        let palette = self.palette.list();
                        match first_free_color(palette, &taken) {
                            Some(free) => {
                                assert(colors_of(palette@)[free as int] == palette@[free as int]@);
                                (palette[free].clone(), false)
                            },
                            None => {
                                proof {
                                    assert forall|c: int| 0 <= c < self.colors().len() implies colors_of(
                                        taken@,
                                    ).contains(#[trigger] self.colors()[c]) by {
                                        assert(colors_of(palette@)[c] == palette@[c]@);
                                    }
                                    lemma_all_taken(
                                        cells,
                                        lists,
                                        colored@,
                                        self.colors(),
                                        at as int,
                                        neighbours@[at as int]@,
                                        colors_of(taken@),
                                    );
                                }
                                (drawn, true)
                            },
                        }
                    }
                },
            };
            if !contains_color(&available, &color) {
                available.push(color.clone());
            }
            assert(clash == colors_of(taken@).contains(color@));
            proof {
                if !harmonious {
                    let s = choose|s: int| #[trigger] exhausted_so_far(cells, lists, colored@, old(self).colors(), s);
                    lemma_stays_exhausted(cells, lists, colored@, old(self).colors(), s, at as int, color);
                }
                if clash {
                    lemma_stays_exhausted(cells, lists, colored@, old(self).colors(), at as int, at as int, color);
                }
            }
            proof {
                lemma_color_one_more(
                    cells,
                    lists,
                    colored@,
                    at as int,
                    neighbours@[at as int]@,
                    colors_of(taken@),
                    color,
                );
            }
            let ghost before = colored@;
            colored[at] = Some(color);
            if clash {
                harmonious = false;
            }
            proof {
                assert(colored@ == before.update(at as int, Some(color)));
                assert forall|m: int| 0 <= m < k + 1 implies (#[trigger] colored@[order@[m] as int]).is_some() by {
                    if m < k {
                        assert(before[order@[m] as int].is_some());
                    }
                }
                assert forall|s: int| 0 <= s < n && (#[trigger] colored@[s]).is_some() implies exists|
                    m: int,
                | 0 <= m < k + 1 && order@[m] == s by {
                    if s != at {
                        assert(before[s].is_some());
                        let m = choose|m: int| 0 <= m < k && order@[m] == s;
                        assert(0 <= m < k + 1 && order@[m] == s);
                    } else {
                        assert(order@[k as int] == s);
                    }
                }
            }
            k = k + 1;
        }
        proof {
            assert forall|s: int| 0 <= s < n implies (#[trigger] colored@[s]).is_some() by {
                assert(order@.contains(s as usize));
                let m = choose|m: int| 0 <= m < order@.len() && order@[m] == s as usize;
                assert(colored@[order@[m] as int].is_some());
            }
        }
        let mut j: usize = 0;
        while j < n
            invariant
                j <= n,
                n == shapes@.len(),
                n == old(shapes)@.len(),
                colored@.len() == n,
                forall|s: int| 0 <= s < n ==> (#[trigger] colored@[s]).is_some(),
                forall|s: int| 0 <= s < n ==> old(self).colors().contains((#[trigger] colored@[s]).unwrap()@),
                forall|s: int|
                    0 <= s < n ==> (#[trigger] shapes@[s]).cells == old(shapes)@[s].cells && shapes@[s].opacity
                        == old(shapes)@[s].opacity,
                forall|s: int| 0 <= s < j ==> (#[trigger] shapes@[s]).color@ == colored@[s].unwrap()@,
            decreases n - j,
        {
            match &colored[j] {
                Some(color) => {
                    shapes[j].color = color.clone();
                },
                None => {},
            }
            j = j + 1;
        }
        proof {
            assert(cell_lists(shapes@) =~= lists);
            if !harmonious {
                let palette = old(self).colors();
                let s = choose|s: int| #[trigger] exhausted_so_far(cells, lists, colored@, palette, s);
                assert forall|c: int| 0 <= c < palette.len() implies neighbour_has_color(
                    cells,
                    shapes@,
                    s,
                    #[trigger] palette[c],
                ) by {
                    assert(neighbour_got_color(cells, lists, colored@, s, palette[c]));
                    let t = choose|t: int|
                        0 <= t < lists.len() && t != s && #[trigger] shapes_adjacent(cells, lists[s], lists[t])
                            && colored@[t].is_some() && colored@[t].unwrap()@ == palette[c];
                    assert(lists[s] == shapes@[s].cells@ && lists[t] == shapes@[t].cells@);
                    assert(shapes_adjacent(cells, shapes@[s].cells@, shapes@[t].cells@));
                    assert(shapes@[t].color@ == palette[c]);
                }
                assert(palette_exhausted(cells, shapes@, palette, s));
                if palette.no_duplicates() && palette.len() >= shapes@.len() {
                    lemma_enough_colors(cells, shapes@, palette, s);
                }
            }
            assert(is_harmonious(cells, shapes@) == conflict_free(cells, lists, colored@)) by {
                if conflict_free(cells, lists, colored@) {
                    assert forall|a: int, b: int|
                        0 <= a < shapes@.len() && 0 <= b < shapes@.len() && a != b
                            && #[trigger] shapes_adjacent(
                            cells,
                            shapes@[a].cells@,
                            shapes@[b].cells@,
                        ) implies shapes@[a].color@ != shapes@[b].color@ by {
                        assert(lists[a] == shapes@[a].cells@ && lists[b] == shapes@[b].cells@);
                        assert(shapes_adjacent(cells, lists[a], lists[b]));
                    }
                }
                if is_harmonious(cells, shapes@) {
                    assert forall|a: int, b: int|
                        0 <= a < lists.len() && 0 <= b < lists.len() && a != b && colored@[a].is_some()
                            && colored@[b].is_some() && #[trigger] shapes_adjacent(
                            cells,
                            lists[a],
                            lists[b],
                        ) implies colored@[a].unwrap()@ != colored@[b].unwrap()@ by {
                        assert(lists[a] == shapes@[a].cells@ && lists[b] == shapes@[b].cells@);
                        assert(shapes_adjacent(cells, shapes@[a].cells@, shapes@[b].cells@));
                    }
                }
            }
        }
        harmonious
    }
}

/// The decimal digits of a number.
pub open spec fn decimal_digits(n: nat) -> Seq<char>
    decreases n,
{
    if n < 10 {
        seq![hex_digit(n as int)]
    } else {
        decimal_digits(n / 10).push(hex_digit((n % 10) as int))
    }
}

/// The stand-in colour of the shape at `index`, for shapes that get their
/// colour later: no colour, but a name that tells the shapes apart.
pub open spec fn placeholder(index: nat) -> Seq<char> {
    "#PLACEHOLDER"@ + decimal_digits(index)
}

/// Writes a number in decimal digits.
fn decimal_text(n: usize) -> (text: String)
    ensures
        text@ == decimal_digits(n as nat),
    decreases n,
{
    if n < 10 {
        let mut text = String::new();
        text.append(digit_text(n as u8));
        assert(text@ =~= decimal_digits(n as nat));
        text
    } else {
        let mut text = decimal_text(n / 10);
        text.append(digit_text((n % 10) as u8));
        assert(text@ =~= decimal_digits(n as nat));
        text
    }
}

/// Writes the stand-in colour of the shape at `index`.
pub fn placeholder_color(index: usize) -> (color: String)
    ensures
        color@ == placeholder(index as nat),
{
    let mut color = String::from_str("#PLACEHOLDER");
    let digits = decimal_text(index);
    color.append(digits.as_str());
    color
}

} // verus!
