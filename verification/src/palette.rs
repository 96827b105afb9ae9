//! Deterministic language -> color. Common languages use fixed, Linguist-like colors; anything
//! else gets a stable color derived from a hash of its name, so the same language is always the
//! same color across repos and runs.

use vstd::prelude::*;
use vstd::utf8::encode_utf8;
use crate::strings::{chars_equal, chars_of, hex_char, push_char, push_hex_digit};

verus! {

/// The fixed, Linguist-like colors of common languages.
pub open spec fn known_color(name: Seq<char>) -> Option<Seq<char>> {
    if name == "C"@ {
        Some("#555555"@)
    } else if name == "C++"@ {
        Some("#f34b7d"@)
    } else if name == "C#"@ {
        Some("#178600"@)
    } else if name == "CSS"@ {
        Some("#563d7c"@)
    } else if name == "Go"@ {
        Some("#00add8"@)
    } else if name == "HTML"@ {
        Some("#e34c26"@)
    } else if name == "Java"@ {
        Some("#b07219"@)
    } else if name == "JavaScript"@ {
        Some("#f1e05a"@)
    } else if name == "JSON"@ {
        Some("#969696"@)
    } else if name == "Kotlin"@ {
        Some("#a97bff"@)
    } else if name == "Markdown"@ {
        Some("#083fa1"@)
    } else if name == "Objective-C"@ {
        Some("#438eff"@)
    } else if name == "PHP"@ {
        Some("#4f5d95"@)
    } else if name == "Python"@ {
        Some("#3572a5"@)
    } else if name == "Ruby"@ {
        Some("#701516"@)
    } else if name == "Rust"@ {
        Some("#dea584"@)
    } else if name == "Shell"@ {
        Some("#89e051"@)
    } else if name == "SQL"@ {
        Some("#e38c00"@)
    } else if name == "Swift"@ {
        Some("#f05138"@)
    } else if name == "TOML"@ {
        Some("#9c4221"@)
    } else if name == "TypeScript"@ {
        Some("#3178c6"@)
    } else if name == "YAML"@ {
        Some("#cb171e"@)
    } else if name == "Other"@ {
        Some("#8a929c"@)
    } else {
        None
    }
}

fn known_color_of(name: &Vec<char>) -> (r: Option<&'static str>)
    ensures
        r matches Some(c) ==> known_color(name@) == Some(c@),
        r is None ==> known_color(name@) is None,
{
    if chars_equal(name, "C") {
        return Some("#555555");
    }
    if chars_equal(name, "C++") {
        return Some("#f34b7d");
    }
    if chars_equal(name, "C#") {
        return Some("#178600");
    }
    if chars_equal(name, "CSS") {
        return Some("#563d7c");
    }
    if chars_equal(name, "Go") {
        return Some("#00add8");
    }
    if chars_equal(name, "HTML") {
        return Some("#e34c26");
    }
    if chars_equal(name, "Java") {
        return Some("#b07219");
    }
    if chars_equal(name, "JavaScript") {
        return Some("#f1e05a");
    }
    if chars_equal(name, "JSON") {
        return Some("#969696");
    }
    if chars_equal(name, "Kotlin") {
        return Some("#a97bff");
    }
    if chars_equal(name, "Markdown") {
        return Some("#083fa1");
    }
    if chars_equal(name, "Objective-C") {
        return Some("#438eff");
    }
    if chars_equal(name, "PHP") {
        return Some("#4f5d95");
    }
    if chars_equal(name, "Python") {
        return Some("#3572a5");
    }
    if chars_equal(name, "Ruby") {
        return Some("#701516");
    }
    if chars_equal(name, "Rust") {
        return Some("#dea584");
    }
    if chars_equal(name, "Shell") {
        return Some("#89e051");
    }
    if chars_equal(name, "SQL") {
        return Some("#e38c00");
    }
    if chars_equal(name, "Swift") {
        return Some("#f05138");
    }
    if chars_equal(name, "TOML") {
        return Some("#9c4221");
    }
    if chars_equal(name, "TypeScript") {
        return Some("#3178c6");
    }
    if chars_equal(name, "YAML") {
        return Some("#cb171e");
    }
    if chars_equal(name, "Other") {
        return Some("#8a929c");
    }
    None
}

/// One step of 32-bit FNV-1a: xor in the byte, multiply by the FNV prime modulo 2^32.
pub open spec fn fnv1a_step(hash: u32, b: u8) -> u32 {
    (((hash ^ (b as u32)) as nat * 0x0100_0193nat) % 0x1_0000_0000nat) as u32
}

/// 32-bit FNV-1a of `s`.
pub open spec fn fnv1a_of(s: Seq<u8>) -> u32
    decreases s.len(),
{
    if s.len() == 0 {
        0x811c_9dc5
    } else {
        fnv1a_step(fnv1a_of(s.drop_last()), s.last())
    }
}

/// 32-bit FNV-1a of the UTF-8 bytes of `s`.
pub fn fnv1a(s: &str) -> (r: u32)
    ensures
        r == fnv1a_of(encode_utf8(s@)),
{
    let bytes = s.as_bytes();
    let mut hash: u32 = 0x811c_9dc5;
    let mut i: usize = 0;
    while i < bytes.len()
        invariant
            i <= bytes@.len(),
            bytes@ == encode_utf8(s@),
            hash == fnv1a_of(bytes@.take(i as int)),
        decreases bytes.len() - i,
    {
        assert(bytes@.take(i + 1).drop_last() =~= bytes@.take(i as int));
        hash = (hash ^ (bytes[i] as u32)).wrapping_mul(0x0100_0193);
        i = i + 1;
    }
    assert(bytes@.take(bytes@.len() as int) =~= bytes@);
    hash
}

/// The rounded byte value of the channel that rises and falls within each 60-degree sector:
/// at saturation 0.55 and lightness 0.6 it runs from 97 to 209.
pub open spec fn ramp_channel(h: int) -> int {
    let k = h % 120;
    let j = if k <= 60 { k } else { 120 - k };
    (9690 + 187 * j + 50) / 100
}

/// The red, green and blue bytes of hue `h` (degrees, `0 <= h < 360`) at saturation 0.55 and
/// lightness 0.6, each rounded to the nearest byte: the strongest channel is 209, the weakest
/// 97, and the third follows [`ramp_channel`].
pub open spec fn hue_rgb(h: int) -> (int, int, int) {
    let x = ramp_channel(h);
    if h < 60 {
        (209, x, 97)
    } else if h < 120 {
        (x, 209, 97)
    } else if h < 180 {
        (97, 209, x)
    } else if h < 240 {
        (97, x, 209)
    } else if h < 300 {
        (x, 97, 209)
    } else {
        (209, 97, x)
    }
}

/// Two lowercase hex digits for a byte.
pub open spec fn hex_byte(v: int) -> Seq<char> {
    seq![hex_char(v / 16), hex_char(v % 16)]
}

/// `#rrggbb` for hue `h`.
pub open spec fn hue_color(h: int) -> Seq<char> {
    let (r, g, b) = hue_rgb(h);
    seq!['#'] + hex_byte(r) + hex_byte(g) + hex_byte(b)
}

/// The color of a language: its fixed color if it has one, else the color of the hue that the
/// FNV-1a hash of its UTF-8 name gives, modulo 360.
pub open spec fn language_color(name: Seq<char>) -> Seq<char> {
    match known_color(name) {
        Some(c) => c,
        None => hue_color((fnv1a_of(encode_utf8(name)) % 360) as int),
    }
}

fn push_hex_byte(s: &mut String, v: u32)
    requires
        v < 256,
    ensures
        final(s)@ == old(s)@ + hex_byte(v as int),
{
    push_hex_digit(s, (v / 16) as u8);
    push_hex_digit(s, (v % 16) as u8);
    assert(final(s)@ =~= old(s)@ + hex_byte(v as int));
}

/// `#rrggbb` for hue `h`.
fn hue_hex(h: u32) -> (r: String)
    requires
        h < 360,
    ensures
        r@ == hue_color(h as int),
{
    let k = h % 120;
    let j = if k <= 60 { k } else { 120 - k };
    let x = (9690 + 187 * j + 50) / 100;
    let (red, green, blue): (u32, u32, u32) = if h < 60 {
        (209, x, 97)
    } else if h < 120 {
        (x, 209, 97)
    } else if h < 180 {
        (97, 209, x)
    } else if h < 240 {
        (97, x, 209)
    } else if h < 300 {
        (x, 97, 209)
    } else {
        (209, 97, x)
    };
    let mut s = String::new();
    push_char(&mut s, '#');
    push_hex_byte(&mut s, red);
    push_hex_byte(&mut s, green);
    push_hex_byte(&mut s, blue);
    assert(s@ =~= hue_color(h as int));
    s
}

/// A hex color (`#rrggbb`) for a language name.
pub fn color_for(language: &str) -> (r: String)
    ensures
        r@ == language_color(language@),
{
    let cs = chars_of(language);
    if let Some(hex) = known_color_of(&cs) {
        return String::from_str(hex);
    }
    let hue = fnv1a(language) % 360;
    hue_hex(hue)
}

/// A lowercase hex digit.
pub open spec fn is_hex_digit(c: char) -> bool {
    ('0' <= c && c <= '9') || ('a' <= c && c <= 'f')
}

/// `#` and six lowercase hex digits.
pub open spec fn is_hex_color(s: Seq<char>) -> bool {
    &&& s.len() == 7
    &&& s[0] == '#'
    &&& forall|i: int| 1 <= i < 7 ==> is_hex_digit(#[trigger] s[i])
}

proof fn lemma_hue_color_hex(h: int)
    requires
        0 <= h < 360,
    ensures
        is_hex_color(hue_color(h)),
{
    let (r, g, b) = hue_rgb(h);
    assert(97 <= ramp_channel(h) <= 209);
    assert(0 <= r < 256 && 0 <= g < 256 && 0 <= b < 256);
    let c = hue_color(h);
    assert(c =~= seq!['#', hex_char(r / 16), hex_char(r % 16), hex_char(g / 16), hex_char(g % 16),
        hex_char(b / 16), hex_char(b % 16)]);
}

/// Every language gets a color of the form `#rrggbb`, in lowercase hex.
pub proof fn law_colors_are_hex(name: Seq<char>)
    ensures
        is_hex_color(language_color(name)),
{
    if name == "C"@ {
        reveal_strlit("#555555");
    } else if name == "C++"@ {
        reveal_strlit("#f34b7d");
    } else if name == "C#"@ {
        reveal_strlit("#178600");
    } else if name == "CSS"@ {
        reveal_strlit("#563d7c");
    } else if name == "Go"@ {
        reveal_strlit("#00add8");
    } else if name == "HTML"@ {
        reveal_strlit("#e34c26");
    } else if name == "Java"@ {
        reveal_strlit("#b07219");
    } else if name == "JavaScript"@ {
        reveal_strlit("#f1e05a");
    } else if name == "JSON"@ {
        reveal_strlit("#969696");
    } else if name == "Kotlin"@ {
        reveal_strlit("#a97bff");
    } else if name == "Markdown"@ {
        reveal_strlit("#083fa1");
    } else if name == "Objective-C"@ {
        reveal_strlit("#438eff");
    } else if name == "PHP"@ {
        reveal_strlit("#4f5d95");
    } else if name == "Python"@ {
        reveal_strlit("#3572a5");
    } else if name == "Ruby"@ {
        reveal_strlit("#701516");
    } else if name == "Rust"@ {
        reveal_strlit("#dea584");
    } else if name == "Shell"@ {
        reveal_strlit("#89e051");
    } else if name == "SQL"@ {
        reveal_strlit("#e38c00");
    } else if name == "Swift"@ {
        reveal_strlit("#f05138");
    } else if name == "TOML"@ {
        reveal_strlit("#9c4221");
    } else if name == "TypeScript"@ {
        reveal_strlit("#3178c6");
    } else if name == "YAML"@ {
        reveal_strlit("#cb171e");
    } else if name == "Other"@ {
        reveal_strlit("#8a929c");
    } else {
        lemma_hue_color_hex((fnv1a_of(encode_utf8(name)) % 360) as int);
    }
}

} // verus!
