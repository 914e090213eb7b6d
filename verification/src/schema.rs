//! The schema: the read-only catalog of layer names, tile kinds and colours
//! a level is edited against, and the parsing of its colour strings.

use vstd::prelude::*;
use vstd::string::StrSliceExecFns;

verus! {

/// An RGBA colour with 8-bit channels.
#[derive(Clone, Copy, Debug, PartialEq, Eq, Structural)]
pub struct Color(pub u8, pub u8, pub u8, pub u8);

/// The character is a hexadecimal digit.
pub open spec fn is_hex_digit(c: char) -> bool {
    ('0' <= c && c <= '9') || ('a' <= c && c <= 'f') || ('A' <= c && c <= 'F')
}

/// The numeric value of a hexadecimal digit.
pub open spec fn hex_digit_value(c: char) -> int {
    if '0' <= c && c <= '9' {
        c as u32 - 48
    } else if 'a' <= c && c <= 'f' {
        c as u32 - 87
    } else {
        c as u32 - 55
    }
}

/// The string is exactly six hexadecimal digits: a colour in RRGGBB form.
pub open spec fn is_hex6(s: Seq<char>) -> bool {
    s.len() == 6 && forall|i: int| 0 <= i < 6 ==> is_hex_digit(#[trigger] s[i])
}

/// The numeric value of a big-endian hexadecimal digit string.
pub open spec fn hex_value(s: Seq<char>) -> int
    decreases s.len(),
{
    if s.len() == 0 {
        0
    } else {
        hex_value(s.drop_last()) * 16 + hex_digit_value(s.last())
    }
}

/// A digit string's value is bounded by 16 to the power of its length;
/// six digits in particular stay below 2^24.
pub proof fn lemma_hex_value_bound(s: Seq<char>)
    requires
        forall|i: int| 0 <= i < s.len() ==> is_hex_digit(#[trigger] s[i]),
        s.len() <= 6,
    ensures
        0 <= hex_value(s) < 0x1000000,
        s.len() < 6 ==> hex_value(s) < 0x100000,
        s.len() < 5 ==> hex_value(s) < 0x10000,
        s.len() < 4 ==> hex_value(s) < 0x1000,
        s.len() < 3 ==> hex_value(s) < 0x100,
        s.len() < 2 ==> hex_value(s) < 0x10,
        s.len() < 1 ==> hex_value(s) == 0,
    decreases s.len(),
{
    if s.len() > 0 {
        let head = s.drop_last();
        assert(forall|i: int| 0 <= i < head.len() ==> is_hex_digit(#[trigger] head[i]));
        lemma_hex_value_bound(head);
        assert(0 <= hex_digit_value(s.last()) < 16);
    }
}

/// The colour denoted by a six-digit hexadecimal string: the three byte
/// pairs are the red, green and blue channels; alpha is fully opaque.
pub open spec fn color_of(s: Seq<char>) -> Color {
    let v = hex_value(s);
    Color((v / 0x10000) as u8, ((v / 0x100) % 0x100) as u8, (v % 0x100) as u8, 0xff)
}

/// Parses a six-digit hexadecimal colour string; the caller owes a valid
/// string (an invalid one was a fatal error in this position).
pub fn parse_color(text: &str) -> (c: Color)
    requires
        is_hex6(text@),
    ensures
        c == color_of(text@),
{
    let mut v: u32 = 0;
    let mut i: usize = 0;
    while i < 6
        invariant
            is_hex6(text@),
            i <= 6,
            v == hex_value(text@.take(i as int)),
            v < 0x1000000,
        decreases 6 - i,
    {
        let c = text.get_char(i);
        let code: u32 = c as u32;
        let d: u32 = if code >= 48 && code <= 57 {
            code - 48
        } else if code >= 97 && code <= 102 {
            code - 87
        } else {
            code - 55
        };
        proof {
            let t = text@.take(i as int + 1);
            assert(t.drop_last() =~= text@.take(i as int));
            assert(t.last() == text@[i as int]);
            assert(is_hex_digit(text@[i as int]));
            lemma_hex_value_bound(t);
            assert(forall|k: int| 0 <= k < t.len() ==> is_hex_digit(#[trigger] t[k]));
        }
        v = v * 16 + d;
        i = i + 1;
    }
    proof {
        assert(text@.take(6) =~= text@);
        lemma_hex_value_bound(text@);
    }
    let r = (v / 0x10000) as u8;
    let g = ((v / 0x100) % 0x100) as u8;
    let b = (v % 0x100) as u8;
    Color(r, g, b, 0xff)
}

/// Parses a colour string, reporting an invalid one instead of demanding a
/// valid one: the checked form used while validating a whole schema.
pub fn try_parse_color(text: &str) -> (r: Option<Color>)
    ensures
        r is Some <==> is_hex6(text@),
        r matches Some(c) ==> c == color_of(text@),
{
    let n = text.unicode_len();
    if n != 6 {
        return None;
    }
    let mut i: usize = 0;
    while i < 6
        invariant
            text@.len() == 6,
            i <= 6,
            forall|k: int| 0 <= k < i ==> is_hex_digit(#[trigger] text@[k]),
        decreases 6 - i,
    {
        let c = text.get_char(i);
        if !((c >= '0' && c <= '9') || (c >= 'a' && c <= 'f') || (c >= 'A' && c <= 'F')) {
            return None;
        }
        i = i + 1;
    }
    Some(parse_color(text))
}

/// A sprite reference as it appears in a schema file: a texture name and an
/// optional sub-area (x, y, width, height) within the texture.
#[derive(Clone, Debug)]
pub struct SpriteSpec {
    pub texture: String,
    pub area: Option<(u32, u32, u32, u32)>,
}

/// A schema as read from its file, colours still in string form, not yet
/// validated.
#[derive(Clone, Debug)]
pub struct SchemaSpec {
    pub name: String,
    pub layers: Vec<String>,
    pub prefix: String,
    pub colors: Vec<String>,
    pub tiles: Vec<(String, SpriteSpec)>,
}

/// A validated sprite reference.
#[derive(Clone, Debug)]
pub struct SpriteInfo {
    pub texture: String,
    pub area: Option<(u32, u32, u32, u32)>,
}

impl SpriteInfo {
    /// Takes a sprite reference over from the raw schema; nothing about a
    /// sprite needs validation, so this never fails.
    pub fn from_spec(raw: SpriteSpec) -> (r: Result<SpriteInfo, SchemaError>)
        ensures
            r matches Ok(info) && info.texture == raw.texture && info.area == raw.area,
    {
        Ok(SpriteInfo { texture: raw.texture, area: raw.area })
    }
}

/// Why a schema failed validation.
#[derive(Clone, Debug)]
pub enum SchemaError {
    /// A colour entry is not a six-digit hexadecimal string; carries the
    /// offending entry.
    BadColor(String),
}

/// The validated catalog the editor runs against: ordered layer names,
/// ordered tile kinds with their sprites, and parsed colours.  `prefix` is
/// the asset directory the sprite textures are resolved under.
#[derive(Clone, Debug)]
pub struct Schema {
    pub name: String,
    pub layers: Vec<String>,
    pub prefix: String,
    pub colors: Vec<Color>,
    pub tiles: Vec<(String, SpriteInfo)>,
}

impl Schema {
    /// Validates a raw schema: every colour string must be a six-digit
    /// hexadecimal value.  Names, layer order and tile order are taken over
    /// unchanged; the first invalid colour is reported.
    pub fn from_spec(raw: SchemaSpec) -> (r: Result<Schema, SchemaError>)
        ensures
            r is Ok <==> (forall|i: int|
                0 <= i < raw.colors@.len() ==> is_hex6((#[trigger] raw.colors@[i])@)),
            r matches Ok(s) ==> {
                &&& s.name == raw.name
                &&& s.layers == raw.layers
                &&& s.prefix == raw.prefix
                &&& s.colors@.len() == raw.colors@.len()
                &&& forall|i: int|
                    0 <= i < raw.colors@.len() ==> (#[trigger] s.colors@[i]) == color_of(
                        raw.colors@[i]@,
                    )
                &&& s.tiles@.len() == raw.tiles@.len()
                &&& forall|i: int|
                    0 <= i < raw.tiles@.len() ==> (#[trigger] s.tiles@[i]).0 == raw.tiles@[i].0
                        && s.tiles@[i].1.texture == raw.tiles@[i].1.texture && s.tiles@[i].1.area
                        == raw.tiles@[i].1.area
            },
            r matches Err(e) ==> {
                let bad = e->BadColor_0;
                exists|i: int|
                    0 <= i < raw.colors@.len() && #[trigger] raw.colors@[i] == bad && !is_hex6(
                        bad@,
                    )
            },
    {
        let mut colors: Vec<Color> = Vec::new();
        let n = raw.colors.len();
        let mut i: usize = 0;
        while i < n
            invariant
                i <= n,
                n == raw.colors@.len(),
                colors@.len() == i,
                forall|k: int| 0 <= k < i ==> is_hex6((#[trigger] raw.colors@[k])@),
                forall|k: int|
                    0 <= k < i ==> (#[trigger] colors@[k]) == color_of(raw.colors@[k]@),
            decreases n - i,
        {
            match try_parse_color(raw.colors[i].as_str()) {
                Some(c) => colors.push(c),
                None => {
                    return Err(SchemaError::BadColor(raw.colors[i].clone()));
                },
            }
            i = i + 1;
        }
        let mut tiles: Vec<(String, SpriteInfo)> = Vec::new();
        let m = raw.tiles.len();
        let mut j: usize = 0;
        while j < m
            invariant
                j <= m,
                m == raw.tiles@.len(),
                tiles@.len() == j,
                forall|k: int|
                    0 <= k < j ==> (#[trigger] tiles@[k]).0 == raw.tiles@[k].0
                        && tiles@[k].1.texture == raw.tiles@[k].1.texture && tiles@[k].1.area
                        == raw.tiles@[k].1.area,
            decreases m - j,
        {
            let name = raw.tiles[j].0.clone();
            let sprite = SpriteSpec {
                texture: raw.tiles[j].1.texture.clone(),
                area: raw.tiles[j].1.area,
            };
            let info = match SpriteInfo::from_spec(sprite) {
                Ok(info) => info,
                Err(_) => {
                    proof {
                        assert(false);
                    }
                    return Err(SchemaError::BadColor(String::new()));
                },
            };
            tiles.push((name, info));
            j = j + 1;
        }
        Ok(Schema { name: raw.name, layers: raw.layers, prefix: raw.prefix, colors, tiles })
    }
}

} // verus!
