//! The colours of the grains: four configurable base colours, the body shaded by depth.
use vstd::prelude::*;
use vstd::string::StringSliceAdditionalSpecFns;
use vstd::utf8::encode_utf8;

use crate::term::color::{Rgb, hex_colour, hex_cuts_a_char, hex_reads_cleanly};
use crate::term::ini::{Ini, lookup};
use crate::text::{ascii_chars, debug_quoted, debug_text, decimal, decimal_digits, push_ascii, read_unsigned, chars_of, unsigned_value};

verus! {

/// The grain colours used when the config names none: the body, two accents, and white.
pub open spec fn default_grains_spec() -> Seq<Rgb> {
    seq![
        Rgb { r: 0x9a, g: 0x74, b: 0x4a },
        Rgb { r: 0xc8, g: 0x93, b: 0x55 },
        Rgb { r: 0xe3, g: 0xba, b: 0x76 },
        Rgb { r: 0xff, g: 0xff, b: 0xff },
    ]
}

/// The grain colours used when the config names none.
pub fn default_grains() -> (g: [Rgb; 4])
    ensures
        g@ == default_grains_spec(),
{
    let g = [
        Rgb::new(0x9a, 0x74, 0x4a),
        Rgb::new(0xc8, 0x93, 0x55),
        Rgb::new(0xe3, 0xba, 0x76),
        Rgb::new(0xff, 0xff, 0xff),
    ];
    assert(g@ =~= default_grains_spec());
    g
}

/// The colours to draw grains in: the body shaded row by row, and three accents.
pub struct Palette {
    depths: Vec<Rgb>,
    accents: [Rgb; 3],
}

/// What a palette holds.
pub struct PaletteView {
    pub depths: Seq<Rgb>,
    pub accents: Seq<Rgb>,
}

impl View for Palette {
    type V = PaletteView;

    closed spec fn view(&self) -> PaletteView {
        PaletteView { depths: self.depths@, accents: self.accents@ }
    }
}

/// The colour of a grain of kind `kind` (1 to 4) at row `y`: the body by its depth,
/// the last shade below the last row; an accent by its kind alone.
pub open spec fn grain_colour(p: PaletteView, kind: u8, y: nat) -> Rgb {
    if kind == 1 {
        p.depths[if y < p.depths.len() { y as int } else { p.depths.len() - 1 }]
    } else {
        p.accents[kind - 2]
    }
}

impl Palette {
    /// The palette's invariant: there is at least one shade of the body.
    pub closed spec fn wf(&self) -> bool {
        self.depths@.len() > 0
    }

    /// A palette with the body shaded `depths` from the top row down, and `accents`.
    pub fn from_shades(depths: Vec<Rgb>, accents: [Rgb; 3]) -> (p: Self)
        requires
            depths@.len() > 0,
        ensures
            p.wf(),
            p@ == (PaletteView { depths: depths@, accents: accents@ }),
    {
        Palette { depths, accents }
    }

    pub fn grain(&self, kind: u8, y: usize) -> (c: Rgb)
        requires
            self.wf(),
            1 <= kind <= 4,
        ensures
            c == grain_colour(self@, kind, y as nat),
    {
        if kind == 1 {
            let last = self.depths.len() - 1;
            self.depths[if y < last {
                y
            } else {
                last
            }]
        } else {
            self.accents[(kind - 2) as usize]
        }
    }
}

/// Which colour each kind of grain is drawn in. A grain of kind 2, 3 or 4 takes the
/// first, second or third accent (the shades of gradient colours 2, 3 and 4), so the three
/// accent kinds keep apart whenever their accents do. Body sand (kind 1) takes the shade
/// of its own row, and the last shade below the last row.
pub proof fn lemma_grain_colours(depths: Seq<Rgb>, accents: Seq<Rgb>, y: nat)
    requires
        depths.len() > 0,
        accents.len() == 3,
    ensures
        ({
            let p = PaletteView { depths, accents };
            &&& grain_colour(p, 2, y) == accents[0]
            &&& grain_colour(p, 3, y) == accents[1]
            &&& grain_colour(p, 4, y) == accents[2]
            &&& accents[0] != accents[1] && accents[1] != accents[2] && accents[0] != accents[2] ==> {
                &&& grain_colour(p, 2, y) != grain_colour(p, 3, y)
                &&& grain_colour(p, 3, y) != grain_colour(p, 4, y)
                &&& grain_colour(p, 2, y) != grain_colour(p, 4, y)
            }
            &&& y < depths.len() ==> grain_colour(p, 1, y) == depths[y as int]
            &&& y >= depths.len() ==> grain_colour(p, 1, y) == depths.last()
        }),
{
}

/// Accents ignore the depth: a grain of kind 2 to 4 has the same colour on every row.
pub proof fn lemma_accents_ignore_depth(p: PaletteView, kind: u8, y1: nat, y2: nat)
    requires
        2 <= kind <= 4,
    ensures
        grain_colour(p, kind, y1) == grain_colour(p, kind, y2),
{
}

/// The key of the `n`-th gradient colour.
pub open spec fn colour_key(n: nat) -> Seq<char> {
    "gradient_color_"@ + ascii_chars(decimal(n))
}

/// `"color"`.
pub open spec fn colour_section() -> Seq<char> {
    "color"@
}

/// The highest `n` from `k` down to 1 whose gradient colour the config names, or 0.
pub open spec fn highest_named(entries: Seq<(Seq<char>, Seq<char>, Seq<char>)>, k: nat) -> nat
    decreases k,
{
    if k == 0 {
        0
    } else if lookup(entries, colour_section(), colour_key(k)) is Some {
        k
    } else {
        highest_named(entries, (k - 1) as nat)
    }
}

/// How many gradient colours the config sets: `gradient_count` held to 1..=4, or else
/// the highest one it names; or the complaint about a count that is not a number.
pub open spec fn colour_count(entries: Seq<(Seq<char>, Seq<char>, Seq<char>)>) -> Result<nat, Seq<char>> {
    match lookup(entries, colour_section(), "gradient_count"@) {
        Some(t) => match unsigned_value(t, 10, usize::MAX as nat) {
            Some(v) => Ok(if v < 1 { 1nat } else if v > 4 { 4nat } else { v }),
            None => Err("[color] gradient_count "@ + debug_text(t) + " is not a number"@),
        },
        None => Ok(highest_named(entries, 4)),
    }
}

/// The grains after reading gradient colours `n` to `count` over `grains`: the colours,
/// or the complaint about the first missing or bad one; `None` where reading a colour
/// would cut into a character.
pub open spec fn colours_from(
    entries: Seq<(Seq<char>, Seq<char>, Seq<char>)>,
    n: nat,
    count: nat,
    grains: Seq<Rgb>,
) -> Option<Result<Seq<Rgb>, Seq<char>>>
    decreases count + 1 - n,
{
    if n > count || n == 0 {
        Some(Ok(grains))
    } else {
        match lookup(entries, colour_section(), colour_key(n)) {
            None => Some(Err("[color] "@ + colour_key(n) + " is missing"@)),
            Some(t) => if hex_cuts_a_char(encode_utf8(t)) {
                None
            } else {
                match hex_colour(encode_utf8(t)) {
                    None => Some(Err("[color] "@ + colour_key(n) + " "@ + debug_text(t) + " is not a colour"@)),
                    Some(c) => colours_from(entries, n + 1, count, grains.update(n - 1, c)),
                }
            },
        }
    }
}

/// The grain colours a config sets, over the defaults; `None` where reading one would
/// cut into a character.
pub open spec fn grains_reading(entries: Seq<(Seq<char>, Seq<char>, Seq<char>)>) -> Option<Result<Seq<Rgb>, Seq<char>>> {
    match colour_count(entries) {
        Err(m) => Some(Err(m)),
        Ok(count) => colours_from(entries, 1, count, default_grains_spec()),
    }
}

/// The key of the `n`-th gradient colour.
fn colour_key_exec(n: usize) -> (k: String)
    ensures
        k@ == colour_key(n as nat),
{
    let mut k = String::from_str("gradient_color_");
    push_ascii(&mut k, &decimal_digits(n as u64));
    k
}

/// The complaint `[color] <key> <text> is not a colour`.
fn bad_colour(key: &String, text: &str) -> (m: String)
    ensures
        m@ == "[color] "@ + key@ + " "@ + debug_text(text@) + " is not a colour"@,
{
    let mut m = String::from_str("[color] ");
    m.append(key.as_str());
    m.append(" ");
    m.append(debug_quoted(text).as_str());
    m.append(" is not a colour");
    m
}

/// Reads the gradient colours a config sets; `None` where reading one would cut into a
/// character.
pub fn read_grains(ini: &Ini) -> (r: Option<Result<[Rgb; 4], String>>)
    ensures
        match grains_reading(ini@) {
            None => r is None,
            Some(Ok(g)) => r matches Some(Ok(v)) && v@ == g,
            Some(Err(m)) => r matches Some(Err(e)) && e@ == m,
        },
{
    let count: usize = match ini.get("color", "gradient_count") {
        Some(text) => {
            let chars = chars_of(text);
            proof {
                assert(chars@.subrange(0, chars@.len() as int) =~= text@);
            }
            match read_unsigned(&chars, 0, chars.len(), 10, usize::MAX as u64) {
                Some(v) => if v < 1 {
                    1
                } else if v > 4 {
                    4
                } else {
                    v as usize
                },
                None => {
                    let mut m = String::from_str("[color] gradient_count ");
                    m.append(debug_quoted(text).as_str());
                    m.append(" is not a number");
                    return Some(Err(m));
                },
            }
        },
        None => {
            let mut k: usize = 4;
            while k > 0 && ini.get("color", colour_key_exec(k).as_str()).is_none()
                invariant
                    k <= 4,
                    highest_named(ini@, 4) == highest_named(ini@, k as nat),
                decreases k,
            {
                k = k - 1;
            }
            k
        },
    };
    let mut grains = default_grains();
    let mut n: usize = 1;
    while n <= count
        invariant
            1 <= n <= count + 1,
            count <= 4,
            colour_count(ini@) == Ok::<nat, Seq<char>>(count as nat),
            grains_reading(ini@) == colours_from(ini@, n as nat, count as nat, grains@),
        decreases count + 1 - n,
    {
        let key = colour_key_exec(n);
        let text = match ini.get("color", key.as_str()) {
            Some(t) => t,
            None => {
                let mut m = String::from_str("[color] ");
                m.append(key.as_str());
                m.append(" is missing");
                return Some(Err(m));
            },
        };
        if !hex_reads_cleanly(text) {
            return None;
        }
        match Rgb::from_hex(text) {
            Some(c) => {
                grains[n - 1] = c;
            },
            None => {
                return Some(Err(bad_colour(&key, text)));
            },
        }
        n = n + 1;
    }
    Some(Ok(grains))
}

/// Reads the gradient colours a config sets over the defaults.
pub fn from_ini(ini: &Ini) -> (r: Result<[Rgb; 4], String>)
    requires
        grains_reading(ini@) is Some,
    ensures
        match grains_reading(ini@) {
            Some(Ok(g)) => r matches Ok(v) && v@ == g,
            Some(Err(m)) => r matches Err(e) && e@ == m,
            None => false,
        },
{
    match read_grains(ini) {
        Some(r) => r,
        None => Err(String::new()),
    }
}

} // verus!
