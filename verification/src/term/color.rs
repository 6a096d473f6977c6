//! Colours: parsing them from hex and from a terminal's OSC 11 reply, and fitting
//! them into the 256-colour palette.
use vstd::prelude::*;
use vstd::utf8::{decode_utf8, valid_utf8};
use vstd::string::StringSliceAdditionalSpecFns;

use crate::text::{ascii_chars, chars_of, find_char, find_from, read_unsigned, same_text, unsigned_value};

verus! {

#[derive(Clone, Copy, PartialEq, Eq, Debug, Structural)]
pub struct Rgb {
    pub r: u8,
    pub g: u8,
    pub b: u8,
}

/// Whether a byte is not the first byte of a character but inside one.
pub open spec fn inside_char(b: u8) -> bool {
    0x80 <= b <= 0xbf
}

/// `bytes` without a leading `#`.
pub open spec fn unhashed(bytes: Seq<u8>) -> Seq<u8> {
    if bytes.len() > 0 && bytes[0] == 0x23 {
        bytes.skip(1)
    } else {
        bytes
    }
}

/// Whether `from_hex` would slice the text `bytes` (its UTF-8) inside a character. It
/// reads the parts in order and stops at the first that does not read: the six-digit
/// form cuts at byte 2, and at byte 4 once the first pair has read; the three-digit form
/// cuts at byte 1, and at byte 2 once the first digit has read.
pub open spec fn hex_cuts_a_char(bytes: Seq<u8>) -> bool {
    let t = unhashed(bytes);
    ||| t.len() == 6 && (inside_char(t[2]) || (hex_byte(t.subrange(0, 2)) is Some && inside_char(t[4])))
    ||| t.len() == 3 && (inside_char(t[1]) || (hex_byte(seq![t[0], t[0]]) is Some && inside_char(t[2])))
}

/// Whether every byte is ASCII.
pub open spec fn all_ascii(bytes: Seq<u8>) -> bool {
    forall|i: int| 0 <= i < bytes.len() ==> bytes[i] < 128
}

/// What `u8::from_str_radix(_, 16)` makes of the text with UTF-8 `bytes`: text that is
/// not ASCII holds some character that is neither a digit nor `+`.
pub open spec fn hex_byte(bytes: Seq<u8>) -> Option<u8> {
    if all_ascii(bytes) {
        match unsigned_value(ascii_chars(bytes), 16, 255) {
            Some(v) => Some(v as u8),
            None => None,
        }
    } else {
        None
    }
}

/// The colour a hex text with UTF-8 `bytes` names: `rrggbb` or `rgb`, after an optional `#`.
pub open spec fn hex_colour(bytes: Seq<u8>) -> Option<Rgb> {
    let t = unhashed(bytes);
    if t.len() == 6 {
        match (hex_byte(t.subrange(0, 2)), hex_byte(t.subrange(2, 4)), hex_byte(t.subrange(4, 6))) {
            (Some(r), Some(g), Some(b)) => Some(Rgb { r, g, b }),
            _ => None,
        }
    } else if t.len() == 3 {
        match (hex_byte(seq![t[0], t[0]]), hex_byte(seq![t[1], t[1]]), hex_byte(seq![t[2], t[2]])) {
            (Some(r), Some(g), Some(b)) => Some(Rgb { r, g, b }),
            _ => None,
        }
    } else {
        None
    }
}

/// Reads two bytes of text as a hex byte.
fn read_hex_byte(b0: u8, b1: u8) -> (r: Option<u8>)
    ensures
        r == hex_byte(seq![b0, b1]),
{
    if b0 >= 128 || b1 >= 128 {
        return None;
    }
    let mut chars: Vec<char> = Vec::new();
    chars.push(b0 as char);
    chars.push(b1 as char);
    proof {
        assert(chars@ =~= ascii_chars(seq![b0, b1]));
    }
    match read_unsigned(&chars, 0, 2, 16, 255) {
        Some(v) => {
            proof {
                assert(chars@.subrange(0, 2) =~= chars@);
            }
            Some(v as u8)
        },
        None => {
            proof {
                assert(chars@.subrange(0, 2) =~= chars@);
            }
            None
        },
    }
}

/// The sixteen ANSI colours, as `COLORFGBG` numbers them.
pub open spec fn ansi16(i: nat) -> Rgb {
    if i == 0 {
        Rgb { r: 0x00, g: 0x00, b: 0x00 }
    } else if i == 1 {
        Rgb { r: 0x80, g: 0x00, b: 0x00 }
    } else if i == 2 {
        Rgb { r: 0x00, g: 0x80, b: 0x00 }
    } else if i == 3 {
        Rgb { r: 0x80, g: 0x80, b: 0x00 }
    } else if i == 4 {
        Rgb { r: 0x00, g: 0x00, b: 0x80 }
    } else if i == 5 {
        Rgb { r: 0x80, g: 0x00, b: 0x80 }
    } else if i == 6 {
        Rgb { r: 0x00, g: 0x80, b: 0x80 }
    } else if i == 7 {
        Rgb { r: 0xc0, g: 0xc0, b: 0xc0 }
    } else if i == 8 {
        Rgb { r: 0x80, g: 0x80, b: 0x80 }
    } else if i == 9 {
        Rgb { r: 0xff, g: 0x00, b: 0x00 }
    } else if i == 10 {
        Rgb { r: 0x00, g: 0xff, b: 0x00 }
    } else if i == 11 {
        Rgb { r: 0xff, g: 0xff, b: 0x00 }
    } else if i == 12 {
        Rgb { r: 0x00, g: 0x00, b: 0xff }
    } else if i == 13 {
        Rgb { r: 0xff, g: 0x00, b: 0xff }
    } else if i == 14 {
        Rgb { r: 0x00, g: 0xff, b: 0xff }
    } else {
        Rgb { r: 0xff, g: 0xff, b: 0xff }
    }
}

/// The sixteen ANSI colours follow their numbering: the low three bits of a number turn
/// on red, green and blue, at half strength for 0 to 7 and full strength for 8 to 15;
/// the exceptions are 7, a light gray, and 8, a dark gray.
pub proof fn lemma_ansi16_pattern(i: nat)
    requires
        i < 16,
    ensures
        ({
            let c = ansi16(i);
            let level: u8 = if i < 8 { 0x80 } else { 0xff };
            let bits = i % 8;
            &&& i != 7 && i != 8 ==> c == Rgb {
                r: if bits % 2 == 1 { level } else { 0 },
                g: if (bits / 2) % 2 == 1 { level } else { 0 },
                b: if bits / 4 == 1 { level } else { 0 },
            }
            &&& i == 7 ==> c == Rgb { r: 0xc0, g: 0xc0, b: 0xc0 }
            &&& i == 8 ==> c == Rgb { r: 0x80, g: 0x80, b: 0x80 }
        }),
{
}

fn ansi16_exec(i: usize) -> (c: Rgb)
    requires
        i < 16,
    ensures
        c == ansi16(i as nat),
{
    match i {
        0 => Rgb::new(0x00, 0x00, 0x00),
        1 => Rgb::new(0x80, 0x00, 0x00),
        2 => Rgb::new(0x00, 0x80, 0x00),
        3 => Rgb::new(0x80, 0x80, 0x00),
        4 => Rgb::new(0x00, 0x00, 0x80),
        5 => Rgb::new(0x80, 0x00, 0x80),
        6 => Rgb::new(0x00, 0x80, 0x80),
        7 => Rgb::new(0xc0, 0xc0, 0xc0),
        8 => Rgb::new(0x80, 0x80, 0x80),
        9 => Rgb::new(0xff, 0x00, 0x00),
        10 => Rgb::new(0x00, 0xff, 0x00),
        11 => Rgb::new(0xff, 0xff, 0x00),
        12 => Rgb::new(0x00, 0x00, 0xff),
        13 => Rgb::new(0xff, 0x00, 0xff),
        14 => Rgb::new(0x00, 0xff, 0xff),
        _ => Rgb::new(0xff, 0xff, 0xff),
    }
}

impl Rgb {
    pub fn new(r: u8, g: u8, b: u8) -> (c: Self)
        ensures
            c == (Rgb { r, g, b }),
    {
        Rgb { r, g, b }
    }

    /// Reads `rrggbb` or `rgb`, with or without a leading `#`.
    pub fn from_hex(text: &str) -> (c: Option<Self>)
        requires
            !hex_cuts_a_char(text.spec_bytes()),
        ensures
            c == hex_colour(text.spec_bytes()),
    {
        let bytes = text.as_bytes();
        let start: usize = if bytes.len() > 0 && bytes[0] == 0x23 {
            1
        } else {
            0
        };
        let n = bytes.len() - start;
        let ghost t = unhashed(bytes@);
        proof {
            if start == 1 {
                assert(t =~= bytes@.subrange(1, bytes@.len() as int));
            } else {
                assert(t =~= bytes@.subrange(0, bytes@.len() as int));
            }
        }
        if n == 6 {
            let r = read_hex_byte(bytes[start], bytes[start + 1]);
            let g = read_hex_byte(bytes[start + 2], bytes[start + 3]);
            let b = read_hex_byte(bytes[start + 4], bytes[start + 5]);
            proof {
                assert(t.subrange(0, 2) =~= seq![t[0], t[1]]);
                assert(t.subrange(2, 4) =~= seq![t[2], t[3]]);
                assert(t.subrange(4, 6) =~= seq![t[4], t[5]]);
            }
            match (r, g, b) {
                (Some(r), Some(g), Some(b)) => Some(Rgb::new(r, g, b)),
                _ => None,
            }
        } else if n == 3 {
            let r = read_hex_byte(bytes[start], bytes[start]);
            let g = read_hex_byte(bytes[start + 1], bytes[start + 1]);
            let b = read_hex_byte(bytes[start + 2], bytes[start + 2]);
            match (r, g, b) {
                (Some(r), Some(g), Some(b)) => Some(Rgb::new(r, g, b)),
                _ => None,
            }
        } else {
            None
        }
    }
}

/// Whether `Rgb::from_hex` can read `text` without cutting into a character.
pub fn hex_reads_cleanly(text: &str) -> (r: bool)
    ensures
        r == !hex_cuts_a_char(text.spec_bytes()),
{
    let bytes = text.as_bytes();
    let start: usize = if bytes.len() > 0 && bytes[0] == 0x23 {
        1
    } else {
        0
    };
    let n = bytes.len() - start;
    let ghost t = unhashed(bytes@);
    proof {
        if start == 1 {
            assert(t =~= bytes@.subrange(1, bytes@.len() as int));
        } else {
            assert(t =~= bytes@.subrange(0, bytes@.len() as int));
        }
    }
    if n == 6 {
        proof {
            assert(t.subrange(0, 2) =~= seq![t[0], t[1]]);
        }
        let first = read_hex_byte(bytes[start], bytes[start + 1]);
        !(0x80 <= bytes[start + 2] && bytes[start + 2] <= 0xbf) && !(first.is_some() && 0x80
            <= bytes[start + 4] && bytes[start + 4] <= 0xbf)
    } else if n == 3 {
        let first = read_hex_byte(bytes[start], bytes[start]);
        !(0x80 <= bytes[start + 1] && bytes[start + 1] <= 0xbf) && !(first.is_some() && 0x80
            <= bytes[start + 2] && bytes[start + 2] <= 0xbf)
    } else {
        true
    }
}

/// The terminal's colour for a number of digits: `value` in `digits` hex digits scaled
/// onto 0..=255.
pub open spec fn channel_value(s: Seq<char>) -> Option<u8> {
    if s.len() == 0 || s.len() > 4 {
        None
    } else {
        match unsigned_value(s, 16, u32::MAX as nat) {
            Some(v) => Some((v * 255 / (hex_full(s.len()))) as u8),
            None => None,
        }
    }
}

/// The largest value of `n` hex digits.
pub open spec fn hex_full(n: nat) -> nat {
    if n == 1 {
        15
    } else if n == 2 {
        255
    } else if n == 3 {
        4095
    } else {
        65535
    }
}

/// Whether `c` may stand in the colour part of an OSC 11 reply.
pub open spec fn reply_char(c: char) -> bool {
    let u = c as u32;
    ||| 48 <= u <= 57
    ||| 97 <= u <= 102
    ||| 65 <= u <= 70
    ||| c == '/'
}

/// The first index from `i` on whose character may not stand in a reply's colour part.
pub open spec fn reply_end(s: Seq<char>, i: int) -> int
    decreases s.len() - i,
{
    if i >= s.len() {
        s.len() as int
    } else if !reply_char(s[i]) {
        i
    } else {
        reply_end(s, i + 1)
    }
}

/// The first index at which `pat` occurs in `s`, from `i` on.
pub open spec fn find_text(s: Seq<char>, pat: Seq<char>, i: int) -> Option<int>
    decreases s.len() + 1 - i,
{
    if i + pat.len() > s.len() || i < 0 {
        None
    } else if s.subrange(i, i + pat.len()) == pat {
        Some(i)
    } else {
        find_text(s, pat, i + 1)
    }
}

/// The colour in the colour part `seg` of a reply: split at the slashes, the first
/// three parts read as channels.
pub open spec fn segment_colour(seg: Seq<char>) -> Option<Rgb> {
    let p1 = find_from(seg, '/', 0);
    if p1 >= seg.len() {
        None
    } else {
        let rest1 = seg.skip(p1 + 1);
        let p2 = find_from(rest1, '/', 0);
        if p2 >= rest1.len() {
            None
        } else {
            let rest2 = rest1.skip(p2 + 1);
            match (
                channel_value(seg.take(p1)),
                channel_value(rest1.take(p2)),
                channel_value(rest2.take(find_from(rest2, '/', 0))),
            ) {
                (Some(r), Some(g), Some(b)) => Some(Rgb { r, g, b }),
                _ => None,
            }
        }
    }
}

/// The colour an OSC 11 reply names: after the first `rgb:`, the run of hex digits and
/// slashes, split at the slashes, the first three parts read as channels.
pub open spec fn osc11_colour(bytes: Seq<u8>) -> Option<Rgb> {
    if !valid_utf8(bytes) {
        None
    } else {
        let s = decode_utf8(bytes);
        match find_text(s, seq!['r', 'g', 'b', ':'], 0) {
            None => None,
            Some(at) => {
                let body = s.skip(at + 4);
                segment_colour(body.take(reply_end(body, 0)))
            },
        }
    }
}

/// `std::str::from_utf8`: the text of `bytes` if they are valid UTF-8.
#[verifier::external_body]
fn utf8_text(bytes: &[u8]) -> (r: Option<&str>)
    ensures
        r is Some <==> valid_utf8(bytes@),
        r matches Some(s) ==> s@ == decode_utf8(bytes@),
{
    std::str::from_utf8(bytes).ok()
}

/// Reads `s[from..to]` as a channel of an OSC 11 reply.
fn parse_channel(s: &Vec<char>, from: usize, to: usize) -> (r: Option<u8>)
    requires
        from <= to <= s@.len(),
    ensures
        r == channel_value(s@.subrange(from as int, to as int)),
{
    let n = to - from;
    if n == 0 || n > 4 {
        return None;
    }
    let value = match read_unsigned(s, from, to, 16, 0xffff_ffff) {
        Some(v) => v,
        None => {
            return None;
        },
    };
    let full: u64 = if n == 1 {
        15
    } else if n == 2 {
        255
    } else if n == 3 {
        4095
    } else {
        65535
    };
    Some((value * 255 / full) as u8)
}

/// The first index of `rgb:` in `s`.
fn find_rgb(s: &Vec<char>) -> (r: Option<usize>)
    ensures
        r matches Some(i) ==> find_text(s@, seq!['r', 'g', 'b', ':'], 0) == Some(i as int),
        r is None ==> find_text(s@, seq!['r', 'g', 'b', ':'], 0) is None,
{
    let ghost pat = seq!['r', 'g', 'b', ':'];
    let mut i: usize = 0;
    while s.len() >= 4 && i <= s.len() - 4
        invariant
            pat == seq!['r', 'g', 'b', ':'],
            i <= s@.len(),
            find_text(s@, pat, 0) == find_text(s@, pat, i as int),
        decreases s@.len() - i,
    {
        if s[i] == 'r' && s[i + 1] == 'g' && s[i + 2] == 'b' && s[i + 3] == ':' {
            proof {
                assert(s@.subrange(i as int, i + 4) =~= pat);
            }
            return Some(i);
        }
        proof {
            assert(!(i + pat.len() > s@.len() || i < 0));
            assert(s@.subrange(i as int, i + 4) != pat) by {
                if s@.subrange(i as int, i + 4) == pat {
                    assert(s@.subrange(i as int, i + 4)[0] == 'r');
                    assert(s@.subrange(i as int, i + 4)[1] == 'g');
                    assert(s@.subrange(i as int, i + 4)[2] == 'b');
                    assert(s@.subrange(i as int, i + 4)[3] == ':');
                }
            }
        }
        i = i + 1;
    }
    None
}

/// The end of the run of reply characters in `s` from `from` on.
fn reply_run_end(s: &Vec<char>, from: usize) -> (r: usize)
    requires
        from <= s@.len(),
    ensures
        from <= r <= s@.len(),
        r - from == reply_end(s@.skip(from as int), 0),
{
    let ghost body = s@.skip(from as int);
    let mut i = from;
    while i < s.len()
        invariant
            from <= i <= s@.len(),
            body == s@.skip(from as int),
            reply_end(body, 0) == reply_end(body, i - from),
        decreases s@.len() - i,
    {
        let c = s[i] as u32;
        let ok = (48 <= c && c <= 57) || (97 <= c && c <= 102) || (65 <= c && c <= 70) || s[i] == '/';
        if !ok {
            return i;
        }
        i = i + 1;
    }
    i
}

/// Reads a terminal's reply to an OSC 11 query (`rgb:rrrr/gggg/bbbb`, one to four
/// digits a channel).
pub fn parse_osc11(bytes: &[u8]) -> (c: Option<Rgb>)
    ensures
        c == osc11_colour(bytes@),
{
    let text = match utf8_text(bytes) {
        Some(t) => t,
        None => {
            return None;
        },
    };
    let s = chars_of(text);
    let at = match find_rgb(&s) {
        Some(at) => at,
        None => {
            return None;
        },
    };
    let ghost full = s@;
    let n = s.len();
    proof {
        assert(seq!['r', 'g', 'b', ':'].len() == 4);
        assert(at + 4 <= n) by {
            assert(find_text(full, seq!['r', 'g', 'b', ':'], 0) == Some(at as int));
            lemma_find_text_fits(full, seq!['r', 'g', 'b', ':'], 0);
        }
    }
    let start = at + 4;
    let end = reply_run_end(&s, start);
    let ghost body = s@.skip(start as int);
    let ghost seg = body.take(reply_end(body, 0));
    proof {
        assert(seg =~= s@.subrange(start as int, end as int));
    }
    colour_of_segment(&s, start, end)
}

/// The colour in the colour part `s[from..to]` of a reply.
fn colour_of_segment(s: &Vec<char>, from: usize, to: usize) -> (c: Option<Rgb>)
    requires
        from <= to <= s@.len(),
    ensures
        c == segment_colour(s@.subrange(from as int, to as int)),
{
    let ghost seg = s@.subrange(from as int, to as int);
    let p1 = find_char(s, '/', from, to);
    if p1 == to {
        return None;
    }
    proof {
        assert(seg.skip(p1 - from + 1) =~= s@.subrange(p1 + 1, to as int));
        assert(seg.take(p1 - from) =~= s@.subrange(from as int, p1 as int));
    }
    let p2 = find_char(s, '/', p1 + 1, to);
    if p2 == to {
        return None;
    }
    let ghost rest1 = seg.skip(p1 - from + 1);
    proof {
        assert(rest1.skip(p2 - p1) =~= s@.subrange(p2 + 1, to as int));
        assert(rest1.take(p2 - p1 - 1) =~= s@.subrange(p1 + 1, p2 as int));
    }
    let p3 = find_char(s, '/', p2 + 1, to);
    proof {
        let rest2 = rest1.skip(p2 - p1);
        assert(rest2.take(p3 - p2 - 1) =~= s@.subrange(p2 + 1, p3 as int));
    }
    let r = parse_channel(s, from, p1);
    let g = parse_channel(s, p1 + 1, p2);
    let b = parse_channel(s, p2 + 1, p3);
    match (r, g, b) {
        (Some(r), Some(g), Some(b)) => Some(Rgb::new(r, g, b)),
        _ => None,
    }
}

proof fn lemma_find_text_fits(s: Seq<char>, pat: Seq<char>, i: int)
    requires
        find_text(s, pat, i) is Some,
    ensures
        find_text(s, pat, i).unwrap() + pat.len() <= s.len(),
        find_text(s, pat, i).unwrap() >= i,
    decreases s.len() + 1 - i,
{
    if !(i + pat.len() > s.len() || i < 0) && s.subrange(i, i + pat.len()) != pat {
        lemma_find_text_fits(s, pat, i + 1);
    }
}

/// Whether `buf` ends an OSC reply: with BEL, or with ESC `\`.
pub fn ends_reply(buf: &[u8]) -> (r: bool)
    ensures
        r == ((buf@.len() > 0 && buf@.last() == 0x07) || (buf@.len() >= 2 && buf@[buf@.len() - 2]
            == 0x1b && buf@[buf@.len() - 1] == 0x5c)),
{
    let n = buf.len();
    (n > 0 && buf[n - 1] == 0x07) || (n >= 2 && buf[n - 2] == 0x1b && buf[n - 1] == 0x5c)
}

/// The field after the last `;` of `s` (all of `s` if it has none).
pub open spec fn last_field(s: Seq<char>) -> Seq<char>
    decreases s.len(),
{
    if s.len() == 0 {
        s
    } else if s.last() == ';' {
        Seq::empty()
    } else {
        last_field(s.drop_last()).push(s.last())
    }
}

/// The background colour a `COLORFGBG` value names: its last field, read as a number,
/// picks one of the sixteen ANSI colours.
pub open spec fn colorfgbg_spec(s: Seq<char>) -> Option<Rgb> {
    match unsigned_value(last_field(s), 10, usize::MAX as nat) {
        Some(i) => if i < 16 {
            Some(ansi16(i))
        } else {
            None
        },
        None => None,
    }
}

/// The background colour a `COLORFGBG` value names, if it names one.
pub fn colorfgbg_colour(value: &str) -> (c: Option<Rgb>)
    ensures
        c == colorfgbg_spec(value@),
{
    let s = chars_of(value);
    let mut i = s.len();
    proof {
        assert(s@.take(i as int) =~= s@);
        assert(s@.subrange(i as int, i as int) =~= Seq::<char>::empty());
        assert(last_field(s@) =~= last_field(s@.take(i as int)) + s@.subrange(i as int, s@.len() as int));
    }
    while i > 0 && s[i - 1] != ';'
        invariant
            i <= s@.len(),
            last_field(s@) == last_field(s@.take(i as int)) + s@.subrange(i as int, s@.len() as int),
        decreases i,
    {
        proof {
            let t = s@.take(i as int);
            assert(t.drop_last() =~= s@.take(i - 1));
            assert(last_field(s@.take(i - 1)) + s@.subrange(i - 1, s@.len() as int) =~= last_field(s@.take(i - 1)).push(t.last()) + s@.subrange(i as int, s@.len() as int));
        }
        i = i - 1;
    }
    proof {
        if i > 0 {
            assert(last_field(s@.take(i as int)) =~= Seq::<char>::empty());
        } else {
            assert(last_field(s@.take(0)) =~= Seq::<char>::empty());
        }
        assert(last_field(s@) =~= s@.subrange(i as int, s@.len() as int));
    }
    match read_unsigned(&s, i, s.len(), 10, usize::MAX as u64) {
        Some(index) => {
            if index < 16 {
                Some(ansi16_exec(index as usize))
            } else {
                None
            }
        },
        None => None,
    }
}

/// How a terminal takes colours: as 24-bit RGB, or as an index into its 256 colours.
#[derive(Clone, Copy, PartialEq, Eq, Debug, Structural)]
pub enum ColorMode {
    True,
    Ansi256,
}

impl ColorMode {
    /// The mode a `COLORTERM` value announces: 24-bit colour for `truecolor` or `24bit`.
    pub fn for_colorterm(value: Option<&str>) -> (m: Self)
        ensures
            m == (if value matches Some(v) && (v@ == "truecolor"@ || v@ == "24bit"@) {
                ColorMode::True
            } else {
                ColorMode::Ansi256
            }),
    {
        match value {
            Some(v) => {
                if same_text(v, "truecolor") || same_text(v, "24bit") {
                    ColorMode::True
                } else {
                    ColorMode::Ansi256
                }
            },
            None => ColorMode::Ansi256,
        }
    }
}

/// How far apart a colour's channels may be for it to count as gray.
pub const GRAY_TOLERANCE: u8 = 8;

/// The six levels of the colour cube nearest `v`.
pub open spec fn cube_level_spec(v: u8) -> nat {
    ((v as nat) * 5 + 127) / 255
}

/// The 256-colour index nearest `c`: a step of the gray ramp for near-grays, a cell of
/// the 6x6x6 cube otherwise.
pub open spec fn ansi256_of(c: Rgb) -> u8 {
    let max = if c.r >= c.g && c.r >= c.b { c.r } else if c.g >= c.b { c.g } else { c.b };
    let min = if c.r <= c.g && c.r <= c.b { c.r } else if c.g <= c.b { c.g } else { c.b };
    if max - min <= GRAY_TOLERANCE {
        (232 + ((max as nat) * 23 + 127) / 255) as u8
    } else {
        (16 + 36 * cube_level_spec(c.r) + 6 * cube_level_spec(c.g) + cube_level_spec(c.b)) as u8
    }
}

fn cube_level(v: u8) -> (l: u8)
    ensures
        l == cube_level_spec(v),
        l <= 5,
{
    ((v as u16 * 5 + 127) / 255) as u8
}

/// The 256-colour index nearest `c`.
pub fn to_ansi256(c: Rgb) -> (i: u8)
    ensures
        i == ansi256_of(c),
        16 <= i,
{
    let max = if c.r >= c.g && c.r >= c.b {
        c.r
    } else if c.g >= c.b {
        c.g
    } else {
        c.b
    };
    let min = if c.r <= c.g && c.r <= c.b {
        c.r
    } else if c.g <= c.b {
        c.g
    } else {
        c.b
    };
    if max - min <= GRAY_TOLERANCE {
        let level = (max as u16 * 23 + 127) / 255;
        return 232 + level as u8;
    }
    16 + 36 * cube_level(c.r) + 6 * cube_level(c.g) + cube_level(c.b)
}

/// A colour's Rec. 709 luma, `0.2126 r + 0.7152 g + 0.0722 b`, in ten-thousandths of a
/// channel step.
pub open spec fn luma_e4(c: Rgb) -> nat {
    2126 * (c.r as nat) + 7152 * (c.g as nat) + 722 * (c.b as nat)
}

/// Whether a background is light: its luma is above half of full brightness.
pub fn is_light(c: Rgb) -> (light: bool)
    ensures
        light == (2 * luma_e4(c) > 255 * 10000),
{
    let luma: u32 = 2126 * (c.r as u32) + 7152 * (c.g as u32) + 722 * (c.b as u32);
    2 * luma > 255 * 10000
}

/// Whether `level` (0 to 5) is the level of the colour cube nearest the channel value `v`:
/// `v` scaled to 0..=5 lies within half a step of it.
pub open spec fn nearest_cube_level(v: u8, level: int) -> bool {
    0 <= level <= 5 && -127 <= 5 * (v as int) - 255 * level <= 127
}

/// Whether `step` (0 to 23) is the step of the gray ramp nearest the brightness `v`.
pub open spec fn nearest_gray_step(v: u8, step: int) -> bool {
    0 <= step <= 23 && -127 <= 23 * (v as int) - 255 * step <= 127
}

/// A colour's brightest channel.
pub open spec fn brightest(c: Rgb) -> u8 {
    if c.r >= c.g && c.r >= c.b { c.r } else if c.g >= c.b { c.g } else { c.b }
}

/// A colour's dimmest channel.
pub open spec fn dimmest(c: Rgb) -> u8 {
    if c.r <= c.g && c.r <= c.b { c.r } else if c.g <= c.b { c.g } else { c.b }
}

/// The 256-colour index is the nearest one of its kind. A colour whose channels lie within
/// `GRAY_TOLERANCE` of each other goes to the gray-ramp step (232 on) nearest its
/// brightest channel; any other goes to the cube cell `16 + 36·R + 6·G + B` whose levels
/// `R`, `G`, `B` are nearest its red, green and blue. Such nearest steps and levels exist,
/// so the index is pinned down by the colour.
pub proof fn lemma_ansi256_is_nearest(c: Rgb)
    ensures
        ({
            let max = brightest(c);
            let min = dimmest(c);
            &&& max - min <= GRAY_TOLERANCE ==> forall|s: int| #[trigger] nearest_gray_step(max, s) ==> ansi256_of(c) == 232 + s
            &&& max - min > GRAY_TOLERANCE ==> forall|lr: int, lg: int, lb: int|
                #[trigger] nearest_cube_level(c.r, lr) && #[trigger] nearest_cube_level(c.g, lg)
                    && #[trigger] nearest_cube_level(c.b, lb) ==> ansi256_of(c) == 16 + 36 * lr + 6 * lg + lb
            &&& exists|s: int| #[trigger] nearest_gray_step(max, s)
            &&& exists|l: int| #[trigger] nearest_cube_level(c.r, l)
            &&& exists|l: int| #[trigger] nearest_cube_level(c.g, l)
            &&& exists|l: int| #[trigger] nearest_cube_level(c.b, l)
        }),
{
    let max = brightest(c);
    let min = dimmest(c);
    lemma_nearest_cube(c.r);
    lemma_nearest_cube(c.g);
    lemma_nearest_cube(c.b);
    lemma_nearest_gray(max);
    let (lr, lg, lb) = (cube_level_spec(c.r) as int, cube_level_spec(c.g) as int, cube_level_spec(c.b) as int);
    let gs = ((max as nat) * 23 + 127) as int / 255;
    assert(nearest_cube_level(c.r, lr));
    assert(nearest_cube_level(c.g, lg));
    assert(nearest_cube_level(c.b, lb));
    assert(nearest_gray_step(max, gs));
    if max - min <= GRAY_TOLERANCE {
        assert(ansi256_of(c) == 232 + gs);
    } else {
        assert(ansi256_of(c) == 16 + 36 * lr + 6 * lg + lb);
    }
}

/// The nearest cube level of `v` is the one `cube_level_spec` computes, and no other.
proof fn lemma_nearest_cube(v: u8)
    ensures
        nearest_cube_level(v, cube_level_spec(v) as int),
        forall|l: int| #[trigger] nearest_cube_level(v, l) ==> l == cube_level_spec(v),
{
    let x = 5 * (v as int) + 127;
    let q = cube_level_spec(v) as int;
    assert(q == x / 255);
    assert(255 * q <= x < 255 * q + 255);
    assert forall|l: int| #[trigger] nearest_cube_level(v, l) implies l == q by {
        assert(255 * l <= x < 255 * l + 255);
    }
}

/// The nearest gray step of `v` is the one `ansi256_of` uses, and no other.
proof fn lemma_nearest_gray(v: u8)
    ensures
        nearest_gray_step(v, ((v as nat) * 23 + 127) as int / 255),
        forall|s: int| #[trigger] nearest_gray_step(v, s) ==> s == ((v as nat) * 23 + 127) as int / 255,
{
    let x = 23 * (v as int) + 127;
    let q = x / 255;
    assert(255 * q <= x < 255 * q + 255);
    assert forall|s: int| #[trigger] nearest_gray_step(v, s) implies s == q by {
        assert(255 * s <= x < 255 * s + 255);
    }
}

} // verus!
