//! Text helpers: characters of a string and strings of characters, trimming,
//! searching, reading and writing unsigned numbers.
use vstd::prelude::*;

verus! {

/// The characters of `s`.
pub fn chars_of(s: &str) -> (v: Vec<char>)
    ensures
        v@ == s@,
{
    let mut v: Vec<char> = Vec::new();
    for c in it: s.chars()
        invariant
            v@ == it.seq().take(it.index() as int),
    {
        v.push(c);
    }
    v
}

/// Whether two strings hold the same text.
pub fn same_text(a: &str, b: &str) -> (r: bool)
    ensures
        r == (a@ == b@),
{
    let x = chars_of(a);
    let y = chars_of(b);
    if x.len() != y.len() {
        return false;
    }
    let mut i: usize = 0;
    while i < x.len()
        invariant
            x@ == a@,
            y@ == b@,
            x@.len() == y@.len(),
            i <= x@.len(),
            forall|j: int| 0 <= j < i ==> x@[j] == y@[j],
        decreases x@.len() - i,
    {
        if x[i] != y[i] {
            return false;
        }
        i = i + 1;
    }
    assert(x@ =~= y@);
    true
}

/// `String::push`: appends one character.
#[verifier::external_body]
fn push_char(s: &mut String, c: char)
    ensures
        final(s)@ == old(s)@.push(c),
{
    s.push(c);
}

/// Appends `chars[from..to]` to `s`.
pub fn push_chars(s: &mut String, chars: &Vec<char>, from: usize, to: usize)
    requires
        from <= to <= chars@.len(),
    ensures
        final(s)@ == old(s)@ + chars@.subrange(from as int, to as int),
{
    let mut i = from;
    while i < to
        invariant
            from <= i <= to <= chars@.len(),
            s@ == old(s)@ + chars@.subrange(from as int, i as int),
        decreases to - i,
    {
        push_char(s, chars[i]);
        i = i + 1;
        assert(s@ =~= old(s)@ + chars@.subrange(from as int, i as int));
    }
}

/// The string of `chars[from..to]`.
pub fn string_of(chars: &Vec<char>, from: usize, to: usize) -> (s: String)
    requires
        from <= to <= chars@.len(),
    ensures
        s@ == chars@.subrange(from as int, to as int),
{
    let mut s = String::new();
    push_chars(&mut s, chars, from, to);
    assert(s@ =~= chars@.subrange(from as int, to as int));
    s
}

/// Appends the ASCII bytes `bytes` to `s`, one character each.
pub fn push_ascii(s: &mut String, bytes: &Vec<u8>)
    requires
        forall|i: int| 0 <= i < bytes@.len() ==> bytes@[i] < 128,
    ensures
        final(s)@ == old(s)@ + ascii_chars(bytes@),
{
    let mut i: usize = 0;
    while i < bytes.len()
        invariant
            i <= bytes@.len(),
            forall|i: int| 0 <= i < bytes@.len() ==> bytes@[i] < 128,
            s@ == old(s)@ + ascii_chars(bytes@.take(i as int)),
        decreases bytes@.len() - i,
    {
        let c = bytes[i] as char;
        push_char(s, c);
        proof {
            assert(bytes@.take(i + 1) =~= bytes@.take(i as int).push(bytes@[i as int]));
            assert(ascii_chars(bytes@.take(i + 1)) =~= ascii_chars(bytes@.take(i as int)).push(c));
        }
        i = i + 1;
    }
    assert(bytes@.take(i as int) =~= bytes@);
}

/// ASCII bytes read as characters.
pub open spec fn ascii_chars(bytes: Seq<u8>) -> Seq<char> {
    bytes.map_values(|b: u8| b as char)
}

/// The characters with the Unicode White_Space property, which `char::is_whitespace` tests.
pub open spec fn is_white(c: char) -> bool {
    let u = c as u32;
    ||| 0x09 <= u <= 0x0d
    ||| u == 0x20
    ||| u == 0x85
    ||| u == 0xa0
    ||| u == 0x1680
    ||| 0x2000 <= u <= 0x200a
    ||| u == 0x2028
    ||| u == 0x2029
    ||| u == 0x202f
    ||| u == 0x205f
    ||| u == 0x3000
}

/// Whether `c` is white space, as `char::is_whitespace` has it.
pub fn white(c: char) -> (r: bool)
    ensures
        r == is_white(c),
{
    let u = c as u32;
    (0x09 <= u && u <= 0x0d) || u == 0x20 || u == 0x85 || u == 0xa0 || u == 0x1680 || (0x2000
        <= u && u <= 0x200a) || u == 0x2028 || u == 0x2029 || u == 0x202f || u == 0x205f || u
        == 0x3000
}

/// Where the white space at the start of `s[i..]` ends.
pub open spec fn white_end(s: Seq<char>, i: int) -> int
    decreases s.len() - i,
{
    if i >= s.len() {
        s.len() as int
    } else if is_white(s[i]) {
        white_end(s, i + 1)
    } else {
        i
    }
}

/// Where `s[..j]` ends once its trailing white space is gone.
pub open spec fn unwhite_end(s: Seq<char>, j: int) -> int
    decreases j,
{
    if j <= 0 {
        0
    } else if is_white(s[j - 1]) {
        unwhite_end(s, j - 1)
    } else {
        j
    }
}

/// `s` without its leading and trailing white space, as `str::trim` gives it.
pub open spec fn trim(s: Seq<char>) -> Seq<char> {
    let a = white_end(s, 0);
    let b = unwhite_end(s, s.len() as int);
    if a < b {
        s.subrange(a, b)
    } else {
        Seq::empty()
    }
}

/// The first index from `i` on where `s` holds `c`, or the length of `s`.
pub open spec fn find_from(s: Seq<char>, c: char, i: int) -> int
    decreases s.len() - i,
{
    if i >= s.len() {
        s.len() as int
    } else if s[i] == c {
        i
    } else {
        find_from(s, c, i + 1)
    }
}

proof fn lemma_white_end_bounds(s: Seq<char>, i: int)
    requires
        0 <= i <= s.len(),
    ensures
        i <= white_end(s, i) <= s.len(),
        forall|k: int| i <= k < white_end(s, i) ==> is_white(s[k]),
        white_end(s, i) < s.len() ==> !is_white(s[white_end(s, i)]),
    decreases s.len() - i,
{
    if i < s.len() && is_white(s[i]) {
        lemma_white_end_bounds(s, i + 1);
    }
}

proof fn lemma_unwhite_end_bounds(s: Seq<char>, j: int)
    requires
        0 <= j <= s.len(),
    ensures
        0 <= unwhite_end(s, j) <= j,
        forall|k: int| unwhite_end(s, j) <= k < j ==> is_white(s[k]),
        unwhite_end(s, j) > 0 ==> !is_white(s[unwhite_end(s, j) - 1]),
    decreases j,
{
    if j > 0 && is_white(s[j - 1]) {
        lemma_unwhite_end_bounds(s, j - 1);
    }
}

/// The bounds of `chars[from..to]` once trimmed.
pub fn trim_bounds(chars: &Vec<char>, from: usize, to: usize) -> (r: (usize, usize))
    requires
        from <= to <= chars@.len(),
    ensures
        from <= r.0 <= r.1 <= to,
        chars@.subrange(r.0 as int, r.1 as int) == trim(chars@.subrange(from as int, to as int)),
{
    let ghost s = chars@.subrange(from as int, to as int);
    let mut a = from;
    while a < to && white(chars[a])
        invariant
            from <= a <= to <= chars@.len(),
            s == chars@.subrange(from as int, to as int),
            white_end(s, 0) == white_end(s, a - from),
        decreases to - a,
    {
        a = a + 1;
    }
    let mut b = to;
    while b > a && white(chars[b - 1])
        invariant
            from <= a <= b <= to <= chars@.len(),
            s == chars@.subrange(from as int, to as int),
            unwhite_end(s, s.len() as int) == unwhite_end(s, b - from),
            a < to ==> !is_white(chars@[a as int]),
        decreases b,
    {
        b = b - 1;
    }
    proof {
        lemma_white_end_bounds(s, 0);
        lemma_unwhite_end_bounds(s, s.len() as int);
        assert(white_end(s, a - from) == a - from);
        if b > a {
            assert(unwhite_end(s, b - from) == b - from);
            assert(chars@.subrange(a as int, b as int) =~= s.subrange(a - from, b - from));
        } else {
            assert(b == a);
            if a < to {
                lemma_unwhite_end_bounds(s, b - from);
                assert(unwhite_end(s, b - from) <= a - from);
            }
            assert(chars@.subrange(a as int, b as int) =~= Seq::<char>::empty());
        }
    }
    (a, b)
}

/// The first index of `c` in `chars[from..to]`, or `to`.
pub fn find_char(chars: &Vec<char>, c: char, from: usize, to: usize) -> (r: usize)
    requires
        from <= to <= chars@.len(),
    ensures
        from <= r <= to,
        r - from == find_from(chars@.subrange(from as int, to as int), c, 0),
{
    let ghost s = chars@.subrange(from as int, to as int);
    let mut i = from;
    while i < to && chars[i] != c
        invariant
            from <= i <= to <= chars@.len(),
            s == chars@.subrange(from as int, to as int),
            find_from(s, c, 0) == find_from(s, c, i - from),
        decreases to - i,
    {
        i = i + 1;
    }
    i
}

/// Where `find_from` lands: at or after `i`, and on `c` unless at the end.
pub proof fn lemma_find_from_bounds(s: Seq<char>, c: char, i: int)
    requires
        0 <= i <= s.len(),
    ensures
        i <= find_from(s, c, i) <= s.len(),
        find_from(s, c, i) < s.len() ==> s[find_from(s, c, i)] == c,
    decreases s.len() - i,
{
    if i < s.len() && s[i] != c {
        lemma_find_from_bounds(s, c, i + 1);
    }
}

/// The ASCII decimal digits of `n`, most significant first, as `Display` writes them.
pub open spec fn decimal(n: nat) -> Seq<u8>
    decreases n,
{
    if n < 10 {
        seq![(48 + n) as u8]
    } else {
        decimal(n / 10).push((48 + n % 10) as u8)
    }
}

proof fn lemma_decimal_ascii(n: nat)
    ensures
        forall|i: int| 0 <= i < decimal(n).len() ==> 48 <= #[trigger] decimal(n)[i] <= 57,
    decreases n,
{
    if n >= 10 {
        lemma_decimal_ascii(n / 10);
        let d = decimal(n / 10);
        assert(decimal(n) == d.push((48 + n % 10) as u8));
        assert forall|i: int| 0 <= i < decimal(n).len() implies 48 <= #[trigger] decimal(n)[i]
            <= 57 by {
            if i < d.len() {
                assert(decimal(n)[i] == d[i]);
            }
        }
    }
}

/// The decimal digits of `n`.
pub fn decimal_digits(n: u64) -> (d: Vec<u8>)
    ensures
        d@ == decimal(n as nat),
        forall|i: int| 0 <= i < d@.len() ==> 48 <= #[trigger] d@[i] <= 57,
    decreases n,
{
    proof {
        lemma_decimal_ascii(n as nat);
    }
    if n < 10 {
        let mut d = Vec::new();
        d.push(48 + n as u8);
        d
    } else {
        let mut d = decimal_digits(n / 10);
        d.push(48 + (n % 10) as u8);
        d
    }
}

/// The value of the digit `c` in base `radix` (10 or 16), as `char::to_digit` reads it.
pub open spec fn digit_value(c: char, radix: nat) -> Option<nat> {
    let u = c as u32;
    if 48 <= u <= 57 && u - 48 < radix {
        Some((u - 48) as nat)
    } else if radix == 16 && 97 <= u <= 102 {
        Some((u - 87) as nat)
    } else if radix == 16 && 65 <= u <= 70 {
        Some((u - 55) as nat)
    } else {
        None
    }
}

/// The value of the digits `s` in base `radix`, if every one is a digit.
pub open spec fn digits_value(s: Seq<char>, radix: nat) -> Option<nat>
    decreases s.len(),
{
    if s.len() == 0 {
        Some(0)
    } else {
        match (digits_value(s.drop_last(), radix), digit_value(s.last(), radix)) {
            (Some(high), Some(low)) => Some(high * radix + low),
            _ => None,
        }
    }
}

/// An unsigned number as `from_str_radix` reads one: an optional `+`, then at least one
/// digit; `None` where that fails or the value passes `max`.
pub open spec fn unsigned_value(s: Seq<char>, radix: nat, max: nat) -> Option<nat> {
    let body = if s.len() > 0 && s[0] == '+' {
        s.skip(1)
    } else {
        s
    };
    if body.len() == 0 {
        None
    } else {
        match digits_value(body, radix) {
            Some(v) => if v <= max {
                Some(v)
            } else {
                None
            },
            None => None,
        }
    }
}

/// The value of one digit in base `radix`.
fn digit(c: char, radix: u64) -> (r: Option<u64>)
    requires
        radix == 10 || radix == 16,
    ensures
        r matches Some(v) ==> digit_value(c, radix as nat) == Some(v as nat) && v < radix,
        r is None ==> digit_value(c, radix as nat) is None,
{
    let u = c as u32;
    if 48 <= u && u <= 57 && ((u - 48) as u64) < radix {
        Some((u - 48) as u64)
    } else if radix == 16 && 97 <= u && u <= 102 {
        Some((u - 87) as u64)
    } else if radix == 16 && 65 <= u && u <= 70 {
        Some((u - 55) as u64)
    } else {
        None
    }
}

proof fn lemma_digits_value_grows(s: Seq<char>, radix: nat, v: nat)
    requires
        radix >= 2,
        digits_value(s, radix) == Some(v),
    ensures
        forall|i: int| 0 <= i <= s.len() ==> digits_value(#[trigger] s.take(i), radix) is Some
            && digits_value(s.take(i), radix).unwrap() <= v,
    decreases s.len(),
{
    if s.len() > 0 {
        let high = digits_value(s.drop_last(), radix).unwrap();
        let low = digit_value(s.last(), radix).unwrap();
        assert(high <= high * radix + low) by (nonlinear_arith)
            requires radix >= 2;
        lemma_digits_value_grows(s.drop_last(), radix, high);
        assert forall|i: int| 0 <= i <= s.len() implies digits_value(#[trigger] s.take(i), radix)
            is Some && digits_value(s.take(i), radix).unwrap() <= v by {
            if i < s.len() {
                assert(s.take(i) =~= s.drop_last().take(i));
            } else {
                assert(s.take(i) =~= s);
            }
        }
    }
}

/// Reads `chars[from..to]` as an unsigned number in base `radix` no greater than `max`,
/// the way `from_str_radix` reads one.
pub fn read_unsigned(chars: &Vec<char>, from: usize, to: usize, radix: u64, max: u64) -> (r: Option<u64>)
    requires
        from <= to <= chars@.len(),
        radix == 10 || radix == 16,
    ensures
        r matches Some(v) ==> unsigned_value(chars@.subrange(from as int, to as int), radix as nat, max as nat) == Some(v as nat),
        r is None ==> unsigned_value(chars@.subrange(from as int, to as int), radix as nat, max as nat) is None,
{
    let ghost s = chars@.subrange(from as int, to as int);
    let mut i = from;
    if i < to && chars[i] == '+' {
        i = i + 1;
    }
    let ghost body = chars@.subrange(i as int, to as int);
    proof {
        if s.len() > 0 && s[0] == '+' {
            assert(body =~= s.skip(1));
        } else {
            assert(body =~= s);
        }
    }
    if i == to {
        return None;
    }
    let start = i;
    let mut value: u64 = 0;
    while i < to
        invariant
            start <= i <= to <= chars@.len(),
            body == chars@.subrange(start as int, to as int),
            s == chars@.subrange(from as int, to as int),
            s.len() > 0 && s[0] == '+' ==> body == s.skip(1),
            !(s.len() > 0 && s[0] == '+') ==> body == s,
            body.len() > 0,
            radix == 10 || radix == 16,
            value <= max,
            digits_value(chars@.subrange(start as int, i as int), radix as nat) == Some(value as nat),
        decreases to - i,
    {
        let ghost prefix = chars@.subrange(start as int, i as int);
        let ghost next = chars@.subrange(start as int, i + 1);
        proof {
            assert(next.drop_last() =~= prefix);
            assert(next.last() == chars@[i as int]);
        }
        match digit(chars[i], radix) {
            None => {
                proof {
                    assert(body.take(i - start + 1) =~= next);
                    lemma_digits_value_none(body, radix as nat, i - start + 1);
                }
                return None;
            },
            Some(d) => {
                proof {
                    assert(value as nat * radix as nat + d as nat <= u64::MAX as nat * 16 + 15) by (nonlinear_arith)
                        requires value <= u64::MAX, radix <= 16, d < 16;
                }
                let wide: u128 = (value as u128) * (radix as u128) + (d as u128);
                if wide > max as u128 {
                    proof {
                        assert(body.take(i - start + 1) =~= next);
                        lemma_digits_value_over(body, radix as nat, i - start + 1, max as nat);
                    }
                    return None;
                }
                value = wide as u64;
            },
        }
        i = i + 1;
    }
    proof {
        assert(chars@.subrange(start as int, i as int) =~= body);
    }
    Some(value)
}

/// If a prefix of `s` has a non-digit, so has `s`.
proof fn lemma_digits_value_none(s: Seq<char>, radix: nat, k: int)
    requires
        0 <= k <= s.len(),
        digits_value(s.take(k), radix) is None,
    ensures
        digits_value(s, radix) is None,
    decreases s.len(),
{
    if k < s.len() {
        assert(s.drop_last().take(k) =~= s.take(k));
        lemma_digits_value_none(s.drop_last(), radix, k);
    } else {
        assert(s.take(k) =~= s);
    }
}

/// If a prefix of `s` is worth more than `max`, so is `s`.
proof fn lemma_digits_value_over(s: Seq<char>, radix: nat, k: int, max: nat)
    requires
        0 <= k <= s.len(),
        radix >= 2,
        digits_value(s.take(k), radix) matches Some(v) && v > max,
    ensures
        !(digits_value(s, radix) matches Some(v) && v <= max),
{
    if digits_value(s, radix) is Some {
        lemma_digits_value_grows(s, radix, digits_value(s, radix).unwrap());
    }
}

/// What `{:?}` writes for a string: the text quoted, with escapes.
pub uninterp spec fn debug_text(s: Seq<char>) -> Seq<char>;

/// `format!("{:?}", s)`: `s` quoted and escaped the way `Debug` for `str` does it.
#[verifier::external_body]
pub(crate) fn debug_quoted(s: &str) -> (r: String)
    ensures
        r@ == debug_text(s@),
{
    format!("{s:?}")
}

} // verus!
