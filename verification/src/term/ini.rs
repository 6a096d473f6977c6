//! A small INI reader: `[section]` headers, `key = value` pairs, `;` and `#` comments,
//! quoted values.
use vstd::prelude::*;

use crate::text::{
    ascii_chars, chars_of, same_text, debug_quoted, debug_text, decimal, decimal_digits, find_char,
    find_from, lemma_find_from_bounds, push_ascii, string_of, trim, trim_bounds,
};

verus! {

/// A section, a key and a value.
pub type EntryView = (Seq<char>, Seq<char>, Seq<char>);

/// `s` without one trailing carriage return.
pub open spec fn strip_cr(s: Seq<char>) -> Seq<char> {
    if s.len() > 0 && s.last() == '\r' {
        s.drop_last()
    } else {
        s
    }
}

/// The lines of `s` as `str::lines` gives them: split at each `\n`, a `\r` right before
/// it dropped, no empty line after a final `\n`.
pub open spec fn lines_of(s: Seq<char>) -> Seq<Seq<char>>
    decreases s.len(),
{
    if s.len() == 0 {
        Seq::empty()
    } else {
        let p = find_from(s, '\n', 0);
        if p >= s.len() {
            seq![s]
        } else {
            proof {
                lemma_find_from_bounds(s, '\n', 0);
            }
            seq![strip_cr(s.take(p))] + lines_of(s.skip(p + 1))
        }
    }
}

/// `v` without the quotes around it: a value that opens with a quote ends at the next
/// one of the same kind; one that is never closed, or not quoted, stays as it is.
pub open spec fn unquote(v: Seq<char>) -> Seq<char> {
    if v.len() > 0 && (v[0] == '\'' || v[0] == '"') {
        let rest = v.skip(1);
        let end = find_from(rest, v[0], 0);
        if end < rest.len() {
            rest.take(end)
        } else {
            v
        }
    } else {
        v
    }
}

/// What one line of an INI file says.
pub enum LineView {
    /// Blank, or a comment.
    Skip,
    /// `[name]`: the keys after it belong to `name`.
    Header(Seq<char>),
    /// `key = value`.
    Pair(Seq<char>, Seq<char>),
    /// Opens with `[` but does not close with `]`.
    BadHeader,
    /// Neither a header nor a pair.
    Stray,
}

/// Reads one raw line.
pub open spec fn read_line(raw: Seq<char>) -> LineView {
    let line = trim(raw);
    if line.len() == 0 || line[0] == ';' || line[0] == '#' {
        LineView::Skip
    } else if line[0] == '[' {
        if line.len() >= 2 && line.last() == ']' {
            LineView::Header(trim(line.subrange(1, line.len() - 1)))
        } else {
            LineView::BadHeader
        }
    } else {
        let eq = find_from(line, '=', 0);
        if eq < line.len() {
            LineView::Pair(trim(line.take(eq)), unquote(trim(line.skip(eq + 1))))
        } else {
            LineView::Stray
        }
    }
}

/// The complaint about line `n`, whose text is `raw`.
pub open spec fn line_complaint(n: nat, raw: Seq<char>, why: Seq<char>) -> Seq<char> {
    "line "@ + ascii_chars(decimal(n)) + ": "@ + debug_text(raw) + why
}

/// Why a line that opens a header but does not close one fails.
pub open spec fn not_a_header() -> Seq<char> {
    " is not a section header"@
}

/// Why a line that is neither a header nor a pair fails.
pub open spec fn not_a_pair() -> Seq<char> {
    " is neither a section nor a key"@
}

/// The lines `lines` read in turn: the section the last header opened and the pairs so
/// far, each with its section; or the complaint about the first line that fails.
pub open spec fn read_lines(lines: Seq<Seq<char>>) -> Result<(Seq<char>, Seq<EntryView>), Seq<char>>
    decreases lines.len(),
{
    if lines.len() == 0 {
        Ok((Seq::empty(), Seq::empty()))
    } else {
        match read_lines(lines.drop_last()) {
            Err(e) => Err(e),
            Ok((section, entries)) => read_step(section, entries, lines.len(), lines.last()),
        }
    }
}

/// Reading line `n`, whose text is `raw`, in `section` after `entries`.
pub open spec fn read_step(section: Seq<char>, entries: Seq<EntryView>, n: nat, raw: Seq<char>) -> Result<(Seq<char>, Seq<EntryView>), Seq<char>> {
    match read_line(raw) {
        LineView::Skip => Ok((section, entries)),
        LineView::Header(name) => Ok((name, entries)),
        LineView::Pair(key, value) => Ok((section, entries.push((section, key, value)))),
        LineView::BadHeader => Err(line_complaint(n, raw, not_a_header())),
        LineView::Stray => Err(line_complaint(n, raw, not_a_pair())),
    }
}

/// What an INI text reads as: its entries, or the complaint about its first bad line.
pub open spec fn read_ini(text: Seq<char>) -> Result<Seq<EntryView>, Seq<char>> {
    match read_lines(lines_of(text)) {
        Ok((_, entries)) => Ok(entries),
        Err(e) => Err(e),
    }
}

/// The value of the last entry for `key` in `section`.
pub open spec fn lookup(entries: Seq<EntryView>, section: Seq<char>, key: Seq<char>) -> Option<Seq<char>>
    decreases entries.len(),
{
    if entries.len() == 0 {
        None
    } else if entries.last().0 == section && entries.last().1 == key {
        Some(entries.last().2)
    } else {
        lookup(entries.drop_last(), section, key)
    }
}

/// The texts of stored entries.
pub open spec fn entries_view(entries: Seq<(String, String, String)>) -> Seq<EntryView> {
    entries.map_values(|e: (String, String, String)| (e.0@, e.1@, e.2@))
}

#[derive(Debug)]
pub struct Ini {
    entries: Vec<(String, String, String)>,
}

impl View for Ini {
    type V = Seq<EntryView>;

    closed spec fn view(&self) -> Seq<EntryView> {
        entries_view(self.entries@)
    }
}

/// The complaint about line `n`, whose text is `chars[from..to]`.
fn complaint(n: usize, chars: &Vec<char>, from: usize, to: usize, why: &str) -> (m: String)
    requires
        from <= to <= chars@.len(),
    ensures
        m@ == line_complaint(n as nat, chars@.subrange(from as int, to as int), why@),
{
    let mut m = String::from_str("line ");
    let digits = decimal_digits(n as u64);
    push_ascii(&mut m, &digits);
    m.append(": ");
    let raw = string_of(chars, from, to);
    let quoted = debug_quoted(raw.as_str());
    m.append(quoted.as_str());
    m.append(why);
    m
}

/// The text of `chars[from..to]` without the quotes around it.
fn unquoted(chars: &Vec<char>, from: usize, to: usize) -> (s: String)
    requires
        from <= to <= chars@.len(),
    ensures
        s@ == unquote(chars@.subrange(from as int, to as int)),
{
    let ghost v = chars@.subrange(from as int, to as int);
    if from < to && (chars[from] == '\'' || chars[from] == '"') {
        let quote = chars[from];
        let end = find_char(chars, quote, from + 1, to);
        proof {
            assert(v.skip(1) =~= chars@.subrange(from + 1, to as int));
        }
        if end < to {
            proof {
                assert(v.skip(1).take(end - from - 1) =~= chars@.subrange(from + 1, end as int));
            }
            return string_of(chars, from + 1, end);
        }
    }
    string_of(chars, from, to)
}

/// Reads the line `chars[start..end]`, line `n`, into `section` and `entries`; the
/// complaint about it if it is bad.
fn read_into(
    chars: &Vec<char>,
    start: usize,
    end: usize,
    n: usize,
    section: &mut String,
    entries: &mut Vec<(String, String, String)>,
) -> (r: Option<String>)
    requires
        start <= end <= chars@.len(),
    ensures
        match read_step(old(section)@, entries_view(old(entries)@), n as nat, chars@.subrange(start as int, end as int)) {
            Ok((s, es)) => r is None && final(section)@ == s && entries_view(final(entries)@) == es,
            Err(m) => r matches Some(c) && c@ == m,
        },
{
    let (a, b) = trim_bounds(chars, start, end);
    if a < b && chars[a] != ';' && chars[a] != '#' {
        let ghost line = chars@.subrange(a as int, b as int);
        if chars[a] == '[' {
            if b - a >= 2 && chars[b - 1] == ']' {
                let (c, d) = trim_bounds(chars, a + 1, b - 1);
                proof {
                    assert(line.subrange(1, line.len() - 1) =~= chars@.subrange(a + 1, b - 1));
                }
                *section = string_of(chars, c, d);
            } else {
                return Some(complaint(n, chars, start, end, " is not a section header"));
            }
        } else {
            let eq = find_char(chars, '=', a, b);
            if eq == b {
                return Some(complaint(n, chars, start, end, " is neither a section nor a key"));
            }
            proof {
                assert(line.take(eq - a) =~= chars@.subrange(a as int, eq as int));
                assert(line.skip(eq - a + 1) =~= chars@.subrange(eq + 1, b as int));
            }
            let (ka, kb) = trim_bounds(chars, a, eq);
            let (va, vb) = trim_bounds(chars, eq + 1, b);
            let key = string_of(chars, ka, kb);
            let value = unquoted(chars, va, vb);
            let here = section.clone();
            let ghost before = entries@;
            entries.push((here, key, value));
            proof {
                assert(entries_view(entries@) =~= entries_view(before).push((here@, key@, value@)));
            }
        }
    }
    None
}

impl Ini {
    pub fn parse(text: &str) -> (r: Result<Self, String>)
        ensures
            match read_ini(text@) {
                Ok(entries) => r matches Ok(ini) && ini@ == entries,
                Err(e) => r matches Err(m) && m@ == e,
            },
    {
        let chars = chars_of(text);
        let len = chars.len();
        let mut entries: Vec<(String, String, String)> = Vec::new();
        let mut section = String::new();
        let mut start: usize = 0;
        let mut n: usize = 0;
        let ghost mut done: Seq<Seq<char>> = Seq::empty();
        proof {
            assert(text@.skip(0) =~= text@);
            assert(done + lines_of(text@.skip(0)) =~= lines_of(text@));
            assert(entries_view(entries@) =~= Seq::<EntryView>::empty());
            assert(section@ =~= Seq::<char>::empty());
        }
        while start < len
            invariant
                chars@ == text@,
                len == chars@.len(),
                start <= len,
                n == done.len(),
                n <= start,
                lines_of(text@) == done + lines_of(text@.skip(start as int)),
                read_lines(done) == Ok::<(Seq<char>, Seq<EntryView>), Seq<char>>((section@, entries_view(entries@))),
            decreases len - start,
        {
            let ghost rest = text@.skip(start as int);
            let stop = find_char(&chars, '\n', start, len);
            proof {
                assert(chars@.subrange(start as int, len as int) =~= rest);
                lemma_find_from_bounds(rest, '\n', 0);
            }
            let mut end = stop;
            if stop < len && stop > start && chars[stop - 1] == '\r' {
                end = stop - 1;
            }
            let ghost raw = chars@.subrange(start as int, end as int);
            proof {
                if stop < len {
                    assert(raw =~= strip_cr(rest.take(stop - start)));
                    assert(rest.skip(stop - start + 1) =~= text@.skip(stop + 1));
                    assert(lines_of(rest) == seq![raw] + lines_of(text@.skip(stop + 1)));
                } else {
                    assert(raw =~= rest);
                    assert(lines_of(rest) == seq![raw]);
                    assert(text@.skip(len as int) =~= Seq::<char>::empty());
                }
            }
            n = n + 1;
            proof {
                assert((done.push(raw)).drop_last() =~= done);
                assert((done.push(raw)).last() == raw);
                if stop < len {
                    assert(lines_of(text@) =~= done.push(raw) + lines_of(text@.skip(stop + 1)));
                } else {
                    assert(lines_of(text@) =~= done.push(raw));
                }
                assert(lines_of(text@).take(done.len() + 1int) =~= done.push(raw));
            }
            match read_into(&chars, start, end, n, &mut section, &mut entries) {
                Some(m) => {
                    proof {
                        lemma_failed_line_decides(lines_of(text@), done.push(raw));
                    }
                    return Err(m);
                },
                None => {},
            }
            proof {
                done = done.push(raw);
                assert(lines_of(text@) == done + lines_of(text@.skip(stop + 1)) || stop == len);
            }
            start = if stop < len {
                stop + 1
            } else {
                len
            };
            proof {
                if stop >= len {
                    assert(lines_of(text@) =~= done + lines_of(text@.skip(start as int)));
                }
            }
        }
        proof {
            assert(text@.skip(len as int) =~= Seq::<char>::empty());
        }
        Ok(Ini { entries })
    }

    /// The value of the last entry for `key` in `section`.
    pub fn get(&self, section: &str, key: &str) -> (r: Option<&str>)
        ensures
            match lookup(self@, section@, key@) {
                Some(v) => r matches Some(s) && s@ == v,
                None => r is None,
            },
    {
        let ghost all = self@;
        let mut i = self.entries.len();
        proof {
            assert(all.take(i as int) =~= all);
        }
        while i > 0
            invariant
                i <= self.entries@.len(),
                all == self@,
                lookup(all, section@, key@) == lookup(all.take(i as int), section@, key@),
            decreases i,
        {
            i = i - 1;
            proof {
                assert(all.take(i + 1).drop_last() =~= all.take(i as int));
            }
            let entry = &self.entries[i];
            if same_text(entry.0.as_str(), section) && same_text(entry.1.as_str(), key) {
                return Some(entry.2.as_str());
            }
        }
        None
    }

    /// Puts the entries of `other` after these, so that they win.
    pub fn extend(&mut self, other: Ini)
        ensures
            final(self)@ == old(self)@ + other@,
    {
        let mut more = other.entries;
        self.entries.append(&mut more);
        proof {
            let f = |e: (String, String, String)| (e.0@, e.1@, e.2@);
            assert(self.entries@.map_values(f) =~= old(self).entries@.map_values(f) + other.entries@.map_values(f));
        }
    }
}

/// Once a line fails, the lines after it do not matter.
proof fn lemma_failed_line_decides(lines: Seq<Seq<char>>, head: Seq<Seq<char>>)
    requires
        head.len() <= lines.len(),
        lines.take(head.len() as int) == head,
        read_lines(head) is Err,
    ensures
        read_lines(lines) == read_lines(head),
    decreases lines.len(),
{
    if lines.len() > head.len() {
        assert(lines.drop_last().take(head.len() as int) =~= head);
        lemma_failed_line_decides(lines.drop_last(), head);
    } else {
        assert(lines =~= head);
    }
}

/// A key set later overrides the same key set earlier: looking it up in `first` followed
/// by `second` finds it in `second` if it is there, and in `first` otherwise.
pub proof fn lemma_later_entries_win(
    first: Seq<EntryView>,
    second: Seq<EntryView>,
    section: Seq<char>,
    key: Seq<char>,
)
    ensures
        lookup(first + second, section, key) == match lookup(second, section, key) {
            Some(v) => Some(v),
            None => lookup(first, section, key),
        },
    decreases second.len(),
{
    if second.len() == 0 {
        assert(first + second =~= first);
    } else {
        assert((first + second).drop_last() =~= first + second.drop_last());
        lemma_later_entries_win(first, second.drop_last(), section, key);
    }
}

} // verus!
