//! Colour schemes in KDE's INI format, and the theme drawn from one.
use vstd::prelude::*;
use crate::frame::TerminalColor;
use crate::text::{
    chars_of, string_from_chars, trim, trim_chars, split_once, split_once_chars, split_all,
    lemma_split_all_skip, find_char_from, copy_range, parse_unsigned, parse_unsigned_chars,
};

verus! {

broadcast use vstd::string::group_string_axioms;

/// A key of an INI document: a section and a key within it.
pub type IniKey = (Seq<char>, Seq<char>);

/// The state of reading an INI document line by line: the current section
/// and the values read so far.
pub struct IniState {
    pub section: Seq<char>,
    pub values: Map<IniKey, Seq<char>>,
}

/// What one line does. Blank lines and lines starting with `#` or `;` are
/// skipped; `[name]` starts a section; `key = value` sets a trimmed value
/// under a trimmed key, splitting at the first `=`; other lines are skipped.
pub open spec fn ini_line(st: IniState, raw: Seq<char>) -> IniState {
    let line = trim(raw);
    if line.len() == 0 || line[0] == '#' || line[0] == ';' {
        st
    } else if line.len() >= 2 && line[0] == '[' && line.last() == ']' {
        IniState { section: line.subrange(1, line.len() - 1), ..st }
    } else {
        match split_once(line, '=') {
            None => st,
            Some((k, v)) => IniState {
                section: st.section,
                values: st.values.insert((st.section, trim(k)), trim(v)),
            },
        }
    }
}

/// The state after reading the lines in order.
pub open spec fn ini_lines(lines: Seq<Seq<char>>) -> IniState
    decreases lines.len(),
{
    if lines.len() == 0 {
        IniState { section: Seq::empty(), values: Map::empty() }
    } else {
        ini_line(ini_lines(lines.drop_last()), lines.last())
    }
}

/// The values of an INI text. The text is split at line feeds; since every
/// line is trimmed, this agrees with `str::lines`.
pub open spec fn ini_values(text: Seq<char>) -> Map<IniKey, Seq<char>> {
    ini_lines(split_all(text, '\n')).values
}

/// The map of a list of entries, a later entry for a key replacing an earlier one.
pub open spec fn entries_map(entries: Seq<(String, String, String)>) -> Map<IniKey, Seq<char>>
    decreases entries.len(),
{
    if entries.len() == 0 {
        Map::empty()
    } else {
        let e = entries.last();
        entries_map(entries.drop_last()).insert((e.0@, e.1@), e.2@)
    }
}

pub open spec fn keys_unique(entries: Seq<(String, String, String)>) -> bool {
    forall|i: int, j: int|
        0 <= i < j < entries.len() ==> (#[trigger] entries[i].0@, entries[i].1@) != (
        #[trigger] entries[j].0@,
        entries[j].1@,
        )
}

proof fn lemma_entries_map_contains(entries: Seq<(String, String, String)>, i: int)
    requires
        0 <= i < entries.len(),
        keys_unique(entries),
    ensures
        entries_map(entries).contains_key((entries[i].0@, entries[i].1@)),
        entries_map(entries)[(entries[i].0@, entries[i].1@)] == entries[i].2@,
    decreases entries.len(),
{
    if i < entries.len() - 1 {
        lemma_entries_map_contains(entries.drop_last(), i);
        assert(entries.drop_last()[i] == entries[i]);
        assert((entries[i].0@, entries[i].1@) != (entries.last().0@, entries.last().1@));
    }
}

proof fn lemma_entries_map_absent(entries: Seq<(String, String, String)>, k: IniKey)
    requires
        forall|i: int| 0 <= i < entries.len() ==> (#[trigger] entries[i].0@, entries[i].1@) != k,
    ensures
        !entries_map(entries).contains_key(k),
    decreases entries.len(),
{
    if entries.len() > 0 {
        lemma_entries_map_absent(entries.drop_last(), k);
        assert(entries.last() == entries[entries.len() - 1]);
    }
}

proof fn lemma_entries_map_update(
    entries: Seq<(String, String, String)>,
    i: int,
    e: (String, String, String),
)
    requires
        0 <= i < entries.len(),
        keys_unique(entries),
        (e.0@, e.1@) == (entries[i].0@, entries[i].1@),
    ensures
        entries_map(entries.update(i, e)) == entries_map(entries).insert((e.0@, e.1@), e.2@),
    decreases entries.len(),
{
    let u = entries.update(i, e);
    if i == entries.len() - 1 {
        assert(u.drop_last() =~= entries.drop_last());
        assert(entries_map(u) =~= entries_map(entries).insert((e.0@, e.1@), e.2@));
    } else {
        assert(u.drop_last() =~= entries.drop_last().update(i, e));
        lemma_entries_map_update(entries.drop_last(), i, e);
        assert(entries.drop_last()[i] == entries[i]);
        let l = entries.last();
        assert((entries[i].0@, entries[i].1@) != (l.0@, l.1@));
        assert(entries_map(u) =~= entries_map(entries).insert((e.0@, e.1@), e.2@));
    }
}

/// A parsed INI document: values by section and key.
pub struct IniDocument {
    entries: Vec<(String, String, String)>,
}

impl View for IniDocument {
    type V = Map<IniKey, Seq<char>>;

    closed spec fn view(&self) -> Map<IniKey, Seq<char>> {
        entries_map(self.entries@)
    }
}

impl IniDocument {
    /// No key occurs twice.
    pub closed spec fn well_formed(&self) -> bool {
        keys_unique(self.entries@)
    }

    /// An empty document.
    pub fn new() -> (r: Self)
        ensures
            r@ == Map::<IniKey, Seq<char>>::empty(),
            r.well_formed(),
    {
        IniDocument { entries: Vec::new() }
    }

    fn find(&self, section: &[char], key: &[char]) -> (r: Option<usize>)
        requires
            self.well_formed(),
        ensures
            match r {
                Some(i) => i < self.entries@.len() && (self.entries@[i as int].0@, self.entries@[
                    i as int].1@) == (section@, key@),
                None => !self@.contains_key((section@, key@)),
            },
    {
        let mut i: usize = 0;
        while i < self.entries.len()
            invariant
                i <= self.entries@.len(),
                forall|k: int|
                    0 <= k < i ==> (#[trigger] self.entries@[k].0@, self.entries@[k].1@) != (
                    section@,
                    key@,
                    ),
            decreases self.entries.len() - i,
        {
            let s = chars_of(self.entries[i].0.as_str());
            let k = chars_of(self.entries[i].1.as_str());
            if crate::text::chars_equal(s.as_slice(), section) && crate::text::chars_equal(
                k.as_slice(),
                key,
            ) {
                return Some(i);
            }
            i = i + 1;
        }
        proof {
            lemma_entries_map_absent(self.entries@, (section@, key@));
        }
        None
    }

    /// Sets the value of a key in a section, replacing any earlier value.
    pub fn insert(&mut self, section: &[char], key: &[char], value: &[char])
        requires
            old(self).well_formed(),
        ensures
            final(self).well_formed(),
            final(self)@ == old(self)@.insert((section@, key@), value@),
    {
        let entry = (
            string_from_chars(section),
            string_from_chars(key),
            string_from_chars(value),
        );
        match self.find(section, key) {
            Some(i) => {
                proof {
                    lemma_entries_map_update(self.entries@, i as int, entry);
                }
                self.entries.set(i, entry);
                assert forall|a: int, b: int|
                    0 <= a < b < self.entries@.len() implies (#[trigger] self.entries@[a].0@,
                    self.entries@[a].1@) != (#[trigger] self.entries@[b].0@, self.entries@[b].1@) by {
                    assert(old(self).entries@[a] == self.entries@[a] || a == i);
                }
            },
            None => {
                proof {
                    assert forall|k: int| 0 <= k < old(self).entries@.len() implies (
                    #[trigger] old(self).entries@[k].0@, old(self).entries@[k].1@) != (
                    section@,
                    key@,
                    ) by {
                        if (old(self).entries@[k].0@, old(self).entries@[k].1@) == (section@, key@) {
                            lemma_entries_map_contains(old(self).entries@, k);
                        }
                    }
                }
                self.entries.push(entry);
                assert(self.entries@.drop_last() =~= old(self).entries@);
            },
        }
    }

    /// Reads an INI text.
    pub fn parse(contents: &str) -> (r: Self)
        ensures
            r@ == ini_values(contents@),
            r.well_formed(),
    {
        let text = chars_of(contents);
        let n = text.len();
        let mut doc = IniDocument::new();
        let mut section: Vec<char> = Vec::new();
        let mut start: usize = 0;
        let ghost done: Seq<Seq<char>> = Seq::empty();
        assert(text@.skip(0) =~= text@);
        loop
            invariant
                start <= n == text@.len(),
                text@ == contents@,
                doc.well_formed(),
                split_all(text@, '\n') == done + split_all(text@.skip(start as int), '\n'),
                ini_lines(done) == (IniState { section: section@, values: doc@ }),
            decreases n - start,
        {
            let end = find_char_from(text.as_slice(), '\n', start);
            proof {
                lemma_split_all_skip(text@, '\n', start as int, end as int);
            }
            let raw = copy_range(text.as_slice(), start, end);
            let ghost next_done = done.push(raw@);
            proof {
                assert(next_done.drop_last() =~= done);
            }
            let line = trim_chars(raw.as_slice());
            let len = line.len();
            if len == 0 || line[0] == '#' || line[0] == ';' {
            } else if len >= 2 && line[0] == '[' && line[len - 1] == ']' {
                section = copy_range(line.as_slice(), 1, len - 1);
            } else {
                match split_once_chars(line.as_slice(), '=') {
                    None => {},
                    Some((k, v)) => {
                        let tk = trim_chars(k.as_slice());
                        let tv = trim_chars(v.as_slice());
                        doc.insert(section.as_slice(), tk.as_slice(), tv.as_slice());
                    },
                }
            }
            proof {
                if end < n {
                    assert(done + split_all(text@.skip(start as int), '\n') =~= next_done
                        + split_all(text@.skip(end + 1), '\n'));
                } else {
                    assert(done + split_all(text@.skip(start as int), '\n') =~= next_done);
                }
                done = next_done;
            }
            if end >= n {
                assert(done =~= split_all(text@, '\n'));
                return doc;
            }
            start = end + 1;
        }
    }

    /// The value of a key in a section.
    pub fn value(&self, section: &str, key: &str) -> (r: Option<&str>)
        requires
            self.well_formed(),
        ensures
            match r {
                Some(v) => self@.contains_key((section@, key@)) && self@[(section@, key@)] == v@,
                None => !self@.contains_key((section@, key@)),
            },
    {
        let s = chars_of(section);
        let k = chars_of(key);
        match self.find(s.as_slice(), k.as_slice()) {
            Some(i) => {
                proof {
                    lemma_entries_map_contains(self.entries@, i as int);
                }
                Some(self.entries[i].2.as_str())
            },
            None => None,
        }
    }

    /// The colour that a key in a section holds, if it holds one.
    pub fn color(&self, section: &str, key: &str) -> (r: Option<TerminalColor>)
        requires
            self.well_formed(),
            color_value_readable(self@, (section@, key@)),
        ensures
            r == lookup_color(self@, (section@, key@)),
    {
        match self.value(section, key) {
            Some(v) => parse_color(v),
            None => None,
        }
    }
}

// ---------------------------------------------------------------------------
// Colours

/// A continuation byte of UTF-8.
pub open spec fn is_continuation(b: u8) -> bool {
    0x80 <= b < 0xc0
}

/// Whether reading a colour from these bytes slices a string inside a
/// character, which panics: a `#` followed by six or eight bytes, where a
/// two-byte field starts in the middle of a character.
pub open spec fn color_slicing_panics(bytes: Seq<u8>) -> bool {
    &&& bytes.len() > 0
    &&& bytes[0] == 35u8
    &&& ((bytes.len() == 7 && (is_continuation(bytes[3]) || is_continuation(bytes[5])))
        || (bytes.len() == 9 && (is_continuation(bytes[3]) || is_continuation(bytes[5])
        || is_continuation(bytes[7]))))
}

/// Whether `parse_color` can read this text without panicking.
pub fn color_value_is_readable(value: &str) -> (r: bool)
    ensures
        r == !color_slicing_panics(crate::text::utf8_bytes(value@)),
{
    let b = value.as_bytes();
    let n = b.len();
    if n == 0 || b[0] != 35 {
        return true;
    }
    let c3 = n > 3 && 0x80 <= b[3] && b[3] < 0xc0;
    let c5 = n > 5 && 0x80 <= b[5] && b[5] < 0xc0;
    let c7 = n > 7 && 0x80 <= b[7] && b[7] < 0xc0;
    !((n == 7 && (c3 || c5)) || (n == 9 && (c3 || c5 || c7)))
}

/// The value of a hexadecimal digit.
pub open spec fn hex_digit(c: char) -> Option<u8> {
    if '0' <= c && c <= '9' {
        Some(((c as u32) - 48) as u8)
    } else if 'a' <= c && c <= 'f' {
        Some(((c as u32) - 87) as u8)
    } else if 'A' <= c && c <= 'F' {
        Some(((c as u32) - 55) as u8)
    } else {
        None
    }
}

/// What `u8::from_str_radix` gives back, in base 16, for two characters: a
/// leading `+` is dropped.
pub open spec fn hex_pair(a: char, b: char) -> Option<u8> {
    if a == '+' {
        hex_digit(b)
    } else {
        match (hex_digit(a), hex_digit(b)) {
            (Some(x), Some(y)) => Some((x * 16 + y) as u8),
            _ => None,
        }
    }
}

/// The colour that a text names: `#rrggbb`, `#aarrggbb` (alpha ignored), or
/// `r,g,b` with decimal channels that may be surrounded by white space. The
/// hexadecimal forms are read by byte: the six or eight bytes after `#`, of
/// which the last six give the channels, two each.
pub open spec fn parse_color_spec(value: Seq<char>) -> Option<TerminalColor> {
    let bytes = crate::text::utf8_bytes(value);
    if bytes.len() > 0 && bytes[0] == 35u8 {
        let hex = bytes.drop_first();
        if !(hex.len() == 6 || hex.len() == 8) {
            None
        } else {
            let rgb = if hex.len() == 8 {
                hex.skip(2)
            } else {
                hex
            };
            match (
                hex_pair(rgb[0] as char, rgb[1] as char),
                hex_pair(rgb[2] as char, rgb[3] as char),
                hex_pair(rgb[4] as char, rgb[5] as char),
            ) {
                (Some(r), Some(g), Some(b)) => Some(TerminalColor::Rgb(r, g, b)),
                _ => None,
            }
        }
    } else {
        let fields = split_all(value, ',');
        if fields.len() == 3 && (forall|i: int|
            0 <= i < 3 ==> parse_unsigned(trim(#[trigger] fields[i]), 255) is Some) {
            Some(
                TerminalColor::Rgb(
                    parse_unsigned(trim(fields[0]), 255)->0 as u8,
                    parse_unsigned(trim(fields[1]), 255)->0 as u8,
                    parse_unsigned(trim(fields[2]), 255)->0 as u8,
                ),
            )
        } else {
            None
        }
    }
}

/// A value that a document holds can be read as a colour without panicking.
pub open spec fn color_value_readable(doc: Map<IniKey, Seq<char>>, key: IniKey) -> bool {
    doc.contains_key(key) ==> !color_slicing_panics(crate::text::utf8_bytes(doc[key]))
}

/// The colour held under a key, if any.
pub open spec fn lookup_color(doc: Map<IniKey, Seq<char>>, key: IniKey) -> Option<TerminalColor> {
    if doc.contains_key(key) {
        parse_color_spec(doc[key])
    } else {
        None
    }
}

fn hex_digit_exec(c: char) -> (r: Option<u8>)
    ensures
        r == hex_digit(c),
{
    if '0' <= c && c <= '9' {
        Some((c as u32 - 48) as u8)
    } else if 'a' <= c && c <= 'f' {
        Some((c as u32 - 87) as u8)
    } else if 'A' <= c && c <= 'F' {
        Some((c as u32 - 55) as u8)
    } else {
        None
    }
}

fn hex_pair_exec(a: char, b: char) -> (r: Option<u8>)
    ensures
        r == hex_pair(a, b),
{
    if a == '+' {
        hex_digit_exec(b)
    } else {
        match (hex_digit_exec(a), hex_digit_exec(b)) {
            (Some(x), Some(y)) => Some(x * 16 + y),
            _ => None,
        }
    }
}

/// Reads a colour: `#rrggbb`, `#aarrggbb`, or `r,g,b`.
pub fn parse_color(value: &str) -> (r: Option<TerminalColor>)
    requires
        !color_slicing_panics(crate::text::utf8_bytes(value@)),
    ensures
        r == parse_color_spec(value@),
{
    let bytes = value.as_bytes();
    if bytes.len() > 0 && bytes[0] == 35 {
        let n = bytes.len() - 1;
        if !(n == 6 || n == 8) {
            return None;
        }
        let off: usize = if n == 8 {
            3
        } else {
            1
        };
        let r = hex_pair_exec(bytes[off] as char, bytes[off + 1] as char);
        let g = hex_pair_exec(bytes[off + 2] as char, bytes[off + 3] as char);
        let b = hex_pair_exec(bytes[off + 4] as char, bytes[off + 5] as char);
        return match (r, g, b) {
            (Some(r), Some(g), Some(b)) => Some(TerminalColor::Rgb(r, g, b)),
            _ => None,
        };
    }
    let v = chars_of(value);
    let n = v.len();
    let mut channels: Vec<u8> = Vec::new();
    let mut start: usize = 0;
    let ghost done: Seq<Seq<char>> = Seq::empty();
    assert(v@.skip(0) =~= v@);
    loop
        invariant
            start <= n == v@.len(),
            v@ == value@,
            !(bytes@.len() > 0 && bytes@[0] == 35u8),
            bytes@ == crate::text::utf8_bytes(value@),
            split_all(v@, ',') == done + split_all(v@.skip(start as int), ','),
            channels@.len() == done.len(),
            forall|i: int|
                0 <= i < done.len() ==> parse_unsigned(trim(#[trigger] done[i]), 255) == Some(
                    channels@[i] as nat,
                ),
        decreases n - start,
    {
        let end = find_char_from(v.as_slice(), ',', start);
        proof {
            lemma_split_all_skip(v@, ',', start as int, end as int);
        }
        let field = copy_range(v.as_slice(), start, end);
        let ghost next_done = done.push(field@);
        let ghost later: Seq<Seq<char>> = if end < n {
            split_all(v@.skip(end + 1), ',')
        } else {
            Seq::empty()
        };
        assert(split_all(v@, ',') =~= next_done + later);
        let t = trim_chars(field.as_slice());
        match parse_unsigned_chars(t.as_slice(), 255) {
            Some(c) => {
                channels.push(c as u8);
            },
            None => {
                proof {
                    let all = split_all(v@, ',');
                    assert(all[done.len() as int] == field@);
                    if all.len() == 3 {
                        assert(!(parse_unsigned(trim(all[done.len() as int]), 255) is Some));
                    }
                }
                return None;
            },
        }
        proof {
            if end < n {
                assert(done + split_all(v@.skip(start as int), ',') =~= next_done + split_all(
                    v@.skip(end + 1),
                    ',',
                ));
            } else {
                assert(done + split_all(v@.skip(start as int), ',') =~= next_done);
            }
            done = next_done;
        }
        if end >= n {
            assert(done =~= split_all(v@, ','));
            if channels.len() == 3 {
                return Some(TerminalColor::Rgb(channels[0], channels[1], channels[2]));
            } else {
                return None;
            }
        }
        start = end + 1;
    }
}

/// The colours of the renderer's text and decorations.
#[derive(Debug, Clone, Copy, PartialEq, Eq, Structural)]
pub struct Theme {
    pub text: TerminalColor,
    pub accent: TerminalColor,
    pub accent_muted: TerminalColor,
    pub accent_dim: TerminalColor,
    pub model: TerminalColor,
}

/// The first colour found, or the fallback.
pub open spec fn or_color(a: Option<TerminalColor>, fallback: TerminalColor) -> TerminalColor {
    match a {
        Some(c) => c,
        None => fallback,
    }
}

/// The theme that a colour scheme gives.
pub open spec fn theme_spec(doc: Map<IniKey, Seq<char>>) -> Theme {
    let text = or_color(
        lookup_color(doc, ("Colors:View"@, "ForegroundNormal"@)),
        TerminalColor::Rgb(230, 228, 240),
    );
    let text_muted = match lookup_color(doc, ("Colors:Window"@, "ForegroundNormal"@)) {
        Some(c) => c,
        None => or_color(
            lookup_color(doc, ("Colors:View"@, "ForegroundInactive"@)),
            TerminalColor::Rgb(171, 170, 181),
        ),
    };
    let accent = match lookup_color(doc, ("Colors:Selection"@, "BackgroundNormal"@)) {
        Some(c) => c,
        None => or_color(
            lookup_color(doc, ("Colors:View"@, "DecorationFocus"@)),
            TerminalColor::Rgb(192, 196, 238),
        ),
    };
    let accent_muted = or_color(
        lookup_color(doc, ("Colors:Complementary"@, "ForegroundNormal"@)),
        text_muted,
    );
    let accent_dim = or_color(
        lookup_color(doc, ("Colors:View"@, "DecorationHover"@)),
        TerminalColor::Rgb(88, 92, 130),
    );
    Theme { text, accent, accent_muted, accent_dim, model: accent }
}

/// The colour values that reading a theme consults can be read without
/// panicking. A fallback key is consulted only when the key before it holds no colour.
pub open spec fn theme_readable(doc: Map<IniKey, Seq<char>>) -> bool {
    &&& color_value_readable(doc, ("Colors:View"@, "ForegroundNormal"@))
    &&& color_value_readable(doc, ("Colors:Window"@, "ForegroundNormal"@))
    &&& (lookup_color(doc, ("Colors:Window"@, "ForegroundNormal"@)) is None ==> color_value_readable(
        doc,
        ("Colors:View"@, "ForegroundInactive"@),
    ))
    &&& color_value_readable(doc, ("Colors:Selection"@, "BackgroundNormal"@))
    &&& (lookup_color(doc, ("Colors:Selection"@, "BackgroundNormal"@)) is None
        ==> color_value_readable(doc, ("Colors:View"@, "DecorationFocus"@)))
    &&& color_value_readable(doc, ("Colors:Complementary"@, "ForegroundNormal"@))
    &&& color_value_readable(doc, ("Colors:View"@, "DecorationHover"@))
}

impl Theme {
    /// The theme used when no colour scheme can be read.
    pub fn fallback() -> (r: Self)
        ensures
            r == (Theme {
                text: TerminalColor::Rgb(222, 216, 211),
                accent: TerminalColor::Rgb(181, 34, 62),
                accent_muted: TerminalColor::Rgb(125, 40, 58),
                accent_dim: TerminalColor::Rgb(80, 24, 38),
                model: TerminalColor::Rgb(205, 155, 160),
            }),
    {
        Theme {
            text: TerminalColor::Rgb(222, 216, 211),
            accent: TerminalColor::Rgb(181, 34, 62),
            accent_muted: TerminalColor::Rgb(125, 40, 58),
            accent_dim: TerminalColor::Rgb(80, 24, 38),
            model: TerminalColor::Rgb(205, 155, 160),
        }
    }

    /// Whether reading a theme from `scheme` stays clear of the slicing panic.
    pub fn scheme_is_readable(scheme: &IniDocument) -> (r: bool)
        requires
            scheme.well_formed(),
        ensures
            r == theme_readable(scheme@),
    {
        let a = readable(scheme, "Colors:View", "ForegroundNormal");
        let b = readable(scheme, "Colors:Window", "ForegroundNormal");
        let b_found = b && scheme.color("Colors:Window", "ForegroundNormal").is_some();
        let c = b_found || readable(scheme, "Colors:View", "ForegroundInactive");
        let d = readable(scheme, "Colors:Selection", "BackgroundNormal");
        let d_found = d && scheme.color("Colors:Selection", "BackgroundNormal").is_some();
        let e = d_found || readable(scheme, "Colors:View", "DecorationFocus");
        let f = readable(scheme, "Colors:Complementary", "ForegroundNormal");
        let g = readable(scheme, "Colors:View", "DecorationHover");
        a && b && c && d && e && f && g
    }

    /// The theme that a colour scheme gives, with the built-in colours for
    /// what it does not hold.
    pub fn from_scheme(scheme: &IniDocument) -> (r: Self)
        requires
            scheme.well_formed(),
            theme_readable(scheme@),
        ensures
            r == theme_spec(scheme@),
    {
        let text = match scheme.color("Colors:View", "ForegroundNormal") {
            Some(c) => c,
            None => TerminalColor::Rgb(230, 228, 240),
        };
        let text_muted = match scheme.color("Colors:Window", "ForegroundNormal") {
            Some(c) => c,
            None => match scheme.color("Colors:View", "ForegroundInactive") {
                Some(c) => c,
                None => TerminalColor::Rgb(171, 170, 181),
            },
        };
        let accent = match scheme.color("Colors:Selection", "BackgroundNormal") {
            Some(c) => c,
            None => match scheme.color("Colors:View", "DecorationFocus") {
                Some(c) => c,
                None => TerminalColor::Rgb(192, 196, 238),
            },
        };
        let accent_muted = match scheme.color("Colors:Complementary", "ForegroundNormal") {
            Some(c) => c,
            None => text_muted,
        };
        let accent_dim = match scheme.color("Colors:View", "DecorationHover") {
            Some(c) => c,
            None => TerminalColor::Rgb(88, 92, 130),
        };
        Theme { text, accent, accent_muted, accent_dim, model: accent }
    }
}

/// Whether the value under a key, if any, can be read as a colour.
fn readable(doc: &IniDocument, section: &str, key: &str) -> (r: bool)
    requires
        doc.well_formed(),
    ensures
        r == color_value_readable(doc@, (section@, key@)),
{
    match doc.value(section, key) {
        Some(v) => color_value_is_readable(v),
        None => true,
    }
}

/// Law: every colour that the scheme holds in a readable form is used, and a
/// fallback is used only where the scheme holds none. The text is the view
/// foreground; the muted accent is the complementary foreground, else the
/// window foreground, else the view's inactive foreground; the accent and the
/// model are the selection background, else the view's focus decoration; the
/// dim accent is the view's hover decoration.
pub proof fn law_theme_takes_scheme_colors(doc: Map<IniKey, Seq<char>>)
    ensures
        ({
            let t = theme_spec(doc);
            let view_fg = ("Colors:View"@, "ForegroundNormal"@);
            let window_fg = ("Colors:Window"@, "ForegroundNormal"@);
            let inactive = ("Colors:View"@, "ForegroundInactive"@);
            let selection = ("Colors:Selection"@, "BackgroundNormal"@);
            let focus = ("Colors:View"@, "DecorationFocus"@);
            let complementary = ("Colors:Complementary"@, "ForegroundNormal"@);
            let hover = ("Colors:View"@, "DecorationHover"@);
            let holds = |k: IniKey| doc.contains_key(k) && parse_color_spec(doc[k]) is Some;
            let color = |k: IniKey| parse_color_spec(doc[k])->0;
            &&& holds(view_fg) ==> t.text == color(view_fg)
            &&& !holds(view_fg) ==> t.text == TerminalColor::Rgb(230, 228, 240)
            &&& holds(complementary) ==> t.accent_muted == color(complementary)
            &&& !holds(complementary) && holds(window_fg) ==> t.accent_muted == color(window_fg)
            &&& !holds(complementary) && !holds(window_fg) && holds(inactive) ==> t.accent_muted
                == color(inactive)
            &&& !holds(complementary) && !holds(window_fg) && !holds(inactive) ==> t.accent_muted
                == TerminalColor::Rgb(171, 170, 181)
            &&& holds(selection) ==> t.accent == color(selection)
            &&& !holds(selection) && holds(focus) ==> t.accent == color(focus)
            &&& !holds(selection) && !holds(focus) ==> t.accent == TerminalColor::Rgb(192, 196, 238)
            &&& t.model == t.accent
            &&& holds(hover) ==> t.accent_dim == color(hover)
            &&& !holds(hover) ==> t.accent_dim == TerminalColor::Rgb(88, 92, 130)
        }),
{
}

} // verus!
