//! Renderer settings read from the environment, and the frame-rate window.
use vstd::prelude::*;
use crate::text::{
    decimal, lemma_decimal_reads_back, all_space, ascii_lower, is_space, lemma_trim_padded, chars_of, trim, trim_chars, ascii_lowercase, ascii_lowercase_chars, chars_equal,
    parse_unsigned, parse_unsigned_chars,
};

verus! {

broadcast use vstd::string::group_string_axioms;

/// Whether a flag text turns the flag on: `1`, `true`, `yes` or `on`, after
/// trimming, in any ASCII case.
pub open spec fn is_on_word(value: Seq<char>) -> bool {
    let t = ascii_lowercase(trim(value));
    t == "1"@ || t == "true"@ || t == "yes"@ || t == "on"@
}

/// Reads a renderer flag.
pub fn parse_bool(value: &str) -> (r: bool)
    ensures
        r == is_on_word(value@),
{
    let cs = chars_of(value);
    let t = trim_chars(cs.as_slice());
    let l = ascii_lowercase_chars(t.as_slice());
    let one = chars_of("1");
    let yes_true = chars_of("true");
    let yes = chars_of("yes");
    let on = chars_of("on");
    chars_equal(l.as_slice(), one.as_slice()) || chars_equal(l.as_slice(), yes_true.as_slice())
        || chars_equal(l.as_slice(), yes.as_slice()) || chars_equal(l.as_slice(), on.as_slice())
}

/// A positive grid dimension that `value` holds, or `default`.
pub open spec fn frame_dimension_spec(value: Option<Seq<char>>, default: u16) -> u16 {
    match value {
        Some(s) => match parse_unsigned(s, 65535) {
            Some(n) => if n > 0 {
                n as u16
            } else {
                default
            },
            None => default,
        },
        None => default,
    }
}

/// Reads a dimension of the shared frame grid.
pub fn frame_dimension(value: Option<&str>, default: u16) -> (r: u16)
    ensures
        r == frame_dimension_spec(
            match value {
                Some(s) => Some(s@),
                None => None,
            },
            default,
        ),
{
    match value {
        Some(s) => {
            let cs = chars_of(s);
            match parse_unsigned_chars(cs.as_slice(), 65535) {
                Some(n) => if n > 0 {
                    n as u16
                } else {
                    default
                },
                None => default,
            }
        },
        None => default,
    }
}

/// Longest texture side when none is configured, in pixels.
pub const DEFAULT_MAX_TEXTURE_DIMENSION: u32 = 512;

/// Reads the longest texture side, or 512.
pub fn texture_dimension(value: Option<&str>) -> (r: u32)
    ensures
        r == match value {
            Some(s) => match parse_unsigned(s@, u32::MAX as nat) {
                Some(n) => n as u32,
                None => DEFAULT_MAX_TEXTURE_DIMENSION,
            },
            None => DEFAULT_MAX_TEXTURE_DIMENSION,
        },
{
    match value {
        Some(s) => {
            let cs = chars_of(s);
            match parse_unsigned_chars(cs.as_slice(), u32::MAX as u64) {
                Some(n) => n as u32,
                None => DEFAULT_MAX_TEXTURE_DIMENSION,
            }
        },
        None => DEFAULT_MAX_TEXTURE_DIMENSION,
    }
}

/// The animation to play: none for a model without animations, otherwise
/// the requested one, or the last when the index is past the end.
pub fn selected_animation(count: usize, index: usize) -> (r: Option<usize>)
    ensures
        count == 0 ==> r is None,
        count > 0 ==> r == Some(if index < count {
            index
        } else {
            (count - 1) as usize
        }),
{
    if count == 0 {
        None
    } else if index < count - 1 {
        Some(index)
    } else {
        Some(count - 1)
    }
}

/// Length of a frame-rate sample, in nanoseconds.
pub const FPS_SAMPLE_NANOS: u64 = 500_000_000;

/// A completed frame-rate sample: frames counted over a span of time.
#[derive(Debug, Clone, Copy, PartialEq, Eq, Structural)]
pub struct FpsSample {
    pub frames: u32,
    pub elapsed_nanos: u64,
}

/// Counts frames in windows of at least half a second.
pub struct FpsWindow {
    window_started: Option<u64>,
    frames: u32,
}

impl FpsWindow {
    pub closed spec fn started(&self) -> Option<u64> {
        self.window_started
    }

    pub closed spec fn frames(&self) -> u32 {
        self.frames
    }

    /// No window started yet.
    pub fn new() -> (r: Self)
        ensures
            r.started() is None,
            r.frames() == 0,
    {
        FpsWindow { window_started: None, frames: 0 }
    }

    /// The frames counted in the current window.
    pub fn frame_count(&self) -> (r: u32)
        ensures
            r == self.frames(),
    {
        self.frames
    }

    /// Records a frame drawn at `now` (nanoseconds on a monotonic clock).
    /// The first frame starts the window; each later one is counted, and once
    /// half a second has passed the window ends with a sample and restarts.
    pub fn record_frame(&mut self, now: u64) -> (r: Option<FpsSample>)
        requires
            old(self).frames() < u32::MAX,
        ensures
            match old(self).started() {
                None => r is None && final(self).started() == Some(now) && final(self).frames()
                    == old(self).frames(),
                Some(start) => {
                    let elapsed = if now >= start {
                        now - start
                    } else {
                        0
                    };
                    if elapsed >= FPS_SAMPLE_NANOS {
                        &&& r == Some(
                            FpsSample {
                                frames: (old(self).frames() + 1) as u32,
                                elapsed_nanos: elapsed as u64,
                            },
                        )
                        &&& final(self).frames() == 0
                        &&& final(self).started() == Some(now)
                    } else {
                        &&& r is None
                        &&& final(self).frames() == old(self).frames() + 1
                        &&& final(self).started() == old(self).started()
                    }
                },
            },
    {
        match self.window_started {
            None => {
                self.window_started = Some(now);
                None
            },
            Some(start) => {
                self.frames = self.frames + 1;
                let elapsed = if now >= start {
                    now - start
                } else {
                    0
                };
                if elapsed >= FPS_SAMPLE_NANOS {
                    let sample = FpsSample { frames: self.frames, elapsed_nanos: elapsed };
                    self.frames = 0;
                    self.window_started = Some(now);
                    Some(sample)
                } else {
                    None
                }
            },
        }
    }
}

/// Whether `v` spells `word` in some mix of ASCII upper and lower case.
pub open spec fn spells_in_any_case(v: Seq<char>, word: Seq<char>) -> bool {
    &&& v.len() == word.len()
    &&& forall|i: int| 0 <= i < v.len() ==> ascii_lower(#[trigger] v[i]) == word[i]
}

proof fn lemma_reads_word(before: Seq<char>, v: Seq<char>, after: Seq<char>, word: Seq<char>)
    requires
        all_space(before),
        all_space(after),
        spells_in_any_case(v, word),
        word.len() > 0,
        !is_space(word[0]),
        !is_space(word.last()),
        'a' <= word[0] <= 'z' || '0' <= word[0] <= '9',
        'a' <= word.last() <= 'z' || '0' <= word.last() <= '9',
    ensures
        ascii_lowercase(trim(before + v + after)) == word,
{
    assert(ascii_lower(v[0]) == word[0]);
    assert(ascii_lower(v[v.len() - 1]) == word[word.len() - 1]);
    lemma_trim_padded(before, v, after);
    assert(ascii_lowercase(v) =~= word);
}

/// Law: each of `1`, `true`, `yes` and `on`, in any ASCII case and with any
/// white space around it, turns a flag on; each of `0`, `false`, `no` and
/// `off` read the same way leaves it off.
pub proof fn law_flag_words(before: Seq<char>, v: Seq<char>, after: Seq<char>, word: Seq<char>)
    requires
        all_space(before),
        all_space(after),
        spells_in_any_case(v, word),
        word == "1"@ || word == "true"@ || word == "yes"@ || word == "on"@ || word == "0"@ || word
            == "false"@ || word == "no"@ || word == "off"@,
    ensures
        is_on_word(before + v + after) <==> (word == "1"@ || word == "true"@ || word == "yes"@
            || word == "on"@),
{
    reveal_strlit("1");
    reveal_strlit("true");
    reveal_strlit("yes");
    reveal_strlit("on");
    reveal_strlit("0");
    reveal_strlit("false");
    reveal_strlit("no");
    reveal_strlit("off");
    lemma_reads_word(before, v, after, word);
    let t = ascii_lowercase(trim(before + v + after));
    assert(t == word);
    let on_words = word == "1"@ || word == "true"@ || word == "yes"@ || word == "on"@;
    if !on_words {
        assert(word == "0"@ || word == "false"@ || word == "no"@ || word == "off"@);
        assert(word != "1"@ && word != "true"@ && word != "yes"@) by {
            if word == "0"@ {
                assert(word[0] != "1"@[0]);
                assert(word.len() != "true"@.len() && word.len() != "yes"@.len());
            } else if word == "false"@ {
                assert(word.len() != "1"@.len() && word.len() != "true"@.len() && word.len() != "yes"@.len());
            } else if word == "no"@ {
                assert(word.len() != "1"@.len() && word.len() != "true"@.len() && word.len() != "yes"@.len());
            } else {
                assert(word.len() != "1"@.len() && word.len() != "true"@.len());
                assert(word[0] != "yes"@[0]);
            }
        }
        assert(word != "on"@) by {
            if word == "no"@ {
                assert(word[0] != "on"@[0]);
            } else {
                assert(word.len() != "on"@.len());
            }
        }
    }
}

/// Law: a grid dimension written in decimal is used when it is from 1 to
/// 65535; zero, a larger number or no value gives the default.
pub proof fn law_frame_dimension(n: nat, default: u16)
    ensures
        frame_dimension_spec(Some(decimal(n)), default) == if 1 <= n <= 65535 {
            n as u16
        } else {
            default
        },
        frame_dimension_spec(None, default) == default,
{
    lemma_decimal_reads_back(n);
    if n <= 65535 {
        assert(parse_unsigned(decimal(n), 65535) == Some(n));
    } else {
        assert(parse_unsigned(decimal(n), 65535) is None);
    }
}

} // verus!
