//! Command canvases: validated settings for running one program in the
//! terminal, and the supervisor's decisions between runs.
//!
//! Reading the environment, spawning, waiting, sleeping and printing are the
//! caller's work; this module turns what was read into settings, and what
//! happened into the next action.
use vstd::prelude::*;
use crate::text::{
    lemma_decimal_reads_back, all_space, is_space, lemma_first_index_unique, lemma_trim_padded, trim_end, trim_start, chars_of, string_from_chars, trim, trim_chars, split_once, split_once_chars, split_all,
    lemma_split_all_skip, find_char_from, copy_range, parse_unsigned, parse_unsigned_chars, chars_equal,
    push_str, push_all, push_decimal, decimal,
};

verus! {

broadcast use vstd::string::group_string_axioms;

/// Longest interval, timeout, or delay, in seconds.
pub const MAX_DELAY_SECONDS: u64 = 86_400;

/// Interval between periodic runs when none is configured, in seconds.
pub const DEFAULT_INTERVAL_SECONDS: u64 = 30;

/// A run at least this long resets the count of rapid failures, in seconds.
pub const STABLE_RUN_SECONDS: u64 = 30;

/// Longest delay before a restart, in seconds.
pub const MAX_RESTART_DELAY_SECONDS: u64 = 30;

/// What happens after the command exits.
#[derive(Debug, Clone, Copy, PartialEq, Eq, Structural)]
pub enum ExitBehavior {
    KeepOutput,
    Interval,
    Restart,
}

/// Why a command canvas cannot run, or how a run failed.
#[derive(Debug, Clone, PartialEq, Eq)]
pub enum CommandCanvasError {
    NoProgram,
    InvalidArguments(String),
    InvalidEnvironmentEntry(String),
    InvalidEnvironmentName(String),
    MissingWorkingDirectory(String),
    UnknownExitBehavior(String),
    StartFailed { program: String, detail: String },
    WaitFailed(String),
    InspectFailed(String),
    KillFailed { timeout_seconds: u64, detail: String },
    TimedOut { timeout_seconds: u64 },
    Exited { code: Option<i32> },
    ClearFailed(String),
}

/// The model of a [`CommandCanvasError`]: its texts as character sequences.
pub enum CanvasFault {
    NoProgram,
    InvalidArguments(Seq<char>),
    InvalidEnvironmentEntry(Seq<char>),
    InvalidEnvironmentName(Seq<char>),
    MissingWorkingDirectory(Seq<char>),
    UnknownExitBehavior(Seq<char>),
    StartFailed(Seq<char>, Seq<char>),
    WaitFailed(Seq<char>),
    InspectFailed(Seq<char>),
    KillFailed(u64, Seq<char>),
    TimedOut(u64),
    Exited(Option<i32>),
    ClearFailed(Seq<char>),
}

impl View for CommandCanvasError {
    type V = CanvasFault;

    open spec fn view(&self) -> CanvasFault {
        match self {
            CommandCanvasError::NoProgram => CanvasFault::NoProgram,
            CommandCanvasError::InvalidArguments(s) => CanvasFault::InvalidArguments(s@),
            CommandCanvasError::InvalidEnvironmentEntry(s) => CanvasFault::InvalidEnvironmentEntry(
                s@,
            ),
            CommandCanvasError::InvalidEnvironmentName(s) => CanvasFault::InvalidEnvironmentName(
                s@,
            ),
            CommandCanvasError::MissingWorkingDirectory(s) => CanvasFault::MissingWorkingDirectory(
                s@,
            ),
            CommandCanvasError::UnknownExitBehavior(s) => CanvasFault::UnknownExitBehavior(s@),
            CommandCanvasError::StartFailed { program, detail } => CanvasFault::StartFailed(
                program@,
                detail@,
            ),
            CommandCanvasError::WaitFailed(s) => CanvasFault::WaitFailed(s@),
            CommandCanvasError::InspectFailed(s) => CanvasFault::InspectFailed(s@),
            CommandCanvasError::KillFailed { timeout_seconds, detail } => CanvasFault::KillFailed(
                *timeout_seconds,
                detail@,
            ),
            CommandCanvasError::TimedOut { timeout_seconds } => CanvasFault::TimedOut(
                *timeout_seconds,
            ),
            CommandCanvasError::Exited { code } => CanvasFault::Exited(*code),
            CommandCanvasError::ClearFailed(s) => CanvasFault::ClearFailed(s@),
        }
    }
}

/// The decimal text of a signed integer.
pub open spec fn signed_decimal(n: int) -> Seq<char> {
    if n < 0 {
        seq!['-'] + decimal((-n) as nat)
    } else {
        decimal(n as nat)
    }
}

/// How an exit is described: `status N`, or `a signal` when there is no code.
pub open spec fn exit_text(code: Option<i32>) -> Seq<char> {
    match code {
        Some(c) => "status "@ + signed_decimal(c as int),
        None => "a signal"@,
    }
}

/// The plain-language text shown for a fault.
pub open spec fn fault_message(f: CanvasFault) -> Seq<char> {
    match f {
        CanvasFault::NoProgram => "command canvas has no program; configure one in the widget settings"@,
        CanvasFault::InvalidArguments(d) => "command arguments could not be decoded as a JSON array: "@
            + d,
        CanvasFault::InvalidEnvironmentEntry(l) => "invalid environment entry `"@ + l
            + "`; expected NAME=VALUE"@,
        CanvasFault::InvalidEnvironmentName(n) => "invalid environment variable name `"@ + n + "`"@,
        CanvasFault::MissingWorkingDirectory(p) => "command working directory does not exist: "@
            + p,
        CanvasFault::UnknownExitBehavior(v) => "unknown command exit behavior `"@ + v + "`"@,
        CanvasFault::StartFailed(p, d) => "could not start command `"@ + p + "`: "@ + d,
        CanvasFault::WaitFailed(d) => "could not wait for command: "@ + d,
        CanvasFault::InspectFailed(d) => "could not inspect command status: "@ + d,
        CanvasFault::KillFailed(t, d) => "command exceeded its "@ + decimal(t as nat)
            + " second timeout and could not be stopped: "@ + d,
        CanvasFault::TimedOut(t) => "command exceeded its "@ + decimal(t as nat)
            + " second timeout"@,
        CanvasFault::Exited(code) => "command exited with "@ + exit_text(code),
        CanvasFault::ClearFailed(d) => "could not clear the terminal: "@ + d,
    }
}

/// Appends the decimal text of a signed integer.
fn push_signed_decimal(out: &mut Vec<char>, n: i32)
    ensures
        final(out)@ == old(out)@ + signed_decimal(n as int),
{
    if n < 0 {
        out.push('-');
        let magnitude: u64 = (0i64 - (n as i64)) as u64;
        push_decimal(out, magnitude);
        assert(final(out)@ =~= old(out)@ + (seq!['-'] + decimal(magnitude as nat)));
    } else {
        push_decimal(out, n as u64);
    }
}

/// Appends how an exit is described.
fn push_exit_text(out: &mut Vec<char>, code: Option<i32>)
    ensures
        final(out)@ == old(out)@ + exit_text(code),
{
    match code {
        Some(c) => {
            push_str(out, "status ");
            push_signed_decimal(out, c);
            assert(final(out)@ =~= old(out)@ + ("status "@ + signed_decimal(c as int)));
        },
        None => {
            push_str(out, "a signal");
        },
    }
}

/// The description of how a command exited: `status N`, or `a signal`.
pub fn exit_description(status: ExitStatusSummary) -> (r: String)
    ensures
        r@ == exit_text(status.code),
{
    let mut out: Vec<char> = Vec::new();
    push_exit_text(&mut out, status.code);
    assert(out@ =~= exit_text(status.code));
    string_from_chars(out.as_slice())
}

impl CommandCanvasError {
    /// The plain-language text shown for this error.
    pub fn message(&self) -> (r: String)
        ensures
            r@ == fault_message(self@),
    {
        let mut out: Vec<char> = Vec::new();
        match self {
            CommandCanvasError::NoProgram => {
                push_str(
                    &mut out,
                    "command canvas has no program; configure one in the widget settings",
                );
            },
            CommandCanvasError::InvalidArguments(d) => {
                push_str(&mut out, "command arguments could not be decoded as a JSON array: ");
                push_text(&mut out, d);
            },
            CommandCanvasError::InvalidEnvironmentEntry(l) => {
                push_str(&mut out, "invalid environment entry `");
                push_text(&mut out, l);
                push_str(&mut out, "`; expected NAME=VALUE");
            },
            CommandCanvasError::InvalidEnvironmentName(n) => {
                push_str(&mut out, "invalid environment variable name `");
                push_text(&mut out, n);
                push_str(&mut out, "`");
            },
            CommandCanvasError::MissingWorkingDirectory(p) => {
                push_str(&mut out, "command working directory does not exist: ");
                push_text(&mut out, p);
            },
            CommandCanvasError::UnknownExitBehavior(v) => {
                push_str(&mut out, "unknown command exit behavior `");
                push_text(&mut out, v);
                push_str(&mut out, "`");
            },
            CommandCanvasError::StartFailed { program, detail } => {
                push_str(&mut out, "could not start command `");
                push_text(&mut out, program);
                push_str(&mut out, "`: ");
                push_text(&mut out, detail);
            },
            CommandCanvasError::WaitFailed(d) => {
                push_str(&mut out, "could not wait for command: ");
                push_text(&mut out, d);
            },
            CommandCanvasError::InspectFailed(d) => {
                push_str(&mut out, "could not inspect command status: ");
                push_text(&mut out, d);
            },
            CommandCanvasError::KillFailed { timeout_seconds, detail } => {
                push_str(&mut out, "command exceeded its ");
                push_decimal(&mut out, *timeout_seconds);
                push_str(&mut out, " second timeout and could not be stopped: ");
                push_text(&mut out, detail);
            },
            CommandCanvasError::TimedOut { timeout_seconds } => {
                push_str(&mut out, "command exceeded its ");
                push_decimal(&mut out, *timeout_seconds);
                push_str(&mut out, " second timeout");
            },
            CommandCanvasError::Exited { code } => {
                push_str(&mut out, "command exited with ");
                push_exit_text(&mut out, *code);
            },
            CommandCanvasError::ClearFailed(d) => {
                push_str(&mut out, "could not clear the terminal: ");
                push_text(&mut out, d);
            },
        }
        assert(out@ =~= fault_message(self@));
        string_from_chars(out.as_slice())
    }
}

/// Appends the characters of a `String`.
fn push_text(out: &mut Vec<char>, s: &String)
    ensures
        final(out)@ == old(out)@ + s@,
{
    push_str(out, s.as_str());
}

// ---------------------------------------------------------------------------
// Arguments

/// What `serde_json` gives for `text` read as a JSON array of strings: the
/// strings, or the text of its error as the error's `Display` impl writes it.
pub uninterp spec fn json_string_array(text: Seq<char>) -> Result<Seq<Seq<char>>, Seq<char>>;

/// The JSON text of an empty array.
pub open spec fn empty_array_text() -> Seq<char> {
    seq!['[', ']']
}

/// Calls `serde_json::from_str::<Vec<String>>` and turns its error into its
/// `Display` text. The contract claims that the outcome is the one that
/// `json_string_array` names: the strings in order, or the error's text; and
/// that the empty array `[]` gives no strings.
#[verifier::external_body]
fn json_strings_from_str(text: &str) -> (r: Result<Vec<String>, String>)
    ensures
        r is Ok <==> json_string_array(text@) is Ok,
        r matches Ok(v) ==> v@.map_values(|s: String| s@) == json_string_array(text@)->Ok_0,
        r matches Err(m) ==> m@ == json_string_array(text@)->Err_0,
        r is Err ==> text@ != empty_array_text(),
        r matches Ok(v) ==> (text@ == empty_array_text() ==> v@.len() == 0),
{
    match serde_json::from_str::<Vec<String>>(text) {
        Ok(v) => Ok(v),
        Err(error) => Err(error.to_string()),
    }
}

/// Turns the result of decoding (the strings, or the decoder's error text)
/// into the arguments or the error shown for them.
pub fn arguments_from_decoded(decoded: Result<Vec<String>, String>) -> (r: Result<
    Vec<String>,
    CommandCanvasError,
>)
    ensures
        decoded is Ok <==> r is Ok,
        decoded matches Ok(v) ==> r == Ok::<Vec<String>, CommandCanvasError>(v),
        decoded matches Err(m) ==> (r matches Err(e) && e@ == CanvasFault::InvalidArguments(m@)),
{
    match decoded {
        Ok(v) => Ok(v),
        Err(m) => Err(CommandCanvasError::InvalidArguments(m)),
    }
}

/// Decodes the program arguments from a JSON array of strings.
pub fn parse_arguments(value: &str) -> (r: Result<Vec<String>, CommandCanvasError>)
    ensures
        r is Ok <==> json_string_array(value@) is Ok,
        r matches Ok(v) ==> v@.map_values(|s: String| s@) == json_string_array(value@)->Ok_0,
        r matches Err(e) ==> e@ == CanvasFault::InvalidArguments(json_string_array(value@)->Err_0),
{
    arguments_from_decoded(json_strings_from_str(value))
}

// ---------------------------------------------------------------------------
// Environment

/// A character that may start an environment variable name.
pub open spec fn is_name_start(c: char) -> bool {
    c == '_' || ('a' <= c && c <= 'z') || ('A' <= c && c <= 'Z')
}

/// A character that may continue an environment variable name.
pub open spec fn is_name_char(c: char) -> bool {
    is_name_start(c) || ('0' <= c && c <= '9')
}

/// A name of letters, digits and `_` that does not start with a digit.
pub open spec fn valid_name(name: Seq<char>) -> bool {
    &&& name.len() > 0
    &&& is_name_start(name[0])
    &&& forall|i: int| 1 <= i < name.len() ==> is_name_char(#[trigger] name[i])
}

fn valid_name_chars(name: &[char]) -> (r: bool)
    ensures
        r == valid_name(name@),
{
    if name.len() == 0 {
        return false;
    }
    let c = name[0];
    if !(c == '_' || ('a' <= c && c <= 'z') || ('A' <= c && c <= 'Z')) {
        return false;
    }
    let mut i: usize = 1;
    while i < name.len()
        invariant
            1 <= i <= name@.len(),
            forall|k: int| 1 <= k < i ==> is_name_char(#[trigger] name@[k]),
        decreases name.len() - i,
    {
        let c = name[i];
        if !(c == '_' || ('a' <= c && c <= 'z') || ('A' <= c && c <= 'Z') || ('0' <= c && c
            <= '9')) {
            assert(!is_name_char(name@[i as int]));
            return false;
        }
        i = i + 1;
    }
    true
}

/// Whether `name` may name an environment variable.
pub fn valid_environment_name(name: &str) -> (r: bool)
    ensures
        r == valid_name(name@),
{
    let cs = chars_of(name);
    valid_name_chars(cs.as_slice())
}

/// The outcome of reading environment entries from some lines: the entries,
/// or the error of the first line that is not `NAME=VALUE` with a valid name.
/// Blank lines are skipped; each line is trimmed; the value is what follows
/// the first `=`.
pub open spec fn environment_from_lines(lines: Seq<Seq<char>>) -> Result<
    Seq<(Seq<char>, Seq<char>)>,
    CanvasFault,
>
    decreases lines.len(),
{
    if lines.len() == 0 {
        Ok(Seq::empty())
    } else {
        let line = trim(lines[0]);
        let rest = environment_from_lines(lines.drop_first());
        if line.len() == 0 {
            rest
        } else {
            match split_once(line, '=') {
                None => Err(CanvasFault::InvalidEnvironmentEntry(line)),
                Some((name, value)) => if !valid_name(name) {
                    Err(CanvasFault::InvalidEnvironmentName(name))
                } else {
                    match rest {
                        Ok(entries) => Ok(seq![(name, value)] + entries),
                        Err(f) => Err(f),
                    }
                },
            }
        }
    }
}

/// What [`parse_environment`] gives back for `text`. The text is split at
/// line feeds; since every line is trimmed, this agrees with `str::lines`.
pub open spec fn environment_spec(text: Seq<char>) -> Result<
    Seq<(Seq<char>, Seq<char>)>,
    CanvasFault,
> {
    environment_from_lines(split_all(text, '\n'))
}

/// The view of parsed environment entries.
pub open spec fn entries_view(v: Seq<(String, String)>) -> Seq<(Seq<char>, Seq<char>)> {
    v.map_values(|e: (String, String)| (e.0@, e.1@))
}

/// Prefixes the entries of an outcome, keeping an error as it is.
pub open spec fn prepend_entries(
    done: Seq<(Seq<char>, Seq<char>)>,
    r: Result<Seq<(Seq<char>, Seq<char>)>, CanvasFault>,
) -> Result<Seq<(Seq<char>, Seq<char>)>, CanvasFault> {
    match r {
        Ok(e) => Ok(done + e),
        Err(f) => Err(f),
    }
}

/// Reads `NAME=VALUE` entries, one per line.
pub fn parse_environment(value: &str) -> (r: Result<Vec<(String, String)>, CommandCanvasError>)
    ensures
        match r {
            Ok(v) => environment_spec(value@) == Ok::<_, CanvasFault>(entries_view(v@)),
            Err(e) => environment_spec(value@) == Err::<Seq<(Seq<char>, Seq<char>)>, _>(e@),
        },
{
    let text = chars_of(value);
    let n = text.len();
    let mut entries: Vec<(String, String)> = Vec::new();
    let mut start: usize = 0;
    assert(text@.skip(0) =~= text@);
    loop
        invariant
            start <= n == text@.len(),
            text@ == value@,
            environment_spec(value@) == prepend_entries(
                entries_view(entries@),
                environment_from_lines(split_all(text@.skip(start as int), '\n')),
            ),
        decreases n - start,
    {
        let end = find_char_from(text.as_slice(), '\n', start);
        proof {
            lemma_split_all_skip(text@, '\n', start as int, end as int);
        }
        let ghost lines = split_all(text@.skip(start as int), '\n');
        let ghost later: Seq<Seq<char>> = if end < n {
            split_all(text@.skip(end + 1), '\n')
        } else {
            Seq::empty()
        };
        assert(lines.drop_first() =~= later);
        let raw = copy_range(text.as_slice(), start, end);
        let line = trim_chars(raw.as_slice());
        if line.len() > 0 {
            match split_once_chars(line.as_slice(), '=') {
                None => {
                    return Err(
                        CommandCanvasError::InvalidEnvironmentEntry(
                            string_from_chars(line.as_slice()),
                        ),
                    );
                },
                Some((name, val)) => {
                    if !valid_name_chars(name.as_slice()) {
                        return Err(
                            CommandCanvasError::InvalidEnvironmentName(
                                string_from_chars(name.as_slice()),
                            ),
                        );
                    }
                    let ghost before = entries_view(entries@);
                    let entry = (string_from_chars(name.as_slice()), string_from_chars(val.as_slice()));
                    entries.push(entry);
                    proof {
                        assert(entries_view(entries@) =~= before + seq![(name@, val@)]);
                        let rest = environment_from_lines(later);
                        match rest {
                            Ok(e) => {
                                assert(before + (seq![(name@, val@)] + e) =~= before + seq![
                                    (name@, val@),
                                ] + e);
                            },
                            Err(f) => {},
                        }
                    }
                },
            }
        }
        if end >= n {
            proof {
                assert(environment_from_lines(Seq::<Seq<char>>::empty()) == Ok::<
                    Seq<(Seq<char>, Seq<char>)>,
                    CanvasFault,
                >(Seq::empty()));
                assert(entries_view(entries@) + Seq::<(Seq<char>, Seq<char>)>::empty()
                    =~= entries_view(entries@));
            }
            return Ok(entries);
        }
        start = end + 1;
    }
}

// ---------------------------------------------------------------------------
// Working directory, exit behaviour, numbers and flags

/// The working directory: none when the trimmed value is empty, the trimmed
/// value when `is_directory` says that it names a directory, and an error
/// otherwise. `is_directory` is what the file system said of the trimmed value.
pub fn optional_directory(value: &str, is_directory: bool) -> (r: Result<
    Option<String>,
    CommandCanvasError,
>)
    ensures
        trim(value@).len() == 0 ==> r == Ok::<Option<String>, CommandCanvasError>(None),
        trim(value@).len() > 0 && is_directory ==> (r matches Ok(Some(p)) && p@ == trim(value@)),
        trim(value@).len() > 0 && !is_directory ==> (r matches Err(e)
            && e@ == CanvasFault::MissingWorkingDirectory(trim(value@))),
{
    let cs = chars_of(value);
    let t = trim_chars(cs.as_slice());
    if t.len() == 0 {
        return Ok(None);
    }
    let path = string_from_chars(t.as_slice());
    if !is_directory {
        return Err(CommandCanvasError::MissingWorkingDirectory(path));
    }
    Ok(Some(path))
}

/// What [`parse_exit_behavior`] gives back.
pub open spec fn exit_behavior_spec(value: Seq<char>) -> Result<ExitBehavior, CanvasFault> {
    let t = trim(value);
    if t == Seq::<char>::empty() || t == "keep-output"@ {
        Ok(ExitBehavior::KeepOutput)
    } else if t == "interval"@ {
        Ok(ExitBehavior::Interval)
    } else if t == "restart"@ {
        Ok(ExitBehavior::Restart)
    } else {
        Err(CanvasFault::UnknownExitBehavior(t))
    }
}

/// Reads the exit behaviour: empty or `keep-output`, `interval`, `restart`.
pub fn parse_exit_behavior(value: &str) -> (r: Result<ExitBehavior, CommandCanvasError>)
    ensures
        match r {
            Ok(b) => exit_behavior_spec(value@) == Ok::<ExitBehavior, CanvasFault>(b),
            Err(e) => exit_behavior_spec(value@) == Err::<ExitBehavior, CanvasFault>(e@),
        },
{
    let cs = chars_of(value);
    let t = trim_chars(cs.as_slice());
    let keep = chars_of("keep-output");
    let interval = chars_of("interval");
    let restart = chars_of("restart");
    if t.len() == 0 {
        assert(t@ =~= Seq::<char>::empty());
        Ok(ExitBehavior::KeepOutput)
    } else if chars_equal(t.as_slice(), keep.as_slice()) {
        Ok(ExitBehavior::KeepOutput)
    } else if chars_equal(t.as_slice(), interval.as_slice()) {
        Ok(ExitBehavior::Interval)
    } else if chars_equal(t.as_slice(), restart.as_slice()) {
        Ok(ExitBehavior::Restart)
    } else {
        Err(CommandCanvasError::UnknownExitBehavior(string_from_chars(t.as_slice())))
    }
}

/// `v` clamped to `[lo, hi]`.
pub open spec fn clamp(v: int, lo: int, hi: int) -> int {
    if v < lo {
        lo
    } else if v > hi {
        hi
    } else {
        v
    }
}

/// The number of seconds that `value` holds, `default` when it holds none,
/// clamped to `[minimum, 86_400]`.
pub open spec fn bounded_seconds_spec(value: Option<Seq<char>>, default: u64, minimum: u64) -> int {
    let v: int = match value {
        Some(s) => match parse_unsigned(s, u64::MAX as nat) {
            Some(n) => n as int,
            None => default as int,
        },
        None => default as int,
    };
    clamp(v, minimum as int, MAX_DELAY_SECONDS as int)
}

/// Reads a number of seconds, falling back to `default` and clamping to
/// `[minimum, 86_400]`.
pub fn bounded_seconds(value: Option<&str>, default: u64, minimum: u64) -> (r: u64)
    requires
        minimum <= MAX_DELAY_SECONDS,
    ensures
        r == bounded_seconds_spec(
            match value {
                Some(s) => Some(s@),
                None => None,
            },
            default,
            minimum,
        ),
        minimum <= r <= MAX_DELAY_SECONDS,
{
    let v: u64 = match value {
        Some(s) => {
            let cs = chars_of(s);
            match parse_unsigned_chars(cs.as_slice(), u64::MAX) {
                Some(n) => n,
                None => default,
            }
        },
        None => default,
    };
    if v < minimum {
        minimum
    } else if v > MAX_DELAY_SECONDS {
        MAX_DELAY_SECONDS
    } else {
        v
    }
}

/// Whether a trimmed flag text turns the flag off.
pub open spec fn is_off_word(t: Seq<char>) -> bool {
    t == "0"@ || t == "false"@ || t == "no"@ || t == "off"@
}

/// Reads a flag: absent gives `default`; `0`, `false`, `no` and `off`
/// (after trimming) turn it off; anything else turns it on.
pub fn parse_bool(value: Option<&str>, default: bool) -> (r: bool)
    ensures
        match value {
            None => r == default,
            Some(s) => r == !is_off_word(trim(s@)),
        },
{
    match value {
        None => default,
        Some(s) => {
            let cs = chars_of(s);
            let t = trim_chars(cs.as_slice());
            let zero = chars_of("0");
            let no_false = chars_of("false");
            let no = chars_of("no");
            let off = chars_of("off");
            !(chars_equal(t.as_slice(), zero.as_slice()) || chars_equal(
                t.as_slice(),
                no_false.as_slice(),
            ) || chars_equal(t.as_slice(), no.as_slice()) || chars_equal(
                t.as_slice(),
                off.as_slice(),
            ))
        },
    }
}

/// Law: the exit behaviour is read from the trimmed text: blank text and
/// `keep-output` keep the output, `interval` and `restart` choose those, and
/// any other word is refused with that word.
pub proof fn law_exit_behaviors(before: Seq<char>, word: Seq<char>, after: Seq<char>)
    requires
        all_space(before),
        all_space(after),
        word.len() > 0,
        !is_space(word[0]),
        !is_space(word.last()),
    ensures
        exit_behavior_spec(before + after) == Ok::<ExitBehavior, CanvasFault>(ExitBehavior::KeepOutput),
        exit_behavior_spec(before + word + after) == if word == "keep-output"@ {
            Ok::<ExitBehavior, CanvasFault>(ExitBehavior::KeepOutput)
        } else if word == "interval"@ {
            Ok(ExitBehavior::Interval)
        } else if word == "restart"@ {
            Ok(ExitBehavior::Restart)
        } else {
            Err(CanvasFault::UnknownExitBehavior(word))
        },
{
    lemma_trim_padded(before, word, after);
    lemma_all_space_trims_away(before + after);
}

/// Text of white space alone trims to nothing.
proof fn lemma_all_space_trims_away(s: Seq<char>)
    requires
        all_space(s),
    ensures
        trim(s) == Seq::<char>::empty(),
    decreases s.len(),
{
    if s.len() > 0 {
        assert(is_space(s[0]));
        assert(all_space(s.drop_first())) by {
            assert forall|i: int| 0 <= i < s.drop_first().len() implies is_space(
                #[trigger] s.drop_first()[i],
            ) by {
                assert(s.drop_first()[i] == s[i + 1]);
            }
        }
        lemma_all_space_trims_away(s.drop_first());
        assert(trim_start(s) == trim_start(s.drop_first()));
    } else {
        assert(trim_start(s) == s);
        assert(trim_end(s) == s);
        assert(s =~= Seq::<char>::empty());
    }
}

/// Law: an environment line `NAME=VALUE` with a valid name, and white space
/// around it, gives the entry `(NAME, VALUE)` ahead of the entries of the
/// lines after it (the value may hold `=`); a blank line gives nothing; a
/// line with an invalid name is refused with that name, whatever follows.
pub proof fn law_environment_lines(
    before: Seq<char>,
    name: Seq<char>,
    value: Seq<char>,
    after: Seq<char>,
    rest: Seq<Seq<char>>,
)
    requires
        all_space(before),
        all_space(after),
        forall|k: int| 0 <= k < name.len() ==> name[k] != '=',
        name.len() > 0,
        !is_space(name[0]),
        value.len() == 0 || !is_space(value.last()),
    ensures
        valid_name(name) ==> environment_from_lines(seq![before + name + "="@ + value + after]
            + rest) == match environment_from_lines(rest) {
            Ok(entries) => Ok(seq![(name, value)] + entries),
            Err(f) => Err(f),
        },
        !valid_name(name) ==> environment_from_lines(seq![before + name + "="@ + value + after]
            + rest) == Err::<Seq<(Seq<char>, Seq<char>)>, CanvasFault>(
            CanvasFault::InvalidEnvironmentName(name),
        ),
        environment_from_lines(seq![before + after] + rest) == environment_from_lines(rest),
{
    reveal_strlit("=");
    let entry = name + "="@ + value;
    assert(entry[name.len() as int] == '=');
    assert(entry[0] == name[0]);
    assert(entry.last() == if value.len() == 0 {
        '='
    } else {
        value.last()
    });
    assert(before + name + "="@ + value + after =~= before + entry + after);
    lemma_trim_padded(before, entry, after);
    assert forall|k: int| 0 <= k < name.len() implies entry[k] != '=' by {
        assert(entry[k] == name[k]);
    }
    lemma_first_index_unique(entry, '=', name.len() as int);
    assert(entry.take(name.len() as int) =~= name);
    assert(entry.skip(name.len() as int + 1) =~= value);
    let lines = seq![before + name + "="@ + value + after] + rest;
    assert(lines.drop_first() =~= rest);
    lemma_all_space_trims_away(before + after);
    let blank = seq![before + after] + rest;
    assert(blank.drop_first() =~= rest);
}

/// Law: a number of seconds written in decimal is used, raised to `minimum`
/// and lowered to a day; no value, or a number beyond `u64`, gives the
/// default, bounded the same way.
pub proof fn law_bounded_seconds(n: nat, default: u64, minimum: u64)
    ensures
        bounded_seconds_spec(Some(decimal(n)), default, minimum) == ({
            let v: int = if n <= u64::MAX {
                n as int
            } else {
                default as int
            };
            if v < minimum {
                minimum as int
            } else if v > 86_400 {
                86_400
            } else {
                v
            }
        }),
        bounded_seconds_spec(None, default, minimum) == (if default < minimum {
            minimum as int
        } else if default > 86_400 {
            86_400
        } else {
            default as int
        }),
{
    lemma_decimal_reads_back(n);
    if n <= u64::MAX {
        assert(parse_unsigned(decimal(n), u64::MAX as nat) == Some(n));
    } else {
        assert(parse_unsigned(decimal(n), u64::MAX as nat) is None);
    }
}

/// Law: each of `0`, `false`, `no` and `off`, with any white space around it,
/// turns a flag off; `1`, `true`, `yes` and `on` read the same way turn it on.
pub proof fn law_off_words(before: Seq<char>, word: Seq<char>, after: Seq<char>)
    requires
        all_space(before),
        all_space(after),
        word == "0"@ || word == "false"@ || word == "no"@ || word == "off"@ || word == "1"@ || word
            == "true"@ || word == "yes"@ || word == "on"@,
    ensures
        is_off_word(trim(before + word + after)) <==> (word == "0"@ || word == "false"@ || word
            == "no"@ || word == "off"@),
{
    reveal_strlit("1");
    reveal_strlit("true");
    reveal_strlit("yes");
    reveal_strlit("on");
    reveal_strlit("0");
    reveal_strlit("false");
    reveal_strlit("no");
    reveal_strlit("off");
    lemma_trim_padded(before, word, after);
    let off = word == "0"@ || word == "false"@ || word == "no"@ || word == "off"@;
    if !off {
        assert(word != "0"@ && word != "false"@ && word != "no"@ && word != "off"@);
        if word == "1"@ {
            assert(word[0] != "0"@[0]);
        } else if word == "on"@ {
            assert(word[0] != "no"@[0]);
        } else if word == "yes"@ {
            assert(word[0] != "off"@[0]);
        }
    }
}

// ---------------------------------------------------------------------------
// Restart backoff

/// The count of rapid failures after a run that lasted `elapsed_seconds`
/// whole seconds: a stable run resets it, a short one adds one, saturating.
pub fn next_failure_count(current: u32, elapsed_seconds: u64) -> (r: u32)
    ensures
        elapsed_seconds >= STABLE_RUN_SECONDS ==> r == 0,
        elapsed_seconds < STABLE_RUN_SECONDS ==> r == (if current == u32::MAX {
            u32::MAX
        } else {
            (current + 1) as u32
        }),
{
    if elapsed_seconds >= STABLE_RUN_SECONDS {
        0
    } else {
        current.saturating_add(1)
    }
}

/// `2^e` for small `e`.
pub open spec fn pow2(e: nat) -> nat
    decreases e,
{
    if e == 0 {
        1
    } else {
        2 * pow2((e - 1) as nat)
    }
}

/// The delay before a restart after `failures` rapid failures: one second,
/// doubling with each further failure, at most thirty seconds.
pub open spec fn restart_delay_spec(failures: u32) -> nat {
    let e: nat = if failures == 0 {
        0
    } else if failures - 1 > 5 {
        5
    } else {
        (failures - 1) as nat
    };
    if pow2(e) > MAX_RESTART_DELAY_SECONDS {
        MAX_RESTART_DELAY_SECONDS as nat
    } else {
        pow2(e)
    }
}

/// The delay before a restart, in seconds.
pub fn restart_delay(failures: u32) -> (r: u64)
    ensures
        r == restart_delay_spec(failures),
        1 <= r <= MAX_RESTART_DELAY_SECONDS,
{
    let exponent: u32 = if failures.saturating_sub(1) < 5 {
        failures.saturating_sub(1)
    } else {
        5
    };
    let mut power: u64 = 1;
    let mut i: u32 = 0;
    while i < exponent
        invariant
            i <= exponent <= 5,
            power == pow2(i as nat),
            power <= 32,
        decreases exponent - i,
    {
        proof {
            assert(pow2((i + 1) as nat) == 2 * pow2(i as nat));
            lemma_pow2_small(i as nat);
        }
        power = power * 2;
        i = i + 1;
    }
    if power > MAX_RESTART_DELAY_SECONDS {
        MAX_RESTART_DELAY_SECONDS
    } else {
        proof {
            lemma_pow2_positive(exponent as nat);
        }
        power
    }
}

proof fn lemma_pow2_positive(e: nat)
    ensures
        pow2(e) >= 1,
    decreases e,
{
    if e > 0 {
        lemma_pow2_positive((e - 1) as nat);
    }
}

proof fn lemma_pow2_small(e: nat)
    requires
        e <= 4,
    ensures
        pow2(e) <= 16,
        pow2(e + 1) == 2 * pow2(e),
{
    assert(pow2(4) == 2 * pow2(3));
    assert(pow2(0) == 1);
    assert(pow2(1) == 2);
    assert(pow2(2) == 4);
    assert(pow2(3) == 8);
}

proof fn lemma_pow2_monotone(a: nat, b: nat)
    requires
        a <= b,
    ensures
        pow2(a) <= pow2(b),
    decreases b,
{
    if a < b {
        lemma_pow2_monotone(a, (b - 1) as nat);
        lemma_pow2_positive((b - 1) as nat);
    }
}

/// Law: the restart delay starts at one second, never exceeds thirty, and
/// never shrinks as rapid failures accumulate.
pub proof fn law_restart_delay_bounded_and_monotone(f: u32, g: u32)
    requires
        f <= g,
    ensures
        restart_delay_spec(0) == 1,
        restart_delay_spec(1) == 1,
        1 <= restart_delay_spec(f) <= MAX_RESTART_DELAY_SECONDS,
        restart_delay_spec(f) <= restart_delay_spec(g),
        1 <= f < u32::MAX ==> restart_delay_spec((f + 1) as u32) == (if 2 * restart_delay_spec(f)
            > MAX_RESTART_DELAY_SECONDS {
            MAX_RESTART_DELAY_SECONDS as nat
        } else {
            2 * restart_delay_spec(f)
        }),
{
    assert(pow2(1) == 2 * pow2(0));
    assert(pow2(2) == 2 * pow2(1));
    assert(pow2(3) == 2 * pow2(2));
    assert(pow2(4) == 2 * pow2(3));
    assert(pow2(5) == 2 * pow2(4));
    let ef: nat = if f == 0 {
        0
    } else if f - 1 > 5 {
        5
    } else {
        (f - 1) as nat
    };
    let eg: nat = if g == 0 {
        0
    } else if g - 1 > 5 {
        5
    } else {
        (g - 1) as nat
    };
    lemma_pow2_monotone(ef, eg);
    lemma_pow2_positive(ef);
    assert(pow2(0) == 1);
}

// ---------------------------------------------------------------------------
// Settings

/// The settings of a command canvas.
pub struct CommandCanvasSettings {
    pub program: String,
    pub arguments: Vec<String>,
    pub working_directory: Option<String>,
    pub environment: Vec<(String, String)>,
    pub exit_behavior: ExitBehavior,
    pub interval_seconds: u64,
    pub timeout_seconds: Option<u64>,
    pub clear_between_runs: bool,
}

/// The view of an optional string.
pub open spec fn opt_view(value: Option<&str>) -> Option<Seq<char>> {
    match value {
        Some(s) => Some(s@),
        None => None,
    }
}

impl CommandCanvasSettings {
    /// Settings from the values read for each setting (`None` where a setting
    /// was not given). The first of these errors is reported: an empty program,
    /// arguments that are not a JSON array of strings, a working directory that
    /// does not exist, an invalid environment entry, an unknown exit behaviour.
    ///
    /// `directory_exists` is whether the trimmed working directory names a
    /// directory. Arguments that are not given are an empty list.
    pub fn from_values(
        program: Option<&str>,
        arguments_json: Option<&str>,
        working_directory: Option<&str>,
        directory_exists: bool,
        environment: Option<&str>,
        exit_behavior: Option<&str>,
        interval: Option<&str>,
        timeout: Option<&str>,
        clear_between_runs: Option<&str>,
    ) -> (r: Result<Self, CommandCanvasError>)
        ensures
            ({
                let prog = trim(
                    match program {
                        Some(s) => s@,
                        None => Seq::empty(),
                    },
                );
                let decoded = match arguments_json {
                    Some(s) => json_string_array(s@),
                    None => Ok(Seq::<Seq<char>>::empty()),
                };
                let args = match decoded {
                    Ok(v) => Some(v),
                    Err(_) => None,
                };
                let args_error = match decoded {
                    Ok(_) => Seq::empty(),
                    Err(m) => m,
                };
                let dir = trim(
                    match working_directory {
                        Some(s) => s@,
                        None => Seq::empty(),
                    },
                );
                let env = environment_spec(
                    match environment {
                        Some(s) => s@,
                        None => Seq::empty(),
                    },
                );
                let behavior = exit_behavior_spec(
                    match exit_behavior {
                        Some(s) => s@,
                        None => Seq::empty(),
                    },
                );
                let ok = prog.len() > 0 && args is Some && (dir.len() == 0 || directory_exists)
                    && env is Ok && behavior is Ok;
                &&& (r is Ok <==> ok)
                &&& (prog.len() == 0 ==> (r matches Err(e) && e@ == CanvasFault::NoProgram))
                &&& (prog.len() > 0 && args is None ==> (r matches Err(e) && e@
                    == CanvasFault::InvalidArguments(args_error)))
                &&& (prog.len() > 0 && args is Some && dir.len() > 0 && !directory_exists ==> (r
                    matches Err(e) && e@ == CanvasFault::MissingWorkingDirectory(dir)))
                &&& (prog.len() > 0 && args is Some && (dir.len() == 0 || directory_exists)
                    && env is Err ==> (r matches Err(e) && Err::<Seq<(Seq<char>, Seq<char>)>, _>(
                    e@,
                ) == env))
                &&& (prog.len() > 0 && args is Some && (dir.len() == 0 || directory_exists)
                    && env is Ok && behavior is Err ==> (r matches Err(e) && Err::<ExitBehavior, _>(
                    e@,
                ) == behavior))
                &&& (r matches Ok(s) ==> {
                    &&& s.program@ == prog
                    &&& s.arguments@.map_values(|a: String| a@) == args->0
                    &&& (dir.len() == 0 ==> s.working_directory is None)
                    &&& (dir.len() > 0 ==> (s.working_directory matches Some(p) && p@ == dir))
                    &&& Ok::<_, CanvasFault>(entries_view(s.environment@)) == env
                    &&& Ok::<_, CanvasFault>(s.exit_behavior) == behavior
                    &&& s.interval_seconds == bounded_seconds_spec(
                        opt_view(interval),
                        DEFAULT_INTERVAL_SECONDS,
                        1,
                    )
                    &&& (bounded_seconds_spec(opt_view(timeout), 0, 0) == 0 ==> s.timeout_seconds
                        is None)
                    &&& (bounded_seconds_spec(opt_view(timeout), 0, 0) > 0 ==> s.timeout_seconds
                        == Some(bounded_seconds_spec(opt_view(timeout), 0, 0) as u64))
                    &&& s.clear_between_runs == match clear_between_runs {
                        None => true,
                        Some(c) => !is_off_word(trim(c@)),
                    }
                })
            }),
    {
        let arguments_text: &str = match arguments_json {
            Some(s) => s,
            None => "[]",
        };
        proof {
            reveal_strlit("[]");
            assert("[]"@ =~= empty_array_text());
        }
        assert(arguments_text@ == match arguments_json {
            Some(s) => s@,
            None => "[]"@,
        });
        let decoded = json_strings_from_str(arguments_text);
        Self::from_decoded(
            program,
            decoded,
            working_directory,
            directory_exists,
            environment,
            exit_behavior,
            interval,
            timeout,
            clear_between_runs,
        )
    }

    /// Settings from the values read for each setting (`None` where a setting
    /// was not given), with the arguments as decoded from their JSON text: the
    /// strings, or the decoder's error text. The first of these errors is
    /// reported: an empty program, arguments that are not a JSON array of
    /// strings, a working directory that
    /// does not exist, an invalid environment entry, an unknown exit behaviour.
    ///
    /// `directory_exists` is whether the trimmed working directory names a
    /// directory.
    pub fn from_decoded(
        program: Option<&str>,
        arguments: Result<Vec<String>, String>,
        working_directory: Option<&str>,
        directory_exists: bool,
        environment: Option<&str>,
        exit_behavior: Option<&str>,
        interval: Option<&str>,
        timeout: Option<&str>,
        clear_between_runs: Option<&str>,
    ) -> (r: Result<Self, CommandCanvasError>)
        ensures
            ({
                let prog = trim(
                    match program {
                        Some(s) => s@,
                        None => Seq::empty(),
                    },
                );
                let args = match arguments {
                    Ok(v) => Some(v@.map_values(|a: String| a@)),
                    Err(_) => None,
                };
                let args_error = match arguments {
                    Ok(_) => Seq::empty(),
                    Err(m) => m@,
                };
                let dir = trim(
                    match working_directory {
                        Some(s) => s@,
                        None => Seq::empty(),
                    },
                );
                let env = environment_spec(
                    match environment {
                        Some(s) => s@,
                        None => Seq::empty(),
                    },
                );
                let behavior = exit_behavior_spec(
                    match exit_behavior {
                        Some(s) => s@,
                        None => Seq::empty(),
                    },
                );
                let ok = prog.len() > 0 && args is Some && (dir.len() == 0 || directory_exists)
                    && env is Ok && behavior is Ok;
                &&& (r is Ok <==> ok)
                &&& (prog.len() == 0 ==> (r matches Err(e) && e@ == CanvasFault::NoProgram))
                &&& (prog.len() > 0 && args is None ==> (r matches Err(e) && e@
                    == CanvasFault::InvalidArguments(args_error)))
                &&& (prog.len() > 0 && args is Some && dir.len() > 0 && !directory_exists ==> (r
                    matches Err(e) && e@ == CanvasFault::MissingWorkingDirectory(dir)))
                &&& (prog.len() > 0 && args is Some && (dir.len() == 0 || directory_exists)
                    && env is Err ==> (r matches Err(e) && Err::<Seq<(Seq<char>, Seq<char>)>, _>(
                    e@,
                ) == env))
                &&& (prog.len() > 0 && args is Some && (dir.len() == 0 || directory_exists)
                    && env is Ok && behavior is Err ==> (r matches Err(e) && Err::<ExitBehavior, _>(
                    e@,
                ) == behavior))
                &&& (r matches Ok(s) ==> {
                    &&& s.program@ == prog
                    &&& s.arguments@.map_values(|a: String| a@) == args->0
                    &&& (dir.len() == 0 ==> s.working_directory is None)
                    &&& (dir.len() > 0 ==> (s.working_directory matches Some(p) && p@ == dir))
                    &&& Ok::<_, CanvasFault>(entries_view(s.environment@)) == env
                    &&& Ok::<_, CanvasFault>(s.exit_behavior) == behavior
                    &&& s.interval_seconds == bounded_seconds_spec(
                        opt_view(interval),
                        DEFAULT_INTERVAL_SECONDS,
                        1,
                    )
                    &&& (bounded_seconds_spec(opt_view(timeout), 0, 0) == 0 ==> s.timeout_seconds
                        is None)
                    &&& (bounded_seconds_spec(opt_view(timeout), 0, 0) > 0 ==> s.timeout_seconds
                        == Some(bounded_seconds_spec(opt_view(timeout), 0, 0) as u64))
                    &&& s.clear_between_runs == match clear_between_runs {
                        None => true,
                        Some(c) => !is_off_word(trim(c@)),
                    }
                })
            }),
    {
        let program_text = match program {
            Some(s) => s,
            None => "",
        };
        proof {
            reveal_strlit("");
        }
        assert(program_text@ == match program {
            Some(s) => s@,
            None => Seq::<char>::empty(),
        });
        let prog = crate::text::trim_str(program_text);
        if prog.as_str().is_empty() {
            return Err(CommandCanvasError::NoProgram);
        }
        let arguments = match arguments_from_decoded(arguments) {
            Ok(a) => a,
            Err(e) => {
                return Err(e);
            },
        };
        let directory_text: &str = match working_directory {
            Some(s) => s,
            None => "",
        };
        proof {
            reveal_strlit("");
        }
        assert(directory_text@ == match working_directory {
            Some(s) => s@,
            None => Seq::<char>::empty(),
        });
        let working_directory = match optional_directory(directory_text, directory_exists) {
            Ok(d) => d,
            Err(e) => {
                return Err(e);
            },
        };
        let environment_text: &str = match environment {
            Some(s) => s,
            None => "",
        };
        assert(environment_text@ == match environment {
            Some(s) => s@,
            None => Seq::<char>::empty(),
        });
        let environment = match parse_environment(environment_text) {
            Ok(v) => v,
            Err(e) => {
                return Err(e);
            },
        };
        let behavior_text: &str = match exit_behavior {
            Some(s) => s,
            None => "",
        };
        assert(behavior_text@ == match exit_behavior {
            Some(s) => s@,
            None => Seq::<char>::empty(),
        });
        let exit_behavior = match parse_exit_behavior(behavior_text) {
            Ok(b) => b,
            Err(e) => {
                return Err(e);
            },
        };
        let interval_seconds = bounded_seconds(interval, DEFAULT_INTERVAL_SECONDS, 1);
        let timeout_seconds = bounded_seconds(timeout, 0, 0);
        let timeout_seconds = if timeout_seconds > 0 {
            Some(timeout_seconds)
        } else {
            None
        };
        let clear_between_runs = parse_bool(clear_between_runs, true);
        Ok(CommandCanvasSettings {
            program: prog,
            arguments,
            working_directory,
            environment,
            exit_behavior,
            interval_seconds,
            timeout_seconds,
            clear_between_runs,
        })
    }
}

// ---------------------------------------------------------------------------
// Supervision

/// How a run of the command ended: its exit code, or none when a signal ended it.
#[derive(Debug, Clone, Copy, PartialEq, Eq, Structural)]
pub struct ExitStatusSummary {
    pub code: Option<i32>,
}

impl ExitStatusSummary {
    /// Whether the command exited with status 0.
    pub fn success(&self) -> (r: bool)
        ensures
            r == (self.code == Some(0i32)),
    {
        match self.code {
            Some(c) => c == 0,
            None => false,
        }
    }
}

/// The result of the one run of a command that keeps its output.
pub fn finish_once(result: Result<ExitStatusSummary, CommandCanvasError>) -> (r: Result<
    (),
    CommandCanvasError,
>)
    ensures
        match result {
            Ok(status) => if status.code == Some(0i32) {
                r is Ok
            } else {
                r matches Err(e) && e@ == CanvasFault::Exited(status.code)
            },
            Err(e) => r == Err::<(), CommandCanvasError>(e),
        },
{
    match result {
        Ok(status) => {
            if status.success() {
                Ok(())
            } else {
                Err(CommandCanvasError::Exited { code: status.code })
            }
        },
        Err(e) => Err(e),
    }
}

/// The line reported after a run: nothing after a success.
pub open spec fn report_spec(result: Result<ExitStatusSummary, CanvasFault>) -> Option<Seq<char>> {
    match result {
        Ok(status) => if status.code == Some(0i32) {
            None
        } else {
            Some("desktop-tui: command exited with "@ + exit_text(status.code))
        },
        Err(f) => Some("desktop-tui: "@ + fault_message(f)),
    }
}

/// The view of a run's result.
pub open spec fn result_view(result: Result<ExitStatusSummary, CommandCanvasError>) -> Result<
    ExitStatusSummary,
    CanvasFault,
> {
    match result {
        Ok(s) => Ok(s),
        Err(e) => Err(e@),
    }
}

/// The line to report after a run of a repeated command, if any.
pub fn report_message(result: &Result<ExitStatusSummary, CommandCanvasError>) -> (r: Option<String>)
    ensures
        match r {
            Some(s) => report_spec(result_view(*result)) == Some(s@),
            None => report_spec(result_view(*result)) is None,
        },
{
    match result {
        Ok(status) => {
            if status.success() {
                None
            } else {
                let mut out: Vec<char> = Vec::new();
                push_str(&mut out, "desktop-tui: command exited with ");
                push_exit_text(&mut out, status.code);
                Some(string_from_chars(out.as_slice()))
            }
        },
        Err(e) => {
            let mut out: Vec<char> = Vec::new();
            push_str(&mut out, "desktop-tui: ");
            let m = e.message();
            push_text(&mut out, &m);
            Some(string_from_chars(out.as_slice()))
        },
    }
}

/// The notice printed before a restart.
pub open spec fn restart_notice_spec(delay_seconds: u64) -> Seq<char> {
    "desktop-tui: command exited; restarting in "@ + decimal(delay_seconds as nat) + " second"@
        + (if delay_seconds == 1 {
        Seq::<char>::empty()
    } else {
        "s"@
    })
}

/// The notice printed before a restart.
pub fn restart_notice(delay_seconds: u64) -> (r: String)
    ensures
        r@ == restart_notice_spec(delay_seconds),
{
    let mut out: Vec<char> = Vec::new();
    push_str(&mut out, "desktop-tui: command exited; restarting in ");
    push_decimal(&mut out, delay_seconds);
    push_str(&mut out, " second");
    if delay_seconds != 1 {
        push_str(&mut out, "s");
    } else {
        assert(out@ =~= out@ + Seq::<char>::empty());
    }
    string_from_chars(out.as_slice())
}

/// What the supervisor does after a run.
#[derive(Debug)]
pub enum SupervisorAction {
    /// Stop supervising with this result.
    Finish(Result<(), CommandCanvasError>),
    /// Report, then wait this many seconds and run again.
    Wait { report: Option<String>, seconds: u64 },
    /// Report, print the notice, then wait this many seconds and run again.
    Restart { report: Option<String>, notice: String, seconds: u64 },
}

/// The supervisor's state between runs.
pub struct Supervisor {
    pub rapid_failures: u32,
    pub first_run: bool,
}

impl Supervisor {
    /// A supervisor before its first run.
    pub fn new() -> (r: Self)
        ensures
            r.rapid_failures == 0,
            r.first_run,
    {
        Supervisor { rapid_failures: 0, first_run: true }
    }

    /// Called before each run; says whether to clear the terminal first, which
    /// is done before every run but the first when the settings ask for it.
    pub fn begin_run(&mut self, clear_between_runs: bool) -> (clear: bool)
        ensures
            clear == (!old(self).first_run && clear_between_runs),
            !final(self).first_run,
            final(self).rapid_failures == old(self).rapid_failures,
    {
        let clear = !self.first_run && clear_between_runs;
        self.first_run = false;
        clear
    }

    /// Called after each run with its result and its length in whole seconds.
    pub fn after_run(
        &mut self,
        behavior: ExitBehavior,
        interval_seconds: u64,
        result: Result<ExitStatusSummary, CommandCanvasError>,
        elapsed_seconds: u64,
    ) -> (action: SupervisorAction)
        ensures
            final(self).first_run == old(self).first_run,
            behavior == ExitBehavior::KeepOutput ==> {
                &&& final(self).rapid_failures == old(self).rapid_failures
                &&& action matches SupervisorAction::Finish(r) && match result {
                    Ok(status) => if status.code == Some(0i32) {
                        r is Ok
                    } else {
                        r matches Err(e) && e@ == CanvasFault::Exited(status.code)
                    },
                    Err(e) => r == Err::<(), CommandCanvasError>(e),
                }
            },
            behavior == ExitBehavior::Interval ==> {
                &&& final(self).rapid_failures == old(self).rapid_failures
                &&& action matches SupervisorAction::Wait { report, seconds } && seconds
                    == interval_seconds && match report {
                    Some(s) => report_spec(result_view(result)) == Some(s@),
                    None => report_spec(result_view(result)) is None,
                }
            },
            behavior == ExitBehavior::Restart ==> {
                &&& elapsed_seconds >= STABLE_RUN_SECONDS ==> final(self).rapid_failures == 0
                &&& elapsed_seconds < STABLE_RUN_SECONDS ==> final(self).rapid_failures == (if old(
                    self,
                ).rapid_failures == u32::MAX {
                    u32::MAX
                } else {
                    (old(self).rapid_failures + 1) as u32
                })
                &&& action matches SupervisorAction::Restart { report, notice, seconds } && seconds
                    == restart_delay_spec(final(self).rapid_failures) && notice@
                    == restart_notice_spec(seconds) && match report {
                    Some(s) => report_spec(result_view(result)) == Some(s@),
                    None => report_spec(result_view(result)) is None,
                }
            },
    {
        match behavior {
            ExitBehavior::KeepOutput => SupervisorAction::Finish(finish_once(result)),
            ExitBehavior::Interval => {
                let report = report_message(&result);
                SupervisorAction::Wait { report, seconds: interval_seconds }
            },
            ExitBehavior::Restart => {
                let report = report_message(&result);
                self.rapid_failures = next_failure_count(self.rapid_failures, elapsed_seconds);
                let delay = restart_delay(self.rapid_failures);
                let notice = restart_notice(delay);
                SupervisorAction::Restart { report, notice, seconds: delay }
            },
        }
    }
}

/// What to do while waiting for a child that has a timeout.
#[derive(Debug, Clone, Copy, PartialEq, Eq, Structural)]
pub enum PollAction {
    /// The child exited with this status.
    Exited(ExitStatusSummary),
    /// The timeout has passed: stop the child.
    Kill,
    /// Sleep briefly and look again.
    Wait,
}

/// The decision after looking at a child: `exited` is its status if it has
/// exited, `elapsed_seconds` the whole seconds since it started.
pub fn poll_child(exited: Option<ExitStatusSummary>, elapsed_seconds: u64, timeout_seconds: u64) -> (r:
    PollAction)
    ensures
        exited matches Some(s) ==> r == PollAction::Exited(s),
        exited is None && elapsed_seconds >= timeout_seconds ==> r == PollAction::Kill,
        exited is None && elapsed_seconds < timeout_seconds ==> r == PollAction::Wait,
{
    match exited {
        Some(s) => PollAction::Exited(s),
        None => {
            if elapsed_seconds >= timeout_seconds {
                PollAction::Kill
            } else {
                PollAction::Wait
            }
        },
    }
}

} // verus!
