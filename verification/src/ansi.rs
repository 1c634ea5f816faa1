//! Removes ANSI state changes that do not affect the terminal image.
//!
//! A crossterm-style backend emits a background reset alongside every
//! foreground-colour change. The renderer never paints cell backgrounds, so
//! repeating that reset for thousands of cells wastes roughly three bytes per
//! changed cell. [`AnsiOptimizer`] drops such resets while the background is
//! already in its reset state: a whole `ESC [ 49 m`, or a trailing `;49` that
//! is a parameter of its own (not the last argument of a `38;2;r;g;b` colour)
//! in a sequence that selects no background. Every background selector,
//! extended (`48`) or basic (`40`–`47`, `100`–`107`), ends the reset state.
//!
//! The optimizer is a byte transducer: [`step`] says what one byte does to the
//! state and which bytes it releases, and [`run`] folds it over a stream.
use vstd::prelude::*;
use crate::text::{all_digits, digits_value, first_index, is_digit, lemma_first_index, lemma_first_index_unique, parse_unsigned, parse_unsigned_chars, unsigned_digits};

verus! {

pub const ESC: u8 = 0x1b;

/// The text of a byte sequence read one byte per character. A field that
/// holds a non-ASCII byte is no number either way, so reading a field this way
/// and reading it as UTF-8 (where that succeeds) give the same number.
pub open spec fn latin1(s: Seq<u8>) -> Seq<char> {
    s.map_values(|b: u8| b as char)
}

/// The number in one `;`-separated field of an SGR parameter list, if it is one.
pub open spec fn sgr_field(field: Seq<u8>) -> Option<u16> {
    match parse_unsigned(latin1(field), 65535) {
        Some(n) => Some(n as u16),
        None => None,
    }
}

/// Every field of an SGR parameter list that is a number, in order.
pub open spec fn sgr_numbers(body: Seq<u8>) -> Seq<u16>
    decreases body.len(),
{
    let i = first_index(body, 59u8);
    let head: Seq<u16> = match sgr_field(body.take(i)) {
        Some(n) => seq![n],
        None => Seq::empty(),
    };
    if 0 <= i < body.len() {
        head + sgr_numbers(body.skip(i + 1))
    } else {
        head
    }
}

/// How many parameters a colour selector starting at `params[0]` occupies.
pub open spec fn color_parameter_count(params: Seq<u16>) -> int {
    if params.len() > 1 && params[1] == 2 {
        if params.len() < 5 {
            params.len() as int
        } else {
            5
        }
    } else if params.len() > 1 && params[1] == 5 {
        if params.len() < 3 {
            params.len() as int
        } else {
            3
        }
    } else {
        1
    }
}

/// Whether `p` selects one of the basic or bright foreground colours.
pub open spec fn is_basic_foreground(p: u16) -> bool {
    30 <= p <= 37 || 90 <= p <= 97
}

/// Whether `p` selects one of the basic or bright background colours.
pub open spec fn is_basic_background(p: u16) -> bool {
    40 <= p <= 47 || 100 <= p <= 107
}

/// How many parameters the one at index `i` occupies: a colour selector
/// (`38`, `48`) takes its arguments with it.
pub open spec fn parameter_step(params: Seq<u16>, i: int) -> int {
    if params[i] == 38 || params[i] == 48 {
        color_parameter_count(params.skip(i))
    } else {
        1
    }
}

/// Whether the parameters from index `i` on select a background colour.
pub open spec fn sets_background_from(params: Seq<u16>, i: int) -> bool
    decreases params.len() - i,
{
    if i < 0 || i >= params.len() {
        false
    } else if params[i] == 48 || is_basic_background(params[i]) {
        true
    } else {
        let n = parameter_step(params, i);
        if n >= 1 {
            sets_background_from(params, i + n)
        } else {
            false
        }
    }
}

/// Whether the SGR body selects a background colour.
pub open spec fn sgr_sets_background(body: Seq<u8>) -> bool {
    sets_background_from(sgr_numbers(body), 0)
}

/// The background state after the parameters from index `i` on, starting in state `is_reset`.
pub open spec fn background_reset_from(params: Seq<u16>, i: int, is_reset: bool) -> bool
    decreases params.len() - i,
{
    if i < 0 || i >= params.len() {
        is_reset
    } else {
        let next = if params[i] == 0 || params[i] == 49 {
            true
        } else if params[i] == 48 || is_basic_background(params[i]) {
            false
        } else {
            is_reset
        };
        let n = parameter_step(params, i);
        if n >= 1 {
            background_reset_from(params, i + n, next)
        } else {
            next
        }
    }
}

/// Whether the background is in its reset state after an SGR with this body.
/// An SGR without parameters is a full reset.
pub open spec fn sgr_background_is_reset(body: Seq<u8>, initial: bool) -> bool {
    let params = sgr_numbers(body);
    if params.len() == 0 {
        true
    } else {
        background_reset_from(params, 0, initial)
    }
}

/// Whether the walk over the parameters from index `i` stops at index `target`,
/// so that the parameter there stands on its own and is no colour argument.
pub open spec fn reaches_from(params: Seq<u16>, i: int, target: int) -> bool
    decreases params.len() - i,
{
    if i == target {
        true
    } else if i < 0 || i > target || i >= params.len() {
        false
    } else {
        let n = parameter_step(params, i);
        if n >= 1 {
            reaches_from(params, i + n, target)
        } else {
            false
        }
    }
}

/// Whether the last of at least two parameters stands on its own.
pub open spec fn ends_with_own_parameter(params: Seq<u16>) -> bool {
    params.len() >= 2 && reaches_from(params, 0, params.len() - 1)
}

/// The graphic rendition that SGR parameters set, as the optimizer reads them.
pub struct Rendition {
    /// The foreground selector last applied, with its arguments; empty for the default.
    pub foreground: Seq<u16>,
    /// The background selector last applied, with its arguments; empty for the default.
    pub background: Seq<u16>,
    /// Every other parameter applied since the last full reset, in order.
    pub attributes: Seq<u16>,
}

/// The rendition after a full reset.
pub open spec fn default_rendition() -> Rendition {
    Rendition { foreground: Seq::empty(), background: Seq::empty(), attributes: Seq::empty() }
}

/// The rendition after applying the parameters from index `i` on to `r`.
pub open spec fn rendition_from(params: Seq<u16>, i: int, r: Rendition) -> Rendition
    decreases params.len() - i,
{
    if i < 0 || i >= params.len() {
        r
    } else {
        let p = params[i];
        let n = parameter_step(params, i);
        let group = params.subrange(i, i + n);
        let next = if p == 0 {
            default_rendition()
        } else if p == 38 || is_basic_foreground(p) {
            Rendition { foreground: group, ..r }
        } else if p == 48 || is_basic_background(p) {
            Rendition { background: group, ..r }
        } else if p == 39 {
            Rendition { foreground: Seq::empty(), ..r }
        } else if p == 49 {
            Rendition { background: Seq::empty(), ..r }
        } else {
            Rendition { attributes: r.attributes.push(p), ..r }
        };
        if n >= 1 {
            rendition_from(params, i + n, next)
        } else {
            next
        }
    }
}

/// The rendition after an SGR with this body, starting from `r`. An SGR
/// without parameters is a full reset.
pub open spec fn sgr_effect(body: Seq<u8>, r: Rendition) -> Rendition {
    let params = sgr_numbers(body);
    if params.len() == 0 {
        default_rendition()
    } else {
        rendition_from(params, 0, r)
    }
}

/// The optimizer's state: the bytes of an escape sequence not yet complete,
/// and whether the terminal background is known to be reset.
pub struct OptimizerState {
    pub escape: Seq<u8>,
    pub background_is_reset: bool,
}

/// What finishing the escape sequence `escape` releases, and the state after it.
/// Every number of the parameter list is read, however many there are.
pub open spec fn finish(escape: Seq<u8>, background_is_reset: bool) -> (OptimizerState, Seq<u8>) {
    let len = escape.len() as int;
    let is_sgr = len >= 2 && escape[1] == 91u8 && escape[len - 1] == 109u8;
    if !is_sgr {
        (OptimizerState { escape: Seq::empty(), background_is_reset }, escape)
    } else {
        let body = escape.subrange(2, len - 1);
        let redundant_reset = background_is_reset && body == seq![52u8, 57u8];
        let redundant_combined = background_is_reset && body.len() >= 3 && body.skip(
            body.len() - 3,
        ) == seq![59u8, 52u8, 57u8] && !sgr_sets_background(body) && ends_with_own_parameter(
            sgr_numbers(body),
        );
        let out = if redundant_combined {
            escape.take(len - 4).push(109u8)
        } else if !redundant_reset {
            escape
        } else {
            Seq::empty()
        };
        (
            OptimizerState {
                escape: Seq::empty(),
                background_is_reset: sgr_background_is_reset(body, background_is_reset),
            },
            out,
        )
    }
}

/// What one input byte does: the next state and the bytes it releases.
pub open spec fn step(st: OptimizerState, byte: u8) -> (OptimizerState, Seq<u8>) {
    if st.escape.len() == 0 {
        if byte == ESC {
            (OptimizerState { escape: seq![ESC], ..st }, Seq::empty())
        } else {
            (st, seq![byte])
        }
    } else {
        let escape = st.escape.push(byte);
        if escape.len() == 2 && byte != 91u8 {
            (OptimizerState { escape: Seq::empty(), ..st }, escape)
        } else if escape.len() > 2 && 0x40 <= byte <= 0x7e {
            finish(escape, st.background_is_reset)
        } else {
            (OptimizerState { escape, ..st }, Seq::empty())
        }
    }
}

/// The state after a byte stream and every byte it releases, in order.
pub open spec fn run(st: OptimizerState, bytes: Seq<u8>) -> (OptimizerState, Seq<u8>)
    decreases bytes.len(),
{
    if bytes.len() == 0 {
        (st, Seq::empty())
    } else {
        let (mid, out1) = run(st, bytes.drop_last());
        let (last, out2) = step(mid, bytes.last());
        (last, out1 + out2)
    }
}

/// Rewrites a byte stream, dropping background resets that cannot change the image.
///
/// Bytes that complete an escape sequence release it, rewritten where it is a
/// redundant SGR; an escape sequence still open waits for later bytes or for
/// [`AnsiOptimizer::flush`]. Released bytes are appended to the inner buffer.
pub struct AnsiOptimizer {
    inner: Vec<u8>,
    escape: Vec<u8>,
    background_is_reset: bool,
}

impl AnsiOptimizer {
    /// The bytes released so far.
    pub closed spec fn written(&self) -> Seq<u8> {
        self.inner@
    }

    /// The optimizer's state.
    pub closed spec fn state(&self) -> OptimizerState {
        OptimizerState { escape: self.escape@, background_is_reset: self.background_is_reset }
    }

    /// An optimizer that appends to `inner`, with the background reset and no open escape.
    pub fn new(inner: Vec<u8>) -> (r: Self)
        ensures
            r.written() == inner@,
            r.state() == (OptimizerState { escape: Seq::empty(), background_is_reset: true }),
    {
        AnsiOptimizer { inner, escape: Vec::new(), background_is_reset: true }
    }

    /// The bytes released so far.
    pub fn into_inner(self) -> (r: Vec<u8>)
        ensures
            r@ == self.written(),
    {
        self.inner
    }

    /// Hands out the bytes released so far and keeps none of them.
    pub fn take_written(&mut self) -> (r: Vec<u8>)
        ensures
            r@ == old(self).written(),
            final(self).written() == Seq::<u8>::empty(),
            final(self).state() == old(self).state(),
    {
        let mut taken: Vec<u8> = Vec::new();
        std::mem::swap(&mut taken, &mut self.inner);
        taken
    }

    fn take_escape(&mut self) -> (r: Vec<u8>)
        ensures
            r@ == old(self).escape@,
            final(self).escape@ == Seq::<u8>::empty(),
            final(self).inner@ == old(self).inner@,
            final(self).background_is_reset == old(self).background_is_reset,
    {
        let mut taken: Vec<u8> = Vec::new();
        std::mem::swap(&mut taken, &mut self.escape);
        taken
    }

    fn push_all(&mut self, bytes: &[u8])
        ensures
            final(self).inner@ == old(self).inner@ + bytes@,
            final(self).escape@ == old(self).escape@,
            final(self).background_is_reset == old(self).background_is_reset,
    {
        let ghost start = self.inner@;
        let mut i: usize = 0;
        while i < bytes.len()
            invariant
                i <= bytes@.len(),
                self.inner@ == start + bytes@.take(i as int),
                self.escape@ == old(self).escape@,
                self.background_is_reset == old(self).background_is_reset,
            decreases bytes.len() - i,
        {
            self.inner.push(bytes[i]);
            i = i + 1;
            assert(start + bytes@.take(i as int) =~= (start + bytes@.take(i - 1)).push(
                bytes@[i - 1],
            ));
        }
        assert(bytes@.take(bytes@.len() as int) =~= bytes@);
    }

    /// Completes the escape sequence held in `self.escape`.
    fn finish_escape(&mut self)
        ensures
            final(self).state() == finish(old(self).escape@, old(self).background_is_reset).0,
            final(self).inner@ == old(self).inner@ + finish(
                old(self).escape@,
                old(self).background_is_reset,
            ).1,
    {
        let len = self.escape.len();
        let is_sgr = len >= 2 && self.escape[1] == 0x5b && self.escape[len - 1] == 0x6d;
        if !is_sgr {
            let escape = self.take_escape();
            self.push_all(escape.as_slice());
            return;
        }
        let ghost body = self.escape@.subrange(2, len - 1);
        let body_len = len - 3;
        let is_plain_reset = body_len == 2 && self.escape[2] == 0x34 && self.escape[3] == 0x39;
        assert(is_plain_reset == (body == seq![52u8, 57u8])) by {
            assert(body.len() == body_len);
            if body_len == 2 {
                assert(body[0] == self.escape@[2]);
                assert(body[1] == self.escape@[3]);
                if is_plain_reset {
                    assert(body =~= seq![52u8, 57u8]);
                }
            }
        }
        let ends_with_reset = body_len >= 3 && self.escape[len - 4] == 0x3b && self.escape[len - 3]
            == 0x34 && self.escape[len - 2] == 0x39;
        assert(ends_with_reset == (body.len() >= 3 && body.skip(body.len() - 3) == seq![
            59u8,
            52u8,
            57u8,
        ])) by {
            if body.len() >= 3 {
                let tail = body.skip(body.len() - 3);
                if ends_with_reset {
                    assert(tail =~= seq![59u8, 52u8, 57u8]);
                } else if tail == seq![59u8, 52u8, 57u8] {
                    assert(tail[0] == self.escape@[len - 4]);
                    assert(tail[1] == self.escape@[len - 3]);
                    assert(tail[2] == self.escape@[len - 2]);
                }
            }
        }
        let body_bytes = copy_bytes(self.escape.as_slice(), 2, len - 1);
        let redundant_reset = self.background_is_reset && is_plain_reset;
        let redundant_combined = self.background_is_reset && ends_with_reset
            && !sgr_sets_background_exec(body_bytes.as_slice()) && ends_with_own_parameter_exec(
            body_bytes.as_slice(),
        );
        let next_reset = sgr_background_is_reset_exec(
            body_bytes.as_slice(),
            self.background_is_reset,
        );
        let escape = self.take_escape();
        if redundant_combined {
            let shortened = copy_bytes(escape.as_slice(), 0, len - 4);
            self.push_all(shortened.as_slice());
            self.inner.push(0x6d);
            assert(escape@.take(len - 4).push(109u8) =~= shortened@.push(109u8));
        } else if !redundant_reset {
            self.push_all(escape.as_slice());
        }
        self.background_is_reset = next_reset;
    }

    /// Feeds one byte.
    fn feed(&mut self, byte: u8)
        ensures
            final(self).state() == step(old(self).state(), byte).0,
            final(self).inner@ == old(self).inner@ + step(old(self).state(), byte).1,
    {
        if self.escape.len() == 0 {
            if byte == ESC {
                self.escape.push(byte);
                assert(self.escape@ =~= seq![ESC]);
            } else {
                self.inner.push(byte);
                assert(self.inner@ =~= old(self).inner@ + seq![byte]);
            }
            return;
        }
        self.escape.push(byte);
        if self.escape.len() == 2 && byte != 0x5b {
            let escape = self.take_escape();
            self.push_all(escape.as_slice());
        } else if self.escape.len() > 2 && 0x40 <= byte && byte <= 0x7e {
            self.finish_escape();
        } else {
            assert(self.inner@ =~= old(self).inner@ + Seq::<u8>::empty());
        }
    }

    /// Feeds `buffer` and appends every byte it releases; returns how many bytes were taken,
    /// which is all of them.
    pub fn write(&mut self, buffer: &[u8]) -> (n: usize)
        ensures
            n == buffer@.len(),
            final(self).state() == run(old(self).state(), buffer@).0,
            final(self).written() == old(self).written() + run(old(self).state(), buffer@).1,
    {
        let mut i: usize = 0;
        while i < buffer.len()
            invariant
                i <= buffer@.len(),
                self.state() == run(old(self).state(), buffer@.take(i as int)).0,
                self.inner@ == old(self).inner@ + run(old(self).state(), buffer@.take(i as int)).1,
            decreases buffer.len() - i,
        {
            let ghost before = self.inner@;
            self.feed(buffer[i]);
            proof {
                let prefix = buffer@.take(i + 1);
                assert(prefix.drop_last() =~= buffer@.take(i as int));
                assert(prefix.last() == buffer@[i as int]);
                let r = run(old(self).state(), buffer@.take(i as int));
                assert(before + step(r.0, buffer@[i as int]).1 =~= old(self).inner@ + (r.1 + step(
                    r.0,
                    buffer@[i as int],
                ).1));
            }
            i = i + 1;
        }
        assert(buffer@.take(buffer@.len() as int) =~= buffer@);
        buffer.len()
    }

    /// Feeds all of `buffer`, as `write` does.
    pub fn write_all(&mut self, buffer: &[u8])
        ensures
            final(self).state() == run(old(self).state(), buffer@).0,
            final(self).written() == old(self).written() + run(old(self).state(), buffer@).1,
    {
        self.write(buffer);
    }

    /// Releases an escape sequence that is still open, unchanged.
    pub fn flush(&mut self)
        ensures
            final(self).written() == old(self).written() + old(self).state().escape,
            final(self).state() == (OptimizerState {
                escape: Seq::empty(),
                background_is_reset: old(self).state().background_is_reset,
            }),
    {
        let escape = self.take_escape();
        self.push_all(escape.as_slice());
        assert(self.escape@ =~= Seq::<u8>::empty());
    }
}

/// A copy of `v[from..to]`.
pub fn copy_bytes(v: &[u8], from: usize, to: usize) -> (r: Vec<u8>)
    requires
        from <= to <= v@.len(),
    ensures
        r@ == v@.subrange(from as int, to as int),
{
    let mut r: Vec<u8> = Vec::new();
    let mut i = from;
    while i < to
        invariant
            from <= i <= to <= v@.len(),
            r@ == v@.subrange(from as int, i as int),
        decreases to - i,
    {
        r.push(v[i]);
        i = i + 1;
    }
    r
}

/// Reads one field as a number.
fn sgr_field_exec(body: &[u8], from: usize, to: usize) -> (r: Option<u16>)
    requires
        from <= to <= body@.len(),
    ensures
        r == sgr_field(body@.subrange(from as int, to as int)),
{
    let mut chars: Vec<char> = Vec::new();
    let mut i = from;
    while i < to
        invariant
            from <= i <= to <= body@.len(),
            chars@ == latin1(body@.subrange(from as int, i as int)),
        decreases to - i,
    {
        let c = body[i] as char;
        chars.push(c);
        i = i + 1;
        assert(latin1(body@.subrange(from as int, i as int)) =~= latin1(
            body@.subrange(from as int, i - 1),
        ).push(c));
    }
    match parse_unsigned_chars(chars.as_slice(), 65535) {
        Some(n) => Some(n as u16),
        None => None,
    }
}

proof fn lemma_sgr_numbers_skip(body: Seq<u8>, start: int)
    requires
        0 <= start <= body.len(),
    ensures
        ({
            let rest = body.skip(start);
            let i = first_index(rest, 59u8);
            sgr_numbers(rest) == (match sgr_field(rest.take(i)) {
                Some(n) => seq![n],
                None => Seq::<u16>::empty(),
            }) + (if i < rest.len() {
                sgr_numbers(rest.skip(i + 1))
            } else {
                Seq::<u16>::empty()
            })
        }),
{
    let rest = body.skip(start);
    lemma_first_index(rest, 59u8);
    let i = first_index(rest, 59u8);
    if i >= rest.len() {
        let head: Seq<u16> = match sgr_field(rest.take(i)) {
            Some(n) => seq![n],
            None => Seq::<u16>::empty(),
        };
        assert(head + Seq::<u16>::empty() =~= head);
    }
}

/// Every number of an SGR body, in order.
fn sgr_parameters(body: &[u8]) -> (r: Vec<u16>)
    ensures
        r@ == sgr_numbers(body@),
{
    let mut params: Vec<u16> = Vec::new();
    let mut start: usize = 0;
    let n = body.len();
    assert(body@.skip(0) =~= body@);
    loop
        invariant
            start <= n == body@.len(),
            params@ + sgr_numbers(body@.skip(start as int)) == sgr_numbers(body@),
        ensures
            start == n,
            params@ + sgr_numbers(body@.skip(start as int)) == sgr_numbers(body@),
        decreases n - start,
    {
        let ghost rest = body@.skip(start as int);
        let mut end = start;
        while end < n && body[end] != 0x3b
            invariant
                start <= end <= n == body@.len(),
                forall|k: int| start <= k < end ==> body@[k] != 59u8,
            decreases n - end,
        {
            end = end + 1;
        }
        proof {
            assert forall|k: int| 0 <= k < end - start implies rest[k] != 59u8 by {
                assert(rest[k] == body@[start + k]);
            }
            if end < n {
                assert(rest[end - start] == body@[end as int]);
            }
            lemma_first_index_unique(rest, 59u8, end - start);
            lemma_sgr_numbers_skip(body@, start as int);
            assert(rest.take(end - start) =~= body@.subrange(start as int, end as int));
            if end < n {
                assert(rest.skip(end - start + 1) =~= body@.skip(end + 1));
            }
        }
        let field = sgr_field_exec(body, start, end);
        let ghost old_params = params@;
        match field {
            Some(v) => {
                params.push(v);
            },
            None => {},
        }
        proof {
            let head: Seq<u16> = match field {
                Some(v) => seq![v],
                None => Seq::<u16>::empty(),
            };
            assert(params@ =~= old_params + head);
            if end < n {
                assert(old_params + sgr_numbers(rest) =~= params@ + sgr_numbers(
                    body@.skip(end + 1),
                ));
            } else {
                assert(old_params + sgr_numbers(rest) =~= params@ + sgr_numbers(
                    body@.skip(n as int),
                )) by {
                    assert(body@.skip(n as int) =~= Seq::<u8>::empty());
                    assert(sgr_numbers(Seq::<u8>::empty()) =~= Seq::<u16>::empty()) by {
                        assert(Seq::<u8>::empty().take(0) =~= Seq::<u8>::empty());
                    }
                }
            }
        }
        if end >= n {
            start = n;
            break;
        }
        start = end + 1;
    }
    proof {
        assert(body@.skip(n as int) =~= Seq::<u8>::empty());
        assert(sgr_numbers(Seq::<u8>::empty()) =~= Seq::<u16>::empty()) by {
            assert(Seq::<u8>::empty().take(0) =~= Seq::<u8>::empty());
        }
        assert(params@ + Seq::<u16>::empty() =~= params@);
    }
    params
}

fn color_parameter_count_exec(params: &[u16], i: usize) -> (r: usize)
    requires
        i < params@.len(),
    ensures
        r == color_parameter_count(params@.skip(i as int)),
        1 <= r <= params@.len() - i,
{
    let len = params.len() - i;
    if len > 1 && params[i + 1] == 2 {
        if len < 5 {
            len
        } else {
            5
        }
    } else if len > 1 && params[i + 1] == 5 {
        if len < 3 {
            len
        } else {
            3
        }
    } else {
        1
    }
}

fn parameter_step_exec(params: &[u16], i: usize) -> (r: usize)
    requires
        i < params@.len(),
    ensures
        r == parameter_step(params@, i as int),
        1 <= r <= params@.len() - i,
{
    if params[i] == 38 || params[i] == 48 {
        color_parameter_count_exec(params, i)
    } else {
        1
    }
}

/// Whether the SGR body selects a background colour.
pub fn sgr_sets_background_exec(body: &[u8]) -> (r: bool)
    ensures
        r == sgr_sets_background(body@),
{
    let params = sgr_parameters(body);
    let mut index: usize = 0;
    while index < params.len()
        invariant
            index <= params@.len(),
            params@ == sgr_numbers(body@),
            sets_background_from(params@, 0) == sets_background_from(params@, index as int),
        decreases params.len() - index,
    {
        let p = params[index];
        if p == 48 || (40 <= p && p <= 47) || (100 <= p && p <= 107) {
            return true;
        }
        index = index + parameter_step_exec(params.as_slice(), index);
    }
    false
}

/// Whether the background is in its reset state after an SGR with this body.
pub fn sgr_background_is_reset_exec(body: &[u8], initial: bool) -> (r: bool)
    ensures
        r == sgr_background_is_reset(body@, initial),
{
    let params = sgr_parameters(body);
    if params.len() == 0 {
        return true;
    }
    let mut is_reset = initial;
    let mut index: usize = 0;
    while index < params.len()
        invariant
            index <= params@.len(),
            params@ == sgr_numbers(body@),
            background_reset_from(params@, 0, initial) == background_reset_from(
                params@,
                index as int,
                is_reset,
            ),
        decreases params.len() - index,
    {
        let p = params[index];
        if p == 0 || p == 49 {
            is_reset = true;
        } else if p == 48 || (40 <= p && p <= 47) || (100 <= p && p <= 107) {
            is_reset = false;
        }
        index = index + parameter_step_exec(params.as_slice(), index);
    }
    is_reset
}

/// Whether the last of at least two numbers of the SGR body stands on its own.
pub fn ends_with_own_parameter_exec(body: &[u8]) -> (r: bool)
    ensures
        r == ends_with_own_parameter(sgr_numbers(body@)),
{
    let params = sgr_parameters(body);
    if params.len() < 2 {
        return false;
    }
    let last = params.len() - 1;
    let mut index: usize = 0;
    while index < last
        invariant
            last == params@.len() - 1,
            index <= params@.len(),
            reaches_from(params@, 0, last as int) == reaches_from(params@, index as int, last as int),
        decreases params.len() - index,
    {
        index = index + parameter_step_exec(params.as_slice(), index);
    }
    index == last
}

/// Whether a state can arise from the initial state: an open escape sequence is
/// an ESC, or an ESC and `[` followed by bytes none of which ends it.
pub open spec fn well_formed(st: OptimizerState) -> bool {
    let e = st.escape;
    ||| e.len() == 0
    ||| (e.len() == 1 && e[0] == ESC)
    ||| (e.len() >= 2 && e[0] == ESC && e[1] == 91u8 && forall|k: int|
        2 <= k < e.len() ==> !(0x40 <= #[trigger] e[k] <= 0x7e))
}

/// Law: every byte keeps the state well formed.
pub proof fn law_step_keeps_state_well_formed(st: OptimizerState, byte: u8)
    requires
        well_formed(st),
    ensures
        well_formed(step(st, byte).0),
{
    if st.escape.len() > 0 {
        let e = st.escape.push(byte);
        if e.len() == 2 && byte == 91u8 {
            assert(e[0] == ESC);
        } else if e.len() > 2 && !(0x40 <= byte <= 0x7e) {
            assert forall|k: int| 2 <= k < e.len() implies !(0x40 <= #[trigger] e[k] <= 0x7e) by {
                if k < e.len() - 1 {
                    assert(e[k] == st.escape[k]);
                }
            }
        }
    }
}

/// Law: a stream keeps the state well formed.
pub proof fn law_run_keeps_state_well_formed(st: OptimizerState, bytes: Seq<u8>)
    requires
        well_formed(st),
    ensures
        well_formed(run(st, bytes).0),
    decreases bytes.len(),
{
    if bytes.len() > 0 {
        law_run_keeps_state_well_formed(st, bytes.drop_last());
        law_step_keeps_state_well_formed(run(st, bytes.drop_last()).0, bytes.last());
    }
}

/// Law: how a stream is split into writes does not matter. Writing `a` and
/// then `b` leaves the same state and releases the same bytes as writing `a + b`.
pub proof fn law_split_writes_agree(st: OptimizerState, a: Seq<u8>, b: Seq<u8>)
    ensures
        run(st, a + b).0 == run(run(st, a).0, b).0,
        run(st, a + b).1 == run(st, a).1 + run(run(st, a).0, b).1,
    decreases b.len(),
{
    if b.len() == 0 {
        assert(a + b =~= a);
        assert(run(st, a).1 + Seq::<u8>::empty() =~= run(st, a).1);
    } else {
        assert((a + b).drop_last() =~= a + b.drop_last());
        assert((a + b).last() == b.last());
        law_split_writes_agree(st, a, b.drop_last());
        let mid = run(run(st, a).0, b.drop_last());
        let last = step(mid.0, b.last());
        assert(run(st, a).1 + mid.1 + last.1 =~= run(st, a).1 + (mid.1 + last.1));
    }
}

/// Law: with no escape sequence open, bytes that hold no ESC pass through
/// unchanged and leave the state as it was.
pub proof fn law_plain_text_passes_through(st: OptimizerState, bytes: Seq<u8>)
    requires
        st.escape.len() == 0,
        forall|k: int| 0 <= k < bytes.len() ==> bytes[k] != ESC,
    ensures
        run(st, bytes) == (st, bytes),
    decreases bytes.len(),
{
    if bytes.len() > 0 {
        law_plain_text_passes_through(st, bytes.drop_last());
        assert(bytes.drop_last() + seq![bytes.last()] =~= bytes);
    } else {
        assert(bytes =~= Seq::<u8>::empty());
    }
}

/// The bytes of a control sequence `ESC [ params final`.
pub open spec fn control_sequence(params: Seq<u8>, final_byte: u8) -> Seq<u8> {
    seq![ESC, 91u8] + params + seq![final_byte]
}

/// Whether `params` and `final_byte` make a complete control sequence.
pub open spec fn is_control_sequence(params: Seq<u8>, final_byte: u8) -> bool {
    &&& forall|k: int| 0 <= k < params.len() ==> !(0x40 <= #[trigger] params[k] <= 0x7e)
    &&& 0x40 <= final_byte <= 0x7e
}

proof fn lemma_open_sequence(st: OptimizerState, params: Seq<u8>)
    requires
        st.escape.len() == 0,
        forall|k: int| 0 <= k < params.len() ==> !(0x40 <= #[trigger] params[k] <= 0x7e),
    ensures
        run(st, seq![ESC, 91u8] + params) == (
        OptimizerState { escape: seq![ESC, 91u8] + params, ..st },
        Seq::<u8>::empty(),
        ),
    decreases params.len(),
{
    if params.len() == 0 {
        let two = seq![ESC, 91u8];
        assert(two + params =~= two);
        assert(two.drop_last() =~= seq![ESC]);
        assert(seq![ESC].drop_last() =~= Seq::<u8>::empty());
        assert(st.escape.push(ESC) =~= seq![ESC]);
        assert(seq![ESC].push(91u8) =~= two);
        assert(seq![ESC].last() == ESC);
        assert(two.last() == 91u8);
        let r0 = run(st, Seq::<u8>::empty());
        assert(r0 == (st, Seq::<u8>::empty()));
        let r1 = run(st, seq![ESC]);
        assert(r1.0 == OptimizerState { escape: seq![ESC], ..st });
        assert(r1.1 =~= Seq::<u8>::empty());
        let r2 = run(st, two);
        assert(r2.1 =~= Seq::<u8>::empty());
    } else {
        let shorter = params.drop_last();
        lemma_open_sequence(st, shorter);
        assert((seq![ESC, 91u8] + params).drop_last() =~= seq![ESC, 91u8] + shorter);
        assert((seq![ESC, 91u8] + shorter).push(params.last()) =~= seq![ESC, 91u8] + params);
        assert(params.last() == params[params.len() - 1]);
        assert(Seq::<u8>::empty() + Seq::<u8>::empty() =~= Seq::<u8>::empty());
    }
}

/// Law: a complete control sequence read with no escape open releases exactly
/// what finishing it releases; every control sequence other than SGR (final
/// byte `m`) passes through unchanged and keeps the background state.
pub proof fn law_control_sequence(st: OptimizerState, params: Seq<u8>, final_byte: u8)
    requires
        st.escape.len() == 0,
        is_control_sequence(params, final_byte),
    ensures
        run(st, control_sequence(params, final_byte)) == finish(
            control_sequence(params, final_byte),
            st.background_is_reset,
        ),
        final_byte != 109u8 ==> run(st, control_sequence(params, final_byte)) == (
        OptimizerState { escape: Seq::empty(), background_is_reset: st.background_is_reset },
        control_sequence(params, final_byte),
        ),
{
    let seqn = control_sequence(params, final_byte);
    lemma_open_sequence(st, params);
    assert(seqn.drop_last() =~= seq![ESC, 91u8] + params);
    assert((seq![ESC, 91u8] + params).push(final_byte) =~= seqn);
    let r = run(st, seqn);
    assert(Seq::<u8>::empty() + finish(seqn, st.background_is_reset).1 =~= finish(
        seqn,
        st.background_is_reset,
    ).1);
}

/// Law: an SGR sequence is only ever changed while the background is already
/// reset, and then only by dropping its trailing `;49` or the whole `ESC [ 49 m`.
pub proof fn law_sgr_changed_only_when_background_reset(escape: Seq<u8>, background_is_reset: bool)
    requires
        escape.len() > 2,
    ensures
        finish(escape, background_is_reset).1 != escape ==> background_is_reset && (finish(
            escape,
            background_is_reset,
        ).1 == Seq::<u8>::empty() || finish(escape, background_is_reset).1 == escape.take(
            escape.len() - 4,
        ).push(109u8)),
{
}

proof fn lemma_sgr_numbers_of_reset()
    ensures
        sgr_numbers(seq![52u8, 57u8]) == seq![49u16],
{
    let t = seq![52u8, 57u8];
    lemma_first_index_unique(t, 59u8, 2);
    assert(t.take(2) =~= t);
    let cs = latin1(t);
    assert(cs =~= seq!['4', '9']);
    assert(unsigned_digits(cs) == cs);
    assert(cs.drop_last() =~= seq!['4']);
    assert(seq!['4'].drop_last() =~= Seq::<char>::empty());
    assert(digits_value(Seq::<char>::empty()) == 0);
    assert(seq!['4'].last() == '4');
    assert(cs.last() == '9');
    assert(digits_value(seq!['4']) == 4);
    assert(digits_value(cs) == 49);
    assert(all_digits(cs)) by {
        assert forall|i: int| 0 <= i < cs.len() implies is_digit(#[trigger] cs[i]) by {}
    }
    assert(sgr_field(t) == Some(49u16));
    assert(seq![49u16] + Seq::<u16>::empty() =~= seq![49u16]);
}

/// Appending `;49` to an SGR body appends the number 49.
proof fn lemma_sgr_numbers_append_reset(b: Seq<u8>)
    ensures
        sgr_numbers(b + seq![59u8, 52u8, 57u8]) == sgr_numbers(b) + seq![49u16],
    decreases b.len(),
{
    let tail = seq![59u8, 52u8, 57u8];
    let t = b + tail;
    lemma_first_index(b, 59u8);
    let j = first_index(b, 59u8);
    lemma_first_index_unique(t, 59u8, j);
    let head: Seq<u16> = match sgr_field(b.take(j)) {
        Some(n) => seq![n],
        None => Seq::<u16>::empty(),
    };
    assert(t.take(j) =~= b.take(j));
    if j < b.len() {
        assert(t.skip(j + 1) =~= b.skip(j + 1) + tail);
        lemma_sgr_numbers_append_reset(b.skip(j + 1));
        assert(head + (sgr_numbers(b.skip(j + 1)) + seq![49u16]) =~= (head + sgr_numbers(
            b.skip(j + 1),
        )) + seq![49u16]);
    } else {
        assert(t.skip(j + 1) =~= seq![52u8, 57u8]);
        lemma_sgr_numbers_of_reset();
    }
}

/// The background flag is reset only where the rendition's background is the default.
proof fn lemma_flag_tracks_background(params: Seq<u16>, i: int, flag: bool, r: Rendition)
    requires
        0 <= i,
        flag ==> r.background == Seq::<u16>::empty(),
    ensures
        background_reset_from(params, i, flag) ==> rendition_from(params, i, r).background
            == Seq::<u16>::empty(),
    decreases params.len() - i,
{
    if i < params.len() {
        let p = params[i];
        let n = parameter_step(params, i);
        let next_flag = if p == 0 || p == 49 {
            true
        } else if p == 48 || is_basic_background(p) {
            false
        } else {
            flag
        };
        let group = params.subrange(i, i + n);
        let next = if p == 0 {
            default_rendition()
        } else if p == 38 || is_basic_foreground(p) {
            Rendition { foreground: group, ..r }
        } else if p == 48 || is_basic_background(p) {
            Rendition { background: group, ..r }
        } else if p == 39 {
            Rendition { foreground: Seq::empty(), ..r }
        } else if p == 49 {
            Rendition { background: Seq::empty(), ..r }
        } else {
            Rendition { attributes: r.attributes.push(p), ..r }
        };
        assert(next_flag ==> next.background == Seq::<u16>::empty());
        if n >= 1 {
            lemma_flag_tracks_background(params, i + n, next_flag, next);
        }
    }
}

/// Parameters that select no background keep a default background.
proof fn lemma_no_background_keeps_default(params: Seq<u16>, i: int, r: Rendition)
    requires
        0 <= i,
        !sets_background_from(params, i),
        r.background == Seq::<u16>::empty(),
    ensures
        rendition_from(params, i, r).background == Seq::<u16>::empty(),
    decreases params.len() - i,
{
    if i < params.len() {
        let p = params[i];
        let n = parameter_step(params, i);
        let group = params.subrange(i, i + n);
        let next = if p == 0 {
            default_rendition()
        } else if p == 38 || is_basic_foreground(p) {
            Rendition { foreground: group, ..r }
        } else if p == 48 || is_basic_background(p) {
            Rendition { background: group, ..r }
        } else if p == 39 {
            Rendition { foreground: Seq::empty(), ..r }
        } else if p == 49 {
            Rendition { background: Seq::empty(), ..r }
        } else {
            Rendition { attributes: r.attributes.push(p), ..r }
        };
        if n >= 1 {
            lemma_no_background_keeps_default(params, i + n, next);
        }
    }
}

/// Where the walk stops at the last parameter, the parameters before it take
/// the same steps with or without it, and it acts on its own after them.
proof fn lemma_walk_split(long: Seq<u16>, i: int, r: Rendition)
    requires
        long.len() >= 1,
        0 <= i <= long.len() - 1,
        reaches_from(long, i, long.len() - 1),
    ensures
        rendition_from(long, i, r) == rendition_from(
            long,
            long.len() - 1,
            rendition_from(long.take(long.len() - 1), i, r),
        ),
        sets_background_from(long.take(long.len() - 1), i) ==> sets_background_from(long, i),
    decreases long.len() - i,
{
    let last = long.len() - 1;
    let short = long.take(last);
    if i < last {
        let n = parameter_step(long, i);
        assert(n >= 1);
        assert(reaches_from(long, i + n, last));
        assert(i + n <= last);
        let a = short.skip(i);
        let b = long.skip(i);
        assert(a.len() == last - i);
        assert(b.len() == last - i + 1);
        if a.len() > 1 {
            assert(a[1] == b[1]);
        }
        assert(short[i] == long[i]);
        assert(parameter_step(short, i) == n);
        let group = long.subrange(i, i + n);
        assert(short.subrange(i, i + n) =~= group);
        let p = long[i];
        let next = if p == 0 {
            default_rendition()
        } else if p == 38 || is_basic_foreground(p) {
            Rendition { foreground: group, ..r }
        } else if p == 48 || is_basic_background(p) {
            Rendition { background: group, ..r }
        } else if p == 39 {
            Rendition { foreground: Seq::empty(), ..r }
        } else if p == 49 {
            Rendition { background: Seq::empty(), ..r }
        } else {
            Rendition { attributes: r.attributes.push(p), ..r }
        };
        lemma_walk_split(long, i + n, next);
    }
}

/// Law: what the optimizer releases for an SGR sequence has the same effect on
/// the terminal's rendition (foreground, background and attributes) as the
/// sequence itself, whenever the background is the default while the optimizer
/// holds it reset; and after the sequence the optimizer holds the background
/// reset only where it is the default. A dropped sequence changes nothing.
pub proof fn law_sgr_release_keeps_rendition(body: Seq<u8>, background_is_reset: bool, r: Rendition)
    requires
        background_is_reset ==> r.background == Seq::<u16>::empty(),
    ensures
        ({
            let (st, out) = finish(control_sequence(body, 109u8), background_is_reset);
            &&& out.len() == 0 ==> sgr_effect(body, r) == r
            &&& out.len() != 0 ==> out.len() >= 3 && out == control_sequence(
                out.subrange(2, out.len() - 1),
                109u8,
            ) && sgr_effect(out.subrange(2, out.len() - 1), r) == sgr_effect(body, r)
            &&& st.background_is_reset ==> sgr_effect(body, r).background == Seq::<u16>::empty()
        }),
{
    let e = control_sequence(body, 109u8);
    let len = e.len() as int;
    assert(e.subrange(2, len - 1) =~= body);
    let (st, out) = finish(e, background_is_reset);
    if sgr_numbers(body).len() != 0 {
        lemma_flag_tracks_background(sgr_numbers(body), 0, background_is_reset, r);
    }
    if out.len() == 0 {
        assert(body =~= seq![52u8, 57u8]);
        lemma_sgr_numbers_of_reset();
        let next = Rendition { background: Seq::empty(), ..r };
        assert(next == r);
        assert(rendition_from(seq![49u16], 1, next) == next);
    } else if out == e {
        assert(out =~= control_sequence(out.subrange(2, out.len() - 1), 109u8));
    } else {
        let kept = body.take(body.len() - 3);
        assert(body =~= kept + seq![59u8, 52u8, 57u8]);
        lemma_sgr_numbers_append_reset(kept);
        let long = sgr_numbers(body);
        let last = long.len() - 1;
        assert(long.take(last) =~= sgr_numbers(kept));
        assert(long[last] == 49);
        lemma_walk_split(long, 0, r);
        let s = rendition_from(sgr_numbers(kept), 0, r);
        lemma_no_background_keeps_default(sgr_numbers(kept), 0, r);
        let next = Rendition { background: Seq::empty(), ..s };
        assert(next == s);
        assert(parameter_step(long, last) == 1);
        assert(rendition_from(long, last + 1, next) == next);
        assert(out =~= control_sequence(kept, 109u8));
        assert(out.subrange(2, out.len() - 1) =~= kept);
    }
}

} // verus!
