//! Terminal colours and the two ways frames leave the renderer: a grouped
//! draw plan for an ordinary terminal, and a double-buffered shared frame.
use vstd::prelude::*;
use vstd::multiset::Multiset;
use crate::text::chars_of;

verus! {

/// A terminal colour: the sixteen named colours, an indexed one, an RGB one,
/// or the terminal's default.
#[derive(Debug, Clone, Copy, PartialEq, Eq, Structural)]
pub enum TerminalColor {
    Reset,
    Black,
    Red,
    Green,
    Yellow,
    Blue,
    Magenta,
    Cyan,
    Gray,
    DarkGray,
    LightRed,
    LightGreen,
    LightYellow,
    LightBlue,
    LightMagenta,
    LightCyan,
    White,
    Rgb(u8, u8, u8),
    Indexed(u8),
}

/// The RGB value that the shared frame stores for a colour.
pub open spec fn frame_color_spec(color: TerminalColor) -> (u8, u8, u8) {
    match color {
        TerminalColor::Rgb(r, g, b) => (r, g, b),
        TerminalColor::Black => (0, 0, 0),
        TerminalColor::Red => (178, 24, 24),
        TerminalColor::Green => (24, 178, 24),
        TerminalColor::Yellow => (178, 104, 24),
        TerminalColor::Blue => (24, 24, 178),
        TerminalColor::Magenta => (178, 24, 178),
        TerminalColor::Cyan => (24, 178, 178),
        TerminalColor::Gray => (178, 178, 178),
        TerminalColor::DarkGray => (104, 104, 104),
        TerminalColor::LightRed => (255, 84, 84),
        TerminalColor::LightGreen => (84, 255, 84),
        TerminalColor::LightYellow => (255, 255, 84),
        TerminalColor::LightBlue => (84, 84, 255),
        TerminalColor::LightMagenta => (255, 84, 255),
        TerminalColor::LightCyan => (84, 255, 255),
        TerminalColor::White | TerminalColor::Reset | TerminalColor::Indexed(_) => (255, 255, 255),
    }
}

/// The RGB value that the shared frame stores for a colour.
pub fn frame_color(color: TerminalColor) -> (r: (u8, u8, u8))
    ensures
        r == frame_color_spec(color),
{
    match color {
        TerminalColor::Rgb(r, g, b) => (r, g, b),
        TerminalColor::Black => (0, 0, 0),
        TerminalColor::Red => (178, 24, 24),
        TerminalColor::Green => (24, 178, 24),
        TerminalColor::Yellow => (178, 104, 24),
        TerminalColor::Blue => (24, 24, 178),
        TerminalColor::Magenta => (178, 24, 178),
        TerminalColor::Cyan => (24, 178, 178),
        TerminalColor::Gray => (178, 178, 178),
        TerminalColor::DarkGray => (104, 104, 104),
        TerminalColor::LightRed => (255, 84, 84),
        TerminalColor::LightGreen => (84, 255, 84),
        TerminalColor::LightYellow => (255, 255, 84),
        TerminalColor::LightBlue => (84, 84, 255),
        TerminalColor::LightMagenta => (255, 84, 255),
        TerminalColor::LightCyan => (84, 255, 255),
        TerminalColor::White | TerminalColor::Reset | TerminalColor::Indexed(_) => (255, 255, 255),
    }
}

/// A colour channel rounded to the nearest multiple of eight, at most 255.
pub open spec fn stabilized_channel(channel: u8) -> u8 {
    let rounded = (channel + 4) / 8 * 8;
    if rounded > 255 {
        255
    } else {
        rounded as u8
    }
}

/// Rounds a colour channel to the nearest multiple of eight, saturating at
/// 255, so that nearly equal colours share one escape sequence.
pub fn stabilize_color_channel(channel: u8) -> (r: u8)
    ensures
        r == stabilized_channel(channel),
{
    let rounded: u16 = ((channel as u16 + 4) / 8) * 8;
    if rounded > 255 {
        255
    } else {
        rounded as u8
    }
}

/// Law: stabilising moves a channel by at most four, keeps 0 and 255, and a
/// stabilised channel stays as it is.
pub proof fn law_stabilized_channel(channel: u8)
    ensures
        -4 <= stabilized_channel(channel) - channel <= 4,
        stabilized_channel(0) == 0,
        stabilized_channel(255) == 255,
        stabilized_channel(stabilized_channel(channel)) == stabilized_channel(channel),
{
    let c = channel as int;
    let q = (c + 4) / 8;
    assert(0 <= (c + 4) - q * 8 < 8);
    let s = stabilized_channel(channel) as int;
    let q2 = (s + 4) / 8;
    assert(0 <= (s + 4) - q2 * 8 < 8);
}

/// A colour with its RGB channels stabilised; other colours are left as they are.
pub open spec fn stabilized_color(color: TerminalColor) -> TerminalColor {
    match color {
        TerminalColor::Rgb(r, g, b) => TerminalColor::Rgb(
            stabilized_channel(r),
            stabilized_channel(g),
            stabilized_channel(b),
        ),
        other => other,
    }
}

/// Stabilises the channels of an RGB foreground colour.
pub fn stabilize_color(color: TerminalColor) -> (r: TerminalColor)
    ensures
        r == stabilized_color(color),
{
    match color {
        TerminalColor::Rgb(r, g, b) => TerminalColor::Rgb(
            stabilize_color_channel(r),
            stabilize_color_channel(g),
            stabilize_color_channel(b),
        ),
        other => other,
    }
}

// ---------------------------------------------------------------------------
// Grouped drawing

/// One cell to draw, as the terminal buffer holds it.
pub struct CellInfo {
    pub x: u16,
    pub y: u16,
    pub symbol: String,
    pub fg: TerminalColor,
    pub bg: TerminalColor,
    pub underline: TerminalColor,
    /// The bits of the cell's text modifiers; zero when it has none.
    pub modifier_bits: u16,
}

/// A cell drawn with the grouped path: one ASCII byte in an RGB colour.
#[derive(Debug, Clone, Copy, PartialEq, Eq, Structural)]
pub struct RgbCell {
    pub x: u16,
    pub y: u16,
    pub symbol: u8,
    pub red: u8,
    pub green: u8,
    pub blue: u8,
}

/// The 24-bit key of an RGB colour.
pub open spec fn color_key_spec(red: u8, green: u8, blue: u8) -> u32 {
    ((red as int) * 65536 + (green as int) * 256 + (blue as int)) as u32
}

impl RgbCell {
    /// The cell's colour as one 24-bit number, red in the high byte.
    pub fn color_key(self) -> (r: u32)
        ensures
            r == color_key_spec(self.red, self.green, self.blue),
    {
        (self.red as u32) * 65536 + (self.green as u32) * 256 + (self.blue as u32)
    }
}

/// The order in which grouped cells are drawn: by colour, then row, column and symbol.
pub type CellOrderKey = (u8, u8, u8, u16, u16, u8);

/// The grouped cell of an order key.
pub open spec fn cell_of_key(k: CellOrderKey) -> RgbCell {
    RgbCell { red: k.0, green: k.1, blue: k.2, y: k.3, x: k.4, symbol: k.5 }
}

/// Whether `a` comes no later than `b` in the tuple order std defines: lexicographic.
pub open spec fn key_le(a: CellOrderKey, b: CellOrderKey) -> bool {
    ||| a.0 < b.0
    ||| (a.0 == b.0 && a.1 < b.1)
    ||| (a.0 == b.0 && a.1 == b.1 && a.2 < b.2)
    ||| (a.0 == b.0 && a.1 == b.1 && a.2 == b.2 && a.3 < b.3)
    ||| (a.0 == b.0 && a.1 == b.1 && a.2 == b.2 && a.3 == b.3 && a.4 < b.4)
    ||| (a.0 == b.0 && a.1 == b.1 && a.2 == b.2 && a.3 == b.3 && a.4 == b.4 && a.5 <= b.5)
}

pub open spec fn keys_sorted(s: Seq<CellOrderKey>) -> bool {
    forall|i: int, j: int| 0 <= i <= j < s.len() ==> key_le(s[i], s[j])
}

/// Calls `slice::sort_unstable` on tuples. Its documentation promises that
/// the slice ends sorted in ascending order and holds the same items; tuples
/// of integers are ordered lexicographically.
#[verifier::external_body]
fn sort_keys(v: &mut Vec<CellOrderKey>)
    ensures
        final(v)@.to_multiset() == old(v)@.to_multiset(),
        final(v)@.len() == old(v)@.len(),
        keys_sorted(final(v)@),
{
    v.sort_unstable();
}

/// Whether a cell is drawn with the grouped path: no background, underline
/// colour or modifier, a single ASCII character, and an RGB foreground.
pub open spec fn is_grouped(c: CellInfo) -> bool {
    &&& c.bg == TerminalColor::Reset
    &&& c.underline == TerminalColor::Reset
    &&& c.modifier_bits == 0
    &&& c.symbol@.len() == 1
    &&& (c.symbol@[0] as u32) < 128
    &&& c.fg is Rgb
}

/// The order key of a grouped cell.
pub open spec fn order_key(c: CellInfo) -> CellOrderKey {
    match c.fg {
        TerminalColor::Rgb(r, g, b) => (r, g, b, c.y, c.x, (c.symbol@[0] as u32) as u8),
        _ => (0, 0, 0, c.y, c.x, 0),
    }
}

/// The order keys of the grouped cells, in input order.
pub open spec fn grouped_keys(cells: Seq<CellInfo>) -> Seq<CellOrderKey>
    decreases cells.len(),
{
    if cells.len() == 0 {
        Seq::empty()
    } else {
        let rest = grouped_keys(cells.drop_last());
        if is_grouped(cells.last()) {
            rest.push(order_key(cells.last()))
        } else {
            rest
        }
    }
}

/// The indices of the cells that are not grouped, in input order.
pub open spec fn fallback_indices(cells: Seq<CellInfo>) -> Seq<usize>
    decreases cells.len(),
{
    if cells.len() == 0 {
        Seq::empty()
    } else {
        let rest = fallback_indices(cells.drop_last());
        if is_grouped(cells.last()) {
            rest
        } else {
            rest.push((cells.len() - 1) as usize)
        }
    }
}

/// Law: a cell goes to the fallback exactly when the grouped path cannot draw
/// it: it has a background colour, an underline colour or a modifier, its
/// symbol is not one ASCII character, or its foreground is not an RGB colour.
/// Fallback indices are those of the input, in increasing order, and every
/// other cell gives exactly one order key.
pub proof fn law_fallback_cells(cells: Seq<CellInfo>)
    requires
        cells.len() <= usize::MAX,
    ensures
        forall|j: int|
            0 <= j < fallback_indices(cells).len() ==> #[trigger] fallback_indices(cells)[j]
                < cells.len(),
        forall|j: int, k: int|
            0 <= j < k < fallback_indices(cells).len() ==> fallback_indices(cells)[j]
                < fallback_indices(cells)[k],
        forall|i: int|
            0 <= i < cells.len() ==> (fallback_indices(cells).contains(i as usize) <==> !(
            cells[i].bg == TerminalColor::Reset && cells[i].underline == TerminalColor::Reset
                && cells[i].modifier_bits == 0 && cells[i].symbol@.len() == 1 && (
            cells[i].symbol@[0] as u32) < 128 && cells[i].fg is Rgb)),
        grouped_keys(cells).len() + fallback_indices(cells).len() == cells.len(),
    decreases cells.len(),
{
    if cells.len() > 0 {
        let d = cells.drop_last();
        law_fallback_cells(d);
        let n = cells.len();
        let f = fallback_indices(cells);
        let fd = fallback_indices(d);
        if is_grouped(cells.last()) {
            assert(f == fd);
        } else {
            assert(f == fd.push((n - 1) as usize));
            assert forall|j: int, k: int| 0 <= j < k < f.len() implies f[j] < f[k] by {
                if k < fd.len() {
                    assert(f[j] == fd[j] && f[k] == fd[k]);
                } else {
                    assert(f[j] == fd[j]);
                    assert(fd[j] < d.len());
                }
            }
        }
        assert forall|i: int|
            0 <= i < cells.len() implies (f.contains(i as usize) <==> !(cells[i].bg
            == TerminalColor::Reset && cells[i].underline == TerminalColor::Reset
            && cells[i].modifier_bits == 0 && cells[i].symbol@.len() == 1 && (
            cells[i].symbol@[0] as u32) < 128 && cells[i].fg is Rgb)) by {
            if i < n - 1 {
                assert(cells[i] == d[i]);
                if f.contains(i as usize) {
                    let j = choose|j: int| 0 <= j < f.len() && f[j] == i as usize;
                    if j < fd.len() {
                        assert(fd[j] == i as usize);
                        assert(fd.contains(i as usize));
                    }
                }
                if fd.contains(i as usize) {
                    let j = choose|j: int| 0 <= j < fd.len() && fd[j] == i as usize;
                    assert(f[j] == i as usize);
                }
            } else {
                assert(cells[i] == cells.last());
                if f.contains(i as usize) {
                    let j = choose|j: int| 0 <= j < f.len() && f[j] == i as usize;
                    if j < fd.len() {
                        assert(fd[j] < d.len());
                    }
                } else if !is_grouped(cells.last()) {
                    assert(f[f.len() - 1] == (n - 1) as usize);
                }
            }
        }
    }
}

/// One terminal command of the grouped path.
#[derive(Debug, Clone, Copy, PartialEq, Eq, Structural)]
pub enum DrawOp {
    SetForeground(u8, u8, u8),
    MoveTo(u16, u16),
    Print(u8),
}

/// The state of emitting: the active colour key and the last cell printed.
pub struct EmitState {
    pub active: Option<u32>,
    pub last: Option<(u16, u16)>,
}

/// The commands that draw one more cell.
pub open spec fn emit_cell(st: EmitState, c: RgbCell) -> (EmitState, Seq<DrawOp>) {
    let key = color_key_spec(c.red, c.green, c.blue);
    let color_changes = st.active != Some(key);
    let set: Seq<DrawOp> = if color_changes {
        seq![DrawOp::SetForeground(c.red, c.green, c.blue)]
    } else {
        Seq::empty()
    };
    let last = if color_changes {
        None
    } else {
        st.last
    };
    let adjacent = match last {
        Some((x, y)) => c.x as int == x as int + 1 && c.y == y,
        None => false,
    };
    let moves: Seq<DrawOp> = if adjacent {
        Seq::empty()
    } else {
        seq![DrawOp::MoveTo(c.x, c.y)]
    };
    (EmitState { active: Some(key), last: Some((c.x, c.y)) }, set + moves + seq![DrawOp::Print(c.symbol)])
}

/// The commands that draw the cells in order, and the state after them.
pub open spec fn emit(cells: Seq<RgbCell>) -> (EmitState, Seq<DrawOp>)
    decreases cells.len(),
{
    if cells.len() == 0 {
        (EmitState { active: None, last: None }, Seq::empty())
    } else {
        let (st, ops) = emit(cells.drop_last());
        let (st2, more) = emit_cell(st, cells.last());
        (st2, ops + more)
    }
}

/// The plan for one grouped frame.
pub struct GroupedPlan {
    /// Indices of the cells to hand to an ordinary backend, in input order.
    pub fallback: Vec<usize>,
    /// The grouped cells in drawing order.
    pub order: Vec<CellOrderKey>,
    /// The commands that draw the grouped cells.
    pub ops: Vec<DrawOp>,
}

fn is_grouped_exec(c: &CellInfo) -> (r: Option<CellOrderKey>)
    ensures
        r is Some <==> is_grouped(*c),
        r matches Some(k) ==> k == order_key(*c),
{
    if c.bg != TerminalColor::Reset || c.underline != TerminalColor::Reset || c.modifier_bits != 0 {
        return None;
    }
    let sym = chars_of(c.symbol.as_str());
    if sym.len() != 1 || (sym[0] as u32) >= 128 {
        return None;
    }
    match c.fg {
        TerminalColor::Rgb(r, g, b) => {
            let s: u8 = sym[0] as u32 as u8;
            Some((r, g, b, c.y, c.x, s))
        },
        _ => None,
    }
}

/// Plans a frame: cells that the grouped path cannot draw go to the fallback
/// list; the others are ordered by colour, row and column, and drawn with one
/// colour change per colour and a cursor move only where the next cell is not
/// the right neighbour of the last.
pub fn plan_grouped_draw(cells: &Vec<CellInfo>) -> (plan: GroupedPlan)
    requires
        forall|i: int| 0 <= i < cells@.len() ==> #[trigger] cells@[i].x < u16::MAX,
    ensures
        plan.fallback@ == fallback_indices(cells@),
        plan.order@.to_multiset() == grouped_keys(cells@).to_multiset(),
        keys_sorted(plan.order@),
        plan.ops@ == emit(plan.order@.map_values(|k: CellOrderKey| cell_of_key(k))).1,
{
    let mut fallback: Vec<usize> = Vec::new();
    let mut order: Vec<CellOrderKey> = Vec::new();
    let mut i: usize = 0;
    while i < cells.len()
        invariant
            i <= cells@.len(),
            fallback@ == fallback_indices(cells@.take(i as int)),
            order@ == grouped_keys(cells@.take(i as int)),
            forall|k: int| 0 <= k < order@.len() ==> (#[trigger] order@[k]).4 < u16::MAX,
            forall|j: int| 0 <= j < cells@.len() ==> #[trigger] cells@[j].x < u16::MAX,
        decreases cells.len() - i,
    {
        let ghost prefix = cells@.take(i + 1);
        assert(prefix.drop_last() =~= cells@.take(i as int));
        assert(prefix.last() == cells@[i as int]);
        match is_grouped_exec(&cells[i]) {
            Some(k) => {
                order.push(k);
            },
            None => {
                fallback.push(i);
            },
        }
        i = i + 1;
    }
    assert(cells@.take(cells@.len() as int) =~= cells@);
    let ghost unsorted = order@;
    sort_keys(&mut order);
    proof {
        assert forall|k: int| 0 <= k < order@.len() implies (#[trigger] order@[k]).4 < u16::MAX by {
            let item = order@[k];
            order@.to_multiset_ensures();
            unsorted.to_multiset_ensures();
            assert(order@.contains(item));
            assert(order@.to_multiset().count(item) > 0);
            assert(unsorted.contains(item));
            let w = choose|w: int| 0 <= w < unsorted.len() && unsorted[w] == item;
        }
    }
    let ops = emit_ops(&order);
    GroupedPlan { fallback, order, ops }
}

/// The commands that draw the ordered cells.
fn emit_ops(order: &Vec<CellOrderKey>) -> (ops: Vec<DrawOp>)
    requires
        forall|k: int| 0 <= k < order@.len() ==> (#[trigger] order@[k]).4 < u16::MAX,
    ensures
        ops@ == emit(order@.map_values(|k: CellOrderKey| cell_of_key(k))).1,
{
    let ghost cells = order@.map_values(|k: CellOrderKey| cell_of_key(k));
    let mut ops: Vec<DrawOp> = Vec::new();
    let mut active: Option<u32> = None;
    let mut last: Option<(u16, u16)> = None;
    let mut i: usize = 0;
    while i < order.len()
        invariant
            i <= order@.len(),
            cells == order@.map_values(|k: CellOrderKey| cell_of_key(k)),
            forall|k: int| 0 <= k < order@.len() ==> (#[trigger] order@[k]).4 < u16::MAX,
            emit(cells.take(i as int)) == (EmitState { active, last }, ops@),
        decreases order.len() - i,
    {
        let (red, green, blue, y, x, symbol) = order[i];
        let cell = RgbCell { x, y, symbol, red, green, blue };
        assert(cell == cells[i as int]);
        let key = cell.color_key();
        let ghost before = ops@;
        let ghost st = EmitState { active, last };
        if active != Some(key) {
            ops.push(DrawOp::SetForeground(red, green, blue));
            active = Some(key);
            last = None;
        }
        let adjacent = match last {
            Some((lx, ly)) => lx < u16::MAX && x == lx + 1 && y == ly,
            None => false,
        };
        if !adjacent {
            ops.push(DrawOp::MoveTo(x, y));
        }
        ops.push(DrawOp::Print(symbol));
        last = Some((x, y));
        proof {
            let prefix = cells.take(i + 1);
            assert(prefix.drop_last() =~= cells.take(i as int));
            assert(prefix.last() == cell);
            let r = emit_cell(st, cell);
            assert(ops@ =~= before + r.1);
        }
        i = i + 1;
    }
    assert(cells.take(order@.len() as int) =~= cells);
    ops
}

/// What a terminal shows after the commands: for each position, the symbol
/// and the RGB colour printed there last.
pub struct Canvas {
    pub cursor: Option<(int, int)>,
    pub color: Option<(u8, u8, u8)>,
    pub cells: Map<(int, int), (u8, (u8, u8, u8))>,
}

/// Carries out one command: a colour change, a cursor move, or printing a
/// symbol at the cursor, which then moves one column right.
pub open spec fn paint_op(c: Canvas, op: DrawOp) -> Canvas {
    match op {
        DrawOp::SetForeground(r, g, b) => Canvas { color: Some((r, g, b)), ..c },
        DrawOp::MoveTo(x, y) => Canvas { cursor: Some((x as int, y as int)), ..c },
        DrawOp::Print(s) => match (c.cursor, c.color) {
            (Some((x, y)), Some(col)) => Canvas {
                cursor: Some((x + 1, y)),
                color: c.color,
                cells: c.cells.insert((x, y), (s, col)),
            },
            _ => c,
        },
    }
}

/// Carries out the commands in order.
pub open spec fn paint(c: Canvas, ops: Seq<DrawOp>) -> Canvas
    decreases ops.len(),
{
    if ops.len() == 0 {
        c
    } else {
        paint_op(paint(c, ops.drop_last()), ops.last())
    }
}

/// Writes each cell at its position in its colour, in order.
pub open spec fn write_cells(m: Map<(int, int), (u8, (u8, u8, u8))>, cells: Seq<RgbCell>) -> Map<
    (int, int),
    (u8, (u8, u8, u8)),
>
    decreases cells.len(),
{
    if cells.len() == 0 {
        m
    } else {
        let c = cells.last();
        write_cells(m, cells.drop_last()).insert(
            (c.x as int, c.y as int),
            (c.symbol, (c.red, c.green, c.blue)),
        )
    }
}

proof fn lemma_paint_concat(c: Canvas, a: Seq<DrawOp>, b: Seq<DrawOp>)
    ensures
        paint(c, a + b) == paint(paint(c, a), b),
    decreases b.len(),
{
    if b.len() == 0 {
        assert(a + b =~= a);
    } else {
        assert((a + b).drop_last() =~= a + b.drop_last());
        lemma_paint_concat(c, a, b.drop_last());
    }
}

proof fn lemma_paint_short(c: Canvas, ops: Seq<DrawOp>)
    requires
        ops.len() <= 1,
    ensures
        ops.len() == 0 ==> paint(c, ops) == c,
        ops.len() == 1 ==> paint(c, ops) == paint_op(c, ops[0]),
{
    if ops.len() == 1 {
        assert(ops.drop_last() =~= Seq::<DrawOp>::empty());
        assert(paint(c, ops.drop_last()) == c);
    }
}

proof fn lemma_color_key_injective(a: RgbCell, b: RgbCell)
    requires
        color_key_spec(a.red, a.green, a.blue) == color_key_spec(b.red, b.green, b.blue),
    ensures
        a.red == b.red && a.green == b.green && a.blue == b.blue,
{
}

/// Law: the grouped commands paint every cell with its symbol in its colour,
/// exactly as writing the cells one by one in the same order would; the
/// cursor skips and colour reuse never change what is painted.
pub proof fn law_grouped_commands_paint_cells(start: Canvas, cells: Seq<RgbCell>)
    ensures
        paint(start, emit(cells).1).cells == write_cells(start.cells, cells),
        ({
            let st = emit(cells).0;
            let p = paint(start, emit(cells).1);
            &&& (st.active matches Some(k) ==> p.color matches Some(col) && color_key_spec(
                col.0,
                col.1,
                col.2,
            ) == k)
            &&& (st.last matches Some(l) ==> p.cursor == Some((l.0 as int + 1, l.1 as int)))
            &&& (st.last is Some ==> st.active is Some)
        }),
    decreases cells.len(),
{
    if cells.len() > 0 {
        let rest = cells.drop_last();
        law_grouped_commands_paint_cells(start, rest);
        let (st, ops) = emit(rest);
        let c = cells.last();
        let (st2, more) = emit_cell(st, c);
        lemma_paint_concat(start, ops, more);
        let p = paint(start, ops);
        let key = color_key_spec(c.red, c.green, c.blue);
        let set: Seq<DrawOp> = if st.active != Some(key) {
            seq![DrawOp::SetForeground(c.red, c.green, c.blue)]
        } else {
            Seq::empty()
        };
        let last = if st.active != Some(key) {
            None
        } else {
            st.last
        };
        let adjacent = match last {
            Some((x, y)) => c.x as int == x as int + 1 && c.y == y,
            None => false,
        };
        let moves: Seq<DrawOp> = if adjacent {
            Seq::empty()
        } else {
            seq![DrawOp::MoveTo(c.x, c.y)]
        };
        let pr = seq![DrawOp::Print(c.symbol)];
        assert(more == set + moves + pr);
        lemma_paint_concat(p, set + moves, pr);
        lemma_paint_concat(p, set, moves);
        let p1 = paint(p, set);
        lemma_paint_short(p, set);
        if st.active != Some(key) {
            assert(p1.color == Some((c.red, c.green, c.blue)));
        } else {
            let col = p.color->0;
            lemma_color_key_injective(c, RgbCell { red: col.0, green: col.1, blue: col.2, ..c });
            assert(p1.color == Some((c.red, c.green, c.blue)));
        }
        assert(p1.cells == p.cells);
        let p2 = paint(p1, moves);
        lemma_paint_short(p1, moves);
        if adjacent {
            assert(p1.cursor == Some((c.x as int, c.y as int)));
        }
        assert(p2.cursor == Some((c.x as int, c.y as int)));
        assert(p2.color == Some((c.red, c.green, c.blue)));
        assert(p2.cells == p.cells);
        lemma_paint_short(p2, pr);
    } else {
        assert(emit(cells).1 =~= Seq::<DrawOp>::empty());
    }
}

/// The position of an ordered cell.
pub open spec fn key_pos(k: CellOrderKey) -> (int, int) {
    (k.4 as int, k.3 as int)
}

/// What an ordered cell paints: its symbol and colour.
pub open spec fn key_paint(k: CellOrderKey) -> (u8, (u8, u8, u8)) {
    (k.5, (k.0, k.1, k.2))
}

/// No two cells share a position.
pub open spec fn positions_distinct(s: Seq<CellOrderKey>) -> bool {
    forall|i: int, j: int|
        0 <= i < s.len() && 0 <= j < s.len() && i != j ==> key_pos(#[trigger] s[i]) != key_pos(
            #[trigger] s[j],
        )
}

proof fn lemma_write_cells_miss(
    m: Map<(int, int), (u8, (u8, u8, u8))>,
    s: Seq<CellOrderKey>,
    p: (int, int),
)
    requires
        forall|i: int| 0 <= i < s.len() ==> key_pos(#[trigger] s[i]) != p,
    ensures
        write_cells(m, s.map_values(|k: CellOrderKey| cell_of_key(k))).contains_key(p)
            == m.contains_key(p),
        m.contains_key(p) ==> write_cells(m, s.map_values(|k: CellOrderKey| cell_of_key(k)))[p]
            == m[p],
    decreases s.len(),
{
    if s.len() > 0 {
        assert(s.map_values(|k: CellOrderKey| cell_of_key(k)).drop_last() =~= s.drop_last().map_values(
            |k: CellOrderKey| cell_of_key(k),
        ));
        assert(key_pos(s[s.len() - 1]) != p);
        lemma_write_cells_miss(m, s.drop_last(), p);
    }
}

proof fn lemma_write_cells_hit(
    m: Map<(int, int), (u8, (u8, u8, u8))>,
    s: Seq<CellOrderKey>,
    p: (int, int),
    v: (u8, (u8, u8, u8)),
)
    requires
        exists|i: int| 0 <= i < s.len() && key_pos(#[trigger] s[i]) == p,
        forall|i: int| 0 <= i < s.len() && key_pos(#[trigger] s[i]) == p ==> key_paint(s[i]) == v,
    ensures
        write_cells(m, s.map_values(|k: CellOrderKey| cell_of_key(k))).contains_key(p),
        write_cells(m, s.map_values(|k: CellOrderKey| cell_of_key(k)))[p] == v,
    decreases s.len(),
{
    let last = s[s.len() - 1];
    assert(s.map_values(|k: CellOrderKey| cell_of_key(k)).drop_last() =~= s.drop_last().map_values(
        |k: CellOrderKey| cell_of_key(k),
    ));
    if key_pos(last) != p {
        let i = choose|i: int| 0 <= i < s.len() && key_pos(#[trigger] s[i]) == p;
        assert(s.drop_last()[i] == s[i]);
        assert forall|j: int| 0 <= j < s.drop_last().len() && key_pos(
            #[trigger] s.drop_last()[j],
        ) == p implies key_paint(s.drop_last()[j]) == v by {
            assert(s.drop_last()[j] == s[j]);
        }
        lemma_write_cells_hit(m, s.drop_last(), p, v);
    }
}

/// Law: grouping never changes the picture. When no two grouped cells share
/// a position, the grouped commands paint exactly what writing the grouped
/// cells in their original order paints.
pub proof fn law_grouped_plan_paints_input_image(
    start: Canvas,
    input: Seq<CellOrderKey>,
    order: Seq<CellOrderKey>,
)
    requires
        order.to_multiset() == input.to_multiset(),
        positions_distinct(input),
    ensures
        paint(start, emit(order.map_values(|k: CellOrderKey| cell_of_key(k))).1).cells
            == write_cells(start.cells, input.map_values(|k: CellOrderKey| cell_of_key(k))),
{
    law_grouped_commands_paint_cells(start, order.map_values(|k: CellOrderKey| cell_of_key(k)));
    order.to_multiset_ensures();
    input.to_multiset_ensures();
    let a = write_cells(start.cells, order.map_values(|k: CellOrderKey| cell_of_key(k)));
    let b = write_cells(start.cells, input.map_values(|k: CellOrderKey| cell_of_key(k)));
    assert forall|p: (int, int)| #![trigger a.contains_key(p)] #![trigger b.contains_key(p)]
        (a.contains_key(p) == b.contains_key(p)) && (a.contains_key(p) ==> a[p] == b[p]) by {
        if exists|i: int| 0 <= i < input.len() && key_pos(#[trigger] input[i]) == p {
            let i = choose|i: int| 0 <= i < input.len() && key_pos(#[trigger] input[i]) == p;
            let c = input[i];
            assert forall|j: int| 0 <= j < input.len() && key_pos(#[trigger] input[j]) == p implies key_paint(
                input[j],
            ) == key_paint(c) by {
                if j != i {
                    assert(key_pos(input[j]) != key_pos(input[i]));
                }
            }
            lemma_write_cells_hit(start.cells, input, p, key_paint(c));
            assert(input.contains(c));
            assert(input.to_multiset().count(c) > 0);
            assert(order.to_multiset().count(c) > 0);
            assert(order.contains(c));
            assert forall|j: int| 0 <= j < order.len() && key_pos(#[trigger] order[j]) == p implies key_paint(
                order[j],
            ) == key_paint(c) by {
                assert(order.contains(order[j]));
                assert(order.to_multiset().count(order[j]) > 0);
                assert(input.to_multiset().count(order[j]) > 0);
                assert(input.contains(order[j]));
                let w = choose|w: int| 0 <= w < input.len() && input[w] == order[j];
                if w != i {
                    assert(key_pos(input[w]) != key_pos(input[i]));
                }
            }
            lemma_write_cells_hit(start.cells, order, p, key_paint(c));
        } else {
            lemma_write_cells_miss(start.cells, input, p);
            assert forall|j: int| 0 <= j < order.len() implies key_pos(#[trigger] order[j]) != p by {
                assert(order.contains(order[j]));
                assert(order.to_multiset().count(order[j]) > 0);
                assert(input.to_multiset().count(order[j]) > 0);
                assert(input.contains(order[j]));
                let w = choose|w: int| 0 <= w < input.len() && input[w] == order[j];
                assert(key_pos(input[w]) != p);
            }
            lemma_write_cells_miss(start.cells, order, p);
        }
    }
    assert(a =~= b);
}

// ---------------------------------------------------------------------------
// Shared frames

/// Bytes of the shared frame header.
pub const SHARED_FRAME_HEADER_SIZE: usize = 64;

/// Bytes per cell: a code point and an RGBA colour.
pub const SHARED_FRAME_CELL_SIZE: usize = 8;

/// Offset of the generation in the header.
pub const SHARED_FRAME_GENERATION_OFFSET: usize = 32;

/// Offset of the published state in the header.
pub const SHARED_FRAME_STATE_OFFSET: u64 = 16;

/// Why a shared frame cannot be made.
#[derive(Debug, Clone, Copy, PartialEq, Eq, Structural)]
pub enum FrameError {
    /// A dimension is zero.
    EmptyDimensions,
    /// The cell buffer does not fit in memory addresses.
    DimensionsOverflow,
    /// The file would not fit in memory addresses.
    FileSizeOverflow,
}

/// The little-endian bytes of a 32-bit number.
pub open spec fn le32(v: u32) -> Seq<u8> {
    seq![
        (v % 256) as u8,
        ((v / 256) % 256) as u8,
        ((v / 65536) % 256) as u8,
        ((v / 16777216) % 256) as u8,
    ]
}

/// The little-endian bytes of a 64-bit number.
pub open spec fn le64(v: u64) -> Seq<u8> {
    le32((v % 4294967296) as u32) + le32((v / 4294967296) as u32)
}

fn le32_bytes(v: u32) -> (r: Vec<u8>)
    ensures
        r@ == le32(v),
{
    let mut r: Vec<u8> = Vec::new();
    r.push((v % 256) as u8);
    r.push(((v / 256) % 256) as u8);
    r.push(((v / 65536) % 256) as u8);
    r.push(((v / 16777216) % 256) as u8);
    assert(r@ =~= le32(v));
    r
}

fn le64_bytes(v: u64) -> (r: Vec<u8>)
    ensures
        r@ == le64(v),
{
    let mut r = le32_bytes((v % 4294967296) as u32);
    let mut high = le32_bytes((v / 4294967296) as u32);
    r.append(&mut high);
    r
}

/// The size of the cell buffer and of the whole file for a frame.
pub open spec fn frame_layout_spec(width: u16, height: u16) -> Result<(usize, usize), FrameError> {
    let cell_bytes = width as int * height as int * 8;
    if width == 0 || height == 0 {
        Err(FrameError::EmptyDimensions)
    } else if cell_bytes > usize::MAX {
        Err(FrameError::DimensionsOverflow)
    } else if 64 + 2 * cell_bytes > usize::MAX {
        Err(FrameError::FileSizeOverflow)
    } else {
        Ok((cell_bytes as usize, (64 + 2 * cell_bytes) as usize))
    }
}

/// The size of the cell buffer and of the file: a header and two buffers.
pub fn frame_layout(width: u16, height: u16) -> (r: Result<(usize, usize), FrameError>)
    ensures
        r == frame_layout_spec(width, height),
{
    if width == 0 || height == 0 {
        return Err(FrameError::EmptyDimensions);
    }
    let cells = match (width as usize).checked_mul(height as usize) {
        Some(c) => c,
        None => {
            proof {
                assert(width as int * height as int * 8 >= width as int * height as int) by (nonlinear_arith)
                    requires width >= 1, height >= 1;
            }
            return Err(FrameError::DimensionsOverflow);
        },
    };
    let cell_bytes = match cells.checked_mul(SHARED_FRAME_CELL_SIZE) {
        Some(c) => c,
        None => {
            return Err(FrameError::DimensionsOverflow);
        },
    };
    if cell_bytes > (usize::MAX - SHARED_FRAME_HEADER_SIZE) / 2 {
        return Err(FrameError::FileSizeOverflow);
    }
    let file_size = SHARED_FRAME_HEADER_SIZE + cell_bytes * 2;
    Ok((cell_bytes, file_size))
}

/// The generation stamped in the header: the low 64 bits of the time in
/// nanoseconds, mixed with the process id, and never zero.
pub open spec fn frame_generation_spec(nanos: u128, pid: u32) -> u64 {
    let g = ((nanos % 0x1_0000_0000_0000_0000) as u64) ^ (pid as u64);
    if g < 1 {
        1
    } else {
        g
    }
}

pub fn frame_generation(nanos: u128, pid: u32) -> (r: u64)
    ensures
        r == frame_generation_spec(nanos, pid),
        r >= 1,
{
    let low: u64 = (nanos % 0x1_0000_0000_0000_0000) as u64;
    let g = low ^ (pid as u64);
    if g < 1 {
        1
    } else {
        g
    }
}

/// The 64-byte header: the magic `DTUI001\0`, width and height as 32-bit
/// numbers at 8 and 12, the cell size at 24, the generation at 32; the rest zero.
pub open spec fn frame_header_spec(width: u16, height: u16, generation: u64) -> Seq<u8> {
    seq![68u8, 84u8, 85u8, 73u8, 48u8, 48u8, 49u8, 0u8] + le32(width as u32) + le32(height as u32)
        + Seq::new(8, |i: int| 0u8) + le32(8) + Seq::new(4, |i: int| 0u8) + le64(generation)
        + Seq::new(24, |i: int| 0u8)
}

fn push_zeros(v: &mut Vec<u8>, n: usize)
    ensures
        final(v)@ == old(v)@ + Seq::new(n as nat, |i: int| 0u8),
{
    let ghost start = old(v)@;
    let mut i: usize = 0;
    while i < n
        invariant
            i <= n,
            v@ == start + Seq::new(i as nat, |k: int| 0u8),
        decreases n - i,
    {
        v.push(0);
        i = i + 1;
        assert(v@ =~= start + Seq::new(i as nat, |k: int| 0u8));
    }
}

/// The header bytes of a shared frame.
pub fn frame_header(width: u16, height: u16, generation: u64) -> (r: Vec<u8>)
    ensures
        r@ == frame_header_spec(width, height, generation),
        r@.len() == SHARED_FRAME_HEADER_SIZE,
{
    let mut h: Vec<u8> = vec![68u8, 84u8, 85u8, 73u8, 48u8, 48u8, 49u8, 0u8];
    let mut w = le32_bytes(width as u32);
    h.append(&mut w);
    let mut ht = le32_bytes(height as u32);
    h.append(&mut ht);
    push_zeros(&mut h, 8);
    let mut cs = le32_bytes(8);
    h.append(&mut cs);
    push_zeros(&mut h, 4);
    let mut g = le64_bytes(generation);
    h.append(&mut g);
    push_zeros(&mut h, 24);
    assert(h@ =~= frame_header_spec(width, height, generation));
    h
}

/// The bytes of a cell holding a code point in an RGB colour, fully opaque.
pub open spec fn cell_bytes_spec(codepoint: u32, color: (u8, u8, u8)) -> Seq<u8> {
    le32(codepoint) + seq![color.0, color.1, color.2, 255u8]
}

/// The bytes of an empty cell: a space in white.
pub open spec fn blank_cell() -> Seq<u8> {
    cell_bytes_spec(32, (255, 255, 255))
}

/// Where the next frame goes and the state word that publishes it.
#[derive(Debug, Clone, Copy, PartialEq, Eq, Structural)]
pub struct FlushPlan {
    /// Offset in the file of the buffer to write the cells to.
    pub offset: u64,
    /// The state word to write at offset 16 once the cells are written.
    pub state: u64,
}

/// A frame published through a file: the cells of one frame, the cursor, and
/// how many frames have been published.
pub struct SharedFrame {
    width: u16,
    height: u16,
    cursor: (u16, u16),
    cells: Vec<u8>,
    sequence: u64,
}

impl SharedFrame {
    pub closed spec fn width(&self) -> u16 {
        self.width
    }

    pub closed spec fn height(&self) -> u16 {
        self.height
    }

    pub closed spec fn cells(&self) -> Seq<u8> {
        self.cells@
    }

    pub closed spec fn sequence(&self) -> u64 {
        self.sequence
    }

    pub closed spec fn cursor(&self) -> (u16, u16) {
        self.cursor
    }

    /// The bytes of cell `i`.
    pub open spec fn cell(&self, i: int) -> Seq<u8> {
        self.cells().subrange(8 * i, 8 * i + 8)
    }

    /// Holds eight bytes for each of `width * height` cells, and the file of
    /// a header and two buffers fits in memory addresses.
    pub closed spec fn well_formed(&self) -> bool {
        &&& self.width > 0
        &&& self.height > 0
        &&& self.cells@.len() == 8 * (self.width as int * self.height as int)
        &&& 64 + 2 * self.cells@.len() <= usize::MAX
    }

    /// A frame of `width` by `height` blank cells, nothing published yet.
    pub fn new(width: u16, height: u16) -> (r: Result<Self, FrameError>)
        ensures
            match frame_layout_spec(width, height) {
                Err(e) => r == Err::<Self, FrameError>(e),
                Ok(_) => r matches Ok(f) && f.well_formed() && f.width() == width && f.height()
                    == height && f.sequence() == 0 && f.cursor() == (0u16, 0u16) && forall|i: int|
                    0 <= i < width as int * height as int ==> #[trigger] f.cell(i) == blank_cell(),
            },
    {
        let (cell_bytes, _file_size) = match frame_layout(width, height) {
            Ok(l) => l,
            Err(e) => {
                return Err(e);
            },
        };
        let mut cells: Vec<u8> = Vec::new();
        push_zeros(&mut cells, cell_bytes);
        let mut frame = SharedFrame { width, height, cursor: (0, 0), cells, sequence: 0 };
        assert(frame.cells@.len() == 8 * (width as int * height as int)) by (nonlinear_arith)
            requires frame.cells@.len() == width as int * height as int * 8;
        frame.clear_cells();
        Ok(frame)
    }

    /// Blanks every cell.
    pub fn clear_cells(&mut self)
        requires
            old(self).well_formed(),
        ensures
            final(self).cells().len() == old(self).cells().len(),
            forall|i: int|
                0 <= i < old(self).width() as int * old(self).height() as int ==> #[trigger] final(self).cell(i) == blank_cell(),
            final(self).width() == old(self).width(),
            final(self).height() == old(self).height(),
            final(self).sequence() == old(self).sequence(),
            final(self).cursor() == old(self).cursor(),
            final(self).well_formed(),
    {
        let n = self.cells.len() / 8;
        let mut i: usize = 0;
        while i < n
            invariant
                i <= n,
                n * 8 == self.cells@.len(),
                self.cells@.len() == old(self).cells@.len(),
                forall|k: int| 0 <= k < i ==> #[trigger] self.cells@.subrange(8 * k, 8 * k + 8)
                    == blank_cell(),
                self.width == old(self).width,
                self.height == old(self).height,
                self.sequence == old(self).sequence,
                self.cursor == old(self).cursor,
            decreases n - i,
        {
            let ghost before = self.cells@;
            self.write_cell(i, 32, (255, 255, 255));
            proof {
                assert forall|k: int| 0 <= k < i + 1 implies #[trigger] self.cells@.subrange(
                    8 * k,
                    8 * k + 8,
                ) == blank_cell() by {
                    if k < i {
                        assert(self.cells@.subrange(8 * k, 8 * k + 8) =~= before.subrange(
                            8 * k,
                            8 * k + 8,
                        ));
                    }
                }
            }
            i = i + 1;
        }
    }

    /// Writes the bytes of cell `index`.
    fn write_cell(&mut self, index: usize, codepoint: u32, color: (u8, u8, u8))
        requires
            8 * index + 8 <= old(self).cells@.len(),
        ensures
            final(self).cells@ == old(self).cells@.subrange(0, 8 * index) + cell_bytes_spec(
                codepoint,
                color,
            ) + old(self).cells@.subrange(8 * index + 8, old(self).cells@.len() as int),
            final(self).width == old(self).width,
            final(self).height == old(self).height,
            final(self).sequence == old(self).sequence,
            final(self).cursor == old(self).cursor,
    {
        let bytes = le32_bytes(codepoint);
        let n = self.cells.len();
        let base = 8 * index;
        self.cells.set(base, bytes[0]);
        self.cells.set(base + 1, bytes[1]);
        self.cells.set(base + 2, bytes[2]);
        self.cells.set(base + 3, bytes[3]);
        self.cells.set(base + 4, color.0);
        self.cells.set(base + 5, color.1);
        self.cells.set(base + 6, color.2);
        self.cells.set(base + 7, 255);
        assert(self.cells@ =~= old(self).cells@.subrange(0, 8 * index) + cell_bytes_spec(
            codepoint,
            color,
        ) + old(self).cells@.subrange(8 * index + 8, old(self).cells@.len() as int));
    }

    /// Draws a cell: its first character, or a space, in its foreground
    /// colour. A position outside the frame is ignored.
    pub fn set_cell(&mut self, x: u16, y: u16, symbol: &str, fg: TerminalColor)
        requires
            old(self).well_formed(),
        ensures
            final(self).well_formed(),
            final(self).width() == old(self).width(),
            final(self).height() == old(self).height(),
            final(self).sequence() == old(self).sequence(),
            final(self).cursor() == old(self).cursor(),
            x >= old(self).width() || y >= old(self).height() ==> final(self).cells() == old(
                self,
            ).cells(),
            x < old(self).width() && y < old(self).height() ==> {
                let index = y as int * old(self).width() as int + x as int;
                let codepoint = if symbol@.len() > 0 {
                    symbol@[0] as u32
                } else {
                    32u32
                };
                final(self).cells() == old(self).cells().subrange(0, 8 * index) + cell_bytes_spec(
                    codepoint,
                    frame_color_spec(fg),
                ) + old(self).cells().subrange(8 * index + 8, old(self).cells().len() as int)
            },
    {
        if x >= self.width || y >= self.height {
            return;
        }
        proof {
            assert(y as int * self.width as int + x as int + 1 <= self.width as int
                * self.height as int) by (nonlinear_arith)
                requires
                    x < self.width,
                    y < self.height,
            ;
        }
        let index = (y as usize) * (self.width as usize) + (x as usize);
        let sym = chars_of(symbol);
        let codepoint: u32 = if sym.len() > 0 {
            sym[0] as u32
        } else {
            32
        };
        let color = frame_color(fg);
        self.write_cell(index, codepoint, color);
    }

    /// The cursor position.
    pub fn get_cursor_position(&self) -> (r: (u16, u16))
        ensures
            r == self.cursor(),
    {
        self.cursor
    }

    /// Moves the cursor.
    pub fn set_cursor_position(&mut self, x: u16, y: u16)
        ensures
            final(self).cursor() == (x, y),
            final(self).cells() == old(self).cells(),
            final(self).width() == old(self).width(),
            final(self).height() == old(self).height(),
            final(self).sequence() == old(self).sequence(),
            old(self).well_formed() ==> final(self).well_formed(),
    {
        self.cursor = (x, y);
    }

    /// The frame's size in cells.
    pub fn size(&self) -> (r: (u16, u16))
        ensures
            r == (self.width(), self.height()),
    {
        (self.width, self.height)
    }

    /// The frame's size in pixels, at nine by twenty pixels a cell, saturating.
    pub fn pixel_size(&self) -> (r: (u16, u16))
        ensures
            r.0 == (if self.width() * 9 > u16::MAX {
                u16::MAX as int
            } else {
                self.width() * 9
            }),
            r.1 == (if self.height() * 20 > u16::MAX {
                u16::MAX as int
            } else {
                self.height() * 20
            }),
    {
        let w: u32 = self.width as u32 * 9;
        let h: u32 = self.height as u32 * 20;
        (if w > 65535 {
            65535
        } else {
            w as u16
        }, if h > 65535 {
            65535
        } else {
            h as u16
        })
    }

    /// How many frames have been published.
    pub fn published_frames(&self) -> (r: u64)
        ensures
            r == self.sequence(),
    {
        self.sequence
    }

    /// The cell bytes to write.
    pub fn cell_bytes(&self) -> (r: &[u8])
        ensures
            r@ == self.cells(),
    {
        self.cells.as_slice()
    }

    /// Publishes the next frame: counts it, picks the buffer that the last
    /// frame did not use, and gives the offset of that buffer and the state
    /// word `sequence * 2 + buffer` (the sequence shifted left one bit).
    pub fn flush(&mut self) -> (plan: FlushPlan)
        requires
            old(self).well_formed(),
            old(self).sequence() < u64::MAX,
        ensures
            final(self).well_formed(),
            final(self).sequence() == old(self).sequence() + 1,
            final(self).cells() == old(self).cells(),
            final(self).width() == old(self).width(),
            final(self).height() == old(self).height(),
            final(self).cursor() == old(self).cursor(),
            plan.offset == 64 + (final(self).sequence() % 2) * final(self).cells().len(),
            plan.state == (final(self).sequence() as int * 2) % 0x1_0000_0000_0000_0000
                + final(self).sequence() % 2,
    {
        self.sequence = self.sequence + 1;
        let buffer_index = self.sequence % 2;
        let offset: usize = if buffer_index == 1 {
            SHARED_FRAME_HEADER_SIZE + self.cells.len()
        } else {
            SHARED_FRAME_HEADER_SIZE
        };
        let state = (self.sequence % 0x8000_0000_0000_0000) * 2 + buffer_index;
        proof {
            let s = self.sequence as int;
            assert((s * 2) % 0x1_0000_0000_0000_0000 == (s % 0x8000_0000_0000_0000) * 2) by (nonlinear_arith)
                requires 0 <= s;
        }
        proof {
            let len = self.cells@.len() as int;
            if buffer_index == 1 {
                assert((self.sequence % 2) as int * len == len);
            } else {
                assert((self.sequence % 2) as int * len == 0);
            }
        }
        FlushPlan { offset: offset as u64, state }
    }
}

/// Law: consecutive frames go to different buffers, and the state word names
/// the buffer in its low bit.
pub proof fn law_flush_alternates(sequence: u64)
    requires
        sequence < u64::MAX,
    ensures
        (sequence + 1) % 2 != sequence % 2,
        (((sequence + 1) as int * 2) % 0x1_0000_0000_0000_0000 + (sequence + 1) % 2) % 2 == (
        sequence + 1) % 2,
{
    let s = (sequence + 1) as int;
    assert(((s * 2) % 0x1_0000_0000_0000_0000) % 2 == 0) by (nonlinear_arith)
        requires 0 <= s;
}

/// Law: a cell read back after it is drawn holds what was drawn, and every
/// other cell keeps its bytes.
pub proof fn law_cell_reads_back(before: Seq<u8>, index: int, codepoint: u32, color: (u8, u8, u8), other: int)
    requires
        0 <= index,
        8 * index + 8 <= before.len(),
        0 <= other,
        8 * other + 8 <= before.len(),
        other != index,
    ensures
        ({
            let after = before.subrange(0, 8 * index) + cell_bytes_spec(codepoint, color)
                + before.subrange(8 * index + 8, before.len() as int);
            &&& after.subrange(8 * index, 8 * index + 8) == cell_bytes_spec(codepoint, color)
            &&& after.subrange(8 * other, 8 * other + 8) == before.subrange(8 * other, 8 * other + 8)
        }),
{
    let after = before.subrange(0, 8 * index) + cell_bytes_spec(codepoint, color)
        + before.subrange(8 * index + 8, before.len() as int);
    assert(after.subrange(8 * index, 8 * index + 8) =~= cell_bytes_spec(codepoint, color));
    assert(after.subrange(8 * other, 8 * other + 8) =~= before.subrange(8 * other, 8 * other + 8));
}

} // verus!
