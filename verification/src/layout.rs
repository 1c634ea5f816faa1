//! Where the renderer's parts go on the terminal grid.
use vstd::prelude::*;
use crate::sysinfo::{InfoGroup, SystemSnapshot};
use crate::template::{
    HorizontalAlignment, HorizontalPosition, SystemTemplate, VerticalAlignment, WidgetTemplate,
    includes_section_spec,
};

verus! {

/// A rectangle of terminal cells.
#[derive(Debug, Clone, Copy, PartialEq, Eq, Structural)]
pub struct Area {
    pub x: u16,
    pub y: u16,
    pub width: u16,
    pub height: u16,
}

/// The rectangle lies on the grid: it ends within the coordinate range.
pub open spec fn area_on_grid(a: Area) -> bool {
    a.x + a.width <= u16::MAX && a.y + a.height <= u16::MAX
}

/// The rows of margin above and below the content: the template's margin,
/// but at most half of the rows beyond the first.
pub fn content_margin(outer_margin: u16, height: u16) -> (r: u16)
    ensures
        r == (if outer_margin < (if height >= 1 {
            height - 1
        } else {
            0
        }) / 2 {
            outer_margin as int
        } else {
            (if height >= 1 {
                height - 1
            } else {
                0
            }) / 2
        }),
{
    let limit = if height >= 1 {
        (height - 1) / 2
    } else {
        0
    };
    if outer_margin < limit {
        outer_margin
    } else {
        limit
    }
}

/// The middle of three rows of `area` that ratatui's layout solver gives for
/// the constraints `Length(edge)`, `Min(1)`, `Length(edge)`.
pub uninterp spec fn vertical_middle(area: Area, edge: u16) -> Area;

/// The middle of three columns of `area` that ratatui's layout solver gives
/// for the constraints `Length(edge)`, `Min(1)`, `Length(edge)`.
pub uninterp spec fn horizontal_middle(area: Area, edge: u16) -> Area;

/// Calls `Layout::vertical([Length(edge), Min(1), Length(edge)]).areas(area)`
/// and gives back the middle area. The contract names the result, and states
/// it where both edges fit with a row to spare: then the solver meets every
/// constraint exactly and the middle is the area without `edge` rows at the
/// top and at the bottom. What the solver gives where they do not fit is left
/// unsaid.
#[verifier::external_body]
fn layout_vertical_middle(area: Area, edge: u16) -> (r: Area)
    ensures
        r == vertical_middle(area, edge),
        area_on_grid(area) && 2 * edge < area.height ==> r == (Area {
            x: area.x,
            y: (area.y + edge) as u16,
            width: area.width,
            height: (area.height - 2 * edge) as u16,
        }),
{
    let rect = ratatui::layout::Rect::new(area.x, area.y, area.width, area.height);
    let [_, middle, _] = ratatui::layout::Layout::vertical([
        ratatui::layout::Constraint::Length(edge),
        ratatui::layout::Constraint::Min(1),
        ratatui::layout::Constraint::Length(edge),
    ]).areas(rect);
    Area { x: middle.x, y: middle.y, width: middle.width, height: middle.height }
}

/// Calls `Layout::horizontal([Length(edge), Min(1), Length(edge)]).areas(area)`
/// and gives back the middle area. The contract names the result, and states
/// it where both edges fit with a column to spare: then the middle is the
/// area without `edge` columns at the left and at the right. What the solver
/// gives where they do not fit is left unsaid.
#[verifier::external_body]
fn layout_horizontal_middle(area: Area, edge: u16) -> (r: Area)
    ensures
        r == horizontal_middle(area, edge),
        area_on_grid(area) && 2 * edge < area.width ==> r == (Area {
            x: (area.x + edge) as u16,
            y: area.y,
            width: (area.width - 2 * edge) as u16,
            height: area.height,
        }),
{
    let rect = ratatui::layout::Rect::new(area.x, area.y, area.width, area.height);
    let [_, middle, _] = ratatui::layout::Layout::horizontal([
        ratatui::layout::Constraint::Length(edge),
        ratatui::layout::Constraint::Min(1),
        ratatui::layout::Constraint::Length(edge),
    ]).areas(rect);
    Area { x: middle.x, y: middle.y, width: middle.width, height: middle.height }
}

/// The margin that [`content_margin`] gives.
pub open spec fn content_margin_spec(outer_margin: u16, height: u16) -> u16 {
    let limit = (if height >= 1 {
        height - 1
    } else {
        0
    }) / 2;
    if outer_margin < limit {
        outer_margin
    } else {
        limit as u16
    }
}

/// The content area of the frame: the rows between the top and bottom margins.
pub fn content_area(frame: Area, outer_margin: u16) -> (r: Area)
    ensures
        r == vertical_middle(frame, content_margin_spec(outer_margin, frame.height)),
        area_on_grid(frame) && frame.height >= 1 ==> r == (Area {
            x: frame.x,
            y: (frame.y + content_margin_spec(outer_margin, frame.height)) as u16,
            width: frame.width,
            height: (frame.height - 2 * content_margin_spec(outer_margin, frame.height)) as u16,
        }),
{
    let margin = content_margin(outer_margin, frame.height);
    layout_vertical_middle(frame, margin)
}

/// Where the model is drawn: the content area without its first and last column.
pub fn mesh_stage(content: Area) -> (r: Area)
    ensures
        r == horizontal_middle(content, 1),
        area_on_grid(content) && content.width >= 3 ==> r == (Area {
            x: (content.x + 1) as u16,
            y: content.y,
            width: (content.width - 2) as u16,
            height: content.height,
        }),
{
    layout_horizontal_middle(content, 1)
}

/// The width of the information column: the template's share of the
/// content width, at least one cell and at most the whole width.
pub open spec fn column_width(area_width: u16, percent: u16) -> int {
    let w = area_width as int * percent as int / 100;
    let w1 = if w < 1 {
        1
    } else {
        w
    };
    if w1 > area_width {
        area_width as int
    } else {
        w1
    }
}

/// The information column inside the content area.
pub open spec fn system_area_spec(area: Area, config_width: u16, position: HorizontalPosition) -> Area {
    let width = column_width(area.width, config_width);
    let x = match position {
        HorizontalPosition::Left => area.x as int,
        HorizontalPosition::Center => area.x + (area.width - width) / 2,
        HorizontalPosition::Right => area.x + (area.width - width),
    };
    Area { x: x as u16, y: area.y, width: width as u16, height: area.height }
}

/// Places the information column inside the content area.
pub fn system_area(area: Area, config: &SystemTemplate) -> (r: Area)
    requires
        area_on_grid(area),
    ensures
        r == system_area_spec(area, config.width_percent, config.horizontal_position),
        area_on_grid(r),
        area.x <= r.x,
        r.x + r.width <= area.x + area.width,
{
    proof {
        assert(area.width as int * config.width_percent as int <= 65535 * 65535) by (nonlinear_arith)
            requires area.width <= 65535, config.width_percent <= 65535;
    }
    let scaled: u32 = (area.width as u32) * (config.width_percent as u32) / 100;
    let at_least_one: u32 = if scaled < 1 {
        1
    } else {
        scaled
    };
    let width: u16 = if at_least_one > area.width as u32 {
        area.width
    } else {
        at_least_one as u16
    };
    let x = match config.horizontal_position {
        HorizontalPosition::Left => area.x,
        HorizontalPosition::Center => area.x + (area.width - width) / 2,
        HorizontalPosition::Right => area.x + (area.width - width),
    };
    Area { x, y: area.y, width, height: area.height }
}

/// One line of the information block.
#[derive(Debug, Clone, Copy, PartialEq, Eq, Structural)]
pub enum IdentityLine {
    /// The identity title.
    Title,
    /// An empty line.
    Blank,
    /// The title of a group.
    GroupTitle(usize),
    /// A row of a group.
    Row(usize, usize),
}

/// Whether a group is shown: it has rows and the template includes it.
pub open spec fn group_shown(g: InfoGroup, sections: Seq<String>) -> bool {
    g.rows@.len() > 0 && includes_section_spec(sections, g.title@)
}

/// The lines of a shown group: a blank line unless it is the first, its
/// title, and its rows.
pub open spec fn group_lines(index: int, rows: int, first: bool) -> Seq<IdentityLine> {
    (if first {
        Seq::empty()
    } else {
        seq![IdentityLine::Blank]
    }) + seq![IdentityLine::GroupTitle(index as usize)] + Seq::new(
        rows as nat,
        |r: int| IdentityLine::Row(index as usize, r as usize),
    )
}

/// The lines after the first groups, how many groups were shown, and
/// whether a group no longer fitted. Groups are shown in order while they
/// fit in `height` rows; the first that does not fit ends the block.
pub open spec fn identity_lines(groups: Seq<InfoGroup>, sections: Seq<String>, height: int) -> (
    Seq<IdentityLine>,
    int,
    bool,
)
    decreases groups.len(),
{
    if groups.len() == 0 {
        (seq![IdentityLine::Title, IdentityLine::Blank], 0, false)
    } else {
        let (lines, shown, full) = identity_lines(groups.drop_last(), sections, height);
        let g = groups.last();
        if full || !group_shown(g, sections) {
            (lines, shown, full)
        } else {
            let h = g.rows@.len() + 1 + if shown > 0 {
                1int
            } else {
                0
            };
            if lines.len() + h > height {
                (lines, shown, true)
            } else {
                (
                    lines + group_lines(groups.len() - 1, g.rows@.len() as int, shown == 0),
                    shown + 1,
                    false,
                )
            }
        }
    }
}

/// The information block: its lines, its rectangle, and how its lines are aligned.
pub struct IdentityLayout {
    pub lines: Vec<IdentityLine>,
    pub area: Area,
    pub alignment: HorizontalAlignment,
}

/// The row where a block of `content` rows starts inside `area`.
pub open spec fn block_top(area: Area, content: int, alignment: VerticalAlignment) -> int {
    match alignment {
        VerticalAlignment::Top => area.y as int,
        VerticalAlignment::Center => area.y + (area.height - content) / 2,
        VerticalAlignment::Bottom => area.y + (area.height - content),
    }
}

proof fn lemma_identity_lines_fit(groups: Seq<InfoGroup>, sections: Seq<String>, height: int)
    requires
        height >= 2,
    ensures
        identity_lines(groups, sections, height).0.len() <= height,
        identity_lines(groups, sections, height).1 >= 0,
    decreases groups.len(),
{
    if groups.len() > 0 {
        lemma_identity_lines_fit(groups.drop_last(), sections, height);
    }
}

/// Lays out the information block, or nothing when the area is smaller
/// than twenty columns by eight rows.
pub fn identity_layout(area: Area, snapshot: &SystemSnapshot, template: &WidgetTemplate) -> (r:
    Option<IdentityLayout>)
    requires
        area_on_grid(area),
    ensures
        area.width < 20 || area.height < 8 ==> r is None,
        area.width >= 20 && area.height >= 8 ==> (r matches Some(l) && {
            let lines = identity_lines(
                snapshot.groups@,
                template.system.sections@,
                area.height as int,
            ).0;
            &&& l.lines@ == lines
            &&& l.area == Area {
                x: area.x,
                y: block_top(area, lines.len() as int, template.system.vertical_alignment) as u16,
                width: area.width,
                height: lines.len() as u16,
            }
            &&& l.alignment == template.system.horizontal_alignment
            &&& lines.len() <= area.height
        }),
{
    if area.width < 20 || area.height < 8 {
        return None;
    }
    let height = area.height as usize;
    let mut lines: Vec<IdentityLine> = Vec::new();
    lines.push(IdentityLine::Title);
    lines.push(IdentityLine::Blank);
    let mut shown: usize = 0;
    let mut i: usize = 0;
    let n = snapshot.groups.len();
    let ghost groups = snapshot.groups@;
    let ghost sections = template.system.sections@;
    assert(lines@ =~= seq![IdentityLine::Title, IdentityLine::Blank]);
    assert(groups.take(groups.len() as int) =~= groups);
    assert(groups.take(0) =~= Seq::<InfoGroup>::empty());
    while i < n
        invariant_except_break
            i <= n == groups.len(),
            groups == snapshot.groups@,
            sections == template.system.sections@,
            height == area.height,
            height >= 8,
            identity_lines(groups.take(i as int), sections, height as int) == (
                lines@,
                shown as int,
                false,
            ),
            lines@.len() <= height,
            shown <= i,
            groups.take(groups.len() as int) == groups,
        ensures
            identity_lines(groups, sections, height as int).0 == lines@,
            lines@.len() <= height,
        decreases n - i,
    {
        proof {
            assert(groups.take(i + 1).drop_last() =~= groups.take(i as int));
            assert(groups.take(i + 1).last() == groups[i as int]);
        }
        let g = &snapshot.groups[i];
        if g.rows.len() > 0 && template.includes_section(g.title) {
            let extra: usize = if shown > 0 {
                1
            } else {
                0
            };
            if g.rows.len() > height || lines.len() + g.rows.len() + 1 + extra > height {
                proof {
                    lemma_full_stays(groups, sections, height as int, i as int + 1);
                }
                break;
            }
            if shown > 0 {
                lines.push(IdentityLine::Blank);
            }
            lines.push(IdentityLine::GroupTitle(i));
            let ghost before = lines@;
            let mut r: usize = 0;
            while r < g.rows.len()
                invariant
                    r <= g.rows@.len(),
                    lines@ == before + Seq::new(
                        r as nat,
                        |k: int| IdentityLine::Row(i, k as usize),
                    ),
                decreases g.rows.len() - r,
            {
                lines.push(IdentityLine::Row(i, r));
                r = r + 1;
                assert(lines@ =~= before + Seq::new(
                    r as nat,
                    |k: int| IdentityLine::Row(i, k as usize),
                ));
            }
            proof {
                let old_lines = identity_lines(groups.take(i as int), sections, height as int).0;
                assert(lines@ =~= old_lines + group_lines(
                    i as int,
                    g.rows@.len() as int,
                    shown == 0,
                ));
            }
            shown = shown + 1;
        }
        i = i + 1;
    }
    let content: u16 = lines.len() as u16;
    let y = match template.system.vertical_alignment {
        VerticalAlignment::Top => area.y,
        VerticalAlignment::Center => area.y + (area.height - content) / 2,
        VerticalAlignment::Bottom => area.y + (area.height - content),
    };
    Some(
        IdentityLayout {
            lines,
            area: Area { x: area.x, y, width: area.width, height: content },
            alignment: template.system.horizontal_alignment,
        },
    )
}

/// Once a group does not fit, the later groups change nothing.
proof fn lemma_full_stays(groups: Seq<InfoGroup>, sections: Seq<String>, height: int, k: int)
    requires
        0 < k <= groups.len(),
        identity_lines(groups.take(k), sections, height).2,
    ensures
        identity_lines(groups, sections, height).0 == identity_lines(groups.take(k), sections, height).0,
        identity_lines(groups, sections, height).2,
    decreases groups.len() - k,
{
    if k < groups.len() {
        assert(groups.take(k + 1).drop_last() =~= groups.take(k));
        lemma_full_stays(groups, sections, height, k + 1);
    } else {
        assert(groups.take(k) =~= groups);
    }
}

/// Law: a block of `content` rows lies inside the area; a top-aligned block
/// starts at the area's first row, a bottom-aligned one ends at its last row,
/// and a centred one leaves as many rows below it as above, or one more.
pub proof fn law_block_alignment(area: Area, content: int, alignment: VerticalAlignment)
    requires
        0 <= content <= area.height,
    ensures
        area.y <= block_top(area, content, alignment),
        block_top(area, content, alignment) + content <= area.y + area.height,
        alignment == VerticalAlignment::Top ==> block_top(area, content, alignment) == area.y,
        alignment == VerticalAlignment::Bottom ==> block_top(area, content, alignment) + content
            == area.y + area.height,
        alignment == VerticalAlignment::Center ==> ({
            let above = block_top(area, content, alignment) - area.y;
            let below = area.y + area.height - (block_top(area, content, alignment) + content);
            above <= below <= above + 1
        }),
{
}

/// Law: the information column lies inside the area, with the area's rows; it
/// is the template's percentage of the width, but at least one column and at
/// most the whole width; a left column starts at the area's first column, a
/// right one ends at its last, and a centred one leaves as many columns to
/// its right as to its left, or one more.
pub proof fn law_system_column(area: Area, percent: u16, position: HorizontalPosition)
    requires
        area_on_grid(area),
        area.width >= 1,
    ensures
        ({
            let r = system_area_spec(area, percent, position);
            let share = area.width as int * percent as int / 100;
            &&& r.y == area.y && r.height == area.height
            &&& 1 <= r.width <= area.width
            &&& 1 <= share <= area.width ==> r.width == share
            &&& share < 1 ==> r.width == 1
            &&& share > area.width ==> r.width == area.width
            &&& area.x <= r.x && r.x + r.width <= area.x + area.width
            &&& position == HorizontalPosition::Left ==> r.x == area.x
            &&& position == HorizontalPosition::Right ==> r.x + r.width == area.x + area.width
            &&& position == HorizontalPosition::Center ==> ({
                let left = r.x - area.x;
                let right = area.x + area.width - (r.x + r.width);
                left <= right <= left + 1
            })
        }),
{
    assert(area.width as int * percent as int >= 0) by (nonlinear_arith);
}

/// Law: the information block starts with the title and a blank line and
/// fits in `height` rows; it shows a group only when the group has rows and
/// the template includes its section, and then shows its title followed by
/// all of its rows in order.
pub proof fn law_identity_lines(groups: Seq<InfoGroup>, sections: Seq<String>, height: int)
    requires
        height >= 2,
        groups.len() <= usize::MAX,
    ensures
        ({
            let lines = identity_lines(groups, sections, height).0;
            &&& 2 <= lines.len() <= height
            &&& lines[0] == IdentityLine::Title
            &&& lines[1] == IdentityLine::Blank
            &&& forall|k: int|
                0 <= k < lines.len() && (#[trigger] lines[k] matches IdentityLine::GroupTitle(i))
                    ==> {
                    let i = lines[k]->GroupTitle_0 as int;
                    &&& 0 <= i < groups.len()
                    &&& groups[i].rows@.len() > 0
                    &&& includes_section_spec(sections, groups[i].title@)
                    &&& k + groups[i].rows@.len() < lines.len()
                    &&& forall|m: int|
                        k < m <= k + groups[i].rows@.len() ==> #[trigger] lines[m]
                            == IdentityLine::Row(i as usize, (m - k - 1) as usize)
                }
            &&& forall|k: int|
                0 <= k < lines.len() && (#[trigger] lines[k] matches IdentityLine::Row(i, r))
                    ==> {
                    let i = lines[k]->Row_0 as int;
                    let r = lines[k]->Row_1 as int;
                    0 <= i < groups.len() && 0 <= r < groups[i].rows@.len()
                }
        }),
    decreases groups.len(),
{
    lemma_identity_lines_fit(groups, sections, height);
    if groups.len() > 0 {
        let d = groups.drop_last();
        law_identity_lines(d, sections, height);
        lemma_identity_lines_fit(d, sections, height);
        let (prev, shown, full) = identity_lines(d, sections, height);
        let g = groups.last();
        let n = groups.len() - 1;
        let lines = identity_lines(groups, sections, height).0;
        assert forall|i: int| 0 <= i < d.len() implies d[i] == groups[i] by {}
        if !(full || !group_shown(g, sections)) && lines != prev {
            let extra = group_lines(n, g.rows@.len() as int, shown == 0);
            assert(lines == prev + extra);
            let lead: int = if shown == 0 {
                0
            } else {
                1
            };
            assert(extra.len() == lead + 1 + g.rows@.len());
            assert(extra[lead] == IdentityLine::GroupTitle(n as usize));
            assert forall|m: int| lead < m <= lead + g.rows@.len() implies #[trigger] extra[m]
                == IdentityLine::Row(n as usize, (m - lead - 1) as usize) by {}
            if shown != 0 {
                assert(extra[0] == IdentityLine::Blank);
            }
            assert forall|k: int|
                0 <= k < lines.len() && (#[trigger] lines[k] matches IdentityLine::GroupTitle(i))
                    implies {
                    let i = lines[k]->GroupTitle_0 as int;
                    &&& 0 <= i < groups.len()
                    &&& groups[i].rows@.len() > 0
                    &&& includes_section_spec(sections, groups[i].title@)
                    &&& k + groups[i].rows@.len() < lines.len()
                    &&& forall|m: int|
                        k < m <= k + groups[i].rows@.len() ==> #[trigger] lines[m]
                            == IdentityLine::Row(i as usize, (m - k - 1) as usize)
                } by {
                if k < prev.len() {
                    assert(lines[k] == prev[k]);
                    let i = prev[k]->GroupTitle_0 as int;
                    assert forall|m: int| k < m <= k + groups[i].rows@.len() implies #[trigger] lines[m]
                        == IdentityLine::Row(i as usize, (m - k - 1) as usize) by {
                        assert(lines[m] == prev[m]);
                    }
                } else {
                    let j = k - prev.len();
                    assert(lines[k] == extra[j]);
                    assert(j == lead);
                    assert forall|m: int| k < m <= k + g.rows@.len() implies #[trigger] lines[m]
                        == IdentityLine::Row(n as usize, (m - k - 1) as usize) by {
                        assert(lines[m] == extra[m - prev.len()]);
                    }
                }
            }
            assert forall|k: int|
                0 <= k < lines.len() && (#[trigger] lines[k] matches IdentityLine::Row(i, r))
                    implies {
                    let i = lines[k]->Row_0 as int;
                    let r = lines[k]->Row_1 as int;
                    0 <= i < groups.len() && 0 <= r < groups[i].rows@.len()
                } by {
                if k < prev.len() {
                    assert(lines[k] == prev[k]);
                } else {
                    assert(lines[k] == extra[k - prev.len()]);
                }
            }
            assert(lines[0] == prev[0] && lines[1] == prev[1]);
        } else if groups.len() > 0 {
            assert(lines == prev);
        }
    } else {
        let lines = identity_lines(groups, sections, height).0;
        assert(lines == seq![IdentityLine::Title, IdentityLine::Blank]);
    }
}

} // verus!
