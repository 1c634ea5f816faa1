//! The system-information snapshot: `label: value` rows sorted into groups.
use vstd::prelude::*;
use crate::text::{
    chars_of, lemma_first_index_unique, string_from_chars, split_once, split_once_chars, split_all, lemma_split_all_skip,
    find_char_from, copy_range, chars_equal, starts_with_chars, push_all, push_str,
};

verus! {

broadcast use vstd::string::group_string_axioms;

/// Whether `s` starts with `p`.
pub open spec fn has_prefix(s: Seq<char>, p: Seq<char>) -> bool {
    p.len() <= s.len() && s.take(p.len() as int) == p
}

/// The label shown for a row: numbered displays and local addresses lose
/// their suffix, a disk keeps only its mount point, `DE` and `WM` get names.
pub open spec fn friendly_label_spec(label: Seq<char>) -> Seq<char> {
    if has_prefix(label, "Display"@) {
        "Display"@
    } else if has_prefix(label, "Disk"@) {
        match split_once(label, '(') {
            Some((_, path)) => if path.len() > 0 && path.last() == ')' {
                "Disk "@ + path.drop_last()
            } else {
                "Disk"@
            },
            None => "Disk"@,
        }
    } else if has_prefix(label, "Local IP"@) {
        "Local IP"@
    } else if label == "DE"@ {
        "Desktop"@
    } else if label == "WM"@ {
        "Session"@
    } else {
        label
    }
}

fn starts_with_lit(v: &[char], lit: &str) -> (r: bool)
    ensures
        r == has_prefix(v@, lit@),
{
    let p = chars_of(lit);
    starts_with_chars(v, p.as_slice())
}

fn equals_lit(v: &[char], lit: &str) -> (r: bool)
    ensures
        r == (v@ == lit@),
{
    let p = chars_of(lit);
    chars_equal(v, p.as_slice())
}

fn string_of_lit(lit: &str) -> (r: String)
    ensures
        r@ == lit@,
{
    let p = chars_of(lit);
    string_from_chars(p.as_slice())
}

/// The label shown for a row.
pub fn friendly_label(label: &str) -> (r: String)
    ensures
        r@ == friendly_label_spec(label@),
{
    let l = chars_of(label);
    if starts_with_lit(l.as_slice(), "Display") {
        string_of_lit("Display")
    } else if starts_with_lit(l.as_slice(), "Disk") {
        match split_once_chars(l.as_slice(), '(') {
            Some((_, path)) => {
                if path.len() > 0 && path[path.len() - 1] == ')' {
                    let mut out: Vec<char> = Vec::new();
                    push_str(&mut out, "Disk ");
                    let inner = copy_range(path.as_slice(), 0, path.len() - 1);
                    push_all(&mut out, inner.as_slice());
                    assert(inner@ =~= path@.drop_last());
                    string_from_chars(out.as_slice())
                } else {
                    string_of_lit("Disk")
                }
            },
            None => string_of_lit("Disk"),
        }
    } else if starts_with_lit(l.as_slice(), "Local IP") {
        string_of_lit("Local IP")
    } else if equals_lit(l.as_slice(), "DE") {
        string_of_lit("Desktop")
    } else if equals_lit(l.as_slice(), "WM") {
        string_of_lit("Session")
    } else {
        string_from_chars(l.as_slice())
    }
}

/// A group of rows under a title.
pub struct InfoGroup {
    pub title: &'static str,
    pub rows: Vec<(String, String)>,
}

/// The identity line and the grouped rows.
pub struct SystemSnapshot {
    pub title: String,
    pub groups: Vec<InfoGroup>,
}

/// A row as text.
pub type Row = (Seq<char>, Seq<char>);

/// The rows of the five groups while sorting: system, desktop, hardware,
/// storage, network.
pub struct Grouping {
    pub system: Seq<Row>,
    pub desktop: Seq<Row>,
    pub hardware: Seq<Row>,
    pub storage: Seq<Row>,
    pub network: Seq<Row>,
}

pub open spec fn is_system_label(l: Seq<char>) -> bool {
    l == "OS"@ || l == "Host"@ || l == "Kernel"@ || l == "Uptime"@ || l == "Packages"@ || l
        == "Shell"@
}

pub open spec fn is_hardware_label(l: Seq<char>) -> bool {
    l == "CPU"@ || l == "GPU"@ || l == "Memory"@
}

/// Where one row goes. System rows, desktop rows (`DE`, `WM`, displays),
/// hardware rows, the first two disks and local addresses are kept; the rest
/// is dropped.
pub open spec fn group_row(g: Grouping, row: Row) -> Grouping {
    let (label, value) = row;
    if is_system_label(label) {
        Grouping { system: g.system.push(row), ..g }
    } else if label == "DE"@ || label == "WM"@ || has_prefix(label, "Display"@) {
        Grouping { desktop: g.desktop.push((friendly_label_spec(label), value)), ..g }
    } else if is_hardware_label(label) {
        Grouping { hardware: g.hardware.push(row), ..g }
    } else if has_prefix(label, "Disk"@) && g.storage.len() < 2 {
        Grouping { storage: g.storage.push((friendly_label_spec(label), value)), ..g }
    } else if has_prefix(label, "Local IP"@) {
        Grouping { network: g.network.push((friendly_label_spec(label), value)), ..g }
    } else {
        g
    }
}

/// The grouping of the rows, in order.
pub open spec fn group_rows(rows: Seq<Row>) -> Grouping
    decreases rows.len(),
{
    if rows.len() == 0 {
        Grouping {
            system: Seq::empty(),
            desktop: Seq::empty(),
            hardware: Seq::empty(),
            storage: Seq::empty(),
            network: Seq::empty(),
        }
    } else {
        group_row(group_rows(rows.drop_last()), rows.last())
    }
}

/// The view of a list of rows.
pub open spec fn rows_view(rows: Seq<(String, String)>) -> Seq<Row> {
    rows.map_values(|r: (String, String)| (r.0@, r.1@))
}

/// The system rows shown: a status row when there are none.
pub open spec fn shown_system_rows(system: Seq<Row>) -> Seq<Row> {
    if system.len() == 0 {
        seq![("Status"@, "system information unavailable"@)]
    } else {
        system
    }
}

fn push_row(rows: &mut Vec<(String, String)>, label: String, value: String)
    ensures
        rows_view(final(rows)@) == rows_view(old(rows)@).push((label@, value@)),
{
    rows.push((label, value));
    assert(rows_view(rows@) =~= rows_view(old(rows)@).push((label@, value@)));
}

impl SystemSnapshot {
    /// Sorts `label: value` rows into the five groups under the title
    /// `user@host`.
    pub fn from_rows(user: &str, host: &str, rows: Vec<(String, String)>) -> (r: Self)
        ensures
            r.title@ == user@ + "@"@ + host@,
            r.groups@.len() == 5,
            r.groups@[0].title@ == "SYSTEM"@,
            r.groups@[1].title@ == "DESKTOP"@,
            r.groups@[2].title@ == "HARDWARE"@,
            r.groups@[3].title@ == "STORAGE"@,
            r.groups@[4].title@ == "NETWORK"@,
            ({
                let g = group_rows(rows_view(rows@));
                &&& rows_view(r.groups@[0].rows@) == shown_system_rows(g.system)
                &&& rows_view(r.groups@[1].rows@) == g.desktop
                &&& rows_view(r.groups@[2].rows@) == g.hardware
                &&& rows_view(r.groups@[3].rows@) == g.storage
                &&& rows_view(r.groups@[4].rows@) == g.network
            }),
    {
        let mut title: Vec<char> = Vec::new();
        push_str(&mut title, user);
        push_str(&mut title, "@");
        push_str(&mut title, host);
        let mut system: Vec<(String, String)> = Vec::new();
        let mut desktop: Vec<(String, String)> = Vec::new();
        let mut hardware: Vec<(String, String)> = Vec::new();
        let mut storage: Vec<(String, String)> = Vec::new();
        let mut network: Vec<(String, String)> = Vec::new();
        let ghost all = rows_view(rows@);
        let n = rows.len();
        assert(rows_view(system@) =~= Seq::<Row>::empty());
        assert(rows_view(desktop@) =~= Seq::<Row>::empty());
        assert(rows_view(hardware@) =~= Seq::<Row>::empty());
        assert(rows_view(storage@) =~= Seq::<Row>::empty());
        assert(rows_view(network@) =~= Seq::<Row>::empty());
        assert(all.take(0) =~= Seq::<Row>::empty());
        let mut i: usize = 0;
        while i < n
            invariant
                i <= n == rows@.len(),
                all == rows_view(rows@),
                group_rows(all.take(i as int)) == (Grouping {
                    system: rows_view(system@),
                    desktop: rows_view(desktop@),
                    hardware: rows_view(hardware@),
                    storage: rows_view(storage@),
                    network: rows_view(network@),
                }),
            decreases n - i,
        {
            proof {
                assert(all.take(i + 1).drop_last() =~= all.take(i as int));
                assert(all.take(i + 1).last() == all[i as int]);
            }
            let label = chars_of(rows[i].0.as_str());
            let value = rows[i].1.clone();
            if equals_lit(label.as_slice(), "OS") || equals_lit(label.as_slice(), "Host")
                || equals_lit(label.as_slice(), "Kernel") || equals_lit(label.as_slice(), "Uptime")
                || equals_lit(label.as_slice(), "Packages") || equals_lit(
                label.as_slice(),
                "Shell",
            ) {
                push_row(&mut system, rows[i].0.clone(), value);
            } else if equals_lit(label.as_slice(), "DE") || equals_lit(label.as_slice(), "WM")
                || starts_with_lit(label.as_slice(), "Display") {
                push_row(&mut desktop, friendly_label(rows[i].0.as_str()), value);
            } else if equals_lit(label.as_slice(), "CPU") || equals_lit(label.as_slice(), "GPU")
                || equals_lit(label.as_slice(), "Memory") {
                push_row(&mut hardware, rows[i].0.clone(), value);
            } else if starts_with_lit(label.as_slice(), "Disk") && storage.len() < 2 {
                push_row(&mut storage, friendly_label(rows[i].0.as_str()), value);
            } else if starts_with_lit(label.as_slice(), "Local IP") {
                push_row(&mut network, friendly_label(rows[i].0.as_str()), value);
            }
            i = i + 1;
        }
        assert(all.take(n as int) =~= all);
        if system.len() == 0 {
            push_row(
                &mut system,
                string_of_lit("Status"),
                string_of_lit("system information unavailable"),
            );
            assert(rows_view(system@) =~= seq![("Status"@, "system information unavailable"@)]);
        }
        let mut groups: Vec<InfoGroup> = Vec::new();
        groups.push(InfoGroup { title: "SYSTEM", rows: system });
        groups.push(InfoGroup { title: "DESKTOP", rows: desktop });
        groups.push(InfoGroup { title: "HARDWARE", rows: hardware });
        groups.push(InfoGroup { title: "STORAGE", rows: storage });
        groups.push(InfoGroup { title: "NETWORK", rows: network });
        SystemSnapshot { title: string_from_chars(title.as_slice()), groups }
    }
}

/// The rows that the law below expects in the system group.
pub open spec fn expected_system(r: Row) -> Option<Row> {
    let l = r.0;
    if l == "OS"@ || l == "Host"@ || l == "Kernel"@ || l == "Uptime"@ || l == "Packages"@ || l
        == "Shell"@ {
        Some(r)
    } else {
        None
    }
}

/// The rows that the law below expects in the desktop group, relabelled.
pub open spec fn expected_desktop(r: Row) -> Option<Row> {
    if r.0 == "DE"@ {
        Some(("Desktop"@, r.1))
    } else if r.0 == "WM"@ {
        Some(("Session"@, r.1))
    } else if has_prefix(r.0, "Display"@) {
        Some(("Display"@, r.1))
    } else {
        None
    }
}

/// The rows that the law below expects in the hardware group.
pub open spec fn expected_hardware(r: Row) -> Option<Row> {
    if r.0 == "CPU"@ || r.0 == "GPU"@ || r.0 == "Memory"@ {
        Some(r)
    } else {
        None
    }
}

/// The disk rows, relabelled.
pub open spec fn expected_disk(r: Row) -> Option<Row> {
    if has_prefix(r.0, "Disk"@) {
        Some((friendly_label_spec(r.0), r.1))
    } else {
        None
    }
}

/// The rows that the law below expects in the network group, relabelled.
pub open spec fn expected_network(r: Row) -> Option<Row> {
    if has_prefix(r.0, "Local IP"@) {
        Some(("Local IP"@, r.1))
    } else {
        None
    }
}

/// The label classes are told apart by length, first character and, for the
/// two `Di` prefixes, the fourth character.
proof fn lemma_label_classes(l: Seq<char>)
    ensures
        expected_system((l, l)) is Some ==> expected_desktop((l, l)) is None && expected_hardware(
            (l, l),
        ) is None && expected_disk((l, l)) is None && expected_network((l, l)) is None,
        expected_desktop((l, l)) is Some ==> expected_hardware((l, l)) is None && expected_disk(
            (l, l),
        ) is None && expected_network((l, l)) is None,
        expected_hardware((l, l)) is Some ==> expected_disk((l, l)) is None && expected_network(
            (l, l),
        ) is None,
        expected_disk((l, l)) is Some ==> expected_network((l, l)) is None,
{
    reveal_strlit("OS");
    reveal_strlit("Host");
    reveal_strlit("Kernel");
    reveal_strlit("Uptime");
    reveal_strlit("Packages");
    reveal_strlit("Shell");
    reveal_strlit("DE");
    reveal_strlit("WM");
    reveal_strlit("Display");
    reveal_strlit("CPU");
    reveal_strlit("GPU");
    reveal_strlit("Memory");
    reveal_strlit("Disk");
    reveal_strlit("Local IP");
    let sys = expected_system((l, l)) is Some;
    let desk = expected_desktop((l, l)) is Some;
    let hw = expected_hardware((l, l)) is Some;
    let disk = expected_disk((l, l)) is Some;
    let net = expected_network((l, l)) is Some;
    if has_prefix(l, "Display"@) {
        assert(l[0] == "Display"@[0] && l[3] == "Display"@[3]);
    }
    if has_prefix(l, "Disk"@) {
        assert(l[0] == "Disk"@[0] && l[3] == "Disk"@[3]);
    }
    if has_prefix(l, "Local IP"@) {
        assert(l[0] == "Local IP"@[0]);
    }
    if sys {
        assert(l[0] == 'O' || l[0] == 'H' || l[0] == 'K' || l[0] == 'U' || l[0] == 'P' || l[0]
            == 'S');
    }
    if desk {
        assert(l[0] == 'D' || l[0] == 'W');
        assert(l.len() == 2 || l[3] == 'p');
    }
    if hw {
        assert(l[0] == 'C' || l[0] == 'G' || l[0] == 'M');
    }
}

/// Law: the rows are sorted into the groups in input order. The system group
/// holds the `OS`, `Host`, `Kernel`, `Uptime`, `Packages` and `Shell` rows;
/// the desktop group the `DE`, `WM` and display rows, as `Desktop`, `Session`
/// and `Display`; the hardware group the `CPU`, `GPU` and `Memory` rows; the
/// storage group the first two disk rows; the network group the local
/// addresses, as `Local IP`. Values are kept as they are.
pub proof fn law_rows_sorted_into_groups(rows: Seq<Row>)
    ensures
        group_rows(rows).system == rows.filter_map(|r: Row| expected_system(r)),
        group_rows(rows).desktop == rows.filter_map(|r: Row| expected_desktop(r)),
        group_rows(rows).hardware == rows.filter_map(|r: Row| expected_hardware(r)),
        group_rows(rows).network == rows.filter_map(|r: Row| expected_network(r)),
        ({
            let disks = rows.filter_map(|r: Row| expected_disk(r));
            group_rows(rows).storage == if disks.len() <= 2 {
                disks
            } else {
                disks.take(2)
            }
        }),
    decreases rows.len(),
{
    reveal_strlit("DE");
    reveal_strlit("WM");
    reveal_strlit("Display");
    if rows.len() > 0 {
        let d = rows.drop_last();
        law_rows_sorted_into_groups(d);
        let row = rows.last();
        let l = row.0;
        lemma_label_classes(l);
        assert(expected_system(row) is Some <==> expected_system((l, l)) is Some);
        assert(expected_desktop(row) is Some <==> expected_desktop((l, l)) is Some);
        assert(expected_hardware(row) is Some <==> expected_hardware((l, l)) is Some);
        assert(expected_disk(row) is Some <==> expected_disk((l, l)) is Some);
        assert(expected_network(row) is Some <==> expected_network((l, l)) is Some);
        if expected_desktop(row) is Some {
            let relabelled = expected_desktop(row)->0;
            assert(friendly_label_spec(l) == relabelled.0);
        }
        if expected_network(row) is Some {
            assert(!has_prefix(l, "Display"@) && !has_prefix(l, "Disk"@));
            assert(friendly_label_spec(l) == "Local IP"@);
        }
        let disks_d = d.filter_map(|r: Row| expected_disk(r));
        let disks = rows.filter_map(|r: Row| expected_disk(r));
        if expected_disk(row) is Some {
            assert(disks == disks_d + seq![expected_disk(row)->0]);
            if disks_d.len() >= 2 {
                assert(disks.take(2) =~= (if disks_d.len() <= 2 {
                    disks_d
                } else {
                    disks_d.take(2)
                }));
            }
        }
    }
}

// ---------------------------------------------------------------------------
// Reading the information tool's output

/// Whether `": "` starts at index `k`.
pub open spec fn colon_space_at(s: Seq<char>, k: int) -> bool {
    0 <= k && k + 1 < s.len() && s[k] == ':' && s[k + 1] == ' '
}

/// Index of the first `": "` in `s`, or `s.len()`.
pub open spec fn first_colon_space(s: Seq<char>) -> int
    decreases s.len(),
{
    if s.len() < 2 {
        s.len() as int
    } else if s[0] == ':' && s[1] == ' ' {
        0
    } else {
        1 + first_colon_space(s.drop_first())
    }
}

/// The label and value of a line, split at the first `": "`.
pub open spec fn split_row(line: Seq<char>) -> Option<Row> {
    let i = first_colon_space(line);
    if i < line.len() {
        Some((line.take(i), line.skip(i + 2)))
    } else {
        None
    }
}

/// The lines of a text as `str::lines` yields them: split at line feeds, a
/// carriage return dropped before each line feed, and no empty last line.
pub open spec fn text_lines(text: Seq<char>) -> Seq<Seq<char>> {
    let pieces = split_all(text, '\n');
    let n = pieces.len();
    let ended = Seq::new(
        (n - 1) as nat,
        |i: int|
            if pieces[i].len() > 0 && pieces[i].last() == '\r' {
                pieces[i].drop_last()
            } else {
                pieces[i]
            },
    );
    if pieces[n - 1].len() == 0 {
        ended
    } else {
        ended.push(pieces[n - 1])
    }
}

/// The rows of the information tool's output: each line with `": "` gives
/// a row; the shell row shows `shell` instead when it is known.
pub open spec fn output_rows(lines: Seq<Seq<char>>, shell: Option<Seq<char>>) -> Seq<Row>
    decreases lines.len(),
{
    if lines.len() == 0 {
        Seq::empty()
    } else {
        let rest = output_rows(lines.drop_last(), shell);
        match split_row(lines.last()) {
            Some((label, value)) => rest.push(
                (
                    label,
                    if label == "Shell"@ && shell is Some {
                        shell->0
                    } else {
                        value
                    },
                ),
            ),
            None => rest,
        }
    }
}

proof fn lemma_first_colon_space(s: Seq<char>)
    ensures
        0 <= first_colon_space(s) <= s.len(),
        first_colon_space(s) < s.len() ==> first_colon_space(s) + 1 < s.len() && s[first_colon_space(
            s,
        )] == ':' && s[first_colon_space(s) + 1] == ' ',
        forall|k: int| 0 <= k < first_colon_space(s) ==> !#[trigger] colon_space_at(s, k),
    decreases s.len(),
{
    if s.len() >= 2 && !(s[0] == ':' && s[1] == ' ') {
        lemma_first_colon_space(s.drop_first());
        assert forall|k: int| 0 <= k < first_colon_space(s) implies !#[trigger] colon_space_at(
            s,
            k,
        ) by {
            if k > 0 && k + 1 < s.len() {
                assert(colon_space_at(s.drop_first(), k - 1) == colon_space_at(s, k));
                assert(s[k] == s.drop_first()[k - 1]);
                assert(s[k + 1] == s.drop_first()[k]);
            }
        }
        let i = first_colon_space(s.drop_first());
        if i < s.drop_first().len() {
            assert(s[i + 1] == s.drop_first()[i]);
            assert(s[i + 2] == s.drop_first()[i + 1]);
        }
    }
}

fn split_row_chars(line: &[char]) -> (r: Option<(Vec<char>, Vec<char>)>)
    ensures
        match r {
            Some((a, b)) => split_row(line@) == Some((a@, b@)),
            None => split_row(line@) is None,
        },
{
    let n = line.len();
    let mut i: usize = 0;
    while n > 0 && i < n - 1 && !(line[i] == ':' && line[i + 1] == ' ')
        invariant
            i <= n == line@.len(),
            forall|k: int| 0 <= k < i ==> !#[trigger] colon_space_at(line@, k),
        decreases n - i,
    {
        i = i + 1;
    }
    proof {
        lemma_first_colon_space(line@);
        let f = first_colon_space(line@);
        if i + 1 < n {
            assert(colon_space_at(line@, i as int));
            if f < i {
                assert(!colon_space_at(line@, f));
            }
            if i < f {
                assert(!colon_space_at(line@, i as int));
            }
        } else if f < n {
            assert(colon_space_at(line@, f));
            assert(!colon_space_at(line@, f));
        }
    }
    if n > 0 && i < n - 1 {
        let a = copy_range(line, 0, i);
        let b = copy_range(line, i + 2, n);
        assert(a@ =~= line@.take(i as int));
        assert(b@ =~= line@.skip(i + 2));
        Some((a, b))
    } else {
        None
    }
}

/// The rows of the information tool's output.
pub fn parse_fastfetch_output(stdout: &str, shell: Option<&str>) -> (r: Vec<(String, String)>)
    ensures
        rows_view(r@) == output_rows(
            text_lines(stdout@),
            match shell {
                Some(s) => Some(s@),
                None => None,
            },
        ),
{
    let text = chars_of(stdout);
    let n = text.len();
    let ghost sh = match shell {
        Some(s) => Some(s@),
        None => None,
    };
    let ghost pieces = split_all(text@, '\n');
    let mut rows: Vec<(String, String)> = Vec::new();
    let mut start: usize = 0;
    let ghost done: Seq<Seq<char>> = Seq::empty();
    assert(text@.skip(0) =~= text@);
    loop
        invariant
            start <= n == text@.len(),
            text@ == stdout@,
            pieces == split_all(text@, '\n'),
            pieces == done + split_all(text@.skip(start as int), '\n'),
            sh == match shell {
                Some(s) => Some(s@),
                None => None,
            },
            rows_view(rows@) == output_rows(text_lines(stdout@).take(done.len() as int), sh),
            done.len() <= text_lines(stdout@).len(),
        decreases n - start,
    {
        let end = find_char_from(text.as_slice(), '\n', start);
        proof {
            lemma_split_all_skip(text@, '\n', start as int, end as int);
        }
        let piece = copy_range(text.as_slice(), start, end);
        let ghost later: Seq<Seq<char>> = if end < n {
            split_all(text@.skip(end + 1), '\n')
        } else {
            Seq::empty()
        };
        assert(pieces =~= done.push(piece@) + later);
        let ghost lines = text_lines(stdout@);
        if end >= n && piece.len() == 0 {
            proof {
                assert(lines.len() == done.len());
                assert(lines.take(done.len() as int) =~= lines);
            }
            return rows;
        }
        let line: Vec<char> = if end < n && piece.len() > 0 && piece[piece.len() - 1] == '\r' {
            copy_range(piece.as_slice(), 0, piece.len() - 1)
        } else {
            piece
        };
        proof {
            let k = done.len() as int;
            assert(pieces[k] == piece@);
            if end < n {
                assert(k < pieces.len() - 1);
                if piece@.len() > 0 && piece@.last() == '\r' {
                    assert(line@ =~= piece@.drop_last());
                }
            }
            assert(lines[k] == line@);
            assert(lines.take(k + 1).drop_last() =~= lines.take(k));
            assert(lines.take(k + 1).last() == line@);
        }
        match split_row_chars(line.as_slice()) {
            Some((label, value)) => {
                let label_text = string_from_chars(label.as_slice());
                let shown = if equals_lit(label.as_slice(), "Shell") && shell.is_some() {
                    match shell {
                        Some(s) => String::from_str(s),
                        None => string_from_chars(value.as_slice()),
                    }
                } else {
                    string_from_chars(value.as_slice())
                };
                push_row(&mut rows, label_text, shown);
            },
            None => {},
        }
        proof {
            done = done.push(piece@);
        }
        if end >= n {
            proof {
                assert(lines.len() == done.len());
                assert(lines.take(done.len() as int) =~= lines);
            }
            return rows;
        }
        assert(pieces == done + split_all(text@.skip(end + 1), '\n'));
        start = end + 1;
    }
}

/// Whether `": "` occurs in `s`.
pub open spec fn has_colon_space(s: Seq<char>) -> bool {
    exists|k: int| #[trigger] colon_space_at(s, k)
}

/// Law: a line `label: value`, whose label holds no `": "`, adds the row
/// `(label, value)`, with the known shell in place of the value of a `Shell`
/// row; a line without `": "` adds nothing.
pub proof fn law_output_line(
    lines: Seq<Seq<char>>,
    label: Seq<char>,
    value: Seq<char>,
    shell: Option<Seq<char>>,
)
    requires
        !has_colon_space(label),
    ensures
        output_rows(lines.push(label + ": "@ + value), shell) == output_rows(lines, shell).push(
            (
                label,
                if label == "Shell"@ && shell is Some {
                    shell->0
                } else {
                    value
                },
            ),
        ),
        forall|line: Seq<char>|
            !has_colon_space(line) ==> #[trigger] output_rows(lines.push(line), shell)
                == output_rows(lines, shell),
{
    reveal_strlit(": ");
    let line = label + ": "@ + value;
    let n = label.len() as int;
    assert(lines.push(line).drop_last() =~= lines);
    assert(line[n] == ':' && line[n + 1] == ' ');
    lemma_first_colon_space(line);
    let i = first_colon_space(line);
    if i < n {
        assert(line[i] == label[i]);
        assert(i + 1 < n ==> line[i + 1] == label[i + 1]);
        if i + 1 == n {
            assert(line[i + 1] == ':');
        } else {
            assert(colon_space_at(label, i));
        }
    } else if i > n {
        assert(colon_space_at(line, n));
    }
    assert(line.take(n) =~= label);
    assert(line.skip(n + 2) =~= value);
    assert forall|l: Seq<char>|
        !has_colon_space(l) implies #[trigger] output_rows(lines.push(l), shell) == output_rows(
        lines,
        shell,
    ) by {
        assert(lines.push(l).drop_last() =~= lines);
        lemma_first_colon_space(l);
        let j = first_colon_space(l);
        if j < l.len() {
            assert(colon_space_at(l, j));
        }
    }
}

/// Law: a disk label `Disk … (path)`, with no `(` before the path, is shown
/// as `Disk path`; a label that starts with `Display` is shown as `Display`
/// and one that starts with `Local IP` as `Local IP`; `DE` and `WM` are shown
/// as `Desktop` and `Session`; every other label is shown as it is.
pub proof fn law_friendly_labels(label: Seq<char>, middle: Seq<char>, path: Seq<char>)
    requires
        forall|k: int| 0 <= k < middle.len() ==> middle[k] != '(',
    ensures
        friendly_label_spec("Disk"@ + middle + "("@ + path + ")"@) == "Disk "@ + path,
        has_prefix(label, "Display"@) ==> friendly_label_spec(label) == "Display"@,
        has_prefix(label, "Local IP"@) ==> friendly_label_spec(label) == "Local IP"@,
        label == "DE"@ ==> friendly_label_spec(label) == "Desktop"@,
        label == "WM"@ ==> friendly_label_spec(label) == "Session"@,
        !has_prefix(label, "Display"@) && !has_prefix(label, "Disk"@) && !has_prefix(
            label,
            "Local IP"@,
        ) && label != "DE"@ && label != "WM"@ ==> friendly_label_spec(label) == label,
{
    reveal_strlit("Disk");
    reveal_strlit("Display");
    reveal_strlit("Local IP");
    reveal_strlit("DE");
    reveal_strlit("WM");
    reveal_strlit("(");
    reveal_strlit(")");
    let l = "Disk"@ + middle + "("@ + path + ")"@;
    let m = middle.len() as int;
    assert(l.take(4) =~= "Disk"@);
    assert(l[3] == 'k');
    assert(!has_prefix(l, "Display"@)) by {
        if has_prefix(l, "Display"@) {
            assert(l.take(7)[3] == "Display"@[3]);
        }
    }
    assert forall|k: int| 0 <= k < 4 + m implies l[k] != '(' by {
        if k < 4 {
            assert(l[k] == "Disk"@[k]);
        } else {
            assert(l[k] == middle[k - 4]);
        }
    }
    assert(l[4 + m] == '(');
    lemma_first_index_unique(l, '(', 4 + m);
    let after = l.skip(4 + m + 1);
    assert(after =~= path + ")"@);
    assert(after.drop_last() =~= path);
    if has_prefix(label, "Display"@) {
        assert(label.take(4) =~= label.take(7).take(4));
        assert(label.take(7)[3] == 'p');
        assert(!has_prefix(label, "Disk"@) || label.take(4)[3] == 'k');
    }
}

} // verus!
