use desktop_tui::frame::{
    frame_color, frame_generation, frame_header, frame_layout, plan_grouped_draw,
    stabilize_color, stabilize_color_channel, CellInfo, DrawOp, FrameError, RgbCell,
    SharedFrame, TerminalColor,
};
use desktop_tui::layout::{
    content_area, mesh_stage, content_margin, identity_layout, system_area, Area, IdentityLine,
};
use desktop_tui::runtime::{
    frame_dimension, parse_bool, selected_animation, texture_dimension, FpsSample, FpsWindow,
};
use desktop_tui::sysinfo::{friendly_label, parse_fastfetch_output, SystemSnapshot};
use desktop_tui::template::{
    HorizontalAlignment, HorizontalPosition, SystemTemplate, VerticalAlignment, WidgetTemplate,
};

#[test]
fn terminal_color_stabilization_has_small_bounded_error() {
    for channel in u8::MIN..=u8::MAX {
        assert!(channel.abs_diff(stabilize_color_channel(channel)) <= 4);
    }
    assert_eq!(stabilize_color_channel(0), 0);
    assert_eq!(stabilize_color_channel(255), 255);
}

#[test]
fn stabilization_rounds_to_eights_and_is_stable() {
    assert_eq!(stabilize_color_channel(3), 0);
    assert_eq!(stabilize_color_channel(4), 8);
    assert_eq!(stabilize_color_channel(251), 248);
    assert_eq!(stabilize_color_channel(252), 255);
    for channel in u8::MIN..=u8::MAX {
        let once = stabilize_color_channel(channel);
        assert_eq!(stabilize_color_channel(once), once);
    }
    assert_eq!(stabilize_color(TerminalColor::Rgb(1, 130, 250)), TerminalColor::Rgb(0, 128, 248));
    assert_eq!(stabilize_color(TerminalColor::Indexed(3)), TerminalColor::Indexed(3));
}

#[test]
fn frame_colors_follow_the_palette() {
    assert_eq!(frame_color(TerminalColor::Rgb(1, 2, 3)), (1, 2, 3));
    assert_eq!(frame_color(TerminalColor::Red), (178, 24, 24));
    assert_eq!(frame_color(TerminalColor::DarkGray), (104, 104, 104));
    assert_eq!(frame_color(TerminalColor::LightCyan), (84, 255, 255));
    assert_eq!(frame_color(TerminalColor::Reset), (255, 255, 255));
    assert_eq!(frame_color(TerminalColor::Indexed(9)), (255, 255, 255));
}

#[test]
fn color_key_packs_the_channels() {
    let cell = RgbCell { x: 0, y: 0, symbol: b'#', red: 0x12, green: 0x34, blue: 0x56 };
    assert_eq!(cell.color_key(), 0x123456);
}

fn cell(x: u16, y: u16, symbol: &str, fg: TerminalColor) -> CellInfo {
    CellInfo {
        x,
        y,
        symbol: symbol.into(),
        fg,
        bg: TerminalColor::Reset,
        underline: TerminalColor::Reset,
        modifier_bits: 0,
    }
}

#[test]
fn grouped_draw_orders_by_color_and_skips_adjacent_moves() {
    let red = TerminalColor::Rgb(200, 0, 0);
    let blue = TerminalColor::Rgb(0, 0, 200);
    let mut styled = cell(9, 9, "s", red);
    styled.modifier_bits = 1;
    let cells = vec![
        cell(0, 0, "a", red),
        cell(1, 0, "b", blue),
        cell(2, 0, "c", red),
        cell(1, 1, "d", red),
        cell(3, 0, "é", red),
        cell(4, 0, "e", TerminalColor::White),
        styled,
        cell(3, 1, "f", red),
    ];
    let plan = plan_grouped_draw(&cells);
    assert_eq!(plan.fallback, [4, 5, 6]);
    assert_eq!(
        plan.ops,
        [
            DrawOp::SetForeground(0, 0, 200),
            DrawOp::MoveTo(1, 0),
            DrawOp::Print(b'b'),
            DrawOp::SetForeground(200, 0, 0),
            DrawOp::MoveTo(0, 0),
            DrawOp::Print(b'a'),
            DrawOp::MoveTo(2, 0),
            DrawOp::Print(b'c'),
            DrawOp::MoveTo(1, 1),
            DrawOp::Print(b'd'),
            DrawOp::MoveTo(3, 1),
            DrawOp::Print(b'f'),
        ]
    );
}

#[test]
fn grouped_draw_prints_runs_without_moving() {
    let green = TerminalColor::Rgb(0, 200, 0);
    let cells = vec![cell(5, 2, "x", green), cell(6, 2, "y", green), cell(7, 2, "z", green)];
    let plan = plan_grouped_draw(&cells);
    assert!(plan.fallback.is_empty());
    assert_eq!(
        plan.ops,
        [
            DrawOp::SetForeground(0, 200, 0),
            DrawOp::MoveTo(5, 2),
            DrawOp::Print(b'x'),
            DrawOp::Print(b'y'),
            DrawOp::Print(b'z'),
        ]
    );
}

#[test]
fn shared_frame_layout_and_header() {
    assert_eq!(frame_layout(0, 5), Err(FrameError::EmptyDimensions));
    assert_eq!(frame_layout(5, 0), Err(FrameError::EmptyDimensions));
    assert_eq!(frame_layout(160, 48), Ok((61_440, 122_944)));
    assert_eq!(frame_generation(0, 0), 1);
    assert_eq!(frame_generation(0x1_0000_0000_0000_0005, 3), 6);
    let header = frame_header(160, 48, 0x0102_0304_0506_0708);
    assert_eq!(header.len(), 64);
    assert_eq!(&header[..8], b"DTUI001\0");
    assert_eq!(&header[8..12], &160u32.to_le_bytes());
    assert_eq!(&header[12..16], &48u32.to_le_bytes());
    assert_eq!(&header[16..24], &[0u8; 8]);
    assert_eq!(&header[24..28], &8u32.to_le_bytes());
    assert_eq!(&header[32..40], &0x0102_0304_0506_0708u64.to_le_bytes());
    assert!(header[40..].iter().all(|b| *b == 0));
}

#[test]
fn shared_frame_cells_read_back() {
    let mut frame = SharedFrame::new(3, 2).unwrap();
    assert_eq!(frame.size(), (3, 2));
    assert_eq!(frame.cell_bytes().len(), 48);
    assert!(frame
        .cell_bytes()
        .chunks(8)
        .all(|c| c == [32, 0, 0, 0, 255, 255, 255, 255]));
    frame.set_cell(1, 1, "é!", TerminalColor::Rgb(1, 2, 3));
    frame.set_cell(3, 0, "x", TerminalColor::Red);
    frame.set_cell(0, 0, "", TerminalColor::Blue);
    let bytes = frame.cell_bytes();
    assert_eq!(&bytes[32..40], &[0xe9, 0, 0, 0, 1, 2, 3, 255]);
    assert_eq!(&bytes[0..8], &[32, 0, 0, 0, 24, 24, 178, 255]);
    assert_eq!(&bytes[8..16], &[32, 0, 0, 0, 255, 255, 255, 255]);
    frame.clear_cells();
    assert_eq!(&frame.cell_bytes()[32..40], &[32, 0, 0, 0, 255, 255, 255, 255]);
}

#[test]
fn shared_frame_flush_alternates_buffers() {
    let mut frame = SharedFrame::new(2, 2).unwrap();
    let first = frame.flush();
    let second = frame.flush();
    let third = frame.flush();
    assert_eq!((first.offset, first.state), (64 + 32, 3));
    assert_eq!((second.offset, second.state), (64, 4));
    assert_eq!((third.offset, third.state), (64 + 32, 7));
    frame.set_cursor_position(4, 5);
    assert_eq!(frame.get_cursor_position(), (4, 5));
    assert_eq!(SharedFrame::new(10_000, 10).unwrap().pixel_size(), (65_535, 200));
}

#[test]
fn margins_and_columns_fit_the_area() {
    assert_eq!(content_margin(2, 48), 2);
    assert_eq!(content_margin(20, 9), 4);
    assert_eq!(content_margin(5, 0), 0);
    let mut config = SystemTemplate::default();
    let area = Area { x: 10, y: 3, width: 100, height: 40 };
    assert_eq!(system_area(area, &config), Area { x: 25, y: 3, width: 70, height: 40 });
    config.horizontal_position = HorizontalPosition::Right;
    config.width_percent = 32;
    assert_eq!(system_area(area, &config), Area { x: 78, y: 3, width: 32, height: 40 });
    config.horizontal_position = HorizontalPosition::Left;
    config.width_percent = 0;
    assert_eq!(system_area(area, &config), Area { x: 10, y: 3, width: 1, height: 40 });
}

fn snapshot() -> SystemSnapshot {
    SystemSnapshot::from_rows(
        "ada",
        "box",
        vec![
            ("OS".into(), "Linux".into()),
            ("Kernel".into(), "6.9".into()),
            ("CPU".into(), "fast".into()),
            ("Local IP (eth0)".into(), "10.0.0.2".into()),
        ],
    )
}

#[test]
fn identity_layout_shows_groups_that_fit() {
    let mut template = WidgetTemplate::default();
    let area = Area { x: 0, y: 0, width: 40, height: 10 };
    let layout = identity_layout(area, &snapshot(), &template).unwrap();
    assert_eq!(
        layout.lines,
        [
            IdentityLine::Title,
            IdentityLine::Blank,
            IdentityLine::GroupTitle(0),
            IdentityLine::Row(0, 0),
            IdentityLine::Row(0, 1),
            IdentityLine::Blank,
            IdentityLine::GroupTitle(2),
            IdentityLine::Row(2, 0),
        ]
    );
    assert_eq!(layout.area, Area { x: 0, y: 1, width: 40, height: 8 });
    assert_eq!(layout.alignment, HorizontalAlignment::Center);

    template.system.vertical_alignment = VerticalAlignment::Bottom;
    template.system.sections = vec!["network".into()];
    let layout = identity_layout(area, &snapshot(), &template).unwrap();
    assert_eq!(
        layout.lines,
        [
            IdentityLine::Title,
            IdentityLine::Blank,
            IdentityLine::GroupTitle(4),
            IdentityLine::Row(4, 0),
        ]
    );
    assert_eq!(layout.area.y, 6);
    assert!(identity_layout(Area { x: 0, y: 0, width: 19, height: 10 }, &snapshot(), &template).is_none());
    assert!(identity_layout(Area { x: 0, y: 0, width: 40, height: 7 }, &snapshot(), &template).is_none());
}

#[test]
fn snapshot_sorts_rows_into_groups() {
    let snapshot = SystemSnapshot::from_rows(
        "ada",
        "box",
        vec![
            ("DE".into(), "KDE".into()),
            ("Display (DP-1)".into(), "2560x1440".into()),
            ("Disk (/)".into(), "1 TB".into()),
            ("Disk (/home)".into(), "2 TB".into()),
            ("Disk (/data)".into(), "3 TB".into()),
            ("Memory".into(), "32 GB".into()),
            ("Battery".into(), "90%".into()),
        ],
    );
    assert_eq!(snapshot.title, "ada@box");
    let titles: Vec<&str> = snapshot.groups.iter().map(|g| g.title).collect();
    assert_eq!(titles, ["SYSTEM", "DESKTOP", "HARDWARE", "STORAGE", "NETWORK"]);
    assert_eq!(
        snapshot.groups[0].rows,
        [("Status".into(), "system information unavailable".into())]
    );
    assert_eq!(
        snapshot.groups[1].rows,
        [("Desktop".into(), "KDE".into()), ("Display".into(), "2560x1440".into())]
    );
    assert_eq!(snapshot.groups[2].rows, [("Memory".into(), "32 GB".into())]);
    assert_eq!(
        snapshot.groups[3].rows,
        [("Disk /".into(), "1 TB".into()), ("Disk /home".into(), "2 TB".into())]
    );
    assert!(snapshot.groups[4].rows.is_empty());
}

#[test]
fn friendly_labels() {
    assert_eq!(friendly_label("Display (eDP-1)"), "Display");
    assert_eq!(friendly_label("Disk (/mnt/a (b))"), "Disk /mnt/a (b)");
    assert_eq!(friendly_label("Disk /"), "Disk");
    assert_eq!(friendly_label("Disk (open"), "Disk");
    assert_eq!(friendly_label("Local IP (wlan0)"), "Local IP");
    assert_eq!(friendly_label("DE"), "Desktop");
    assert_eq!(friendly_label("WM"), "Session");
    assert_eq!(friendly_label("CPU"), "CPU");
}

#[test]
fn tool_output_becomes_rows() {
    let rows = parse_fastfetch_output(
        "OS: Linux\r\nShell: bash 5.2\nno separator\nHost: a: b\n\nTrail: x\r",
        Some("zsh"),
    );
    assert_eq!(
        rows,
        [
            ("OS".into(), "Linux".into()),
            ("Shell".into(), "zsh".into()),
            ("Host".into(), "a: b".into()),
            ("Trail".into(), "x\r".into()),
        ]
    );
    let rows = parse_fastfetch_output("Shell: bash\n", None);
    assert_eq!(rows, [("Shell".into(), "bash".into())]);
    assert!(parse_fastfetch_output("", None).is_empty());
}

#[test]
fn renderer_flags_and_numbers() {
    assert!(parse_bool(" YES "));
    assert!(parse_bool("1"));
    assert!(parse_bool("On"));
    assert!(!parse_bool("0"));
    assert!(!parse_bool("enabled"));
    assert_eq!(frame_dimension(Some("120"), 160), 120);
    assert_eq!(frame_dimension(Some("0"), 160), 160);
    assert_eq!(frame_dimension(Some("70000"), 48), 48);
    assert_eq!(frame_dimension(None, 48), 48);
    assert_eq!(texture_dimension(Some("256")), 256);
    assert_eq!(texture_dimension(Some("0")), 0);
    assert_eq!(texture_dimension(Some("x")), 512);
    assert_eq!(texture_dimension(None), 512);
    assert_eq!(selected_animation(0, 3), None);
    assert_eq!(selected_animation(2, 0), Some(0));
    assert_eq!(selected_animation(2, 9), Some(1));
}

#[test]
fn fps_window_counts_frames_per_half_second() {
    let mut window = FpsWindow::new();
    assert_eq!(window.record_frame(0), None);
    let mut sample = None;
    for interval in 1_u64..=10 {
        if let Some(s) = window.record_frame(interval * 50_000_000) {
            sample = Some(s);
        }
    }
    assert_eq!(sample, Some(FpsSample { frames: 10, elapsed_nanos: 500_000_000 }));
    assert_eq!(window.frame_count(), 0);
}

#[test]
fn content_and_stage_areas_leave_their_margins() {
    let content = content_area(Area { x: 0, y: 0, width: 160, height: 48 }, 2);
    assert_eq!(content, Area { x: 0, y: 2, width: 160, height: 44 });
    assert_eq!(mesh_stage(content), Area { x: 1, y: 2, width: 158, height: 44 });
    let squeezed = content_area(Area { x: 0, y: 0, width: 40, height: 9 }, 20);
    assert_eq!(squeezed, Area { x: 0, y: 4, width: 40, height: 1 });
}

#[test]
fn fps_counter_reports_completed_frame_intervals() {
    let start: u64 = 1_000_000_000;
    let mut window = FpsWindow::new();
    assert_eq!(window.record_frame(start), None);
    let mut fps = None;
    for interval in 1_u64..=10 {
        if let Some(sample) = window.record_frame(start + interval * 50_000_000) {
            fps = Some(sample.frames as f32 / (sample.elapsed_nanos as f32 / 1_000_000_000.0));
        }
    }
    let fps = fps.expect("an FPS sample");
    assert!((fps - 20.0).abs() < f32::EPSILON);
}

#[test]
fn offset_content_and_stage_areas() {
    let content = content_area(Area { x: 3, y: 5, width: 10, height: 7 }, 2);
    assert_eq!(content, Area { x: 3, y: 7, width: 10, height: 3 });
    assert_eq!(mesh_stage(content), Area { x: 4, y: 7, width: 8, height: 3 });
}
