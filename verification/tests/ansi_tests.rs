use desktop_tui::ansi::AnsiOptimizer;

fn optimized(chunks: &[&[u8]]) -> Vec<u8> {
    let mut optimizer = AnsiOptimizer::new(Vec::new());
    for chunk in chunks {
        optimizer.write_all(chunk);
    }
    optimizer.flush();
    optimizer.into_inner()
}

#[test]
fn removes_redundant_background_resets() {
    let mut optimizer = AnsiOptimizer::new(Vec::new());
    optimizer.write_all(b"\x1b[38;2;225;225;226;49m#\x1b[49m");
    optimizer.flush();

    assert_eq!(optimizer.into_inner(), b"\x1b[38;2;225;225;226m#");
}

#[test]
fn preserves_reset_after_colored_background() {
    let mut optimizer = AnsiOptimizer::new(Vec::new());
    optimizer.write_all(b"\x1b[48;2;12;34;56m \x1b[38;2;1;2;3;49m#");
    optimizer.flush();

    assert_eq!(
        optimizer.into_inner(),
        b"\x1b[48;2;12;34;56m \x1b[38;2;1;2;3;49m#"
    );
}

#[test]
fn optimizes_escape_split_across_writes() {
    let mut optimizer = AnsiOptimizer::new(Vec::new());
    optimizer.write_all(b"\x1b[38;2;10");
    optimizer.write_all(b";20;30;49");
    optimizer.write_all(b"mX");
    optimizer.flush();

    assert_eq!(optimizer.into_inner(), b"\x1b[38;2;10;20;30mX");
}

#[test]
fn write_reports_every_byte_taken() {
    let mut optimizer = AnsiOptimizer::new(Vec::new());
    assert_eq!(optimizer.write(b"abc\x1b[3"), 6);
    assert_eq!(optimizer.take_written(), b"abc");
    assert_eq!(optimizer.write(b"1m"), 2);
    assert_eq!(optimizer.into_inner(), b"\x1b[31m");
}

#[test]
fn split_points_do_not_change_the_output() {
    let stream: &[u8] = b"a\x1b[38;5;49mb\x1b[49mc\x1b[48;5;1m\x1b[0;49m\x1b[49md\x1b[2J";
    let whole = optimized(&[stream]);
    for cut in 0..=stream.len() {
        let (left, right) = stream.split_at(cut);
        assert_eq!(optimized(&[left, right]), whole, "cut at {cut}");
    }
}

#[test]
fn plain_text_passes_through() {
    assert_eq!(optimized(&[b"hello, terminal\n\t!"]), b"hello, terminal\n\t!");
}

#[test]
fn other_control_sequences_pass_through() {
    assert_eq!(optimized(&[b"\x1b[2J\x1b[10;20H\x1b[?25l"]), b"\x1b[2J\x1b[10;20H\x1b[?25l");
}

#[test]
fn escape_without_bracket_passes_through() {
    assert_eq!(optimized(&[b"\x1b7x\x1b8"]), b"\x1b7x\x1b8");
}

#[test]
fn flush_releases_an_open_escape() {
    assert_eq!(optimized(&[b"a\x1b[38;2"]), b"a\x1b[38;2");
}

#[test]
fn background_reset_is_kept_after_a_colored_background() {
    assert_eq!(
        optimized(&[b"\x1b[48;5;3m\x1b[49m\x1b[49m"]),
        b"\x1b[48;5;3m\x1b[49m"
    );
}

#[test]
fn full_reset_makes_the_background_reset() {
    assert_eq!(optimized(&[b"\x1b[48;5;3m\x1b[m\x1b[49m"]), b"\x1b[48;5;3m\x1b[m");
}

#[test]
fn combined_reset_is_kept_when_background_is_selected() {
    assert_eq!(
        optimized(&[b"\x1b[48;5;3;49m\x1b[49m"]),
        b"\x1b[48;5;3;49m"
    );
}

#[test]
fn rewritten_sequence_keeps_the_background_reset() {
    assert_eq!(
        optimized(&[b"\x1b[38;5;1;49m\x1b[49m\x1b[48;5;2m\x1b[49m"]),
        b"\x1b[38;5;1m\x1b[48;5;2m\x1b[49m"
    );
}

#[test]
fn keeps_blue_channel_of_rgb_foreground() {
    assert_eq!(optimized(&[b"\x1b[38;2;1;2;49mX"]), b"\x1b[38;2;1;2;49mX");
}

#[test]
fn keeps_indexed_foreground_colour_49() {
    assert_eq!(optimized(&[b"\x1b[38;5;49mX"]), b"\x1b[38;5;49mX");
}

#[test]
fn basic_background_colour_ends_the_reset_state() {
    assert_eq!(
        optimized(&[b"\x1b[41m\x1b[38;5;1;49m\x1b[49m"]),
        b"\x1b[41m\x1b[38;5;1;49m"
    );
    assert_eq!(optimized(&[b"\x1b[101m\x1b[49m\x1b[49m"]), b"\x1b[101m\x1b[49m");
}

#[test]
fn trailing_reset_without_other_numbers_is_kept() {
    assert_eq!(optimized(&[b"\x1b[;49m"]), b"\x1b[;49m");
}

#[test]
fn background_after_many_parameters_is_seen() {
    let stream: &[u8] = b"\x1b[1;1;1;1;1;1;1;1;1;1;1;1;1;1;1;1;48;5;1m\x1b[49m";
    assert_eq!(optimized(&[stream]), stream);
}
