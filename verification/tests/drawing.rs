//! Text layout, gauges, bars and charts.

use teatop::num::Num;
use teatop::style::{self, dim, strip_ansi, width, Style, CPU_COLOR, GRAY, GREEN, RED};
use teatop::text::{clamp_percent, left_pad, pad_line, pad_truncate, spaces, truncate_runes};
use teatop::ui::braille::{render_braille, render_lanes};
use teatop::ui::corebars::{core_bars_fit_cols, core_bars_spaced_height, render_core_bars};
use teatop::ui::gauge::meter_row;
use teatop::ui::history::{append_history, max_tail, HISTORY_CAP};
use teatop::ui::screen::{frame_screen, header_line, height, join_horizontal_top, truncate_width};

fn num(x: f64) -> Num {
    Num { bits: x.to_bits() }
}

fn nums(v: &[f64]) -> Vec<Num> {
    v.iter().map(|&x| num(x)).collect()
}

#[test]
fn styles_wrap_text_in_codes() {
    assert_eq!(Style::new().render("x"), "x");
    assert_eq!(Style::new().fg(RED).render("x"), "\x1b[31mx\x1b[0m");
    assert_eq!(Style::new().fg(GRAY).bg(13).bold().render("x"), "\x1b[1;90;105mx\x1b[0m");
    assert_eq!(dim("x"), "\x1b[90mx\x1b[0m");
    assert_eq!(strip_ansi("a\x1b[1;31mb\x1b[0mc\x1bd"), "abcd");
}

#[test]
fn width_counts_cells_not_characters() {
    assert_eq!(width("漢字"), 4);
    assert_eq!(width(&Style::new().bold().render("日本")), 4);
    assert_eq!(width("e\u{301}"), 1);
    assert_eq!(width("▐░⠿"), 3);
}

#[test]
fn padding_counts_characters_and_cells() {
    assert_eq!(pad_truncate("abc", 5), "abc  ");
    assert_eq!(pad_truncate("abcdef", 4), "abcd");
    assert_eq!(pad_truncate("äöü", 2), "äö");
    assert_eq!(left_pad("7", 3), "  7");
    assert_eq!(left_pad("1234", 3), "1234");
    assert_eq!(pad_line("漢", 4), "漢  ");
    assert_eq!(pad_line("abc", 2), "abc");
    assert_eq!(truncate_runes("abcdef", 3), "abc");
    assert_eq!(spaces(3), "   ");
    assert_eq!(f64::from_bits(clamp_percent(num(120.0)).bits), 100.0);
}

#[test]
fn clipping_keeps_escapes_and_whole_cells() {
    assert_eq!(truncate_width("hello", 5), "hello");
    assert_eq!(truncate_width("hello", 3), "hel\x1b[0m");
    assert_eq!(truncate_width("\x1b[31mhello\x1b[0m", 2), "\x1b[31mhe\x1b[0m");
    assert_eq!(truncate_width("漢字漢", 5), "漢字\x1b[0m");
    assert_eq!(truncate_width("漢字", 3), "漢\x1b[0m");
    // A variation selector widens the character in front of it.
    assert_eq!(truncate_width("\u{263a}\u{fe0f}x", 2), "\u{263a}\u{fe0f}\x1b[0m");
    for s in ["a\u{263a}\u{fe0f}b\u{263a}\u{fe0f}c", "\x1b[1m漢a\u{1f469}\u{200d}\u{1f52c}b\x1b[0m", "abc\x1b[31"] {
        for w in 0..9usize {
            assert!(width(&truncate_width(s, w)) <= w, "{:?} in {}", s, w);
        }
    }
}

#[test]
fn headers_keep_what_fits() {
    assert_eq!(header_line("left", "right", 12), "left   right");
    assert_eq!(header_line("left", "right", 10), "left      ");
    assert_eq!(header_line("left", "", 6), "left  ");
    assert_eq!(header_line("abcdef", "", 3), "abc\x1b[0m");
}

#[test]
fn blocks_join_side_by_side() {
    assert_eq!(join_horizontal_top("a\nbbb", 2, "x\ny\nz"), "a    x\nbbb  y\n     z");
    assert_eq!(join_horizontal_top("a\nb\nc", 1, "x"), "a x\nb \nc ");
    assert_eq!(height("a\nb\n"), 3);
    assert_eq!(height(""), 1);
}

#[test]
fn screens_get_their_margins() {
    assert_eq!(frame_screen(&vec!["a\nb".to_string(), "".to_string(), "c".to_string()]), "\n  a\n  b\n  \n  c\n");
}

#[test]
fn a_meter_is_exactly_as_wide_as_asked() {
    for w in [12usize, 20, 30, 45, 60, 100] {
        let row = meter_row("CPU", "2.4GHz  usr 1 sys 2 iow 3", num(58.7), CPU_COLOR, w);
        assert_eq!(width(&row), w, "{}", w);
    }
    let plain = strip_ansi(&meter_row("CPU", "detail", num(50.0), CPU_COLOR, 60));
    // 60 - 5 - 6 - 4 = 45 cells, of which 32 are kept for the detail.
    assert_eq!(plain, format!("CPU  [{}{}]  {:5.1}%  {:<30}", "▐".repeat(7), "░".repeat(6), 50.0, "detail"));
    let narrow = strip_ansi(&meter_row("VRAM", "detail", num(120.0), CPU_COLOR, 14));
    assert_eq!(narrow, "VRAM 100.0%   ");
    for w in 0..=18usize {
        let row = meter_row("VRAM", "detail", num(58.7), CPU_COLOR, w);
        assert_eq!(width(&row), w, "{}", w);
    }
    assert_eq!(strip_ansi(&meter_row("VRAM", "detail", num(58.7), CPU_COLOR, 8)), "VRAM  58");
    assert_eq!(strip_ansi(&meter_row("VRAM", "detail", num(58.7), CPU_COLOR, 3)), "VRA");
    assert_eq!(strip_ansi(&meter_row("VRAM", "detail", num(58.7), CPU_COLOR, 11)), "VRAM  58.7%");
}

#[test]
fn core_bars_stay_within_their_width() {
    for n in [1usize, 3, 10, 16, 64, 130] {
        let data: Vec<Num> = (0..n).map(|i| num(i as f64)).collect();
        for w in [1usize, 2, 5, 9, 20, 33, 80, 200] {
            for h in [1usize, 2, 4, 9] {
                let lines = render_core_bars(&data, num(100.0), w, h);
                assert_eq!(lines.len(), h);
                for l in &lines {
                    assert!(width(l) <= w, "{} cores in {} by {}", n, w, h);
                }
            }
        }
    }
}

#[test]
fn core_bars_fill_their_panel() {
    assert_eq!(core_bars_fit_cols(8, 30), 3);
    assert_eq!(core_bars_fit_cols(8, 5), 1);
    assert_eq!(core_bars_spaced_height(8, 30), 5);
    let data = nums(&[0.0, 25.0, 50.0, 100.0]);
    let lines = render_core_bars(&data, num(100.0), 40, 7);
    assert_eq!(lines.len(), 7);
    let plain: Vec<String> = lines.iter().map(|l| strip_ansi(l)).collect();
    assert_eq!(plain[1], "");
    assert_eq!(plain[0], format!("0 [{}   0%]", "░".repeat(31)));
    assert_eq!(plain[4], format!("2 [{}{}  50%]", "▐".repeat(15), "░".repeat(16)));
    assert_eq!(plain[6], format!("3 [{} 100%]", "▐".repeat(31)));
    assert!(lines[6].contains("\x1b[31m"));
    let packed = render_core_bars(&data, num(100.0), 40, 2);
    assert!(strip_ansi(&packed[0]).contains("0 [") && strip_ansi(&packed[0]).contains("2 ["));
    assert!(render_core_bars(&vec![], num(100.0), 40, 2).is_empty());
}

#[test]
fn every_core_stays_visible_in_a_packed_panel() {
    let lines = render_core_bars(&nums(&[10.0; 16]), num(100.0), 30, 4);
    assert_eq!(lines.len(), 4);
    let text: String = lines.iter().map(|l| strip_ansi(l) + "\n").collect();
    for i in 0..16 {
        assert!(text.contains(&format!("{:>2} [", i)), "core {} is missing", i);
    }
    assert!(lines.iter().all(|l| width(l) == 30));
}

#[test]
fn braille_dots_rise_with_the_values() {
    let a = nums(&[0.0, 100.0]);
    let lines = render_braille(&vec![&a], &vec![GREEN], num(100.0), 1, 1);
    // The first sample is the lowest dot on the left, the second runs from the
    // top of the right column down to just above it.
    let cell = char::from_u32(0x2800 + 0x40 + 0x08 + 0x10 + 0x20).unwrap();
    assert_eq!(lines, vec![format!("\x1b[32m{}\x1b[0m", cell)]);
    let right = nums(&[100.0]);
    let lines = render_braille(&vec![&right], &vec![GREEN], num(100.0), 2, 1);
    assert_eq!(strip_ansi(&lines[0]), format!(" {}", char::from_u32(0x2808).unwrap()));
    assert!(render_braille(&vec![&a], &vec![GREEN], num(100.0), 0, 1).is_empty());
}

#[test]
fn lanes_carry_their_names_and_fill_the_width() {
    let a = nums(&[10.0, 20.0]);
    let b = nums(&[30.0]);
    let lines = render_lanes(&vec![&a, &b], &vec![GREEN, RED], &vec!["cpu", "memory"], num(100.0), 30, 5);
    assert_eq!(lines.len(), 5);
    for l in &lines {
        assert_eq!(width(l), 30);
    }
    assert!(strip_ansi(&lines[1]).ends_with(" cpu"));
    assert!(strip_ansi(&lines[4]).ends_with(" mem"));
    let shared = render_lanes(&vec![&a, &b], &vec![GREEN, RED], &vec!["cpu", "mem"], num(100.0), 30, 3);
    assert!(strip_ansi(&shared[0]).ends_with(" 100"));
    assert!(strip_ansi(&shared[2]).ends_with("   0"));
    assert!(render_lanes(&vec![&a], &vec![GREEN], &vec!["cpu"], num(100.0), 30, 0).is_empty());
}

#[test]
fn only_the_trailing_samples_within_the_scale_matter() {
    let long = nums(&[7.0, 99.0, 12.0, -5.0, 40.0, 250.0, 80.0]);
    let seen = nums(&[0.0, 40.0, 100.0, 80.0]);
    let other = nums(&[3.0]);
    let colors = vec![GREEN, RED];
    for h in 1..4usize {
        let a = render_braille(&vec![&long, &other], &colors, num(100.0), 2, h);
        let b = render_braille(&vec![&seen, &other], &colors, num(100.0), 2, h);
        assert_eq!(a, b);
    }
    let later = nums(&[0.0, 40.0, 100.0, 10.0]);
    assert_ne!(
        render_braille(&vec![&long], &colors, num(100.0), 2, 2),
        render_braille(&vec![&later], &colors, num(100.0), 2, 2)
    );
}

#[test]
fn narrow_lanes_are_the_plots_one_below_the_other() {
    let a = nums(&[10.0, 90.0, 40.0]);
    let b = nums(&[30.0, 30.0]);
    let c = nums(&[100.0, 0.0, 100.0, 0.0]);
    let lines = render_lanes(&vec![&a, &b, &c], &vec![GREEN, RED, GRAY], &vec!["cpu", "mem", "gpu"], num(100.0), 23, 8);
    let mut alone: Vec<String> = Vec::new();
    alone.extend(render_braille(&vec![&a], &vec![GREEN], num(100.0), 23, 3));
    alone.extend(render_braille(&vec![&b], &vec![RED], num(100.0), 23, 3));
    alone.extend(render_braille(&vec![&c], &vec![GRAY], num(100.0), 23, 2));
    assert_eq!(lines.len(), 8);
    assert_eq!(lines, alone);
}

#[test]
fn histories_forget_the_oldest() {
    let mut h: Vec<Num> = Vec::new();
    for i in 0..HISTORY_CAP + 5 {
        append_history(&mut h, num(i as f64));
    }
    assert_eq!(h.len(), 600);
    assert_eq!(f64::from_bits(h[0].bits), 5.0);
    assert_eq!(f64::from_bits(h[599].bits), 604.0);
    let tail = nums(&[9.0, 1.0, f64::NAN, 3.0]);
    assert_eq!(f64::from_bits(max_tail(&tail, 3).bits), 3.0);
    assert_eq!(f64::from_bits(max_tail(&tail, 10).bits), 9.0);
    assert_eq!(f64::from_bits(max_tail(&nums(&[-4.0]), 10).bits), 0.0);
    assert_eq!(style::width(""), 0);
}
