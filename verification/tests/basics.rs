//! Smallest checks that fail if the fiddly pure logic breaks: duration
//! parsing, byte/uptime formatting, the traffic-light mapping, interval
//! clamping and ANSI-aware width measurement.

use std::time::Duration;
use teatop::config::parse_duration;
use teatop::num::Num;
use teatop::style::{self, Style, RED, YELLOW};
use teatop::text::{format_bytes, format_uptime, load_color};
use teatop::ui::clamp_interval;

fn parsed(s: &str) -> Option<Duration> {
    parse_duration(s).map(|d| Duration::new(d.secs, d.nanos))
}

fn num(x: f64) -> Num {
    Num { bits: x.to_bits() }
}

#[test]
fn duration_parsing() {
    assert_eq!(parsed("30s"), Some(Duration::from_secs(30)));
    assert_eq!(parsed("10m"), Some(Duration::from_secs(600)));
    assert_eq!(parsed("1h30m"), Some(Duration::from_secs(5400)));
    assert_eq!(parsed("500ms"), Some(Duration::from_millis(500)));
    assert_eq!(parsed(""), None);
    assert_eq!(parsed("5"), None); // no unit
    assert_eq!(parsed("banana"), None);
}

#[test]
fn byte_and_uptime_formatting() {
    assert_eq!(format_bytes(0), "0B");
    assert_eq!(format_bytes(512), "512B");
    assert_eq!(format_bytes(1024), "1.0K");
    assert_eq!(format_bytes(1536), "1.5K");
    assert_eq!(format_bytes(1024 * 1024 * 1024), "1.0G");

    assert_eq!(format_uptime(90), "00:01:30");
    assert_eq!(format_uptime(3 * 86400 + 4 * 3600 + 26 * 60), "3d 04:26");
}

#[test]
fn traffic_light() {
    assert_eq!(load_color(num(90.0)), RED);
    assert_eq!(load_color(num(70.0)), YELLOW);
    assert_ne!(load_color(num(10.0)), RED);
}

#[test]
fn interval_bounds() {
    assert_eq!(clamp_interval(50), 100);
    assert_eq!(clamp_interval(9000), 5000);
    assert_eq!(clamp_interval(1000), 1000);
}

#[test]
fn width_ignores_ansi() {
    let styled = Style::new().fg(RED).bold().render("hello");
    assert_eq!(style::width(&styled), 5);
    assert!(styled.len() > 5); // escape codes are present but not counted
    assert_eq!(style::strip_ansi(&styled), "hello");
}
