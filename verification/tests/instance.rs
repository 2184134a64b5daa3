use vram_monitor::parse_instance;
use vram_monitor::text::{chars_of, parse_u32, push_decimal, split, trim};

#[test]
fn parses_memory_instance_name() {
    assert_eq!(
        parse_instance("pid_1234_luid_0x00000000_0x00019F66_phys_0"),
        Some((1234, Some((0x0, 0x19F66))))
    );
}

#[test]
fn parses_engine_instance_name() {
    assert_eq!(
        parse_instance("pid_4321_luid_0x00000001_0x0000ABCD_phys_0_eng_3_engtype_3D"),
        Some((4321, Some((0x1, 0xABCD))))
    );
}

#[test]
fn instance_without_luid_has_no_luid() {
    assert_eq!(parse_instance("pid_77_phys_0"), Some((77, None)));
    assert_eq!(parse_instance("pid_77"), Some((77, None)));
}

#[test]
fn instance_without_pid_prefix_is_rejected() {
    assert_eq!(parse_instance("luid_0x0_0x1"), None);
    assert_eq!(parse_instance("_Total"), None);
    assert_eq!(parse_instance(""), None);
    assert_eq!(parse_instance("PID_1_luid_0x0_0x1"), None);
}

#[test]
fn instance_with_bad_pid_is_rejected() {
    assert_eq!(parse_instance("pid__luid_0x0_0x1"), None);
    assert_eq!(parse_instance("pid_12a_luid_0x0_0x1"), None);
    assert_eq!(parse_instance("pid_4294967296_luid_0x0_0x1"), None);
    assert_eq!(parse_instance("pid_4294967295"), Some((u32::MAX, None)));
}

#[test]
fn pid_accepts_a_plus_sign_like_str_parse() {
    assert_eq!(parse_instance("pid_+12_luid_0x0_0x2"), Some((12, Some((0, 2)))));
    assert_eq!(parse_instance("pid_+_luid_0x0_0x2"), None);
}

#[test]
fn luid_field_must_have_two_hex_parts() {
    assert_eq!(parse_instance("pid_5_luid_0x1"), None);
    assert_eq!(parse_instance("pid_5_luid_1_0x2"), None);
    assert_eq!(parse_instance("pid_5_luid_0x1_2"), None);
    assert_eq!(parse_instance("pid_5_luid_0x_0x2"), None);
    assert_eq!(parse_instance("pid_5_luid_0xG_0x2"), None);
    assert_eq!(parse_instance("pid_5_luid_0x100000000_0x2"), None);
    assert_eq!(parse_instance("pid_5_luid_0xffffffff_0xAbC"), Some((5, Some((u32::MAX, 0xABC)))));
}

#[test]
fn hex_parse_matches_from_str_radix() {
    for s in ["0", "ff", "FF", "+1f", "", "+", "-1", "100000000", "ffffffff", "g", "00019F66"] {
        let chars = chars_of(s);
        assert_eq!(parse_u32(&chars, 16), u32::from_str_radix(s, 16).ok(), "input {s:?}");
        assert_eq!(parse_u32(&chars, 10), s.parse::<u32>().ok(), "input {s:?}");
    }
}

#[test]
fn decimal_rendering_matches_display() {
    for n in [0u32, 7, 10, 99, 1234, u32::MAX] {
        let mut out = Vec::new();
        push_decimal(&mut out, n);
        let text: String = out.iter().collect();
        assert_eq!(text, n.to_string());
        assert_eq!(parse_u32(&out, 10), Some(n));
    }
}

#[test]
fn split_matches_str_split() {
    for s in ["a_b", "_a__b_", "", "abc", "__"] {
        let fields = split(&chars_of(s), '_');
        let expected: Vec<Vec<char>> = s.split('_').map(|f| f.chars().collect()).collect();
        assert_eq!(fields, expected, "input {s:?}");
    }
}

#[test]
fn trim_matches_str_trim() {
    for s in ["  a b  ", "\u{3000}x\u{85}", "", "   ", "\tNVIDIA GeForce RTX 4090\n"] {
        let t: String = trim(&chars_of(s)).iter().collect();
        assert_eq!(t, s.trim(), "input {s:?}");
    }
}
