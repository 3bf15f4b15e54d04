use vps_probe::digits::{read_signed, read_unsigned, show_signed, show_unsigned};
use vps_probe::num::Num;
use vps_probe::text;

/// A small generator of bit patterns.
fn next(s: &mut u64) -> u64 {
    *s ^= *s << 13;
    *s ^= *s >> 7;
    *s ^= *s << 17;
    *s
}

fn float(n: Num) -> f64 {
    f64::from_bits(n.bits)
}

fn same(a: f64, b: f64) -> bool {
    a.to_bits() == b.to_bits() || (a.is_nan() && b.is_nan())
}

fn samples() -> Vec<f64> {
    let mut v = vec![
        0.0, -0.0, 1.0, -1.0, 0.1, 0.4, 2.0, 3.0, 10.0, 100.0, 1e15, 1e16, 1e17, 5e-324, 2.2250738585072014e-308,
        1.7976931348623157e308, 9007199254740992.0, 9007199254740993.0, 4503599627370496.5,
    ];
    let mut s = 0x9e3779b97f4a7c15u64;
    for _ in 0..60 {
        let x = f64::from_bits(next(&mut s));
        if x.is_finite() {
            v.push(x);
        }
        v.push((next(&mut s) >> 20) as f64 / 1024.0);
    }
    v
}

#[test]
fn reads_what_std_reads() {
    let texts = [
        "0", "1", "-1", "+1", "1.", ".5", "-.5", "1e3", "1E3", "1e+3", "1e-3", "1.5e10", "00012", "1e400", "-1e400",
        "1e-400", "123456789012345678901234567890", "0.30000000000000004", "2.2250738585072011e-308", "4.9e-324",
        "2.4703282292062327e-324", "2.4703282292062328e-324", "9007199254740993", "9007199254740992.9999999999",
        "inf", "-inf", "Infinity", "NaN", "nan", "1e1000000000000000000000", "0e99999999999999999999",
    ];
    for t in texts {
        let std = t.parse::<f64>().unwrap();
        let own = Num::read(t).unwrap();
        assert!(same(float(own), std), "{}: {} {}", t, float(own), std);
    }
    for t in ["", ".", "e5", "1e", "1e+", "-", "+", "1x", " 1", "1 ", "0x10", "--1", "1.2.3", "in", "infin"] {
        assert!(t.parse::<f64>().is_err(), "{}", t);
        assert!(Num::read(t).is_none(), "{}", t);
    }
}

#[test]
fn reads_back_what_std_shows() {
    for x in samples() {
        let t = format!("{:e}", x);
        assert_eq!(Num::read(&t).unwrap().bits, x.to_bits(), "{}", t);
        let t = format!("{}", x);
        assert_eq!(Num::read(&t).unwrap().bits, x.to_bits(), "{}", t);
    }
}

#[test]
fn shows_the_shortest_text() {
    for x in samples() {
        if x == 0.0 {
            continue;
        }
        let t = Num { bits: x.to_bits() }.show();
        assert_eq!(t, format!("{}", x));
    }
    assert_eq!(Num { bits: 0.1f64.to_bits() }.show(), "0.1");
    assert_eq!(Num { bits: 1e21f64.to_bits() }.show(), "1000000000000000000000");
}

#[test]
fn computes_as_the_machine_does() {
    let v = samples();
    for i in 0..v.len() {
        let a = v[i];
        let b = v[(i * 7 + 3) % v.len()];
        let x = Num { bits: a.to_bits() };
        let y = Num { bits: b.to_bits() };
        assert!(same(float(x.times(y)), a * b), "{} * {}", a, b);
        assert!(same(float(x.over(y)), a / b), "{} / {}", a, b);
        assert_eq!(x.is_less(y), a < b, "{} < {}", a, b);
        assert_eq!(x.to_i64(), a as i64, "{}", a);
        assert_eq!(x.to_u64(), a as u64, "{}", a);
        assert_eq!(x.is_nonzero(), a != 0.0, "{}", a);
        if a >= 0.0 && b >= 0.0 && a.is_sign_positive() && b.is_sign_positive() {
            assert!(same(float(x.less_by(y)), a - b), "{} - {}", a, b);
        }
    }
    let inf = Num { bits: f64::INFINITY.to_bits() };
    let nan = Num { bits: f64::NAN.to_bits() };
    let zero = Num { bits: 0 };
    assert!(inf.times(zero).is_nan());
    assert!(inf.over(inf).is_nan());
    assert!(zero.over(zero).is_nan());
    assert!(!nan.is_less(inf) && !inf.is_less(nan));
    assert_eq!(inf.to_i64(), i64::MAX);
    assert_eq!(nan.to_u64(), 0);
}

#[test]
fn rounds_integers_as_the_machine_does() {
    let mut s = 88172645463325252u64;
    for _ in 0..200 {
        let n = next(&mut s);
        assert_eq!(Num::of_u64(n).bits, (n as f64).to_bits());
        assert_eq!(Num::of_i64(n as i64).bits, ((n as i64) as f64).to_bits());
        let d = next(&mut s) % 1000 + 1;
        let small = n >> 12;
        assert_eq!(Num::ratio(small, d).bits, (small as f64 / d as f64).to_bits());
    }
    assert_eq!(Num::of_i64(i64::MIN).bits, (i64::MIN as f64).to_bits());
    assert_eq!(Num::ratio(4, 10).bits, 0.4f64.to_bits());
}

#[test]
fn small_whole_numbers_are_exact() {
    for n in [0i64, 1, -1, 42, (1 << 53) - 1, 1 << 53, -(1 << 53)] {
        assert_eq!(Num::of_i64(n).to_i64(), n);
    }
    assert_ne!(Num::of_i64((1 << 53) + 1).to_i64(), (1 << 53) + 1);
}

#[test]
fn white_space_is_what_std_says() {
    for u in 0..0x11000u32 {
        if let Some(c) = char::from_u32(u) {
            assert_eq!(text::blank(c), c.is_whitespace(), "{:x}", u);
        }
    }
}

#[test]
fn integers_read_as_std_reads_them() {
    let texts = [
        "0", "1", "-1", "+1", "18446744073709551615", "18446744073709551616", "9223372036854775807",
        "9223372036854775808", "-9223372036854775808", "-9223372036854775809", "", "+", "-", "--1", " 1", "1 ", "1a",
        "007", "-0", "+-1", "٣",
    ];
    for t in texts {
        assert_eq!(read_unsigned(t, 10, u64::MAX), t.parse::<u64>().ok(), "{}", t);
        assert_eq!(read_signed(t), t.parse::<i64>().ok(), "{}", t);
        assert_eq!(read_unsigned(t, 10, 65535), t.parse::<u16>().ok().map(|x| x as u64), "{}", t);
        assert_eq!(read_unsigned(t, 16, u64::MAX), u64::from_str_radix(t, 16).ok(), "{}", t);
    }
    assert_eq!(read_unsigned("ffFF", 16, u64::MAX), Some(65535));
    for n in [0i64, 7, -7, i64::MAX, i64::MIN, 1234567890] {
        assert_eq!(show_signed(n), n.to_string());
        assert_eq!(read_signed(&show_signed(n)), Some(n));
    }
    assert_eq!(show_unsigned(u64::MAX), u64::MAX.to_string());
}

#[test]
fn texts_split_as_std_splits_them() {
    let texts = ["", " ", "a", " a b\tc\n", "a,,b;c d", "x\r\ny\n\nz\r", "\n", "a\nb", "  lead", "é\u{a0}ü\u{3000}"];
    for t in texts {
        assert_eq!(text::split_words(t), t.split_whitespace().collect::<Vec<_>>(), "{:?}", t);
        assert_eq!(text::split_lines(t), t.lines().collect::<Vec<_>>(), "{:?}", t);
        assert_eq!(text::split(t, ", ;"), t.split([',', ' ', ';']).collect::<Vec<_>>(), "{:?}", t);
        assert_eq!(text::trim(t), t.trim(), "{:?}", t);
        assert_eq!(text::trim_end_of(t, "\r\n"), t.trim_end_matches(['\r', '\n']), "{:?}", t);
        assert_eq!(text::lower(t), t.to_ascii_lowercase(), "{:?}", t);
        assert_eq!(text::contains(t, "b"), t.contains("b"), "{:?}", t);
        assert_eq!(text::replace(t, "a", "xx"), t.replace("a", "xx"), "{:?}", t);
    }
    assert_eq!(text::replace("aaaa", "aa", "b"), "aaaa".replace("aa", "b"));
    assert_eq!(text::join(&vec!["a".to_string(), "b".to_string()], ", "), "a, b");
    assert_eq!(text::split_entries(" a:1, b:2;;c ,", ", ;"), vec!["a:1", "b:2", "c"]);
}

#[test]
fn equality_is_that_of_the_machine() {
    let v = [0.0, -0.0, 1.0, -1.0, f64::NAN, f64::INFINITY, -f64::INFINITY, 5e-324];
    for a in v {
        for b in v {
            let (x, y) = (Num { bits: a.to_bits() }, Num { bits: b.to_bits() });
            assert_eq!(x == y, a == b, "{} {}", a, b);
        }
    }
}
