use sync_folder::answer::{parse_answer, Answer};
use sync_folder::calendar::epoch_to_ymd;
use sync_folder::size::format_bytes;
use sync_folder::text::{decimal_string, from_chars, is_found_at, push_padded, push_padded_signed, to_chars};
use sync_folder::timestamp::{make_timestamp, timestamp_at, timestamp_of_reading};

fn float_text(bytes: u64) -> String {
    if bytes >= 1_073_741_824 {
        format!("{:.1} GB", bytes as f64 / 1_073_741_824.0)
    } else if bytes >= 1_048_576 {
        format!("{:.1} MB", bytes as f64 / 1_048_576.0)
    } else if bytes >= 1024 {
        format!("{} KB", bytes / 1024)
    } else {
        format!("{} B", bytes)
    }
}

#[test]
fn sizes_in_each_unit() {
    assert_eq!(format_bytes(0), "0 B");
    assert_eq!(format_bytes(1023), "1023 B");
    assert_eq!(format_bytes(1024), "1 KB");
    assert_eq!(format_bytes(2047), "1 KB");
    assert_eq!(format_bytes(1_048_575), "1023 KB");
    assert_eq!(format_bytes(1_048_576), "1.0 MB");
    assert_eq!(format_bytes(1_572_864), "1.5 MB");
    assert_eq!(format_bytes(1_073_741_823), "1024.0 MB");
    assert_eq!(format_bytes(1_073_741_824), "1.0 GB");
    assert_eq!(format_bytes(u64::MAX), "17179869184.0 GB");
}

#[test]
fn halves_go_to_the_even_tenth() {
    assert_eq!(format_bytes(1_048_576 + 262_144), "1.2 MB");
    assert_eq!(format_bytes(1_048_576 + 786_432), "1.8 MB");
    assert_eq!(format_bytes(1_073_741_824 + 268_435_456), "1.2 GB");
    assert_eq!(format_bytes(1_073_741_824 + 268_435_457), "1.3 GB");
}

#[test]
fn sizes_agree_with_floating_point() {
    let mut state: u64 = 0x9e37_79b9_7f4a_7c15;
    for shift in 0..64u32 {
        for _ in 0..300 {
            state = state.wrapping_mul(6364136223846793005).wrapping_add(1442695040888963407);
            let bytes = state >> shift;
            assert_eq!(format_bytes(bytes), float_text(bytes), "{}", bytes);
        }
        let edge = 1u64 << shift;
        for near in [edge.wrapping_sub(1), edge, edge.wrapping_add(1)].iter() {
            assert_eq!(format_bytes(*near), float_text(*near));
        }
    }
    for k in 0..200u64 {
        for whole in [1u64, 7, 1 << 23, (1 << 24) + 1, (1 << 33) + 3, (1 << 34) - 1].iter() {
            let tie = whole * 1_073_741_824 + (k % 4) * 268_435_456;
            for off in 0..7u64 {
                for bytes in [tie + off * 511, tie.wrapping_sub(off * 513)].iter() {
                    assert_eq!(format_bytes(*bytes), float_text(*bytes), "{}", bytes);
                }
            }
        }
    }
}

#[test]
fn known_dates() {
    assert_eq!(epoch_to_ymd(0), (1970, 1, 1));
    assert_eq!(epoch_to_ymd(-1), (1969, 12, 31));
    assert_eq!(epoch_to_ymd(59), (1970, 3, 1));
    assert_eq!(epoch_to_ymd(11016), (2000, 2, 29));
    assert_eq!(epoch_to_ymd(11017), (2000, 3, 1));
    assert_eq!(epoch_to_ymd(19782), (2024, 2, 29));
    assert_eq!(epoch_to_ymd(-25508), (1900, 3, 1));
    assert_eq!(epoch_to_ymd(-719528), (0, 1, 1));
    assert_eq!(epoch_to_ymd(-719529), (-1, 12, 31));
}

#[test]
fn dates_follow_one_another() {
    let lengths = [31, 28, 31, 30, 31, 30, 31, 31, 30, 31, 30, 31];
    let mut last = epoch_to_ymd(-800_000);
    for days in -799_999i64..200_000 {
        let next = epoch_to_ymd(days);
        let leap = last.0 % 4 == 0 && (last.0 % 100 != 0 || last.0 % 400 == 0);
        let mut length = lengths[(last.1 - 1) as usize];
        if last.1 == 2 && leap {
            length = 29;
        }
        let expected = if last.2 < length {
            (last.0, last.1, last.2 + 1)
        } else if last.1 < 12 {
            (last.0, last.1 + 1, 1)
        } else {
            (last.0 + 1, 1, 1)
        };
        assert_eq!(next, expected);
        last = next;
    }
}

#[test]
fn known_timestamps() {
    assert_eq!(timestamp_at(0), "19700101_000000");
    assert_eq!(timestamp_at(1_709_210_096), "20240229_123456");
    assert_eq!(timestamp_at(86_399), "19700101_235959");
    assert_eq!(timestamp_at(253_402_300_800), "100000101_000000");
    assert_eq!(timestamp_at(-1), "19700101_0000-1");
    assert_eq!(timestamp_at(-62_167_305_600), "-0011231_000000");
}

#[test]
fn clock_readings() {
    assert_eq!(timestamp_of_reading(None), "19700101_000000");
    assert_eq!(timestamp_of_reading(Some(86_400)), "19700102_000000");
    assert_eq!(timestamp_of_reading(Some(u64::MAX)), timestamp_at(-1));
}

#[test]
fn different_seconds_have_different_timestamps() {
    assert_ne!(timestamp_at(1_700_000_000), timestamp_at(1_700_000_001));
    assert_ne!(timestamp_at(1_700_000_000), timestamp_at(1_700_086_400));
}

#[test]
fn present_timestamp_has_its_form() {
    let stamp = make_timestamp();
    assert_eq!(stamp.len(), 15);
    assert_eq!(stamp.as_bytes()[8], b'_');
    assert!(stamp.bytes().enumerate().all(|(i, b)| i == 8 || b.is_ascii_digit()));
    assert!(stamp.as_str() > "20200101_000000");
}

#[test]
fn numbers_agree_with_the_standard_library() {
    for n in [0u64, 9, 10, 99, 100, 12345, u64::MAX].iter() {
        assert_eq!(decimal_string(*n), n.to_string());
        for width in 0..25usize {
            let mut out = String::new();
            push_padded(&mut out, *n, width);
            assert_eq!(out, format!("{:0width$}", n, width = width));
        }
    }
    for n in [0i64, 7, -7, 42, -42, -12345, i64::MIN, i64::MAX].iter() {
        for width in 0..25usize {
            let mut out = String::from("x");
            push_padded_signed(&mut out, *n, width);
            assert_eq!(out, format!("x{:0width$}", n, width = width));
        }
    }
}

#[test]
fn characters_and_back() {
    let chars = to_chars("aé文😀");
    assert_eq!(chars, vec!['a', 'é', '文', '😀']);
    assert_eq!(from_chars(&chars, 1, 3), "é文");
    assert!(is_found_at(&to_chars("文"), &chars, 2));
    assert!(!is_found_at(&to_chars("文"), &chars, 1));
    assert!(!is_found_at(&to_chars("文文"), &chars, 3));
}

#[test]
fn plain_answers() {
    assert_eq!(parse_answer("y\n"), Answer::Yes);
    assert_eq!(parse_answer("  YES \r\n"), Answer::Yes);
    assert_eq!(parse_answer("yEs"), Answer::Yes);
    assert_eq!(parse_answer("n\n"), Answer::No);
    assert_eq!(parse_answer("\u{3000}No\u{a0}"), Answer::No);
    assert_eq!(parse_answer(""), Answer::Unclear);
    assert_eq!(parse_answer("\n"), Answer::Unclear);
    assert_eq!(parse_answer("yes please"), Answer::Unclear);
    assert_eq!(parse_answer("ye s"), Answer::Unclear);
    assert_eq!(parse_answer("9"), Answer::Unclear);
}

fn std_answer(input: &str) -> Answer {
    match input.trim().to_lowercase().as_str() {
        "y" | "yes" => Answer::Yes,
        "n" | "no" => Answer::No,
        _ => Answer::Unclear,
    }
}

#[test]
fn answers_agree_with_the_standard_library() {
    for code in 0..0x11_0000u32 {
        if let Some(c) = char::from_u32(code) {
            let mut alone = String::new();
            alone.push(c);
            let mut around = String::new();
            around.push(c);
            around.push('y');
            around.push(c);
            let mut middle = String::from("y");
            middle.push(c);
            middle.push('s');
            let mut end = String::from("n");
            end.push(c);
            for input in [&alone, &around, &middle, &end].iter() {
                assert_eq!(parse_answer(input), std_answer(input), "{:?}", input);
            }
        }
    }
}
