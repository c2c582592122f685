use rime_llm::order::{float_greater, total_order_key};
use rime_llm::scan::{is_space_char, parse_u64, parse_u8, parse_usize};

fn samples() -> Vec<f32> {
    vec![
        0.0,
        -0.0,
        1.0,
        -1.0,
        0.5,
        1e-40,
        -1e-40,
        f32::MAX,
        f32::MIN,
        f32::INFINITY,
        f32::NEG_INFINITY,
        f32::NAN,
        -f32::NAN,
        123.25,
        -7.5,
    ]
}

#[test]
fn total_order_key_orders_as_total_cmp() {
    for a in samples() {
        for b in samples() {
            let by_key = total_order_key(a.to_bits()).cmp(&total_order_key(b.to_bits()));
            assert_eq!(by_key, a.total_cmp(&b), "{a} vs {b}");
        }
    }
}

#[test]
fn float_greater_matches_the_float_comparison() {
    for a in samples() {
        for b in samples() {
            assert_eq!(float_greater(a.to_bits(), b.to_bits()), a > b, "{a} > {b}");
        }
    }
}

#[test]
fn whitespace_matches_char_is_whitespace() {
    for code in 0u32..0x3100 {
        if let Some(c) = char::from_u32(code) {
            assert_eq!(is_space_char(c), c.is_whitespace(), "U+{code:04X}");
        }
    }
}

#[test]
fn number_parsing_matches_str_parse() {
    let inputs = [
        "", "+", "-", "0", "+0", "-0", "7", "+7", "007", "255", "256", "65535", "4294967296",
        "18446744073709551615", "18446744073709551616", "1_0", " 1", "1 ", "12a", "+-1", "٣",
    ];
    for input in inputs {
        assert_eq!(parse_u8(input), input.parse::<u8>().ok(), "{input:?}");
        assert_eq!(parse_usize(input), input.parse::<usize>().ok(), "{input:?}");
        assert_eq!(parse_u64(input), input.parse::<u64>().ok(), "{input:?}");
    }
}
