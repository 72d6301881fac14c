use herdr_triage::json::{float_text, key_precedes};
use herdr_triage::text::{chars_of, push_decimal, string_of, white_space};

#[test]
fn white_space_is_the_unicode_white_space_property() {
    for u in 0u32..=0x10FFFF {
        if let Some(c) = char::from_u32(u) {
            assert_eq!(white_space(c), c.is_whitespace(), "U+{:04X}", u);
        }
    }
}

#[test]
fn float_text_is_what_f64_parsing_accepts() {
    let alphabet = ['0', '7', '+', '-', '.', 'e', 'E'];
    let mut texts: Vec<String> = vec![String::new()];
    for _ in 0..5 {
        let mut longer = Vec::new();
        for t in &texts {
            for c in alphabet {
                let mut u = t.clone();
                u.push(c);
                longer.push(u);
            }
        }
        for t in &texts {
            let cs: Vec<char> = t.chars().collect();
            assert_eq!(float_text(&cs), t.parse::<f64>().is_ok(), "{:?}", t);
        }
        texts = longer;
    }
}

#[test]
fn decimal_is_how_integers_display() {
    for n in [0u64, 7, 10, 99, 100, 4_096, 1_000_000_007, u64::MAX] {
        let mut s = String::from("n=");
        push_decimal(&mut s, n);
        assert_eq!(s, format!("n={}", n));
    }
}

#[test]
fn key_order_is_string_order() {
    let keys = ["", "a", "ab", "b", "B", "é", "z", "zz", "あ", "🚀"];
    for a in keys {
        for b in keys {
            let ca: Vec<char> = a.chars().collect();
            let cb: Vec<char> = b.chars().collect();
            assert_eq!(key_precedes(&ca, &cb), a < b, "{:?} {:?}", a, b);
        }
    }
}

#[test]
fn characters_round_trip() {
    let s = "a認🚀\u{0}";
    let cs = chars_of(s);
    assert_eq!(cs, vec!['a', '認', '🚀', '\u{0}']);
    assert_eq!(string_of(&cs), s);
}
