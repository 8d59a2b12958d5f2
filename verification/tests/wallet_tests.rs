use sovereign_core::key_text::{format_key_bytes, parse_key_text};
use sovereign_core::wallet::{answer_for, create_wallet, load_wallet, wallet_json};
use sovereign_core::SovereignManager;

const FIRST_PAIR: [u8; 64] = [
    157, 97, 177, 157, 239, 253, 90, 96, 186, 132, 74, 244, 146, 236, 44, 196, 68, 73, 197, 105,
    123, 50, 105, 25, 112, 59, 172, 3, 28, 174, 127, 96, 215, 90, 152, 1, 130, 177, 10, 183, 213,
    75, 254, 211, 201, 100, 7, 58, 14, 225, 114, 243, 218, 166, 35, 37, 175, 2, 26, 104, 247, 7,
    81, 26,
];

const SECOND_PAIR: [u8; 64] = [
    76, 205, 8, 155, 40, 255, 150, 218, 157, 182, 195, 70, 236, 17, 78, 15, 91, 138, 49, 159, 53,
    171, 166, 36, 218, 140, 246, 237, 79, 184, 166, 251, 61, 64, 23, 195, 232, 67, 137, 90, 146,
    183, 10, 167, 77, 27, 126, 188, 156, 152, 44, 207, 46, 196, 150, 140, 192, 205, 85, 241, 42,
    244, 102, 12,
];

fn read_with_std(text: &str) -> Option<Vec<u8>> {
    let inner = text.trim_matches(|c| c == '[' || c == ']');
    let mut bytes = Vec::new();
    for piece in inner.split(',') {
        match piece.trim().parse::<u8>() {
            Ok(byte) => bytes.push(byte),
            Err(_) => return None,
        }
    }
    Some(bytes)
}

fn between<'a>(text: &'a str, before: &str, after: &str) -> &'a str {
    let from = text.find(before).unwrap() + before.len();
    let len = text[from..].find(after).unwrap();
    &text[from..from + len]
}

#[test]
fn a_key_is_written_as_a_list_in_brackets() {
    assert_eq!(format_key_bytes(&[]), "[]");
    assert_eq!(format_key_bytes(&[0]), "[0]");
    assert_eq!(format_key_bytes(&[1, 2, 3]), "[1, 2, 3]");
    assert_eq!(
        format_key_bytes(&[0, 9, 10, 99, 100, 101, 199, 200, 255]),
        "[0, 9, 10, 99, 100, 101, 199, 200, 255]"
    );
}

#[test]
fn every_byte_is_written_as_std_writes_it() {
    for byte in 0u8..=255 {
        assert_eq!(format_key_bytes(&[byte]), format!("{:?}", [byte]));
    }
    assert_eq!(format_key_bytes(&FIRST_PAIR), format!("{:?}", FIRST_PAIR));
}

#[test]
fn the_record_of_a_wallet_is_a_json_object() {
    assert_eq!(
        wallet_json("ADDR", &[1, 2]),
        "{\"pub_key\": \"ADDR\", \"secret_key\": \"[1, 2]\"}"
    );
    assert_eq!(
        wallet_json("", &[]),
        "{\"pub_key\": \"\", \"secret_key\": \"[]\"}"
    );
}

#[test]
fn a_list_of_bytes_is_read() {
    assert_eq!(parse_key_text("[1, 2, 3]"), Some(vec![1, 2, 3]));
    assert_eq!(parse_key_text("1,2,3"), Some(vec![1, 2, 3]));
    assert_eq!(parse_key_text("[0]"), Some(vec![0]));
    assert_eq!(parse_key_text("255"), Some(vec![255]));
    assert_eq!(parse_key_text("[ 1 ,\t2\n,  3 ]"), Some(vec![1, 2, 3]));
}

#[test]
fn any_number_of_brackets_at_the_ends_is_dropped() {
    assert_eq!(parse_key_text("[[1, 2]]"), Some(vec![1, 2]));
    assert_eq!(parse_key_text("][1]["), Some(vec![1]));
    assert_eq!(parse_key_text("1, 2]]]"), Some(vec![1, 2]));
    assert_eq!(parse_key_text("[[[7"), Some(vec![7]));
}

#[test]
fn a_plus_sign_and_leading_zeros_are_read() {
    assert_eq!(parse_key_text("+7"), Some(vec![7]));
    assert_eq!(parse_key_text("[+0, +255]"), Some(vec![0, 255]));
    assert_eq!(parse_key_text("007"), Some(vec![7]));
    assert_eq!(parse_key_text("0000000000000000000000255"), Some(vec![255]));
}

#[test]
fn all_white_space_around_a_piece_is_dropped() {
    assert_eq!(parse_key_text("\u{3000}5\u{a0}"), Some(vec![5]));
    assert_eq!(parse_key_text("[\u{2003}1\u{2009},\u{85}2\u{1680}]"), Some(vec![1, 2]));
    assert_eq!(parse_key_text("\r\n9\u{b}\u{c}"), Some(vec![9]));
}

#[test]
fn what_is_no_list_of_bytes_is_not_read() {
    for text in [
        "", "[]", "[", "]", ",", "1,", ",1", "1,,2", "256", "1000", "-1", "-0", "+", "++1",
        "+ 1", "1 2", "a", "0x10", "1.0", "[1, [2], 3]", " [1]", "[1] ", "1;2", "\u{ff11}",
        "\u{661}", "99999999999999999999999", "1, 2, 300", "300, 1", "\u{200b}1",
    ] {
        assert_eq!(parse_key_text(text), None);
    }
}

#[test]
fn reading_agrees_with_std() {
    let mut texts: Vec<String> = Vec::new();
    let parts = [
        "", "[", "]", ",", " ", "\t", "+", "-", "0", "1", "25", "255", "256", "9", "a",
        "\u{a0}", "\u{2028}", "\u{feff}",
    ];
    for a in parts {
        for b in parts {
            for c in parts {
                texts.push(format!("{a}{b}{c}"));
                texts.push(format!("[{a}{b},{c}]"));
                texts.push(format!("{a},{b} ,{c}"));
            }
        }
    }
    for text in texts {
        assert_eq!(parse_key_text(&text), read_with_std(&text));
    }
}

#[test]
fn what_is_written_is_read_back() {
    for bytes in [
        vec![0u8],
        vec![255],
        vec![1, 2, 3],
        (0u8..=255).collect::<Vec<u8>>(),
        FIRST_PAIR.to_vec(),
    ] {
        assert_eq!(parse_key_text(&format_key_bytes(&bytes)), Some(bytes));
    }
    assert_eq!(parse_key_text(&format_key_bytes(&[])), None);
}

#[test]
fn a_known_key_pair_loads_to_its_address() {
    assert_eq!(
        load_wallet(&format_key_bytes(&FIRST_PAIR)),
        "FVen3X669xLzsi6N2V91DoiyzHzg1uAgqiT8jZ9nS96Z"
    );
    assert_eq!(
        load_wallet(&format_key_bytes(&SECOND_PAIR)),
        "586Z7H2vpX9qNhN2T4e9Utugie3ogjbxzGaMtM3E6HR5"
    );
}

#[test]
fn bytes_that_are_no_key_pair_are_answered_as_such() {
    assert_eq!(load_wallet("[1, 2, 3]"), "Invalid secret key bytes");
    let mut mixed = FIRST_PAIR;
    mixed[32..].copy_from_slice(&SECOND_PAIR[32..]);
    assert_eq!(load_wallet(&format_key_bytes(&mixed)), "Invalid secret key bytes");
    let mut longer = FIRST_PAIR.to_vec();
    longer.push(0);
    assert_eq!(load_wallet(&format_key_bytes(&longer)), "Invalid secret key bytes");
    assert_eq!(
        load_wallet(&format_key_bytes(&FIRST_PAIR[..63])),
        "Invalid secret key bytes"
    );
}

#[test]
fn a_text_that_is_no_list_is_answered_as_such() {
    assert_eq!(load_wallet("hello"), "Invalid secret key format");
    assert_eq!(load_wallet(""), "Invalid secret key format");
    assert_eq!(load_wallet("[1, 2, 256]"), "Invalid secret key format");
}

#[test]
fn the_answer_for_a_missing_address_says_so() {
    assert_eq!(answer_for(None), "Invalid secret key bytes");
    assert_eq!(answer_for(Some(String::from("abc"))), "abc");
}

#[test]
fn a_new_wallet_loads_to_its_own_address() {
    let json = create_wallet();
    assert!(json.starts_with("{\"pub_key\": \""));
    assert!(json.ends_with("]\"}"));
    let address = between(&json, "{\"pub_key\": \"", "\", \"secret_key\": \"");
    let secret = between(&json, "\"secret_key\": \"", "\"}");
    assert!(address.len() >= 32 && address.len() <= 44);
    assert_eq!(parse_key_text(secret).unwrap().len(), 64);
    assert_eq!(load_wallet(secret), address);
    assert_eq!(json, wallet_json(address, &parse_key_text(secret).unwrap()));
}

#[test]
fn two_new_wallets_differ() {
    assert_ne!(create_wallet(), create_wallet());
}

#[test]
fn the_manager_makes_and_loads_wallets() {
    let manager = SovereignManager::new(Vec::new());
    let json = manager.create_wallet();
    let address = between(&json, "{\"pub_key\": \"", "\", \"secret_key\": \"");
    let secret = between(&json, "\"secret_key\": \"", "\"}");
    assert_eq!(manager.load_wallet(String::from(secret)), address);
    assert_eq!(
        manager.load_wallet(format_key_bytes(&FIRST_PAIR)),
        "FVen3X669xLzsi6N2V91DoiyzHzg1uAgqiT8jZ9nS96Z"
    );
    assert_eq!(manager.load_wallet(String::from("[1]")), "Invalid secret key bytes");
    assert_eq!(manager.load_wallet(String::from("x")), "Invalid secret key format");
}
