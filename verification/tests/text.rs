//! Texts, numbers, the order of keys, and tokens.

use fals3::digits::{decimal_of, hex_of, hex_of_u64, hex_pair_of, padded_of, parse_u32};
use fals3::order::{add_member, is_before, sorted};
use fals3::store::listing::collect_keys;
use fals3::store::objects::{fits_range, range_of};
use fals3::store::parts::{
    new_upload_id, parse_part_body_filename, part_body_path, part_etag_path, upload_dir,
    upload_meta_path, validate_part_number,
};
use fals3::store::tokens::is_readable;
use fals3::store::{MetadataDirective, Store, MAX_PART_NUMBER};
use fals3::exchange::Tree;
use fals3::text::{
    begins_with, chars_of, finishes_with, has_char, joined, position_from, same_text,
    text_of, trim, Margin,
};
use std::collections::HashMap;

fn strings(list: &[&str]) -> Vec<String> {
    list.iter().map(|s| s.to_string()).collect()
}

// ---- texts ----

#[test]
fn texts_are_taken_apart_and_joined() {
    let cs = chars_of("héllo");
    assert_eq!(cs.len(), 5);
    assert_eq!(text_of(&cs, 1, 3), "él");
    assert_eq!(joined("ab", "cd"), "abcd");
    assert!(same_text("x", "x") && !same_text("x", "y"));
    assert!(begins_with("abc", "ab") && !begins_with("abc", "b") && begins_with("abc", ""));
    assert!(finishes_with("abc", "bc") && !finishes_with("abc", "b"));
    assert!(has_char("a\0b", '\0') && !has_char("ab", '\0'));
}

#[test]
fn the_first_position_is_found() {
    let find = |s: &str, p: &str, lo: usize| position_from(&chars_of(s), &chars_of(p), lo);
    assert_eq!(find("a/b/c", "/", 0), Some(1));
    assert_eq!(find("a/b/c", "/", 2), Some(3));
    assert_eq!(find("a/b/c", "/", 4), None);
    assert_eq!(find("abc", "", 2), Some(2));
    assert_eq!(find("ab", "abc", 0), None);
}

#[test]
fn margins_are_trimmed() {
    assert_eq!(trim(" \t\u{2003}a b\n", Margin::Space), "a b");
    assert_eq!(trim("\"\"a\"b\"", Margin::Quote), "a\"b");
    assert_eq!(trim("   ", Margin::Space), "");
}

// ---- numbers ----

#[test]
fn numbers_are_written() {
    assert_eq!(hex_of(&[0x00, 0xab, 0xff]), "00abff");
    assert_eq!(hex_of_u64(0x1234abcd), "000000001234abcd");
    assert_eq!(hex_of_u64(u64::MAX), "ffffffffffffffff");
    assert_eq!(decimal_of(0), "0");
    assert_eq!(decimal_of(u64::MAX), "18446744073709551615");
    assert_eq!(padded_of(7), "00007");
    assert_eq!(padded_of(123456), "123456");
}

#[test]
fn numbers_are_read() {
    assert_eq!(parse_u32("00042"), Some(42));
    assert_eq!(parse_u32("+7"), Some(7));
    assert_eq!(parse_u32("4294967295"), Some(u32::MAX));
    assert_eq!(parse_u32("4294967296"), None);
    assert_eq!(parse_u32(""), None);
    assert_eq!(parse_u32("+"), None);
    assert_eq!(parse_u32("-1"), None);
    assert_eq!(parse_u32("1a"), None);
    for n in [0u32, 1, 9, 10, 99_999, 100_000, u32::MAX] {
        assert_eq!(parse_u32(&padded_of(n)), Some(n));
    }
}

#[test]
fn hex_pairs_are_read() {
    assert_eq!(hex_pair_of(b'6', b'1'), Some(0x61));
    assert_eq!(hex_pair_of(b'F', b'f'), Some(0xff));
    assert_eq!(hex_pair_of(b'+', b'a'), Some(0x0a));
    assert_eq!(hex_pair_of(b'a', b'+'), None);
    assert_eq!(hex_pair_of(b'g', b'0'), None);
    assert_eq!(hex_pair_of(b'-', b'0'), None);
}

// ---- order ----

#[test]
fn keys_are_ordered_by_their_bytes() {
    assert!(is_before("a", "b") && !is_before("b", "a") && !is_before("a", "a"));
    assert!(is_before("a", "aa") && is_before("", "a"));
    assert!(is_before("a-b", "a/b") && is_before("Z", "a"));
    assert!(is_before("z", "é") && is_before("é", "世"));
    assert_eq!(
        sorted(strings(&["b", "a/c", "a", "b", ""])),
        strings(&["", "a", "a/c", "b", "b"])
    );
}

#[test]
fn members_are_added_once_and_in_order() {
    let mut list = Vec::new();
    for m in ["b/", "a/", "b/", "c/", "a/"] {
        add_member(&mut list, m.to_string());
    }
    assert_eq!(list, strings(&["a/", "b/", "c/"]));
}

// ---- tokens ----

#[test]
fn tokens_give_back_their_keys() {
    assert_eq!(Store::encode_token("a/b"), "612f62");
    assert_eq!(Store::decode_token("612f62"), "a/b");
    assert_eq!(Store::encode_token(""), "");
    assert_eq!(Store::decode_token(""), "");
    for key in ["k", "a b", "~!@", "\u{7f}"] {
        let token = Store::encode_token(key);
        assert!(is_readable(&token));
        assert_eq!(Store::decode_token(&token), key);
    }
}

#[test]
fn tokens_give_back_keys_in_any_script() {
    assert_eq!(Store::encode_token("é"), "c3a9");
    for key in ["é", "日本/語", "\u{1f600}", "a\u{80}b"] {
        let token = Store::encode_token(key);
        assert!(is_readable(&token));
        assert_eq!(Store::decode_token(&token), key);
    }
}

#[test]
fn what_is_no_token_decodes_to_what_can_be_read_of_it() {
    assert_eq!(Store::decode_token("zz61"), "a");
    assert_eq!(Store::decode_token("éé"), "");
    // Bytes that are no UTF-8 count as characters.
    assert_eq!(Store::decode_token("ff61"), "ÿa");
    assert_eq!(Store::decode_token("c3"), "Ã");
    assert!(is_readable("zz61") && is_readable("éé"));
    assert!(!is_readable("abc"));
    assert!(!is_readable("aéb"));
    assert!(!is_readable("\u{1f600}"));
}

// ---- keys of a tree ----

#[test]
fn keys_are_collected_from_a_tree() {
    let file = |name: &str| Tree::File { name: name.to_string() };
    let trees = vec![
        file("b.txt"),
        file("b.txt.fals3-meta.json"),
        Tree::Dir {
            name: "a".to_string(),
            entries: vec![
                file("x"),
                Tree::Dir { name: "deep".to_string(), entries: vec![file("y\\z")] },
                Tree::Dir { name: "empty".to_string(), entries: vec![] },
            ],
        },
        Tree::Other { name: "socket".to_string() },
    ];
    assert_eq!(collect_keys(&trees), strings(&["b.txt", "a/x", "a/deep/y\\z"]));
}

// ---- ranges ----

#[test]
fn ranges_are_clamped() {
    let body = b"0123456789".to_vec();
    let part = |r| range_of(body.clone(), r);
    assert_eq!(part(None), body);
    assert_eq!(part(Some((0, 9999))), body);
    assert_eq!(part(Some((9, 9))), b"9");
    assert_eq!(part(Some((0, 0))), b"0");
    assert_eq!(part(Some((4, 3))), b"");
    assert_eq!(part(Some((10, 20))), b"");
    assert_eq!(range_of(Vec::new(), Some((0, 9))), b"");
}

#[test]
fn ranges_begin_at_most_one_past_their_end() {
    assert!(fits_range(None, 0));
    assert!(fits_range(Some((0, 0)), 0));
    assert!(fits_range(Some((0, 9)), 0));
    assert!(!fits_range(Some((1, 9)), 0));
    assert!(fits_range(Some((10, u64::MAX)), 10));
    assert!(!fits_range(Some((11, u64::MAX)), 10));
    assert!(fits_range(Some((4, 3)), 10));
    assert!(!fits_range(Some((5, 3)), 10));
    assert!(!fits_range(Some((u64::MAX, 0)), 10));
}

// ---- uploads ----

#[test]
fn the_files_of_an_upload() {
    let dir = upload_dir("/base", "id");
    assert_eq!(dir, "/base/.fals3-uploads/id");
    assert_eq!(upload_meta_path(&dir), "/base/.fals3-uploads/id/meta.json");
    assert_eq!(part_body_path(&dir, 7), "/base/.fals3-uploads/id/part-00007.bin");
    assert_eq!(part_etag_path(&dir, 10_000), "/base/.fals3-uploads/id/part-10000.etag");
}

#[test]
fn part_names_are_read() {
    assert_eq!(parse_part_body_filename("part-00007.bin"), Some(7));
    assert_eq!(parse_part_body_filename("part-7.bin"), Some(7));
    assert_eq!(parse_part_body_filename("part-00007.etag"), None);
    assert_eq!(parse_part_body_filename("meta.json"), None);
    assert_eq!(parse_part_body_filename("part-.bin"), None);
    assert_eq!(parse_part_body_filename("xpart-1.bin"), None);
}

#[test]
fn part_numbers_have_a_range() {
    assert_eq!(MAX_PART_NUMBER, 10_000);
    assert!(validate_part_number(1).is_ok());
    assert!(validate_part_number(10_000).is_ok());
    assert_eq!(validate_part_number(0).unwrap_err().code(), "InvalidPart");
    assert_eq!(validate_part_number(10_001).unwrap_err().code(), "InvalidPart");
}

#[test]
fn upload_ids_are_new() {
    assert_eq!(new_upload_id(0xabc, 1), "0000000000000abc0000000000000001");
    assert_eq!(
        new_upload_id((1u128 << 64) + 2, 0x10),
        "00000000000000020000000000000010"
    );
    assert_ne!(new_upload_id(5, 1), new_upload_id(5, 2));
    assert_ne!(new_upload_id(5, 1), new_upload_id(6, 1));
}

// ---- directives ----

#[test]
fn a_directive_replaces_what_is_given() {
    assert!(MetadataDirective::replacing(None, None).is_none());
    match MetadataDirective::replacing(Some("text/plain".into()), None) {
        Some(MetadataDirective::Replace { content_type, metadata }) => {
            assert_eq!(content_type, Some("text/plain".to_string()));
            assert!(metadata.is_empty());
        }
        None => panic!("no directive"),
    }
    let given = HashMap::from([("a".to_string(), "b".to_string())]);
    match MetadataDirective::replacing(None, Some(given.clone())) {
        Some(MetadataDirective::Replace { content_type, metadata }) => {
            assert_eq!(content_type, None);
            assert_eq!(metadata, given);
        }
        None => panic!("no directive"),
    }
}
