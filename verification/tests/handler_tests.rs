use diskmap::handler::{DiskHandler, GetHandler, Handler};
use diskmap::store::DiskMap;
use diskmap::text::{dec_string, nth_token, str_eq, trim};

fn fresh_handler() -> DiskHandler {
    DiskHandler::new(DiskMap::new(Vec::new()))
}

#[test]
fn unrecognized_verb() {
    let mut h = fresh_handler();
    assert_eq!(h.handle("frobnicate"), "unrecognized");
}

#[test]
fn get_without_key_is_missing_argument() {
    let mut h = fresh_handler();
    assert_eq!(h.handle("get"), "error: missing key argument");
}

#[test]
fn set_without_arguments() {
    let mut h = fresh_handler();
    assert_eq!(h.handle("set"), "error: missing key argument");
    assert_eq!(h.handle("set a"), "error: missing value argument");
}

#[test]
fn empty_line_is_empty_body() {
    let mut h = fresh_handler();
    assert_eq!(h.handle(""), "error: empty body");
    assert_eq!(h.handle("   "), "error: empty body");
}

#[test]
fn set_then_get_through_dispatcher() {
    let mut h = fresh_handler();
    assert_eq!(h.handle("set a 1"), "wrote a=1. 11 bytes");
    assert_eq!(h.handle("get a"), "1");
    assert_eq!(h.handle("get b"), "error: b not found");
}

#[test]
fn delete_through_dispatcher() {
    let mut h = fresh_handler();
    h.handle("set a 1");
    assert_eq!(h.handle("delete a"), "deleted a");
    assert_eq!(h.handle("get a"), "error: a not found");
    assert_eq!(h.handle("delete a"), "error: a not found");
}

#[test]
fn size_and_compact_through_dispatcher() {
    let mut h = fresh_handler();
    assert_eq!(h.handle("size"), "0");
    h.handle("set a 1");
    h.handle("set a 2");
    assert_eq!(h.handle("size"), "22");
    assert_eq!(h.handle("compact"), "compacted to 11 bytes");
    assert_eq!(h.handle("size"), "11");
    assert_eq!(h.handle("get a"), "2");
}

#[test]
fn dump_through_dispatcher() {
    let mut h = fresh_handler();
    h.handle("set a 1");
    h.handle("set b 2");
    assert_eq!(h.handle("dump"), "a=1\nb=2\n");
}

#[test]
fn extra_tokens_are_ignored() {
    let mut h = fresh_handler();
    assert_eq!(h.handle("set a 1 junk"), "wrote a=1. 11 bytes");
    assert_eq!(h.handle("get a junk"), "1");
}

#[test]
fn handle_result_separates_errors() {
    let mut h = fresh_handler();
    assert_eq!(h.handle_result("get a"), Err("a not found".to_string()));
    assert_eq!(h.handle_result("set a 1"), Ok("wrote a=1. 11 bytes".to_string()));
}

#[test]
fn supported_commands_listed() {
    let h = fresh_handler();
    let cmds = h.supported_commands();
    assert_eq!(
        cmds,
        vec![
            "get <key>".to_string(),
            "set <key> <value>".to_string(),
            "delete <key>".to_string(),
            "compact".to_string(),
            "size".to_string(),
            "dump".to_string(),
        ]
    );
}

#[test]
fn get_handler_replies_fixed_text() {
    let mut g = GetHandler::new("hello");
    assert_eq!(g.handle("anything"), "hello");
    assert!(g.supported_commands().is_empty());
}

#[test]
fn tokenizer_splits_on_whitespace() {
    assert_eq!(nth_token("  set   a  b ", 0), Some("set".to_string()));
    assert_eq!(nth_token("  set   a  b ", 1), Some("a".to_string()));
    assert_eq!(nth_token("  set   a  b ", 2), Some("b".to_string()));
    assert_eq!(nth_token("  set   a  b ", 3), None);
    assert_eq!(nth_token("", 0), None);
    assert_eq!(nth_token("\t\r\n", 0), None);
}

#[test]
fn trim_strips_both_ends() {
    assert_eq!(trim("  quit \r\n"), "quit");
    assert_eq!(trim("\t \n"), "");
    assert_eq!(trim("a b"), "a b");
}

#[test]
fn decimal_rendering() {
    assert_eq!(dec_string(0), "0");
    assert_eq!(dec_string(7), "7");
    assert_eq!(dec_string(12345), "12345");
    assert_eq!(dec_string(1000), "1000");
}

#[test]
fn string_equality_by_characters() {
    assert!(str_eq("abc", "abc"));
    assert!(!str_eq("abc", "abd"));
    assert!(!str_eq("abc", "ab"));
}

#[test]
fn corrupt_store_surfaces_as_error_text() {
    let mut h = DiskHandler::new(DiskMap::new(vec![9u8, 9]));
    assert_eq!(h.handle("get a"), "error: corrupt log");
    assert_eq!(h.handle("dump"), "error: corrupt log");
    assert_eq!(h.handle("compact"), "error: corrupt log");
    assert_eq!(h.handle("set a 1"), "error: corrupt log");
    assert_eq!(h.handle("delete a"), "error: corrupt log");
}
