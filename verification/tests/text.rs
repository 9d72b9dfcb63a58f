use vie::text::{append, ends_with, join, key_before, strip_last, text_eq};

#[test]
fn text_equality_is_exact() {
    assert!(text_eq("", ""));
    assert!(text_eq("Script", "Script"));
    assert!(!text_eq("Script", "script"));
    assert!(!text_eq("Script", "Scripts"));
    assert!(!text_eq("Scripts", "Script"));
    assert!(text_eq("né", "né"));
    assert!(!text_eq("né", "ne"));
}

#[test]
fn key_order_is_that_of_strings() {
    let keys = ["", "A", "Anchored", "B", "Z", "a", "ab", "abc", "b", "é", "日本", "\u{10000}"];
    for a in keys {
        for b in keys {
            assert_eq!(key_before(a, b), a < b, "{a:?} before {b:?}");
        }
    }
}

#[test]
fn key_order_puts_a_prefix_first() {
    assert!(key_before("Size", "SizeConstraint"));
    assert!(!key_before("SizeConstraint", "Size"));
    assert!(!key_before("Size", "Size"));
}

#[test]
fn suffixes_are_found() {
    assert!(ends_with("Main.server.luau", ".luau"));
    assert!(ends_with("Main.server.luau", ".server.luau"));
    assert!(!ends_with("Main.server.luau", ".client.luau"));
    assert!(ends_with(".luau", ".luau"));
    assert!(!ends_with("luau", ".luau"));
    assert!(ends_with("anything", ""));
    assert!(ends_with("", ""));
    assert!(!ends_with("", "x"));
    assert!(ends_with("héllo.vie", ".vie"));
    assert!(ends_with("日本語", "本語"));
}

#[test]
fn stripping_counts_characters() {
    assert_eq!(strip_last("Main.luau", 5), "Main");
    assert_eq!(strip_last("Main.server.luau", 5), "Main.server");
    assert_eq!(strip_last(".luau", 5), "");
    assert_eq!(strip_last("abc", 5), "abc");
    assert_eq!(strip_last("日本語.luau", 5), "日本語");
    assert_eq!(strip_last("abc", 0), "abc");
}

#[test]
fn joining_puts_a_slash_between() {
    assert_eq!(join("src", "Main.luau"), "src/Main.luau");
    assert_eq!(join("src/Folder", "+instance.vie"), "src/Folder/+instance.vie");
    assert_eq!(join("", "Main.luau"), "Main.luau");
    assert_eq!(join("src", ""), "src/");
}

#[test]
fn appending_puts_one_after_the_other() {
    assert_eq!(append("+instance", ".server"), "+instance.server");
    assert_eq!(append("", ".luau"), ".luau");
    assert_eq!(append("a", ""), "a");
}
