use pingcrm::text::{html_escape_str, json_escape_str, str_eq, str_lt};

#[test]
fn json_escaping() {
    assert_eq!(json_escape_str("plain"), "plain");
    assert_eq!(json_escape_str("a\"b"), "a\\\"b");
    assert_eq!(json_escape_str("a\\b"), "a\\\\b");
    assert_eq!(json_escape_str("a\nb\tc\rd"), "a\\nb\\tc\\rd");
    assert_eq!(json_escape_str("\u{1}\u{1f}"), "\\u0001\\u001f");
    assert_eq!(json_escape_str(""), "");
}

#[test]
fn html_attribute_escaping() {
    assert_eq!(
        html_escape_str("<a href=\"x\">&'y'</a>"),
        "&lt;a href=&quot;x&quot;&gt;&amp;&#x27;y&#x27;&lt;/a&gt;"
    );
    assert_eq!(html_escape_str("plain"), "plain");
}

#[test]
fn lexicographic_order() {
    assert!(str_lt("a", "b"));
    assert!(str_lt("a", "ab"));
    assert!(!str_lt("b", "a"));
    assert!(!str_lt("a", "a"));
    assert!(str_lt("", "a"));
    assert!(str_lt("Z", "a"));
}

#[test]
fn string_equality() {
    assert!(str_eq("same", "same"));
    assert!(!str_eq("same", "samey"));
    assert!(!str_eq("a", "b"));
    assert!(str_eq("", ""));
}
