use neosuggest::paths::{join_path, path_components};
use neosuggest::text::{
    byte_count, byte_prefix_of, is_cut, is_whitespace, last_word, split_pieces, split_whitespace,
    trimmed, trimmed_end, Separator,
};

fn strings(v: &[&str]) -> Vec<String> {
    v.iter().map(|s| s.to_string()).collect()
}

#[test]
fn whitespace_matches_std() {
    for c in ['\t', '\n', ' ', '\u{85}', '\u{a0}', '\u{2000}', '\u{200a}', '\u{3000}', 'a', '\u{200b}', '_'] {
        assert_eq!(is_whitespace(c), c.is_whitespace());
    }
}

#[test]
fn words_match_split_whitespace() {
    for s in ["", "  ", "a", " a  b\tc\n", "x\u{3000}y "] {
        let expected: Vec<String> = s.split_whitespace().map(String::from).collect();
        assert_eq!(split_whitespace(s), expected);
    }
    assert_eq!(last_word("cd  src "), Some("src".to_string()));
    assert_eq!(last_word("  "), None);
}

#[test]
fn pieces_include_empty_ones() {
    assert_eq!(split_pieces("a//b/", Separator::Slash), strings(&["a", "", "b", ""]));
    assert_eq!(split_pieces("", Separator::Colon), strings(&[""]));
}

#[test]
fn trimming() {
    assert_eq!(trimmed_end("  a b  "), "  a b");
    assert_eq!(trimmed("  a b  "), "a b");
    assert_eq!(trimmed("   "), "");
}

#[test]
fn bytes() {
    assert_eq!(byte_count("a\u{e9}\u{20ac}\u{1f600}"), 10);
    assert!(is_cut("a\u{e9}", 1));
    assert!(!is_cut("a\u{e9}", 2));
    assert!(is_cut("a\u{e9}", 3));
    assert!(!is_cut("a\u{e9}", 4));
    assert_eq!(byte_prefix_of("a\u{e9}b", 3), "a\u{e9}");
}

#[test]
fn components_of_paths() {
    assert_eq!(path_components("/usr//bin/"), strings(&["/", "usr", "bin"]));
    assert_eq!(path_components("./a/./b"), strings(&[".", "a", "b"]));
    assert_eq!(path_components("a/../b"), strings(&["a", "..", "b"]));
    assert_eq!(path_components(""), Vec::<String>::new());
    assert_eq!(path_components("."), strings(&["."]));
    for p in ["/usr//bin/", "./a/./b", "a/../b", ".", "/", "~/x", ".hidden/y"] {
        let expected: Vec<String> = std::path::Path::new(p)
            .components()
            .map(|c| c.as_os_str().to_string_lossy().into_owned())
            .collect();
        assert_eq!(path_components(p), expected);
    }
}

#[test]
fn join_paths() {
    assert_eq!(join_path("/home/u", "x"), "/home/u/x");
    assert_eq!(join_path("/home/u/", "x"), "/home/u/x");
    assert_eq!(join_path("", "x"), "x");
    assert_eq!(join_path("a", "/x"), "/x");
    for (b, n) in [("/home/u", "x"), ("/home/u/", "x"), ("", "x"), ("a", "/x"), ("a", "")] {
        let expected = std::path::Path::new(b).join(n).to_string_lossy().into_owned();
        assert_eq!(join_path(b, n), expected);
    }
}
