use neosuggest::util::{expand_with_home, unexpand_with_home, ExpandHome};
use std::path::PathBuf;

#[test]
fn expand() {
    let home = Some("/home/willothy");
    let path = PathBuf::from("~/projects/");
    let expanded = expand_with_home("~/projects/", home).unwrap();
    assert_eq!(PathBuf::from(&expanded), PathBuf::from("/home/willothy/projects/"));
    let back = unexpand_with_home(&expanded, home, home).unwrap();
    assert_eq!(PathBuf::from(back), path);
}

#[test]
fn expand_exact_text() {
    assert_eq!(
        expand_with_home("~/projects/", Some("/home/willothy")).unwrap(),
        "/home/willothy/projects"
    );
    assert_eq!(expand_with_home("~", Some("/home/u")).unwrap(), "/home/u");
    assert_eq!(expand_with_home("~/a", Some("/home/u/")).unwrap(), "/home/u/a");
    assert_eq!(expand_with_home("~/a/b", Some("/")).unwrap(), "/a/b");
    assert_eq!(expand_with_home("~/foo", Some("/")).unwrap(), "/foo");
    assert_eq!(expand_with_home("~//x/./y/", Some("/home/u")).unwrap(), "/home/u/x/./y");
    assert_eq!(expand_with_home("~/./", Some("/home/u")).unwrap(), "/home/u");
}

#[test]
fn unexpand_keeps_the_text_after_home() {
    let h = Some("/home/u");
    assert_eq!(unexpand_with_home("/home/u//code/./x/", h, h).unwrap(), "~/code/./x");
    assert_eq!(unexpand_with_home("/home/u/x", h, Some("/home/u/x")).unwrap(), "~");
    assert_eq!(unexpand_with_home("/home/u", h, Some("/other")).unwrap(), "~/");
}

#[test]
fn expand_without_tilde_is_unchanged() {
    assert_eq!(expand_with_home("/usr/bin", Some("/home/u")).unwrap(), "/usr/bin");
    assert_eq!(expand_with_home("~foo/x", Some("/home/u")).unwrap(), "~foo/x");
    assert_eq!(expand_with_home("src//a", None).unwrap(), "src//a");
}

#[test]
fn expand_needs_home() {
    assert_eq!(expand_with_home("~", None), None);
    assert_eq!(expand_with_home("~/x", None), None);
}

#[test]
fn unexpand_cases() {
    let h = Some("/home/u");
    assert_eq!(unexpand_with_home("/home/u", h, h).unwrap(), "~");
    assert_eq!(unexpand_with_home("/home/u/", h, h).unwrap(), "~");
    assert_eq!(unexpand_with_home("/home/u/code/x", h, h).unwrap(), "~/code/x");
    assert_eq!(unexpand_with_home("/home/user2", h, h).unwrap(), "/home/user2");
    assert_eq!(unexpand_with_home("/etc", h, h).unwrap(), "/etc");
    assert_eq!(unexpand_with_home("/home/u", None, h), None);
    assert_eq!(unexpand_with_home("/home/u/x", h, None), None);
    assert_eq!(unexpand_with_home("/etc", h, None).unwrap(), "/etc");
}

#[test]
fn unexpand_undoes_expand() {
    let h = Some("/home/u");
    for p in ["~", "~/a", "~/a/b/", "~//x/./y"] {
        let e = expand_with_home(p, h).unwrap();
        let back = unexpand_with_home(&e, h, h).unwrap();
        assert_eq!(PathBuf::from(back), PathBuf::from(p));
        let e = expand_with_home(p, Some("/")).unwrap();
        let back = unexpand_with_home(&e, Some("/"), Some("/")).unwrap();
        assert_eq!(PathBuf::from(back), PathBuf::from(p));
    }
}

#[test]
fn expand_through_the_environment_keeps_plain_paths() {
    assert_eq!("/usr/bin".expand().unwrap(), "/usr/bin");
    assert_eq!("relative/x".expand().unwrap(), "relative/x");
}

#[test]
fn expand_undoes_unexpand() {
    let h = Some("/home/u");
    for p in ["/home/u", "/home/u/", "/home/u/a", "/home/u//b/./c/"] {
        let u = unexpand_with_home(p, h, h).unwrap();
        assert!(u.starts_with('~'));
        let back = expand_with_home(&u, h).unwrap();
        assert_eq!(PathBuf::from(back), PathBuf::from(p));
    }
}

#[test]
fn expand_and_unexpand_are_idempotent() {
    let h = Some("/home/u");
    for p in ["~", "~/a", "~/~/a", "/etc", "x/~"] {
        let once = expand_with_home(p, h).unwrap();
        assert_eq!(expand_with_home(&once, h).unwrap(), once);
        let once = expand_with_home(p, Some("/")).unwrap();
        assert_eq!(expand_with_home(&once, Some("/")).unwrap(), once);
    }
    for p in ["/home/u", "/home/u/a", "/etc", "~/x", "rel"] {
        let once = unexpand_with_home(p, h, h).unwrap();
        assert_eq!(unexpand_with_home(&once, h, h).unwrap(), once);
    }
    assert_eq!(unexpand_with_home("/a", Some("/"), Some("/")).unwrap(), "~/a");
    assert_eq!(expand_with_home("~/a", Some("/")).unwrap(), "/a");
}
