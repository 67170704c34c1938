use neosuggest::sources::db::{
    accepts_words, command_query, first_positional, last_flag, parse_input, parse_input_checked,
    split_command_line, Arg, ArgKind, Entry,
};
use neosuggest::sources::path::Path;
use neosuggest::sources::pwd::{Pwd, PwdTarget};
use neosuggest::sources::zoxide::Zoxide;
use neosuggest::sources::Source;

fn strings(v: &[&str]) -> Vec<String> {
    v.iter().map(|s| s.to_string()).collect()
}

#[test]
fn pwd_cond() {
    assert!(Pwd.cond("cd src"));
    assert!(Pwd.cond("cd "));
    assert!(Pwd.cond("ls\t"));
    assert!(!Pwd.cond("cd"));
    assert!(!Pwd.cond(""));
    assert!(Pwd.cond("a\u{3000}"));
    assert_eq!(Pwd.priority(), 0);
}

#[test]
fn zoxide_cond() {
    assert!(Zoxide.cond("z proj"));
    assert!(!Zoxide.cond("z "));
    assert!(!Zoxide.cond("   "));
    assert!(Zoxide.cond(" a  b "));
    assert_eq!(Zoxide.priority(), 0);
}

#[test]
fn path_cond() {
    assert!(Path.cond(""));
    assert_eq!(Path.priority(), 0);
}

#[test]
fn zoxide_query_splits_last_word() {
    assert!(Zoxide::can_query("cd proj"));
    let q = Zoxide::query("cd proj").unwrap();
    assert_eq!(q.search, "proj");
    assert_eq!(q.rest, "cd");
    let q = Zoxide::query("proj").unwrap();
    assert_eq!(q.search, "proj");
    assert_eq!(q.rest, "");
    assert!(Zoxide::query("   ").is_none());
}

#[test]
fn zoxide_query_with_trailing_space_cuts_by_bytes() {
    let q = Zoxide::query("  cd proj ").unwrap();
    assert_eq!(q.search, "proj");
    assert_eq!(q.rest, "cd p");
}

#[test]
fn zoxide_query_refuses_a_cut_inside_a_character() {
    assert!(!Zoxide::can_query("a \u{e9} "));
    assert!(Zoxide::can_query("a \u{e9}"));
}

#[test]
fn zoxide_suggestion_names_the_directory() {
    assert!(Zoxide::shares_start("/home/u/code/proj\n", "/home/u"));
    assert_eq!(
        Zoxide::suggestion("cd", "/home/u/code/proj\n", "/home/u"),
        Some("cd proj\n".to_string())
    );
    assert_eq!(
        Zoxide::suggestion("", "/home/u/code/proj", "/srv"),
        Some("proj".to_string())
    );
    assert_eq!(Zoxide::suggestion("cd", "/", "/home"), None);
    assert_eq!(Zoxide::suggestion("cd", "/a/..", "/x"), None);
    assert!(!Zoxide::shares_start("rel/x", "/home"));
}

#[test]
fn pwd_target_in_a_subdirectory() {
    assert!(Pwd::can_target("cd src/ma"));
    let t: PwdTarget = Pwd::target("cd src/ma", "/work", Some("/home/u")).unwrap();
    assert_eq!(t.word, "src/ma");
    assert_eq!(t.rest, "cd");
    assert!(!t.home_abbr);
    assert_eq!(t.path, "src/ma");
    assert_eq!(t.parent, Some("src".to_string()));
    assert_eq!(t.base, "src");
    assert_eq!(t.search, "ma");
    assert!(!t.show_next(false));
    assert!(!t.show_next(true));
    assert_eq!(t.start_char(false), Some('m'));
    assert!(t.hides_dotfiles());
    assert_eq!(
        t.suggestion("/work", Some("/home/u"), false, "main.rs", false),
        Some("cd src/main.rs".to_string())
    );
}

#[test]
fn pwd_target_with_home() {
    let t = Pwd::target("cd ~/co", "/work", Some("/home/u")).unwrap();
    assert!(t.home_abbr);
    assert_eq!(t.path, "/home/u/co");
    assert_eq!(t.base, "/home/u");
    assert_eq!(t.search, "co");
    assert_eq!(
        t.suggestion("/work", Some("/home/u"), false, "code", true),
        Some("cd ~/code/".to_string())
    );
    assert!(Pwd::target("cd ~/co", "/work", None).is_none());
}

#[test]
fn pwd_target_without_word() {
    let t = Pwd::target("ls ", "/home/u/work", Some("/home/u")).unwrap();
    assert_eq!(t.word, "");
    assert_eq!(t.rest, "ls");
    assert!(t.home_abbr);
    assert_eq!(t.path, "/home/u/work");
    assert_eq!(t.parent, None);
    assert_eq!(t.base, "/home/u/work");
    assert_eq!(t.search, "");
    assert!(t.show_next(false));
    assert_eq!(t.start_char(true), Some(' '));
    let keys = strings(&[".git", "src", "Cargo.toml"]);
    assert_eq!(t.search_term(true, &keys), Some("src".to_string()));
    assert_eq!(t.search_term(true, &strings(&[".a", ".b"])), None);
    assert_eq!(t.search_term(true, &Vec::new()), Some(String::new()));
    assert_eq!(
        t.suggestion("/home/u/work", Some("/home/u"), true, "src", true),
        Some("ls src/".to_string())
    );
    assert_eq!(
        t.suggestion("/home/u/work", Some("/home/u"), false, "src", false),
        Some("ls src".to_string())
    );
}

#[test]
fn pwd_entries_kept() {
    assert!(PwdTarget::keeps_entry(true, ' ', ".hidden"));
    assert!(PwdTarget::keeps_entry(false, 's', "src"));
    assert!(!PwdTarget::keeps_entry(false, 's', "target"));
}

#[test]
fn path_directories() {
    assert_eq!(Path::directories("/bin:/usr/bin"), strings(&["/bin", "/usr/bin"]));
    assert_eq!(Path::directories("a::b"), strings(&["a", "", "b"]));
    assert_eq!(Path::directories(""), strings(&[""]));
}

#[test]
fn path_name_prefix() {
    assert!(Path::can_prefix("git"));
    assert_eq!(Path::name_prefix("git"), "gi");
    assert_eq!(Path::name_prefix("g"), "g");
    assert_eq!(Path::name_prefix(""), "");
    assert_eq!(Path::name_prefix("\u{e9}x"), "\u{e9}");
    assert!(!Path::can_prefix("a\u{e9}"));
}

#[test]
fn path_matching_names() {
    let names = strings(&["git", "gitk", "grep", "ls"]);
    assert_eq!(Path::matching_names(names, "gi"), strings(&["git", "gitk"]));
}

#[test]
fn db_parse_input() {
    assert_eq!(
        parse_input("git commit -m 'a b'"),
        Some(("git".to_string(), strings(&["commit", "-m", "a b"]), 3))
    );
    assert_eq!(
        parse_input("git status"),
        Some(("git".to_string(), strings(&["status"]), 1))
    );
    assert_eq!(parse_input("cd foo"), Some(("cd".to_string(), strings(&["foo"]), 1)));
    assert_eq!(parse_input("ls"), Some(("ls".to_string(), vec![], 0)));
    assert_eq!(parse_input(""), None);
    assert_eq!(parse_input("git 'unclosed -a"), None);
    assert_eq!(parse_input("-a"), None);
    assert_eq!(parse_input_checked("ls -\u{e9}"), None);
    assert_eq!(
        parse_input_checked("ls -l"),
        Some(Some(("ls".to_string(), strings(&["-l"]), 1)))
    );
    assert_eq!(
        parse_input_checked("ls -\u{e9}=x"),
        Some(Some(("ls".to_string(), strings(&["-\u{e9}=x"]), 1)))
    );
    assert_eq!(
        parse_input_checked("ls -a1\u{e9}"),
        Some(Some(("ls".to_string(), strings(&["-a1\u{e9}"]), 1)))
    );
    assert_eq!(parse_input_checked("ls --x -\u{e9}"), None);
    assert_eq!(
        parse_input_checked("ls --x -1\u{e9}"),
        Some(Some(("ls".to_string(), strings(&["--x", "-1\u{e9}"]), 2)))
    );
}

#[test]
fn db_argmap_panics_exactly_where_it_slices_a_character() {
    assert!(accepts_words(&strings(&["-\u{e9}=x"])));
    assert!(accepts_words(&strings(&["ls", "-a1\u{e9}"])));
    assert!(!accepts_words(&strings(&["ls", "-a\u{e9}1"])));
    assert!(!accepts_words(&strings(&["ls", "-ab\u{e9}"])));
    assert!(!accepts_words(&strings(&["ls", "--x", "-\u{e9}=x"])));
    assert!(accepts_words(&strings(&["ls", "--x=1", "-\u{e9}=x"])));
    assert!(accepts_words(&strings(&["ls", "-ab", "-9\u{e9}"])));
    assert!(!accepts_words(&strings(&["ls", "-ab", "-\u{e9}9"])));
    assert!(accepts_words(&strings(&["ls", "-a1", "-\u{e9}=x"])));
    assert!(accepts_words(&strings(&["ls", "-", "-x"])));
}

#[test]
fn db_words() {
    assert_eq!(split_command_line("a \"b c\""), Some(strings(&["a", "b c"])));
    assert_eq!(split_command_line("a 'b"), None);
    let words = strings(&["ls", "-la", "x", "--color"]);
    assert_eq!(last_flag(&words), Some("--color".to_string()));
    assert_eq!(last_flag(&strings(&["ls"])), None);
    assert!(accepts_words(&words));
    assert!(!accepts_words(&strings(&["ls", "-\u{e9}"])));
    assert!(accepts_words(&strings(&["ls", "--", "-\u{e9}"])));
    assert_eq!(first_positional(&words), Some("ls".to_string()));
    assert_eq!(first_positional(&strings(&["-a"])), None);
    let q = command_query("git -C dir log").unwrap();
    assert_eq!(q.cmd, "git");
    assert_eq!(q.last_key, Some("-C".to_string()));
    assert!(command_query("").is_none());
}

#[test]
fn db_args_and_entries() {
    let a = Arg::from_text("-v");
    assert_eq!(a.text(), "-v");
    assert_eq!(a.frequency(), 0);
    assert_eq!(a.used(), 0);
    assert!(a == Arg::with_counts("-v".to_string(), 3, 7));
    assert!(a != Arg::from_text("-q"));
    let e = Entry::new(2, 5, vec![(Arg::from_text("-v"), ArgKind::Flag), (Arg::from_text("x"), ArgKind::File)]);
    assert_eq!(e.frequency(), 2);
    assert_eq!(e.used(), 5);
    assert_eq!(e.kind_of(&Arg::from_text("x")), Some(ArgKind::File));
    assert_eq!(e.kind_of(&Arg::from_text("-v")), Some(ArgKind::Flag));
    assert_eq!(e.kind_of(&Arg::from_text("y")), None);
    let e = Entry::new(1, 2, vec![(Arg::with_counts("-v".to_string(), 4, 9), ArgKind::Flag)]);
    assert_eq!(e.args()[0].0.frequency(), 4);
    assert_eq!(e.args()[0].0.used(), 9);
}

#[test]
fn pwd_target_parent_is_the_text_before_the_last_component() {
    let t = Pwd::target("cd src//./ma", "/work", Some("/home/u")).unwrap();
    assert_eq!(t.parent, Some("src".to_string()));
    assert_eq!(t.search, "ma");
    let t = Pwd::target("cd /ma", "/work", Some("/home/u")).unwrap();
    assert_eq!(t.base, "/");
    let t = Pwd::target("cd ./ma", "/work", Some("/home/u")).unwrap();
    assert_eq!(t.base, ".");
    let t = Pwd::target("cd a/b/", "/work", Some("/home/u")).unwrap();
    assert_eq!(t.base, "a");
    assert_eq!(t.search, "b");
}

#[test]
fn pwd_best_ranked_takes_the_earliest_access_then_files() {
    let keys = vec![(Some(5i128), false), (None, true), (None, false), (Some(1), true)];
    assert_eq!(PwdTarget::best_ranked(&keys), Some(2));
    let keys = vec![(Some(5i128), true), (Some(-3), true), (Some(-3), false), (Some(7), false)];
    assert_eq!(PwdTarget::best_ranked(&keys), Some(2));
    let keys = vec![(Some(4i128), false), (Some(4), false)];
    assert_eq!(PwdTarget::best_ranked(&keys), Some(0));
    assert_eq!(PwdTarget::best_ranked(&Vec::new()), None);
}

#[test]
fn db_first_positional_follows_pending_flags() {
    assert_eq!(first_positional(&strings(&["-a", "x"])), None);
    assert_eq!(first_positional(&strings(&["-ab1", "x"])), Some("x".to_string()));
    assert_eq!(first_positional(&strings(&["--k=v", "x"])), Some("x".to_string()));
    assert_eq!(first_positional(&strings(&["--k", "x", "y"])), Some("y".to_string()));
    assert_eq!(first_positional(&strings(&["-", "x"])), Some("-".to_string()));
    assert_eq!(first_positional(&strings(&["-a", "--", "-b"])), Some("-b".to_string()));
    assert_eq!(first_positional(&strings(&["-a1x", "y"])), Some("y".to_string()));
}
