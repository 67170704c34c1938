use neosuggest::builder::{sorted_positions, SourcesBuilder};
use neosuggest::sources::basics::Basics;
use neosuggest::sources::path::Path;
use neosuggest::sources::pwd::Pwd;
use neosuggest::sources::zoxide::Zoxide;
use neosuggest::sources::{first_suggestion, Source, SourceKind, Sources};

fn kind_name(k: &SourceKind) -> &'static str {
    match k {
        SourceKind::Pwd(_) => "pwd",
        SourceKind::Zoxide(_) => "zoxide",
        SourceKind::Path(_) => "path",
        SourceKind::Basics(_) => "basics",
    }
}

fn names(s: &Sources<SourceKind>) -> Vec<&'static str> {
    s.list().iter().map(kind_name).collect()
}

#[test]
fn sorted_positions_by_priority() {
    assert_eq!(sorted_positions(&vec![2, 0, 1]), vec![1, 2, 0]);
    assert_eq!(sorted_positions(&vec![]), Vec::<usize>::new());
}

#[test]
fn sorted_positions_keep_order_of_equal_priorities() {
    assert_eq!(sorted_positions(&vec![1, 0, 1, 0, 1]), vec![1, 3, 0, 2, 4]);
    assert_eq!(sorted_positions(&vec![5, 5, 5]), vec![0, 1, 2]);
}

#[test]
fn finalize_keeps_order_of_equal_priorities() {
    let sources = SourcesBuilder::new()
        .using(SourceKind::Pwd(Pwd))
        .with_priority(0)
        .using(SourceKind::Zoxide(Zoxide))
        .with_priority(1)
        .using(SourceKind::Basics(Basics))
        .using(SourceKind::Path(Path))
        .finalize();
    assert_eq!(names(&sources), vec!["pwd", "basics", "path", "zoxide"]);
}

#[test]
fn finalize_empty() {
    let sources: Sources<SourceKind> = SourcesBuilder::new().finalize();
    assert!(sources.list().is_empty());
}

#[test]
fn library_source_priorities() {
    for k in [
        SourceKind::Pwd(Pwd),
        SourceKind::Zoxide(Zoxide),
        SourceKind::Path(Path),
        SourceKind::Basics(Basics),
    ] {
        assert_eq!(k.priority(), 0);
    }
    assert!(SourceKind::Basics(Basics).cond("anything"));
    assert!(!SourceKind::Zoxide(Zoxide).cond("z"));
}

#[test]
fn sources_new_keeps_order() {
    let s = Sources::new(vec![SourceKind::Path(Path), SourceKind::Pwd(Pwd)]);
    assert_eq!(names(&s), vec!["path", "pwd"]);
}

#[test]
fn first_suggestion_takes_the_first_answer() {
    assert_eq!(first_suggestion(vec![]), None);
    assert_eq!(first_suggestion(vec![None, None]), None);
    assert_eq!(
        first_suggestion(vec![None, Some("b".to_string()), Some("c".to_string())]),
        Some("b".to_string())
    );
    assert_eq!(first_suggestion(vec![Some("a".to_string()), None]), Some("a".to_string()));
}

#[test]
fn with_priority_sets_the_last_source_priority() {
    let sources = SourcesBuilder::new()
        .using(SourceKind::Pwd(Pwd))
        .with_priority(9)
        .using(SourceKind::Zoxide(Zoxide))
        .with_priority(0)
        .finalize();
    assert_eq!(names(&sources), vec!["zoxide", "pwd"]);
    let empty: Sources<SourceKind> = SourcesBuilder::new().with_priority(3).finalize();
    assert!(empty.list().is_empty());
}

#[test]
fn search_after_finalize_takes_the_lowest_priority_answer() {
    let sources = SourcesBuilder::new()
        .using(SourceKind::Pwd(Pwd))
        .with_priority(2)
        .using(SourceKind::Zoxide(Zoxide))
        .with_priority(1)
        .using(SourceKind::Basics(Basics))
        .with_priority(1)
        .finalize();
    let answer = |k: &SourceKind| match k {
        SourceKind::Pwd(_) => Some("p".to_string()),
        SourceKind::Zoxide(_) => None,
        SourceKind::Basics(_) => Some("b".to_string()),
        SourceKind::Path(_) => Some("x".to_string()),
    };
    let answers: Vec<Option<String>> = sources.list().iter().map(answer).collect();
    assert_eq!(first_suggestion(answers), Some("b".to_string()));
}

#[test]
fn suggestion_skips_sources_not_enabled() {
    let s = Sources::new(vec![SourceKind::Zoxide(Zoxide), SourceKind::Basics(Basics)]);
    assert!(!s.enabled(0, "cd"));
    assert!(s.enabled(1, "cd"));
    let answers = vec![Some("z".to_string()), Some("b".to_string())];
    assert_eq!(s.suggestion("cd", answers.clone()), Some("b".to_string()));
    assert_eq!(s.suggestion("cd proj", answers), Some("z".to_string()));
    assert_eq!(s.suggestion("cd", vec![Some("z".to_string()), None]), None);
}
