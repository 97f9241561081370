use log_tags::base::{Comparator, DistinctId, FileId, FilterId, Id, TagId};
use log_tags::engine::{Command, Engine, Plan};
use log_tags::error::Error;
use log_tags::stats::Output;

fn mk_lines(v: &[&str]) -> Vec<String> {
    v.iter().map(|s| s.to_string()).collect()
}

fn run(e: &mut Engine, c: Command) -> Output {
    e.run_command(&c).unwrap()
}

fn load(e: &mut Engine, v: &[&str]) -> FileId {
    match run(e, Command::Load(mk_lines(v))).id {
        Some(Id::File(f)) => f,
        other => panic!("expected a file id, got {:?}", other),
    }
}

fn tag(e: &mut Engine, f: FileId, name: &str) -> TagId {
    match run(e, Command::Tag(f, name.to_string())).id {
        Some(Id::Tag(t)) => t,
        other => panic!("expected a tag id, got {:?}", other),
    }
}

fn filter(e: &mut Engine, parent: Id, cmp: Comparator, lit: &str) -> FilterId {
    match run(e, Command::DirectFilter(parent, cmp, lit.to_string())).id {
        Some(Id::Filter(fl)) => fl,
        other => panic!("expected a filter id, got {:?}", other),
    }
}

fn distinct(e: &mut Engine, parent: Id) -> DistinctId {
    match run(e, Command::Distinct(parent)).id {
        Some(Id::Distinct(d)) => d,
        other => panic!("expected a distinct id, got {:?}", other),
    }
}

fn take(e: &mut Engine, id: Id, n: usize) -> Vec<String> {
    run(e, Command::Take(id, n)).lines
}

fn tag_line(name: &str, value: &str) -> String {
    format!("    {: <15} \"{}\"", format!("[{}]", name), value)
}

fn tag_line_missing(name: &str) -> String {
    format!("    [{: <15}] N/A", name)
}

#[test]
fn plain_take_from_unfiltered_file() {
    let mut e = Engine::new();
    let f = load(&mut e, &["a\n", "b\n", "c\n", "d\n"]);
    let lines = take(&mut e, Id::File(f), 2);
    assert_eq!(lines, vec!["a\n", "", "b\n", ""]);
}

#[test]
fn regex_tag_annotates_every_line() {
    let mut e = Engine::new();
    let f = load(&mut e, &["[error] x", "[notice] y", "nope"]);
    let t = tag(&mut e, f, "lvl");
    run(&mut e, Command::Regex(t, "\\[(error|notice)\\]".to_string()));
    let lines = take(&mut e, Id::File(f), 3);
    assert_eq!(
        lines,
        vec![
            "[error] x".to_string(),
            tag_line("lvl", "error"),
            "".to_string(),
            "[notice] y".to_string(),
            tag_line("lvl", "notice"),
            "".to_string(),
            "nope".to_string(),
            tag_line_missing("lvl"),
            "".to_string(),
        ]
    );
}

#[test]
fn filter_on_a_tag() {
    let mut e = Engine::new();
    let f = load(&mut e, &["[error] x", "[notice] y", "nope"]);
    let t = tag(&mut e, f, "lvl");
    run(&mut e, Command::Regex(t, "\\[(error|notice)\\]".to_string()));
    let fl = filter(&mut e, Id::Tag(t), Comparator::Equal, "error");
    let lines = take(&mut e, Id::Filter(fl), 1);
    assert_eq!(
        lines,
        vec!["[error] x".to_string(), tag_line("lvl", "error"), "".to_string()]
    );
}

#[test]
fn distinct_over_a_field() {
    let mut e = Engine::new();
    let f = load(&mut e, &["k=1", "k=2", "k=1", "k=3"]);
    let t = tag(&mut e, f, "k");
    run(&mut e, Command::Regex(t, "k=(\\d+)".to_string()));
    let d = distinct(&mut e, Id::Tag(t));
    let lines = take(&mut e, Id::Distinct(d), 3);
    assert_eq!(
        lines,
        vec![
            "k=1".to_string(),
            tag_line("k", "1"),
            "".to_string(),
            "k=2".to_string(),
            tag_line("k", "2"),
            "".to_string(),
            "k=3".to_string(),
            tag_line("k", "3"),
            "".to_string(),
        ]
    );
}

#[test]
fn batch_doubling_terminates_at_eof() {
    let mut e = Engine::new();
    let f = load(&mut e, &["one\n", "two\n", "three\n"]);
    let lines = take(&mut e, Id::File(f), 100);
    assert_eq!(lines, vec!["one\n", "", "two\n", "", "three\n", ""]);
}

#[test]
fn script_transform_uppercases() {
    let mut e = Engine::new();
    let f = load(&mut e, &["hi", "ho"]);
    let t = tag(&mut e, f, "up");
    run(&mut e, Command::Transform(t, "return string.upper(chunk)".to_string()));
    let lines = take(&mut e, Id::File(f), 2);
    assert_eq!(
        lines,
        vec![
            "hi".to_string(),
            tag_line("up", "HI"),
            "".to_string(),
            "ho".to_string(),
            tag_line("up", "HO"),
            "".to_string(),
        ]
    );
}

#[test]
fn shared_script_namespace() {
    // a Script command's globals are visible to later transforms
    let mut e = Engine::new();
    run(&mut e, Command::Script("prefix = \"p-\"".to_string()));
    let f = load(&mut e, &["x", "y"]);
    let t = tag(&mut e, f, "m");
    run(&mut e, Command::Transform(t, "return prefix .. chunk".to_string()));
    let lines = take(&mut e, Id::File(f), 2);
    assert_eq!(lines[1], tag_line("m", "p-x"));
    assert_eq!(lines[4], tag_line("m", "p-y"));
}

#[test]
fn scripted_filter_keeps_accepted_values() {
    let mut e = Engine::new();
    let f = load(&mut e, &["aa", "b", "ccc"]);
    let t = tag(&mut e, f, "v");
    let out = run(
        &mut e,
        Command::ScriptedFilter(Id::Tag(t), "return #chunk > 1".to_string()),
    );
    let fl = match out.id {
        Some(Id::Filter(fl)) => fl,
        other => panic!("expected a filter id, got {:?}", other),
    };
    let lines = take(&mut e, Id::Filter(fl), 5);
    assert_eq!(
        lines,
        vec![
            "aa".to_string(),
            tag_line("v", "aa"),
            "".to_string(),
            "ccc".to_string(),
            tag_line("v", "ccc"),
            "".to_string(),
        ]
    );
}

#[test]
fn failing_scripted_filter_drops_lines() {
    // a predicate that errors at runtime marks nothing, and the command
    // still succeeds: script failures are value-local
    let mut e = Engine::new();
    let f = load(&mut e, &["a", "b"]);
    let t = tag(&mut e, f, "v");
    run(
        &mut e,
        Command::ScriptedFilter(Id::Tag(t), "error(\"no\")".to_string()),
    );
    let lines = take(&mut e, Id::Filter(FilterId(3)), 5);
    assert_eq!(lines, Vec::<String>::new());
}

#[test]
fn failing_transform_yields_missing_values() {
    let mut e = Engine::new();
    let f = load(&mut e, &["a"]);
    let t = tag(&mut e, f, "v");
    run(&mut e, Command::Transform(t, "error(\"no\")".to_string()));
    let lines = take(&mut e, Id::File(f), 1);
    assert_eq!(lines, vec!["a".to_string(), tag_line_missing("v"), "".to_string()]);
}

#[test]
fn comparator_ordering_is_string_based() {
    let mut e = Engine::new();
    let f = load(&mut e, &["a", "b", "c"]);
    let t = tag(&mut e, f, "v");
    let lt = filter(&mut e, Id::Tag(t), Comparator::LessThan, "b");
    assert_eq!(
        take(&mut e, Id::Filter(lt), 9),
        vec!["a".to_string(), tag_line("v", "a"), "".to_string()]
    );
    let ge = filter(&mut e, Id::Tag(t), Comparator::GreaterThanEqual, "b");
    assert_eq!(
        take(&mut e, Id::Filter(ge), 9),
        vec![
            "b".to_string(),
            tag_line("v", "b"),
            "".to_string(),
            "c".to_string(),
            tag_line("v", "c"),
            "".to_string(),
        ]
    );
    let ne = filter(&mut e, Id::Tag(t), Comparator::NotEqual, "b");
    assert_eq!(take(&mut e, Id::Filter(ne), 9).len(), 6);
}

#[test]
fn chained_filters_intersect() {
    let mut e = Engine::new();
    let f = load(&mut e, &["ab", "ac", "bc", "ad"]);
    let t = tag(&mut e, f, "v");
    let ge = filter(&mut e, Id::Tag(t), Comparator::GreaterThanEqual, "ab");
    let lt = filter(&mut e, Id::Filter(ge), Comparator::LessThan, "ad");
    let lines = take(&mut e, Id::Filter(lt), 9);
    assert_eq!(
        lines,
        vec![
            "ab".to_string(),
            tag_line("v", "ab"),
            "".to_string(),
            "ac".to_string(),
            tag_line("v", "ac"),
            "".to_string(),
        ]
    );
}

#[test]
fn take_zero_renders_nothing() {
    let mut e = Engine::new();
    let f = load(&mut e, &["a", "b"]);
    assert_eq!(take(&mut e, Id::File(f), 0), Vec::<String>::new());
}

#[test]
fn take_from_empty_file() {
    let mut e = Engine::new();
    let f = load(&mut e, &[]);
    assert_eq!(take(&mut e, Id::File(f), 5), Vec::<String>::new());
}

#[test]
fn idempotent_reads() {
    // two identical takes return identical output and the second touches no
    // cache: its statistics record no computed interval
    let mut e = Engine::new_debug();
    let f = load(&mut e, &["x=1", "x=2", "x=1"]);
    let t = tag(&mut e, f, "x");
    run(&mut e, Command::Regex(t, "x=(\\d+)".to_string()));
    let first = run(&mut e, Command::Take(Id::Tag(t), 2));
    let second = run(&mut e, Command::Take(Id::Tag(t), 2));
    assert_eq!(first.lines, second.lines);
    assert!(first.stats.interval_total() > 0);
    assert_eq!(second.stats.interval_total(), 0);
}

#[test]
fn deterministic_for_identical_inputs() {
    let run_all = || {
        let mut e = Engine::new();
        let f = load(&mut e, &["[a] 1", "[b] 2", "[a] 3"]);
        let t = tag(&mut e, f, "tag");
        run(&mut e, Command::Regex(t, "\\[(a|b)\\]".to_string()));
        let fl = filter(&mut e, Id::Tag(t), Comparator::Equal, "a");
        take(&mut e, Id::Filter(fl), 10)
    };
    assert_eq!(run_all(), run_all());
}

#[test]
fn coverage_grows_monotonically() {
    let mut e = Engine::new();
    let f = load(&mut e, &["1", "2", "3", "4"]);
    let two = take(&mut e, Id::File(f), 2);
    let four = take(&mut e, Id::File(f), 4);
    assert_eq!(two.len(), 4);
    assert_eq!(four.len(), 8);
    assert_eq!(&four[0..4], &two[..]);
}

#[test]
fn registration_messages_and_ids() {
    let mut e = Engine::new();
    let out = run(&mut e, Command::Load(mk_lines(&["l"])));
    assert_eq!(out.id, Some(Id::File(FileId(1))));
    assert_eq!(out.lines, vec!["file loaded: 1"]);
    let out = run(&mut e, Command::Tag(FileId(1), "name".to_string()));
    assert_eq!(out.id, Some(Id::Tag(TagId(2))));
    assert_eq!(out.lines, vec!["tag loaded: 2 name"]);
    let out = run(&mut e, Command::Regex(TagId(2), "(l)".to_string()));
    assert_eq!(out.lines, vec!["regex added to: 2"]);
    let out = run(&mut e, Command::DirectFilter(Id::Tag(TagId(2)), Comparator::Equal, "l".to_string()));
    assert_eq!(out.id, Some(Id::Filter(FilterId(3))));
    assert_eq!(out.lines, vec!["filter loaded: 3"]);
    let out = run(&mut e, Command::Distinct(Id::Tag(TagId(2))));
    assert_eq!(out.id, Some(Id::Distinct(DistinctId(4))));
    assert_eq!(out.lines, vec!["distinct loaded: 4"]);
}

#[test]
fn unknown_ids_are_rejected() {
    let mut e = Engine::new();
    let err = e.run_command(&Command::Take(Id::File(FileId(9)), 1)).unwrap_err();
    assert!(matches!(err, Error::MissingId(Id::File(FileId(9)))));
    let err = e
        .run_command(&Command::Regex(TagId(1), "x".to_string()))
        .unwrap_err();
    assert!(matches!(err, Error::MissingId(Id::Tag(TagId(1)))));
    let err = e
        .run_command(&Command::Tag(FileId(3), "n".to_string()))
        .unwrap_err();
    assert!(matches!(err, Error::MissingId(Id::File(FileId(3)))));
    let err = e
        .run_command(&Command::DirectFilter(Id::Tag(TagId(7)), Comparator::Equal, "x".to_string()))
        .unwrap_err();
    assert!(matches!(err, Error::MissingId(Id::Tag(TagId(7)))));
}

#[test]
fn filter_on_file_has_no_governing_tag() {
    let mut e = Engine::new();
    let f = load(&mut e, &["l"]);
    let err = e
        .run_command(&Command::DirectFilter(Id::File(f), Comparator::Equal, "x".to_string()))
        .unwrap_err();
    assert!(matches!(err, Error::NoGoverningTag(_)));
    let err = e.run_command(&Command::Distinct(Id::File(f))).unwrap_err();
    assert!(matches!(err, Error::NoGoverningTag(_)));
}

#[test]
fn invalid_pattern_is_rejected() {
    let mut e = Engine::new();
    let f = load(&mut e, &["l"]);
    let t = tag(&mut e, f, "v");
    let err = e
        .run_command(&Command::Regex(t, "(unclosed".to_string()))
        .unwrap_err();
    assert!(matches!(err, Error::Regex(_)));
}

#[test]
fn failing_script_command_is_an_error() {
    let mut e = Engine::new();
    let err = e
        .run_command(&Command::Script("this is not lua".to_string()))
        .unwrap_err();
    assert!(matches!(err, Error::Script(_)));
}

#[test]
fn grouping_is_unsupported() {
    let mut e = Engine::new();
    let f = load(&mut e, &["l"]);
    let err = e.run_command(&Command::Group(Id::File(f))).unwrap_err();
    assert!(matches!(err, Error::Unsupported));
}

#[test]
fn reconfiguring_an_evaluated_tag_is_rejected() {
    // caches never shrink, so extraction cannot change once values are cached
    let mut e = Engine::new();
    let f = load(&mut e, &["[a] x"]);
    let t = tag(&mut e, f, "v");
    take(&mut e, Id::Tag(t), 1);
    let err = e
        .run_command(&Command::Regex(t, "\\[(a)\\]".to_string()))
        .unwrap_err();
    assert!(matches!(err, Error::TagCached(_)));
}

#[test]
fn rendering_shows_all_tags_of_the_file() {
    // rendering emits every tag bound to the root file, not only the one on
    // the queried pipeline, in registration order
    let mut e = Engine::new();
    let f = load(&mut e, &["[a] one"]);
    let t1 = tag(&mut e, f, "first");
    run(&mut e, Command::Regex(t1, "\\[(a)\\]".to_string()));
    let t2 = tag(&mut e, f, "second");
    run(&mut e, Command::Regex(t2, "(one)".to_string()));
    let lines = take(&mut e, Id::Tag(t1), 1);
    assert_eq!(
        lines,
        vec![
            "[a] one".to_string(),
            tag_line("first", "a"),
            tag_line("second", "one"),
            "".to_string(),
        ]
    );
}

#[test]
fn debug_mode_records_statistics() {
    let mut e = Engine::new_debug();
    let f = load(&mut e, &["a", "b"]);
    let out = run(&mut e, Command::Take(Id::File(f), 2));
    assert!(out.stats.interval_total() > 0);
    let rendered = out.stats.render();
    assert!(rendered.len() > 0);
    assert_eq!(rendered[0], "intervals");
}

#[test]
fn plain_engine_records_no_statistics() {
    let mut e = Engine::new();
    let f = load(&mut e, &["a"]);
    let out = run(&mut e, Command::Take(Id::File(f), 1));
    assert_eq!(out.stats.interval_total(), 0);
    assert_eq!(out.stats.render(), Vec::<String>::new());
}

#[test]
fn script_and_transform_messages() {
    let mut e = Engine::new();
    let out = run(&mut e, Command::Script("x = 1".to_string()));
    assert_eq!(out.id, None);
    assert_eq!(out.lines, vec!["script loaded"]);
    let f = load(&mut e, &["l"]);
    let t = tag(&mut e, f, "v");
    let out = run(&mut e, Command::Transform(t, "return chunk".to_string()));
    assert_eq!(out.lines, vec!["transform added to: 2"]);
    let out = run(
        &mut e,
        Command::ScriptedFilter(Id::Tag(t), "return true".to_string()),
    );
    assert_eq!(out.lines, vec!["filter loaded: 3"]);
}

#[test]
fn distinct_skips_missing_values() {
    // lines without a match contribute no value and are never marked
    let mut e = Engine::new();
    let f = load(&mut e, &["k=1", "junk", "k=1", "k=2"]);
    let t = tag(&mut e, f, "k");
    run(&mut e, Command::Regex(t, "k=(\\d+)".to_string()));
    let d = distinct(&mut e, Id::Tag(t));
    let lines = take(&mut e, Id::Distinct(d), 9);
    assert_eq!(
        lines,
        vec![
            "k=1".to_string(),
            tag_line("k", "1"),
            "".to_string(),
            "k=2".to_string(),
            tag_line("k", "2"),
            "".to_string(),
        ]
    );
}

#[test]
fn filter_then_distinct_compose() {
    let mut e = Engine::new();
    let f = load(&mut e, &["a=1", "b=1", "a=2", "a=1", "a=3"]);
    let t = tag(&mut e, f, "v");
    run(&mut e, Command::Regex(t, "a=(\\d+)".to_string()));
    let d = distinct(&mut e, Id::Tag(t));
    let lines = take(&mut e, Id::Distinct(d), 9);
    // b=1 has no value; the duplicate a=1 is dropped
    assert_eq!(lines.len(), 9);
    assert_eq!(lines[0], "a=1");
    assert_eq!(lines[3], "a=2");
    assert_eq!(lines[6], "a=3");
}

#[test]
fn debug_statistics_include_sizes() {
    let mut e = Engine::new_debug();
    let f = load(&mut e, &["abc", "de"]);
    let out = run(&mut e, Command::Take(Id::File(f), 2));
    let rendered = out.stats.render();
    assert!(rendered.iter().any(|l| l == "sizes"));
    assert!(rendered.iter().any(|l| l.contains("FileId(1)")));
}

#[test]
fn plan_collects_filters_and_distincts() {
    let steps = vec![
        Id::File(FileId(1)),
        Id::Tag(TagId(2)),
        Id::Filter(FilterId(3)),
        Id::Distinct(DistinctId(4)),
        Id::Filter(FilterId(5)),
    ];
    let plan = Plan::new(steps);
    assert_eq!(plan.file_id(), FileId(1));
    assert_eq!(plan.filter_ids(), vec![FilterId(3), FilterId(5)]);
    assert_eq!(plan.distinct_ids(), vec![DistinctId(4)]);
}
