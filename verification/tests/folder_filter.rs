use folder_filter::application::exit;
use folder_filter::application::switch_to_insert_mode;
use folder_filter::application::switch_to_jump_mode;
use folder_filter::application::switch_to_normal_mode;
use folder_filter::application::Application;
use folder_filter::application::Mode;
use folder_filter::paths::DirPath;
use folder_filter::query::split_gt;
use folder_filter::resolver::display_strings;
use folder_filter::resolver::search_as_folders;
use folder_filter::shrink::ShrinkPath;

fn p(s: &str) -> DirPath {
    DirPath::parse(s)
}

#[test]
fn folder_filter_test1() {
    let vals = vec![
        p("/hello/world/buddy"),
        p("/hello/venus/buddy"),
        p("/hello/buddy"),
    ];
    let r = search_as_folders(&vals, "").unwrap();
    assert_eq!(
        r,
        vec![p("/hello/buddy"), p("/hello/venus/..."), p("/hello/world/...")]
    );
}

#[test]
fn folder_filter_test2() {
    let vals = vec![
        p("/hello/world/buddy"),
        p("/hello/venus/buddy"),
        p("/hello/buddy"),
        p("/group/buddy"),
    ];
    let r = search_as_folders(&vals, "/group").unwrap();
    assert_eq!(r, vec![p("/group/buddy")]);
}

#[test]
fn split_gt_test() {
    assert_eq!(split_gt(""), ("", ""));
    assert_eq!(split_gt("hello goodbye"), ("hello goodbye", ""));
    assert_eq!(split_gt(">hello goodbye"), ("hello goodbye", "hello"));
}

#[test]
fn split_gt_marker_only() {
    assert_eq!(split_gt(">>>"), ("", ""));
}

#[test]
fn split_gt_space_after_marker() {
    assert_eq!(split_gt("> hello"), (" hello", ""));
}

#[test]
fn empty_candidates_give_empty_result() {
    let vals: Vec<DirPath> = Vec::new();
    let r = search_as_folders(&vals, "").unwrap();
    assert!(r.is_empty());
}

#[test]
fn fully_filtered_candidates_give_empty_result() {
    let vals = vec![p("/a/b")];
    let r = search_as_folders(&vals, "/zzz").unwrap();
    assert!(r.is_empty());
}

#[test]
fn single_candidate_is_its_own_ancestor() {
    let vals = vec![p("/a/b/c")];
    let r = search_as_folders(&vals, "").unwrap();
    assert_eq!(r, vec![p("/a/b/c")]);
}

#[test]
fn deep_siblings_collapse_to_one_entry() {
    let vals = vec![p("/a/x/one"), p("/a/x/two"), p("/a/y")];
    let r = search_as_folders(&vals, "").unwrap();
    assert_eq!(r, vec![p("/a/x/..."), p("/a/y")]);
}

#[test]
fn ancestor_seen_late_drops_out() {
    let vals = vec![p("/a/b"), p("/a")];
    let r = search_as_folders(&vals, "").unwrap();
    assert_eq!(r, vec![p("/a/b")]);
}

#[test]
fn ancestor_seen_first_stays() {
    let vals = vec![p("/a"), p("/a/b")];
    let r = search_as_folders(&vals, "").unwrap();
    assert_eq!(r, vec![p("/a"), p("/a/b")]);
}

#[test]
fn resolver_output_is_idempotent() {
    let vals = vec![
        p("/hello/world/buddy"),
        p("/hello/venus/buddy"),
        p("/hello/buddy"),
    ];
    let first = search_as_folders(&vals, "").unwrap();
    let stripped: Vec<DirPath> = vec![p("/hello/buddy"), p("/hello/venus"), p("/hello/world")];
    let second = search_as_folders(&stripped, "").unwrap();
    assert_eq!(second, stripped);
    assert_eq!(first.len(), second.len());
}

#[test]
fn display_strings_render_the_menu_rows() {
    let vals = vec![
        p("/hello/world/buddy"),
        p("/hello/venus/buddy"),
        p("/hello/buddy"),
    ];
    let r = search_as_folders(&vals, "").unwrap();
    assert_eq!(
        display_strings(&r),
        vec!["/hello/buddy", "/hello/venus/...", "/hello/world/..."]
    );
}

#[test]
fn display_string_renders_with_separators() {
    assert_eq!(p("/hello/world").to_display_string(), "/hello/world");
    assert_eq!(p("").to_display_string(), "/");
    assert_eq!(p("/").to_display_string(), "/");
}

#[test]
fn parse_ignores_repeated_separators() {
    assert_eq!(p("//hello///world/"), p("/hello/world"));
}

#[test]
fn shrink_parent_does_not_mutate() {
    let sp = ShrinkPath::new(p("/a/b/c"));
    assert_eq!(sp.parent(), p("/a/b"));
    assert_eq!(sp.materialize(), p("/a/b/c"));
}

#[test]
fn shrink_ascend_marks_truncation() {
    let mut sp = ShrinkPath::new(p("/a/b/c"));
    sp.ascend();
    assert_eq!(sp.materialize(), p("/a/b/..."));
}

#[test]
fn shrink_ascend_at_root_stays_put() {
    let mut sp = ShrinkPath::new(p("/"));
    sp.ascend();
    assert_eq!(sp.materialize(), p("/..."));
}

#[test]
fn shrink_equality_is_over_materialized_value() {
    let mut ascended = ShrinkPath::new(p("/a/b/c"));
    ascended.ascend();
    let literal = ShrinkPath::new(p("/a/b/..."));
    assert!(ascended == literal);
    assert!(ShrinkPath::new(p("/a/b")) != ShrinkPath::new(p("/a/c")));
}

#[test]
fn paths_build_component_by_component() {
    let mut d = DirPath::new();
    d.push("hello".to_string());
    d.push("world".to_string());
    assert_eq!(d, p("/hello/world"));
    assert_eq!(d.depth(), 2);
    assert_eq!(d.component(0).as_str(), "hello");
    assert_eq!(d.component(1).as_str(), "world");
}

#[test]
fn parent_at_root_is_none() {
    assert!(p("/").parent().is_none());
    assert_eq!(p("/a").parent().unwrap(), p("/"));
}

#[test]
fn mode_switches_set_the_marker() {
    let mut app = Application { mode: Mode::Insert };
    switch_to_normal_mode(&mut app, &'x');
    assert!(matches!(app.mode, Mode::Normal));
    switch_to_insert_mode(&mut app, &'x');
    assert!(matches!(app.mode, Mode::Insert));
    switch_to_jump_mode(&mut app, &'x');
    assert!(matches!(app.mode, Mode::Jump(_)));
    exit(&mut app, &'x');
    assert!(matches!(app.mode, Mode::Exit));
}
