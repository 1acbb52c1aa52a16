use trawld::manager::{split_cpp_args, CliArgs, ResourceManager};

fn args() -> CliArgs {
    CliArgs {
        load: None,
        filename: None,
        cpp: None,
        nocpp: false,
        default_cpp: String::from("/usr/bin/cpp"),
    }
}

fn mgr() -> ResourceManager {
    ResourceManager::from_args(&args())
}

#[test]
fn load_twice_is_idempotent() {
    let mut m = mgr();
    let changed = m.load_from_str("a: 1\nb: 2\n");
    assert!(changed);
    assert_eq!(m.get_resource("a"), "1");
    assert_eq!(m.get_resource("b"), "2");
    let changed_again = m.load_from_str("a: 1\nb: 2\n");
    assert!(!changed_again);
    assert_eq!(m.get_resource("a"), "1");
    assert_eq!(m.get_resource("b"), "2");
    assert_eq!(m.resources().num_entries(), 2);
}

#[test]
fn merge_twice_same_table_but_still_raises() {
    let mut m = mgr();
    assert!(m.merge_from_str("a: 1\nb: 2"));
    // the equality suppression belongs to set_resource only: a repeated
    // merge writes the same values again and still reports a change
    assert!(m.merge_from_str("a: 1\nb: 2"));
    assert_eq!(m.get_resource("a"), "1");
    assert_eq!(m.get_resource("b"), "2");
    assert_eq!(m.resources().num_entries(), 2);
}

#[test]
fn merge_of_nothing_raises_no_event() {
    let mut m = mgr();
    assert!(!m.merge_from_str("no delimiter here\n"));
    assert!(!m.merge_from_str(""));
}

#[test]
fn add_never_overwrites() {
    let mut m = mgr();
    assert!(m.add_resource(String::from("k"), String::from("v1")));
    assert!(!m.add_resource(String::from("k"), String::from("v2")));
    assert_eq!(m.get_resource("k"), "v1");
}

#[test]
fn set_twice_raises_exactly_one_event() {
    let mut m = mgr();
    assert!(m.set_resource(String::from("k"), String::from("v")));
    assert!(!m.set_resource(String::from("k"), String::from("v")));
    assert_eq!(m.get_resource("k"), "v");
}

#[test]
fn set_overwrites_different_value() {
    let mut m = mgr();
    assert!(m.set_resource(String::from("k"), String::from("v1")));
    assert!(m.set_resource(String::from("k"), String::from("v2")));
    assert_eq!(m.get_resource("k"), "v2");
}

#[test]
fn remove_one_absent_and_present() {
    let mut m = mgr();
    assert!(m.remove_one("missing").is_none());
    assert!(m.set_resource(String::from("k"), String::from("v")));
    let removed = m.remove_one("k");
    assert_eq!(removed, Some((String::from("k"), String::from("v"))));
    assert_eq!(m.get_resource("k"), "");
    assert!(m.remove_one("k").is_none());
}

#[test]
fn remove_one_trims_its_key() {
    let mut m = mgr();
    m.set_resource(String::from("k"), String::from("v"));
    let removed = m.remove_one("  k\t");
    assert_eq!(removed, Some((String::from("k"), String::from("v"))));
}

#[test]
fn scenario_a_bad_key_rejected() {
    let mut m = mgr();
    let changed = m.load_from_str("foo: 1\nbar : 2\nbad key!: 3\n");
    assert!(changed);
    assert_eq!(m.resources().num_entries(), 2);
    assert_eq!(m.get_resource("foo"), "1");
    assert_eq!(m.get_resource("bar"), "2");
    assert_eq!(m.get_resource("bad key!"), "");
}

#[test]
fn scenario_b_load_preserves_existing() {
    let mut m = mgr();
    m.set_resource(String::from("a"), String::from("1"));
    let changed = m.load_from_str("a: 9\nb: 2");
    assert!(changed);
    assert_eq!(m.get_resource("a"), "1");
    assert_eq!(m.get_resource("b"), "2");
}

#[test]
fn scenario_c_merge_overwrites_existing() {
    let mut m = mgr();
    m.set_resource(String::from("a"), String::from("1"));
    let changed = m.merge_from_str("a: 9\nb: 2");
    assert!(changed);
    assert_eq!(m.get_resource("a"), "9");
    assert_eq!(m.get_resource("b"), "2");
}

#[test]
fn scenario_d_query_sorted() {
    let mut m = mgr();
    m.set_resource(String::from("alpha"), String::from("x"));
    m.set_resource(String::from("beta"), String::from("y"));
    assert_eq!(m.query("a"), "alpha :\tx\nbeta :\ty");
}

#[test]
fn scenario_e_remove_all() {
    let mut m = mgr();
    assert!(!m.remove_all());
    m.set_resource(String::from("a"), String::from("1"));
    m.set_resource(String::from("b"), String::from("2"));
    assert!(m.remove_all());
    assert!(m.resources().is_empty());
    assert!(!m.remove_all());
}

#[test]
fn query_empty_matches_everything() {
    let mut m = mgr();
    m.set_resource(String::from("b"), String::from("2"));
    m.set_resource(String::from("a"), String::from("1"));
    assert_eq!(m.query(""), "a :\t1\nb :\t2");
    assert_eq!(m.query("   "), "a :\t1\nb :\t2");
}

#[test]
fn query_on_empty_store_is_empty() {
    let m = mgr();
    assert_eq!(m.query("anything"), "");
}

#[test]
fn query_matches_substring_not_prefix() {
    let mut m = mgr();
    m.set_resource(String::from("alpha"), String::from("x"));
    m.set_resource(String::from("beta"), String::from("y"));
    m.set_resource(String::from("gamma"), String::from("z"));
    assert_eq!(m.query("et"), "beta :\ty");
    assert_eq!(m.query("zzz"), "");
}

#[test]
fn parser_splits_at_first_colon_only() {
    let mut m = mgr();
    m.load_from_str("url: http://example\n");
    assert_eq!(m.get_resource("url"), "http://example");
}

#[test]
fn parser_last_occurrence_wins() {
    let mut m = mgr();
    m.load_from_str("a: 1\na: 2\n");
    assert_eq!(m.get_resource("a"), "2");
    assert_eq!(m.resources().num_entries(), 1);
}

#[test]
fn parser_drops_lines_without_colon() {
    let mut m = mgr();
    assert!(!m.load_from_str("no delimiter\nanother line\n"));
    assert!(m.resources().is_empty());
}

#[test]
fn parser_rejects_empty_key() {
    let mut m = mgr();
    assert!(!m.load_from_str(": value\n   : value\n"));
    assert!(m.resources().is_empty());
}

#[test]
fn parser_handles_crlf_lines() {
    let mut m = mgr();
    m.load_from_str("a: 1\r\nb: 2\r\n");
    assert_eq!(m.get_resource("a"), "1");
    assert_eq!(m.get_resource("b"), "2");
}

#[test]
fn parser_trims_key_and_value() {
    let mut m = mgr();
    m.load_from_str("  spaced.key  :   some value  \n");
    assert_eq!(m.get_resource("spaced.key"), "some value");
}

#[test]
fn check_valid_key_rules() {
    let m = mgr();
    assert!(m.check_valid_key("foo-bar_1.2"));
    assert!(m.check_valid_key("A9"));
    assert!(!m.check_valid_key(""));
    assert!(!m.check_valid_key("bad key!"));
    assert!(!m.check_valid_key("semi;colon"));
}

#[test]
fn set_and_get_trim_their_arguments() {
    let mut m = mgr();
    m.set_resource(String::from("  k  "), String::from("\tv \n"));
    assert_eq!(m.get_resource("k"), "v");
    assert_eq!(m.get_resource("  k "), "v");
}

#[test]
fn get_resource_missing_key_is_empty_string() {
    let m = mgr();
    assert_eq!(m.get_resource("absent"), "");
}

#[test]
fn from_args_picks_configured_preprocessor() {
    let mut a = args();
    assert_eq!(
        ResourceManager::from_args(&a).preprocessor_path().as_str(),
        "/usr/bin/cpp"
    );
    a.cpp = Some(String::from("/opt/bin/mycpp"));
    assert_eq!(
        ResourceManager::from_args(&a).preprocessor_path().as_str(),
        "/opt/bin/mycpp"
    );
}

#[test]
fn init_prefers_load_over_filename() {
    let mut a = args();
    a.filename = Some(String::from("fallback.conf"));
    let m = ResourceManager::from_args(&a);
    assert_eq!(m.init(), Some(String::from("fallback.conf")));
    a.load = Some(String::from("primary.conf"));
    let m = ResourceManager::from_args(&a);
    assert_eq!(m.init(), Some(String::from("primary.conf")));
    assert_eq!(mgr().init(), None);
}

#[test]
fn resources_snapshot_matches_table() {
    let mut m = mgr();
    m.set_resource(String::from("a"), String::from("1"));
    m.set_resource(String::from("b"), String::from("2"));
    let snap = m.resources();
    assert_eq!(snap.num_entries(), 2);
    assert_eq!(snap.get("a"), Some(&String::from("1")));
    assert_eq!(snap.get("b"), Some(&String::from("2")));
    assert_eq!(snap.get("c"), None);
}

#[test]
fn split_cpp_args_tokens() {
    assert!(split_cpp_args("").is_empty());
    assert!(split_cpp_args("   ").is_empty());
    assert_eq!(split_cpp_args("-I include"), vec!["-I", "include"]);
    // naive single-space splitting keeps empty tokens
    assert_eq!(split_cpp_args("a  b"), vec!["a", "", "b"]);
}

#[test]
fn handle_remove_one_uses_exact_key() {
    let mut m = mgr();
    m.set_resource(String::from("k"), String::from("v"));
    // no trimming on the low-level handler
    assert!(m.handle_remove_one(" k ").is_none());
    assert_eq!(
        m.handle_remove_one("k"),
        Some((String::from("k"), String::from("v")))
    );
}

#[test]
fn handle_remove_all_clears() {
    let mut m = mgr();
    m.set_resource(String::from("k"), String::from("v"));
    m.handle_remove_all();
    assert!(m.resources().is_empty());
}

#[test]
fn parse_config_collects_entries() {
    let m = mgr();
    let parsed = m.parse_config("x: 1\nbad!: 2\ny: 3");
    assert_eq!(parsed.num_entries(), 2);
    assert_eq!(parsed.get("x"), Some(&String::from("1")));
    assert_eq!(parsed.get("y"), Some(&String::from("3")));
}
