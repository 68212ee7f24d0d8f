//! Where a session's journal lives, which paths the runtime directory owns, and the build label.

use laura::journal::{build_version, is_runtime_temp, runtime_dir, sanitize, session_path, tail_name, Journal, Stamp};

#[test]
fn session_ids_become_safe_file_stems() {
    assert_eq!(sanitize("audit-test"), "audit-test");
    assert_eq!(sanitize("a b/c:d"), "a_b_c_d");
    assert_eq!(sanitize("v1.2_x"), "v1.2_x");
    assert_eq!(sanitize("é"), "_");
    assert_eq!(sanitize(""), "session");
}

#[test]
fn session_path_sits_under_the_data_dir() {
    assert_eq!(session_path("/data", "audit-test"), "/data/laura/sessions/audit-test.ndjson");
    assert_eq!(session_path("/data/", "x y"), "/data/laura/sessions/x_y.ndjson");
    assert_eq!(session_path("", ""), "laura/sessions/session.ndjson");
}

#[test]
fn runtime_dir_and_its_files() {
    assert_eq!(runtime_dir("/data"), "/data/laura/runtime");
    assert!(is_runtime_temp("/data/laura/runtime/spool-1.txt", "/data"));
    assert!(is_runtime_temp("/data//laura/./runtime/x", "/data"));
    assert!(is_runtime_temp("/data/laura/runtime", "/data"));
    assert!(!is_runtime_temp("/data/laura/runtimes/x", "/data"));
    assert!(!is_runtime_temp("/other/laura/runtime/x", "/data"));
    assert!(!is_runtime_temp("data/laura/runtime/x", "/data"));
}

#[test]
fn build_version_appends_a_known_commit() {
    assert_eq!(build_version("0.3.1", ""), "0.3.1");
    assert_eq!(build_version("0.3.1", "abc1234"), "0.3.1+abc1234");
}

#[test]
fn journal_names_without_writing() {
    let j = Journal::open("/data", "my session", Some("riley".into()));
    assert_eq!(j.path(), "/data/laura/sessions/my_session.ndjson");
    assert_eq!(j.session, "my_session");
    assert_eq!(j.agent.as_deref(), Some("riley"));
}

#[test]
fn tail_spool_name_keeps_only_ascii_alphanumerics() {
    assert_eq!(tail_name(Some("build log!"), 42), "build-log--42.txt");
    assert_eq!(tail_name(None, 7), "tail-7.txt");
    assert_eq!(tail_name(Some("é2"), 1), "-2-1.txt");
}

#[test]
fn a_path_climbing_out_of_the_runtime_dir_is_not_a_runtime_file() {
    assert!(!is_runtime_temp("/data/laura/runtime/../sessions/s.ndjson", "/data"));
    assert!(!is_runtime_temp("/data/laura/runtime/a/../../x", "/data"));
    assert!(is_runtime_temp("/data/laura/runtime/a..b/x", "/data"));
}

#[test]
fn events_are_stamped_only_where_they_have_no_such_field() {
    let j = Journal::open("/data", "s1", Some("coder".to_string()));
    let all = j.stamps(&vec!["kind".to_string()], 42, "0.1.0");
    assert_eq!(
        all,
        vec![
            ("ts".to_string(), Stamp::Millis(42)),
            ("version".to_string(), Stamp::Text("0.1.0".to_string())),
            ("session".to_string(), Stamp::Text("s1".to_string())),
            ("agent".to_string(), Stamp::Text("coder".to_string())),
        ]
    );
    let some = j.stamps(&vec!["ts".to_string(), "agent".to_string()], 42, "0.1.0");
    assert_eq!(
        some,
        vec![
            ("version".to_string(), Stamp::Text("0.1.0".to_string())),
            ("session".to_string(), Stamp::Text("s1".to_string())),
        ]
    );
    let anon = Journal::open("/data", "s1", None);
    assert_eq!(anon.stamps(&vec![], 7, "v").len(), 3);
}
