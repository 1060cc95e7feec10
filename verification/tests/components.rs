use docversions::config::Settings;
use docversions::errors::RepoError;
use docversions::history::collect_log;
use docversions::index::{status_of, FileState};
use docversions::manager::{get_workspace, get_workspace_path, Workspaces};
use docversions::objects::Object;
use docversions::order::{str_cmp, str_eq};
use docversions::refs::parse_digest;
use docversions::store::{object_eq, ObjectStore};
use docversions::workdir::WorkDir;

#[test]
fn put_is_idempotent_and_content_addressed() {
    let mut s = ObjectStore::new();
    let d1 = s.put(Object::Blob(b"same bytes".to_vec()));
    let d2 = s.put(Object::Blob(b"same bytes".to_vec()));
    let d3 = s.put(Object::Blob(b"other bytes".to_vec()));
    // equal content collapses to one stored object; distinct content does not
    assert_eq!(d1, d2);
    assert_ne!(d1, d3);
    assert_eq!(s.len(), 2);
}

#[test]
fn get_of_absent_digest_is_not_found() {
    let mut s = ObjectStore::new();
    assert!(matches!(s.get(0), Err(RepoError::NotFound)));
    let d = s.put(Object::Blob(b"x".to_vec()));
    assert!(s.contains(d));
    assert!(!s.contains(d + 1));
    match s.get(d) {
        Ok(Object::Blob(bytes)) => assert_eq!(bytes, &b"x".to_vec()),
        _ => panic!("expected the stored blob back"),
    }
}

#[test]
fn object_equality_is_structural() {
    let a = Object::Blob(b"abc".to_vec());
    let b = Object::Blob(b"abc".to_vec());
    let c = Object::Blob(b"abd".to_vec());
    let t = Object::Tree(Vec::new());
    assert!(object_eq(&a, &b));
    assert!(!object_eq(&a, &c));
    assert!(!object_eq(&a, &t));
}

#[test]
fn log_walk_reports_missing_and_corrupt_digests() {
    let mut s = ObjectStore::new();
    // nothing stored: the digest is unknown
    assert!(matches!(collect_log(&s, 0), Err(RepoError::NotFound)));
    // a blob is stored, but it is no commit to walk from
    let d = s.put(Object::Blob(b"not a commit".to_vec()));
    assert!(matches!(collect_log(&s, d), Err(RepoError::Corrupt)));
}

#[test]
fn parse_digest_reads_decimal_strings() {
    assert_eq!(parse_digest("0"), Some(0));
    assert_eq!(parse_digest("42"), Some(42));
    assert_eq!(parse_digest("18446744073709551615"), Some(u64::MAX));
    // too large, empty, or not a number
    assert_eq!(parse_digest("18446744073709551616"), None);
    assert_eq!(parse_digest(""), None);
    assert_eq!(parse_digest("12a"), None);
    assert_eq!(parse_digest("-1"), None);
}

#[test]
fn string_order_is_lexicographic() {
    assert_eq!(str_cmp("a", "b"), -1);
    assert_eq!(str_cmp("b", "a"), 1);
    assert_eq!(str_cmp("abc", "abc"), 0);
    assert_eq!(str_cmp("ab", "abc"), -1);
    assert_eq!(str_cmp("abd", "abc"), 1);
    assert_eq!(str_cmp("", "a"), -1);
    assert!(str_eq("same", "same"));
    assert!(!str_eq("same", "Same"));
}

#[test]
fn workdir_keeps_files_in_name_order() {
    let mut wd = WorkDir::new();
    wd.set("b.txt".to_string(), b"b".to_vec());
    wd.set("a.txt".to_string(), b"a".to_vec());
    wd.set("c.txt".to_string(), b"c".to_vec());
    assert_eq!(wd.len(), 3);
    assert_eq!(wd.files[0].name, "a.txt");
    assert_eq!(wd.files[1].name, "b.txt");
    assert_eq!(wd.files[2].name, "c.txt");
    // overwriting replaces in place
    wd.set("b.txt".to_string(), b"b2".to_vec());
    assert_eq!(wd.len(), 3);
    assert_eq!(wd.get("b.txt").unwrap(), &b"b2".to_vec());
    // removing drops exactly the named file
    assert!(wd.remove("a.txt"));
    assert!(!wd.remove("a.txt"));
    assert_eq!(wd.len(), 2);
    assert!(wd.get("a.txt").is_none());
}

#[test]
fn status_of_merges_both_sides_in_order() {
    let mut disk = WorkDir::new();
    disk.set("common.txt".to_string(), b"same".to_vec());
    disk.set("changed.txt".to_string(), b"after".to_vec());
    disk.set("new.txt".to_string(), b"fresh".to_vec());
    let mut base = WorkDir::new();
    base.set("common.txt".to_string(), b"same".to_vec());
    base.set("changed.txt".to_string(), b"before".to_vec());
    base.set("gone.txt".to_string(), b"was here".to_vec());
    let report = status_of(&disk, &base);
    let got: Vec<(String, FileState)> = report
        .into_iter()
        .map(|e| (e.path, e.state))
        .collect();
    assert_eq!(
        got,
        vec![
            ("changed.txt".to_string(), FileState::Modified),
            ("common.txt".to_string(), FileState::Unmodified),
            ("gone.txt".to_string(), FileState::Deleted),
            ("new.txt".to_string(), FileState::New),
        ]
    );
}

#[test]
fn manager_tracks_workspaces_by_name() {
    let mut mgr = Workspaces::new();
    assert!(mgr.names().is_empty());
    assert_eq!(mgr.create("alpha".to_string()), Ok(()));
    assert_eq!(mgr.create("beta".to_string()), Ok(()));
    assert_eq!(mgr.create("alpha".to_string()), Err(RepoError::Conflict));
    assert_eq!(mgr.names(), vec!["alpha".to_string(), "beta".to_string()]);
    assert!(mgr.open("alpha").is_ok());
    assert_eq!(mgr.open("gamma"), Err(RepoError::NotFound));
}

#[test]
fn destroy_removes_exactly_the_named_workspace() {
    let mut mgr = Workspaces::new();
    mgr.create("one".to_string()).unwrap();
    mgr.create("two".to_string()).unwrap();
    assert_eq!(mgr.destroy("one"), Ok(()));
    assert_eq!(mgr.destroy("one"), Err(RepoError::NotFound));
    assert_eq!(mgr.names(), vec!["two".to_string()]);
}

#[test]
fn workspace_paths_join_directory_and_name() {
    let p = get_workspace_path("/srv/workspaces".to_string(), &"docs".to_string());
    assert_eq!(p, "/srv/workspaces/docs");
    let q = get_workspace(&"docs".to_string(), &"/srv/workspaces".to_string());
    assert_eq!(q, "/srv/workspaces/docs");
}

#[test]
fn settings_carry_port_and_path() {
    let s = Settings { application_port: 8000, workspaces_path: "workspaces".to_string() };
    assert_eq!(s.application_port, 8000);
    assert_eq!(s.workspaces_path, "workspaces");
}
