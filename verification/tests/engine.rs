use docversions::errors::RepoError;
use docversions::index::FileState;
use docversions::manager::Workspaces;
use docversions::workspace::Workspace;

#[test]
fn create_branch_fails_on_initialized_repository() {
    // a bare repository has no commit for the branch to start from
    let mut w = Workspace::init();
    let r = w.create_branch("new_branch".to_string());
    assert_eq!(r, Err(RepoError::NotFound));
}

#[test]
fn create_branch_succeeds_on_workspace_with_master_branch() {
    let mut w = Workspace::create();
    let r = w.create_branch("new_branch".to_string());
    assert_eq!(r, Ok(()));
}

#[test]
fn create_branch_sets_head_to_last_commit() {
    let mut w = Workspace::create();
    let master_commit = w.last_commit().unwrap();
    w.create_branch("new_branch".to_string()).unwrap();
    // HEAD follows the new branch, which points at the same commit
    assert_eq!(w.last_commit(), Some(master_commit));
    let names = w.branches();
    assert_eq!(names.len(), 2);
    assert_eq!(names[0], "master");
    assert_eq!(names[1], "new_branch");
}

#[test]
fn created_branch_shares_full_log() {
    let mut w = Workspace::create();
    let log_before: Vec<(u64, String)> = w
        .log()
        .unwrap()
        .into_iter()
        .map(|e| (e.commit_id, e.message))
        .collect();
    w.create_branch("feature".to_string()).unwrap();
    w.set_branch("feature").unwrap();
    let log_after: Vec<(u64, String)> = w
        .log()
        .unwrap()
        .into_iter()
        .map(|e| (e.commit_id, e.message))
        .collect();
    assert_eq!(log_before, log_after);
}

#[test]
fn retrieve_branches_is_empty_for_initialized_repository() {
    let w = Workspace::init();
    assert!(w.branches().is_empty());
}

#[test]
fn retrieve_branches_returns_master_for_created_workspace() {
    let w = Workspace::create();
    let names = w.branches();
    assert_eq!(names, vec!["master".to_string()]);
}

#[test]
fn retrieve_file_content_fails_on_initialized_repository() {
    let w = Workspace::init();
    assert_eq!(w.file_content("README.md"), Err(RepoError::NotFound));
}

#[test]
fn retrieve_file_content_returns_template_on_master() {
    let mut w = Workspace::create();
    w.set_branch("master").unwrap();
    let content = w.file_content("README.md").unwrap();
    assert_eq!(content, b"New Workspace!".to_vec());
}

#[test]
fn retrieve_logs_fails_on_initialized_repository() {
    let w = Workspace::init();
    assert!(w.log().is_err());
}

#[test]
fn retrieve_logs_returns_bootstrap_history() {
    let w = Workspace::create();
    let log = w.log().unwrap();
    assert_eq!(log.len(), 2);
    assert_eq!(log[0].message, "Second commit");
    assert_eq!(log[1].message, "Initial commit");
}

#[test]
fn new_workspace_status_reports_template_unmodified() {
    let w = Workspace::create();
    let report = w.status();
    assert_eq!(report.len(), 1);
    assert_eq!(report[0].path, "README.md");
    assert_eq!(report[0].state, FileState::Unmodified);
}

#[test]
fn write_then_read_round_trip() {
    let mut w = Workspace::create();
    w.create_file(
        "data.bin".to_string(),
        vec![0u8, 255u8, 7u8, 0u8],
        "add data".to_string(),
    )
    .unwrap();
    assert_eq!(w.file_content("data.bin").unwrap(), vec![0u8, 255u8, 7u8, 0u8]);
}

#[test]
fn update_then_read_round_trip() {
    let mut w = Workspace::create();
    w.update_file(
        "README.md".to_string(),
        b"rewritten".to_vec(),
        "rewrite readme".to_string(),
    )
    .unwrap();
    assert_eq!(w.file_content("README.md").unwrap(), b"rewritten".to_vec());
}

#[test]
fn status_twice_is_identical() {
    let mut w = Workspace::create();
    w.create_file("a.txt".to_string(), b"a".to_vec(), "add a".to_string())
        .unwrap();
    let r1 = w.status();
    let r2 = w.status();
    assert_eq!(r1.len(), r2.len());
    for (e1, e2) in r1.iter().zip(r2.iter()) {
        assert_eq!(e1.path, e2.path);
        assert_eq!(e1.state, e2.state);
    }
}

#[test]
fn delete_is_rejected_for_absent_path() {
    let mut w = Workspace::create();
    let r = w.delete_file("missing.txt", "remove it".to_string());
    assert_eq!(r, Err(RepoError::NotFound));
}

#[test]
fn update_is_rejected_for_absent_path() {
    let mut w = Workspace::create();
    let r = w.update_file(
        "missing.txt".to_string(),
        b"x".to_vec(),
        "touch".to_string(),
    );
    assert_eq!(r, Err(RepoError::NotFound));
}

#[test]
fn create_is_rejected_for_present_path() {
    let mut w = Workspace::create();
    let r = w.create_file(
        "README.md".to_string(),
        b"again".to_vec(),
        "clobber".to_string(),
    );
    assert_eq!(r, Err(RepoError::Conflict));
}

#[test]
fn checkout_removes_files_unique_to_left_branch() {
    let mut w = Workspace::create();
    // branch `a` gains a file that `master` never sees
    w.create_branch("a".to_string()).unwrap();
    w.set_branch("a").unwrap();
    w.create_file("a.txt".to_string(), b"only on a".to_vec(), "add a.txt".to_string())
        .unwrap();
    // switching back wipes a.txt from disk and restores master's files
    w.set_branch("master").unwrap();
    let report = w.status();
    assert_eq!(report.len(), 1);
    assert_eq!(report[0].path, "README.md");
    assert_eq!(report[0].state, FileState::Unmodified);
    assert_eq!(w.file_content("a.txt"), Err(RepoError::NotFound));
    // and switching forward restores a.txt verbatim
    w.set_branch("a").unwrap();
    assert_eq!(w.file_content("a.txt").unwrap(), b"only on a".to_vec());
    let report = w.status();
    assert_eq!(report.len(), 2);
    assert_eq!(report[0].path, "README.md");
    assert_eq!(report[1].path, "a.txt");
    assert_eq!(report[1].state, FileState::Unmodified);
}

#[test]
fn workspace_scenario_from_creation_to_deletion() {
    let mut mgr = Workspaces::new();
    mgr.create("w1".to_string()).unwrap();
    let i = mgr.open("w1").unwrap();
    let w = &mut mgr.list[i].workspace;
    // created: two commits
    assert_eq!(w.log().unwrap().len(), 2);
    // create notes.txt with "hello"
    w.create_file(
        "notes.txt".to_string(),
        b"hello".to_vec(),
        "add notes".to_string(),
    )
    .unwrap();
    let report = w.status();
    assert_eq!(report.len(), 2);
    assert_eq!(report[0].path, "README.md");
    assert_eq!(report[0].state, FileState::Unmodified);
    assert_eq!(report[1].path, "notes.txt");
    assert_eq!(report[1].state, FileState::Unmodified);
    assert_eq!(w.log().unwrap().len(), 3);
    // read back
    assert_eq!(w.file_content("notes.txt").unwrap(), b"hello".to_vec());
    // delete and read again
    w.delete_file("notes.txt", "remove notes".to_string()).unwrap();
    assert_eq!(w.file_content("notes.txt"), Err(RepoError::NotFound));
    assert_eq!(w.log().unwrap().len(), 4);
}

#[test]
fn commit_on_one_branch_leaves_the_other_alone() {
    let mut w = Workspace::create();
    w.create_branch("a".to_string()).unwrap();
    w.create_branch("b".to_string()).unwrap();
    // both branches point at the bootstrap commit; work on `a`
    w.set_branch("a").unwrap();
    w.create_file("a.txt".to_string(), b"a!".to_vec(), "work on a".to_string())
        .unwrap();
    assert_eq!(w.log().unwrap().len(), 3);
    // `b` is untouched: same log length, clean single-file status
    w.set_branch("b").unwrap();
    assert_eq!(w.log().unwrap().len(), 2);
    let report = w.status();
    assert_eq!(report.len(), 1);
    assert_eq!(report[0].path, "README.md");
    assert_eq!(report[0].state, FileState::Unmodified);
}

#[test]
fn detached_checkout_by_digest() {
    let mut w = Workspace::create();
    let c2 = w.last_commit().unwrap();
    let log = w.log().unwrap();
    let root = log[1].commit_id;
    // check the root commit out by its digest: its tree is empty
    w.set_branch(&root.to_string()).unwrap();
    assert_eq!(w.last_commit(), Some(root));
    assert!(w.status().is_empty());
    assert_eq!(w.file_content("README.md"), Err(RepoError::NotFound));
    // and back to the second commit, also detached
    w.set_branch(&c2.to_string()).unwrap();
    assert_eq!(w.file_content("README.md").unwrap(), b"New Workspace!".to_vec());
}

#[test]
fn resolve_rejects_unknown_targets() {
    let mut w = Workspace::create();
    assert_eq!(w.set_branch("no_such_branch"), Err(RepoError::NotFound));
    assert_eq!(w.set_branch("9999"), Err(RepoError::NotFound));
    // digest 0 is the bootstrap's empty tree, not a commit
    assert_eq!(w.set_branch("0"), Err(RepoError::Corrupt));
}

#[test]
fn empty_file_round_trip() {
    let mut w = Workspace::create();
    w.create_file("empty.txt".to_string(), Vec::new(), "add empty".to_string())
        .unwrap();
    assert_eq!(w.file_content("empty.txt").unwrap(), Vec::<u8>::new());
}

#[test]
fn unicode_file_name_round_trip() {
    let mut w = Workspace::create();
    w.create_file("écrits.txt".to_string(), b"bytes".to_vec(), "add notes".to_string())
        .unwrap();
    assert_eq!(w.file_content("écrits.txt").unwrap(), b"bytes".to_vec());
    assert_eq!(
        w.create_file("écrits.txt".to_string(), b"x".to_vec(), "again".to_string()),
        Err(RepoError::Conflict)
    );
}

#[test]
fn resolve_accepts_branch_names_and_digests() {
    let mut w = Workspace::create();
    let c2 = w.last_commit().unwrap();
    assert_eq!(w.resolve("master"), Ok(c2));
    assert_eq!(w.resolve(&c2.to_string()), Ok(c2));
    assert_eq!(w.resolve("nonsense"), Err(RepoError::NotFound));
    assert_eq!(w.resolve("12345"), Err(RepoError::NotFound));
    assert_eq!(w.resolve("0"), Err(RepoError::Corrupt));
    // a branch name that happens to be numeric wins over the digest reading
    w.create_branch("0".to_string()).unwrap();
    assert_eq!(w.resolve("0"), Ok(c2));
}

#[test]
fn duplicate_branch_is_a_conflict() {
    let mut w = Workspace::create();
    w.create_branch("twice".to_string()).unwrap();
    assert_eq!(w.create_branch("twice".to_string()), Err(RepoError::Conflict));
    assert_eq!(w.create_branch("master".to_string()), Err(RepoError::Conflict));
}

#[test]
fn dirty_working_directory_statuses() {
    let mut w = Workspace::create();
    w.create_file("kept.txt".to_string(), b"kept".to_vec(), "add kept".to_string())
        .unwrap();
    // touch the disk without committing: New, Modified and Deleted show up
    w.workdir
        .set("untracked.txt".to_string(), b"new bytes".to_vec());
    w.workdir
        .set("README.md".to_string(), b"edited".to_vec());
    w.workdir.remove("kept.txt");
    let report = w.status();
    assert_eq!(report.len(), 3);
    assert_eq!(report[0].path, "README.md");
    assert_eq!(report[0].state, FileState::Modified);
    assert_eq!(report[1].path, "kept.txt");
    assert_eq!(report[1].state, FileState::Deleted);
    assert_eq!(report[2].path, "untracked.txt");
    assert_eq!(report[2].state, FileState::New);
}

#[test]
fn stage_all_snapshots_the_disk() {
    let mut w = Workspace::create();
    w.workdir.set("extra.txt".to_string(), b"extra".to_vec());
    w.stage_all();
    assert_eq!(w.index.len(), 2);
    assert_eq!(w.index[0].path, "README.md");
    assert_eq!(w.index[0].state, FileState::Unmodified);
    assert_eq!(w.index[1].path, "extra.txt");
    assert_eq!(w.index[1].state, FileState::New);
}
