use pio::output::{file_directory, temp_file_name, FsAction, Output};

fn overwrite() -> Output {
    Output::OverwriteFile {
        dst_path: "photos/cat.jpg".to_string(),
        tmp_path: "photos/.pio-abc.tmp".to_string(),
        dir: "photos".to_string(),
    }
}

fn new_file() -> Output {
    Output::NewFile { path: "out.png".to_string(), dir: ".".to_string() }
}

#[test]
fn stream_commit_is_write_and_flush() {
    let acts = Output::Stream.commit_actions(vec![1, 2, 3]);
    assert_eq!(acts.len(), 1);
    match &acts[0] {
        FsAction::StreamWrite { data } => assert_eq!(data, &vec![1, 2, 3]),
        _ => panic!("expected a stream write"),
    }
    assert!(Output::Stream.create_actions().is_empty());
    assert!(Output::Stream.cleanup_actions(false).is_empty());
}

#[test]
fn new_file_commit_writes_syncs_file_then_directory() {
    let acts = new_file().commit_actions(vec![9]);
    assert_eq!(acts.len(), 3);
    match &acts[0] {
        FsAction::WriteAll { path, data } => {
            assert_eq!(path.as_str(), "out.png");
            assert_eq!(data, &vec![9]);
        },
        _ => panic!("expected the write first"),
    }
    match &acts[1] {
        FsAction::SyncFile { path } => assert_eq!(path.as_str(), "out.png"),
        _ => panic!("expected the file sync second"),
    }
    match &acts[2] {
        FsAction::SyncDir { path } => assert_eq!(path.as_str(), "."),
        _ => panic!("expected the directory sync last"),
    }
}

#[test]
fn new_file_created_early_and_removed_when_uncommitted() {
    let o = new_file();
    let create = o.create_actions();
    assert_eq!(create.len(), 1);
    match &create[0] {
        FsAction::Create { path } => assert_eq!(path.as_str(), "out.png"),
        _ => panic!("expected the creation"),
    }
    let cleanup = o.cleanup_actions(false);
    assert_eq!(cleanup.len(), 1);
    match &cleanup[0] {
        FsAction::Remove { path } => assert_eq!(path.as_str(), "out.png"),
        _ => panic!("expected the removal"),
    }
    assert!(o.cleanup_actions(true).is_empty());
}

#[test]
fn overwrite_commit_touches_destination_only_at_rename() {
    let acts = overwrite().commit_actions(vec![5, 6]);
    assert_eq!(acts.len(), 5);
    match &acts[0] {
        FsAction::WriteAll { path, data } => {
            assert_eq!(path.as_str(), "photos/.pio-abc.tmp");
            assert_eq!(data, &vec![5, 6]);
        },
        _ => panic!("expected the temp write first"),
    }
    match &acts[1] {
        FsAction::SyncFile { path } => assert_eq!(path.as_str(), "photos/.pio-abc.tmp"),
        _ => panic!("expected the temp sync second"),
    }
    match &acts[2] {
        FsAction::Close { path } => assert_eq!(path.as_str(), "photos/.pio-abc.tmp"),
        _ => panic!("expected the close third"),
    }
    match &acts[3] {
        FsAction::Rename { from, to } => {
            assert_eq!(from.as_str(), "photos/.pio-abc.tmp");
            assert_eq!(to.as_str(), "photos/cat.jpg");
        },
        _ => panic!("expected the rename as the commit point"),
    }
    match &acts[4] {
        FsAction::SyncDir { path } => assert_eq!(path.as_str(), "photos"),
        _ => panic!("expected the directory sync last"),
    }
    // Before the rename, no action names the destination.
    for a in &acts[..3] {
        match a {
            FsAction::WriteAll { path, .. }
            | FsAction::SyncFile { path }
            | FsAction::Close { path } => assert_ne!(path.as_str(), "photos/cat.jpg"),
            _ => panic!("unexpected action before the rename"),
        }
    }
}

#[test]
fn overwrite_cleanup_removes_only_the_temporary() {
    let o = overwrite();
    let cleanup = o.cleanup_actions(false);
    assert_eq!(cleanup.len(), 1);
    match &cleanup[0] {
        FsAction::Remove { path } => assert_eq!(path.as_str(), "photos/.pio-abc.tmp"),
        _ => panic!("expected the temp removal"),
    }
    assert!(o.cleanup_actions(true).is_empty());
}

#[test]
fn temp_names_have_the_expected_shape() {
    let name = temp_file_name();
    assert_eq!(name.len(), 25);
    assert!(name.starts_with(".pio-"));
    assert!(name.ends_with(".tmp"));
    for c in name[5..21].chars() {
        assert!(c.is_ascii_alphanumeric());
    }
}

#[test]
fn directory_of_a_path() {
    assert_eq!(file_directory("a/b"), "a");
    assert_eq!(file_directory("a/b/c.png"), "a/b");
    assert_eq!(file_directory("c.png"), ".");
    assert_eq!(file_directory(""), ".");
    assert_eq!(file_directory("/"), ".");
    assert_eq!(file_directory("/etc/out.png"), "/etc");
    assert_eq!(file_directory("/out.png"), "/");
    assert_eq!(file_directory("a//b"), "a");
    assert_eq!(file_directory("dir/"), ".");
}
