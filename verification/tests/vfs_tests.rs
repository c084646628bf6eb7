use treesync::vfs::{IoResultExt, MemBackend, Vfs, VfsError, VfsEvent};

#[test]
fn read_watches_and_commit_remove_unwatches() {
    let mut backend = MemBackend::new();
    backend.add_file("proj/default.json".to_string(), b"{}".to_vec());
    let mut vfs = Vfs::new(backend);
    let p = "proj/default.json".to_string();
    let data = vfs.read(&p).unwrap();
    assert_eq!(&*data, b"{}");
    assert!(vfs.is_watched(&p));
    vfs.commit_event(&VfsEvent::Remove(p.clone())).unwrap();
    assert!(!vfs.is_watched(&p));
    // committing the same event twice does not error
    vfs.commit_event(&VfsEvent::Remove(p.clone())).unwrap();
    assert!(!vfs.is_watched(&p));
}

#[test]
fn commit_of_create_and_write_changes_nothing() {
    let mut vfs = Vfs::new_default();
    let p = "a.txt".to_string();
    vfs.write(&p, b"x".to_vec()).unwrap();
    let _ = vfs.read(&p).unwrap();
    vfs.commit_event(&VfsEvent::Create(p.clone())).unwrap();
    vfs.commit_event(&VfsEvent::Write(p.clone())).unwrap();
    assert!(vfs.is_watched(&p));
}

#[test]
fn write_then_read_round_trip() {
    let mut vfs = Vfs::new_default();
    let p = "file.bin".to_string();
    vfs.write(&p, vec![1, 2, 3]).unwrap();
    assert_eq!(&*vfs.read(&p).unwrap(), &vec![1, 2, 3]);
    vfs.write(&p, vec![9]).unwrap();
    assert_eq!(&*vfs.read(&p).unwrap(), &vec![9]);
}

#[test]
fn missing_path_is_not_found_and_convertible() {
    let mut vfs = Vfs::new_default();
    let p = "absent".to_string();
    match vfs.read(&p) {
        Err(VfsError::NotFound(q)) => assert_eq!(q, p),
        _ => panic!("a missing path must be not-found"),
    }
    assert!(vfs.read(&p).with_not_found().unwrap().is_none());
    vfs.write(&p, b"now".to_vec()).unwrap();
    assert!(vfs.read(&p).with_not_found().unwrap().is_some());
}

#[test]
fn hard_errors_are_not_absences() {
    let mut backend = MemBackend::new();
    backend.add_dir("d".to_string(), vec!["d/x".to_string()]);
    let mut vfs = Vfs::new(backend);
    let p = "d".to_string();
    // reading a directory as a file is a hard error, not an absence
    assert!(matches!(vfs.read(&p), Err(VfsError::Other(_))));
    assert!(vfs.read(&p).with_not_found().is_err());
    // and writing over a directory fails too
    assert!(matches!(vfs.write(&p, vec![]), Err(VfsError::Other(_))));
}

#[test]
fn metadata_and_read_dir() {
    let mut backend = MemBackend::new();
    backend.add_dir("d".to_string(), vec!["d/a".to_string(), "d/b".to_string()]);
    backend.add_file("d/a".to_string(), vec![]);
    let mut vfs = Vfs::new(backend);
    assert!(vfs.metadata(&"d/a".to_string()).unwrap().is_file());
    assert!(vfs.metadata(&"d".to_string()).unwrap().is_dir());
    assert!(vfs.metadata(&"nope".to_string()).is_err());
    let mut listing = vfs.read_dir(&"d".to_string()).unwrap();
    assert_eq!(listing.next().unwrap().path(), "d/a");
    assert_eq!(listing.next().unwrap().path(), "d/b");
    assert!(listing.next().is_none());
    assert!(vfs.is_watched(&"d".to_string()));
}

#[test]
fn removals_unwatch_first() {
    let mut vfs = Vfs::new_default();
    let p = "f".to_string();
    vfs.write(&p, vec![0]).unwrap();
    let _ = vfs.read(&p).unwrap();
    assert!(vfs.is_watched(&p));
    vfs.remove_file(&p).unwrap();
    assert!(!vfs.is_watched(&p));
    assert!(matches!(vfs.read(&p), Err(VfsError::NotFound(_))));
    // unwatch happens even when the removal fails
    let q = "never".to_string();
    assert!(vfs.remove_file(&q).is_err());
    assert!(!vfs.is_watched(&q));
}

#[test]
fn watched_write_emits_an_event() {
    let mut vfs = Vfs::new_default();
    let p = "w".to_string();
    vfs.write(&p, vec![1]).unwrap();
    let _ = vfs.read(&p).unwrap();
    let rx = vfs.event_receiver();
    vfs.write(&p, vec![2]).unwrap();
    match rx.try_recv().unwrap() {
        VfsEvent::Write(q) => assert_eq!(q, p),
        other => panic!("expected a write event, got {:?}", other),
    }
}

#[test]
fn disabled_watching_tracks_nothing() {
    let mut vfs = Vfs::new_default();
    vfs.set_watch_enabled(false);
    let p = "f".to_string();
    vfs.write(&p, vec![1]).unwrap();
    let _ = vfs.read(&p).unwrap();
    assert!(!vfs.is_watched(&p));
}
