use lsblk::symlinks::ls_symlinks;
use lsblk::DirListing;
use lsblk::DirRead;
use lsblk::EntryRead;
use lsblk::LinkRead;
use lsblk::LsblkError;
use std::io::Error;
use std::io::ErrorKind;

#[test]
fn ls_symlinks_of_an_absent_directory_is_empty() {
    let items = ls_symlinks("/dev/disk/by-path", DirRead::Absent).unwrap();
    assert!(items.is_empty());
}

#[test]
fn ls_symlinks_fails_with_the_directory() {
    let read = DirRead::Unreadable(Error::new(ErrorKind::PermissionDenied, "no"));
    match ls_symlinks("/dev/disk/by-path", read) {
        Err(LsblkError::ReadDir(path, cause)) => {
            assert_eq!(path, "/dev/disk/by-path");
            assert_eq!(cause.kind(), ErrorKind::PermissionDenied);
        },
        other => panic!("{:?}", other),
    }
}

#[test]
fn ls_symlinks_gives_each_link_in_its_place() {
    let read = DirRead::Entries(vec![
        LinkRead { name: "a".to_string(), target: Ok("/dev/sda".to_string()) },
        LinkRead { name: "b".to_string(), target: Err(Error::new(ErrorKind::NotFound, "gone")) },
        LinkRead { name: "c".to_string(), target: Ok("/dev/sdc".to_string()) },
    ]);
    let items = ls_symlinks("/dev/disk/by-id", read).unwrap();
    assert_eq!(items.len(), 3);
    match &items[0] {
        Ok((target, name)) => {
            assert_eq!(target, "/dev/sda");
            assert_eq!(name, "a");
        },
        other => panic!("{:?}", other),
    }
    match &items[1] {
        Err(LsblkError::BadSymlink(path, cause)) => {
            assert_eq!(path, "/dev/disk/by-id/b");
            assert_eq!(cause.kind(), ErrorKind::NotFound);
        },
        other => panic!("{:?}", other),
    }
    match &items[2] {
        Ok((target, name)) => {
            assert_eq!(target, "/dev/sdc");
            assert_eq!(name, "c");
        },
        other => panic!("{:?}", other),
    }
}

#[test]
fn a_broken_link_is_named_as_the_directory_joined_with_its_name() {
    for dir in ["/dev/disk/by-id", "/dev/disk/by-id/", "/", "", "rel", "rel/"] {
        let read = DirRead::Entries(vec![LinkRead {
            name: "x y".to_string(),
            target: Err(Error::new(ErrorKind::NotFound, "gone")),
        }]);
        let items = ls_symlinks(dir, read).unwrap();
        let expected = std::path::Path::new(dir).join("x y");
        match &items[0] {
            Err(LsblkError::BadSymlink(path, _)) => assert_eq!(path.as_str(), expected.to_str().unwrap()),
            other => panic!("{:?}", other),
        }
    }
}

fn entry(name: &str, symlink: Result<bool, Error>, target: &str) -> Result<EntryRead, Error> {
    Ok(EntryRead { name: name.to_string(), symlink, target: Ok(target.to_string()) })
}

#[test]
fn only_symbolic_links_are_kept() {
    let listing = DirListing::Entries(vec![
        entry("a", Ok(true), "/dev/sda"),
        entry("file", Ok(false), "/dev/disk/by-id/file"),
        Err(Error::new(ErrorKind::Other, "entry")),
        entry("nostat", Err(Error::new(ErrorKind::PermissionDenied, "stat")), "/dev/sdx"),
        Ok(EntryRead {
            name: "broken".to_string(),
            symlink: Ok(true),
            target: Err(Error::new(ErrorKind::NotFound, "dangling")),
        }),
        entry("b", Ok(true), "/dev/sdb"),
    ]);
    match DirRead::from_listing(listing) {
        DirRead::Entries(links) => {
            let names: Vec<&str> = links.iter().map(|l| l.name.as_str()).collect();
            assert_eq!(names, vec!["a", "broken", "b"]);
            assert_eq!(links[0].target.as_ref().unwrap(), "/dev/sda");
            assert_eq!(links[1].target.as_ref().unwrap_err().kind(), ErrorKind::NotFound);
            assert_eq!(links[2].target.as_ref().unwrap(), "/dev/sdb");
        },
        other => panic!("{:?}", other),
    }
}

#[test]
fn a_listing_without_links_is_empty_and_no_failure() {
    let listing = DirListing::Entries(vec![
        entry("file", Ok(false), "/x"),
        Err(Error::new(ErrorKind::Other, "entry")),
    ]);
    match DirRead::from_listing(listing) {
        DirRead::Entries(links) => assert!(links.is_empty()),
        other => panic!("{:?}", other),
    }
    assert!(matches!(DirRead::from_listing(DirListing::Entries(Vec::new())), DirRead::Entries(_)));
}

#[test]
fn absent_and_unreadable_directories_stay_so() {
    assert!(matches!(DirRead::from_listing(DirListing::Absent), DirRead::Absent));
    let unreadable = DirListing::Unreadable(Error::new(ErrorKind::PermissionDenied, "no"));
    match DirRead::from_listing(unreadable) {
        DirRead::Unreadable(cause) => assert_eq!(cause.kind(), ErrorKind::PermissionDenied),
        other => panic!("{:?}", other),
    }
}
