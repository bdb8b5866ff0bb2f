use lsblk::BlockDevice;
use lsblk::DirRead;
use lsblk::LinkRead;
use lsblk::LsblkError;
use lsblk::Populate;
use lsblk::Slot;
use std::io::Error;
use std::io::ErrorKind;

fn link(name: &str, target: &str) -> LinkRead {
    LinkRead { name: name.to_string(), target: Ok(target.to_string()) }
}

fn broken(name: &str) -> LinkRead {
    LinkRead { name: name.to_string(), target: Err(Error::new(ErrorKind::NotFound, "dangling")) }
}

fn entries(links: &[(&str, &str)]) -> DirRead {
    DirRead::Entries(links.iter().map(|(name, target)| link(name, target)).collect())
}

fn seven_passes() -> Vec<(Slot, DirRead)> {
    vec![
        (Slot::Diskseq, entries(&[("1", "/dev/sda"), ("2", "/dev/sda1")])),
        (Slot::Path, entries(&[("pci-ata-1", "/dev/sda"), ("pci-ata-1-part1", "/dev/sda1")])),
        (Slot::Uuid, entries(&[("1111-AAAA", "/dev/sda1")])),
        (Slot::Partuuid, entries(&[("p-01", "/dev/sda1")])),
        (Slot::Label, DirRead::Absent),
        (Slot::Partlabel, entries(&[("boot", "/dev/sda1")])),
        (Slot::Id, entries(&[("ata-DISK", "/dev/sda"), ("ata-DISK-part1", "/dev/sda1")])),
    ]
}

fn fields(d: &BlockDevice) -> Vec<Option<String>> {
    vec![
        Some(d.name.clone()),
        Some(d.fullname.clone()),
        d.diskseq.clone(),
        d.path.clone(),
        d.uuid.clone(),
        d.partuuid.clone(),
        d.label.clone(),
        d.partlabel.clone(),
        d.id.clone(),
    ]
}

#[test]
fn from_path_populates_every_slot() {
    let d = BlockDevice::from_path("/dev/disk/by-label/x", Ok("/dev/sda1".to_string()), seven_passes()).unwrap();
    assert_eq!(
        fields(&d),
        vec![
            Some("sda1".to_string()),
            Some("/dev/sda1".to_string()),
            Some("2".to_string()),
            Some("pci-ata-1-part1".to_string()),
            Some("1111-AAAA".to_string()),
            Some("p-01".to_string()),
            None,
            Some("boot".to_string()),
            Some("ata-DISK-part1".to_string()),
        ]
    );
}

#[test]
fn from_path_of_an_unknown_device_has_no_attribute() {
    let d = BlockDevice::from_path("/dev/loop0", Ok("/dev/loop0".to_string()), seven_passes()).unwrap();
    let mut expected = vec![Some("loop0".to_string()), Some("/dev/loop0".to_string())];
    expected.extend(vec![None; 7]);
    assert_eq!(fields(&d), expected);
}

#[test]
fn from_path_fails_where_the_path_cannot_be_resolved() {
    let r = BlockDevice::from_path("/dev/nope", Err(Error::new(ErrorKind::NotFound, "gone")), seven_passes());
    match r {
        Err(LsblkError::BadSymlink(path, cause)) => {
            assert_eq!(path, "/dev/nope");
            assert_eq!(cause.kind(), ErrorKind::NotFound);
        },
        other => panic!("{:?}", other),
    }
}

#[test]
fn from_path_takes_the_first_link_and_stops_there() {
    let passes = vec![(
        Slot::Id,
        DirRead::Entries(vec![link("other", "/dev/sdb"), link("first", "/dev/sda"), broken("x"), link("second", "/dev/sda")]),
    )];
    let d = BlockDevice::from_path("/dev/sda", Ok("/dev/sda".to_string()), passes).unwrap();
    assert_eq!(d.id.as_deref(), Some("first"));
}

#[test]
fn from_path_fails_on_a_broken_link_before_the_device() {
    let passes = vec![
        (Slot::Path, entries(&[("p", "/dev/sda")])),
        (Slot::Id, DirRead::Entries(vec![link("other", "/dev/sdb"), broken("x"), link("first", "/dev/sda")])),
    ];
    match BlockDevice::from_path("/dev/sda", Ok("/dev/sda".to_string()), passes) {
        Err(LsblkError::BadSymlink(path, _)) => assert_eq!(path, "/dev/disk/by-id/x"),
        other => panic!("{:?}", other),
    }
}

#[test]
fn from_path_fails_on_a_directory_that_cannot_be_listed() {
    let passes = vec![
        (Slot::Diskseq, DirRead::Unreadable(Error::new(ErrorKind::PermissionDenied, "no"))),
        (Slot::Id, entries(&[("first", "/dev/sda")])),
    ];
    match BlockDevice::from_path("/dev/sda", Ok("/dev/sda".to_string()), passes) {
        Err(LsblkError::ReadDir(path, cause)) => {
            assert_eq!(path, "/dev/disk/by-diskseq");
            assert_eq!(cause.kind(), ErrorKind::PermissionDenied);
        },
        other => panic!("{:?}", other),
    }
}

#[test]
fn from_path_agrees_with_list() {
    let mut passes = seven_passes();
    let identity = passes.remove(0).1;
    let listed = BlockDevice::list(identity, passes).unwrap();
    assert_eq!(listed.len(), 2);
    for d in &listed {
        let resolved = BlockDevice::from_path(&d.fullname, Ok(d.fullname.clone()), seven_passes()).unwrap();
        assert_eq!(fields(&resolved), fields(d));
    }
}

#[test]
fn from_path_unpopulated_keeps_the_cause() {
    let d = BlockDevice::from_path_unpopulated(Ok("/dev/sdb2".to_string())).unwrap();
    assert_eq!(d.name, "sdb2");
    assert_eq!(d.fullname, "/dev/sdb2");
    assert_eq!(d.diskseq, None);
    let e = BlockDevice::from_path_unpopulated(Err(Error::new(ErrorKind::NotFound, "gone"))).unwrap_err();
    assert_eq!(e.kind(), ErrorKind::NotFound);
    assert_eq!(e.to_string(), "gone");
}

#[test]
fn populate_takes_the_first_name() {
    let mut d = BlockDevice::from_abs_path_unpopulated("/dev/sda".to_string());
    let read = entries(&[("a", "/dev/sdb"), ("b", "/dev/sda"), ("c", "/dev/sda")]);
    assert_eq!(d.populate(Slot::Id, read).unwrap(), Some("b"));
    assert_eq!(d.id.as_deref(), Some("b"));
    let after = DirRead::Entries(vec![link("first", "/dev/sda"), broken("x")]);
    assert_eq!(d.populate_uuid(after).unwrap(), Some("first"));
}

#[test]
fn clones_are_equal() {
    let mut d = BlockDevice::from_abs_path_unpopulated("/dev/sda1".to_string());
    d.set(Slot::Uuid, "1111".to_string());
    d.set(Slot::Partlabel, "boot".to_string());
    assert_eq!(fields(&d.clone()), fields(&d));
}

#[test]
fn populate_sets_the_slot_and_returns_the_name() {
    let mut d = BlockDevice::from_abs_path_unpopulated("/dev/sda1".to_string());
    assert_eq!(d.populate_uuid(entries(&[("0000", "/dev/sda"), ("1111", "/dev/sda1")])).unwrap(), Some("1111"));
    assert_eq!(d.uuid.as_deref(), Some("1111"));
    assert_eq!(d.populate_diskseq(entries(&[("5", "/dev/sda1")])).unwrap(), Some("5"));
    assert_eq!(d.populate_path(entries(&[("pci", "/dev/sda1")])).unwrap(), Some("pci"));
    assert_eq!(d.populate_partuuid(entries(&[("pu", "/dev/sda1")])).unwrap(), Some("pu"));
    assert_eq!(d.populate_label(entries(&[("lab", "/dev/sda1")])).unwrap(), Some("lab"));
    assert_eq!(d.populate_partlabel(entries(&[("plab", "/dev/sda1")])).unwrap(), Some("plab"));
    assert_eq!(d.populate_id(entries(&[("ident", "/dev/sda1")])).unwrap(), Some("ident"));
    assert_eq!(
        fields(&d),
        vec![
            Some("sda1".to_string()),
            Some("/dev/sda1".to_string()),
            Some("5".to_string()),
            Some("pci".to_string()),
            Some("1111".to_string()),
            Some("pu".to_string()),
            Some("lab".to_string()),
            Some("plab".to_string()),
            Some("ident".to_string()),
        ]
    );
}

#[test]
fn populate_leaves_the_record_where_nothing_is_found() {
    let mut d = BlockDevice::from_abs_path_unpopulated("/dev/sda1".to_string());
    d.set(Slot::Label, "old".to_string());
    assert_eq!(d.populate_label(entries(&[("x", "/dev/sdb")])).unwrap(), None);
    assert_eq!(d.label.as_deref(), Some("old"));
    assert_eq!(d.populate_label(DirRead::Absent).unwrap(), None);
    assert_eq!(d.label.as_deref(), Some("old"));
    let failed = d.populate_label(DirRead::Entries(vec![broken("y"), link("new", "/dev/sda1")]));
    match failed {
        Err(LsblkError::BadSymlink(path, _)) => assert_eq!(path, "/dev/disk/by-label/y"),
        other => panic!("{:?}", other),
    }
    assert_eq!(d.label.as_deref(), Some("old"));
    let unreadable = d.populate(Slot::Id, DirRead::Unreadable(Error::new(ErrorKind::Other, "x")));
    match unreadable {
        Err(LsblkError::ReadDir(path, _)) => assert_eq!(path, "/dev/disk/by-id"),
        other => panic!("{:?}", other),
    }
    assert_eq!(d.id, None);
}

#[test]
fn populate_by_slot_overwrites() {
    let mut d = BlockDevice::from_abs_path_unpopulated("/dev/sda".to_string());
    d.set(Slot::Id, "old".to_string());
    assert_eq!(d.populate(Slot::Id, entries(&[("new", "/dev/sda")])).unwrap(), Some("new"));
    assert_eq!(d.id.as_deref(), Some("new"));
    assert_eq!(Populate::as_ref(&d).id.as_deref(), Some("new"));
    Populate::as_mut(&mut d).id = None;
    assert_eq!(d.id, None);
}
