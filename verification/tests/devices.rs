use lsblk::BlockDevice;
use lsblk::DirRead;
use lsblk::LinkRead;
use lsblk::LsblkError;
use lsblk::Slot;
use std::io::Error;
use std::io::ErrorKind;

fn link(name: &str, target: &str) -> LinkRead {
    LinkRead { name: name.to_string(), target: Ok(target.to_string()) }
}

fn broken(name: &str) -> LinkRead {
    LinkRead { name: name.to_string(), target: Err(Error::new(ErrorKind::NotFound, "dangling")) }
}

fn entries(links: &[(&str, &str)]) -> DirRead {
    DirRead::Entries(links.iter().map(|(name, target)| link(name, target)).collect())
}

fn identity() -> DirRead {
    entries(&[("1", "/dev/sda"), ("2", "/dev/sda1"), ("3", "/dev/sda2"), ("9", "/dev/nvme0n1")])
}

fn six_passes() -> Vec<(Slot, DirRead)> {
    vec![
        (
            Slot::Path,
            entries(&[
                ("pci-0000:00:1f.2-ata-1", "/dev/sda"),
                ("pci-0000:00:1f.2-ata-1-part1", "/dev/sda1"),
                ("pci-0000:00:1f.2-ata-1-part2", "/dev/sda2"),
            ]),
        ),
        (Slot::Uuid, entries(&[("1111-AAAA", "/dev/sda1"), ("2222-bbbb", "/dev/sda2")])),
        (Slot::Partuuid, entries(&[("p-01", "/dev/sda1"), ("p-02", "/dev/sda2")])),
        (Slot::Label, entries(&[("EFI", "/dev/sda1")])),
        (Slot::Partlabel, DirRead::Absent),
        (Slot::Id, entries(&[("ata-DISK", "/dev/sda"), ("dm-name-root", "/dev/dm-0")])),
    ]
}

fn sorted(mut devs: Vec<BlockDevice>) -> Vec<BlockDevice> {
    devs.sort_by(|a, b| a.fullname.cmp(&b.fullname));
    devs
}

fn fields(d: &BlockDevice) -> Vec<Option<String>> {
    vec![
        Some(d.name.clone()),
        Some(d.fullname.clone()),
        d.diskseq.clone(),
        d.path.clone(),
        d.uuid.clone(),
        d.partuuid.clone(),
        d.label.clone(),
        d.partlabel.clone(),
        d.id.clone(),
    ]
}

#[test]
fn lib_test_lsblk_smoke() {
    let identity = identity();
    let passes = six_passes();
    assert!(BlockDevice::listable(&identity, &passes));
    BlockDevice::list(identity, passes).expect("Valid lsblk");
}

#[test]
fn blockdevs_test_lsblk_smoke() {
    let devs = BlockDevice::list(identity(), six_passes()).expect("Valid lsblk");
    let mut parts = 0;
    for dev in devs.iter().filter(|d| d.is_part()) {
        parts += 1;
        println!("{}", BlockDevice::capacity(Ok("2048\n".to_string())).unwrap().unwrap());
        println!("{:?}", BlockDevice::sysfs(Ok(0x801)).unwrap());
        println!("{}", dev.disk_name(Ok("/sys/devices/pci0000:00/ata1/block/sda".to_string())).unwrap());
    }
    assert_eq!(parts, 2);
}

#[test]
fn list_merges_every_index() {
    let devs = BlockDevice::list(identity(), six_passes()).unwrap();
    let names: Vec<&str> = devs.iter().map(|d| d.name.as_str()).collect();
    assert_eq!(names, vec!["sda", "sda1", "sda2", "nvme0n1", "dm-0"]);
    let sda1 = &devs[1];
    assert_eq!(sda1.fullname, "/dev/sda1");
    assert_eq!(sda1.diskseq.as_deref(), Some("2"));
    assert_eq!(sda1.path.as_deref(), Some("pci-0000:00:1f.2-ata-1-part1"));
    assert_eq!(sda1.uuid.as_deref(), Some("1111-AAAA"));
    assert_eq!(sda1.partuuid.as_deref(), Some("p-01"));
    assert_eq!(sda1.label.as_deref(), Some("EFI"));
    assert_eq!(sda1.partlabel, None);
    assert_eq!(sda1.id, None);
    let sda = &devs[0];
    assert_eq!(sda.id.as_deref(), Some("ata-DISK"));
    assert_eq!(sda.partuuid, None);
}

#[test]
fn list_adds_a_device_that_the_identity_index_lacks() {
    let devs = BlockDevice::list(identity(), six_passes()).unwrap();
    let dm = devs.iter().find(|d| d.fullname == "/dev/dm-0").unwrap();
    assert_eq!(dm.name, "dm-0");
    assert_eq!(dm.id.as_deref(), Some("dm-name-root"));
    assert_eq!(dm.diskseq, None);
    assert_eq!(dm.path, None);
    assert_eq!(dm.uuid, None);
}

#[test]
fn list_keeps_the_last_link_of_an_index() {
    let passes = vec![(Slot::Id, entries(&[("ata-X", "/dev/sda"), ("wwn-0x5", "/dev/sda")]))];
    let devs = BlockDevice::list(entries(&[("1", "/dev/sda"), ("7", "/dev/sda")]), passes).unwrap();
    assert_eq!(devs.len(), 1);
    assert_eq!(devs[0].diskseq.as_deref(), Some("7"));
    assert_eq!(devs[0].id.as_deref(), Some("wwn-0x5"));
}

#[test]
fn list_does_not_depend_on_the_order_of_the_passes() {
    let reference = sorted(BlockDevice::list(identity(), six_passes()).unwrap());
    let orders: [[usize; 6]; 5] =
        [[5, 4, 3, 2, 1, 0], [1, 0, 3, 2, 5, 4], [2, 3, 4, 5, 0, 1], [0, 2, 4, 1, 3, 5], [3, 5, 1, 4, 0, 2]];
    for order in orders {
        let mut pool: Vec<Option<(Slot, DirRead)>> = six_passes().into_iter().map(Some).collect();
        let reordered: Vec<(Slot, DirRead)> = order.iter().map(|&i| pool[i].take().unwrap()).collect();
        let devs = sorted(BlockDevice::list(identity(), reordered).unwrap());
        assert_eq!(devs.len(), reference.len());
        for (a, b) in devs.iter().zip(reference.iter()) {
            assert_eq!(fields(a), fields(b));
        }
    }
}

#[test]
fn list_has_one_record_for_each_path() {
    let devs = BlockDevice::list(identity(), six_passes()).unwrap();
    for i in 0..devs.len() {
        for j in 0..devs.len() {
            if i != j {
                assert_ne!(devs[i].fullname, devs[j].fullname);
            }
        }
    }
}

#[test]
fn a_device_is_a_disk_or_a_partition() {
    let devs = BlockDevice::list(identity(), six_passes()).unwrap();
    for d in &devs {
        assert_eq!(d.is_disk(), !d.is_part());
    }
    assert!(devs[0].is_disk());
    assert!(devs[1].is_part());
    let bare = BlockDevice::default();
    assert!(bare.is_disk());
    assert!(!bare.is_part());
}

#[test]
fn list_of_absent_directories_is_empty() {
    let passes = vec![
        (Slot::Path, DirRead::Absent),
        (Slot::Uuid, DirRead::Absent),
        (Slot::Partuuid, DirRead::Absent),
        (Slot::Label, DirRead::Absent),
        (Slot::Partlabel, DirRead::Absent),
        (Slot::Id, DirRead::Absent),
    ];
    let devs = BlockDevice::list(DirRead::Absent, passes).unwrap();
    assert!(devs.is_empty());
    assert!(BlockDevice::list(DirRead::Absent, Vec::new()).unwrap().is_empty());
    assert!(BlockDevice::list(DirRead::Entries(Vec::new()), Vec::new()).unwrap().is_empty());
}

#[test]
fn list_fails_on_a_directory_that_cannot_be_listed() {
    let passes = vec![
        (Slot::Path, entries(&[("p", "/dev/sda")])),
        (Slot::Uuid, DirRead::Unreadable(Error::new(ErrorKind::PermissionDenied, "no"))),
        (Slot::Id, DirRead::Unreadable(Error::new(ErrorKind::Other, "later"))),
    ];
    match BlockDevice::list(identity(), passes) {
        Err(LsblkError::ReadDir(path, cause)) => {
            assert_eq!(path, "/dev/disk/by-uuid");
            assert_eq!(cause.kind(), ErrorKind::PermissionDenied);
        },
        other => panic!("{:?}", other),
    }
}

#[test]
fn list_names_the_identity_directory_with_its_slash() {
    let unreadable = DirRead::Unreadable(Error::new(ErrorKind::PermissionDenied, "no"));
    match BlockDevice::list(unreadable, six_passes()) {
        Err(LsblkError::ReadDir(path, _)) => assert_eq!(path, "/dev/disk/by-diskseq/"),
        other => panic!("{:?}", other),
    }
}

#[test]
fn list_fails_on_the_first_broken_link() {
    let identity = DirRead::Entries(vec![link("1", "/dev/sda"), broken("2"), broken("3")]);
    match BlockDevice::list(identity, six_passes()) {
        Err(LsblkError::BadSymlink(path, cause)) => {
            assert_eq!(path, "/dev/disk/by-diskseq/2");
            assert_eq!(cause.kind(), ErrorKind::NotFound);
        },
        other => panic!("{:?}", other),
    }
    let passes = vec![(Slot::Label, DirRead::Entries(vec![broken("EFI")]))];
    match BlockDevice::list(DirRead::Absent, passes) {
        Err(LsblkError::BadSymlink(path, _)) => assert_eq!(path, "/dev/disk/by-label/EFI"),
        other => panic!("{:?}", other),
    }
}

#[test]
fn listable_looks_at_the_links_before_the_first_failure() {
    let stray = vec![(Slot::Id, entries(&[("a", "/dev/sda"), ("b", "/home/x")]))];
    assert!(!BlockDevice::listable(&identity(), &stray));
    assert!(!BlockDevice::listable(&entries(&[("1", "/devices/sda")]), &Vec::new()));
    assert!(!BlockDevice::listable(&entries(&[("1", "/dev")]), &Vec::new()));
    let after_failure = vec![
        (Slot::Uuid, DirRead::Entries(vec![link("u", "/dev/sda"), broken("v"), link("w", "/tmp/x")])),
        (Slot::Id, entries(&[("b", "/home/x")])),
    ];
    assert!(BlockDevice::listable(&identity(), &after_failure));
    assert!(BlockDevice::list(identity(), after_failure).is_err());
    let unreadable = vec![
        (Slot::Uuid, DirRead::Unreadable(Error::new(ErrorKind::Other, "x"))),
        (Slot::Id, entries(&[("b", "/home/x")])),
    ];
    assert!(BlockDevice::listable(&identity(), &unreadable));
    assert!(BlockDevice::listable(&DirRead::Absent, &Vec::new()));
}

#[test]
fn is_device_path_asks_for_the_prefix() {
    assert!(BlockDevice::is_device_path("/dev/sda"));
    assert!(BlockDevice::is_device_path("/dev/mapper/root"));
    assert!(BlockDevice::is_device_path("/dev/"));
    assert!(!BlockDevice::is_device_path("/dev"));
    assert!(!BlockDevice::is_device_path("dev/sda"));
    assert!(!BlockDevice::is_device_path("/devices/sda"));
    assert!(!BlockDevice::is_device_path(""));
}

#[test]
fn from_abs_path_unpopulated_strips_the_prefix() {
    let d = BlockDevice::from_abs_path_unpopulated("/dev/sda1".to_string());
    assert_eq!(d.name, "sda1");
    assert_eq!(d.fullname, "/dev/sda1");
    assert_eq!(fields(&d)[2..], vec![None; 7][..]);
    let m = BlockDevice::from_abs_path_unpopulated("/dev/mapper/vg-root".to_string());
    assert_eq!(m.name, "mapper/vg-root");
    let u = BlockDevice::from_abs_path_unpopulated("/dev/d\u{e9}j\u{e0}".to_string());
    assert_eq!(u.name, "d\u{e9}j\u{e0}");
    for path in ["/dev/sda", "/dev/mapper/vg-root", "/dev/disk/by-id/x"] {
        let expected = std::path::Path::new(path).strip_prefix("/dev/").unwrap().to_string_lossy().to_string();
        assert_eq!(BlockDevice::from_abs_path_unpopulated(path.to_string()).name, expected);
    }
}

#[test]
fn default_device_is_empty() {
    let d = BlockDevice::default();
    assert_eq!(fields(&d), vec![Some(String::new()), Some(String::new()), None, None, None, None, None, None, None]);
}

#[test]
fn set_and_attr_agree() {
    let slots = [Slot::Diskseq, Slot::Path, Slot::Uuid, Slot::Partuuid, Slot::Label, Slot::Partlabel, Slot::Id];
    for (i, slot) in slots.iter().enumerate() {
        let mut d = BlockDevice::from_abs_path_unpopulated("/dev/sda".to_string());
        d.set(*slot, format!("v{}", i));
        for other in slots {
            if other == *slot {
                assert_eq!(d.attr(other), Some(format!("v{}", i).as_str()));
            } else {
                assert_eq!(d.attr(other), None);
            }
        }
        assert_eq!(fields(&d)[2 + i], Some(format!("v{}", i)));
    }
}

#[test]
fn slots_in_scanning_order() {
    assert_eq!(
        Slot::attributes(),
        vec![Slot::Path, Slot::Uuid, Slot::Partuuid, Slot::Label, Slot::Partlabel, Slot::Id]
    );
    let all = Slot::all();
    assert_eq!(all[0], Slot::Diskseq);
    assert_eq!(all[1..], Slot::attributes()[..]);
}

#[test]
fn slot_directories() {
    assert_eq!(Slot::Diskseq.directory(), "/dev/disk/by-diskseq");
    assert_eq!(Slot::Path.directory(), "/dev/disk/by-path");
    assert_eq!(Slot::Uuid.directory(), "/dev/disk/by-uuid");
    assert_eq!(Slot::Partuuid.directory(), "/dev/disk/by-partuuid");
    assert_eq!(Slot::Label.directory(), "/dev/disk/by-label");
    assert_eq!(Slot::Partlabel.directory(), "/dev/disk/by-partlabel");
    assert_eq!(Slot::Id.directory(), "/dev/disk/by-id");
}
