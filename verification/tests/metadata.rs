use filesentry::metadata::{filetime_to_system_time, Metadata};

#[test]
fn regular_files_and_directories_are_followed() {
    let file = Metadata::from_stat(0o100644, 10, 5, 42, 7).unwrap();
    assert!(!file.is_dir);
    assert_eq!(file.mtime, 10_000_000_005);
    assert_eq!(file.size, 42);
    assert_eq!(file.inode, 7);
    assert!(Metadata::from_stat(0o040755, 0, 0, 1, 8).unwrap().is_dir);
}

#[test]
fn nothing_else_is_followed() {
    // A symbolic link, a pipe, a socket, two kinds of devices, and no kind at all.
    for mode in [0o120777, 0o010644, 0o140755, 0o020600, 0o060600, 0o000644] {
        assert!(Metadata::from_stat(mode, 0, 0, 0, 0).is_none());
    }
}

#[test]
fn times_before_1970_count_backwards() {
    let file = Metadata::from_stat(0o100644, -2, 3, 0, 0).unwrap();
    assert_eq!(file.mtime, -2_000_000_003);
}

#[test]
fn ticks_are_counted_from_1601() {
    // The start of 1970 is 116444736000000000 ticks after the start of 1601.
    assert_eq!(filetime_to_system_time(0x019d_b1de, 0xd53e_8000), 0);
    assert_eq!(filetime_to_system_time(0x019d_b1de, 0xd53e_8001), 100);
    assert_eq!(filetime_to_system_time(0, 0), -11_644_473_600_000_000_000);
}

#[test]
fn attributes_describe_a_file() {
    let file = Metadata::from_attributes(0x20, 1, 2, 0x019d_b1de, 0xd53e_8001).unwrap();
    assert!(!file.is_dir);
    assert_eq!(file.mtime, 100);
    assert_eq!(file.size, 0x1_0000_0002);
    assert_eq!(file.inode, 0);
    assert!(Metadata::from_attributes(0x10, 0, 0, 0, 0).unwrap().is_dir);
    assert!(Metadata::from_attributes(0x410, 0, 0, 0, 0).is_none());
}
