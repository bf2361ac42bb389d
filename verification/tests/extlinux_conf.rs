use dtstree::extlinux::{Extlinux, ExtlinuxEntry, ExtlinuxError};

const CONF: &str = "TIMEOUT 30\nDEFAULT primary\n\nMENU TITLE L4T boot options\n\nLABEL primary\n      MENU LABEL primary kernel\n      LINUX /boot/Image\n      FDT /boot/dtb/kernel.dtb\n      INITRD /boot/initrd\n      APPEND ${cbootargs} root=/dev/mmcblk0p1\n\nLABEL backup\n      MENU LABEL backup kernel\n      LINUX /boot/Image.backup\n";

#[test]
fn load_reads_global_settings() {
    let conf = Extlinux::load(CONF).unwrap();
    assert_eq!(conf.timeout, Some(30));
    assert_eq!(conf.default.as_deref(), Some("primary"));
    assert_eq!(conf.menu_title.as_deref(), Some("L4T boot options"));
}

#[test]
fn load_splits_entries_at_label_lines() {
    let conf = Extlinux::load(CONF).unwrap();
    assert_eq!(conf.entries.len(), 2);
    assert_eq!(conf.entries[0].label.as_deref(), Some("primary"));
    assert_eq!(conf.entries[0].menu_label.as_deref(), Some("primary kernel"));
    assert_eq!(conf.entries[0].linux.as_deref(), Some("/boot/Image"));
    assert_eq!(conf.entries[0].fdt.as_deref(), Some("/boot/dtb/kernel.dtb"));
    assert_eq!(conf.entries[0].initrd.as_deref(), Some("/boot/initrd"));
    assert_eq!(
        conf.entries[0].append.as_deref(),
        Some("${cbootargs} root=/dev/mmcblk0p1")
    );
    assert_eq!(conf.entries[1].label.as_deref(), Some("backup"));
    assert_eq!(conf.entries[1].fdt, None);
}

#[test]
fn default_entry_matches_by_label() {
    let conf = Extlinux::load(CONF).unwrap();
    let entry = conf.default_entry().expect("default entry exists");
    assert_eq!(entry.fdt.as_deref(), Some("/boot/dtb/kernel.dtb"));
}

#[test]
fn default_entry_miss_is_none() {
    let conf = Extlinux::load("DEFAULT missing\n\nLABEL other\n   LINUX /boot/Image\n").unwrap();
    assert!(conf.default_entry().is_none());
}

#[test]
fn invalid_timeout_is_an_error() {
    assert!(matches!(Extlinux::load("TIMEOUT soon\n"), Err(ExtlinuxError::InvalidTimeout)));
    assert!(matches!(Extlinux::load("TIMEOUT 99999999999999999999999999\n"), Err(ExtlinuxError::InvalidTimeout)));
}

#[test]
fn later_lines_overwrite_earlier_settings() {
    let conf = Extlinux::load("TIMEOUT 10\nTIMEOUT 20\nDEFAULT a\nDEFAULT b\n").unwrap();
    assert_eq!(conf.timeout, Some(20));
    assert_eq!(conf.default.as_deref(), Some("b"));
}

#[test]
fn label_on_first_line_begins_no_entry() {
    let conf = Extlinux::load("LABEL first\n   LINUX /a\nLABEL second\n   LINUX /b\n").unwrap();
    assert_eq!(conf.entries.len(), 1);
    assert_eq!(conf.entries[0].label.as_deref(), Some("second"));
}

#[test]
fn entry_init_keeps_unmatched_fields() {
    let mut entry = ExtlinuxEntry {
        label: Some("old".to_string()),
        menu_label: None,
        linux: None,
        fdt: Some("/boot/old.dtb".to_string()),
        initrd: None,
        append: None,
    };
    let lines = vec!["   LINUX /boot/Image".to_string()];
    entry.init(&lines);
    assert_eq!(entry.label.as_deref(), Some("old"));
    assert_eq!(entry.linux.as_deref(), Some("/boot/Image"));
    assert_eq!(entry.fdt.as_deref(), Some("/boot/old.dtb"));
}
