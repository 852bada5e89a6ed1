//! Disks that lie.

use simkv::simcore::disk::{Disk, DiskConfig, IoResult};
use simkv::simcore::rng::Rng;

fn disk(cfg: DiskConfig) -> (Disk, Rng) {
    (Disk::new(cfg), Rng::new(1))
}

#[test]
fn synced_data_survives_a_crash() {
    let (mut d, mut r) = disk(DiskConfig::hostile());
    d.append(&mut r, 0, b"durable");
    d.sync(&mut r, 0);
    d.crash(&mut r);
    assert_eq!(d.read_all(0), b"durable");
}

#[test]
fn unsynced_data_is_visible_but_not_durable() {
    let cfg = DiskConfig {
        lost_write_ppm: 1_000_000,
        ..DiskConfig::default()
    };
    let (mut d, mut r) = disk(cfg);
    d.append(&mut r, 0, b"ephemeral");
    assert_eq!(d.read_all(0), b"ephemeral", "page cache should show it");
    assert!(d.durable_image(0).is_empty(), "nothing is durable yet");
    d.crash(&mut r);
    assert!(d.read_all(0).is_empty(), "unsynced write must be lost");
}

#[test]
fn sync_covers_only_earlier_writes() {
    let cfg = DiskConfig {
        lost_write_ppm: 1_000_000,
        ..DiskConfig::default()
    };
    let (mut d, mut r) = disk(cfg);
    d.append(&mut r, 0, b"before");
    d.sync(&mut r, 0);
    d.append(&mut r, 0, b"after");
    d.crash(&mut r);
    assert_eq!(d.read_all(0), b"before");
}

#[test]
fn torn_write_leaves_a_prefix() {
    let cfg = DiskConfig {
        torn_write_ppm: 1_000_000,
        lost_write_ppm: 0,
        ..DiskConfig::default()
    };
    let (mut d, mut r) = disk(cfg);
    let payload = vec![7u8; 4096];
    d.append(&mut r, 0, &payload);
    d.crash(&mut r);
    let after = d.read_all(0);
    assert!(after.len() < payload.len(), "write should have been torn");
    assert!(after.iter().all(|b| *b == 7), "prefix must be intact");
}

#[test]
fn lost_write_before_a_later_one_leaves_a_hole() {
    // Two appends, the first lost: the second still lands at its offset,
    // so the file has a zero-filled gap.
    let cfg = DiskConfig {
        lost_write_ppm: 500_000,
        reorder_unsynced: true,
        ..DiskConfig::default()
    };
    let mut found_hole = false;
    for seed in 0..200 {
        let mut d = Disk::new(cfg.clone());
        let mut r = Rng::new(seed);
        d.append(&mut r, 0, b"AAAA");
        d.append(&mut r, 0, b"BBBB");
        d.crash(&mut r);
        let img = d.read_all(0);
        if img.len() == 8 && &img[0..4] == b"\0\0\0\0" {
            found_hole = true;
            break;
        }
    }
    assert!(found_hole, "expected a lost-write hole in 200 attempts");
}

#[test]
fn io_errors_do_not_modify_the_file() {
    let cfg = DiskConfig {
        io_error_ppm: 1_000_000,
        ..DiskConfig::default()
    };
    let (mut d, mut r) = disk(cfg);
    let issued = d.append(&mut r, 0, b"nope");
    assert_eq!(issued.result, IoResult::Error);
    assert!(d.read_all(0).is_empty());
}

#[test]
fn set_len_truncates_and_zero_extends() {
    let (mut d, mut r) = disk(DiskConfig::default());
    d.append(&mut r, 0, b"0123456789");
    d.set_len(&mut r, 0, 4);
    assert_eq!(d.read_all(0), b"0123");
    d.set_len(&mut r, 0, 6);
    assert_eq!(d.read_all(0), b"0123\0\0");
}

#[test]
fn crash_is_deterministic_for_a_seed() {
    let outcome = |seed| {
        let mut d = Disk::new(DiskConfig::hostile());
        let mut r = Rng::new(seed);
        for i in 0..50u8 {
            d.append(&mut r, 0, &[i; 300]);
            if i % 10 == 0 {
                d.sync(&mut r, 0);
            }
        }
        d.crash(&mut r);
        d.read_all(0)
    };
    assert_eq!(outcome(99), outcome(99));
}
