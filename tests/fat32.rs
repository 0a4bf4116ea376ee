use blog_os::fat32::{BlockDevice, BootSector, DirectoryEntry, Fat32, FsError, MemoryDisk};
use blog_os::QemuExitCode;

fn mount(disk: MemoryDisk) -> Fat32<MemoryDisk> {
    Fat32::new(disk).unwrap()
}

fn read(disk: &mut MemoryDisk, lba: u32) -> [u8; 512] {
    let mut buf = [0u8; 512];
    disk.read_sector(lba, &mut buf);
    buf
}

fn set_fat_entry(disk: &mut MemoryDisk, cluster: usize, value: u32) {
    for lba in [1u32, 2] {
        let mut fat = read(disk, lba);
        fat[cluster * 4..cluster * 4 + 4].copy_from_slice(&value.to_le_bytes());
        disk.write_sector(lba, &fat);
    }
}

fn record(name: &[u8; 11], first_cluster: u32, size: u32) -> [u8; 32] {
    let mut r = [0u8; 32];
    r[0..11].copy_from_slice(name);
    r[11] = 0x20;
    r[20..22].copy_from_slice(&((first_cluster >> 16) as u16).to_le_bytes());
    r[26..28].copy_from_slice(&(first_cluster as u16).to_le_bytes());
    r[28..32].copy_from_slice(&size.to_le_bytes());
    r
}

fn entry(first_cluster: u32, size: u32) -> DirectoryEntry {
    DirectoryEntry { name: *b"HELLO   TXT", attr: 0x20, first_cluster, size }
}

#[test]
fn parse_reads_fixed_offsets() {
    let mut buf = [0u8; 512];
    buf[11] = 0x00;
    buf[12] = 0x02;
    buf[13] = 8;
    buf[14] = 0x20;
    buf[15] = 0x00;
    buf[16] = 2;
    buf[36..40].copy_from_slice(&0x0000_1234u32.to_le_bytes());
    buf[44..48].copy_from_slice(&0x0102_0304u32.to_le_bytes());
    let bs = BootSector::parse(&buf);
    assert_eq!(bs.bytes_per_sector, 512);
    assert_eq!(bs.sectors_per_cluster, 8);
    assert_eq!(bs.reserved_sectors, 32);
    assert_eq!(bs.fats, 2);
    assert_eq!(bs.sectors_per_fat, 0x1234);
    assert_eq!(bs.root_cluster, 0x0102_0304);
}

#[test]
fn mount_accepts_any_boot_sector() {
    let mut disk = MemoryDisk::new();
    disk.write_sector(0, &[0xAB; 512]);
    let fs = mount(disk);
    assert_eq!(fs.boot_sector().bytes_per_sector, 0xABAB);
}

#[test]
fn sample_volume_geometry() {
    let mut fs = mount(MemoryDisk::new());
    let bs = *fs.boot_sector();
    assert_eq!(bs.bytes_per_sector, 512);
    assert_eq!(bs.sectors_per_cluster, 1);
    assert_eq!(bs.reserved_sectors, 1);
    assert_eq!(bs.fats, 2);
    assert_eq!(bs.sectors_per_fat, 1);
    assert_eq!(bs.root_cluster, 2);
    assert_eq!(fs.cluster_size(), 512);
    assert_eq!(fs.first_data_sector(), 3);
    assert_eq!(fs.cluster_to_lba(2), 3);
    assert_eq!(fs.cluster_to_lba(3), 4);
    assert_eq!(fs.read_fat_entry(2), 0x0FFF_FFFF);
    assert_eq!(fs.read_fat_entry(0), 0x0FFF_FFF8);
    assert_eq!(fs.read_fat_entry(1), 0x0FFF_FFFF);
    let mut buf = Vec::new();
    fs.read_cluster(3, &mut buf);
    assert_eq!(buf.len(), 512);
    assert_eq!(&buf[..5], b"Hello");
    assert!(buf[5..].iter().all(|&b| b == 0));
}

#[test]
fn end_to_end_hello() {
    let mut fs = mount(MemoryDisk::new());
    let entries = fs.read_root_directory().unwrap();
    assert_eq!(entries.len(), 1);
    assert_eq!(entries[0].filename(), "HELLO.TXT");
    assert_eq!(entries[0].first_cluster, 3);
    assert_eq!(entries[0].size, 5);
    assert_eq!(entries[0].attr, 0x20);
    assert_eq!(fs.open_file(&entries[0]).unwrap(), b"Hello".to_vec());
}

#[test]
fn both_end_markers_end_chain() {
    for marker in [0x0FFF_FFF8u32, 0x0FFF_FFFF, 0xFFFF_FFF8, 0xFFFF_FFFF] {
        let mut disk = MemoryDisk::new();
        set_fat_entry(&mut disk, 3, marker);
        let mut fs = mount(disk);
        let data = fs.open_file(&entry(3, 512)).unwrap();
        assert_eq!(data.len(), 512);
        assert_eq!(&data[..5], b"Hello");
    }
}

#[test]
fn chain_follows_fat_links() {
    let mut disk = MemoryDisk::new();
    set_fat_entry(&mut disk, 3, 5);
    set_fat_entry(&mut disk, 5, 0x0FFF_FFF8);
    disk.write_sector(6, &[b'!'; 512]);
    let mut fs = mount(disk);
    let data = fs.open_file(&entry(3, 514)).unwrap();
    assert_eq!(data.len(), 514);
    assert_eq!(&data[..5], b"Hello");
    assert_eq!(&data[512..], b"!!");
    let whole = fs.open_file(&entry(3, 5000)).unwrap();
    assert_eq!(whole.len(), 1024);
}

#[test]
fn reserved_link_is_invalid_cluster() {
    for link in [0u32, 1] {
        let mut disk = MemoryDisk::new();
        set_fat_entry(&mut disk, 3, link);
        let mut fs = mount(disk);
        assert_eq!(fs.open_file(&entry(3, 5)), Err(FsError::InvalidCluster));
    }
}

#[test]
fn open_reserved_first_cluster_fails() {
    let mut fs = mount(MemoryDisk::new());
    assert_eq!(fs.open_file(&entry(0, 5)), Err(FsError::InvalidCluster));
    assert_eq!(fs.open_file(&entry(1, 5)), Err(FsError::InvalidCluster));
    assert_eq!(fs.open_file(&entry(3, 5)).unwrap(), b"Hello".to_vec());
}

#[test]
fn chain_read_checks_start() {
    let mut fs = mount(MemoryDisk::new());
    assert_eq!(fs.read_cluster_chain(1), Err(FsError::InvalidCluster));
    assert_eq!(fs.read_cluster_chain(3).unwrap().len(), 512);
}

#[test]
fn unaddressable_cluster_is_invalid() {
    let mut fs = mount(MemoryDisk::new());
    assert!(fs.cluster_is_addressable(2));
    assert!(!fs.cluster_is_addressable(1));
    assert!(!fs.cluster_is_addressable(u32::MAX));
    assert_eq!(fs.open_file(&entry(u32::MAX, 5)), Err(FsError::InvalidCluster));
}

#[test]
fn foreign_sector_size_is_malformed() {
    let mut disk = MemoryDisk::new();
    let mut boot = read(&mut disk, 0);
    boot[11..13].copy_from_slice(&1024u16.to_le_bytes());
    disk.write_sector(0, &boot);
    let mut fs = mount(disk);
    assert_eq!(fs.read_root_directory().unwrap_err(), FsError::MalformedBootSector);
    assert_eq!(fs.open_file(&entry(3, 5)), Err(FsError::MalformedBootSector));
    assert_eq!(fs.open_file(&entry(1, 5)), Err(FsError::InvalidCluster));
}

#[test]
fn scan_skips_deleted_and_stops_at_end_marker() {
    let mut disk = MemoryDisk::new();
    let mut dir = [0u8; 512];
    let mut deleted = record(b"OLD     TXT", 7, 1);
    deleted[0] = 0xE5;
    let recs = [
        deleted,
        record(b"A       BIN", 3, 5),
        deleted,
        deleted,
        record(b"B          ", 0x0001_0004, 70000),
        [0u8; 32],
        record(b"C       TXT", 3, 5),
    ];
    for (i, r) in recs.iter().enumerate() {
        dir[i * 32..i * 32 + 32].copy_from_slice(r);
    }
    disk.write_sector(3, &dir);
    let mut fs = mount(disk);
    let entries = fs.read_root_directory().unwrap();
    assert_eq!(entries.len(), 2);
    assert_eq!(entries[0].filename(), "A.BIN");
    assert_eq!(entries[1].filename(), "B");
    assert_eq!(entries[1].first_cluster, 0x0001_0004);
    assert_eq!(entries[1].size, 70000);
}

#[test]
fn scan_reads_whole_cluster_without_end_marker() {
    let mut disk = MemoryDisk::new();
    let mut dir = [0u8; 512];
    for i in 0..16 {
        let mut name = *b"F       DAT";
        name[1] = b'A' + i as u8;
        dir[i * 32..i * 32 + 32].copy_from_slice(&record(&name, 3, 1));
    }
    disk.write_sector(3, &dir);
    let mut fs = mount(disk);
    let entries = fs.read_root_directory().unwrap();
    assert_eq!(entries.len(), 16);
    assert_eq!(entries[15].filename(), "FP.DAT");
}

#[test]
fn filename_trims_padding() {
    let e = |name: &[u8; 11]| DirectoryEntry { name: *name, attr: 0, first_cluster: 2, size: 0 };
    assert_eq!(e(b"HELLO   TXT").filename(), "HELLO.TXT");
    assert_eq!(e(b"README     ").filename(), "README");
    assert_eq!(e(b"KERNEL  B  ").filename(), "KERNEL.B");
    assert_eq!(e(b"ABCDEFGHIJK").filename(), "ABCDEFGH.IJK");
    assert_eq!(e(b"A\t      X\n ").filename(), "A.X");
    assert_eq!(e(b"HELLO   TXT").filename_bytes(), b"HELLO.TXT".to_vec());
}

#[test]
fn memory_disk_sectors() {
    let mut disk = MemoryDisk::new();
    let boot = read(&mut disk, 0);
    assert_eq!(&boot[11..17], &[0x00, 0x02, 1, 1, 0, 2]);
    let fat = read(&mut disk, 2);
    assert_eq!(&fat[8..12], &[0xFF, 0xFF, 0xFF, 0x0F]);
    assert_eq!(&read(&mut disk, 4)[..5], b"Hello");
    assert_eq!(read(&mut disk, 8), [0u8; 512]);
    disk.write_sector(8, &[1u8; 512]);
    assert_eq!(read(&mut disk, 8), [0u8; 512]);
    disk.write_sector(7, &[1u8; 512]);
    assert_eq!(read(&mut disk, 7), [1u8; 512]);
}

#[test]
fn exit_codes() {
    assert_eq!(QemuExitCode::Success.code(), 0x10);
    assert_eq!(QemuExitCode::Failed.code(), 0x11);
}
