use fat32_slab::{Attributes, DirEntry, Fat32, Fat32Mut, FatError};

/// A volume of `sectors` 512-byte sectors with one sector per cluster,
/// `num_fats` one-sector FATs and an empty root directory in cluster 2.
fn blank_image(sectors: usize, num_fats: u8) -> Vec<u8> {
    let mut disk = vec![0u8; 512 * sectors];
    disk[11] = 0x00;
    disk[12] = 0x02;
    disk[13] = 1;
    disk[14] = 1;
    disk[16] = num_fats;
    disk[36] = 1;
    disk[44] = 2;
    for i in 0..num_fats as usize {
        let fat = 512 + i * 512;
        disk[fat + 8..fat + 12].copy_from_slice(&0x0FFF_FFFFu32.to_le_bytes());
    }
    disk
}

fn fat_entry(disk: &[u8], copy: usize, cluster: u32) -> u32 {
    let off = 512 + copy * 512 + cluster as usize * 4;
    u32::from_le_bytes([disk[off], disk[off + 1], disk[off + 2], disk[off + 3]]) & 0x0FFF_FFFF
}

fn write(disk: &mut [u8], path: &str, content: &[u8]) -> Result<(), FatError> {
    let mut rw = Fat32Mut::new(disk).unwrap();
    rw.write_file_by_path(path, content)
}

fn read(disk: &[u8], path: &str) -> Result<Option<Vec<u8>>, FatError> {
    Fat32::new(disk).unwrap().read_file_by_path(path)
}

#[test]
fn round_trip_several_files() {
    let mut disk = blank_image(16, 1);
    let big: Vec<u8> = (0..1500u32).map(|i| (i % 251) as u8).collect();
    write(&mut disk, "/A.TXT", b"first").unwrap();
    write(&mut disk, "/B", &big).unwrap();
    write(&mut disk, "/c.bin", b"x").unwrap();
    assert_eq!(read(&disk, "/A.TXT").unwrap().unwrap(), b"first");
    assert_eq!(read(&disk, "/B").unwrap().unwrap(), big);
    assert_eq!(read(&disk, "/C.BIN").unwrap().unwrap(), b"x");
    let names: Vec<String> =
        Fat32::new(&disk).unwrap().list_root().unwrap().into_iter().map(|e| e.name).collect();
    assert_eq!(names, vec!["A.TXT", "B", "C.BIN"]);
}

#[test]
fn overwrite_shrink_frees_chain() {
    let mut disk = blank_image(16, 1);
    write(&mut disk, "/BIG.DAT", &vec![7u8; 1200]).unwrap();
    let e = Fat32::new(&disk).unwrap().open_path("/BIG.DAT").unwrap().unwrap();
    assert_eq!(e.first_cluster, 3);
    assert_eq!(fat_entry(&disk, 0, 3), 4);
    assert_eq!(fat_entry(&disk, 0, 4), 5);
    assert_eq!(fat_entry(&disk, 0, 5), 0x0FFF_FFFF);
    write(&mut disk, "/BIG.DAT", b"").unwrap();
    assert_eq!(read(&disk, "/BIG.DAT").unwrap().unwrap(), b"");
    assert_eq!(fat_entry(&disk, 0, 3), 0);
    assert_eq!(fat_entry(&disk, 0, 4), 0);
    assert_eq!(fat_entry(&disk, 0, 5), 0);
}

#[test]
fn lookup_ignores_case() {
    let mut disk = blank_image(16, 1);
    write(&mut disk, "/MiXeD.TxT", b"abc").unwrap();
    let fs = Fat32::new(&disk).unwrap();
    let a = fs.open_path("/mixed.txt").unwrap().unwrap();
    let b = fs.open_path("/MIXED.TXT").unwrap().unwrap();
    assert_eq!(a.name, "MIXED.TXT");
    assert_eq!(a.name, b.name);
    assert_eq!(a.first_cluster, b.first_cluster);
}

#[test]
fn type_enforcement_both_ways() {
    let mut disk = blank_image(16, 1);
    write(&mut disk, "/F.TXT", b"data").unwrap();
    let fs = Fat32::new(&disk).unwrap();
    assert_eq!(fs.list_dir_path("/F.TXT").unwrap_err(), FatError::NotADirectory);
    assert_eq!(fs.read_file_by_path("/").unwrap(), None);
}

#[test]
fn reading_a_directory_by_path_is_not_a_file() {
    let mut disk = blank_image(16, 1);
    let root = 2 * 512;
    disk[root..root + 11].copy_from_slice(b"SUB        ");
    disk[root + 11] = 0x10;
    disk[root + 26] = 3;
    disk[512 + 12..512 + 16].copy_from_slice(&0x0FFF_FFFFu32.to_le_bytes());
    let fs = Fat32::new(&disk).unwrap();
    assert_eq!(fs.read_file_by_path("/SUB").unwrap_err(), FatError::NotAFile);
    assert_eq!(fs.list_dir_path("/SUB").unwrap().len(), 0);
    assert_eq!(write(&mut disk, "/SUB", b"x").unwrap_err(), FatError::NotAFile);
    write(&mut disk, "/SUB/IN.TXT", b"inner").unwrap();
    assert_eq!(read(&disk, "/sub/in.txt").unwrap().unwrap(), b"inner");
}

#[test]
fn parent_must_exist_and_be_a_directory() {
    let mut disk = blank_image(16, 1);
    assert_eq!(write(&mut disk, "/NOPE/F.TXT", b"x").unwrap_err(), FatError::PathNotFound);
    write(&mut disk, "/F.TXT", b"x").unwrap();
    assert_eq!(write(&mut disk, "/F.TXT/G.TXT", b"x").unwrap_err(), FatError::NotADirectory);
}

#[test]
fn invalid_names_are_refused() {
    let mut disk = blank_image(16, 1);
    let before = disk.clone();
    for path in ["/ABCDEFGHI.TXT", "/A.TEXT", "/A.B.C", "/\u{e9}.TXT", "/.TXT"] {
        assert_eq!(write(&mut disk, path, b"x").unwrap_err(), FatError::InvalidName, "{path}");
    }
    assert_eq!(disk, before);
    write(&mut disk, "/ABCDEFGH.TXT", b"x").unwrap();
    write(&mut disk, "/NOEXT", b"x").unwrap();
}

#[test]
fn malformed_paths_are_other() {
    let mut disk = blank_image(16, 1);
    assert_eq!(write(&mut disk, "/", b"x").unwrap_err(), FatError::Other);
    assert_eq!(write(&mut disk, "A.TXT", b"x").unwrap_err(), FatError::Other);
    assert_eq!(write(&mut disk, "//", b"x").unwrap_err(), FatError::Other);
    let fs = Fat32::new(&disk).unwrap();
    assert_eq!(fs.open_path("A.TXT").unwrap_err(), FatError::Other);
    assert!(fs.open_path("/").unwrap().is_none());
}

#[test]
fn both_fat_copies_mirror_every_write() {
    let mut disk = blank_image(16, 2);
    write(&mut disk, "/TWO.TXT", &vec![1u8; 700]).unwrap();
    for copy in 0..2 {
        assert_eq!(fat_entry(&disk, copy, 3), 4);
        assert_eq!(fat_entry(&disk, copy, 4), 0x0FFF_FFFF);
    }
    write(&mut disk, "/TWO.TXT", b"").unwrap();
    for copy in 0..2 {
        assert_eq!(fat_entry(&disk, copy, 3), 0);
        assert_eq!(fat_entry(&disk, copy, 4), 0);
    }
}

#[test]
fn no_space_left_when_clusters_run_out() {
    let mut disk = blank_image(8, 1);
    // data area: sectors 2..8, clusters 2..7; cluster 2 is the root.
    assert_eq!(write(&mut disk, "/HUGE.BIN", &vec![0u8; 6 * 512]).unwrap_err(), FatError::NoSpaceLeft);
    write(&mut disk, "/FIT.BIN", &vec![9u8; 5 * 512]).unwrap();
    assert_eq!(read(&disk, "/FIT.BIN").unwrap().unwrap(), vec![9u8; 5 * 512]);
}

#[test]
fn no_space_left_when_directory_is_full() {
    let mut disk = blank_image(16, 1);
    for i in 0..16 {
        write(&mut disk, &format!("/F{i}"), b"").unwrap();
    }
    assert_eq!(write(&mut disk, "/ONEMORE", b"").unwrap_err(), FatError::NoSpaceLeft);
}

#[test]
fn data_tail_of_last_cluster_is_zeroed() {
    let mut disk = blank_image(16, 1);
    for b in disk[3 * 512..4 * 512].iter_mut() {
        *b = 0xAA;
    }
    write(&mut disk, "/Z.TXT", b"abc").unwrap();
    assert_eq!(&disk[3 * 512..3 * 512 + 3], b"abc");
    assert!(disk[3 * 512 + 3..4 * 512].iter().all(|&b| b == 0));
}

#[test]
fn record_layout_of_a_written_file() {
    let mut disk = blank_image(16, 1);
    write(&mut disk, "/rec.t", b"hello").unwrap();
    let r = &disk[2 * 512..2 * 512 + 32];
    assert_eq!(&r[0..11], b"REC     T  ");
    assert_eq!(r[11], 0x20);
    assert_eq!(&r[20..22], &[0, 0]);
    assert_eq!(&r[26..28], &[3, 0]);
    assert_eq!(&r[28..32], &5u32.to_le_bytes());
    assert_eq!(disk[2 * 512 + 32], 0);
}

#[test]
fn not_fat32_and_too_small() {
    assert_eq!(Fat32::new(&[0u8; 511]).unwrap_err(), FatError::BufferTooSmall);
    assert_eq!(Fat32::new(&[0u8; 512]).unwrap_err(), FatError::NotFat32);
    let mut disk = blank_image(16, 1);
    disk[36] = 0;
    assert_eq!(Fat32::new(&disk).unwrap_err(), FatError::NotFat32);
    let mut m = vec![0u8; 512];
    assert_eq!(Fat32Mut::new(&mut m).unwrap_err(), FatError::NotFat32);
}

#[test]
fn bad_clusters_are_reported() {
    let disk = blank_image(16, 1);
    let fs = Fat32::new(&disk).unwrap();
    let mut rec = [0u8; 32];
    rec[0..11].copy_from_slice(b"BAD     TXT");
    rec[11] = 0x20;
    rec[28] = 10;
    let mut e = DirEntry::parse(&rec).unwrap();
    assert_eq!(e.size, 10);
    assert_eq!(e.first_cluster, 0);
    assert_eq!(fs.read_file(&e).unwrap_err(), FatError::InvalidCluster);
    e.first_cluster = 5000;
    assert_eq!(fs.read_file(&e).unwrap_err(), FatError::OutOfBounds);
    e.first_cluster = 5;
    assert_eq!(fs.read_file(&e).unwrap_err(), FatError::InvalidCluster);
}

#[test]
fn parse_skips_free_deleted_and_labels() {
    let mut rec = [0u8; 32];
    rec[0..11].copy_from_slice(b"NAME    EXT");
    rec[11] = 0x01;
    rec[20] = 0x01;
    rec[26] = 0x02;
    rec[28..32].copy_from_slice(&1234u32.to_le_bytes());
    let e = DirEntry::parse(&rec).unwrap();
    assert_eq!(e.name, "NAME.EXT");
    assert_eq!(e.first_cluster, 0x0001_0002);
    assert_eq!(e.size, 1234);
    assert!(e.attrs.read_only && e.is_file());
    let mut deleted = rec;
    deleted[0] = 0xE5;
    assert!(DirEntry::parse(&deleted).is_none());
    let mut free = rec;
    free[0] = 0;
    assert!(DirEntry::parse(&free).is_none());
    let mut label = rec;
    label[11] = 0x08;
    assert!(DirEntry::parse(&label).is_none());
    assert!(DirEntry::parse(&rec[..31]).is_none());
}

#[test]
fn attributes_from_byte() {
    let a = Attributes::from_byte(0x3F);
    assert!(a.read_only && a.hidden && a.system && a.volume_id && a.directory && a.archive);
    let b = Attributes::from_byte(0x10);
    assert!(b.directory && !b.archive && !b.read_only && !b.volume_id);
}

#[test]
fn listing_paths() {
    let mut disk = blank_image(16, 1);
    write(&mut disk, "/ONE", b"1").unwrap();
    let fs = Fat32::new(&disk).unwrap();
    assert_eq!(fs.list_dir_path("/").unwrap().len(), 1);
    assert_eq!(fs.list_dir_path("/NOPE").unwrap_err(), FatError::PathNotFound);
    assert_eq!(fs.list_dir_path("ONE").unwrap_err(), FatError::Other);
}
