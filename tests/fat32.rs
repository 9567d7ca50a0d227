use fat32_slab::{Fat32, Fat32Mut, FatError};

const EOC: u32 = 0x0FFF_FFFF;

/// A 10-sector volume: boot sector, one FAT sector, root directory in
/// cluster 2 holding HELLO.TXT (cluster 3, "HELLO") and DIR (cluster 4).
fn build_test_image() -> [u8; 5120] {
    const SECTOR_SIZE: usize = 512;
    let mut disk = [0u8; 5120];
    {
        let b = &mut disk[0..SECTOR_SIZE];
        b[11] = 0x00;
        b[12] = 0x02;
        b[13] = 0x01;
        b[14] = 0x01;
        b[15] = 0x00;
        b[16] = 0x01;
        b[36] = 0x01;
        b[37] = 0x00;
        b[38] = 0x00;
        b[39] = 0x00;
        b[44] = 0x02;
        b[45] = 0x00;
        b[46] = 0x00;
        b[47] = 0x00;
    }
    {
        let fat = &mut disk[SECTOR_SIZE..2 * SECTOR_SIZE];
        let eoc_bytes = EOC.to_le_bytes();
        fat[8..12].copy_from_slice(&eoc_bytes);
        fat[12..16].copy_from_slice(&eoc_bytes);
        fat[16..20].copy_from_slice(&eoc_bytes);
    }
    {
        let root_off = 2 * SECTOR_SIZE;
        let dir = &mut disk[root_off..root_off + SECTOR_SIZE];
        let mut hello = [0u8; 32];
        hello[0..8].copy_from_slice(b"HELLO   ");
        hello[8..11].copy_from_slice(b"TXT");
        hello[11] = 0x20;
        hello[26] = 0x03;
        hello[27] = 0x00;
        hello[28] = 5;
        dir[0..32].copy_from_slice(&hello);
        let mut subdir = [0u8; 32];
        subdir[0..8].copy_from_slice(b"DIR     ");
        subdir[8..11].copy_from_slice(b"   ");
        subdir[11] = 0x10;
        subdir[26] = 0x04;
        subdir[27] = 0x00;
        dir[32..64].copy_from_slice(&subdir);
        dir[64] = 0x00;
    }
    {
        let off = 3 * SECTOR_SIZE;
        disk[off..off + 5].copy_from_slice(b"HELLO");
    }
    {
        let off = 4 * SECTOR_SIZE;
        disk[off] = 0x00;
    }
    disk
}

fn fat_entry_raw(disk: &[u8], cluster: u32) -> u32 {
    let fat_start = 512usize;
    let off = fat_start + cluster as usize * 4;
    let bytes = &disk[off..off + 4];
    let v = u32::from_le_bytes([bytes[0], bytes[1], bytes[2], bytes[3]]);
    v & 0x0FFF_FFFF
}

#[test]
fn new_on_too_small_buffer_fails() {
    let tiny = [0u8; 128];
    let err = Fat32::new(&tiny).unwrap_err();
    assert_eq!(err, FatError::BufferTooSmall);
}

#[test]
fn list_root_and_read_file() {
    let disk = build_test_image();
    let fs = Fat32::new(&disk).expect("Fat32::new failed");

    let root = fs.list_root().expect("list_root failed");
    assert_eq!(root.len(), 2);

    let hello = root.iter().find(|e| e.name == "HELLO.TXT").expect("HELLO.TXT missing");
    let dir = root.iter().find(|e| e.name == "DIR").expect("DIR missing");

    assert!(hello.is_file());
    assert!(dir.is_dir());

    let content = fs.read_file_by_path("/HELLO.TXT").unwrap().unwrap();
    assert_eq!(content, b"HELLO");
}

#[test]
fn list_dir_on_file_returns_not_a_directory() {
    let disk = build_test_image();
    let fs = Fat32::new(&disk).unwrap();

    let err = fs.list_dir_path("/HELLO.TXT").unwrap_err();
    assert_eq!(err, FatError::NotADirectory);
}

#[test]
fn read_file_on_directory_via_open_path_returns_not_a_file() {
    let disk = build_test_image();
    let fs = Fat32::new(&disk).unwrap();

    let entry = fs.open_path("/DIR").unwrap().unwrap();
    assert!(entry.is_dir());

    let err = fs.read_file(&entry).unwrap_err();
    assert_eq!(err, FatError::NotAFile);
}

#[test]
fn open_path_is_case_insensitive_for_short_names() {
    let disk = build_test_image();
    let fs = Fat32::new(&disk).unwrap();

    let entry = fs.open_path("/hello.txt").unwrap().unwrap();
    assert_eq!(entry.name, "HELLO.TXT");
    assert!(entry.is_file());
}

#[test]
fn write_create_new_file_and_read_back() {
    let mut disk = build_test_image();

    {
        let mut rw = Fat32Mut::new(&mut disk).unwrap();
        rw.write_file_by_path("/NEW.TXT", b"ABC").unwrap();
    }

    let ro = Fat32::new(&disk).unwrap();
    let content = ro.read_file_by_path("/NEW.TXT").unwrap().unwrap();
    assert_eq!(content, b"ABC");
}

#[test]
fn write_overwrite_existing_file() {
    let mut disk = build_test_image();

    {
        let mut rw = Fat32Mut::new(&mut disk).unwrap();
        rw.write_file_by_path("/HELLO.TXT", b"HELLO WORLD").unwrap();
    }

    let ro = Fat32::new(&disk).unwrap();
    let content = ro.read_file_by_path("/HELLO.TXT").unwrap().unwrap();
    assert_eq!(content, b"HELLO WORLD");
}

#[test]
fn write_rejects_invalid_8_3_name() {
    let mut disk = build_test_image();

    let res = {
        let mut rw = Fat32Mut::new(&mut disk).unwrap();
        rw.write_file_by_path("/TOO_LONG_NAME.TXT", b"x")
    };

    assert_eq!(res.unwrap_err(), FatError::InvalidName);
}

#[test]
fn write_fails_when_parent_directory_missing() {
    let mut disk = build_test_image();

    let res = {
        let mut rw = Fat32Mut::new(&mut disk).unwrap();
        rw.write_file_by_path("/NOPE/FILE.TXT", b"x")
    };

    assert_eq!(res.unwrap_err(), FatError::PathNotFound);
}

#[test]
fn overwrite_frees_old_clusters_in_fat() {
    let mut disk = build_test_image();

    let big = vec![0x41u8; 600];

    let (first_cluster, second_cluster) = {
        let mut rw = Fat32Mut::new(&mut disk).unwrap();
        rw.write_file_by_path("/BIG.TXT", &big).unwrap();

        let ro = rw.as_read();
        let e = ro.open_path("/BIG.TXT").unwrap().unwrap();
        assert_eq!(e.size as usize, big.len());
        assert!(e.first_cluster >= 2);

        let c1 = e.first_cluster;
        let c2 = fat_entry_raw(&disk, c1);
        assert!(c2 >= 2, "BIG.TXT should chain to a second cluster");
        assert!(fat_entry_raw(&disk, c2) >= 0x0FFF_FFF8, "the second cluster should end the chain");

        (c1, c2)
    };

    {
        let mut rw = Fat32Mut::new(&mut disk).unwrap();
        rw.write_file_by_path("/BIG.TXT", b"").unwrap();
    }

    assert_eq!(fat_entry_raw(&disk, first_cluster), 0);
    assert_eq!(fat_entry_raw(&disk, second_cluster), 0);

    let ro = Fat32::new(&disk).unwrap();
    let e = ro.open_path("/BIG.TXT").unwrap().unwrap();
    assert_eq!(e.size, 0);
    assert_eq!(e.first_cluster, 0);
}
