use crabos::fs::fat16::{BiosParameterBlock, ClusterNumber, RawDirEntry};

fn bpb() -> BiosParameterBlock {
    BiosParameterBlock {
        bytes_per_sector: 512,
        sectors_per_cluster: 4,
        reserved_sector_count: 4,
        fat_count: 2,
        root_directory_entry_count: 512,
        total_sector_count: 0,
        media_descriptor_type: 0xf8,
        sectors_per_fat: 64,
    }
}

#[test]
fn layout_arithmetic() {
    let b = bpb();
    assert_eq!(b.first_fat_sector(), 4);
    assert_eq!(b.fat_sector_count(), 64);
    assert_eq!(b.all_fats_sector_count(), 128);
    assert_eq!(b.first_root_dir_sector(), 132);
    assert_eq!(b.root_dir_sector_count(), 32);
    assert_eq!(b.sectors_per_cluster(), 4);
    // clusters are two-indexed
    assert_eq!(b.first_cluster_sector(ClusterNumber(2)), 164);
    assert_eq!(b.first_cluster_sector(ClusterNumber(3)), 168);
    assert_eq!(b.cluster_sectors(ClusterNumber(2)), vec![164, 165, 166, 167]);
}

#[test]
fn dir_entries_decode() {
    let e = RawDirEntry {
        basename: *b"INIT    ",
        extension: *b"BIN",
        attributes: 0x20,
        cluster_hi: 0x0001,
        cluster_lo: 0x0002,
        size: 128,
    };
    assert_eq!(e.attributes().bits, 0x20);
    assert_eq!(e.first_cluster().0, 0x10002);
    let f = crabos::fs::fat16::File { first_cluster: e.first_cluster(), size: e.size };
    let cursor = f.open();
    assert_eq!(cursor.offset, 0);
    assert_eq!(cursor.file.size, 128);
}
