//! FAT16 layout arithmetic: where the file allocation tables, the root
//! directory and each cluster's sectors sit on the partition, computed
//! from the BIOS parameter block; and the raw directory entry fields.

use vstd::prelude::*;

verus! {

/// Bytes of one directory entry on disk.
pub const DIR_ENTRY_SIZE: usize = 32;

/// Bytes of one sector.
pub const SECTOR_SIZE: usize = 512;

/// A block-device failure while a sector moved.
#[derive(Clone, Copy, PartialEq, Eq, Structural, Debug)]
pub struct AtaError;

/// Why a volume cannot be opened.
#[derive(Clone, Copy, PartialEq, Eq, Structural, Debug)]
pub enum OpenError {
    MemoryExhausted,
    Ata(AtaError),
}

/// A failure while walking the allocation chain.
#[derive(Clone, Copy, PartialEq, Eq, Structural, Debug)]
pub enum FatError {
    Ata(AtaError),
}

/// A cluster's number; clusters are counted from two.
#[derive(Clone, Copy, PartialEq, Eq, Structural, Debug)]
pub struct ClusterNumber(pub usize);

/// The fields of the volume's BIOS parameter block the layout needs.
#[derive(Clone, Copy, PartialEq, Eq, Structural, Debug)]
pub struct BiosParameterBlock {
    pub bytes_per_sector: u16,
    pub sectors_per_cluster: u8,
    pub reserved_sector_count: u16,
    pub fat_count: u8,
    pub root_directory_entry_count: u16,
    pub total_sector_count: u16,
    pub media_descriptor_type: u8,
    pub sectors_per_fat: u16,
}

impl BiosParameterBlock {
    /// First sector of the first allocation table: right after the
    /// reserved area.
    pub fn first_fat_sector(&self) -> (r: usize)
        ensures
            r == self.reserved_sector_count,
    {
        self.reserved_sector_count as usize
    }

    /// Sectors of one allocation table.
    pub fn fat_sector_count(&self) -> (r: usize)
        ensures
            r == self.sectors_per_fat,
    {
        self.sectors_per_fat as usize
    }

    /// Sectors of all allocation table copies together.
    pub fn all_fats_sector_count(&self) -> (r: usize)
        ensures
            r == self.fat_count * self.sectors_per_fat,
    {
        proof {
            assert((self.fat_count as int) * (self.sectors_per_fat as int)
                < 0x1_0000_0000) by (nonlinear_arith)
                requires
                    self.fat_count <= 0xff,
                    self.sectors_per_fat <= 0xffff,
            {}
        }
        self.fat_count as usize * (self.sectors_per_fat as usize)
    }

    /// First sector of the root directory: after the reserved area and
    /// every allocation table copy.
    pub fn first_root_dir_sector(&self) -> (r: usize)
        ensures
            r == self.reserved_sector_count + self.fat_count * self.sectors_per_fat,
    {
        proof {
            assert((self.fat_count as int) * (self.sectors_per_fat as int)
                <= 0xff * 0xffff) by (nonlinear_arith)
                requires
                    self.fat_count <= 0xff,
                    self.sectors_per_fat <= 0xffff,
            {}
        }
        self.first_fat_sector() + self.all_fats_sector_count()
    }

    /// Sectors the root directory occupies.
    pub fn root_dir_sector_count(&self) -> (r: usize)
        ensures
            r == (self.root_directory_entry_count * 32) as int / 512,
    {
        proof {
            assert((self.root_directory_entry_count as int) * 32
                < 0x1_0000_0000) by (nonlinear_arith)
                requires
                    self.root_directory_entry_count <= 0xffff,
            {}
        }
        (self.root_directory_entry_count as usize * DIR_ENTRY_SIZE) / SECTOR_SIZE
    }

    /// Sectors each cluster occupies.
    pub fn sectors_per_cluster(&self) -> (r: usize)
        ensures
            r == self.sectors_per_cluster,
    {
        self.sectors_per_cluster as usize
    }

    /// First sector of the given cluster; clusters start after the
    /// root directory and are counted from two.
    pub fn first_cluster_sector(&self, cluster_number: ClusterNumber) -> (r: usize)
        requires
            2 <= cluster_number.0 <= 0xffff,
        ensures
            r as int == self.reserved_sector_count
                + self.fat_count * self.sectors_per_fat
                + (self.root_directory_entry_count * 32) as int / 512
                + (cluster_number.0 - 2) * self.sectors_per_cluster,
    {
        proof {
            assert((self.fat_count as int) * (self.sectors_per_fat as int)
                <= 0xff * 0xffff) by (nonlinear_arith)
                requires
                    self.fat_count <= 0xff,
                    self.sectors_per_fat <= 0xffff,
            {}
            assert((self.root_directory_entry_count as int) * 32int / 512
                <= 0xffff * 32) by (nonlinear_arith)
                requires
                    self.root_directory_entry_count <= 0xffff,
            {}
        }
        let clusters_base = self.first_root_dir_sector() + self.root_dir_sector_count();
        let cluster_index = cluster_number.0 - 2;
        proof {
            assert((cluster_index as int) * (self.sectors_per_cluster as int)
                <= 0xffff * 0xff) by (nonlinear_arith)
                requires
                    cluster_index <= 0xffff,
                    self.sectors_per_cluster <= 0xff,
            {}
        }
        clusters_base + cluster_index * self.sectors_per_cluster()
    }

    /// The sectors of the given cluster, in order.
    pub fn cluster_sectors(&self, cluster_number: ClusterNumber) -> (r: Vec<usize>)
        requires
            2 <= cluster_number.0 <= 0xffff,
        ensures
            r@.len() == self.sectors_per_cluster,
            forall|i: int| 0 <= i < r@.len()
                ==> r@[i] == self.reserved_sector_count
                    + self.fat_count * self.sectors_per_fat
                    + (self.root_directory_entry_count * 32) as int / 512
                    + (cluster_number.0 - 2) * self.sectors_per_cluster + i,
    {
        proof {
            assert((self.fat_count as int) * (self.sectors_per_fat as int)
                <= 0xff * 0xffff) by (nonlinear_arith)
                requires
                    self.fat_count <= 0xff,
                    self.sectors_per_fat <= 0xffff,
            {}
            assert((self.root_directory_entry_count as int) * 32int / 512
                <= 0xffff * 32) by (nonlinear_arith)
                requires
                    self.root_directory_entry_count <= 0xffff,
            {}
            assert(((cluster_number.0 - 2) as int)
                * (self.sectors_per_cluster as int)
                <= 0xffff * 0xff) by (nonlinear_arith)
                requires
                    cluster_number.0 - 2 <= 0xffff,
                    self.sectors_per_cluster <= 0xff,
            {}
        }
        let first = self.first_cluster_sector(cluster_number);
        let count = self.sectors_per_cluster();
        let mut out: Vec<usize> = Vec::new();
        let mut i: usize = 0;
        while i < count
            invariant
                i <= count,
                count == self.sectors_per_cluster,
                first + count < usize::MAX,
                out@.len() == i,
                forall|j: int| 0 <= j < i ==> out@[j] == first + j,
            decreases count - i,
        {
            out.push(first + i);
            i += 1;
        }
        out
    }
}

/// The attribute bits of a directory entry.
#[derive(Clone, Copy, PartialEq, Eq, Structural, Debug)]
pub struct Attributes {
    pub bits: u8,
}

/// A directory entry as it sits on disk.
#[derive(Clone, Copy, Debug)]
pub struct RawDirEntry {
    pub basename: [u8; 8],
    pub extension: [u8; 3],
    pub attributes: u8,
    pub cluster_hi: u16,
    pub cluster_lo: u16,
    pub size: u32,
}

impl RawDirEntry {
    /// The entry's attribute bits.
    pub fn attributes(&self) -> (r: Attributes)
        ensures
            r.bits == self.attributes,
    {
        Attributes { bits: self.attributes }
    }

    /// The first cluster of the entry's data, split across two fields
    /// on disk.
    pub fn first_cluster(&self) -> (r: ClusterNumber)
        ensures
            r.0 == self.cluster_lo + self.cluster_hi * 0x10000,
    {
        let cluster_lo = self.cluster_lo as usize;
        let cluster_hi = self.cluster_hi as usize;
        proof {
            let hi = cluster_hi;
            let lo = cluster_lo;
            assert((hi <= 0xffff && lo <= 0xffff) ==> ((hi << 16usize) == hi * 0x10000
                && (lo | (hi << 16usize)) == lo + hi * 0x10000
                && lo + hi * 0x10000 <= 0xffffffffusize)) by (bit_vector);
        }
        ClusterNumber(cluster_lo | (cluster_hi << 16))
    }
}

/// A directory: the root, which sits in its own area, or a chain of
/// clusters.
#[derive(Clone, Copy, PartialEq, Eq, Structural, Debug)]
pub struct Directory {
    pub cluster: Option<ClusterNumber>,
}

/// A file's place and extent on the volume.
#[derive(Clone, Copy, PartialEq, Eq, Structural, Debug)]
pub struct File {
    pub first_cluster: ClusterNumber,
    pub size: u32,
}

/// One name of a directory, by kind.
#[derive(Clone, Copy, PartialEq, Eq, Structural, Debug)]
pub enum DirectoryEntry {
    Dir(Directory),
    File(File),
}

/// A sequential read position inside a file.
#[derive(Clone, Copy, PartialEq, Eq, Structural, Debug)]
pub struct FileCursor {
    pub file: File,
    pub offset: u32,
}

impl File {
    /// A cursor at the start of the file.
    pub fn open(&self) -> (r: FileCursor)
        ensures
            r.file == *self,
            r.offset == 0,
    {
        FileCursor { file: *self, offset: 0 }
    }
}

} // verus!
