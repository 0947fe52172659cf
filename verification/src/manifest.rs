//! The manifest: the catalog that names the live tables, newest first, and
//! the sequence number last handed out.
use vstd::prelude::*;
use vstd::string::StringExecFns;
use crate::error::StoreError;
use crate::sstable_set::SSTableSet;

verus! {

/// The version that this engine writes into a manifest, and the only one
/// that it reads.
pub const VERSION: &'static str = "0.1.0";

/// The catalog of a data directory.
#[derive(Debug)]
pub struct Manifest {
    pub version: String,
    pub last_sequence: usize,
    pub sstables: Vec<SSTableEntry>,
}

/// The two files of one table.
#[derive(Debug)]
pub struct SSTableEntry {
    pub data_path: String,
    pub index_path: String,
}

/// What was found where the manifest should be.
#[derive(Debug)]
pub enum ManifestFile {
    /// There is no manifest.
    Missing,
    /// There is one, and it cannot be read as a manifest.
    Unreadable,
    /// There is one, with this content.
    Found(Manifest),
}

impl Manifest {
    /// Whether the manifest names the tables of `set`, in their order, and
    /// holds its sequence number and this engine's version.
    pub open spec fn describes(&self, set: &SSTableSet) -> bool {
        &&& self.version@ == VERSION@
        &&& self.last_sequence == set.last_sequence
        &&& self.sstables@.len() == set.tables@.len()
        &&& forall|i: int|
            0 <= i < self.sstables@.len() ==> (#[trigger] self.sstables@[i]).data_path@
                == set.tables@[i].data_path@ && self.sstables@[i].index_path@
                == set.tables@[i].index_path@
    }

    /// The manifest of a set of tables.
    pub fn new(sstable_set: &SSTableSet) -> (m: Manifest)
        ensures
            m.describes(sstable_set),
    {
        let mut sstables: Vec<SSTableEntry> = Vec::new();
        let mut i: usize = 0;
        while i < sstable_set.tables.len()
            invariant
                i <= sstable_set.tables@.len(),
                sstables@.len() == i,
                forall|j: int|
                    0 <= j < i ==> (#[trigger] sstables@[j]).data_path@
                        == sstable_set.tables@[j].data_path@ && sstables@[j].index_path@
                        == sstable_set.tables@[j].index_path@,
            decreases sstable_set.tables@.len() - i,
        {
            let table = &sstable_set.tables[i];
            sstables.push(
                SSTableEntry {
                    data_path: table.data_path.clone(),
                    index_path: table.index_path.clone(),
                },
            );
            i = i + 1;
        }
        Manifest {
            version: String::from_str(VERSION),
            sstables,
            last_sequence: sstable_set.last_sequence,
        }
    }

    /// The manifest of a directory without tables.
    pub fn empty() -> (m: Manifest)
        ensures
            m.version@ == VERSION@,
            m.last_sequence == 0,
            m.sstables@.len() == 0,
    {
        Manifest { version: String::from_str(VERSION), sstables: Vec::new(), last_sequence: 0 }
    }
}

/// Decides what the manifest of a directory is, from what was found there.
/// One that was found is taken as it is. Where none was found, an empty one
/// is made if `create_if_missing` allows it, and the flag in the result tells
/// that it still has to be written; if not, the directory is refused with
/// `NotFound`. One that cannot be read is refused with `CorruptManifest`.
pub fn get_or_create_manifest(found: ManifestFile, create_if_missing: bool) -> (r: Result<
    (Manifest, bool),
    StoreError,
>)
    ensures
        match found {
            ManifestFile::Found(m) => r is Ok && r->Ok_0.0 == m && !r->Ok_0.1,
            ManifestFile::Unreadable => r == Err::<(Manifest, bool), StoreError>(
                StoreError::CorruptManifest,
            ),
            ManifestFile::Missing => if create_if_missing {
                &&& r is Ok
                &&& r->Ok_0.1
                &&& r->Ok_0.0.version@ == VERSION@
                &&& r->Ok_0.0.last_sequence == 0
                &&& r->Ok_0.0.sstables@.len() == 0
            } else {
                r == Err::<(Manifest, bool), StoreError>(StoreError::NotFound)
            },
        },
{
    match found {
        ManifestFile::Found(m) => Ok((m, false)),
        ManifestFile::Unreadable => Err(StoreError::CorruptManifest),
        ManifestFile::Missing => {
            if create_if_missing {
                Ok((Manifest::empty(), true))
            } else {
                Err(StoreError::NotFound)
            }
        },
    }
}

} // verus!
