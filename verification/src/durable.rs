//! The durable file layer, proved over an explicit directory state: the
//! atomic-replace write protocol (backup the old generation, write a
//! sibling temporary, rename over the target) and the recovering read
//! (detect truncated or null-filled files, fall back to the backup,
//! self-heal the primary). The caller performs the same steps on the real
//! file system; every decision the protocol makes lives here.

use vstd::prelude::*;

use crate::entities::FolderModel;
use crate::entities::WorldModel;
use crate::entities::WorldV;
use crate::entities::FolderV;
use crate::errors::FileError;
use crate::kv::keys_unique;
use crate::kv::spec_lookup;

verus! {

/// A directory: file names to contents.
pub struct Disk {
    pub files: Vec<(String, String)>,
}

/// What a file reads as, by name.
pub open spec fn disk_content(files: Seq<(String, String)>, path: Seq<char>) -> Option<Seq<char>> {
    match spec_lookup(files, path) {
        Some(c) => Some(c@),
        None => None,
    }
}

impl Disk {
    /// File names stay unique.
    pub open spec fn wf(&self) -> bool {
        keys_unique(self.files@)
    }

    /// An empty directory.
    pub fn new() -> (r: Disk)
        ensures
            r.wf(),
            r.files@.len() == 0,
    {
        Disk { files: Vec::new() }
    }

    /// The content of a file, if it exists.
    pub fn read(&self, path: &String) -> (r: Option<String>)
        requires
            self.wf(),
        ensures
            (match r {
                Some(c) => disk_content(self.files@, path@) == Some(c@),
                None => disk_content(self.files@, path@) is None,
            }),
    {
        match crate::kv::find_key(&self.files, path) {
            Some(i) => Some(self.files[i].1.clone()),
            None => None,
        }
    }

    /// Whether a file is present.
    pub fn has_file(&self, path: &String) -> (r: bool)
        requires
            self.wf(),
        ensures
            r == (disk_content(self.files@, path@) is Some),
    {
        crate::kv::find_key(&self.files, path).is_some()
    }

    /// Creates or replaces a file.
    pub fn write(&mut self, path: &String, content: String)
        requires
            old(self).wf(),
        ensures
            final(self).wf(),
            disk_content(final(self).files@, path@) == Some(content@),
            forall|p: Seq<char>|
                p != path@ ==> disk_content(final(self).files@, p) == disk_content(
                    old(self).files@,
                    p,
                ),
    {
        crate::kv::insert_value(&mut self.files, path.clone(), content);
        proof {
            assert forall|p: Seq<char>|
                p != path@ implies disk_content(self.files@, p) == disk_content(
                old(self).files@,
                p,
            ) by {}
        }
    }

    /// Removes a file if it exists.
    pub fn remove(&mut self, path: &String)
        requires
            old(self).wf(),
        ensures
            final(self).wf(),
            disk_content(final(self).files@, path@) is None,
            forall|p: Seq<char>|
                p != path@ ==> disk_content(final(self).files@, p) == disk_content(
                    old(self).files@,
                    p,
                ),
    {
        crate::kv::remove_key(&mut self.files, path);
        proof {
            assert forall|p: Seq<char>|
                p != path@ implies disk_content(self.files@, p) == disk_content(
                old(self).files@,
                p,
            ) by {}
        }
    }
}

/// The file layer's operations: path derivation, the corruption
/// heuristic, and the write and read protocols over a directory state.
pub struct FileService;

/// Whether file content looks corrupted: empty, or nothing but null
/// bytes in its leading stretch (the first kibibyte), the signature of a
/// write torn by an abrupt process end.
pub open spec fn spec_corrupted(data: Seq<char>) -> bool {
    data.len() == 0 || (forall|k: int|
        0 <= k < data.len() && k < 1024 ==> #[trigger] data[k] == '\u{0}')
}

/// Whether the primary file cannot serve a read: missing, corrupted-
/// looking, or not the encoding of any folder collection.
pub open spec fn primary_unusable(files: Seq<(String, String)>, path: Seq<char>) -> bool {
    match disk_content(files, path) {
        None => true,
        Some(c) => spec_corrupted(c) || !crate::codec::is_encoded(c),
    }
}

/// Whether the primary worlds file cannot serve a read: missing,
/// corrupted-looking, or not the encoding of any world collection.
pub open spec fn worlds_primary_unusable(files: Seq<(String, String)>, path: Seq<char>) -> bool {
    match disk_content(files, path) {
        None => true,
        Some(c) => spec_corrupted(c) || !crate::codec::is_encoded_worlds(c),
    }
}

/// The backup sibling of a path.
pub open spec fn spec_backup_path(path: Seq<char>) -> Seq<char> {
    path + ".bak"@
}

/// The temporary sibling a write goes through.
pub open spec fn spec_temp_path(path: Seq<char>) -> Seq<char> {
    path + ".tmp"@
}

/// A path never reads as its own backup or temporary sibling, and the
/// two siblings differ.
pub proof fn lemma_sibling_paths_distinct(path: Seq<char>)
    ensures
        spec_backup_path(path) != path,
        spec_temp_path(path) != path,
        spec_backup_path(path) != spec_temp_path(path),
{
    reveal_strlit(".bak");
    reveal_strlit(".tmp");
    assert(spec_backup_path(path).len() == path.len() + 4);
    assert(spec_temp_path(path).len() == path.len() + 4);
    assert(spec_backup_path(path)[path.len() as int + 1] == 'b');
    assert(spec_temp_path(path)[path.len() as int + 1] == 't');
}

impl FileService {
    /// The backup sibling of a path: the path with `.bak` appended.
    pub fn get_backup_path(path: &String) -> (r: String)
        ensures
            r@ == spec_backup_path(path@),
    {
        path.clone().concat(".bak")
    }

    /// The temporary sibling of a path: the path with `.tmp` appended.
    pub fn get_temp_path(path: &String) -> (r: String)
        ensures
            r@ == spec_temp_path(path@),
    {
        path.clone().concat(".tmp")
    }

    /// Whether file content looks corrupted; see [`spec_corrupted`].
    pub fn is_file_corrupted_with_null_bytes(data: &str) -> (r: bool)
        ensures
            r == spec_corrupted(data@),
    {
        let n = data.unicode_len();
        if n == 0 {
            return true;
        }
        let check_len: usize = if n < 1024 {
            n
        } else {
            1024
        };
        let mut k: usize = 0;
        while k < check_len
            invariant
                n == data@.len(),
                check_len <= n,
                check_len <= 1024,
                n < 1024 ==> check_len == n,
                n >= 1024 ==> check_len == 1024,
                0 <= k <= check_len,
                forall|a: int| 0 <= a < k ==> #[trigger] data@[a] == '\u{0}',
            decreases check_len - k,
        {
            if data.get_char(k) != '\u{0}' {
                return false;
            }
            k = k + 1;
        }
        true
    }

    /// The first half of the write protocol: back up the current
    /// generation (where one exists) and stage the new content in the
    /// temporary sibling. The target itself is untouched — a crash at
    /// this point loses nothing but the write in flight.
    pub fn atomic_write_prepare(disk: &mut Disk, path: &String, data: &String)
        requires
            old(disk).wf(),
        ensures
            final(disk).wf(),
            disk_content(final(disk).files@, path@) == disk_content(old(disk).files@, path@),
            disk_content(final(disk).files@, spec_temp_path(path@)) == Some(data@),
            disk_content(final(disk).files@, spec_backup_path(path@)) == (
            if disk_content(old(disk).files@, path@) is Some {
                disk_content(old(disk).files@, path@)
            } else {
                disk_content(old(disk).files@, spec_backup_path(path@))
            }),
            forall|p: Seq<char>|
                p != path@ && p != spec_backup_path(path@) && p != spec_temp_path(path@)
                    ==> disk_content(final(disk).files@, p) == disk_content(old(disk).files@, p),
    {
        proof {
            lemma_sibling_paths_distinct(path@);
        }
        let current = disk.read(path);
        match current {
            Some(content) => {
                let backup = Self::get_backup_path(path);
                disk.write(&backup, content);
            },
            None => {},
        }
        let temp = Self::get_temp_path(path);
        disk.write(&temp, data.clone());
    }

    /// The second half of the write protocol: rename the temporary
    /// sibling over the target. This is the only step that touches the
    /// target, and it replaces it whole.
    pub fn atomic_write_commit(disk: &mut Disk, path: &String)
        requires
            old(disk).wf(),
            disk_content(old(disk).files@, spec_temp_path(path@)) is Some,
        ensures
            final(disk).wf(),
            disk_content(final(disk).files@, path@) == disk_content(
                old(disk).files@,
                spec_temp_path(path@),
            ),
            disk_content(final(disk).files@, spec_temp_path(path@)) is None,
            forall|p: Seq<char>|
                p != path@ && p != spec_temp_path(path@) ==> disk_content(final(disk).files@, p)
                    == disk_content(old(disk).files@, p),
    {
        proof {
            lemma_sibling_paths_distinct(path@);
        }
        let temp = Self::get_temp_path(path);
        let staged = disk.read(&temp);
        match staged {
            Some(content) => {
                disk.remove(&temp);
                disk.write(path, content);
            },
            None => {},
        }
    }

    /// Writes content atomically: back up the old generation, stage the
    /// new content beside the target, rename it over the target. After
    /// the call the target holds exactly the new content and the backup
    /// the generation it replaced.
    pub fn atomic_write(disk: &mut Disk, path: &String, data: &String)
        requires
            old(disk).wf(),
        ensures
            final(disk).wf(),
            disk_content(final(disk).files@, path@) == Some(data@),
            disk_content(final(disk).files@, spec_backup_path(path@)) == (
            if disk_content(old(disk).files@, path@) is Some {
                disk_content(old(disk).files@, path@)
            } else {
                disk_content(old(disk).files@, spec_backup_path(path@))
            }),
            forall|p: Seq<char>|
                p != path@ && p != spec_backup_path(path@) && p != spec_temp_path(path@)
                    ==> disk_content(final(disk).files@, p) == disk_content(old(disk).files@, p),
    {
        proof {
            lemma_sibling_paths_distinct(path@);
        }
        Self::atomic_write_prepare(disk, path, data);
        Self::atomic_write_commit(disk, path);
    }

    /// Encodes and atomically writes the folder collection to its file.
    pub fn write_folders(disk: &mut Disk, path: &String, folders: &Vec<FolderModel>) -> (r: Result<
        (),
        FileError,
    >)
        requires
            old(disk).wf(),
        ensures
            final(disk).wf(),
            r is Ok,
            disk_content(final(disk).files@, path@) == Some(
                crate::codec::enc_folders(crate::store::fviews(folders@)),
            ),
            disk_content(final(disk).files@, spec_backup_path(path@)) == (
            if disk_content(old(disk).files@, path@) is Some {
                disk_content(old(disk).files@, path@)
            } else {
                disk_content(old(disk).files@, spec_backup_path(path@))
            }),
            forall|p: Seq<char>|
                p != path@ && p != spec_backup_path(path@) && p != spec_temp_path(path@)
                    ==> disk_content(final(disk).files@, p) == disk_content(old(disk).files@, p),
    {
        let data = crate::codec::encode_folders(folders);
        Self::atomic_write(disk, path, &data);
        Ok(())
    }

    /// Reads and decodes the folder collection, recovering from the
    /// backup sibling. The protocol: a readable, uncorrupted, parseable
    /// primary is returned as is; on any failure the backup is read,
    /// parsed, copied back over the primary (self-healing), and returned;
    /// only when that also fails does an error surface — a missing
    /// primary without backup as file-not-found, anything else as an
    /// invalid file.
    ///
    /// In particular, reading back what [`Self::write_folders`] wrote
    /// yields the written collection (an encoded collection never looks
    /// corrupted, see [`lemma_encoded_not_corrupted`]), and a primary struck
    /// by corruption still yields the collection the backup holds. Nothing
    /// but the primary is ever touched: the backup in particular is left
    /// intact.
    pub fn read_folders(disk: &mut Disk, path: &String) -> (r: Result<Vec<FolderModel>, FileError>)
        requires
            old(disk).wf(),
        ensures
            final(disk).wf(),
            forall|fs: Seq<FolderV>|
                crate::codec::folders_sizes_ok(fs) && disk_content(old(disk).files@, path@) == Some(
                    #[trigger] crate::codec::enc_folders(fs),
                ) && !spec_corrupted(crate::codec::enc_folders(fs)) ==> (r matches Ok(out)
                    && crate::store::fviews(out@) == fs && final(disk).files@ == old(disk).files@),
            forall|fs: Seq<FolderV>|
                primary_unusable(old(disk).files@, path@) && crate::codec::folders_sizes_ok(fs)
                    && disk_content(old(disk).files@, spec_backup_path(path@)) == Some(
                    #[trigger] crate::codec::enc_folders(fs),
                ) ==> (r matches Ok(out) && crate::store::fviews(out@) == fs && disk_content(
                    final(disk).files@,
                    path@,
                ) == Some(crate::codec::enc_folders(fs))),
            disk_content(old(disk).files@, path@) is None && disk_content(
                old(disk).files@,
                spec_backup_path(path@),
            ) is None ==> r == Err::<Vec<FolderModel>, FileError>(FileError::FileNotFound),
            (disk_content(old(disk).files@, path@) matches Some(c) && (spec_corrupted(c)
                || !crate::codec::is_encoded(c))) && disk_content(
                old(disk).files@,
                spec_backup_path(path@),
            ) is None ==> r == Err::<Vec<FolderModel>, FileError>(FileError::InvalidFile),
            primary_unusable(old(disk).files@, path@) && (disk_content(
                old(disk).files@,
                spec_backup_path(path@),
            ) matches Some(cb) && !crate::codec::is_encoded(cb)) ==> r == Err::<
                Vec<FolderModel>,
                FileError,
            >(FileError::InvalidFile),
            forall|p: Seq<char>|
                p != path@ ==> disk_content(final(disk).files@, p) == disk_content(
                    old(disk).files@,
                    p,
                ),
            r is Err ==> final(disk).files@ == old(disk).files@,
    {
        let primary = disk.read(path);
        let primary_usable: Option<Vec<FolderModel>> = match &primary {
            Some(content) => {
                if Self::is_file_corrupted_with_null_bytes(content.as_str()) {
                    None
                } else {
                    crate::codec::decode_folders(content.as_str())
                }
            },
            None => None,
        };
        match primary_usable {
            Some(folders) => Ok(folders),
            None => {
                let backup_path = Self::get_backup_path(path);
                let backup = disk.read(&backup_path);
                match backup {
                    Some(content) => {
                        match crate::codec::decode_folders(content.as_str()) {
                            Some(folders) => {
                                // Self-heal: copy the good backup over the
                                // primary.
                                disk.write(path, content);
                                proof {
                                    lemma_sibling_paths_distinct(path@);
                                }
                                Ok(folders)
                            },
                            None => Err(FileError::InvalidFile),
                        }
                    },
                    None => {
                        if primary.is_some() {
                            Err(FileError::InvalidFile)
                        } else {
                            Err(FileError::FileNotFound)
                        }
                    },
                }
            },
        }
    }

    /// Encodes and atomically writes the world collection to its file.
    pub fn write_worlds(disk: &mut Disk, path: &String, worlds: &Vec<WorldModel>) -> (r: Result<
        (),
        FileError,
    >)
        requires
            old(disk).wf(),
        ensures
            final(disk).wf(),
            r is Ok,
            disk_content(final(disk).files@, path@) == Some(
                crate::codec::enc_worlds(crate::store::wviews(worlds@)),
            ),
            disk_content(final(disk).files@, spec_backup_path(path@)) == (
            if disk_content(old(disk).files@, path@) is Some {
                disk_content(old(disk).files@, path@)
            } else {
                disk_content(old(disk).files@, spec_backup_path(path@))
            }),
            forall|p: Seq<char>|
                p != path@ && p != spec_backup_path(path@) && p != spec_temp_path(path@)
                    ==> disk_content(final(disk).files@, p) == disk_content(old(disk).files@, p),
    {
        let data = crate::codec::encode_worlds(worlds);
        FileService::atomic_write(disk, path, &data);
        Ok(())
    }

    /// Reads and decodes the world collection, recovering from the backup
    /// sibling by the same protocol as [`FileService::read_folders`]: an
    /// uncorrupted encoded primary is returned as is; on any failure the
    /// backup is read, parsed, copied back over the primary and returned;
    /// otherwise a missing primary without backup surfaces as file-not-found
    /// and anything else as an invalid file. Nothing but the primary is ever
    /// touched.
    pub fn read_worlds(disk: &mut Disk, path: &String) -> (r: Result<Vec<WorldModel>, FileError>)
        requires
            old(disk).wf(),
        ensures
            final(disk).wf(),
            forall|ws: Seq<WorldV>|
                crate::codec::worlds_sizes_ok(ws) && disk_content(old(disk).files@, path@) == Some(
                    #[trigger] crate::codec::enc_worlds(ws),
                ) && !spec_corrupted(crate::codec::enc_worlds(ws)) ==> (r matches Ok(out)
                    && crate::store::wviews(out@) == ws && final(disk).files@ == old(disk).files@),
            forall|ws: Seq<WorldV>|
                worlds_primary_unusable(old(disk).files@, path@) && crate::codec::worlds_sizes_ok(ws)
                    && disk_content(old(disk).files@, spec_backup_path(path@)) == Some(
                    #[trigger] crate::codec::enc_worlds(ws),
                ) ==> (r matches Ok(out) && crate::store::wviews(out@) == ws && disk_content(
                    final(disk).files@,
                    path@,
                ) == Some(crate::codec::enc_worlds(ws))),
            disk_content(old(disk).files@, path@) is None && disk_content(
                old(disk).files@,
                spec_backup_path(path@),
            ) is None ==> r == Err::<Vec<WorldModel>, FileError>(FileError::FileNotFound),
            (disk_content(old(disk).files@, path@) matches Some(c) && (spec_corrupted(c)
                || !crate::codec::is_encoded_worlds(c))) && disk_content(
                old(disk).files@,
                spec_backup_path(path@),
            ) is None ==> r == Err::<Vec<WorldModel>, FileError>(FileError::InvalidFile),
            worlds_primary_unusable(old(disk).files@, path@) && (disk_content(
                old(disk).files@,
                spec_backup_path(path@),
            ) matches Some(cb) && !crate::codec::is_encoded_worlds(cb)) ==> r == Err::<
                Vec<WorldModel>,
                FileError,
            >(FileError::InvalidFile),
            forall|p: Seq<char>|
                p != path@ ==> disk_content(final(disk).files@, p) == disk_content(
                    old(disk).files@,
                    p,
                ),
            r is Err ==> final(disk).files@ == old(disk).files@,
    {
        let primary = disk.read(path);
        let primary_usable: Option<Vec<WorldModel>> = match &primary {
            Some(content) => {
                if Self::is_file_corrupted_with_null_bytes(content.as_str()) {
                    None
                } else {
                    crate::codec::decode_worlds(content.as_str())
                }
            },
            None => None,
        };
        match primary_usable {
            Some(worlds) => Ok(worlds),
            None => {
                let backup_path = Self::get_backup_path(path);
                let backup = disk.read(&backup_path);
                match backup {
                    Some(content) => {
                        match crate::codec::decode_worlds(content.as_str()) {
                            Some(worlds) => {
                                // Self-heal: copy the good backup over the
                                // primary.
                                disk.write(path, content);
                                proof {
                                    lemma_sibling_paths_distinct(path@);
                                }
                                Ok(worlds)
                            },
                            None => Err(FileError::InvalidFile),
                        }
                    },
                    None => {
                        if primary.is_some() {
                            Err(FileError::InvalidFile)
                        } else {
                            Err(FileError::FileNotFound)
                        }
                    },
                }
            },
        }
    }
}

/// An encoded folder collection never looks corrupted: it is nonempty and
/// opens with a decimal digit.
pub proof fn lemma_encoded_not_corrupted(fs: Seq<FolderV>)
    ensures
        !spec_corrupted(crate::codec::enc_folders(fs)),
{
    crate::text::lemma_dec_digits(fs.len());
    let e = crate::codec::enc_folders(fs);
    assert(e.len() >= 1);
    assert(e[0] == crate::text::dec_digits(fs.len())[0]);
    assert(crate::text::is_digit(e[0]));
    assert(e[0] != '\u{0}') by {
        assert(!crate::text::is_digit('\u{0}'));
    }
}

/// An encoded world collection never looks corrupted: it is nonempty and
/// opens with a decimal digit.
pub proof fn lemma_encoded_worlds_not_corrupted(ws: Seq<WorldV>)
    ensures
        !spec_corrupted(crate::codec::enc_worlds(ws)),
{
    crate::text::lemma_dec_digits(ws.len());
    let e = crate::codec::enc_worlds(ws);
    assert(e.len() >= 1);
    assert(e[0] == crate::text::dec_digits(ws.len())[0]);
    assert(crate::text::is_digit(e[0]));
    assert(e[0] != '\u{0}') by {
        assert(!crate::text::is_digit('\u{0}'));
    }
}

} // verus!
