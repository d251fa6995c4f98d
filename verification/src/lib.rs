//! On-demand rotation of a single log-like file.
//!
//! Given a target such as `my.log`, a rotation pass renames the active file
//! to `my.1.log`, a pre-existing `my.1.log` to `my.2.log`, and so on, with an
//! optional cap on how many rotated generations are kept.  The library holds
//! the whole rotation algorithm: deriving the target file name and directory
//! from the configured path, classifying directory entries into the rotation
//! family, computing each member's destination name, ordering the renames so
//! that no rename overwrites a file that has not moved yet, and choosing which
//! excess generations to delete.  The caller lists the directory, hands the
//! entry names in, and applies the returned plan:
//!
//! ```ignore
//! let target = FileRotation::new(path).max_old_files(2).prepare()?;
//! let entries = /* list target.directory */;
//! let plan = target.plan(&entries);
//! /* delete plan.deletions, then apply plan.renames, in order */
//! ```

use vstd::prelude::*;

pub mod error;
pub mod names;
pub mod plan;
pub mod text;

pub use error::FileRotationError;
pub use plan::{Rename, RotationPlan, RotationTarget};

use crate::text::{find_last, last_index_of, lemma_last_index_of};

verus! {

/// Is `c` the path separator?  Paths are treated as `/`-separated.
pub open spec fn is_separator(c: char) -> bool {
    c == '/'
}

/// Does the path's final character denote a directory?
pub open spec fn ends_in_separator(p: Seq<char>) -> bool {
    p.len() > 0 && is_separator(p.last())
}

/// The final path component: everything after the last separator.
pub open spec fn spec_file_name(p: Seq<char>) -> Seq<char> {
    p.skip(last_index_of(p, '/') + 1)
}

/// A final component that names a file: non-empty, and neither of the
/// relative-directory names `.` and `..`.
pub open spec fn usable_file_name(n: Seq<char>) -> bool {
    n.len() > 0 && n != seq!['.'] && n != seq!['.', '.']
}

/// Does the file name carry an extension?  It does when a `.` stands after
/// its first character; a name that starts with its only `.` is extensionless.
pub open spec fn name_has_extension(n: Seq<char>) -> bool {
    last_index_of(n, '.') >= 1
}

/// The path the rotation works on: the configured path, with `.` and the
/// configured extension appended when the file name has none.
pub open spec fn spec_effective_path(p: Seq<char>, extension: Seq<char>) -> Seq<char> {
    if !name_has_extension(spec_file_name(p)) && extension.len() > 0 {
        p + seq!['.'] + extension
    } else {
        p
    }
}

/// The directory a path's entries live in: what stands before the last
/// separator, the root for a path like `/name`, and the current directory
/// `.` for a bare file name.
pub open spec fn spec_directory(p: Seq<char>) -> Seq<char> {
    let j = last_index_of(p, '/');
    if j == -1 {
        seq!['.']
    } else if j == 0 {
        seq!['/']
    } else {
        p.take(j)
    }
}

/// A rotation request: the file to rotate and its configuration.  Built with
/// [`FileRotation::new`], refined with the setter methods, and consumed by
/// [`FileRotation::prepare`].
#[derive(Debug)]
pub struct FileRotation {
    /// The path of the file to rotate.
    pub file: String,
    /// The extension assumed when the path has none.
    pub extension: String,
    /// The maximum number of rotated files kept, unbounded when `None`.
    pub max_old_files: Option<usize>,
}

impl FileRotation {
    /// A rotation request for `file`, with no retention cap and the default
    /// extension `log`.
    pub fn new(file: String) -> (r: Self)
        ensures
            r.file == file,
            r.extension@ == "log"@,
            r.max_old_files is None,
    {
        FileRotation { file, extension: String::from_str("log"), max_old_files: None }
    }

    /// Sets a maximum of how many rotated files to keep.
    #[must_use]
    pub fn max_old_files(self, max_old_files: usize) -> (r: Self)
        ensures
            r.file == self.file,
            r.extension == self.extension,
            r.max_old_files == Some(max_old_files),
    {
        FileRotation { max_old_files: Some(max_old_files), ..self }
    }

    /// Sets the extension to assume when the configured path has none.
    pub fn file_extension(self, extension: String) -> (r: Self)
        ensures
            r.file == self.file,
            r.extension == extension,
            r.max_old_files == self.max_old_files,
    {
        FileRotation { extension, ..self }
    }

    /// Validates the configured path and resolves the rotation target.
    ///
    /// Fails with [`FileRotationError::NotAFile`] — before anything could be
    /// touched — exactly when the path syntactically denotes a directory
    /// (its final character is a separator) or no usable file name can be
    /// derived from it.  Otherwise the target holds the directory to scan,
    /// the file name the family is matched against (with the configured
    /// extension appended when the path had none), and the retention cap.
    pub fn prepare(self) -> (r: Result<RotationTarget, FileRotationError>)
        ensures
            ({
                let rejected = ends_in_separator(self.file@) || !usable_file_name(
                    spec_file_name(self.file@),
                );
                let effective = spec_effective_path(self.file@, self.extension@);
                match r {
                    Ok(t) => {
                        &&& !rejected
                        &&& t.directory@ == spec_directory(effective)
                        &&& t.file_name@ == spec_file_name(effective)
                        &&& t.max_old_files == self.max_old_files
                    },
                    Err(e) => rejected && match e {
                        FileRotationError::NotAFile(p) => p@ == self.file@,
                        _ => false,
                    },
                }
            }),
    {
        let FileRotation { file, extension, max_old_files } = self;
        let len = file.as_str().unicode_len();
        if len > 0 && file.as_str().get_char(len - 1) == '/' {
            return Err(FileRotationError::NotAFile(file));
        }
        proof {
            lemma_last_index_of(file@, '/');
        }
        let name_start: usize = match find_last(file.as_str(), '/') {
            Some(j) => j + 1,
            None => 0,
        };
        let name = file.as_str().substring_char(name_start, len);
        proof {
            assert(name@ =~= spec_file_name(file@));
        }
        let name_len = name.unicode_len();
        let unusable = name_len == 0 || (name_len == 1 && name.get_char(0) == '.') || (name_len == 2
            && name.get_char(0) == '.' && name.get_char(1) == '.');
        proof {
            if name_len == 1 && name@[0] == '.' {
                assert(name@ =~= seq!['.']);
            }
            if name_len == 2 && name@[0] == '.' && name@[1] == '.' {
                assert(name@ =~= seq!['.', '.']);
            }
            if usable_file_name(name@) {
                assert(!(name@ =~= seq!['.']));
                assert(!(name@ =~= seq!['.', '.']));
            }
        }
        if unusable {
            return Err(FileRotationError::NotAFile(file));
        }
        let has_extension = match find_last(name, '.') {
            Some(d) => d >= 1,
            None => false,
        };
        let extension_len = extension.as_str().unicode_len();
        let effective: String = if !has_extension && extension_len > 0 {
            proof {
                reveal_strlit(".");
            }
            let e = file.concat(".");
            let e = e.concat(extension.as_str());
            proof {
                assert(e@ =~= self.file@ + seq!['.'] + self.extension@);
            }
            e
        } else {
            file
        };
        proof {
            lemma_last_index_of(effective@, '/');
        }
        let effective_len = effective.as_str().unicode_len();
        let (directory, file_name): (String, String) = match find_last(effective.as_str(), '/') {
            None => {
                proof {
                    reveal_strlit(".");
                    assert("."@ =~= seq!['.']);
                    assert(effective@.skip(0) =~= effective@);
                }
                (String::from_str("."), effective)
            },
            Some(j) => {
                let dir = if j == 0 {
                    proof {
                        reveal_strlit("/");
                        assert("/"@ =~= seq!['/']);
                    }
                    String::from_str("/")
                } else {
                    String::from_str(effective.as_str().substring_char(0, j))
                };
                let file_name = String::from_str(
                    effective.as_str().substring_char(j + 1, effective_len),
                );
                (dir, file_name)
            },
        };
        Ok(RotationTarget { directory, file_name, max_old_files })
    }
}

} // verus!
