//! The contents of the `paths.json` file of a package, as plain values:
//! one entry for every file that the package brings.

use vstd::prelude::*;

verus! {

/// How a placeholder is replaced in a file.
#[derive(Clone, Copy, Debug, PartialEq, Eq, Structural)]
pub enum PyFileMode {
    /// The file is binary: the placeholder is replaced as a C string.
    Binary,
    /// The file is text: the placeholder is replaced as text.
    Text,
}

impl PyFileMode {
    /// Whether the file is binary.
    pub fn binary(&self) -> (b: bool)
        ensures
            b == (*self is Binary),
    {
        match self {
            PyFileMode::Binary => true,
            PyFileMode::Text => false,
        }
    }

    /// Whether the file is text.
    pub fn text(&self) -> (b: bool)
        ensures
            b == (*self is Text),
    {
        match self {
            PyFileMode::Text => true,
            PyFileMode::Binary => false,
        }
    }
}

/// How a path is put into the prefix.
#[derive(Clone, Copy, Debug, PartialEq, Eq, Structural)]
pub enum PyPathType {
    /// The path is hard linked.
    HardLink,
    /// The path is soft linked.
    SoftLink,
    /// An empty directory is created.
    Directory,
}

impl PyPathType {
    /// Whether the path is hard linked.
    pub fn hardlink(&self) -> (b: bool)
        ensures
            b == (*self is HardLink),
    {
        matches!(self, PyPathType::HardLink)
    }

    /// Whether the path is soft linked.
    pub fn softlink(&self) -> (b: bool)
        ensures
            b == (*self is SoftLink),
    {
        matches!(self, PyPathType::SoftLink)
    }

    /// Whether an empty directory is created.
    pub fn directory(&self) -> (b: bool)
        ensures
            b == (*self is Directory),
    {
        matches!(self, PyPathType::Directory)
    }
}

/// A placeholder as mathematical values.
pub struct PlaceholderView {
    /// How the placeholder is replaced.
    pub file_mode: PyFileMode,
    /// The text to replace.
    pub placeholder: Seq<char>,
}

/// The text in a file that stands for the prefix and has to be replaced
/// when the file is installed.
#[derive(Debug)]
pub struct PyPrefixPlaceholder {
    /// How the placeholder is replaced.
    pub file_mode: PyFileMode,
    /// The text to replace: the prefix at the time the package was built.
    pub placeholder: String,
}

impl View for PyPrefixPlaceholder {
    type V = PlaceholderView;

    open spec fn view(&self) -> PlaceholderView {
        PlaceholderView { file_mode: self.file_mode, placeholder: self.placeholder@ }
    }
}

impl Clone for PyPrefixPlaceholder {
    fn clone(&self) -> (copy: Self)
        ensures
            copy@ == self@,
    {
        PyPrefixPlaceholder { file_mode: self.file_mode, placeholder: self.placeholder.clone() }
    }
}

impl PyPrefixPlaceholder {
    /// How the placeholder is replaced.
    pub fn file_mode(&self) -> (mode: PyFileMode)
        ensures
            mode == self@.file_mode,
    {
        self.file_mode
    }

    /// The text to replace.
    pub fn placeholder(&self) -> (text: String)
        ensures
            text@ == self@.placeholder,
    {
        self.placeholder.clone()
    }
}

/// An entry as mathematical values.
pub struct EntryView {
    /// The path below the root of the package.
    pub relative_path: Seq<char>,
    /// Whether the file is left out when the package is linked.
    pub no_link: bool,
    /// How the path is put into the prefix.
    pub path_type: PyPathType,
    /// The placeholder in the file, if it holds one.
    pub prefix_placeholder: Option<PlaceholderView>,
    /// The SHA256 hash of the file, if it is known.
    pub sha256: Option<Seq<u8>>,
    /// The size of the file in bytes, if it is known.
    pub size_in_bytes: Option<u64>,
}

/// One file of a package.
#[derive(Debug)]
pub struct PyPathsEntry {
    /// The path below the root of the package.
    pub relative_path: String,
    /// Whether the file is left out when the package is linked.
    pub no_link: bool,
    /// How the path is put into the prefix.
    pub path_type: PyPathType,
    /// The placeholder in the file, if it holds one.
    pub prefix_placeholder: Option<PyPrefixPlaceholder>,
    /// The SHA256 hash of the file, if it is known.
    pub sha256: Option<Vec<u8>>,
    /// The size of the file in bytes, if it is known.
    pub size_in_bytes: Option<u64>,
}

impl View for PyPathsEntry {
    type V = EntryView;

    open spec fn view(&self) -> EntryView {
        EntryView {
            relative_path: self.relative_path@,
            no_link: self.no_link,
            path_type: self.path_type,
            prefix_placeholder: match self.prefix_placeholder {
                Some(p) => Some(p@),
                None => None,
            },
            sha256: match self.sha256 {
                Some(h) => Some(h@),
                None => None,
            },
            size_in_bytes: self.size_in_bytes,
        }
    }
}

/// A copy of the bytes.
fn copy_bytes(bytes: &Vec<u8>) -> (copy: Vec<u8>)
    ensures
        copy@ == bytes@,
{
    let mut copy: Vec<u8> = Vec::new();
    let mut i: usize = 0;
    while i < bytes.len()
        invariant
            0 <= i <= bytes@.len(),
            copy@ == bytes@.subrange(0, i as int),
        decreases bytes@.len() - i,
    {
        copy.push(bytes[i]);
        assert(copy@ =~= bytes@.subrange(0, i + 1));
        i += 1;
    }
    assert(copy@ =~= bytes@);
    copy
}

impl Clone for PyPathsEntry {
    fn clone(&self) -> (copy: Self)
        ensures
            copy@ == self@,
    {
        PyPathsEntry {
            relative_path: self.relative_path.clone(),
            no_link: self.no_link,
            path_type: self.path_type,
            prefix_placeholder: self.prefix_placeholder(),
            sha256: self.sha256(),
            size_in_bytes: self.size_in_bytes,
        }
    }
}

impl PyPathsEntry {
    /// The path below the root of the package.
    pub fn relative_path(&self) -> (path: String)
        ensures
            path@ == self@.relative_path,
    {
        self.relative_path.clone()
    }

    /// Whether the file is left out when the package is linked.
    pub fn no_link(&self) -> (b: bool)
        ensures
            b == self@.no_link,
    {
        self.no_link
    }

    /// How the path is put into the prefix.
    pub fn path_type(&self) -> (kind: PyPathType)
        ensures
            kind == self@.path_type,
    {
        self.path_type
    }

    /// The placeholder in the file, or `None` where the file holds none.
    pub fn prefix_placeholder(&self) -> (placeholder: Option<PyPrefixPlaceholder>)
        ensures
            placeholder is Some == self@.prefix_placeholder is Some,
            placeholder matches Some(p) ==> Some(p@) == self@.prefix_placeholder,
    {
        match &self.prefix_placeholder {
            Some(p) => Some(p.clone()),
            None => None,
        }
    }

    /// The SHA256 hash of the file, if it is known.
    pub fn sha256(&self) -> (hash: Option<Vec<u8>>)
        ensures
            hash is Some == self@.sha256 is Some,
            hash matches Some(h) ==> Some(h@) == self@.sha256,
    {
        match &self.sha256 {
            Some(h) => Some(copy_bytes(h)),
            None => None,
        }
    }

    /// The size of the file in bytes, if it is known.
    pub fn size_in_bytes(&self) -> (size: Option<u64>)
        ensures
            size == self@.size_in_bytes,
    {
        self.size_in_bytes
    }
}

/// The entries of a list as mathematical values.
pub open spec fn entry_views(entries: Seq<PyPathsEntry>) -> Seq<EntryView> {
    Seq::new(entries.len(), |i: int| entries[i]@)
}

/// The `paths.json` file of a package.
#[derive(Debug)]
pub struct PyPathsJson {
    /// The files of the package.
    pub paths: Vec<PyPathsEntry>,
    /// The version of the file format.
    pub paths_version: u64,
}

impl Clone for PyPathsJson {
    fn clone(&self) -> (copy: Self)
        ensures
            entry_views(copy.paths@) == entry_views(self.paths@),
            copy.paths_version == self.paths_version,
    {
        PyPathsJson { paths: self.paths(), paths_version: self.paths_version }
    }
}

impl PyPathsJson {
    /// The files of the package.
    pub fn paths(&self) -> (entries: Vec<PyPathsEntry>)
        ensures
            entry_views(entries@) == entry_views(self.paths@),
    {
        let mut entries: Vec<PyPathsEntry> = Vec::new();
        let mut i: usize = 0;
        while i < self.paths.len()
            invariant
                0 <= i <= self.paths@.len(),
                entries@.len() == i,
                forall|j: int| 0 <= j < i ==> (#[trigger] entries@[j])@ == self.paths@[j]@,
            decreases self.paths@.len() - i,
        {
            entries.push(self.paths[i].clone());
            i += 1;
        }
        assert(entry_views(entries@) =~= entry_views(self.paths@));
        entries
    }

    /// The version of the file format.
    pub fn paths_version(&self) -> (version: u64)
        ensures
            version == self.paths_version,
    {
        self.paths_version
    }
}

} // verus!
