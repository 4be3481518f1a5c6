//! Where the data of the library lives on disk. The functions compute
//! paths from the directories that the platform reports; they touch no file.

use vstd::prelude::*;

verus! {

/// The path `rest` below the directory `base`: a separator is put between
/// the two unless `base` is empty or ends with one.
pub open spec fn joined(base: Seq<char>, rest: Seq<char>) -> Seq<char> {
    if base.len() == 0 || base.last() == '/' {
        base + rest
    } else {
        base + seq!['/'] + rest
    }
}

/// Appends the relative path `rest` to the directory `base`.
pub fn join(base: &str, rest: &str) -> (path: String)
    ensures
        path@ == joined(base@, rest@),
{
    let n = base.unicode_len();
    let mut path = base.to_owned();
    if n > 0 && base.get_char(n - 1) != '/' {
        proof {
            reveal_strlit("/");
            assert("/"@ =~= seq!['/']);
        }
        path.append("/");
    }
    path.append(rest);
    path
}

/// The platform reports no cache directory.
#[derive(Clone, Copy, Debug, PartialEq, Eq, Structural)]
pub struct NoCacheDirectory;

impl NoCacheDirectory {
    /// The message of the error.
    pub fn message(&self) -> (text: String)
        ensures
            text@ == "could not determine cache directory for current platform"@,
    {
        "could not determine cache directory for current platform".to_owned()
    }
}

/// The default cache directory of the library: `rattler/cache` below the
/// cache directory of the platform, which the caller hands in. Fails where
/// the platform has none.
pub fn default_cache_dir(platform_cache_dir: Option<&str>) -> (dir: Result<
    String,
    NoCacheDirectory,
>)
    ensures
        match platform_cache_dir {
            Some(base) => dir matches Ok(d) && d@ == joined(base@, "rattler/cache"@),
            None => dir is Err,
        },
{
    match platform_cache_dir {
        Some(base) => Ok(join(base, "rattler/cache")),
        None => Err(NoCacheDirectory),
    }
}

/// The directory of the test data that ships with the sources: two levels
/// above the directory of the package manifest, in `test-data`.
pub fn get_test_data_dir(manifest_dir: &str) -> (dir: String)
    ensures
        dir@ == joined(manifest_dir@, "../../test-data"@),
{
    join(manifest_dir, "../../test-data")
}


/// The address of the empty channel that ships with the sources, with its
/// one platform: `file://`, the directory `test-data/channels/empty` two
/// levels above the directory of the package manifest, and `[noarch]`.
pub fn empty_channel(manifest_dir: &str) -> (channel: String)
    ensures
        channel@ == "file://"@ + joined(manifest_dir@, "../../test-data/channels/empty"@)
            + "[noarch]"@,
{
    let path = join(manifest_dir, "../../test-data/channels/empty");
    let mut channel = "file://".to_owned();
    channel.append(path.as_str());
    channel.append("[noarch]");
    channel
}

} // verus!
