//! Which compiler of schemas to use: the system's, where its version is the one
//! that is needed, or one that is built.
use crate::strings::{
    is_trimmed, is_whitespace, law_trimmed_is_unique, law_trimming, same, trim,
};
use crate::text::Reader;
use vstd::prelude::*;
use vstd::string::*;
use vstd::utf8::*;

verus! {

/// What the compiler says of its version when it is the one that is needed.
pub open spec fn needed_version() -> Seq<char> {
    "Cap'n Proto version 2.0-fs"@
}

/// Where a compiler is.
pub enum CapstoneAcquired<P> {
    /// It was built.
    Locally(P),
    /// It is the system's.
    OnSystem(P),
}

impl<P> CapstoneAcquired<P> {
    pub open spec fn path(self) -> P {
        match self {
            CapstoneAcquired::Locally(path) => path,
            CapstoneAcquired::OnSystem(path) => path,
        }
    }

    /// The compiler's path.
    pub fn into_path(self) -> (r: P)
        ensures
            r == self.path(),
    {
        match self {
            CapstoneAcquired::Locally(path) => path,
            CapstoneAcquired::OnSystem(path) => path,
        }
    }
}

/// What to do about a compiler.
pub enum Plan<P> {
    /// Use the one that is there.
    Use(CapstoneAcquired<P>),
    /// Build one.
    Build,
    /// Give up: none is there, and none may be built.
    Refuse,
}

/// Whether the compiler that says this of its version is the one that is needed.
pub fn accepts_version(version: &str) -> (r: bool)
    ensures
        r == is_trimmed(version@, needed_version()),
{
    let trimmed = trim(version);
    proof {
        if is_trimmed(version@, needed_version()) {
            law_trimmed_is_unique(version@, trimmed@, needed_version());
        }
    }
    same(trimmed, "Cap'n Proto version 2.0-fs")
}

/// Whether the output is text that names the needed version.
pub open spec fn is_needed(output: Seq<u8>) -> bool {
    valid_utf8(output) && is_trimmed(decode_utf8(output), needed_version())
}

/// What to do, given where the system's compiler is, if it has one, and what that
/// compiler printed when it was asked for its version, if it could be asked.
pub fn plan<P>(found: Option<(P, Option<Vec<u8>>)>, deny_net_fetch: bool) -> (r: Plan<P>)
    ensures
        match found {
            Some((path, Some(output))) if is_needed(output@) => r == Plan::Use(
                CapstoneAcquired::OnSystem(path),
            ),
            _ => r == if deny_net_fetch {
                Plan::<P>::Refuse
            } else {
                Plan::<P>::Build
            },
        },
{
    if let Some((path, Some(bytes))) = found {
        if let Ok(version) = (Reader { bytes }).to_string() {
            if accepts_version(version.as_str()) {
                return Plan::Use(CapstoneAcquired::OnSystem(path));
            }
        }
    }
    if deny_net_fetch {
        Plan::Refuse
    } else {
        Plan::Build
    }
}

/// What stands before the compiler's path in the code that unpacks it.
pub const EXTRACT_BIN_HEAD: &'static str = "
#[allow(dead_code)]
fn commandhandle() -> eyre::Result<tempfile::TempDir> {
    use std::io::Write;
    #[cfg(any(target_os = \"linux\", target_os = \"macos\"))]
    use std::os::unix::fs::OpenOptionsExt;
    use tempfile::tempdir;

    let file_contents = include_bytes!(r#\"";

/// What stands behind the compiler's path in the code that unpacks it.
pub const EXTRACT_BIN_TAIL: &'static str = "\"#);

    let tempdir = tempdir()?;

    #[cfg(any(target_os = \"linux\", target_os = \"macos\"))]
    let mut handle = 
        std::fs::OpenOptions::new()
        .write(true)
        .mode(0o770)
        .create(true)
        .open(tempdir.path().join(\"capnp\"))?;

    #[cfg(target_os = \"windows\")]
    let mut handle = std::fs::OpenOptions::new().write(true).create(true).truncate(true).open(tempdir.path().join(\"capnp\"))?;

    #[cfg(not(any(target_os = \"linux\", target_os = \"macos\", target_os = \"windows\")))]
    compile_error!(\"capnp-import does not support your operating system!\");

    handle.write_all(file_contents)?;

    Ok(tempdir)
}";

/// The code that unpacks the compiler at the given path.
pub fn extract_bin_text(path: &str) -> (r: String)
    ensures
        r@ == EXTRACT_BIN_HEAD@ + path@ + EXTRACT_BIN_TAIL@,
{
    let mut text = EXTRACT_BIN_HEAD.to_owned();
    text.append(path);
    text.append(EXTRACT_BIN_TAIL);
    text
}

/// The output names the needed version where it is that, in UTF-8, with white space
/// around it, and nowhere else.
pub proof fn law_needed_version(output: Seq<u8>)
    ensures
        is_needed(output) <==> valid_utf8(output) && is_trimmed(
            decode_utf8(output),
            "Cap'n Proto version 2.0-fs"@,
        ),
{
}

/// White space around the version does not matter.
pub proof fn law_version_with_white_space(before: Seq<char>, after: Seq<char>)
    requires
        forall|i: int| 0 <= i < before.len() ==> is_whitespace(#[trigger] before[i]),
        forall|i: int| 0 <= i < after.len() ==> is_whitespace(#[trigger] after[i]),
    ensures
        is_trimmed(before + "Cap'n Proto version 2.0-fs"@ + after, needed_version()),
        is_needed(encode_utf8(before + "Cap'n Proto version 2.0-fs"@ + after)),
{
    let version = "Cap'n Proto version 2.0-fs"@;
    reveal_strlit("Cap'n Proto version 2.0-fs");
    law_trimming(before, version, after);
    encode_utf8_decode_utf8(before + version + after);
    encode_utf8_valid_utf8(before + version + after);
}

/// A compiler is where it was built or found.
pub proof fn law_acquired_path<P>(path: P)
    ensures
        CapstoneAcquired::Locally(path).path() == path,
        CapstoneAcquired::OnSystem(path).path() == path,
{
}

/// The code that unpacks the compiler stands around the compiler's path, and two
/// paths give the same code but for the path.
pub proof fn law_unpacking_code(path: Seq<char>)
    ensures
        EXTRACT_BIN_HEAD@ + path + EXTRACT_BIN_TAIL@ == "
#[allow(dead_code)]
fn commandhandle() -> eyre::Result<tempfile::TempDir> {
    use std::io::Write;
    #[cfg(any(target_os = \"linux\", target_os = \"macos\"))]
    use std::os::unix::fs::OpenOptionsExt;
    use tempfile::tempdir;

    let file_contents = include_bytes!(r#\""@ + path + "\"#);

    let tempdir = tempdir()?;

    #[cfg(any(target_os = \"linux\", target_os = \"macos\"))]
    let mut handle = 
        std::fs::OpenOptions::new()
        .write(true)
        .mode(0o770)
        .create(true)
        .open(tempdir.path().join(\"capnp\"))?;

    #[cfg(target_os = \"windows\")]
    let mut handle = std::fs::OpenOptions::new().write(true).create(true).truncate(true).open(tempdir.path().join(\"capnp\"))?;

    #[cfg(not(any(target_os = \"linux\", target_os = \"macos\", target_os = \"windows\")))]
    compile_error!(\"capnp-import does not support your operating system!\");

    handle.write_all(file_contents)?;

    Ok(tempdir)
}"@,
{
}

} // verus!
