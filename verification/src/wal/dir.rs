//! The log's directory: where it lies in a workdir, and the marker that proves it is this
//! engine's to write to and to remove.

use vstd::prelude::*;
use vstd::string::*;

verus! {

/// The directory `workdir`'s path leads to when `wal` is joined to it.
pub open spec fn joined(workdir: Seq<char>) -> Seq<char> {
    if workdir.len() == 0 || workdir.last() == '/' {
        workdir + "wal"@
    } else {
        workdir + "/wal"@
    }
}

/// The log's directory inside a pipeline's workdir.
pub fn dir_in(workdir: &str) -> (dir: String)
    ensures
        dir@ == joined(workdir@),
{
    let chars: Vec<char> = crate::text::chars_of(workdir);
    let mut dir = String::new();
    dir.append(workdir);
    if chars.len() == 0 || chars[chars.len() - 1] == '/' {
        dir.append("wal");
    } else {
        dir.append("/wal");
    }
    proof {
        assert(dir@ =~= joined(workdir@));
    }
    dir
}

/// What the marker holds: `rdlt-wal-v1` and a line end.
pub open spec fn marker_contents() -> Seq<u8> {
    seq![114u8, 100u8, 108u8, 116u8, 45u8, 119u8, 97u8, 108u8, 45u8, 118u8, 49u8, 10u8]
}

/// The bytes a marker is read up to: one more than it holds, so that a longer file differs.
pub const MARKER_READ_BYTES: u64 = 13;

/// The bytes the marker holds.
pub fn ownership_marker_bytes() -> (bytes: Vec<u8>)
    ensures
        bytes@ == marker_contents(),
{
    let bytes: Vec<u8> = vec![
        114u8, 100u8, 108u8, 116u8, 45u8, 119u8, 97u8, 108u8, 45u8, 118u8, 49u8, 10u8,
    ];
    proof {
        assert(bytes@ =~= marker_contents());
    }
    bytes
}

/// Whether `contents` are the marker's.
pub fn is_marker(contents: &Vec<u8>) -> (is: bool)
    ensures
        is == (contents@ == marker_contents()),
{
    let expected: Vec<u8> = ownership_marker_bytes();
    if contents.len() != expected.len() {
        return false;
    }
    let mut i: usize = 0;
    while i < expected.len()
        invariant
            i <= expected@.len(),
            expected@ == marker_contents(),
            contents@.len() == expected@.len(),
            forall|k: int| 0 <= k < i ==> contents@[k] == expected@[k],
        decreases expected.len() - i,
    {
        if contents[i] != expected[i] {
            return false;
        }
        i = i + 1;
    }
    proof {
        assert(contents@ =~= expected@);
    }
    true
}

/// What stands at the marker's path.
#[derive(Debug)]
pub enum Marker {
    /// Nothing, as this error of looking for it says.
    Absent { error: String },
    /// A regular file, with what was read of it.
    File { contents: Vec<u8> },
    /// Anything else, a symlink included.
    Other,
}

/// What stands at the log's path.
#[derive(Debug)]
pub enum Place {
    /// A directory: the marker in it, and whether it holds anything at all.
    Directory { marker: Marker, empty: bool },
    /// Anything else, a symlink to a directory included.
    Other,
}

/// What makes the directory the log's.
#[derive(Clone, Copy, Debug, PartialEq, Eq, Structural)]
pub enum Ownership {
    /// It already is.
    Owned,
    /// It is empty: the marker is to be written.
    Adopt,
}

/// Why a directory is not the log's.
#[derive(Debug)]
pub enum OwnershipFault {
    /// It is no directory.
    NotADirectory,
    /// The marker holds something else.
    UnrecognizedMarker,
    /// The marker is no regular file.
    MarkerNotAFile,
    /// It holds something and has no marker.
    NotEmpty,
}

/// Whether a place is the log's, or may become so.
pub open spec fn ownership(place: Place) -> Result<Ownership, OwnershipFault> {
    match place {
        Place::Other => Err(OwnershipFault::NotADirectory),
        Place::Directory { marker, empty } => match marker {
            Marker::File { contents } => if contents@ == marker_contents() {
                Ok(Ownership::Owned)
            } else {
                Err(OwnershipFault::UnrecognizedMarker)
            },
            Marker::Other => Err(OwnershipFault::MarkerNotAFile),
            Marker::Absent { .. } => if empty {
                Ok(Ownership::Adopt)
            } else {
                Err(OwnershipFault::NotEmpty)
            },
        },
    }
}

/// Decides whether what stands at the log's path is the log's: a directory with the marker, or an
/// empty one, which then gets it. A directory of someone else's is never adopted.
pub fn ensure_owned_dir(place: &Place) -> (owned: Result<Ownership, OwnershipFault>)
    ensures
        owned == ownership(*place),
{
    match place {
        Place::Other => Err(OwnershipFault::NotADirectory),
        Place::Directory { marker, empty } => match marker {
            Marker::File { contents } => {
                if is_marker(contents) {
                    Ok(Ownership::Owned)
                } else {
                    Err(OwnershipFault::UnrecognizedMarker)
                }
            },
            Marker::Other => Err(OwnershipFault::MarkerNotAFile),
            Marker::Absent { .. } => {
                if *empty {
                    Ok(Ownership::Adopt)
                } else {
                    Err(OwnershipFault::NotEmpty)
                }
            },
        },
    }
}

impl OwnershipFault {
    /// The fault of the directory `dir`, whose marker is `marker`, in words.
    pub open spec fn text(self, dir: Seq<char>, marker: Seq<char>) -> Seq<char> {
        match self {
            OwnershipFault::NotADirectory => "refusing WAL path `"@ + dir
                + "` because it is not a real directory"@,
            OwnershipFault::UnrecognizedMarker => "WAL ownership marker `"@ + marker
                + "` has unrecognized contents"@,
            OwnershipFault::MarkerNotAFile => "WAL ownership marker `"@ + marker
                + "` is not a regular file"@,
            OwnershipFault::NotEmpty => "refusing to adopt non-empty directory `"@ + dir
                + "` as a WAL without `.rdlt-wal`"@,
        }
    }

    /// The fault of the directory `dir`, whose marker is `marker`, in words.
    pub fn message(&self, dir: &str, marker: &str) -> (message: String)
        ensures
            message@ == self.text(dir@, marker@),
    {
        let mut message = String::new();
        match self {
            OwnershipFault::NotADirectory => {
                message.append("refusing WAL path `");
                message.append(dir);
                message.append("` because it is not a real directory");
            },
            OwnershipFault::UnrecognizedMarker => {
                message.append("WAL ownership marker `");
                message.append(marker);
                message.append("` has unrecognized contents");
            },
            OwnershipFault::MarkerNotAFile => {
                message.append("WAL ownership marker `");
                message.append(marker);
                message.append("` is not a regular file");
            },
            OwnershipFault::NotEmpty => {
                message.append("refusing to adopt non-empty directory `");
                message.append(dir);
                message.append("` as a WAL without `.rdlt-wal`");
            },
        }
        proof {
            assert(message@ =~= self.text(dir@, marker@));
        }
        message
    }
}

/// Why a directory is not removed.
#[derive(Debug)]
pub enum ClearFault {
    /// It is no directory.
    NotADirectory,
    /// It has no marker, as this error of looking for it says.
    MarkerAbsent { error: String },
    /// Its marker is no valid one.
    NoMarker,
}

/// How the file system classes a refusal.
#[derive(Clone, Copy, Debug, PartialEq, Eq, Structural)]
pub enum RefusalKind {
    /// What is there may not be touched.
    PermissionDenied,
    /// What is looked for is not there.
    NotFound,
}

impl ClearFault {
    /// The fault of the directory `dir` in words.
    pub open spec fn text(self, dir: Seq<char>) -> Seq<char> {
        match self {
            ClearFault::NotADirectory => "refusing to clear non-directory WAL path `"@ + dir + "`"@,
            ClearFault::MarkerAbsent { error } => error@,
            ClearFault::NoMarker => "refusing to clear `"@ + dir
                + "` without a valid rdlt WAL ownership marker"@,
        }
    }

    /// How the file system classes the fault.
    pub fn kind(&self) -> (kind: RefusalKind)
        ensures
            kind == if self is MarkerAbsent {
                RefusalKind::NotFound
            } else {
                RefusalKind::PermissionDenied
            },
    {
        match self {
            ClearFault::NotADirectory => RefusalKind::PermissionDenied,
            ClearFault::MarkerAbsent { .. } => RefusalKind::NotFound,
            ClearFault::NoMarker => RefusalKind::PermissionDenied,
        }
    }

    /// The fault of the directory `dir` in words.
    pub fn message(&self, dir: &str) -> (message: String)
        ensures
            message@ == self.text(dir@),
    {
        let mut message = String::new();
        match self {
            ClearFault::NotADirectory => {
                message.append("refusing to clear non-directory WAL path `");
                message.append(dir);
                message.append("`");
            },
            ClearFault::MarkerAbsent { error } => {
                message.append(error.as_str());
            },
            ClearFault::NoMarker => {
                message.append("refusing to clear `");
                message.append(dir);
                message.append("` without a valid rdlt WAL ownership marker");
            },
        }
        proof {
            assert(message@ =~= self.text(dir@));
        }
        message
    }
}

/// Whether a place may be removed as the log's.
pub open spec fn clearance(place: Place) -> Result<(), ClearFault> {
    match place {
        Place::Other => Err(ClearFault::NotADirectory),
        Place::Directory { marker, .. } => match marker {
            Marker::File { contents } => if contents@ == marker_contents() {
                Ok(())
            } else {
                Err(ClearFault::NoMarker)
            },
            Marker::Absent { error } => Err(ClearFault::MarkerAbsent { error }),
            Marker::Other => Err(ClearFault::NoMarker),
        },
    }
}

/// Decides whether what stands at the log's path may be removed as the log's.
pub fn verify_owned_dir(place: &Place) -> (owned: Result<(), ClearFault>)
    ensures
        owned == clearance(*place),
{
    match place {
        Place::Other => Err(ClearFault::NotADirectory),
        Place::Directory { marker, .. } => match marker {
            Marker::File { contents } => {
                if is_marker(contents) {
                    Ok(())
                } else {
                    Err(ClearFault::NoMarker)
                }
            },
            Marker::Absent { error } => Err(ClearFault::MarkerAbsent { error: error.clone() }),
            Marker::Other => Err(ClearFault::NoMarker),
        },
    }
}

/// How clearing the log goes on.
#[derive(Clone, Copy, Debug, PartialEq, Eq, Structural)]
pub enum ClearStep {
    /// There is nothing to remove, or all is removed.
    Cleared,
    /// Removing failed; the marker is written again, since what is left is still the log's.
    Restamp,
    /// Removing failed, and nothing is left to mark.
    Failed,
}

/// How removing the log's directory came out.
#[derive(Clone, Copy, Debug, PartialEq, Eq, Structural)]
pub enum Removal {
    Removed,
    /// It was gone already.
    Missing,
    /// It could not be removed whole, and the directory is or is not still there.
    Failed { remains: bool },
}

/// How clearing goes on once the directory's removal came out as `removal`. A removal that failed
/// midway may have taken the marker: what is left would then be refused as someone else's.
pub fn clear(removal: Removal) -> (step: ClearStep)
    ensures
        step == (match removal {
            Removal::Failed { remains } => if remains {
                ClearStep::Restamp
            } else {
                ClearStep::Failed
            },
            _ => ClearStep::Cleared,
        }),
{
    match removal {
        Removal::Removed => ClearStep::Cleared,
        Removal::Missing => ClearStep::Cleared,
        Removal::Failed { remains } => {
            if remains {
                ClearStep::Restamp
            } else {
                ClearStep::Failed
            }
        },
    }
}

/// What is read of a marker up to the bound says whether it is one: a longer file differs in it.
pub proof fn law_a_bounded_read_tells_markers(contents: Seq<u8>)
    ensures
        ({
            let read = if contents.len() <= MARKER_READ_BYTES {
                contents
            } else {
                contents.take(MARKER_READ_BYTES as int)
            };
            (read == marker_contents()) == (contents == marker_contents())
        }),
        MARKER_READ_BYTES == marker_contents().len() + 1,
{
}

/// Only a directory that carries the marker is removed, and only one that carries it or is empty
/// becomes the log's.
pub proof fn law_only_owned_directories_are_touched(place: Place)
    ensures
        clearance(place) is Ok ==> place is Directory && ownership(place) == Ok::<
            Ownership,
            OwnershipFault,
        >(Ownership::Owned),
        ownership(place) is Ok ==> place is Directory && (clearance(place) is Ok || place->empty),
{
}

/// A directory that was adopted, and so carries the marker, is owned and may be removed, whatever
/// it holds by then.
pub proof fn law_adopted_directories_are_owned(contents: Vec<u8>, empty: bool)
    requires
        contents@ == marker_contents(),
    ensures
        ({
            let place = Place::Directory { marker: Marker::File { contents }, empty };
            ownership(place) == Ok::<Ownership, OwnershipFault>(Ownership::Owned)
                && clearance(place) is Ok
        }),
{
}

/// A directory is adopted exactly where it is empty and has no marker, and is the log's exactly
/// where its marker is a file that holds what the log writes; nothing else is, for its own reason.
pub proof fn law_directories_are_owned_by_their_marker(place: Place)
    ensures
        ownership(place) == Ok::<Ownership, OwnershipFault>(Ownership::Owned) <==> {
            &&& place is Directory
            &&& place->marker is File
            &&& place->marker->contents@ == marker_contents()
        },
        ownership(place) == Ok::<Ownership, OwnershipFault>(Ownership::Adopt) <==> {
            &&& place is Directory
            &&& place->marker is Absent
            &&& place->empty
        },
        ownership(place) == Err::<Ownership, OwnershipFault>(OwnershipFault::NotADirectory) <==> !(
        place is Directory),
        ownership(place) == Err::<Ownership, OwnershipFault>(OwnershipFault::NotEmpty) <==> {
            &&& place is Directory
            &&& place->marker is Absent
            &&& !place->empty
        },
        ownership(place) == Err::<Ownership, OwnershipFault>(OwnershipFault::MarkerNotAFile) <==> {
            &&& place is Directory
            &&& place->marker is Other
        },
        clearance(place) is Ok <==> {
            &&& place is Directory
            &&& place->marker is File
            &&& place->marker->contents@ == marker_contents()
        },
{
}

} // verus!
