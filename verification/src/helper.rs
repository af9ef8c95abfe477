//! Command names and file names of the command-line tool.
use vstd::prelude::*;
use crate::text::{
    chars_eq, chars_of, find_char, find_last_char, first_index, last_index, lemma_first_index,
    string_of, sub_vec,
};

verus! {

/// Size of the VM stack used to run programs.
pub const DEFAULT_RUNTME_STACK_SZE: usize = 512;

/// Why a command of the tool failed.
#[derive(Debug, PartialEq, Eq, Structural)]
pub enum FileError {
    FetchFile,
    CreateFile,
    OpenFile,
    ReadFile,
    WriteFile,
    Metadata,
    Run,
    Unknown,
}

pub type FileResult<T> = Result<T, FileError>;

/// The text that describes each `FileError`.
pub open spec fn file_error_text(e: FileError) -> Seq<char> {
    match e {
        FileError::FetchFile => "unable to fetch file extenssion.."@,
        FileError::CreateFile => "unable to create file name.."@,
        FileError::OpenFile => "unable to open file.."@,
        FileError::ReadFile => "unable to read file.."@,
        FileError::WriteFile => "unable to write file.."@,
        FileError::Metadata => "unable to read file metadata.."@,
        FileError::Run => "unable to run program.."@,
        FileError::Unknown => "invalid command! Use build or run command.."@,
    }
}

impl FileError {
    /// The text that describes the error.
    pub fn message(&self) -> (s: String)
        ensures
            s@ == file_error_text(*self),
    {
        match self {
            FileError::FetchFile => String::from_str("unable to fetch file extenssion.."),
            FileError::CreateFile => String::from_str("unable to create file name.."),
            FileError::OpenFile => String::from_str("unable to open file.."),
            FileError::ReadFile => String::from_str("unable to read file.."),
            FileError::WriteFile => String::from_str("unable to write file.."),
            FileError::Metadata => String::from_str("unable to read file metadata.."),
            FileError::Run => String::from_str("unable to run program.."),
            FileError::Unknown => String::from_str("invalid command! Use build or run command.."),
        }
    }
}

/// A command of the tool.
#[derive(Debug, PartialEq, Eq, Structural)]
pub enum Operation {
    Buid,
    Run,
    Unknown,
}

/// The command named `command`: `build`, `run`, or anything else.
pub fn get_command(command: &str) -> (r: Operation)
    ensures
        r == (if command@ == "build"@ {
            Operation::Buid
        } else if command@ == "run"@ {
            Operation::Run
        } else {
            Operation::Unknown
        }),
{
    let c = chars_of(command);
    let build = chars_of("build");
    let run = chars_of("run");
    if chars_eq(c.as_slice(), build.as_slice()) {
        Operation::Buid
    } else if chars_eq(c.as_slice(), run.as_slice()) {
        Operation::Run
    } else {
        Operation::Unknown
    }
}

/// The extension of a file name: what follows its last `.`, if it has one.
pub open spec fn extension_of(s: Seq<char>) -> Option<Seq<char>> {
    let d = last_index(s, '.');
    if d < 0 {
        None
    } else {
        Some(s.skip(d + 1))
    }
}

/// Whether `file_name` ends with `.` and then `extenssion`; a name without a `.` has no
/// extension.
pub fn check_file_ext(file_name: &str, extenssion: &str) -> (r: FileResult<bool>)
    ensures
        match extension_of(file_name@) {
            None => r == Err::<bool, FileError>(FileError::FetchFile),
            Some(ext) => r == Ok::<bool, FileError>(ext == extenssion@),
        },
{
    let s = chars_of(file_name);
    let n = s.len();
    match find_last_char(s.as_slice(), '.') {
        None => Err(FileError::FetchFile),
        Some(d) => {
            let piece = sub_vec(s.as_slice(), d + 1, n);
            assert(s@.subrange(d + 1, n as int) =~= s@.skip(d + 1));
            let ext = chars_of(extenssion);
            Ok(chars_eq(piece.as_slice(), ext.as_slice()))
        },
    }
}

/// The name of the compiled file: `file_name` up to its first `.`, then `.alaybeyvm`.
pub fn create_file(file_name: &str) -> (r: FileResult<String>)
    ensures
        r matches Ok(out) && out@ == file_name@.take(first_index(file_name@, '.'))
            + ".alaybeyvm"@,
{
    let s = chars_of(file_name);
    let n = s.len();
    let d = find_char(s.as_slice(), 0, n, '.');
    assert(s@.subrange(0, n as int) =~= s@);
    proof {
        lemma_first_index(s@, '.');
    }
    let mut out = string_of(s.as_slice(), 0, d);
    assert(s@.subrange(0, d as int) =~= s@.take(d as int));
    out.append(".alaybeyvm");
    Ok(out)
}

} // verus!
