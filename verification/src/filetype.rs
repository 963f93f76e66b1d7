//! The closed set of file-identifier kinds a scan can be narrowed to, and the
//! parser for its textual tokens.

use vstd::prelude::*;
use crate::strutil::{str_eq, strip_dots, strip_dots_spec};

verus! {

/// Abstract value of a [`Filetype`].
pub ghost enum FiletypeV {
    All,
    Mem,
    Socket,
    File,
    Extension(Seq<char>),
}

/// Which kinds of file identifiers a scan should index: everything, only
/// memory-mapped files, only sockets, only regular files, or only files with
/// a given extension.
#[derive(Clone, Debug)]
pub enum Filetype {
    All,
    Mem,
    Socket,
    File,
    Extension(String),
}

impl View for Filetype {
    type V = FiletypeV;

    open spec fn view(&self) -> FiletypeV {
        match self {
            Filetype::All => FiletypeV::All,
            Filetype::Mem => FiletypeV::Mem,
            Filetype::Socket => FiletypeV::Socket,
            Filetype::File => FiletypeV::File,
            Filetype::Extension(s) => FiletypeV::Extension(s@),
        }
    }
}

impl FiletypeV {
    /// Whether a scan under this filter reads the memory-mapping listing.
    pub open spec fn includes_mem_spec(self) -> bool {
        self is Mem || self is All
    }

    /// Whether a scan under this filter enumerates descriptor entries.
    /// Only a memory-maps-only scan skips them.
    pub open spec fn includes_fd_spec(self) -> bool {
        !(self is Mem)
    }

    pub open spec fn includes_socket_spec(self) -> bool {
        self is Socket || self is All
    }

    pub open spec fn includes_file_spec(self) -> bool {
        self is File || self is All
    }
}

impl Default for Filetype {
    fn default() -> (r: Self)
        ensures
            r == Filetype::All,
    {
        Filetype::All
    }
}

impl Filetype {
    pub fn includes_mem(&self) -> (r: bool)
        ensures
            r == self@.includes_mem_spec(),
    {
        matches!(self, Filetype::Mem) || matches!(self, Filetype::All)
    }

    pub fn includes_fd(&self) -> (r: bool)
        ensures
            r == self@.includes_fd_spec(),
    {
        !matches!(self, Filetype::Mem)
    }

    pub fn includes_socket(&self) -> (r: bool)
        ensures
            r == self@.includes_socket_spec(),
    {
        matches!(self, Filetype::Socket) || matches!(self, Filetype::All)
    }

    pub fn includes_file(&self) -> (r: bool)
        ensures
            r == self@.includes_file_spec(),
    {
        matches!(self, Filetype::File) || matches!(self, Filetype::All)
    }

    /// Parse a filter token: `""`/`"all"`, `"mem"`, `"socket"`, `"file"`, or
    /// a leading-dot extension; anything else is rejected.
    pub fn from_str(s: &str) -> (r: Result<Filetype, BadFiletypeStr>)
        ensures
            match r {
                Ok(f) => parse_filetype_spec(s@) == Some(f@),
                Err(_) => parse_filetype_spec(s@) is None,
            },
    {
        if s.unicode_len() == 0 || str_eq(s, "all") {
            Ok(Filetype::All)
        } else if str_eq(s, "mem") {
            Ok(Filetype::Mem)
        } else if str_eq(s, "socket") {
            Ok(Filetype::Socket)
        } else if str_eq(s, "file") {
            Ok(Filetype::File)
        } else if s.get_char(0) == '.' {
            Ok(Filetype::Extension(strip_dots(s).to_owned()))
        } else {
            Err(BadFiletypeStr)
        }
    }
}

/// The meaning of a filter token.
pub open spec fn parse_filetype_spec(s: Seq<char>) -> Option<FiletypeV> {
    if s.len() == 0 || s == "all"@ {
        Some(FiletypeV::All)
    } else if s == "mem"@ {
        Some(FiletypeV::Mem)
    } else if s == "socket"@ {
        Some(FiletypeV::Socket)
    } else if s == "file"@ {
        Some(FiletypeV::File)
    } else if s[0] == '.' {
        Some(FiletypeV::Extension(strip_dots_spec(s)))
    } else {
        None
    }
}

/// The error for an unrecognized filter token.
#[derive(Clone, Copy, Debug, PartialEq, Eq, Hash, Structural)]
pub struct BadFiletypeStr;

} // verus!
