//! The open intents behind the file-call flag strings.
//!
//! The read and write calls accept the conventional short flag strings;
//! what each one means for opening — read, write, append, create,
//! exclusive create, truncate — is decided and verified here. The caller
//! that touches the real filesystem opens with exactly these intents.

use vstd::prelude::*;

verus! {

/// How a file is to be opened.
#[derive(Clone, Copy, PartialEq, Eq, Structural, Debug)]
pub struct OpenIntent {
    pub read: bool,
    pub write: bool,
    pub append: bool,
    pub create: bool,
    pub create_new: bool,
    pub truncate: bool,
}

/// The intent of a write-call flag string; an unknown string falls back to
/// plain writing, as the write call does.
pub open spec fn write_intent_spec(f: Seq<char>) -> OpenIntent {
    if f == "wx"@ || f == "xw"@ {
        (OpenIntent {
            read: false,
            write: true,
            append: false,
            create: false,
            create_new: true,
            truncate: false,
        })
    } else if f == "a"@ {
        (OpenIntent {
            read: false,
            write: false,
            append: true,
            create: true,
            create_new: false,
            truncate: false,
        })
    } else if f == "ax"@ || f == "xa"@ {
        (OpenIntent {
            read: false,
            write: false,
            append: true,
            create: false,
            create_new: true,
            truncate: false,
        })
    } else {
        (OpenIntent {
            read: false,
            write: true,
            append: false,
            create: true,
            create_new: false,
            truncate: true,
        })
    }
}

/// The intent of a read-call flag string; an unknown string falls back to
/// plain reading, as the read call does.
pub open spec fn read_intent_spec(f: Seq<char>) -> OpenIntent {
    if f == "r+"@ || f == "rs+"@ || f == "sr+"@ {
        (OpenIntent {
            read: true,
            write: true,
            append: false,
            create: false,
            create_new: false,
            truncate: false,
        })
    } else if f == "a+"@ {
        (OpenIntent {
            read: true,
            write: false,
            append: true,
            create: true,
            create_new: false,
            truncate: false,
        })
    } else if f == "ax+"@ || f == "xa+"@ {
        (OpenIntent {
            read: true,
            write: false,
            append: true,
            create: false,
            create_new: true,
            truncate: false,
        })
    } else if f == "w+"@ {
        (OpenIntent {
            read: true,
            write: true,
            append: false,
            create: true,
            create_new: false,
            truncate: true,
        })
    } else if f == "wx+"@ || f == "xw+"@ {
        (OpenIntent {
            read: true,
            write: true,
            append: false,
            create: false,
            create_new: true,
            truncate: false,
        })
    } else {
        (OpenIntent {
            read: true,
            write: false,
            append: false,
            create: false,
            create_new: false,
            truncate: false,
        })
    }
}

/// Parses a write-call flag string.
pub fn parse_write_flags(flag: &str) -> (r: OpenIntent)
    ensures
        r == write_intent_spec(flag@),
{
    if crate::paths::str_eq(flag, "wx") || crate::paths::str_eq(flag, "xw") {
        OpenIntent {
            read: false,
            write: true,
            append: false,
            create: false,
            create_new: true,
            truncate: false,
        }
    } else if crate::paths::str_eq(flag, "a") {
        OpenIntent {
            read: false,
            write: false,
            append: true,
            create: true,
            create_new: false,
            truncate: false,
        }
    } else if crate::paths::str_eq(flag, "ax") || crate::paths::str_eq(flag, "xa") {
        OpenIntent {
            read: false,
            write: false,
            append: true,
            create: false,
            create_new: true,
            truncate: false,
        }
    } else {
        OpenIntent {
            read: false,
            write: true,
            append: false,
            create: true,
            create_new: false,
            truncate: true,
        }
    }
}

/// Parses a read-call flag string.
pub fn parse_read_flags(flag: &str) -> (r: OpenIntent)
    ensures
        r == read_intent_spec(flag@),
{
    if crate::paths::str_eq(flag, "r+") || crate::paths::str_eq(flag, "rs+") || crate::paths::str_eq(
        flag,
        "sr+",
    ) {
        OpenIntent {
            read: true,
            write: true,
            append: false,
            create: false,
            create_new: false,
            truncate: false,
        }
    } else if crate::paths::str_eq(flag, "a+") {
        OpenIntent {
            read: true,
            write: false,
            append: true,
            create: true,
            create_new: false,
            truncate: false,
        }
    } else if crate::paths::str_eq(flag, "ax+") || crate::paths::str_eq(flag, "xa+") {
        OpenIntent {
            read: true,
            write: false,
            append: true,
            create: false,
            create_new: true,
            truncate: false,
        }
    } else if crate::paths::str_eq(flag, "w+") {
        OpenIntent {
            read: true,
            write: true,
            append: false,
            create: true,
            create_new: false,
            truncate: true,
        }
    } else if crate::paths::str_eq(flag, "wx+") || crate::paths::str_eq(flag, "xw+") {
        OpenIntent {
            read: true,
            write: true,
            append: false,
            create: false,
            create_new: true,
            truncate: false,
        }
    } else {
        OpenIntent {
            read: true,
            write: false,
            append: false,
            create: false,
            create_new: false,
            truncate: false,
        }
    }
}

} // verus!
