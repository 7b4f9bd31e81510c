use crate::protocol::KvsError;
use vstd::prelude::*;
use vstd::string::*;

verus! {

/// The storage engines that a server can run.
#[derive(Clone, Copy, PartialEq, Eq, Debug)]
pub enum EngineKind {
    /// The log-structured store of this library.
    Kvs,
    /// The embedded database `sled`.
    Sled,
}

/// The engine that a lowercase name denotes.
pub open spec fn engine_named(name: Seq<char>) -> Option<EngineKind> {
    if name == "kvs"@ {
        Some(EngineKind::Kvs)
    } else if name == "sled"@ {
        Some(EngineKind::Sled)
    } else {
        None
    }
}

impl EngineKind {
    pub open spec fn spec_name(&self) -> Seq<char> {
        match self {
            EngineKind::Kvs => "kvs"@,
            EngineKind::Sled => "sled"@,
        }
    }

    /// The name of the engine, as the marker file of a directory records it.
    pub fn name(&self) -> (r: String)
        ensures
            r@ == self.spec_name(),
            engine_named(r@) == Some(*self),
    {
        proof {
            reveal_strlit("kvs");
            reveal_strlit("sled");
        }
        match self {
            EngineKind::Kvs => String::from_str("kvs"),
            EngineKind::Sled => String::from_str("sled"),
        }
    }
}

/// The engine to run, from the requested name, already in lower case, and from
/// the name that the directory's marker file records, already trimmed, if the
/// directory has one.  The requested name must denote an engine and, where
/// the directory records one, be that one.
pub fn select_engine(requested: &str, recorded: Option<&str>) -> (r: Result<EngineKind, KvsError>)
    ensures
        match r {
            Ok(kind) => {
                &&& engine_named(requested@) == Some(kind)
                &&& (recorded matches Some(name) ==> name@ == requested@)
            },
            Err(e) => {
                &&& e is InvalidConfig
                &&& (engine_named(requested@) is None || (recorded matches Some(name) && name@
                    != requested@))
            },
        },
{
    proof {
        reveal_strlit("kvs");
        reveal_strlit("sled");
    }
    let wanted = String::from_str(requested);
    let kind = if wanted == String::from_str("kvs") {
        EngineKind::Kvs
    } else if wanted == String::from_str("sled") {
        EngineKind::Sled
    } else {
        return Err(
            KvsError::InvalidConfig(String::from_str("Invalid engine name: ").concat(requested)),
        );
    };
    match recorded {
        Some(name) => {
            if String::from_str(name) == wanted {
                Ok(kind)
            } else {
                Err(
                    KvsError::InvalidConfig(
                        String::from_str("Wrong engine! Data was created with ").concat(name).concat(
                            " but ",
                        ).concat(requested).concat(" was requested"),
                    ),
                )
            }
        },
        None => Ok(kind),
    }
}

/// What `str::to_lowercase` returns for a string.
pub uninterp spec fn lowercase_of(s: Seq<char>) -> Seq<char>;

/// Relies on `str::to_lowercase`: the lowercase form of `s`, which depends on
/// the characters of `s` alone.
#[verifier::external_body]
fn to_lowercase(s: &str) -> (r: String)
    ensures
        r@ == lowercase_of(s@),
{
    s.to_lowercase()
}

/// The characters with the Unicode `White_Space` property, which
/// `char::is_whitespace` tells apart.
pub open spec fn is_white_space(c: char) -> bool {
    ||| ('\u{9}' <= c && c <= '\u{d}')
    ||| c == ' '
    ||| c == '\u{85}'
    ||| c == '\u{a0}'
    ||| c == '\u{1680}'
    ||| ('\u{2000}' <= c && c <= '\u{200a}')
    ||| c == '\u{2028}'
    ||| c == '\u{2029}'
    ||| c == '\u{202f}'
    ||| c == '\u{205f}'
    ||| c == '\u{3000}'
}

/// `s` without its leading white space.
pub open spec fn trim_start(s: Seq<char>) -> Seq<char>
    decreases s.len(),
{
    if s.len() > 0 && is_white_space(s[0]) {
        trim_start(s.skip(1))
    } else {
        s
    }
}

/// `s` without its trailing white space.
pub open spec fn trim_end(s: Seq<char>) -> Seq<char>
    decreases s.len(),
{
    if s.len() > 0 && is_white_space(s.last()) {
        trim_end(s.drop_last())
    } else {
        s
    }
}

/// `s` without its leading and trailing white space.
pub open spec fn trimmed(s: Seq<char>) -> Seq<char> {
    trim_end(trim_start(s))
}

/// Relies on `str::trim`: `s` without the leading and trailing characters for
/// which `char::is_whitespace` holds.
#[verifier::external_body]
fn trim(s: &str) -> (r: &str)
    ensures
        r@ == trimmed(s@),
{
    s.trim()
}

/// The engine to run, from the name that was asked for, in any case, and from
/// the content of the directory's marker file, if it has one.
pub fn choose_engine(requested: &str, marker: Option<&str>) -> (r: Result<EngineKind, KvsError>)
    ensures
        match r {
            Ok(kind) => {
                &&& engine_named(lowercase_of(requested@)) == Some(kind)
                &&& (marker matches Some(m) ==> trimmed(m@) == lowercase_of(requested@))
            },
            Err(e) => {
                &&& e is InvalidConfig
                &&& (engine_named(lowercase_of(requested@)) is None || (marker matches Some(m)
                    && trimmed(m@) != lowercase_of(requested@)))
            },
        },
{
    let wanted = to_lowercase(requested);
    match marker {
        Some(m) => select_engine(wanted.as_str(), Some(trim(m))),
        None => select_engine(wanted.as_str(), None),
    }
}

} // verus!
