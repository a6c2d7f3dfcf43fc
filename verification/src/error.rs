use vstd::prelude::*;

verus! {

/// Errors that can occur during dynamic library loading or symbol resolution.
#[derive(Debug)]
pub enum Error {
    /// The underlying ELF loader collaborator failed to map or parse an object.
    LoaderError { msg: String },
    /// The path resolver exhausted every candidate for a short name.
    FindLibError { msg: String },
    /// The symbol resolver exhausted the given scope.
    FindSymbolError { msg: String },
    /// A user callback to the phdr iteration returned a non-zero code.
    IteratorPhdrError { code: i32 },
    /// `ld.so.cache` was malformed or unreadable.
    ParseLdCacheError { msg: String },
    /// A path was null or not valid UTF-8 where UTF-8 is required.
    InvalidPath,
}

impl Error {
    /// A human-readable description of the error.
    pub fn message(&self) -> (r: String)
        ensures
            self matches Error::LoaderError { msg } ==> r@ == msg@,
            self matches Error::FindLibError { msg } ==> r@ == msg@,
            self matches Error::FindSymbolError { msg } ==> r@ == msg@,
            self matches Error::ParseLdCacheError { msg } ==> r@ == msg@,
    {
        match self {
            Error::LoaderError { msg } => msg.clone(),
            Error::FindLibError { msg } => msg.clone(),
            Error::FindSymbolError { msg } => msg.clone(),
            Error::IteratorPhdrError { code: _ } => String::from_str("phdr iteration aborted"),
            Error::ParseLdCacheError { msg } => msg.clone(),
            Error::InvalidPath => String::from_str("Invalid path"),
        }
    }
}

/// Builds a [`Error::FindLibError`] carrying the given message.
pub fn find_lib_error(msg: &str) -> (r: Error)
    ensures
        r matches Error::FindLibError { msg: m } && m@ == msg@,
{
    Error::FindLibError { msg: msg.to_owned() }
}

/// Builds a [`Error::FindSymbolError`] carrying the given message.
pub fn find_symbol_error(msg: &str) -> (r: Error)
    ensures
        r matches Error::FindSymbolError { msg: m } && m@ == msg@,
{
    Error::FindSymbolError { msg: msg.to_owned() }
}

/// Builds a [`Error::IteratorPhdrError`] carrying the code a user callback
/// returned to abort a phdr iteration.
pub fn iterate_phdr_error(code: i32) -> (r: Error)
    ensures
        r matches Error::IteratorPhdrError { code: c } && c == code,
{
    Error::IteratorPhdrError { code }
}

/// Builds a [`Error::ParseLdCacheError`] carrying the given message.
pub fn parse_ld_cache_error(msg: &str) -> (r: Error)
    ensures
        r matches Error::ParseLdCacheError { msg: m } && m@ == msg@,
{
    Error::ParseLdCacheError { msg: msg.to_owned() }
}

} // verus!
