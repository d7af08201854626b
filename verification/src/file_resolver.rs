//! Reading files for includes, by whatever the embedder provides.

use std::borrow::Cow;
use std::sync::Arc;
use vstd::prelude::*;
use vstd::string::*;
use vstd::utf8::encode_utf8;

verus! {

/// Why a file could not be read.
#[derive(Debug)]
#[non_exhaustive]
pub enum FileResolverError {
    /// There is no such file, or none that can be read. An include of it is left
    /// out with a warning.
    #[non_exhaustive]
    NotFound { path: String },
    /// Reading failed otherwise; `source` says why.
    #[non_exhaustive]
    Io { path: String, source: String },
}

impl FileResolverError {
    /// The path that was to be read.
    pub open spec fn path_view(&self) -> Seq<char> {
        match self {
            FileResolverError::NotFound { path } => path@,
            FileResolverError::Io { path, source } => path@,
        }
    }

    /// What the error says.
    pub open spec fn message_view(&self) -> Seq<char> {
        match self {
            FileResolverError::NotFound { path } => "file not found: "@ + path@,
            FileResolverError::Io { path, source } => "file read error for "@ + path@ + ": "@
                + source@,
        }
    }

    /// There is no file at `path`.
    #[must_use]
    pub fn not_found(path: &str) -> (r: FileResolverError)
        ensures
            r is NotFound,
            r.path_view() == path@,
    {
        FileResolverError::NotFound { path: path.to_owned() }
    }

    /// Reading the file at `path` failed, for the reason `source`.
    #[must_use]
    pub fn io(path: &str, source: &str) -> (r: FileResolverError)
        ensures
            r is Io,
            r.path_view() == path@,
            r->Io_source@ == source@,
    {
        FileResolverError::Io { path: path.to_owned(), source: source.to_owned() }
    }

    /// Reading the file at `path` failed: there is none (`missing`), or else for the
    /// reason `source`.
    #[must_use]
    pub fn of_failure(path: &str, missing: bool, source: &str) -> (r: FileResolverError)
        ensures
            r is NotFound <==> missing,
            r.path_view() == path@,
            !missing ==> r->Io_source@ == source@,
    {
        if missing {
            FileResolverError::not_found(path)
        } else {
            FileResolverError::io(path, source)
        }
    }

    /// The path that was to be read.
    #[must_use]
    pub fn path(&self) -> (r: &str)
        ensures
            r@ == self.path_view(),
    {
        match self {
            FileResolverError::NotFound { path } => path.as_str(),
            FileResolverError::Io { path, source } => path.as_str(),
        }
    }

    /// What the error says.
    #[must_use]
    pub fn message(&self) -> (r: String)
        ensures
            r@ == self.message_view(),
    {
        match self {
            FileResolverError::NotFound { path } => {
                let mut s = "file not found: ".to_owned();
                s.append(path.as_str());
                s
            },
            FileResolverError::Io { path, source } => {
                let mut s = "file read error for ".to_owned();
                s.append(path.as_str());
                s.append(": ");
                s.append(source.as_str());
                s
            },
        }
    }
}

/// A source of files. It gives the bytes of a file as they are; they are decoded
/// later.
pub trait FileResolver: Send + Sync {
    /// Whether `r` is something that this source can give for `path`. A source that
    /// says nothing of what it gives can give anything.
    open spec fn gives(
        &self,
        path: Seq<char>,
        r: Result<Cow<'_, [u8]>, FileResolverError>,
    ) -> bool {
        true
    }

    /// Read the bytes of the file at `path`.
    fn read(&self, path: &str) -> (r: Result<Cow<'_, [u8]>, FileResolverError>)
        ensures
            self.gives(path@, r),
    ;
}

/// What a callback of the embedder did when it was asked for the text of a file.
#[derive(Debug)]
pub enum Reply {
    /// It gave the text.
    Text(String),
    /// It gave nothing: there is no such file.
    Nothing,
    /// It gave something that is no text.
    NoText,
    /// It failed, with a message.
    Threw(String),
}

/// What a reply means for the file at `path`: its bytes, which are UTF-8, or why
/// there are none.
pub open spec fn is_read_of(
    path: Seq<char>,
    reply: Reply,
    r: Result<Vec<u8>, FileResolverError>,
) -> bool {
    match (reply, r) {
        (Reply::Text(text), Ok(bytes)) => bytes@ == encode_utf8(text@),
        (Reply::Nothing, Err(e)) => e is NotFound && e.path_view() == path,
        (Reply::NoText, Err(e)) => e is Io && e.path_view() == path && e->Io_source@
            == "js resolver returned non-string value"@,
        (Reply::Threw(message), Err(e)) => e is Io && e.path_view() == path && e->Io_source@
            == "js resolver threw: "@ + message@,
        _ => false,
    }
}

/// A text is read as its bytes in UTF-8. Everything else is an error that names the path: a
/// file that is not there where nothing came back, and else one that tells what did.
pub proof fn law_replies_are_read(
    path: Seq<char>,
    reply: Reply,
    r: Result<Vec<u8>, FileResolverError>,
)
    requires
        is_read_of(path, reply, r),
    ensures
        reply matches Reply::Text(text) ==> r matches Ok(bytes) && bytes@ == encode_utf8(text@),
        !(reply is Text) ==> r is Err,
        r matches Err(e) ==> e.path_view() == path,
        reply is Nothing ==> (r matches Err(e) && e is NotFound && e.message_view()
            == "file not found: "@ + path),
        reply is NoText ==> (r matches Err(e) && e is Io && e.message_view()
            == "file read error for "@ + path + ": "@ + "js resolver returned non-string value"@),
        reply matches Reply::Threw(message) ==> r matches Err(e) && e is Io && e.message_view()
            == "file read error for "@ + path + ": "@ + ("js resolver threw: "@ + message@),
{
}

/// Take the reply of a callback that was asked for the file at `path`.
pub fn read_reply(path: &str, reply: Reply) -> (r: Result<Vec<u8>, FileResolverError>)
    ensures
        is_read_of(path@, reply, r),
{
    match reply {
        Reply::Text(text) => Ok(text.as_str().as_bytes_vec()),
        Reply::Nothing => Err(FileResolverError::not_found(path)),
        Reply::NoText => {
            Err(FileResolverError::io(path, "js resolver returned non-string value"))
        },
        Reply::Threw(message) => {
            let mut source = "js resolver threw: ".to_owned();
            source.append(message.as_str());
            Err(FileResolverError::io(path, source.as_str()))
        },
    }
}

/// A source of files of a type that is known where it is taken. It hands on what the
/// source in it gives.
struct Source<R>(R);

impl<R: FileResolver> FileResolver for Source<R> {
    closed spec fn gives(
        &self,
        path: Seq<char>,
        r: Result<Cow<'_, [u8]>, FileResolverError>,
    ) -> bool {
        self.0.gives(path, r)
    }

    fn read(&self, path: &str) -> (r: Result<Cow<'_, [u8]>, FileResolverError>) {
        self.0.read(path)
    }
}

/// Point to a source once more. `Arc::clone` of std makes another pointer to the value
/// that is pointed to; the value is not copied.
#[verifier::external_body]
fn share(shared: &Arc<Box<dyn FileResolver>>) -> (r: Arc<Box<dyn FileResolver>>)
    ensures
        r == *shared,
{
    Arc::clone(shared)
}

/// A source of files that options can hold. A clone shares the source.
pub struct DynFileResolver(Arc<Box<dyn FileResolver>>);

impl Clone for DynFileResolver {
    /// The same source: what one gives, the other can give, and nothing else.
    fn clone(&self) -> (r: DynFileResolver)
        ensures
            r == *self,
            forall|path: Seq<char>, read: Result<Cow<'_, [u8]>, FileResolverError>|
                #[trigger] r.gives(path, read) == self.gives(path, read),
    {
        DynFileResolver(share(&self.0))
    }
}

impl DynFileResolver {
    /// Whether `r` is something that the source can give for `path`.
    pub closed spec fn gives(
        &self,
        path: Seq<char>,
        r: Result<Cow<'_, [u8]>, FileResolverError>,
    ) -> bool {
        self.0.gives(path, r)
    }

    /// Take a source of files: it gives what `resolver` gives, and nothing else.
    #[must_use]
    pub fn new<R: FileResolver + 'static>(resolver: R) -> (r: DynFileResolver)
        ensures
            forall|path: Seq<char>, read: Result<Cow<'_, [u8]>, FileResolverError>|
                #[trigger] r.gives(path, read) == resolver.gives(path, read),
    {
        let known = Source(resolver);
        let ghost given = known;
        let source: Box<dyn FileResolver> = Box::new(known);
        let shared = Arc::new(source);
        assert(*shared == source);
        let r = DynFileResolver(shared);
        assert forall|path: Seq<char>, read: Result<Cow<'_, [u8]>, FileResolverError>|
            #[trigger] r.gives(path, read) == resolver.gives(path, read) by {
            assert(r.gives(path, read) == source.gives(path, read));
            assert(source.gives(path, read) == given.gives(path, read));
        }
        r
    }

    /// Read the bytes of the file at `path`: what the source gives is handed on.
    pub fn read(&self, path: &str) -> (r: Result<Cow<'_, [u8]>, FileResolverError>)
        ensures
            self.gives(path@, r),
    {
        self.0.read(path)
    }
}

} // verus!
