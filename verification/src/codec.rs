//! The ZIP codec, as this crate sees it.
//!
//! Everything in this file is taken on trust from the `zip` crate: the types
//! are opaque, and each function states what the crate's source shows of the
//! call it makes. Nothing here is proved.

use vstd::prelude::*;
use std::io::Read;
use std::io::Write;

verus! {

/// `std::io::Cursor`, the in-memory stream that archives are read from and
/// written to. Opaque.
#[verifier::external_type_specification]
#[verifier::external_body]
#[verifier::reject_recursive_types(T)]
pub struct ExCursor<T>(std::io::Cursor<T>);

/// `zip::ZipArchive`, an archive opened for reading. Opaque; what it holds
/// is named by [`archive_members`], what it reads from by [`archive_source`].
#[verifier::external_type_specification]
#[verifier::external_body]
#[verifier::reject_recursive_types(R)]
pub struct ExZipArchive<R>(zip::ZipArchive<R>);

/// `zip::read::ZipFile`, one member of an archive opened for reading.
/// Opaque; what it holds is named by [`member_of`].
#[verifier::external_type_specification]
#[verifier::external_body]
pub struct ExZipFile<'a>(zip::read::ZipFile<'a>);

/// `zip::result::ZipError`, the error of every fallible call of the `zip`
/// crate. Opaque.
#[verifier::external_type_specification]
#[verifier::external_body]
pub struct ExZipError(zip::result::ZipError);

/// One member of an archive as the reader reports it.
pub struct Member {
    /// The stored name.
    pub name: Seq<char>,
    /// Whether the reader accepts the name as a path that stays inside the
    /// directory it is resolved against.
    pub enclosed: bool,
    /// The decoded content, or nothing where it cannot be decoded.
    pub data: Option<Seq<u8>>,
}

/// The members of an open archive, in the order of its central directory.
/// A member that the reader refuses to open stands as `None`.
pub uninterp spec fn archive_members(archive: zip::ZipArchive<std::io::Cursor<Vec<u8>>>) -> Seq<Option<Member>>;

/// What the reader finds in `bytes`: the members of the archive that the
/// bytes hold, as [`archive_members`] gives them for the opened archive, or
/// nothing where the reader does not take the bytes for an archive.
pub uninterp spec fn stored_members(bytes: Seq<u8>) -> Option<Seq<Option<Member>>>;

/// The bytes that an open archive reads from: those of the stream that it
/// was opened on.
pub uninterp spec fn archive_source(archive: zip::ZipArchive<std::io::Cursor<Vec<u8>>>) -> Seq<u8>;

/// What an opened member holds.
pub uninterp spec fn member_of(file: zip::read::ZipFile<'_>) -> Member;

/// `ZipArchive::new` on an in-memory stream over `bytes`. The outcome
/// depends on the bytes alone: where the reader takes them for an archive,
/// the archive holds the members found in them, keeps the stream and reads
/// from the bytes it was given; where it does not, the call fails.
#[verifier::external_body]
pub(crate) fn archive_open(bytes: Vec<u8>) -> (res: Result<
    zip::ZipArchive<std::io::Cursor<Vec<u8>>>,
    zip::result::ZipError,
>)
    ensures
        match stored_members(bytes@) {
            Some(members) => res matches Ok(archive) && archive_members(archive) == members
                && archive_source(archive) == bytes@,
            None => res is Err,
        },
{
    zip::ZipArchive::new(std::io::Cursor::new(bytes))
}

/// `ZipArchive::len`: the number of members.
#[verifier::external_body]
pub(crate) fn archive_len(archive: &zip::ZipArchive<std::io::Cursor<Vec<u8>>>) -> (n: usize)
    ensures
        n == archive_members(*archive).len(),
{
    archive.len()
}

/// `ZipArchive::by_index_decrypt` with an empty password, which reports a
/// member that needs a password as a value where `by_index` would not return.
/// Opening a member leaves the archive as it was; an index within the
/// archive gives the member at that index, or nothing where the reader
/// refuses it.
#[verifier::external_body]
pub(crate) fn member_open<'a>(
    archive: &'a mut zip::ZipArchive<std::io::Cursor<Vec<u8>>>,
    index: usize,
) -> (res: Option<zip::read::ZipFile<'a>>)
    ensures
        archive_members(*final(archive)) == archive_members(*old(archive)),
        archive_source(*final(archive)) == archive_source(*old(archive)),
        index < archive_members(*old(archive)).len() ==> match res {
            Some(file) => archive_members(*old(archive))[index as int] == Some(member_of(file)),
            None => archive_members(*old(archive))[index as int] is None,
        },
{
    archive.by_index_decrypt(index, &[]).ok().and_then(|opened| opened.ok())
}

/// `ZipFile::name`: the stored name of the member.
#[verifier::external_body]
pub(crate) fn member_name(file: &zip::read::ZipFile<'_>) -> (name: String)
    ensures
        name@ == member_of(*file).name,
{
    file.name().to_string()
}

/// `ZipFile::enclosed_name`: the stored name as a path, given only where the
/// reader accepts it as staying inside the directory it is resolved against.
#[verifier::external_body]
pub(crate) fn member_enclosed_name(file: &zip::read::ZipFile<'_>) -> (path: Option<String>)
    ensures
        path is Some == member_of(*file).enclosed,
        path matches Some(p) ==> p@ == member_of(*file).name,
{
    file.enclosed_name().map(|p| p.display().to_string())
}

/// `Read::read_to_end` on a member that has just been opened: its whole
/// decoded content, or nothing where decoding or the checksum fails.
#[verifier::external_body]
pub(crate) fn member_read(file: zip::read::ZipFile<'_>) -> (data: Option<Vec<u8>>)
    ensures
        match data {
            Some(d) => member_of(file).data == Some(d@),
            None => member_of(file).data is None,
        },
{
    let mut file = file;
    let mut data = Vec::new();
    file.read_to_end(&mut data).ok().map(|_| data)
}

/// How the content of a file member is packed.
#[derive(Clone, Copy, Debug, PartialEq, Eq, Structural)]
pub enum Packing {
    /// As it is.
    Stored,
    /// Compressed with Deflate.
    Deflated,
}

/// One member of an archive as the writer has recorded it.
pub struct Written {
    /// The name under which it is stored.
    pub name: Seq<char>,
    /// Whether it is a directory.
    pub directory: bool,
    /// The Unix permission bits.
    pub mode: u32,
    /// How the content is packed.
    pub packing: Packing,
    /// The content.
    pub data: Seq<u8>,
}

/// The most bytes that the content of one member may hold. The size fields
/// of the format hold 32 bits, and content packed with Deflate can come out
/// longer than it went in; with content within this limit the packed size
/// always fits. A writer that has been given more can be left in a state in
/// which it can neither be closed nor given up, so no call here takes more.
pub const CONTENT_LIMIT: usize = 0x7FFF_FFFF;

/// Every member holds content within [`CONTENT_LIMIT`].
pub open spec fn within_limit(members: Seq<Written>) -> bool {
    forall|i: int| 0 <= i < members.len() ==> (#[trigger] members[i]).data.len() <= CONTENT_LIMIT
}

/// `zip::ZipWriter` over an in-memory stream. Opaque; what it holds is named
/// by [`sink_members`]. The writer is held in a struct of this crate because
/// its own declaration is bounded by traits of the standard library that
/// cannot be named here.
#[verifier::external_body]
pub struct ZipSink {
    inner: zip::ZipWriter<std::io::Cursor<Vec<u8>>>,
}

/// The members that a writer has recorded so far, in the order in which they
/// were added.
pub uninterp spec fn sink_members(sink: ZipSink) -> Seq<Written>;

/// Whether a writer that holds `members` takes `next` in their place behind
/// them: a member without content when it is added, a member with content
/// when the content is written to it.
pub uninterp spec fn sink_accepts(members: Seq<Written>, next: Written) -> bool;

/// The bytes of the archive that the writer produces for a list of members,
/// or nothing where it cannot close the archive.
pub uninterp spec fn archive_image(members: Seq<Written>) -> Option<Seq<u8>>;

/// The name that the writer records for a directory: the given name, with a
/// slash added unless it ends in a slash or a backslash already.
pub open spec fn directory_name(name: Seq<char>) -> Seq<char> {
    if name.len() > 0 && (name.last() == '/' || name.last() == '\\') {
        name
    } else {
        name + seq!['/']
    }
}

/// `ZipWriter::new` on an empty in-memory stream: a writer with no members.
#[verifier::external_body]
pub(crate) fn sink_new() -> (sink: ZipSink)
    ensures
        sink_members(sink) == Seq::<Written>::empty(),
{
    ZipSink { inner: zip::ZipWriter::new(std::io::Cursor::new(Vec::new())) }
}

/// `ZipWriter::start_file` on a writer whose members are within the limit,
/// with the permission bits and the packing set in the options and the
/// modification time fixed at the crate's default.
/// Whether it succeeds depends on the members held and on the member asked
/// for; on success a file member with no content yet has been added at the
/// end.
#[verifier::external_body]
pub(crate) fn sink_start_file(sink: &mut ZipSink, name: &str, mode: u32, packing: Packing) -> (res:
    Result<(), zip::result::ZipError>)
    requires
        within_limit(sink_members(*old(sink))),
    ensures
        res is Ok <==> sink_accepts(
            sink_members(*old(sink)),
            (Written { name: name@, directory: false, mode: mode & 0o777, packing, data: Seq::empty() }),
        ),
        res is Ok ==> sink_members(*final(sink)) == sink_members(*old(sink)).push(
            (Written { name: name@, directory: false, mode: mode & 0o777, packing, data: Seq::empty() }),
        ),
{
    let method = match packing {
        Packing::Stored => zip::CompressionMethod::Stored,
        Packing::Deflated => zip::CompressionMethod::Deflated,
    };
    let options = zip::write::FileOptions::default()
        .last_modified_time(zip::DateTime::default())
        .compression_method(method)
        .unix_permissions(mode);
    sink.inner.start_file(name, options)
}

/// `Write::write_all` on the writer, for the one write that gives a member
/// its content, which is within the limit. Whether it succeeds depends on the members held and on the
/// content; on success the bytes are the content of the last member.
#[verifier::external_body]
pub(crate) fn sink_write(sink: &mut ZipSink, data: &[u8]) -> (res: Result<(), zip::result::ZipError>)
    requires
        within_limit(sink_members(*old(sink))),
        sink_members(*old(sink)).len() > 0,
        sink_members(*old(sink)).last().data.len() == 0,
        data@.len() <= CONTENT_LIMIT,
    ensures
        res is Ok <==> sink_accepts(
            sink_members(*old(sink)).drop_last(),
            (Written { data: data@, ..sink_members(*old(sink)).last() }),
        ),
        res is Ok ==> sink_members(*final(sink)) == sink_members(*old(sink)).drop_last().push(
            (Written { data: data@, ..sink_members(*old(sink)).last() }),
        ),
{
    sink.inner.write_all(data).map_err(zip::result::ZipError::from)
}

/// `ZipWriter::add_directory` on a writer whose members are within the
/// limit, with the permission bits set in the options and the modification
/// time fixed at the crate's default. Whether it
/// succeeds depends on the members held and on the member asked for; on
/// success a directory member has been added at the end.
#[verifier::external_body]
pub(crate) fn sink_add_directory(sink: &mut ZipSink, name: &str, mode: u32) -> (res: Result<
    (),
    zip::result::ZipError,
>)
    requires
        within_limit(sink_members(*old(sink))),
    ensures
        res is Ok <==> sink_accepts(
            sink_members(*old(sink)),
            (Written {
                name: directory_name(name@),
                directory: true,
                mode: mode & 0o777,
                packing: Packing::Stored,
                data: Seq::empty(),
            }),
        ),
        res is Ok ==> sink_members(*final(sink)) == sink_members(*old(sink)).push(
            (Written {
                name: directory_name(name@),
                directory: true,
                mode: mode & 0o777,
                packing: Packing::Stored,
                data: Seq::empty(),
            }),
        ),
{
    let options = zip::write::FileOptions::default()
        .last_modified_time(zip::DateTime::default())
        .unix_permissions(mode);
    sink.inner.add_directory(name, options)
}

/// `ZipWriter::finish` on a writer whose members are within the limit: the
/// bytes of the archive, or a failure to close it; which of the two, and
/// which bytes, depends on the recorded members alone.
#[verifier::external_body]
pub(crate) fn sink_finish(sink: ZipSink) -> (res: Result<Vec<u8>, zip::result::ZipError>)
    requires
        within_limit(sink_members(sink)),
    ensures
        match archive_image(sink_members(sink)) {
            Some(image) => res matches Ok(bytes) && bytes@ == image,
            None => res is Err,
        },
{
    let mut sink = sink;
    sink.inner.finish().map(|stream| stream.into_inner())
}

} // verus!
