//! Trusted boundary to the `zip` crate. An archive is modeled as a map from
//! entry names to entry contents; `zip_entries_of` names the map that the
//! crate reads back from a byte sequence, and `zip_wf` names the byte
//! sequences the crate's own writer produces, which it opens and reads back
//! whole. The wrappers below state, over that model, what the crate's own
//! source shows of each call.

use vstd::prelude::*;
use vstd::utf8::encode_utf8;

verus! {

/// The entries that the `zip` crate reads from the given container bytes:
/// parsing a container is a function of the bytes alone.
pub uninterp spec fn zip_entries_of(bytes: Seq<u8>) -> Map<Seq<char>, Seq<u8>>;

/// The bytes form a container that the `zip` crate's own writer finished:
/// such a container opens without error and every entry of it reads back.
pub uninterp spec fn zip_wf(bytes: Seq<u8>) -> bool;

/// An archive being written, held by the `zip` crate over an in-memory
/// buffer.
#[verifier::external_body]
pub struct ArchiveWriter {
    inner: zip::ZipWriter<std::io::Cursor<Vec<u8>>>,
}

/// The entries written so far.
pub uninterp spec fn writer_entries(w: ArchiveWriter) -> Map<Seq<char>, Seq<u8>>;

/// Why reading one entry failed: the name is absent, or its data could not
/// be read back.
pub enum EntryError {
    NotFound,
    ReadFailed,
}

impl ArchiveWriter {
    /// Relies on `zip::ZipWriter::new`: a fresh writer holds no entry.
    #[verifier::external_body]
    pub fn new() -> (w: ArchiveWriter)
        ensures
            writer_entries(w) =~= Map::empty(),
    {
        ArchiveWriter { inner: zip::ZipWriter::new(std::io::Cursor::new(Vec::new())) }
    }

    /// Relies on `zip::ZipWriter::start_file` and `std::io::Write::write_all`:
    /// on success the archive gains exactly the one named entry with the
    /// given content; a name already present is refused by the crate. Over
    /// an in-memory buffer the call succeeds for a fresh name within the
    /// format's limits (the name's encoding must fit the header's length
    /// field, and entry data well clear of the plain-offset size cap, here
    /// taken at 2 GiB, including the entry finished by this call).
    #[verifier::external_body]
    pub fn add_entry(&mut self, name: &str, bytes: &[u8]) -> (r: Result<(), ()>)
        ensures
            r is Ok ==> writer_entries(*final(self)) == writer_entries(*old(self)).insert(
                name@,
                bytes@,
            ) && !writer_entries(*old(self)).contains_key(name@),
            ({
                &&& !writer_entries(*old(self)).contains_key(name@)
                &&& encode_utf8(name@).len() < 65536
                &&& bytes@.len() < 0x80000000
                &&& forall|k: Seq<char>|
                    #[trigger] writer_entries(*old(self)).contains_key(k) ==> writer_entries(
                        *old(self),
                    )[k].len() < 0x80000000
            }) ==> r is Ok,
    {
        let opts = zip::write::SimpleFileOptions::default();
        if self.inner.start_file(name, opts).is_err() {
            return Err(());
        }
        if std::io::Write::write_all(&mut self.inner, bytes).is_err() {
            return Err(());
        }
        Ok(())
    }

    /// Relies on `zip::ZipWriter::finish`: the finished container holds
    /// exactly the entries written, `zip::ZipArchive` reads them back, and
    /// finishing an in-memory writer succeeds when every written entry is
    /// within the format's limits as above.
    #[verifier::external_body]
    pub fn finish(self) -> (r: Result<Vec<u8>, ()>)
        ensures
            r matches Ok(b) ==> zip_entries_of(b@) == writer_entries(self) && zip_wf(b@),
            (forall|k: Seq<char>|
                #[trigger] writer_entries(self).contains_key(k) ==> writer_entries(self)[k].len()
                    < 0x80000000 && encode_utf8(k).len() < 65536) ==> r is Ok,
    {
        match self.inner.finish() {
            Ok(cursor) => Ok(cursor.into_inner()),
            Err(_) => Err(()),
        }
    }
}

/// An archive opened for reading, held by the `zip` crate over an in-memory
/// buffer.
#[verifier::external_body]
pub struct ArchiveReader {
    inner: zip::ZipArchive<std::io::Cursor<Vec<u8>>>,
}

/// The entries of the opened archive.
pub uninterp spec fn reader_entries(r: ArchiveReader) -> Map<Seq<char>, Seq<u8>>;

/// The opened archive came from a writer-produced container, so every entry
/// present in it reads back without error.
pub uninterp spec fn reader_sound(r: ArchiveReader) -> bool;

impl ArchiveReader {
    /// Relies on `zip::ZipArchive::new`: on success the opened archive holds
    /// the entries that the bytes encode; a writer-produced container opens
    /// without error.
    #[verifier::external_body]
    pub fn open(bytes: &[u8]) -> (r: Result<ArchiveReader, ()>)
        ensures
            r matches Ok(a) ==> reader_entries(a) == zip_entries_of(bytes@) && (zip_wf(bytes@)
                ==> reader_sound(a)),
            zip_wf(bytes@) ==> r is Ok,
    {
        match zip::ZipArchive::new(std::io::Cursor::new(bytes.to_vec())) {
            Ok(z) => Ok(ArchiveReader { inner: z }),
            Err(_) => Err(()),
        }
    }

    /// Relies on `zip::ZipArchive::by_name` and `std::io::Read::read_to_end`:
    /// an absent name fails with the crate's not-found error and nothing
    /// else does; a successful read returns the entry's content; in a
    /// writer-produced container a present entry always reads back.
    #[verifier::external_body]
    pub fn read_entry(&mut self, name: &str) -> (r: Result<Vec<u8>, EntryError>)
        ensures
            reader_entries(*final(self)) == reader_entries(*old(self)),
            reader_sound(*final(self)) == reader_sound(*old(self)),
            r matches Ok(b) ==> reader_entries(*old(self)).contains_key(name@) && b@
                == reader_entries(*old(self))[name@],
            (r matches Err(e) && e == EntryError::NotFound) <==> !reader_entries(
                *old(self),
            ).contains_key(name@),
            reader_sound(*old(self)) && reader_entries(*old(self)).contains_key(name@) ==> r
                is Ok,
    {
        match self.inner.by_name(name) {
            Ok(mut f) => {
                let mut buf: Vec<u8> = Vec::new();
                match std::io::Read::read_to_end(&mut f, &mut buf) {
                    Ok(_) => Ok(buf),
                    Err(_) => Err(EntryError::ReadFailed),
                }
            },
            Err(zip::result::ZipError::FileNotFound) => Err(EntryError::NotFound),
            Err(_) => Err(EntryError::ReadFailed),
        }
    }
}

} // verus!
