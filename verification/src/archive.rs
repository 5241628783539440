//! Zip archives built in memory with the `zip` crate, each file stored as it
//! is or compressed with deflate.
use vstd::prelude::*;

use std::io::Write;

use crate::error::ProxyNexusError;
use vstd::utf8::encode_utf8;

verus! {

/// A zip writer over a buffer in memory.
#[verifier::external_body]
pub struct MemoryZip {
    writer: zip::ZipWriter<std::io::Cursor<Vec<u8>>>,
}

#[verifier::external_type_specification]
#[verifier::external_body]
pub struct ExZipError(zip::result::ZipError);

#[verifier::external_type_specification]
#[verifier::external_body]
pub struct ExIoError(std::io::Error);

/// The files a writer holds so far, each with its name, its unix
/// permissions, whether it is compressed with deflate, and its bytes, in the
/// order they were started.
pub uninterp spec fn zip_files(w: MemoryZip) -> Seq<(Seq<char>, u32, bool, Seq<u8>)>;

/// Whether the writer has a file started that takes the bytes written next.
pub uninterp spec fn zip_writing(w: MemoryZip) -> bool;

/// The bytes of the archive that `ZipWriter::finish` writes for the given
/// files, each made by Unix, with its permissions, stored or deflated at the
/// default level, and otherwise the default options (whose date, without the
/// crate's `time` feature, is 1980-01-01).
pub uninterp spec fn zip_archive(files: Seq<(Seq<char>, u32, bool, Seq<u8>)>) -> Seq<u8>;

/// The length of a name in UTF-8 bytes, as the archive records it.
pub open spec fn name_bytes(name: Seq<char>) -> nat {
    encode_utf8(name).len()
}

/// A bound on the bytes an archive of these files takes: each file's name
/// twice (local header and central directory), its bytes, and room for its
/// fixed header fields and for what deflate may add.
pub open spec fn zip_size(files: Seq<(Seq<char>, u32, bool, Seq<u8>)>) -> nat
    decreases files.len(),
{
    if files.len() == 0 {
        0
    } else {
        let f = files.last();
        zip_size(files.drop_last()) + 2 * name_bytes(f.0) + 2 * f.3.len() + 256
    }
}

/// The limit below which no field of an archive needs the large-file
/// extensions: 2 GiB in all, fewer than 65000 files.
pub open spec fn zip_small(files: Seq<(Seq<char>, u32, bool, Seq<u8>)>) -> bool {
    zip_size(files) < 0x8000_0000 && files.len() < 65000
}

pub open spec fn zip_names(files: Seq<(Seq<char>, u32, bool, Seq<u8>)>) -> Seq<Seq<char>> {
    files.map_values(|f: (Seq<char>, u32, bool, Seq<u8>)| f.0)
}

/// Calls `ZipWriter::new` on an empty buffer: the writer holds no file.
#[verifier::external_body]
fn zip_new() -> (r: MemoryZip)
    ensures
        zip_files(r) == Seq::<(Seq<char>, u32, bool, Seq<u8>)>::empty(),
        !zip_writing(r),
{
    MemoryZip { writer: zip::ZipWriter::new(std::io::Cursor::new(Vec::new())) }
}

/// Calls `ZipWriter::start_file` with Unix as the system, the given
/// permissions, and the stored or the deflate method: once it succeeds the
/// writer holds a new, empty file of that name after the others, open for
/// writing.  It succeeds when the name is new, not empty and short (the
/// local header with the name must stay under 64 KiB), and the archive stays
/// small; writing into memory cannot fail otherwise.
#[verifier::external_body]
fn zip_start_file(w: &mut MemoryZip, name: &str, mode: u32, deflated: bool) -> (r: Result<
    (),
    zip::result::ZipError,
>)
    ensures
        r is Ok ==> zip_files(*final(w)) == zip_files(*old(w)).push((name@, mode, deflated, Seq::<u8>::empty()))
            && zip_writing(*final(w)),
        (name@.len() > 0 && name_bytes(name@) < 65000 && !zip_names(zip_files(*old(w))).contains(name@) && zip_small(
            zip_files(*old(w)).push((name@, mode, deflated, Seq::<u8>::empty())),
        )) ==> r is Ok,
{
    let method = if deflated {
        zip::CompressionMethod::Deflated
    } else {
        zip::CompressionMethod::Stored
    };
    let options = zip::write::SimpleFileOptions::default()
        .compression_method(method)
        .system(zip::System::Unix)
        .unix_permissions(mode);
    w.writer.start_file(name, options)
}

/// Calls `Write::write_all` on the writer: once it succeeds the bytes are
/// added to the end of the last file started, and some file was started
/// unless there were no bytes.  It succeeds when a file is open and the
/// archive stays small (a file of 4 GiB or more is refused).
#[verifier::external_body]
fn zip_write_all(w: &mut MemoryZip, data: &[u8]) -> (r: Result<(), std::io::Error>)
    ensures
        r is Ok ==> {
            let files = zip_files(*old(w));
            &&& data@.len() > 0 ==> files.len() > 0
            &&& zip_writing(*final(w)) == zip_writing(*old(w))
            &&& zip_files(*final(w)) == if files.len() > 0 {
                files.update(files.len() - 1, (files.last().0, files.last().1, files.last().2, files.last().3 + data@))
            } else {
                files
            }
        },
        ({
            let files = zip_files(*old(w));
            &&& zip_writing(*old(w))
            &&& files.len() > 0
            &&& zip_small(
                files.update(files.len() - 1, (files.last().0, files.last().1, files.last().2, files.last().3 + data@)),
            )
        }) ==> r is Ok,
{
    w.writer.write_all(data)
}

/// Calls `ZipWriter::finish` and takes the buffer out of its cursor; it
/// succeeds when the archive is small.
#[verifier::external_body]
fn zip_finish(w: MemoryZip) -> (r: Result<Vec<u8>, zip::result::ZipError>)
    ensures
        r matches Ok(bytes) ==> bytes@ == zip_archive(zip_files(w)),
        zip_small(zip_files(w)) ==> r is Ok,
{
    match w.writer.finish() {
        Ok(cursor) => Ok(cursor.into_inner()),
        Err(e) => Err(e),
    }
}

/// The text of a `zip` error, as its `Display` writes it.
#[verifier::external_body]
fn zip_error_text(e: &zip::result::ZipError) -> String {
    format!("{}", e)
}

/// The text of an I/O error, as its `Display` writes it.
#[verifier::external_body]
fn io_error_text(e: &std::io::Error) -> String {
    format!("{}", e)
}

/// One file of an archive.
pub struct ArchiveFile {
    pub name: String,
    pub data: Vec<u8>,
}

pub open spec fn file_view(f: ArchiveFile) -> (Seq<char>, Seq<u8>) {
    (f.name@, f.data@)
}

/// The entries of the files, each with the given permissions and method.
pub open spec fn entries_with(files: Seq<ArchiveFile>, mode: u32, deflated: bool) -> Seq<
    (Seq<char>, u32, bool, Seq<u8>),
> {
    files.map_values(|f: ArchiveFile| (f.name@, mode, deflated, f.data@))
}

/// The names can be written: none is empty or too long, and no two are
/// equal.
pub open spec fn names_writable(files: Seq<ArchiveFile>) -> bool {
    &&& forall|i: int| 0 <= i < files.len() ==> (#[trigger] files[i]).name@.len() > 0 && name_bytes(files[i].name@) < 65000
    &&& forall|i: int, j: int| 0 <= i < j < files.len() ==> (#[trigger] files[i]).name@ != (#[trigger] files[j]).name@
}

proof fn lemma_zip_size_prefix(fs: Seq<(Seq<char>, u32, bool, Seq<u8>)>, n: int)
    requires
        0 <= n <= fs.len(),
    ensures
        zip_size(fs.take(n)) <= zip_size(fs),
    decreases fs.len() - n,
{
    if n < fs.len() {
        lemma_zip_size_prefix(fs, n + 1);
        assert(fs.take(n + 1).drop_last() =~= fs.take(n));
    } else {
        assert(fs.take(n) =~= fs);
    }
}

/// The archive holding the given files in order, each with the given unix
/// permissions, compressed with deflate or stored as it is; a failure of the
/// writer gives its text as the error.  It succeeds when the names can be
/// written and the archive is small.
pub fn build_zip(files: &Vec<ArchiveFile>, mode: u32, deflated: bool) -> (r: Result<Vec<u8>, ProxyNexusError>)
    ensures
        r matches Ok(bytes) ==> bytes@ == zip_archive(entries_with(files@, mode, deflated)),
        r matches Err(e) ==> e is Message,
        names_writable(files@) && zip_small(entries_with(files@, mode, deflated)) ==> r is Ok,
{
    let ghost fv = entries_with(files@, mode, deflated);
    let ghost ok = names_writable(files@) && zip_small(fv);
    let mut w = zip_new();
    let mut i: usize = 0;
    while i < files.len()
        invariant
            i <= files@.len(),
            fv == entries_with(files@, mode, deflated),
            ok == (names_writable(files@) && zip_small(fv)),
            zip_files(w) == fv.take(i as int),
            ok ==> (i == 0 || zip_writing(w)),
        decreases files.len() - i,
    {
        let f = &files[i];
        proof {
            if ok {
                lemma_zip_size_prefix(fv, i + 1);
                let t = fv.take(i + 1);
                let u = fv.take(i as int).push((f.name@, mode, deflated, Seq::<u8>::empty()));
                assert(u.drop_last() =~= t.drop_last());
                assert(zip_size(u) <= zip_size(t));
                assert(files@[i as int].name@.len() > 0 && name_bytes(files@[i as int].name@) < 65000);
                if zip_names(fv.take(i as int)).contains(f.name@) {
                    let k = choose|k: int|
                        0 <= k < zip_names(fv.take(i as int)).len() && zip_names(fv.take(i as int))[k] == f.name@;
                    assert(files@[k].name@ == files@[i as int].name@);
                }
            }
        }
        match zip_start_file(&mut w, f.name.as_str(), mode, deflated) {
            Ok(()) => {},
            Err(e) => {
                return Err(ProxyNexusError::Message(zip_error_text(&e)));
            },
        }
        proof {
            if ok {
                let files_now = zip_files(w);
                let upd = files_now.update(
                    files_now.len() - 1,
                    (files_now.last().0, files_now.last().1, files_now.last().2, files_now.last().3 + f.data@),
                );
                assert(upd =~= fv.take(i + 1));
                lemma_zip_size_prefix(fv, i + 1);
            }
        }
        match zip_write_all(&mut w, f.data.as_slice()) {
            Ok(()) => {},
            Err(e) => {
                return Err(ProxyNexusError::Message(io_error_text(&e)));
            },
        }
        assert(Seq::<u8>::empty() + f.data@ =~= f.data@);
        i = i + 1;
        assert(zip_files(w) =~= fv.take(i as int));
    }
    assert(fv.take(i as int) =~= fv);
    match zip_finish(w) {
        Ok(bytes) => Ok(bytes),
        Err(e) => Err(ProxyNexusError::Message(zip_error_text(&e))),
    }
}

} // verus!
