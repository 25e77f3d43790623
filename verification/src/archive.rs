//! Archive building: streams named byte contents into a single zip
//! archive, stored plainly or deflated, one entry per file.

use vstd::prelude::*;

use std::io::Cursor;
use std::io::Write;
use zip::write::FileOptions;
use zip::write::ZipWriter;

use crate::errors::FsError;

verus! {

/// Largest content an archive entry may hold before the writer demands
/// the large-file mode this crate does not use.
pub const ZIP_ENTRY_MAX: u64 = 0xFFFFFFFF;

/// An archive being written into an in-memory buffer. The writer itself
/// is outside code; the builder tracks its entries only through the
/// contracts below.
#[verifier::external_body]
pub struct ZipBuilder {
    writer: ZipWriter<Cursor<Vec<u8>>>,
    compress: bool,
}

/// The named entries written into the archive so far, in order.
pub uninterp spec fn zip_entries(z: ZipBuilder) -> Seq<(Seq<char>, Seq<u8>)>;

/// Whether the archive deflates its entries (else they are stored).
pub uninterp spec fn zip_compressed(z: ZipBuilder) -> bool;

/// The bytes of the finished archive: with fixed entry metadata, a
/// function of the entries and the compression choice alone.
pub uninterp spec fn zip_encoding(entries: Seq<(Seq<char>, Seq<u8>)>, compress: bool) -> Seq<u8>;

/// Whether opening one further entry succeeds, given the entries written
/// so far: with an in-memory buffer the outcome depends on the builder's
/// content alone.
pub uninterp spec fn zip_start_ok(
    entries: Seq<(Seq<char>, Seq<u8>)>,
    compress: bool,
    name: Seq<char>,
) -> bool;

/// Whether appending the bytes to the entry opened last succeeds.
pub uninterp spec fn zip_append_ok(
    entries: Seq<(Seq<char>, Seq<u8>)>,
    compress: bool,
    data: Seq<u8>,
) -> bool;

/// Whether closing the archive succeeds.
pub uninterp spec fn zip_finish_ok(entries: Seq<(Seq<char>, Seq<u8>)>, compress: bool) -> bool;

/// Relies on `zip::ZipWriter::new` over an in-memory cursor: a fresh
/// archive with no entries.
#[verifier::external_body]
pub(crate) fn zip_builder_new(compress: bool) -> (z: ZipBuilder)
    ensures
        zip_entries(z) == Seq::<(Seq<char>, Seq<u8>)>::empty(),
        zip_compressed(z) == compress,
{
    ZipBuilder { writer: ZipWriter::new(Cursor::new(Vec::new())), compress }
}

/// Relies on `zip::ZipWriter::start_file`: opens one further entry under
/// the given archive path, deflated or stored per the builder's policy.
/// Over an in-memory cursor the call fails only while closing the
/// previous entry, when that entry's compressed size overruns the
/// large-file bound; a stored entry's compressed size equals its content
/// size, so under the bound the call succeeds.
#[verifier::external_body]
pub(crate) fn zip_start_entry(z: &mut ZipBuilder, name: &str) -> (ok: bool)
    ensures
        ok == zip_start_ok(zip_entries(*old(z)), zip_compressed(*old(z)), name@),
        ok ==> zip_entries(*final(z)) == zip_entries(*old(z)).push((name@, Seq::<u8>::empty()))
            && zip_compressed(*final(z)) == zip_compressed(*old(z)),
        (!zip_compressed(*old(z)) && (zip_entries(*old(z)).len() == 0 || zip_entries(
            *old(z),
        ).last().1.len() <= ZIP_ENTRY_MAX)) ==> ok,
{
    let method = if z.compress {
        zip::CompressionMethod::Deflated
    } else {
        zip::CompressionMethod::Stored
    };
    let options = FileOptions::default().compression_method(method).unix_permissions(0o755);
    z.writer.start_file(name, options).is_ok()
}

/// Relies on `std::io::Write::write_all` through the zip writer: appends
/// the bytes to the entry opened last. The writer refuses content past
/// the large-file bound; below it, writing into the in-memory cursor
/// succeeds.
#[verifier::external_body]
pub(crate) fn zip_append_bytes(z: &mut ZipBuilder, data: &[u8]) -> (ok: bool)
    requires
        zip_entries(*old(z)).len() > 0,
    ensures
        ok == zip_append_ok(zip_entries(*old(z)), zip_compressed(*old(z)), data@),
        ok ==> ({
            let es = zip_entries(*old(z));
            let last = es[es.len() - 1];
            zip_entries(*final(z)) == es.update(es.len() - 1, (last.0, last.1 + data@))
                && zip_compressed(*final(z)) == zip_compressed(*old(z))
        }),
        (zip_entries(*old(z)).last().1.len() + data@.len() <= ZIP_ENTRY_MAX) ==> ok,
{
    z.writer.write_all(data).is_ok()
}

/// Relies on `zip::ZipWriter::finish`: closes the archive and hands back
/// the buffer holding its bytes (never empty: the end-of-central-directory
/// record is always written). Over an in-memory cursor the call fails
/// only when the last entry's compressed size overruns the large-file
/// bound, which a stored entry under the bound never does.
#[verifier::external_body]
pub(crate) fn zip_finish(z: ZipBuilder) -> (r: Option<Vec<u8>>)
    ensures
        (r is Some) == zip_finish_ok(zip_entries(z), zip_compressed(z)),
        r is Some ==> r->Some_0@ == zip_encoding(zip_entries(z), zip_compressed(z))
            && r->Some_0@.len() > 0,
        (!zip_compressed(z) && (zip_entries(z).len() == 0 || zip_entries(z).last().1.len()
            <= ZIP_ENTRY_MAX)) ==> r is Some,
{
    let mut z = z;
    match z.writer.finish() {
        Ok(c) => Some(c.into_inner()),
        Err(_) => None,
    }
}

/// The entry list denoted by a vector of (archive path, content) pairs.
pub open spec fn named_entries(fs: Seq<(String, Vec<u8>)>) -> Seq<(Seq<char>, Seq<u8>)> {
    fs.map_values(|p: (String, Vec<u8>)| (p.0@, p.1@))
}

/// Does the whole writer run over the remaining entries succeed, the
/// `done` ones already written? One start and one append per entry, then
/// the close.
pub open spec fn archive_steps_ok(
    done: Seq<(Seq<char>, Seq<u8>)>,
    rest: Seq<(Seq<char>, Seq<u8>)>,
    compress: bool,
) -> bool
    decreases rest.len(),
{
    if rest.len() == 0 {
        zip_finish_ok(done, compress)
    } else {
        let e = rest[0];
        &&& zip_start_ok(done, compress, e.0)
        &&& zip_append_ok(done.push((e.0, Seq::<u8>::empty())), compress, e.1)
        &&& archive_steps_ok(done.push(e), rest.drop_first(), compress)
    }
}

/// Writes the given named contents into one archive with one entry per
/// pair, in order. The writer accepts the run exactly when every step
/// does; entries stored uncompressed are always accepted while each
/// content stays within the large-file bound.
pub fn create_zip_archive(files: Vec<(String, Vec<u8>)>) -> (r: Result<Vec<u8>, FsError>)
    ensures
        r is Ok <==> archive_steps_ok(
            Seq::<(Seq<char>, Seq<u8>)>::empty(),
            named_entries(files@),
            false,
        ),
        r is Ok ==> r->Ok_0@ == zip_encoding(named_entries(files@), false) && r->Ok_0@.len() > 0,
        r is Err ==> r->Err_0 == FsError::StorageIO,
        (forall|t: int|
            0 <= t < files@.len() ==> (#[trigger] files@[t]).1@.len() <= ZIP_ENTRY_MAX) ==> r is Ok,
{
    match build_archive_entries(files, false) {
        Some(bytes) => Ok(bytes),
        None => Err(FsError::StorageIO),
    }
}

/// Runs the writer over the entries; `None` exactly when a step fails.
pub(crate) fn build_archive_entries(files: Vec<(String, Vec<u8>)>, compress: bool) -> (r: Option<
    Vec<u8>,
>)
    ensures
        r is Some <==> archive_steps_ok(
            Seq::<(Seq<char>, Seq<u8>)>::empty(),
            named_entries(files@),
            compress,
        ),
        r is Some ==> r->Some_0@ == zip_encoding(named_entries(files@), compress)
            && r->Some_0@.len() > 0,
        (!compress && forall|t: int|
            0 <= t < files@.len() ==> (#[trigger] files@[t]).1@.len() <= ZIP_ENTRY_MAX) ==> r
            is Some,
{
    let ghost full = named_entries(files@);
    let mut z = zip_builder_new(compress);
    let n = files.len();
    let mut i: usize = 0;
    proof {
        assert(named_entries(files@.take(0)) =~= Seq::<(Seq<char>, Seq<u8>)>::empty());
        assert(full.skip(0) =~= full);
    }
    while i < n
        invariant
            full == named_entries(files@),
            i <= n,
            n == files@.len(),
            zip_compressed(z) == compress,
            zip_entries(z) =~= named_entries(files@.take(i as int)),
            archive_steps_ok(Seq::<(Seq<char>, Seq<u8>)>::empty(), full, compress)
                <==> archive_steps_ok(zip_entries(z), full.skip(i as int), compress),
        decreases n - i,
    {
        proof {
            assert(files@.take(i as int + 1).drop_last() =~= files@.take(i as int));
            assert(named_entries(files@.take(i as int + 1)) =~= named_entries(
                files@.take(i as int),
            ).push((files@[i as int].0@, files@[i as int].1@)));
            assert(full.skip(i as int)[0] == full[i as int]);
            assert(full.skip(i as int).drop_first() =~= full.skip(i as int + 1));
        }
        let ghost before = zip_entries(z);
        let name: &String = &files[i].0;
        let data: &Vec<u8> = &files[i].1;
        if !zip_start_entry(&mut z, name.as_str()) {
            proof {
                assert(!zip_start_ok(before, compress, name@));
                assert(!archive_steps_ok(before, full.skip(i as int), compress));
                if !compress {
                    // only an oversized previous entry can refuse the start
                    assert(before.len() > 0 && before.last().1.len() > ZIP_ENTRY_MAX);
                    assert(before.last() == (files@[i as int - 1].0@, files@[i as int - 1].1@));
                    assert(files@[i as int - 1].1@.len() > ZIP_ENTRY_MAX);
                }
            }
            return None;
        }
        if !zip_append_bytes(&mut z, data.as_slice()) {
            proof {
                assert(!zip_append_ok(before.push((name@, Seq::<u8>::empty())), compress, data@));
                assert(!archive_steps_ok(before, full.skip(i as int), compress));
                // only oversized content can refuse the append
                assert(files@[i as int].1@.len() > ZIP_ENTRY_MAX);
            }
            return None;
        }
        proof {
            assert(zip_entries(z) =~= before.push((name@, Seq::<u8>::empty())).update(
                before.len() as int,
                (name@, Seq::<u8>::empty() + data@),
            ));
            assert(Seq::<u8>::empty() + data@ =~= data@);
            assert(zip_entries(z) =~= named_entries(files@.take(i as int + 1)));
            assert(zip_entries(z) =~= before.push(full[i as int]));
        }
        i = i + 1;
    }
    proof {
        assert(files@.take(n as int) =~= files@);
        assert(full.skip(n as int) =~= Seq::<(Seq<char>, Seq<u8>)>::empty());
    }
    let ghost closing = zip_entries(z);
    let out = zip_finish(z);
    proof {
        if out is None && !compress {
            // only an oversized last entry can refuse the close
            assert(closing.len() > 0 && closing.last().1.len() > ZIP_ENTRY_MAX);
            assert(closing.last() == (files@[n as int - 1].0@, files@[n as int - 1].1@));
            assert(files@[n as int - 1].1@.len() > ZIP_ENTRY_MAX);
        }
    }
    out
}

} // verus!
