//! Reading CKAN metadata archives.

use vstd::prelude::*;
use std::io::{Cursor, Read};
use std::time::Duration;
use flate2::read::GzDecoder;
use zip::ZipArchive;

use crate::clock::{elapsed_since, now};
use crate::order::opt_view;
use crate::text::{ends_with, ends_with_spec, text_copy};

verus! {

/// One metadata file: its path in the archive and its text.
pub struct TextEntry {
    pub path: String,
    pub contents: String,
}

/// The metadata files read from an archive.
pub struct ArchiveLoad {
    /// How many entries the archive holds in all.
    pub archive_entries: usize,
    /// The relevant entries, in archive order.
    pub entries: Vec<TextEntry>,
    /// The total size of the relevant entries.
    pub bytes_read: u64,
    pub elapsed: Duration,
}

/// Whether an archive path names a metadata file the library reads: a
/// `.ckan` module, or the download counts, builds or repositories list.
pub open spec fn is_relevant_spec(path: Seq<char>) -> bool {
    ||| ends_with_spec(path, ".ckan"@)
    ||| ends_with_spec(path, "download_counts.json"@)
    ||| ends_with_spec(path, "builds.json"@)
    ||| ends_with_spec(path, "repositories.json"@)
}

pub fn is_relevant_entry(path: &str) -> (r: bool)
    ensures
        r == is_relevant_spec(path@),
{
    ends_with(path, ".ckan") || ends_with(path, "download_counts.json") || ends_with(
        path,
        "builds.json",
    ) || ends_with(path, "repositories.json")
}

/// Why an archive could not be read.
pub enum ArchiveError {
    /// The file name has no supported archive extension.
    UnsupportedArchiveType { file_name: String },
    /// The archive kind is neither `zip` nor `tar.gz`.
    UnsupportedKind { kind: String },
    /// The archive could not be read.
    Unreadable { message: String },
    /// A relevant entry is not UTF-8 text.
    NotText { path: String },
}

/// The kind of an archive, from its file name: `zip` for `.zip`, `tar.gz`
/// for `.tar.gz` or `.tgz`.
pub open spec fn archive_kind_spec(file_name: Seq<char>) -> Option<Seq<char>> {
    if ends_with_spec(file_name, ".zip"@) {
        Some("zip"@)
    } else if ends_with_spec(file_name, ".tar.gz"@) || ends_with_spec(file_name, ".tgz"@) {
        Some("tar.gz"@)
    } else {
        None
    }
}

/// The kind of an archive, from the last component of its path.
pub fn archive_kind(file_name: &str) -> (r: Result<&'static str, ArchiveError>)
    ensures
        match r {
            Ok(kind) => archive_kind_spec(file_name@) == Some(kind@),
            Err(e) => archive_kind_spec(file_name@) is None && e == (ArchiveError::UnsupportedArchiveType {
                file_name: e->file_name,
            }) && e->file_name@ == file_name@,
        },
{
    if ends_with(file_name, ".zip") {
        Ok("zip")
    } else if ends_with(file_name, ".tar.gz") || ends_with(file_name, ".tgz") {
        Ok("tar.gz")
    } else {
        Err(ArchiveError::UnsupportedArchiveType { file_name: text_copy(file_name) })
    }
}

// ---------------------------------------------------------------------------
// Reading archives
// ---------------------------------------------------------------------------

#[verifier::external_type_specification]
#[verifier::external_body]
#[verifier::reject_recursive_types(R)]
pub struct ExZipArchive<R>(ZipArchive<R>);

#[verifier::external_type_specification]
#[verifier::external_body]
#[verifier::reject_recursive_types(T)]
pub struct ExCursor<T>(Cursor<T>);

#[verifier::external_type_specification]
#[verifier::external_body]
pub struct ExIoError(std::io::Error);

/// An entry of a zip archive as specifications see it: its name, its
/// uncompressed size, whether `by_index` reads it, and its text when its
/// data reads as UTF-8.
pub type ZipEntryView = (Seq<char>, u64, bool, Option<Seq<char>>);

/// Names the entries of an opened zip archive, in central directory order.
pub uninterp spec fn zip_entries(archive: ZipArchive<Cursor<Vec<u8>>>) -> Seq<ZipEntryView>;

/// Names the entries of the zip archive in the bytes, none when
/// `ZipArchive::new` does not open them.
pub uninterp spec fn zip_listing(bytes: Seq<u8>) -> Option<Seq<ZipEntryView>>;

/// `ZipArchive::new` on the bytes: it opens exactly when the bytes have a
/// listing, and the archive holds the entries that the bytes list.
#[verifier::external_body]
fn zip_open(bytes: Vec<u8>) -> (r: Result<ZipArchive<Cursor<Vec<u8>>>, std::io::Error>)
    ensures
        r is Ok <==> zip_listing(bytes@) is Some,
        r matches Ok(archive) ==> zip_listing(bytes@) == Some(zip_entries(archive)),
{
    ZipArchive::new(Cursor::new(bytes)).map_err(std::io::Error::from)
}

/// `ZipArchive::len`: the number of entries.
#[verifier::external_body]
fn zip_len(archive: &ZipArchive<Cursor<Vec<u8>>>) -> (r: usize)
    ensures
        r == zip_entries(*archive).len(),
{
    archive.len()
}

/// `ZipArchive::by_index`, then the entry's `name` and `size`: it reads
/// exactly the entries that the listing marks readable. Reading leaves the
/// entries as they are.
#[verifier::external_body]
fn zip_entry_header(archive: &mut ZipArchive<Cursor<Vec<u8>>>, index: usize) -> (r: Result<(String, u64), std::io::Error>)
    requires
        index < zip_entries(*old(archive)).len(),
    ensures
        zip_entries(*final(archive)) == zip_entries(*old(archive)),
        r is Ok <==> zip_entries(*old(archive))[index as int].2,
        r matches Ok((name, size)) ==> name@ == zip_entries(*old(archive))[index as int].0 && size
            == zip_entries(*old(archive))[index as int].1,
{
    let file = archive.by_index(index).map_err(std::io::Error::from)?;
    Ok((file.name().to_string(), file.size()))
}

/// `ZipArchive::by_index`, then `read_to_string` on the entry: it gives the
/// entry's text exactly when the listing has one. Reading leaves the
/// entries as they are.
#[verifier::external_body]
fn zip_entry_text(archive: &mut ZipArchive<Cursor<Vec<u8>>>, index: usize) -> (r: Result<String, std::io::Error>)
    requires
        index < zip_entries(*old(archive)).len(),
    ensures
        zip_entries(*final(archive)) == zip_entries(*old(archive)),
        r is Ok <==> zip_entries(*old(archive))[index as int].3 is Some,
        r matches Ok(text) ==> zip_entries(*old(archive))[index as int].3 == Some(text@),
{
    let mut file = archive.by_index(index).map_err(std::io::Error::from)?;
    let mut contents = String::new();
    file.read_to_string(&mut contents)?;
    Ok(contents)
}

/// `io::Error`'s message (its `Display`).
#[verifier::external_body]
fn io_error_text(error: &std::io::Error) -> String {
    error.to_string()
}

/// A raw entry of a tar archive: its path, its size and its data, none when
/// reading the data failed.
pub struct RawEntry {
    pub path: String,
    pub size: u64,
    pub data: Option<Vec<u8>>,
}

/// A tar entry as specifications see it: path, size and data.
pub type TarEntryView = (Seq<char>, u64, Option<Seq<u8>>);

pub open spec fn raw_view(e: RawEntry) -> TarEntryView {
    (
        e.path@,
        e.size,
        match e.data {
            Some(d) => Some(d@),
            None => None,
        },
    )
}

pub open spec fn raw_views(entries: Seq<RawEntry>) -> Seq<TarEntryView> {
    entries.map_values(|e: RawEntry| raw_view(e))
}

/// Names what reading the gzip-compressed tar archive in the bytes gives:
/// the entries read, in order, and whether reading ended with an error.
pub uninterp spec fn tar_gz_listing(bytes: Seq<u8>) -> (Seq<TarEntryView>, bool);

/// `tar::Archive::entries` over a `flate2::read::GzDecoder` of the bytes:
/// each entry's path (`to_string_lossy`), `size` and data (`read_to_end`),
/// up to the first error, which it hands back. An entry whose data fails to
/// read is kept without data. What it reads is the bytes' listing.
#[verifier::external_body]
fn tar_gz_entries(bytes: &[u8]) -> (r: (Vec<RawEntry>, Option<std::io::Error>))
    ensures
        (raw_views(r.0@), r.1 is Some) == tar_gz_listing(bytes@),
{
    let mut out = Vec::new();
    let mut read_all = || -> std::io::Result<()> {
        for entry in tar::Archive::new(GzDecoder::new(bytes)).entries()? {
            let mut entry = entry?;
            let (path, mut data) = (entry.path()?.to_string_lossy().to_string(), Vec::new());
            let read = entry.read_to_end(&mut data);
            out.push(RawEntry { path, size: entry.size(), data: read.is_ok().then_some(data) });
            read?;
        }
        Ok(())
    };
    let end = read_all();
    (out, end.err())
}

/// Names the text that UTF-8 bytes decode to, none when they are not UTF-8.
pub uninterp spec fn utf8_decode(bytes: Seq<u8>) -> Option<Seq<char>>;

/// `String::from_utf8`, without its error.
#[verifier::external_body]
fn utf8_text(data: Vec<u8>) -> (r: Option<String>)
    ensures
        opt_view(r) == utf8_decode(data@),
{
    String::from_utf8(data).ok()
}

/// A total, capped at the largest `u64`.
pub open spec fn saturated_u64(n: nat) -> u64 {
    if n > u64::MAX {
        u64::MAX
    } else {
        n as u64
    }
}

/// The positions of the relevant names, in order.
pub open spec fn relevant_positions(names: Seq<Seq<char>>) -> Seq<int>
    decreases names.len(),
{
    if names.len() == 0 {
        Seq::empty()
    } else {
        let rest = relevant_positions(names.drop_last());
        if is_relevant_spec(names.last()) {
            rest.push(names.len() - 1)
        } else {
            rest
        }
    }
}

/// The total of the sizes at the given positions.
pub open spec fn size_total(sizes: Seq<u64>, positions: Seq<int>) -> nat
    decreases positions.len(),
{
    if positions.len() == 0 {
        0
    } else {
        size_total(sizes, positions.drop_last()) + (sizes[positions.last()] as nat)
    }
}

proof fn lemma_relevant_positions_range(names: Seq<Seq<char>>)
    ensures
        forall|k: int|
            0 <= k < relevant_positions(names).len() ==> 0 <= #[trigger] relevant_positions(names)[k] < names.len(),
    decreases names.len(),
{
    if names.len() > 0 {
        lemma_relevant_positions_range(names.drop_last());
        let rest = relevant_positions(names.drop_last());
        let all = relevant_positions(names);
        assert forall|k: int| 0 <= k < all.len() implies 0 <= #[trigger] all[k] < names.len() by {
            if k < rest.len() {
                assert(all[k] == rest[k]);
            }
        }
    }
}

// ---------------------------------------------------------------------------
// Zip archives
// ---------------------------------------------------------------------------

/// A zip entry loads when `by_index` reads it and, if it is relevant, its
/// data reads as UTF-8 text.
pub open spec fn zip_entry_loads(e: ZipEntryView) -> bool {
    e.2 && (is_relevant_spec(e.0) ==> e.3 is Some)
}

/// `i` is the first entry that does not load.
pub open spec fn zip_first_failure(listing: Seq<ZipEntryView>, i: int) -> bool {
    &&& 0 <= i < listing.len()
    &&& !zip_entry_loads(listing[i])
    &&& forall|j: int| 0 <= j < i ==> zip_entry_loads(#[trigger] listing[j])
}

proof fn lemma_zip_failure_at(listing: Seq<ZipEntryView>, i: int)
    requires
        zip_first_failure(listing, i),
    ensures
        forall|j: int| #[trigger] zip_first_failure(listing, j) ==> j == i,
        !(forall|j: int| 0 <= j < listing.len() ==> zip_entry_loads(#[trigger] listing[j])),
{
    assert forall|j: int| #[trigger] zip_first_failure(listing, j) implies j == i by {
        if j < i {
            assert(zip_entry_loads(listing[j]));
        } else if i < j {
            assert(zip_entry_loads(listing[i]));
        }
    }
}

/// The relevant zip entries that a load keeps: the entries with a relevant
/// name, in order, with their text, and the total of their sizes.
pub open spec fn zip_load_of(load: ArchiveLoad, listing: Seq<ZipEntryView>) -> bool {
    let kept = relevant_positions(listing.map_values(|e: ZipEntryView| e.0));
    &&& load.archive_entries == listing.len()
    &&& load.entries.len() == kept.len()
    &&& forall|k: int|
        0 <= k < kept.len() ==> {
            &&& (#[trigger] load.entries@[k]).path@ == listing[kept[k]].0
            &&& listing[kept[k]].3 == Some(load.entries@[k].contents@)
        }
    &&& load.bytes_read == saturated_u64(size_total(listing.map_values(|e: ZipEntryView| e.1), kept))
}

/// What loading a zip archive gives: an unreadable archive when the bytes
/// do not open; the load when every entry loads; otherwise, at the first
/// entry that does not load, an unreadable archive when `by_index` fails
/// and that entry's path as not text when its text does not read.
pub open spec fn zip_load_result(r: Result<ArchiveLoad, ArchiveError>, bytes: Seq<u8>) -> bool {
    match zip_listing(bytes) {
        None => r matches Err(e) && e is Unreadable,
        Some(listing) => {
            &&& (forall|i: int| 0 <= i < listing.len() ==> zip_entry_loads(#[trigger] listing[i])) ==> (r matches Ok(
                load) && zip_load_of(load, listing))
            &&& forall|i: int|
                #[trigger] zip_first_failure(listing, i) ==> if listing[i].2 {
                    r matches Err(e) && e is NotText && e->path@ == listing[i].0
                } else {
                    r matches Err(e) && e is Unreadable
                }
        },
    }
}

proof fn lemma_zip_failure_result(r: Result<ArchiveLoad, ArchiveError>, bytes: Seq<u8>, i: int)
    requires
        zip_listing(bytes) is Some,
        zip_first_failure(zip_listing(bytes)->0, i),
        if zip_listing(bytes)->0[i].2 {
            r matches Err(e) && e is NotText && e->path@ == zip_listing(bytes)->0[i].0
        } else {
            r matches Err(e) && e is Unreadable
        },
    ensures
        zip_load_result(r, bytes),
{
    lemma_zip_failure_at(zip_listing(bytes)->0, i);
}

/// Reads the relevant entries of a zip archive held in `bytes`.
#[verifier::spinoff_prover]
pub fn load_zip(bytes: Vec<u8>) -> (r: Result<ArchiveLoad, ArchiveError>)
    ensures
        zip_load_result(r, bytes@),
{
    let started = now();
    let ghost b = bytes@;
    let ghost opened = zip_listing(bytes@);
    let mut archive = match zip_open(bytes) {
        Ok(a) => a,
        Err(e) => {
            return Err(ArchiveError::Unreadable { message: io_error_text(&e) });
        },
    };
    let ghost listing = zip_entries(archive);
    let ghost names = listing.map_values(|e: ZipEntryView| e.0);
    let ghost sizes = listing.map_values(|e: ZipEntryView| e.1);
    let archive_entries = zip_len(&archive);
    let mut loaded: Vec<TextEntry> = Vec::new();
    let mut bytes_read: u64 = 0;
    let mut index: usize = 0;
    while index < archive_entries
        invariant
            index <= archive_entries,
            archive_entries == listing.len(),
            opened == Some(listing),
            zip_listing(b) == Some(listing),
            b == bytes@,
            zip_entries(archive) == listing,
            names == listing.map_values(|e: ZipEntryView| e.0),
            sizes == listing.map_values(|e: ZipEntryView| e.1),
            forall|j: int| 0 <= j < index ==> zip_entry_loads(#[trigger] listing[j]),
            loaded.len() == relevant_positions(names.take(index as int)).len(),
            forall|k: int|
                0 <= k < loaded.len() ==> {
                    let q = relevant_positions(names.take(index as int))[k];
                    &&& (#[trigger] loaded@[k]).path@ == listing[q].0
                    &&& listing[q].3 == Some(loaded@[k].contents@)
                },
            bytes_read == saturated_u64(size_total(sizes, relevant_positions(names.take(index as int)))),
        decreases archive_entries - index,
    {
        proof {
            assert(names.take(index + 1).drop_last() =~= names.take(index as int));
            assert(names.take(index + 1).last() == listing[index as int].0);
            lemma_relevant_positions_range(names.take(index as int));
        }
        let (name, size) = match zip_entry_header(&mut archive, index) {
            Ok(h) => h,
            Err(e) => {
                let r = Err(ArchiveError::Unreadable { message: io_error_text(&e) });
                proof {
                    assert(zip_first_failure(listing, index as int));
                    lemma_zip_failure_result(r, b, index as int);
                }
                return r;
            },
        };
        if is_relevant_entry(name.as_str()) {
            let contents = match zip_entry_text(&mut archive, index) {
                Ok(t) => t,
                Err(_) => {
                    let r = Err(ArchiveError::NotText { path: name });
                    proof {
                        assert(zip_first_failure(listing, index as int));
                        lemma_zip_failure_result(r, b, index as int);
                    }
                    return r;
                },
            };
            let ghost before = loaded@;
            let ghost prev = relevant_positions(names.take(index as int));
            bytes_read = bytes_read.saturating_add(size);
            loaded.push(TextEntry { path: name, contents });
            proof {
                let next = relevant_positions(names.take(index + 1));
                assert(next == prev.push(index as int));
                assert(next.drop_last() =~= prev);
                assert forall|k: int| 0 <= k < loaded.len() implies {
                    let q = next[k];
                    &&& (#[trigger] loaded@[k]).path@ == listing[q].0
                    &&& listing[q].3 == Some(loaded@[k].contents@)
                } by {
                    if k < before.len() {
                        assert(loaded@[k] == before[k]);
                        assert(next[k] == prev[k]);
                    }
                }
            }
        } else {
            proof {
                assert(relevant_positions(names.take(index + 1)) == relevant_positions(names.take(index as int)));
            }
        }
        index = index + 1;
    }
    proof {
        assert(names.take(archive_entries as int) =~= names);
    }
    let elapsed = elapsed_since(&started);
    Ok(ArchiveLoad { archive_entries, entries: loaded, bytes_read, elapsed })
}

// ---------------------------------------------------------------------------
// Tar archives
// ---------------------------------------------------------------------------

/// A tar entry loads when it is not relevant, or its data reads and is
/// UTF-8 text.
pub open spec fn tar_entry_loads(e: TarEntryView) -> bool {
    is_relevant_spec(e.0) ==> (e.2 matches Some(d) && utf8_decode(d) is Some)
}

/// `i` is the first entry read that does not load.
pub open spec fn tar_first_failure(listing: Seq<TarEntryView>, i: int) -> bool {
    &&& 0 <= i < listing.len()
    &&& !tar_entry_loads(listing[i])
    &&& forall|j: int| 0 <= j < i ==> tar_entry_loads(#[trigger] listing[j])
}

proof fn lemma_tar_failure_at(listing: Seq<TarEntryView>, i: int)
    requires
        tar_first_failure(listing, i),
    ensures
        forall|j: int| #[trigger] tar_first_failure(listing, j) ==> j == i,
        !(forall|j: int| 0 <= j < listing.len() ==> tar_entry_loads(#[trigger] listing[j])),
{
    assert forall|j: int| #[trigger] tar_first_failure(listing, j) implies j == i by {
        if j < i {
            assert(tar_entry_loads(listing[j]));
        } else if i < j {
            assert(tar_entry_loads(listing[i]));
        }
    }
}

/// The relevant tar entries that a load keeps, with their text, and the
/// total of their sizes.
pub open spec fn tar_load_of(load: ArchiveLoad, listing: Seq<TarEntryView>) -> bool {
    let kept = relevant_positions(listing.map_values(|e: TarEntryView| e.0));
    &&& load.archive_entries == listing.len()
    &&& load.entries.len() == kept.len()
    &&& forall|k: int|
        0 <= k < kept.len() ==> {
            &&& (#[trigger] load.entries@[k]).path@ == listing[kept[k]].0
            &&& listing[kept[k]].2 matches Some(d) && utf8_decode(d) == Some(load.entries@[k].contents@)
        }
    &&& load.bytes_read == saturated_u64(size_total(listing.map_values(|e: TarEntryView| e.1), kept))
}

/// What loading a tar.gz archive gives: at the first entry read that does
/// not load, its path as not text; otherwise an unreadable archive when
/// reading ended with an error, and the load when it did not.
pub open spec fn tar_load_result(r: Result<ArchiveLoad, ArchiveError>, bytes: Seq<u8>) -> bool {
    let (listing, failed) = tar_gz_listing(bytes);
    &&& (forall|i: int| 0 <= i < listing.len() ==> tar_entry_loads(#[trigger] listing[i])) ==> if failed {
        r matches Err(e) && e is Unreadable
    } else {
        r matches Ok(load) && tar_load_of(load, listing)
    }
    &&& forall|i: int|
        #[trigger] tar_first_failure(listing, i) ==> (r matches Err(e) && e is NotText && e->path@
            == listing[i].0)
}

proof fn lemma_tar_failure_result(r: Result<ArchiveLoad, ArchiveError>, bytes: Seq<u8>, i: int)
    requires
        tar_first_failure(tar_gz_listing(bytes).0, i),
        r matches Err(e) && e is NotText && e->path@ == tar_gz_listing(bytes).0[i].0,
    ensures
        tar_load_result(r, bytes),
{
    lemma_tar_failure_at(tar_gz_listing(bytes).0, i);
}

/// Reads the relevant entries of a gzip-compressed tar archive held in `bytes`.
#[verifier::spinoff_prover]
pub fn load_tar_gz(bytes: Vec<u8>) -> (r: Result<ArchiveLoad, ArchiveError>)
    ensures
        tar_load_result(r, bytes@),
{
    let started = now();
    let ghost b = bytes@;
    let (raw, failure) = tar_gz_entries(bytes.as_slice());
    let ghost listing = tar_gz_listing(bytes@).0;
    let ghost names = listing.map_values(|e: TarEntryView| e.0);
    let ghost sizes = listing.map_values(|e: TarEntryView| e.1);
    let mut raw = raw;
    let n = raw.len();
    let mut loaded: Vec<TextEntry> = Vec::new();
    let mut bytes_read: u64 = 0;
    let mut index: usize = 0;
    // take the entries out from the back, then restore their order
    let mut reversed: Vec<RawEntry> = Vec::new();
    while raw.len() > 0
        invariant
            raw.len() + reversed.len() == n,
            n == listing.len(),
            raw_views(raw@) == listing.take(raw.len() as int),
            forall|k: int| 0 <= k < reversed.len() ==> raw_view(#[trigger] reversed@[k]) == listing[n - 1 - k],
        decreases raw.len(),
    {
        let ghost before = raw@;
        let ghost rbefore = reversed@;
        let e = raw.pop().unwrap();
        proof {
            assert(before =~= raw@.push(e));
            assert(raw_views(before)[before.len() - 1] == raw_view(e));
            assert(raw_views(raw@) =~= listing.take(raw.len() as int));
        }
        reversed.push(e);
        proof {
            assert forall|k: int| 0 <= k < reversed.len() implies raw_view(#[trigger] reversed@[k]) == listing[n - 1 - k] by {
                if k < rbefore.len() {
                    assert(reversed@[k] == rbefore[k]);
                }
            }
        }
    }
    while reversed.len() > 0
        invariant
            index + reversed.len() == n,
            n == listing.len(),
            names == listing.map_values(|e: TarEntryView| e.0),
            sizes == listing.map_values(|e: TarEntryView| e.1),
            listing == tar_gz_listing(b).0,
            b == bytes@,
            forall|k: int| 0 <= k < reversed.len() ==> raw_view(#[trigger] reversed@[k]) == listing[n - 1 - k],
            forall|j: int| 0 <= j < index ==> tar_entry_loads(#[trigger] listing[j]),
            loaded.len() == relevant_positions(names.take(index as int)).len(),
            forall|k: int|
                0 <= k < loaded.len() ==> {
                    let q = relevant_positions(names.take(index as int))[k];
                    &&& (#[trigger] loaded@[k]).path@ == listing[q].0
                    &&& listing[q].2 matches Some(d) && utf8_decode(d) == Some(loaded@[k].contents@)
                },
            bytes_read == saturated_u64(size_total(sizes, relevant_positions(names.take(index as int)))),
        decreases reversed.len(),
    {
        let ghost rbefore = reversed@;
        let e = reversed.pop().unwrap();
        proof {
            assert(rbefore[rbefore.len() - 1] == e);
            assert(raw_view(e) == listing[index as int]);
            assert(names.take(index + 1).drop_last() =~= names.take(index as int));
            assert(names.take(index + 1).last() == listing[index as int].0);
            lemma_relevant_positions_range(names.take(index as int));
            assert forall|k: int| 0 <= k < reversed.len() implies raw_view(#[trigger] reversed@[k]) == listing[n - 1 - k] by {
                assert(reversed@[k] == rbefore[k]);
            }
        }
        if is_relevant_entry(e.path.as_str()) {
            let RawEntry { path, size, data } = e;
            let data = match data {
                Some(d) => d,
                None => {
                    let r = Err(ArchiveError::NotText { path });
                    proof {
                        assert(tar_first_failure(listing, index as int));
                        lemma_tar_failure_result(r, b, index as int);
                    }
                    return r;
                },
            };
            let ghost bytes_of = data@;
            let contents = match utf8_text(data) {
                Some(t) => t,
                None => {
                    let r = Err(ArchiveError::NotText { path });
                    proof {
                        assert(tar_first_failure(listing, index as int));
                        lemma_tar_failure_result(r, b, index as int);
                    }
                    return r;
                },
            };
            let ghost before = loaded@;
            let ghost prev = relevant_positions(names.take(index as int));
            bytes_read = bytes_read.saturating_add(size);
            loaded.push(TextEntry { path, contents });
            proof {
                let next = relevant_positions(names.take(index + 1));
                assert(next == prev.push(index as int));
                assert(next.drop_last() =~= prev);
                assert(sizes[index as int] == size);
                assert forall|k: int| 0 <= k < loaded.len() implies {
                    let q = next[k];
                    &&& (#[trigger] loaded@[k]).path@ == listing[q].0
                    &&& listing[q].2 matches Some(d) && utf8_decode(d) == Some(loaded@[k].contents@)
                } by {
                    if k < before.len() {
                        assert(loaded@[k] == before[k]);
                        assert(next[k] == prev[k]);
                    }
                }
            }
        } else {
            proof {
                assert(relevant_positions(names.take(index + 1)) == relevant_positions(names.take(index as int)));
            }
        }
        index = index + 1;
    }
    proof {
        assert(names.take(n as int) =~= names);
    }
    if let Some(e) = failure {
        return Err(ArchiveError::Unreadable { message: io_error_text(&e) });
    }
    let elapsed = elapsed_since(&started);
    Ok(ArchiveLoad { archive_entries: n, entries: loaded, bytes_read, elapsed })
}

/// Reads the relevant entries of an archive of the given kind, held in
/// `bytes`: a `zip` or a `tar.gz` archive.
pub fn load_archive(bytes: Vec<u8>, kind: &str) -> (r: Result<ArchiveLoad, ArchiveError>)
    ensures
        kind@ == "zip"@ ==> zip_load_result(r, bytes@),
        kind@ == "tar.gz"@ ==> tar_load_result(r, bytes@),
        kind@ != "zip"@ && kind@ != "tar.gz"@ ==> (r matches Err(e) && e is UnsupportedKind && e->kind@
            == kind@),
{
    proof {
        reveal_strlit("zip");
        reveal_strlit("tar.gz");
        assert("zip"@.len() == 3 && "tar.gz"@.len() == 6);
    }
    if crate::text::text_eq(kind, "zip") {
        load_zip(bytes)
    } else if crate::text::text_eq(kind, "tar.gz") {
        load_tar_gz(bytes)
    } else {
        Err(ArchiveError::UnsupportedKind { kind: text_copy(kind) })
    }
}

} // verus!
