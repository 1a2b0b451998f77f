//! Archive decompression: a compressed container is unwrapped into one
//! flat byte buffer, the concatenation of every entry's decompressed
//! bytes in container entry order.

use vstd::prelude::*;
use std::io::Cursor;
use zip::ZipArchive;

verus! {

#[verifier::external_type_specification]
#[verifier::external_body]
#[verifier::reject_recursive_types(T)]
pub struct ExCursor<T>(Cursor<T>);

#[verifier::external_type_specification]
#[verifier::external_body]
#[verifier::reject_recursive_types(R)]
pub struct ExZipArchive<R>(ZipArchive<R>);

/// The decompressed bytes of each entry an opened archive holds, in
/// container order.
pub uninterp spec fn zip_entries(a: ZipArchive<Cursor<Vec<u8>>>) -> Seq<Seq<u8>>;

/// The decompressed bytes of each entry of a well-formed compressed
/// container, in container order.
pub uninterp spec fn archive_entries(data: Seq<u8>) -> Seq<Seq<u8>>;

/// Whether the bytes open as a container at all: the central directory
/// parses.
pub uninterp spec fn zip_opens(data: Seq<u8>) -> bool;

/// The underlying buffer an opened archive reads from.
pub uninterp spec fn zip_data(a: ZipArchive<Cursor<Vec<u8>>>) -> Seq<u8>;

/// Whether entry `i` of the container reads back in full: its local
/// header, compressed stream and checksum are sound.
pub uninterp spec fn zip_entry_reads(data: Seq<u8>, i: int) -> bool;

/// The whole container decompresses: it opens and every entry reads.
pub open spec fn decompress_ok(data: Seq<u8>) -> bool {
    zip_opens(data) && forall|i: int|
        0 <= i < archive_entries(data).len() ==> zip_entry_reads(data, i)
}

/// Decompression failure: the container itself is malformed, or an entry
/// is corrupted or truncated.
#[derive(Clone, Copy, PartialEq, Eq, Structural, Debug)]
pub enum DecompressError {
    BadArchive,
    BadEntry,
}

/// Relies on `ZipArchive::new`: it parses the container's central
/// directory, deterministically in the buffer's bytes, so it succeeds
/// exactly when the bytes open, and the archive it returns holds exactly
/// the entries of `data` and reads from `data`.
#[verifier::external_body]
fn zip_open(data: &Vec<u8>) -> (r: Option<ZipArchive<Cursor<Vec<u8>>>>)
    ensures
        r is Some <==> zip_opens(data@),
        r matches Some(a) ==> zip_entries(a) == archive_entries(data@) && zip_data(a) == data@,
{
    match ZipArchive::new(Cursor::new(data.clone())) {
        Ok(a) => Some(a),
        Err(_) => None,
    }
}

/// Relies on `ZipArchive::len`: the number of entries the archive holds.
#[verifier::external_body]
fn zip_len(a: &ZipArchive<Cursor<Vec<u8>>>) -> (n: usize)
    ensures
        n == zip_entries(*a).len(),
{
    a.len()
}

/// Relies on `ZipArchive::by_index` and `Read::read_to_end`: the entry's
/// reader yields its decompressed bytes in full, and seeks the buffer
/// absolutely, so whether entry `i` reads depends on the buffer and `i`
/// alone, not on earlier reads.  The two calls sit in one trusted step
/// because the entry reader borrows the archive.  Reading mutates only
/// the cursor position, never the entry table or the buffer.
#[verifier::external_body]
fn zip_read_entry(a: &mut ZipArchive<Cursor<Vec<u8>>>, i: usize) -> (r: Option<Vec<u8>>)
    requires
        i < zip_entries(*old(a)).len(),
    ensures
        zip_entries(*final(a)) == zip_entries(*old(a)) && zip_data(*final(a)) == zip_data(
            *old(a),
        ),
        r is Some <==> zip_entry_reads(zip_data(*old(a)), i as int),
        r matches Some(v) ==> v@ == zip_entries(*old(a))[i as int],
{
    let mut out = Vec::new();
    match a.by_index(i) {
        Ok(mut f) => match std::io::Read::read_to_end(&mut f, &mut out) {
            Ok(_) => Some(out),
            Err(_) => None,
        },
        Err(_) => None,
    }
}

/// The concatenation of the entries, in order.
pub open spec fn concat_entries(ss: Seq<Seq<u8>>) -> Seq<u8>
    decreases ss.len(),
{
    if ss.len() == 0 {
        Seq::empty()
    } else {
        ss[0] + concat_entries(ss.skip(1))
    }
}

proof fn lemma_concat_push(ss: Seq<Seq<u8>>, x: Seq<u8>)
    ensures
        concat_entries(ss.push(x)) == concat_entries(ss) + x,
    decreases ss.len(),
{
    if ss.len() == 0 {
        assert(ss.push(x)[0] == x);
        assert(ss.push(x).skip(1) =~= Seq::<Seq<u8>>::empty());
        assert(concat_entries(Seq::<Seq<u8>>::empty()) == Seq::<u8>::empty());
        assert(concat_entries(ss.push(x)) =~= concat_entries(ss) + x);
    } else {
        assert(ss.push(x)[0] == ss[0]);
        assert(ss.push(x).skip(1) =~= ss.skip(1).push(x));
        lemma_concat_push(ss.skip(1), x);
        assert(concat_entries(ss.push(x)) =~= concat_entries(ss) + x);
    }
}

/// Decompresses a compressed container into one flat buffer: the
/// concatenation, in container entry order, of every entry's
/// decompressed bytes.  Succeeds exactly when the container opens and
/// every entry reads; a malformed container or a corrupted entry is a
/// typed error, never an abort.
pub fn decompress_zip_data(compressed_data: Vec<u8>) -> (r: Result<Vec<u8>, DecompressError>)
    ensures
        r is Ok <==> decompress_ok(compressed_data@),
        r matches Ok(v) ==> v@ == concat_entries(archive_entries(compressed_data@)),
        r matches Err(e) ==> (e is BadArchive <==> !zip_opens(compressed_data@)),
{
    let mut archive = match zip_open(&compressed_data) {
        Some(a) => a,
        None => {
            return Err(DecompressError::BadArchive);
        },
    };
    let n = zip_len(&archive);
    let mut out: Vec<u8> = Vec::new();
    let mut i: usize = 0;
    proof {
        assert(archive_entries(compressed_data@).take(0) =~= Seq::<Seq<u8>>::empty());
    }
    while i < n
        invariant
            0 <= i <= n,
            zip_opens(compressed_data@),
            zip_entries(archive) == archive_entries(compressed_data@),
            zip_data(archive) == compressed_data@,
            n == zip_entries(archive).len(),
            forall|k: int| 0 <= k < i ==> zip_entry_reads(compressed_data@, k),
            out@ == concat_entries(archive_entries(compressed_data@).take(i as int)),
        decreases n - i,
    {
        match zip_read_entry(&mut archive, i) {
            Some(mut v) => {
                proof {
                    lemma_concat_push(archive_entries(compressed_data@).take(i as int), v@);
                    assert(archive_entries(compressed_data@).take(i + 1) =~= archive_entries(
                        compressed_data@,
                    ).take(i as int).push(archive_entries(compressed_data@)[i as int]));
                }
                out.append(&mut v);
            },
            None => {
                return Err(DecompressError::BadEntry);
            },
        }
        i = i + 1;
    }
    proof {
        assert(archive_entries(compressed_data@).take(
            archive_entries(compressed_data@).len() as int,
        ) =~= archive_entries(compressed_data@));
    }
    Ok(out)
}

/// Law: a single-entry archive decompresses to exactly that entry's
/// bytes; with more entries, to their concatenation in container order
/// (the contract of `decompress_zip_data` itself).
pub proof fn lemma_single_entry_archive(data: Seq<u8>, b: Seq<u8>)
    requires
        archive_entries(data) == seq![b],
    ensures
        concat_entries(archive_entries(data)) == b,
{
    assert(seq![b][0] == b);
    assert(seq![b].skip(1) =~= Seq::<Seq<u8>>::empty());
    assert(concat_entries(Seq::<Seq<u8>>::empty()) == Seq::<u8>::empty());
    assert(concat_entries(seq![b]) =~= b);
}

/// Law: a two-entry archive decompresses to the concatenation of its
/// entries, in container order.
pub proof fn lemma_two_entry_archive(data: Seq<u8>, a: Seq<u8>, b: Seq<u8>)
    requires
        archive_entries(data) == seq![a, b],
    ensures
        concat_entries(archive_entries(data)) == a + b,
{
    let es = seq![a, b];
    assert(es[0] == a);
    assert(es.skip(1) =~= seq![b]);
    assert(concat_entries(seq![b]) == b) by {
        assert(seq![b][0] == b);
        assert(seq![b].skip(1) =~= Seq::<Seq<u8>>::empty());
        assert(concat_entries(Seq::<Seq<u8>>::empty()) == Seq::<u8>::empty());
        assert(concat_entries(seq![b]) =~= b);
    }
    assert(concat_entries(es) =~= a + b);
}

} // verus!
