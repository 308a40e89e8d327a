use vstd::prelude::*;

use crate::error::ErrorKind;
use crate::storage::data_format::{bounded_records, lemma_decode_encoded, lemma_parse_of_image,
    rec_key, rec_ok, rec_value, records_from, spec_encode};
use crate::storage::fs::{openable, seg_records, FileView};
use crate::storage::memtable::{lemma_insert_lookup, lemma_lookup_membership, lookup_records,
    sorted_strict, spec_insert};
use crate::storage::{disk_lookup, node_valid, scan_outcome, segment_image, spec_get_outcome,
    storage_inv, value_of, StorageView};

verus! {

/// Decoding an encoded pair gives the pair back: the frame written for any
/// key and value reads as exactly one record holding that key and value,
/// whatever bytes follow it.
pub proof fn law_round_trip(key: Seq<u8>, value: Seq<u8>)
    requires
        key.len() < 0x1_0000_0000_0000_0000,
        value.len() < 0x1_0000_0000_0000_0000,
    ensures
        records_from(spec_encode(key, value), 0) == seq![(key, value)],
        rec_ok(spec_encode(key, value), 0),
        rec_key(spec_encode(key, value), 0) == key,
        rec_value(spec_encode(key, value), 0) == value,
{
    let recs = seq![(key, value)];
    assert(bounded_records(recs));
    lemma_parse_of_image(Seq::<u8>::empty(), recs);
    assert(recs.drop_first() =~= Seq::<(Seq<u8>, Seq<u8>)>::empty());
    assert(crate::storage::data_format::records_bytes(recs.drop_first()) == Seq::<u8>::empty());
    assert(recs.first() == (key, value));
    assert(crate::storage::data_format::records_bytes(recs) == spec_encode(key, value)
        + Seq::<u8>::empty());
    assert(Seq::<u8>::empty() + crate::storage::data_format::records_bytes(recs) =~= spec_encode(
        key,
        value,
    ));
    lemma_decode_encoded(Seq::<u8>::empty(), key, value, Seq::<u8>::empty());
    assert(Seq::<u8>::empty() + spec_encode(key, value) + Seq::<u8>::empty() =~= spec_encode(
        key,
        value,
    ));
}

/// After a write of `key -> value`, reading `key` returns `value`, whether
/// or not the write flushed the buffer first: a flush leaves the buffer
/// holding exactly the incoming pair, and an ordinary write overwrites any
/// buffered pair, so the buffer answers the read either way.
pub proof fn law_write_visibility(
    post: StorageView,
    base: Seq<(Seq<u8>, Seq<u8>)>,
    key: Seq<u8>,
    value: Seq<u8>,
)
    requires
        post.memtable == spec_insert(base, key, value),
    ensures
        value_of(post, key) == Some(value),
        spec_get_outcome(post, key) == Ok::<Seq<u8>, ErrorKind>(value),
{
    lemma_insert_lookup(base, key, value, key);
}

/// Writing `v1` and then `v2` under one key leaves `v2` as what the key
/// reads: the second write replaces the first in the buffer.
pub proof fn law_idempotent_overwrite(
    base: Seq<(Seq<u8>, Seq<u8>)>,
    key: Seq<u8>,
    v1: Seq<u8>,
    v2: Seq<u8>,
)
    ensures
        lookup_records(spec_insert(spec_insert(base, key, v1), key, v2), key) == Some(v2),
{
    lemma_insert_lookup(spec_insert(base, key, v1), key, v2, key);
}

/// A flush writes a segment file that carries the signature and decodes to
/// exactly the buffered records; every buffered key then reads its buffered
/// value from disk alone, and every other key reads from disk what it read
/// before.
pub proof fn law_flush_durability(
    mt: Seq<(Seq<u8>, Seq<u8>)>,
    segs: Seq<FileView>,
    name: Seq<char>,
    key: Seq<u8>,
)
    requires
        sorted_strict(mt),
        bounded_records(mt),
    ensures
        openable(segment_image(mt)),
        seg_records(segment_image(mt)) == mt,
        ({
            let post = segs + seq![FileView { name, data: segment_image(mt) }];
            &&& (lookup_records(mt, key) matches Some(v) ==> disk_lookup(post, key) == Some(v))
            &&& (lookup_records(mt, key) is None ==> disk_lookup(post, key) == disk_lookup(
                segs,
                key,
            ))
        }),
{
    let image = segment_image(mt);
    assert(image.subrange(0, 16) =~= crate::storage::fs::spec_magic());
    lemma_parse_of_image(crate::storage::fs::spec_magic(), mt);
    assert(seg_records(image) == mt);
    let post = segs + seq![FileView { name, data: image }];
    assert(post.last() == (FileView { name, data: image }));
    assert(post.drop_last() =~= segs);
    if lookup_records(mt, key) is Some {
        lemma_lookup_membership(mt, key);
    }
}

/// A store brought up cold on a directory (empty buffer, empty index) reads
/// each key straight off the segment files: the newest on-disk copy if one
/// exists, a missing-key error otherwise.  So everything a flush made
/// durable is still read after a restart.
pub proof fn law_cold_start_read(s: StorageView, key: Seq<u8>)
    requires
        s.memtable == Seq::<(Seq<u8>, Seq<u8>)>::empty(),
        s.index == Seq::<(Seq<u8>, crate::storage::index::NodeView)>::empty(),
        forall|i: int| 0 <= i < s.fs.segments.len() ==> openable((#[trigger] s.fs.segments[i]).data),
    ensures
        spec_get_outcome(s, key) == match disk_lookup(s.fs.segments, key) {
            Some(v) => Ok::<Seq<u8>, ErrorKind>(v),
            None => Err::<Seq<u8>, ErrorKind>(ErrorKind::Key),
        },
{
    crate::storage::lemma_scan_is_disk_lookup(s.fs.segments, key);
}

/// On a well-formed store whose segment files all open cleanly, a read
/// returns exactly what the abstract key/value map holds: the buffered
/// value, else the newest on-disk value, else a missing-key error —
/// whichever of the buffer, the index or the full scan serves it.
pub proof fn law_get_reads_value(s: StorageView, key: Seq<u8>)
    requires
        storage_inv(s),
        forall|i: int| 0 <= i < s.fs.segments.len() ==> openable((#[trigger] s.fs.segments[i]).data),
    ensures
        spec_get_outcome(s, key) == match value_of(s, key) {
            Some(v) => Ok::<Seq<u8>, ErrorKind>(v),
            None => Err::<Seq<u8>, ErrorKind>(ErrorKind::Key),
        },
{
    if lookup_records(s.memtable, key) is None {
        match crate::storage::index::lookup_nodes(s.index, key) {
            Some(nv) => {
                assert(node_valid(s.fs.segments, key, nv));
            },
            None => {
                crate::storage::lemma_scan_is_disk_lookup(s.fs.segments, key);
            },
        }
    }
}

/// A key that reads no value — never written, or cleared away — comes back
/// as a missing-key error, never as a record with empty bytes.
pub proof fn law_missing_key(s: StorageView, key: Seq<u8>)
    requires
        storage_inv(s),
        value_of(s, key) is None,
        forall|i: int| 0 <= i < s.fs.segments.len() ==> openable((#[trigger] s.fs.segments[i]).data),
    ensures
        spec_get_outcome(s, key) == Err::<Seq<u8>, ErrorKind>(ErrorKind::Key),
{
    assert(lookup_records(s.memtable, key) is None);
    assert(disk_lookup(s.fs.segments, key) is None);
    if crate::storage::index::lookup_nodes(s.index, key) is Some {
        let nv = crate::storage::index::lookup_nodes(s.index, key).unwrap();
        assert(node_valid(s.fs.segments, key, nv));
        assert(false);
    }
    crate::storage::lemma_scan_is_disk_lookup(s.fs.segments, key);
}

/// After a clear, the store holds nothing: every key reads as missing, and
/// no segment file remains.
pub proof fn law_clear(s: StorageView, key: Seq<u8>)
    requires
        s.memtable == Seq::<(Seq<u8>, Seq<u8>)>::empty(),
        s.index == Seq::<(Seq<u8>, crate::storage::index::NodeView)>::empty(),
        s.fs.segments == Seq::<FileView>::empty(),
    ensures
        value_of(s, key) is None,
        spec_get_outcome(s, key) == Err::<Seq<u8>, ErrorKind>(ErrorKind::Key),
{
    assert(scan_outcome(s.fs.segments, key) is NotFound);
}

} // verus!
