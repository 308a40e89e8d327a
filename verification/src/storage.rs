pub mod data_format;
pub mod fs;
pub mod index;
pub mod memtable;

use vstd::prelude::*;

use crate::error::{Error, ErrorKind};
use crate::response::Response;
use crate::storage::data_format::{encode, rec_key, rec_ok, rec_value, spec_encode};
use crate::storage::fs::{file_with_name, openable, seg_records, seg_suffix, FileSystem, FileView,
    FsView, NamedFile};
use crate::storage::index::{Index, NodeView};
use crate::storage::memtable::{bounded_records, lookup_records, Memtable};
use vstd::string::StringSliceAdditionalSpecFns;

verus! {

/// How many bytes the write buffer may take in before the next write
/// triggers a flush to a new segment file.
pub const DEFAULT_THRESHOLD: u64 = 4096;

/// The value a key reads from the segment files alone, newest file first,
/// first record wins inside a file.  A file that cannot be opened as segment
/// data contributes nothing.
pub open spec fn disk_lookup(segs: Seq<FileView>, key: Seq<u8>) -> Option<Seq<u8>>
    decreases segs.len(),
{
    if segs.len() == 0 {
        None
    } else {
        let here = if openable(segs.last().data) {
            lookup_records(seg_records(segs.last().data), key)
        } else {
            Option::<Seq<u8>>::None
        };
        if here is Some {
            here
        } else {
            disk_lookup(segs.drop_last(), key)
        }
    }
}

/// What the fallback scan reports for a key: the newest on-disk value, that
/// no segment holds the key, or that it hit a file it refuses to read before
/// finding the key.
pub enum ScanOutcome {
    Found(Seq<u8>),
    NotFound,
    Corrupt,
}

/// The exact outcome of scanning the segment files newest first for `key`.
pub open spec fn scan_outcome(segs: Seq<FileView>, key: Seq<u8>) -> ScanOutcome
    decreases segs.len(),
{
    if segs.len() == 0 {
        ScanOutcome::NotFound
    } else if !openable(segs.last().data) {
        ScanOutcome::Corrupt
    } else {
        match lookup_records(seg_records(segs.last().data), key) {
            Some(v) => ScanOutcome::Found(v),
            None => scan_outcome(segs.drop_last(), key),
        }
    }
}

/// When every segment file opens cleanly, the scan reports exactly the
/// newest on-disk value.
pub proof fn lemma_scan_is_disk_lookup(segs: Seq<FileView>, key: Seq<u8>)
    requires
        forall|i: int| 0 <= i < segs.len() ==> openable(#[trigger] segs[i].data),
    ensures
        scan_outcome(segs, key) == match disk_lookup(segs, key) {
            Some(v) => ScanOutcome::Found(v),
            None => ScanOutcome::NotFound,
        },
    decreases segs.len(),
{
    if segs.len() > 0 {
        assert(openable(segs.last().data));
        assert forall|i: int| 0 <= i < segs.drop_last().len() implies openable(
            #[trigger] segs.drop_last()[i].data,
        ) by {
            assert(segs.drop_last()[i] == segs[i]);
        }
        lemma_scan_is_disk_lookup(segs.drop_last(), key);
    }
}

/// An index binding is valid when it points into a held, openable segment
/// file, at a whole record that carries the key and the key's newest
/// on-disk value.
pub open spec fn node_valid(segs: Seq<FileView>, key: Seq<u8>, nv: NodeView) -> bool {
    &&& file_with_name(segs, nv.segment) matches Some(d) && {
        &&& openable(d)
        &&& rec_ok(d, nv.offset as int)
        &&& rec_key(d, nv.offset as int) == key
        &&& disk_lookup(segs, key) == Some(rec_value(d, nv.offset as int))
    }
}

/// The bytes of the segment file one flush writes: the signature followed by
/// the buffered records in ascending key order.
pub open spec fn segment_image(mt: Seq<(Seq<u8>, Seq<u8>)>) -> Seq<u8> {
    crate::storage::fs::spec_magic() + crate::storage::data_format::records_bytes(mt)
}

/// Where the record for the `j`-th buffered pair starts inside that file.
pub open spec fn rec_offset(mt: Seq<(Seq<u8>, Seq<u8>)>, j: int) -> int {
    16 + crate::storage::data_format::records_bytes(mt.take(j)).len() as int
}

/// Caps a count at what 64 bits can hold.
pub open spec fn sat_cap(x: int) -> u64 {
    if x > u64::MAX {
        u64::MAX
    } else {
        x as u64
    }
}

/// The size estimate after taking one write in: it grows by the key and
/// value lengths only when the key is new to the buffer.
pub open spec fn new_estimate(s: StorageView, key: Seq<u8>, value: Seq<u8>) -> u64 {
    if lookup_records(s.memtable, key) is Some {
        s.size_estimate
    } else {
        sat_cap(s.size_estimate + key.len() + value.len())
    }
}

/// Whether taking this write in pushes the buffer over the threshold and so
/// flushes it, before the write itself enters the buffer.
pub open spec fn set_flushes(s: StorageView, key: Seq<u8>, value: Seq<u8>) -> bool {
    new_estimate(s, key, value) > s.threshold
}

/// The name the next flushed segment file gets.
pub open spec fn alloc_name(segs: Seq<FileView>) -> Seq<char> {
    if segs.len() == 0 {
        "data"@
    } else {
        "data."@ + crate::utils::dec_digits((seg_suffix(segs.last().name) + 1) as nat)
    }
}

/// Dropping trailing segment files that open cleanly and miss the key does
/// not change what the key reads from disk.
pub proof fn lemma_disk_skip_tail(segs: Seq<FileView>, key: Seq<u8>, m: int)
    requires
        0 <= m <= segs.len(),
        forall|p: int|
            m <= p < segs.len() ==> openable((#[trigger] segs[p]).data) && lookup_records(
                seg_records(segs[p].data),
                key,
            ) is None,
    ensures
        disk_lookup(segs, key) == disk_lookup(segs.take(m), key),
    decreases segs.len() - m,
{
    if m == segs.len() {
        assert(segs.take(m) =~= segs);
    } else {
        let short = segs.take(segs.len() - 1);
        assert(segs[segs.len() - 1].data == segs.last().data);
        assert(disk_lookup(segs, key) == disk_lookup(segs.drop_last(), key));
        assert(segs.drop_last() =~= short);
        assert forall|p: int|
            m <= p < short.len() implies openable((#[trigger] short[p]).data) && lookup_records(
            seg_records(short[p].data),
            key,
        ) is None by {
            assert(short[p] == segs[p]);
        }
        lemma_disk_skip_tail(short, key, m);
        assert(short.take(m) =~= segs.take(m));
    }
}

/// The mathematical content of a `Storage`.
pub struct StorageView {
    pub fs: FsView,
    pub index: Seq<(Seq<u8>, NodeView)>,
    pub memtable: Seq<(Seq<u8>, Seq<u8>)>,
    pub threshold: u64,
    pub size_estimate: u64,
}

/// The value `key` currently reads: the write buffer shadows the segment
/// files, and among the files the newest copy wins.
pub open spec fn value_of(s: StorageView, key: Seq<u8>) -> Option<Seq<u8>> {
    match lookup_records(s.memtable, key) {
        Some(v) => Some(v),
        None => disk_lookup(s.fs.segments, key),
    }
}

/// What one read returns, step by step: the buffer first, then the index
/// (truthful under the invariant), then the full scan.
pub open spec fn spec_get_outcome(s: StorageView, key: Seq<u8>) -> Result<Seq<u8>, ErrorKind> {
    match lookup_records(s.memtable, key) {
        Some(v) => Ok(v),
        None => match crate::storage::index::lookup_nodes(s.index, key) {
            Some(_) => Ok(disk_lookup(s.fs.segments, key).unwrap()),
            None => match scan_outcome(s.fs.segments, key) {
                ScanOutcome::Found(v) => Ok(v),
                ScanOutcome::NotFound => Err(ErrorKind::Key),
                ScanOutcome::Corrupt => Err(ErrorKind::IO),
            },
        },
    }
}

/// The storage engine: routes writes through the in-memory buffer, flushes
/// the buffer to a new segment file when it outgrows the threshold, and
/// serves reads from the buffer, the index, or a full scan, in that order.
pub struct Storage {
    pub fs: FileSystem,
    index: Index,
    memtable: Memtable,
    threshold: u64,
    size_estimate: u64,
}

impl View for Storage {
    type V = StorageView;

    closed spec fn view(&self) -> StorageView {
        StorageView {
            fs: self.fs@,
            index: self.index@,
            memtable: self.memtable@,
            threshold: self.threshold,
            size_estimate: self.size_estimate,
        }
    }
}

/// The index never lies: every binding points at the newest on-disk copy of
/// its key.
pub open spec fn index_ok(s: StorageView) -> bool {
    forall|k: Seq<u8>|
        #![trigger crate::storage::index::lookup_nodes(s.index, k)]
        crate::storage::index::lookup_nodes(s.index, k) matches Some(nv) ==> node_valid(
            s.fs.segments,
            k,
            nv,
        )
}

/// The engine's invariant: the file image, buffer and index are each well
/// formed, and the index is truthful.
pub open spec fn storage_inv(s: StorageView) -> bool {
    &&& crate::storage::fs::segs_wf(s.fs.segments)
    &&& crate::storage::memtable::sorted_strict(s.memtable)
    &&& bounded_records(s.memtable)
    &&& crate::storage::index::idx_unique(s.index)
    &&& index_ok(s)
}

impl Storage {
    /// The engine's invariant, over its mathematical content.
    pub open spec fn inv(&self) -> bool {
        storage_inv(self@)
    }

    /// Creates a storage engine over a fresh, empty directory image.
    pub fn new(dir: &str) -> (r: Result<Storage, Error>)
        ensures
            r is Ok,
            r matches Ok(s) ==> {
                &&& s.inv()
                &&& s@.fs.dir == dir@
                &&& s@.fs.wal == Seq::<u8>::empty()
                &&& s@.fs.segments == Seq::<FileView>::empty()
                &&& s@.memtable == Seq::<(Seq<u8>, Seq<u8>)>::empty()
                &&& s@.index == Seq::<(Seq<u8>, NodeView)>::empty()
                &&& s@.threshold == DEFAULT_THRESHOLD
                &&& s@.size_estimate == 0
            },
    {
        let fs = match FileSystem::new(dir) {
            Ok(fs) => fs,
            Err(e) => {
                proof {
                    assert(false);
                }
                return Err(e);
            },
        };
        Ok(
            Storage {
                fs,
                index: Index::new(),
                memtable: Memtable::new(),
                threshold: DEFAULT_THRESHOLD,
                size_estimate: 0,
            },
        )
    }

    /// Sets the flush threshold, in bytes of buffered key and value data.
    pub fn set_threshold(&mut self, threshold: u64)
        ensures
            final(self)@ == (StorageView { threshold, ..old(self)@ }),
            final(self).inv() == old(self).inv(),
    {
        self.threshold = threshold;
    }

    /// Appends one raw request line to the write-ahead log.
    pub fn wal(&mut self, line: &str) -> (r: Result<(), Error>)
        ensures
            r is Ok,
            final(self)@ == (StorageView {
                fs: FsView { wal: old(self)@.fs.wal + line.spec_bytes() + seq![10u8], ..old(self)@.fs },
                ..old(self)@
            }),
            final(self).inv() == old(self).inv(),
    {
        let r = self.fs.wal(line);
        proof {
            assert(self@.fs =~= (FsView {
                wal: old(self)@.fs.wal + line.spec_bytes() + seq![10u8],
                ..old(self)@.fs
            }));
        }
        r
    }

    /// Empties the store: every segment file is dropped from the image (the
    /// host deletes the real files), and the buffer and index are reset.
    pub fn clear(&mut self) -> (r: Result<Response, Error>)
        ensures
            r matches Ok(resp) && resp is Okay,
            final(self)@.fs.dir == old(self)@.fs.dir,
            final(self)@.fs.wal == old(self)@.fs.wal,
            final(self)@.fs.segments == Seq::<FileView>::empty(),
            final(self)@.memtable == Seq::<(Seq<u8>, Seq<u8>)>::empty(),
            final(self)@.index == Seq::<(Seq<u8>, NodeView)>::empty(),
            final(self)@.size_estimate == 0,
            final(self)@.threshold == old(self)@.threshold,
            final(self).inv(),
    {
        self.fs.remove_data_files();
        self.index.clear();
        self.memtable.clear();
        self.size_estimate = 0;
        Ok(Response::Okay)
    }

    /// Writes every buffered record, in ascending key order, to a new
    /// segment file called `name`, recording each record's position in the
    /// index as it is written, then empties the buffer and resets the size
    /// estimate.
    #[verifier::rlimit(100)]
    #[verifier::spinoff_prover]
    fn flush(&mut self, name: String)
        requires
            old(self).inv(),
            crate::storage::fs::is_seg_name(name@),
            forall|i: int|
                0 <= i < old(self)@.fs.segments.len() ==> seg_suffix(
                    (#[trigger] old(self)@.fs.segments[i]).name,
                ) < seg_suffix(name@),
            forall|i: int|
                0 <= i < old(self)@.fs.segments.len() ==> (#[trigger] old(
                    self,
                )@.fs.segments[i]).name != name@,
        ensures
            final(self).inv(),
            final(self)@.fs.dir == old(self)@.fs.dir,
            final(self)@.fs.wal == old(self)@.fs.wal,
            final(self)@.threshold == old(self)@.threshold,
            final(self)@.fs.segments == old(self)@.fs.segments + seq![
                FileView { name: name@, data: segment_image(old(self)@.memtable) },
            ],
            final(self)@.memtable == Seq::<(Seq<u8>, Seq<u8>)>::empty(),
            final(self)@.size_estimate == 0,
            forall|k2: Seq<u8>|
                #![trigger lookup_records(old(self)@.memtable, k2)]
                lookup_records(old(self)@.memtable, k2) is Some
                    ==> crate::storage::index::lookup_nodes(final(self)@.index, k2) is Some,
            forall|k2: Seq<u8>|
                #![trigger lookup_records(old(self)@.memtable, k2)]
                lookup_records(old(self)@.memtable, k2) is None
                    ==> crate::storage::index::lookup_nodes(final(self)@.index, k2)
                    == crate::storage::index::lookup_nodes(old(self)@.index, k2),
            forall|k2: Seq<u8>|
                #![trigger lookup_records(old(self)@.memtable, k2)]
                lookup_records(old(self)@.memtable, k2) matches Some(v) ==> disk_lookup(
                    final(self)@.fs.segments,
                    k2,
                ) == Some(v),
            forall|k2: Seq<u8>|
                #![trigger lookup_records(old(self)@.memtable, k2)]
                lookup_records(old(self)@.memtable, k2) is None ==> disk_lookup(
                    final(self)@.fs.segments,
                    k2,
                ) == disk_lookup(old(self)@.fs.segments, k2),
    {
        let ghost s0 = old(self)@;
        let ghost mt0 = old(self)@.memtable;
        let mut data = crate::storage::fs::magic();
        proof {
            assert(mt0.take(0) =~= Seq::<(Seq<u8>, Seq<u8>)>::empty());
            assert(data@ =~= crate::storage::fs::spec_magic()
                + crate::storage::data_format::records_bytes(mt0.take(0)));
        }
        let n = self.memtable.len();
        let mut i: usize = 0;
        while i < n
            invariant
                0 <= i <= n,
                n == mt0.len(),
                self@.memtable == mt0,
                self@.fs == s0.fs,
                self@.threshold == s0.threshold,
                self@.size_estimate == s0.size_estimate,
                crate::storage::memtable::sorted_strict(mt0),
                bounded_records(mt0),
                crate::storage::index::idx_unique(self@.index),
                data@ == crate::storage::fs::spec_magic()
                    + crate::storage::data_format::records_bytes(mt0.take(i as int)),
                forall|j: int|
                    0 <= j < i ==> crate::storage::index::lookup_nodes(
                        self@.index,
                        (#[trigger] mt0[j]).0,
                    ) == Some(
                        NodeView { segment: name@, offset: rec_offset(mt0, j) as u64 },
                    ),
                forall|k2: Seq<u8>|
                    #![trigger crate::storage::index::lookup_nodes(self@.index, k2)]
                    (forall|j: int| 0 <= j < i ==> (#[trigger] mt0[j]).0 != k2)
                        ==> crate::storage::index::lookup_nodes(self@.index, k2)
                        == crate::storage::index::lookup_nodes(s0.index, k2),
            decreases n - i,
        {
            let ghost data0 = data@;
            let ghost idx0 = self@.index;
            let entry = self.memtable.entry_at(i);
            let enc = encode(entry.0.as_slice(), entry.1.as_slice());
            let off = data.len();
            self.index.insert(entry.0.as_slice(), name.as_str(), off as u64);
            data.extend_from_slice(enc.as_slice());
            proof {
                assert(entry.0@ == mt0[i as int].0 && entry.1@ == mt0[i as int].1);
                assert(data0.len() == rec_offset(mt0, i as int));
                assert(off == data0.len());
                assert(0 <= rec_offset(mt0, i as int) <= u64::MAX);
                assert((off as u64) as int == rec_offset(mt0, i as int));
                assert(data@ =~= data0 + crate::storage::data_format::spec_encode(
                    mt0[i as int].0,
                    mt0[i as int].1,
                ));
                crate::storage::data_format::lemma_records_bytes_split(
                    mt0.take(i + 1),
                    i as int,
                );
                assert(mt0.take(i + 1).take(i as int) =~= mt0.take(i as int));
                assert(mt0.take(i + 1).skip(i + 1) =~= Seq::<(Seq<u8>, Seq<u8>)>::empty());
                assert(mt0.take(i + 1)[i as int] == mt0[i as int]);
                assert(crate::storage::data_format::records_bytes(mt0.take(i + 1))
                    =~= crate::storage::data_format::records_bytes(mt0.take(i as int))
                    + crate::storage::data_format::spec_encode(mt0[i as int].0, mt0[i as int].1));
                assert(data@ =~= crate::storage::fs::spec_magic()
                    + crate::storage::data_format::records_bytes(mt0.take(i + 1)));
                assert forall|j: int|
                    0 <= j < i + 1 implies crate::storage::index::lookup_nodes(
                    self@.index,
                    (#[trigger] mt0[j]).0,
                ) == Some(NodeView { segment: name@, offset: rec_offset(mt0, j) as u64 }) by {
                    if j < i {
                        crate::utils::lemma_lex_trichotomy(mt0[j].0, mt0[i as int].0);
                        assert(mt0[j].0 != mt0[i as int].0);
                    }
                }
                assert forall|k2: Seq<u8>|
                    #![trigger crate::storage::index::lookup_nodes(self@.index, k2)]
                    (forall|j: int| 0 <= j < i + 1 ==> (#[trigger] mt0[j]).0 != k2)
                        implies crate::storage::index::lookup_nodes(self@.index, k2)
                        == crate::storage::index::lookup_nodes(s0.index, k2) by {
                    assert(mt0[i as int].0 != k2);
                    assert(crate::storage::index::lookup_nodes(idx0, k2)
                        == crate::storage::index::lookup_nodes(s0.index, k2));
                }
            }
            i += 1;
        }
        let ghost idx1 = self@.index;
        let ghost image = segment_image(mt0);
        let image_len = data.len();
        proof {
            assert(mt0.take(n as int) =~= mt0);
            assert(data@ == image);
            assert(image_len == image.len());
        }
        self.fs.add_segment(name, data);
        self.memtable.clear();
        self.size_estimate = 0;
        proof {
            let newf = FileView { name: name@, data: image };
            let segs1 = s0.fs.segments + seq![newf];
            assert(self@.fs.segments == segs1);
            assert(image.subrange(0, 16) =~= crate::storage::fs::spec_magic());
            assert(crate::storage::fs::openable(image));
            crate::storage::data_format::lemma_parse_of_image(
                crate::storage::fs::spec_magic(),
                mt0,
            );
            assert(seg_records(image) == mt0);
            crate::storage::fs::lemma_file_with_name_fresh(s0.fs.segments, newf);
            assert(segs1.last() == newf);
            assert(segs1.drop_last() =~= s0.fs.segments);
            // The newest file decides the disk lookup for every buffered key,
            // and leaves every other key to the older files.
            assert forall|k2: Seq<u8>|
                #![trigger lookup_records(mt0, k2)]
                lookup_records(mt0, k2) is None implies disk_lookup(segs1, k2) == disk_lookup(
                s0.fs.segments,
                k2,
            ) by {}
            assert forall|j: int| 0 <= j < mt0.len() implies node_valid(
                segs1,
                (#[trigger] mt0[j]).0,
                NodeView { segment: name@, offset: rec_offset(mt0, j) as u64 },
            ) by {
                crate::storage::data_format::lemma_records_bytes_split(mt0, j);
                let pre = crate::storage::fs::spec_magic()
                    + crate::storage::data_format::records_bytes(mt0.take(j));
                let rest = crate::storage::data_format::records_bytes(mt0.skip(j + 1));
                assert(image =~= pre + crate::storage::data_format::spec_encode(
                    mt0[j].0,
                    mt0[j].1,
                ) + rest);
                crate::storage::data_format::lemma_decode_encoded(pre, mt0[j].0, mt0[j].1, rest);
                assert(pre.len() == rec_offset(mt0, j));
                assert(rec_offset(mt0, j) <= image.len());
                assert(image.len() <= u64::MAX);
                assert((rec_offset(mt0, j) as u64) as int == rec_offset(mt0, j));
                crate::storage::memtable::lemma_sorted_lookup(mt0, j);
                assert(lookup_records(seg_records(image), mt0[j].0) == Some(mt0[j].1));
                assert(disk_lookup(segs1, mt0[j].0) == Some(mt0[j].1));
            }
            assert forall|k2: Seq<u8>|
                #![trigger lookup_records(mt0, k2)]
                lookup_records(mt0, k2) is Some implies disk_lookup(segs1, k2) == Some(
                lookup_records(mt0, k2).unwrap(),
            ) by {
                crate::storage::memtable::lemma_lookup_membership(mt0, k2);
            }
            assert forall|k2: Seq<u8>|
                #![trigger lookup_records(mt0, k2)]
                lookup_records(mt0, k2) is Some implies crate::storage::index::lookup_nodes(
                self@.index,
                k2,
            ) is Some by {
                crate::storage::memtable::lemma_lookup_membership(mt0, k2);
            }
            assert forall|k2: Seq<u8>|
                #![trigger lookup_records(mt0, k2)]
                lookup_records(mt0, k2) is None implies crate::storage::index::lookup_nodes(
                self@.index,
                k2,
            ) == crate::storage::index::lookup_nodes(s0.index, k2) by {
                crate::storage::memtable::lemma_lookup_none(mt0, k2);
            }
            // Every index binding, new or kept, points at the newest copy.
            assert forall|k2: Seq<u8>|
                #![trigger crate::storage::index::lookup_nodes(self@.index, k2)]
                crate::storage::index::lookup_nodes(self@.index, k2) is Some
                    implies node_valid(
                segs1,
                k2,
                crate::storage::index::lookup_nodes(self@.index, k2).unwrap(),
            ) by {
                if lookup_records(mt0, k2) is Some {
                    crate::storage::memtable::lemma_lookup_membership(mt0, k2);
                    let j = choose|j: int|
                        0 <= j < mt0.len() && (#[trigger] mt0[j]).0 == k2 && mt0[j].1
                            == lookup_records(mt0, k2).unwrap();
                    assert(crate::storage::index::lookup_nodes(idx1, mt0[j].0) == Some(
                        NodeView { segment: name@, offset: rec_offset(mt0, j) as u64 },
                    ));
                } else {
                    crate::storage::memtable::lemma_lookup_none(mt0, k2);
                    assert(crate::storage::index::lookup_nodes(idx1, k2)
                        == crate::storage::index::lookup_nodes(s0.index, k2));
                    let nv = crate::storage::index::lookup_nodes(s0.index, k2).unwrap();
                    assert(node_valid(s0.fs.segments, k2, nv));
                    let d = file_with_name(s0.fs.segments, nv.segment).unwrap();
                    crate::storage::fs::lemma_file_with_name_membership(
                        s0.fs.segments,
                        nv.segment,
                    );
                    assert(nv.segment != name@);
                    crate::storage::fs::lemma_file_with_name_keep(s0.fs.segments, newf, nv.segment);
                    assert(file_with_name(segs1, nv.segment) == Some(d));
                }
            }
        }
    }

    /// Takes one write: the pair enters the in-memory buffer, after the
    /// buffer is flushed to a new segment file if this write pushes the size
    /// estimate over the threshold.  The flush excludes the incoming pair,
    /// which stays buffered until a later flush.  Fails only when no next
    /// segment name is free, which leaves the store as it was, apart from
    /// the grown size estimate.
    pub fn set(&mut self, key: &[u8], value: &[u8]) -> (r: Result<Response, Error>)
        requires
            old(self).inv(),
        ensures
            final(self).inv(),
            final(self)@.threshold == old(self)@.threshold,
            final(self)@.fs.dir == old(self)@.fs.dir,
            final(self)@.fs.wal == old(self)@.fs.wal,
            r is Err <==> (set_flushes(old(self)@, key@, value@) && old(self)@.fs.segments.len()
                > 0 && seg_suffix(old(self)@.fs.segments.last().name) == u64::MAX),
            ({
                let s0 = old(self)@;
                let flushes = set_flushes(s0, key@, value@);
                match r {
                    Ok(resp) => {
                        &&& resp matches Response::Record { key: rk, value: rv } && rk@ == key@
                            && rv@ == value@
                        &&& final(self)@.memtable == crate::storage::memtable::spec_insert(
                            if flushes {
                                Seq::<(Seq<u8>, Seq<u8>)>::empty()
                            } else {
                                s0.memtable
                            },
                            key@,
                            value@,
                        )
                        &&& final(self)@.fs.segments == if flushes {
                            s0.fs.segments + seq![
                                FileView {
                                    name: alloc_name(s0.fs.segments),
                                    data: segment_image(s0.memtable),
                                },
                            ]
                        } else {
                            s0.fs.segments
                        }
                        &&& final(self)@.size_estimate == if flushes {
                            0
                        } else {
                            new_estimate(s0, key@, value@)
                        }
                        &&& (!flushes ==> final(self)@.index == s0.index)
                        &&& (flushes ==> (forall|k2: Seq<u8>|
                            #![trigger lookup_records(s0.memtable, k2)]
                            lookup_records(s0.memtable, k2) is Some
                                ==> crate::storage::index::lookup_nodes(
                                final(self)@.index,
                                k2,
                            ) is Some))
                        &&& (flushes ==> (forall|k2: Seq<u8>|
                            #![trigger lookup_records(s0.memtable, k2)]
                            lookup_records(s0.memtable, k2) is None
                                ==> crate::storage::index::lookup_nodes(final(self)@.index, k2)
                                == crate::storage::index::lookup_nodes(s0.index, k2)))
                        &&& (flushes ==> (forall|k2: Seq<u8>|
                            #![trigger lookup_records(s0.memtable, k2)]
                            lookup_records(s0.memtable, k2) matches Some(v) ==> disk_lookup(
                                final(self)@.fs.segments,
                                k2,
                            ) == Some(v)))
                        &&& (flushes ==> (forall|k2: Seq<u8>|
                            #![trigger lookup_records(s0.memtable, k2)]
                            lookup_records(s0.memtable, k2) is None ==> disk_lookup(
                                final(self)@.fs.segments,
                                k2,
                            ) == disk_lookup(s0.fs.segments, k2)))
                    },
                    Err(e) => {
                        &&& e.kind == ErrorKind::IO
                        &&& final(self)@.fs.segments == s0.fs.segments
                        &&& final(self)@.memtable == s0.memtable
                        &&& final(self)@.index == s0.index
                        &&& final(self)@.size_estimate == new_estimate(s0, key@, value@)
                    },
                }
            }),
    {
        let ghost s0 = old(self)@;
        let is_new = !self.memtable.contains(key);
        if is_new {
            let kl = key.len() as u64;
            let vl = value.len() as u64;
            let add = if kl > u64::MAX - vl {
                u64::MAX
            } else {
                kl + vl
            };
            self.size_estimate = if self.size_estimate > u64::MAX - add {
                u64::MAX
            } else {
                self.size_estimate + add
            };
        }
        proof {
            assert(self@.size_estimate == new_estimate(s0, key@, value@));
        }
        if self.size_estimate > self.threshold {
            let name = match self.fs.allocate_data_file() {
                Ok(name) => name,
                Err(e) => {
                    return Err(e);
                },
            };
            proof {
                assert(name@ == alloc_name(s0.fs.segments));
            }
            self.flush(name);
        }
        self.memtable.insert(
            vstd::slice::slice_to_vec(key),
            vstd::slice::slice_to_vec(value),
        );
        Ok(
            Response::Record {
                key: vstd::slice::slice_to_vec(key),
                value: vstd::slice::slice_to_vec(value),
            },
        )
    }

    /// Falls back to the full scan: walks the segment files newest first,
    /// and inside each file reads record after record until the key turns
    /// up.  The first hit is the newest on-disk copy; it is recorded in the
    /// index so the next read of this key seeks straight to it.  Only the
    /// key that was asked for is indexed; indexing every key the scan
    /// passes would warm the cache further but is not needed for any
    /// lookup's correctness.  A file that fails the signature check aborts
    /// the scan with an `IO` error; a key in no file is a `Key` error.
    #[verifier::loop_isolation(false)]
    #[verifier::rlimit(100)]
    #[verifier::spinoff_prover]
    pub fn scan_for_key(&mut self, key: &[u8]) -> (r: Result<Response, Error>)
        requires
            old(self).inv(),
        ensures
            final(self).inv(),
            final(self)@.fs == old(self)@.fs,
            final(self)@.memtable == old(self)@.memtable,
            final(self)@.threshold == old(self)@.threshold,
            final(self)@.size_estimate == old(self)@.size_estimate,
            forall|k2: Seq<u8>|
                #![trigger crate::storage::index::lookup_nodes(final(self)@.index, k2)]
                k2 != key@ ==> crate::storage::index::lookup_nodes(final(self)@.index, k2)
                    == crate::storage::index::lookup_nodes(old(self)@.index, k2),
            match r {
                Ok(resp) => {
                    &&& resp matches Response::Record { key: rk, value: rv } && rk@ == key@
                        && scan_outcome(old(self)@.fs.segments, key@) == ScanOutcome::Found(rv@)
                },
                Err(e) => {
                    &&& !(scan_outcome(old(self)@.fs.segments, key@) is Found)
                    &&& (e.kind == ErrorKind::Key <==> scan_outcome(old(self)@.fs.segments, key@)
                        is NotFound)
                    &&& (e.kind == ErrorKind::IO <==> scan_outcome(old(self)@.fs.segments, key@)
                        is Corrupt)
                    &&& final(self)@.index == old(self)@.index
                },
            },
    {
        let ghost s0 = old(self)@;
        let ghost segs = old(self)@.fs.segments;
        let names = self.fs.scan_data_files();
        let n = names.len();
        let mut j: usize = n;
        proof {
            assert(segs.take(n as int) =~= segs);
        }
        while j > 0
            invariant
                0 <= j <= n,
                self@ == s0,
                scan_outcome(segs, key@) == scan_outcome(segs.take(j as int), key@),
                forall|p: int|
                    j <= p < segs.len() ==> openable((#[trigger] segs[p]).data)
                        && lookup_records(seg_records(segs[p].data), key@) is None,
            decreases j,
        {
            j = j - 1;
            let ghost fname = segs[j as int].name;
            proof {
                assert forall|p: int| 0 <= p < j implies #[trigger] segs[p].name != fname by {
                    assert(segs[p].name != segs[j as int].name);
                }
                crate::storage::fs::lemma_file_with_name_at(segs, fname, j as int);
                assert(file_with_name(segs, fname) == Some(segs[j as int].data));
            }
            let mut db = match crate::storage::fs::DBFile::new(&self.fs, names[j].as_str()) {
                Ok(db) => db,
                Err(e) => {
                    proof {
                        assert(segs.take(j + 1).last() == segs[j as int]);
                        assert(scan_outcome(segs.take(j + 1), key@) is Corrupt);
                    }
                    return Err(e);
                },
            };
            let ghost fdata = segs[j as int].data;
            let ghost dbdata = db@.data;
            proof {
                assert(openable(fdata));
                if fdata.len() == 0 {
                    assert(seg_records(fdata) =~= Seq::<(Seq<u8>, Seq<u8>)>::empty());
                    assert(seg_records(dbdata) =~= Seq::<(Seq<u8>, Seq<u8>)>::empty());
                } else {
                    assert(dbdata == fdata);
                }
                assert(lookup_records(seg_records(dbdata), key@) == lookup_records(
                    seg_records(fdata),
                    key@,
                ));
            }
            loop
                invariant
                    db@.data == dbdata,
                    self@ == s0,
                    16 <= db@.pos,
                    lookup_records(seg_records(dbdata), key@) == lookup_records(
                        crate::storage::data_format::records_from(dbdata, db@.pos as int),
                        key@,
                    ),
                decreases dbdata.len() + 16 - db@.pos,
            {
                let rec_pos = db.pos;
                let ghost pos0 = db@.pos as int;
                match db.next() {
                    None => {
                        proof {
                            assert(crate::storage::data_format::records_from(dbdata, pos0)
                                =~= Seq::<(Seq<u8>, Seq<u8>)>::empty());
                            assert(lookup_records(seg_records(fdata), key@) is None);
                        }
                        break ;
                    },
                    Some(rec) => {
                        proof {
                            assert(crate::storage::data_format::records_from(dbdata, pos0)
                                == seq![
                                (rec_key(dbdata, pos0), rec_value(dbdata, pos0)),
                            ] + crate::storage::data_format::records_from(
                                dbdata,
                                crate::storage::data_format::rec_end(dbdata, pos0),
                            ));
                        }
                        if crate::utils::eq_u8(rec.key.as_slice(), key) {
                            proof {
                                assert(lookup_records(
                                    crate::storage::data_format::records_from(dbdata, pos0),
                                    key@,
                                ) == Some(rec_value(dbdata, pos0)));
                                assert(lookup_records(seg_records(fdata), key@) == Some(
                                    rec.value@,
                                ));
                                if fdata.len() == 0 {
                                    assert(false);
                                }
                                assert(dbdata == fdata);
                                assert(scan_outcome(segs.take(j + 1), key@)
                                    == ScanOutcome::Found(rec.value@)) by {
                                    assert(segs.take(j + 1).last() == segs[j as int]);
                                }
                                lemma_disk_skip_tail(segs, key@, j + 1);
                                assert(disk_lookup(segs.take(j + 1), key@) == Some(rec.value@))
                                    by {
                                    assert(segs.take(j + 1).last() == segs[j as int]);
                                }
                                assert(disk_lookup(segs, key@) == Some(rec.value@));
                            }
                            let ghost idx0 = self@.index;
                            self.index.insert(key, names[j].as_str(), rec_pos as u64);
                            proof {
                                let nv = NodeView {
                                    segment: fname,
                                    offset: pos0 as u64,
                                };
                                assert(node_valid(segs, key@, nv));
                                assert forall|k2: Seq<u8>|
                                    #![trigger crate::storage::index::lookup_nodes(self@.index, k2)]
                                    crate::storage::index::lookup_nodes(self@.index, k2)
                                        is Some implies node_valid(
                                    segs,
                                    k2,
                                    crate::storage::index::lookup_nodes(self@.index, k2).unwrap(),
                                ) by {
                                    if k2 != key@ {
                                        assert(crate::storage::index::lookup_nodes(
                                            self@.index,
                                            k2,
                                        ) == crate::storage::index::lookup_nodes(idx0, k2));
                                    }
                                }
                            }
                            return Ok(
                                Response::Record {
                                    key: vstd::slice::slice_to_vec(key),
                                    value: rec.value,
                                },
                            );
                        }
                        proof {
                            assert(rec_key(dbdata, pos0) != key@);
                            let here = crate::storage::data_format::records_from(dbdata, pos0);
                            let rest = crate::storage::data_format::records_from(
                                dbdata,
                                crate::storage::data_format::rec_end(dbdata, pos0),
                            );
                            assert(here[0] == (rec_key(dbdata, pos0), rec_value(dbdata, pos0)));
                            assert(here.drop_first() =~= rest);
                            assert(lookup_records(here, key@) == lookup_records(rest, key@));
                        }
                    },
                }
            }
            proof {
                assert(segs.take(j + 1).last() == segs[j as int]);
                assert(segs.take(j + 1).drop_last() =~= segs.take(j as int));
                assert(scan_outcome(segs.take(j + 1), key@) == scan_outcome(
                    segs.take(j as int),
                    key@,
                ));
            }
        }
        proof {
            assert(segs.take(0) =~= Seq::<FileView>::empty());
            assert(scan_outcome(segs, key@) is NotFound);
        }
        Err(Error { kind: ErrorKind::Key })
    }

    /// Reads one key: the write buffer answers first, then the index, and
    /// last the full scan.  A key found nowhere is a `Key` error; a scan
    /// that hits an unreadable segment file before finding the key is an
    /// `IO` error.
    pub fn get(&mut self, key: &[u8]) -> (r: Result<Response, Error>)
        requires
            old(self).inv(),
        ensures
            final(self).inv(),
            final(self)@.fs == old(self)@.fs,
            final(self)@.memtable == old(self)@.memtable,
            final(self)@.threshold == old(self)@.threshold,
            final(self)@.size_estimate == old(self)@.size_estimate,
            forall|k2: Seq<u8>|
                #![trigger crate::storage::index::lookup_nodes(final(self)@.index, k2)]
                k2 != key@ ==> crate::storage::index::lookup_nodes(final(self)@.index, k2)
                    == crate::storage::index::lookup_nodes(old(self)@.index, k2),
            match r {
                Ok(resp) => {
                    &&& resp matches Response::Record { key: rk, value: rv } && rk@ == key@
                        && spec_get_outcome(old(self)@, key@) == Ok::<Seq<u8>, ErrorKind>(rv@)
                },
                Err(e) => spec_get_outcome(old(self)@, key@) == Err::<Seq<u8>, ErrorKind>(e.kind),
            },
    {
        let ghost s0 = old(self)@;
        let from_buffer = match self.memtable.get(key) {
            Some(v) => Some(vstd::slice::slice_to_vec(v.as_slice())),
            None => None,
        };
        if let Some(v) = from_buffer {
            return Ok(Response::Record { key: vstd::slice::slice_to_vec(key), value: v });
        }
        let node = match self.index.get(key) {
            Some(node) => Some((node.segment.clone(), node.offset)),
            None => None,
        };
        if let Some((segment, offset)) = node {
            let ghost nv = crate::storage::index::lookup_nodes(s0.index, key@).unwrap();
            proof {
                assert(node_valid(s0.fs.segments, key@, nv));
            }
            let mut db = match self.fs.open_file_safely(segment.as_str()) {
                Ok(db) => db,
                Err(e) => {
                    proof {
                        assert(false);
                    }
                    return Err(e);
                },
            };
            let ghost d = file_with_name(s0.fs.segments, nv.segment).unwrap();
            proof {
                if d.len() == 0 {
                    assert(!rec_ok(d, nv.offset as int));
                    assert(false);
                }
                assert(db@.data == d);
            }
            let dlen = db.data.len();
            proof {
                assert(nv.offset + 16 <= dlen);
            }
            db.pos = offset as usize;
            let rec = match crate::storage::fs::FileSystem::read_record_with(&mut db) {
                Ok(rec) => rec,
                Err(e) => {
                    proof {
                        assert(false);
                    }
                    return Err(e);
                },
            };
            proof {
                assert(rec.key@ == key@);
                assert(disk_lookup(s0.fs.segments, key@) == Some(rec.value@));
            }
            return Ok(Response::Record { key: vstd::slice::slice_to_vec(key), value: rec.value });
        }
        proof {
            assert(lookup_records(s0.memtable, key@) is None);
            assert(crate::storage::index::lookup_nodes(s0.index, key@) is None);
        }
        let r = self.scan_for_key(key);
        proof {
            match &r {
                Ok(resp) => {
                    assert(scan_outcome(s0.fs.segments, key@) matches ScanOutcome::Found(_));
                },
                Err(e) => {
                    assert(spec_get_outcome(s0, key@) == Err::<Seq<u8>, ErrorKind>(e.kind));
                },
            }
        }
        r
    }

    /// Rebinds the store to another directory, carrying its files with it;
    /// the index and buffer are reset, as they referred to the old binding.
    /// The host performs the real copy after checking the target directory.
    pub fn move_dir(&mut self, dir: &str) -> (r: Result<(), Error>)
        ensures
            r is Ok,
            final(self)@.fs.dir == dir@,
            final(self)@.fs.wal == old(self)@.fs.wal,
            final(self)@.fs.segments == old(self)@.fs.segments,
            final(self)@.memtable == Seq::<(Seq<u8>, Seq<u8>)>::empty(),
            final(self)@.index == Seq::<(Seq<u8>, NodeView)>::empty(),
            final(self)@.size_estimate == 0,
            final(self)@.threshold == old(self)@.threshold,
            old(self).inv() ==> final(self).inv(),
    {
        let r = self.fs.move_dir(dir);
        self.index.clear();
        self.memtable.clear();
        self.size_estimate = 0;
        r
    }

    /// Rebinds the store to another directory with that directory's files,
    /// as `attach-to` and a restart do; the index starts cold and the buffer
    /// empty, so the first reads fall back to full scans.
    pub fn attach_dir(&mut self, dir: &str, files: Vec<NamedFile>) -> (r: Result<(), Error>)
        requires
            ({
                let fv = files@.map_values(|g: NamedFile| g@);
                forall|i: int, j: int|
                    0 <= i < j < fv.len() ==> (#[trigger] fv[i]).name != (#[trigger] fv[j]).name
            }),
        ensures
            r is Ok,
            ({
                let fv = files@.map_values(|g: NamedFile| g@);
                &&& final(self)@.fs.dir == dir@
                &&& final(self)@.fs.segments.to_multiset() == crate::storage::fs::seg_files_of(fv)
                &&& final(self)@.memtable == Seq::<(Seq<u8>, Seq<u8>)>::empty()
                &&& final(self)@.index == Seq::<(Seq<u8>, NodeView)>::empty()
                &&& final(self)@.size_estimate == 0
                &&& final(self)@.threshold == old(self)@.threshold
                &&& final(self).inv()
            }),
    {
        let r = self.fs.attach_dir(dir, files);
        self.index.clear();
        self.memtable.clear();
        self.size_estimate = 0;
        r
    }
}

} // verus!
