use vstd::prelude::*;

use crate::error::{Error, ErrorKind};
use crate::storage::data_format::{has_header, header_klen, header_vlen, rec_end, rec_key,
    rec_ok, rec_value, Record};
use crate::utils::{dec_digits, is_dec_digits, dec_value, lemma_dec_digits_value, parse_u64_dec,
    u64_to_dec};
use vstd::multiset::Multiset;
use vstd::string::StringSliceAdditionalSpecFns;

verus! {

// Every database file begins with this 16-byte signature; a non-empty file
// that lacks it is refused, so that an arbitrary file is never misread as
// segment data.

/// The bytes of the signature "dpdb-feff-1234-1".
pub open spec fn spec_magic() -> Seq<u8> {
    seq![100u8, 112u8, 100u8, 98u8, 45u8, 102u8, 101u8, 102u8, 102u8, 45u8, 49u8, 50u8, 51u8, 52u8, 45u8, 49u8]
}

/// The number of signature bytes at the head of every database file.
pub const META_SIZE: u64 = 16;

/// Builds the signature bytes.
pub fn magic() -> (r: Vec<u8>)
    ensures
        r@ == spec_magic(),
        r@.len() == 16,
{
    let mut r: Vec<u8> = Vec::new();
    r.push(100u8);
    r.push(112u8);
    r.push(100u8);
    r.push(98u8);
    r.push(45u8);
    r.push(102u8);
    r.push(101u8);
    r.push(102u8);
    r.push(102u8);
    r.push(45u8);
    r.push(49u8);
    r.push(50u8);
    r.push(51u8);
    r.push(52u8);
    r.push(45u8);
    r.push(49u8);
    proof {
        assert(r@ =~= spec_magic());
    }
    r
}

/// A file may be opened as segment data when it is empty (a fresh file is
/// given the signature on first use) or starts with the full signature.
pub open spec fn openable(data: Seq<u8>) -> bool {
    data.len() == 0 || (data.len() >= 16 && data.subrange(0, 16) == spec_magic())
}

/// The records a segment file holds: everything decoded after the signature.
/// An empty file holds none.
pub open spec fn seg_records(data: Seq<u8>) -> Seq<(Seq<u8>, Seq<u8>)> {
    crate::storage::data_format::records_from(data, 16)
}

// Segment files are named "data", "data.1", "data.2", ... in order of
// creation; a larger suffix is a younger file, and a name is never reused or
// renamed once given out.

/// True when `name` names a segment file: the base name alone, or the base
/// name, a dot, and decimal digits whose value fits in 64 bits.
pub open spec fn is_seg_name(name: Seq<char>) -> bool {
    name == "data"@ || (name.len() > 5 && name.subrange(0, 5) == "data."@ && is_dec_digits(
        name.subrange(5, name.len() as int),
    ) && dec_value(name.subrange(5, name.len() as int)) <= u64::MAX)
}

/// The age rank a segment name carries: the bare base name ranks zero.
pub open spec fn seg_suffix(name: Seq<char>) -> nat {
    if name == "data"@ {
        0
    } else {
        dec_value(name.subrange(5, name.len() as int))
    }
}

/// Reads the age rank off a file name, or nothing when the name does not
/// name a segment file.
pub fn seg_name_suffix(name: &str) -> (r: Option<u64>)
    ensures
        r is Some <==> is_seg_name(name@),
        r matches Some(v) ==> v == seg_suffix(name@),
{
    proof {
        reveal_strlit("data");
        reveal_strlit("data.");
    }
    let n = name.unicode_len();
    if n == 4 && name.get_char(0) == 'd' && name.get_char(1) == 'a' && name.get_char(2) == 't'
        && name.get_char(3) == 'a' {
        proof {
            assert(name@ =~= "data"@);
        }
        return Some(0);
    }
    if n >= 5 && name.get_char(0) == 'd' && name.get_char(1) == 'a' && name.get_char(2) == 't'
        && name.get_char(3) == 'a' && name.get_char(4) == '.' {
        proof {
            assert(name@.subrange(0, 5) =~= "data."@);
            assert(name@ != "data"@);
        }
        let r = parse_u64_dec(name, 5);
        proof {
            if r is Some {
                assert(name@.len() > 5);
            }
        }
        return r;
    }
    proof {
        if name@ == "data"@ {
            assert(name@.len() == 4);
            assert(false);
        }
        if name@.len() > 5 && name@.subrange(0, 5) == "data."@ {
            let p = name@.subrange(0, 5);
            assert(p[0] == name@[0] && p[1] == name@[1] && p[2] == name@[2] && p[3] == name@[3]
                && p[4] == name@[4]);
            assert(name@[0] == 'd' && name@[1] == 'a' && name@[2] == 't' && name@[3] == 'a'
                && name@[4] == '.');
            assert(false);
        }
    }
    None
}

/// One directory entry the engine owns: a file name and the bytes it holds.
#[derive(Clone)]
pub struct NamedFile {
    pub name: String,
    pub data: Vec<u8>,
}

/// The mathematical content of a `NamedFile`.
pub struct FileView {
    pub name: Seq<char>,
    pub data: Seq<u8>,
}

impl View for NamedFile {
    type V = FileView;

    open spec fn view(&self) -> FileView {
        FileView { name: self.name@, data: self.data@ }
    }
}

/// The data of the first held file with the given name, if any.
pub open spec fn file_with_name(segs: Seq<FileView>, name: Seq<char>) -> Option<Seq<u8>>
    decreases segs.len(),
{
    if segs.len() == 0 {
        None
    } else if segs[0].name == name {
        Some(segs[0].data)
    } else {
        file_with_name(segs.drop_first(), name)
    }
}

/// When the first `i` files carry other names, the search is decided at `i`.
pub proof fn lemma_file_with_name_at(segs: Seq<FileView>, name: Seq<char>, i: int)
    requires
        0 <= i <= segs.len(),
        forall|j: int| 0 <= j < i ==> #[trigger] segs[j].name != name,
    ensures
        i < segs.len() && segs[i].name == name ==> file_with_name(segs, name) == Some(
            segs[i].data,
        ),
        i == segs.len() ==> file_with_name(segs, name) is None,
    decreases i,
{
    if i > 0 {
        lemma_file_with_name_at(segs.drop_first(), name, i - 1);
    }
}

/// A found file is an element of the list.
pub proof fn lemma_file_with_name_membership(segs: Seq<FileView>, name: Seq<char>)
    requires
        file_with_name(segs, name) is Some,
    ensures
        exists|j: int| 0 <= j < segs.len() && (#[trigger] segs[j]).name == name,
    decreases segs.len(),
{
    if segs.len() > 0 && segs[0].name != name {
        lemma_file_with_name_membership(segs.drop_first(), name);
        let j = choose|j: int| 0 <= j < segs.drop_first().len() && (#[trigger] segs.drop_first()[j]).name == name;
        assert(segs[j + 1].name == name);
    }
}

/// Appending a file under a name nobody holds makes that name find it.
pub proof fn lemma_file_with_name_fresh(segs: Seq<FileView>, f: FileView)
    requires
        forall|i: int| 0 <= i < segs.len() ==> (#[trigger] segs[i]).name != f.name,
    ensures
        file_with_name(segs + seq![f], f.name) == Some(f.data),
    decreases segs.len(),
{
    let out = segs + seq![f];
    if segs.len() == 0 {
        assert(out[0] == f);
    } else {
        lemma_file_with_name_fresh(segs.drop_first(), f);
        assert(out[0] == segs[0]);
        assert(out.drop_first() =~= segs.drop_first() + seq![f]);
    }
}

/// Appending a file leaves every other name's search unchanged.
pub proof fn lemma_file_with_name_keep(segs: Seq<FileView>, f: FileView, name: Seq<char>)
    requires
        name != f.name,
    ensures
        file_with_name(segs + seq![f], name) == file_with_name(segs, name),
    decreases segs.len(),
{
    let out = segs + seq![f];
    if segs.len() == 0 {
        assert(out[0] == f);
        assert(out.drop_first() =~= Seq::<FileView>::empty());
        assert(file_with_name(out, name) == file_with_name(out.drop_first(), name));
        assert(file_with_name(out.drop_first(), name) is None);
    } else {
        lemma_file_with_name_keep(segs.drop_first(), f, name);
        assert(out[0] == segs[0]);
        assert(out.drop_first() =~= segs.drop_first() + seq![f]);
        if segs[0].name != name {
            assert(file_with_name(out, name) == file_with_name(out.drop_first(), name));
            assert(file_with_name(segs, name) == file_with_name(segs.drop_first(), name));
        }
    }
}

/// A forward-only reader over one opened segment file: the file's bytes and
/// the position of the next unread record.
pub struct DBFile {
    pub data: Vec<u8>,
    pub pos: usize,
}

/// The mathematical content of a `DBFile`.
pub struct DbFileView {
    pub data: Seq<u8>,
    pub pos: nat,
}

impl View for DBFile {
    type V = DbFileView;

    open spec fn view(&self) -> DbFileView {
        DbFileView { data: self.data@, pos: self.pos as nat }
    }
}

/// The mathematical content of a `FileSystem`: the directory it is bound to,
/// the write-ahead log bytes, and the segment files, oldest first.
pub struct FsView {
    pub dir: Seq<char>,
    pub wal: Seq<u8>,
    pub segments: Seq<FileView>,
}

/// The engine's image of its database directory: the write-ahead log and the
/// segment files.  The host mirrors this image to disk; directory entries the
/// engine did not create are outside the image.
pub struct FileSystem {
    /// The directory this database lives in.
    pub dir: String,
    wal_data: Vec<u8>,
    segments: Vec<NamedFile>,
}

impl View for FileSystem {
    type V = FsView;

    closed spec fn view(&self) -> FsView {
        FsView {
            dir: self.dir@,
            wal: self.wal_data@,
            segments: self.segments@.map_values(|f: NamedFile| f@),
        }
    }
}

/// Every held file is a segment file; they stand oldest first (their age
/// ranks ascend) and no name repeats.
pub open spec fn segs_wf(segs: Seq<FileView>) -> bool {
    &&& forall|i: int| 0 <= i < segs.len() ==> is_seg_name(#[trigger] segs[i].name)
    &&& forall|i: int, j: int|
        0 <= i < j < segs.len() ==> seg_suffix(#[trigger] segs[i].name) <= seg_suffix(
            #[trigger] segs[j].name,
        )
    &&& forall|i: int, j: int|
        0 <= i < j < segs.len() ==> #[trigger] segs[i].name != #[trigger] segs[j].name
}

impl FileSystem {
    /// The held files form a well-ordered segment list.
    pub open spec fn wf(&self) -> bool {
        segs_wf(self@.segments)
    }

    /// Binds a fresh, empty database image to `dir`.
    pub fn new(dir: &str) -> (r: Result<FileSystem, Error>)
        ensures
            r matches Ok(fs) ==> {
                &&& fs@.dir == dir@
                &&& fs@.wal == Seq::<u8>::empty()
                &&& fs@.segments == Seq::<FileView>::empty()
                &&& fs.wf()
            },
            r is Ok,
    {
        let fs = FileSystem { dir: dir.to_owned(), wal_data: Vec::new(), segments: Vec::new() };
        proof {
            assert(fs@.segments =~= Seq::<FileView>::empty());
        }
        Ok(fs)
    }

    /// Appends one raw request line and a newline to the write-ahead log.
    /// The host must force the same bytes to stable storage before it treats
    /// the request as accepted.
    pub fn wal(&mut self, line: &str) -> (r: Result<(), Error>)
        ensures
            r is Ok,
            final(self)@.wal == old(self)@.wal + line.spec_bytes() + seq![10u8],
            final(self)@.dir == old(self)@.dir,
            final(self)@.segments == old(self)@.segments,
            final(self).wf() == old(self).wf(),
    {
        self.wal_data.extend_from_slice(line.as_bytes());
        self.wal_data.push(10u8);
        proof {
            assert(self@.wal =~= old(self)@.wal + line.spec_bytes() + seq![10u8]);
        }
        Ok(())
    }

    /// The number of segment files held.
    pub fn num_segments(&self) -> (r: usize)
        ensures
            r == self@.segments.len(),
    {
        self.segments.len()
    }

    /// The name of the segment file at position `i`, oldest first.
    pub fn segment_name(&self, i: usize) -> (r: &String)
        requires
            i < self@.segments.len(),
        ensures
            r@ == self@.segments[i as int].name,
    {
        &self.segments[i].name
    }

    /// Picks the name for the next segment file: the base name when no
    /// segment exists yet, otherwise the next age rank after the youngest.
    /// The name is new: no held segment file carries it.  Fails only when
    /// the youngest held name is not a segment name or its age rank is
    /// exhausted; neither happens to a well-formed image.
    pub fn allocate_data_file(&self) -> (r: Result<String, Error>)
        ensures
            r is Ok <==> (self@.segments.len() == 0 || (is_seg_name(self@.segments.last().name)
                && seg_suffix(self@.segments.last().name) < u64::MAX)),
            r matches Ok(name) ==> {
                &&& is_seg_name(name@)
                &&& self@.segments.len() == 0 ==> name@ == "data"@ && seg_suffix(name@) == 0
                &&& self@.segments.len() > 0 ==> seg_suffix(name@) == seg_suffix(
                    self@.segments.last().name,
                ) + 1
                &&& self@.segments.len() > 0 ==> name@ == "data."@ + dec_digits(
                    (seg_suffix(self@.segments.last().name) + 1) as nat,
                )
            },
            self.wf() ==> r is Ok || seg_suffix(self@.segments.last().name) == u64::MAX,
            self.wf() ==> (r matches Ok(name) ==> {
                &&& forall|i: int|
                    0 <= i < self@.segments.len() ==> seg_suffix(
                        #[trigger] self@.segments[i].name,
                    ) < seg_suffix(name@)
                &&& forall|i: int|
                    0 <= i < self@.segments.len() ==> #[trigger] self@.segments[i].name != name@
            }),
            r matches Err(e) ==> e.kind == ErrorKind::IO,
    {
        proof {
            reveal_strlit("data");
            reveal_strlit("data.");
        }
        let n = self.segments.len();
        if n == 0 {
            let name = "data".to_owned();
            return Ok(name);
        }
        proof {
            assert(self@.segments[n - 1].name == self.segments@[n - 1].name@);
        }
        let last = seg_name_suffix(self.segments[n - 1].name.as_str());
        let last_val = match last {
            Some(v) => v,
            None => {
                return Err(Error { kind: ErrorKind::IO });
            },
        };
        if last_val == u64::MAX {
            return Err(Error { kind: ErrorKind::IO });
        }
        let suffix = last_val + 1;
        let mut name = "data.".to_owned();
        let digits = u64_to_dec(suffix);
        name.append(digits.as_str());
        proof {
            lemma_dec_digits_value(suffix as nat);
            assert(name@.subrange(0, 5) =~= "data."@);
            assert(name@.subrange(5, name@.len() as int) =~= dec_digits(suffix as nat));
            assert(name@ != "data"@);
            assert(is_seg_name(name@));
            assert(seg_suffix(name@) == suffix as nat);
            if self.wf() {
                assert forall|i: int| 0 <= i < self@.segments.len() implies seg_suffix(
                    #[trigger] self@.segments[i].name,
                ) < seg_suffix(name@) by {
                    if i < self@.segments.len() - 1 {
                        assert(seg_suffix(self@.segments[i].name) <= seg_suffix(
                            self@.segments.last().name,
                        ));
                    }
                }
            }
        }
        Ok(name)
    }

    /// The names of the held segment files, oldest first (age rank
    /// ascending).
    pub fn scan_data_files(&self) -> (r: Vec<String>)
        ensures
            r@.len() == self@.segments.len(),
            forall|i: int| 0 <= i < r@.len() ==> #[trigger] r@[i]@ == self@.segments[i].name,
    {
        let mut out: Vec<String> = Vec::new();
        let n = self.segments.len();
        let mut i: usize = 0;
        while i < n
            invariant
                0 <= i <= n,
                n == self@.segments.len(),
                out@.len() == i,
                forall|j: int| 0 <= j < i ==> #[trigger] out@[j]@ == self@.segments[j].name,
            decreases n - i,
        {
            out.push(self.segments[i].name.clone());
            i += 1;
        }
        out
    }

    /// Drops every segment file from the image.  The write-ahead log and the
    /// directory binding stay.
    pub fn remove_data_files(&mut self)
        ensures
            final(self)@.segments == Seq::<FileView>::empty(),
            final(self)@.dir == old(self)@.dir,
            final(self)@.wal == old(self)@.wal,
            final(self).wf(),
    {
        self.segments.clear();
        proof {
            assert(self@.segments =~= Seq::<FileView>::empty());
        }
    }

    /// Records a freshly written segment file.  The caller supplies a name
    /// younger than every held segment, so the list stays ordered.
    pub fn add_segment(&mut self, name: String, data: Vec<u8>)
        requires
            old(self).wf(),
            is_seg_name(name@),
            forall|i: int|
                0 <= i < old(self)@.segments.len() ==> seg_suffix(
                    #[trigger] old(self)@.segments[i].name,
                ) < seg_suffix(name@),
        ensures
            final(self)@.segments == old(self)@.segments + seq![
                FileView { name: name@, data: data@ },
            ],
            final(self)@.dir == old(self)@.dir,
            final(self)@.wal == old(self)@.wal,
            final(self).wf(),
    {
        let ghost s0 = self@.segments;
        let ghost nv = FileView { name: name@, data: data@ };
        self.segments.push(NamedFile { name, data });
        proof {
            assert(self@.segments =~= s0 + seq![nv]);
            let segs = self@.segments;
            assert forall|i: int| 0 <= i < segs.len() implies is_seg_name(
                #[trigger] segs[i].name,
            ) by {
                if i < s0.len() {
                    assert(segs[i] == s0[i]);
                }
            }
            assert forall|i: int, j: int| 0 <= i < j < segs.len() implies seg_suffix(
                #[trigger] segs[i].name,
            ) <= seg_suffix(#[trigger] segs[j].name) by {
                if j < s0.len() {
                    assert(segs[i] == s0[i] && segs[j] == s0[j]);
                } else {
                    assert(segs[i] == s0[i] && segs[j] == nv);
                }
            }
            assert forall|i: int, j: int| 0 <= i < j < segs.len() implies #[trigger] segs[i].name
                != #[trigger] segs[j].name by {
                if j < s0.len() {
                    assert(segs[i] == s0[i] && segs[j] == s0[j]);
                } else {
                    assert(segs[i] == s0[i] && segs[j] == nv);
                    assert(seg_suffix(segs[i].name) < seg_suffix(segs[j].name));
                }
            }
        }
    }

    /// The data of the named segment file, if one is held.
    pub fn segment_data(&self, name: &str) -> (r: Option<&Vec<u8>>)
        ensures
            match r {
                Some(d) => file_with_name(self@.segments, name@) == Some(d@),
                None => file_with_name(self@.segments, name@) is None,
            },
    {
        let n = self.segments.len();
        let mut i: usize = 0;
        while i < n
            invariant
                0 <= i <= n,
                n == self@.segments.len(),
                forall|j: int| 0 <= j < i ==> #[trigger] self@.segments[j].name != name@,
            decreases n - i,
        {
            if crate::utils::str_eq(self.segments[i].name.as_str(), name) {
                proof {
                    lemma_file_with_name_at(self@.segments, name@, i as int);
                }
                return Some(&self.segments[i].data);
            }
            i += 1;
        }
        proof {
            lemma_file_with_name_at(self@.segments, name@, n as int);
        }
        None
    }

    /// Opens the named file for reading as segment data.  A file that is
    /// missing or empty reads as a segment with no records; a non-empty file
    /// must begin with the signature, else the open is refused.
    pub fn open_file_safely(&self, name: &str) -> (r: Result<DBFile, Error>)
        ensures
            ({
                let found = file_with_name(self@.segments, name@);
                match r {
                    Ok(db) => {
                        &&& (found is Some ==> openable(found.unwrap()) && db@.data == (
                        if found.unwrap().len() == 0 {
                            spec_magic()
                        } else {
                            found.unwrap()
                        }))
                        &&& (found is None ==> db@.data == spec_magic())
                        &&& db@.pos == 16
                        &&& db@.pos <= db@.data.len()
                    },
                    Err(e) => {
                        &&& found is Some
                        &&& !openable(found.unwrap())
                        &&& e.kind == ErrorKind::IO
                    },
                }
            }),
            r is Ok <==> (file_with_name(self@.segments, name@) matches Some(d) ==> openable(d)),
    {
        let found = self.segment_data(name);
        match found {
            None => Ok(DBFile { data: magic(), pos: 16 }),
            Some(d) => {
                if d.len() == 0 {
                    Ok(DBFile { data: magic(), pos: 16 })
                } else if d.len() >= 16 && crate::utils::eq_u8(&d.as_slice()[0..16],
                    magic().as_slice()) {
                    proof {
                        assert(openable(d@));
                    }
                    Ok(DBFile { data: d.clone(), pos: 16 })
                } else {
                    proof {
                        assert(!openable(d@));
                    }
                    Err(Error { kind: ErrorKind::IO })
                }
            },
        }
    }

    /// Reads the record at the reader's position and steps past it.  A
    /// missing or incomplete 16-byte header means no records remain (a `Key`
    /// error); a payload shorter than its header announces is a hard `IO`
    /// error.  The two cases stay apart so a caller can tell a clean end
    /// from a truncated tail.
    pub fn read_record_with(db: &mut DBFile) -> (r: Result<Record, Error>)
        ensures
            final(db)@.data == old(db)@.data,
            ({
                let data = old(db)@.data;
                let pos = old(db)@.pos as int;
                match r {
                    Ok(rec) => {
                        &&& rec_ok(data, pos)
                        &&& rec.key@ == rec_key(data, pos)
                        &&& rec.value@ == rec_value(data, pos)
                        &&& rec.klen == header_klen(data, pos)
                        &&& rec.vlen == header_vlen(data, pos)
                        &&& final(db)@.pos == rec_end(data, pos)
                    },
                    Err(e) => {
                        &&& final(db)@.pos == old(db)@.pos
                        &&& !rec_ok(data, pos)
                        &&& (e.kind == ErrorKind::Key <==> !has_header(data, pos))
                        &&& (e.kind == ErrorKind::IO <==> has_header(data, pos))
                    },
                }
            }),
    {
        let len = db.data.len();
        let pos = db.pos;
        if pos > len || len - pos < 16 {
            return Err(Error { kind: ErrorKind::Key });
        }
        let klen = crate::storage::data_format::read_u64_be(db.data.as_slice(), pos);
        let vlen = crate::storage::data_format::read_u64_be(db.data.as_slice(), pos + 8);
        proof {
            assert(db@.data.subrange(pos as int, pos as int + 8) =~= db@.data.subrange(
                pos as int,
                pos as int + 8,
            ));
            assert(klen == header_klen(db@.data, pos as int));
            assert(vlen == header_vlen(db@.data, pos as int));
        }
        let remaining = (len - pos - 16) as u64;
        if klen > remaining || vlen > remaining - klen {
            return Err(Error { kind: ErrorKind::IO });
        }
        let klen_us = klen as usize;
        let vlen_us = vlen as usize;
        let key = vstd::slice::slice_to_vec(&db.data.as_slice()[pos + 16..pos + 16 + klen_us]);
        let value = vstd::slice::slice_to_vec(
            &db.data.as_slice()[pos + 16 + klen_us..pos + 16 + klen_us + vlen_us],
        );
        db.pos = pos + 16 + klen_us + vlen_us;
        Ok(Record { klen: klen_us, vlen: vlen_us, key, value })
    }

    /// Rebinds the image to `dir`, keeping every held file: the host copies
    /// the real files to the new directory and removes the originals, after
    /// checking that the target exists, is a directory, and is empty.
    pub fn move_dir(&mut self, dir: &str) -> (r: Result<(), Error>)
        ensures
            r is Ok,
            final(self)@.dir == dir@,
            final(self)@.wal == old(self)@.wal,
            final(self)@.segments == old(self)@.segments,
            final(self).wf() == old(self).wf(),
    {
        self.dir = dir.to_owned();
        Ok(())
    }
}

/// The segment files among a list of directory entries, as a bag.
pub open spec fn seg_files_of(files: Seq<FileView>) -> Multiset<FileView>
    decreases files.len(),
{
    if files.len() == 0 {
        Multiset::empty()
    } else if is_seg_name(files.first().name) {
        seg_files_of(files.drop_first()).insert(files.first())
    } else {
        seg_files_of(files.drop_first())
    }
}

/// Whatever the bag holds came from the list and names a segment file.
pub proof fn lemma_seg_files_of_membership(files: Seq<FileView>, x: FileView)
    requires
        seg_files_of(files).count(x) > 0,
    ensures
        exists|j: int| 0 <= j < files.len() && files[j] == x,
        is_seg_name(x.name),
    decreases files.len(),
{
    if files.len() > 0 {
        if is_seg_name(files.first().name) && x == files.first() {
            assert(files[0] == x);
        } else {
            lemma_seg_files_of_membership(files.drop_first(), x);
            let j = choose|j: int|
                0 <= j < files.drop_first().len() && files.drop_first()[j] == x;
            assert(files[j + 1] == x);
        }
    }
}

/// Placing one element anywhere in a sequence adds it to the sequence's bag.
proof fn lemma_insert_to_multiset(s: Seq<FileView>, i: int, x: FileView)
    requires
        0 <= i <= s.len(),
    ensures
        s.insert(i, x).to_multiset() =~= s.to_multiset().insert(x),
    decreases s.len(),
{
    broadcast use vstd::seq_lib::group_to_multiset_ensures;

    if i == s.len() {
        assert(s.insert(i, x) =~= s.push(x));
    } else {
        lemma_insert_to_multiset(s.drop_last(), i, x);
        assert(s.insert(i, x) =~= s.drop_last().insert(i, x).push(s.last()));
        assert(s =~= s.drop_last().push(s.last()));
        assert(s.insert(i, x).to_multiset() =~= s.drop_last().insert(i, x).to_multiset().insert(
            s.last(),
        ));
        assert(s.to_multiset() =~= s.drop_last().to_multiset().insert(s.last()));
    }
}

/// Inserts one segment file into a well-ordered list, keeping the order.
fn insert_segment_sorted(v: &mut Vec<NamedFile>, f: NamedFile)
    requires
        segs_wf(old(v)@.map_values(|g: NamedFile| g@)),
        is_seg_name(f@.name),
        forall|i: int| 0 <= i < old(v)@.len() ==> (#[trigger] old(v)@[i])@.name != f@.name,
    ensures
        segs_wf(final(v)@.map_values(|g: NamedFile| g@)),
        final(v)@.map_values(|g: NamedFile| g@).to_multiset() == old(v)@.map_values(
            |g: NamedFile| g@,
        ).to_multiset().insert(f@),
{
    let ghost s0 = v@.map_values(|g: NamedFile| g@);
    let suf = match seg_name_suffix(f.name.as_str()) {
        Some(x) => x,
        None => {
            proof {
                assert(false);
            }
            0
        },
    };
    let n = v.len();
    let mut i: usize = 0;
    while i < n
        invariant
            0 <= i <= n,
            n == s0.len(),
            v@.map_values(|g: NamedFile| g@) == s0,
            segs_wf(s0),
            suf == seg_suffix(f@.name),
            forall|j: int| 0 <= j < i ==> seg_suffix(#[trigger] s0[j].name) <= suf as nat,
        ensures
            0 <= i <= n,
            v@.map_values(|g: NamedFile| g@) == s0,
            forall|j: int| 0 <= j < i ==> seg_suffix(#[trigger] s0[j].name) <= suf as nat,
            i < n ==> seg_suffix(s0[i as int].name) > suf as nat,
        decreases n - i,
    {
        proof {
            assert(s0[i as int] == v@.map_values(|g: NamedFile| g@)[i as int]);
            assert(is_seg_name(s0[i as int].name));
        }
        let cur = match seg_name_suffix(v[i].name.as_str()) {
            Some(x) => x,
            None => {
                proof {
                    assert(false);
                }
                0
            },
        };
        if cur > suf {
            break ;
        }
        i += 1;
    }
    v.insert(i, f);
    proof {
        let s1 = v@.map_values(|g: NamedFile| g@);
        assert(s1 =~= s0.insert(i as int, f@));
        lemma_insert_to_multiset(s0, i as int, f@);
        assert forall|p: int| 0 <= p < s1.len() implies is_seg_name(#[trigger] s1[p].name) by {
            if p < i {
                assert(s1[p] == s0[p]);
            } else if p == i {
                assert(s1[p] == f@);
            } else {
                assert(s1[p] == s0[p - 1]);
            }
        }
        assert forall|p: int, q: int| 0 <= p < q < s1.len() implies seg_suffix(
            #[trigger] s1[p].name,
        ) <= seg_suffix(#[trigger] s1[q].name) by {
            if p < i && q == i {
                assert(s1[p] == s0[p] && s1[q] == f@);
            } else if p == i && q > i {
                assert(s1[p] == f@ && s1[q] == s0[q - 1]);
            } else if p < i && q > i {
                assert(s1[p] == s0[p] && s1[q] == s0[q - 1]);
                if q - 1 == p {
                    assert(seg_suffix(s0[p].name) <= suf as nat);
                    assert(seg_suffix(s0[q - 1].name) > suf as nat || q - 1 >= i);
                }
            } else if q < i {
                assert(s1[p] == s0[p] && s1[q] == s0[q]);
            } else if p > i {
                assert(s1[p] == s0[p - 1] && s1[q] == s0[q - 1]);
            }
        }
        assert forall|p: int, q: int| 0 <= p < q < s1.len() implies #[trigger] s1[p].name
            != #[trigger] s1[q].name by {
            if p == i {
                assert(s1[q] == s0[q - 1]);
            } else if q == i {
                assert(s1[p] == s0[p]);
            } else if p < i && q > i {
                assert(s1[p] == s0[p] && s1[q] == s0[q - 1]);
            }
        }
    }
}

impl FileSystem {
    /// Rebuilds an image of `dir` from its directory entries, as a restart
    /// or an attach sees them: the write-ahead log is picked up by name, the
    /// segment files are gathered and put oldest first, and entries the
    /// engine does not own are left aside.  The entries of a real directory
    /// carry distinct names.
    pub fn from_files(dir: &str, files: Vec<NamedFile>) -> (r: Result<FileSystem, Error>)
        requires
            ({
                let fv = files@.map_values(|g: NamedFile| g@);
                forall|i: int, j: int|
                    0 <= i < j < fv.len() ==> (#[trigger] fv[i]).name != (#[trigger] fv[j]).name
            }),
        ensures
            r is Ok,
            r matches Ok(fs) ==> {
                let fv = files@.map_values(|g: NamedFile| g@);
                &&& fs@.dir == dir@
                &&& fs.wf()
                &&& fs@.segments.to_multiset() == seg_files_of(fv)
                &&& match file_with_name(fv, "wal"@) {
                    Some(d) => fs@.wal == d,
                    None => fs@.wal == Seq::<u8>::empty(),
                }
            },
    {
        let ghost fv = files@.map_values(|g: NamedFile| g@);
        let mut rem = files;
        let mut wal_data: Vec<u8> = Vec::new();
        let mut segments: Vec<NamedFile> = Vec::new();
        proof {
            broadcast use vstd::seq_lib::group_to_multiset_ensures;

            assert(fv.skip(rem@.len() as int) =~= Seq::<FileView>::empty());
            assert(segments@.map_values(|g: NamedFile| g@) =~= Seq::<FileView>::empty());
            let e = Seq::<FileView>::empty();
            assert forall|x: FileView| e.to_multiset().count(x) == 0 by {
                assert(!e.contains(x));
            }
            assert(e.to_multiset() =~= Multiset::<FileView>::empty());
        }
        while rem.len() > 0
            invariant
                rem@.len() <= fv.len(),
                rem@.map_values(|g: NamedFile| g@) == fv.take(rem@.len() as int),
                forall|i: int, j: int|
                    0 <= i < j < fv.len() ==> (#[trigger] fv[i]).name != (#[trigger] fv[j]).name,
                segs_wf(segments@.map_values(|g: NamedFile| g@)),
                segments@.map_values(|g: NamedFile| g@).to_multiset() == seg_files_of(
                    fv.skip(rem@.len() as int),
                ),
                match file_with_name(fv.skip(rem@.len() as int), "wal"@) {
                    Some(d) => wal_data@ == d,
                    None => wal_data@ == Seq::<u8>::empty(),
                },
            decreases rem@.len(),
        {
            let ghost k = rem@.len() as int;
            let f = match rem.pop() {
                Some(x) => x,
                None => {
                    proof {
                        assert(false);
                    }
                    continue ;
                },
            };
            proof {
                assert(rem@.map_values(|g: NamedFile| g@) =~= fv.take(k - 1));
                assert(f@ == fv.take(k)[k - 1]);
                assert(f@ == fv[k - 1]);
                assert(fv.skip(k - 1).first() == fv[k - 1]);
                assert(fv.skip(k - 1).drop_first() =~= fv.skip(k));
            }
            if crate::utils::str_eq(f.name.as_str(), "wal") {
                proof {
                    assert(!is_seg_name(f@.name)) by {
                        reveal_strlit("wal");
                        reveal_strlit("data");
                        reveal_strlit("data.");
                        if f@.name == "data"@ {
                            assert(f@.name[0] == 'w' && f@.name[0] == 'd');
                        }
                        if f@.name.len() > 5 && f@.name.subrange(0, 5) == "data."@ {
                            assert(f@.name.len() == 3);
                            assert(false);
                        }
                    };
                }
                wal_data = f.data;
            } else {
                let suffix = seg_name_suffix(f.name.as_str());
                match suffix {
                    Some(_) => {
                        proof {
                            assert(f@.name != "wal"@);
                            let cur = segments@.map_values(|g: NamedFile| g@);
                            assert forall|i: int| 0 <= i < segments@.len() implies (
                            #[trigger] segments@[i])@.name != f@.name by {
                                broadcast use vstd::seq_lib::group_to_multiset_ensures;

                                assert(cur[i] == segments@[i]@);
                                assert(cur.contains(cur[i]));
                                assert(cur.to_multiset().count(cur[i]) > 0);
                                lemma_seg_files_of_membership(fv.skip(k), cur[i]);
                                let j = choose|j: int|
                                    0 <= j < fv.skip(k).len() && fv.skip(k)[j] == cur[i];
                                assert(fv[j + k] == cur[i]);
                                assert(fv[j + k].name != fv[k - 1].name);
                            }
                        }
                        insert_segment_sorted(&mut segments, f);
                    },
                    None => {
                        proof {
                            assert(f@.name != "wal"@) by {
                                reveal_strlit("wal");
                            };
                        }
                    },
                }
            }
            proof {
                assert(file_with_name(fv.skip(k - 1), "wal"@) == (if fv[k - 1].name == "wal"@ {
                    Some(fv[k - 1].data)
                } else {
                    file_with_name(fv.skip(k), "wal"@)
                }));
                assert(seg_files_of(fv.skip(k - 1)) == (if is_seg_name(fv[k - 1].name) {
                    seg_files_of(fv.skip(k)).insert(fv[k - 1])
                } else {
                    seg_files_of(fv.skip(k))
                }));
            }
        }
        proof {
            assert(fv.skip(0) =~= fv);
        }
        let fs = FileSystem { dir: dir.to_owned(), wal_data, segments };
        Ok(fs)
    }

    /// Hands out a copy of every file the image holds — the write-ahead log
    /// first, then the segment files oldest first — as a host would read
    /// them back from the real directory.
    pub fn export_files(&self) -> (r: Vec<NamedFile>)
        ensures
            r@.map_values(|f: NamedFile| f@) == seq![
                FileView { name: "wal"@, data: self@.wal },
            ] + self@.segments,
    {
        let mut out: Vec<NamedFile> = Vec::new();
        out.push(NamedFile { name: "wal".to_owned(), data: self.wal_data.clone() });
        let n = self.segments.len();
        let mut i: usize = 0;
        proof {
            assert(out@.map_values(|f: NamedFile| f@) =~= seq![
                FileView { name: "wal"@, data: self@.wal },
            ] + self@.segments.take(0));
        }
        while i < n
            invariant
                0 <= i <= n,
                n == self@.segments.len(),
                out@.map_values(|f: NamedFile| f@) == seq![
                    FileView { name: "wal"@, data: self@.wal },
                ] + self@.segments.take(i as int),
            decreases n - i,
        {
            let nm = self.segments[i].name.clone();
            let dt = self.segments[i].data.clone();
            proof {
                assert(self@.segments[i as int] == self.segments@[i as int]@);
                assert(nm@ == self.segments@[i as int].name@);
                assert forall|q: int| 0 <= q < dt@.len() implies dt@[q] == self.segments@[i
                    as int].data@[q] by {}
                assert(dt@ =~= self.segments@[i as int].data@);
            }
            let ghost nfv = FileView { name: nm@, data: dt@ };
            let ghost m0 = out@.map_values(|f: NamedFile| f@);
            out.push(NamedFile { name: nm, data: dt });
            proof {
                let m1 = out@.map_values(|f: NamedFile| f@);
                let target = seq![FileView { name: "wal"@, data: self@.wal }]
                    + self@.segments.take(i + 1);
                assert(nfv == self@.segments[i as int]);
                assert(m1.len() == m0.len() + 1);
                assert forall|q: int| 0 <= q < m1.len() implies m1[q] == target[q] by {
                    assert(m1[q] == out@[q]@);
                    if q < m1.len() - 1 {
                        assert(m1[q] == m0[q]);
                        assert(m0[q] == (seq![FileView { name: "wal"@, data: self@.wal }]
                            + self@.segments.take(i as int))[q]);
                        if q > 0 {
                            assert(target[q] == self@.segments.take(i + 1)[q - 1]);
                            assert(self@.segments.take(i + 1)[q - 1] == self@.segments[q - 1]);
                            assert(self@.segments.take(i as int)[q - 1] == self@.segments[q - 1]);
                        }
                    } else {
                        assert(m1[q] == nfv);
                        assert(target[q] == self@.segments.take(i + 1)[i as int]);
                    }
                }
                assert(m1 =~= target);
            }
            i += 1;
        }
        proof {
            assert(self@.segments.take(n as int) =~= self@.segments);
        }
        out
    }

    /// Rebinds the image to `dir` with that directory's entries, discarding
    /// everything held for the previous directory.
    pub fn attach_dir(&mut self, dir: &str, files: Vec<NamedFile>) -> (r: Result<(), Error>)
        requires
            ({
                let fv = files@.map_values(|g: NamedFile| g@);
                forall|i: int, j: int|
                    0 <= i < j < fv.len() ==> (#[trigger] fv[i]).name != (#[trigger] fv[j]).name
            }),
        ensures
            r is Ok,
            ({
                let fv = files@.map_values(|g: NamedFile| g@);
                &&& final(self)@.dir == dir@
                &&& final(self).wf()
                &&& final(self)@.segments.to_multiset() == seg_files_of(fv)
                &&& match file_with_name(fv, "wal"@) {
                    Some(d) => final(self)@.wal == d,
                    None => final(self)@.wal == Seq::<u8>::empty(),
                }
            }),
    {
        let fs = match FileSystem::from_files(dir, files) {
            Ok(fs) => fs,
            Err(e) => {
                proof {
                    assert(false);
                }
                return Err(e);
            },
        };
        *self = fs;
        Ok(())
    }
}

impl DBFile {
    /// Opens the named file of `fs` for sequential reading, with the
    /// signature check of `open_file_safely`.
    pub fn new(fs: &FileSystem, name: &str) -> (r: Result<DBFile, Error>)
        ensures
            ({
                let found = file_with_name(fs@.segments, name@);
                match r {
                    Ok(db) => {
                        &&& (found is Some ==> openable(found.unwrap()) && db@.data == (
                        if found.unwrap().len() == 0 {
                            spec_magic()
                        } else {
                            found.unwrap()
                        }))
                        &&& (found is None ==> db@.data == spec_magic())
                        &&& db@.pos == 16
                        &&& db@.pos <= db@.data.len()
                    },
                    Err(e) => {
                        &&& found is Some
                        &&& !openable(found.unwrap())
                        &&& e.kind == ErrorKind::IO
                    },
                }
            }),
            r is Ok <==> (file_with_name(fs@.segments, name@) matches Some(d) ==> openable(d)),
    {
        fs.open_file_safely(name)
    }

    /// The next record, or nothing once no whole record remains.  A clean
    /// end and a truncated tail both end the sequence; `read_record_with`
    /// tells them apart for callers that must know.
    pub fn next(&mut self) -> (r: Option<Record>)
        ensures
            final(self)@.data == old(self)@.data,
            ({
                let data = old(self)@.data;
                let pos = old(self)@.pos as int;
                match r {
                    Some(rec) => {
                        &&& rec_ok(data, pos)
                        &&& rec.key@ == rec_key(data, pos)
                        &&& rec.value@ == rec_value(data, pos)
                        &&& final(self)@.pos == rec_end(data, pos)
                    },
                    None => {
                        &&& !rec_ok(data, pos)
                        &&& final(self)@.pos == old(self)@.pos
                    },
                }
            }),
    {
        match FileSystem::read_record_with(self) {
            Ok(rec) => Some(rec),
            Err(_) => None,
        }
    }
}

/// What a directory-backed store offers the engine; the real image
/// implements it, and a stand-in may replace it in a harness.
pub trait FS: Sized {
    fn new(dir: &str) -> Result<Self, Error>;

    fn dir(&self) -> &str;

    fn clear(&self) -> Result<(), Error>;

    fn allocate_data_file(&self) -> Result<String, Error>;

    fn meta_size() -> (r: u64)
        ensures
            r == 16,
    ;
}

impl FS for FileSystem {
    fn new(dir: &str) -> Result<Self, Error> {
        FileSystem::new(dir)
    }

    fn dir(&self) -> &str {
        self.dir.as_str()
    }

    fn clear(&self) -> Result<(), Error> {
        Ok(())
    }

    fn allocate_data_file(&self) -> Result<String, Error> {
        FileSystem::allocate_data_file(self)
    }

    fn meta_size() -> (r: u64) {
        META_SIZE
    }
}

} // verus!
