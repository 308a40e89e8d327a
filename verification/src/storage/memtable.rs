use vstd::prelude::*;

use crate::utils::{cmp_bytes, lemma_lex_trichotomy, Cmp};
use crate::utils::lex_lt;

verus! {

/// Looks a key up in a sequence of records, returning the value of the first
/// record that carries it.
pub open spec fn lookup_records(recs: Seq<(Seq<u8>, Seq<u8>)>, key: Seq<u8>) -> Option<Seq<u8>>
    decreases recs.len(),
{
    if recs.len() == 0 {
        None
    } else if recs[0].0 == key {
        Some(recs[0].1)
    } else {
        lookup_records(recs.drop_first(), key)
    }
}

/// When the first `i` records carry other keys, the lookup is decided at `i`.
pub proof fn lemma_lookup_at(recs: Seq<(Seq<u8>, Seq<u8>)>, key: Seq<u8>, i: int)
    requires
        0 <= i <= recs.len(),
        forall|j: int| 0 <= j < i ==> recs[j].0 != key,
    ensures
        i < recs.len() && recs[i].0 == key ==> lookup_records(recs, key) == Some(recs[i].1),
        i == recs.len() ==> lookup_records(recs, key) is None,
    decreases i,
{
    if i > 0 {
        lemma_lookup_at(recs.drop_first(), key, i - 1);
    }
}

/// Strictly ascending key order over a sequence of records.
pub open spec fn sorted_strict(s: Seq<(Seq<u8>, Seq<u8>)>) -> bool {
    forall|i: int, j: int| 0 <= i < j < s.len() ==> lex_lt(s[i].0, s[j].0)
}

/// A found value sits at some position carrying the key.
pub proof fn lemma_lookup_membership(recs: Seq<(Seq<u8>, Seq<u8>)>, key: Seq<u8>)
    requires
        lookup_records(recs, key) is Some,
    ensures
        exists|j: int|
            0 <= j < recs.len() && (#[trigger] recs[j]).0 == key && recs[j].1 == lookup_records(
                recs,
                key,
            ).unwrap(),
    decreases recs.len(),
{
    if recs.len() > 0 && recs[0].0 != key {
        lemma_lookup_membership(recs.drop_first(), key);
        let j = choose|j: int|
            0 <= j < recs.drop_first().len() && (#[trigger] recs.drop_first()[j]).0 == key
                && recs.drop_first()[j].1 == lookup_records(recs.drop_first(), key).unwrap();
        assert(recs[j + 1] == recs.drop_first()[j]);
    }
}

/// A failed lookup means no record carries the key.
pub proof fn lemma_lookup_none(recs: Seq<(Seq<u8>, Seq<u8>)>, key: Seq<u8>)
    requires
        lookup_records(recs, key) is None,
    ensures
        forall|j: int| 0 <= j < recs.len() ==> (#[trigger] recs[j]).0 != key,
    decreases recs.len(),
{
    if recs.len() > 0 {
        lemma_lookup_none(recs.drop_first(), key);
        assert forall|j: int| 0 <= j < recs.len() implies (#[trigger] recs[j]).0 != key by {
            if j > 0 {
                assert(recs.drop_first()[j - 1] == recs[j]);
            }
        }
    }
}

/// In a strictly sorted run, the record at `j` is what its key looks up to.
pub proof fn lemma_sorted_lookup(s: Seq<(Seq<u8>, Seq<u8>)>, j: int)
    requires
        sorted_strict(s),
        0 <= j < s.len(),
    ensures
        lookup_records(s, s[j].0) == Some(s[j].1),
{
    assert forall|p: int| 0 <= p < j implies s[p].0 != s[j].0 by {
        lemma_lex_trichotomy(s[p].0, s[j].0);
    }
    lemma_lookup_at(s, s[j].0, j);
}

pub use crate::storage::data_format::bounded_records;

/// The sequence after writing `key -> value`: the pair replaces the record
/// with the same key, or takes its place in key order.
pub open spec fn spec_insert(s: Seq<(Seq<u8>, Seq<u8>)>, key: Seq<u8>, value: Seq<u8>) -> Seq<
    (Seq<u8>, Seq<u8>),
>
    decreases s.len(),
{
    if s.len() == 0 {
        seq![(key, value)]
    } else if lex_lt(key, s[0].0) {
        seq![(key, value)] + s
    } else if key == s[0].0 {
        seq![(key, value)] + s.drop_first()
    } else {
        seq![s[0]] + spec_insert(s.drop_first(), key, value)
    }
}

/// Pins down `spec_insert` at the first position `i` whose key is not below
/// `key`.
proof fn lemma_spec_insert_at(s: Seq<(Seq<u8>, Seq<u8>)>, key: Seq<u8>, value: Seq<u8>, i: int)
    requires
        0 <= i <= s.len(),
        forall|j: int| 0 <= j < i ==> lex_lt(s[j].0, key),
        i < s.len() ==> !lex_lt(s[i].0, key),
    ensures
        i < s.len() && s[i].0 == key ==> spec_insert(s, key, value) =~= s.subrange(0, i) + seq![
            (key, value),
        ] + s.subrange(i + 1, s.len() as int),
        !(i < s.len() && s[i].0 == key) ==> spec_insert(s, key, value) =~= s.subrange(0, i)
            + seq![(key, value)] + s.subrange(i, s.len() as int),
    decreases i,
{
    if i == 0 {
        if s.len() > 0 && s[0].0 != key {
            lemma_lex_trichotomy(key, s[0].0);
        }
    } else {
        lemma_spec_insert_at(s.drop_first(), key, value, i - 1);
        lemma_lex_trichotomy(key, s[0].0);
        assert(lex_lt(s[0].0, key));
        assert(spec_insert(s, key, value) == seq![s[0]] + spec_insert(s.drop_first(), key, value));
        assert(s.drop_first().subrange(0, i - 1) =~= s.subrange(1, i));
        if i < s.len() && s[i].0 == key {
            assert(s.drop_first()[i - 1] == s[i]);
            assert(s.drop_first().subrange(i, s.len() - 1) =~= s.subrange(i + 1, s.len() as int));
        } else {
            assert(s.drop_first().subrange(i - 1, s.len() - 1) =~= s.subrange(i, s.len() as int));
        }
    }
}

/// Writing a pair changes exactly that key's lookup.
pub proof fn lemma_insert_lookup(
    s: Seq<(Seq<u8>, Seq<u8>)>,
    key: Seq<u8>,
    value: Seq<u8>,
    probe: Seq<u8>,
)
    ensures
        probe == key ==> lookup_records(spec_insert(s, key, value), probe) == Some(value),
        probe != key ==> lookup_records(spec_insert(s, key, value), probe) == lookup_records(
            s,
            probe,
        ),
    decreases s.len(),
{
    let out = spec_insert(s, key, value);
    if s.len() == 0 {
        assert(out.len() == 1 && out[0] == (key, value));
        assert(out.drop_first() =~= Seq::<(Seq<u8>, Seq<u8>)>::empty());
        if probe != key {
            assert(lookup_records(out, probe) == lookup_records(out.drop_first(), probe));
        }
    } else if lex_lt(key, s[0].0) {
        assert(out[0] == (key, value));
        assert(out.drop_first() =~= s);
        if probe != key {
            assert(lookup_records(out, probe) == lookup_records(out.drop_first(), probe));
        }
    } else if key == s[0].0 {
        assert(out[0] == (key, value));
        assert(out.drop_first() =~= s.drop_first());
        if probe != key {
            assert(lookup_records(out, probe) == lookup_records(out.drop_first(), probe));
            assert(lookup_records(s, probe) == lookup_records(s.drop_first(), probe));
        }
    } else {
        lemma_insert_lookup(s.drop_first(), key, value, probe);
        assert(out[0] == s[0]);
        assert(out.drop_first() =~= spec_insert(s.drop_first(), key, value));
        if s[0].0 != probe {
            assert(lookup_records(out, probe) == lookup_records(out.drop_first(), probe));
            assert(lookup_records(s, probe) == lookup_records(s.drop_first(), probe));
        } else {
            assert(lookup_records(out, probe) == Some(s[0].1));
            assert(lookup_records(s, probe) == Some(s[0].1));
        }
    }
}

/// The in-memory write buffer: the most recent, not yet flushed writes, held
/// in strictly ascending key order.
pub struct Memtable {
    entries: Vec<(Vec<u8>, Vec<u8>)>,
}

impl View for Memtable {
    type V = Seq<(Seq<u8>, Seq<u8>)>;

    closed spec fn view(&self) -> Seq<(Seq<u8>, Seq<u8>)> {
        self.entries@.map_values(|p: (Vec<u8>, Vec<u8>)| (p.0@, p.1@))
    }
}

impl Memtable {
    /// The buffer's records are strictly sorted by key, and short enough to
    /// frame.
    pub open spec fn wf(&self) -> bool {
        sorted_strict(self@) && bounded_records(self@)
    }

    /// Creates an empty buffer.
    pub fn new() -> (r: Self)
        ensures
            r@ == Seq::<(Seq<u8>, Seq<u8>)>::empty(),
            r.wf(),
    {
        let r = Memtable { entries: Vec::new() };
        proof {
            assert(r@ =~= Seq::<(Seq<u8>, Seq<u8>)>::empty());
        }
        r
    }

    /// The number of buffered records.
    pub fn len(&self) -> (r: usize)
        ensures
            r == self@.len(),
    {
        self.entries.len()
    }

    /// The record at position `i`, in key order.
    pub fn entry_at(&self, i: usize) -> (r: &(Vec<u8>, Vec<u8>))
        requires
            i < self@.len(),
        ensures
            (r.0@, r.1@) == self@[i as int],
    {
        &self.entries[i]
    }

    /// Looks a key up in the buffer.
    pub fn get(&self, key: &[u8]) -> (r: Option<&Vec<u8>>)
        ensures
            match r {
                Some(v) => lookup_records(self@, key@) == Some(v@),
                None => lookup_records(self@, key@) is None,
            },
    {
        let n = self.entries.len();
        let mut i: usize = 0;
        while i < n
            invariant
                0 <= i <= n,
                n == self@.len(),
                forall|j: int| 0 <= j < i ==> self@[j].0 != key@,
            decreases n - i,
        {
            if crate::utils::eq_u8(self.entries[i].0.as_slice(), key) {
                proof {
                    lemma_lookup_at(self@, key@, i as int);
                }
                return Some(&self.entries[i].1);
            }
            i += 1;
        }
        proof {
            lemma_lookup_at(self@, key@, n as int);
        }
        None
    }

    /// True when the buffer holds the key.
    pub fn contains(&self, key: &[u8]) -> (r: bool)
        ensures
            r == (lookup_records(self@, key@) is Some),
    {
        self.get(key).is_some()
    }

    /// Writes `key -> value`, replacing any buffered record with that key.
    pub fn insert(&mut self, key: Vec<u8>, value: Vec<u8>)
        requires
            old(self).wf(),
        ensures
            final(self).wf(),
            final(self)@ == spec_insert(old(self)@, key@, value@),
    {
        let ghost s0 = self@;
        let n = self.entries.len();
        let mut i: usize = 0;
        let mut matched = false;
        while i < n
            invariant_except_break
                !matched,
            invariant
                0 <= i <= n,
                n == self@.len(),
                self@ == s0,
                sorted_strict(s0),
                forall|j: int| 0 <= j < i ==> lex_lt(s0[j].0, key@),
            ensures
                0 <= i <= n,
                self@ == s0,
                forall|j: int| 0 <= j < i ==> lex_lt(s0[j].0, key@),
                matched ==> i < n && s0[i as int].0 == key@,
                !matched ==> i == n || lex_lt(key@, s0[i as int].0),
            decreases n - i,
        {
            let c = cmp_bytes(self.entries[i].0.as_slice(), key.as_slice());
            match c {
                Cmp::Less => {
                    i += 1;
                },
                Cmp::Equal => {
                    matched = true;
                    break ;
                },
                Cmp::Greater => {
                    proof {
                        lemma_lex_trichotomy(s0[i as int].0, key@);
                    }
                    break ;
                },
            }
        }
        proof {
            if i < s0.len() {
                lemma_lex_trichotomy(s0[i as int].0, key@);
            }
            lemma_spec_insert_at(s0, key@, value@, i as int);
        }
        let ghost klen = key@.len();
        let ghost vlen = value@.len();
        proof {
            broadcast use vstd::std_specs::vec::axiom_spec_len;

            assert(vstd::std_specs::vec::spec_vec_len(&key) == key@.len());
            assert(vstd::std_specs::vec::spec_vec_len(&value) == value@.len());
            assert(klen < 0x1_0000_0000_0000_0000);
            assert(vlen < 0x1_0000_0000_0000_0000);
        }
        if matched {
            self.entries.remove(i);
            proof {
                assert(self@ =~= s0.subrange(0, i as int) + s0.subrange(i + 1, s0.len() as int));
            }
        }
        let ghost s1 = self@;
        self.entries.insert(i, (key, value));
        proof {
            assert(self@ =~= s1.subrange(0, i as int) + seq![(key@, value@)] + s1.subrange(
                i as int,
                s1.len() as int,
            ));
            assert(self@ =~= spec_insert(s0, key@, value@));
            let out = self@;
            assert forall|p: int, q: int| 0 <= p < q < out.len() implies lex_lt(
                out[p].0,
                out[q].0,
            ) by {
                lemma_insert_sorted_frame(s0, key@, value@, i as int, matched, p, q);
            }
            assert(bounded_records(s1));
            assert forall|p: int| 0 <= p < out.len() implies (#[trigger] out[p]).0.len()
                < 0x1_0000_0000_0000_0000 && out[p].1.len() < 0x1_0000_0000_0000_0000 by {
                if p < i {
                    assert(out[p] == s1[p]);
                } else if p == i {
                    assert(out[p] == (key@, value@));
                } else {
                    assert(out[p] == s1[p - 1]);
                }
            }
        }
    }

    /// Drops every buffered record.
    pub fn clear(&mut self)
        ensures
            final(self)@ == Seq::<(Seq<u8>, Seq<u8>)>::empty(),
            final(self).wf(),
    {
        self.entries.clear();
        proof {
            assert(self@ =~= Seq::<(Seq<u8>, Seq<u8>)>::empty());
        }
    }
}

/// Sortedness of the buffer survives one insertion.
proof fn lemma_insert_sorted_frame(
    s: Seq<(Seq<u8>, Seq<u8>)>,
    key: Seq<u8>,
    value: Seq<u8>,
    i: int,
    matched: bool,
    p: int,
    q: int,
)
    requires
        sorted_strict(s),
        0 <= i <= s.len(),
        forall|j: int| 0 <= j < i ==> lex_lt(s[j].0, key),
        matched ==> i < s.len() && s[i].0 == key,
        !matched && i < s.len() ==> lex_lt(key, s[i].0),
        0 <= p < q < spec_insert(s, key, value).len(),
    ensures
        lex_lt(spec_insert(s, key, value)[p].0, spec_insert(s, key, value)[q].0),
{
    if i < s.len() {
        lemma_lex_trichotomy(s[i].0, key);
    }
    lemma_spec_insert_at(s, key, value, i);
    let out = spec_insert(s, key, value);
    let tail_base = if matched {
        i + 1
    } else {
        i
    };
    assert forall|j: int| i < j < out.len() implies out[j] == s[j - i - 1 + tail_base] by {}
    assert forall|j: int| i < j < out.len() implies lex_lt(key, out[j].0) by {
        let sj = j - i - 1 + tail_base;
        if matched {
            assert(lex_lt(s[i].0, s[sj].0));
        } else {
            if sj == i {
            } else {
                crate::utils::lemma_lex_trans(key, s[i].0, s[sj].0);
            }
        }
    }
    if p < i && q < i {
    } else if p == i || q == i {
    } else if p < i && q > i {
        crate::utils::lemma_lex_trans(s[p].0, key, out[q].0);
    }
}

} // verus!
