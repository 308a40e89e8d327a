use vstd::prelude::*;

use vstd::slice::slice_to_vec;

verus! {

/// Where a key's most recently flushed copy lies: the segment file's name and
/// the byte offset of the record inside it.
#[derive(Debug, Clone)]
pub struct Node {
    pub offset: u64,
    pub segment: String,
}

/// The mathematical content of a `Node`.
pub struct NodeView {
    pub segment: Seq<char>,
    pub offset: u64,
}

impl View for Node {
    type V = NodeView;

    open spec fn view(&self) -> NodeView {
        NodeView { segment: self.segment@, offset: self.offset }
    }
}

/// Looks a key up in an association sequence, returning the first binding.
pub open spec fn lookup_nodes(s: Seq<(Seq<u8>, NodeView)>, key: Seq<u8>) -> Option<NodeView>
    decreases s.len(),
{
    if s.len() == 0 {
        None
    } else if s[0].0 == key {
        Some(s[0].1)
    } else {
        lookup_nodes(s.drop_first(), key)
    }
}

/// When the first `i` bindings carry other keys, the lookup is decided at `i`.
proof fn lemma_lookup_nodes_at(s: Seq<(Seq<u8>, NodeView)>, key: Seq<u8>, i: int)
    requires
        0 <= i <= s.len(),
        forall|j: int| 0 <= j < i ==> s[j].0 != key,
    ensures
        i < s.len() && s[i].0 == key ==> lookup_nodes(s, key) == Some(s[i].1),
        i == s.len() ==> lookup_nodes(s, key) is None,
    decreases i,
{
    if i > 0 {
        lemma_lookup_nodes_at(s.drop_first(), key, i - 1);
    }
}

/// Replacing the binding at `i` changes exactly that key's lookup.
proof fn lemma_lookup_nodes_update(
    s: Seq<(Seq<u8>, NodeView)>,
    i: int,
    nv: NodeView,
    probe: Seq<u8>,
)
    requires
        0 <= i < s.len(),
        forall|p: int, q: int| 0 <= p < q < s.len() ==> s[p].0 != s[q].0,
    ensures
        ({
            let out = s.update(i, (s[i].0, nv));
            &&& probe == s[i].0 ==> lookup_nodes(out, probe) == Some(nv)
            &&& probe != s[i].0 ==> lookup_nodes(out, probe) == lookup_nodes(s, probe)
        }),
    decreases i,
{
    let out = s.update(i, (s[i].0, nv));
    if i == 0 {
        assert(out[0] == (s[0].0, nv));
        if probe != s[0].0 {
            assert(out.drop_first() =~= s.drop_first());
        }
    } else {
        lemma_lookup_nodes_update(s.drop_first(), i - 1, nv, probe);
        assert(out[0] == s[0]);
        assert(out.drop_first() =~= s.drop_first().update(i - 1, (s.drop_first()[i - 1].0, nv)));
        assert(s[0].0 != s[i].0);
    }
}

/// Appending a binding for a key that carries no binding yet changes exactly
/// that key's lookup.
proof fn lemma_lookup_nodes_push(s: Seq<(Seq<u8>, NodeView)>, key: Seq<u8>, nv: NodeView, probe: Seq<u8>)
    requires
        forall|j: int| 0 <= j < s.len() ==> s[j].0 != key,
    ensures
        ({
            let out = s + seq![(key, nv)];
            &&& probe == key ==> lookup_nodes(out, probe) == Some(nv)
            &&& probe != key ==> lookup_nodes(out, probe) == lookup_nodes(s, probe)
        }),
    decreases s.len(),
{
    let out = s + seq![(key, nv)];
    if s.len() == 0 {
        assert(out[0] == (key, nv));
        assert(out.drop_first() =~= Seq::<(Seq<u8>, NodeView)>::empty());
        if probe != key {
            assert(lookup_nodes(out, probe) == lookup_nodes(out.drop_first(), probe));
        }
    } else {
        lemma_lookup_nodes_push(s.drop_first(), key, nv, probe);
        assert(out[0] == s[0]);
        assert(out.drop_first() =~= s.drop_first() + seq![(key, nv)]);
        if s[0].0 != probe {
            assert(lookup_nodes(out, probe) == lookup_nodes(out.drop_first(), probe));
            assert(lookup_nodes(s, probe) == lookup_nodes(s.drop_first(), probe));
        } else {
            assert(lookup_nodes(out, probe) == Some(s[0].1));
            assert(lookup_nodes(s, probe) == Some(s[0].1));
        }
    }
}

/// The in-memory cache mapping each key to the on-disk position of its most
/// recently flushed copy.  Rebuilt from nothing after a restart; never a
/// source of truth.
pub struct Index {
    entries: Vec<(Vec<u8>, Node)>,
}

impl View for Index {
    type V = Seq<(Seq<u8>, NodeView)>;

    closed spec fn view(&self) -> Seq<(Seq<u8>, NodeView)> {
        self.entries@.map_values(|p: (Vec<u8>, Node)| (p.0@, p.1@))
    }
}

/// Each key carries at most one binding.
pub open spec fn idx_unique(s: Seq<(Seq<u8>, NodeView)>) -> bool {
    forall|p: int, q: int| 0 <= p < q < s.len() ==> s[p].0 != s[q].0
}

impl Index {
    /// Each key carries at most one binding.
    pub open spec fn wf(&self) -> bool {
        idx_unique(self@)
    }

    /// The binding a key carries, if any.
    pub open spec fn spec_get(&self, key: Seq<u8>) -> Option<NodeView> {
        lookup_nodes(self@, key)
    }

    /// Creates an empty cache.
    pub fn new() -> (r: Self)
        ensures
            r@ == Seq::<(Seq<u8>, NodeView)>::empty(),
            r.wf(),
    {
        let r = Index { entries: Vec::new() };
        proof {
            assert(r@ =~= Seq::<(Seq<u8>, NodeView)>::empty());
        }
        r
    }

    /// Looks a key's binding up.
    pub fn get(&self, k: &[u8]) -> (r: Option<&Node>)
        ensures
            match r {
                Some(n) => self.spec_get(k@) == Some(n@),
                None => self.spec_get(k@) is None,
            },
    {
        let n = self.entries.len();
        let mut i: usize = 0;
        while i < n
            invariant
                0 <= i <= n,
                n == self@.len(),
                forall|j: int| 0 <= j < i ==> self@[j].0 != k@,
            decreases n - i,
        {
            if crate::utils::eq_u8(self.entries[i].0.as_slice(), k) {
                proof {
                    lemma_lookup_nodes_at(self@, k@, i as int);
                }
                return Some(&self.entries[i].1);
            }
            i += 1;
        }
        proof {
            lemma_lookup_nodes_at(self@, k@, n as int);
        }
        None
    }

    /// Binds `k` to `(segment, offset)`, unconditionally replacing any prior
    /// binding, which is returned.
    pub fn insert(&mut self, k: &[u8], segment: &str, offset: u64) -> (prior: Option<Node>)
        requires
            old(self).wf(),
        ensures
            final(self).wf(),
            forall|probe: Seq<u8>|
                #![trigger lookup_nodes(final(self)@, probe)]
                final(self).spec_get(probe) == if probe == k@ {
                    Some(NodeView { segment: segment@, offset })
                } else {
                    old(self).spec_get(probe)
                },
            match prior {
                Some(n) => old(self).spec_get(k@) == Some(n@),
                None => old(self).spec_get(k@) is None,
            },
    {
        let ghost s0 = self@;
        let node = Node { offset, segment: segment.to_owned() };
        let n = self.entries.len();
        let mut i: usize = 0;
        while i < n
            invariant
                0 <= i <= n,
                n == self@.len(),
                self@ == s0,
                old(self)@ == s0,
                node@ == (NodeView { segment: segment@, offset }),
                forall|p: int, q: int| 0 <= p < q < s0.len() ==> s0[p].0 != s0[q].0,
                forall|j: int| 0 <= j < i ==> self@[j].0 != k@,
            decreases n - i,
        {
            if crate::utils::eq_u8(self.entries[i].0.as_slice(), k) {
                proof {
                    lemma_lookup_nodes_at(s0, k@, i as int);
                }
                let pair = self.entries.remove(i);
                self.entries.insert(i, (slice_to_vec(k), node));
                proof {
                    assert(self@ =~= s0.update(i as int, (s0[i as int].0, node@)));
                    assert forall|probe: Seq<u8>| #![auto]
                        self.spec_get(probe) == if probe == k@ {
                            Some(NodeView { segment: segment@, offset })
                        } else {
                            lookup_nodes(s0, probe)
                        } by {
                        lemma_lookup_nodes_update(s0, i as int, node@, probe);
                    }
                    assert forall|p: int, q: int| 0 <= p < q < self@.len() implies self@[p].0
                        != self@[q].0 by {
                        assert(s0[p].0 != s0[q].0);
                    }
                }
                return Some(pair.1);
            }
            i += 1;
        }
        proof {
            lemma_lookup_nodes_at(s0, k@, n as int);
        }
        self.entries.push((slice_to_vec(k), node));
        proof {
            assert(self@ =~= s0 + seq![(k@, node@)]);
            assert forall|probe: Seq<u8>| #![auto]
                self.spec_get(probe) == if probe == k@ {
                    Some(NodeView { segment: segment@, offset })
                } else {
                    lookup_nodes(s0, probe)
                } by {
                lemma_lookup_nodes_push(s0, k@, node@, probe);
            }
            assert forall|p: int, q: int| 0 <= p < q < self@.len() implies self@[p].0
                != self@[q].0 by {
                if q < s0.len() {
                    assert(s0[p].0 != s0[q].0);
                } else {
                    assert(self@[q].0 == k@);
                    assert(self@[p].0 == s0[p].0);
                }
            }
        }
        None
    }

    /// Drops every binding.
    pub fn clear(&mut self)
        ensures
            final(self)@ == Seq::<(Seq<u8>, NodeView)>::empty(),
            final(self).wf(),
    {
        self.entries.clear();
        proof {
            assert(self@ =~= Seq::<(Seq<u8>, NodeView)>::empty());
        }
    }
}

} // verus!
