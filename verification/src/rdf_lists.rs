//! Membership of RDF lists, by union-find over the `rdf:rest` links.
use vstd::prelude::*;
use std::collections::HashMap;
use disjoint_sets::UnionFind;
use crate::relation::{KeyedTriple, URI, sorted_strict, triple_lt, relation_of};

verus! {

/// A union-find over the indexes `0 .. n` (a `disjoint_sets::UnionFind`),
/// opaque to the proofs: what they know of it is `union_find_reps`.
#[verifier::external_body]
pub struct Partition {
    uf: UnionFind,
}

/// The representative of each element's set in a union-find.
pub uninterp spec fn union_find_reps(uf: Partition) -> Seq<usize>;

/// `UnionFind::new(n)`: `n` elements, each alone in its set (its own
/// representative).
#[verifier::external_body]
fn uf_new(n: usize) -> (uf: Partition)
    ensures
        union_find_reps(uf) == Seq::new(n as nat, |i: int| i as usize),
{
    Partition { uf: UnionFind::new(n) }
}

/// `UnionFind::find`: the representative of `e`'s set.
#[verifier::external_body]
fn uf_find(uf: &Partition, e: usize) -> (r: usize)
    requires
        e < union_find_reps(*uf).len(),
    ensures
        r == union_find_reps(*uf)[e as int],
{
    uf.uf.find(e)
}

/// `UnionFind::union`: merges the sets of `a` and `b`. Afterwards two
/// elements share a representative exactly when they shared one before, or
/// one was with `a` and the other with `b`; every representative is an
/// element.
#[verifier::external_body]
fn uf_union(uf: &mut Partition, a: usize, b: usize)
    requires
        a < union_find_reps(*old(uf)).len(),
        b < union_find_reps(*old(uf)).len(),
        forall|i: int|
            0 <= i < union_find_reps(*old(uf)).len() ==> #[trigger] union_find_reps(*old(uf))[i]
                < union_find_reps(*old(uf)).len(),
    ensures
        union_find_reps(*final(uf)).len() == union_find_reps(*old(uf)).len(),
        forall|i: int|
            0 <= i < union_find_reps(*final(uf)).len() ==> #[trigger] union_find_reps(*final(uf))[i]
                < union_find_reps(*final(uf)).len(),
        forall|x: int, y: int|
            0 <= x < union_find_reps(*final(uf)).len() && 0 <= y < union_find_reps(*final(uf)).len() ==> ((
            #[trigger] union_find_reps(*final(uf))[x] == #[trigger] union_find_reps(*final(uf))[y]) <==> (
            union_find_reps(*old(uf))[x] == union_find_reps(*old(uf))[y] || (union_find_reps(*old(uf))[x]
                == union_find_reps(*old(uf))[a as int] && union_find_reps(*old(uf))[y] == union_find_reps(
                *old(uf),
            )[b as int]) || (union_find_reps(*old(uf))[x] == union_find_reps(*old(uf))[b as int]
                && union_find_reps(*old(uf))[y] == union_find_reps(*old(uf))[a as int]))),
{
    uf.uf.union(a, b);
}

} // verus!

verus! {

broadcast use vstd::std_specs::hash::group_hash_axioms;

/// Whether the links in `edges` connect `x` and `y`: each link, in turn,
/// merges the classes of its two ends.
pub open spec fn connected(edges: Seq<(URI, URI)>, x: URI, y: URI) -> bool
    decreases edges.len(),
{
    if edges.len() == 0 {
        x == y
    } else {
        let e = edges.last();
        let p = edges.drop_last();
        connected(p, x, y) || (connected(p, x, e.0) && connected(p, e.1, y)) || (connected(p, x, e.1)
            && connected(p, e.0, y))
    }
}

/// The identifiers that occur in a triple.
pub open spec fn occurs(t: KeyedTriple, u: URI) -> bool {
    t.0 == u || t.1.0 == u || t.1.1 == u
}

/// The lists of a graph: for each node that starts an `rdf:first` triple, the
/// object of its greatest such triple, and the `rdf:rest` links between nodes.
pub struct DisjointSets {
    lists: HashMap<URI, Vec<URI>>,
    uri2idx: HashMap<URI, usize>,
    idx2uri: Vec<URI>,
    ds: Partition,
    node_set: Ghost<Set<URI>>,
    first_map: Ghost<Map<URI, URI>>,
    link_seq: Ghost<Seq<(URI, URI)>>,
    owner_map: Ghost<Map<URI, Seq<URI>>>,
}

impl DisjointSets {
    /// Every identifier that occurs in the triples.
    pub closed spec fn nodes(&self) -> Set<URI> {
        self.node_set@
    }

    /// The `rdf:first` value of each list node.
    pub closed spec fn first_of(&self) -> Map<URI, URI> {
        self.first_map@
    }

    /// The `rdf:rest` links, `rdf:nil` excluded.
    pub closed spec fn links(&self) -> Seq<(URI, URI)> {
        self.link_seq@
    }

    /// The members of the list that starts at `l`: the values of the nodes
    /// that the links connect to `l`.
    pub open spec fn members(&self, l: URI) -> Set<URI> {
        Set::new(
            |w: URI|
                exists|k: URI|
                    #![trigger self.first_of()[k], connected(self.links(), l, k)]
                    self.first_of().contains_key(k) && self.first_of()[k] == w && connected(
                        self.links(),
                        l,
                        k,
                    ),
        )
    }

    /// `ks` holds, once each, the nodes with an `rdf:first` value that the
    /// links connect to `l`.
    pub open spec fn list_nodes(&self, l: URI, ks: Seq<URI>) -> bool {
        &&& ks.no_duplicates()
        &&& forall|k: URI| #[trigger] ks.contains(k) <==> (self.first_of().contains_key(k) && connected(self.links(), l, k))
    }

    spec fn rep(&self, u: URI) -> usize {
        union_find_reps(self.ds)[self.uri2idx@[u] as int]
    }

    spec fn listname(&self, u: URI) -> URI {
        self.idx2uri@[self.rep(u) as int]
    }

    pub closed spec fn wf(&self) -> bool {
        let n = self.idx2uri@.len();
        let reps = union_find_reps(self.ds);
        &&& reps.len() == n
        &&& forall|i: int| 0 <= i < n ==> #[trigger] reps[i] < n
        &&& forall|i: int|
            0 <= i < n ==> self.uri2idx@.contains_key(#[trigger] self.idx2uri@[i])
                && self.uri2idx@[self.idx2uri@[i]] == i
        &&& forall|u: URI|
            #[trigger] self.uri2idx@.contains_key(u) ==> self.uri2idx@[u] < n
                && self.idx2uri@[self.uri2idx@[u] as int] == u
        &&& self.nodes() == self.uri2idx@.dom()
        &&& forall|k: URI| #[trigger] self.first_of().contains_key(k) ==> self.nodes().contains(k)
        &&& forall|j: int|
            0 <= j < self.links().len() ==> self.nodes().contains((#[trigger] self.links()[j]).0)
                && self.nodes().contains(self.links()[j].1)
        &&& forall|u: URI, w: URI|
            self.nodes().contains(u) && self.nodes().contains(w) ==> (#[trigger] self.rep(u)
                == #[trigger] self.rep(w) <==> connected(self.links(), u, w))
        &&& forall|l: URI|
            #[trigger] self.lists@.contains_key(l) ==> self.lists@[l]@.len() > 0 && forall|w: URI|
                #[trigger] self.lists@[l]@.contains(w) <==> exists|k: URI|
                    #![trigger self.first_of()[k]]
                    self.first_of().contains_key(k) && self.first_of()[k] == w && self.listname(k)
                        == l
        &&& forall|k: URI|
            #[trigger] self.first_of().contains_key(k) ==> self.lists@.contains_key(self.listname(k))
        &&& forall|l: URI|
            #[trigger] self.lists@.contains_key(l) ==> owned_by(
                self.owner_map@,
                l,
                self.lists@[l]@,
                self.first_of(),
                |k: URI| self.listname(k) == l,
            )
    }
}

} // verus!

verus! {

/// A copy of `v`.
pub fn copy_uris(v: &Vec<URI>) -> (r: Vec<URI>)
    ensures
        r@ == v@,
{
    let mut r: Vec<URI> = Vec::with_capacity(v.len());
    let mut i: usize = 0;
    while i < v.len()
        invariant
            0 <= i <= v@.len(),
            r@ == v@.take(i as int),
        decreases v@.len() - i,
    {
        r.push(v[i]);
        proof {
            assert(r@ =~= v@.take(i + 1));
        }
        i += 1;
    }
    proof {
        assert(v@.take(v@.len() as int) =~= v@);
    }
    r
}

/// An identifier that no link touches is connected to itself only.
proof fn lemma_connected_untouched(edges: Seq<(URI, URI)>, x: URI, y: URI)
    requires
        connected(edges, x, y),
        forall|j: int| 0 <= j < edges.len() ==> (#[trigger] edges[j]).0 != x && edges[j].1 != x,
    ensures
        x == y,
    decreases edges.len(),
{
    if edges.len() > 0 {
        let p = edges.drop_last();
        assert forall|j: int| 0 <= j < p.len() implies (#[trigger] p[j]).0 != x && p[j].1 != x by {
            assert(p[j] == edges[j]);
        }
        let e = edges.last();
        assert(e == edges[edges.len() - 1]);
        if connected(p, x, y) {
            lemma_connected_untouched(p, x, y);
        } else if connected(p, x, e.0) && connected(p, e.1, y) {
            lemma_connected_untouched(p, x, e.0);
        } else {
            lemma_connected_untouched(p, x, e.1);
        }
    }
}

impl DisjointSets {
    /// The values of the list that starts at `head`: `None` when it has none.
    pub fn get_list_values(&self, head: URI) -> (r: Option<Vec<URI>>)
        requires
            self.wf(),
        ensures
            match r {
                Some(v) => v@.len() > 0 && (forall|w: URI| #[trigger] v@.contains(w) <==> self.members(head).contains(w))
                    && exists|ks: Seq<URI>| #[trigger] self.list_nodes(head, ks) && v@ == ks.map_values(|k: URI| self.first_of()[k]),
                None => forall|w: URI| !(#[trigger] self.members(head).contains(w)),
            },
    {
        match self.uri2idx.get(&head) {
            Some(idx) => {
                let rep = uf_find(&self.ds, *idx);
                let name = self.idx2uri[rep];
                proof {
                    assert(self.uri2idx@.contains_key(head));
                    assert(self.rep(head) == rep);
                    assert(self.listname(head) == name);
                    assert forall|k: URI| #[trigger] self.first_of().contains_key(k) implies (self.listname(k) == name
                        <==> connected(self.links(), head, k)) by {
                        assert(self.nodes().contains(k));
                        assert(self.nodes().contains(head));
                        let rk = self.rep(k);
                        if self.listname(k) == name {
                            assert(self.uri2idx@[self.idx2uri@[rk as int]] == rk);
                            assert(self.uri2idx@[self.idx2uri@[rep as int]] == rep);
                            assert(self.rep(head) == self.rep(k));
                        }
                        if connected(self.links(), head, k) {
                            assert(self.rep(head) == self.rep(k));
                        }
                    }
                }
                match self.lists.get(&name) {
                    Some(v) => {
                        proof {
                            assert(self.lists@.contains_key(name));
                            assert forall|w: URI| #[trigger] v@.contains(w) <==> self.members(head).contains(w) by {
                                if v@.contains(w) {
                                    let k = choose|k: URI| #![trigger self.first_of()[k]]
                                        self.first_of().contains_key(k) && self.first_of()[k] == w && self.listname(k) == name;
                                    assert(connected(self.links(), head, k));
                                }
                                if self.members(head).contains(w) {
                                    let k = choose|k: URI| #![trigger self.first_of()[k], connected(self.links(), head, k)]
                                        self.first_of().contains_key(k) && self.first_of()[k] == w && connected(self.links(), head, k);
                                    assert(self.listname(k) == name);
                                }
                            }
                        }
                        let r = copy_uris(v);
                        proof {
                            let ks = self.owner_map@[name];
                            assert forall|k: URI| #[trigger] ks.contains(k) <==> (self.first_of().contains_key(k) && connected(self.links(), head, k)) by {
                                if self.first_of().contains_key(k) {
                                    assert(self.nodes().contains(k));
                                    assert(self.nodes().contains(head));
                                    let rk = self.rep(k);
                                    if self.listname(k) == name {
                                        assert(self.uri2idx@[self.idx2uri@[rk as int]] == rk);
                                        assert(self.uri2idx@[self.idx2uri@[rep as int]] == rep);
                                        assert(self.rep(head) == self.rep(k));
                                    }
                                    if connected(self.links(), head, k) {
                                        assert(self.rep(head) == self.rep(k));
                                    }
                                }
                            }
                            assert(self.list_nodes(head, ks));
                        }
                        Some(r)
                    },
                    None => {
                        proof {
                            assert forall|w: URI| !(#[trigger] self.members(head).contains(w)) by {
                                if self.members(head).contains(w) {
                                    let k = choose|k: URI| #![trigger self.first_of()[k], connected(self.links(), head, k)]
                                        self.first_of().contains_key(k) && self.first_of()[k] == w && connected(self.links(), head, k);
                                    assert(self.listname(k) == name);
                                    assert(self.lists@.contains_key(self.listname(k)));
                                }
                            }
                        }
                        None
                    },
                }
            },
            None => {
                proof {
                    assert(!self.nodes().contains(head));
                    assert forall|w: URI| !(#[trigger] self.members(head).contains(w)) by {
                        if self.members(head).contains(w) {
                            let k = choose|k: URI| #![trigger self.first_of()[k], connected(self.links(), head, k)]
                                self.first_of().contains_key(k) && self.first_of()[k] == w && connected(self.links(), head, k);
                            assert forall|j: int| 0 <= j < self.links().len() implies (#[trigger] self.links()[j]).0 != head
                                && self.links()[j].1 != head by {
                                assert(self.nodes().contains(self.links()[j].0));
                            }
                            lemma_connected_untouched(self.links(), head, k);
                            assert(self.nodes().contains(k));
                        }
                    }
                }
                None
            },
        }
    }
}

} // verus!

verus! {

/// `uri2idx` and `idx2uri` are inverse bijections between the identifiers in
/// `uri2idx` and the indexes `0 .. idx2uri.len()`.
pub open spec fn bijection(uri2idx: Map<URI, usize>, idx2uri: Seq<URI>) -> bool {
    &&& forall|i: int|
        0 <= i < idx2uri.len() ==> uri2idx.contains_key(#[trigger] idx2uri[i]) && uri2idx[idx2uri[i]]
            == i
    &&& forall|u: URI|
        #[trigger] uri2idx.contains_key(u) ==> uri2idx[u] < idx2uri.len() && idx2uri[uri2idx[u] as int]
            == u
}

fn add_node(uri2idx: &mut HashMap<URI, usize>, idx2uri: &mut Vec<URI>, u: URI)
    requires
        bijection(old(uri2idx)@, old(idx2uri)@),
        old(idx2uri)@.len() < usize::MAX,
    ensures
        bijection(final(uri2idx)@, final(idx2uri)@),
        final(uri2idx)@.dom() == old(uri2idx)@.dom().insert(u),
        final(idx2uri)@.len() <= old(idx2uri)@.len() + 1,
{
    if !uri2idx.contains_key(&u) {
        let ghost old_map = uri2idx@;
        let ghost old_vec = idx2uri@;
        let n = idx2uri.len();
        uri2idx.insert(u, n);
        idx2uri.push(u);
        proof {
            assert forall|i: int| 0 <= i < idx2uri@.len() implies uri2idx@.contains_key(#[trigger] idx2uri@[i])
                && uri2idx@[idx2uri@[i]] == i by {
                if i < n {
                    assert(idx2uri@[i] == old_vec[i]);
                    assert(old_vec[i] != u);
                }
            }
            assert forall|w: URI| #[trigger] uri2idx@.contains_key(w) implies uri2idx@[w] < idx2uri@.len()
                && idx2uri@[uri2idx@[w] as int] == w by {
                if w != u {
                    assert(old_map.contains_key(w));
                }
            }
            assert(uri2idx@.dom() =~= old_map.dom().insert(u));
        }
    } else {
        proof {
            assert(uri2idx@.dom() =~= uri2idx@.dom().insert(u));
        }
    }
}

/// Indexes every identifier that occurs in the triples.
fn index_nodes(sorted: &Vec<KeyedTriple>) -> (r: (HashMap<URI, usize>, Vec<URI>))
    requires
        sorted@.len() < usize::MAX / 4,
    ensures
        bijection(r.0@, r.1@),
        forall|u: URI|
            #[trigger] r.0@.contains_key(u) <==> exists|j: int| 0 <= j < sorted@.len() && occurs(#[trigger] sorted@[j], u),
        r.1@.len() <= 3 * sorted@.len(),
{
    let mut uri2idx: HashMap<URI, usize> = HashMap::new();
    let mut idx2uri: Vec<URI> = Vec::new();
    let mut i: usize = 0;
    while i < sorted.len()
        invariant
            0 <= i <= sorted@.len(),
            sorted@.len() < usize::MAX / 4,
            bijection(uri2idx@, idx2uri@),
            idx2uri@.len() <= 3 * i,
            forall|u: URI|
                #[trigger] uri2idx@.contains_key(u) <==> exists|j: int| 0 <= j < i && occurs(#[trigger] sorted@[j], u),
        decreases sorted@.len() - i,
    {
        let (s, (p, o)) = sorted[i];
        add_node(&mut uri2idx, &mut idx2uri, s);
        add_node(&mut uri2idx, &mut idx2uri, p);
        add_node(&mut uri2idx, &mut idx2uri, o);
        proof {
            assert forall|u: URI|
                #[trigger] uri2idx@.contains_key(u) <==> exists|j: int| 0 <= j < i + 1 && occurs(#[trigger] sorted@[j], u) by {
                if uri2idx@.contains_key(u) && !(u == s || u == p || u == o) {
                    let j = choose|j: int| 0 <= j < i && occurs(#[trigger] sorted@[j], u);
                }
                if exists|j: int| 0 <= j < i + 1 && occurs(#[trigger] sorted@[j], u) {
                    let j = choose|j: int| 0 <= j < i + 1 && occurs(#[trigger] sorted@[j], u);
                    if j < i {
                    } else {
                        assert(sorted@[j] == (s, (p, o)));
                    }
                }
            }
        }
        i += 1;
    }
    (uri2idx, idx2uri)
}

} // verus!

verus! {

/// Joins, for each link `(h rdf:rest t)` with `t` not `rdf:nil`, the sets of
/// `h` and `t`.
fn union_links(
    sorted: &Vec<KeyedTriple>,
    uri2idx: &HashMap<URI, usize>,
    idx2uri: &Vec<URI>,
    rest: URI,
    nil: URI,
) -> (r: (Partition, Ghost<Seq<(URI, URI)>>))
    requires
        bijection(uri2idx@, idx2uri@),
        forall|j: int, u: URI| 0 <= j < sorted@.len() && #[trigger] occurs(sorted@[j], u) ==> uri2idx@.contains_key(u),
    ensures
        ({
            let reps = union_find_reps(r.0);
            let edges = r.1@;
            &&& reps.len() == idx2uri@.len()
            &&& forall|i: int| 0 <= i < reps.len() ==> #[trigger] reps[i] < reps.len()
            &&& forall|j: int|
                0 <= j < edges.len() ==> uri2idx@.contains_key((#[trigger] edges[j]).0)
                    && uri2idx@.contains_key(edges[j].1)
            &&& forall|a: URI, b: URI|
                #[trigger] edges.contains((a, b)) <==> (sorted@.contains((a, (rest, b))) && b != nil)
            &&& forall|u: URI, w: URI|
                uri2idx@.contains_key(u) && uri2idx@.contains_key(w) ==> (reps[#[trigger] uri2idx@[u] as int]
                    == reps[#[trigger] uri2idx@[w] as int] <==> connected(edges, u, w))
        }),
{
    let mut uf = uf_new(idx2uri.len());
    let ghost mut edges: Seq<(URI, URI)> = Seq::empty();
    let mut i: usize = 0;
    while i < sorted.len()
        invariant
            0 <= i <= sorted@.len(),
            bijection(uri2idx@, idx2uri@),
            forall|j: int, u: URI| 0 <= j < sorted@.len() && #[trigger] occurs(sorted@[j], u) ==> uri2idx@.contains_key(u),
            union_find_reps(uf).len() == idx2uri@.len(),
            forall|k: int| 0 <= k < union_find_reps(uf).len() ==> #[trigger] union_find_reps(uf)[k] < union_find_reps(uf).len(),
            forall|j: int|
                0 <= j < edges.len() ==> uri2idx@.contains_key((#[trigger] edges[j]).0)
                    && uri2idx@.contains_key(edges[j].1),
            forall|a: URI, b: URI|
                #[trigger] edges.contains((a, b)) <==> (exists|j: int| 0 <= j < i && #[trigger] sorted@[j] == (a, (rest, b))) && b != nil,
            forall|u: URI, w: URI|
                uri2idx@.contains_key(u) && uri2idx@.contains_key(w) ==> (union_find_reps(uf)[#[trigger] uri2idx@[u] as int]
                    == union_find_reps(uf)[#[trigger] uri2idx@[w] as int] <==> connected(edges, u, w)),
        decreases sorted@.len() - i,
    {
        let (s, (p, o)) = sorted[i];
        proof {
            assert(occurs(sorted@[i as int], s) && occurs(sorted@[i as int], o));
        }
        if p == rest && o != nil {
            let a = *uri2idx.get(&s).unwrap();
            let b = *uri2idx.get(&o).unwrap();
            let ghost old_reps = union_find_reps(uf);
            let ghost old_edges = edges;
            uf_union(&mut uf, a, b);
            proof {
                edges = edges.push((s, o));
                assert(edges.drop_last() =~= old_edges);
                assert(edges.last() == (s, o));
                let reps = union_find_reps(uf);
                assert forall|u: URI, w: URI|
                    uri2idx@.contains_key(u) && uri2idx@.contains_key(w) implies (reps[#[trigger] uri2idx@[u] as int]
                        == reps[#[trigger] uri2idx@[w] as int] <==> connected(edges, u, w)) by {
                    let x = uri2idx@[u] as int;
                    let y = uri2idx@[w] as int;
                    assert(old_reps[x] == old_reps[y] <==> connected(old_edges, u, w));
                    assert(old_reps[x] == old_reps[a as int] <==> connected(old_edges, u, s));
                    assert(old_reps[y] == old_reps[b as int] <==> connected(old_edges, o, w));
                    assert(old_reps[x] == old_reps[b as int] <==> connected(old_edges, u, o));
                    assert(old_reps[y] == old_reps[a as int] <==> connected(old_edges, s, w));
                }
                assert forall|j: int| 0 <= j < edges.len() implies uri2idx@.contains_key((#[trigger] edges[j]).0)
                    && uri2idx@.contains_key(edges[j].1) by {
                    if j < old_edges.len() {
                        assert(edges[j] == old_edges[j]);
                    }
                }
                assert forall|c: URI, d: URI|
                    #[trigger] edges.contains((c, d)) <==> (exists|j: int| 0 <= j < i + 1 && #[trigger] sorted@[j] == (c, (rest, d))) && d != nil by {
                    if edges.contains((c, d)) && (c, d) != (s, o) {
                        let m = choose|m: int| 0 <= m < edges.len() && edges[m] == (c, d);
                        assert(old_edges[m] == (c, d));
                        assert(old_edges.contains((c, d)));
                    }
                    if (exists|j: int| 0 <= j < i + 1 && #[trigger] sorted@[j] == (c, (rest, d))) && d != nil {
                        let j = choose|j: int| 0 <= j < i + 1 && #[trigger] sorted@[j] == (c, (rest, d));
                        if j < i {
                            assert(old_edges.contains((c, d)));
                            let m = choose|m: int| 0 <= m < old_edges.len() && old_edges[m] == (c, d);
                            assert(edges[m] == (c, d));
                        } else {
                            assert(edges[edges.len() - 1] == (s, o));
                        }
                    }
                }
            }
        } else {
            proof {
                assert forall|c: URI, d: URI|
                    #[trigger] edges.contains((c, d)) <==> (exists|j: int| 0 <= j < i + 1 && #[trigger] sorted@[j] == (c, (rest, d))) && d != nil by {
                    if (exists|j: int| 0 <= j < i + 1 && #[trigger] sorted@[j] == (c, (rest, d))) && d != nil {
                        let j = choose|j: int| 0 <= j < i + 1 && #[trigger] sorted@[j] == (c, (rest, d));
                        if j == i {
                            assert(sorted@[j] == (s, (p, o)));
                        }
                    }
                }
            }
        }
        i += 1;
    }
    proof {
        assert forall|a: URI, b: URI| #[trigger] edges.contains((a, b)) <==> (sorted@.contains((a, (rest, b))) && b != nil) by {
            if sorted@.contains((a, (rest, b))) && b != nil {
                let j = choose|j: int| 0 <= j < sorted@.len() && sorted@[j] == (a, (rest, b));
            }
        }
    }
    (uf, Ghost(edges))
}

} // verus!

verus! {

/// A copy of `v`.
pub fn copy_triples(v: &Vec<KeyedTriple>) -> (r: Vec<KeyedTriple>)
    ensures
        r@ == v@,
{
    let mut r: Vec<KeyedTriple> = Vec::with_capacity(v.len());
    let mut i: usize = 0;
    while i < v.len()
        invariant
            0 <= i <= v@.len(),
            r@ == v@.take(i as int),
        decreases v@.len() - i,
    {
        r.push(v[i]);
        proof {
            assert(r@ =~= v@.take(i + 1));
        }
        i += 1;
    }
    proof {
        assert(v@.take(v@.len() as int) =~= v@);
    }
    r
}

/// `w` is the greatest `rdf:first` value of `k` in `s`.
pub open spec fn greatest_first(s: Seq<KeyedTriple>, first: URI, k: URI, w: URI) -> bool {
    &&& s.contains((k, (first, w)))
    &&& forall|w2: URI| #[trigger] s.contains((k, (first, w2))) ==> w2 <= w
}

/// For each node with an `rdf:first` triple, its greatest value: the last
/// one written when the triples are visited in ascending order.
fn first_values(sorted: &Vec<KeyedTriple>, first: URI) -> (r: HashMap<URI, URI>)
    requires
        sorted_strict(sorted@),
    ensures
        forall|k: URI| #[trigger] r@.contains_key(k) <==> exists|w: URI| sorted@.contains((k, (first, w))),
        forall|k: URI| #[trigger] r@.contains_key(k) ==> greatest_first(sorted@, first, k, r@[k]),
{
    let mut values: HashMap<URI, URI> = HashMap::new();
    let mut i: usize = 0;
    while i < sorted.len()
        invariant
            sorted_strict(sorted@),
            0 <= i <= sorted@.len(),
            forall|k: URI|
                #[trigger] values@.contains_key(k) <==> exists|j: int|
                    0 <= j < i && (#[trigger] sorted@[j]).0 == k && sorted@[j].1.0 == first,
            forall|k: URI|
                #[trigger] values@.contains_key(k) ==> (exists|j: int|
                    0 <= j < i && #[trigger] sorted@[j] == (k, (first, values@[k]))),
            forall|k: URI, j: int|
                values@.contains_key(k) && 0 <= j < i && (#[trigger] sorted@[j]).0 == k && sorted@[j].1.0
                    == first ==> sorted@[j].1.1 <= #[trigger] values@[k],
        decreases sorted@.len() - i,
    {
        let (s, (p, o)) = sorted[i];
        if p == first {
            let ghost old_values = values@;
            values.insert(s, o);
            proof {
                assert(sorted@[i as int] == (s, (p, o)));
                assert forall|k: URI, j: int|
                    values@.contains_key(k) && 0 <= j < i + 1 && (#[trigger] sorted@[j]).0 == k
                        && sorted@[j].1.0 == first implies sorted@[j].1.1 <= #[trigger] values@[k] by {
                    if k == s && j < i {
                        assert(triple_lt(sorted@[j], sorted@[i as int]));
                    }
                }
                assert forall|k: URI| #[trigger] values@.contains_key(k) implies (exists|j: int|
                    0 <= j < i + 1 && #[trigger] sorted@[j] == (k, (first, values@[k]))) by {
                    if k != s {
                        let j = choose|j: int| 0 <= j < i && #[trigger] sorted@[j] == (k, (first, old_values[k]));
                        assert(sorted@[j] == (k, (first, values@[k])));
                    } else {
                        assert(sorted@[i as int] == (k, (first, values@[k])));
                    }
                }
                assert forall|k: URI|
                    (exists|j: int| 0 <= j < i + 1 && (#[trigger] sorted@[j]).0 == k && sorted@[j].1.0 == first)
                        implies #[trigger] values@.contains_key(k) by {
                    if k != s {
                        let j = choose|j: int| 0 <= j < i + 1 && (#[trigger] sorted@[j]).0 == k && sorted@[j].1.0 == first;
                        assert(j < i);
                    }
                }
            }
        } else {
            proof {
                assert(sorted@[i as int] == (s, (p, o)));
                assert forall|k: URI|
                    (exists|j: int| 0 <= j < i + 1 && (#[trigger] sorted@[j]).0 == k && sorted@[j].1.0 == first)
                        implies #[trigger] values@.contains_key(k) by {
                    let j = choose|j: int| 0 <= j < i + 1 && (#[trigger] sorted@[j]).0 == k && sorted@[j].1.0 == first;
                    assert(j < i);
                }
                assert forall|k: URI| #[trigger] values@.contains_key(k) implies (exists|j: int|
                    0 <= j < i + 1 && #[trigger] sorted@[j] == (k, (first, values@[k]))) by {
                    let j = choose|j: int| 0 <= j < i && #[trigger] sorted@[j] == (k, (first, values@[k]));
                }
            }
        }
        i += 1;
    }
    proof {
        assert forall|k: URI| #[trigger] values@.contains_key(k) <==> exists|w: URI| sorted@.contains((k, (first, w))) by {
            if values@.contains_key(k) {
                let j = choose|j: int| 0 <= j < sorted@.len() && #[trigger] sorted@[j] == (k, (first, values@[k]));
                assert(sorted@.contains((k, (first, values@[k]))));
            }
            if exists|w: URI| sorted@.contains((k, (first, w))) {
                let w = choose|w: URI| sorted@.contains((k, (first, w)));
                let j = choose|j: int| 0 <= j < sorted@.len() && sorted@[j] == (k, (first, w));
                assert(sorted@[j].0 == k && sorted@[j].1.0 == first);
            }
        }
        assert forall|k: URI| #[trigger] values@.contains_key(k) implies greatest_first(sorted@, first, k, values@[k]) by {
            let j = choose|j: int| 0 <= j < sorted@.len() && #[trigger] sorted@[j] == (k, (first, values@[k]));
            assert(sorted@.contains((k, (first, values@[k]))));
            assert forall|w2: URI| #[trigger] sorted@.contains((k, (first, w2))) implies w2 <= values@[k] by {
                let j2 = choose|j2: int| 0 <= j2 < sorted@.len() && sorted@[j2] == (k, (first, w2));
                assert(sorted@[j2].0 == k && sorted@[j2].1.0 == first);
            }
        }
    }
    values
}

} // verus!

verus! {

/// The name of the list that `k` belongs to: the identifier at the
/// representative of its set.
pub open spec fn name_in(uri2idx: Map<URI, usize>, idx2uri: Seq<URI>, reps: Seq<usize>, k: URI) -> URI {
    idx2uri[reps[uri2idx[k] as int] as int]
}

/// The node `k` with value `values[k]` has been visited among the first `i`
/// triples.
pub open spec fn visited(sorted: Seq<KeyedTriple>, first: URI, values: Map<URI, URI>, k: URI, i: int) -> bool {
    exists|j: int| 0 <= j < i && #[trigger] sorted[j] == (k, (first, values[k]))
}

/// `vals` holds, one entry per node, the values of the nodes that `owns`
/// admits: `owners` gives the nodes of list `l`, without repetition, in the
/// order of `vals`.
pub open spec fn owned_by(
    owners: Map<URI, Seq<URI>>,
    l: URI,
    vals: Seq<URI>,
    values: Map<URI, URI>,
    owns: spec_fn(URI) -> bool,
) -> bool {
    &&& owners.contains_key(l)
    &&& owners[l].no_duplicates()
    &&& vals == owners[l].map_values(|k: URI| values[k])
    &&& forall|k: URI| #[trigger] owners[l].contains(k) <==> (values.contains_key(k) && owns(k))
}

/// Groups the value of each node under the name of its list.
fn group_values(
    sorted: &Vec<KeyedTriple>,
    first: URI,
    values: &HashMap<URI, URI>,
    uri2idx: &HashMap<URI, usize>,
    idx2uri: &Vec<URI>,
    ds: &Partition,
) -> (r: (HashMap<URI, Vec<URI>>, Ghost<Map<URI, Seq<URI>>>))
    requires
        sorted_strict(sorted@),
        forall|k: URI| #[trigger] values@.contains_key(k) <==> exists|w: URI| sorted@.contains((k, (first, w))),
        forall|k: URI| #[trigger] values@.contains_key(k) ==> sorted@.contains((k, (first, values@[k]))),
        bijection(uri2idx@, idx2uri@),
        forall|j: int, u: URI| 0 <= j < sorted@.len() && #[trigger] occurs(sorted@[j], u) ==> uri2idx@.contains_key(u),
        union_find_reps(*ds).len() == idx2uri@.len(),
        forall|i: int| 0 <= i < union_find_reps(*ds).len() ==> #[trigger] union_find_reps(*ds)[i] < union_find_reps(*ds).len(),
    ensures
        forall|l: URI|
            #[trigger] r.0@.contains_key(l) ==> r.0@[l]@.len() > 0 && forall|w: URI|
                #[trigger] r.0@[l]@.contains(w) <==> exists|k: URI|
                    #![trigger values@[k]]
                    values@.contains_key(k) && values@[k] == w && name_in(uri2idx@, idx2uri@, union_find_reps(*ds), k) == l,
        forall|k: URI|
            #[trigger] values@.contains_key(k) ==> r.0@.contains_key(name_in(uri2idx@, idx2uri@, union_find_reps(*ds), k)),
        forall|l: URI|
            #[trigger] r.0@.contains_key(l) ==> owned_by(r.1@, l, r.0@[l]@, values@, |k: URI| name_in(uri2idx@, idx2uri@, union_find_reps(*ds), k) == l),
{
    let ghost reps = union_find_reps(*ds);
    let mut lists: HashMap<URI, Vec<URI>> = HashMap::new();
    let ghost mut owners: Map<URI, Seq<URI>> = Map::empty();
    let mut i: usize = 0;
    while i < sorted.len()
        invariant
            0 <= i <= sorted@.len(),
            reps == union_find_reps(*ds),
            forall|k: URI| #[trigger] values@.contains_key(k) <==> exists|w: URI| sorted@.contains((k, (first, w))),
            bijection(uri2idx@, idx2uri@),
            forall|j: int, u: URI| 0 <= j < sorted@.len() && #[trigger] occurs(sorted@[j], u) ==> uri2idx@.contains_key(u),
            reps.len() == idx2uri@.len(),
            forall|m: int| 0 <= m < reps.len() ==> #[trigger] reps[m] < reps.len(),
            forall|l: URI|
                #[trigger] lists@.contains_key(l) ==> lists@[l]@.len() > 0 && forall|w: URI|
                    #[trigger] lists@[l]@.contains(w) <==> exists|k: URI|
                        #![trigger values@[k]]
                        values@.contains_key(k) && values@[k] == w && name_in(uri2idx@, idx2uri@, reps, k) == l
                            && visited(sorted@, first, values@, k, i as int),
            forall|k: URI|
                #[trigger] values@.contains_key(k) && visited(sorted@, first, values@, k, i as int)
                    ==> lists@.contains_key(name_in(uri2idx@, idx2uri@, reps, k)),
            sorted_strict(sorted@),
            forall|l: URI|
                #[trigger] lists@.contains_key(l) ==> owned_by(
                    owners,
                    l,
                    lists@[l]@,
                    values@,
                    |k: URI| name_in(uri2idx@, idx2uri@, reps, k) == l && visited(sorted@, first, values@, k, i as int),
                ),
        decreases sorted@.len() - i,
    {
        let (s, (p, o)) = sorted[i];
        proof {
            assert(sorted@[i as int] == (s, (p, o)));
            assert(occurs(sorted@[i as int], s));
        }
        let mut add = false;
        if p == first {
            proof {
                assert(sorted@.contains((s, (first, o))));
                assert(values@.contains_key(s));
            }
            let w = *values.get(&s).unwrap();
            add = w == o;
        }
        proof {
            assert forall|k: URI| values@.contains_key(k) implies (visited(sorted@, first, values@, k, i + 1) <==> (
                visited(sorted@, first, values@, k, i as int) || (add && k == s))) by {
                if visited(sorted@, first, values@, k, i + 1) && !visited(sorted@, first, values@, k, i as int) {
                    let j = choose|j: int| 0 <= j < i + 1 && #[trigger] sorted@[j] == (k, (first, values@[k]));
                    assert(j == i);
                }
                if add && k == s {
                    assert(sorted@[i as int] == (k, (first, values@[k])));
                }
                if visited(sorted@, first, values@, k, i as int) {
                    let j = choose|j: int| 0 <= j < i && #[trigger] sorted@[j] == (k, (first, values@[k]));
                    assert(0 <= j < i + 1);
                }
            }
        }
        if add {
            let idx = *uri2idx.get(&s).unwrap();
            let rep = uf_find(ds, idx);
            let name = idx2uri[rep];
            let ghost old_lists = lists@;
            let mut members = match lists.remove(&name) {
                Some(m) => m,
                None => Vec::new(),
            };
            let ghost old_members = members@;
            let ghost old_owners = owners;
            let ghost old_owned = if old_lists.contains_key(name) { owners[name] } else { Seq::<URI>::empty() };
            members.push(o);
            lists.insert(name, members);
            proof {
                owners = owners.insert(name, old_owned.push(s));
            }
            proof {
                assert(name == name_in(uri2idx@, idx2uri@, reps, s));
                assert(old_lists.contains_key(name) ==> old_members == old_lists[name]@);
                assert(!old_lists.contains_key(name) ==> old_members.len() == 0);
                assert(lists@ == old_lists.insert(name, members));
                assert forall|l: URI| #[trigger] lists@.contains_key(l) implies lists@[l]@.len() > 0 && forall|w: URI|
                    #[trigger] lists@[l]@.contains(w) <==> exists|k: URI|
                        #![trigger values@[k]]
                        values@.contains_key(k) && values@[k] == w && name_in(uri2idx@, idx2uri@, reps, k) == l
                            && visited(sorted@, first, values@, k, i + 1) by {
                    if l == name {
                        assert forall|w: URI| #[trigger] lists@[l]@.contains(w) <==> exists|k: URI|
                            #![trigger values@[k]]
                            values@.contains_key(k) && values@[k] == w && name_in(uri2idx@, idx2uri@, reps, k) == l
                                && visited(sorted@, first, values@, k, i + 1) by {
                            if lists@[l]@.contains(w) {
                                let m = choose|m: int| 0 <= m < lists@[l]@.len() && lists@[l]@[m] == w;
                                if m < old_members.len() {
                                    assert(old_members[m] == w);
                                    assert(old_members.contains(w));
                                    assert(old_lists[l]@.contains(w));
                                } else {
                                    assert(w == o);
                                    assert(values@[s] == w);
                                }
                            }
                            if exists|k: URI|
                                #![trigger values@[k]]
                                values@.contains_key(k) && values@[k] == w && name_in(uri2idx@, idx2uri@, reps, k) == l
                                    && visited(sorted@, first, values@, k, i + 1) {
                                let k = choose|k: URI|
                                    #![trigger values@[k]]
                                    values@.contains_key(k) && values@[k] == w && name_in(uri2idx@, idx2uri@, reps, k) == l
                                        && visited(sorted@, first, values@, k, i + 1);
                                if k == s {
                                    assert(members@[members@.len() - 1] == o);
                                } else {
                                    assert(visited(sorted@, first, values@, k, i as int));
                                    assert(old_lists.contains_key(l));
                                    assert(old_lists[l]@.contains(w));
                                    let m = choose|m: int| 0 <= m < old_members.len() && old_members[m] == w;
                                    assert(members@[m] == w);
                                }
                            }
                        }
                    } else {
                        assert(old_lists.contains_key(l));
                        assert forall|w: URI| #[trigger] lists@[l]@.contains(w) <==> exists|k: URI|
                            #![trigger values@[k]]
                            values@.contains_key(k) && values@[k] == w && name_in(uri2idx@, idx2uri@, reps, k) == l
                                && visited(sorted@, first, values@, k, i + 1) by {
                            if exists|k: URI|
                                #![trigger values@[k]]
                                values@.contains_key(k) && values@[k] == w && name_in(uri2idx@, idx2uri@, reps, k) == l
                                    && visited(sorted@, first, values@, k, i + 1) {
                                let k = choose|k: URI|
                                    #![trigger values@[k]]
                                    values@.contains_key(k) && values@[k] == w && name_in(uri2idx@, idx2uri@, reps, k) == l
                                        && visited(sorted@, first, values@, k, i + 1);
                                assert(visited(sorted@, first, values@, k, i as int));
                            }
                        }
                    }
                }
                assert forall|k: URI|
                    #[trigger] values@.contains_key(k) && visited(sorted@, first, values@, k, i + 1)
                        implies lists@.contains_key(name_in(uri2idx@, idx2uri@, reps, k)) by {
                    if k != s {
                        assert(visited(sorted@, first, values@, k, i as int));
                    }
                }
                let vf = |k: URI| values@[k];
                assert(!old_owned.contains(s)) by {
                    if old_owned.contains(s) {
                        assert(old_lists.contains_key(name));
                        assert(visited(sorted@, first, values@, s, i as int));
                        let j = choose|j: int| 0 <= j < i && #[trigger] sorted@[j] == (s, (first, values@[s]));
                        assert(triple_lt(sorted@[j], sorted@[i as int]));
                    }
                }
                assert forall|l: URI| #[trigger] lists@.contains_key(l) implies owned_by(
                    owners,
                    l,
                    lists@[l]@,
                    values@,
                    |k: URI| name_in(uri2idx@, idx2uri@, reps, k) == l && visited(sorted@, first, values@, k, i + 1),
                ) by {
                    if l == name {
                        let nw = old_owned.push(s);
                        assert(owners[l] == nw);
                        assert forall|a: int, b: int| 0 <= a < b < nw.len() implies nw[a] != nw[b] by {
                            if b == nw.len() - 1 {
                                assert(old_owned.contains(nw[a]));
                            } else {
                                assert(nw[a] == old_owned[a] && nw[b] == old_owned[b]);
                            }
                        }
                        if old_lists.contains_key(name) {
                            assert(old_members == old_owned.map_values(vf));
                        } else {
                            assert(old_members =~= old_owned.map_values(vf));
                        }
                        assert(nw.map_values(vf) =~= old_owned.map_values(vf).push(values@[s]));
                        assert(lists@[l]@ =~= old_members.push(o));
                        assert forall|k: URI| #[trigger] nw.contains(k) <==> (values@.contains_key(k) && (name_in(uri2idx@, idx2uri@, reps, k) == l
                            && visited(sorted@, first, values@, k, i + 1))) by {
                            if nw.contains(k) && k != s {
                                let m = choose|m: int| 0 <= m < nw.len() && nw[m] == k;
                                assert(old_owned[m] == k);
                                assert(old_owned.contains(k));
                            }
                            if k == s {
                                assert(nw[nw.len() - 1] == s);
                            }
                            if values@.contains_key(k) && name_in(uri2idx@, idx2uri@, reps, k) == l
                                && visited(sorted@, first, values@, k, i + 1) && k != s {
                                assert(visited(sorted@, first, values@, k, i as int));
                                assert(old_owned.contains(k));
                                let m = choose|m: int| 0 <= m < old_owned.len() && old_owned[m] == k;
                                assert(nw[m] == k);
                            }
                        }
                    } else {
                        assert(old_lists.contains_key(l));
                        assert(owners[l] == old_owners[l]);
                        assert forall|k: URI| #[trigger] owners[l].contains(k) <==> (values@.contains_key(k) && (name_in(uri2idx@, idx2uri@, reps, k) == l
                            && visited(sorted@, first, values@, k, i + 1))) by {
                            if values@.contains_key(k) && name_in(uri2idx@, idx2uri@, reps, k) == l && visited(sorted@, first, values@, k, i + 1) {
                                assert(k != s);
                                assert(visited(sorted@, first, values@, k, i as int));
                            }
                        }
                    }
                }
            }
        } else {
            proof {
                assert forall|l: URI| #[trigger] lists@.contains_key(l) implies owned_by(
                    owners,
                    l,
                    lists@[l]@,
                    values@,
                    |k: URI| name_in(uri2idx@, idx2uri@, reps, k) == l && visited(sorted@, first, values@, k, i + 1),
                ) by {
                    assert forall|k: URI| #[trigger] owners[l].contains(k) <==> (values@.contains_key(k) && (name_in(uri2idx@, idx2uri@, reps, k) == l
                        && visited(sorted@, first, values@, k, i + 1))) by {
                        if values@.contains_key(k) && visited(sorted@, first, values@, k, i + 1) {
                            assert(visited(sorted@, first, values@, k, i as int));
                        }
                    }
                }
                assert forall|l: URI| #[trigger] lists@.contains_key(l) implies lists@[l]@.len() > 0 && forall|w: URI|
                    #[trigger] lists@[l]@.contains(w) <==> exists|k: URI|
                        #![trigger values@[k]]
                        values@.contains_key(k) && values@[k] == w && name_in(uri2idx@, idx2uri@, reps, k) == l
                            && visited(sorted@, first, values@, k, i + 1) by {
                    assert forall|w: URI| #[trigger] lists@[l]@.contains(w) <==> exists|k: URI|
                        #![trigger values@[k]]
                        values@.contains_key(k) && values@[k] == w && name_in(uri2idx@, idx2uri@, reps, k) == l
                            && visited(sorted@, first, values@, k, i + 1) by {
                        if exists|k: URI|
                            #![trigger values@[k]]
                            values@.contains_key(k) && values@[k] == w && name_in(uri2idx@, idx2uri@, reps, k) == l
                                && visited(sorted@, first, values@, k, i + 1) {
                            let k = choose|k: URI|
                                #![trigger values@[k]]
                                values@.contains_key(k) && values@[k] == w && name_in(uri2idx@, idx2uri@, reps, k) == l
                                    && visited(sorted@, first, values@, k, i + 1);
                            assert(visited(sorted@, first, values@, k, i as int));
                        }
                    }
                }
            }
        }
        i += 1;
    }
    proof {
        assert forall|k: URI| #[trigger] values@.contains_key(k) implies visited(sorted@, first, values@, k, sorted@.len() as int) by {
            let j = choose|j: int| 0 <= j < sorted@.len() && sorted@[j] == (k, (first, values@[k]));
        }
        assert forall|l: URI| #[trigger] lists@.contains_key(l) implies owned_by(
            owners,
            l,
            lists@[l]@,
            values@,
            |k: URI| name_in(uri2idx@, idx2uri@, reps, k) == l,
        ) by {
            assert forall|k: URI| #[trigger] owners[l].contains(k) <==> (values@.contains_key(k) && name_in(uri2idx@, idx2uri@, reps, k) == l) by {
                if values@.contains_key(k) {
                    assert(visited(sorted@, first, values@, k, sorted@.len() as int));
                }
            }
        }
    }
    (lists, Ghost(owners))
}

} // verus!

verus! {

impl DisjointSets {
    /// Collects the lists of a graph: `first`, `rest` and `nil` are the
    /// identifiers of `rdf:first`, `rdf:rest` and `rdf:nil`. Each node keeps
    /// its greatest `rdf:first` value, and the `rdf:rest` links other than
    /// those to `rdf:nil` join nodes into lists.
    pub fn new(input: &Vec<KeyedTriple>, first: URI, rest: URI, nil: URI) -> (r: DisjointSets)
        requires
            input@.len() < usize::MAX / 4,
        ensures
            r.wf(),
            forall|u: URI|
                #[trigger] r.nodes().contains(u) <==> exists|t: KeyedTriple| #[trigger] input@.contains(t) && occurs(t, u),
            forall|k: URI|
                #[trigger] r.first_of().contains_key(k) <==> exists|w: URI| input@.contains((k, (first, w))),
            forall|k: URI| #[trigger] r.first_of().contains_key(k) ==> greatest_first(input@, first, k, r.first_of()[k]),
            forall|a: URI, b: URI| #[trigger] r.links().contains((a, b)) <==> (input@.contains((a, (rest, b))) && b != nil),
            forall|l: URI| #[trigger] r.members(l) == list_members(input@, first, rest, nil, l),
    {
        let sorted = relation_of(copy_triples(input));
        let (uri2idx, idx2uri) = index_nodes(&sorted);
        proof {
            assert forall|j: int, u: URI| 0 <= j < sorted@.len() && #[trigger] occurs(sorted@[j], u) implies uri2idx@.contains_key(u) by {}
        }
        let (ds, links) = union_links(&sorted, &uri2idx, &idx2uri, rest, nil);
        let values = first_values(&sorted, first);
        proof {
            assert forall|k: URI| #[trigger] values@.contains_key(k) implies sorted@.contains((k, (first, values@[k]))) by {
                assert(greatest_first(sorted@, first, k, values@[k]));
            }
        }
        let (lists, owners) = group_values(&sorted, first, &values, &uri2idx, &idx2uri, &ds);
        let r = DisjointSets {
            lists,
            uri2idx,
            idx2uri,
            ds,
            node_set: Ghost(uri2idx@.dom()),
            first_map: Ghost(values@),
            link_seq: links,
            owner_map: owners,
        };
        proof {
            assert forall|k: URI| #[trigger] r.first_of().contains_key(k) implies r.nodes().contains(k) by {
                let j = choose|j: int| 0 <= j < sorted@.len() && sorted@[j] == (k, (first, values@[k]));
                assert(occurs(sorted@[j], k));
            }
            assert forall|u: URI, w: URI|
                r.nodes().contains(u) && r.nodes().contains(w) implies (#[trigger] r.rep(u) == #[trigger] r.rep(w)
                    <==> connected(r.links(), u, w)) by {
                assert(r.rep(u) == union_find_reps(r.ds)[r.uri2idx@[u] as int]);
            }
            assert forall|l: URI| #[trigger] r.lists@.contains_key(l) implies r.lists@[l]@.len() > 0 && forall|w: URI|
                #[trigger] r.lists@[l]@.contains(w) <==> exists|k: URI|
                    #![trigger r.first_of()[k]]
                    r.first_of().contains_key(k) && r.first_of()[k] == w && r.listname(k) == l by {
                assert forall|w: URI| #[trigger] r.lists@[l]@.contains(w) <==> exists|k: URI|
                    #![trigger r.first_of()[k]]
                    r.first_of().contains_key(k) && r.first_of()[k] == w && r.listname(k) == l by {
                    if r.lists@[l]@.contains(w) {
                        let k = choose|k: URI|
                            #![trigger values@[k]]
                            values@.contains_key(k) && values@[k] == w && name_in(uri2idx@, idx2uri@, union_find_reps(ds), k) == l;
                        assert(r.listname(k) == l);
                    }
                    if exists|k: URI|
                        #![trigger r.first_of()[k]]
                        r.first_of().contains_key(k) && r.first_of()[k] == w && r.listname(k) == l {
                        let k = choose|k: URI|
                            #![trigger r.first_of()[k]]
                            r.first_of().contains_key(k) && r.first_of()[k] == w && r.listname(k) == l;
                        assert(name_in(uri2idx@, idx2uri@, union_find_reps(ds), k) == l);
                    }
                }
            }
            assert forall|k: URI| #[trigger] r.first_of().contains_key(k) implies r.lists@.contains_key(r.listname(k)) by {
                assert(name_in(uri2idx@, idx2uri@, union_find_reps(ds), k) == r.listname(k));
            }
            assert forall|u: URI| #[trigger] r.nodes().contains(u) <==> exists|t: KeyedTriple| #[trigger] input@.contains(t) && occurs(t, u) by {
                if r.nodes().contains(u) {
                    let j = choose|j: int| 0 <= j < sorted@.len() && occurs(#[trigger] sorted@[j], u);
                    assert(sorted@.contains(sorted@[j]));
                    assert(input@.contains(sorted@[j]));
                }
                if exists|t: KeyedTriple| #[trigger] input@.contains(t) && occurs(t, u) {
                    let t = choose|t: KeyedTriple| #[trigger] input@.contains(t) && occurs(t, u);
                    assert(sorted@.contains(t));
                    let j = choose|j: int| 0 <= j < sorted@.len() && sorted@[j] == t;
                    assert(occurs(sorted@[j], u));
                }
            }
            assert forall|k: URI| #[trigger] r.first_of().contains_key(k) <==> exists|w: URI| input@.contains((k, (first, w))) by {
                if exists|w: URI| input@.contains((k, (first, w))) {
                    let w = choose|w: URI| input@.contains((k, (first, w)));
                    assert(sorted@.contains((k, (first, w))));
                }
                if r.first_of().contains_key(k) {
                    assert(sorted@.contains((k, (first, values@[k]))));
                    assert(input@.contains((k, (first, values@[k]))));
                }
            }
            assert forall|k: URI| #[trigger] r.first_of().contains_key(k) implies greatest_first(input@, first, k, r.first_of()[k]) by {
                assert(greatest_first(sorted@, first, k, values@[k]));
                assert(input@.contains((k, (first, values@[k]))));
                assert forall|w2: URI| #[trigger] input@.contains((k, (first, w2))) implies w2 <= values@[k] by {
                    assert(sorted@.contains((k, (first, w2))));
                }
            }
            assert forall|a: URI, b: URI| #[trigger] r.links().contains((a, b)) <==> (input@.contains((a, (rest, b))) && b != nil) by {
                assert(sorted@.contains((a, (rest, b))) <==> input@.contains((a, (rest, b))));
            }
            assert forall|l: URI| #[trigger] r.members(l) == list_members(input@, first, rest, nil, l) by {
                lemma_members_of_input(r, input@, first, rest, nil, l);
            }
        }
        r
    }
}

} // verus!

verus! {

/// Every identifier is connected to itself.
pub proof fn lemma_connected_refl(edges: Seq<(URI, URI)>, x: URI)
    ensures
        connected(edges, x, x),
    decreases edges.len(),
{
    if edges.len() > 0 {
        lemma_connected_refl(edges.drop_last(), x);
    }
}

/// The ends of a link are connected.
pub proof fn lemma_connected_edge(edges: Seq<(URI, URI)>, a: URI, b: URI)
    requires
        edges.contains((a, b)),
    ensures
        connected(edges, a, b),
    decreases edges.len(),
{
    let p = edges.drop_last();
    let e = edges.last();
    if e == (a, b) {
        lemma_connected_refl(p, a);
        lemma_connected_refl(p, b);
    } else {
        let j = choose|j: int| 0 <= j < edges.len() && edges[j] == (a, b);
        assert(p[j] == (a, b));
        lemma_connected_edge(p, a, b);
    }
}

/// Connection is symmetric.
pub proof fn lemma_connected_sym(edges: Seq<(URI, URI)>, x: URI, y: URI)
    requires
        connected(edges, x, y),
    ensures
        connected(edges, y, x),
    decreases edges.len(),
{
    if edges.len() > 0 {
        let p = edges.drop_last();
        let e = edges.last();
        if connected(p, x, y) {
            lemma_connected_sym(p, x, y);
        } else if connected(p, x, e.0) && connected(p, e.1, y) {
            lemma_connected_sym(p, x, e.0);
            lemma_connected_sym(p, e.1, y);
        } else {
            lemma_connected_sym(p, x, e.1);
            lemma_connected_sym(p, e.0, y);
        }
    }
}

/// Connection is transitive.
pub proof fn lemma_connected_trans(edges: Seq<(URI, URI)>, x: URI, y: URI, z: URI)
    requires
        connected(edges, x, y),
        connected(edges, y, z),
    ensures
        connected(edges, x, z),
    decreases edges.len(),
{
    if edges.len() > 0 {
        let p = edges.drop_last();
        let e = edges.last();
        let a = e.0;
        let b = e.1;
        if connected(p, x, y) {
            if connected(p, y, z) {
                lemma_connected_trans(p, x, y, z);
            } else if connected(p, y, a) && connected(p, b, z) {
                lemma_connected_trans(p, x, y, a);
            } else {
                lemma_connected_trans(p, x, y, b);
            }
        } else if connected(p, x, a) && connected(p, b, y) {
            if connected(p, y, z) {
                lemma_connected_trans(p, b, y, z);
            } else if connected(p, y, a) && connected(p, b, z) {
            } else {
                lemma_connected_trans(p, x, a, z);
            }
        } else {
            if connected(p, y, z) {
                lemma_connected_trans(p, a, y, z);
            } else if connected(p, y, a) && connected(p, b, z) {
                lemma_connected_trans(p, x, b, z);
            } else {
            }
        }
    }
}

/// Connection depends on the set of links only: what the links of `e1`
/// connect, any sequence holding those links connects too.
pub proof fn lemma_connected_links(e1: Seq<(URI, URI)>, e2: Seq<(URI, URI)>, x: URI, y: URI)
    requires
        forall|l: (URI, URI)| #[trigger] e1.contains(l) ==> e2.contains(l),
        connected(e1, x, y),
    ensures
        connected(e2, x, y),
    decreases e1.len(),
{
    if e1.len() == 0 {
        lemma_connected_refl(e2, x);
    } else {
        let p = e1.drop_last();
        let e = e1.last();
        assert forall|l: (URI, URI)| #[trigger] p.contains(l) implies e2.contains(l) by {
            let j = choose|j: int| 0 <= j < p.len() && p[j] == l;
            assert(e1[j] == l);
            assert(e1.contains(l));
        }
        assert(e1[e1.len() - 1] == e);
        assert(e1.contains(e));
        assert(e2.contains(e));
        lemma_connected_edge(e2, e.0, e.1);
        if connected(p, x, y) {
            lemma_connected_links(p, e2, x, y);
        } else if connected(p, x, e.0) && connected(p, e.1, y) {
            lemma_connected_links(p, e2, x, e.0);
            lemma_connected_links(p, e2, e.1, y);
            lemma_connected_trans(e2, x, e.0, e.1);
            lemma_connected_trans(e2, x, e.1, y);
        } else {
            lemma_connected_links(p, e2, x, e.1);
            lemma_connected_links(p, e2, e.0, y);
            lemma_connected_sym(e2, e.0, e.1);
            lemma_connected_trans(e2, x, e.1, e.0);
            lemma_connected_trans(e2, x, e.0, y);
        }
    }
}

/// `x` and `y` are joined by the `rdf:rest` links of `s` (those to `rdf:nil`
/// left out), taken in either direction.
pub open spec fn rest_linked(s: Seq<KeyedTriple>, rest: URI, nil: URI, x: URI, y: URI) -> bool {
    exists|edges: Seq<(URI, URI)>|
        (forall|a: URI, b: URI| #[trigger] edges.contains((a, b)) <==> (s.contains((a, (rest, b))) && b != nil))
            && #[trigger] connected(edges, x, y)
}

/// The members of the list that starts at `l` in `s`: the greatest
/// `rdf:first` value of each node joined to `l` by `rdf:rest` links.
pub open spec fn list_members(s: Seq<KeyedTriple>, first: URI, rest: URI, nil: URI, l: URI) -> Set<URI> {
    Set::new(|w: URI| exists|k: URI| #[trigger] greatest_first(s, first, k, w) && rest_linked(s, rest, nil, l, k))
}

/// The lists of a graph are what `DisjointSets::new` collects.
pub proof fn lemma_members_of_input(ds: DisjointSets, input: Seq<KeyedTriple>, first: URI, rest: URI, nil: URI, l: URI)
    requires
        forall|k: URI| #[trigger] ds.first_of().contains_key(k) <==> exists|w: URI| input.contains((k, (first, w))),
        forall|k: URI| #[trigger] ds.first_of().contains_key(k) ==> greatest_first(input, first, k, ds.first_of()[k]),
        forall|a: URI, b: URI| #[trigger] ds.links().contains((a, b)) <==> (input.contains((a, (rest, b))) && b != nil),
    ensures
        ds.members(l) == list_members(input, first, rest, nil, l),
{
    assert forall|w: URI| ds.members(l).contains(w) <==> list_members(input, first, rest, nil, l).contains(w) by {
        if ds.members(l).contains(w) {
            let k = choose|k: URI|
                #![trigger ds.first_of()[k], connected(ds.links(), l, k)]
                ds.first_of().contains_key(k) && ds.first_of()[k] == w && connected(ds.links(), l, k);
            assert(greatest_first(input, first, k, w));
            assert(rest_linked(input, rest, nil, l, k));
        }
        if list_members(input, first, rest, nil, l).contains(w) {
            let k = choose|k: URI| #[trigger] greatest_first(input, first, k, w) && rest_linked(input, rest, nil, l, k);
            assert(input.contains((k, (first, w))));
            assert(ds.first_of().contains_key(k));
            let f = ds.first_of()[k];
            assert(greatest_first(input, first, k, f));
            assert(f <= w && w <= f);
            let edges = choose|edges: Seq<(URI, URI)>|
                (forall|a: URI, b: URI| #[trigger] edges.contains((a, b)) <==> (input.contains((a, (rest, b))) && b != nil))
                    && #[trigger] connected(edges, l, k);
            assert forall|e: (URI, URI)| #[trigger] edges.contains(e) implies ds.links().contains(e) by {
                assert(edges.contains((e.0, e.1)));
            }
            lemma_connected_links(edges, ds.links(), l, k);
        }
    }
    assert(ds.members(l) =~= list_members(input, first, rest, nil, l));
}

} // verus!
