use vstd::prelude::*;
use vstd::arithmetic::div_mod::lemma_fundamental_div_mod_converse;
use crate::index::IndexError;

verus! {

/// The cell of a vector: each entry divided by the cell size, rounded
/// down (`/` on `int` rounds down for a positive divisor).
pub open spec fn cell_of(v: Seq<i32>, s: int) -> Seq<int> {
    Seq::new(v.len(), |i: int| v[i] as int / s)
}

pub open spec fn entry_view(e: (Vec<i32>, usize)) -> (Seq<i32>, usize) {
    (e.0@, e.1)
}

pub open spec fn entry_views(b: Seq<(Vec<i32>, usize)>) -> Seq<(Seq<i32>, usize)> {
    b.map_values(|e: (Vec<i32>, usize)| entry_view(e))
}

pub open spec fn key_view(k: Seq<i64>) -> Seq<int> {
    k.map_values(|x: i64| x as int)
}

/// Vectors with their ids, bucketed by the cell each vector falls in. A
/// lookup sees its own cell only: a close neighbour across a cell
/// boundary is not returned.
pub struct SpatialHashGrid {
    keys: Vec<Vec<i64>>,
    nodes: Vec<Vec<(Vec<i32>, usize)>>,
    node_size: i64,
    dim: usize,
}

/// `b` is `a` after `e` was put in the bucket of its cell.
pub open spec fn inserted(a: SpatialHashGrid, b: SpatialHashGrid, e: (Seq<i32>, usize)) -> bool {
    &&& b.cell_size() == a.cell_size()
    &&& b.dimension() == a.dimension()
    &&& e.0.len() == a.dimension()
    &&& forall|key: Seq<int>|
        #[trigger] b.bucket(key) == if key == cell_of(e.0, a.cell_size()) {
            a.bucket(key).push(e)
        } else {
            a.bucket(key)
        }
}

impl SpatialHashGrid {
    pub closed spec fn cell_size(&self) -> int {
        self.node_size as int
    }

    pub closed spec fn dimension(&self) -> nat {
        self.dim as nat
    }

    spec fn key_at(&self, i: int) -> Seq<int> {
        key_view(self.keys@[i]@)
    }

    spec fn has_key(&self, key: Seq<int>) -> bool {
        exists|i: int| 0 <= i < self.keys@.len() && #[trigger] self.key_at(i) == key
    }

    /// The entries stored in the cell `key`, in insertion order.
    pub closed spec fn bucket(&self, key: Seq<int>) -> Seq<(Seq<i32>, usize)> {
        if self.has_key(key) {
            entry_views(
                self.nodes@[choose|i: int| 0 <= i < self.keys@.len() && #[trigger] self.key_at(i) == key]@,
            )
        } else {
            Seq::empty()
        }
    }

    pub closed spec fn wf(&self) -> bool {
        &&& self.node_size > 0
        &&& self.keys@.len() == self.nodes@.len()
        &&& forall|i: int, j: int|
            0 <= i < j < self.keys@.len() ==> #[trigger] self.key_at(i) != #[trigger] self.key_at(j)
    }

    proof fn lemma_bucket_at(&self, i: int)
        requires
            self.wf(),
            0 <= i < self.keys@.len(),
        ensures
            self.bucket(self.key_at(i)) == entry_views(self.nodes@[i]@),
    {
        assert(self.has_key(self.key_at(i)));
        let j = choose|j: int| 0 <= j < self.keys@.len() && #[trigger] self.key_at(j) == self.key_at(i);
        if j < i {
            assert(self.key_at(j) != self.key_at(i));
        } else if i < j {
            assert(self.key_at(i) != self.key_at(j));
        }
    }

    /// An empty grid of cells `node_size` wide for vectors of `dim`
    /// entries.
    pub fn new(node_size: i64, dim: usize) -> (r: SpatialHashGrid)
        requires
            node_size > 0,
        ensures
            r.wf(),
            r.cell_size() == node_size,
            r.dimension() == dim,
            forall|key: Seq<int>| #[trigger] r.bucket(key) == Seq::<(Seq<i32>, usize)>::empty(),
    {
        SpatialHashGrid { keys: Vec::new(), nodes: Vec::new(), node_size, dim }
    }

    /// The cell `v` falls in.
    fn cell(&self, v: &Vec<i32>) -> (r: Vec<i64>)
        requires
            self.wf(),
        ensures
            key_view(r@) == cell_of(v@, self.cell_size()),
    {
        let s = self.node_size;
        let mut r: Vec<i64> = Vec::new();
        let mut i: usize = 0;
        while i < v.len()
            invariant
                s == self.node_size,
                s > 0,
                i <= v@.len(),
                r@.len() == i,
                forall|k: int| 0 <= k < i ==> #[trigger] r@[k] as int == v@[k] as int / s as int,
            decreases v@.len() - i,
        {
            let x = v[i] as i64;
            let c: i64 = if x >= 0 {
                proof {
                    vstd::arithmetic::div_mod::lemma_div_pos_is_pos(x as int, s as int);
                    vstd::arithmetic::div_mod::lemma_div_is_ordered_by_denominator(x as int, 1, s as int);
                }
                ((x as u64) / (s as u64)) as i64
            } else {
                let a: u64 = (-x) as u64;
                let q: u64 = a / (s as u64);
                let m: u64 = a % (s as u64);
                proof {
                    vstd::arithmetic::div_mod::lemma_fundamental_div_mod(a as int, s as int);
                    vstd::arithmetic::div_mod::lemma_div_is_ordered_by_denominator(a as int, 1, s as int);
                    if m == 0 {
                        assert(x == (-(q as int)) * s + 0) by (nonlinear_arith)
                            requires
                                a == -x,
                                a == s * q + m,
                                m == 0,
                        ;
                        lemma_fundamental_div_mod_converse(x as int, s as int, -(q as int), 0);
                    } else {
                        assert(x == (-(q as int) - 1) * s + (s - m)) by (nonlinear_arith)
                            requires
                                a == -x,
                                a == s * q + m,
                        ;
                        lemma_fundamental_div_mod_converse(x as int, s as int, -(q as int) - 1, s - m);
                    }
                }
                if m == 0 {
                    -(q as i64)
                } else {
                    -(q as i64) - 1
                }
            };
            r.push(c);
            i = i + 1;
        }
        assert(key_view(r@) =~= cell_of(v@, self.cell_size()));
        r
    }

    /// The index of the bucket of cell `key`, if there is one.
    fn find(&self, key: &Vec<i64>) -> (r: Option<usize>)
        requires
            self.wf(),
        ensures
            r matches Some(i) ==> i < self.keys@.len() && self.key_at(i as int) == key_view(key@),
            r is None ==> !self.has_key(key_view(key@)),
    {
        let mut i: usize = 0;
        while i < self.keys.len()
            invariant
                i <= self.keys@.len(),
                forall|j: int| 0 <= j < i ==> #[trigger] self.key_at(j) != key_view(key@),
            decreases self.keys@.len() - i,
        {
            let k = &self.keys[i];
            let mut same = k.len() == key.len();
            if !same {
                assert(key_view(k@).len() != key_view(key@).len());
            }
            let mut j: usize = 0;
            while same && j < k.len()
                invariant
                    i < self.keys@.len(),
                    *k == self.keys@[i as int],
                    j <= k@.len(),
                    same ==> k@.len() == key@.len(),
                    same ==> forall|t: int| 0 <= t < j ==> k@[t] == key@[t],
                    !same ==> key_view(k@) != key_view(key@),
                decreases k@.len() - j,
            {
                if k[j] != key[j] {
                    same = false;
                    assert(key_view(k@)[j as int] != key_view(key@)[j as int]);
                }
                j = j + 1;
            }
            if same {
                assert(key_view(k@) =~= key_view(key@));
                return Some(i);
            }
            i = i + 1;
        }
        None
    }

    /// Puts `position` with its id `value` in the bucket of its cell.
    pub fn insert(&mut self, position: Vec<i32>, value: usize) -> (r: Result<(), IndexError>)
        requires
            old(self).wf(),
        ensures
            final(self).wf(),
            r is Err <==> position@.len() != old(self).dimension(),
            r is Err ==> r == Err::<(), IndexError>(IndexError::DimensionMismatch) && *final(self) == *old(self),
            r is Ok ==> inserted(*old(self), *final(self), (position@, value)),
    {
        if position.len() != self.dim {
            return Err(IndexError::DimensionMismatch);
        }
        let key = self.cell(&position);
        let ghost e = (position@, value);
        let ghost pre = *self;
        match self.find(&key) {
            Some(i) => {
                let mut b = self.nodes.remove(i);
                b.push((position, value));
                self.nodes.insert(i, b);
                proof {
                    assert(self.nodes@ =~= pre.nodes@.update(i as int, b));
                    assert(self.keys@ == pre.keys@);
                    assert forall|a: int, c: int|
                        0 <= a < c < self.keys@.len() implies #[trigger] self.key_at(a) != #[trigger] self.key_at(c) by {
                        assert(pre.key_at(a) != pre.key_at(c));
                    }
                    assert(entry_views(b@) =~= entry_views(pre.nodes@[i as int]@).push(e));
                    assert forall|k: Seq<int>| #[trigger] self.bucket(k) == if k == cell_of(e.0, pre.cell_size()) {
                        pre.bucket(k).push(e)
                    } else {
                        pre.bucket(k)
                    } by {
                        if k == cell_of(e.0, pre.cell_size()) {
                            self.lemma_bucket_at(i as int);
                            pre.lemma_bucket_at(i as int);
                        } else if pre.has_key(k) {
                            let j = choose|j: int| 0 <= j < pre.keys@.len() && #[trigger] pre.key_at(j) == k;
                            assert(self.key_at(j) == k);
                            self.lemma_bucket_at(j);
                            pre.lemma_bucket_at(j);
                        } else {
                            assert(!self.has_key(k)) by {
                                if self.has_key(k) {
                                    let j = choose|j: int| 0 <= j < self.keys@.len() && #[trigger] self.key_at(j) == k;
                                    assert(pre.key_at(j) == k);
                                }
                            }
                        }
                    }
                }
            },
            None => {
                let mut b: Vec<(Vec<i32>, usize)> = Vec::new();
                b.push((position, value));
                self.keys.push(key);
                self.nodes.push(b);
                proof {
                    let n = pre.keys@.len() as int;
                    assert forall|a: int| 0 <= a < n implies #[trigger] self.key_at(a) == pre.key_at(a) by {
                        assert(self.keys@[a] == pre.keys@[a]);
                    }
                    assert(self.key_at(n) == cell_of(e.0, pre.cell_size()));
                    assert forall|a: int, c: int|
                        0 <= a < c < self.keys@.len() implies #[trigger] self.key_at(a) != #[trigger] self.key_at(c) by {
                        if c < n {
                            assert(pre.key_at(a) != pre.key_at(c));
                        } else {
                            assert(pre.key_at(a) != cell_of(e.0, pre.cell_size()));
                        }
                    }
                    assert(entry_views(b@) =~= seq![e]);
                    assert forall|k: Seq<int>| #[trigger] self.bucket(k) == if k == cell_of(e.0, pre.cell_size()) {
                        pre.bucket(k).push(e)
                    } else {
                        pre.bucket(k)
                    } by {
                        if k == cell_of(e.0, pre.cell_size()) {
                            self.lemma_bucket_at(n);
                            assert(pre.bucket(k) =~= Seq::<(Seq<i32>, usize)>::empty());
                        } else if pre.has_key(k) {
                            let j = choose|j: int| 0 <= j < pre.keys@.len() && #[trigger] pre.key_at(j) == k;
                            assert(self.nodes@[j] == pre.nodes@[j]);
                            self.lemma_bucket_at(j);
                            pre.lemma_bucket_at(j);
                        } else {
                            assert(!self.has_key(k)) by {
                                if self.has_key(k) {
                                    let j = choose|j: int| 0 <= j < self.keys@.len() && #[trigger] self.key_at(j) == k;
                                    if j < n {
                                        assert(pre.key_at(j) == k);
                                    }
                                }
                            }
                        }
                    }
                }
            },
        }
        Ok(())
    }

    /// The entries stored in the cell that `query` falls in.
    pub fn neighbors(&self, query: &Vec<i32>) -> (r: Result<&[(Vec<i32>, usize)], IndexError>)
        requires
            self.wf(),
        ensures
            r is Err <==> query@.len() != self.dimension(),
            r is Err ==> r == Err::<&[(Vec<i32>, usize)], IndexError>(IndexError::DimensionMismatch),
            r matches Ok(b) ==> entry_views(b@) == self.bucket(cell_of(query@, self.cell_size())),
    {
        if query.len() != self.dim {
            return Err(IndexError::DimensionMismatch);
        }
        let key = self.cell(query);
        match self.find(&key) {
            Some(i) => {
                proof {
                    self.lemma_bucket_at(i as int);
                }
                Ok(self.nodes[i].as_slice())
            },
            None => {
                let empty: &[(Vec<i32>, usize)] = &[];
                assert(entry_views(empty@) =~= Seq::<(Seq<i32>, usize)>::empty());
                Ok(empty)
            },
        }
    }
}

/// Entries inserted one after another land in their cells' buckets in
/// insertion order: when all of them share the cell `key`, its bucket
/// gains exactly those entries, in that order; when none falls in `key`,
/// its bucket stays as it was.
pub proof fn lemma_inserts(gs: Seq<SpatialHashGrid>, es: Seq<(Seq<i32>, usize)>, key: Seq<int>)
    requires
        gs.len() == es.len() + 1,
        forall|i: int| 0 <= i < es.len() ==> inserted(gs[i], gs[i + 1], #[trigger] es[i]),
    ensures
        (forall|i: int| 0 <= i < es.len() ==> cell_of((#[trigger] es[i]).0, gs[0].cell_size()) == key) ==> gs.last().bucket(key)
            == gs[0].bucket(key) + es,
        (forall|i: int| 0 <= i < es.len() ==> cell_of((#[trigger] es[i]).0, gs[0].cell_size()) != key) ==> gs.last().bucket(key)
            == gs[0].bucket(key),
    decreases es.len(),
{
    if es.len() > 0 {
        let n = es.len() - 1;
        lemma_inserts(gs.drop_last(), es.drop_last(), key);
        assert(inserted(gs[n], gs[n + 1], es[n]));
        assert forall|i: int| 0 <= i <= n implies #[trigger] gs[i].cell_size() == gs[0].cell_size() by {
            lemma_same_size(gs, es, i);
        }
        let b = gs[n + 1].bucket(key);
        if forall|i: int| 0 <= i < es.len() ==> cell_of((#[trigger] es[i]).0, gs[0].cell_size()) == key {
            assert(cell_of(es[n].0, gs[0].cell_size()) == key);
            assert(gs.drop_last().last() == gs[n]);
            assert(es.drop_last() + seq![es[n]] =~= es);
            assert(gs[0].bucket(key) + es.drop_last() + seq![es[n]] =~= gs[0].bucket(key) + es);
            assert(gs[0].bucket(key) + es.drop_last() == gs[n].bucket(key));
            assert(b == gs[n].bucket(key).push(es[n]));
        }
        if forall|i: int| 0 <= i < es.len() ==> cell_of((#[trigger] es[i]).0, gs[0].cell_size()) != key {
            assert(cell_of(es[n].0, gs[0].cell_size()) != key);
            assert(gs.drop_last().last() == gs[n]);
            assert(b == gs[n].bucket(key));
        }
    }
}

proof fn lemma_same_size(gs: Seq<SpatialHashGrid>, es: Seq<(Seq<i32>, usize)>, i: int)
    requires
        gs.len() == es.len() + 1,
        forall|k: int| 0 <= k < es.len() ==> inserted(gs[k], gs[k + 1], #[trigger] es[k]),
        0 <= i < gs.len(),
    ensures
        gs[i].cell_size() == gs[0].cell_size(),
    decreases i,
{
    if i > 0 {
        lemma_same_size(gs, es, i - 1);
        assert(inserted(gs[i - 1], gs[i], es[i - 1]));
    }
}

/// Inserting the same entries of one cell in two orders, each time into
/// a grid whose bucket for that cell starts empty, leaves that bucket with
/// the same entries, as a multiset.
pub proof fn lemma_inserts_any_order(
    gs: Seq<SpatialHashGrid>,
    es: Seq<(Seq<i32>, usize)>,
    hs: Seq<SpatialHashGrid>,
    fs: Seq<(Seq<i32>, usize)>,
    key: Seq<int>,
)
    requires
        gs.len() == es.len() + 1,
        hs.len() == fs.len() + 1,
        forall|i: int| 0 <= i < es.len() ==> inserted(gs[i], gs[i + 1], #[trigger] es[i]),
        forall|i: int| 0 <= i < fs.len() ==> inserted(hs[i], hs[i + 1], #[trigger] fs[i]),
        gs[0].bucket(key).len() == 0,
        hs[0].bucket(key).len() == 0,
        gs[0].cell_size() == hs[0].cell_size(),
        forall|i: int| 0 <= i < es.len() ==> cell_of((#[trigger] es[i]).0, gs[0].cell_size()) == key,
        es.to_multiset() == fs.to_multiset(),
    ensures
        gs.last().bucket(key) == es,
        gs.last().bucket(key).to_multiset() == hs.last().bucket(key).to_multiset(),
{
    lemma_inserts(gs, es, key);
    assert(gs[0].bucket(key) + es =~= es);
    assert forall|i: int| 0 <= i < fs.len() implies cell_of((#[trigger] fs[i]).0, hs[0].cell_size()) == key by {
        fs.to_multiset_ensures();
        es.to_multiset_ensures();
        assert(fs.to_multiset().count(fs[i]) > 0);
        assert(es.contains(fs[i]));
        let w = choose|w: int| 0 <= w < es.len() && es[w] == fs[i];
        assert(cell_of(es[w].0, gs[0].cell_size()) == key);
    }
    lemma_inserts(hs, fs, key);
    assert(hs[0].bucket(key) + fs =~= fs);
}

} // verus!
