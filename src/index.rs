use vstd::prelude::*;
use crate::chunk::{texts_kept, NodeData, NO_SIBLING, models, siblings_in_range, rebase, rebase_seq, int_seq};
use crate::persist::{frame, decodes_to, well_formed, encode_vectors, decode_vectors, lemma_frame_round_trip, lemma_decode_unique};

verus! {

/// Why an index operation was refused.
#[derive(Debug, PartialEq, Eq, Structural, Clone, Copy)]
pub enum IndexError {
    /// The number of vectors differs from the number of chunks.
    EmbeddingCount,
    /// A vector's dimension differs from the index's.
    DimensionMismatch,
    /// A chunk names a sibling outside its document.
    InvalidSibling,
    /// A document with this identifier is already indexed.
    DuplicatePosition,
    /// Stored vectors do not match the manifest.
    PersistenceFormat,
}

/// Chunks and their embedding vectors, kept side by side.
pub struct VectorDB {
    embeddings: Vec<Vec<i32>>,
    data: Vec<NodeData>,
}

pub open spec fn vec_views(v: Seq<Vec<i32>>) -> Seq<Seq<i32>> {
    v.map_values(|e: Vec<i32>| e@)
}

/// Every vector of `vs` has `d` entries.
pub open spec fn uniform_dim(vs: Seq<Seq<i32>>, d: int) -> bool {
    forall|i: int| 0 <= i < vs.len() ==> (#[trigger] vs[i]).len() == d
}

/// Chunks that share a position stand next to each other.
pub open spec fn positions_contiguous(c: Seq<NodeData>) -> bool {
    forall|i: int, j: int, k: int|
        0 <= i < j < k < c.len() && (#[trigger] c[i]).position@ == (#[trigger] c[k]).position@ ==> (
        #[trigger] c[j]).position@ == c[i].position@
}

pub open spec fn has_position(c: Seq<NodeData>, p: Seq<char>) -> bool {
    exists|i: int| 0 <= i < c.len() && (#[trigger] c[i]).position@ == p
}

/// The sum of squared differences of the entries of two vectors.
pub open spec fn sq_dist(a: Seq<i32>, b: Seq<i32>) -> int
    decreases a.len(),
{
    if a.len() == 0 || b.len() == 0 {
        0
    } else {
        let d = a.last() - b.last();
        sq_dist(a.drop_last(), b.drop_last()) + d * d
    }
}

/// Entry `a` ranks before entry `b`: it lies closer, or as close and
/// earlier.
pub open spec fn ranks_before(d: Seq<int>, a: int, b: int) -> bool {
    d[a] < d[b] || (d[a] == d[b] && a < b)
}

/// With a last pick, `y` ranks after it; with none, any `y` qualifies.
pub open spec fn follows(d: Seq<int>, has_last: bool, last: int, y: int) -> bool {
    !has_last || ranks_before(d, last, y)
}

pub open spec fn min_len(k: int, n: int) -> int {
    if k < n {
        k
    } else {
        n
    }
}

proof fn lemma_sq_dist_self(a: Seq<i32>)
    ensures
        sq_dist(a, a) == 0,
    decreases a.len(),
{
    if a.len() > 0 {
        lemma_sq_dist_self(a.drop_last());
    }
}

proof fn lemma_sq_dist_nonneg(a: Seq<i32>, b: Seq<i32>)
    ensures
        sq_dist(a, b) >= 0,
    decreases a.len(),
{
    if a.len() > 0 && b.len() > 0 {
        lemma_sq_dist_nonneg(a.drop_last(), b.drop_last());
        let d = a.last() - b.last();
        assert(d * d >= 0) by (nonlinear_arith);
    }
}

proof fn lemma_missing_index(r: Seq<usize>, n: int)
    requires
        r.len() < n <= usize::MAX + 1,
        forall|i: int, j: int| 0 <= i < j < r.len() ==> r[i] != r[j],
    ensures
        exists|x: int| 0 <= x < n && !#[trigger] r.contains(x as usize),
{
    let s = r.map_values(|v: usize| v as int);
    assert(s.no_duplicates());
    s.unique_seq_to_set();
    vstd::set_lib::lemma_int_range(0, n);
    if forall|x: int| 0 <= x < n ==> #[trigger] r.contains(x as usize) {
        assert forall|x: int| #[trigger] vstd::set_lib::set_int_range(0, n).contains(x) implies s.to_set().contains(
            x,
        ) by {
            assert(r.contains(x as usize));
            let w = choose|w: int| 0 <= w < r.len() && r[w] == x as usize;
            assert(s[w] == x);
        }
        vstd::set_lib::lemma_len_subset(vstd::set_lib::set_int_range(0, n), s.to_set());
    }
}

/// The sum of squared differences of the entries of two vectors of one
/// dimension.
pub fn distance(a: &Vec<i32>, b: &Vec<i32>) -> (r: u128)
    requires
        a@.len() == b@.len(),
    ensures
        r == sq_dist(a@, b@),
{
    let n = a.len();
    let mut acc: u128 = 0;
    let mut i: usize = 0;
    while i < n
        invariant
            n == a@.len(),
            n == b@.len(),
            i <= n,
            acc == sq_dist(a@.subrange(0, i as int), b@.subrange(0, i as int)),
            acc <= i * 0xffff_ffff_ffff_ffffu128,
        decreases n - i,
    {
        let d: i64 = a[i] as i64 - b[i] as i64;
        let m: u64 = if d < 0 { (-d) as u64 } else { d as u64 };
        assert(m <= 0xffff_ffffu64);
        assert(m * m <= 0xffff_ffff_ffff_ffffu128) by (nonlinear_arith)
            requires
                m <= 0xffff_ffffu64,
        ;
        let sq: u128 = (m as u128) * (m as u128);
        assert(sq == d * d) by (nonlinear_arith)
            requires
                sq == m * m,
                m == d || m == -d,
        ;
        assert((i + 1) * 0xffff_ffff_ffff_ffffu128 <= 0xffff_ffff_ffff_ffff_ffff_ffff_ffff_ffffu128) by (
        nonlinear_arith)
            requires
                i < n <= usize::MAX,
        ;
        assert((i + 1) * 0xffff_ffff_ffff_ffffu128 == i * 0xffff_ffff_ffff_ffffu128 + 0xffff_ffff_ffff_ffffu128)
            by (nonlinear_arith);
        assert(a@.subrange(0, i + 1).drop_last() =~= a@.subrange(0, i as int));
        assert(b@.subrange(0, i + 1).drop_last() =~= b@.subrange(0, i as int));
        acc = acc + sq;
        i = i + 1;
    }
    assert(a@.subrange(0, n as int) =~= a@);
    assert(b@.subrange(0, n as int) =~= b@);
    acc
}

/// Chunk `i` begins a document: the first chunk, or one whose position
/// differs from the chunk before it.
pub open spec fn is_start(c: Seq<NodeData>, i: int) -> bool {
    i == 0 || c[i].position@ != c[i - 1].position@
}

/// The vectors of the first `n` chunks, one group per document.
pub open spec fn groups_of(c: Seq<NodeData>, vs: Seq<Seq<i32>>, n: int) -> Seq<Seq<Seq<i32>>>
    decreases n,
{
    if n <= 0 {
        Seq::empty()
    } else {
        let g = groups_of(c, vs, n - 1);
        if is_start(c, n - 1) || g.len() == 0 {
            g.push(seq![vs[n - 1]])
        } else {
            g.update(g.len() - 1, g.last().push(vs[n - 1]))
        }
    }
}

/// The position of each document among the first `n` chunks.
pub open spec fn group_names(c: Seq<NodeData>, n: int) -> Seq<Seq<char>>
    decreases n,
{
    if n <= 0 {
        Seq::empty()
    } else if is_start(c, n - 1) || group_names(c, n - 1).len() == 0 {
        group_names(c, n - 1).push(c[n - 1].position@)
    } else {
        group_names(c, n - 1)
    }
}

/// The stored state that a manifest and vector files describe: the
/// chunks `c` with the vectors `vs`, an index that is well formed, whose
/// documents' vector files are `files`, in order.
pub open spec fn loadable(c: Seq<NodeData>, files: Seq<Seq<i32>>, vs: Seq<Seq<i32>>) -> bool {
    let g = groups_of(c, vs, c.len() as int);
    &&& c.len() == vs.len()
    &&& c.len() <= usize::MAX
    &&& uniform_dim(vs, if vs.len() > 0 { vs[0].len() as int } else { 0 })
    &&& siblings_in_range(models(c))
    &&& positions_contiguous(c)
    &&& g.len() == files.len()
    &&& forall|k: int| 0 <= k < files.len() ==> decodes_to(#[trigger] files[k], g[k])
}

proof fn lemma_groups_flatten(c: Seq<NodeData>, vs: Seq<Seq<i32>>, n: int)
    requires
        0 <= n <= vs.len(),
    ensures
        groups_of(c, vs, n).flatten_alt() == vs.take(n),
        groups_of(c, vs, n).len() == group_names(c, n).len(),
        n > 0 ==> groups_of(c, vs, n).len() > 0,
        forall|k: int| 0 <= k < groups_of(c, vs, n).len() ==> (#[trigger] groups_of(c, vs, n)[k]).len() <= n,
    decreases n,
{
    if n > 0 {
        lemma_groups_flatten(c, vs, n - 1);
        let g = groups_of(c, vs, n - 1);
        let h = groups_of(c, vs, n);
        if is_start(c, n - 1) || g.len() == 0 {
            assert(h.drop_last() =~= g);
        } else {
            assert(h.drop_last() =~= g.drop_last());
            assert(g.flatten_alt() == g.drop_last().flatten_alt() + g.last());
        }
        assert(vs.take(n) =~= vs.take(n - 1).push(vs[n - 1]));
        assert forall|k: int| 0 <= k < h.len() implies (#[trigger] h[k]).len() <= n by {
            if k < g.len() {
                assert(g[k].len() <= n - 1);
            }
        }
    }
}

proof fn lemma_groups_uniform(c: Seq<NodeData>, vs: Seq<Seq<i32>>, n: int, d: int)
    requires
        0 <= n <= vs.len(),
        uniform_dim(vs, d),
    ensures
        forall|k: int| 0 <= k < groups_of(c, vs, n).len() ==> uniform_dim(#[trigger] groups_of(c, vs, n)[k], d),
    decreases n,
{
    if n > 0 {
        lemma_groups_uniform(c, vs, n - 1, d);
        let g = groups_of(c, vs, n - 1);
        let h = groups_of(c, vs, n);
        assert forall|k: int| 0 <= k < h.len() implies uniform_dim(#[trigger] h[k], d) by {
            if k < g.len() {
                assert(uniform_dim(g[k], d));
            }
            assert forall|t: int| 0 <= t < h[k].len() implies (#[trigger] h[k][t]).len() == d by {
                if k < g.len() && t < g[k].len() {
                    assert(h[k][t] == g[k][t]);
                }
            }
        }
    }
}

proof fn lemma_contiguous_from_steps(c: Seq<NodeData>)
    requires
        forall|i: int, k: int|
            0 <= i < k < c.len() && (#[trigger] c[i]).position@ == (#[trigger] c[k]).position@ ==> c[k - 1].position@
                == c[k].position@,
    ensures
        positions_contiguous(c),
{
    assert forall|i: int, j: int, k: int|
        0 <= i < j < k < c.len() && (#[trigger] c[i]).position@ == (#[trigger] c[k]).position@ implies (
        #[trigger] c[j]).position@ == c[i].position@ by {
        lemma_contiguous_step(c, i, j, k);
    }
}

proof fn lemma_contiguous_step(c: Seq<NodeData>, i: int, j: int, k: int)
    requires
        forall|a: int, b: int|
            0 <= a < b < c.len() && (#[trigger] c[a]).position@ == (#[trigger] c[b]).position@ ==> c[b - 1].position@
                == c[b].position@,
        0 <= i < j < k < c.len(),
        c[i].position@ == c[k].position@,
    ensures
        c[j].position@ == c[i].position@,
    decreases k - j,
{
    assert(c[k - 1].position@ == c[k].position@);
    if j < k - 1 {
        lemma_contiguous_step(c, i, j, k - 1);
    }
}

/// Saving then loading gives the index back: the vector files that
/// `vector_files` writes for a well-formed index describe that index, and
/// no other vectors fit the same manifest and files.
pub proof fn lemma_save_load(db: &VectorDB, files: Seq<Seq<i32>>, vs: Seq<Seq<i32>>)
    requires
        db.wf(),
        db.dim() <= i32::MAX,
        db.chunks().len() <= i32::MAX,
        files.len() == groups_of(db.chunks(), db.vectors(), db.chunks().len() as int).len(),
        forall|k: int|
            0 <= k < files.len() ==> #[trigger] files[k] == frame(
                groups_of(db.chunks(), db.vectors(), db.chunks().len() as int)[k],
                db.dim(),
            ),
    ensures
        loadable(db.chunks(), files, db.vectors()),
        loadable(db.chunks(), files, vs) ==> vs == db.vectors(),
{
    let c = db.chunks();
    let n = c.len() as int;
    let g = groups_of(c, db.vectors(), n);
    lemma_groups_uniform(c, db.vectors(), n, db.dim());
    lemma_groups_flatten(c, db.vectors(), n);
    assert forall|k: int| 0 <= k < files.len() implies decodes_to(#[trigger] files[k], g[k]) by {
        lemma_frame_round_trip(g[k], db.dim());
    }
    if loadable(c, files, vs) {
        let h = groups_of(c, vs, n);
        assert forall|k: int| 0 <= k < h.len() implies #[trigger] h[k] == g[k] by {
            assert(decodes_to(files[k], h[k]));
            assert(decodes_to(files[k], g[k]));
            lemma_decode_unique(files[k], h[k], g[k]);
        }
        assert(h =~= g);
        lemma_groups_flatten(c, vs, n);
        assert(vs.take(n) =~= vs);
        assert(db.vectors().take(n) =~= db.vectors());
    }
}

pub open spec fn group_views(g: Seq<Vec<Vec<i32>>>) -> Seq<Seq<Seq<i32>>> {
    g.map_values(|x: Vec<Vec<i32>>| vec_views(x@))
}

pub open spec fn string_views(s: Seq<String>) -> Seq<Seq<char>> {
    s.map_values(|x: String| x@)
}

proof fn lemma_loadable_decoded(c: Seq<NodeData>, files: Seq<Seq<i32>>, vs: Seq<Seq<i32>>, dec: Seq<Seq<Seq<i32>>>)
    requires
        loadable(c, files, vs),
        dec.len() == files.len(),
        forall|k: int| 0 <= k < dec.len() ==> decodes_to(#[trigger] files[k], dec[k]),
    ensures
        dec == groups_of(c, vs, c.len() as int),
        dec.flatten_alt() == vs,
{
    let g = groups_of(c, vs, c.len() as int);
    assert forall|k: int| 0 <= k < dec.len() implies #[trigger] dec[k] == g[k] by {
        assert(decodes_to(files[k], dec[k]));
        lemma_decode_unique(files[k], dec[k], g[k]);
    }
    assert(dec =~= g);
    lemma_groups_flatten(c, vs, c.len() as int);
    assert(vs.take(c.len() as int) =~= vs);
}

fn copy_vector(v: &Vec<i32>) -> (r: Vec<i32>)
    ensures
        r@ == v@,
{
    let mut r: Vec<i32> = Vec::new();
    let mut i: usize = 0;
    while i < v.len()
        invariant
            i <= v@.len(),
            r@ == v@.subrange(0, i as int),
        decreases v@.len() - i,
    {
        r.push(v[i]);
        i = i + 1;
        assert(r@ =~= v@.subrange(0, i as int));
    }
    assert(v@.subrange(0, i as int) =~= v@);
    r
}

fn same_vector(a: &Vec<i32>, b: &Vec<i32>) -> (r: bool)
    ensures
        r == (a@ == b@),
{
    if a.len() != b.len() {
        return false;
    }
    let mut i: usize = 0;
    while i < a.len()
        invariant
            a@.len() == b@.len(),
            i <= a@.len(),
            forall|k: int| 0 <= k < i ==> a@[k] == b@[k],
        decreases a@.len() - i,
    {
        if a[i] != b[i] {
            return false;
        }
        i = i + 1;
    }
    assert(a@ =~= b@);
    true
}

fn same_group(a: &Vec<Vec<i32>>, b: &Vec<Vec<i32>>) -> (r: bool)
    ensures
        r == (vec_views(a@) == vec_views(b@)),
{
    if a.len() != b.len() {
        assert(vec_views(a@).len() != vec_views(b@).len());
        return false;
    }
    let mut i: usize = 0;
    while i < a.len()
        invariant
            a@.len() == b@.len(),
            i <= a@.len(),
            forall|k: int| 0 <= k < i ==> #[trigger] vec_views(a@)[k] == vec_views(b@)[k],
        decreases a@.len() - i,
    {
        if !same_vector(&a[i], &b[i]) {
            assert(vec_views(a@)[i as int] != vec_views(b@)[i as int]);
            return false;
        }
        i = i + 1;
    }
    assert(vec_views(a@) =~= vec_views(b@));
    true
}

fn same_groups(a: &Vec<Vec<Vec<i32>>>, b: &Vec<Vec<Vec<i32>>>) -> (r: bool)
    ensures
        r == (group_views(a@) == group_views(b@)),
{
    if a.len() != b.len() {
        assert(group_views(a@).len() != group_views(b@).len());
        return false;
    }
    let mut i: usize = 0;
    while i < a.len()
        invariant
            a@.len() == b@.len(),
            i <= a@.len(),
            forall|k: int| 0 <= k < i ==> #[trigger] group_views(a@)[k] == group_views(b@)[k],
        decreases a@.len() - i,
    {
        if !same_group(&a[i], &b[i]) {
            assert(group_views(a@)[i as int] != group_views(b@)[i as int]);
            return false;
        }
        i = i + 1;
    }
    assert(group_views(a@) =~= group_views(b@));
    true
}

/// Whether every sibling entry of `chunks` is the sentinel or an index
/// into `chunks`.
fn siblings_ok(chunks: &Vec<NodeData>) -> (r: bool)
    ensures
        r == siblings_in_range(models(chunks@)),
{
    let n = chunks.len();
    let mut i: usize = 0;
    while i < n
        invariant
            n == chunks@.len(),
            i <= n,
            forall|a: int, b: int|
                0 <= a < i && 0 <= b < chunks@[a].siblings@.len() ==> {
                    let v = #[trigger] chunks@[a].siblings@[b];
                    v == NO_SIBLING || (0 <= v < n)
                },
        decreases n - i,
    {
        let s = &chunks[i].siblings;
        let mut j: usize = 0;
        while j < s.len()
            invariant
                n == chunks@.len(),
                i < n,
                *s == chunks@[i as int].siblings,
                j <= s@.len(),
                forall|a: int, b: int|
                    0 <= a < i && 0 <= b < chunks@[a].siblings@.len() ==> {
                        let v = #[trigger] chunks@[a].siblings@[b];
                        v == NO_SIBLING || (0 <= v < n)
                    },
                forall|b: int|
                    0 <= b < j ==> {
                        let v = #[trigger] chunks@[i as int].siblings@[b];
                        v == NO_SIBLING || (0 <= v < n)
                    },
            decreases s@.len() - j,
        {
            let v = s[j];
            if !(v == NO_SIBLING || (0 <= v && (v as usize) < n)) {
                proof {
                    assert(models(chunks@)[i as int].siblings[j as int] == v as int);
                }
                return false;
            }
            j = j + 1;
        }
        i = i + 1;
    }
    assert forall|a: int, b: int|
        0 <= a < models(chunks@).len() && 0 <= b < models(chunks@)[a].siblings.len() implies {
        let v = #[trigger] models(chunks@)[a].siblings[b];
        v == NO_SIBLING as int || (0 <= v < models(chunks@).len())
    } by {
        assert(models(chunks@)[a].siblings[b] == chunks@[a].siblings@[b] as int);
    }
    true
}

/// Whether the chunks of each position stand together.
fn contiguous_ok(c: &Vec<NodeData>) -> (r: bool)
    ensures
        r == positions_contiguous(c@),
{
    let n = c.len();
    let mut k: usize = 1;
    while k < n
        invariant
            n == c@.len(),
            1 <= k,
            forall|i: int, b: int|
                0 <= i < b < k && b < n && (#[trigger] c@[i]).position@ == (#[trigger] c@[b]).position@ ==> c@[b
                    - 1].position@ == c@[b].position@,
        decreases n - k,
    {
        let mut i: usize = 0;
        while i < k
            invariant
                n == c@.len(),
                1 <= k < n,
                i <= k,
                forall|a: int, b: int|
                    0 <= a < b < k && (#[trigger] c@[a]).position@ == (#[trigger] c@[b]).position@ ==> c@[b
                        - 1].position@ == c@[b].position@,
                forall|a: int|
                    0 <= a < i && (#[trigger] c@[a]).position@ == c@[k as int].position@ ==> c@[k - 1].position@
                        == c@[k as int].position@,
            decreases k - i,
        {
            if c[i].position == c[k].position && c[k - 1].position != c[k].position {
                proof {
                    if i + 1 < k {
                        assert(c@[i as int].position@ == c@[k as int].position@);
                        assert(!positions_contiguous(c@)) by {
                            if positions_contiguous(c@) {
                                assert(c@[k - 1].position@ == c@[i as int].position@);
                            }
                        }
                    }
                }
                return false;
            }
            i = i + 1;
        }
        k = k + 1;
    }
    proof {
        lemma_contiguous_from_steps(c@);
    }
    true
}

/// The vectors of each document, and each document's position.
fn group_vectors(c: &Vec<NodeData>, vs: &Vec<Vec<i32>>) -> (r: (Vec<Vec<Vec<i32>>>, Vec<String>))
    requires
        c@.len() == vs@.len(),
    ensures
        group_views(r.0@) == groups_of(c@, vec_views(vs@), c@.len() as int),
        string_views(r.1@) == group_names(c@, c@.len() as int),
{
    let ghost V = vec_views(vs@);
    let mut groups: Vec<Vec<Vec<i32>>> = Vec::new();
    let mut names: Vec<String> = Vec::new();
    let mut i: usize = 0;
    while i < c.len()
        invariant
            c@.len() == vs@.len(),
            V == vec_views(vs@),
            i <= c@.len(),
            group_views(groups@) == groups_of(c@, V, i as int),
            string_views(names@) == group_names(c@, i as int),
        decreases c@.len() - i,
    {
        let v = copy_vector(&vs[i]);
        let ghost g = groups_of(c@, V, i as int);
        if i == 0 || c[i].position != c[i - 1].position || groups.len() == 0 {
            let mut fresh: Vec<Vec<i32>> = Vec::new();
            fresh.push(v);
            groups.push(fresh);
            names.push(c[i].position.clone());
            proof {
                assert(vec_views(fresh@) =~= seq![V[i as int]]);
                assert(group_views(groups@) =~= g.push(seq![V[i as int]]));
                assert(string_views(names@) =~= group_names(c@, i as int).push(c@[i as int].position@));
            }
        } else {
            let ghost before = groups@;
            let mut last = match groups.pop() {
                Some(x) => x,
                None => Vec::new(),
            };
            let ghost old_last = vec_views(last@);
            last.push(v);
            groups.push(last);
            proof {
                assert(old_last == g.last());
                assert(vec_views(last@) =~= g.last().push(V[i as int]));
                assert(group_views(groups@) =~= g.update(g.len() - 1, g.last().push(V[i as int])));
            }
        }
        i = i + 1;
    }
    (groups, names)
}

/// The position of each document of the manifest `c`, in order: the
/// names of the vector files that `VectorDB::load` expects.
pub fn document_positions(c: &Vec<NodeData>) -> (r: Vec<String>)
    ensures
        string_views(r@) == group_names(c@, c@.len() as int),
{
    let mut names: Vec<String> = Vec::new();
    let mut i: usize = 0;
    while i < c.len()
        invariant
            i <= c@.len(),
            string_views(names@) == group_names(c@, i as int),
        decreases c@.len() - i,
    {
        if i == 0 || c[i].position != c[i - 1].position || names.len() == 0 {
            names.push(c[i].position.clone());
            assert(string_views(names@) =~= group_names(c@, i as int).push(c@[i as int].position@));
        }
        i = i + 1;
    }
    names
}

impl VectorDB {
    pub closed spec fn chunks(&self) -> Seq<NodeData> {
        self.data@
    }

    pub closed spec fn vectors(&self) -> Seq<Seq<i32>> {
        vec_views(self.embeddings@)
    }

    /// The dimension of the stored vectors; that of the first document
    /// once one is stored.
    pub open spec fn dim(&self) -> int {
        if self.vectors().len() > 0 {
            self.vectors()[0].len() as int
        } else {
            0
        }
    }

    /// Chunks and vectors pair up one for one, all vectors share one
    /// dimension, sibling entries name stored chunks, and each document's
    /// chunks stand together.
    pub open spec fn wf(&self) -> bool {
        &&& self.chunks().len() == self.vectors().len()
        &&& self.chunks().len() <= usize::MAX
        &&& uniform_dim(self.vectors(), self.dim())
        &&& siblings_in_range(models(self.chunks()))
        &&& positions_contiguous(self.chunks())
    }

    proof fn lemma_appended_wf(
        &self,
        old_chunks: Seq<NodeData>,
        old_vectors: Seq<Seq<i32>>,
        added: Seq<crate::chunk::ChunkModel>,
        added_vectors: Seq<Seq<i32>>,
        p: Seq<char>,
    )
        requires
            old_chunks.len() == old_vectors.len(),
            uniform_dim(old_vectors, if old_vectors.len() > 0 { old_vectors[0].len() as int } else { 0 }),
            siblings_in_range(models(old_chunks)),
            positions_contiguous(old_chunks),
            !has_position(old_chunks, p),
            added.len() == added_vectors.len(),
            added.len() > 0,
            siblings_in_range(added),
            uniform_dim(
                added_vectors,
                if old_chunks.len() > 0 { old_vectors[0].len() as int } else { added_vectors[0].len() as int },
            ),
            self.vectors() == old_vectors + added_vectors,
            self.chunks().len() == old_chunks.len() + added.len(),
            self.chunks().len() <= usize::MAX,
            self.chunks().subrange(0, old_chunks.len() as int) == old_chunks,
            forall|k: int|
                0 <= k < added.len() ==> {
                    let c = #[trigger] self.chunks()[old_chunks.len() + k];
                    &&& int_seq(c.siblings@) == rebase_seq(added[k].siblings, old_chunks.len() as int)
                    &&& c.position@ == p
                },
        ensures
            self.wf(),
    {
        let base = old_chunks.len() as int;
        let c = self.chunks();
        assert forall|i: int| 0 <= i < base implies #[trigger] c[i] == old_chunks[i] by {
            assert(c.subrange(0, base)[i] == c[i]);
        }
        assert(self.dim() == if base > 0 { old_vectors[0].len() as int } else { added_vectors[0].len() as int });
        assert forall|i: int| 0 <= i < self.vectors().len() implies (#[trigger] self.vectors()[i]).len()
            == self.dim() by {
            if i >= base {
                assert(self.vectors()[i] == added_vectors[i - base]);
            }
        }
        assert forall|i: int, j: int|
            0 <= i < models(c).len() && 0 <= j < models(c)[i].siblings.len() implies {
            let v = #[trigger] models(c)[i].siblings[j];
            v == NO_SIBLING as int || (0 <= v < models(c).len())
        } by {
            assert(models(c).len() == c.len());
            if i < base {
                assert(models(c)[i] == models(old_chunks)[i]);
                let v = models(old_chunks)[i].siblings[j];
                assert(v == NO_SIBLING as int || 0 <= v < old_chunks.len());
            } else {
                let k = i - base;
                let t = self.chunks()[old_chunks.len() + k];
                assert(t == c[i]);
                assert(models(c)[i].siblings == rebase_seq(added[k].siblings, base));
                assert(models(c)[i].siblings[j] == rebase_seq(added[k].siblings, base)[j]);
                let w = added[k].siblings[j];
                assert(w == NO_SIBLING as int || 0 <= w < added.len());
            }
        }
        assert forall|i: int, j: int, k: int|
            0 <= i < j < k < c.len() && (#[trigger] c[i]).position@ == (#[trigger] c[k]).position@ implies (
            #[trigger] c[j]).position@ == c[i].position@ by {
            if k < base {
            } else if i >= base {
                let ti = self.chunks()[old_chunks.len() + (i - base)];
                let tj = self.chunks()[old_chunks.len() + (j - base)];
                assert(c[i].position@ == p);
                assert(c[j].position@ == p);
            } else {
                let tk = self.chunks()[old_chunks.len() + (k - base)];
                assert(c[k].position@ == p);
                assert(has_position(old_chunks, p));
            }
        }
    }

    /// The squared distance of each stored vector to `q`.
    pub open spec fn distances(&self, q: Seq<i32>) -> Seq<int> {
        Seq::new(self.vectors().len(), |i: int| sq_dist(self.vectors()[i], q))
    }

    /// `r` lists the `min(k, n)` stored entries nearest to `q`, nearest
    /// first, equal distances in index order.
    pub open spec fn is_top_k(&self, q: Seq<i32>, k: int, r: Seq<usize>) -> bool {
        let n = self.chunks().len() as int;
        let d = self.distances(q);
        &&& r.len() == min_len(k, n)
        &&& forall|i: int| 0 <= i < r.len() ==> (#[trigger] r[i]) < n
        &&& forall|i: int, j: int| 0 <= i < j < r.len() ==> ranks_before(d, #[trigger] r[i] as int, #[trigger] r[j] as int)
        &&& forall|x: int, i: int|
            #![trigger r[i], r.contains(x as usize)] 0 <= x < n && !r.contains(x as usize) && 0 <= i < r.len() ==> ranks_before(d, r[i] as int, x)
    }

    /// The indices of the `k` stored entries nearest to `query`.
    pub fn top_k(&self, query: &Vec<i32>, k: usize) -> (r: Result<Vec<usize>, IndexError>)
        requires
            self.wf(),
        ensures
            r is Err <==> self.chunks().len() > 0 && query@.len() != self.dim(),
            r is Err ==> r == Err::<Vec<usize>, IndexError>(IndexError::DimensionMismatch),
            r is Ok ==> self.is_top_k(query@, k as int, r->Ok_0@),
    {
        let n = self.data.len();
        if n > 0 && query.len() != self.embeddings[0].len() {
            return Err(IndexError::DimensionMismatch);
        }
        let ghost d = self.distances(query@);
        let mut dist: Vec<u128> = Vec::new();
        let mut i: usize = 0;
        while i < n
            invariant
                self.wf(),
                n == self.chunks().len(),
                n > 0 ==> query@.len() == self.dim(),
                d == self.distances(query@),
                i <= n,
                dist@.len() == i,
                forall|k: int| 0 <= k < i ==> dist@[k] as int == #[trigger] d[k],
            decreases n - i,
        {
            assert(self.vectors()[i as int] == self.embeddings@[i as int]@);
            dist.push(distance(&self.embeddings[i], query));
            i = i + 1;
        }
        let want = if k < n { k } else { n };
        let mut r: Vec<usize> = Vec::new();
        while r.len() < want
            invariant
                n == self.chunks().len(),
                n == d.len(),
                dist@.len() == n,
                forall|k: int| 0 <= k < n ==> dist@[k] as int == #[trigger] d[k],
                want == min_len(k as int, n as int),
                r@.len() <= want,
                forall|i: int| 0 <= i < r@.len() ==> (#[trigger] r@[i]) < n,
                forall|i: int, j: int| 0 <= i < j < r@.len() ==> ranks_before(d, #[trigger] r@[i] as int, #[trigger] r@[j] as int),
                forall|x: int, i: int|
                    #![trigger r@[i], r@.contains(x as usize)] 0 <= x < n && !r@.contains(x as usize) && 0 <= i < r@.len() ==> ranks_before(d, r@[i] as int, x),
            decreases want - r@.len(),
        {
            proof {
                lemma_missing_index(r@, n as int);
            }
            let ghost missing = choose|x: int| 0 <= x < n && !#[trigger] r@.contains(x as usize);
            let has_last = r.len() > 0;
            let last: usize = if has_last { r[r.len() - 1] } else { 0 };
            proof {
                if has_last {
                    assert(r@[r@.len() - 1] < n);
                }
            }
            let mut best: usize = n;
            let mut x: usize = 0;
            while x < n
                invariant
                    n == d.len(),
                    dist@.len() == n,
                    forall|k: int| 0 <= k < n ==> dist@[k] as int == #[trigger] d[k],
                    x <= n,
                    has_last ==> last < n,
                    best == n || (best < x && (!has_last || ranks_before(d, last as int, best as int))),
                    forall|y: int|
                        0 <= y < x && #[trigger] follows(d, has_last, last as int, y) ==> best < n && (best == y
                            || ranks_before(d, best as int, y)),
                decreases n - x,
            {
                proof {
                    assert(dist@[x as int] as int == d[x as int]);
                    if has_last {
                        assert(dist@[last as int] as int == d[last as int]);
                    }
                    if best < n {
                        assert(dist@[best as int] as int == d[best as int]);
                    }
                }
                let candidate = !has_last || dist[last] < dist[x] || (dist[last] == dist[x] && last < x);
                let ghost old_best = best;
                if candidate && (best == n || dist[x] < dist[best]) {
                    best = x;
                }
                proof {
                    assert(candidate == (!has_last || ranks_before(d, last as int, x as int)));
                    assert forall|y: int|
                        0 <= y < x + 1 && #[trigger] follows(d, has_last, last as int, y) implies best < n && (best == y
                            || ranks_before(d, best as int, y)) by {
                        if y < x {
                            assert(old_best < n && (old_best == y || ranks_before(d, old_best as int, y)));
                        }
                    }
                }
                x = x + 1;
            }
            proof {
                if has_last {
                    let m = r@.len() - 1;
                    assert(r@[m] == last);
                    assert(ranks_before(d, last as int, missing));
                }
                assert(0 <= missing < n);
                assert(!has_last || ranks_before(d, last as int, missing));
                assert(follows(d, has_last, last as int, missing));
                assert(best < n && (best == missing || ranks_before(d, best as int, missing)));
            }
            let ghost prev = r@;
            r.push(best);
            proof {
                assert(!prev.contains(best)) by {
                    if prev.contains(best) {
                        let w = choose|w: int| 0 <= w < prev.len() && prev[w] == best;
                        if w < prev.len() - 1 {
                            assert(ranks_before(d, prev[w] as int, prev[prev.len() - 1] as int));
                        }
                    }
                }
                assert forall|i: int, j: int| 0 <= i < j < r@.len() implies ranks_before(d, #[trigger] r@[i] as int, #[trigger] r@[j] as int) by {
                    if j == r@.len() - 1 {
                        assert(r@[i] == prev[i]);
                    } else {
                        assert(r@[i] == prev[i]);
                        assert(r@[j] == prev[j]);
                    }
                }
                assert forall|y: int, i: int|
                    #![trigger r@[i], r@.contains(y as usize)] 0 <= y < n && !r@.contains(y as usize) && 0 <= i < r@.len() implies ranks_before(d, r@[i] as int, y) by {
                    assert(!prev.contains(y as usize)) by {
                        if prev.contains(y as usize) {
                            let w = choose|w: int| 0 <= w < prev.len() && prev[w] == y as usize;
                            assert(r@[w] == y as usize);
                        }
                    }
                    assert(r@[prev.len() as int] == best);
                    assert(y != best);
                    if i < prev.len() {
                        assert(r@[i] == prev[i]);
                    } else {
                        if has_last {
                            assert(prev[prev.len() - 1] == last);
                            assert(ranks_before(d, prev[prev.len() - 1] as int, y));
                        }
                        assert(follows(d, has_last, last as int, y));
                    }
                }
            }
        }
        Ok(r)
    }

    /// The five chunks nearest to `query`, nearest first.
    pub fn semantic_search(&self, query: &Vec<i32>) -> (r: Result<Vec<&NodeData>, IndexError>)
        requires
            self.wf(),
        ensures
            r is Err <==> self.chunks().len() > 0 && query@.len() != self.dim(),
            r is Err ==> r == Err::<Vec<&NodeData>, IndexError>(IndexError::DimensionMismatch),
            r is Ok ==> exists|ids: Seq<usize>|
                {
                    &&& #[trigger] self.is_top_k(query@, 5, ids)
                    &&& r->Ok_0@.len() == ids.len()
                    &&& forall|i: int| 0 <= i < ids.len() ==> *(#[trigger] r->Ok_0@[i]) == self.chunks()[ids[i] as int]
                },
    {
        let ids = match self.top_k(query, 5) {
            Ok(ids) => ids,
            Err(e) => {
                return Err(e);
            },
        };
        let mut out: Vec<&NodeData> = Vec::new();
        let mut i: usize = 0;
        while i < ids.len()
            invariant
                self.wf(),
                self.is_top_k(query@, 5, ids@),
                i <= ids@.len(),
                out@.len() == i,
                forall|k: int| 0 <= k < i ==> *(#[trigger] out@[k]) == self.chunks()[ids@[k] as int],
            decreases ids@.len() - i,
        {
            out.push(&self.data[ids[i]]);
            i = i + 1;
        }
        Ok(out)
    }

    /// The vector file of each document, with the document's position:
    /// one file per document, holding its vectors in index order.
    pub fn vector_files(&self) -> (r: Vec<(String, Vec<i32>)>)
        requires
            self.wf(),
            self.dim() <= i32::MAX,
            self.chunks().len() <= i32::MAX,
        ensures
            r@.len() == groups_of(self.chunks(), self.vectors(), self.chunks().len() as int).len(),
            forall|k: int|
                0 <= k < r@.len() ==> {
                    &&& (#[trigger] r@[k]).0@ == group_names(self.chunks(), self.chunks().len() as int)[k]
                    &&& r@[k].1@ == frame(
                        groups_of(self.chunks(), self.vectors(), self.chunks().len() as int)[k],
                        self.dim(),
                    )
                },
    {
        let (groups, names) = group_vectors(&self.data, &self.embeddings);
        let d: usize = if self.embeddings.len() > 0 { self.embeddings[0].len() } else { 0 };
        let ghost n = self.chunks().len() as int;
        let ghost g = groups_of(self.chunks(), self.vectors(), n);
        proof {
            lemma_groups_uniform(self.chunks(), self.vectors(), n, self.dim());
            lemma_groups_flatten(self.chunks(), self.vectors(), n);
        }
        let mut r: Vec<(String, Vec<i32>)> = Vec::new();
        let mut k: usize = 0;
        while k < groups.len()
            invariant
                group_views(groups@) == g,
                string_views(names@) == group_names(self.chunks(), n),
                g.len() == group_names(self.chunks(), n).len(),
                d == self.dim(),
                d <= i32::MAX,
                n <= i32::MAX,
                forall|t: int| 0 <= t < g.len() ==> uniform_dim(#[trigger] g[t], self.dim()),
                forall|t: int| 0 <= t < g.len() ==> (#[trigger] g[t]).len() <= n,
                k <= groups@.len(),
                r@.len() == k,
                forall|t: int|
                    0 <= t < k ==> {
                        &&& (#[trigger] r@[t]).0@ == group_names(self.chunks(), n)[t]
                        &&& r@[t].1@ == frame(g[t], self.dim())
                    },
            decreases groups@.len() - k,
        {
            assert(group_views(groups@)[k as int] == vec_views(groups@[k as int]@));
            assert(string_views(names@)[k as int] == names@[k as int]@);
            let words = encode_vectors(&groups[k], d);
            r.push((names[k].clone(), words));
            k = k + 1;
        }
        r
    }

    /// Rebuilds an index from its manifest `data` and its documents'
    /// vector files, in document order.
    pub fn load(data: Vec<NodeData>, files: &Vec<Vec<i32>>) -> (r: Result<VectorDB, IndexError>)
        ensures
            r matches Ok(db) ==> db.wf() && db.chunks() == data@ && loadable(data@, vec_views(files@), db.vectors()),
            (exists|vs: Seq<Seq<i32>>| #[trigger] loadable(data@, vec_views(files@), vs)) ==> r is Ok,
            r is Err ==> r == Err::<VectorDB, IndexError>(IndexError::PersistenceFormat),
    {
        let n = data.len();
        let mut decoded: Vec<Vec<Vec<i32>>> = Vec::new();
        let mut k: usize = 0;
        while k < files.len()
            invariant
                k <= files@.len(),
                decoded@.len() == k,
                forall|t: int| 0 <= t < k ==> decodes_to(#[trigger] files@[t]@, group_views(decoded@)[t]),
            decreases files@.len() - k,
        {
            match decode_vectors(&files[k]) {
                Ok(vs) => {
                    decoded.push(vs);
                },
                Err(_) => {
                    proof {
                        assert forall|vs: Seq<Seq<i32>>| !loadable(data@, vec_views(files@), vs) by {
                            if loadable(data@, vec_views(files@), vs) {
                                let g = groups_of(data@, vs, data@.len() as int);
                                assert(decodes_to(vec_views(files@)[k as int], g[k as int]));
                            }
                        }
                    }
                    return Err(IndexError::PersistenceFormat);
                },
            }
            k = k + 1;
        }
        let ghost G = group_views(decoded@);
        let mut flat: Vec<Vec<i32>> = Vec::new();
        let mut k: usize = 0;
        while k < decoded.len()
            invariant
                G == group_views(decoded@),
                k <= decoded@.len(),
                vec_views(flat@) == G.take(k as int).flatten_alt(),
            decreases decoded@.len() - k,
        {
            let grp = &decoded[k];
            let ghost before = vec_views(flat@);
            let mut j: usize = 0;
            while j < grp.len()
                invariant
                    j <= grp@.len(),
                    vec_views(flat@) == before + vec_views(grp@).take(j as int),
                decreases grp@.len() - j,
            {
                let v = copy_vector(&grp[j]);
                let ghost prev = vec_views(flat@);
                flat.push(v);
                proof {
                    assert(vec_views(flat@) =~= prev.push(grp@[j as int]@));
                    assert(vec_views(grp@).take(j + 1) =~= vec_views(grp@).take(j as int).push(grp@[j as int]@));
                }
                j = j + 1;
                assert(vec_views(flat@) =~= before + vec_views(grp@).take(j as int));
            }
            proof {
                assert(G.take(k + 1).drop_last() =~= G.take(k as int));
                assert(vec_views(grp@).take(j as int) =~= G[k as int]);
            }
            k = k + 1;
        }
        assert(G.take(k as int) =~= G);
        proof {
            assert forall|vs: Seq<Seq<i32>>| #[trigger] loadable(data@, vec_views(files@), vs) implies vs == vec_views(
                flat@,
            ) && G == groups_of(data@, vs, data@.len() as int) by {
                lemma_loadable_decoded(data@, vec_views(files@), vs, G);
            }
        }
        if flat.len() != n {
            return Err(IndexError::PersistenceFormat);
        }
        let (regrouped, _names) = group_vectors(&data, &flat);
        if !same_groups(&regrouped, &decoded) {
            return Err(IndexError::PersistenceFormat);
        }
        let d: usize = if n > 0 { flat[0].len() } else { 0 };
        let mut i: usize = 0;
        while i < n
            invariant
                n == flat@.len(),
                i <= n,
                n > 0 ==> d == flat@[0]@.len(),
                forall|vs: Seq<Seq<i32>>| #[trigger] loadable(data@, vec_views(files@), vs) ==> vs == vec_views(flat@),
                uniform_dim(vec_views(flat@).take(i as int), d as int),
            decreases n - i,
        {
            if flat[i].len() != d {
                proof {
                    assert forall|vs: Seq<Seq<i32>>| !loadable(data@, vec_views(files@), vs) by {
                        if loadable(data@, vec_views(files@), vs) {
                            assert(vs == vec_views(flat@));
                            assert(vs[0].len() == d);
                            assert(vec_views(flat@)[i as int] == vs[i as int]);
                        }
                    }
                }
                return Err(IndexError::PersistenceFormat);
            }
            i = i + 1;
            assert forall|t: int| 0 <= t < i implies (#[trigger] vec_views(flat@).take(i as int)[t]).len() == d by {
                assert(vec_views(flat@).take(i as int)[t] == vec_views(flat@)[t]);
            }
        }
        assert(vec_views(flat@).take(i as int) =~= vec_views(flat@));
        if !siblings_ok(&data) {
            return Err(IndexError::PersistenceFormat);
        }
        if !contiguous_ok(&data) {
            return Err(IndexError::PersistenceFormat);
        }
        let db = VectorDB { embeddings: flat, data };
        proof {
            lemma_groups_flatten(data@, vec_views(flat@), n as int);
            assert(vec_views(flat@).take(n as int) =~= vec_views(flat@));
        }
        Ok(db)
    }

    /// An index that holds nothing.
    pub fn new() -> (r: VectorDB)
        ensures
            r.wf(),
            r.chunks().len() == 0,
    {
        let r = VectorDB { embeddings: Vec::new(), data: Vec::new() };
        assert(r.vectors() =~= Seq::<Seq<i32>>::empty());
        r
    }

    pub fn len(&self) -> (r: usize)
        requires
            self.wf(),
        ensures
            r == self.chunks().len(),
    {
        self.data.len()
    }

    pub fn chunk(&self, i: usize) -> (r: &NodeData)
        requires
            i < self.chunks().len(),
        ensures
            *r == self.chunks()[i as int],
    {
        &self.data[i]
    }

    pub fn embedding(&self, i: usize) -> (r: &Vec<i32>)
        requires
            self.wf(),
            i < self.chunks().len(),
        ensures
            r@ == self.vectors()[i as int],
    {
        &self.embeddings[i]
    }

    /// Appends one document: its chunks, the vectors computed from their
    /// texts in the same order, and its identifier. Sibling entries are
    /// rebased by the number of chunks already stored.
    #[verifier::loop_isolation(false)]
    pub fn add_document(&mut self, chunks: Vec<NodeData>, vectors: Vec<Vec<i32>>, position: String) -> (r: Result<
        (),
        IndexError,
    >)
        requires
            old(self).wf(),
            old(self).chunks().len() + chunks@.len() <= isize::MAX,
        ensures
            final(self).wf(),
            r == Err::<(), IndexError>(IndexError::EmbeddingCount) <==> chunks@.len() != vectors@.len(),
            r == Err::<(), IndexError>(IndexError::DimensionMismatch) <==> {
                &&& chunks@.len() == vectors@.len()
                &&& chunks@.len() > 0
                &&& !uniform_dim(
                    vec_views(vectors@),
                    if old(self).chunks().len() > 0 { old(self).dim() } else { vectors@[0]@.len() as int },
                )
            },
            r == Err::<(), IndexError>(IndexError::InvalidSibling) <==> {
                &&& chunks@.len() == vectors@.len()
                &&& chunks@.len() > 0
                &&& uniform_dim(
                    vec_views(vectors@),
                    if old(self).chunks().len() > 0 { old(self).dim() } else { vectors@[0]@.len() as int },
                )
                &&& !siblings_in_range(models(chunks@))
            },
            r == Err::<(), IndexError>(IndexError::DuplicatePosition) <==> {
                &&& chunks@.len() == vectors@.len()
                &&& chunks@.len() > 0
                &&& uniform_dim(
                    vec_views(vectors@),
                    if old(self).chunks().len() > 0 { old(self).dim() } else { vectors@[0]@.len() as int },
                )
                &&& siblings_in_range(models(chunks@))
                &&& has_position(old(self).chunks(), position@)
            },
            r is Ok && texts_kept(models(old(self).chunks())) && texts_kept(models(chunks@)) ==> texts_kept(
                models(final(self).chunks()),
            ),
            r is Err ==> r == Err::<(), IndexError>(IndexError::EmbeddingCount) || r == Err::<(), IndexError>(
                IndexError::DimensionMismatch,
            ) || r == Err::<(), IndexError>(IndexError::InvalidSibling) || r == Err::<(), IndexError>(
                IndexError::DuplicatePosition,
            ),
            r is Err ==> final(self).chunks() == old(self).chunks() && final(self).vectors()
                == old(self).vectors(),
            r is Ok ==> {
                let base = old(self).chunks().len() as int;
                &&& final(self).chunks().len() == base + chunks@.len()
                &&& final(self).vectors() == old(self).vectors() + vec_views(vectors@)
                &&& final(self).chunks().subrange(0, base) == old(self).chunks()
                &&& forall|i: int|
                    0 <= i < chunks@.len() ==> {
                        let c = #[trigger] final(self).chunks()[base + i];
                        &&& c.text@ == chunks@[i].text@
                        &&& int_seq(c.siblings@) == rebase_seq(int_seq(chunks@[i].siblings@), base)
                        &&& c.position@ == position@
                    }
            },
    {
        if chunks.len() != vectors.len() {
            return Err(IndexError::EmbeddingCount);
        }
        if chunks.len() == 0 {
            return Ok(());
        }
        let d = if self.embeddings.len() > 0 { self.embeddings[0].len() } else { vectors[0].len() };
        let mut i: usize = 0;
        while i < vectors.len()
            invariant
                i <= vectors@.len(),
                uniform_dim(vec_views(vectors@).subrange(0, i as int), d as int),
            decreases vectors@.len() - i,
        {
            if vectors[i].len() != d {
                assert(vec_views(vectors@)[i as int].len() != d);
                return Err(IndexError::DimensionMismatch);
            }
            i = i + 1;
            assert forall|k: int| 0 <= k < i implies (#[trigger] vec_views(vectors@).subrange(0, i as int)[k]).len()
                == d by {
                if k < i - 1 {
                    assert(vec_views(vectors@).subrange(0, i - 1)[k] == vec_views(vectors@).subrange(
                        0,
                        i as int,
                    )[k]);
                }
            }
        }
        assert(vec_views(vectors@).subrange(0, i as int) =~= vec_views(vectors@));
        let n = chunks.len();
        let mut i: usize = 0;
        while i < n
            invariant
                n == chunks@.len(),
                i <= n,
                forall|a: int, b: int|
                    0 <= a < i && 0 <= b < chunks@[a].siblings@.len() ==> {
                        let v = #[trigger] chunks@[a].siblings@[b];
                        v == NO_SIBLING || (0 <= v < n)
                    },
            decreases n - i,
        {
            let s = &chunks[i].siblings;
            let mut j: usize = 0;
            while j < s.len()
                invariant
                    n == chunks@.len(),
                    i < n,
                    *s == chunks@[i as int].siblings,
                    j <= s@.len(),
                    forall|a: int, b: int|
                        0 <= a < i && 0 <= b < chunks@[a].siblings@.len() ==> {
                            let v = #[trigger] chunks@[a].siblings@[b];
                            v == NO_SIBLING || (0 <= v < n)
                        },
                    forall|b: int|
                        0 <= b < j ==> {
                            let v = #[trigger] chunks@[i as int].siblings@[b];
                            v == NO_SIBLING || (0 <= v < n)
                        },
                decreases s@.len() - j,
            {
                let v = s[j];
                if !(v == NO_SIBLING || (0 <= v && (v as usize) < n)) {
                    proof {
                        assert(models(chunks@)[i as int].siblings[j as int] == v as int);
                    }
                    return Err(IndexError::InvalidSibling);
                }
                j = j + 1;
            }
            i = i + 1;
        }
        assert(siblings_in_range(models(chunks@))) by {
            assert forall|a: int, b: int|
                0 <= a < models(chunks@).len() && 0 <= b < models(chunks@)[a].siblings.len() implies {
                let v = #[trigger] models(chunks@)[a].siblings[b];
                v == NO_SIBLING as int || (0 <= v < models(chunks@).len())
            } by {
                assert(models(chunks@)[a].siblings[b] == chunks@[a].siblings@[b] as int);
            }
        }
        let mut i: usize = 0;
        while i < self.data.len()
            invariant
                i <= self.data@.len(),
                forall|k: int| 0 <= k < i ==> (#[trigger] self.data@[k]).position@ != position@,
            decreases self.data@.len() - i,
        {
            if self.data[i].position == position {
                return Err(IndexError::DuplicatePosition);
            }
            i = i + 1;
        }
        let base = self.data.len();
        let ghost old_chunks = self.data@;
        let ghost old_vectors = vec_views(self.embeddings@);
        let mut i: usize = 0;
        while i < n
            invariant
                n == chunks@.len(),
                i <= n,
                base == old_chunks.len(),
                base + n <= isize::MAX,
                siblings_in_range(models(chunks@)),
                self.data@.len() == base + i,
                self.data@.subrange(0, base as int) == old_chunks,
                vec_views(self.embeddings@) == old_vectors,
                forall|k: int|
                    0 <= k < i ==> {
                        let c = #[trigger] self.data@[base + k];
                        &&& c.text@ == chunks@[k].text@
                        &&& int_seq(c.siblings@) == rebase_seq(int_seq(chunks@[k].siblings@), base as int)
                        &&& c.position@ == position@
                    },
            decreases n - i,
        {
            let c = &chunks[i];
            proof {
                assert forall|k: int| 0 <= k < c.siblings@.len() implies #[trigger] c.siblings@[k] + base
                    <= isize::MAX by {
                    assert(models(chunks@)[i as int].siblings[k] == c.siblings@[k] as int);
                }
            }
            let node = NodeData {
                text: c.text.clone(),
                siblings: rebase(&c.siblings, base as isize),
                position: position.clone(),
            };
            let ghost prev = self.data@;
            self.data.push(node);
            proof {
                assert(self.data@.subrange(0, base as int) =~= prev.subrange(0, base as int));
                assert forall|k: int| 0 <= k < i + 1 implies {
                    let c = #[trigger] self.data@[base + k];
                    &&& c.text@ == chunks@[k].text@
                    &&& int_seq(c.siblings@) == rebase_seq(int_seq(chunks@[k].siblings@), base as int)
                    &&& c.position@ == position@
                } by {
                    if k < i {
                        assert(self.data@[base + k] == prev[base + k]);
                    }
                }
            }
            i = i + 1;
        }
        let ghost added_vectors = vec_views(vectors@);
        let mut vectors = vectors;
        self.embeddings.append(&mut vectors);
        proof {
            assert(vec_views(self.embeddings@) =~= old_vectors + added_vectors);
            self.lemma_appended_wf(old_chunks, old_vectors, models(chunks@), added_vectors, position@);
            if texts_kept(models(old_chunks)) && texts_kept(models(chunks@)) {
                let c = self.data@;
                assert forall|k: int| 0 <= k < models(c).len() implies crate::chunk::keep_paragraph(
                    #[trigger] models(c)[k].text,
                ) by {
                    if k < base {
                        assert(c[k] == self.data@.subrange(0, base as int)[k]);
                        assert(models(old_chunks)[k].text == c[k].text@);
                    } else {
                        let t = c[base + (k - base)];
                        assert(models(chunks@)[k - base].text == chunks@[k - base].text@);
                    }
                }
            }
        }
        Ok(())
    }
}

/// Search results come nearest first, and a query equal to a stored
/// vector is answered first by an entry at distance zero: that entry, or
/// an earlier one at the same distance.
pub proof fn lemma_search_order(db: &VectorDB, q: Seq<i32>, k: int, r: Seq<usize>, e: int)
    requires
        db.wf(),
        db.is_top_k(q, k, r),
    ensures
        r.len() == min_len(k, db.chunks().len() as int),
        forall|i: int, j: int| 0 <= i < j < r.len() ==> db.distances(q)[#[trigger] r[i] as int] <= db.distances(q)[#[trigger] r[j] as int],
        0 <= e < db.chunks().len() && db.vectors()[e] == q && k > 0 ==> db.distances(q)[r[0] as int] == 0 && r[0] <= e,
{
    let d = db.distances(q);
    if 0 <= e < db.chunks().len() && db.vectors()[e] == q && k > 0 {
        lemma_sq_dist_self(q);
        assert(d[e] == 0);
        lemma_sq_dist_nonneg(db.vectors()[r[0] as int], q);
        assert(d[r[0] as int] >= 0);
        if r[0] != e as usize {
            if r.contains(e as usize) {
                let w = choose|w: int| 0 <= w < r.len() && r[w] == e as usize;
                assert(ranks_before(d, r[0] as int, r[w] as int));
            } else {
                assert(ranks_before(d, r[0] as int, e));
            }
        }
    }
}

} // verus!
