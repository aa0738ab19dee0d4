use vstd::prelude::*;
use crate::index::{IndexError, uniform_dim, vec_views};

verus! {

/// The words of one document's vector file: the number of vectors, their
/// dimension, then every vector's entries in order.
pub open spec fn frame(vs: Seq<Seq<i32>>, d: int) -> Seq<i32> {
    seq![vs.len() as i32, d as i32] + vs.flatten_alt()
}

/// `vs` is what the vector file `w` holds.
pub open spec fn decodes_to(w: Seq<i32>, vs: Seq<Seq<i32>>) -> bool {
    &&& w.len() >= 2
    &&& w[0] >= 0
    &&& w[1] >= 0
    &&& w.len() == 2 + w[0] * w[1]
    &&& vs.len() == w[0]
    &&& forall|i: int|
        0 <= i < vs.len() ==> #[trigger] vs[i] == w.subrange(2 + i * w[1], 2 + i * w[1] + w[1])
}

/// A vector file is well formed: a non-negative count and dimension, and
/// exactly as many entries as they call for.
pub open spec fn well_formed(w: Seq<i32>) -> bool {
    &&& w.len() >= 2
    &&& w[0] >= 0
    &&& w[1] >= 0
    &&& w.len() == 2 + w[0] * w[1]
}

proof fn lemma_flatten_layout(vs: Seq<Seq<i32>>, d: int)
    requires
        d >= 0,
        uniform_dim(vs, d),
    ensures
        vs.flatten_alt().len() == vs.len() * d,
        forall|i: int| 0 <= i < vs.len() ==> #[trigger] vs[i] == vs.flatten_alt().subrange(i * d, i * d + d),
    decreases vs.len(),
{
    if vs.len() > 0 {
        let n = vs.len() - 1;
        let p = vs.drop_last();
        lemma_flatten_layout(p, d);
        assert(vs.flatten_alt() == p.flatten_alt() + vs.last());
        assert(n * d + d == vs.len() * d) by (nonlinear_arith)
            requires
                n == vs.len() - 1,
        ;
        assert forall|i: int| 0 <= i < vs.len() implies #[trigger] vs[i] == vs.flatten_alt().subrange(i * d, i * d + d) by {
            if i < n {
                assert(i * d + d <= n * d) by (nonlinear_arith)
                    requires
                        i < n,
                        d >= 0,
                ;
                assert(0 <= i * d) by (nonlinear_arith)
                    requires
                        0 <= i,
                        d >= 0,
                ;
                assert(p[i] == vs[i]);
                assert(vs.flatten_alt().subrange(i * d, i * d + d) =~= p.flatten_alt().subrange(i * d, i * d + d));
            } else {
                assert(vs.flatten_alt().subrange(i * d, i * d + d) =~= vs.last());
            }
        }
    }
}

/// Decoding undoes encoding: the vector file of vectors of one dimension
/// holds those vectors.
pub proof fn lemma_frame_round_trip(vs: Seq<Seq<i32>>, d: int)
    requires
        0 <= d <= i32::MAX,
        vs.len() <= i32::MAX,
        uniform_dim(vs, d),
    ensures
        decodes_to(frame(vs, d), vs),
{
    lemma_flatten_layout(vs, d);
    let w = frame(vs, d);
    assert(w[0] == vs.len() && w[1] == d);
    assert forall|i: int| 0 <= i < vs.len() implies #[trigger] vs[i] == w.subrange(2 + i * d, 2 + i * d + d) by {
        assert(0 <= i * d && i * d + d <= vs.len() * d) by (nonlinear_arith)
            requires
                0 <= i < vs.len(),
                d >= 0,
        ;
        assert(w.subrange(2 + i * d, 2 + i * d + d) =~= vs.flatten_alt().subrange(i * d, i * d + d));
    }
}

/// A vector file holds one sequence of vectors at most.
pub proof fn lemma_decode_unique(w: Seq<i32>, a: Seq<Seq<i32>>, b: Seq<Seq<i32>>)
    requires
        decodes_to(w, a),
        decodes_to(w, b),
    ensures
        a == b,
{
    assert(a =~= b);
}

/// The vector file of `vs`, vectors of dimension `d`.
pub fn encode_vectors(vs: &Vec<Vec<i32>>, d: usize) -> (r: Vec<i32>)
    requires
        d <= i32::MAX,
        vs@.len() <= i32::MAX,
        uniform_dim(vec_views(vs@), d as int),
    ensures
        r@ == frame(vec_views(vs@), d as int),
{
    let mut r: Vec<i32> = Vec::new();
    r.push(vs.len() as i32);
    r.push(d as i32);
    let mut i: usize = 0;
    while i < vs.len()
        invariant
            i <= vs@.len(),
            d <= i32::MAX,
            vs@.len() <= i32::MAX,
            r@ == seq![vs@.len() as i32, d as i32] + vec_views(vs@).subrange(0, i as int).flatten_alt(),
        decreases vs@.len() - i,
    {
        let v = &vs[i];
        let ghost before = r@;
        let mut j: usize = 0;
        while j < v.len()
            invariant
                j <= v@.len(),
                r@ == before + v@.subrange(0, j as int),
            decreases v@.len() - j,
        {
            r.push(v[j]);
            j = j + 1;
            assert(r@ =~= before + v@.subrange(0, j as int));
        }
        proof {
            let p = vec_views(vs@).subrange(0, i + 1);
            assert(p.drop_last() =~= vec_views(vs@).subrange(0, i as int));
            assert(p.last() == v@);
            assert(v@.subrange(0, j as int) =~= v@);
        }
        i = i + 1;
    }
    assert(vec_views(vs@).subrange(0, i as int) =~= vec_views(vs@));
    r
}

/// The vectors that the vector file `w` holds.
pub fn decode_vectors(w: &Vec<i32>) -> (r: Result<Vec<Vec<i32>>, IndexError>)
    ensures
        r is Ok <==> well_formed(w@),
        r is Err ==> r == Err::<Vec<Vec<i32>>, IndexError>(IndexError::PersistenceFormat),
        r matches Ok(vs) ==> decodes_to(w@, vec_views(vs@)),
{
    if w.len() < 2 || w[0] < 0 || w[1] < 0 {
        return Err(IndexError::PersistenceFormat);
    }
    let c = w[0] as u64;
    let d = w[1] as u64;
    assert(c * d <= 0x4000_0000_0000_0000u64) by (nonlinear_arith)
        requires
            c <= 0x8000_0000u64,
            d <= 0x8000_0000u64,
    ;
    if w.len() as u64 != 2 + c * d {
        return Err(IndexError::PersistenceFormat);
    }
    let c = c as usize;
    let d = d as usize;
    let mut vs: Vec<Vec<i32>> = Vec::new();
    let mut i: usize = 0;
    while i < c
        invariant
            well_formed(w@),
            w@.len() <= usize::MAX,
            c == w@[0],
            d == w@[1],
            i <= c,
            vs@.len() == i,
            forall|k: int|
                0 <= k < i ==> #[trigger] vec_views(vs@)[k] == w@.subrange(2 + k * d, 2 + k * d + d),
        decreases c - i,
    {
        assert(2 + i * d + d <= w@.len()) by (nonlinear_arith)
            requires
                i < c,
                w@.len() == 2 + c * d,
        ;
        assert(0 <= i * d) by (nonlinear_arith)
            requires
                0 <= i,
                0 <= d,
        ;
        let start: usize = 2 + i * d;
        let mut v: Vec<i32> = Vec::new();
        let mut j: usize = 0;
        while j < d
            invariant
                start == 2 + i * d,
                start + d <= w@.len(),
                w@.len() <= usize::MAX,
                j <= d,
                v@ == w@.subrange(start as int, start + j),
            decreases d - j,
        {
            v.push(w[start + j]);
            j = j + 1;
            assert(v@ =~= w@.subrange(start as int, start + j));
        }
        let ghost prev = vs@;
        vs.push(v);
        i = i + 1;
        assert forall|k: int| 0 <= k < i implies #[trigger] vec_views(vs@)[k] == w@.subrange(2 + k * d, 2 + k * d + d) by {
            assert(2 + k * d + d <= w@.len() && 0 <= k * d) by (nonlinear_arith)
                requires
                    0 <= k < c,
                    d >= 0,
                    w@.len() == 2 + c * d,
            ;
            if k < i - 1 {
                assert(vs@[k] == prev[k]);
                assert(vec_views(prev)[k] == w@.subrange(2 + k * d, 2 + k * d + d));
            }
        }
    }
    Ok(vs)
}

} // verus!
