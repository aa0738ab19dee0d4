use vstd::prelude::*;
use vstd::string::StringExecFns;
use vstd::string::StrSliceExecFns;

verus! {

broadcast use vstd::std_specs::vec::axiom_vec_index_decreases;

/// The sibling entry that links to no chunk.
pub const NO_SIBLING: isize = -1;

/// One retrievable unit of text, with the indices of the chunks grouped
/// with it and the identifier of the document it came from.
pub struct NodeData {
    pub text: String,
    pub siblings: Vec<isize>,
    pub position: String,
}

/// A block of a parsed document.
pub enum MdNode {
    Root(Vec<MdNode>),
    Paragraph(Vec<MdNode>),
    Heading(Vec<MdNode>),
    Emphasis(Vec<MdNode>),
    List(Vec<MdNode>),
    Text(String),
    Other,
}

/// What the chunker says of one chunk: its text and its sibling entries.
pub struct ChunkModel {
    pub text: Seq<char>,
    pub siblings: Seq<int>,
}

pub open spec fn int_seq(s: Seq<isize>) -> Seq<int> {
    s.map_values(|v: isize| v as int)
}

pub open spec fn model_of(n: NodeData) -> ChunkModel {
    ChunkModel { text: n.text@, siblings: int_seq(n.siblings@) }
}

pub open spec fn models(s: Seq<NodeData>) -> Seq<ChunkModel> {
    s.map_values(|n: NodeData| model_of(n))
}

pub open spec fn space_count(s: Seq<char>) -> nat
    decreases s.len(),
{
    if s.len() == 0 {
        0
    } else {
        space_count(s.drop_last()) + if s.last() == ' ' { 1nat } else { 0nat }
    }
}

/// A paragraph is kept when it is non-empty, holds at least two spaces and
/// more than five characters.
pub open spec fn keep_paragraph(p: Seq<char>) -> bool {
    p.len() > 0 && space_count(p) >= 2 && p.len() > 5
}

pub open spec fn paragraphs_of(t: Seq<char>) -> Seq<Seq<char>> {
    if keep_paragraph(t) {
        seq![t]
    } else {
        Seq::empty()
    }
}

/// Shifts every entry that names a chunk by `base`; the sentinel stays.
pub open spec fn rebase_seq(s: Seq<int>, base: int) -> Seq<int> {
    s.map_values(|v: int| if v < 0 { v } else { v + base })
}

pub open spec fn rebase_chunks(l: Seq<ChunkModel>, base: int) -> Seq<ChunkModel> {
    l.map_values(|c: ChunkModel| ChunkModel { text: c.text, siblings: rebase_seq(c.siblings, base) })
}

/// The indices below `k` other than `i`, in increasing order.
pub open spec fn others_upto(i: int, k: int) -> Seq<int>
    decreases k,
{
    if k <= 0 {
        Seq::empty()
    } else if k - 1 == i {
        others_upto(i, k - 1)
    } else {
        others_upto(i, k - 1).push(k - 1)
    }
}

/// Every chunk under a heading names every other chunk under it.
pub open spec fn group_chunks(l: Seq<ChunkModel>) -> Seq<ChunkModel> {
    Seq::new(
        l.len(),
        |i: int| ChunkModel { text: l[i].text, siblings: l[i].siblings + others_upto(i, l.len() as int) },
    )
}

pub open spec fn text_chunks(t: Seq<char>) -> Seq<ChunkModel> {
    paragraphs_of(t).map_values(|p: Seq<char>| ChunkModel { text: p, siblings: seq![NO_SIBLING as int] })
}

/// The chunks of a block, in document order.
pub open spec fn chunks_of(node: MdNode) -> Seq<ChunkModel>
    decreases node, 0int,
{
    match node {
        MdNode::Root(cs) => concat_prefix(cs, cs.len() as int),
        MdNode::Paragraph(cs) => concat_prefix(cs, cs.len() as int),
        MdNode::Heading(cs) => group_chunks(concat_prefix(cs, cs.len() as int)),
        MdNode::Emphasis(cs) => concat_prefix(cs, cs.len() as int),
        MdNode::List(cs) => concat_prefix(cs, cs.len() as int),
        MdNode::Text(t) => text_chunks(t@),
        MdNode::Other => Seq::empty(),
    }
}

/// The chunks of the first `k` children, each child's entries rebased by
/// the number of chunks before it.
pub open spec fn concat_prefix(cs: Vec<MdNode>, k: int) -> Seq<ChunkModel>
    decreases cs, k,
{
    if k <= 0 || k > cs.len() {
        Seq::empty()
    } else {
        let before = concat_prefix(cs, k - 1);
        before + rebase_chunks(chunks_of(cs[k - 1]), before.len() as int)
    }
}

/// Each sibling entry is the sentinel or an index into the sequence.
pub open spec fn siblings_in_range(l: Seq<ChunkModel>) -> bool {
    forall|i: int, j: int|
        0 <= i < l.len() && 0 <= j < l[i].siblings.len() ==> {
            let v = #[trigger] l[i].siblings[j];
            v == NO_SIBLING as int || (0 <= v < l.len())
        }
}

proof fn lemma_others_upto(i: int, k: int)
    ensures
        forall|j: int| 0 <= j < others_upto(i, k).len() ==> 0 <= #[trigger] others_upto(i, k)[j] < k
            && others_upto(i, k)[j] != i,
        forall|v: int| 0 <= v < k && v != i ==> others_upto(i, k).contains(v),
    decreases k,
{
    if k > 0 {
        lemma_others_upto(i, k - 1);
        let p = others_upto(i, k - 1);
        if k - 1 == i {
            assert(others_upto(i, k) == p);
        } else {
            assert(others_upto(i, k) == p.push(k - 1));
            assert forall|j: int| 0 <= j < others_upto(i, k).len() implies 0 <= #[trigger] others_upto(i, k)[j] < k
                && others_upto(i, k)[j] != i by {
                if j < p.len() {
                    assert(others_upto(i, k)[j] == p[j]);
                }
            }
            assert forall|v: int| 0 <= v < k && v != i implies others_upto(i, k).contains(v) by {
                assert(others_upto(i, k) == p.push(k - 1));
                if v < k - 1 {
                    assert(p.contains(v));
                    let w = choose|w: int| 0 <= w < p.len() && p[w] == v;
                    assert(others_upto(i, k)[w] == v);
                } else {
                    assert(others_upto(i, k)[p.len() as int] == v);
                }
            }
        }
    }
}

proof fn lemma_rebase_in_range(l: Seq<ChunkModel>, base: int, total: int)
    requires
        siblings_in_range(l),
        base >= 0,
        base + l.len() <= total,
    ensures
        forall|i: int, j: int|
            0 <= i < l.len() && 0 <= j < l[i].siblings.len() ==> {
                let v = #[trigger] rebase_chunks(l, base)[i].siblings[j];
                v == NO_SIBLING as int || (base <= v < base + l.len())
            },
{
}

/// Chunks of a block: their sibling entries stay in range.
pub proof fn lemma_chunks_in_range(node: MdNode)
    ensures
        siblings_in_range(chunks_of(node)),
    decreases node, 0int,
{
    match node {
        MdNode::Root(cs) => lemma_prefix_in_range(cs, cs.len() as int),
        MdNode::Paragraph(cs) => lemma_prefix_in_range(cs, cs.len() as int),
        MdNode::Emphasis(cs) => lemma_prefix_in_range(cs, cs.len() as int),
        MdNode::List(cs) => lemma_prefix_in_range(cs, cs.len() as int),
        MdNode::Heading(cs) => {
            lemma_prefix_in_range(cs, cs.len() as int);
            let l = concat_prefix(cs, cs.len() as int);
            let g = group_chunks(l);
            assert forall|i: int, j: int| 0 <= i < g.len() && 0 <= j < g[i].siblings.len() implies {
                let v = #[trigger] g[i].siblings[j];
                v == NO_SIBLING as int || (0 <= v < g.len())
            } by {
                lemma_others_upto(i, l.len() as int);
                if j >= l[i].siblings.len() {
                    assert(g[i].siblings[j] == others_upto(i, l.len() as int)[j - l[i].siblings.len()]);
                }
            }
        },
        MdNode::Text(t) => {},
        MdNode::Other => {},
    }
}

proof fn lemma_prefix_in_range(cs: Vec<MdNode>, k: int)
    ensures
        siblings_in_range(concat_prefix(cs, k)),
    decreases cs, k,
{
    if 0 < k <= cs.len() {
        lemma_prefix_in_range(cs, k - 1);
        lemma_chunks_in_range(cs[k - 1]);
        let before = concat_prefix(cs, k - 1);
        let part = chunks_of(cs[k - 1]);
        let all = concat_prefix(cs, k);
        lemma_rebase_in_range(part, before.len() as int, all.len() as int);
        assert forall|i: int, j: int| 0 <= i < all.len() && 0 <= j < all[i].siblings.len() implies {
            let v = #[trigger] all[i].siblings[j];
            v == NO_SIBLING as int || (0 <= v < all.len())
        } by {
            if i >= before.len() {
                assert(all[i] == rebase_chunks(part, before.len() as int)[i - before.len()]);
            }
        }
    }
}

/// Every chunk's text qualifies as a paragraph.
pub open spec fn texts_kept(l: Seq<ChunkModel>) -> bool {
    forall|i: int| 0 <= i < l.len() ==> keep_paragraph(#[trigger] l[i].text)
}

/// Every chunk that the chunker emits is non-empty, holds at least two
/// spaces and more than five characters.
pub proof fn lemma_chunk_texts(node: MdNode)
    ensures
        texts_kept(chunks_of(node)),
    decreases node, 0int,
{
    match node {
        MdNode::Root(cs) => lemma_prefix_texts(cs, cs.len() as int),
        MdNode::Paragraph(cs) => lemma_prefix_texts(cs, cs.len() as int),
        MdNode::Emphasis(cs) => lemma_prefix_texts(cs, cs.len() as int),
        MdNode::List(cs) => lemma_prefix_texts(cs, cs.len() as int),
        MdNode::Heading(cs) => {
            lemma_prefix_texts(cs, cs.len() as int);
            let l = concat_prefix(cs, cs.len() as int);
            assert forall|i: int| 0 <= i < group_chunks(l).len() implies keep_paragraph(
                #[trigger] group_chunks(l)[i].text,
            ) by {
                assert(group_chunks(l)[i].text == l[i].text);
            }
        },
        MdNode::Text(t) => {},
        MdNode::Other => {},
    }
}

proof fn lemma_prefix_texts(cs: Vec<MdNode>, k: int)
    ensures
        texts_kept(concat_prefix(cs, k)),
    decreases cs, k,
{
    if 0 < k <= cs.len() {
        lemma_prefix_texts(cs, k - 1);
        lemma_chunk_texts(cs[k - 1]);
        let before = concat_prefix(cs, k - 1);
        let part = chunks_of(cs[k - 1]);
        let all = concat_prefix(cs, k);
        assert forall|i: int| 0 <= i < all.len() implies keep_paragraph(#[trigger] all[i].text) by {
            if i >= before.len() {
                assert(all[i] == rebase_chunks(part, before.len() as int)[i - before.len()]);
                assert(all[i].text == part[i - before.len()].text);
            } else {
                assert(all[i] == before[i]);
            }
        }
    }
}

proof fn lemma_prefix_grows(cs: Vec<MdNode>, k: int, n: int)
    requires
        0 <= k <= n <= cs.len(),
    ensures
        concat_prefix(cs, k).len() <= concat_prefix(cs, n).len(),
    decreases n - k,
{
    if k < n {
        lemma_prefix_grows(cs, k, n - 1);
    }
}

/// Splits a text run into the paragraphs that qualify as chunks.
pub fn paragraphs(text: &str) -> (r: Vec<&str>)
    ensures
        r@.len() == paragraphs_of(text@).len(),
        forall|i: int| 0 <= i < r@.len() ==> (#[trigger] r@[i])@ == paragraphs_of(text@)[i],
{
    let n = text.unicode_len();
    let mut spaces: usize = 0;
    let mut i: usize = 0;
    while i < n
        invariant
            n == text@.len(),
            i <= n,
            spaces == space_count(text@.subrange(0, i as int)),
            spaces <= i,
        decreases n - i,
    {
        let c = text.get_char(i);
        assert(text@.subrange(0, i + 1).drop_last() =~= text@.subrange(0, i as int));
        if c == ' ' {
            spaces = spaces + 1;
        }
        i = i + 1;
    }
    assert(text@.subrange(0, n as int) =~= text@);
    let mut r: Vec<&str> = Vec::new();
    if n > 0 && spaces >= 2 && n > 5 {
        r.push(text);
    }
    r
}

impl NodeData {
    /// A chunk of `text` that links to no sibling and has no document yet.
    pub fn new(text: String) -> (r: NodeData)
        ensures
            r.text == text,
            r.siblings@ == seq![NO_SIBLING],
            r.position@ == Seq::<char>::empty(),
    {
        let mut siblings: Vec<isize> = Vec::new();
        siblings.push(NO_SIBLING);
        NodeData { text, siblings, position: String::new() }
    }

    /// A copy of this chunk.
    pub fn duplicate(&self) -> (r: NodeData)
        ensures
            r.text@ == self.text@,
            r.siblings@ == self.siblings@,
            r.position@ == self.position@,
    {
        NodeData {
            text: self.text.clone(),
            siblings: rebase(&self.siblings, 0),
            position: self.position.clone(),
        }
    }
}

/// Adds `base` to every entry that names a chunk; the sentinel and other
/// negative entries stay as they are.
pub fn rebase(offsets: &Vec<isize>, base: isize) -> (r: Vec<isize>)
    requires
        base >= 0,
        forall|i: int| 0 <= i < offsets@.len() ==> #[trigger] offsets@[i] + base <= isize::MAX,
    ensures
        int_seq(r@) == rebase_seq(int_seq(offsets@), base as int),
        base == 0 ==> r@ == offsets@,
{
    let mut r: Vec<isize> = Vec::new();
    let mut i: usize = 0;
    while i < offsets.len()
        invariant
            i <= offsets@.len(),
            base >= 0,
            forall|k: int| 0 <= k < offsets@.len() ==> #[trigger] offsets@[k] + base <= isize::MAX,
            r@.len() == i,
            forall|k: int| 0 <= k < i ==> #[trigger] r@[k] == if offsets@[k] < 0 { offsets@[k] as int } else {
                offsets@[k] + base
            },
        decreases offsets@.len() - i,
    {
        let v = offsets[i];
        if v < 0 {
            r.push(v);
        } else {
            r.push(v + base);
        }
        i = i + 1;
    }
    assert(int_seq(r@) =~= rebase_seq(int_seq(offsets@), base as int));
    if base == 0 {
        assert(r@ =~= offsets@);
    }
    r
}

/// Turns a block into its chunks, in document order. Each chunk's sibling
/// entries are indices into the returned sequence, or the sentinel.
pub fn collect_mdast(ast: &MdNode) -> (r: Vec<NodeData>)
    requires
        chunks_of(*ast).len() <= isize::MAX,
    ensures
        models(r@) == chunks_of(*ast),
        forall|i: int| 0 <= i < r@.len() ==> (#[trigger] r@[i]).position@ == Seq::<char>::empty(),
    decreases ast, 0int,
{
    match ast {
        MdNode::Root(cs) => collect_children(cs),
        MdNode::Paragraph(cs) => collect_children(cs),
        MdNode::Emphasis(cs) => collect_children(cs),
        MdNode::List(cs) => collect_children(cs),
        MdNode::Heading(cs) => {
            let l = collect_children(cs);
            group(l)
        },
        MdNode::Text(t) => {
            let ps = paragraphs(t.as_str());
            let mut r: Vec<NodeData> = Vec::new();
            let mut i: usize = 0;
            while i < ps.len()
                invariant
                    i <= ps@.len(),
                    ps@.len() == paragraphs_of(t@).len(),
                    forall|k: int| 0 <= k < ps@.len() ==> (#[trigger] ps@[k])@ == paragraphs_of(t@)[k],
                    models(r@) == text_chunks(t@).subrange(0, i as int),
                    forall|k: int| 0 <= k < r@.len() ==> (#[trigger] r@[k]).position@ == Seq::<char>::empty(),
                decreases ps@.len() - i,
            {
                let node = NodeData::new(<String as StringExecFns>::from_str(ps[i]));
                let ghost prev = r@;
                r.push(node);
                proof {
                    assert(int_seq(node.siblings@) =~= seq![NO_SIBLING as int]);
                    assert(model_of(node) == text_chunks(t@)[i as int]);
                    assert(models(r@) =~= models(prev).push(model_of(node)));
                }
                i = i + 1;
                assert(models(r@) =~= text_chunks(t@).subrange(0, i as int));
            }
            assert(text_chunks(t@).subrange(0, i as int) =~= text_chunks(t@));
            r
        },
        MdNode::Other => Vec::new(),
    }
}

fn collect_children(cs: &Vec<MdNode>) -> (r: Vec<NodeData>)
    requires
        concat_prefix(*cs, cs@.len() as int).len() <= isize::MAX,
    ensures
        models(r@) == concat_prefix(*cs, cs@.len() as int),
        forall|i: int| 0 <= i < r@.len() ==> (#[trigger] r@[i]).position@ == Seq::<char>::empty(),
    decreases cs, cs@.len() + 1,
{
    let mut out: Vec<NodeData> = Vec::new();
    let mut i: usize = 0;
    while i < cs.len()
        invariant
            i <= cs@.len(),
            concat_prefix(*cs, cs@.len() as int).len() <= isize::MAX,
            models(out@) == concat_prefix(*cs, i as int),
            forall|k: int| 0 <= k < out@.len() ==> (#[trigger] out@[k]).position@ == Seq::<char>::empty(),
        decreases cs@.len() - i,
    {
        proof {
            lemma_prefix_grows(*cs, i + 1, cs@.len() as int);
            lemma_chunks_in_range(cs[i as int]);
        }
        let part = collect_mdast(&cs[i]);
        let base = out.len();
        let ghost before = out@;
        let mut j: usize = 0;
        while j < part.len()
            invariant
                j <= part@.len(),
                base == before.len(),
                models(before) == concat_prefix(*cs, i as int),
                models(part@) == chunks_of(cs[i as int]),
                siblings_in_range(chunks_of(cs[i as int])),
                base + part@.len() <= isize::MAX,
                forall|k: int| 0 <= k < part@.len() ==> (#[trigger] part@[k]).position@ == Seq::<char>::empty(),
                forall|k: int| 0 <= k < before.len() ==> (#[trigger] before[k]).position@ == Seq::<char>::empty(),
                out@.len() == base + j,
                out@.subrange(0, base as int) == before,
                models(out@.subrange(base as int, out@.len() as int)) == rebase_chunks(
                    chunks_of(cs[i as int]),
                    base as int,
                ).subrange(0, j as int),
                forall|k: int| 0 <= k < out@.len() ==> (#[trigger] out@[k]).position@ == Seq::<char>::empty(),
            decreases part@.len() - j,
        {
            let c = &part[j];
            proof {
                assert forall|k: int| 0 <= k < c.siblings@.len() implies #[trigger] c.siblings@[k] + base
                    <= isize::MAX by {
                    assert(models(part@)[j as int].siblings[k] == c.siblings@[k] as int);
                }
            }
            let node = NodeData {
                text: c.text.clone(),
                siblings: rebase(&c.siblings, base as isize),
                position: c.position.clone(),
            };
            let ghost prev = out@;
            out.push(node);
            j = j + 1;
            proof {
                assert(out@.subrange(0, base as int) =~= prev.subrange(0, base as int));
                assert(models(out@.subrange(base as int, out@.len() as int)) =~= rebase_chunks(
                    chunks_of(cs[i as int]),
                    base as int,
                ).subrange(0, j as int)) by {
                    assert(models(prev.subrange(base as int, prev.len() as int)) =~= rebase_chunks(
                        chunks_of(cs[i as int]),
                        base as int,
                    ).subrange(0, j - 1));
                }
            }
        }
        i = i + 1;
        proof {
            assert(out@ =~= out@.subrange(0, base as int) + out@.subrange(base as int, out@.len() as int));
            assert(rebase_chunks(chunks_of(cs[i - 1]), base as int).subrange(0, j as int) =~= rebase_chunks(
                chunks_of(cs[i - 1]),
                base as int,
            ));
            assert(models(out@) =~= concat_prefix(*cs, i as int));
        }
    }
    out
}

/// Marks every chunk of `l` as a sibling of every other chunk of `l`.
fn group(l: Vec<NodeData>) -> (r: Vec<NodeData>)
    requires
        l@.len() <= isize::MAX,
    ensures
        models(r@) == group_chunks(models(l@)),
        forall|i: int| 0 <= i < r@.len() ==> (#[trigger] r@[i]).position@ == l@[i].position@,
{
    let m = l.len();
    let mut r: Vec<NodeData> = Vec::new();
    let mut i: usize = 0;
    while i < m
        invariant
            m == l@.len(),
            m <= isize::MAX,
            i <= m,
            r@.len() == i,
            forall|k: int| 0 <= k < i ==> #[trigger] model_of(r@[k]) == group_chunks(models(l@))[k],
            forall|k: int| 0 <= k < i ==> (#[trigger] r@[k]).position@ == l@[k].position@,
        decreases m - i,
    {
        let c = &l[i];
        let mut siblings = rebase(&c.siblings, 0);
        let mut k: usize = 0;
        while k < m
            invariant
                m == l@.len(),
                m <= isize::MAX,
                i < m,
                k <= m,
                int_seq(siblings@) == int_seq(l@[i as int].siblings@) + others_upto(i as int, k as int),
            decreases m - k,
        {
            let ghost prev = siblings@;
            if k != i {
                siblings.push(k as isize);
                assert(int_seq(siblings@) =~= int_seq(prev).push(k as int));
            }
            k = k + 1;
            assert(int_seq(siblings@) =~= int_seq(l@[i as int].siblings@) + others_upto(i as int, k as int));
        }
        r.push(NodeData { text: c.text.clone(), siblings, position: c.position.clone() });
        i = i + 1;
    }
    assert(models(r@) =~= group_chunks(models(l@)));
    r
}

} // verus!
