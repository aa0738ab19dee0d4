use vectordb::chunk::{collect_mdast, paragraphs, rebase, MdNode, NodeData, NO_SIBLING};
use vectordb::grid::SpatialHashGrid;
use vectordb::index::{distance, IndexError, VectorDB};
use vectordb::persist::{decode_vectors, encode_vectors};

fn text(s: &str) -> MdNode {
    MdNode::Text(s.to_string())
}

fn chunk(s: &str, siblings: Vec<isize>) -> NodeData {
    NodeData { text: s.to_string(), siblings, position: String::new() }
}

fn texts(chunks: &[NodeData]) -> Vec<String> {
    chunks.iter().map(|c| c.text.clone()).collect()
}

#[test]
fn test_spatial_hash_grid() {
    let mut grid = SpatialHashGrid::new(2, 3);

    grid.insert(vec![1, 2, 4], 1).unwrap();
    grid.insert(vec![0, 0, 0], 2).unwrap();
    grid.insert(vec![1, 0, 0], 3).unwrap();

    let check = |x: &[i32], y: &[usize]| {
        let neighbors = grid.neighbors(&x.to_vec()).unwrap();
        assert!(neighbors.iter().zip(y.iter()).all(|(x, y)| x.1 == *y));
    };

    check(&[1, 2, 3], &[1]);
    check(&[0, 0, 0], &[2, 3]);
}

#[test]
fn grid_buckets_by_every_coordinate() {
    let mut grid = SpatialHashGrid::new(2, 3);
    grid.insert(vec![1, 2, 4], 1).unwrap();
    grid.insert(vec![0, 0, 0], 2).unwrap();
    grid.insert(vec![1, 0, 0], 3).unwrap();
    let ids = |q: Vec<i32>| grid.neighbors(&q).unwrap().iter().map(|e| e.1).collect::<Vec<_>>();
    // (1,2,3) lies in cell (0,1,1), (1,2,4) in cell (0,1,2).
    assert_eq!(ids(vec![1, 2, 3]), Vec::<usize>::new());
    assert_eq!(ids(vec![1, 2, 5]), vec![1]);
    assert_eq!(ids(vec![0, 0, 0]), vec![2, 3]);
    assert_eq!(ids(vec![1, 1, 1]), vec![2, 3]);
}

#[test]
fn grid_same_cell_any_order() {
    let mut a = SpatialHashGrid::new(10, 2);
    let mut b = SpatialHashGrid::new(10, 2);
    let entries = [(vec![1, 2], 7usize), (vec![9, 0], 8), (vec![5, 5], 9)];
    for (v, id) in entries.iter() {
        a.insert(v.clone(), *id).unwrap();
    }
    for (v, id) in entries.iter().rev() {
        b.insert(v.clone(), *id).unwrap();
    }
    let mut ia: Vec<usize> = a.neighbors(&vec![3, 3]).unwrap().iter().map(|e| e.1).collect();
    let mut ib: Vec<usize> = b.neighbors(&vec![3, 3]).unwrap().iter().map(|e| e.1).collect();
    assert_eq!(ia, vec![7, 8, 9]);
    assert_eq!(ib, vec![9, 8, 7]);
    ia.sort();
    ib.sort();
    assert_eq!(ia, ib);
    assert!(a.neighbors(&vec![-1, 3]).unwrap().is_empty());
    assert!(a.neighbors(&vec![10, 0]).unwrap().is_empty());
}

#[test]
fn grid_negative_coordinates_round_down() {
    let mut grid = SpatialHashGrid::new(2, 1);
    grid.insert(vec![-1], 1).unwrap();
    grid.insert(vec![-2], 2).unwrap();
    grid.insert(vec![-3], 3).unwrap();
    let ids = |q: Vec<i32>| grid.neighbors(&q).unwrap().iter().map(|e| e.1).collect::<Vec<_>>();
    assert_eq!(ids(vec![-1]), vec![1, 2]);
    assert_eq!(ids(vec![-4]), vec![3]);
    assert_eq!(ids(vec![0]), Vec::<usize>::new());
}

#[test]
fn grid_rejects_wrong_dimension() {
    let mut grid = SpatialHashGrid::new(2, 3);
    assert_eq!(grid.insert(vec![1, 2], 1), Err(IndexError::DimensionMismatch));
    assert!(matches!(grid.neighbors(&vec![1, 2, 3, 4]), Err(IndexError::DimensionMismatch)));
}

#[test]
fn paragraphs_filter() {
    assert_eq!(paragraphs("Hello world, example"), vec!["Hello world, example"]);
    assert_eq!(paragraphs("one two"), Vec::<&str>::new());
    assert_eq!(paragraphs("a b c"), Vec::<&str>::new());
    assert_eq!(paragraphs(""), Vec::<&str>::new());
    assert_eq!(paragraphs("ab cd e"), vec!["ab cd e"]);
}

#[test]
fn new_node_has_no_sibling() {
    let n = NodeData::new("some text here".to_string());
    assert_eq!(n.text, "some text here");
    assert_eq!(n.siblings, vec![NO_SIBLING]);
    assert_eq!(n.position, "");
}

#[test]
fn rebase_keeps_sentinel() {
    assert_eq!(rebase(&vec![-1, 0, 3], 5), vec![-1, 5, 8]);
    assert_eq!(rebase(&vec![], 5), Vec::<isize>::new());
}

#[test]
fn heading_children_are_siblings() {
    let doc = MdNode::Root(vec![MdNode::Heading(vec![
        MdNode::Paragraph(vec![text("Hello world, example")]),
        MdNode::Paragraph(vec![text("Second greeting example")]),
    ])]);
    let chunks = collect_mdast(&doc);
    assert_eq!(texts(&chunks), vec!["Hello world, example", "Second greeting example"]);
    assert_eq!(chunks[0].siblings, vec![-1, 1]);
    assert_eq!(chunks[1].siblings, vec![-1, 0]);

    let first = MdNode::Root(vec![MdNode::Paragraph(vec![text("An opening document line")])]);
    let mut db = VectorDB::new();
    let c0 = collect_mdast(&first);
    db.add_document(c0, vec![vec![9, 9]], "a.md".to_string()).unwrap();
    db.add_document(chunks, vec![vec![1, 2], vec![3, 4]], "b.md".to_string()).unwrap();
    assert_eq!(db.len(), 3);
    assert_eq!(db.chunk(1).siblings, vec![-1, 2]);
    assert_eq!(db.chunk(2).siblings, vec![-1, 1]);
    assert_eq!(db.chunk(1).position, "b.md");
    assert_eq!(db.embedding(2), &vec![3, 4]);
}

#[test]
fn chunker_drops_short_text_and_other_nodes() {
    let doc = MdNode::Root(vec![
        MdNode::Paragraph(vec![text("tiny"), MdNode::Other, text("long enough text here")]),
        MdNode::List(vec![MdNode::Emphasis(vec![text("emphasis with spaces")])]),
    ]);
    let chunks = collect_mdast(&doc);
    assert_eq!(texts(&chunks), vec!["long enough text here", "emphasis with spaces"]);
    for c in chunks.iter() {
        assert_eq!(c.siblings, vec![-1]);
        assert!(c.text.len() > 5 && c.text.matches(' ').count() >= 2);
    }
}

#[test]
fn nested_heading_offsets() {
    let doc = MdNode::Root(vec![
        MdNode::Paragraph(vec![text("first plain paragraph")]),
        MdNode::Heading(vec![text("heading text one"), text("heading text two"), text("heading text three")]),
    ]);
    let chunks = collect_mdast(&doc);
    assert_eq!(chunks.len(), 4);
    assert_eq!(chunks[0].siblings, vec![-1]);
    assert_eq!(chunks[1].siblings, vec![-1, 2, 3]);
    assert_eq!(chunks[2].siblings, vec![-1, 1, 3]);
    assert_eq!(chunks[3].siblings, vec![-1, 1, 2]);
}

fn three_chunk_db() -> VectorDB {
    let mut db = VectorDB::new();
    let chunks = vec![
        chunk("chunk zero text", vec![-1]),
        chunk("chunk one text", vec![-1]),
        chunk("chunk two text", vec![-1]),
    ];
    db.add_document(chunks, vec![vec![0, 0, 0], vec![1, 1, 1], vec![5, 5, 5]], "doc".to_string()).unwrap();
    db
}

#[test]
fn search_two_nearest() {
    let db = three_chunk_db();
    assert_eq!(db.top_k(&vec![0, 0, 0], 2), Ok(vec![0, 1]));
    assert_eq!(distance(&vec![0, 0, 0], &vec![1, 1, 1]), 3);
    assert_eq!(distance(&vec![0, 0, 0], &vec![5, 5, 5]), 75);
}

#[test]
fn search_counts_and_order() {
    let db = three_chunk_db();
    assert_eq!(db.top_k(&vec![5, 5, 4], 10), Ok(vec![2, 1, 0]));
    assert_eq!(db.top_k(&vec![5, 5, 4], 0), Ok(vec![]));
    assert_eq!(db.top_k(&vec![1, 1, 1], 1), Ok(vec![1]));
    assert_eq!(db.top_k(&vec![1, 1], 1), Err(IndexError::DimensionMismatch));
    let found = db.semantic_search(&vec![4, 4, 4]).unwrap();
    let names: Vec<&str> = found.iter().map(|c| c.text.as_str()).collect();
    assert_eq!(names, vec!["chunk two text", "chunk one text", "chunk zero text"]);
    let empty = VectorDB::new();
    assert_eq!(empty.top_k(&vec![1], 5), Ok(vec![]));
}

#[test]
fn search_ties_keep_index_order() {
    let mut db = VectorDB::new();
    let chunks = vec![chunk("a b c d", vec![-1]), chunk("e f g h", vec![-1]), chunk("i j k l", vec![-1])];
    db.add_document(chunks, vec![vec![2], vec![-2], vec![2]], "d".to_string()).unwrap();
    assert_eq!(db.top_k(&vec![0], 3), Ok(vec![0, 1, 2]));
    assert_eq!(db.top_k(&vec![2], 2), Ok(vec![0, 2]));
}

#[test]
fn distance_extremes() {
    assert_eq!(distance(&vec![i32::MIN], &vec![i32::MAX]), 0xffff_ffff_u128 * 0xffff_ffff_u128);
    assert_eq!(distance(&vec![], &vec![]), 0);
}

#[test]
fn add_document_errors() {
    let mut db = three_chunk_db();
    let one = || vec![chunk("x y z w", vec![-1])];
    assert_eq!(db.add_document(one(), vec![], "e".to_string()), Err(IndexError::EmbeddingCount));
    assert_eq!(db.add_document(one(), vec![vec![1, 2]], "e".to_string()), Err(IndexError::DimensionMismatch));
    assert_eq!(
        db.add_document(vec![chunk("x y z w", vec![1])], vec![vec![1, 2, 3]], "e".to_string()),
        Err(IndexError::InvalidSibling)
    );
    assert_eq!(db.add_document(one(), vec![vec![1, 2, 3]], "doc".to_string()), Err(IndexError::DuplicatePosition));
    assert_eq!(db.len(), 3);
    assert_eq!(db.add_document(vec![], vec![], "f".to_string()), Ok(()));
    assert_eq!(db.len(), 3);
    assert_eq!(db.add_document(one(), vec![vec![1, 2, 3]], "e".to_string()), Ok(()));
    assert_eq!(db.len(), 4);
}

#[test]
fn vector_file_round_trip() {
    let vs = vec![vec![1, -2, 3], vec![i32::MAX, i32::MIN, 0]];
    let words = encode_vectors(&vs, 3);
    assert_eq!(words, vec![2, 3, 1, -2, 3, i32::MAX, i32::MIN, 0]);
    assert_eq!(decode_vectors(&words), Ok(vs));
    assert_eq!(decode_vectors(&vec![1, 2, 5]), Err(IndexError::PersistenceFormat));
    assert_eq!(decode_vectors(&vec![-1, 0]), Err(IndexError::PersistenceFormat));
    assert_eq!(decode_vectors(&vec![0]), Err(IndexError::PersistenceFormat));
    assert_eq!(decode_vectors(&vec![0, 7]), Ok(vec![]));
}

#[test]
fn save_then_load() {
    let mut db = VectorDB::new();
    db.add_document(
        vec![chunk("first doc chunk", vec![-1, 1]), chunk("first doc again", vec![-1, 0])],
        vec![vec![1, 2], vec![3, 4]],
        "a.md".to_string(),
    )
    .unwrap();
    db.add_document(vec![chunk("second doc chunk", vec![-1])], vec![vec![5, 6]], "b.md".to_string()).unwrap();
    let files = db.vector_files();
    assert_eq!(files.len(), 2);
    assert_eq!(files[0].0, "a.md");
    assert_eq!(files[0].1, vec![2, 2, 1, 2, 3, 4]);
    assert_eq!(files[1].0, "b.md");
    assert_eq!(files[1].1, vec![1, 2, 5, 6]);

    let manifest: Vec<NodeData> = (0..db.len()).map(|i| db.chunk(i).duplicate()).collect();
    let words: Vec<Vec<i32>> = files.into_iter().map(|f| f.1).collect();
    let loaded = VectorDB::load(manifest, &words).unwrap();
    assert_eq!(loaded.len(), 3);
    for i in 0..3 {
        assert_eq!(loaded.chunk(i).text, db.chunk(i).text);
        assert_eq!(loaded.chunk(i).siblings, db.chunk(i).siblings);
        assert_eq!(loaded.chunk(i).position, db.chunk(i).position);
        assert_eq!(loaded.embedding(i), db.embedding(i));
    }
}

#[test]
fn load_rejects_mismatch() {
    let manifest = || {
        let mut a = chunk("first doc chunk", vec![-1]);
        a.position = "a.md".to_string();
        let mut b = chunk("second doc chunk", vec![-1]);
        b.position = "b.md".to_string();
        vec![a, b]
    };
    assert!(VectorDB::load(manifest(), &vec![vec![1, 1, 7], vec![1, 1, 8]]).is_ok());
    // a missing vector file
    assert!(matches!(VectorDB::load(manifest(), &vec![vec![1, 1, 7]]), Err(IndexError::PersistenceFormat)));
    // both vectors in the first document's file
    assert!(matches!(
        VectorDB::load(manifest(), &vec![vec![2, 1, 7, 8], vec![0, 1]]),
        Err(IndexError::PersistenceFormat)
    ));
    // dimensions differ between documents
    assert!(matches!(
        VectorDB::load(manifest(), &vec![vec![1, 1, 7], vec![1, 2, 8, 9]]),
        Err(IndexError::PersistenceFormat)
    ));
    // a sibling out of range
    let mut bad = manifest();
    bad[0].siblings = vec![2];
    assert!(matches!(VectorDB::load(bad, &vec![vec![1, 1, 7], vec![1, 1, 8]]), Err(IndexError::PersistenceFormat)));
    // one position split in two runs
    let mut split = manifest();
    let mut c = chunk("third doc chunk", vec![-1]);
    c.position = "a.md".to_string();
    split.push(c);
    assert!(matches!(
        VectorDB::load(split, &vec![vec![1, 1, 7], vec![1, 1, 8], vec![1, 1, 9]]),
        Err(IndexError::PersistenceFormat)
    ));
}

#[test]
fn paragraph_length_counts_characters() {
    // five characters, eight bytes
    assert_eq!(paragraphs("é é é"), Vec::<&str>::new());
    assert_eq!(paragraphs("é é éé"), vec!["é é éé"]);
}
