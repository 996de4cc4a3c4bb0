use webgraph::bit_stream::BitStreamRead;
use webgraph::codes_reader::DefaultCodesReader;
use webgraph::encode::encode_graph;
use webgraph::graphs::VecGraph;
use webgraph::reader_degrees::WebgraphDegreesIter;
use webgraph::reader_random::random_successors;
use webgraph::reader_sequential::WebgraphSequentialIter;

fn sample_graph() -> VecGraph {
    let mut g = VecGraph::new();
    for i in 0..10 {
        g.add_node(i);
    }
    let arcs = [
        (0usize, 1u64),
        (0, 5),
        (0, 9),
        (1, 2),
        (2, 3),
        (3, 0),
        (3, 4),
        (4, 4),
        (5, 6),
        (5, 7),
        (5, 8),
        (7, 0),
        (7, 1),
        (7, 2),
        (7, 3),
        (9, 0),
    ];
    for &(u, v) in arcs.iter() {
        g.add_arc(u, v);
    }
    g
}

fn decode_all(words: Vec<u32>, n: usize) -> Vec<Vec<u64>> {
    let reader = BitStreamRead::new(words).unwrap();
    let codes = DefaultCodesReader::new(reader);
    let mut it = WebgraphSequentialIter::new(codes, 4, 7, n).unwrap();
    let mut lists = Vec::new();
    for _ in 0..n {
        lists.push(it.next_successors().unwrap());
    }
    lists
}

#[test]
fn round_trip_small_graph() {
    let g = sample_graph();
    let n = g.num_nodes();
    let (words, _bits) = encode_graph(&g).unwrap();
    let lists = decode_all(words, n);
    let mut decoded_arcs: Vec<(usize, u64)> = Vec::new();
    for (v, l) in lists.iter().enumerate() {
        for &s in l {
            decoded_arcs.push((v, s));
        }
    }
    let mut original_arcs: Vec<(usize, u64)> = Vec::new();
    for v in 0..n {
        for s in g.successors(v) {
            original_arcs.push((v, s));
        }
    }
    decoded_arcs.sort();
    original_arcs.sort();
    assert_eq!(decoded_arcs, original_arcs);
}

#[test]
fn degrees_agree_with_successors() {
    let g = sample_graph();
    let n = g.num_nodes();
    let (words, _bits) = encode_graph(&g).unwrap();
    let lists = decode_all(words.clone(), n);

    let reader = BitStreamRead::new(words).unwrap();
    let codes = DefaultCodesReader::new(reader);
    let mut deg = WebgraphDegreesIter::new(codes, 4, 7, n).unwrap();
    let mut total: u64 = 0;
    for v in 0..n {
        let d = deg.next_degree().unwrap();
        assert_eq!(d, lists[v].len() as u64);
        assert_eq!(d, g.outdegree(v) as u64);
        total += d;
    }
    // the degree sum is the arc count
    let m: u64 = (0..n).map(|v| g.outdegree(v) as u64).sum();
    assert_eq!(total, m);
}

#[test]
fn permuted_round_trip() {
    let g = sample_graph();
    let n = g.num_nodes();
    // an arbitrary bijection of the nodes
    let perm: Vec<usize> = vec![3, 1, 4, 0, 9, 5, 8, 7, 2, 6];
    let mut inv = vec![0usize; n];
    for (rank, &node) in perm.iter().enumerate() {
        inv[node] = rank;
    }
    // build the permuted graph directly and through the library view
    let lists = webgraph::graphs::permuted_graph_lists(&g, &perm, &inv);
    let mut pg = VecGraph::new();
    pg.add_node(n - 1);
    for (i, l) in lists.iter().enumerate() {
        for &s in l {
            pg.add_arc(i, s);
        }
    }
    let (words, _bits) = encode_graph(&pg).unwrap();
    let decoded = decode_all(words, n);
    // the decoded arc multiset equals the original one mapped through the bijection
    let mut mapped: Vec<(usize, u64)> = Vec::new();
    for v in 0..n {
        for s in g.successors(v) {
            mapped.push((inv[v], inv[s as usize] as u64));
        }
    }
    let mut decoded_arcs: Vec<(usize, u64)> = Vec::new();
    for (v, l) in decoded.iter().enumerate() {
        for &s in l {
            decoded_arcs.push((v, s));
        }
    }
    mapped.sort();
    decoded_arcs.sort();
    assert_eq!(decoded_arcs, mapped);
}

#[test]
fn empty_and_full_degrees() {
    let mut g = VecGraph::new();
    g.add_node(3);
    g.add_arc(1, 0);
    g.add_arc(1, 2);
    g.add_arc(1, 3);
    let (words, _bits) = encode_graph(&g).unwrap();
    let lists = decode_all(words, 4);
    assert_eq!(lists[0], Vec::<u64>::new());
    assert_eq!(lists[1], vec![0, 2, 3]);
    assert_eq!(lists[2], Vec::<u64>::new());
    assert_eq!(lists[3], Vec::<u64>::new());
}

#[test]
fn truncated_stream_is_decode_error() {
    let g = sample_graph();
    let (words, _bits) = encode_graph(&g).unwrap();
    // cut the stream after the first word: decoding must fail, not panic
    let cut = vec![words[0]];
    let reader = BitStreamRead::new(cut).unwrap();
    let codes = DefaultCodesReader::new(reader);
    let mut it = WebgraphSequentialIter::new(codes, 4, 7, 10).unwrap();
    let mut failed = false;
    for _ in 0..10 {
        match it.next_successors() {
            Ok(_) => {},
            Err(_) => {
                failed = true;
                break;
            },
        }
    }
    assert!(failed);
}

#[test]
fn sequential_equals_random() {
    let g = sample_graph();
    let n = g.num_nodes();
    let (words, _bits) = encode_graph(&g).unwrap();

    // collect the record offsets with the degree-only pass
    let reader = BitStreamRead::new(words.clone()).unwrap();
    let codes = DefaultCodesReader::new(reader);
    let mut deg = WebgraphDegreesIter::new(codes, 4, 7, n).unwrap();
    let mut offsets = Vec::new();
    for _ in 0..n {
        offsets.push(deg.get_position());
        deg.next_degree().unwrap();
    }

    let lists = decode_all(words.clone(), n);
    let reader = BitStreamRead::new(words).unwrap();
    let mut codes = DefaultCodesReader::new(reader);
    for v in (0..n).rev() {
        let succ = random_successors(&mut codes, &offsets, v, 7, 4).unwrap();
        assert_eq!(succ, lists[v], "node {}", v);
    }
}
