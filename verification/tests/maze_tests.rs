use mazegen::forest::{find_root, union};
use mazegen::grid::{make_graph, Edge};
use mazegen::maze::make_maze;
use mazegen::mst::min_span_tree;
use mazegen::raster::assemble_maze;
use mazegen::render::render_maze;

fn lines(out: &[u8]) -> Vec<Vec<u8>> {
    let mut res: Vec<Vec<u8>> = Vec::new();
    let mut cur: Vec<u8> = Vec::new();
    for &b in out {
        if b == b'\n' {
            res.push(cur);
            cur = Vec::new();
        } else {
            cur.push(b);
        }
    }
    assert!(cur.is_empty(), "output must end with a newline");
    res
}

#[test]
fn make_graph_emits_every_adjacency_once() {
    let mut nodes: Vec<usize> = Vec::new();
    let mut edges: Vec<Edge> = Vec::new();
    make_graph(3, 2, &mut nodes, &mut edges);
    assert_eq!(nodes, vec![0, 1, 2, 3, 4, 5]);
    // 2*3*2 - 3 - 2 edges for a 3x2 grid
    assert_eq!(edges.len(), 7);
    for e in &edges {
        assert!(e.weight <= 0);
        assert!(e.target == e.source + 1 || e.target == e.source + 3);
    }
    // each rightward and downward adjacency appears exactly once
    for (s, t) in [(0, 1), (1, 2), (3, 4), (4, 5), (0, 3), (1, 4), (2, 5)] {
        assert_eq!(
            edges.iter().filter(|e| e.source == s && e.target == t).count(),
            1
        );
    }
}

#[test]
fn single_cell_grid_has_no_edges() {
    let mut nodes: Vec<usize> = Vec::new();
    let mut edges: Vec<Edge> = Vec::new();
    make_graph(1, 1, &mut nodes, &mut edges);
    assert_eq!(nodes, vec![0]);
    assert_eq!(edges.len(), 0);
}

#[test]
fn self_union_returns_false_and_keeps_forest() {
    let mut forest: Vec<usize> = vec![0, 1, 2, 3];
    assert!(!union(&mut forest, 2, 2));
    assert_eq!(forest, vec![0, 1, 2, 3]);
}

#[test]
fn find_root_is_idempotent_after_unions() {
    let mut forest: Vec<usize> = (0..6).collect();
    assert!(union(&mut forest, 0, 1));
    assert!(union(&mut forest, 1, 2));
    assert!(union(&mut forest, 4, 5));
    for i in 0..6 {
        let (r1, _) = find_root(&forest, i, 0);
        let (r2, _) = find_root(&forest, i, 0);
        assert_eq!(r1, r2);
        let (rr, d) = find_root(&forest, r1, 0);
        assert_eq!(rr, r1);
        assert_eq!(d, 0);
    }
}

#[test]
fn union_is_transitive() {
    let mut forest: Vec<usize> = (0..5).collect();
    assert!(union(&mut forest, 0, 1));
    assert!(union(&mut forest, 1, 4));
    let (ra, _) = find_root(&forest, 0, 0);
    let (rc, _) = find_root(&forest, 4, 0);
    assert_eq!(ra, rc);
}

#[test]
fn spanning_tree_has_cells_minus_one_edges() {
    for (w, h) in [(1, 1), (2, 1), (1, 2), (3, 3), (5, 2)] {
        let mut nodes: Vec<usize> = Vec::new();
        let mut edges: Vec<Edge> = Vec::new();
        let mut tree: Vec<Edge> = Vec::new();
        make_graph(w, h, &mut nodes, &mut edges);
        min_span_tree(&mut nodes, &edges, &mut tree);
        assert_eq!(tree.len(), w * h - 1);
        // spanning: all cells end up in one set
        let (r0, _) = find_root(&nodes, 0, 0);
        for c in 0..w * h {
            let (r, _) = find_root(&nodes, c, 0);
            assert_eq!(r, r0);
        }
    }
}

#[test]
fn selector_pops_highest_weight_first() {
    // 2x2 grid edges with fixed weights: the three highest join everything,
    // the lowest would close a cycle and must be rejected
    let edges = vec![
        Edge { weight: 0, source: 0, target: 1 },
        Edge { weight: -1, source: 0, target: 2 },
        Edge { weight: -2, source: 1, target: 3 },
        Edge { weight: -3, source: 2, target: 3 },
    ];
    let mut nodes: Vec<usize> = (0..4).collect();
    let mut tree: Vec<Edge> = Vec::new();
    min_span_tree(&mut nodes, &edges, &mut tree);
    assert_eq!(tree.len(), 3);
    assert_eq!(tree[0], Edge { weight: 0, source: 0, target: 1 });
    assert_eq!(tree[1], Edge { weight: -1, source: 0, target: 2 });
    assert_eq!(tree[2], Edge { weight: -2, source: 1, target: 3 });
}

#[test]
fn pipeline_is_deterministic_after_weights() {
    let edges = vec![
        Edge { weight: -7, source: 0, target: 1 },
        Edge { weight: -3, source: 1, target: 2 },
        Edge { weight: -5, source: 0, target: 3 },
        Edge { weight: -1, source: 1, target: 4 },
        Edge { weight: -8, source: 2, target: 5 },
        Edge { weight: -2, source: 3, target: 4 },
        Edge { weight: -6, source: 4, target: 5 },
    ];
    let mut out: Vec<Vec<u8>> = Vec::new();
    for _ in 0..2 {
        let mut nodes: Vec<usize> = (0..6).collect();
        let mut tree: Vec<Edge> = Vec::new();
        min_span_tree(&mut nodes, &edges, &mut tree);
        let mut matrix: Vec<bool> = Vec::new();
        assemble_maze(&mut matrix, &tree, 3, 2, 3);
        out.push(render_maze(&matrix, 3, 2, 3));
    }
    assert_eq!(out[0], out[1]);
}

#[test]
fn two_cell_maze_opens_the_single_corridor() {
    let mut nodes: Vec<usize> = Vec::new();
    let mut edges: Vec<Edge> = Vec::new();
    make_graph(2, 1, &mut nodes, &mut edges);
    // the only possible edge: rightward from cell 0 to cell 1
    assert_eq!(edges.len(), 1);
    assert_eq!(edges[0].source, 0);
    assert_eq!(edges[0].target, 1);

    let mut tree: Vec<Edge> = Vec::new();
    min_span_tree(&mut nodes, &edges, &mut tree);
    assert_eq!(tree.len(), 1);
    assert_eq!(tree[0], edges[0]);

    let mut matrix: Vec<bool> = Vec::new();
    assemble_maze(&mut matrix, &tree, 2, 1, 3);
    assert_eq!(matrix.len(), 18);
    for idx in 0..18 {
        // the corridor: the top-left corners of both blocks and the wall
        // column between them
        assert_eq!(matrix[idx], idx <= 3, "cell {}", idx);
    }

    let out = render_maze(&matrix, 2, 1, 3);
    let ls = lines(&out);
    assert_eq!(ls.len(), 5);
    assert_eq!(ls[0], b"##.#####".to_vec());
    assert_eq!(ls[1], b"##.#####".to_vec());
    assert_eq!(ls[2], b"##....##".to_vec());
    assert_eq!(ls[3], b"#####.##".to_vec());
    assert_eq!(ls[4], b"#####.##".to_vec());
}

#[test]
fn single_cell_maze_renders_closed_box() {
    let tree: Vec<Edge> = Vec::new();
    let mut matrix: Vec<bool> = Vec::new();
    assemble_maze(&mut matrix, &tree, 1, 1, 3);
    assert_eq!(matrix.len(), 9);
    assert!(matrix.iter().all(|&b| !b));

    let out = render_maze(&matrix, 1, 1, 3);
    let ls = lines(&out);
    assert_eq!(ls.len(), 5);
    assert_eq!(ls[0], b"##.##".to_vec());
    assert_eq!(ls[1], b"##.##".to_vec());
    assert_eq!(ls[2], b"#####".to_vec());
    assert_eq!(ls[3], b"##.##".to_vec());
    assert_eq!(ls[4], b"##.##".to_vec());
}

#[test]
fn every_cell_has_an_open_corner() {
    let (w, h) = (4, 4);
    let mut nodes: Vec<usize> = Vec::new();
    let mut edges: Vec<Edge> = Vec::new();
    let mut tree: Vec<Edge> = Vec::new();
    make_graph(w, h, &mut nodes, &mut edges);
    min_span_tree(&mut nodes, &edges, &mut tree);
    let mut matrix: Vec<bool> = Vec::new();
    assemble_maze(&mut matrix, &tree, w, h, 3);
    for c in 0..w * h {
        let corner = 3 * (c % w) + 9 * w * (c / w);
        assert!(matrix[corner], "cell {} is fully walled", c);
    }
}

#[test]
fn rendered_maze_has_uniform_printable_lines() {
    let (w, h) = (4, 3);
    let out = make_maze(w, h);
    let ls = lines(&out);
    // 2*(sp-1) border lines plus sp*h - sp + 1 body lines, sp == 3
    assert_eq!(ls.len(), 2 * 2 + (3 * h - 3 + 1));
    for l in &ls {
        assert_eq!(l.len(), 3 * w + 3 - 1);
        assert!(l.iter().all(|&b| b == b'#' || b == b'.'));
    }
}
