use ncube::topology::{shared_dimensions, NCube};

fn binomial(n: usize, k: usize) -> usize {
    let mut r = 1;
    for i in 0..k {
        r = r * (n - i) / (i + 1);
    }
    r
}

#[test]
fn get_vertices() {
    let target_vertices = vec![
        vec![1.0, 1.0, 1.0, 1.0],
        vec![-1.0, 1.0, 1.0, 1.0],
        vec![1.0, -1.0, 1.0, 1.0],
        vec![-1.0, -1.0, 1.0, 1.0],
        vec![1.0, 1.0, -1.0, 1.0],
        vec![-1.0, 1.0, -1.0, 1.0],
        vec![1.0, -1.0, -1.0, 1.0],
        vec![-1.0, -1.0, -1.0, 1.0],
        vec![1.0, 1.0, 1.0, -1.0],
        vec![-1.0, 1.0, 1.0, -1.0],
        vec![1.0, -1.0, 1.0, -1.0],
        vec![-1.0, -1.0, 1.0, -1.0],
        vec![1.0, 1.0, -1.0, -1.0],
        vec![-1.0, 1.0, -1.0, -1.0],
        vec![1.0, -1.0, -1.0, -1.0],
        vec![-1.0, -1.0, -1.0, -1.0],
    ];
    let size = 2.0;
    let tesseract_vertices: Vec<Vec<f64>> = NCube::new(4)
        .vertices
        .0
        .iter()
        .map(|v| v.iter().map(|&s| s as f64 * size / 2.0).collect())
        .collect();
    assert_eq!(tesseract_vertices, target_vertices);
}

#[test]
fn get_face_count() {
    let target_face_count = vec![16, 32, 24, 8, 1];
    let tesseract = NCube::new(4);
    let tesseract_face_count = (0..=4).map(|m| tesseract.face_count(m)).collect::<Vec<_>>();
    assert_eq!(target_face_count, tesseract_face_count);
}

#[test]
fn face_count_closed_forms() {
    for n in 3..=9 {
        let cube = NCube::new(n);
        assert_eq!(cube.face_count(0), 1 << n);
        assert_eq!(cube.face_count(1), n * (1 << (n - 1)));
        assert_eq!(cube.face_count(2), n * (n - 1) / 2 * (1 << (n - 2)));
    }
    let tesseract = NCube::new(4);
    assert_eq!(tesseract.faces.0.len(), 48);
}

#[test]
fn tesseract_vertex_corners() {
    let cube = NCube::new(4);
    assert_eq!(cube.vertices.0.len(), 16);
    assert_eq!(cube.vertices.0[0], vec![1, 1, 1, 1]);
    assert_eq!(cube.vertices.0[1], vec![-1, 1, 1, 1]);
    assert_eq!(cube.vertices.0[15], vec![-1, -1, -1, -1]);
}

#[test]
fn counts_match_closed_forms_for_every_dimension() {
    for n in 3..=9 {
        let cube = NCube::new(n);
        assert_eq!(cube.dimensions, n);
        assert_eq!(cube.vertices.0.len(), 1 << n);
        assert_eq!(cube.edges.0.len(), n * (1 << (n - 1)));
        assert_eq!(cube.faces.0.len(), 2 * binomial(n, 2) * (1 << (n - 2)));
    }
}

#[test]
fn edges_are_simple_and_differ_in_one_sign() {
    for n in 3..=6 {
        let cube = NCube::new(n);
        let mut seen = std::collections::HashSet::new();
        for &(i, j) in &cube.edges.0 {
            assert_ne!(i, j);
            assert!(seen.insert((i.min(j), i.max(j))));
            let a = &cube.vertices.0[i];
            let b = &cube.vertices.0[j];
            let differing = (0..n).filter(|&d| a[d] != b[d]).count();
            assert_eq!(differing, 1);
        }
    }
}

#[test]
fn cube_edges_in_order() {
    let cube = NCube::new(3);
    assert_eq!(
        cube.edges.0,
        vec![
            (0, 1),
            (0, 2),
            (0, 4),
            (1, 3),
            (1, 5),
            (2, 3),
            (2, 6),
            (3, 7),
            (4, 5),
            (4, 6),
            (5, 7),
            (6, 7)
        ]
    );
}

#[test]
fn cube_faces_wound_in_pairs() {
    let cube = NCube::new(3);
    assert_eq!(
        cube.faces.0,
        vec![
            (0, 1, 2),
            (3, 2, 1),
            (4, 5, 6),
            (7, 6, 5),
            (0, 1, 4),
            (5, 4, 1),
            (2, 3, 6),
            (7, 6, 3),
            (0, 2, 4),
            (6, 4, 2),
            (1, 3, 5),
            (7, 5, 3)
        ]
    );
}

#[test]
fn face_triangles_lie_on_squares() {
    for n in 3..=6 {
        let cube = NCube::new(n);
        let mut squares = std::collections::HashSet::new();
        for pair in cube.faces.0.chunks(2) {
            let (w0, w1, w2) = pair[0];
            let (w3, v2, v1) = pair[1];
            assert_eq!((v2, v1), (w2, w1));
            assert!(w0 < w1 && w1 < w2 && w2 < w3);
            let corners = [w0, w1, w2, w3];
            let shared = (0..n)
                .filter(|&d| corners.iter().all(|&c| cube.vertices.0[c][d] == cube.vertices.0[w0][d]))
                .count();
            assert_eq!(shared, n - 2);
            assert!(squares.insert(corners));
        }
        assert_eq!(squares.len(), binomial(n, 2) * (1 << (n - 2)));
    }
}

#[test]
fn shared_dimensions_of_points() {
    let a = vec![1, 1, -1];
    let b = vec![1, -1, -1];
    let c = vec![-1, -1, -1];
    assert_eq!(shared_dimensions(&[&a, &b]), vec![0, 2]);
    assert_eq!(shared_dimensions(&[&a, &b, &c]), vec![2]);
    assert_eq!(shared_dimensions(&[&a]), vec![0, 1, 2]);
}
