use simplicial_homology::bits::Simplex;
use simplicial_homology::error::Error;
use simplicial_homology::homology::{decimal, homology_groups, HomologyGroup};
use simplicial_homology::matrix::Matrix;
use simplicial_homology::parser::parse_complex;
use simplicial_homology::simplex::{faces, position, simplex_of_vec, SimplicialComplex};

fn vertices(s: &Simplex) -> Vec<usize> {
    (0..s.len()).filter(|v| s.contains(*v)).collect()
}

fn group(free: usize, torsion: Vec<usize>) -> HomologyGroup {
    HomologyGroup { free, torsion }
}

#[test]
fn test_homology() {
    let test_cases = vec![(
        // Klein bottle
        "[
            [1, 4, 6],
            [1, 2, 6],
            [2, 6, 7],
            [2, 3, 7],
            [1, 3, 7],
            [1, 4, 7],
            [4, 5, 9],
            [4, 6, 9],
            [6, 8, 9],
            [6, 7, 8],
            [5, 7, 8],
            [4, 5, 7],
            [1, 5, 9],
            [1, 3, 9],
            [2, 3, 9],
            [2, 8, 9],
            [1, 2, 8],
            [1, 5, 8] 
            ]",
        vec![
            HomologyGroup {
                free: 1,
                torsion: vec![],
            },
            HomologyGroup {
                free: 1,
                torsion: vec![2],
            },
            HomologyGroup {
                free: 0,
                torsion: vec![],
            },
        ],
    )];

    for (str, hom) in test_cases.iter() {
        let simp = SimplicialComplex::new(parse_complex(str).unwrap().1).unwrap();
        assert_eq!(&homology_groups(simp).unwrap(), hom);
    }
}

#[test]
fn homology_of_triangle_boundary() {
    let c = SimplicialComplex::new(vec![vec![0, 1], vec![1, 2], vec![0, 2]]).unwrap();
    assert_eq!(homology_groups(c).unwrap(), vec![group(1, vec![]), group(1, vec![])]);
}

#[test]
fn homology_of_filled_triangle() {
    let c = SimplicialComplex::new(vec![vec![0, 1, 2]]).unwrap();
    assert_eq!(
        homology_groups(c).unwrap(),
        vec![group(1, vec![]), group(0, vec![]), group(0, vec![])]
    );
}

#[test]
fn homology_of_a_point_and_of_two_points() {
    let c = SimplicialComplex::new(vec![vec![0]]).unwrap();
    assert_eq!(homology_groups(c).unwrap(), vec![group(1, vec![])]);
    let c = SimplicialComplex::new(vec![vec![0], vec![3]]).unwrap();
    assert_eq!(homology_groups(c).unwrap(), vec![group(2, vec![])]);
}

#[test]
fn homology_of_hollow_tetrahedron() {
    let c = SimplicialComplex::new(vec![
        vec![0, 1, 2],
        vec![0, 1, 3],
        vec![0, 2, 3],
        vec![1, 2, 3],
    ])
    .unwrap();
    assert_eq!(
        homology_groups(c).unwrap(),
        vec![group(1, vec![]), group(0, vec![]), group(1, vec![])]
    );
}

#[test]
fn homology_of_projective_plane() {
    let c = SimplicialComplex::new(vec![
        vec![0, 1, 4],
        vec![0, 1, 5],
        vec![0, 2, 3],
        vec![0, 2, 5],
        vec![0, 3, 4],
        vec![1, 2, 3],
        vec![1, 2, 4],
        vec![1, 3, 5],
        vec![2, 4, 5],
        vec![3, 4, 5],
    ])
    .unwrap();
    let groups = homology_groups(c).unwrap();
    assert_eq!(groups, vec![group(1, vec![]), group(0, vec![2]), group(0, vec![])]);
    for g in groups.iter() {
        for i in 0..g.torsion.len() {
            assert!(g.torsion[i] >= 2);
            if i + 1 < g.torsion.len() {
                assert_eq!(g.torsion[i + 1] % g.torsion[i], 0);
            }
        }
    }
}

#[test]
fn group_from_normal_forms() {
    let a0 = Matrix::from_rows(&vec![vec![1, 0, 0], vec![0, 0, 0]]).unwrap();
    let a1 = Matrix::from_rows(&vec![vec![1, 0], vec![0, 6], vec![0, 0]]).unwrap();
    assert_eq!(HomologyGroup::from_normal_forms(&a0, &a1), Ok(group(0, vec![6])));
    let a1 = Matrix::from_rows(&vec![vec![2, 0], vec![0, 4], vec![0, 0]]).unwrap();
    assert_eq!(HomologyGroup::from_normal_forms(&a0, &a1), Ok(group(0, vec![2, 4])));
    let a1 = Matrix::from_rows(&vec![vec![0, 0], vec![0, 0], vec![0, 0]]).unwrap();
    assert_eq!(HomologyGroup::from_normal_forms(&a0, &a1), Ok(group(2, vec![])));
}

#[test]
fn group_from_normal_forms_rejects() {
    let a0 = Matrix::from_rows(&vec![vec![1, 0], vec![0, 1]]).unwrap();
    let a1 = Matrix::from_rows(&vec![vec![1, 0], vec![0, 1]]).unwrap();
    assert_eq!(
        HomologyGroup::from_normal_forms(&a0, &a1),
        Err(Error::InternalInvariant)
    );
    let a1 = Matrix::from_rows(&vec![vec![-2, 0], vec![0, 0]]).unwrap();
    assert_eq!(HomologyGroup::from_normal_forms(&a0, &a1), Err(Error::Overflow));
    let a1 = Matrix::from_rows(&vec![vec![i128::MAX, 0], vec![0, 0]]).unwrap();
    assert_eq!(HomologyGroup::from_normal_forms(&a0, &a1), Err(Error::Overflow));
}

#[test]
fn group_between_boundary_maps() {
    let d0 = Matrix::zeros(0, 3).unwrap();
    let d1 = Matrix::from_rows(&vec![vec![-1, -1, 0], vec![1, 0, -1], vec![0, 1, 1]]).unwrap();
    assert_eq!(HomologyGroup::of_boundary_maps(&d0, &d1), Ok(group(1, vec![])));
    let d1 = Matrix::from_rows(&vec![vec![i128::MIN], vec![1], vec![0]]).unwrap();
    assert_eq!(HomologyGroup::of_boundary_maps(&d0, &d1), Err(Error::Overflow));
}

#[test]
fn groups_as_text() {
    assert_eq!(group(1, vec![]).to_string(), "Z^1");
    assert_eq!(group(0, vec![]).to_string(), "Z^0");
    assert_eq!(group(1, vec![2]).to_string(), "Z^1 x Z/2Z");
    assert_eq!(group(0, vec![2, 12]).to_string(), "Z^0 x Z/2Z x Z/12Z");
    assert_eq!(group(10, vec![345]).to_string(), "Z^10 x Z/345Z");
    assert_eq!(decimal(0), "0");
    assert_eq!(decimal(9), "9");
    assert_eq!(decimal(10), "10");
    assert_eq!(decimal(1234567890), "1234567890");
    assert_eq!(decimal(usize::MAX), usize::MAX.to_string());
}

#[test]
fn complex_is_the_closure_of_its_facets() {
    let c = SimplicialComplex::new(vec![vec![0, 1, 2], vec![2, 3]]).unwrap();
    assert_eq!(c.vertex_count(), 4);
    assert_eq!(c.dimension(), 2);
    let counts: Vec<usize> = (0..5).map(|k| c.boundary_map(k).unwrap().ncols()).collect();
    assert_eq!(counts, vec![4, 4, 1, 0, 0]);
    let rows: Vec<usize> = (0..5).map(|k| c.boundary_map(k).unwrap().nrows()).collect();
    assert_eq!(rows, vec![0, 4, 4, 1, 0]);
}

#[test]
fn complex_ignores_repeated_facets_and_vertex_order() {
    let c = SimplicialComplex::new(vec![vec![2, 0, 1], vec![0, 1, 2], vec![1, 1, 0]]).unwrap();
    assert_eq!(c.dimension(), 2);
    assert_eq!(c.boundary_map(0).unwrap().ncols(), 3);
    assert_eq!(c.boundary_map(1).unwrap().ncols(), 3);
    assert_eq!(c.boundary_map(2).unwrap().ncols(), 1);
}

#[test]
fn complex_rejects_bad_input() {
    assert_eq!(SimplicialComplex::new(vec![]).err(), Some(Error::InputMalformed));
    assert_eq!(
        SimplicialComplex::new(vec![vec![0, 1], vec![]]).err(),
        Some(Error::InputMalformed)
    );
    assert_eq!(
        SimplicialComplex::new(vec![vec![usize::MAX]]).err(),
        Some(Error::Overflow)
    );
    assert_eq!(
        SimplicialComplex::new(vec![vec![0], vec![usize::MAX / 8]]).err(),
        Some(Error::Overflow)
    );
}

#[test]
fn boundary_of_an_edge_and_of_a_triangle() {
    let c = SimplicialComplex::new(vec![vec![0, 1, 2]]).unwrap();
    let d0 = c.boundary_map(0).unwrap();
    assert_eq!((d0.nrows(), d0.ncols()), (0, 3));
    let d1 = c.boundary_map(1).unwrap();
    let d2 = c.boundary_map(2).unwrap();
    assert_eq!((d1.nrows(), d1.ncols()), (3, 3));
    assert_eq!((d2.nrows(), d2.ncols()), (3, 1));
    // every edge has one vertex with +1 and one with -1
    for j in 0..3 {
        let column: Vec<i128> = (0..3).map(|i| d1.get(i, j)).collect();
        let mut sorted = column.clone();
        sorted.sort();
        assert_eq!(sorted, vec![-1, 0, 1]);
    }
    // the triangle's boundary has signs +, -, + over the edges opposite to 0, 1, 2
    let column: Vec<i128> = (0..3).map(|i| d2.get(i, 0)).collect();
    assert_eq!(column.iter().filter(|x| **x == 1).count(), 2);
    assert_eq!(column.iter().filter(|x| **x == -1).count(), 1);
    // boundary squared is zero
    for i in 0..3 {
        let entry: i128 = (0..3).map(|k| d1.get(i, k) * d2.get(k, 0)).sum();
        assert_eq!(entry, 0);
    }
}

#[test]
fn boundary_squared_is_zero_on_a_tetrahedron() {
    let c = SimplicialComplex::new(vec![vec![0, 1, 2, 3]]).unwrap();
    for k in 1..=4 {
        let low = c.boundary_map(k - 1).unwrap();
        let high = c.boundary_map(k).unwrap();
        assert_eq!(low.ncols(), high.nrows());
        for i in 0..low.nrows() {
            for j in 0..high.ncols() {
                let entry: i128 = (0..low.ncols()).map(|x| low.get(i, x) * high.get(x, j)).sum();
                assert_eq!(entry, 0);
            }
        }
    }
}

#[test]
fn faces_in_vertex_order_with_alternating_signs() {
    let s = simplex_of_vec(&vec![4, 1, 2], 6);
    assert_eq!(vertices(&s), vec![1, 2, 4]);
    assert_eq!(s.count_ones(), 3);
    let fs = faces(&s);
    assert_eq!(fs.len(), 3);
    assert_eq!(fs[0].vertex, 1);
    assert_eq!(vertices(&fs[0].simplex), vec![2, 4]);
    assert!(fs[0].sign);
    assert_eq!(fs[1].vertex, 2);
    assert_eq!(vertices(&fs[1].simplex), vec![1, 4]);
    assert!(!fs[1].sign);
    assert_eq!(fs[2].vertex, 4);
    assert_eq!(vertices(&fs[2].simplex), vec![1, 2]);
    assert!(fs[2].sign);
}

#[test]
fn simplices_as_bit_sets() {
    let mut s = Simplex::empty(5);
    assert_eq!(s.len(), 5);
    assert_eq!(s.count_ones(), 0);
    s.set(3, true);
    s.set(0, true);
    assert!(s.contains(3));
    assert!(!s.contains(1));
    assert_eq!(s.count_ones(), 2);
    let copy = s.duplicate();
    assert!(copy.same(&s));
    s.set(3, false);
    assert!(!copy.same(&s));
    assert_eq!(vertices(&copy), vec![0, 3]);
    assert!(!Simplex::empty(4).same(&Simplex::empty(5)));
    let list = vec![simplex_of_vec(&vec![0], 3), simplex_of_vec(&vec![1, 2], 3)];
    assert_eq!(position(&list, &simplex_of_vec(&vec![2, 1], 3)), Some(1));
    assert_eq!(position(&list, &simplex_of_vec(&vec![2], 3)), None);
}
