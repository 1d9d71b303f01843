use dif_core::features::component_features;
use dif_core::regions::{components, find, singletons, union};

#[test]
fn singletons_are_their_own_roots() {
    let mut p = singletons(5);
    assert_eq!(p, vec![0, 1, 2, 3, 4]);
    for x in 0..5 {
        assert_eq!(find(&mut p, x), x);
    }
}

#[test]
fn union_roots_at_the_smaller_root() {
    let mut p = singletons(6);
    union(&mut p, 4, 5);
    union(&mut p, 2, 4);
    assert_eq!(find(&mut p, 5), 2);
    assert_eq!(find(&mut p, 4), 2);
    union(&mut p, 5, 1);
    for x in [1, 2, 4, 5] {
        assert_eq!(find(&mut p, x), 1);
    }
    assert_eq!(find(&mut p, 0), 0);
    assert_eq!(find(&mut p, 3), 3);
    // joining two nodes of one component changes nothing
    let before: Vec<u32> = (0..6).map(|x| find(&mut p, x)).collect();
    union(&mut p, 2, 5);
    let after: Vec<u32> = (0..6).map(|x| find(&mut p, x)).collect();
    assert_eq!(before, after);
}

#[test]
fn find_halves_long_paths() {
    // a chain 4 -> 3 -> 2 -> 1 -> 0
    let mut p = vec![0, 0, 1, 2, 3];
    assert_eq!(find(&mut p, 4), 0);
    assert_eq!(p, vec![0, 0, 0, 2, 2]);
    for x in 0..5 {
        assert_eq!(find(&mut p, x), 0);
    }
}

#[test]
fn components_join_equal_neighbours_only() {
    // 3x2 plane:  0 0 1
    //             2 0 1
    let idx = [0u32, 0, 1, 2, 0, 1];
    let mut p = components(3, 2, &idx);
    let roots: Vec<u32> = (0..6).map(|x| find(&mut p, x)).collect();
    assert_eq!(roots, vec![0, 0, 2, 3, 0, 2]);
}

#[test]
fn stroke_features_in_a_fill() {
    let (w, h) = (20usize, 20usize);
    let mut indices = vec![0u32; w * h];
    for y in 5..15 {
        indices[y * w + 10] = 1;
    }
    let mut p = components(w, h, &indices);
    let comps = component_features(w, h, &indices, &mut p);
    let stroke = comps[5 * w + 10];
    assert_eq!(stroke.area, 10);
    assert_eq!(stroke.perimeter, 22);
    assert_eq!(stroke.index, 1);
    assert!(stroke.has_nbr);
    assert_eq!((stroke.best_nbr_index, stroke.best_nbr_count), (0, 22));
    let fill = comps[0];
    assert_eq!(fill.area, 390);
    assert_eq!(fill.perimeter, 80 + 22);
    assert_eq!(fill.index, 0);
    assert_eq!((fill.best_nbr_index, fill.best_nbr_count), (1, 22));
    // a non-root position accumulates nothing
    assert_eq!(comps[1].area, 0);
    assert!(!comps[1].has_nbr);
    for x in 0..(w * h) as u32 {
        let r = find(&mut p, x);
        assert!(r == 0 || r == (5 * w + 10) as u32);
    }
}

#[test]
fn dominant_neighbour_ties_go_to_the_smaller_index() {
    // 3x1 plane: 7 5 3 -> the middle pixel touches 7 and 3 once each.
    let idx = [7u32, 5, 3];
    let mut p = components(3, 1, &idx);
    let comps = component_features(3, 1, &idx, &mut p);
    assert_eq!(comps[1].area, 1);
    assert_eq!(comps[1].perimeter, 4);
    assert_eq!((comps[1].best_nbr_index, comps[1].best_nbr_count), (3, 1));
    // a lone uniform plane has no neighbour at all
    let flat = [4u32; 4];
    let mut p = components(2, 2, &flat);
    let comps = component_features(2, 2, &flat, &mut p);
    assert_eq!(comps[0].area, 4);
    assert_eq!(comps[0].perimeter, 8);
    assert!(!comps[0].has_nbr);
}
