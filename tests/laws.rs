use sodg::{Hex, Sodg, SodgError};

#[test]
fn adding_twice_keeps_one_vertex() {
    let mut g = Sodg::empty();
    assert!(g.add(7).is_ok());
    assert!(g.add(7).is_ok());
    assert_eq!(1, g.len());
    assert!(g.contains(7));
}

#[test]
fn bind_replaces_and_moves_the_parent() {
    let mut g = Sodg::empty();
    g.add(1).unwrap();
    g.add(2).unwrap();
    g.add(3).unwrap();
    g.bind(1, 2, "foo").unwrap();
    g.bind(1, 3, "foo").unwrap();
    assert_eq!(Some(3), g.kid(1, "foo"));
    assert_eq!(1, g.kids(1).unwrap().len());
    assert!(!g.vertices[&2].parents.contains(&1));
    assert!(g.vertices[&3].parents.contains(&1));
}

#[test]
fn rebinding_keeps_the_edge_in_place() {
    let mut g = Sodg::empty();
    for v in 0..4 {
        g.add(v).unwrap();
    }
    g.bind(0, 1, "a").unwrap();
    g.bind(0, 2, "b").unwrap();
    g.bind(0, 3, "a").unwrap();
    let kids = g.kids(0).unwrap();
    assert_eq!(vec![("a".to_string(), 3), ("b".to_string(), 2)], kids);
}

#[test]
fn parent_stays_while_another_edge_reaches_it() {
    let mut g = Sodg::empty();
    g.add(1).unwrap();
    g.add(2).unwrap();
    g.add(3).unwrap();
    g.bind(1, 2, "x").unwrap();
    g.bind(1, 2, "y").unwrap();
    g.bind(1, 3, "x").unwrap();
    assert!(g.vertices[&2].parents.contains(&1));
    assert!(g.vertices[&3].parents.contains(&1));
}

#[test]
fn parents_mirror_edges() {
    let mut g = Sodg::empty();
    for v in 0..4 {
        g.add(v).unwrap();
    }
    g.bind(0, 1, "a").unwrap();
    g.bind(2, 1, "b").unwrap();
    g.bind(1, 3, "c").unwrap();
    for v1 in 0..4u32 {
        for v2 in 0..4u32 {
            let edge = g.kids(v1).unwrap().iter().any(|(_, to)| *to == v2);
            assert_eq!(edge, g.vertices[&v2].parents.contains(&v1));
        }
    }
}

#[test]
fn rejects_self_loop_and_empty_label() {
    let mut g = Sodg::empty();
    g.add(1).unwrap();
    g.add(2).unwrap();
    assert!(matches!(g.bind(1, 1, "x"), Err(SodgError::InvalidArgument)));
    assert!(matches!(g.bind(1, 2, ""), Err(SodgError::InvalidArgument)));
    assert_eq!(0, g.kids(1).unwrap().len());
}

#[test]
fn reports_absent_vertices() {
    let mut g = Sodg::empty();
    g.add(1).unwrap();
    assert!(matches!(g.bind(5, 1, "x"), Err(SodgError::NotFound(5))));
    assert!(matches!(g.bind(1, 6, "x"), Err(SodgError::NotFound(6))));
    assert!(matches!(g.put(7, &Hex::empty()), Err(SodgError::NotFound(7))));
    assert!(matches!(g.data(8), Err(SodgError::NotFound(8))));
    assert!(matches!(g.kids(9), Err(SodgError::NotFound(9))));
    assert!(matches!(g.find(1, "nothing"), Err(SodgError::NotFound(1))));
    assert!(matches!(g.find(1, "ν42"), Err(SodgError::NotFound(42))));
    assert!(matches!(g.find(3, ""), Err(SodgError::NotFound(3))));
}

#[test]
fn finds_by_absolute_id() {
    let mut g = Sodg::empty();
    g.add(0).unwrap();
    g.add(42).unwrap();
    assert_eq!(42, g.find(0, "ν42").unwrap());
    assert!(matches!(g.find(0, "ν99999999999"), Err(SodgError::NotFound(0))));
}

#[test]
fn gc_reclaims_a_consumed_leaf() {
    let mut g = Sodg::empty();
    g.gc_on();
    g.add(0).unwrap();
    g.put(0, &Hex::from_vec(vec![1, 2, 3])).unwrap();
    assert_eq!(vec![1, 2, 3], g.data(0).unwrap().to_vec());
    assert_eq!(0, g.len());
}

#[test]
fn gc_cascades_down_a_chain() {
    let mut g = Sodg::empty();
    g.gc_on();
    for v in 0..3 {
        g.add(v).unwrap();
    }
    g.bind(0, 1, "a").unwrap();
    g.bind(1, 2, "b").unwrap();
    g.data(2).unwrap();
    g.data(1).unwrap();
    assert_eq!(3, g.len());
    g.data(0).unwrap();
    assert_eq!(0, g.len());
}

#[test]
fn gc_respects_shared_parents() {
    let mut g = Sodg::empty();
    g.gc_on();
    for v in 1..5 {
        g.add(v).unwrap();
    }
    g.bind(1, 3, "x").unwrap();
    g.bind(2, 3, "y").unwrap();
    g.data(3).unwrap();
    assert!(g.contains(3));
    g.bind(1, 4, "x").unwrap();
    assert!(!g.vertices[&3].parents.contains(&1));
    g.data(3).unwrap();
    assert!(g.contains(3));
    assert_eq!(4, g.len());
}

#[test]
fn gc_off_only_marks_as_read() {
    let mut g = Sodg::empty();
    g.add(0).unwrap();
    g.data(0).unwrap();
    assert!(g.contains(0));
    assert!(g.vertices[&0].taken);
}

#[test]
fn slice_is_independent_of_its_source() {
    let mut g = Sodg::empty();
    g.add(0).unwrap();
    g.add(1).unwrap();
    g.bind(0, 1, "foo").unwrap();
    g.add(2).unwrap();
    g.bind(0, 2, "bar").unwrap();
    let mut s = g.slice("foo").unwrap();
    assert_eq!(1, s.len());
    assert!(s.contains(1));
    s.add(10).unwrap();
    assert_eq!(2, s.len());
    assert_eq!(3, g.len());
    let whole = g.slice("").unwrap();
    assert_eq!(3, whole.len());
}

#[test]
fn partial_slice_keeps_edges_that_leave_it() {
    let mut g = Sodg::empty();
    g.add(0).unwrap();
    g.add(1).unwrap();
    g.bind(0, 1, "foo").unwrap();
    g.add(2).unwrap();
    g.bind(1, 2, "bar").unwrap();
    let s = g.slice_some("foo", |_, _, _| false).unwrap();
    assert_eq!(1, s.len());
    assert_eq!(vec![("bar".to_string(), 2)], s.kids(1).unwrap());
    assert!(!s.contains(2));
}

#[test]
fn clone_is_independent() {
    let mut g = Sodg::empty();
    g.add(0).unwrap();
    g.add(1).unwrap();
    g.bind(0, 1, "foo").unwrap();
    let mut c = g.clone();
    assert_eq!(2, c.len());
    assert_eq!(g.kids(0).unwrap(), c.kids(0).unwrap());
    assert!(!c.alerts_active);
    assert_eq!(0, c.alerts.len());
    c.add(9).unwrap();
    assert_eq!(3, c.len());
    assert_eq!(2, g.len());
}

#[test]
fn hands_out_ids_in_order() {
    let mut g = Sodg::empty();
    assert_eq!(0, g.next_id());
    assert_eq!(1, g.next_id());
    assert_eq!(2, g.next_v);
}

#[test]
fn bind_reports_absent_vertices_first() {
    let mut g = Sodg::empty();
    assert!(matches!(g.bind(1, 1, "x"), Err(SodgError::NotFound(1))));
    assert!(matches!(g.bind(1, 2, ""), Err(SodgError::NotFound(1))));
    g.add(1).unwrap();
    assert!(matches!(g.bind(1, 2, ""), Err(SodgError::NotFound(2))));
    assert!(matches!(g.bind(1, 1, "x"), Err(SodgError::InvalidArgument)));
    assert_eq!(0, g.kids(1).unwrap().len());
}

#[test]
fn gc_leaves_unrelated_read_vertices() {
    let mut g = Sodg::empty();
    g.add(5).unwrap();
    g.data(5).unwrap();
    g.gc_on();
    g.add(0).unwrap();
    g.data(0).unwrap();
    assert!(!g.contains(0));
    assert!(g.contains(5));
}

#[test]
fn slice_can_be_changed_and_read() {
    let mut g = Sodg::empty();
    g.add(0).unwrap();
    g.add(1).unwrap();
    g.bind(0, 1, "foo").unwrap();
    g.add(2).unwrap();
    g.bind(1, 2, "bar").unwrap();
    let mut s = g.slice_some("foo", |_, _, _| false).unwrap();
    assert!(matches!(s.find(1, "bar"), Err(SodgError::NotFound(1))));
    assert_eq!(None, s.kid(1, "baz"));
    assert_eq!(Some(2), s.kid(1, "bar"));
    s.add(5).unwrap();
    s.put(5, &Hex::from_vec(vec![9])).unwrap();
    assert_eq!(vec![9], s.data(5).unwrap().to_vec());
    assert_eq!(2, s.len());
    assert_eq!(3, g.len());
    assert_eq!(vec![("foo".to_string(), 1)], g.kids(0).unwrap());
}
