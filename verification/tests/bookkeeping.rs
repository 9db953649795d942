use black_sheep::mesh_repo::{cleanup, init, Mesh, MeshRepo, Texture, UniqueIndexer};
use black_sheep::script::{DebthStack, Iterations, MoveAtoB};
use black_sheep::timing::{CatchupTimer, MS_PER_UPDATE};

#[test]
fn unique_indexer_counts_up() {
    let mut ix = UniqueIndexer::new();
    assert_eq!(ix.get_next(), 0);
    assert_eq!(ix.get_next(), 1);
    assert_eq!(ix.get_next(), 2);
}

#[test]
fn mesh_repo_add_find_remove() {
    let mut repo: MeshRepo = init();
    let mut m = Mesh::new(7);
    m.vertex_count = 36;
    let token = repo.add_mesh(String::from("ape"), m);
    assert_eq!(token.uid, 0);
    assert_eq!(token.array_id, 7);
    assert_eq!(token.vertex_count, 36);
    assert_eq!(token.bind_vertex_array(), 7);
    assert_eq!(token.draw_triangle_elements(), 36);

    let m2 = Mesh::new(9);
    let t2 = repo.add_mesh(String::from("torus"), m2);
    assert_eq!(t2.uid, 1);

    let found = repo.get_mesh_by_name(&String::from("ape")).unwrap();
    assert_eq!(found.array_id, 7);
    assert_eq!(found.downgrade().vertex_count, 36);
    assert!(repo.get_mesh_by_uid(1).is_some());
    assert!(repo.get_mesh_by_uid(5).is_none());

    let handles = cleanup(&repo);
    assert_eq!(handles, vec![7, 9]);

    repo.remove_mesh(&String::from("ape"));
    assert!(repo.get_mesh_by_name(&String::from("ape")).is_none());
    assert!(repo.get_mesh_by_name(&String::from("torus")).is_some());
}

#[test]
fn mesh_defaults_match_construction() {
    let m = Mesh::new(3);
    assert_eq!(m.uid, 0);
    assert_eq!(m.array_id, 3);
    assert_eq!(m.vertex_count, -1);
    assert_eq!(m.bind_vertex_array(), 3);
    assert_eq!(m.draw_point_elements(), -1);
    let t = Texture::new(11);
    assert_eq!(t.0, 11);
}

#[test]
fn debth_stack_tracks_depths() {
    let mut s = DebthStack::new();
    assert_eq!(s.pop(), None);
    s.push();
    s.push();
    s.advance();
    s.advance();
    s.push();
    s.advance();
    assert_eq!(s.pop(), Some(1));
    assert_eq!(s.pop(), Some(3));
    assert_eq!(s.pop(), Some(3));
    assert_eq!(s.pop(), None);
}

#[test]
fn iterations_counts_down() {
    let mut it = Iterations::new(2);
    assert!(it.is_met());
    assert!(it.is_met());
    assert!(!it.is_met());
    assert!(!it.is_met());
    let mv = MoveAtoB::new(String::from("warrior"), String::from("mark"));
    assert_eq!(mv.a, "warrior");
    assert_eq!(mv.b, "mark");
}

#[test]
fn catchup_timer_consumes_lag() {
    let mut t = CatchupTimer::new();
    assert!(!t.should_update(10));
    assert!(t.should_update(20));
    assert_eq!(t.lag, 20 - MS_PER_UPDATE);
    assert!(!t.should_update(22));
    assert!(t.should_update(32));
}
