use slmsttaa::draw::{
    edge_indices, flatten_layers, grown_capacity, pass_draws, plan_draws, run_byte_offsets, DrawItem, DrawRun, MeshHandle,
    Pipeline, RenderMode,
};
use slmsttaa::graph::PassKind;

fn item(mesh: usize, transparent: bool) -> DrawItem {
    DrawItem { mesh: MeshHandle::new(mesh), transparent }
}

#[test]
fn opaque_first_then_by_mesh_keeping_the_consumers_order() {
    let items = [item(1, true), item(0, false), item(1, false), item(0, false), item(1, true), item(0, true)];
    let plan = plan_draws(&items, 2);
    assert_eq!(plan.order, vec![1, 3, 2, 5, 0, 4]);
    assert_eq!(
        plan.runs,
        vec![
            DrawRun { mesh: 0, first: 0, count: 2, transparent: false },
            DrawRun { mesh: 1, first: 2, count: 1, transparent: false },
            DrawRun { mesh: 0, first: 3, count: 1, transparent: true },
            DrawRun { mesh: 1, first: 4, count: 2, transparent: true },
        ]
    );
}

#[test]
fn no_instances_no_draws() {
    let plan = plan_draws(&[], 0);
    assert!(plan.order.is_empty());
    assert!(plan.runs.is_empty());
}

#[test]
fn each_pass_draws_its_half() {
    let runs = [
        DrawRun { mesh: 0, first: 0, count: 2, transparent: false },
        DrawRun { mesh: 1, first: 2, count: 1, transparent: false },
        DrawRun { mesh: 0, first: 3, count: 1, transparent: true },
    ];
    let counts = [36, 0];
    let opaque = pass_draws(PassKind::Opaque, RenderMode::Solid, &runs, &counts).unwrap();
    assert_eq!(opaque.pipeline, Pipeline::Solid);
    assert_eq!(opaque.draws, vec![(0, 36)]);
    let blended = pass_draws(PassKind::Blended, RenderMode::Solid, &runs, &counts).unwrap();
    assert_eq!(blended.pipeline, Pipeline::Blend);
    assert_eq!(blended.draws, vec![(2, 36)]);
    let lines = pass_draws(PassKind::Opaque, RenderMode::Wireframe, &runs, &[24, 10]).unwrap();
    assert_eq!(lines.pipeline, Pipeline::Lines);
    assert_eq!(lines.draws, vec![(0, 24), (1, 10), (2, 24)]);
    assert!(pass_draws(PassKind::Blended, RenderMode::Wireframe, &runs, &counts).is_none());
    assert_eq!(RenderMode::default(), RenderMode::Solid);
}

#[test]
fn capacity_grows_to_powers_of_two_and_never_shrinks() {
    assert_eq!(grown_capacity(5, 0), 8);
    assert_eq!(grown_capacity(8, 0), 8);
    assert_eq!(grown_capacity(9, 8), 16);
    assert_eq!(grown_capacity(3, 16), 16);
    assert_eq!(grown_capacity(1, 0), 1);
    assert_eq!(grown_capacity(0, 0), 0);
}

#[test]
fn shared_edges_are_drawn_once() {
    let quad = [0, 1, 2, 0, 2, 3];
    assert_eq!(edge_indices(&quad), vec![0, 1, 1, 2, 2, 0, 2, 3, 3, 0]);
    assert_eq!(edge_indices(&[0, 1, 2, 9]), vec![0, 1, 1, 2, 2, 0]);
    assert!(edge_indices(&[]).is_empty());
    assert_eq!(MeshHandle::new(3).index(), 3);
}

#[test]
fn each_edge_is_drawn_once() {
    assert_eq!(edge_indices(&[0, 1, 2, 2, 1, 3]), vec![0, 1, 1, 2, 2, 0, 1, 3, 3, 2]);
    let fan = [0, 1, 2, 0, 2, 3, 0, 3, 1];
    let lines = edge_indices(&fan);
    assert_eq!(lines.len(), 12);
    let mut seen = Vec::new();
    for pair in lines.chunks(2) {
        let key = (pair[0].min(pair[1]), pair[0].max(pair[1]));
        assert!(!seen.contains(&key));
        seen.push(key);
    }
}

#[test]
fn overlay_layers_join_back_to_front() {
    let layers = vec![vec![0, 1, 2], vec![], vec![4, 5, 6, 4, 6, 7]];
    assert_eq!(flatten_layers(&layers), Some(vec![0, 1, 2, 4, 5, 6, 4, 6, 7]));
    assert_eq!(flatten_layers(&[vec![], vec![]]), None);
    assert_eq!(flatten_layers(&[]), None);
}

#[test]
fn each_run_starts_after_the_instances_of_earlier_runs() {
    let items = vec![
        DrawItem { mesh: MeshHandle::new(1), transparent: false },
        DrawItem { mesh: MeshHandle::new(0), transparent: true },
        DrawItem { mesh: MeshHandle::new(1), transparent: false },
        DrawItem { mesh: MeshHandle::new(0), transparent: false },
    ];
    let plan = plan_draws(&items, 2);
    let offsets = run_byte_offsets(&plan.runs, 64);
    assert_eq!(offsets, vec![0, 64, 192]);
    let total: usize = plan.runs.iter().map(|r| r.count).sum();
    assert_eq!(total, items.len());
}
