use slmsttaa::graph::{GraphError, Load, Pass, PassKind, RenderGraph, ResourceFormat, ResourceId};

fn engine_frame() -> RenderGraph {
    let mut graph = RenderGraph::new();
    let color = graph.resource("scene color", ResourceFormat::Color);
    let depth = graph.resource("scene depth", ResourceFormat::Depth);
    let swapchain = ResourceId::swapchain();
    graph.pass(Pass::new("sky", PassKind::Sky).writes(color, Load::Clear));
    graph.pass(
        Pass::new("opaque", PassKind::Opaque)
            .writes(color, Load::Keep)
            .depth(depth, Load::ClearDepth, true),
    );
    graph.pass(Pass::new("composite", PassKind::Composite).reads(&[color]).writes(swapchain, Load::Clear));
    graph.pass(
        Pass::new("blended", PassKind::Blended)
            .reads(&[color, depth])
            .writes(swapchain, Load::Keep)
            .depth(depth, Load::Keep, false),
    );
    graph.pass(Pass::new("overlay", PassKind::Overlay).writes(swapchain, Load::Keep));
    graph
}

#[test]
fn the_engine_frame_is_ordered_by_its_dependencies() {
    let mut graph = engine_frame();
    assert!(graph.build().is_ok());
    let labels: Vec<&str> = graph.order().iter().map(|&i| graph.pass_label(i)).collect();
    assert_eq!(labels, vec!["sky", "opaque", "composite", "blended", "overlay"]);
    assert!(graph.is_sampled(ResourceId(1)));
    assert!(graph.is_sampled(ResourceId(2)));
    assert!(!graph.is_sampled(ResourceId::swapchain()));
    assert_eq!(graph.resource_count(), 3);
    assert_eq!(graph.format(ResourceId(2)), ResourceFormat::Depth);
    assert_eq!(graph.label(ResourceId(1)), "scene color");
    let record = graph.record();
    assert_eq!(record.len(), 5);
    assert_eq!(record[0].kind, PassKind::Sky);
}

#[test]
fn independent_passes_keep_declaration_order() {
    let mut graph = RenderGraph::new();
    let a = graph.resource("a", ResourceFormat::Color);
    let b = graph.resource("b", ResourceFormat::Color);
    graph.pass(Pass::new("second", PassKind::Opaque).writes(b, Load::Clear));
    graph.pass(Pass::new("first", PassKind::Sky).writes(a, Load::Clear));
    assert!(graph.build().is_ok());
    assert_eq!(graph.order(), &vec![0, 1]);
}

#[test]
fn a_sampler_waits_for_its_writer_whatever_the_declaration_order() {
    let mut graph = RenderGraph::new();
    let color = graph.resource("c", ResourceFormat::Color);
    graph.pass(Pass::new("composite", PassKind::Composite).reads(&[color]).writes(ResourceId::swapchain(), Load::Clear));
    graph.pass(Pass::new("sky", PassKind::Sky).writes(color, Load::Clear));
    assert!(graph.build().is_ok());
    assert_eq!(graph.order(), &vec![1, 0]);
}

#[test]
fn sampling_your_own_target_is_refused() {
    let mut graph = RenderGraph::new();
    let color = graph.resource("c", ResourceFormat::Color);
    graph.pass(Pass::new("ok", PassKind::Sky).writes(color, Load::Clear));
    graph.pass(Pass::new("bad", PassKind::Opaque).reads(&[color]).writes(color, Load::Keep));
    match graph.build() {
        Err(GraphError::ReadsItsOwnTarget { pass, resource }) => {
            assert_eq!(pass, 1);
            assert_eq!(resource, color);
        }
        other => panic!("expected a refusal, got {other:?}"),
    }
}

#[test]
fn sampling_the_swapchain_is_refused() {
    let mut graph = RenderGraph::new();
    let color = graph.resource("c", ResourceFormat::Color);
    graph.pass(Pass::new("peek", PassKind::Composite).reads(&[ResourceId::swapchain()]).writes(color, Load::Clear));
    assert!(matches!(graph.build(), Err(GraphError::SampledSwapchain)));
}

#[test]
fn a_cycle_names_the_stuck_passes() {
    let mut graph = RenderGraph::new();
    let a = graph.resource("a", ResourceFormat::Color);
    let b = graph.resource("b", ResourceFormat::Color);
    let c = graph.resource("c", ResourceFormat::Color);
    graph.pass(Pass::new("free", PassKind::Sky).writes(c, Load::Clear));
    graph.pass(Pass::new("x", PassKind::Opaque).reads(&[b]).writes(a, Load::Clear));
    graph.pass(Pass::new("y", PassKind::Blended).reads(&[a]).writes(b, Load::Clear));
    match graph.build() {
        Err(GraphError::Cycle { stuck }) => assert_eq!(stuck, vec![1, 2]),
        other => panic!("expected a cycle, got {other:?}"),
    }
}

#[test]
fn every_graph_owned_texture_is_allocated_at_a_nonzero_size() {
    let mut graph = engine_frame();
    assert!(graph.build().is_ok());
    let (w, h, plan) = graph.textures(0, 720);
    assert_eq!((w, h), (1, 720));
    assert_eq!(plan.len(), 2);
    assert_eq!(plan[0].id, ResourceId(1));
    assert_eq!(plan[0].label, "scene color");
    assert_eq!(plan[0].format, ResourceFormat::Color);
    assert!(plan[0].sampled);
    assert_eq!(plan[1].format, ResourceFormat::Depth);
    assert!(plan[1].sampled);
    assert_eq!(graph.textures(1280, 800).0, 1280);
}
