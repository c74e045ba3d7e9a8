use editor_domain::artifact_graph::{ArtifactGraph, ArtifactGraphError, ArtifactId, ArtifactKind, ArtifactNode};
use editor_domain::filter_graph::{Edge, Endpoint, FilterGraph, FilterNode, GraphError, MediaKind, NodeId, Pad, PadId};
use editor_domain::fingerprint::Fingerprint;

fn id(value: &str) -> ArtifactId {
    ArtifactId::parse(value).unwrap()
}

fn fp(value: &str) -> Fingerprint {
    Fingerprint::digest(value.as_bytes())
}

fn node(name: &str, kind: ArtifactKind, dependencies: &[&str]) -> ArtifactNode {
    ArtifactNode::new(id(name), kind, fp(name), dependencies.iter().map(|value| id(value)).collect())
}

fn ids(values: &[ArtifactId]) -> Vec<String> {
    values.iter().map(|value| value.as_str().to_owned()).collect()
}

#[test]
fn fingerprint_composition_is_unambiguous_and_strict() {
    assert_ne!(
        Fingerprint::combine(&[b"ab".to_vec(), b"c".to_vec()]),
        Fingerprint::combine(&[b"a".to_vec(), b"bc".to_vec()])
    );
    assert!(Fingerprint::parse("abc").is_err());
    let upper = "A".repeat(64);
    assert_eq!(Fingerprint::parse(&upper).unwrap().as_str(), "a".repeat(64));
}

#[test]
fn invalidation_removes_only_downstream_artifacts() {
    let mut graph = ArtifactGraph::default();
    graph.insert(node("source", ArtifactKind::Source, &[])).unwrap();
    graph.insert(node("edit", ArtifactKind::EditPlan, &[])).unwrap();
    graph.insert(node("proxy", ArtifactKind::Proxy, &["source"])).unwrap();
    graph.insert(node("render", ArtifactKind::EncodedMedia, &["source", "edit"])).unwrap();
    graph.insert(node("package", ArtifactKind::Package, &["render"])).unwrap();

    let invalidated = graph.update_fingerprint(&id("edit"), fp("changed-edit")).unwrap();
    assert_eq!(ids(&invalidated), vec!["package".to_owned(), "render".to_owned()]);
    assert!(graph.get(&id("source")).is_some());
    assert!(graph.get(&id("proxy")).is_some());
    assert!(graph.get(&id("edit")).is_some());
}

#[test]
fn unchanged_fingerprint_preserves_cached_artifacts() {
    let mut graph = ArtifactGraph::default();
    graph.insert(node("source", ArtifactKind::Source, &[])).unwrap();
    graph.insert(node("proxy", ArtifactKind::Proxy, &["source"])).unwrap();

    assert!(graph.update_fingerprint(&id("source"), fp("source")).unwrap().is_empty());
    assert_eq!(graph.len(), 2);
}

#[test]
fn dependency_must_exist_before_derived_node() {
    let mut graph = ArtifactGraph::default();
    assert_eq!(
        graph.insert(node("proxy", ArtifactKind::Proxy, &["missing"])).unwrap_err(),
        ArtifactGraphError::MissingDependency(id("missing"))
    );
}

#[test]
fn stored_entries_cannot_bypass_graph_invariants() {
    let valid = vec![
        (id("proxy"), node("proxy", ArtifactKind::Proxy, &["source"])),
        (id("source"), node("source", ArtifactKind::Source, &[])),
    ];
    let graph = ArtifactGraph::from_entries(valid).unwrap();
    assert_eq!(graph.len(), 2);

    let cycle = vec![
        (id("a"), node("a", ArtifactKind::Source, &["b"])),
        (id("b"), node("b", ArtifactKind::Proxy, &["a"])),
    ];
    assert_eq!(ArtifactGraph::from_entries(cycle).err().unwrap(), ArtifactGraphError::Cycle(id("a")));

    let mismatched_key = vec![(id("source"), node("other", ArtifactKind::Source, &[]))];
    assert_eq!(
        ArtifactGraph::from_entries(mismatched_key).err().unwrap(),
        ArtifactGraphError::KeyMismatch(id("source"), id("other"))
    );

    let missing = vec![(id("proxy"), node("proxy", ArtifactKind::Proxy, &["gone"]))];
    assert_eq!(
        ArtifactGraph::from_entries(missing).err().unwrap(),
        ArtifactGraphError::MissingDependency(id("gone"))
    );
}

#[test]
fn a_cycle_is_named_by_its_least_id_even_downstream_of_a_valid_node() {
    let entries = vec![
        (id("a"), node("a", ArtifactKind::Source, &[])),
        (id("b"), node("b", ArtifactKind::Proxy, &["a", "c"])),
        (id("c"), node("c", ArtifactKind::Proxy, &["b"])),
        (id("d"), node("d", ArtifactKind::Package, &["c"])),
    ];
    assert_eq!(ArtifactGraph::from_entries(entries).err().unwrap(), ArtifactGraphError::Cycle(id("b")));
}

#[test]
fn duplicate_and_self_dependent_artifacts_are_rejected() {
    let mut graph = ArtifactGraph::default();
    graph.insert(node("source", ArtifactKind::Source, &[])).unwrap();
    assert_eq!(
        graph.insert(node("source", ArtifactKind::Source, &[])).unwrap_err(),
        ArtifactGraphError::Duplicate(id("source"))
    );
    assert_eq!(
        graph.insert(node("loop", ArtifactKind::Proxy, &["loop"])).unwrap_err(),
        ArtifactGraphError::Cycle(id("loop"))
    );
    assert_eq!(
        graph.update_fingerprint(&id("absent"), fp("x")).unwrap_err(),
        ArtifactGraphError::MissingArtifact(id("absent"))
    );
    assert!(graph.validate().is_ok());
}

#[test]
fn artifact_ids_are_bounded_and_plain() {
    assert!(ArtifactId::parse("clip-1.v2_final").is_ok());
    assert!(ArtifactId::parse("").is_err());
    assert!(ArtifactId::parse("a/b").is_err());
    assert!(ArtifactId::parse(&"x".repeat(129)).is_err());
    assert!(ArtifactId::parse(&"x".repeat(128)).is_ok());
}

#[test]
fn digest_is_lowercase_sha256_hex() {
    assert_eq!(
        Fingerprint::digest(b"abc").as_str(),
        "ba7816bf8f01cfea414140de5dae2223b00361a396177a9cb410ff61f20015ad"
    );
}

fn video_pad(name: &str) -> Pad {
    Pad::required(name, MediaKind::Video).unwrap()
}

#[test]
fn rejects_media_mismatch_before_an_adapter_runs() {
    let mut graph = FilterGraph::default();
    graph
        .add_node(
            FilterNode::new("audio_source", "source", vec![], vec![Pad::required("out", MediaKind::Audio).unwrap()])
                .unwrap(),
        )
        .unwrap();
    graph
        .add_node(
            FilterNode::new("video_sink", "sink", vec![Pad::required("in", MediaKind::Video).unwrap()], vec![])
                .unwrap(),
        )
        .unwrap();

    let error = graph
        .connect(
            &NodeId::new("audio_source").unwrap(),
            &PadId::new("out").unwrap(),
            &NodeId::new("video_sink").unwrap(),
            &PadId::new("in").unwrap(),
        )
        .unwrap_err();
    assert!(matches!(error, GraphError::MediaMismatch { .. }));
}

#[test]
fn rejects_cycles_and_unconnected_required_pads() {
    let mut graph = FilterGraph::default();
    for id in ["a", "b"] {
        graph
            .add_node(
                FilterNode::new(
                    id,
                    id,
                    vec![Pad::required("in", MediaKind::Video).unwrap()],
                    vec![Pad::required("out", MediaKind::Video).unwrap()],
                )
                .unwrap(),
            )
            .unwrap();
    }
    for (from, to) in [("a", "b"), ("b", "a")] {
        graph
            .connect(
                &NodeId::new(from).unwrap(),
                &PadId::new("out").unwrap(),
                &NodeId::new(to).unwrap(),
                &PadId::new("in").unwrap(),
            )
            .unwrap();
    }
    assert_eq!(graph.validate().unwrap_err(), GraphError::Cycle);
}

#[test]
fn deserialized_graph_cannot_bypass_single_input_invariant() {
    let mut graph = FilterGraph::linear(MediaKind::Video, &["hflip".to_owned()]).unwrap();
    graph
        .add_node(
            FilterNode::new(
                "second_source",
                "source",
                vec![],
                vec![Pad::required("out", MediaKind::Video).unwrap()],
            )
            .unwrap(),
        )
        .unwrap();
    graph.insert_edge(Edge {
        from: Endpoint {
            node: NodeId::new("second_source").unwrap(),
            pad: PadId::new("out").unwrap(),
        },
        to: Endpoint {
            node: NodeId::new("filter_0000").unwrap(),
            pad: PadId::new("in").unwrap(),
        },
    });

    assert!(matches!(
        graph.validate(),
        Err(GraphError::InputAlreadyConnected(_))
    ));
}

#[test]
fn linear_graph_serializes_back_to_ffmpeg() {
    let filters = vec!["crop=640:360".to_owned(), "hflip".to_owned()];
    let graph = FilterGraph::linear(MediaKind::Video, &filters).unwrap();
    assert_eq!(graph.ffmpeg_linear_chain().unwrap(), "crop=640:360,hflip");
    let dot = graph.to_dot().unwrap();
    assert!(dot.starts_with("digraph filter_graph {\n  \"filter_0000\""));
    assert!(dot.contains("\"source\" -> \"filter_0000\""));
    assert!(dot.ends_with("\n}"));
    assert_eq!(graph.nodes().len(), 4);
    assert_eq!(graph.edges().len(), 3);
}

#[test]
fn linear_graph_rejects_a_blank_filter() {
    let filters = vec!["hflip".to_owned(), "  ".to_owned()];
    assert_eq!(FilterGraph::linear(MediaKind::Video, &filters).err().unwrap(), GraphError::EmptyOperation);
}

#[test]
fn linear_graph_pads_node_ids_to_four_digits() {
    let filters: Vec<String> = (0..11).map(|index| format!("f{index}")).collect();
    let graph = FilterGraph::linear(MediaKind::Audio, &filters).unwrap();
    let names: Vec<&str> = graph.nodes().iter().map(|node| node.id.as_str()).collect();
    assert!(names.contains(&"filter_0000"));
    assert!(names.contains(&"filter_0010"));
    assert_eq!(graph.ffmpeg_linear_chain().unwrap(), filters.join(","));
}

#[test]
fn dot_labels_escape_quotes_and_backslashes() {
    let filters = vec!["drawtext=text='a\"b\\c'".to_owned()];
    let graph = FilterGraph::linear(MediaKind::Video, &filters).unwrap();
    let dot = graph.to_dot().unwrap();
    assert!(dot.contains("[label=\"drawtext=text='a\\\"b\\\\c'\"]"));
}

#[test]
fn duplicate_nodes_pads_and_inputs_are_rejected() {
    assert!(matches!(
        FilterNode::new("n", "scale", vec![video_pad("in"), video_pad("in")], vec![]),
        Err(GraphError::DuplicatePad(_))
    ));
    assert!(matches!(FilterNode::new("bad id", "scale", vec![], vec![]), Err(GraphError::InvalidIdentifier(_))));
    assert_eq!(FilterNode::new("n", " ", vec![], vec![]).unwrap_err(), GraphError::EmptyOperation);

    let mut graph = FilterGraph::default();
    graph.add_node(FilterNode::new("a", "source", vec![], vec![video_pad("out")]).unwrap()).unwrap();
    assert!(matches!(
        graph.add_node(FilterNode::new("a", "source", vec![], vec![video_pad("out")]).unwrap()),
        Err(GraphError::DuplicateNode(_))
    ));
    graph.add_node(FilterNode::new("b", "source", vec![], vec![video_pad("out")]).unwrap()).unwrap();
    graph.add_node(FilterNode::new("c", "sink", vec![video_pad("in")], vec![]).unwrap()).unwrap();
    let connect = |graph: &mut FilterGraph, from: &str| {
        graph.connect(
            &NodeId::new(from).unwrap(),
            &PadId::new("out").unwrap(),
            &NodeId::new("c").unwrap(),
            &PadId::new("in").unwrap(),
        )
    };
    connect(&mut graph, "a").unwrap();
    assert!(matches!(connect(&mut graph, "b"), Err(GraphError::InputAlreadyConnected(_))));
    assert!(matches!(graph.validate(), Err(GraphError::RequiredPadUnconnected(_))));
    assert!(matches!(
        graph.connect(
            &NodeId::new("missing").unwrap(),
            &PadId::new("out").unwrap(),
            &NodeId::new("c").unwrap(),
            &PadId::new("in").unwrap(),
        ),
        Err(GraphError::MissingNode(_))
    ));
}

#[test]
fn an_unknown_schema_version_fails_validation() {
    let mut graph = FilterGraph::linear(MediaKind::Video, &["hflip".to_owned()]).unwrap();
    graph.set_schema_version(2);
    assert_eq!(graph.validate().unwrap_err(), GraphError::UnsupportedSchema(2));
}

#[test]
fn validation_orders_nodes_by_dependency() {
    let graph = FilterGraph::linear(MediaKind::Video, &["b".to_owned(), "a".to_owned()]).unwrap();
    let order: Vec<String> = graph.validate().unwrap().iter().map(|id| id.as_str().to_owned()).collect();
    assert_eq!(order, vec!["source", "filter_0000", "filter_0001", "sink"]);
}

#[test]
fn a_filter_named_like_an_endpoint_is_left_out_of_the_chain() {
    let filters = vec!["source".to_owned(), "hflip".to_owned()];
    let graph = FilterGraph::linear(MediaKind::Video, &filters).unwrap();
    assert_eq!(graph.ffmpeg_linear_chain().unwrap(), "hflip");
}

#[test]
fn an_empty_linear_graph_connects_source_to_sink() {
    let graph = FilterGraph::linear(MediaKind::Audio, &[]).unwrap();
    assert_eq!(graph.ffmpeg_linear_chain().unwrap(), "");
    assert_eq!(graph.edges().len(), 1);
}

#[test]
fn the_least_missing_dependency_is_reported() {
    let mut graph = ArtifactGraph::default();
    graph.insert(node("beta", ArtifactKind::Source, &[])).unwrap();
    assert_eq!(
        graph.insert(node("render", ArtifactKind::EncodedMedia, &["zeta", "beta", "alpha", "zeta"])),
        Err(ArtifactGraphError::MissingDependency(id("alpha")))
    );
    assert_eq!(graph.len(), 1);
}
