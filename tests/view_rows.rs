use gres_dash::dashboard::{refresh_due, Dashboard};
use gres_dash::node::Node;
use gres_dash::scroll::{max_scroll, row_striped, step_scroll, Key};
use gres_dash::view::{
    build_rows, filter_nodes, free_tag, group_by_partition, label_before, name_tag, DisplayRow,
    Emphasis, ViewState,
};

fn node(name: &str, parts: &[&str], gres: &str, used: &str, cpus: u32, alloc: u32) -> Node {
    Node {
        name: name.to_string(),
        gres: Some(gres.to_string()),
        gres_used: Some(used.to_string()),
        partitions: parts.iter().map(|p| p.to_string()).collect(),
        cpus,
        alloc_cpus: alloc,
    }
}

fn view(hide_full: bool, gpu_only_mode: bool, group: bool) -> ViewState {
    ViewState { hide_full, gpu_only_mode, group_by_partition: group, scroll: 0 }
}

/// A compact description of rows: "#label" for headers, the node index otherwise.
fn shape(rows: &[DisplayRow]) -> Vec<String> {
    rows.iter()
        .map(|r| match r {
            DisplayRow::Header(l) => format!("#{}", l),
            DisplayRow::Entry(e) => e.node.to_string(),
        })
        .collect()
}

fn many_nodes(n: usize) -> Vec<Node> {
    (0..n)
        .map(|i| node(&format!("n{}", i), &["p"], "gpu:a100:4", "gpu:a100:1", 8, 1))
        .collect()
}

#[test]
fn node_in_two_partitions_fans_out_when_grouped() {
    let nodes = vec![node("n1", &["a", "b"], "gpu:a100:4", "", 8, 0)];
    let grouped = build_rows(&nodes, &view(false, true, true));
    assert_eq!(shape(&grouped), vec!["#a", "0", "#b", "0"]);
    let flat = build_rows(&nodes, &view(false, true, false));
    assert_eq!(shape(&flat), vec!["0"]);
    match &flat[0] {
        DisplayRow::Entry(e) => assert!(!e.grouped),
        _ => panic!("expected a node row"),
    }
}

#[test]
fn grouping_is_deterministic_and_sorted() {
    let nodes = vec![
        node("n1", &["gpu", "batch"], "gpu:a100:4", "", 8, 0),
        node("n2", &["debug"], "gpu:a100:4", "", 8, 0),
        node("n3", &["batch"], "gpu:a100:4", "", 8, 0),
    ];
    let v = view(false, true, true);
    let first = shape(&build_rows(&nodes, &v));
    let second = shape(&build_rows(&nodes, &v));
    assert_eq!(first, second);
    assert_eq!(first, vec!["#batch", "0", "2", "#debug", "1", "#gpu", "0"]);
}

#[test]
fn repeated_partition_is_not_deduplicated() {
    let nodes = vec![node("n1", &["a", "a"], "gpu:a100:1", "", 8, 0)];
    let buckets = group_by_partition(&nodes, &vec![0]);
    assert_eq!(buckets.len(), 1);
    assert_eq!(buckets[0].label, "a");
    assert_eq!(buckets[0].members, vec![0, 0]);
}

#[test]
fn node_without_partitions_is_absent_when_grouped() {
    let nodes = vec![node("n1", &[], "gpu:a100:1", "", 8, 0)];
    assert!(build_rows(&nodes, &view(false, true, true)).is_empty());
    assert_eq!(build_rows(&nodes, &view(false, true, false)).len(), 1);
}

#[test]
fn label_order_is_lexicographic() {
    assert!(label_before(&"a".to_string(), &"b".to_string()));
    assert!(label_before(&"a".to_string(), &"ab".to_string()));
    assert!(!label_before(&"b".to_string(), &"ab".to_string()));
    assert!(!label_before(&"a".to_string(), &"a".to_string()));
    assert!(label_before(&"".to_string(), &"a".to_string()));
}

#[test]
fn hide_filter_keeps_nodes_with_free_capacity() {
    let nodes = vec![
        node("full", &["p"], "gpu:a100:4", "gpu:a100:4", 8, 0),
        node("free", &["p"], "gpu:a100:4", "gpu:a100:1", 8, 8),
        node("cpu", &["p"], "", "", 8, 2),
    ];
    assert_eq!(filter_nodes(&nodes, false, true), vec![0, 1, 2]);
    assert_eq!(filter_nodes(&nodes, true, true), vec![1, 2]);
    assert_eq!(filter_nodes(&nodes, true, false), vec![0, 1, 2]);
}

#[test]
fn row_tags_follow_free_and_full() {
    let nodes = vec![
        node("full", &["p"], "gpu:a100:4", "gpu:a100:4", 8, 8),
        node("free", &["p"], "gpu:a100:4", "gpu:a100:1", 8, 2),
    ];
    let rows = build_rows(&nodes, &view(false, false, false));
    match (&rows[0], &rows[1]) {
        (DisplayRow::Entry(a), DisplayRow::Entry(b)) => {
            assert_eq!(a.name_tag, Emphasis::Exhausted);
            assert_eq!(a.free_gpu_tag, Emphasis::Plain);
            assert_eq!(a.free_cpu_tag, Emphasis::Plain);
            assert_eq!(b.name_tag, Emphasis::Available);
            assert_eq!(b.free_gpu_tag, Emphasis::Available);
            assert_eq!(b.free_cpu_tag, Emphasis::Available);
            assert_eq!(b.stats.free_gpu(), 3);
        }
        _ => panic!("expected node rows"),
    }
    assert_eq!(free_tag(0), Emphasis::Plain);
    assert_eq!(free_tag(2), Emphasis::Available);
    assert_eq!(name_tag(true), Emphasis::Exhausted);
}

#[test]
fn scroll_steps_saturate() {
    assert_eq!(max_scroll(30, 10), 20);
    assert_eq!(max_scroll(5, 10), 0);
    assert_eq!(step_scroll(0, Key::Up, 20, 10), 0);
    assert_eq!(step_scroll(20, Key::Down, 20, 10), 20);
    assert_eq!(step_scroll(15, Key::PageDown, 20, 10), 20);
    assert_eq!(step_scroll(5, Key::PageUp, 20, 10), 0);
    assert_eq!(step_scroll(5, Key::PageDown, 20, 10), 15);
    assert_eq!(step_scroll(7, Key::Home, 20, 10), 0);
    assert_eq!(step_scroll(7, Key::End, 20, 10), 20);
    assert_eq!(step_scroll(7, Key::ToggleGpuOnly, 20, 10), 7);
}

#[test]
fn end_goes_to_max_and_down_never_passes_it() {
    let mut d = Dashboard::new(many_nodes(12), 5);
    assert_eq!(d.max_scroll(), 7);
    assert!(!d.handle_key(Key::End));
    assert_eq!(d.scroll(), 7);
    d.handle_key(Key::Home);
    for _ in 0..20 {
        d.handle_key(Key::Down);
        assert!(d.scroll() <= 7);
    }
    assert_eq!(d.scroll(), 7);
}

#[test]
fn end_counts_header_rows_when_grouped() {
    let mut d = Dashboard::new(many_nodes(12), 5);
    d.handle_key(Key::ToggleGrouping);
    // 12 nodes and one header.
    assert_eq!(d.rows().len(), 13);
    d.handle_key(Key::End);
    assert_eq!(d.scroll(), 8);
    assert_eq!(d.page(), (8, 13));
}

#[test]
fn toggles_reset_the_offset() {
    let mut d = Dashboard::new(many_nodes(12), 5);
    d.handle_key(Key::End);
    assert!(!d.handle_key(Key::ToggleHideFull));
    assert_eq!(d.scroll(), 0);
    assert!(d.view().hide_full);
    d.handle_key(Key::PageDown);
    assert_eq!(d.scroll(), 5);
    d.handle_key(Key::ToggleGrouping);
    assert_eq!(d.scroll(), 0);
    assert!(d.view().group_by_partition);
}

#[test]
fn mode_toggle_clamps_the_offset() {
    // In GPU-only mode nodes with free GPUs are kept; outside it the CPUs count too.
    let mut nodes = many_nodes(3);
    for i in 0..6 {
        nodes.push(node(&format!("busy{}", i), &["p"], "gpu:a100:2", "gpu:a100:2", 8, 1));
    }
    let mut d = Dashboard::new(nodes, 2);
    d.handle_key(Key::ToggleGpuOnly);
    assert!(!d.view().gpu_only_mode);
    d.handle_key(Key::ToggleHideFull);
    assert_eq!(d.rows().len(), 9);
    d.handle_key(Key::End);
    assert_eq!(d.scroll(), 7);
    d.handle_key(Key::ToggleGpuOnly);
    assert_eq!(d.rows().len(), 3);
    assert_eq!(d.scroll(), 1);
}

#[test]
fn quit_changes_nothing() {
    let mut d = Dashboard::new(many_nodes(3), 2);
    d.handle_key(Key::Down);
    let before = d.view();
    assert!(d.handle_key(Key::Quit));
    assert_eq!(d.view(), before);
}

#[test]
fn refresh_replaces_or_keeps_the_snapshot() {
    let mut d = Dashboard::new(many_nodes(12), 5);
    d.handle_key(Key::End);
    d.refresh(None);
    assert_eq!(d.nodes().len(), 12);
    assert_eq!(d.scroll(), 7);
    d.refresh(Some(many_nodes(8)));
    assert_eq!(d.nodes().len(), 8);
    assert_eq!(d.scroll(), 3);
}

#[test]
fn resize_clamps_the_offset() {
    let mut d = Dashboard::new(many_nodes(12), 5);
    d.handle_key(Key::End);
    d.resize(10);
    assert_eq!(d.viewport_rows(), 10);
    assert_eq!(d.scroll(), 2);
    d.resize(20);
    assert_eq!(d.scroll(), 0);
    assert_eq!(d.page(), (0, 12));
}

#[test]
fn striping_by_absolute_index() {
    assert!(!row_striped(0));
    assert!(row_striped(1));
    assert!(row_striped(7));
}

#[test]
fn refresh_interval_is_five_seconds() {
    assert!(!refresh_due(4999));
    assert!(refresh_due(5000));
    assert!(refresh_due(12000));
}
