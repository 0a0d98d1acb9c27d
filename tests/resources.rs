use gres_dash::descriptor::{chars_of, descriptor_count, parse_count, parse_entry, split_chars};
use gres_dash::node::{
    extract_gpu_info, has_free_capacity, is_node_fully_allocated, resource_stats, Node,
    ResourceStats,
};

fn desc(s: &str) -> Option<String> {
    Some(s.to_string())
}

fn node(gres: Option<&str>, used: Option<&str>, cpus: u32, alloc_cpus: u32) -> Node {
    Node {
        name: "n1".to_string(),
        gres: gres.map(|s| s.to_string()),
        gres_used: used.map(|s| s.to_string()),
        partitions: vec!["batch".to_string()],
        cpus,
        alloc_cpus,
    }
}

#[test]
fn descriptor_with_id_ranges_sums_entries() {
    assert_eq!(descriptor_count(&desc("gpu:a100:4(0-3),gpu:a100:4(4-7)")), 8);
}

#[test]
fn descriptor_single_entry() {
    assert_eq!(descriptor_count(&desc("gpu:a100:4")), 4);
}

#[test]
fn descriptor_empty_and_missing_count_zero() {
    assert_eq!(descriptor_count(&desc("")), 0);
    assert_eq!(descriptor_count(&None), 0);
}

#[test]
fn descriptor_entry_with_two_fields_is_skipped() {
    assert_eq!(descriptor_count(&desc("gpu:a100")), 0);
    assert_eq!(descriptor_count(&desc("gpu:a100,gpu:v100:2")), 2);
}

#[test]
fn descriptor_unparsable_count_is_skipped() {
    assert_eq!(descriptor_count(&desc("gpu:a100:x,gpu:v100:3(IDX:0-2)")), 3);
    assert_eq!(descriptor_count(&desc("gpu:a100:-1")), 0);
    assert_eq!(descriptor_count(&desc("gpu:a100:")), 0);
    assert_eq!(descriptor_count(&desc("gpu:a100:(0-3)")), 0);
}

#[test]
fn descriptor_count_field_edge_values() {
    assert_eq!(descriptor_count(&desc("gpu:a100:+5")), 5);
    assert_eq!(descriptor_count(&desc("gpu:a100:+")), 0);
    assert_eq!(descriptor_count(&desc("gpu:a100:4294967295")), 4294967295);
    assert_eq!(descriptor_count(&desc("gpu:a100:4294967296")), 0);
    assert_eq!(
        descriptor_count(&desc("gpu:a:4294967295,gpu:b:4294967295")),
        2 * 4294967295u64
    );
}

#[test]
fn descriptor_extra_fields_use_the_third() {
    assert_eq!(descriptor_count(&desc("gpu:a100:2:extra")), 2);
    assert_eq!(descriptor_count(&desc("gpu:a100:7(S:0-1),mps:none:9")), 16);
}

#[test]
fn splitting_keeps_empty_pieces() {
    let pieces = split_chars(&chars_of("a,,b,"), ',');
    let texts: Vec<String> = pieces.iter().map(|p| p.iter().collect()).collect();
    assert_eq!(texts, vec!["a", "", "b", ""]);
    assert_eq!(split_chars(&chars_of(""), ',').len(), 1);
}

#[test]
fn count_and_entry_parsing() {
    assert_eq!(parse_count(&chars_of("42")), Some(42));
    assert_eq!(parse_count(&chars_of("4 2")), None);
    assert_eq!(parse_count(&chars_of("")), None);
    assert_eq!(parse_entry(&chars_of("gpu:h100:3(0,1,2)")), Some(3));
    assert_eq!(parse_entry(&chars_of("gpu:3")), None);
}

#[test]
fn gpu_info_reads_both_descriptors() {
    let n = node(Some("gpu:a100:4(0-3),gpu:a100:4(4-7)"), Some("gpu:a100:3(0-2)"), 64, 10);
    assert_eq!(extract_gpu_info(&n), (3, 8));
}

#[test]
fn free_saturates_when_allocated_exceeds_total() {
    let st = ResourceStats { allocated_gpu: 6, total_gpu: 4, allocated_cpu: 20, total_cpu: 16 };
    assert_eq!(st.free_gpu(), 0);
    assert_eq!(st.free_cpu(), 0);
    let st = ResourceStats { allocated_gpu: 1, total_gpu: 4, allocated_cpu: 6, total_cpu: 16 };
    assert_eq!(st.free_gpu(), 3);
    assert_eq!(st.free_cpu(), 10);
}

#[test]
fn stats_of_node() {
    let n = node(Some("gpu:a100:8"), None, 32, 40);
    let st = resource_stats(&n);
    assert_eq!(
        st,
        ResourceStats { allocated_gpu: 0, total_gpu: 8, allocated_cpu: 40, total_cpu: 32 }
    );
    assert_eq!(st.free_cpu(), 0);
}

#[test]
fn gpu_only_full_ignores_cpus() {
    let n = node(Some("gpu:a100:8"), Some("gpu:a100:8"), 16, 0);
    assert!(is_node_fully_allocated(&n, true));
}

#[test]
fn both_dimensions_needed_outside_gpu_only_mode() {
    let gpus_full = node(Some("gpu:a100:8"), Some("gpu:a100:8"), 16, 0);
    assert!(!is_node_fully_allocated(&gpus_full, false));
    let cpus_full = node(Some("gpu:a100:8"), Some("gpu:a100:2"), 16, 16);
    assert!(!is_node_fully_allocated(&cpus_full, false));
    let both = node(Some("gpu:a100:8"), Some("gpu:a100:8"), 16, 16);
    assert!(is_node_fully_allocated(&both, false));
}

#[test]
fn node_without_gpus_is_judged_by_cpus() {
    let busy = node(None, None, 16, 16);
    assert!(is_node_fully_allocated(&busy, true));
    assert!(is_node_fully_allocated(&busy, false));
    let idle = node(None, None, 16, 4);
    assert!(!is_node_fully_allocated(&idle, true));
}

#[test]
fn free_capacity_by_mode() {
    // GPUs all in use, CPUs free.
    let n = node(Some("gpu:a100:4"), Some("gpu:a100:4"), 16, 2);
    assert!(!has_free_capacity(&n, true));
    assert!(has_free_capacity(&n, false));
    // No GPUs: CPUs decide in either mode.
    let cpu_only = node(None, None, 8, 2);
    assert!(has_free_capacity(&cpu_only, true));
    let cpu_busy = node(None, None, 8, 8);
    assert!(!has_free_capacity(&cpu_busy, true));
    assert!(!has_free_capacity(&cpu_busy, false));
    // More GPUs reported in use than exist: nothing free.
    let over = node(Some("gpu:a100:2"), Some("gpu:a100:5"), 8, 8);
    assert!(!has_free_capacity(&over, true));
}
