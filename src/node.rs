//! Cluster nodes and their per-node resource statistics.
use vstd::prelude::*;
use crate::descriptor::{descriptor_count, descriptor_text, descriptor_total, saturate};

verus! {

/// One node of a snapshot, as the scheduler reports it.
#[derive(Debug)]
pub struct Node {
    pub name: String,
    /// Capacity descriptor, e.g. `gpu:a100:4(0-3)`.
    pub gres: Option<String>,
    /// Descriptor of what is in use.
    pub gres_used: Option<String>,
    /// Partition names, in the order reported; may repeat.
    pub partitions: Vec<String>,
    pub cpus: u32,
    pub alloc_cpus: u32,
}

/// Allocated and total amounts of the two tracked resources of a node.
/// Nothing relates allocated to total: the data source may report more in
/// use than there is.
#[derive(Clone, Copy, Debug, PartialEq, Eq, Structural)]
pub struct ResourceStats {
    pub allocated_gpu: u64,
    pub total_gpu: u64,
    pub allocated_cpu: u32,
    pub total_cpu: u32,
}

/// `total - allocated`, or 0 where `allocated` exceeds `total`.
pub open spec fn clamped_free(allocated: int, total: int) -> int {
    if allocated <= total {
        total - allocated
    } else {
        0
    }
}

impl ResourceStats {
    pub open spec fn spec_free_gpu(self) -> int {
        clamped_free(self.allocated_gpu as int, self.total_gpu as int)
    }

    pub open spec fn spec_free_cpu(self) -> int {
        clamped_free(self.allocated_cpu as int, self.total_cpu as int)
    }

    /// Free GPUs: saturating `total - allocated`.
    pub fn free_gpu(&self) -> (r: u64)
        ensures
            r == self.spec_free_gpu(),
            r <= self.total_gpu,
    {
        self.total_gpu.saturating_sub(self.allocated_gpu)
    }

    /// Free CPUs: saturating `total - allocated`.
    pub fn free_cpu(&self) -> (r: u32)
        ensures
            r == self.spec_free_cpu(),
            r <= self.total_cpu,
    {
        self.total_cpu.saturating_sub(self.allocated_cpu)
    }
}

/// The statistics of a node: GPU amounts from its two descriptors, CPU
/// amounts as reported.
pub open spec fn node_stats(n: Node) -> ResourceStats {
    ResourceStats {
        allocated_gpu: saturate(descriptor_total(descriptor_text(n.gres_used))),
        total_gpu: saturate(descriptor_total(descriptor_text(n.gres))),
        allocated_cpu: n.alloc_cpus,
        total_cpu: n.cpus,
    }
}

/// Whether a node with these statistics has no capacity left on the
/// dimensions that the mode tracks.
pub open spec fn stats_fully_allocated(st: ResourceStats, gpu_only_mode: bool) -> bool {
    if gpu_only_mode && st.total_gpu > 0 {
        st.allocated_gpu == st.total_gpu
    } else {
        (st.total_gpu == 0 || st.allocated_gpu == st.total_gpu) && st.allocated_cpu
            == st.total_cpu
    }
}

/// Whether a node with these statistics still has free capacity under the mode.
pub open spec fn stats_has_free(st: ResourceStats, gpu_only_mode: bool) -> bool {
    if gpu_only_mode {
        if st.total_gpu > 0 {
            st.spec_free_gpu() > 0
        } else {
            st.spec_free_cpu() > 0
        }
    } else {
        st.spec_free_gpu() > 0 || st.spec_free_cpu() > 0
    }
}

pub open spec fn node_fully_allocated(n: Node, gpu_only_mode: bool) -> bool {
    stats_fully_allocated(node_stats(n), gpu_only_mode)
}

pub open spec fn node_has_free(n: Node, gpu_only_mode: bool) -> bool {
    stats_has_free(node_stats(n), gpu_only_mode)
}

/// `(allocated, total)` GPUs of a node, read from its descriptors.
pub fn extract_gpu_info(node: &Node) -> (r: (u64, u64))
    ensures
        r.0 == node_stats(*node).allocated_gpu,
        r.1 == node_stats(*node).total_gpu,
{
    let total = descriptor_count(&node.gres);
    let allocated = descriptor_count(&node.gres_used);
    (allocated, total)
}

/// The allocation statistics of a node.
pub fn resource_stats(node: &Node) -> (r: ResourceStats)
    ensures
        r == node_stats(*node),
{
    let (allocated_gpu, total_gpu) = extract_gpu_info(node);
    ResourceStats { allocated_gpu, total_gpu, allocated_cpu: node.alloc_cpus, total_cpu: node.cpus }
}

/// Whether a node is fully allocated. In GPU-only mode a node with GPUs is
/// judged by its GPUs alone; otherwise its GPUs (if any) and its CPUs must
/// all be in use.
pub fn is_node_fully_allocated(node: &Node, gpu_only_mode: bool) -> (r: bool)
    ensures
        r == node_fully_allocated(*node, gpu_only_mode),
{
    let st = resource_stats(node);
    let gpus_full = st.total_gpu == 0 || st.allocated_gpu == st.total_gpu;
    if gpu_only_mode && st.total_gpu > 0 {
        gpus_full
    } else {
        gpus_full && st.allocated_cpu == st.total_cpu
    }
}

/// Whether a node still has free capacity under the mode: in GPU-only mode
/// free GPUs where it has GPUs, else free CPUs; otherwise free GPUs or free
/// CPUs.
pub fn has_free_capacity(node: &Node, gpu_only_mode: bool) -> (r: bool)
    ensures
        r == node_has_free(*node, gpu_only_mode),
{
    let st = resource_stats(node);
    if gpu_only_mode {
        if st.total_gpu > 0 {
            st.free_gpu() > 0
        } else {
            st.free_cpu() > 0
        }
    } else {
        st.free_gpu() > 0 || st.free_cpu() > 0
    }
}

/// Free amounts never go below zero nor above the total, whatever was
/// reported as allocated.
pub proof fn lemma_free_within_total(st: ResourceStats)
    ensures
        0 <= st.spec_free_gpu() <= st.total_gpu,
        0 <= st.spec_free_cpu() <= st.total_cpu,
        st.allocated_gpu > st.total_gpu ==> st.spec_free_gpu() == 0,
        st.allocated_cpu > st.total_cpu ==> st.spec_free_cpu() == 0,
{
}

/// Outside GPU-only mode a node counts as fully allocated only when both
/// its GPUs (where it has any) and its CPUs are all in use.
pub proof fn lemma_full_needs_both_dimensions(n: Node)
    ensures
        node_fully_allocated(n, false) <==> ((node_stats(n).total_gpu == 0
            || node_stats(n).allocated_gpu == node_stats(n).total_gpu)
            && n.alloc_cpus == n.cpus),
{
}

} // verus!
