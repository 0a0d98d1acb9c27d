//! Building the display rows of a snapshot: filtering, grouping by
//! partition, and the rows themselves.
use vstd::prelude::*;
use crate::descriptor::chars_of;
use crate::node::{
    has_free_capacity, is_node_fully_allocated, node_has_free, node_stats, resource_stats,
    stats_fully_allocated, Node, ResourceStats,
};

verus! {

/// Indices of the nodes that are shown: all of them, or with the filter on
/// those that still have free capacity under the mode; in snapshot order.
pub open spec fn kept_indices(nodes: Seq<Node>, hide_full: bool, gpu_only_mode: bool) -> Seq<usize>
    decreases nodes.len(),
{
    if nodes.len() == 0 {
        Seq::empty()
    } else {
        let prev = kept_indices(nodes.drop_last(), hide_full, gpu_only_mode);
        if !hide_full || node_has_free(nodes.last(), gpu_only_mode) {
            prev.push((nodes.len() - 1) as usize)
        } else {
            prev
        }
    }
}

proof fn lemma_kept_indices_bounded(nodes: Seq<Node>, hide_full: bool, gpu_only_mode: bool)
    ensures
        kept_indices(nodes, hide_full, gpu_only_mode).len() <= nodes.len(),
        forall|k: int|
            0 <= k < kept_indices(nodes, hide_full, gpu_only_mode).len() ==> #[trigger] kept_indices(
                nodes,
                hide_full,
                gpu_only_mode,
            )[k] < nodes.len(),
    decreases nodes.len(),
{
    if nodes.len() > 0 {
        lemma_kept_indices_bounded(nodes.drop_last(), hide_full, gpu_only_mode);
    }
}

/// The indices of the nodes to show, as `kept_indices` describes.
pub fn filter_nodes(nodes: &Vec<Node>, hide_full: bool, gpu_only_mode: bool) -> (r: Vec<usize>)
    ensures
        r@ == kept_indices(nodes@, hide_full, gpu_only_mode),
        forall|k: int| 0 <= k < r@.len() ==> #[trigger] r@[k] < nodes@.len(),
{
    let mut r: Vec<usize> = Vec::new();
    let mut i: usize = 0;
    while i < nodes.len()
        invariant
            i <= nodes@.len(),
            r@ == kept_indices(nodes@.subrange(0, i as int), hide_full, gpu_only_mode),
        decreases nodes.len() - i,
    {
        assert(nodes@.subrange(0, i + 1).drop_last() =~= nodes@.subrange(0, i as int));
        if !hide_full || has_free_capacity(&nodes[i], gpu_only_mode) {
            r.push(i);
        }
        i = i + 1;
    }
    assert(nodes@.subrange(0, nodes@.len() as int) =~= nodes@);
    proof {
        lemma_kept_indices_bounded(nodes@, hide_full, gpu_only_mode);
    }
    r
}

/// Lexicographic order on labels, character by character; a proper prefix
/// comes first.
pub open spec fn label_less(a: Seq<char>, b: Seq<char>) -> bool
    decreases a.len(),
{
    if a.len() == 0 {
        b.len() > 0
    } else if b.len() == 0 {
        false
    } else if a[0] != b[0] {
        a[0] < b[0]
    } else {
        label_less(a.drop_first(), b.drop_first())
    }
}

/// Whether `a` sorts strictly before `b`, as `label_less` describes.
pub fn label_before(a: &String, b: &String) -> (r: bool)
    ensures
        r == label_less(a@, b@),
{
    let x = chars_of(a.as_str());
    let y = chars_of(b.as_str());
    let mut i: usize = 0;
    assert(x@.subrange(0, x@.len() as int) =~= x@);
    assert(y@.subrange(0, y@.len() as int) =~= y@);
    while i < x.len() && i < y.len() && x[i] == y[i]
        invariant
            i <= x@.len(),
            i <= y@.len(),
            label_less(x@, y@) == label_less(x@.subrange(i as int, x@.len() as int), y@.subrange(i as int, y@.len() as int)),
        decreases x.len() - i,
    {
        assert(x@.subrange(i as int, x@.len() as int).drop_first() =~= x@.subrange(i + 1, x@.len() as int));
        assert(y@.subrange(i as int, y@.len() as int).drop_first() =~= y@.subrange(i + 1, y@.len() as int));
        i = i + 1;
    }
    if i == x.len() {
        i < y.len()
    } else if i == y.len() {
        false
    } else {
        x[i] < y[i]
    }
}

} // verus!

verus! {

/// One membership of a node in a partition: the node's index and the label.
pub type Membership = (usize, Seq<char>);

/// The memberships of node `i`, one per entry of its partition list.
pub open spec fn node_memberships(nodes: Seq<Node>, i: usize) -> Seq<Membership> {
    nodes[i as int].partitions@.map_values(|p: String| (i, p@))
}

/// The memberships of the kept nodes, in order: a node with several
/// partitions is fanned out into one membership per partition.
pub open spec fn memberships(nodes: Seq<Node>, kept: Seq<usize>) -> Seq<Membership>
    decreases kept.len(),
{
    if kept.len() == 0 {
        Seq::empty()
    } else {
        memberships(nodes, kept.drop_last()) + node_memberships(nodes, kept.last())
    }
}

/// The nodes that have a membership under `label`, in order of the memberships.
pub open spec fn members_of(ms: Seq<Membership>, label: Seq<char>) -> Seq<usize>
    decreases ms.len(),
{
    if ms.len() == 0 {
        Seq::empty()
    } else {
        let prev = members_of(ms.drop_last(), label);
        if ms.last().1 == label {
            prev.push(ms.last().0)
        } else {
            prev
        }
    }
}

/// Inserts `l` into the ascending list `ls` unless it is there already.
pub open spec fn insert_label(ls: Seq<Seq<char>>, l: Seq<char>) -> Seq<Seq<char>>
    decreases ls.len(),
{
    if ls.len() == 0 {
        seq![l]
    } else if ls[0] == l {
        ls
    } else if label_less(l, ls[0]) {
        seq![l] + ls
    } else {
        seq![ls[0]] + insert_label(ls.drop_first(), l)
    }
}

/// The distinct labels of the memberships, in ascending order.
pub open spec fn sorted_labels(ms: Seq<Membership>) -> Seq<Seq<char>>
    decreases ms.len(),
{
    if ms.len() == 0 {
        Seq::empty()
    } else {
        insert_label(sorted_labels(ms.drop_last()), ms.last().1)
    }
}

/// The nodes of one partition, in snapshot order.
pub struct Bucket {
    pub label: String,
    pub members: Vec<usize>,
}

proof fn lemma_insert_label_contents(ls: Seq<Seq<char>>, l: Seq<char>, x: Seq<char>)
    ensures
        insert_label(ls, l).contains(x) <==> (ls.contains(x) || x == l),
    decreases ls.len(),
{
    let r = insert_label(ls, l);
    if ls.len() == 0 {
        assert(r[0] == l);
    } else if ls[0] == l {
        assert(ls[0] == l);
    } else {
        let front = if label_less(l, ls[0]) {
            seq![l]
        } else {
            seq![ls[0]]
        };
        let back = if label_less(l, ls[0]) {
            ls
        } else {
            insert_label(ls.drop_first(), l)
        };
        assert(r == front + back);
        if !label_less(l, ls[0]) {
            lemma_insert_label_contents(ls.drop_first(), l, x);
            assert(ls =~= seq![ls[0]] + ls.drop_first());
        }
        if r.contains(x) {
            let q = choose|q: int| 0 <= q < r.len() && r[q] == x;
            if q > 0 {
                assert(back[q - 1] == x);
                if !label_less(l, ls[0]) && x != l {
                    let q2 = choose|q2: int| 0 <= q2 < ls.drop_first().len() && ls.drop_first()[q2] == x;
                    assert(ls[q2 + 1] == x);
                }
            } else {
                assert(front[0] == x);
                if !label_less(l, ls[0]) {
                    assert(ls[0] == x);
                }
            }
        }
        if x == l {
            if label_less(l, ls[0]) {
                assert(r[0] == x);
            } else {
                let q = choose|q: int| 0 <= q < back.len() && back[q] == x;
                assert(r[q + 1] == x);
            }
        }
        if ls.contains(x) {
            let q = choose|q: int| 0 <= q < ls.len() && ls[q] == x;
            if label_less(l, ls[0]) {
                assert(r[q + 1] == x);
            } else if q == 0 {
                assert(r[0] == x);
            } else {
                assert(ls.drop_first()[q - 1] == x);
                let q3 = choose|q3: int| 0 <= q3 < back.len() && back[q3] == x;
                assert(r[q3 + 1] == x);
            }
        }
    }
}

/// A label without a membership in `ms` has no members.
proof fn lemma_members_of_absent(ms: Seq<Membership>, label: Seq<char>)
    requires
        !sorted_labels(ms).contains(label),
    ensures
        members_of(ms, label) == Seq::<usize>::empty(),
    decreases ms.len(),
{
    if ms.len() > 0 {
        lemma_insert_label_contents(sorted_labels(ms.drop_last()), ms.last().1, label);
        lemma_members_of_absent(ms.drop_last(), label);
    }
}

/// Buckets that hold, for each label of `ls` in order, the members of that
/// label in `ms`.
pub open spec fn buckets_match(bs: Seq<Bucket>, ls: Seq<Seq<char>>, ms: Seq<Membership>) -> bool {
    &&& bs.len() == ls.len()
    &&& forall|k: int| 0 <= k < bs.len() ==> (#[trigger] bs[k]).label@ == ls[k]
    &&& forall|k: int| 0 <= k < bs.len() ==> (#[trigger] bs[k]).members@ == members_of(ms, ls[k])
}

proof fn lemma_insert_label_new(ls: Seq<Seq<char>>, l: Seq<char>, k: int)
    requires
        labels_ascending(ls),
        !ls.contains(l),
        0 <= k <= ls.len(),
        forall|q: int| 0 <= q < k ==> label_less(#[trigger] ls[q], l),
        k == ls.len() || label_less(l, ls[k]),
    ensures
        insert_label(ls, l) == ls.insert(k, l),
    decreases k,
{
    if k == 0 {
        if ls.len() == 0 {
            assert(seq![l] =~= ls.insert(0, l));
        } else {
            assert(ls[0] != l);
            assert(seq![l] + ls =~= ls.insert(0, l));
        }
    } else {
        let tail = ls.drop_first();
        assert(ls[0] != l);
        lemma_label_less_asymmetric(ls[0], l);
        assert(!tail.contains(l)) by {
            if tail.contains(l) {
                let q = choose|q: int| 0 <= q < tail.len() && tail[q] == l;
                assert(ls[q + 1] == l);
            }
        }
        assert forall|q: int| 0 <= q < k - 1 implies label_less(#[trigger] tail[q], l) by {
            assert(tail[q] == ls[q + 1]);
        }
        if k - 1 < tail.len() {
            assert(tail[k - 1] == ls[k]);
        }
        lemma_insert_label_new(tail, l, k - 1);
        assert(seq![ls[0]] + tail.insert(k - 1, l) =~= ls.insert(k, l));
    }
}

/// Groups the kept nodes by partition: one bucket per distinct label, in
/// ascending label order, each holding the nodes of that label in snapshot
/// order (a node listed twice under a label appears twice).
pub fn group_by_partition(nodes: &Vec<Node>, kept: &Vec<usize>) -> (r: Vec<Bucket>)
    requires
        forall|k: int| 0 <= k < kept@.len() ==> #[trigger] kept@[k] < nodes@.len(),
    ensures
        buckets_match(r@, sorted_labels(memberships(nodes@, kept@)), memberships(nodes@, kept@)),
{
    let mut buckets: Vec<Bucket> = Vec::new();
    let mut t: usize = 0;
    while t < kept.len()
        invariant
            forall|k: int| 0 <= k < kept@.len() ==> #[trigger] kept@[k] < nodes@.len(),
            t <= kept@.len(),
            buckets_match(
                buckets@,
                sorted_labels(memberships(nodes@, kept@.subrange(0, t as int))),
                memberships(nodes@, kept@.subrange(0, t as int)),
            ),
        decreases kept.len() - t,
    {
        let i = kept[t];
        let parts = &nodes[i].partitions;
        let ghost base = memberships(nodes@, kept@.subrange(0, t as int));
        let mut j: usize = 0;
        while j < parts.len()
            invariant
                i < nodes@.len(),
                parts == nodes@[i as int].partitions,
                j <= parts@.len(),
                buckets_match(
                    buckets@,
                    sorted_labels(base + node_memberships(nodes@, i).subrange(0, j as int)),
                    base + node_memberships(nodes@, i).subrange(0, j as int),
                ),
            decreases parts.len() - j,
        {
            let p = &parts[j];
            let ghost ms = base + node_memberships(nodes@, i).subrange(0, j as int);
            let ghost ms2 = base + node_memberships(nodes@, i).subrange(0, j + 1);
            let ghost ls = sorted_labels(ms);
            proof {
                lemma_sorted_labels_ascending(ms);
                assert(ms2 =~= ms.push((i, p@)));
                assert(ms2.drop_last() =~= ms);
                assert forall|l: Seq<char>| l != p@ implies members_of(ms2, l) == members_of(ms, l) by {}
                assert(members_of(ms2, p@) == members_of(ms, p@).push(i));
            }
            // Look for an existing bucket of this label.
            let mut k: usize = 0;
            while k < buckets.len() && buckets[k].label != *p
                invariant
                    k <= buckets@.len(),
                    buckets@.len() == ls.len(),
                    forall|q: int| 0 <= q < buckets@.len() ==> (#[trigger] buckets@[q]).label@ == ls[q],
                    forall|q: int| 0 <= q < k ==> ls[q] != p@,
                decreases buckets.len() - k,
            {
                k = k + 1;
            }
            if k < buckets.len() {
                proof {
                    lemma_insert_label_found(ls, p@, k as int);
                }
                let mut b = buckets.remove(k);
                b.members.push(i);
                buckets.insert(k, b);
                proof {
                    assert forall|q: int| 0 <= q < buckets@.len() implies (#[trigger] buckets@[q]).members@ == members_of(ms2, sorted_labels(ms2)[q]) by {
                        if q != k {
                            lemma_label_less_irreflexive(p@);
                            assert(ls[q] != p@);
                        }
                    }
                }
            } else {
                proof {
                    assert(!ls.contains(p@));
                    lemma_members_of_absent(ms, p@);
                }
                // A new label: find its place in the ascending order.
                let mut k: usize = 0;
                while k < buckets.len() && !label_before(p, &buckets[k].label)
                    invariant
                        k <= buckets@.len(),
                        buckets@.len() == ls.len(),
                        forall|q: int| 0 <= q < buckets@.len() ==> (#[trigger] buckets@[q]).label@ == ls[q],
                        !ls.contains(p@),
                        forall|q: int| 0 <= q < k ==> label_less(#[trigger] ls[q], p@),
                    decreases buckets.len() - k,
                {
                    proof {
                        assert(ls[k as int] != p@);
                        lemma_label_less_total(ls[k as int], p@);
                    }
                    k = k + 1;
                }
                let mut members: Vec<usize> = Vec::new();
                members.push(i);
                buckets.insert(k, Bucket { label: p.clone(), members });
                proof {
                    let ins = insert_label(ls, p@);
                    lemma_insert_label_new(ls, p@, k as int);
                    assert(sorted_labels(ms2) == ins);
                    assert(members@ =~= members_of(ms, p@).push(i));
                    assert forall|q: int| 0 <= q < buckets@.len() implies (#[trigger] buckets@[q]).members@ == members_of(ms2, sorted_labels(ms2)[q]) by {
                        if q < k {
                            assert(ls[q] != p@);
                        } else if q > k {
                            assert(ls[q - 1] != p@);
                        }
                    }
                }
            }
            j = j + 1;
        }
        proof {
            let pre = kept@.subrange(0, t as int);
            let pre2 = kept@.subrange(0, t + 1);
            assert(pre2.drop_last() =~= pre);
            assert(node_memberships(nodes@, i).subrange(0, parts@.len() as int) =~= node_memberships(nodes@, i));
        }
        t = t + 1;
    }
    assert(kept@.subrange(0, kept@.len() as int) =~= kept@);
    buckets
}

proof fn lemma_insert_label_found(ls: Seq<Seq<char>>, l: Seq<char>, k: int)
    requires
        labels_ascending(ls),
        0 <= k < ls.len(),
        ls[k] == l,
    ensures
        insert_label(ls, l) == ls,
    decreases k,
{
    if k > 0 {
        assert(label_less(ls[0], ls[k]));
        lemma_label_less_asymmetric(ls[0], l);
        lemma_label_less_irreflexive(l);
        lemma_insert_label_found(ls.drop_first(), l, k - 1);
        assert(seq![ls[0]] + ls.drop_first() =~= ls);
    }
}

} // verus!

verus! {

/// Strictly ascending: each label sorts before every later one.
pub open spec fn labels_ascending(ls: Seq<Seq<char>>) -> bool {
    forall|i: int, j: int| 0 <= i < j < ls.len() ==> label_less(#[trigger] ls[i], #[trigger] ls[j])
}

pub proof fn lemma_label_less_irreflexive(a: Seq<char>)
    ensures
        !label_less(a, a),
    decreases a.len(),
{
    if a.len() > 0 {
        lemma_label_less_irreflexive(a.drop_first());
    }
}

pub proof fn lemma_label_less_transitive(a: Seq<char>, b: Seq<char>, c: Seq<char>)
    requires
        label_less(a, b),
        label_less(b, c),
    ensures
        label_less(a, c),
    decreases a.len(),
{
    if a.len() > 0 && b.len() > 0 && c.len() > 0 && a[0] == b[0] && b[0] == c[0] {
        lemma_label_less_transitive(a.drop_first(), b.drop_first(), c.drop_first());
    }
}

pub proof fn lemma_label_less_asymmetric(a: Seq<char>, b: Seq<char>)
    ensures
        label_less(a, b) ==> !label_less(b, a),
{
    if label_less(a, b) && label_less(b, a) {
        lemma_label_less_transitive(a, b, a);
        lemma_label_less_irreflexive(a);
    }
}

pub proof fn lemma_label_less_total(a: Seq<char>, b: Seq<char>)
    ensures
        a != b ==> label_less(a, b) || label_less(b, a),
    decreases a.len(),
{
    if a.len() > 0 && b.len() > 0 && a[0] == b[0] {
        lemma_label_less_total(a.drop_first(), b.drop_first());
        if a.drop_first() == b.drop_first() {
            assert(a =~= seq![a[0]] + a.drop_first());
            assert(b =~= seq![b[0]] + b.drop_first());
        }
    } else if a.len() == 0 && b.len() == 0 {
        assert(a =~= b);
    }
}

proof fn lemma_insert_label_ascending(ls: Seq<Seq<char>>, l: Seq<char>)
    requires
        labels_ascending(ls),
    ensures
        labels_ascending(insert_label(ls, l)),
    decreases ls.len(),
{
    if ls.len() == 0 {
    } else if ls[0] == l {
    } else if label_less(l, ls[0]) {
        let r = seq![l] + ls;
        assert forall|i: int, j: int| 0 <= i < j < r.len() implies label_less(#[trigger] r[i], #[trigger] r[j]) by {
            if i == 0 && j > 1 {
                lemma_label_less_transitive(l, ls[0], ls[j - 1]);
            } else if i > 0 {
                assert(r[i] == ls[i - 1] && r[j] == ls[j - 1]);
            }
        }
    } else {
        let tail = ls.drop_first();
        lemma_insert_label_ascending(tail, l);
        lemma_label_less_total(l, ls[0]);
        let ins = insert_label(tail, l);
        let r = seq![ls[0]] + ins;
        assert forall|i: int, j: int| 0 <= i < j < r.len() implies label_less(#[trigger] r[i], #[trigger] r[j]) by {
            if i == 0 {
                assert(ins.contains(r[j]));
                lemma_insert_label_contents(tail, l, r[j]);
                if r[j] != l {
                    let q = choose|q: int| 0 <= q < tail.len() && tail[q] == r[j];
                    assert(ls[q + 1] == r[j]);
                }
            } else {
                assert(r[i] == ins[i - 1] && r[j] == ins[j - 1]);
            }
        }
    }
}

proof fn lemma_sorted_labels_ascending(ms: Seq<Membership>)
    ensures
        labels_ascending(sorted_labels(ms)),
    decreases ms.len(),
{
    if ms.len() > 0 {
        lemma_sorted_labels_ascending(ms.drop_last());
        lemma_insert_label_ascending(sorted_labels(ms.drop_last()), ms.last().1);
    }
}

} // verus!

verus! {

/// The filter, mode and grouping flags of the view, and its scroll offset.
#[derive(Clone, Copy, Debug, PartialEq, Eq, Structural)]
pub struct ViewState {
    /// Hide the nodes that have no free capacity left.
    pub hide_full: bool,
    /// Judge capacity by GPUs alone where a node has GPUs.
    pub gpu_only_mode: bool,
    pub group_by_partition: bool,
    /// Index of the first row shown.
    pub scroll: usize,
}

/// How a cell is to be emphasised; the renderer picks the actual style.
#[derive(Clone, Copy, Debug, PartialEq, Eq, Structural)]
pub enum Emphasis {
    Plain,
    /// A positive free amount, or a node with capacity left.
    Available,
    /// A node that is fully allocated.
    Exhausted,
}

/// The row of one node.
#[derive(Clone, Copy, Debug, PartialEq, Eq, Structural)]
pub struct NodeRow {
    /// Index of the node in the snapshot.
    pub node: usize,
    /// Shown under a partition header (the partition cell stays empty)
    /// rather than with its full partition list.
    pub grouped: bool,
    pub stats: ResourceStats,
    pub name_tag: Emphasis,
    pub free_gpu_tag: Emphasis,
    pub free_cpu_tag: Emphasis,
}

/// One row of the table: a partition header or a node.
#[derive(Debug)]
pub enum DisplayRow {
    Header(String),
    Entry(NodeRow),
}

/// What a display row shows, with the header label as characters.
pub enum RowView {
    Header(Seq<char>),
    Entry(NodeRow),
}

impl View for DisplayRow {
    type V = RowView;

    open spec fn view(&self) -> RowView {
        match self {
            DisplayRow::Header(label) => RowView::Header(label@),
            DisplayRow::Entry(row) => RowView::Entry(*row),
        }
    }
}

pub open spec fn spec_free_tag(free: int) -> Emphasis {
    if free > 0 {
        Emphasis::Available
    } else {
        Emphasis::Plain
    }
}

pub open spec fn spec_name_tag(fully_allocated: bool) -> Emphasis {
    if fully_allocated {
        Emphasis::Exhausted
    } else {
        Emphasis::Available
    }
}

/// Emphasis of a free amount: positive amounts stand out.
pub fn free_tag(free: u64) -> (r: Emphasis)
    ensures
        r == spec_free_tag(free as int),
{
    if free > 0 {
        Emphasis::Available
    } else {
        Emphasis::Plain
    }
}

/// Emphasis of a node's name: whether it is fully allocated.
pub fn name_tag(fully_allocated: bool) -> (r: Emphasis)
    ensures
        r == spec_name_tag(fully_allocated),
{
    if fully_allocated {
        Emphasis::Exhausted
    } else {
        Emphasis::Available
    }
}

pub open spec fn node_row(nodes: Seq<Node>, i: usize, grouped: bool, gpu_only_mode: bool) -> NodeRow {
    let st = node_stats(nodes[i as int]);
    NodeRow {
        node: i,
        grouped,
        stats: st,
        name_tag: spec_name_tag(stats_fully_allocated(st, gpu_only_mode)),
        free_gpu_tag: spec_free_tag(st.spec_free_gpu()),
        free_cpu_tag: spec_free_tag(st.spec_free_cpu()),
    }
}

pub open spec fn entry_rows(nodes: Seq<Node>, idx: Seq<usize>, grouped: bool, gpu_only_mode: bool) -> Seq<RowView> {
    idx.map_values(|i: usize| RowView::Entry(node_row(nodes, i, grouped, gpu_only_mode)))
}

/// For each label in order, its header row and then the rows of its members.
pub open spec fn grouped_rows(nodes: Seq<Node>, ls: Seq<Seq<char>>, ms: Seq<Membership>, gpu_only_mode: bool) -> Seq<RowView>
    decreases ls.len(),
{
    if ls.len() == 0 {
        Seq::empty()
    } else {
        grouped_rows(nodes, ls.drop_last(), ms, gpu_only_mode) + seq![RowView::Header(ls.last())]
            + entry_rows(nodes, members_of(ms, ls.last()), true, gpu_only_mode)
    }
}

/// The rows of a snapshot under a view: one per kept node in snapshot
/// order, or, when grouped, each partition's header followed by its members.
pub open spec fn display_rows(nodes: Seq<Node>, view: ViewState) -> Seq<RowView> {
    let kept = kept_indices(nodes, view.hide_full, view.gpu_only_mode);
    if view.group_by_partition {
        let ms = memberships(nodes, kept);
        grouped_rows(nodes, sorted_labels(ms), ms, view.gpu_only_mode)
    } else {
        entry_rows(nodes, kept, false, view.gpu_only_mode)
    }
}

pub open spec fn rows_view(rows: Seq<DisplayRow>) -> Seq<RowView> {
    rows.map_values(|r: DisplayRow| r@)
}

proof fn lemma_memberships_bounded(nodes: Seq<Node>, kept: Seq<usize>)
    requires
        forall|k: int| 0 <= k < kept.len() ==> #[trigger] kept[k] < nodes.len(),
    ensures
        forall|m: int| 0 <= m < memberships(nodes, kept).len() ==> (#[trigger] memberships(nodes, kept)[m]).0 < nodes.len(),
    decreases kept.len(),
{
    if kept.len() > 0 {
        lemma_memberships_bounded(nodes, kept.drop_last());
        let prev = memberships(nodes, kept.drop_last());
        let own = node_memberships(nodes, kept.last());
        assert forall|m: int| 0 <= m < memberships(nodes, kept).len() implies (#[trigger] memberships(nodes, kept)[m]).0 < nodes.len() by {
            if m >= prev.len() {
                assert(memberships(nodes, kept)[m] == own[m - prev.len()]);
            } else {
                assert(memberships(nodes, kept)[m] == prev[m]);
            }
        }
    }
}

proof fn lemma_members_bounded(ms: Seq<Membership>, label: Seq<char>, n: nat)
    requires
        forall|m: int| 0 <= m < ms.len() ==> (#[trigger] ms[m]).0 < n,
    ensures
        forall|k: int| 0 <= k < members_of(ms, label).len() ==> #[trigger] members_of(ms, label)[k] < n,
    decreases ms.len(),
{
    if ms.len() > 0 {
        lemma_members_bounded(ms.drop_last(), label, n);
        let prev = members_of(ms.drop_last(), label);
        assert(ms.last() == ms[ms.len() - 1]);
        assert forall|k: int| 0 <= k < members_of(ms, label).len() implies #[trigger] members_of(ms, label)[k] < n by {
            if k < prev.len() {
                assert(members_of(ms, label)[k] == prev[k]);
            }
        }
    }
}

/// The row of node `i`.
pub fn make_row(nodes: &Vec<Node>, i: usize, grouped: bool, gpu_only_mode: bool) -> (r: NodeRow)
    requires
        i < nodes@.len(),
    ensures
        r == node_row(nodes@, i, grouped, gpu_only_mode),
{
    let stats = resource_stats(&nodes[i]);
    let full = is_node_fully_allocated(&nodes[i], gpu_only_mode);
    NodeRow {
        node: i,
        grouped,
        stats,
        name_tag: name_tag(full),
        free_gpu_tag: free_tag(stats.free_gpu()),
        free_cpu_tag: free_tag(stats.free_cpu() as u64),
    }
}

/// Builds the rows of the snapshot under the view, as `display_rows` describes.
pub fn build_rows(nodes: &Vec<Node>, view: &ViewState) -> (r: Vec<DisplayRow>)
    ensures
        rows_view(r@) == display_rows(nodes@, *view),
{
    let gpu_only_mode = view.gpu_only_mode;
    let kept = filter_nodes(nodes, view.hide_full, gpu_only_mode);
    let mut rows: Vec<DisplayRow> = Vec::new();
    if view.group_by_partition {
        let buckets = group_by_partition(nodes, &kept);
        let ghost ms = memberships(nodes@, kept@);
        let ghost ls = sorted_labels(ms);
        proof {
            lemma_memberships_bounded(nodes@, kept@);
        }
        let mut b: usize = 0;
        while b < buckets.len()
            invariant
                buckets_match(buckets@, ls, ms),
                forall|m: int| 0 <= m < ms.len() ==> (#[trigger] ms[m]).0 < nodes@.len(),
                b <= buckets@.len(),
                rows_view(rows@) == grouped_rows(nodes@, ls.subrange(0, b as int), ms, gpu_only_mode),
            decreases buckets.len() - b,
        {
            let bucket = &buckets[b];
            let ghost before = rows_view(rows@);
            rows.push(DisplayRow::Header(bucket.label.clone()));
            proof {
                lemma_members_bounded(ms, ls[b as int], nodes@.len());
                assert(rows_view(rows@) =~= before + seq![RowView::Header(ls[b as int])]);
            }
            let mut m: usize = 0;
            while m < bucket.members.len()
                invariant
                    bucket.members@ == members_of(ms, ls[b as int]),
                    forall|k: int| 0 <= k < bucket.members@.len() ==> #[trigger] bucket.members@[k] < nodes@.len(),
                    m <= bucket.members@.len(),
                    rows_view(rows@) == before + seq![RowView::Header(ls[b as int])] + entry_rows(nodes@, bucket.members@.subrange(0, m as int), true, gpu_only_mode),
                decreases bucket.members.len() - m,
            {
                let ghost prev = rows_view(rows@);
                let row = make_row(nodes, bucket.members[m], true, gpu_only_mode);
                rows.push(DisplayRow::Entry(row));
                proof {
                    assert(rows_view(rows@) =~= prev.push(RowView::Entry(row)));
                    assert(entry_rows(nodes@, bucket.members@.subrange(0, m + 1), true, gpu_only_mode) =~= entry_rows(nodes@, bucket.members@.subrange(0, m as int), true, gpu_only_mode).push(RowView::Entry(row)));
                }
                m = m + 1;
            }
            proof {
                assert(bucket.members@.subrange(0, bucket.members@.len() as int) =~= bucket.members@);
                assert(ls.subrange(0, b + 1).drop_last() =~= ls.subrange(0, b as int));
            }
            b = b + 1;
        }
        assert(ls.subrange(0, ls.len() as int) =~= ls);
    } else {
        let mut t: usize = 0;
        while t < kept.len()
            invariant
                kept@ == kept_indices(nodes@, view.hide_full, gpu_only_mode),
                forall|k: int| 0 <= k < kept@.len() ==> #[trigger] kept@[k] < nodes@.len(),
                gpu_only_mode == view.gpu_only_mode,
                t <= kept@.len(),
                rows_view(rows@) == entry_rows(nodes@, kept@.subrange(0, t as int), false, gpu_only_mode),
            decreases kept.len() - t,
        {
            let ghost prev = rows_view(rows@);
            let row = make_row(nodes, kept[t], false, gpu_only_mode);
            rows.push(DisplayRow::Entry(row));
            proof {
                assert(rows_view(rows@) =~= prev.push(RowView::Entry(row)));
                assert(entry_rows(nodes@, kept@.subrange(0, t + 1), false, gpu_only_mode) =~= entry_rows(nodes@, kept@.subrange(0, t as int), false, gpu_only_mode).push(RowView::Entry(row)));
            }
            t = t + 1;
        }
        assert(kept@.subrange(0, kept@.len() as int) =~= kept@);
    }
    rows
}

} // verus!

verus! {

proof fn lemma_sorted_labels_contents(ms: Seq<Membership>, x: Seq<char>)
    ensures
        sorted_labels(ms).contains(x) <==> exists|m: int| 0 <= m < ms.len() && (#[trigger] ms[m]).1 == x,
    decreases ms.len(),
{
    if ms.len() > 0 {
        let prev = ms.drop_last();
        lemma_sorted_labels_contents(prev, x);
        lemma_insert_label_contents(sorted_labels(prev), ms.last().1, x);
        if exists|m: int| 0 <= m < prev.len() && (#[trigger] prev[m]).1 == x {
            let m = choose|m: int| 0 <= m < prev.len() && (#[trigger] prev[m]).1 == x;
            assert(ms[m] == prev[m]);
        }
        if exists|m: int| 0 <= m < ms.len() && (#[trigger] ms[m]).1 == x {
            let m = choose|m: int| 0 <= m < ms.len() && (#[trigger] ms[m]).1 == x;
            if m < prev.len() {
                assert(prev[m] == ms[m]);
            }
        }
        assert(ms[ms.len() - 1] == ms.last());
    }
}

/// Grouping is a function of the snapshot and the view alone: rows built
/// twice from the same snapshot and flags are the same rows. Its buckets
/// come in strictly ascending label order, one for each label that a kept
/// node lists and for no other.
pub proof fn lemma_grouping_deterministic(
    nodes: Seq<Node>,
    view: ViewState,
    first: Seq<DisplayRow>,
    second: Seq<DisplayRow>,
)
    requires
        rows_view(first) == display_rows(nodes, view),
        rows_view(second) == display_rows(nodes, view),
    ensures
        rows_view(first) == rows_view(second),
        labels_ascending(sorted_labels(memberships(nodes, kept_indices(nodes, view.hide_full, view.gpu_only_mode)))),
        forall|x: Seq<char>|
            #![trigger sorted_labels(memberships(nodes, kept_indices(nodes, view.hide_full, view.gpu_only_mode))).contains(x)]
            sorted_labels(memberships(nodes, kept_indices(nodes, view.hide_full, view.gpu_only_mode))).contains(x)
                <==> exists|m: int|
                0 <= m < memberships(nodes, kept_indices(nodes, view.hide_full, view.gpu_only_mode)).len()
                    && (#[trigger] memberships(nodes, kept_indices(nodes, view.hide_full, view.gpu_only_mode))[m]).1 == x,
{
    let ms = memberships(nodes, kept_indices(nodes, view.hide_full, view.gpu_only_mode));
    lemma_sorted_labels_ascending(ms);
    assert forall|x: Seq<char>| #![trigger sorted_labels(ms).contains(x)]
        sorted_labels(ms).contains(x) <==> exists|m: int| 0 <= m < ms.len() && (#[trigger] ms[m]).1 == x by {
        lemma_sorted_labels_contents(ms, x);
    }
}

} // verus!
