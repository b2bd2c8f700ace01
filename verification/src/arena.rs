//! Building the directory tree of a space analysis: nodes are added to an
//! arena as directories and files are found, subtrees built apart are merged
//! under the drive root, and the totals are then aggregated bottom-up.
//!
//! Children lists and parent links always agree, and every parent comes before
//! its children, so that the aggregation is a single backward sweep and each
//! directory's children add up to no more than the directory itself.
use vstd::prelude::*;

use vstd::hash_map::StringHashMap;

use crate::space::{
    accumulate, cat_of, children_in_arena, child_totals_fit, counts_of, file_category, file_category_spec, files_total,
    kid_sum, lemma_seq_sum_push, own_counts_of, own_sizes_of, parents_of, parents_ordered, same_shape, seq_sum,
    size_total, sizes_of, is_child, NodeData,
};
use crate::text::{lower_chars, to_lower};
use crate::util::{normalize_path, normalize_path_spec};

verus! {

/// The parent links and children lists agree: node 0 is the root; every other
/// node's parent comes before it and lists it among its children; each list
/// holds real children in increasing order.
pub open spec fn links_consistent(nodes: Seq<NodeData>) -> bool {
    &&& 1 <= nodes.len() <= usize::MAX
    &&& forall|i: int| 1 <= i < nodes.len() ==> (#[trigger] nodes[i]).parent < i
    &&& forall|p: int, a: int| 0 <= p < nodes.len() && 0 <= a < nodes[p].children@.len() ==>
            1 <= #[trigger] nodes[p].children@[a] < nodes.len() && nodes[nodes[p].children@[a] as int].parent == p
    &&& forall|p: int, a: int, b: int| 0 <= p < nodes.len() && 0 <= a < b < nodes[p].children@.len() ==>
            #[trigger] nodes[p].children@[a] < #[trigger] nodes[p].children@[b]
    &&& forall|c: int| 1 <= c < nodes.len() ==> nodes[(#[trigger] nodes[c]).parent as int].children@.contains(c as usize)
}

/// The elements of `cs` that are at least `lo`, in order.
pub open spec fn at_least(cs: Seq<usize>, lo: int) -> Seq<usize>
    decreases cs.len(),
{
    if cs.len() == 0 {
        Seq::empty()
    } else if cs[0] >= lo {
        seq![cs[0]] + at_least(cs.drop_first(), lo)
    } else {
        at_least(cs.drop_first(), lo)
    }
}

proof fn lemma_at_least_skip(cs: Seq<usize>, lo: int)
    requires
        !cs.contains(lo as usize),
        0 <= lo <= usize::MAX,
    ensures
        at_least(cs, lo) == at_least(cs, lo + 1),
    decreases cs.len(),
{
    if cs.len() > 0 {
        assert(cs[0] != lo);
        assert(!cs.drop_first().contains(lo as usize)) by {
            if cs.drop_first().contains(lo as usize) {
                let j = choose|j: int| 0 <= j < cs.drop_first().len() && cs.drop_first()[j] == lo as usize;
                assert(cs[j + 1] == lo as usize);
            }
        }
        lemma_at_least_skip(cs.drop_first(), lo);
    }
}

proof fn lemma_at_least_take(cs: Seq<usize>, lo: int)
    requires
        cs.contains(lo as usize),
        0 <= lo <= usize::MAX,
        forall|a: int, b: int| 0 <= a < b < cs.len() ==> cs[a] < cs[b],
    ensures
        at_least(cs, lo) == seq![lo as usize] + at_least(cs, lo + 1),
    decreases cs.len(),
{
    let t = cs.drop_first();
    assert forall|a: int, b: int| 0 <= a < b < t.len() implies t[a] < t[b] by {
        assert(cs[a + 1] < cs[b + 1]);
    }
    if cs[0] == lo {
        assert(!t.contains(lo as usize)) by {
            if t.contains(lo as usize) {
                let j = choose|j: int| 0 <= j < t.len() && t[j] == lo as usize;
                assert(cs[0] < cs[j + 1]);
            }
        }
        lemma_at_least_skip(t, lo);
    } else {
        let j = choose|j: int| 0 <= j < cs.len() && cs[j] == lo as usize;
        assert(j > 0);
        assert(cs[0] < cs[j]);
        assert(t[j - 1] == lo as usize);
        lemma_at_least_take(t, lo);
    }
}

proof fn lemma_at_least_none(cs: Seq<usize>, lo: int)
    requires
        forall|a: int| 0 <= a < cs.len() ==> cs[a] < lo,
    ensures
        at_least(cs, lo) == Seq::<usize>::empty(),
    decreases cs.len(),
{
    if cs.len() > 0 {
        assert forall|a: int| 0 <= a < cs.drop_first().len() implies cs.drop_first()[a] < lo by {
            assert(cs.drop_first()[a] == cs[a + 1]);
        }
        lemma_at_least_none(cs.drop_first(), lo);
    }
}

proof fn lemma_at_least_all(cs: Seq<usize>, lo: int)
    requires
        forall|a: int| 0 <= a < cs.len() ==> cs[a] >= lo,
    ensures
        at_least(cs, lo) == cs,
    decreases cs.len(),
{
    if cs.len() > 0 {
        assert forall|a: int| 0 <= a < cs.drop_first().len() implies cs.drop_first()[a] >= lo by {
            assert(cs.drop_first()[a] == cs[a + 1]);
        }
        lemma_at_least_all(cs.drop_first(), lo);
        assert(cs =~= seq![cs[0]] + cs.drop_first());
    }
}

/// The sum of `vals` over a list of positions.
pub open spec fn sum_at(vals: Seq<int>, ks: Seq<usize>) -> int {
    seq_sum(ks.map_values(|k: usize| vals[k as int]))
}

proof fn lemma_sum_at_cons(vals: Seq<int>, k: usize, ks: Seq<usize>)
    ensures
        sum_at(vals, seq![k] + ks) == vals[k as int] + sum_at(vals, ks),
{
    let m = (seq![k] + ks).map_values(|q: usize| vals[q as int]);
    assert(m.drop_first() =~= ks.map_values(|q: usize| vals[q as int]));
}

/// Summing over a node's children list gives the sum over the nodes that link to it.
pub proof fn lemma_children_sum(nodes: Seq<NodeData>, vals: Seq<int>, p: int)
    requires
        links_consistent(nodes),
        vals.len() == nodes.len(),
        0 <= p < nodes.len(),
    ensures
        sum_at(vals, nodes[p].children@) == kid_sum(vals, parents_of(nodes), p, 1),
{
    let cs = nodes[p].children@;
    assert forall|a: int| 0 <= a < cs.len() implies cs[a] >= 1 by {
        assert(1 <= nodes[p].children@[a]);
    }
    lemma_at_least_all(cs, 1);
    lemma_children_sum_from(nodes, vals, p, 1);
}

proof fn lemma_children_sum_from(nodes: Seq<NodeData>, vals: Seq<int>, p: int, lo: int)
    requires
        links_consistent(nodes),
        vals.len() == nodes.len(),
        0 <= p < nodes.len(),
        1 <= lo <= nodes.len(),
    ensures
        sum_at(vals, at_least(nodes[p].children@, lo)) == kid_sum(vals, parents_of(nodes), p, lo),
    decreases nodes.len() - lo,
{
    let cs = nodes[p].children@;
    let parents = parents_of(nodes);
    if lo == nodes.len() {
        assert forall|a: int| 0 <= a < cs.len() implies cs[a] < lo by {
            assert(nodes[p].children@[a] < nodes.len());
        }
        lemma_at_least_none(cs, lo);
        assert(sum_at(vals, Seq::<usize>::empty()) == 0) by {
            assert(Seq::<usize>::empty().map_values(|k: usize| vals[k as int]) =~= Seq::<int>::empty());
        }
    } else {
        lemma_children_sum_from(nodes, vals, p, lo + 1);
        assert forall|a: int, b: int| 0 <= a < b < cs.len() implies cs[a] < cs[b] by {
            assert(nodes[p].children@[a] < nodes[p].children@[b]);
        }
        if cs.contains(lo as usize) {
            let a = choose|a: int| 0 <= a < cs.len() && cs[a] == lo as usize;
            assert(nodes[nodes[p].children@[a] as int].parent == p);
            assert(is_child(parents, lo, p));
            lemma_at_least_take(cs, lo);
            lemma_sum_at_cons(vals, lo as usize, at_least(cs, lo + 1));
        } else {
            assert(!is_child(parents, lo, p)) by {
                if is_child(parents, lo, p) {
                    assert(nodes[lo].parent == p);
                    assert(nodes[nodes[lo].parent as int].children@.contains(lo as usize));
                }
            }
            lemma_at_least_skip(cs, lo);
        }
    }
}

/// After aggregation each directory's children add up to no more than the
/// directory itself, so their totals fit in 64 bits.
pub proof fn lemma_totals_fit(before: Seq<NodeData>, after: Seq<NodeData>)
    requires
        links_consistent(before),
        after.len() == before.len(),
        forall|i: int| 0 <= i < after.len() ==> same_shape(#[trigger] after[i], before[i]),
        forall|i: int| 0 <= i < after.len() ==> #[trigger] after[i].size
            == before[i].own_size + kid_sum(sizes_of(after), parents_of(before), i, 1),
        forall|i: int| 0 <= i < after.len() ==> #[trigger] after[i].file_count
            == before[i].own_files + kid_sum(counts_of(after), parents_of(before), i, 1),
    ensures
        links_consistent(after),
        children_in_arena(after),
        child_totals_fit(after),
{
    assert(parents_of(after) =~= parents_of(before));
    assert(links_consistent(after)) by {
        assert forall|i: int| 1 <= i < after.len() implies (#[trigger] after[i]).parent < i by {
            assert(same_shape(after[i], before[i]));
        }
        assert forall|p: int, a: int| 0 <= p < after.len() && 0 <= a < after[p].children@.len() implies
            1 <= #[trigger] after[p].children@[a] < after.len() && after[after[p].children@[a] as int].parent == p by {
            assert(same_shape(after[p], before[p]));
            assert(1 <= before[p].children@[a] < before.len());
            assert(same_shape(after[after[p].children@[a] as int], before[before[p].children@[a] as int]));
        }
        assert forall|p: int, a: int, b: int| 0 <= p < after.len() && 0 <= a < b < after[p].children@.len() implies
            #[trigger] after[p].children@[a] < #[trigger] after[p].children@[b] by {
            assert(same_shape(after[p], before[p]));
            assert(before[p].children@[a] < before[p].children@[b]);
        }
        assert forall|c: int| 1 <= c < after.len() implies after[(#[trigger] after[c]).parent as int].children@.contains(c as usize) by {
            assert(same_shape(after[c], before[c]));
            assert(before[before[c].parent as int].children@.contains(c as usize));
            assert(same_shape(after[after[c].parent as int], before[before[c].parent as int]));
        }
    }
    assert forall|i: int| 0 <= i < after.len() implies size_total(after, #[trigger] after[i].children@) <= u64::MAX
        && files_total(after, after[i].children@) <= u64::MAX by {
        lemma_children_sum(after, sizes_of(after), i);
        lemma_children_sum(after, counts_of(after), i);
        assert(after[i].children@.map_values(|k: usize| sizes_of(after)[k as int])
            =~= after[i].children@.map_values(|k: usize| after[k as int].size as int));
        assert(after[i].children@.map_values(|k: usize| counts_of(after)[k as int])
            =~= after[i].children@.map_values(|k: usize| after[k as int].file_count as int));
        assert(same_shape(after[i], before[i]));
        assert(size_total(after, after[i].children@) == kid_sum(sizes_of(after), parents_of(after), i, 1));
        assert(files_total(after, after[i].children@) == kid_sum(counts_of(after), parents_of(after), i, 1));
        assert(after[i].size == before[i].own_size + kid_sum(sizes_of(after), parents_of(after), i, 1));
        assert(after[i].file_count == before[i].own_files + kid_sum(counts_of(after), parents_of(after), i, 1));
    }
}

} // verus!

verus! {

/// A directory tree being built, with the running totals of its own bytes,
/// files and bytes per category, and an index from lower-cased path to node.
pub struct Arena {
    nodes: Vec<NodeData>,
    index: StringHashMap<usize>,
    own_total: u64,
    files_total: u64,
    cat_totals: [u64; 8],
}

/// The totals of the nodes' own bytes, files and category bytes.
pub open spec fn totals_match(nodes: Seq<NodeData>, own: u64, files: u64, cats: Seq<u64>) -> bool {
    &&& own == seq_sum(own_sizes_of(nodes))
    &&& files == seq_sum(own_counts_of(nodes))
    &&& cats.len() == 8
    &&& forall|c: int| 0 <= c < 8 ==> #[trigger] cats[c] == seq_sum(cat_of(nodes, c)) && cats[c] <= own
}

impl Arena {
    /// The nodes.
    pub closed spec fn nodes(&self) -> Seq<NodeData> {
        self.nodes@
    }

    /// Lower-cased normalised path to node.
    pub closed spec fn index(&self) -> Map<Seq<char>, usize> {
        self.index@
    }

    /// Total of the nodes' own bytes.
    pub closed spec fn own_total(&self) -> u64 {
        self.own_total
    }

    /// Total of the nodes' own files.
    pub closed spec fn files_total(&self) -> u64 {
        self.files_total
    }

    /// The tree is consistent: links, totals and index agree.
    pub closed spec fn wf(&self) -> bool {
        &&& links_consistent(self.nodes@)
        &&& totals_match(self.nodes@, self.own_total, self.files_total, self.cat_totals@)
        &&& forall|k: Seq<char>| #[trigger] self.index@.contains_key(k) ==> self.index@[k] < self.nodes@.len()
                && lower_chars(self.nodes@[self.index@[k] as int].path@) == k
    }

    /// A tree holding only its root directory (named `name`, at `path`).
    pub fn new(name: String, path: &str) -> (a: Arena)
        ensures
            a.wf(),
            a.nodes().len() == 1,
            a.nodes()[0].name == name,
            a.nodes()[0].path@ == normalize_path_spec(path@),
            a.nodes()[0].children@.len() == 0,
            a.nodes()[0].own_size == 0 && a.nodes()[0].own_files == 0,
            a.index() == Map::<Seq<char>, usize>::empty().insert(lower_chars(normalize_path_spec(path@)), 0usize),
            a.own_total() == 0 && a.files_total() == 0,
    {
        let np = normalize_path(path);
        let key = to_lower(np.as_str());
        let mut root = NodeData::default();
        root.name = name;
        root.path = np;
        let mut nodes: Vec<NodeData> = Vec::new();
        nodes.push(root);
        let mut index: StringHashMap<usize> = StringHashMap::new();
        index.insert(key, 0);
        let a = Arena { nodes, index, own_total: 0, files_total: 0, cat_totals: [0u64; 8] };
        proof {
            reveal_with_fuel(seq_sum, 2);
            assert(own_sizes_of(a.nodes@) =~= seq![0int]);
            assert(own_counts_of(a.nodes@) =~= seq![0int]);
            assert forall|c: int| 0 <= c < 8 implies #[trigger] a.cat_totals@[c] == seq_sum(cat_of(a.nodes@, c)) && a.cat_totals@[c] <= 0 by {
                assert(cat_of(a.nodes@, c) =~= seq![0int]);
            }
            assert(a.index@ =~= Map::<Seq<char>, usize>::empty().insert(lower_chars(normalize_path_spec(path@)), 0usize));
        }
        a
    }

    /// Number of nodes.
    pub fn len(&self) -> (n: usize)
        ensures
            n == self.nodes().len(),
    {
        self.nodes.len()
    }

    /// Adds directory `name` at `path` under node `parent`; returns its index.
    pub fn add_dir(&mut self, parent: usize, name: String, path: &str) -> (n: usize)
        requires
            old(self).wf(),
            parent < old(self).nodes().len(),
            old(self).nodes().len() < usize::MAX,
        ensures
            final(self).wf(),
            n == old(self).nodes().len(),
            final(self).nodes().len() == n + 1,
            final(self).nodes()[n as int].name == name,
            final(self).nodes()[n as int].path@ == normalize_path_spec(path@),
            final(self).nodes()[n as int].parent == parent,
            final(self).nodes()[n as int].children@.len() == 0,
            final(self).nodes()[n as int].own_size == 0 && final(self).nodes()[n as int].own_files == 0,
            final(self).nodes()[parent as int].children@ == old(self).nodes()[parent as int].children@.push(n),
            forall|i: int| 0 <= i < n && i != parent ==> #[trigger] final(self).nodes()[i] == old(self).nodes()[i],
            final(self).index() == old(self).index().insert(lower_chars(normalize_path_spec(path@)), n),
            final(self).own_total() == old(self).own_total(),
            final(self).files_total() == old(self).files_total(),
    {
        let n = self.nodes.len();
        let np = normalize_path(path);
        let key = to_lower(np.as_str());
        let mut node = NodeData::default();
        node.name = name;
        node.path = np;
        node.parent = parent;
        let ghost old_nodes = self.nodes@;
        self.nodes.push(node);
        self.nodes[parent].children.push(n);
        self.index.insert(key, n);
        proof {
            let nodes = self.nodes@;
            assert forall|i: int| 0 <= i < n && i != parent implies #[trigger] nodes[i] == old_nodes[i] by {}
            assert(nodes[parent as int].children@ == old_nodes[parent as int].children@.push(n));
            assert forall|i: int| 1 <= i < nodes.len() implies (#[trigger] nodes[i]).parent < i by {
                if i < n && i != parent {
                    assert(nodes[i] == old_nodes[i]);
                } else if i == parent as int {
                    assert(nodes[i].parent == old_nodes[i].parent);
                }
            }
            assert forall|p: int, a: int| 0 <= p < nodes.len() && 0 <= a < nodes[p].children@.len() implies
                1 <= #[trigger] nodes[p].children@[a] < nodes.len() && nodes[nodes[p].children@[a] as int].parent == p by {
                if p == parent as int {
                    if a < old_nodes[p].children@.len() {
                        assert(nodes[p].children@[a] == old_nodes[p].children@[a]);
                        let c = old_nodes[p].children@[a] as int;
                        assert(old_nodes[c].parent == p);
                        if c == parent as int {
                            assert(nodes[c].parent == old_nodes[c].parent);
                        } else {
                            assert(nodes[c] == old_nodes[c]);
                        }
                    }
                } else if p < n {
                    assert(nodes[p] == old_nodes[p]);
                    let c = old_nodes[p].children@[a] as int;
                    assert(old_nodes[c].parent == p);
                    if c == parent as int {
                        assert(nodes[c].parent == old_nodes[c].parent);
                    } else {
                        assert(nodes[c] == old_nodes[c]);
                    }
                }
            }
            assert forall|p: int, a: int, b: int| 0 <= p < nodes.len() && 0 <= a < b < nodes[p].children@.len() implies
                #[trigger] nodes[p].children@[a] < #[trigger] nodes[p].children@[b] by {
                if p == parent as int {
                    if b < old_nodes[p].children@.len() {
                        assert(old_nodes[p].children@[a] < old_nodes[p].children@[b]);
                    } else {
                        assert(old_nodes[p].children@[a] < n);
                    }
                } else if p < n {
                    assert(nodes[p] == old_nodes[p]);
                    assert(old_nodes[p].children@[a] < old_nodes[p].children@[b]);
                }
            }
            assert forall|c: int| 1 <= c < nodes.len() implies nodes[(#[trigger] nodes[c]).parent as int].children@.contains(c as usize) by {
                if c == n {
                    assert(nodes[parent as int].children@[old_nodes[parent as int].children@.len() as int] == n);
                } else {
                    let q = old_nodes[c].parent as int;
                    assert(old_nodes[q].children@.contains(c as usize));
                    if c == parent as int {
                        assert(nodes[c].parent == old_nodes[c].parent);
                    } else {
                        assert(nodes[c] == old_nodes[c]);
                    }
                    let j = choose|j: int| 0 <= j < old_nodes[q].children@.len() && old_nodes[q].children@[j] == c as usize;
                    if q == parent as int {
                        assert(nodes[q].children@[j] == c as usize);
                    } else {
                        assert(nodes[q] == old_nodes[q]);
                    }
                }
            }
            assert(own_sizes_of(nodes) =~= own_sizes_of(old_nodes).push(0));
            assert(own_counts_of(nodes) =~= own_counts_of(old_nodes).push(0));
            lemma_seq_sum_push(own_sizes_of(old_nodes), 0);
            lemma_seq_sum_push(own_counts_of(old_nodes), 0);
            assert forall|c: int| 0 <= c < 8 implies #[trigger] self.cat_totals@[c] == seq_sum(cat_of(nodes, c)) && self.cat_totals@[c] <= self.own_total by {
                assert(cat_of(nodes, c) =~= cat_of(old_nodes, c).push(0));
                lemma_seq_sum_push(cat_of(old_nodes, c), 0);
            }
            assert forall|k: Seq<char>| #[trigger] self.index@.contains_key(k) implies self.index@[k] < nodes.len()
                && lower_chars(nodes[self.index@[k] as int].path@) == k by {
                if k != lower_chars(normalize_path_spec(path@)) {
                    assert(old(self).index@.contains_key(k));
                    let i = old(self).index@[k] as int;
                    if i != parent as int {
                        assert(nodes[i] == old_nodes[i]);
                    }
                }
            }
        }
        n
    }

    /// Whether a file of `size` bytes can be added with every total still in 64 bits.
    pub fn file_fits(&self, size: u64) -> (b: bool)
        ensures
            b == (self.own_total() + size <= u64::MAX && self.files_total() < u64::MAX),
    {
        size <= u64::MAX - self.own_total && self.files_total < u64::MAX
    }

    /// Whether a subtree built apart can be merged with every total still in
    /// 64 bits and every index in a `usize`.
    pub fn fits_with(&self, sub: &Arena) -> (b: bool)
        ensures
            b == (self.nodes().len() + sub.nodes().len() <= usize::MAX
                && self.own_total() + sub.own_total() <= u64::MAX
                && self.files_total() + sub.files_total() <= u64::MAX),
    {
        sub.nodes.len() <= usize::MAX - self.nodes.len()
            && sub.own_total <= u64::MAX - self.own_total
            && sub.files_total <= u64::MAX - self.files_total
    }

    /// Counts a file named `name` of `size` bytes directly inside node `idx`
    /// (its bytes also go to the category of its extension).
    pub fn add_file(&mut self, idx: usize, name: &str, size: u64)
        requires
            old(self).wf(),
            idx < old(self).nodes().len(),
            old(self).own_total() + size <= u64::MAX,
            old(self).files_total() < u64::MAX,
        ensures
            final(self).wf(),
            final(self).nodes().len() == old(self).nodes().len(),
            final(self).nodes()[idx as int].own_size == old(self).nodes()[idx as int].own_size + size,
            final(self).nodes()[idx as int].own_files == old(self).nodes()[idx as int].own_files + 1,
            final(self).nodes()[idx as int].cats@ == old(self).nodes()[idx as int].cats@.update(
                file_category_spec(name@) as int, (old(self).nodes()[idx as int].cats@[file_category_spec(name@) as int] + size) as u64),
            final(self).nodes()[idx as int].children == old(self).nodes()[idx as int].children,
            final(self).nodes()[idx as int].parent == old(self).nodes()[idx as int].parent,
            forall|i: int| 0 <= i < final(self).nodes().len() && i != idx ==> #[trigger] final(self).nodes()[i] == old(self).nodes()[i],
            final(self).index() == old(self).index(),
            final(self).own_total() == old(self).own_total() + size,
            final(self).files_total() == old(self).files_total() + 1,
    {
        let cat = file_category(name) as usize;
        proof {
            lemma_category_range(name@);
        }
        let ghost old_nodes = self.nodes@;
        let n = self.nodes.len();
        proof {
            lemma_seq_sum_nonneg_parts(own_sizes_of(old_nodes), idx as int);
            lemma_seq_sum_nonneg_parts(own_counts_of(old_nodes), idx as int);
            lemma_seq_sum_nonneg_parts(cat_of(old_nodes, cat as int), idx as int);
        }
        let os = self.nodes[idx].own_size;
        let of = self.nodes[idx].own_files;
        let oc = self.nodes[idx].cats[cat];
        proof {
            assert(cat_of(old_nodes, cat as int)[idx as int] == oc);
            assert(self.cat_totals@[cat as int] == seq_sum(cat_of(old_nodes, cat as int)) && self.cat_totals@[cat as int] <= self.own_total);
            assert(own_sizes_of(old_nodes)[idx as int] == os);
        }
        self.nodes[idx].own_size = os + size;
        self.nodes[idx].own_files = of + 1;
        self.nodes[idx].cats[cat] = oc + size;
        self.own_total = self.own_total + size;
        self.files_total = self.files_total + 1;
        let ct = self.cat_totals[cat];
        self.cat_totals[cat] = ct + size;
        proof {
            let nodes = self.nodes@;
            assert(own_sizes_of(nodes) =~= own_sizes_of(old_nodes).update(idx as int, os + size));
            assert(own_counts_of(nodes) =~= own_counts_of(old_nodes).update(idx as int, of + 1));
            crate::space::lemma_seq_sum_update(own_sizes_of(old_nodes), idx as int, os + size);
            crate::space::lemma_seq_sum_update(own_counts_of(old_nodes), idx as int, of + 1);
            assert forall|c: int| 0 <= c < 8 implies #[trigger] self.cat_totals@[c] == seq_sum(cat_of(nodes, c)) && self.cat_totals@[c] <= self.own_total by {
                if c == cat as int {
                    assert(cat_of(nodes, c) =~= cat_of(old_nodes, c).update(idx as int, oc + size));
                    crate::space::lemma_seq_sum_update(cat_of(old_nodes, c), idx as int, oc + size);
                } else {
                    assert(cat_of(nodes, c) =~= cat_of(old_nodes, c));
                }
            }
            assert forall|i: int| 1 <= i < nodes.len() implies (#[trigger] nodes[i]).parent < i by {
                if i != idx {
                    assert(nodes[i] == old_nodes[i]);
                }
            }
            assert forall|p: int, a: int| 0 <= p < nodes.len() && 0 <= a < nodes[p].children@.len() implies
                1 <= #[trigger] nodes[p].children@[a] < nodes.len() && nodes[nodes[p].children@[a] as int].parent == p by {
                assert(nodes[p].children == old_nodes[p].children);
                let c = old_nodes[p].children@[a] as int;
                assert(nodes[c].parent == old_nodes[c].parent);
            }
            assert forall|p: int, a: int, b: int| 0 <= p < nodes.len() && 0 <= a < b < nodes[p].children@.len() implies
                #[trigger] nodes[p].children@[a] < #[trigger] nodes[p].children@[b] by {
                assert(nodes[p].children == old_nodes[p].children);
            }
            assert forall|c: int| 1 <= c < nodes.len() implies nodes[(#[trigger] nodes[c]).parent as int].children@.contains(c as usize) by {
                assert(nodes[c].parent == old_nodes[c].parent);
                assert(nodes[old_nodes[c].parent as int].children == old_nodes[old_nodes[c].parent as int].children);
            }
            assert forall|k: Seq<char>| #[trigger] self.index@.contains_key(k) implies self.index@[k] < nodes.len()
                && lower_chars(nodes[self.index@[k] as int].path@) == k by {
                let i = self.index@[k] as int;
                assert(nodes[i].path == old_nodes[i].path);
            }
        }
    }
}

proof fn lemma_category_range(name: Seq<char>)
    ensures
        file_category_spec(name) < 8,
{
}

/// A single entry of a sequence of naturals is at most its sum.
proof fn lemma_seq_sum_nonneg_parts(s: Seq<int>, k: int)
    requires
        0 <= k < s.len(),
        forall|i: int| 0 <= i < s.len() ==> s[i] >= 0,
    ensures
        s[k] <= seq_sum(s),
{
    crate::space::lemma_seq_sum_update(s, k, 0);
    crate::space::lemma_seq_sum_nonneg(s.update(k, 0));
}

} // verus!

verus! {

/// `m` is node `n` of a subtree moved `base` places up in a larger arena (the
/// subtree's root becoming a child of node 0).
pub open spec fn is_shifted(m: NodeData, n: NodeData, base: int, root: bool) -> bool {
    &&& m.name == n.name && m.path == n.path
    &&& m.size == n.size && m.own_size == n.own_size
    &&& m.file_count == n.file_count && m.own_files == n.own_files
    &&& m.cats == n.cats
    &&& m.children@ == n.children@.map_values(|c: usize| (c + base) as usize)
    &&& m.parent == (if root { 0usize } else { (n.parent + base) as usize })
}

proof fn lemma_seq_sum_concat(a: Seq<int>, b: Seq<int>)
    ensures
        seq_sum(a + b) == seq_sum(a) + seq_sum(b),
{
    crate::space::lemma_seq_sum_split(a + b, a.len() as int);
    assert((a + b).take(a.len() as int) =~= a);
    assert((a + b).skip(a.len() as int) =~= b);
}

impl Arena {
    /// Hangs a subtree built apart under node 0: its nodes are appended (links
    /// moved by the current number of nodes) and its root becomes the last child
    /// of node 0.
    pub fn merge(&mut self, sub: &Arena)
        requires
            old(self).wf(),
            sub.wf(),
            old(self).nodes().len() + sub.nodes().len() <= usize::MAX,
            old(self).own_total() + sub.own_total() <= u64::MAX,
            old(self).files_total() + sub.files_total() <= u64::MAX,
        ensures
            final(self).wf(),
            final(self).nodes().len() == old(self).nodes().len() + sub.nodes().len(),
            forall|i: int| 1 <= i < old(self).nodes().len() ==> #[trigger] final(self).nodes()[i] == old(self).nodes()[i],
            final(self).nodes()[0].children@ == old(self).nodes()[0].children@.push(old(self).nodes().len() as usize),
            final(self).nodes()[0].name == old(self).nodes()[0].name,
            final(self).nodes()[0].path == old(self).nodes()[0].path,
            final(self).nodes()[0].own_size == old(self).nodes()[0].own_size,
            final(self).nodes()[0].own_files == old(self).nodes()[0].own_files,
            forall|q: int| 0 <= q < sub.nodes().len() ==> is_shifted(#[trigger] final(self).nodes()[old(self).nodes().len() + q],
                sub.nodes()[q], old(self).nodes().len() as int, q == 0),
            forall|k: Seq<char>| old(self).index().contains_key(k) ==> #[trigger] final(self).index().contains_key(k),
            forall|q: int| 0 <= q < sub.nodes().len() ==> final(self).index().contains_key(lower_chars(#[trigger] sub.nodes()[q].path@)),
            final(self).own_total() == old(self).own_total() + sub.own_total(),
            final(self).files_total() == old(self).files_total() + sub.files_total(),
    {
        let base = self.nodes.len();
        let ghost old_nodes = self.nodes@;
        let ghost sn = sub.nodes@;
        let m = sub.nodes.len();
        let mut q: usize = 0;
        while q < m
            invariant
                q <= m,
                m == sn.len(),
                sn == sub.nodes@,
                sub.wf(),
                base == old_nodes.len(),
                base + m <= usize::MAX,
                self.nodes@.len() == base + q,
                forall|i: int| 0 <= i < base ==> #[trigger] self.nodes@[i] == old_nodes[i],
                forall|j: int| 0 <= j < q ==> is_shifted(#[trigger] self.nodes@[base + j], sn[j], base as int, j == 0),
                forall|k: Seq<char>| #[trigger] self.index@.contains_key(k) ==> self.index@[k] < self.nodes@.len()
                    && lower_chars(self.nodes@[self.index@[k] as int].path@) == k,
                forall|k: Seq<char>| old(self).index@.contains_key(k) ==> #[trigger] self.index@.contains_key(k),
                forall|j: int| 0 <= j < q ==> self.index@.contains_key(lower_chars(#[trigger] sn[j].path@)),
                self.own_total == old(self).own_total,
                self.files_total == old(self).files_total,
                self.cat_totals == old(self).cat_totals,
            decreases m - q,
        {
            let n = &sub.nodes[q];
            let mut kids: Vec<usize> = Vec::new();
            let mut a: usize = 0;
            while a < n.children.len()
                invariant
                    a <= n.children.len(),
                    n == &sn[q as int],
                    sub.wf(),
                    sn == sub.nodes@,
                    q < m,
                    m == sn.len(),
                    base + m <= usize::MAX,
                    kids@ == n.children@.take(a as int).map_values(|c: usize| (c + base) as usize),
                decreases n.children.len() - a,
            {
                assert(n.children@[a as int] < sn.len());
                kids.push(n.children[a] + base);
                assert(kids@ =~= n.children@.take(a + 1).map_values(|c: usize| (c + base) as usize));
                a = a + 1;
            }
            assert(n.children@.take(n.children.len() as int) =~= n.children@);
            let parent: usize = if q == 0 {
                0
            } else {
                assert(sn[q as int].parent < q);
                n.parent + base
            };
            let key = to_lower(n.path.as_str());
            let node = NodeData {
                name: n.name.clone(),
                path: n.path.clone(),
                size: n.size,
                own_size: n.own_size,
                file_count: n.file_count,
                own_files: n.own_files,
                cats: n.cats,
                children: kids,
                parent,
            };
            let ghost before = self.nodes@;
            self.nodes.push(node);
            self.index.insert(key, base + q);
            proof {
                assert forall|k: Seq<char>| #[trigger] self.index@.contains_key(k) implies self.index@[k] < self.nodes@.len()
                    && lower_chars(self.nodes@[self.index@[k] as int].path@) == k by {
                    if k != lower_chars(sn[q as int].path@) {
                        assert(self.nodes@[self.index@[k] as int] == before[self.index@[k] as int]);
                    }
                }
                assert forall|j: int| 0 <= j < q + 1 implies self.index@.contains_key(lower_chars(#[trigger] sn[j].path@)) by {}
            }
            q = q + 1;
        }
        let ghost mid = self.nodes@;
        self.nodes[0].children.push(base);
        self.own_total = self.own_total + sub.own_total;
        self.files_total = self.files_total + sub.files_total;
        let ghost pushed = self.nodes@;
        let ghost idx_now = self.index@;
        proof {
            assert forall|i: int| 0 <= i < pushed.len() && i != 0 implies #[trigger] pushed[i] == mid[i] by {}
            assert(pushed[0].children@ == mid[0].children@.push(base));
            assert(pushed[0].name == mid[0].name && pushed[0].path == mid[0].path);
            assert(pushed[0].own_size == mid[0].own_size && pushed[0].own_files == mid[0].own_files);
            assert(pushed[0].cats == mid[0].cats && pushed[0].parent == mid[0].parent);
            assert(pushed.len() == mid.len());
        }
        let mut c: usize = 0;
        while c < 8
            invariant
                c <= 8,
                self.nodes@ == pushed,
                self.index@ == idx_now,
                self.files_total == old(self).files_total + sub.files_total,
                self.own_total == old(self).own_total + sub.own_total,
                totals_match(old_nodes, old(self).own_total, old(self).files_total, old(self).cat_totals@),
                totals_match(sn, sub.own_total, sub.files_total, sub.cat_totals@),
                sn == sub.nodes@,
                forall|d: int| 0 <= d < c ==> #[trigger] self.cat_totals@[d] == old(self).cat_totals@[d] + sub.cat_totals@[d],
                forall|d: int| c <= d < 8 ==> #[trigger] self.cat_totals@[d] == old(self).cat_totals@[d],
            decreases 8 - c,
        {
            assert(old(self).cat_totals@[c as int] <= old(self).own_total);
            assert(sub.cat_totals@[c as int] <= sub.own_total);
            let v = self.cat_totals[c] + sub.cat_totals[c];
            self.cat_totals[c] = v;
            c = c + 1;
        }
        proof {
            let f = self.nodes@;
            assert(base >= 1);
            assert forall|i: int| 1 <= i < base implies #[trigger] f[i] == old_nodes[i] by {
                assert(f[i] == mid[i]);
            }
            assert forall|j: int| 0 <= j < m implies #[trigger] f[base + j] == mid[base + j] by {}
            assert(f[0].children@ == old_nodes[0].children@.push(base));
            // totals
            assert(own_sizes_of(f) =~= own_sizes_of(old_nodes) + own_sizes_of(sn)) by {
                assert forall|i: int| 0 <= i < f.len() implies #[trigger] own_sizes_of(f)[i] == (own_sizes_of(old_nodes) + own_sizes_of(sn))[i] by {
                    if i >= base {
                        assert(is_shifted(mid[base + (i - base)], sn[i - base], base as int, i - base == 0));
                    }
                }
            }
            assert(own_counts_of(f) =~= own_counts_of(old_nodes) + own_counts_of(sn)) by {
                assert forall|i: int| 0 <= i < f.len() implies #[trigger] own_counts_of(f)[i] == (own_counts_of(old_nodes) + own_counts_of(sn))[i] by {
                    if i >= base {
                        assert(is_shifted(mid[base + (i - base)], sn[i - base], base as int, i - base == 0));
                    }
                }
            }
            lemma_seq_sum_concat(own_sizes_of(old_nodes), own_sizes_of(sn));
            lemma_seq_sum_concat(own_counts_of(old_nodes), own_counts_of(sn));
            assert forall|d: int| 0 <= d < 8 implies #[trigger] self.cat_totals@[d] == seq_sum(cat_of(f, d)) && self.cat_totals@[d] <= self.own_total by {
                assert(cat_of(f, d) =~= cat_of(old_nodes, d) + cat_of(sn, d)) by {
                    assert forall|i: int| 0 <= i < f.len() implies #[trigger] cat_of(f, d)[i] == (cat_of(old_nodes, d) + cat_of(sn, d))[i] by {
                        if i >= base {
                            assert(is_shifted(mid[base + (i - base)], sn[i - base], base as int, i - base == 0));
                        }
                    }
                }
                lemma_seq_sum_concat(cat_of(old_nodes, d), cat_of(sn, d));
            }
            // links
            assert forall|i: int| 1 <= i < f.len() implies (#[trigger] f[i]).parent < i by {
                if i >= base {
                    let j = i - base;
                    assert(is_shifted(f[base + j], sn[j], base as int, j == 0));
                    if j > 0 {
                        assert(sn[j].parent < j);
                    }
                }
            }
            assert forall|p: int, a: int| 0 <= p < f.len() && 0 <= a < f[p].children@.len() implies
                1 <= #[trigger] f[p].children@[a] < f.len() && f[f[p].children@[a] as int].parent == p by {
                if p == 0 {
                    if a < old_nodes[0].children@.len() {
                        assert(f[0].children@[a] == old_nodes[0].children@[a]);
                        let c = old_nodes[0].children@[a] as int;
                        assert(1 <= c < base);
                        assert(f[c] == old_nodes[c]);
                    } else {
                        assert(f[0].children@[a] == base);
                        assert(is_shifted(f[base + 0], sn[0], base as int, true));
                    }
                } else if p < base {
                    assert(f[p] == old_nodes[p]);
                    let c = old_nodes[p].children@[a] as int;
                    assert(f[c] == old_nodes[c]);
                } else {
                    let j = p - base;
                    assert(is_shifted(f[base + j], sn[j], base as int, j == 0));
                    let c = sn[j].children@[a] as int;
                    assert(1 <= c < m && sn[c].parent == j);
                    assert(is_shifted(f[base + c], sn[c], base as int, c == 0));
                }
            }
            assert forall|p: int, a: int, b: int| 0 <= p < f.len() && 0 <= a < b < f[p].children@.len() implies
                #[trigger] f[p].children@[a] < #[trigger] f[p].children@[b] by {
                if p == 0 {
                    if b < old_nodes[0].children@.len() {
                        assert(old_nodes[0].children@[a] < old_nodes[0].children@[b]);
                    } else {
                        assert(old_nodes[0].children@[a] < base);
                    }
                } else if p < base {
                    assert(f[p] == old_nodes[p]);
                    assert(old_nodes[p].children@[a] < old_nodes[p].children@[b]);
                } else {
                    let j = p - base;
                    assert(is_shifted(f[base + j], sn[j], base as int, j == 0));
                    assert(sn[j].children@[a] < sn[j].children@[b]);
                }
            }
            assert forall|c: int| 1 <= c < f.len() implies f[(#[trigger] f[c]).parent as int].children@.contains(c as usize) by {
                if c < base {
                    assert(f[c] == old_nodes[c]);
                    let pp = old_nodes[c].parent as int;
                    assert(old_nodes[pp].children@.contains(c as usize));
                    let a = choose|a: int| 0 <= a < old_nodes[pp].children@.len() && old_nodes[pp].children@[a] == c as usize;
                    if pp == 0 {
                        assert(f[0].children@[a] == c as usize);
                    } else {
                        assert(f[pp] == old_nodes[pp]);
                    }
                } else if c == base {
                    assert(is_shifted(f[base + 0], sn[0], base as int, true));
                    assert(f[0].children@[old_nodes[0].children@.len() as int] == base);
                } else {
                    let j = c - base;
                    assert(is_shifted(f[base + j], sn[j], base as int, false));
                    let pj = sn[j].parent as int;
                    assert(sn[pj].children@.contains(j as usize));
                    let a = choose|a: int| 0 <= a < sn[pj].children@.len() && sn[pj].children@[a] == j as usize;
                    assert(is_shifted(f[base + pj], sn[pj], base as int, pj == 0));
                    assert(f[base + pj].children@[a] == c as usize);
                }
            }
            assert forall|k: Seq<char>| #[trigger] self.index@.contains_key(k) implies self.index@[k] < f.len()
                && lower_chars(f[self.index@[k] as int].path@) == k by {
                let i = self.index@[k] as int;
                assert(f[i].path == mid[i].path);
            }
        }
    }
}

} // verus!

verus! {

/// A finished space analysis: the aggregated tree and its statistics.
pub struct SpaceSession {
    session_id: u32,
    drive: String,
    done: bool,
    nodes: Vec<NodeData>,
    index: StringHashMap<usize>,
    dir_count: u64,
    skipped_dirs: u64,
}

/// The whole result sent to the treemap.
pub struct SpaceTreeDto {
    pub session_id: u32,
    pub drive: String,
    pub done: bool,
    pub total_bytes: u64,
    pub file_count: u64,
    pub dir_count: u64,
    pub skipped_dirs: u64,
    pub root: crate::space::DirNodeDto,
}

/// One directory and its direct subdirectories (for drilling down past the
/// depth of the full result).
pub struct DirDetailDto {
    pub path: String,
    pub name: String,
    pub size: u64,
    pub file_count: u64,
    pub dominant: u8,
    /// Subdirectories, largest first, without their own children.
    pub children: Vec<crate::space::DirNodeDto>,
}

impl SpaceSession {
    /// The session's id.
    pub closed spec fn id(&self) -> u32 {
        self.session_id
    }

    /// The analysed drive.
    pub closed spec fn drive_name(&self) -> Seq<char> {
        self.drive@
    }

    /// Directories counted, the drive root included.
    pub closed spec fn dirs(&self) -> u64 {
        self.dir_count
    }

    /// Directories that could not be read or were links.
    pub closed spec fn skipped(&self) -> u64 {
        self.skipped_dirs
    }

    /// The session's id.
    pub fn session_id(&self) -> (r: u32)
        ensures
            r == self.id(),
    {
        self.session_id
    }

    /// The tree's nodes.
    pub closed spec fn nodes(&self) -> Seq<NodeData> {
        self.nodes@
    }

    /// Lower-cased normalised path to node.
    pub closed spec fn index(&self) -> Map<Seq<char>, usize> {
        self.index@
    }

    /// The tree is aggregated and its index points at the nodes of their paths.
    #[verifier::type_invariant]
    pub closed spec fn wf(&self) -> bool {
        &&& self.done
        &&& links_consistent(self.nodes@)
        &&& children_in_arena(self.nodes@)
        &&& child_totals_fit(self.nodes@)
        &&& forall|k: Seq<char>| #[trigger] self.index@.contains_key(k) ==> self.index@[k] < self.nodes@.len()
                && lower_chars(self.nodes@[self.index@[k] as int].path@) == k
    }

    /// Aggregates a built tree into a finished session; `dirs_found` are the
    /// directories walked besides the drive root.
    pub fn finish(session_id: u32, drive: String, arena: Arena, dirs_found: u64, skipped_dirs: u64) -> (s: SpaceSession)
        requires
            arena.wf(),
        ensures
            s.wf(),
            s.id() == session_id && s.drive_name() == drive@,
            s.dirs() == (if dirs_found < u64::MAX { dirs_found + 1 } else { u64::MAX as int }),
            s.skipped() == skipped_dirs,
            s.nodes().len() == arena.nodes().len(),
            forall|i: int| 0 <= i < s.nodes().len() ==> same_shape(#[trigger] s.nodes()[i], arena.nodes()[i]),
            forall|i: int| 0 <= i < s.nodes().len() ==> #[trigger] s.nodes()[i].size
                == arena.nodes()[i].own_size + kid_sum(sizes_of(s.nodes()), parents_of(arena.nodes()), i, 1),
            forall|i: int| 0 <= i < s.nodes().len() ==> #[trigger] s.nodes()[i].file_count
                == arena.nodes()[i].own_files + kid_sum(counts_of(s.nodes()), parents_of(arena.nodes()), i, 1),
            forall|i: int, c: int| 0 <= i < s.nodes().len() && 0 <= c < 8 ==> #[trigger] s.nodes()[i].cats@[c]
                == arena.nodes()[i].cats@[c] + kid_sum(cat_of(s.nodes(), c), parents_of(arena.nodes()), i, 1),
            s.index() == arena.index(),
            s.nodes()[0].size == arena.own_total(),
            s.nodes()[0].file_count == arena.files_total(),
    {
        let Arena { nodes, index, own_total, files_total, cat_totals } = arena;
        let ghost before = nodes@;
        let mut nodes = nodes;
        proof {
            assert(parents_ordered(parents_of(before))) by {
                assert forall|i: int| 1 <= i < parents_of(before).len() implies #[trigger] parents_of(before)[i] == usize::MAX
                    || parents_of(before)[i] == i || parents_of(before)[i] < i by {
                    assert(before[i].parent < i);
                }
            }
            assert forall|c: int| 0 <= c < 8 implies seq_sum(#[trigger] cat_of(before, c)) <= u64::MAX by {
                assert(cat_totals@[c] == seq_sum(cat_of(before, c)));
            }
        }
        accumulate(&mut nodes);
        proof {
            lemma_totals_fit(before, nodes@);
            assert forall|k: Seq<char>| #[trigger] index@.contains_key(k) implies index@[k] < nodes@.len()
                && lower_chars(nodes@[index@[k] as int].path@) == k by {
                assert(same_shape(nodes@[index@[k] as int], before[index@[k] as int]));
            }
        }
        let dir_count = if dirs_found < u64::MAX { dirs_found + 1 } else { u64::MAX };
        SpaceSession { session_id, drive, done: true, nodes, index, dir_count, skipped_dirs }
    }

    /// The full result: totals of the drive root and the tree view from it
    /// (see `is_dto_of`).
    pub fn get_result(&self) -> (r: SpaceTreeDto)
        ensures
            self.wf(),
            r.session_id == self.id() && r.drive@ == self.drive_name() && r.done,
            r.total_bytes == self.nodes()[0].size,
            r.file_count == self.nodes()[0].file_count,
            r.dir_count == self.dirs() && r.skipped_dirs == self.skipped(),
            crate::space::is_dto_of(r.root, self.nodes(), 0, 0),
    {
        proof {
            use_type_invariant(self);
        }
        let root = crate::space::node_to_dto(&self.nodes, 0, 0);
        SpaceTreeDto {
            session_id: self.session_id,
            drive: self.drive.clone(),
            done: self.done,
            total_bytes: self.nodes[0].size,
            file_count: self.nodes[0].file_count,
            dir_count: self.dir_count,
            skipped_dirs: self.skipped_dirs,
            root,
        }
    }

    /// The directory at `path` (normalised, compared case-insensitively) with
    /// its subdirectories largest first; `None` when the tree has no such directory.
    pub fn get_dir_detail(&self, path: &str) -> (r: Option<DirDetailDto>)
        ensures
            self.wf(),
            match r {
                None => !self.index().contains_key(lower_chars(normalize_path_spec(path@))),
                Some(d) => self.index().contains_key(lower_chars(normalize_path_spec(path@)))
                    && is_detail_of(d, self.nodes(), self.index()[lower_chars(normalize_path_spec(path@))] as int),
            },
    {
        proof {
            use_type_invariant(self);
        }
        let np = normalize_path(path);
        let key = to_lower(np.as_str());
        let idx = match self.index.get(key.as_str()) {
            Some(i) => *i,
            None => return None,
        };
        let nd = &self.nodes[idx];
        let kids = crate::space::sorted_children(&self.nodes, idx);
        let mut children: Vec<crate::space::DirNodeDto> = Vec::new();
        let mut i: usize = 0;
        while i < kids.len()
            invariant
                i <= kids.len(),
                forall|q: int| 0 <= q < kids.len() ==> #[trigger] kids@[q] < self.nodes@.len(),
                children.len() == i,
                forall|q: int| 0 <= q < i ==> #[trigger] is_flat_dto_of(children@[q], self.nodes@[kids@[q] as int]),
            decreases kids.len() - i,
        {
            let n = &self.nodes[kids[i]];
            children.push(crate::space::DirNodeDto {
                name: n.name.clone(),
                path: n.path.clone(),
                size: n.size,
                file_count: n.file_count,
                dominant: crate::space::dominant_of(&n.cats),
                has_children: n.children.len() > 0,
                children: Vec::new(),
            });
            i = i + 1;
        }
        Some(DirDetailDto {
            path: nd.path.clone(),
            name: nd.name.clone(),
            size: nd.size,
            file_count: nd.file_count,
            dominant: crate::space::dominant_of(&nd.cats),
            children,
        })
    }
}

/// `d` shows node `nd` without its children.
pub open spec fn is_flat_dto_of(d: crate::space::DirNodeDto, nd: NodeData) -> bool {
    crate::space::head_matches(d, nd) && d.children@.len() == 0
}

/// `d` is the detail of node `idx`: its own fields, and its children shown flat,
/// largest first (ties in child order).
pub open spec fn is_detail_of(d: DirDetailDto, nodes: Seq<NodeData>, idx: int) -> bool {
    let nd = nodes[idx];
    &&& d.path@ == nd.path@ && d.name@ == nd.name@
    &&& d.size == nd.size && d.file_count == nd.file_count
    &&& d.dominant as int == crate::space::dominant_spec(nd.cats@)
    &&& exists|kids: Seq<usize>| #[trigger] crate::order::is_stable_desc_sort(nd.children@, crate::space::sizes_at(nodes, nd.children@), kids)
        && d.children@.len() == kids.len()
        && forall|q: int| 0 <= q < kids.len() ==> is_flat_dto_of(#[trigger] d.children@[q], nodes[kids[q] as int])
}

} // verus!
