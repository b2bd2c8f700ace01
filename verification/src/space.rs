//! Space analysis: a directory tree held in an arena, its bottom-up size
//! aggregation, and the depth-limited views sent to the treemap.
use vstd::prelude::*;

use crate::order::{desc_order, is_desc_order, is_stable_desc_sort, lemma_desc_order_len};
use crate::text::{lower_chars, lower_of, rfind_char, slice_of, str_chars, string_from_chars};

use crate::arena::{DirDetailDto, SpaceTreeDto};
use crate::state::{cancel_requested, AppState};

verus! {

/// Depth of the tree that a full result carries (the root is depth 0).
pub const SERIALIZE_DEPTH: usize = 3;

/// Number of sessions kept (older ones are dropped).
pub const MAX_SESSIONS: usize = 3;

/// Children shown per directory; beyond this the smallest are merged into one "other" entry.
pub const MAX_CHILDREN: usize = 2000;

// ---------------------------------------------------------------------------
// File categories
// ---------------------------------------------------------------------------

/// Number of UTF-8 bytes of a character.
pub open spec fn utf8_width(c: char) -> int {
    if (c as u32) < 0x80 { 1 } else if (c as u32) < 0x800 { 2 } else if (c as u32) < 0x10000 { 3 } else { 4 }
}

/// Number of UTF-8 bytes of a character sequence.
pub open spec fn utf8_len(s: Seq<char>) -> int
    decreases s.len(),
{
    if s.len() == 0 { 0 } else { utf8_width(s[0]) + utf8_len(s.drop_first()) }
}

/// Category of a lower-cased file extension: 1 video, 2 image, 3 audio,
/// 4 archive, 5 disk image, 6 installer, 7 document, 0 other.
pub open spec fn ext_category(e: Seq<char>) -> u8 {
    if e == "mp4"@ || e == "mkv"@ || e == "avi"@ || e == "mov"@ || e == "wmv"@ || e == "flv"@ || e == "m4v"@ || e == "webm"@ || e == "ts"@ {
        1
    } else if e == "jpg"@ || e == "jpeg"@ || e == "png"@ || e == "gif"@ || e == "bmp"@ || e == "webp"@ || e == "raw"@ || e == "psd"@ || e == "heic"@ {
        2
    } else if e == "mp3"@ || e == "wav"@ || e == "flac"@ || e == "ape"@ || e == "ogg"@ || e == "m4a"@ || e == "aac"@ {
        3
    } else if e == "zip"@ || e == "rar"@ || e == "7z"@ || e == "tar"@ || e == "gz"@ || e == "bz2"@ || e == "xz"@ {
        4
    } else if e == "iso"@ || e == "img"@ || e == "vhd"@ || e == "vhdx"@ || e == "gho"@ || e == "wim"@ || e == "dmg"@ {
        5
    } else if e == "exe"@ || e == "msi"@ || e == "msix"@ || e == "appx"@ {
        6
    } else if e == "doc"@ || e == "docx"@ || e == "xls"@ || e == "xlsx"@ || e == "ppt"@ || e == "pptx"@ || e == "pdf"@ || e == "txt"@ || e == "md"@ {
        7
    } else {
        0
    }
}

/// `d` is the position of the last `.` of `s`.
pub open spec fn is_last_dot(s: Seq<char>, d: int) -> bool {
    0 <= d < s.len() && s[d] == '.' && forall|j: int| d < j < s.len() ==> s[j] != '.'
}

/// Category of a file name: that of its extension (after the last `.`), or 0
/// when there is no `.`, the name starts with its only dot position, or the
/// extension is longer than 5 bytes.
pub open spec fn file_category_spec(s: Seq<char>) -> u8 {
    if exists|d: int| is_last_dot(s, d) {
        let d = choose|d: int| is_last_dot(s, d);
        let ext = s.skip(d + 1);
        if d == 0 || utf8_len(ext) > 5 { 0 } else { ext_category(lower_chars(ext)) }
    } else {
        0
    }
}

fn eq_lit(v: &Vec<char>, lit: &str) -> (b: bool)
    ensures
        b == (v@ == lit@),
{
    let l = str_chars(lit);
    if l.len() != v.len() {
        return false;
    }
    let mut i: usize = 0;
    while i < l.len()
        invariant
            l.len() == v.len(),
            l@ == lit@,
            i <= l.len(),
            forall|k: int| 0 <= k < i ==> v@[k] == l@[k],
        decreases l.len() - i,
    {
        if v[i] != l[i] {
            return false;
        }
        i = i + 1;
    }
    assert(v@ =~= l@);
    true
}

fn ext_category_exec(e: &Vec<char>) -> (r: u8)
    ensures
        r == ext_category(e@),
{
    if eq_lit(e, "mp4") || eq_lit(e, "mkv") || eq_lit(e, "avi") || eq_lit(e, "mov") || eq_lit(e, "wmv") || eq_lit(e, "flv") || eq_lit(e, "m4v") || eq_lit(e, "webm") || eq_lit(e, "ts") {
        1
    } else if eq_lit(e, "jpg") || eq_lit(e, "jpeg") || eq_lit(e, "png") || eq_lit(e, "gif") || eq_lit(e, "bmp") || eq_lit(e, "webp") || eq_lit(e, "raw") || eq_lit(e, "psd") || eq_lit(e, "heic") {
        2
    } else if eq_lit(e, "mp3") || eq_lit(e, "wav") || eq_lit(e, "flac") || eq_lit(e, "ape") || eq_lit(e, "ogg") || eq_lit(e, "m4a") || eq_lit(e, "aac") {
        3
    } else if eq_lit(e, "zip") || eq_lit(e, "rar") || eq_lit(e, "7z") || eq_lit(e, "tar") || eq_lit(e, "gz") || eq_lit(e, "bz2") || eq_lit(e, "xz") {
        4
    } else if eq_lit(e, "iso") || eq_lit(e, "img") || eq_lit(e, "vhd") || eq_lit(e, "vhdx") || eq_lit(e, "gho") || eq_lit(e, "wim") || eq_lit(e, "dmg") {
        5
    } else if eq_lit(e, "exe") || eq_lit(e, "msi") || eq_lit(e, "msix") || eq_lit(e, "appx") {
        6
    } else if eq_lit(e, "doc") || eq_lit(e, "docx") || eq_lit(e, "xls") || eq_lit(e, "xlsx") || eq_lit(e, "ppt") || eq_lit(e, "pptx") || eq_lit(e, "pdf") || eq_lit(e, "txt") || eq_lit(e, "md") {
        7
    } else {
        0
    }
}

fn utf8_width_exec(c: char) -> (w: usize)
    ensures
        w == utf8_width(c),
{
    let u = c as u32;
    if u < 0x80 { 1 } else if u < 0x800 { 2 } else if u < 0x10000 { 3 } else { 4 }
}

/// Number of UTF-8 bytes of `s[from..]`, capped: the result is exact when it is at most `cap`,
/// and larger than `cap` otherwise.
fn utf8_len_from(s: &Vec<char>, from: usize, cap: usize) -> (r: usize)
    requires
        from <= s.len(),
        cap < 1000,
    ensures
        r <= cap ==> r == utf8_len(s@.skip(from as int)),
        r > cap ==> utf8_len(s@.skip(from as int)) > cap,
        r <= cap + 4,
    decreases s.len() - from,
{
    proof {
        lemma_utf8_len_nonneg(s@.skip(from as int));
    }
    if from == s.len() {
        assert(s@.skip(from as int) =~= Seq::<char>::empty());
        return 0;
    }
    let w = utf8_width_exec(s[from]);
    assert(s@.skip(from as int).drop_first() =~= s@.skip(from + 1));
    if w > cap {
        proof {
            lemma_utf8_len_nonneg(s@.skip(from + 1));
        }
        return w;
    }
    let rest = utf8_len_from(s, from + 1, cap - w);
    rest + w
}

proof fn lemma_utf8_len_nonneg(s: Seq<char>)
    ensures
        utf8_len(s) >= 0,
    decreases s.len(),
{
    if s.len() > 0 {
        lemma_utf8_len_nonneg(s.drop_first());
    }
}

/// Category (0-7) of a file by its name's extension.
pub fn file_category(name: &str) -> (r: u8)
    ensures
        r == file_category_spec(name@),
{
    let s = str_chars(name);
    let dot = match rfind_char(&s, '.') {
        Some(d) => d,
        None => {
            assert(!exists|d: int| is_last_dot(s@, d));
            return 0;
        },
    };
    proof {
        assert(is_last_dot(s@, dot as int));
        let c = choose|d: int| is_last_dot(s@, d);
        assert(c == dot) by {
            if c < dot {
                assert(s@[dot as int] != '.');
            } else if c > dot {
                assert(s@[c] != '.');
            }
        }
    }
    if dot == 0 {
        return 0;
    }
    let blen = utf8_len_from(&s, dot + 1, 5);
    if blen > 5 {
        return 0;
    }
    let ext = slice_of(&s, dot + 1, s.len());
    assert(ext@ =~= s@.skip(dot + 1));
    let lower = lower_of(&ext);
    ext_category_exec(&lower)
}

/// Index of the largest category (the first one on ties).
pub open spec fn dominant_spec(cats: Seq<u64>) -> int
    recommends
        cats.len() == 8,
{
    choose|i: int| is_dominant(cats, i)
}

/// Category `i` holds the most bytes, and every earlier category strictly fewer.
pub open spec fn is_dominant(cats: Seq<u64>, i: int) -> bool {
    0 <= i < 8 && (forall|k: int| 0 <= k < 8 ==> cats[k] <= cats[i]) && (forall|k: int| 0 <= k < i ==> cats[k] < cats[i])
}

/// Category with the most bytes (the lowest index among equal maxima).
pub fn dominant_of(cats: &[u64; 8]) -> (r: u8)
    ensures
        r < 8,
        forall|k: int| 0 <= k < 8 ==> cats@[k] <= cats@[r as int],
        forall|k: int| 0 <= k < r ==> cats@[k] < cats@[r as int],
        r as int == dominant_spec(cats@),
{
    let mut best: usize = 0;
    let mut best_v = cats[0];
    let mut i: usize = 1;
    while i < 8
        invariant
            1 <= i <= 8,
            best < i,
            best_v == cats@[best as int],
            forall|k: int| 0 <= k < i ==> cats@[k] <= best_v,
            forall|k: int| 0 <= k < best ==> cats@[k] < best_v,
        decreases 8 - i,
    {
        let v = cats[i];
        if v > best_v {
            best_v = v;
            best = i;
        }
        i = i + 1;
    }
    proof {
        let c = dominant_spec(cats@);
        assert(is_dominant(cats@, best as int));
        assert(c == best) by {
            if c < best {
                assert(cats@[c] < cats@[best as int]);
            } else if c > best {
                assert(cats@[best as int] < cats@[c]);
            }
        }
    }
    best as u8
}

/// Directory names that the space analysis never enters.
pub open spec fn is_excluded_spec(name: Seq<char>) -> bool {
    let l = lower_chars(name);
    l == "$recycle.bin"@ || l == "$diskclear"@ || l == "system volume information"@
}

/// `$Recycle.Bin`, `$DiskClear` and `System Volume Information` (any case) are not analysed.
pub fn is_excluded_dir(name: &str) -> (b: bool)
    ensures
        b == is_excluded_spec(name@),
{
    let s = str_chars(name);
    let l = lower_of(&s);
    eq_lit(&l, "$recycle.bin") || eq_lit(&l, "$diskclear") || eq_lit(&l, "system volume information")
}

// ---------------------------------------------------------------------------
// The arena
// ---------------------------------------------------------------------------

/// A directory of the tree.
pub struct NodeData {
    pub name: String,
    /// Normalised path (no `\\?\` prefix).
    pub path: String,
    /// Bytes of the whole subtree.
    pub size: u64,
    /// Bytes of the files directly inside.
    pub own_size: u64,
    /// Files of the whole subtree.
    pub file_count: u64,
    /// Files directly inside.
    pub own_files: u64,
    /// Bytes per file category (0-7) of the subtree.
    pub cats: [u64; 8],
    pub children: Vec<usize>,
    /// Index of the parent; the root points to itself (or `usize::MAX` for a detached subtree root).
    pub parent: usize,
}

impl Default for NodeData {
    fn default() -> (r: NodeData)
        ensures
            r.name@ == Seq::<char>::empty(),
            r.path@ == Seq::<char>::empty(),
            r.size == 0 && r.own_size == 0 && r.file_count == 0 && r.own_files == 0,
            r.cats@ == Seq::new(8, |_i: int| 0u64),
            r.children@ == Seq::<usize>::empty(),
            r.parent == 0,
    {
        let cats = [0u64; 8];
        assert(cats@ =~= Seq::new(8, |_i: int| 0u64));
        NodeData {
            name: String::new(),
            path: String::new(),
            size: 0,
            own_size: 0,
            file_count: 0,
            own_files: 0,
            cats,
            children: Vec::new(),
            parent: 0,
        }
    }
}

/// Sum of a sequence of integers.
pub open spec fn seq_sum(s: Seq<int>) -> int
    decreases s.len(),
{
    if s.len() == 0 { 0 } else { s[0] + seq_sum(s.drop_first()) }
}

/// Changing one element changes the sum by the difference.
pub proof fn lemma_seq_sum_update(s: Seq<int>, k: int, v: int)
    requires
        0 <= k < s.len(),
    ensures
        seq_sum(s.update(k, v)) == seq_sum(s) - s[k] + v,
    decreases s.len(),
{
    if k > 0 {
        lemma_seq_sum_update(s.drop_first(), k - 1, v);
        assert(s.update(k, v).drop_first() =~= s.drop_first().update(k - 1, v));
    } else {
        assert(s.update(k, v).drop_first() =~= s.drop_first());
    }
}

/// A sum of non-negative numbers is non-negative.
pub proof fn lemma_seq_sum_nonneg(s: Seq<int>)
    requires
        forall|i: int| 0 <= i < s.len() ==> s[i] >= 0,
    ensures
        seq_sum(s) >= 0,
    decreases s.len(),
{
    if s.len() > 0 {
        lemma_seq_sum_nonneg(s.drop_first());
    }
}

proof fn lemma_seq_sum_two(s: Seq<int>, a: int, b: int)
    requires
        0 <= a < s.len(),
        0 <= b < s.len(),
        a != b,
        forall|i: int| 0 <= i < s.len() ==> s[i] >= 0,
    ensures
        s[a] + s[b] <= seq_sum(s),
{
    let t = s.update(a, 0).update(b, 0);
    lemma_seq_sum_update(s, a, 0);
    lemma_seq_sum_update(s.update(a, 0), b, 0);
    lemma_seq_sum_nonneg(t);
}

/// The parent links point to an earlier node, to the node itself, or nowhere
/// (`usize::MAX`); node 0 is the root and its link is not followed.
pub open spec fn parents_ordered(parents: Seq<usize>) -> bool {
    forall|i: int| 1 <= i < parents.len() ==> #[trigger] parents[i] == usize::MAX || parents[i] == i || parents[i] < i
}

/// Node `k` is a child of node `p` (`k` is not the root and links to `p`).
pub open spec fn is_child(parents: Seq<usize>, k: int, p: int) -> bool {
    1 <= k < parents.len() && parents[k] as int == p && k != p
}

/// Sum of `vals[k]` over the children `k >= lo` of `p`.
pub open spec fn kid_sum(vals: Seq<int>, parents: Seq<usize>, p: int, lo: int) -> int
    decreases parents.len() - lo,
{
    if lo < 0 || lo >= parents.len() {
        0
    } else {
        (if is_child(parents, lo, p) { vals[lo] } else { 0 }) + kid_sum(vals, parents, p, lo + 1)
    }
}

proof fn lemma_kid_sum_agree(a: Seq<int>, b: Seq<int>, parents: Seq<usize>, p: int, lo: int)
    requires
        0 <= lo,
        a.len() == parents.len(),
        b.len() == parents.len(),
        forall|k: int| lo <= k < parents.len() ==> a[k] == b[k],
    ensures
        kid_sum(a, parents, p, lo) == kid_sum(b, parents, p, lo),
    decreases parents.len() - lo,
{
    if lo < parents.len() {
        lemma_kid_sum_agree(a, b, parents, p, lo + 1);
    }
}

/// Node `k` has already been added into its parent once the sweep reached `i`.
pub open spec fn absorbed(parents: Seq<usize>, k: int, i: int) -> bool {
    k >= i && k >= 1 && parents[k] != usize::MAX && parents[k] as int != k
}

/// The values not yet added into a parent.
pub open spec fn unabsorbed(vals: Seq<int>, parents: Seq<usize>, i: int) -> Seq<int> {
    Seq::new(vals.len(), |k: int| if absorbed(parents, k, i) { 0 } else { vals[k] })
}

/// State of the bottom-up sweep before it handles node `i - 1`.
pub open spec fn sweep_inv(cur: Seq<int>, init: Seq<int>, parents: Seq<usize>, i: int) -> bool {
    &&& cur.len() == parents.len() && init.len() == parents.len()
    &&& forall|p: int| 0 <= p < parents.len() ==> #[trigger] cur[p] == init[p] + kid_sum(cur, parents, p, i)
    &&& forall|p: int| 0 <= p < parents.len() ==> #[trigger] cur[p] >= 0
    &&& seq_sum(unabsorbed(cur, parents, i)) == seq_sum(init)
}

proof fn lemma_sweep_start(init: Seq<int>, parents: Seq<usize>)
    requires
        init.len() == parents.len(),
        forall|p: int| 0 <= p < init.len() ==> #[trigger] init[p] >= 0,
    ensures
        sweep_inv(init, init, parents, parents.len() as int),
{
    assert(unabsorbed(init, parents, parents.len() as int) =~= init);
}

/// One step of the sweep: node `j` is added into its parent `p` (when it has one).
proof fn lemma_sweep_step(cur: Seq<int>, init: Seq<int>, parents: Seq<usize>, j: int, new_cur: Seq<int>)
    requires
        parents_ordered(parents),
        1 <= j < parents.len(),
        parents.len() <= usize::MAX,
        sweep_inv(cur, init, parents, j + 1),
        new_cur == (if parents[j] != usize::MAX && parents[j] as int != j {
            cur.update(parents[j] as int, cur[parents[j] as int] + cur[j])
        } else {
            cur
        }),
    ensures
        sweep_inv(new_cur, init, parents, j),
{
    let n = parents.len() as int;
    let p = parents[j] as int;
    let moves = parents[j] != usize::MAX && p != j;
    if moves {
        assert(p < j);
    }
    assert forall|q: int| 0 <= q < n implies #[trigger] new_cur[q] == init[q] + kid_sum(new_cur, parents, q, j) by {
        lemma_kid_sum_agree(new_cur, cur, parents, q, j + 1);
        assert(kid_sum(new_cur, parents, q, j) == (if is_child(parents, j, q) { new_cur[j] } else { 0 }) + kid_sum(new_cur, parents, q, j + 1));
        assert(cur[q] == init[q] + kid_sum(cur, parents, q, j + 1));
        if moves {
            assert(new_cur[j] == cur[j]);
            if q == p {
                assert(is_child(parents, j, q));
                assert(new_cur[q] == cur[q] + cur[j]);
            } else {
                assert(!is_child(parents, j, q));
                assert(new_cur[q] == cur[q]);
            }
        } else {
            assert(!is_child(parents, j, q));
        }
    }
    assert forall|q: int| 0 <= q < n implies #[trigger] new_cur[q] >= 0 by {
        assert(cur[q] >= 0);
        if moves {
            assert(cur[j] >= 0);
        }
    }
    let u_old = unabsorbed(cur, parents, j + 1);
    let u_new = unabsorbed(new_cur, parents, j);
    if moves {
        assert(u_new =~= u_old.update(p, cur[p] + cur[j]).update(j, 0));
        lemma_seq_sum_update(u_old, p, cur[p] + cur[j]);
        lemma_seq_sum_update(u_old.update(p, cur[p] + cur[j]), j, 0);
    } else {
        assert(u_new =~= u_old);
    }
}

/// Before a step, the two values that it adds fit under the total.
proof fn lemma_sweep_bound(cur: Seq<int>, init: Seq<int>, parents: Seq<usize>, j: int)
    requires
        parents_ordered(parents),
        1 <= j < parents.len(),
        sweep_inv(cur, init, parents, j + 1),
        parents[j] != usize::MAX,
        parents[j] as int != j,
    ensures
        cur[parents[j] as int] + cur[j] <= seq_sum(init),
{
    let u = unabsorbed(cur, parents, j + 1);
    let p = parents[j] as int;
    assert(u[p] == cur[p]);
    assert(u[j] == cur[j]);
    assert forall|i: int| 0 <= i < u.len() implies u[i] >= 0 by {}
    lemma_seq_sum_two(u, p, j);
}

/// The parent links of the arena.
pub open spec fn parents_of(nodes: Seq<NodeData>) -> Seq<usize> {
    nodes.map_values(|n: NodeData| n.parent)
}

/// Subtree sizes of the nodes.
pub open spec fn sizes_of(nodes: Seq<NodeData>) -> Seq<int> {
    nodes.map_values(|n: NodeData| n.size as int)
}

/// Own (direct file) sizes of the nodes.
pub open spec fn own_sizes_of(nodes: Seq<NodeData>) -> Seq<int> {
    nodes.map_values(|n: NodeData| n.own_size as int)
}

/// Subtree file counts of the nodes.
pub open spec fn counts_of(nodes: Seq<NodeData>) -> Seq<int> {
    nodes.map_values(|n: NodeData| n.file_count as int)
}

/// Own (direct) file counts of the nodes.
pub open spec fn own_counts_of(nodes: Seq<NodeData>) -> Seq<int> {
    nodes.map_values(|n: NodeData| n.own_files as int)
}

/// Bytes of category `c` of the nodes.
pub open spec fn cat_of(nodes: Seq<NodeData>, c: int) -> Seq<int> {
    nodes.map_values(|n: NodeData| n.cats@[c] as int)
}

/// Nothing but the aggregated fields differs.
pub open spec fn same_shape(a: NodeData, b: NodeData) -> bool {
    &&& a.name == b.name
    &&& a.path == b.path
    &&& a.own_size == b.own_size
    &&& a.own_files == b.own_files
    &&& a.children == b.children
    &&& a.parent == b.parent
}

/// Bottom-up aggregation: each node's `size` and `file_count` become its own
/// bytes and files plus those of its children, and each category total is
/// increased by the children's totals.  Requires every parent link to point to
/// an earlier node (or to the node itself, or nowhere), and the totals to fit in 64 bits.
pub fn accumulate(nodes: &mut Vec<NodeData>)
    requires
        parents_ordered(parents_of(old(nodes)@)),
        seq_sum(own_sizes_of(old(nodes)@)) <= u64::MAX,
        seq_sum(own_counts_of(old(nodes)@)) <= u64::MAX,
        forall|c: int| 0 <= c < 8 ==> seq_sum(#[trigger] cat_of(old(nodes)@, c)) <= u64::MAX,
    ensures
        final(nodes)@.len() == old(nodes)@.len(),
        forall|i: int| 0 <= i < final(nodes)@.len() ==> same_shape(#[trigger] final(nodes)@[i], old(nodes)@[i]),
        forall|i: int| 0 <= i < final(nodes)@.len() ==> #[trigger] final(nodes)@[i].size
            == old(nodes)@[i].own_size + kid_sum(sizes_of(final(nodes)@), parents_of(old(nodes)@), i, 1),
        forall|i: int| 0 <= i < final(nodes)@.len() ==> #[trigger] final(nodes)@[i].file_count
            == old(nodes)@[i].own_files + kid_sum(counts_of(final(nodes)@), parents_of(old(nodes)@), i, 1),
        forall|i: int, c: int| 0 <= i < final(nodes)@.len() && 0 <= c < 8 ==> #[trigger] final(nodes)@[i].cats@[c]
            == old(nodes)@[i].cats@[c] + kid_sum(cat_of(final(nodes)@, c), parents_of(old(nodes)@), i, 1),
        old(nodes)@.len() > 0 && (forall|i: int| 1 <= i < old(nodes)@.len() ==> (#[trigger] old(nodes)@[i]).parent < i) ==> {
            &&& final(nodes)@[0].size == seq_sum(own_sizes_of(old(nodes)@))
            &&& final(nodes)@[0].file_count == seq_sum(own_counts_of(old(nodes)@))
        },
{
    let ghost orig = nodes@;
    let ghost parents = parents_of(orig);
    let n = nodes.len();
    let mut k: usize = 0;
    while k < n
        invariant
            n == nodes@.len() == orig.len(),
            k <= n,
            forall|i: int| 0 <= i < n ==> same_shape(#[trigger] nodes@[i], orig[i]),
            forall|i: int| 0 <= i < n ==> #[trigger] nodes@[i].cats == orig[i].cats,
            forall|i: int| 0 <= i < k ==> #[trigger] nodes@[i].size == orig[i].own_size,
            forall|i: int| 0 <= i < k ==> #[trigger] nodes@[i].file_count == orig[i].own_files,
        decreases n - k,
    {
        let os = nodes[k].own_size;
        let of = nodes[k].own_files;
        nodes[k].size = os;
        nodes[k].file_count = of;
        k = k + 1;
    }
    proof {
        assert(parents_of(nodes@) =~= parents);
        assert(sizes_of(nodes@) =~= own_sizes_of(orig));
        assert(counts_of(nodes@) =~= own_counts_of(orig));
        lemma_sweep_start(own_sizes_of(orig), parents);
        lemma_sweep_start(own_counts_of(orig), parents);
        assert forall|c: int| 0 <= c < 8 implies sweep_inv(cat_of(nodes@, c), cat_of(orig, c), parents, n as int) by {
            assert(cat_of(nodes@, c) =~= cat_of(orig, c));
            lemma_sweep_start(cat_of(orig, c), parents);
        }
    }
    let mut i: usize = n;
    while i > 1
        invariant
            n == nodes@.len() == orig.len(),
            1 <= i <= n || n == 0,
            i <= n,
            parents == parents_of(orig),
            parents_ordered(parents),
            parents.len() == n,
            seq_sum(own_sizes_of(orig)) <= u64::MAX,
            seq_sum(own_counts_of(orig)) <= u64::MAX,
            forall|c: int| 0 <= c < 8 ==> seq_sum(#[trigger] cat_of(orig, c)) <= u64::MAX,
            forall|q: int| 0 <= q < n ==> same_shape(#[trigger] nodes@[q], orig[q]),
            sweep_inv(sizes_of(nodes@), own_sizes_of(orig), parents, i as int),
            sweep_inv(counts_of(nodes@), own_counts_of(orig), parents, i as int),
            forall|c: int| 0 <= c < 8 ==> #[trigger] sweep_inv(cat_of(nodes@, c), cat_of(orig, c), parents, i as int),
        decreases i,
    {
        let j = i - 1;
        let p = nodes[j].parent;
        assert(p == parents[j as int]);
        let ghost before = nodes@;
        if p == usize::MAX || p == j {
            proof {
                lemma_sweep_step(sizes_of(before), own_sizes_of(orig), parents, j as int, sizes_of(before));
                lemma_sweep_step(counts_of(before), own_counts_of(orig), parents, j as int, counts_of(before));
                assert forall|c: int| 0 <= c < 8 implies #[trigger] sweep_inv(cat_of(nodes@, c), cat_of(orig, c), parents, j as int) by {
                    assert(sweep_inv(cat_of(before, c), cat_of(orig, c), parents, i as int));
                    lemma_sweep_step(cat_of(before, c), cat_of(orig, c), parents, j as int, cat_of(before, c));
                }
            }
        } else {
            proof {
                lemma_sweep_bound(sizes_of(before), own_sizes_of(orig), parents, j as int);
                lemma_sweep_bound(counts_of(before), own_counts_of(orig), parents, j as int);
            }
            let size = nodes[j].size;
            let files = nodes[j].file_count;
            let cats = nodes[j].cats;
            nodes[p].size = nodes[p].size + size;
            nodes[p].file_count = nodes[p].file_count + files;
            let ghost mid = nodes@;
            let mut c: usize = 0;
            while c < 8
                invariant
                    n == nodes@.len(),
                    c <= 8,
                    p < j < n,
                    j + 1 == i,
                    parents_ordered(parents),
                    parents.len() == n,
                    p == parents[j as int],
                    cats == before[j as int].cats,
                    forall|q: int| 0 <= q < n && q != p ==> #[trigger] nodes@[q] == mid[q],
                    nodes@[p as int].size == mid[p as int].size,
                    nodes@[p as int].file_count == mid[p as int].file_count,
                    same_shape(nodes@[p as int], mid[p as int]),
                    forall|cc: int| 0 <= cc < 8 ==> #[trigger] sweep_inv(cat_of(before, cc), cat_of(orig, cc), parents, i as int),
                    forall|cc: int| 0 <= cc < 8 ==> seq_sum(#[trigger] cat_of(orig, cc)) <= u64::MAX,
                    forall|cc: int| 0 <= cc < c ==> #[trigger] nodes@[p as int].cats@[cc] == before[p as int].cats@[cc] + cats@[cc],
                    forall|cc: int| c <= cc < 8 ==> #[trigger] nodes@[p as int].cats@[cc] == before[p as int].cats@[cc],
                    forall|q: int| 0 <= q < n && q != p ==> #[trigger] mid[q] == before[q],
                decreases 8 - c,
            {
                proof {
                    assert(sweep_inv(cat_of(before, c as int), cat_of(orig, c as int), parents, i as int));
                    lemma_sweep_bound(cat_of(before, c as int), cat_of(orig, c as int), parents, j as int);
                    assert(cat_of(before, c as int)[p as int] == before[p as int].cats@[c as int]);
                    assert(cat_of(before, c as int)[j as int] == before[j as int].cats@[c as int]);
                }
                let add = cats[c];
                nodes[p].cats[c] = nodes[p].cats[c] + add;
                c = c + 1;
            }
            proof {
                let s0 = sizes_of(before);
                assert(sizes_of(nodes@) =~= s0.update(p as int, s0[p as int] + s0[j as int]));
                lemma_sweep_step(s0, own_sizes_of(orig), parents, j as int, sizes_of(nodes@));
                let f0 = counts_of(before);
                assert(counts_of(nodes@) =~= f0.update(p as int, f0[p as int] + f0[j as int]));
                lemma_sweep_step(f0, own_counts_of(orig), parents, j as int, counts_of(nodes@));
                assert forall|cc: int| 0 <= cc < 8 implies #[trigger] sweep_inv(cat_of(nodes@, cc), cat_of(orig, cc), parents, j as int) by {
                    let c0 = cat_of(before, cc);
                    assert(cat_of(nodes@, cc) =~= c0.update(p as int, c0[p as int] + c0[j as int]));
                    lemma_sweep_step(c0, cat_of(orig, cc), parents, j as int, cat_of(nodes@, cc));
                }
            }
        }
        i = j;
    }
    proof {
        if n == 0 {
        } else {
            assert(i == 1);
        }
        assert(parents_of(nodes@) =~= parents);
        assert forall|q: int| 0 <= q < n implies #[trigger] nodes@[q].size == orig[q].own_size + kid_sum(sizes_of(nodes@), parents, q, 1) by {
            assert(sizes_of(nodes@)[q] == nodes@[q].size as int);
        }
        assert forall|q: int| 0 <= q < n implies #[trigger] nodes@[q].file_count == orig[q].own_files + kid_sum(counts_of(nodes@), parents, q, 1) by {
            assert(counts_of(nodes@)[q] == nodes@[q].file_count as int);
        }
        assert forall|q: int, c: int| 0 <= q < n && 0 <= c < 8 implies #[trigger] nodes@[q].cats@[c] == orig[q].cats@[c] + kid_sum(cat_of(nodes@, c), parents, q, 1) by {
            assert(sweep_inv(cat_of(nodes@, c), cat_of(orig, c), parents, i as int));
            assert(cat_of(nodes@, c)[q] == nodes@[q].cats@[c] as int);
            assert(cat_of(orig, c)[q] == orig[q].cats@[c] as int);
        }
        if n > 0 && (forall|q: int| 1 <= q < n ==> (#[trigger] orig[q]).parent < q) {
            let us = unabsorbed(sizes_of(nodes@), parents, 1);
            let uc = unabsorbed(counts_of(nodes@), parents, 1);
            assert forall|k: int| 1 <= k < us.len() implies #[trigger] us[k] == 0 by {
                assert(orig[k].parent < k);
                assert(absorbed(parents, k, 1));
            }
            assert forall|k: int| 1 <= k < uc.len() implies #[trigger] uc[k] == 0 by {
                assert(orig[k].parent < k);
                assert(absorbed(parents, k, 1));
            }
            lemma_sum_first_only(us);
            lemma_sum_first_only(uc);
        }
    }
}

/// A sum whose terms after the first are all zero is its first term.
proof fn lemma_sum_first_only(s: Seq<int>)
    requires
        s.len() > 0,
        forall|k: int| 1 <= k < s.len() ==> #[trigger] s[k] == 0,
    ensures
        seq_sum(s) == s[0],
{
    let t = s.drop_first();
    assert forall|k: int| 0 <= k < t.len() implies t[k] == 0 by {
        assert(t[k] == s[k + 1]);
    }
    lemma_sum_zeros(t);
}

proof fn lemma_sum_zeros(s: Seq<int>)
    requires
        forall|k: int| 0 <= k < s.len() ==> s[k] == 0,
    ensures
        seq_sum(s) == 0,
    decreases s.len(),
{
    if s.len() > 0 {
        assert forall|k: int| 0 <= k < s.drop_first().len() implies s.drop_first()[k] == 0 by {
            assert(s.drop_first()[k] == s[k + 1]);
        }
        lemma_sum_zeros(s.drop_first());
    }
}

// ---------------------------------------------------------------------------
// Views sent to the treemap
// ---------------------------------------------------------------------------

/// A directory as the treemap receives it.
pub struct DirNodeDto {
    pub name: String,
    pub path: String,
    pub size: u64,
    pub file_count: u64,
    /// Dominant file category (0-7).
    pub dominant: u8,
    pub has_children: bool,
    pub children: Vec<DirNodeDto>,
}

/// Every child link points into the arena.
pub open spec fn children_in_arena(nodes: Seq<NodeData>) -> bool {
    forall|i: int, k: int| 0 <= i < nodes.len() && 0 <= k < nodes[i].children@.len() ==> #[trigger] nodes[i].children@[k] < nodes.len()
}

/// Sizes of the listed nodes.
pub open spec fn sizes_at(nodes: Seq<NodeData>, ks: Seq<usize>) -> Seq<u64> {
    ks.map_values(|k: usize| nodes[k as int].size)
}

/// Total size of the listed nodes.
pub open spec fn size_total(nodes: Seq<NodeData>, ks: Seq<usize>) -> int {
    seq_sum(ks.map_values(|k: usize| nodes[k as int].size as int))
}

/// Total file count of the listed nodes.
pub open spec fn files_total(nodes: Seq<NodeData>, ks: Seq<usize>) -> int {
    seq_sum(ks.map_values(|k: usize| nodes[k as int].file_count as int))
}

/// For every directory the sizes and file counts of its children add up within 64 bits.
pub open spec fn child_totals_fit(nodes: Seq<NodeData>) -> bool {
    forall|i: int| 0 <= i < nodes.len() ==> size_total(nodes, #[trigger] nodes[i].children@) <= u64::MAX
        && files_total(nodes, nodes[i].children@) <= u64::MAX
}

/// The fields of a view that come from the node itself.
pub open spec fn head_matches(dto: DirNodeDto, nd: NodeData) -> bool {
    &&& dto.name@ == nd.name@
    &&& dto.path@ == nd.path@
    &&& dto.size == nd.size
    &&& dto.file_count == nd.file_count
    &&& dto.dominant as int == dominant_spec(nd.cats@)
    &&& dto.has_children == (nd.children@.len() > 0)
}

/// The entry `其他` ("other") that stands for the merged smallest children.
pub open spec fn is_other_entry(dto: DirNodeDto, nodes: Seq<NodeData>, parent_path: Seq<char>, rest: Seq<usize>) -> bool {
    &&& dto.name@ == "其他"@
    &&& dto.path@ == parent_path
    &&& dto.size == size_total(nodes, rest)
    &&& dto.file_count == files_total(nodes, rest)
    &&& dto.dominant == 0
    &&& !dto.has_children
    &&& dto.children@.len() == 0
}

/// `dto` is the view of node `idx` at depth `depth`: its own fields, and, while
/// `depth + 1 <= SERIALIZE_DEPTH`, the views of its children, largest first
/// (ties in child order); beyond `MAX_CHILDREN` children, the `MAX_CHILDREN - 1`
/// largest are kept and the rest merged into one `其他` entry.
pub open spec fn is_dto_of(dto: DirNodeDto, nodes: Seq<NodeData>, idx: int, depth: int) -> bool
    decreases SERIALIZE_DEPTH - depth,
{
    let nd = nodes[idx];
    &&& head_matches(dto, nd)
    &&& if depth + 1 > SERIALIZE_DEPTH {
        dto.children@.len() == 0
    } else {
        exists|kids: Seq<usize>| #[trigger] is_stable_desc_sort(nd.children@, sizes_at(nodes, nd.children@), kids)
            && if kids.len() > MAX_CHILDREN {
                &&& dto.children@.len() == MAX_CHILDREN
                &&& forall|i: int| 0 <= i < MAX_CHILDREN - 1 ==> is_dto_of(#[trigger] dto.children@[i], nodes, kids[i] as int, depth + 1)
                &&& is_other_entry(dto.children@[MAX_CHILDREN - 1], nodes, nd.path@, kids.skip(MAX_CHILDREN - 1))
            } else {
                &&& dto.children@.len() == kids.len()
                &&& forall|i: int| 0 <= i < kids.len() ==> is_dto_of(#[trigger] dto.children@[i], nodes, kids[i] as int, depth + 1)
            }
    }
}

/// Appending a number adds it to the sum.
pub proof fn lemma_seq_sum_push(s: Seq<int>, x: int)
    ensures
        seq_sum(s.push(x)) == seq_sum(s) + x,
    decreases s.len(),
{
    let t = s.push(x);
    assert(t[0] == (if s.len() > 0 { s[0] } else { x }));
    if s.len() > 0 {
        lemma_seq_sum_push(s.drop_first(), x);
        assert(t.drop_first() =~= s.drop_first().push(x));
        assert(seq_sum(t) == t[0] + seq_sum(t.drop_first()));
        assert(seq_sum(s) == s[0] + seq_sum(s.drop_first()));
    } else {
        assert(t.drop_first() =~= Seq::<int>::empty());
        assert(seq_sum(t) == t[0] + seq_sum(t.drop_first()));
        assert(seq_sum(t.drop_first()) == 0);
    }
}

/// The sum splits at any position.
pub proof fn lemma_seq_sum_split(s: Seq<int>, c: int)
    requires
        0 <= c <= s.len(),
    ensures
        seq_sum(s) == seq_sum(s.take(c)) + seq_sum(s.skip(c)),
    decreases s.len(),
{
    if c > 0 {
        lemma_seq_sum_split(s.drop_first(), c - 1);
        assert(s.drop_first().take(c - 1) =~= s.take(c).drop_first());
        assert(s.drop_first().skip(c - 1) =~= s.skip(c));
    } else {
        assert(s.skip(0) =~= s);
        assert(s.take(0) =~= Seq::<int>::empty());
    }
}

proof fn lemma_seq_sum_remove(s: Seq<int>, k: int)
    requires
        0 <= k < s.len(),
    ensures
        seq_sum(s) == seq_sum(s.remove(k)) + s[k],
    decreases s.len(),
{
    if k > 0 {
        lemma_seq_sum_remove(s.drop_first(), k - 1);
        assert(s.remove(k).drop_first() =~= s.drop_first().remove(k - 1));
    } else {
        assert(s.remove(0) =~= s.drop_first());
    }
}

/// Summing over a rearrangement of the positions gives the same total.
proof fn lemma_perm_sum(vals: Seq<int>, order: Seq<usize>)
    requires
        order.to_multiset() == crate::order::index_range(0, vals.len() as int).to_multiset(),
        vals.len() <= usize::MAX,
    ensures
        seq_sum(order.map_values(|i: usize| vals[i as int])) == seq_sum(vals),
    decreases vals.len(),
{
    broadcast use vstd::seq_lib::group_to_multiset_ensures, vstd::multiset::group_multiset_axioms;
    let n = vals.len() as int;
    if n == 0 {
        assert(order.to_multiset().len() == 0);
        assert(order.len() == 0);
        assert(order.map_values(|i: usize| vals[i as int]) =~= Seq::<int>::empty());
    } else {
        let r = crate::order::index_range(0, n);
        let last = (n - 1) as usize;
        assert(r[n - 1] == last);
        assert(r.contains(last));
        assert(order.to_multiset().count(last) > 0);
        assert(order.contains(last));
        let p = choose|p: int| 0 <= p < order.len() && order[p] == last;
        let order2 = order.remove(p);
        assert(r.drop_last() =~= crate::order::index_range(0, n - 1));
        assert(r =~= r.drop_last().push(last));
        assert(order2.to_multiset() =~= order.to_multiset().remove(last));
        assert(r.drop_last().to_multiset() =~= r.to_multiset().remove(last));
        lemma_perm_sum(vals.drop_last(), order2);
        let f = |i: usize| vals[i as int];
        let g = |i: usize| vals.drop_last()[i as int];
        assert forall|q: int| 0 <= q < order2.len() implies #[trigger] order2[q] < n - 1 by {
            assert(order2.to_multiset().count(order2[q]) > 0);
            assert(r.drop_last().contains(order2[q]));
        }
        assert(order2.map_values(g) =~= order2.map_values(f));
        assert(order.map_values(f).remove(p) =~= order2.map_values(f));
        lemma_seq_sum_remove(order.map_values(f), p);
        assert(vals =~= vals.drop_last().push(vals[n - 1]));
        lemma_seq_sum_push(vals.drop_last(), vals[n - 1]);
    }
}

proof fn lemma_seq_sum_nonneg_skip(s: Seq<int>, c: int)
    requires
        0 <= c <= s.len(),
        forall|i: int| 0 <= i < s.len() ==> s[i] >= 0,
    ensures
        seq_sum(s.skip(c)) <= seq_sum(s),
        seq_sum(s.skip(c)) >= 0,
{
    lemma_seq_sum_split(s, c);
    lemma_seq_sum_nonneg(s.take(c));
    lemma_seq_sum_nonneg(s.skip(c));
}

/// The children of a node rearranged by a stable descending order of their sizes.
pub(crate) fn sorted_children(nodes: &Vec<NodeData>, idx: usize) -> (kids: Vec<usize>)
    requires
        idx < nodes.len(),
        children_in_arena(nodes@),
    ensures
        is_stable_desc_sort(nodes@[idx as int].children@, sizes_at(nodes@, nodes@[idx as int].children@), kids@),
        kids.len() == nodes@[idx as int].children@.len(),
        forall|i: int| 0 <= i < kids.len() ==> #[trigger] kids@[i] < nodes.len(),
        size_total(nodes@, kids@) == size_total(nodes@, nodes@[idx as int].children@),
        files_total(nodes@, kids@) == files_total(nodes@, nodes@[idx as int].children@),
{
    let ch = &nodes[idx].children;
    let mut keys: Vec<u64> = Vec::new();
    let mut i: usize = 0;
    while i < ch.len()
        invariant
            idx < nodes.len(),
            ch == &nodes@[idx as int].children,
            children_in_arena(nodes@),
            i <= ch.len(),
            keys@ == sizes_at(nodes@, ch@).take(i as int),
        decreases ch.len() - i,
    {
        let k = ch[i];
        assert(k < nodes.len());
        keys.push(nodes[k].size);
        assert(sizes_at(nodes@, ch@).take(i + 1) =~= sizes_at(nodes@, ch@).take(i as int).push(nodes@[k as int].size));
        i = i + 1;
    }
    assert(keys@ =~= sizes_at(nodes@, ch@));
    let order = desc_order(&keys);
    let mut kids: Vec<usize> = Vec::new();
    let mut j: usize = 0;
    while j < order.len()
        invariant
            idx < nodes.len(),
            ch == &nodes@[idx as int].children,
            children_in_arena(nodes@),
            order.len() == keys.len() == ch.len(),
            is_desc_order(keys@, order@),
            j <= order.len(),
            kids.len() == j,
            forall|q: int| 0 <= q < j ==> #[trigger] kids@[q] == ch@[order@[q] as int],
        decreases order.len() - j,
    {
        let o = order[j];
        kids.push(ch[o]);
        j = j + 1;
    }
    proof {
        assert(is_desc_order(keys@, order@) && kids@.len() == order@.len()
            && forall|q: int| 0 <= q < kids@.len() ==> #[trigger] kids@[q] == ch@[order@[q] as int]);
        assert forall|q: int| 0 <= q < kids.len() implies #[trigger] kids@[q] < nodes.len() by {
            assert(order@[q] < keys.len());
        }
        let fs = |k: usize| nodes@[k as int].size as int;
        let ff = |k: usize| nodes@[k as int].file_count as int;
        let vs = ch@.map_values(fs);
        let vf = ch@.map_values(ff);
        lemma_perm_sum(vs, order@);
        lemma_perm_sum(vf, order@);
        assert(order@.map_values(|o: usize| vs[o as int]) =~= kids@.map_values(fs));
        assert(order@.map_values(|o: usize| vf[o as int]) =~= kids@.map_values(ff));
    }
    kids
}

fn total_from(nodes: &Vec<NodeData>, kids: &Vec<usize>, from: usize) -> (r: (u64, u64))
    requires
        from <= kids.len(),
        forall|i: int| 0 <= i < kids.len() ==> #[trigger] kids@[i] < nodes.len(),
        size_total(nodes@, kids@) <= u64::MAX,
        files_total(nodes@, kids@) <= u64::MAX,
    ensures
        r.0 == size_total(nodes@, kids@.skip(from as int)),
        r.1 == files_total(nodes@, kids@.skip(from as int)),
{
    let ghost fs = |k: usize| nodes@[k as int].size as int;
    let ghost ff = |k: usize| nodes@[k as int].file_count as int;
    let mut rest_size: u64 = 0;
    let mut rest_files: u64 = 0;
    let mut i: usize = kids.len();
    proof {
        assert(kids@.skip(kids.len() as int) =~= Seq::<usize>::empty());
        assert(kids@.skip(kids.len() as int).map_values(fs) =~= Seq::<int>::empty());
        assert(kids@.skip(kids.len() as int).map_values(ff) =~= Seq::<int>::empty());
    }
    while i > from
        invariant
            from <= i <= kids.len(),
            forall|q: int| 0 <= q < kids.len() ==> #[trigger] kids@[q] < nodes.len(),
            size_total(nodes@, kids@) <= u64::MAX,
            files_total(nodes@, kids@) <= u64::MAX,
            rest_size == size_total(nodes@, kids@.skip(i as int)),
            rest_files == files_total(nodes@, kids@.skip(i as int)),
        decreases i - from,
    {
        let k = kids[i - 1];
        proof {
            let fs = |k: usize| nodes@[k as int].size as int;
            let ff = |k: usize| nodes@[k as int].file_count as int;
            let m = kids@.map_values(fs);
            let mf = kids@.map_values(ff);
            assert(kids@.skip(i - 1).map_values(fs) =~= m.skip(i - 1));
            assert(kids@.skip(i - 1).map_values(ff) =~= mf.skip(i - 1));
            assert(m.skip(i - 1).drop_first() =~= m.skip(i as int));
            assert(mf.skip(i - 1).drop_first() =~= mf.skip(i as int));
            assert(kids@.skip(i as int).map_values(fs) =~= m.skip(i as int));
            assert(kids@.skip(i as int).map_values(ff) =~= mf.skip(i as int));
            assert forall|q: int| 0 <= q < m.len() implies m[q] >= 0 by {
                assert(m[q] == nodes@[kids@[q] as int].size as int);
            }
            assert forall|q: int| 0 <= q < mf.len() implies mf[q] >= 0 by {
                assert(mf[q] == nodes@[kids@[q] as int].file_count as int);
            }
            lemma_seq_sum_nonneg_skip(m, i - 1);
            lemma_seq_sum_nonneg_skip(mf, i - 1);
        }
        rest_size = rest_size + nodes[k].size;
        rest_files = rest_files + nodes[k].file_count;
        i = i - 1;
    }
    (rest_size, rest_files)
}

/// The treemap view of node `idx` at depth `depth` (see `is_dto_of`).
pub fn node_to_dto(nodes: &Vec<NodeData>, idx: usize, depth: usize) -> (dto: DirNodeDto)
    requires
        idx < nodes.len(),
        depth < usize::MAX,
        children_in_arena(nodes@),
        child_totals_fit(nodes@),
    ensures
        is_dto_of(dto, nodes@, idx as int, depth as int),
    decreases SERIALIZE_DEPTH - depth,
{
    let nd = &nodes[idx];
    let mut children_dto: Vec<DirNodeDto> = Vec::new();
    if depth + 1 <= SERIALIZE_DEPTH {
        let kids = sorted_children(nodes, idx);
        if kids.len() > MAX_CHILDREN {
            let cut = MAX_CHILDREN - 1;
            let mut i: usize = 0;
            while i < cut
                invariant
                    i <= cut,
                    cut == MAX_CHILDREN - 1,
                    kids.len() > MAX_CHILDREN,
                    depth + 1 <= SERIALIZE_DEPTH,
                    children_in_arena(nodes@),
                    child_totals_fit(nodes@),
                    forall|q: int| 0 <= q < kids.len() ==> #[trigger] kids@[q] < nodes.len(),
                    children_dto.len() == i,
                    forall|q: int| 0 <= q < i ==> is_dto_of(#[trigger] children_dto@[q], nodes@, kids@[q] as int, depth + 1),
                decreases cut - i,
            {
                let c = node_to_dto(nodes, kids[i], depth + 1);
                children_dto.push(c);
                i = i + 1;
            }
            let totals = total_from(nodes, &kids, cut);
            let other = DirNodeDto {
                name: "其他".to_owned(),
                path: nd.path.clone(),
                size: totals.0,
                file_count: totals.1,
                dominant: 0,
                has_children: false,
                children: Vec::new(),
            };
            children_dto.push(other);
            assert(is_other_entry(children_dto@[MAX_CHILDREN - 1], nodes@, nd.path@, kids@.skip(MAX_CHILDREN - 1)));
            assert(forall|q: int| 0 <= q < MAX_CHILDREN - 1 ==> is_dto_of(#[trigger] children_dto@[q], nodes@, kids@[q] as int, depth + 1));
        } else {
            let mut i: usize = 0;
            while i < kids.len()
                invariant
                    i <= kids.len(),
                    depth + 1 <= SERIALIZE_DEPTH,
                    children_in_arena(nodes@),
                    child_totals_fit(nodes@),
                    forall|q: int| 0 <= q < kids.len() ==> #[trigger] kids@[q] < nodes.len(),
                    children_dto.len() == i,
                    forall|q: int| 0 <= q < i ==> is_dto_of(#[trigger] children_dto@[q], nodes@, kids@[q] as int, depth + 1),
                decreases kids.len() - i,
            {
                let c = node_to_dto(nodes, kids[i], depth + 1);
                children_dto.push(c);
                i = i + 1;
            }
        }
        assert(is_stable_desc_sort(nd.children@, sizes_at(nodes@, nd.children@), kids@));
    }
    let dto = DirNodeDto {
        name: nd.name.clone(),
        path: nd.path.clone(),
        size: nd.size,
        file_count: nd.file_count,
        dominant: dominant_of(&nd.cats),
        has_children: nd.children.len() > 0,
        children: children_dto,
    };
    dto
}

/// Folding `g(i) + acc` over a sequence adds `b` to the sum of the `g(i)`.
proof fn lemma_fold_sum(l: Seq<usize>, g: spec_fn(usize) -> int, b: int)
    ensures
        l.fold_right(|i: usize, acc: int| g(i) + acc, b) == seq_sum(l.map_values(g)) + b,
    decreases l.len(),
{
    if l.len() > 0 {
        lemma_fold_sum(l.drop_last(), g, g(l.last()) + b);
        assert(l.map_values(g) =~= l.drop_last().map_values(g).push(g(l.last())));
        lemma_seq_sum_push(l.drop_last().map_values(g), g(l.last()));
    } else {
        assert(l.map_values(g) =~= Seq::<int>::empty());
    }
}

/// Picking through a permutation of `0..n` keeps the sum of what is picked.
pub proof fn lemma_sum_permuted(order: Seq<usize>, g: spec_fn(usize) -> int, n: int)
    requires
        0 <= n,
        order.to_multiset() == crate::order::index_range(0, n).to_multiset(),
    ensures
        seq_sum(order.map_values(g)) == seq_sum(crate::order::index_range(0, n).map_values(g)),
{
    let f = |i: usize, acc: int| g(i) + acc;
    assert(vstd::seq_lib::commutative_foldr(f)) by {
        assert forall|x: usize, y: usize, v: int| #[trigger] f(x, f(y, v)) == f(y, f(x, v)) by {}
    }
    vstd::seq_lib::lemma_fold_right_permutation(order, crate::order::index_range(0, n), f, 0);
    lemma_fold_sum(order, g, 0);
    lemma_fold_sum(crate::order::index_range(0, n), g, 0);
}

/// The values of the listed nodes in a stable descending rearrangement add up
/// to those of the nodes as listed.
proof fn lemma_sum_of_rearranged(nodes: Seq<NodeData>, ks: Seq<usize>, kids: Seq<usize>, g: spec_fn(usize) -> int)
    requires
        ks.len() <= usize::MAX,
        is_stable_desc_sort(ks, sizes_at(nodes, ks), kids),
    ensures
        seq_sum(kids.map_values(g)) == seq_sum(ks.map_values(g)),
{
    let order = choose|order: Seq<usize>| #[trigger] is_desc_order(sizes_at(nodes, ks), order)
        && kids.len() == order.len()
        && forall|i: int| 0 <= i < kids.len() ==> #[trigger] kids[i] == ks[order[i] as int];
    let n = ks.len() as int;
    let h = |j: usize| g(ks[j as int]);
    assert(kids.map_values(g) =~= order.map_values(h));
    assert(crate::order::index_range(0, n).map_values(h) =~= ks.map_values(g));
    lemma_sum_permuted(order, h, n);
}

/// The views of a directory's children (the `其他` entry included) account for
/// all the bytes and all the files of its children: merging the smallest ones
/// loses nothing.
pub proof fn dto_children_add_up(dto: DirNodeDto, nodes: Seq<NodeData>, idx: int, depth: int)
    requires
        0 <= idx < nodes.len(),
        depth + 1 <= SERIALIZE_DEPTH,
        is_dto_of(dto, nodes, idx, depth),
    ensures
        seq_sum(dto.children@.map_values(|c: DirNodeDto| c.size as int)) == size_total(nodes, nodes[idx].children@),
        seq_sum(dto.children@.map_values(|c: DirNodeDto| c.file_count as int)) == files_total(nodes, nodes[idx].children@),
{
    let nd = nodes[idx];
    let ks = nd.children@;
    assert(nd.children.len() == ks.len());
    let kids = choose|kids: Seq<usize>| #[trigger] is_stable_desc_sort(ks, sizes_at(nodes, ks), kids)
        && if kids.len() > MAX_CHILDREN {
            &&& dto.children@.len() == MAX_CHILDREN
            &&& forall|i: int| 0 <= i < MAX_CHILDREN - 1 ==> is_dto_of(#[trigger] dto.children@[i], nodes, kids[i] as int, depth + 1)
            &&& is_other_entry(dto.children@[MAX_CHILDREN - 1], nodes, nd.path@, kids.skip(MAX_CHILDREN - 1))
        } else {
            &&& dto.children@.len() == kids.len()
            &&& forall|i: int| 0 <= i < kids.len() ==> is_dto_of(#[trigger] dto.children@[i], nodes, kids[i] as int, depth + 1)
        };
    let gs = |k: usize| nodes[k as int].size as int;
    let gf = |k: usize| nodes[k as int].file_count as int;
    let ds = dto.children@.map_values(|c: DirNodeDto| c.size as int);
    let df = dto.children@.map_values(|c: DirNodeDto| c.file_count as int);
    lemma_sum_of_rearranged(nodes, ks, kids, gs);
    lemma_sum_of_rearranged(nodes, ks, kids, gf);
    assert(size_total(nodes, ks) == seq_sum(ks.map_values(gs)));
    assert(files_total(nodes, ks) == seq_sum(ks.map_values(gf)));
    if kids.len() > MAX_CHILDREN {
        let c = (MAX_CHILDREN - 1) as int;
        let head = kids.take(c);
        let rest = kids.skip(c);
        assert forall|i: int| 0 <= i < c implies #[trigger] ds[i] == head.map_values(gs)[i] && df[i] == head.map_values(gf)[i] by {
            assert(is_dto_of(dto.children@[i], nodes, kids[i] as int, depth + 1));
        }
        assert(ds.take(c) =~= head.map_values(gs));
        assert(df.take(c) =~= head.map_values(gf));
        assert(ds.skip(c) =~= seq![ds[c]]);
        assert(df.skip(c) =~= seq![df[c]]);
        reveal_with_fuel(seq_sum, 2);
        assert(seq_sum(ds.skip(c)) == size_total(nodes, rest)) by {
            assert(seq_sum(seq![ds[c]]) == ds[c] + seq_sum(seq![ds[c]].drop_first()));
            assert(seq![ds[c]].drop_first() =~= Seq::<int>::empty());
        }
        assert(seq_sum(df.skip(c)) == files_total(nodes, rest)) by {
            assert(seq_sum(seq![df[c]]) == df[c] + seq_sum(seq![df[c]].drop_first()));
            assert(seq![df[c]].drop_first() =~= Seq::<int>::empty());
        }
        lemma_seq_sum_split(ds, c);
        lemma_seq_sum_split(df, c);
        lemma_seq_sum_split(kids.map_values(gs), c);
        lemma_seq_sum_split(kids.map_values(gf), c);
        assert(kids.map_values(gs).take(c) =~= head.map_values(gs));
        assert(kids.map_values(gs).skip(c) =~= rest.map_values(gs));
        assert(kids.map_values(gf).take(c) =~= head.map_values(gf));
        assert(kids.map_values(gf).skip(c) =~= rest.map_values(gf));
    } else {
        assert forall|i: int| 0 <= i < kids.len() implies #[trigger] ds[i] == kids.map_values(gs)[i] && df[i] == kids.map_values(gf)[i] by {
            assert(is_dto_of(dto.children@[i], nodes, kids[i] as int, depth + 1));
        }
        assert(ds =~= kids.map_values(gs));
        assert(df =~= kids.map_values(gf));
    }
}

/// What the space analysis does with one directory entry.
#[derive(PartialEq, Eq, Structural, Clone, Copy, Debug)]
pub enum SpaceStep {
    /// A link or reparse point, not followed; `counted` when it is a directory
    /// link (reported among the skipped directories).
    SkipLink { counted: bool },
    /// A directory left out of the analysis (`is_excluded_dir`).
    Excluded,
    /// A directory added to the tree and read.
    Dir,
    /// A file counted in its directory.
    File,
    /// Anything else.
    Other,
}

/// The analysis rule for an entry. Below the drive root, links and reparse
/// points are never followed (directory links count as skipped), excluded
/// directories are left out, other directories are read and files counted.
/// At the drive root, linked, reparse and excluded directories are passed over
/// uncounted, and every file that is not a symbolic link is counted.
pub open spec fn space_step_spec(top_level: bool, is_symlink: bool, is_reparse: bool, dir_attr: bool,
    is_dir: bool, is_file: bool, name: Seq<char>) -> SpaceStep {
    if top_level {
        if is_dir {
            if is_symlink || is_reparse || is_excluded_spec(name) { SpaceStep::Other } else { SpaceStep::Dir }
        } else if is_file && !is_symlink {
            SpaceStep::File
        } else {
            SpaceStep::Other
        }
    } else if is_symlink || is_reparse {
        SpaceStep::SkipLink { counted: dir_attr }
    } else if is_dir {
        if is_excluded_spec(name) { SpaceStep::Excluded } else { SpaceStep::Dir }
    } else if is_file {
        SpaceStep::File
    } else {
        SpaceStep::Other
    }
}

/// The analysis rule for one entry (see `space_step_spec`).
pub fn space_step(top_level: bool, is_symlink: bool, is_reparse: bool, dir_attr: bool, is_dir: bool, is_file: bool,
    name: &str) -> (r: SpaceStep)
    ensures
        r == space_step_spec(top_level, is_symlink, is_reparse, dir_attr, is_dir, is_file, name@),
{
    if top_level {
        if is_dir {
            if is_symlink || is_reparse || is_excluded_dir(name) { SpaceStep::Other } else { SpaceStep::Dir }
        } else if is_file && !is_symlink {
            SpaceStep::File
        } else {
            SpaceStep::Other
        }
    } else if is_symlink || is_reparse {
        SpaceStep::SkipLink { counted: dir_attr }
    } else if is_dir {
        if is_excluded_dir(name) { SpaceStep::Excluded } else { SpaceStep::Dir }
    } else if is_file {
        SpaceStep::File
    } else {
        SpaceStep::Other
    }
}

/// Asks a space analysis to stop.
pub fn cancel(state: &mut AppState, session_id: u32)
    requires
        old(state).wf(),
    ensures
        cancel_requested(*old(state), *final(state), session_id),
{
    state.request_cancel(session_id);
}

/// The full result of a finished space analysis (see `SpaceSession::get_result`),
/// `None` when there is none under that id.
pub fn get_result(state: &AppState, session_id: u32) -> (r: Option<SpaceTreeDto>)
    requires
        state.wf(),
    ensures
        match r {
            None => state.space_sessions.at(session_id) is None,
            Some(d) => state.space_sessions.at(session_id) is Some && ({
                let s = state.space_sessions.at(session_id).unwrap();
                &&& d.session_id == s.id() && d.drive@ == s.drive_name() && d.done
                &&& d.total_bytes == s.nodes()[0].size && d.file_count == s.nodes()[0].file_count
                &&& d.dir_count == s.dirs() && d.skipped_dirs == s.skipped()
                &&& is_dto_of(d.root, s.nodes(), 0, 0)
            }),
        },
{
    match state.space_sessions.get(session_id) {
        Some(s) => Some(s.get_result()),
        None => None,
    }
}

/// One directory of a finished space analysis with its subdirectories (see
/// `SpaceSession::get_dir_detail`); `None` when there is no such session or directory.
pub fn get_dir_detail(state: &AppState, session_id: u32, path: &str) -> (r: Option<DirDetailDto>)
    requires
        state.wf(),
    ensures
        match r {
            None => state.space_sessions.at(session_id) is None || !state.space_sessions.at(session_id).unwrap().index().contains_key(
                lower_chars(crate::util::normalize_path_spec(path@))),
            Some(d) => state.space_sessions.at(session_id) is Some && ({
                let s = state.space_sessions.at(session_id).unwrap();
                let key = lower_chars(crate::util::normalize_path_spec(path@));
                s.index().contains_key(key) && crate::arena::is_detail_of(d, s.nodes(), s.index()[key] as int)
            }),
        },
{
    match state.space_sessions.get(session_id) {
        Some(s) => s.get_dir_detail(path),
        None => None,
    }
}

} // verus!

verus! {

/// The seven file categories are fixed lists of extensions:
/// 1 video: mp4, mkv, avi, mov, wmv, flv, m4v, webm, ts;
/// 2 image: jpg, jpeg, png, gif, bmp, webp, raw, psd, heic;
/// 3 audio: mp3, wav, flac, ape, ogg, m4a, aac;
/// 4 archive: zip, rar, 7z, tar, gz, bz2, xz;
/// 5 disk image: iso, img, vhd, vhdx, gho, wim, dmg;
/// 6 installer: exe, msi, msix, appx;
/// 7 document: doc, docx, xls, xlsx, ppt, pptx, pdf, txt, md;
/// as each extension gets a single category, no two lists overlap. Any other
/// extension is category 0.
pub proof fn extensions_have_fixed_categories()
    ensures
        ext_category("mp4"@) == 1,
        ext_category("mkv"@) == 1,
        ext_category("avi"@) == 1,
        ext_category("mov"@) == 1,
        ext_category("wmv"@) == 1,
        ext_category("flv"@) == 1,
        ext_category("m4v"@) == 1,
        ext_category("webm"@) == 1,
        ext_category("ts"@) == 1,
        ext_category("jpg"@) == 2,
        ext_category("jpeg"@) == 2,
        ext_category("png"@) == 2,
        ext_category("gif"@) == 2,
        ext_category("bmp"@) == 2,
        ext_category("webp"@) == 2,
        ext_category("raw"@) == 2,
        ext_category("psd"@) == 2,
        ext_category("heic"@) == 2,
        ext_category("mp3"@) == 3,
        ext_category("wav"@) == 3,
        ext_category("flac"@) == 3,
        ext_category("ape"@) == 3,
        ext_category("ogg"@) == 3,
        ext_category("m4a"@) == 3,
        ext_category("aac"@) == 3,
        ext_category("zip"@) == 4,
        ext_category("rar"@) == 4,
        ext_category("7z"@) == 4,
        ext_category("tar"@) == 4,
        ext_category("gz"@) == 4,
        ext_category("bz2"@) == 4,
        ext_category("xz"@) == 4,
        ext_category("iso"@) == 5,
        ext_category("img"@) == 5,
        ext_category("vhd"@) == 5,
        ext_category("vhdx"@) == 5,
        ext_category("gho"@) == 5,
        ext_category("wim"@) == 5,
        ext_category("dmg"@) == 5,
        ext_category("exe"@) == 6,
        ext_category("msi"@) == 6,
        ext_category("msix"@) == 6,
        ext_category("appx"@) == 6,
        ext_category("doc"@) == 7,
        ext_category("docx"@) == 7,
        ext_category("xls"@) == 7,
        ext_category("xlsx"@) == 7,
        ext_category("ppt"@) == 7,
        ext_category("pptx"@) == 7,
        ext_category("pdf"@) == 7,
        ext_category("txt"@) == 7,
        ext_category("md"@) == 7,
        forall|e: Seq<char>| #[trigger] ext_category(e) != 0 ==> (
            e == "mp4"@ || e == "mkv"@ || e == "avi"@ || e == "mov"@ || e == "wmv"@ || e == "flv"@ || e == "m4v"@
            || e == "webm"@ || e == "ts"@ || e == "jpg"@ || e == "jpeg"@ || e == "png"@ || e == "gif"@ || e == "bmp"@
            || e == "webp"@ || e == "raw"@ || e == "psd"@ || e == "heic"@ || e == "mp3"@ || e == "wav"@ || e == "flac"@
            || e == "ape"@ || e == "ogg"@ || e == "m4a"@ || e == "aac"@ || e == "zip"@ || e == "rar"@ || e == "7z"@
            || e == "tar"@ || e == "gz"@ || e == "bz2"@ || e == "xz"@ || e == "iso"@ || e == "img"@ || e == "vhd"@
            || e == "vhdx"@ || e == "gho"@ || e == "wim"@ || e == "dmg"@ || e == "exe"@ || e == "msi"@ || e == "msix"@
            || e == "appx"@ || e == "doc"@ || e == "docx"@ || e == "xls"@ || e == "xlsx"@ || e == "ppt"@ || e == "pptx"@
            || e == "pdf"@ || e == "txt"@ || e == "md"@
        ),
{
    reveal_strlit("mp4");
    reveal_strlit("mkv");
    reveal_strlit("avi");
    reveal_strlit("mov");
    reveal_strlit("wmv");
    reveal_strlit("flv");
    reveal_strlit("m4v");
    reveal_strlit("webm");
    reveal_strlit("ts");
    reveal_strlit("jpg");
    reveal_strlit("jpeg");
    reveal_strlit("png");
    reveal_strlit("gif");
    reveal_strlit("bmp");
    reveal_strlit("webp");
    reveal_strlit("raw");
    reveal_strlit("psd");
    reveal_strlit("heic");
    reveal_strlit("mp3");
    reveal_strlit("wav");
    reveal_strlit("flac");
    reveal_strlit("ape");
    reveal_strlit("ogg");
    reveal_strlit("m4a");
    reveal_strlit("aac");
    reveal_strlit("zip");
    reveal_strlit("rar");
    reveal_strlit("7z");
    reveal_strlit("tar");
    reveal_strlit("gz");
    reveal_strlit("bz2");
    reveal_strlit("xz");
    reveal_strlit("iso");
    reveal_strlit("img");
    reveal_strlit("vhd");
    reveal_strlit("vhdx");
    reveal_strlit("gho");
    reveal_strlit("wim");
    reveal_strlit("dmg");
    reveal_strlit("exe");
    reveal_strlit("msi");
    reveal_strlit("msix");
    reveal_strlit("appx");
    reveal_strlit("doc");
    reveal_strlit("docx");
    reveal_strlit("xls");
    reveal_strlit("xlsx");
    reveal_strlit("ppt");
    reveal_strlit("pptx");
    reveal_strlit("pdf");
    reveal_strlit("txt");
    reveal_strlit("md");
    assert("mp4"@.len() == 3 && "mp4"@[0] == 'm' && "mp4"@[1] == 'p' && "mp4"@[2] == '4');
    assert("mkv"@.len() == 3 && "mkv"@[0] == 'm' && "mkv"@[1] == 'k' && "mkv"@[2] == 'v');
    assert("avi"@.len() == 3 && "avi"@[0] == 'a' && "avi"@[1] == 'v' && "avi"@[2] == 'i');
    assert("mov"@.len() == 3 && "mov"@[0] == 'm' && "mov"@[1] == 'o' && "mov"@[2] == 'v');
    assert("wmv"@.len() == 3 && "wmv"@[0] == 'w' && "wmv"@[1] == 'm' && "wmv"@[2] == 'v');
    assert("flv"@.len() == 3 && "flv"@[0] == 'f' && "flv"@[1] == 'l' && "flv"@[2] == 'v');
    assert("m4v"@.len() == 3 && "m4v"@[0] == 'm' && "m4v"@[1] == '4' && "m4v"@[2] == 'v');
    assert("webm"@.len() == 4 && "webm"@[0] == 'w' && "webm"@[1] == 'e' && "webm"@[2] == 'b' && "webm"@[3] == 'm');
    assert("ts"@.len() == 2 && "ts"@[0] == 't' && "ts"@[1] == 's');
    assert("jpg"@.len() == 3 && "jpg"@[0] == 'j' && "jpg"@[1] == 'p' && "jpg"@[2] == 'g');
    assert("jpeg"@.len() == 4 && "jpeg"@[0] == 'j' && "jpeg"@[1] == 'p' && "jpeg"@[2] == 'e' && "jpeg"@[3] == 'g');
    assert("png"@.len() == 3 && "png"@[0] == 'p' && "png"@[1] == 'n' && "png"@[2] == 'g');
    assert("gif"@.len() == 3 && "gif"@[0] == 'g' && "gif"@[1] == 'i' && "gif"@[2] == 'f');
    assert("bmp"@.len() == 3 && "bmp"@[0] == 'b' && "bmp"@[1] == 'm' && "bmp"@[2] == 'p');
    assert("webp"@.len() == 4 && "webp"@[0] == 'w' && "webp"@[1] == 'e' && "webp"@[2] == 'b' && "webp"@[3] == 'p');
    assert("raw"@.len() == 3 && "raw"@[0] == 'r' && "raw"@[1] == 'a' && "raw"@[2] == 'w');
    assert("psd"@.len() == 3 && "psd"@[0] == 'p' && "psd"@[1] == 's' && "psd"@[2] == 'd');
    assert("heic"@.len() == 4 && "heic"@[0] == 'h' && "heic"@[1] == 'e' && "heic"@[2] == 'i' && "heic"@[3] == 'c');
    assert("mp3"@.len() == 3 && "mp3"@[0] == 'm' && "mp3"@[1] == 'p' && "mp3"@[2] == '3');
    assert("wav"@.len() == 3 && "wav"@[0] == 'w' && "wav"@[1] == 'a' && "wav"@[2] == 'v');
    assert("flac"@.len() == 4 && "flac"@[0] == 'f' && "flac"@[1] == 'l' && "flac"@[2] == 'a' && "flac"@[3] == 'c');
    assert("ape"@.len() == 3 && "ape"@[0] == 'a' && "ape"@[1] == 'p' && "ape"@[2] == 'e');
    assert("ogg"@.len() == 3 && "ogg"@[0] == 'o' && "ogg"@[1] == 'g' && "ogg"@[2] == 'g');
    assert("m4a"@.len() == 3 && "m4a"@[0] == 'm' && "m4a"@[1] == '4' && "m4a"@[2] == 'a');
    assert("aac"@.len() == 3 && "aac"@[0] == 'a' && "aac"@[1] == 'a' && "aac"@[2] == 'c');
    assert("zip"@.len() == 3 && "zip"@[0] == 'z' && "zip"@[1] == 'i' && "zip"@[2] == 'p');
    assert("rar"@.len() == 3 && "rar"@[0] == 'r' && "rar"@[1] == 'a' && "rar"@[2] == 'r');
    assert("7z"@.len() == 2 && "7z"@[0] == '7' && "7z"@[1] == 'z');
    assert("tar"@.len() == 3 && "tar"@[0] == 't' && "tar"@[1] == 'a' && "tar"@[2] == 'r');
    assert("gz"@.len() == 2 && "gz"@[0] == 'g' && "gz"@[1] == 'z');
    assert("bz2"@.len() == 3 && "bz2"@[0] == 'b' && "bz2"@[1] == 'z' && "bz2"@[2] == '2');
    assert("xz"@.len() == 2 && "xz"@[0] == 'x' && "xz"@[1] == 'z');
    assert("iso"@.len() == 3 && "iso"@[0] == 'i' && "iso"@[1] == 's' && "iso"@[2] == 'o');
    assert("img"@.len() == 3 && "img"@[0] == 'i' && "img"@[1] == 'm' && "img"@[2] == 'g');
    assert("vhd"@.len() == 3 && "vhd"@[0] == 'v' && "vhd"@[1] == 'h' && "vhd"@[2] == 'd');
    assert("vhdx"@.len() == 4 && "vhdx"@[0] == 'v' && "vhdx"@[1] == 'h' && "vhdx"@[2] == 'd' && "vhdx"@[3] == 'x');
    assert("gho"@.len() == 3 && "gho"@[0] == 'g' && "gho"@[1] == 'h' && "gho"@[2] == 'o');
    assert("wim"@.len() == 3 && "wim"@[0] == 'w' && "wim"@[1] == 'i' && "wim"@[2] == 'm');
    assert("dmg"@.len() == 3 && "dmg"@[0] == 'd' && "dmg"@[1] == 'm' && "dmg"@[2] == 'g');
    assert("exe"@.len() == 3 && "exe"@[0] == 'e' && "exe"@[1] == 'x' && "exe"@[2] == 'e');
    assert("msi"@.len() == 3 && "msi"@[0] == 'm' && "msi"@[1] == 's' && "msi"@[2] == 'i');
    assert("msix"@.len() == 4 && "msix"@[0] == 'm' && "msix"@[1] == 's' && "msix"@[2] == 'i' && "msix"@[3] == 'x');
    assert("appx"@.len() == 4 && "appx"@[0] == 'a' && "appx"@[1] == 'p' && "appx"@[2] == 'p' && "appx"@[3] == 'x');
    assert("doc"@.len() == 3 && "doc"@[0] == 'd' && "doc"@[1] == 'o' && "doc"@[2] == 'c');
    assert("docx"@.len() == 4 && "docx"@[0] == 'd' && "docx"@[1] == 'o' && "docx"@[2] == 'c' && "docx"@[3] == 'x');
    assert("xls"@.len() == 3 && "xls"@[0] == 'x' && "xls"@[1] == 'l' && "xls"@[2] == 's');
    assert("xlsx"@.len() == 4 && "xlsx"@[0] == 'x' && "xlsx"@[1] == 'l' && "xlsx"@[2] == 's' && "xlsx"@[3] == 'x');
    assert("ppt"@.len() == 3 && "ppt"@[0] == 'p' && "ppt"@[1] == 'p' && "ppt"@[2] == 't');
    assert("pptx"@.len() == 4 && "pptx"@[0] == 'p' && "pptx"@[1] == 'p' && "pptx"@[2] == 't' && "pptx"@[3] == 'x');
    assert("pdf"@.len() == 3 && "pdf"@[0] == 'p' && "pdf"@[1] == 'd' && "pdf"@[2] == 'f');
    assert("txt"@.len() == 3 && "txt"@[0] == 't' && "txt"@[1] == 'x' && "txt"@[2] == 't');
    assert("md"@.len() == 2 && "md"@[0] == 'm' && "md"@[1] == 'd');
}

/// A file name's category is that of its lower-cased extension (the text after
/// its last dot), provided the name does not start with that dot and the
/// extension takes at most 5 bytes; otherwise, and without a dot, it is 0.
pub proof fn file_category_follows_extension(s: Seq<char>, d: int)
    requires
        is_last_dot(s, d),
    ensures
        d > 0 && utf8_len(s.skip(d + 1)) <= 5 ==> file_category_spec(s) == ext_category(lower_chars(s.skip(d + 1))),
        d == 0 || utf8_len(s.skip(d + 1)) > 5 ==> file_category_spec(s) == 0,
{
    let c = choose|c: int| is_last_dot(s, c);
    assert(c == d) by {
        if c < d {
            assert(s[d] != '.');
        } else if c > d {
            assert(s[c] != '.');
        }
    }
}

/// A name without a dot is category 0.
pub proof fn file_without_dot_is_other(s: Seq<char>)
    requires
        forall|j: int| 0 <= j < s.len() ==> s[j] != '.',
    ensures
        file_category_spec(s) == 0,
{
}

} // verus!
