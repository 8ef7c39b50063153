use vstd::prelude::*;

use crate::error::VisError;
use crate::tree::{
    aggregated, file_total, forest_total, lemma_filled, lemma_forest_prefix_le, lemma_forest_take,
    totals_filled, DirNode,
};

verus! {

/// One entry of a directory walk, the root itself excepted. Entries are
/// numbered from 1 in the order of the walk, the root is 0, and `parent` is
/// the number of the directory that holds the entry.
#[derive(Debug)]
pub struct ScanEntry {
    pub name: String,
    pub path: String,
    pub parent: usize,
    pub is_file: bool,
    /// The byte length of a file; not read for a directory.
    pub size: u64,
}

/// The positions below `k` of the entries held by directory `id`. A directory
/// comes before its contents in a walk, so an entry whose parent does not
/// come before it has no place in the tree.
pub open spec fn kids_upto(entries: Seq<ScanEntry>, id: int, k: int) -> Seq<usize>
    decreases k,
{
    if k <= 0 {
        Seq::empty()
    } else {
        let prev = kids_upto(entries, id, k - 1);
        if entries[k - 1].parent == id && id < k {
            prev.push((k - 1) as usize)
        } else {
            prev
        }
    }
}

/// The positions of the entries held by directory `id`, in walk order.
pub open spec fn kids(entries: Seq<ScanEntry>, id: int) -> Seq<usize> {
    kids_upto(entries, id, entries.len() as int)
}

/// `nodes` are the trees of the entries at the positions `ids`: each node
/// carries its entry's name, path and kind, a file its byte length and no
/// children, a directory size zero and the trees of the entries it holds.
pub open spec fn forest_built(nodes: Seq<DirNode>, entries: Seq<ScanEntry>, ids: Seq<usize>) -> bool
    decreases nodes,
{
    if nodes.len() == 0 {
        ids.len() == 0
    } else {
        let n = nodes[nodes.len() - 1];
        let e = entries[ids[ids.len() - 1] as int];
        &&& ids.len() == nodes.len()
        &&& forest_built(nodes.drop_last(), entries, ids.drop_last())
        &&& n.name == e.name
        &&& n.path == e.path
        &&& n.is_file == e.is_file
        &&& if e.is_file {
            n.size == e.size && n.children@.len() == 0
        } else {
            n.size == 0 && forest_built(
                n.children@,
                entries,
                kids(entries, ids[ids.len() - 1] + 1),
            )
        }
    }
}

/// `root` is the tree of the walk of the directory `name` at `path`, with
/// the directories' sizes not yet aggregated.
pub open spec fn root_built(root: DirNode, name: String, path: String, entries: Seq<ScanEntry>) -> bool {
    &&& root.name == name
    &&& root.path == path
    &&& !root.is_file
    &&& root.size == 0
    &&& forest_built(root.children@, entries, kids(entries, 0))
}

/// For each directory number, the positions of the entries it holds.
fn group_by_parent(entries: &Vec<ScanEntry>) -> (groups: Vec<Vec<usize>>)
    requires
        entries@.len() < usize::MAX,
    ensures
        groups@.len() == entries@.len() + 1,
        forall|id: int| 0 <= id <= entries@.len() ==> #[trigger] groups@[id]@ == kids(entries@, id),
{
    let n = entries.len();
    let mut groups: Vec<Vec<usize>> = Vec::new();
    let mut g: usize = 0;
    while g <= n
        invariant
            n == entries@.len(),
            n < usize::MAX,
            0 <= g <= n + 1,
            groups@.len() == g,
            forall|id: int| 0 <= id < g ==> (#[trigger] groups@[id])@ == kids_upto(entries@, id, 0),
        decreases n + 1 - g,
    {
        groups.push(Vec::new());
        g = g + 1;
    }
    let mut i: usize = 0;
    while i < n
        invariant
            n == entries@.len(),
            0 <= i <= n,
            groups@.len() == n + 1,
            forall|id: int| 0 <= id <= n ==> (#[trigger] groups@[id])@ == kids_upto(entries@, id, i as int),
        decreases n - i,
    {
        let p = entries[i].parent;
        if p <= i {
            let ghost before = groups@;
            groups[p].push(i);
            proof {
                assert forall|id: int| 0 <= id <= n implies (#[trigger] groups@[id])@ == kids_upto(
                    entries@,
                    id,
                    i + 1,
                ) by {
                    if id != p {
                        assert(groups@[id] == before[id]);
                    }
                }
            }
        }
        i = i + 1;
    }
    groups
}

/// The trees of the entries held by directory `id`, in walk order.
fn build_children(entries: &Vec<ScanEntry>, groups: &Vec<Vec<usize>>, id: usize) -> (nodes: Vec<DirNode>)
    requires
        entries@.len() < usize::MAX,
        id <= entries@.len(),
        groups@.len() == entries@.len() + 1,
        forall|g: int| 0 <= g <= entries@.len() ==> #[trigger] groups@[g]@ == kids(entries@, g),
    ensures
        forest_built(nodes@, entries@, kids(entries@, id as int)),
    decreases entries@.len() + 1 - id,
{
    let list = &groups[id];
    proof {
        lemma_kids_bounds(entries@, id as int, entries@.len() as int);
    }
    let mut nodes: Vec<DirNode> = Vec::new();
    let mut j: usize = 0;
    while j < list.len()
        invariant
            entries@.len() < usize::MAX,
            id <= entries@.len(),
            groups@.len() == entries@.len() + 1,
            forall|g: int| 0 <= g <= entries@.len() ==> #[trigger] groups@[g]@ == kids(entries@, g),
            list@ == kids(entries@, id as int),
            forall|m: int|
                0 <= m < list@.len() ==> id <= #[trigger] list@[m] && list@[m] < entries@.len(),
            0 <= j <= list@.len(),
            forest_built(nodes@, entries@, list@.take(j as int)),
        decreases list@.len() - j,
    {
        let k = list[j];
        let e = &entries[k];
        let node = if e.is_file {
            DirNode {
                name: e.name.clone(),
                path: e.path.clone(),
                size: e.size,
                children: Vec::new(),
                is_file: true,
            }
        } else {
            let sub = build_children(entries, groups, k + 1);
            DirNode {
                name: e.name.clone(),
                path: e.path.clone(),
                size: 0,
                children: sub,
                is_file: false,
            }
        };
        let ghost prev = nodes@;
        nodes.push(node);
        proof {
            assert(list@.take(j + 1).drop_last() =~= list@.take(j as int));
            assert(nodes@.drop_last() =~= prev);
        }
        j = j + 1;
    }
    proof {
        assert(list@.take(j as int) =~= list@);
    }
    nodes
}

proof fn lemma_kids_bounds(entries: Seq<ScanEntry>, id: int, k: int)
    requires
        0 <= k <= entries.len(),
        entries.len() < usize::MAX,
    ensures
        forall|m: int|
            0 <= m < kids_upto(entries, id, k).len() ==> id <= #[trigger] kids_upto(entries, id, k)[m]
                && kids_upto(entries, id, k)[m] < k,
    decreases k,
{
    if k > 0 {
        lemma_kids_bounds(entries, id, k - 1);
        let prev = kids_upto(entries, id, k - 1);
        let cur = kids_upto(entries, id, k);
        assert forall|m: int| 0 <= m < cur.len() implies id <= #[trigger] cur[m] && cur[m] < k by {
            if m < prev.len() {
                assert(cur[m] == prev[m]);
            }
        }
    }
}

/// Builds the tree of a walk of the directory `name` at `path` from its
/// entries, in walk order; directories' sizes are left at zero.
pub fn build_tree(name: String, path: String, entries: &Vec<ScanEntry>) -> (root: DirNode)
    requires
        entries@.len() < usize::MAX,
    ensures
        root_built(root, name, path, entries@),
{
    let groups = group_by_parent(entries);
    let children = build_children(entries, &groups, 0);
    DirNode { name, path, size: 0, children, is_file: false }
}

/// The sum of the byte lengths of the files of the tree, or `None` when it
/// does not fit in 64 bits.
pub fn checked_file_total(n: &DirNode) -> (r: Option<u64>)
    ensures
        r == (if file_total(*n) <= u64::MAX {
            Some(file_total(*n) as u64)
        } else {
            None::<u64>
        }),
    decreases n,
{
    if n.is_file {
        return Some(n.size);
    }
    let ghost s = n.children@;
    let mut sum: u64 = 0;
    let mut i: usize = 0;
    while i < n.children.len()
        invariant
            s == n.children@,
            !n.is_file,
            0 <= i <= s.len(),
            sum == forest_total(s.take(i as int)),
        decreases s.len() - i,
    {
        proof {
            lemma_forest_take(s, i as int);
            lemma_forest_prefix_le(s, i as int + 1);
            assert(decreases_to!(n => n.children));
            assert(decreases_to!(n.children => n.children@));
            assert(decreases_to!(n.children@ => n.children@[i as int]));
        }
        match checked_file_total(&n.children[i]) {
            None => {
                return None;
            },
            Some(t) => {
                match sum.checked_add(t) {
                    None => {
                        return None;
                    },
                    Some(v) => {
                        sum = v;
                    },
                }
            },
        }
        i = i + 1;
    }
    proof {
        assert(s.take(i as int) =~= s);
    }
    Some(sum)
}

/// Builds the tree of a walk of the directory `name` at `path` from its
/// entries and sets every directory's size to the sum of the byte lengths of
/// the files below it. Fails with `SizeOverflow` when that sum does not fit
/// in 64 bits.
pub fn scan_tree(name: String, path: String, entries: &Vec<ScanEntry>) -> (r: Result<
    DirNode,
    VisError,
>)
    requires
        entries@.len() < usize::MAX,
    ensures
        r is Ok ==> exists|b: DirNode| #[trigger]
            root_built(b, name, path, entries@) && totals_filled(b, r->Ok_0),
        r is Ok ==> aggregated(r->Ok_0) && r->Ok_0.size == file_total(r->Ok_0),
        r is Err ==> r->Err_0 == VisError::SizeOverflow && exists|b: DirNode| #[trigger]
            root_built(b, name, path, entries@) && file_total(b) > u64::MAX,
{
    let mut root = build_tree(name, path, entries);
    match checked_file_total(&root) {
        None => Err(VisError::SizeOverflow),
        Some(_) => {
            let ghost b = root;
            root.calculate_total_size();
            proof {
                lemma_filled(b, root);
            }
            Ok(root)
        },
    }
}

} // verus!
