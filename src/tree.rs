use vstd::prelude::*;

verus! {

/// One entry of a scanned directory tree.
pub struct DirNode {
    pub name: String,
    pub path: String,
    pub size: u64,
    pub children: Vec<DirNode>,
    pub is_file: bool,
}

/// The sum of the byte lengths of all file nodes in a sequence of subtrees.
pub open spec fn forest_total(s: Seq<DirNode>) -> nat
    decreases s,
{
    if s.len() == 0 {
        0
    } else {
        let last = s[s.len() - 1];
        forest_total(s.drop_last()) + if last.is_file {
            last.size as nat
        } else {
            forest_total(last.children@)
        }
    }
}

/// The sum of the byte lengths of all file nodes in the tree rooted at `n`.
pub open spec fn file_total(n: DirNode) -> nat {
    if n.is_file {
        n.size as nat
    } else {
        forest_total(n.children@)
    }
}

/// Every tree of the sequence carries its aggregated size in each node.
pub open spec fn forest_aggregated(s: Seq<DirNode>) -> bool
    decreases s,
{
    if s.len() == 0 {
        true
    } else {
        let last = s[s.len() - 1];
        &&& forest_aggregated(s.drop_last())
        &&& last.size == file_total(last)
        &&& !last.is_file ==> forest_aggregated(last.children@)
    }
}

/// Every node of the tree carries its aggregated size.
pub open spec fn aggregated(n: DirNode) -> bool {
    &&& n.size == file_total(n)
    &&& !n.is_file ==> forest_aggregated(n.children@)
}

/// `b` is the forest `a` with every directory's size replaced by its aggregated size.
pub open spec fn forest_filled(a: Seq<DirNode>, b: Seq<DirNode>) -> bool
    decreases a,
{
    if a.len() == 0 {
        b.len() == 0
    } else {
        let la = a[a.len() - 1];
        let lb = b[b.len() - 1];
        &&& b.len() == a.len()
        &&& forest_filled(a.drop_last(), b.drop_last())
        &&& if la.is_file {
            lb == la
        } else {
            &&& lb.name == la.name
            &&& lb.path == la.path
            &&& !lb.is_file
            &&& lb.size == forest_total(la.children@)
            &&& forest_filled(la.children@, lb.children@)
        }
    }
}

/// `b` is `a` with every directory's size replaced by its aggregated size.
pub open spec fn totals_filled(a: DirNode, b: DirNode) -> bool {
    if a.is_file {
        b == a
    } else {
        &&& b.name == a.name
        &&& b.path == a.path
        &&& !b.is_file
        &&& b.size == file_total(a)
        &&& forest_filled(a.children@, b.children@)
    }
}

pub proof fn lemma_forest_take(s: Seq<DirNode>, i: int)
    requires
        0 <= i < s.len(),
    ensures
        forest_total(s.take(i + 1)) == forest_total(s.take(i)) + file_total(s[i]),
{
    assert(s.take(i + 1).drop_last() =~= s.take(i));
}

pub proof fn lemma_forest_prefix_le(s: Seq<DirNode>, i: int)
    requires
        0 <= i <= s.len(),
    ensures
        forest_total(s.take(i)) <= forest_total(s),
    decreases s.len() - i,
{
    if i < s.len() {
        lemma_forest_take(s, i);
        lemma_forest_prefix_le(s, i + 1);
    } else {
        assert(s.take(i) =~= s);
    }
}

proof fn lemma_forest_filled(a: Seq<DirNode>, b: Seq<DirNode>)
    requires
        forest_filled(a, b),
    ensures
        forest_total(b) == forest_total(a),
        forest_aggregated(b),
    decreases a,
{
    if a.len() > 0 {
        let k = a.len() - 1;
        lemma_forest_filled(a.drop_last(), b.drop_last());
        if !a[k].is_file {
            lemma_forest_filled(a[k].children@, b[k].children@);
        }
    }
}

/// Filling in the totals keeps the sum of the file lengths and leaves every
/// node aggregated.
pub proof fn lemma_filled(a: DirNode, b: DirNode)
    requires
        totals_filled(a, b),
    ensures
        file_total(b) == file_total(a),
        aggregated(b),
{
    if !a.is_file {
        lemma_forest_filled(a.children@, b.children@);
    }
}

proof fn lemma_filled_self_file(a: DirNode)
    requires
        a.is_file,
    ensures
        totals_filled(a, a),
        aggregated(a),
{
}

impl DirNode {
    /// A node with no children and size zero.
    pub fn new(name: String, path: String, is_file: bool) -> (r: DirNode)
        ensures
            r.name == name,
            r.path == path,
            r.is_file == is_file,
            r.size == 0,
            r.children@.len() == 0,
    {
        DirNode { name, path, size: 0, children: Vec::new(), is_file }
    }

    /// Appends `child` after the existing children.
    pub fn add_child(&mut self, child: DirNode)
        ensures
            final(self).children@ == old(self).children@.push(child),
            final(self).name == old(self).name,
            final(self).path == old(self).path,
            final(self).size == old(self).size,
            final(self).is_file == old(self).is_file,
    {
        self.children.push(child);
    }

    /// Sets every directory's size to the sum of the byte lengths of the files
    /// below it and returns the resulting size of this node.
    pub fn calculate_total_size(&mut self) -> (r: u64)
        requires
            file_total(*old(self)) <= u64::MAX,
        ensures
            totals_filled(*old(self), *final(self)),
            aggregated(*final(self)),
            r == final(self).size,
            r == file_total(*old(self)),
        decreases *old(self),
    {
        if self.is_file {
            proof {
                lemma_filled_self_file(*self);
            }
            return self.size;
        }
        let ghost orig = self.children@;
        let mut kids: Vec<DirNode> = Vec::new();
        std::mem::swap(&mut kids, &mut self.children);
        let mut sum: u64 = 0;
        let mut i: usize = 0;
        while i < kids.len()
            invariant
                kids@.len() == orig.len(),
                orig == old(self).children@,
                self.name == old(self).name,
                self.path == old(self).path,
                self.is_file == old(self).is_file,
                !self.is_file,
                0 <= i <= orig.len(),
                forest_total(orig) <= u64::MAX,
                sum == forest_total(orig.take(i as int)),
                forest_filled(orig.take(i as int), kids@.take(i as int)),
                forall|j: int| i <= j < orig.len() ==> #[trigger] kids@[j] == orig[j],
            decreases orig.len() - i,
        {
            proof {
                lemma_forest_take(orig, i as int);
                lemma_forest_prefix_le(orig, i as int + 1);
                assert(kids@[i as int] == old(self).children@[i as int]);
                assert(decreases_to!(*old(self) => old(self).children));
                assert(decreases_to!(old(self).children => old(self).children@));
                assert(decreases_to!(old(self).children@ => old(self).children@[i as int]));
            }
            let ghost before = kids@;
            let t = kids[i].calculate_total_size();
            proof {
                assert(kids@ == before.update(i as int, kids@[i as int]));
                assert(orig.take(i + 1).drop_last() =~= orig.take(i as int));
                assert(kids@.take(i + 1).drop_last() =~= before.take(i as int));
                assert(kids@.take(i as int) =~= before.take(i as int));
            }
            sum = sum + t;
            i = i + 1;
        }
        proof {
            assert(orig.take(orig.len() as int) =~= orig);
            assert(kids@.take(orig.len() as int) =~= kids@);
        }
        std::mem::swap(&mut kids, &mut self.children);
        self.size = sum;
        proof {
            assert(totals_filled(*old(self), *self));
            lemma_filled(*old(self), *self);
        }
        sum
    }
}

} // verus!
