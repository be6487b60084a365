//! A vantage-point tree over a fixed corpus of strings, built once and
//! queried with a radius-bounded, triangle-inequality-pruned search.
//!
//! Every corpus string is carried through construction together with
//! its original position, so queries report original indices and
//! duplicate string values each keep their own index.

use vstd::prelude::*;
use vstd::relations::{sorted_by, total_ordering};
use vstd::seq_lib::lemma_multiset_commutative;
use vstd::seq_lib::lemma_sorted_unique;

use crate::levenshtein::edit_dist;
use crate::levenshtein::lemma_edit_dist_self;
use crate::levenshtein::lemma_edit_dist_symmetric;
use crate::levenshtein::lemma_edit_dist_triangle;
use crate::levenshtein::lemma_edit_dist_zero_implies_eq;
use crate::levenshtein::levenshtein_distance;

verus! {

broadcast use
    vstd::seq_lib::group_to_multiset_ensures,
    vstd::multiset::group_multiset_axioms,
    lemma_multiset_commutative,
;

/// A corpus string paired with its original position, as routed
/// through tree construction.
struct Entry {
    s: String,
    idx: usize,
}

impl Entry {
    fn duplicate(&self) -> (r: Self)
        ensures
            r.s@ == self.s@,
            r.idx == self.idx,
    {
        Entry { s: self.s.clone(), idx: self.idx }
    }
}

/// One subtree root: a vantage string, the median distance that
/// partitioned its descendants, and the two optional children.
pub struct Node {
    pub data: String,
    pub idx: usize,
    pub median: usize,
    pub left: Option<Box<Node>>,
    pub right: Option<Box<Node>>,
}

impl Node {
    /// Creates a childless node.
    fn new(data: String, idx: usize, median: usize) -> (n: Node)
        ensures
            n.data == data,
            n.idx == idx,
            n.median == median,
            n.left is None,
            n.right is None,
    {
        Node { data, idx, median, left: None, right: None }
    }
}

/// All (string, original index) pairs held by a subtree, root first,
/// then the left and the right subtree.
pub open spec fn subtree_entries(o: Option<Box<Node>>) -> Seq<(Seq<char>, usize)>
    decreases o,
{
    match o {
        None => Seq::empty(),
        Some(n) => seq![(n.data@, n.idx)] + subtree_entries(n.left) + subtree_entries(n.right),
    }
}

/// The metric partition invariant: everything in a left subtree lies
/// within the median distance of the vantage string, everything in a
/// right subtree lies strictly beyond it.
pub open spec fn wf_subtree(o: Option<Box<Node>>) -> bool
    decreases o,
{
    match o {
        None => true,
        Some(n) => {
            &&& forall|k: int|
                0 <= k < subtree_entries(n.left).len() ==> edit_dist(
                    (#[trigger] subtree_entries(n.left)[k]).0,
                    n.data@,
                ) <= n.median
            &&& forall|k: int|
                0 <= k < subtree_entries(n.right).len() ==> edit_dist(
                    (#[trigger] subtree_entries(n.right)[k]).0,
                    n.data@,
                ) > n.median
            &&& wf_subtree(n.left)
            &&& wf_subtree(n.right)
        },
    }
}

/// The indices reported by the branch-and-bound search, in visit
/// order: the node itself when within the radius, then whatever the
/// unpruned children report.
pub open spec fn search_spec(o: Option<Box<Node>>, q: Seq<char>, t: usize) -> Seq<usize>
    decreases o,
{
    match o {
        None => Seq::empty(),
        Some(n) => {
            let d = edit_dist(q, n.data@);
            let here = if d <= t {
                seq![n.idx]
            } else {
                Seq::<usize>::empty()
            };
            let ls = if d <= n.median + t {
                search_spec(n.left, q, t)
            } else {
                Seq::<usize>::empty()
            };
            let rs = if d + t >= n.median {
                search_spec(n.right, q, t)
            } else {
                Seq::<usize>::empty()
            };
            here + ls + rs
        },
    }
}

/// The (string, original index) pairs of a corpus, in corpus order.
pub open spec fn corpus_entries(c: Seq<Seq<char>>) -> Seq<(Seq<char>, usize)> {
    Seq::new(c.len(), |i: int| (c[i], i as usize))
}

/// The pairs carried by a working subset of entries.
spec fn entry_pairs(es: Seq<Entry>) -> Seq<(Seq<char>, usize)> {
    es.map_values(|e: Entry| (e.s@, e.idx))
}

/// The strings of a working subset of entries.
spec fn entries_strs(es: Seq<Entry>) -> Seq<Seq<char>> {
    es.map_values(|e: Entry| e.s@)
}

/// The ordering by which distance lists are sorted.
pub open spec fn usize_le_fn() -> spec_fn(usize, usize) -> bool {
    |a: usize, b: usize| a <= b
}

/// The lower median of a distance list: the element at position
/// len / 2 of the sorted list.
pub open spec fn median_of(ds: Seq<usize>) -> usize {
    ds.sort_by(usize_le_fn())[ds.len() as int / 2]
}

proof fn lemma_usize_le_total()
    ensures
        total_ordering(usize_le_fn()),
{
    let le = usize_le_fn();
    assert(forall|x: usize| #[trigger] le(x, x));
    assert(forall|x: usize, y: usize| #[trigger] le(x, y) && #[trigger] le(y, x) ==> x == y);
    assert(forall|x: usize, y: usize, z: usize|
        #[trigger] le(x, y) && #[trigger] le(y, z) ==> le(x, z));
    assert(forall|x: usize, y: usize| #[trigger] le(x, y) || #[trigger] le(y, x));
}

/// The distances from one string of a subset to every string of the
/// subset, itself included.
pub open spec fn dist_row(strs: Seq<Seq<char>>, i: int) -> Seq<usize> {
    Seq::new(strs.len(), |j: int| edit_dist(strs[i], strs[j]) as usize)
}

/// How many strings other than the vantage candidate itself lie within
/// distance `m`, among the first `upto` of the subset.
pub open spec fn count_close(ds: Seq<usize>, vp: int, m: usize, upto: int) -> nat
    decreases upto,
{
    if upto <= 0 {
        0
    } else {
        count_close(ds, vp, m, upto - 1) + (if upto - 1 != vp && ds[upto - 1] <= m {
            1nat
        } else {
            0nat
        })
    }
}

/// How many strings other than the vantage candidate itself lie beyond
/// distance `m`, among the first `upto` of the subset.
pub open spec fn count_far(ds: Seq<usize>, vp: int, m: usize, upto: int) -> nat
    decreases upto,
{
    if upto <= 0 {
        0
    } else {
        count_far(ds, vp, m, upto - 1) + (if upto - 1 != vp && ds[upto - 1] > m {
            1nat
        } else {
            0nat
        })
    }
}

/// The balance score of a vantage-point candidate: how unevenly its
/// median splits the other strings of the subset.
pub open spec fn imbalance(strs: Seq<Seq<char>>, i: int) -> nat {
    let ds = dist_row(strs, i);
    let m = median_of(ds);
    let a = count_close(ds, i, m, ds.len() as int);
    let b = count_far(ds, i, m, ds.len() as int);
    if a >= b {
        (a - b) as nat
    } else {
        (b - a) as nat
    }
}

/// A vantage-point tree over a corpus of strings. The ghost `corpus`
/// remembers the strings the tree was built from, in original order.
pub struct VPTree {
    pub root: Option<Box<Node>>,
    pub corpus: Ghost<Seq<Seq<char>>>,
}

impl VPTree {
    /// The tree is well formed: the partition invariant holds
    /// everywhere and the tree holds exactly the corpus strings, each
    /// paired with its original position.
    pub open spec fn wf(self) -> bool {
        &&& wf_subtree(self.root)
        &&& self.corpus@.len() <= usize::MAX
        &&& subtree_entries(self.root).to_multiset() == corpus_entries(self.corpus@).to_multiset()
    }
}

impl VPTree {
    /// The element at position len / 2 of the sorted copy of a
    /// non-empty distance list: the lower median, with no
    /// interpolation.
    fn calculate_median(distances: &Vec<usize>) -> (m: usize)
        requires
            distances@.len() > 0,
        ensures
            m == median_of(distances@),
    {
        let mut ds: Vec<usize> = Vec::new();
        let mut k: usize = 0;
        while k < distances.len()
            invariant
                k <= distances@.len(),
                ds@.len() == k,
                ds@.to_multiset() == distances@.take(k as int).to_multiset(),
                forall|p: int, q: int| 0 <= p < q < ds@.len() ==> ds@[p] <= ds@[q],
            decreases distances@.len() - k,
        {
            let x = distances[k];
            let mut pos: usize = 0;
            while pos < ds.len() && ds[pos] <= x
                invariant
                    pos <= ds@.len(),
                    forall|p: int| 0 <= p < pos ==> ds@[p] <= x,
                decreases ds@.len() - pos,
            {
                pos = pos + 1;
            }
            let ghost pre = ds@;
            ds.insert(pos, x);
            proof {
                assert(distances@.take(k as int + 1) =~= distances@.take(k as int).push(x));
                assert forall|p: int, q: int| 0 <= p < q < ds@.len() implies ds@[p] <= ds@[q] by {
                    if q == pos {
                        assert(ds@[p] == pre[p]);
                    } else if p == pos {
                        assert(ds@[q] == pre[q - 1]);
                        assert(pre[pos as int] > x);
                    }
                }
            }
            k = k + 1;
        }
        proof {
            assert(distances@.take(distances@.len() as int) =~= distances@);
            let le = usize_le_fn();
            lemma_usize_le_total();
            distances@.lemma_sort_by_ensures(le);
            assert(sorted_by(ds@, le));
            lemma_sorted_unique(ds@, distances@.sort_by(le), le);
        }
        ds[ds.len() / 2]
    }

    /// The distances from the subset string at `from` to every string
    /// of the subset, in subset order.
    fn distance_row(data: &Vec<Entry>, from: usize) -> (dists: Vec<usize>)
        requires
            from < data@.len(),
        ensures
            dists@.len() == data@.len(),
            forall|j: int|
                0 <= j < data@.len() ==> dists@[j] == edit_dist(
                    entries_strs(data@)[from as int],
                    entries_strs(data@)[j],
                ),
    {
        let mut dists: Vec<usize> = Vec::new();
        let mut j: usize = 0;
        while j < data.len()
            invariant
                from < data@.len(),
                j <= data@.len(),
                dists@.len() == j,
                forall|k: int|
                    0 <= k < j ==> dists@[k] == edit_dist(
                        entries_strs(data@)[from as int],
                        entries_strs(data@)[k],
                    ),
            decreases data@.len() - j,
        {
            let d = levenshtein_distance(data[from].s.as_str(), data[j].s.as_str());
            dists.push(d);
            j = j + 1;
        }
        dists
    }

    /// Chooses the subset string whose median splits the other strings
    /// most evenly; on equal balance the earlier candidate wins.
    /// Returns its position in the subset and its distances to every
    /// subset string.
    fn select_vantage_point(data: &Vec<Entry>) -> (r: (usize, Vec<usize>))
        requires
            data@.len() > 0,
        ensures
            r.0 < data@.len(),
            r.1@.len() == data@.len(),
            forall|j: int|
                0 <= j < data@.len() ==> r.1@[j] == edit_dist(
                    entries_strs(data@)[r.0 as int],
                    entries_strs(data@)[j],
                ),
            forall|k: int|
                0 <= k < data@.len() ==> imbalance(entries_strs(data@), r.0 as int) <= #[trigger] imbalance(entries_strs(data@), k),
            forall|k: int|
                0 <= k < r.0 ==> #[trigger] imbalance(entries_strs(data@), k) > imbalance(entries_strs(data@), r.0 as int),
    {
        let ghost strs = entries_strs(data@);
        let n = data.len();
        let mut best_vantage_point: usize = 0;
        let mut best_balance: usize = usize::MAX;
        let mut i: usize = 0;
        while i < n
            invariant
                n == data@.len(),
                0 < n,
                strs == entries_strs(data@),
                i <= n,
                i > 0 ==> best_vantage_point < i && best_balance == imbalance(
                    strs,
                    best_vantage_point as int,
                ) && (forall|k: int| 0 <= k < i ==> #[trigger] imbalance(strs, k) >= best_balance) && (
                forall|k: int| 0 <= k < best_vantage_point ==> #[trigger] imbalance(strs, k) > best_balance),
                i == 0 ==> best_balance == usize::MAX && best_vantage_point == 0,
            decreases n - i,
        {
            let dists = Self::distance_row(data, i);
            let median = Self::calculate_median(&dists);
            proof {
                assert(dists@ =~= dist_row(strs, i as int));
            }
            let mut lc: usize = 0;
            let mut rc: usize = 0;
            let mut j: usize = 0;
            while j < n
                invariant
                    n == data@.len(),
                    i < n,
                    j <= n,
                    dists@ == dist_row(strs, i as int),
                    dists@.len() == n,
                    median == median_of(dist_row(strs, i as int)),
                    lc == count_close(dists@, i as int, median, j as int),
                    rc == count_far(dists@, i as int, median, j as int),
                    lc + rc + (if (i as int) < (j as int) {
                        1int
                    } else {
                        0int
                    }) == j,
                decreases n - j,
            {
                if j != i {
                    if dists[j] <= median {
                        lc = lc + 1;
                    } else {
                        rc = rc + 1;
                    }
                }
                j = j + 1;
            }
            let balance = if lc >= rc {
                lc - rc
            } else {
                rc - lc
            };
            proof {
                assert(balance == imbalance(strs, i as int));
            }
            if balance < best_balance {
                best_vantage_point = i;
                best_balance = balance;
            }
            i = i + 1;
        }
        let dists = Self::distance_row(data, best_vantage_point);
        (best_vantage_point, dists)
    }

    /// Builds a subtree over a working subset: picks the vantage
    /// point, partitions the other entries around its median distance,
    /// and recurses on the two halves.
    fn build_recursive(data: Vec<Entry>) -> (o: Option<Box<Node>>)
        ensures
            wf_subtree(o),
            subtree_entries(o).to_multiset() == entry_pairs(data@).to_multiset(),
            (o is Some) <==> data@.len() > 0,
        decreases data@.len(),
    {
        if data.len() == 0 {
            proof {
                assert(entry_pairs(data@) =~= Seq::<(Seq<char>, usize)>::empty());
                assert(subtree_entries(None).to_multiset() =~= entry_pairs(
                    data@,
                ).to_multiset());
            }
            return None;
        }
        let (vantage_point, distances) = Self::select_vantage_point(&data);
        let median = Self::calculate_median(&distances);
        let ghost strs = entries_strs(data@);
        let ghost pp = entry_pairs(data@);

        let mut left_data: Vec<Entry> = Vec::new();
        let mut right_data: Vec<Entry> = Vec::new();
        proof {
            assert(entry_pairs(Seq::<Entry>::empty()) =~= Seq::<(Seq<char>, usize)>::empty());
            assert(pp.take(0) =~= Seq::<(Seq<char>, usize)>::empty());
            assert(Seq::<(Seq<char>, usize)>::empty().to_multiset().add(
                Seq::<(Seq<char>, usize)>::empty().to_multiset(),
            ) =~= pp.take(0).to_multiset());
        }
        let mut i: usize = 0;
        while i < data.len()
            invariant
                i <= data@.len(),
                vantage_point < data@.len(),
                distances@.len() == data@.len(),
                strs == entries_strs(data@),
                pp == entry_pairs(data@),
                forall|j: int|
                    0 <= j < data@.len() ==> distances@[j] == edit_dist(
                        strs[vantage_point as int],
                        strs[j],
                    ),
                entry_pairs(left_data@).to_multiset().add(entry_pairs(right_data@).to_multiset())
                    == (if i <= vantage_point {
                    pp.take(i as int)
                } else {
                    pp.take(i as int).remove(vantage_point as int)
                }).to_multiset(),
                forall|k: int|
                    0 <= k < left_data@.len() ==> edit_dist(
                        (#[trigger] entry_pairs(left_data@)[k]).0,
                        strs[vantage_point as int],
                    ) <= median,
                forall|k: int|
                    0 <= k < right_data@.len() ==> edit_dist(
                        (#[trigger] entry_pairs(right_data@)[k]).0,
                        strs[vantage_point as int],
                    ) > median,
            decreases data@.len() - i,
        {
            if i != vantage_point {
                let e = data[i].duplicate();
                let ghost pe = (e.s@, e.idx);
                proof {
                    assert(pe == pp[i as int]);
                    lemma_edit_dist_symmetric(strs[vantage_point as int], strs[i as int]);
                }
                if distances[i] <= median {
                    let ghost pre = left_data@;
                    left_data.push(e);
                    proof {
                        assert(entry_pairs(left_data@) =~= entry_pairs(pre).push(pe));
                    }
                } else {
                    let ghost pre = right_data@;
                    right_data.push(e);
                    proof {
                        assert(entry_pairs(right_data@) =~= entry_pairs(pre).push(pe));
                    }
                }
                proof {
                    if i < vantage_point {
                        assert(pp.take(i as int + 1) =~= pp.take(i as int).push(pp[i as int]));
                    } else {
                        assert(pp.take(i as int + 1).remove(vantage_point as int) =~= pp.take(
                            i as int,
                        ).remove(vantage_point as int).push(pp[i as int]));
                    }
                    assert(entry_pairs(left_data@).to_multiset().add(
                        entry_pairs(right_data@).to_multiset(),
                    ) =~= (if i + 1 <= vantage_point {
                        pp.take(i as int + 1)
                    } else {
                        pp.take(i as int + 1).remove(vantage_point as int)
                    }).to_multiset());
                }
            } else {
                proof {
                    assert(pp.take(i as int + 1).remove(vantage_point as int) =~= pp.take(
                        i as int,
                    ));
                }
            }
            i = i + 1;
        }
        proof {
            assert(pp.take(data@.len() as int) =~= pp);
            assert(pp.remove(vantage_point as int).to_multiset().len() == pp.len() - 1);
            assert(left_data@.len() + right_data@.len() == data@.len() - 1);
        }
        let vantage = data[vantage_point].s.clone();
        let vidx = data[vantage_point].idx;
        let mut node = Node::new(vantage, vidx, median);
        let ghost lview = left_data@;
        let ghost rview = right_data@;
        let left = Self::build_recursive(left_data);
        let right = Self::build_recursive(right_data);
        node.left = left;
        node.right = right;
        let ghost pvp = (node.data@, node.idx);
        proof {
            let el = subtree_entries(node.left);
            let er = subtree_entries(node.right);
            assert(node.data@ == strs[vantage_point as int]);
            assert(pvp == pp[vantage_point as int]);
            assert forall|k: int| 0 <= k < el.len() implies edit_dist(
                (#[trigger] el[k]).0,
                node.data@,
            ) <= node.median by {
                let p = el[k];
                assert(el.contains(p));
                assert(el.to_multiset().count(p) > 0);
                assert(entry_pairs(lview).to_multiset().count(p) > 0);
                assert(entry_pairs(lview).contains(p));
                let kk = choose|kk: int|
                    0 <= kk < entry_pairs(lview).len() && entry_pairs(lview)[kk] == p;
                assert(edit_dist((entry_pairs(lview)[kk]).0, strs[vantage_point as int])
                    <= median);
            }
            assert forall|k: int| 0 <= k < er.len() implies edit_dist(
                (#[trigger] er[k]).0,
                node.data@,
            ) > node.median by {
                let p = er[k];
                assert(er.contains(p));
                assert(er.to_multiset().count(p) > 0);
                assert(entry_pairs(rview).to_multiset().count(p) > 0);
                assert(entry_pairs(rview).contains(p));
                let kk = choose|kk: int|
                    0 <= kk < entry_pairs(rview).len() && entry_pairs(rview)[kk] == p;
                assert(edit_dist((entry_pairs(rview)[kk]).0, strs[vantage_point as int])
                    > median);
            }
        }
        let o = Some(Box::new(node));
        proof {
            let el = subtree_entries(node.left);
            let er = subtree_entries(node.right);
            assert(subtree_entries(o) == seq![pvp] + el + er);
            assert(seq![pvp] + el + er =~= (el + er).insert(0, pvp));
            assert(pp.contains(pvp));
            assert(pp.to_multiset().count(pvp) > 0);
            assert(pp.remove(vantage_point as int).to_multiset() == pp.to_multiset().remove(
                pp[vantage_point as int],
            ));
            assert(subtree_entries(o).to_multiset() =~= pp.to_multiset());
        }
        o
    }

    /// Builds a vantage-point tree over an ordered corpus of strings.
    /// Every corpus entry keeps its own original index, duplicated
    /// string values included.
    pub fn new(data: &[String]) -> (tree: VPTree)
        ensures
            tree.wf(),
            tree.corpus@ == data@.map_values(|s: String| s@),
            (tree.root is Some) <==> data@.len() > 0,
    {
        let ghost corpus = data@.map_values(|s: String| s@);
        let mut entries: Vec<Entry> = Vec::new();
        let mut i: usize = 0;
        while i < data.len()
            invariant
                i <= data@.len(),
                corpus == data@.map_values(|s: String| s@),
                entries@.len() == i,
                forall|k: int|
                    0 <= k < i ==> (#[trigger] entries@[k]).s@ == data@[k]@ && entries@[k].idx
                        == k,
            decreases data@.len() - i,
        {
            let s = data[i].clone();
            entries.push(Entry { s, idx: i });
            i = i + 1;
        }
        let ghost eview = entries@;
        let root = Self::build_recursive(entries);
        proof {
            assert(entry_pairs(eview) =~= corpus_entries(corpus));
        }
        VPTree { root, corpus: Ghost(corpus) }
    }

    /// Walks a subtree, appending to `result` the original index of
    /// every vantage string within the radius and descending only into
    /// children the triangle inequality cannot rule out.
    fn search_recursive(
        &self,
        result: &mut Vec<usize>,
        query: &String,
        threshold: usize,
        node_ref: &Option<Box<Node>>,
    )
        ensures
            final(result)@ == old(result)@ + search_spec(*node_ref, query@, threshold),
        decreases node_ref,
    {
        match node_ref {
            None => {
                proof {
                    assert(result@ =~= old(result)@ + search_spec(*node_ref, query@, threshold));
                }
            },
            Some(node) => {
                let ghost q = query@;
                let ghost d = edit_dist(q, node.data@);
                let ghost here = if d <= threshold {
                    seq![node.idx]
                } else {
                    Seq::<usize>::empty()
                };
                let ghost ls = if d <= node.median + threshold {
                    search_spec(node.left, q, threshold)
                } else {
                    Seq::<usize>::empty()
                };
                let ghost rs = if d + threshold >= node.median {
                    search_spec(node.right, q, threshold)
                } else {
                    Seq::<usize>::empty()
                };
                let dist = levenshtein_distance(query.as_str(), node.data.as_str());
                if dist <= threshold {
                    result.push(node.idx);
                }
                proof {
                    assert(result@ =~= old(result)@ + here);
                }
                let ghost mid = result@;
                let dmt = if dist >= threshold {
                    dist - threshold
                } else {
                    0
                };
                if dmt <= node.median {
                    self.search_recursive(result, query, threshold, &node.left);
                } else {
                    proof {
                        assert(result@ =~= mid + ls);
                    }
                }
                let ghost mid2 = result@;
                let mmt = if node.median >= threshold {
                    node.median - threshold
                } else {
                    0
                };
                if dist >= mmt {
                    self.search_recursive(result, query, threshold, &node.right);
                } else {
                    proof {
                        assert(result@ =~= mid2 + rs);
                    }
                }
                proof {
                    assert(search_spec(*node_ref, q, threshold) == here + ls + rs);
                    assert(result@ =~= old(result)@ + (here + ls + rs));
                }
            },
        }
    }

    /// All original indices of corpus strings within `threshold` of
    /// `query`, in depth-first visit order: exactly the corpus
    /// positions whose strings lie within the radius.
    pub fn search(&self, query: &String, threshold: usize) -> (result: Vec<usize>)
        requires
            self.wf(),
        ensures
            result@ == search_spec(self.root, query@, threshold),
            forall|j: usize|
                #[trigger] result@.contains(j) <==> ((j as int) < self.corpus@.len() && edit_dist(
                    query@,
                    self.corpus@[j as int],
                ) <= threshold),
    {
        let mut result: Vec<usize> = Vec::new();
        self.search_recursive(&mut result, query, threshold, &self.root);
        proof {
            assert(Seq::<usize>::empty() + search_spec(self.root, query@, threshold)
                =~= search_spec(self.root, query@, threshold));
            lemma_wf_search_characterization(*self, query@, threshold);
        }
        result
    }
}

proof fn lemma_concat3_contains(x: Seq<usize>, y: Seq<usize>, z: Seq<usize>, e: usize)
    ensures
        (x + y + z).contains(e) <==> x.contains(e) || y.contains(e) || z.contains(e),
{
    let s = x + y + z;
    if x.contains(e) {
        let i = choose|i: int| 0 <= i < x.len() && x[i] == e;
        assert(s[i] == e);
    }
    if y.contains(e) {
        let i = choose|i: int| 0 <= i < y.len() && y[i] == e;
        assert(s[x.len() + i] == e);
    }
    if z.contains(e) {
        let i = choose|i: int| 0 <= i < z.len() && z[i] == e;
        assert(s[x.len() + y.len() + i] == e);
    }
    if s.contains(e) {
        let i = choose|i: int| 0 <= i < s.len() && s[i] == e;
        if i < x.len() {
            assert(x[i] == e);
        } else if i < x.len() + y.len() {
            assert(y[i - x.len()] == e);
        } else {
            assert(z[i - x.len() - y.len()] == e);
        }
    }
}

/// A well-formed subtree's pruned search finds exactly the indices of
/// its entries whose strings lie within the radius of the query:
/// pruning by the triangle inequality loses nothing.
proof fn lemma_search_spec_correct(o: Option<Box<Node>>, q: Seq<char>, t: usize)
    requires
        wf_subtree(o),
    ensures
        forall|j: usize|
            #[trigger] search_spec(o, q, t).contains(j) <==> (exists|k: int|
                0 <= k < subtree_entries(o).len() && (#[trigger] subtree_entries(o)[k]).1 == j
                    && edit_dist(q, subtree_entries(o)[k].0) <= t),
    decreases o,
{
    match o {
        None => {},
        Some(n) => {
            lemma_search_spec_correct(n.left, q, t);
            lemma_search_spec_correct(n.right, q, t);
            let entries = subtree_entries(o);
            let le = subtree_entries(n.left);
            let re = subtree_entries(n.right);
            let d = edit_dist(q, n.data@);
            let here = if d <= t {
                seq![n.idx]
            } else {
                Seq::<usize>::empty()
            };
            let ls = if d <= n.median + t {
                search_spec(n.left, q, t)
            } else {
                Seq::<usize>::empty()
            };
            let rs = if d + t >= n.median {
                search_spec(n.right, q, t)
            } else {
                Seq::<usize>::empty()
            };
            assert(search_spec(o, q, t) == here + ls + rs);
            assert(entries == seq![(n.data@, n.idx)] + le + re);
            assert forall|j: usize| #[trigger] search_spec(o, q, t).contains(j) implies (
            exists|k: int|
                0 <= k < subtree_entries(o).len() && (#[trigger] subtree_entries(o)[k]).1 == j
                    && edit_dist(q, subtree_entries(o)[k].0) <= t) by {
                lemma_concat3_contains(here, ls, rs, j);
                if here.contains(j) {
                    assert(entries[0].1 == j && edit_dist(q, entries[0].0) <= t);
                } else if ls.contains(j) {
                    assert(search_spec(n.left, q, t).contains(j));
                    let k = choose|k: int|
                        0 <= k < le.len() && (#[trigger] le[k]).1 == j && edit_dist(q, le[k].0)
                            <= t;
                    assert(entries[1 + k] == le[k]);
                    assert(entries[1 + k].1 == j && edit_dist(q, entries[1 + k].0) <= t);
                } else {
                    assert(rs.contains(j));
                    assert(search_spec(n.right, q, t).contains(j));
                    let k = choose|k: int|
                        0 <= k < re.len() && (#[trigger] re[k]).1 == j && edit_dist(q, re[k].0)
                            <= t;
                    assert(entries[1 + le.len() + k] == re[k]);
                    assert(entries[1 + le.len() + k].1 == j && edit_dist(
                        q,
                        entries[1 + le.len() + k].0,
                    ) <= t);
                }
            }
            assert forall|j: usize| (exists|k: int|
                0 <= k < subtree_entries(o).len() && (#[trigger] subtree_entries(o)[k]).1 == j
                    && edit_dist(q, subtree_entries(o)[k].0) <= t) implies #[trigger] search_spec(
                o,
                q,
                t,
            ).contains(j) by {
                let k = choose|k: int|
                    0 <= k < entries.len() && (#[trigger] entries[k]).1 == j && edit_dist(
                        q,
                        entries[k].0,
                    ) <= t;
                lemma_concat3_contains(here, ls, rs, j);
                if k == 0 {
                    assert(d <= t);
                    assert(here[0] == j);
                    assert(here.contains(j));
                } else if k <= le.len() {
                    assert(entries[k] == le[k - 1]);
                    if !(d <= n.median + t) {
                        assert(edit_dist(le[k - 1].0, n.data@) <= n.median);
                        lemma_edit_dist_triangle(q, le[k - 1].0, n.data@);
                        assert(false);
                    }
                    assert(0 <= k - 1 < le.len() && le[k - 1].1 == j && edit_dist(
                        q,
                        le[k - 1].0,
                    ) <= t);
                    assert(search_spec(n.left, q, t).contains(j));
                    assert(ls.contains(j));
                } else {
                    let kk = k - 1 - le.len();
                    assert(entries[k] == re[kk]);
                    if !(d + t >= n.median) {
                        assert(edit_dist(re[kk].0, n.data@) > n.median);
                        lemma_edit_dist_triangle(re[kk].0, q, n.data@);
                        lemma_edit_dist_symmetric(q, re[kk].0);
                        assert(false);
                    }
                    assert(0 <= kk < re.len() && re[kk].1 == j && edit_dist(q, re[kk].0) <= t);
                    assert(search_spec(n.right, q, t).contains(j));
                    assert(rs.contains(j));
                }
            }
        },
    }
}

/// Searching a well-formed tree reports exactly the original corpus
/// positions whose strings lie within the radius of the query.
pub proof fn lemma_wf_search_characterization(tree: VPTree, q: Seq<char>, t: usize)
    requires
        tree.wf(),
    ensures
        forall|j: usize|
            #[trigger] search_spec(tree.root, q, t).contains(j) <==> ((j as int)
                < tree.corpus@.len() && edit_dist(q, tree.corpus@[j as int]) <= t),
{
    lemma_search_spec_correct(tree.root, q, t);
    let entries = subtree_entries(tree.root);
    let c = tree.corpus@;
    let ce = corpus_entries(c);
    assert forall|j: usize| #[trigger] search_spec(tree.root, q, t).contains(j) implies ((
    j as int) < c.len() && edit_dist(q, c[j as int]) <= t) by {
        let k = choose|k: int|
            0 <= k < entries.len() && (#[trigger] entries[k]).1 == j && edit_dist(
                q,
                entries[k].0,
            ) <= t;
        let p = entries[k];
        assert(entries.contains(p));
        assert(entries.to_multiset().count(p) > 0);
        assert(ce.to_multiset().count(p) > 0);
        assert(ce.contains(p));
        let i = choose|i: int| 0 <= i < ce.len() && ce[i] == p;
        assert(p == (c[i], i as usize));
        assert(i as usize == j);
        assert(c[j as int] == p.0);
    }
    assert forall|j: usize| ((j as int) < c.len() && edit_dist(q, c[j as int]) <= t)
        implies #[trigger] search_spec(tree.root, q, t).contains(j) by {
        let p = (c[j as int], j);
        assert(ce[j as int] == p);
        assert(ce.contains(p));
        assert(ce.to_multiset().count(p) > 0);
        assert(entries.to_multiset().count(p) > 0);
        assert(entries.contains(p));
        let k = choose|k: int| 0 <= k < entries.len() && entries[k] == p;
        assert((#[trigger] entries[k]).1 == j && edit_dist(q, entries[k].0) <= t);
    }
}

/// A tree built from an empty corpus has an absent root, and every
/// query against it reports nothing.
pub proof fn lemma_empty_corpus_query(tree: VPTree, q: Seq<char>, t: usize)
    requires
        tree.wf(),
        tree.corpus@.len() == 0,
    ensures
        tree.root is None,
        search_spec(tree.root, q, t) == Seq::<usize>::empty(),
{
    assert(corpus_entries(tree.corpus@).len() == 0);
    assert(subtree_entries(tree.root).to_multiset().len() == 0);
    if let Some(n) = tree.root {
        assert(subtree_entries(tree.root).len() >= 1);
        assert(false);
    }
}

/// A query radius no smaller than every pairwise distance in the
/// corpus, measured from any corpus string, reports every original
/// index.
pub proof fn lemma_query_radius_covers_all(tree: VPTree, qi: int, radius: usize)
    requires
        tree.wf(),
        0 <= qi < tree.corpus@.len(),
        forall|a: int, b: int|
            0 <= a < tree.corpus@.len() && 0 <= b < tree.corpus@.len() ==> edit_dist(
                #[trigger] tree.corpus@[a],
                #[trigger] tree.corpus@[b],
            ) <= radius,
    ensures
        forall|j: usize|
            (j as int) < tree.corpus@.len() ==> #[trigger] search_spec(
                tree.root,
                tree.corpus@[qi],
                radius,
            ).contains(j),
{
    lemma_wf_search_characterization(tree, tree.corpus@[qi], radius);
}

/// A query with radius zero reports exactly the positions of corpus
/// strings equal to the target.
pub proof fn lemma_query_radius_zero(tree: VPTree, q: Seq<char>)
    requires
        tree.wf(),
    ensures
        forall|j: usize|
            #[trigger] search_spec(tree.root, q, 0).contains(j) <==> ((j as int)
                < tree.corpus@.len() && tree.corpus@[j as int] == q),
{
    lemma_wf_search_characterization(tree, q, 0);
    assert forall|j: usize|
        #[trigger] search_spec(tree.root, q, 0).contains(j) <==> ((j as int)
            < tree.corpus@.len() && tree.corpus@[j as int] == q) by {
        if (j as int) < tree.corpus@.len() {
            let cj = tree.corpus@[j as int];
            if edit_dist(q, cj) == 0 {
                lemma_edit_dist_zero_implies_eq(q, cj);
            }
            if cj == q {
                lemma_edit_dist_self(q);
            }
        }
    }
}

/// Queries do not change the tree: any two searches of one tree with
/// identical arguments report identical results, since `search` pins
/// its result to `search_spec`, a function of the tree and the
/// arguments alone.
pub proof fn lemma_query_idempotent(
    tree: VPTree,
    q: Seq<char>,
    t: usize,
    r1: Seq<usize>,
    r2: Seq<usize>,
)
    requires
        r1 == search_spec(tree.root, q, t),
        r2 == search_spec(tree.root, q, t),
    ensures
        r1 == r2,
{
}

} // verus!
