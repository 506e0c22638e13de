//! The mathematical model of the idea tree: which sequences of records form
//! a well-shaped tree, and what tag inheritance, meta-idea lookup and the
//! visibility filter mean over that model.
//!
//! An idea's id is its position plus one: the record of id `k` sits at
//! index `k - 1`, and the root always has id 1.

use crate::idea::IdeaData;
use crate::strutil::{contains_seq, is_space_char};
use vstd::prelude::*;

verus! {

/// The id of the root idea, fixed for the life of a tree.
pub const ROOT_ID: i64 = 1;

/// The marker character that opens the name of a meta idea.
pub const META_MARKER: char = '.';

/// `id` names a record of the tree.
pub open spec fn valid_id(s: Seq<IdeaData>, id: i64) -> bool {
    1 <= id <= s.len()
}

/// The record with the given id.
pub open spec fn node(s: Seq<IdeaData>, id: i64) -> IdeaData {
    s[id - 1]
}

/// `q` is a walk along parent links: every element is a valid index, and
/// each element's parent is the element after it.
pub open spec fn is_chain(s: Seq<IdeaData>, q: Seq<int>) -> bool
    decreases q.len(),
{
    if q.len() == 0 {
        true
    } else if q.len() == 1 {
        0 <= q[0] < s.len()
    } else {
        &&& 0 <= q[0] < s.len()
        &&& s[q[0]].parent_id is Some
        &&& s[q[0]].parent_id->0 == q[1] + 1
        &&& is_chain(s, q.drop_first())
    }
}

/// `q` walks from its first element up the parent links to the root index.
pub open spec fn is_root_path(s: Seq<IdeaData>, q: Seq<int>) -> bool {
    is_chain(s, q) && q.len() >= 1 && q.last() == 0
}

/// Some walk along parent links joins index `i` to the root.
pub open spec fn reaches_root(s: Seq<IdeaData>, i: int) -> bool {
    exists|q: Seq<int>| #[trigger] is_root_path(s, q) && q[0] == i
}

/// The walk from index `i` up to the root; unique in a well-formed tree.
pub open spec fn root_path(s: Seq<IdeaData>, i: int) -> Seq<int> {
    choose|q: Seq<int>| #[trigger] is_root_path(s, q) && q[0] == i
}

/// The record at index `i` has id `i + 1`.
pub open spec fn ids_sequential(s: Seq<IdeaData>) -> bool {
    forall|i: int| 0 <= i < s.len() ==> (#[trigger] s[i]).id == i + 1
}

/// The root is the first record and the only one without a parent; every
/// other parent reference names an existing record.
pub open spec fn parents_valid(s: Seq<IdeaData>) -> bool {
    &&& s.len() >= 1
    &&& s[0].parent_id is None
    &&& forall|i: int|
        1 <= i < s.len() ==> (#[trigger] s[i]).parent_id is Some && 1 <= s[i].parent_id->0
            <= s.len()
}

/// Every child list entry names an existing record whose parent is the
/// list's owner.
pub open spec fn children_point_back(s: Seq<IdeaData>) -> bool {
    forall|i: int, k: int|
        0 <= i < s.len() && 0 <= k < s[i].child_ids.len() ==> 1 <= #[trigger] s[i].child_ids[k]
            <= s.len() && s[s[i].child_ids[k] - 1].parent_id == Some((i + 1) as i64)
}

/// Every record but the root appears in its parent's child list.
pub open spec fn parents_list_children(s: Seq<IdeaData>) -> bool {
    forall|c: int|
        1 <= c < s.len() ==> s[(#[trigger] s[c]).parent_id->0 - 1].child_ids.contains(
            (c + 1) as i64,
        )
}

/// No child list names a record twice.
pub open spec fn child_lists_unique(s: Seq<IdeaData>) -> bool {
    forall|i: int, k1: int, k2: int|
        0 <= i < s.len() && 0 <= k1 < k2 < s[i].child_ids.len() ==> #[trigger] s[i].child_ids[k1]
            != #[trigger] s[i].child_ids[k2]
}

/// A usable name: non-empty and carrying no leading or trailing whitespace.
pub open spec fn valid_name(n: Seq<char>) -> bool {
    n.len() > 0 && !is_space_char(n[0]) && !is_space_char(n.last())
}

/// Every record's name is usable.
pub open spec fn names_valid(s: Seq<IdeaData>) -> bool {
    forall|i: int| 0 <= i < s.len() ==> valid_name((#[trigger] s[i]).name)
}

/// No two children of one record share a name.
pub open spec fn sibling_names_unique(s: Seq<IdeaData>) -> bool {
    forall|i: int, k1: int, k2: int|
        0 <= i < s.len() && 0 <= k1 < k2 < s[i].child_ids.len() ==> s[#[trigger] s[i].child_ids[k1]
            - 1].name != s[#[trigger] s[i].child_ids[k2] - 1].name
}

/// Following parent links from any record reaches the root: no cycles.
pub open spec fn acyclic(s: Seq<IdeaData>) -> bool {
    forall|i: int| 0 <= i < s.len() ==> reaches_root(s, i)
}

/// A well-shaped tree. Every mutation of the store preserves this.
pub open spec fn wf(s: Seq<IdeaData>) -> bool {
    &&& s.len() <= i64::MAX
    &&& ids_sequential(s)
    &&& parents_valid(s)
    &&& children_point_back(s)
    &&& parents_list_children(s)
    &&& child_lists_unique(s)
    &&& sibling_names_unique(s)
    &&& names_valid(s)
    &&& acyclic(s)
}

/// A chain stays a chain when cut to a contiguous stretch.
pub proof fn lemma_chain_subrange(s: Seq<IdeaData>, q: Seq<int>, a: int, b: int)
    requires
        is_chain(s, q),
        0 <= a <= b <= q.len(),
    ensures
        is_chain(s, q.subrange(a, b)),
    decreases q.len(), b - a,
{
    if a > 0 {
        assert(q.drop_first().subrange(a - 1, b - 1) =~= q.subrange(a, b));
        lemma_chain_subrange(s, q.drop_first(), a - 1, b - 1);
    } else if b - a >= 2 {
        lemma_chain_subrange(s, q.drop_first(), 0, b - 1);
        assert(q.drop_first().subrange(0, b - 1) =~= q.subrange(0, b).drop_first());
        assert(q.subrange(a, b)[0] == q[0]);
        assert(q.subrange(a, b)[1] == q[1]);
    }
}

/// Two chains joined by one parent link form a chain.
pub proof fn lemma_chain_concat(s: Seq<IdeaData>, a: Seq<int>, b: Seq<int>)
    requires
        is_chain(s, a),
        is_chain(s, b),
        a.len() > 0,
        b.len() > 0,
        s[a.last()].parent_id is Some,
        s[a.last()].parent_id->0 == b[0] + 1,
    ensures
        is_chain(s, a + b),
    decreases a.len(),
{
    if a.len() == 1 {
        assert((a + b).drop_first() =~= b);
        assert((a + b)[0] == a[0]);
        assert((a + b)[1] == b[0]);
    } else {
        lemma_chain_concat(s, a.drop_first(), b);
        assert((a + b).drop_first() =~= a.drop_first() + b);
        assert((a + b)[0] == a[0]);
        assert((a + b)[1] == a[1]);
    }
}

/// A chain is unaffected by changes that keep every element in range and
/// leave the parent of every element with a successor unchanged.
pub proof fn lemma_chain_frame(s1: Seq<IdeaData>, s2: Seq<IdeaData>, q: Seq<int>)
    requires
        is_chain(s1, q),
        forall|k: int| 0 <= k < q.len() ==> 0 <= #[trigger] q[k] < s2.len(),
        forall|k: int|
            0 <= k < q.len() - 1 ==> s2[#[trigger] q[k]].parent_id == s1[q[k]].parent_id,
    ensures
        is_chain(s2, q),
    decreases q.len(),
{
    if q.len() >= 2 {
        lemma_chain_frame(s1, s2, q.drop_first());
    }
}

/// In a tree whose root has no parent, the walk from an index to the root
/// is unique.
pub proof fn lemma_root_path_unique(s: Seq<IdeaData>, q1: Seq<int>, q2: Seq<int>)
    requires
        parents_valid(s),
        ids_sequential(s),
        is_root_path(s, q1),
        is_root_path(s, q2),
        q1[0] == q2[0],
    ensures
        q1 == q2,
    decreases q1.len(),
{
    if q1[0] == 0 {
        // The root has no parent, so neither walk can take a step.
        if q1.len() > 1 {
            assert(s[q1[0]].parent_id is Some);
            assert(false);
        }
        if q2.len() > 1 {
            assert(s[q2[0]].parent_id is Some);
            assert(false);
        }
        assert(q1 =~= q2);
    } else {
        // Both walks must take the one available step.
        assert(q1.len() > 1);
        assert(q2.len() > 1);
        assert(q1[1] == q2[1]);
        lemma_root_path_unique(s, q1.drop_first(), q2.drop_first());
        assert forall|k: int| 0 <= k < q1.len() implies q1[k] == q2[k] by {
            if k > 0 {
                assert(q1.drop_first()[k - 1] == q2.drop_first()[k - 1]);
            }
        }
        assert(q1 =~= q2);
    }
}

/// The walk to the root visits no index twice, so it is no longer than the
/// tree itself.
pub proof fn lemma_root_path_bounded(s: Seq<IdeaData>, q: Seq<int>)
    requires
        parents_valid(s),
        ids_sequential(s),
        is_root_path(s, q),
    ensures
        q.no_duplicates(),
        q.len() <= s.len(),
{
    assert forall|j1: int, j2: int| 0 <= j1 < j2 < q.len() implies q[j1] != q[j2] by {
        if q[j1] == q[j2] {
            let t1 = q.subrange(j1, q.len() as int);
            let t2 = q.subrange(j2, q.len() as int);
            lemma_chain_subrange(s, q, j1, q.len() as int);
            lemma_chain_subrange(s, q, j2, q.len() as int);
            assert(t1.last() == q.last());
            assert(t2.last() == q.last());
            lemma_root_path_unique(s, t1, t2);
            assert(t1.len() == t2.len());
            assert(false);
        }
    }
    q.unique_seq_to_set();
    assert(q.to_set().subset_of(vstd::set_lib::set_int_range(0, s.len() as int))) by {
        assert forall|x: int| q.to_set().contains(x) implies vstd::set_lib::set_int_range(
            0,
            s.len() as int,
        ).contains(x) by {
            let j = choose|j: int| 0 <= j < q.len() && q[j] == x;
            lemma_chain_subrange(s, q, j, q.len() as int);
            assert(q.subrange(j, q.len() as int)[0] == x);
        }
    }
    vstd::set_lib::lemma_int_range(0, s.len() as int);
    vstd::set_lib::lemma_len_subset(q.to_set(), vstd::set_lib::set_int_range(0, s.len() as int));
}

/// In a well-formed tree the chosen `root_path` is a genuine walk to the
/// root, starting at the given index.
pub proof fn lemma_root_path_exists(s: Seq<IdeaData>, i: int)
    requires
        acyclic(s),
        0 <= i < s.len(),
    ensures
        is_root_path(s, root_path(s, i)),
        root_path(s, i)[0] == i,
{
    assert(reaches_root(s, i));
}

/// Stepping to the parent shortens the walk to the root by one.
pub proof fn lemma_root_path_step(s: Seq<IdeaData>, i: int)
    requires
        parents_valid(s),
        ids_sequential(s),
        acyclic(s),
        0 < i < s.len(),
    ensures
        root_path(s, i).len() == root_path(s, s[i].parent_id->0 - 1).len() + 1,
        root_path(s, i).drop_first() == root_path(s, s[i].parent_id->0 - 1),
        root_path(s, i)[0] == i,
    decreases i,
{
    let p = s[i].parent_id->0 - 1;
    lemma_root_path_exists(s, i);
    lemma_root_path_exists(s, p);
    let q = root_path(s, i);
    // The walk from i is one step followed by a walk from p.
    assert(q.len() > 1);
    assert(q[1] == p);
    lemma_chain_subrange(s, q, 1, q.len() as int);
    assert(q.drop_first().last() == q.last());
    assert(is_root_path(s, q.drop_first()));
    lemma_root_path_unique(s, q.drop_first(), root_path(s, p));
}

/// Every element of a chain is a valid index.
pub proof fn lemma_chain_in_range(s: Seq<IdeaData>, q: Seq<int>)
    requires
        is_chain(s, q),
    ensures
        forall|k: int| 0 <= k < q.len() ==> 0 <= #[trigger] q[k] < s.len(),
    decreases q.len(),
{
    if q.len() >= 2 {
        lemma_chain_in_range(s, q.drop_first());
        assert forall|k: int| 0 <= k < q.len() implies 0 <= #[trigger] q[k] < s.len() by {
            if k > 0 {
                assert(q.drop_first()[k - 1] == q[k]);
            }
        }
    }
}

/// Records that keep their parent links keep their walks to the root.
pub proof fn lemma_acyclic_frame(s1: Seq<IdeaData>, s2: Seq<IdeaData>)
    requires
        acyclic(s1),
        s1.len() <= s2.len(),
        forall|i: int| 0 <= i < s1.len() ==> (#[trigger] s2[i]).parent_id == s1[i].parent_id,
    ensures
        forall|i: int| 0 <= i < s1.len() ==> reaches_root(s2, i),
{
    assert forall|i: int| 0 <= i < s1.len() implies reaches_root(s2, i) by {
        assert(reaches_root(s1, i));
        let q = choose|q: Seq<int>| #[trigger] is_root_path(s1, q) && q[0] == i;
        lemma_chain_in_range(s1, q);
        lemma_chain_frame(s1, s2, q);
        assert(is_root_path(s2, q) && q[0] == i);
    }
}

/// A tree stays well-formed when records change only their tags or
/// descriptions.
pub proof fn lemma_update_content_preserves_wf(s1: Seq<IdeaData>, s2: Seq<IdeaData>)
    requires
        wf(s1),
        s1.len() == s2.len(),
        forall|i: int|
            0 <= i < s1.len() ==> (#[trigger] s2[i]).id == s1[i].id && s2[i].name == s1[i].name
                && s2[i].parent_id == s1[i].parent_id && s2[i].child_ids == s1[i].child_ids,
    ensures
        wf(s2),
{
    lemma_acyclic_frame(s1, s2);
}

/// A tree stays well-formed when one record is renamed to a usable name
/// that no sibling carries.
pub proof fn lemma_rename_preserves_wf(s1: Seq<IdeaData>, s2: Seq<IdeaData>, u: int, n: Seq<char>)
    requires
        wf(s1),
        0 <= u < s1.len(),
        s2 == s1.update(u, IdeaData { name: n, ..s1[u] }),
        valid_name(n),
        forall|c: int|
            1 <= c < s1.len() && c != u && (#[trigger] s1[c]).parent_id == s1[u].parent_id
                ==> s1[c].name != n,
    ensures
        wf(s2),
{
    lemma_acyclic_frame(s1, s2);
    assert(sibling_names_unique(s2)) by {
        assert forall|i: int, k1: int, k2: int|
            0 <= i < s2.len() && 0 <= k1 < k2 < s2[i].child_ids.len() implies s2[#[trigger] s2[i].child_ids[k1]
            - 1].name != s2[#[trigger] s2[i].child_ids[k2] - 1].name by {
            let c1 = s2[i].child_ids[k1] - 1;
            let c2 = s2[i].child_ids[k2] - 1;
            assert(s1[i].child_ids[k1] == c1 + 1 && s1[i].child_ids[k2] == c2 + 1);
            assert(1 <= c1 + 1 <= s1.len() && s1[c1].parent_id == Some((i + 1) as i64));
            assert(1 <= c2 + 1 <= s1.len() && s1[c2].parent_id == Some((i + 1) as i64));
            assert(c1 != c2);
            assert(c1 >= 1 && c2 >= 1) by {
                assert(s1[0].parent_id is None);
            }
            if c1 == u {
                assert(s1[c2].name != n);
            } else if c2 == u {
                assert(s1[c1].name != n);
            }
        }
    }
}

/// No record is its own parent in a well-formed tree.
pub proof fn lemma_no_self_parent(s: Seq<IdeaData>, c: int)
    requires
        wf(s),
        1 <= c < s.len(),
    ensures
        s[c].parent_id->0 != c + 1,
{
    if s[c].parent_id->0 == c + 1 {
        lemma_root_path_exists(s, c);
        let q = root_path(s, c);
        assert(q.len() > 1);
        assert(q[1] == c);
        lemma_chain_subrange(s, q, 1, q.len() as int);
        assert(q.drop_first().last() == q.last());
        lemma_root_path_unique(s, q, q.drop_first());
        assert(false);
    }
}

/// The first position of `x` in `q`.
pub open spec fn first_index_of(q: Seq<int>, x: int) -> int
    decreases q.len(),
{
    if q.len() == 0 {
        0
    } else if q[0] == x {
        0
    } else {
        1 + first_index_of(q.drop_first(), x)
    }
}

pub proof fn lemma_first_index_of(q: Seq<int>, x: int)
    requires
        q.contains(x),
    ensures
        0 <= first_index_of(q, x) < q.len(),
        q[first_index_of(q, x)] == x,
        forall|j: int| 0 <= j < first_index_of(q, x) ==> q[j] != x,
    decreases q.len(),
{
    if q[0] != x {
        assert(q.drop_first().contains(x)) by {
            let w = choose|w: int| 0 <= w < q.len() && q[w] == x;
            assert(q.drop_first()[w - 1] == x);
        }
        lemma_first_index_of(q.drop_first(), x);
        assert forall|j: int| 0 <= j < first_index_of(q, x) implies q[j] != x by {
            if j > 0 {
                assert(q.drop_first()[j - 1] == q[j]);
            }
        }
    }
}

/// Appending a fresh record under an existing parent, with a name no other
/// child of that parent carries, keeps the tree well-formed.
pub proof fn lemma_create_preserves_wf(s1: Seq<IdeaData>, s2: Seq<IdeaData>, p: int, d: IdeaData)
    requires
        wf(s1),
        0 <= p < s1.len(),
        s1.len() + 1 <= i64::MAX,
        d.id == s1.len() + 1,
        d.parent_id == Some((p + 1) as i64),
        d.child_ids.len() == 0,
        valid_name(d.name),
        !has_child_named(s1, p, d.name),
        s2 == s1.update(
            p,
            IdeaData { child_ids: s1[p].child_ids.push(d.id), ..s1[p] },
        ).push(d),
    ensures
        wf(s2),
{
    let newi = s1.len() as int;
    assert(children_point_back(s2)) by {
        assert forall|i: int, k: int|
            0 <= i < s2.len() && 0 <= k < s2[i].child_ids.len() implies 1
            <= #[trigger] s2[i].child_ids[k] <= s2.len() && s2[s2[i].child_ids[k] - 1].parent_id
            == Some((i + 1) as i64) by {
            if i == p && k == s2[p].child_ids.len() - 1 {
                assert(s2[i].child_ids[k] == d.id);
            } else if i < newi {
                assert(s1[i].child_ids[k] == s2[i].child_ids[k]);
            }
        }
    }
    assert(parents_list_children(s2)) by {
        assert forall|c: int| 1 <= c < s2.len() implies s2[(#[trigger] s2[c]).parent_id->0
            - 1].child_ids.contains((c + 1) as i64) by {
            if c < newi {
                let q = s1[c].parent_id->0 - 1;
                assert(s1[q].child_ids.contains((c + 1) as i64));
                let k = choose|k: int|
                    0 <= k < s1[q].child_ids.len() && s1[q].child_ids[k] == (c + 1) as i64;
                assert(s2[q].child_ids[k] == (c + 1) as i64);
            } else {
                assert(s2[p].child_ids.last() == (c + 1) as i64);
            }
        }
    }
    assert(child_lists_unique(s2)) by {
        assert forall|i: int, k1: int, k2: int|
            0 <= i < s2.len() && 0 <= k1 < k2 < s2[i].child_ids.len() implies #[trigger] s2[i].child_ids[k1]
            != #[trigger] s2[i].child_ids[k2] by {
            if i == p && k2 == s2[p].child_ids.len() - 1 {
                assert(s2[i].child_ids[k1] == s1[i].child_ids[k1]);
                assert(1 <= s1[i].child_ids[k1] <= s1.len());
            } else if i < newi {
                assert(s1[i].child_ids[k1] == s2[i].child_ids[k1]);
                assert(s1[i].child_ids[k2] == s2[i].child_ids[k2]);
            }
        }
    }
    assert(sibling_names_unique(s2)) by {
        assert forall|i: int, k1: int, k2: int|
            0 <= i < s2.len() && 0 <= k1 < k2 < s2[i].child_ids.len() implies s2[#[trigger] s2[i].child_ids[k1]
            - 1].name != s2[#[trigger] s2[i].child_ids[k2] - 1].name by {
            if i == p && k2 == s2[p].child_ids.len() - 1 {
                let c1 = s2[i].child_ids[k1];
                assert(c1 == s1[i].child_ids[k1]);
                assert(1 <= c1 <= s1.len());
                assert(s2[c1 - 1].name == s1[c1 - 1].name);
                if s1[c1 - 1].name == d.name {
                    assert(has_child_named(s1, p, d.name));
                }
            } else if i < newi {
                let c1 = s1[i].child_ids[k1];
                let c2 = s1[i].child_ids[k2];
                assert(s2[c1 - 1].name == s1[c1 - 1].name);
                assert(s2[c2 - 1].name == s1[c2 - 1].name);
            }
        }
    }
    assert(acyclic(s2)) by {
        lemma_acyclic_frame(s1, s2);
        lemma_root_path_exists(s1, p);
        let q = root_path(s1, p);
        lemma_chain_in_range(s1, q);
        lemma_chain_frame(s1, s2, q);
        lemma_chain_concat(s2, seq![newi], q);
        assert(seq![newi] + q =~= seq![newi].push(p) + q.drop_first());
        assert(is_root_path(s2, seq![newi] + q) && (seq![newi] + q)[0] == newi) by {
            assert((seq![newi] + q).last() == q.last());
        }
        assert forall|i: int| 0 <= i < s2.len() implies reaches_root(s2, i) by {
            if i < newi {
                assert(reaches_root(s2, i));
            }
        }
    }
}

/// The tree after `child` moves under `parent`: the child leaves its old
/// parent's list, joins the new parent's list, and points at the new
/// parent. Meaningful when both ids are valid and the child is not the
/// root.
pub open spec fn move_result(s: Seq<IdeaData>, child: i64, parent: i64) -> Seq<IdeaData> {
    let c = child - 1;
    let np = parent - 1;
    let op = s[c].parent_id->0 - 1;
    let j = choose|j: int| 0 <= j < s[op].child_ids.len() && s[op].child_ids[j] == child;
    s.update(op, IdeaData { child_ids: s[op].child_ids.remove(j), ..s[op] }).update(
        np,
        IdeaData { child_ids: s[np].child_ids.push(child), ..s[np] },
    ).update(c, IdeaData { parent_id: Some(parent), ..s[c] })
}

/// Moving a record under a new parent that is outside the record's own
/// subtree, when no child of the new parent carries the record's name,
/// keeps the tree well-formed.
#[verifier::rlimit(60)]
pub proof fn lemma_move_preserves_wf(s1: Seq<IdeaData>, s2: Seq<IdeaData>, child: i64, parent: i64)
    requires
        wf(s1),
        valid_id(s1, child),
        valid_id(s1, parent),
        child != 1,
        !has_child_named(s1, parent - 1, s1[child - 1].name),
        !root_path(s1, parent - 1).contains(child - 1),
        s2 == move_result(s1, child, parent),
    ensures
        wf(s2),
{
    let c = child - 1;
    let np = parent - 1;
    let op = s1[c].parent_id->0 - 1;
    let ol = s1[op].child_ids;
    let j = choose|j: int| 0 <= j < ol.len() && ol[j] == child;
    assert(ol.contains(child));
    assert(0 <= j < ol.len() && ol[j] == child);
    lemma_no_self_parent(s1, c);
    assert(op != c);
    // The new parent is on its own walk to the root, so it is not the child.
    lemma_root_path_exists(s1, np);
    let pp = root_path(s1, np);
    assert(pp.contains(pp[0]));
    assert(np != c);
    // The child sits in its old parent's list, so if the old and new parent
    // were one, the name scan would have found the child itself.
    assert(op != np) by {
        if op == np {
            assert(has_child_named(s1, np, s1[c].name));
        }
    }
    let rl = ol.remove(j);
    // What the removed list holds: everything but the child, in order.
    assert(forall|k: int| 0 <= k < j ==> rl[k] == ol[k]);
    assert(forall|k: int| j <= k < rl.len() ==> rl[k] == ol[k + 1]);
    assert(s2.len() == s1.len());
    assert(s2[op].child_ids == rl);
    assert(s2[np].child_ids == s1[np].child_ids.push(child));
    assert(s2[c].parent_id == Some(parent));
    // The child is not among the new parent's old children.
    assert(forall|k: int|
        0 <= k < s1[np].child_ids.len() ==> #[trigger] s1[np].child_ids[k] != child) by {
        if exists|k: int|
            0 <= k < s1[np].child_ids.len() && #[trigger] s1[np].child_ids[k] == child {
            let k = choose|k: int|
                0 <= k < s1[np].child_ids.len() && #[trigger] s1[np].child_ids[k] == child;
            assert(s1[c].parent_id == Some((np + 1) as i64));
            assert(op == np);
            assert(false);
        }
    }
    assert(children_point_back(s2)) by {
        assert forall|i: int, k: int|
            0 <= i < s2.len() && 0 <= k < s2[i].child_ids.len() implies 1
            <= #[trigger] s2[i].child_ids[k] <= s2.len() && s2[s2[i].child_ids[k] - 1].parent_id
            == Some((i + 1) as i64) by {
            if i == op {
                let x = rl[k];
                assert(x == ol[k] || x == ol[k + 1]);
                assert(x != child);
                assert(s1[x - 1].parent_id == Some((op + 1) as i64));
                assert(s2[x - 1].parent_id == s1[x - 1].parent_id);
            } else if i == np {
                if k < s1[np].child_ids.len() {
                    let x = s1[np].child_ids[k];
                    assert(x != child);
                    assert(s1[x - 1].parent_id == Some((np + 1) as i64));
                } else {
                    assert(s2[i].child_ids[k] == child);
                }
            } else {
                let x = s1[i].child_ids[k];
                assert(s2[i].child_ids[k] == x);
                assert(s1[x - 1].parent_id == Some((i + 1) as i64));
                assert(x - 1 != c) by {
                    if x - 1 == c {
                        assert(op == i);
                    }
                }
            }
        }
    }
    assert(parents_list_children(s2)) by {
        assert forall|x: int| 1 <= x < s2.len() implies s2[(#[trigger] s2[x]).parent_id->0
            - 1].child_ids.contains((x + 1) as i64) by {
            if x == c {
                assert(s2[np].child_ids.last() == child);
            } else {
                let q = s1[x].parent_id->0 - 1;
                assert(s2[x].parent_id == s1[x].parent_id);
                assert(s1[q].child_ids.contains((x + 1) as i64));
                let k = choose|k: int|
                    0 <= k < s1[q].child_ids.len() && s1[q].child_ids[k] == (x + 1) as i64;
                if q == op {
                    // The child list lost one entry; every other entry stays.
                    assert(ol[k] == (x + 1) as i64);
                    assert(k != j);
                    if k < j {
                        assert(rl[k] == ol[k]);
                        assert(s2[q].child_ids.contains((x + 1) as i64));
                    } else {
                        assert(rl[k - 1] == ol[k]);
                        assert(s2[q].child_ids.contains((x + 1) as i64));
                    }
                } else if q == np {
                    assert(s2[q].child_ids[k] == (x + 1) as i64);
                    assert(s2[q].child_ids.contains((x + 1) as i64));
                } else {
                    assert(s2[q].child_ids[k] == (x + 1) as i64);
                    assert(s2[q].child_ids.contains((x + 1) as i64));
                }
            }
        }
    }
    assert(child_lists_unique(s2)) by {
        assert forall|i: int, k1: int, k2: int|
            0 <= i < s2.len() && 0 <= k1 < k2 < s2[i].child_ids.len() implies #[trigger] s2[i].child_ids[k1]
            != #[trigger] s2[i].child_ids[k2] by {
            if i == op {
                assert(rl[k1] == ol[k1] || rl[k1] == ol[k1 + 1]);
                assert(rl[k2] == ol[k2] || rl[k2] == ol[k2 + 1]);
            } else if i == np {
                let nl = s1[np].child_ids;
                if k2 == s2[i].child_ids.len() - 1 {
                    assert(s2[i].child_ids[k1] == nl[k1]);
                    assert(nl[k1] != child);
                    assert(s2[i].child_ids[k2] == child);
                } else {
                    assert(s2[i].child_ids[k1] == nl[k1]);
                    assert(s2[i].child_ids[k2] == nl[k2]);
                }
            } else {
                assert(s2[i].child_ids == s1[i].child_ids);
            }
        }
    }
    assert(sibling_names_unique(s2)) by {
        assert(forall|x: int| 0 <= x < s2.len() ==> (#[trigger] s2[x]).name == s1[x].name);
        assert forall|i: int, k1: int, k2: int|
            0 <= i < s2.len() && 0 <= k1 < k2 < s2[i].child_ids.len() implies s2[#[trigger] s2[i].child_ids[k1]
            - 1].name != s2[#[trigger] s2[i].child_ids[k2] - 1].name by {
            if i == op {
                assert(rl[k1] == ol[k1] || rl[k1] == ol[k1 + 1]);
                assert(rl[k2] == ol[k2] || rl[k2] == ol[k2 + 1]);
                assert(1 <= rl[k1] <= s1.len());
                assert(1 <= rl[k2] <= s1.len());
            } else if i == np {
                let nl = s1[np].child_ids;
                if k2 == s2[i].child_ids.len() - 1 {
                    let x = nl[k1];
                    assert(1 <= x <= s1.len());
                    if s1[x - 1].name == s1[c].name {
                        assert(has_child_named(s1, np, s1[c].name));
                    }
                } else {
                    assert(1 <= nl[k1] <= s1.len());
                    assert(1 <= nl[k2] <= s1.len());
                }
            } else {
                let l = s1[i].child_ids;
                assert(1 <= l[k1] <= s1.len());
                assert(1 <= l[k2] <= s1.len());
            }
        }
    }
    assert(acyclic(s2)) by {
        lemma_chain_in_range(s1, pp);
        assert(forall|k: int| 0 <= k < pp.len() ==> #[trigger] pp[k] != c);
        assert forall|k: int| 0 <= k < pp.len() - 1 implies s2[#[trigger] pp[k]].parent_id
            == s1[pp[k]].parent_id by {}
        lemma_chain_frame(s1, s2, pp);
        assert forall|x: int| 0 <= x < s2.len() implies reaches_root(s2, x) by {
            lemma_root_path_exists(s1, x);
            let q = root_path(s1, x);
            lemma_chain_in_range(s1, q);
            if q.contains(c) {
                let j0 = first_index_of(q, c);
                lemma_first_index_of(q, c);
                let a = q.subrange(0, j0 + 1);
                lemma_chain_subrange(s1, q, 0, j0 + 1);
                assert forall|k: int| 0 <= k < a.len() - 1 implies s2[#[trigger] a[k]].parent_id
                    == s1[a[k]].parent_id by {
                    assert(a[k] == q[k]);
                    assert(q[k] != c);
                }
                lemma_chain_frame(s1, s2, a);
                assert(a.last() == c);
                lemma_chain_concat(s2, a, pp);
                let w = a + pp;
                assert(w.last() == pp.last());
                assert(is_root_path(s2, w) && w[0] == x);
            } else {
                lemma_chain_frame(s1, s2, q);
                assert(is_root_path(s2, q) && q[0] == x);
            }
        }
    }
}

/// Every entry of a filtered id list is an entry of the raw list.
pub proof fn lemma_filter_element_from(l: Seq<i64>, pred: spec_fn(i64) -> bool, i: int)
    requires
        0 <= i < l.filter(pred).len(),
    ensures
        l.contains(l.filter(pred)[i]),
    decreases l.len(),
{
    reveal(Seq::filter);
    if l.len() > 0 {
        if pred(l.last()) && i == l.filter(pred).len() - 1 {
            assert(l[l.len() - 1] == l.filter(pred)[i]);
        } else {
            lemma_filter_element_from(l.drop_last(), pred, i);
            let x = l.drop_last().filter(pred)[i];
            let k = choose|k: int| 0 <= k < l.drop_last().len() && l.drop_last()[k] == x;
            assert(l[k] == x);
        }
    }
}

/// The tags of every record along the walk `q`, as one set.
pub open spec fn chain_tag_set(s: Seq<IdeaData>, q: Seq<int>) -> Set<Seq<char>>
    decreases q.len(),
{
    if q.len() == 0 {
        Set::empty()
    } else {
        s[q[0]].tags.to_set() + chain_tag_set(s, q.drop_first())
    }
}

/// The tags a record inherits: its own and all of its ancestors', as a set.
pub open spec fn inherited_tag_set(s: Seq<IdeaData>, id: i64) -> Set<Seq<char>> {
    chain_tag_set(s, root_path(s, id - 1))
}

/// The record at index `i` has a direct child with the given name.
pub open spec fn has_child_named(s: Seq<IdeaData>, i: int, name: Seq<char>) -> bool {
    exists|k: int|
        0 <= k < s[i].child_ids.len() && s[#[trigger] s[i].child_ids[k] - 1].name == name
}

/// The id of the direct child with the given name; meaningful only when
/// `has_child_named` holds, and then unique by sibling name uniqueness.
pub open spec fn child_named(s: Seq<IdeaData>, i: int, name: Seq<char>) -> i64 {
    s[i].child_ids[choose|k: int|
        0 <= k < s[i].child_ids.len() && s[#[trigger] s[i].child_ids[k] - 1].name == name]
}

/// The record at index `i` has a direct child with the given name, other
/// than the child with id `exclude`.
pub open spec fn child_named_other_than(
    s: Seq<IdeaData>,
    i: int,
    n: Seq<char>,
    exclude: i64,
) -> bool {
    exists|k: int|
        0 <= k < s[i].child_ids.len() && #[trigger] s[i].child_ids[k] != exclude && s[s[i].child_ids[k]
            - 1].name == n
}

/// Some sibling of `id` (another child of the same parent) carries the
/// name `n`. The root has no siblings, so this never holds for it.
pub open spec fn sibling_has_name(s: Seq<IdeaData>, id: i64, n: Seq<char>) -> bool {
    exists|c: int|
        1 <= c < s.len() && c != id - 1 && (#[trigger] s[c]).parent_id == node(s, id).parent_id
            && s[c].name == n
}

/// In a well-formed tree, scanning the parent's child list for a name,
/// skipping the record itself, finds the same matches as scanning every
/// record with the same parent.
pub proof fn lemma_sibling_scan(s: Seq<IdeaData>, id: i64, n: Seq<char>)
    requires
        wf(s),
        valid_id(s, id),
        node(s, id).parent_id is Some,
    ensures
        sibling_has_name(s, id, n) == child_named_other_than(
            s,
            node(s, id).parent_id->0 - 1,
            n,
            id,
        ),
{
    let p = node(s, id).parent_id->0 - 1;
    assert(0 <= p < s.len());
    if child_named_other_than(s, p, n, id) {
        let k = choose|k: int|
            0 <= k < s[p].child_ids.len() && #[trigger] s[p].child_ids[k] != id && s[s[p].child_ids[k]
                - 1].name == n;
        let c = s[p].child_ids[k] - 1;
        assert(s[c].parent_id == Some((p + 1) as i64));
        assert(c >= 1) by {
            assert(s[0].parent_id is None);
        }
        assert(1 <= c < s.len() && c != id - 1 && s[c].parent_id == node(s, id).parent_id && s[c].name
            == n);
    }
    if sibling_has_name(s, id, n) {
        let c = choose|c: int|
            1 <= c < s.len() && c != id - 1 && (#[trigger] s[c]).parent_id == node(s, id).parent_id
                && s[c].name == n;
        assert(s[p].child_ids.contains((c + 1) as i64));
        let k = choose|k: int| 0 <= k < s[p].child_ids.len() && s[p].child_ids[k] == (c + 1) as i64;
        assert(s[p].child_ids[k] != id && s[s[p].child_ids[k] - 1].name == n);
    }
}

/// In a well-formed tree, a scan that excludes no real id decides
/// `has_child_named`.
pub proof fn lemma_child_scan(s: Seq<IdeaData>, i: int, n: Seq<char>)
    requires
        wf(s),
        0 <= i < s.len(),
    ensures
        has_child_named(s, i, n) == child_named_other_than(s, i, n, 0),
{
    if has_child_named(s, i, n) {
        let k = choose|k: int|
            0 <= k < s[i].child_ids.len() && s[#[trigger] s[i].child_ids[k] - 1].name == n;
        assert(s[i].child_ids[k] != 0);
        assert(child_named_other_than(s, i, n, 0));
    }
}

/// The first record along the walk `q` that has a direct child with the
/// given name resolves the lookup; the walk ending without a match is not
/// an error, only an absence.
pub open spec fn resolve_on_chain(s: Seq<IdeaData>, q: Seq<int>, name: Seq<char>) -> Option<i64>
    decreases q.len(),
{
    if q.len() == 0 {
        None
    } else if has_child_named(s, q[0], name) {
        Some(child_named(s, q[0], name))
    } else {
        resolve_on_chain(s, q.drop_first(), name)
    }
}

/// The meta idea of the given full name (marker included) in effect at
/// `id`: the nearest one on the walk from `id` to the root.
pub open spec fn meta_idea_of(s: Seq<IdeaData>, id: i64, name: Seq<char>) -> Option<i64> {
    resolve_on_chain(s, root_path(s, id - 1), name)
}

/// The tags of the meta idea of the given full name in effect at `id`, or
/// no tags when no ancestor carries one.
pub open spec fn meta_tags_of(s: Seq<IdeaData>, id: i64, name: Seq<char>) -> Seq<Seq<char>> {
    match meta_idea_of(s, id, name) {
        Some(m) => node(s, m).tags,
        None => Seq::empty(),
    }
}

/// The ignore set in effect at `id`: the tags of its nearest `.ignore`
/// meta idea.
pub open spec fn ignore_set_of(s: Seq<IdeaData>, id: i64) -> Set<Seq<char>> {
    meta_tags_of(s, id, ".ignore"@).to_set()
}

/// A child hidden from plain listings: a meta idea, or a child one of
/// whose own tags is in the ignore set in effect at the parent.
pub open spec fn hidden_child(s: Seq<IdeaData>, c: i64, ignore: Set<Seq<char>>) -> bool {
    node(s, c).name[0] == META_MARKER || exists|t: Seq<char>|
        #[trigger] node(s, c).tags.contains(t) && ignore.contains(t)
}

/// The children of `id` that plain listings show, in insertion order.
pub open spec fn visible_children_of(s: Seq<IdeaData>, id: i64) -> Seq<i64> {
    node(s, id).child_ids.filter(|c: i64| !hidden_child(s, c, ignore_set_of(s, id)))
}

/// The children of `id` whose names contain `hint`, hidden ones included.
pub open spec fn hint_matches(s: Seq<IdeaData>, id: i64, hint: Seq<char>) -> Seq<i64> {
    node(s, id).child_ids.filter(|c: i64| contains_seq(node(s, c).name, hint))
}

/// A record whose name, description or some tag contains the hint.
pub open spec fn idea_matches_hint(d: IdeaData, hint: Seq<char>) -> bool {
    ||| contains_seq(d.name, hint)
    ||| contains_seq(d.description, hint)
    ||| exists|t: Seq<char>| #[trigger] d.tags.contains(t) && contains_seq(t, hint)
}

/// What inheritance unions: an idea below the root inherits its own tags
/// joined with everything its parent inherits, and the root inherits only
/// its own.
pub proof fn lemma_inherited_tags(s: Seq<IdeaData>, id: i64)
    requires
        wf(s),
        valid_id(s, id),
    ensures
        node(s, id).parent_id is Some ==> inherited_tag_set(s, id) == node(s, id).tags.to_set()
            + inherited_tag_set(s, node(s, id).parent_id->0),
        node(s, id).parent_id is None ==> inherited_tag_set(s, id) == node(s, id).tags.to_set(),
{
    lemma_root_path_exists(s, id - 1);
    let q = root_path(s, id - 1);
    if node(s, id).parent_id is Some {
        lemma_root_path_step(s, id - 1);
        assert(q.drop_first() == root_path(s, node(s, id).parent_id->0 - 1));
    } else {
        assert(id == 1) by {
            if id - 1 >= 1 {
                assert(s[id - 1].parent_id is Some);
            }
        }
        assert(is_chain(s, seq![0int]));
        assert(is_root_path(s, seq![0int]));
        lemma_root_path_unique(s, q, seq![0int]);
        assert(q.drop_first() =~= Seq::<int>::empty());
        assert(chain_tag_set(s, Seq::<int>::empty()) =~= Set::<Seq<char>>::empty());
        assert(inherited_tag_set(s, id) =~= node(s, id).tags.to_set());
    }
}

/// Meta-idea lookup walks outward and the nearest ancestor wins: an idea
/// with its own child of the given name resolves to that child, shadowing
/// whatever an ancestor carries; one without resolves exactly as its
/// parent does; and at the root, absence resolves to nothing rather than
/// an error.
pub proof fn lemma_meta_shadowing(s: Seq<IdeaData>, id: i64, name: Seq<char>)
    requires
        wf(s),
        valid_id(s, id),
    ensures
        has_child_named(s, id - 1, name) ==> meta_idea_of(s, id, name) == Some(
            child_named(s, id - 1, name),
        ),
        !has_child_named(s, id - 1, name) && node(s, id).parent_id is Some ==> meta_idea_of(
            s,
            id,
            name,
        ) == meta_idea_of(s, node(s, id).parent_id->0, name),
        !has_child_named(s, id - 1, name) && node(s, id).parent_id is None ==> meta_idea_of(
            s,
            id,
            name,
        ) is None,
{
    lemma_root_path_exists(s, id - 1);
    let q = root_path(s, id - 1);
    if !has_child_named(s, id - 1, name) {
        if node(s, id).parent_id is Some {
            lemma_root_path_step(s, id - 1);
            assert(q.drop_first() == root_path(s, node(s, id).parent_id->0 - 1));
        } else {
            assert(id == 1) by {
                if id - 1 >= 1 {
                    assert(s[id - 1].parent_id is Some);
                }
            }
            assert(is_chain(s, seq![0int]));
            assert(is_root_path(s, seq![0int]));
            lemma_root_path_unique(s, q, seq![0int]);
            assert(q.drop_first() =~= Seq::<int>::empty());
            assert(resolve_on_chain(s, Seq::<int>::empty(), name) is None);
        }
    }
}

/// The tags a meta-idea lookup returns are the resolved meta idea's own.
pub proof fn lemma_meta_tags(s: Seq<IdeaData>, id: i64, name: Seq<char>)
    requires
        wf(s),
        valid_id(s, id),
    ensures
        meta_idea_of(s, id, name) is Some ==> meta_tags_of(s, id, name) == node(
            s,
            meta_idea_of(s, id, name)->0,
        ).tags,
        meta_idea_of(s, id, name) is None ==> meta_tags_of(s, id, name) == Seq::<Seq<char>>::empty(),
{
}

/// What the visibility filter promises of each child: a meta idea (name
/// opening with the marker) never shows; a child one of whose own tags is
/// in the ignore set in effect at the parent never shows; every other
/// child shows. The raw child list keeps them all.
pub proof fn lemma_visibility(s: Seq<IdeaData>, p: i64, c: i64)
    requires
        wf(s),
        valid_id(s, p),
        node(s, p).child_ids.contains(c),
    ensures
        node(s, c).name[0] == META_MARKER ==> !visible_children_of(s, p).contains(c),
        (exists|t: Seq<char>| #[trigger] node(s, c).tags.contains(t) && ignore_set_of(s, p).contains(t))
            ==> !visible_children_of(s, p).contains(c),
        !hidden_child(s, c, ignore_set_of(s, p)) ==> visible_children_of(s, p).contains(c),
    decreases 0int,
{
    let l = node(s, p).child_ids;
    let pred = |x: i64| !hidden_child(s, x, ignore_set_of(s, p));
    let vis = visible_children_of(s, p);
    if hidden_child(s, c, ignore_set_of(s, p)) && vis.contains(c) {
        let i = choose|i: int| 0 <= i < vis.len() && vis[i] == c;
        Seq::lemma_filter_pred(l, pred, i);
        assert(false);
    }
    if !hidden_child(s, c, ignore_set_of(s, p)) {
        let k = choose|k: int| 0 <= k < l.len() && l[k] == c;
        Seq::lemma_filter_contains(l, pred, k);
    }
}

} // verus!
