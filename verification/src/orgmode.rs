//! Rendering a subtree as an org-mode outline: one heading per idea, a
//! star per level, tags upper-cased before the name, the description as
//! body text, and every child rendered below, depth first.

use crate::error::Error;
use crate::idea::IdeaData;
use crate::model::{
    lemma_root_path_bounded, lemma_root_path_exists, lemma_root_path_step, node, root_path,
    valid_id, wf,
};
use crate::strutil::upper_char;
use crate::tree::IdeaTree;
use vstd::prelude::*;
use vstd::string::{StrSliceExecFns, StringExecFns};

verus! {

/// A row of `depth` stars.
pub open spec fn stars(depth: nat) -> Seq<char>
    decreases depth,
{
    if depth == 0 {
        Seq::empty()
    } else {
        stars((depth - 1) as nat).push('*')
    }
}

/// Every tag upper-cased and followed by one space, in order.
pub open spec fn tags_upper(tags: Seq<Seq<char>>) -> Seq<char>
    decreases tags.len(),
{
    if tags.len() == 0 {
        Seq::empty()
    } else {
        tags_upper(tags.drop_last()) + tags.last().map_values(|c: char| upper_char(c)) + " "@
    }
}

/// How deep under the root the record at `id` stands; the measure that
/// shrinks as rendering descends.
pub open spec fn remaining_depth(s: Seq<IdeaData>, id: i64) -> int {
    s.len() - root_path(s, id - 1).len()
}

/// The org-mode text of the subtree rooted at `id`, rendered at the given
/// heading depth.
pub open spec fn org_string_spec(s: Seq<IdeaData>, id: i64, depth: nat) -> Seq<char>
    decreases remaining_depth(s, id), 1int, 0int,
        when wf(s) && valid_id(s, id)
    via org_string_spec_decreases
{
    stars(depth) + " "@ + tags_upper(node(s, id).tags) + node(s, id).name + "\n"@ + (if node(
        s,
        id,
    ).description.len() > 0 {
        "\n"@ + node(s, id).description + "\n\n"@
    } else {
        Seq::empty()
    }) + org_children_spec(s, id, 0, depth)
}

/// The org-mode text of the children of `id` from position `k` on.
pub open spec fn org_children_spec(s: Seq<IdeaData>, id: i64, k: int, depth: nat) -> Seq<char>
    decreases remaining_depth(s, id), 0int, node(s, id).child_ids.len() - k,
        when wf(s) && valid_id(s, id) && 0 <= k <= node(s, id).child_ids.len()
    via org_children_spec_decreases
{
    if k >= node(s, id).child_ids.len() {
        Seq::empty()
    } else {
        org_string_spec(s, node(s, id).child_ids[k], (depth + 1) as nat) + org_children_spec(
            s,
            id,
            k + 1,
            depth,
        )
    }
}

#[via_fn]
proof fn org_string_spec_decreases(s: Seq<IdeaData>, id: i64, depth: nat) {
    lemma_root_path_exists(s, id - 1);
}

#[via_fn]
proof fn org_children_spec_decreases(s: Seq<IdeaData>, id: i64, k: int, depth: nat) {
    if k < node(s, id).child_ids.len() {
        let c = node(s, id).child_ids[k];
        assert(1 <= c <= s.len());
        lemma_child_goes_deeper(s, id, c);
    }
}

/// A child stands one step deeper than its parent, and no record deeper
/// than the tree is tall.
proof fn lemma_child_goes_deeper(s: Seq<IdeaData>, id: i64, c: i64)
    requires
        wf(s),
        valid_id(s, id),
        valid_id(s, c),
        node(s, c).parent_id == Some(id),
    ensures
        0 <= remaining_depth(s, c) < remaining_depth(s, id),
{
    lemma_root_path_exists(s, id - 1);
    lemma_root_path_exists(s, c - 1);
    assert(c != 1) by {
        if c == 1 {
            assert(s[0].parent_id is None);
        }
    }
    lemma_root_path_step(s, c - 1);
    lemma_root_path_bounded(s, root_path(s, c - 1));
}

impl IdeaTree {
    /// The org-mode rendering of the subtree rooted at `id`, as text for a
    /// `.org` export.
    pub fn org_string(&self, id: i64) -> (r: Result<String, Error>)
        requires
            wf(self@),
        ensures
            match r {
                Ok(text) => valid_id(self@, id) && text@ == org_string_spec(self@, id, 1),
                Err(e) => e == Error::NotFound && !valid_id(self@, id),
            },
    {
        let count = self.idea_count();
        if id < 1 || id > count {
            return Err(Error::NotFound);
        }
        proof {
            lemma_root_path_exists(self@, id - 1);
            lemma_root_path_bounded(self@, root_path(self@, id - 1));
        }
        Ok(self.org_string_rec(id, 1u64))
    }

    /// Renders one subtree at the given depth.
    fn org_string_rec(&self, id: i64, depth: u64) -> (r: String)
        requires
            wf(self@),
            valid_id(self@, id),
            depth <= root_path(self@, id - 1).len(),
        ensures
            r@ == org_string_spec(self@, id, depth as nat),
        decreases remaining_depth(self@, id),
    {
        let ghost s = self@;
        proof {
            lemma_root_path_exists(s, id - 1);
            lemma_root_path_bounded(s, root_path(s, id - 1));
        }
        let idea = match self.get_idea(id) {
            Ok(idea) => idea,
            Err(_) => {
                proof {
                    assert(false);
                }
                return String::new();
            },
        };
        let mut text = String::new();
        let mut i: u64 = 0;
        while i < depth
            invariant
                0 <= i <= depth,
                text@ == stars(i as nat),
            decreases depth - i,
        {
            text.push('*');
            i = i + 1;
        }
        text.append(" ");
        // Tags, upper-cased, each followed by a space.
        let ghost tags = node(s, id).tags;
        let tn = idea.tags.len();
        let mut t: usize = 0;
        proof {
            crate::idea::lemma_string_vec_deep_view(&idea.tags);
            assert(tags.take(0) =~= Seq::<Seq<char>>::empty());
            assert(text@ == stars(depth as nat) + " "@ + tags_upper(tags.take(0)));
        }
        while t < tn
            invariant
                0 <= t <= tn,
                tn == idea.tags@.len(),
                idea.tags.deep_view() == node(s, id).tags,
                tags == node(s, id).tags,
                text@ == stars(depth as nat) + " "@ + tags_upper(tags.take(t as int)),
            decreases tn - t,
        {
            proof {
                crate::idea::lemma_string_vec_deep_view(&idea.tags);
                assert(idea.tags.deep_view()[t as int] == idea.tags@[t as int]@);
            }
            let upper = crate::strutil::to_uppercase_str(idea.tags[t].as_str());
            text.append(upper.as_str());
            text.append(" ");
            proof {
                assert(tags.take(t + 1).drop_last() =~= tags.take(t as int));
                assert(tags.take(t + 1).last() == tags[t as int]);
                assert(text@ =~= stars(depth as nat) + " "@ + tags_upper(tags.take(t + 1)));
            }
            t = t + 1;
        }
        proof {
            assert(tags.take(tn as int) =~= tags);
        }
        text.append(idea.name.as_str());
        text.append("\n");
        if !idea.description.as_str().is_empty() {
            text.append("\n");
            text.append(idea.description.as_str());
            text.append("\n\n");
        }
        let ghost head = text@;
        proof {
            assert(head =~= stars(depth as nat) + " "@ + tags_upper(node(s, id).tags) + node(
                s,
                id,
            ).name + "\n"@ + (if node(s, id).description.len() > 0 {
                "\n"@ + node(s, id).description + "\n\n"@
            } else {
                Seq::<char>::empty()
            }));
        }
        // Children, depth first.
        let cn = idea.child_ids.len();
        let mut k: usize = 0;
        proof {
            assert(text@ + org_children_spec(s, id, 0, depth as nat) == org_string_spec(
                s,
                id,
                depth as nat,
            ));
        }
        while k < cn
            invariant
                wf(s),
                s == self@,
                valid_id(s, id),
                depth <= root_path(s, id - 1).len(),
                root_path(s, id - 1).len() <= s.len(),
                0 <= k <= cn,
                cn == idea.child_ids@.len(),
                idea.child_ids@ == node(s, id).child_ids,
                text@ + org_children_spec(s, id, k as int, depth as nat) == org_string_spec(
                    s,
                    id,
                    depth as nat,
                ),
            decreases cn - k,
        {
            let c = idea.child_ids[k];
            proof {
                assert(node(s, id).child_ids[k as int] == c);
                assert(1 <= c <= s.len());
                assert(node(s, c).parent_id == Some(id));
                lemma_child_goes_deeper(s, id, c);
                lemma_root_path_exists(s, c - 1);
                lemma_root_path_step(s, c - 1);
                lemma_root_path_bounded(s, root_path(s, c - 1));
                assert(depth + 1 <= s.len());
            }
            let sub = self.org_string_rec(c, depth + 1);
            text.append(sub.as_str());
            proof {
                assert(text@ + org_children_spec(s, id, k + 1, depth as nat) =~= org_string_spec(
                    s,
                    id,
                    depth as nat,
                ));
            }
            k = k + 1;
        }
        proof {
            assert(org_children_spec(s, id, cn as int, depth as nat) =~= Seq::<char>::empty());
            assert(text@ =~= org_string_spec(s, id, depth as nat));
        }
        text
    }
}

} // verus!
