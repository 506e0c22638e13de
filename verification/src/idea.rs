//! The `Idea` record: the sole data entity of the tree store.

use vstd::prelude::*;
use vstd::string::StringExecFns;

verus! {

/// One node of the tree, as the store keeps it.
///
/// `id` is a stable handle, never reused. `parent_id` is `None` only for
/// the root. `child_ids` lists direct children in insertion order. `tags`
/// is semantically a set, kept as the sequence in which tags were added;
/// duplicates are tolerated, matching how tag addition behaves.
#[derive(Debug)]
pub struct Idea {
    pub id: i64,
    pub name: String,
    pub description: String,
    pub tags: Vec<String>,
    pub parent_id: Option<i64>,
    pub child_ids: Vec<i64>,
}

/// The mathematical image of one `Idea`.
#[verifier::ext_equal]
pub ghost struct IdeaData {
    pub id: i64,
    pub name: Seq<char>,
    pub description: Seq<char>,
    pub tags: Seq<Seq<char>>,
    pub parent_id: Option<i64>,
    pub child_ids: Seq<i64>,
}

impl View for Idea {
    type V = IdeaData;

    open spec fn view(&self) -> IdeaData {
        IdeaData {
            id: self.id,
            name: self.name@,
            description: self.description@,
            tags: self.tags.deep_view(),
            parent_id: self.parent_id,
            child_ids: self.child_ids@,
        }
    }
}

impl DeepView for Idea {
    type V = IdeaData;

    open spec fn deep_view(&self) -> IdeaData {
        self.view()
    }
}

/// `name` followed by ` [tag]` for each tag, in order.
pub open spec fn name_with_tags_seq(name: Seq<char>, tags: Seq<Seq<char>>) -> Seq<char>
    decreases tags.len(),
{
    if tags.len() == 0 {
        name
    } else {
        name_with_tags_seq(name, tags.drop_last()) + " ["@ + tags.last() + "]"@
    }
}

impl Idea {
    /// The idea's name followed by each of its tags in brackets.
    pub fn format_name_with_tags(&self) -> (r: String)
        ensures
            r@ == name_with_tags_seq(self.name@, self@.tags),
    {
        let mut buffer = String::new();
        buffer.append(self.name.as_str());
        let n = self.tags.len();
        let mut i: usize = 0;
        while i < n
            invariant
                0 <= i <= n,
                n == self.tags.len(),
                self@.tags.len() == n,
                buffer@ == name_with_tags_seq(self.name@, self@.tags.take(i as int)),
            decreases n - i,
        {
            buffer.append(" [");
            buffer.append(self.tags[i].as_str());
            buffer.append("]");
            proof {
                let t = self@.tags.take(i + 1);
                assert(t.drop_last() =~= self@.tags.take(i as int));
                assert(t.last() == self@.tags[i as int]);
            }
            i = i + 1;
        }
        proof {
            assert(self@.tags.take(n as int) =~= self@.tags);
        }
        buffer
    }

    /// A record with the same contents.
    pub fn duplicate(&self) -> (r: Idea)
        ensures
            r@ == self@,
    {
        Idea {
            id: self.id,
            name: self.name.clone(),
            description: self.description.clone(),
            tags: clone_string_vec(&self.tags),
            parent_id: self.parent_id,
            child_ids: clone_i64_vec(&self.child_ids),
        }
    }
}

/// Optional preset fields for a freshly created idea; a field left `None`
/// takes its default (an empty description, no tags).
pub struct IdeaArgs {
    pub description: Option<String>,
    pub tags: Option<Vec<String>>,
}

/// How the deep view of a vector of strings reads off the elements.
pub proof fn lemma_string_vec_deep_view(v: &Vec<String>)
    ensures
        v.deep_view().len() == v@.len(),
        forall|i: int| 0 <= i < v@.len() ==> #[trigger] v.deep_view()[i] == v@[i]@,
{
}

/// How the deep view of a vector of ideas reads off the elements.
pub proof fn lemma_idea_vec_deep_view(v: &Vec<Idea>)
    ensures
        v.deep_view().len() == v@.len(),
        forall|i: int| 0 <= i < v@.len() ==> #[trigger] v.deep_view()[i] == v@[i]@,
{
}

/// A copy of a vector of strings, element for element.
pub fn clone_string_vec(v: &Vec<String>) -> (r: Vec<String>)
    ensures
        r@ == v@,
        r.deep_view() == v.deep_view(),
{
    let mut r: Vec<String> = Vec::new();
    let n = v.len();
    let mut i: usize = 0;
    while i < n
        invariant
            0 <= i <= n,
            n == v.len(),
            r@ == v@.take(i as int),
        decreases n - i,
    {
        r.push(v[i].clone());
        proof {
            assert(v@.take(i + 1) =~= v@.take(i as int).push(v@[i as int]));
        }
        i = i + 1;
    }
    proof {
        assert(v@.take(n as int) =~= v@);
        assert(r.deep_view() =~= v.deep_view());
    }
    r
}

/// A copy of a vector of ids, element for element.
pub fn clone_i64_vec(v: &Vec<i64>) -> (r: Vec<i64>)
    ensures
        r@ == v@,
{
    let mut r: Vec<i64> = Vec::new();
    let n = v.len();
    let mut i: usize = 0;
    while i < n
        invariant
            0 <= i <= n,
            n == v.len(),
            r@ == v@.take(i as int),
        decreases n - i,
    {
        r.push(v[i]);
        proof {
            assert(v@.take(i + 1) =~= v@.take(i as int).push(v@[i as int]));
        }
        i = i + 1;
    }
    proof {
        assert(v@.take(n as int) =~= v@);
    }
    r
}

} // verus!
