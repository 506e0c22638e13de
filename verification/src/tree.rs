//! The idea store: a tree of `Idea` records kept in memory, with every
//! mutation preserving the well-formedness invariant of `crate::model`.

use crate::error::Error;
use crate::idea::{clone_i64_vec, clone_string_vec, Idea, IdeaArgs, IdeaData};
use crate::model::{
    acyclic, chain_tag_set, child_lists_unique, child_named_other_than, children_point_back,
    has_child_named,
    hidden_child, ids_sequential, ignore_set_of, inherited_tag_set, is_chain, is_root_path,
    lemma_child_scan, lemma_rename_preserves_wf, lemma_sibling_scan,
    lemma_update_content_preserves_wf, meta_idea_of, meta_tags_of, node, parents_list_children,
    names_valid, parents_valid, reaches_root, root_path, sibling_has_name, sibling_names_unique,
    valid_id,
    valid_name, visible_children_of, wf, META_MARKER, ROOT_ID,
};
use crate::strutil::{trim_spec, trim_str};
use vstd::prelude::*;
use vstd::string::StringExecFns;

verus! {

/// The tree of ideas. The record with id `k` sits at position `k - 1`;
/// records are never removed, so ids stay stable.
pub struct IdeaTree {
    ideas: Vec<Idea>,
}

impl View for IdeaTree {
    type V = Seq<IdeaData>;

    closed spec fn view(&self) -> Seq<IdeaData> {
        self.ideas.deep_view()
    }
}

/// The root record of a fresh store.
pub open spec fn root_data() -> IdeaData {
    IdeaData {
        id: 1,
        name: "Do All the Vastly Impractical Nonsense Conceivable In (short) Bursts Of Time!"@,
        description:
            "This is the root Idea for your Da Vinci Bot project.\nType 'help' for a command list.\n\nSupport this free, open-source project by contributing on GitHub (https://github.com/NQNStudios/davincibot) or Patreon (https://patreon.com/natquaylenelson)."@,
        tags: Seq::empty(),
        parent_id: None,
        child_ids: seq![2i64, 3i64, 4i64],
    }
}

/// The default `.ignore` meta idea: its tags are hidden from listings.
pub open spec fn ignore_data() -> IdeaData {
    IdeaData {
        id: 2,
        name: ".ignore"@,
        description:
            "The tags applied to this Idea will be hidden when listing children of this Idea's parent or any of its children that don't have their own .ignore child."@,
        tags: seq!["done"@, "hidden"@, "archived"@, "paused"@],
        parent_id: Some(1i64),
        child_ids: Seq::empty(),
    }
}

/// The default `.settings` meta idea.
pub open spec fn settings_data() -> IdeaData {
    IdeaData {
        id: 3,
        name: ".settings"@,
        description:
            "tutorial: The settings defined in Yaml format in this Idea's description will be applied to operations on all of the root idea's children by default, but can be overridden by adding another .settings child.\nmax_description: 300"@,
        tags: Seq::empty(),
        parent_id: Some(1i64),
        child_ids: Seq::empty(),
    }
}

/// The default `.shortcuts` meta idea: single-character command shortcuts.
pub open spec fn shortcuts_data() -> IdeaData {
    IdeaData {
        id: 4,
        name: ".shortcuts"@,
        description:
            "h: help\np: print\nl: list\ns: select\na: add\nt: tag\nu: untag\nm: move\nd: describe\nr: rename\n"@,
        tags: Seq::empty(),
        parent_id: Some(1i64),
        child_ids: Seq::empty(),
    }
}

/// What a fresh store holds: the root with its three meta children.
pub open spec fn initial_model() -> Seq<IdeaData> {
    seq![root_data(), ignore_data(), settings_data(), shortcuts_data()]
}

impl IdeaTree {
    /// A fresh store: the root idea with its default `.ignore`,
    /// `.settings` and `.shortcuts` meta children.
    pub fn new() -> (t: IdeaTree)
        ensures
            t@ == initial_model(),
            wf(t@),
    {
        let mut ideas: Vec<Idea> = Vec::new();
        ideas.push(
            Idea {
                id: 1,
                name:
                    "Do All the Vastly Impractical Nonsense Conceivable In (short) Bursts Of Time!".to_owned(),
                description:
                    "This is the root Idea for your Da Vinci Bot project.\nType 'help' for a command list.\n\nSupport this free, open-source project by contributing on GitHub (https://github.com/NQNStudios/davincibot) or Patreon (https://patreon.com/natquaylenelson).".to_owned(),
                tags: Vec::new(),
                parent_id: None,
                child_ids: vec![2i64, 3i64, 4i64],
            },
        );
        ideas.push(
            Idea {
                id: 2,
                name: ".ignore".to_owned(),
                description:
                    "The tags applied to this Idea will be hidden when listing children of this Idea's parent or any of its children that don't have their own .ignore child.".to_owned(),
                tags: vec![
                    "done".to_owned(),
                    "hidden".to_owned(),
                    "archived".to_owned(),
                    "paused".to_owned(),
                ],
                parent_id: Some(1),
                child_ids: Vec::new(),
            },
        );
        ideas.push(
            Idea {
                id: 3,
                name: ".settings".to_owned(),
                description:
                    "tutorial: The settings defined in Yaml format in this Idea's description will be applied to operations on all of the root idea's children by default, but can be overridden by adding another .settings child.\nmax_description: 300".to_owned(),
                tags: Vec::new(),
                parent_id: Some(1),
                child_ids: Vec::new(),
            },
        );
        ideas.push(
            Idea {
                id: 4,
                name: ".shortcuts".to_owned(),
                description:
                    "h: help\np: print\nl: list\ns: select\na: add\nt: tag\nu: untag\nm: move\nd: describe\nr: rename\n".to_owned(),
                tags: Vec::new(),
                parent_id: Some(1),
                child_ids: Vec::new(),
            },
        );
        proof {
            assert(ideas.deep_view() =~~= initial_model());
            lemma_initial_model_wf();
        }
        IdeaTree { ideas }
    }

    /// How many ideas the store holds; ids run from 1 to this count.
    pub fn idea_count(&self) -> (n: i64)
        requires
            wf(self@),
        ensures
            n == self@.len(),
    {
        self.ideas.len() as i64
    }

    /// The record with the given id, `NotFound` when no record has it.
    pub fn get_idea(&self, id: i64) -> (r: Result<Idea, Error>)
        requires
            wf(self@),
        ensures
            match r {
                Ok(idea) => valid_id(self@, id) && idea@ == node(self@, id),
                Err(e) => e == Error::NotFound && !valid_id(self@, id),
            },
    {
        if id < 1 || id > self.ideas.len() as i64 {
            return Err(Error::NotFound);
        }
        let idx = (id - 1) as usize;
        Ok(self.ideas[idx].duplicate())
    }

    /// The name of the idea with the given id.
    pub fn get_name(&self, id: i64) -> (r: Result<String, Error>)
        requires
            wf(self@),
        ensures
            match r {
                Ok(name) => valid_id(self@, id) && name@ == node(self@, id).name,
                Err(e) => e == Error::NotFound && !valid_id(self@, id),
            },
    {
        if id < 1 || id > self.ideas.len() as i64 {
            return Err(Error::NotFound);
        }
        let idx = (id - 1) as usize;
        Ok(self.ideas[idx].name.clone())
    }

    /// The description of the idea with the given id.
    pub fn get_description(&self, id: i64) -> (r: Result<String, Error>)
        requires
            wf(self@),
        ensures
            match r {
                Ok(d) => valid_id(self@, id) && d@ == node(self@, id).description,
                Err(e) => e == Error::NotFound && !valid_id(self@, id),
            },
    {
        if id < 1 || id > self.ideas.len() as i64 {
            return Err(Error::NotFound);
        }
        let idx = (id - 1) as usize;
        Ok(self.ideas[idx].description.clone())
    }

    /// The parent of the idea with the given id; `None` only for the root.
    pub fn get_parent_id(&self, id: i64) -> (r: Result<Option<i64>, Error>)
        requires
            wf(self@),
        ensures
            match r {
                Ok(p) => valid_id(self@, id) && p == node(self@, id).parent_id,
                Err(e) => e == Error::NotFound && !valid_id(self@, id),
            },
    {
        if id < 1 || id > self.ideas.len() as i64 {
            return Err(Error::NotFound);
        }
        let idx = (id - 1) as usize;
        Ok(self.ideas[idx].parent_id)
    }
    /// Scans the child list of the record at index `p_idx` for a child
    /// named `name`, skipping the child with id `exclude` (0 skips none).
    fn scan_children_for_name(&self, p_idx: usize, name: &String, exclude: i64) -> (r: bool)
        requires
            wf(self@),
            p_idx < self@.len(),
        ensures
            r == child_named_other_than(self@, p_idx as int, name@, exclude),
    {
        let total = self.ideas.len();
        let child_ids = &self.ideas[p_idx].child_ids;
        let n = child_ids.len();
        let mut k: usize = 0;
        while k < n
            invariant
                wf(self@),
                p_idx < self@.len(),
                total == self.ideas@.len(),
                self@.len() == self.ideas@.len(),
                n == self@[p_idx as int].child_ids.len(),
                child_ids@ == self@[p_idx as int].child_ids,
                0 <= k <= n,
                forall|k0: int|
                    0 <= k0 < k ==> !(#[trigger] self@[p_idx as int].child_ids[k0] != exclude
                        && self@[self@[p_idx as int].child_ids[k0] - 1].name == name@),
            decreases n - k,
        {
            let c = child_ids[k];
            proof {
                crate::idea::lemma_idea_vec_deep_view(&self.ideas);
                assert(self@[p_idx as int].child_ids[k as int] == c);
                assert(1 <= c <= self@.len());
                assert(self.ideas.deep_view()[c - 1] == self.ideas@[c - 1]@);
                assert(self@[c - 1].name == self.ideas@[c - 1]@.name);
            }
            if c != exclude {
                let c_idx = (c - 1) as usize;
                proof {
                    assert(c_idx as int == c - 1);
                }
                if self.ideas[c_idx].name.eq(name) {
                    proof {
                        assert(self@[c - 1].name == name@);
                        assert(child_named_other_than(self@, p_idx as int, name@, exclude));
                    }
                    return true;
                }
                proof {
                    assert(self@[c - 1].name != name@);
                }
            }
            k = k + 1;
        }
        false
    }

    /// Fails with `DuplicateName` when the given parent already has a child
    /// with the given name, hidden children included.
    pub fn error_on_duplicate_child(&self, parent_id: i64, name: String) -> (r: Result<
        (),
        Error,
    >)
        requires
            wf(self@),
        ensures
            match r {
                Ok(()) => valid_id(self@, parent_id) && !has_child_named(
                    self@,
                    parent_id - 1,
                    name@,
                ),
                Err(e) => (e == Error::NotFound && !valid_id(self@, parent_id)) || (
                e == Error::DuplicateName && valid_id(self@, parent_id) && has_child_named(
                    self@,
                    parent_id - 1,
                    name@,
                )),
            },
    {
        if parent_id < 1 || parent_id > self.ideas.len() as i64 {
            return Err(Error::NotFound);
        }
        let p_idx = (parent_id - 1) as usize;
        proof {
            lemma_child_scan(self@, p_idx as int, name@);
        }
        if self.scan_children_for_name(p_idx, &name, 0) {
            Err(Error::DuplicateName)
        } else {
            Ok(())
        }
    }

    /// Replaces the description of the idea with the given id.
    pub fn set_description(&mut self, id: i64, description: &String) -> (r: Result<(), Error>)
        requires
            wf(old(self)@),
        ensures
            wf(final(self)@),
            match r {
                Ok(()) => valid_id(old(self)@, id) && final(self)@ == old(self)@.update(
                    id - 1,
                    IdeaData { description: description@, ..node(old(self)@, id) },
                ),
                Err(e) => e == Error::NotFound && !valid_id(old(self)@, id) && final(self)@ == old(
                    self,
                )@,
            },
    {
        if id < 1 || id > self.ideas.len() as i64 {
            return Err(Error::NotFound);
        }
        let idx = (id - 1) as usize;
        self.ideas[idx].description = description.clone();
        proof {
            let s2 = old(self)@.update(
                id - 1,
                IdeaData { description: description@, ..node(old(self)@, id) },
            );
            assert(self@ =~~= s2);
            lemma_update_content_preserves_wf(old(self)@, self@);
        }
        Ok(())
    }

    /// Replaces the tag list of the idea with the given id.
    pub fn set_tags(&mut self, id: i64, tags: Vec<String>) -> (r: Result<(), Error>)
        requires
            wf(old(self)@),
        ensures
            wf(final(self)@),
            match r {
                Ok(()) => valid_id(old(self)@, id) && final(self)@ == old(self)@.update(
                    id - 1,
                    IdeaData { tags: tags.deep_view(), ..node(old(self)@, id) },
                ),
                Err(e) => e == Error::NotFound && !valid_id(old(self)@, id) && final(self)@ == old(
                    self,
                )@,
            },
    {
        if id < 1 || id > self.ideas.len() as i64 {
            return Err(Error::NotFound);
        }
        let idx = (id - 1) as usize;
        self.ideas[idx].tags = tags;
        proof {
            let s2 = old(self)@.update(
                id - 1,
                IdeaData { tags: tags.deep_view(), ..node(old(self)@, id) },
            );
            assert(self@ =~~= s2);
            lemma_update_content_preserves_wf(old(self)@, self@);
        }
        Ok(())
    }

    /// Removes every tag from the idea with the given id.
    pub fn clear_tags(&mut self, id: i64) -> (r: Result<(), Error>)
        requires
            wf(old(self)@),
        ensures
            wf(final(self)@),
            match r {
                Ok(()) => valid_id(old(self)@, id) && final(self)@ == old(self)@.update(
                    id - 1,
                    IdeaData { tags: Seq::empty(), ..node(old(self)@, id) },
                ),
                Err(e) => e == Error::NotFound && !valid_id(old(self)@, id) && final(self)@ == old(
                    self,
                )@,
            },
    {
        let empty: Vec<String> = Vec::new();
        assert(empty.deep_view() =~= Seq::<Seq<char>>::empty());
        self.set_tags(id, empty)
    }

    /// Appends the given tags to the idea's tag list. Tags already present
    /// are appended again: the list tolerates duplicates.
    pub fn add_tags(&mut self, id: i64, tags: Vec<String>) -> (r: Result<(), Error>)
        requires
            wf(old(self)@),
        ensures
            wf(final(self)@),
            match r {
                Ok(()) => valid_id(old(self)@, id) && final(self)@ == old(self)@.update(
                    id - 1,
                    IdeaData {
                        tags: node(old(self)@, id).tags + tags.deep_view(),
                        ..node(old(self)@, id)
                    },
                ),
                Err(e) => e == Error::NotFound && !valid_id(old(self)@, id) && final(self)@ == old(
                    self,
                )@,
            },
    {
        if id < 1 || id > self.ideas.len() as i64 {
            return Err(Error::NotFound);
        }
        let idx = (id - 1) as usize;
        let mut new_tags = clone_string_vec(&self.ideas[idx].tags);
        let ghost own_strings = self.ideas@[id - 1].tags@;
        let n = tags.len();
        let mut i: usize = 0;
        proof {
            assert(new_tags@ =~= own_strings + tags@.take(0));
        }
        while i < n
            invariant
                0 <= i <= n,
                n == tags.len(),
                new_tags@ == own_strings + tags@.take(i as int),
            decreases n - i,
        {
            new_tags.push(tags[i].clone());
            proof {
                assert(new_tags@ =~= own_strings + tags@.take(i + 1));
            }
            i = i + 1;
        }
        proof {
            assert(tags@.take(n as int) =~= tags@);
            crate::idea::lemma_string_vec_deep_view(&new_tags);
            crate::idea::lemma_string_vec_deep_view(&tags);
            crate::idea::lemma_idea_vec_deep_view(&self.ideas);
            crate::idea::lemma_string_vec_deep_view(&self.ideas@[id - 1].tags);
            assert forall|k: int| 0 <= k < new_tags@.len() implies #[trigger] new_tags.deep_view()[k]
                == (node(old(self)@, id).tags + tags.deep_view())[k] by {
                if k < own_strings.len() {
                    assert(self.ideas@[id - 1].tags.deep_view()[k] == own_strings[k]@);
                } else {
                    assert(tags.deep_view()[k - own_strings.len()] == tags@[k
                        - own_strings.len()]@);
                }
            }
            assert(new_tags.deep_view() =~= node(old(self)@, id).tags + tags.deep_view());
        }
        self.set_tags(id, new_tags)
    }

    /// Removes every listed tag from the idea's tag list; tags not present
    /// are passed over without error.
    pub fn remove_tags(&mut self, id: i64, tags: Vec<String>) -> (r: Result<(), Error>)
        requires
            wf(old(self)@),
        ensures
            wf(final(self)@),
            match r {
                Ok(()) => valid_id(old(self)@, id) && final(self)@ == old(self)@.update(
                    id - 1,
                    IdeaData {
                        tags: node(old(self)@, id).tags.filter(
                            |t: Seq<char>| !tags.deep_view().contains(t),
                        ),
                        ..node(old(self)@, id)
                    },
                ),
                Err(e) => e == Error::NotFound && !valid_id(old(self)@, id) && final(self)@ == old(
                    self,
                )@,
            },
    {
        if id < 1 || id > self.ideas.len() as i64 {
            return Err(Error::NotFound);
        }
        let idx = (id - 1) as usize;
        let ghost own = old(self)@[id - 1].tags;
        let ghost pred = |t: Seq<char>| !tags.deep_view().contains(t);
        let n = self.ideas[idx].tags.len();
        let mut kept: Vec<String> = Vec::new();
        let mut i: usize = 0;
        proof {
            assert(own.take(0).filter(pred) =~= Seq::<Seq<char>>::empty());
        }
        while i < n
            invariant
                0 <= i <= n,
                wf(self@),
                self@ == old(self)@,
                valid_id(self@, id),
                idx == id - 1,
                own == self@[id - 1].tags,
                n == self.ideas@[id - 1].tags.len(),
                self.ideas@[id - 1]@ == self@[id - 1],
                pred == (|t: Seq<char>| !tags.deep_view().contains(t)),
                kept.deep_view() == own.take(i as int).filter(pred),
            decreases n - i,
        {
            let tag = self.ideas[idx].tags[i].clone();
            let keep = !vec_contains_string(&tags, &tag);
            proof {
                reveal(Seq::filter);
                assert(own.take(i + 1).drop_last() =~= own.take(i as int));
                assert(own.take(i + 1).last() == own[i as int]);
            }
            if keep {
                kept.push(tag);
                proof {
                    assert(kept.deep_view() =~= own.take(i as int).filter(pred).push(own[i as int]));
                }
            }
            i = i + 1;
        }
        proof {
            assert(own.take(n as int) =~= own);
        }
        self.set_tags(id, kept)
    }
    /// Renames the idea with the given id to the trimmed new name. Fails
    /// with `EmptyName` when the name trims to nothing and `DuplicateName`
    /// when another sibling already carries it; renaming an idea to its own
    /// name succeeds.
    pub fn set_name(&mut self, id: i64, name: &String) -> (r: Result<(), Error>)
        requires
            wf(old(self)@),
        ensures
            wf(final(self)@),
            match r {
                Ok(()) => {
                    &&& valid_id(old(self)@, id)
                    &&& trim_spec(name@).len() > 0
                    &&& !sibling_has_name(old(self)@, id, trim_spec(name@))
                    &&& final(self)@ == old(self)@.update(
                        id - 1,
                        IdeaData { name: trim_spec(name@), ..node(old(self)@, id) },
                    )
                },
                Err(e) => final(self)@ == old(self)@ && (if !valid_id(old(self)@, id) {
                    e == Error::NotFound
                } else if trim_spec(name@).len() == 0 {
                    e == Error::EmptyName
                } else {
                    e == Error::DuplicateName && sibling_has_name(
                        old(self)@,
                        id,
                        trim_spec(name@),
                    )
                }),
            },
    {
        if id < 1 || id > self.ideas.len() as i64 {
            return Err(Error::NotFound);
        }
        let idx = (id - 1) as usize;
        let trimmed = trim_str(name.as_str());
        if trimmed.as_str().is_empty() {
            return Err(Error::EmptyName);
        }
        match self.ideas[idx].parent_id {
            Some(p) => {
                let p_idx = (p - 1) as usize;
                proof {
                    lemma_sibling_scan(self@, id, trimmed@);
                }
                if self.scan_children_for_name(p_idx, &trimmed, id) {
                    return Err(Error::DuplicateName);
                }
            },
            None => {
                proof {
                    if sibling_has_name(self@, id, trimmed@) {
                        let c = choose|c: int|
                            1 <= c < self@.len() && c != id - 1 && (#[trigger] self@[c]).parent_id
                                == node(self@, id).parent_id && self@[c].name == trimmed@;
                        assert(self@[c].parent_id is Some);
                        assert(false);
                    }
                }
            },
        }
        proof {
            crate::strutil::lemma_trim_shape(name@);
        }
        self.ideas[idx].name = trimmed;
        proof {
            let s2 = old(self)@.update(
                id - 1,
                IdeaData { name: trim_spec(name@), ..node(old(self)@, id) },
            );
            assert(self@ =~~= s2);
            lemma_rename_preserves_wf(old(self)@, self@, id - 1, trim_spec(name@));
        }
        Ok(())
    }
    /// Finds where the given child id sits in the child list of the record
    /// at index `p_idx`.
    fn find_child_index(&self, p_idx: usize, child_id: i64) -> (j: usize)
        requires
            wf(self@),
            p_idx < self@.len(),
            self@[p_idx as int].child_ids.contains(child_id),
        ensures
            j < self@[p_idx as int].child_ids.len(),
            self@[p_idx as int].child_ids[j as int] == child_id,
    {
        proof {
            crate::idea::lemma_idea_vec_deep_view(&self.ideas);
        }
        let child_ids = &self.ideas[p_idx].child_ids;
        let n = child_ids.len();
        let mut j: usize = 0;
        while j < n
            invariant
                0 <= j <= n,
                n == self@[p_idx as int].child_ids.len(),
                child_ids@ == self@[p_idx as int].child_ids,
                forall|k: int| 0 <= k < j ==> self@[p_idx as int].child_ids[k] != child_id,
            decreases n - j,
        {
            if child_ids[j] == child_id {
                return j;
            }
            j = j + 1;
        }
        proof {
            let k = choose|k: int|
                0 <= k < self@[p_idx as int].child_ids.len() && self@[p_idx as int].child_ids[k]
                    == child_id;
            assert(false);
        }
        0
    }

    /// Decides whether the walk from `start_idx` up to the root passes
    /// through `target_idx`.
    fn root_walk_contains(&self, start_idx: usize, target_idx: usize) -> (r: bool)
        requires
            wf(self@),
            start_idx < self@.len(),
            target_idx < self@.len(),
        ensures
            r == root_path(self@, start_idx as int).contains(target_idx as int),
    {
        let ghost s = self@;
        let total = self.ideas.len();
        let mut cur = start_idx;
        proof {
            crate::idea::lemma_idea_vec_deep_view(&self.ideas);
            assert(total == self.ideas@.len());
            crate::model::lemma_root_path_exists(s, start_idx as int);
        }
        loop
            invariant
                wf(s),
                s == self@,
                cur < s.len(),
                target_idx < s.len(),
                total == self.ideas@.len(),
                s.len() == self.ideas@.len(),
                root_path(s, start_idx as int).contains(target_idx as int) == root_path(
                    s,
                    cur as int,
                ).contains(target_idx as int),
            decreases root_path(s, cur as int).len(),
        {
            proof {
                crate::model::lemma_root_path_exists(s, cur as int);
            }
            if cur == target_idx {
                proof {
                    let q = root_path(s, cur as int);
                    assert(q[0] == cur);
                    assert(q.contains(cur as int));
                }
                return true;
            }
            if cur == 0 {
                proof {
                    let q = root_path(s, 0);
                    assert(is_chain(s, seq![0int]));
                    assert(is_root_path(s, seq![0int]));
                    crate::model::lemma_root_path_unique(s, q, seq![0int]);
                    if q.contains(target_idx as int) {
                        let w = choose|w: int| 0 <= w < q.len() && q[w] == target_idx as int;
                        assert(false);
                    }
                }
                return false;
            }
            let p = match self.ideas[cur].parent_id {
                Some(p) => p,
                None => {
                    proof {
                        crate::idea::lemma_idea_vec_deep_view(&self.ideas);
                        assert(self@[cur as int].parent_id is Some);
                        assert(false);
                    }
                    return false;
                },
            };
            proof {
                crate::idea::lemma_idea_vec_deep_view(&self.ideas);
                assert(self@[cur as int].parent_id == Some(p));
                assert(1 <= p <= s.len());
                assert(s.len() == self.ideas@.len());
                crate::model::lemma_root_path_step(s, cur as int);
                let q = root_path(s, cur as int);
                let qt = root_path(s, p - 1);
                assert(q.drop_first() == qt);
                let t = target_idx as int;
                if q.contains(t) {
                    let w = choose|w: int| 0 <= w < q.len() && q[w] == t;
                    assert(w > 0);
                    assert(qt[w - 1] == t);
                    assert(qt.contains(t));
                }
                if qt.contains(t) {
                    let w = choose|w: int| 0 <= w < qt.len() && qt[w] == t;
                    assert(q[w + 1] == t);
                    assert(q.contains(t));
                }
            }
            cur = (p - 1) as usize;
        }
    }

    /// The idea's name followed by its own (non-inherited) tags in
    /// brackets.
    pub fn get_name_with_tags(&self, id: i64) -> (r: Result<String, Error>)
        requires
            wf(self@),
        ensures
            match r {
                Ok(text) => valid_id(self@, id) && text@ == crate::idea::name_with_tags_seq(
                    node(self@, id).name,
                    node(self@, id).tags,
                ),
                Err(e) => e == Error::NotFound && !valid_id(self@, id),
            },
    {
        if id < 1 || id > self.ideas.len() as i64 {
            return Err(Error::NotFound);
        }
        let idx = (id - 1) as usize;
        proof {
            crate::idea::lemma_idea_vec_deep_view(&self.ideas);
        }
        Ok(self.ideas[idx].format_name_with_tags())
    }

    /// The tags of the idea with the given id. Without inheritance this is
    /// the idea's own tag list exactly, duplicates and order included. With
    /// inheritance, for an idea below the root, it is the union of the
    /// idea's own tags with every ancestor's, sorted and with duplicates
    /// removed.
    pub fn get_tags(&self, id: i64, inherit_tags: bool) -> (r: Result<Vec<String>, Error>)
        requires
            wf(self@),
        ensures
            match r {
                Ok(tags) => valid_id(self@, id) && (if !inherit_tags || node(
                    self@,
                    id,
                ).parent_id is None {
                    tags.deep_view() == node(self@, id).tags
                } else {
                    crate::strutil::strictly_sorted_lex(tags.deep_view())
                        && tags.deep_view().to_set() == inherited_tag_set(self@, id)
                }),
                Err(e) => e == Error::NotFound && !valid_id(self@, id),
            },
    {
        if id < 1 || id > self.ideas.len() as i64 {
            return Err(Error::NotFound);
        }
        let idx = (id - 1) as usize;
        proof {
            crate::idea::lemma_idea_vec_deep_view(&self.ideas);
        }
        let inherit = inherit_tags && match self.ideas[idx].parent_id {
            Some(_) => true,
            None => false,
        };
        if !inherit {
            let own = clone_string_vec(&self.ideas[idx].tags);
            return Ok(own);
        }
        let ghost s = self@;
        let total = self.ideas.len();
        let mut all: Vec<String> = Vec::new();
        let mut cur: usize = idx;
        proof {
            assert(total == self.ideas@.len());
            crate::model::lemma_root_path_exists(s, cur as int);
            assert(all.deep_view() =~= Seq::<Seq<char>>::empty());
            assert(inherited_tag_set(s, id) =~= all.deep_view().to_set() + chain_tag_set(
                s,
                root_path(s, cur as int),
            ));
        }
        loop
            invariant
                wf(s),
                s == self@,
                cur < s.len(),
                valid_id(s, id),
                total == self.ideas@.len(),
                s.len() == self.ideas@.len(),
                inherited_tag_set(s, id) == all.deep_view().to_set() + chain_tag_set(
                    s,
                    root_path(s, cur as int),
                ),
            ensures
                inherited_tag_set(s, id) == all.deep_view().to_set(),
            decreases root_path(s, cur as int).len(),
        {
            proof {
                crate::idea::lemma_idea_vec_deep_view(&self.ideas);
                crate::model::lemma_root_path_exists(s, cur as int);
            }
            let ghost before = all.deep_view();
            append_tags(&mut all, &self.ideas[cur].tags);
            proof {
                let ct = s[cur as int].tags;
                assert(all.deep_view() == before + ct);
                assert(all.deep_view().to_set() =~= before.to_set() + ct.to_set()) by {
                    assert forall|x: Seq<char>| (before + ct).contains(x) implies before.contains(
                        x,
                    ) || ct.contains(x) by {
                        let k = choose|k: int| 0 <= k < (before + ct).len() && (before + ct)[k]
                            == x;
                        if k < before.len() {
                            assert(before[k] == x);
                        } else {
                            assert(ct[k - before.len()] == x);
                        }
                    }
                    assert forall|x: Seq<char>|
                        before.contains(x) || ct.contains(x) implies (before + ct).contains(x) by {
                        if before.contains(x) {
                            let k = choose|k: int| 0 <= k < before.len() && before[k] == x;
                            assert((before + ct)[k] == x);
                        } else {
                            let k = choose|k: int| 0 <= k < ct.len() && ct[k] == x;
                            assert((before + ct)[k + before.len()] == x);
                        }
                    }
                }
            }
            if cur == 0 {
                proof {
                    let q = root_path(s, 0);
                    assert(is_chain(s, seq![0int]));
                    assert(is_root_path(s, seq![0int]));
                    crate::model::lemma_root_path_unique(s, q, seq![0int]);
                    assert(q.drop_first() =~= Seq::<int>::empty());
                    assert(chain_tag_set(s, Seq::<int>::empty()) =~= Set::<Seq<char>>::empty());
                    assert(q.len() == 1 && q[0] == 0);
                    assert(chain_tag_set(s, q) =~= s[0].tags.to_set());
                    assert(inherited_tag_set(s, id) =~= all.deep_view().to_set());
                }
                break ;
            }
            let p = match self.ideas[cur].parent_id {
                Some(p) => p,
                None => {
                    proof {
                        assert(self@[cur as int].parent_id is Some);
                        assert(false);
                    }
                    return Err(Error::NotFound);
                },
            };
            proof {
                assert(self@[cur as int].parent_id == Some(p));
                assert(1 <= p <= s.len());
                assert(s.len() == self.ideas@.len());
                crate::model::lemma_root_path_step(s, cur as int);
                let q = root_path(s, cur as int);
                assert(q.drop_first() == root_path(s, p - 1));
                assert(chain_tag_set(s, q) =~= s[cur as int].tags.to_set() + chain_tag_set(
                    s,
                    root_path(s, p - 1),
                ));
                assert(inherited_tag_set(s, id) =~= all.deep_view().to_set() + chain_tag_set(
                    s,
                    root_path(s, p - 1),
                ));
            }
            cur = (p - 1) as usize;
        }
        // Sort the gathered tags and drop duplicates.
        let mut result: Vec<String> = Vec::new();
        let an = all.len();
        let mut i: usize = 0;
        proof {
            crate::idea::lemma_string_vec_deep_view(&all);
            assert(result.deep_view() =~= Seq::<Seq<char>>::empty());
            assert(result.deep_view().to_set() =~= all.deep_view().take(0).to_set());
        }
        while i < an
            invariant
                0 <= i <= an,
                an == all@.len(),
                all.deep_view().len() == an,
                crate::strutil::strictly_sorted_lex(result.deep_view()),
                result.deep_view().to_set() == all.deep_view().take(i as int).to_set(),
            decreases an - i,
        {
            crate::strutil::insert_sorted_unique(&mut result, &all[i]);
            proof {
                crate::idea::lemma_string_vec_deep_view(&all);
                let dv = all.deep_view();
                assert forall|x: Seq<char>| dv.take(i + 1).to_set().contains(x) implies dv.take(
                    i as int,
                ).to_set().insert(dv[i as int]).contains(x) by {
                    let k = choose|k: int|
                        0 <= k < dv.take(i + 1).len() && #[trigger] dv.take(i + 1)[k] == x;
                    if k < i {
                        assert(dv.take(i as int)[k] == x);
                        assert(dv.take(i as int).contains(x));
                    } else {
                        assert(dv.take(i + 1)[i as int] == dv[i as int]);
                    }
                }
                assert forall|x: Seq<char>|
                    dv.take(i as int).to_set().insert(dv[i as int]).contains(x) implies dv.take(
                    i + 1,
                ).to_set().contains(x) by {
                    if dv.take(i as int).to_set().contains(x) {
                        let k = choose|k: int|
                            0 <= k < dv.take(i as int).len() && #[trigger] dv.take(i as int)[k]
                                == x;
                        assert(dv.take(i + 1)[k] == x);
                        assert(dv.take(i + 1).contains(x));
                    } else {
                        assert(dv.take(i + 1)[i as int] == x);
                        assert(dv.take(i + 1).contains(x));
                    }
                }
                assert(dv.take(i + 1).to_set() =~= dv.take(i as int).to_set().insert(
                    dv[i as int],
                ));
                assert(all@[i as int]@ == dv[i as int]);
            }
            i = i + 1;
        }
        proof {
            assert(all.deep_view().take(an as int) =~= all.deep_view());
        }
        Ok(result)
    }

    /// Finds the direct child of the record at index `p_idx` carrying
    /// exactly the given name.
    fn find_child_by_name(&self, p_idx: usize, name: &String) -> (r: Option<i64>)
        requires
            wf(self@),
            p_idx < self@.len(),
        ensures
            match r {
                Some(c) => has_child_named(self@, p_idx as int, name@) && valid_id(self@, c) && c
                    == crate::model::child_named(self@, p_idx as int, name@) && node(self@, c).name
                    == name@,
                None => !has_child_named(self@, p_idx as int, name@),
            },
    {
        let total = self.ideas.len();
        let child_ids = &self.ideas[p_idx].child_ids;
        let n = child_ids.len();
        let mut k: usize = 0;
        while k < n
            invariant
                wf(self@),
                p_idx < self@.len(),
                total == self.ideas@.len(),
                self@.len() == self.ideas@.len(),
                n == self@[p_idx as int].child_ids.len(),
                child_ids@ == self@[p_idx as int].child_ids,
                0 <= k <= n,
                forall|k0: int|
                    0 <= k0 < k ==> self@[#[trigger] self@[p_idx as int].child_ids[k0] - 1].name
                        != name@,
            decreases n - k,
        {
            let c = child_ids[k];
            proof {
                crate::idea::lemma_idea_vec_deep_view(&self.ideas);
                assert(self@[p_idx as int].child_ids[k as int] == c);
                assert(1 <= c <= self@.len());
                assert(self@[c - 1].name == self.ideas@[c - 1]@.name);
            }
            let c_idx = (c - 1) as usize;
            if self.ideas[c_idx].name.eq(name) {
                proof {
                    let s = self@;
                    let i = p_idx as int;
                    assert(s[s[i].child_ids[k as int] - 1].name == name@);
                    assert(has_child_named(s, i, name@));
                    let k2 = choose|k2: int|
                        0 <= k2 < s[i].child_ids.len() && s[#[trigger] s[i].child_ids[k2]
                            - 1].name == name@;
                    assert(k2 == k) by {
                        if k2 < k {
                            assert(s[s[i].child_ids[k2] - 1].name != name@);
                        } else if k2 > k {
                            assert(s[s[i].child_ids[k as int] - 1].name != s[s[i].child_ids[k2]
                                - 1].name);
                        }
                    }
                    assert(crate::model::child_named(s, i, name@) == c);
                }
                return Some(c);
            }
            k = k + 1;
        }
        proof {
            if has_child_named(self@, p_idx as int, name@) {
                let s = self@;
                let i = p_idx as int;
                let k2 = choose|k2: int|
                    0 <= k2 < s[i].child_ids.len() && s[#[trigger] s[i].child_ids[k2] - 1].name
                        == name@;
                assert(false);
            }
        }
        None
    }

    /// The meta idea of the given type in effect at `id`: the child named
    /// `.` + `meta_type` of the nearest ancestor that has one, the idea
    /// itself included. No ancestor having one is not an error: `Ok(None)`.
    pub fn get_meta_idea(&self, id: i64, meta_type: &str) -> (r: Result<Option<Idea>, Error>)
        requires
            wf(self@),
        ensures
            match r {
                Ok(m) => valid_id(self@, id) && (match m {
                    Some(idea) => meta_idea_of(self@, id, "."@ + meta_type@) is Some && idea@
                        == node(self@, meta_idea_of(self@, id, "."@ + meta_type@)->0),
                    None => meta_idea_of(self@, id, "."@ + meta_type@) is None,
                }),
                Err(e) => e == Error::NotFound && !valid_id(self@, id),
            },
    {
        if id < 1 || id > self.ideas.len() as i64 {
            return Err(Error::NotFound);
        }
        let idx = (id - 1) as usize;
        let mut meta_name = String::new();
        meta_name.append(".");
        meta_name.append(meta_type);
        proof {
            assert(meta_name@ =~= "."@ + meta_type@);
        }
        let ghost s = self@;
        let ghost nm = "."@ + meta_type@;
        let total = self.ideas.len();
        let mut cur: usize = idx;
        proof {
            assert(total == self.ideas@.len());
            crate::model::lemma_root_path_exists(s, cur as int);
        }
        loop
            invariant
                wf(s),
                s == self@,
                cur < s.len(),
                valid_id(s, id),
                total == self.ideas@.len(),
                s.len() == self.ideas@.len(),
                meta_name@ == nm,
                nm == "."@ + meta_type@,
                meta_idea_of(s, id, nm) == crate::model::resolve_on_chain(
                    s,
                    root_path(s, cur as int),
                    nm,
                ),
            decreases root_path(s, cur as int).len(),
        {
            proof {
                crate::model::lemma_root_path_exists(s, cur as int);
            }
            match self.find_child_by_name(cur, &meta_name) {
                Some(c) => {
                    proof {
                        let q = root_path(s, cur as int);
                        assert(q[0] == cur);
                        assert(crate::model::resolve_on_chain(s, q, nm) == Some(
                            crate::model::child_named(s, cur as int, nm),
                        ));
                    }
                    let c_idx = (c - 1) as usize;
                    proof {
                        crate::idea::lemma_idea_vec_deep_view(&self.ideas);
                        assert(c_idx as int == c - 1);
                    }
                    let dup = self.ideas[c_idx].duplicate();
                    proof {
                        assert(dup@ == s[c - 1]);
                        assert(meta_idea_of(s, id, nm) == Some(c));
                    }
                    return Ok(Some(dup));
                },
                None => {},
            }
            if cur == 0 {
                proof {
                    let q = root_path(s, 0);
                    assert(is_chain(s, seq![0int]));
                    assert(is_root_path(s, seq![0int]));
                    crate::model::lemma_root_path_unique(s, q, seq![0int]);
                    assert(q.drop_first() =~= Seq::<int>::empty());
                    assert(crate::model::resolve_on_chain(s, Seq::<int>::empty(), nm) is None);
                    assert(!has_child_named(s, 0, nm));
                    assert(crate::model::resolve_on_chain(s, q, nm) is None);
                }
                return Ok(None);
            }
            let p = match self.ideas[cur].parent_id {
                Some(p) => p,
                None => {
                    proof {
                        crate::idea::lemma_idea_vec_deep_view(&self.ideas);
                        assert(self@[cur as int].parent_id is Some);
                        assert(false);
                    }
                    return Err(Error::NotFound);
                },
            };
            proof {
                crate::idea::lemma_idea_vec_deep_view(&self.ideas);
                assert(self@[cur as int].parent_id == Some(p));
                assert(1 <= p <= s.len());
                crate::model::lemma_root_path_step(s, cur as int);
                let q = root_path(s, cur as int);
                assert(q.drop_first() == root_path(s, p - 1));
                assert(q[0] == cur);
                assert(crate::model::resolve_on_chain(s, q, nm)
                    == crate::model::resolve_on_chain(s, root_path(s, p - 1), nm));
            }
            cur = (p - 1) as usize;
        }
    }

    /// The tags of the meta idea of the given type in effect at `id`, or no
    /// tags when no ancestor carries one.
    pub fn get_meta_tags(&self, id: i64, meta_type: &str) -> (r: Result<Vec<String>, Error>)
        requires
            wf(self@),
        ensures
            match r {
                Ok(tags) => valid_id(self@, id) && tags.deep_view() == meta_tags_of(
                    self@,
                    id,
                    "."@ + meta_type@,
                ),
                Err(e) => e == Error::NotFound && !valid_id(self@, id),
            },
    {
        match self.get_meta_idea(id, meta_type) {
            Ok(Some(idea)) => Ok(idea.tags),
            Ok(None) => {
                let empty: Vec<String> = Vec::new();
                proof {
                    assert(empty.deep_view() =~= Seq::<Seq<char>>::empty());
                }
                Ok(empty)
            },
            Err(e) => Err(e),
        }
    }

    /// The children of the idea with the given id, in insertion order. With
    /// `include_hidden` the raw list; without it, meta ideas and children
    /// carrying a tag from the ignore set in effect at `id` are left out.
    pub fn get_child_ids(&self, id: i64, include_hidden: bool) -> (r: Result<Vec<i64>, Error>)
        requires
            wf(self@),
        ensures
            match r {
                Ok(ids) => valid_id(self@, id) && ids@ == (if include_hidden {
                    node(self@, id).child_ids
                } else {
                    visible_children_of(self@, id)
                }),
                Err(e) => e == Error::NotFound && !valid_id(self@, id),
            },
    {
        if id < 1 || id > self.ideas.len() as i64 {
            return Err(Error::NotFound);
        }
        let idx = (id - 1) as usize;
        proof {
            crate::idea::lemma_idea_vec_deep_view(&self.ideas);
        }
        if include_hidden {
            return Ok(clone_i64_vec(&self.ideas[idx].child_ids));
        }
        let ignore_tags = match self.get_meta_tags(id, "ignore") {
            Ok(t) => t,
            Err(e) => {
                proof {
                    assert(false);
                }
                return Err(e);
            },
        };
        let ghost s = self@;
        let ghost iset = ignore_set_of(s, id);
        proof {
            reveal_strlit(".");
            reveal_strlit("ignore");
            reveal_strlit(".ignore");
            assert("."@ + "ignore"@ =~= ".ignore"@);
            assert(ignore_tags.deep_view() == meta_tags_of(s, id, ".ignore"@));
        }
        let ghost pred = |c: i64| !hidden_child(s, c, iset);
        let total = self.ideas.len();
        let child_ids = &self.ideas[idx].child_ids;
        let n = child_ids.len();
        let mut out: Vec<i64> = Vec::new();
        let mut k: usize = 0;
        proof {
            assert(node(s, id).child_ids.take(0).filter(pred) =~= Seq::<i64>::empty());
        }
        while k < n
            invariant
                wf(s),
                s == self@,
                valid_id(s, id),
                idx == id - 1,
                iset == ignore_set_of(s, id),
                ignore_tags.deep_view() == meta_tags_of(s, id, ".ignore"@),
                n == node(s, id).child_ids.len(),
                child_ids@ == node(s, id).child_ids,
                0 <= k <= n,
                total == self.ideas@.len(),
                s.len() == self.ideas@.len(),
                pred == (|c: i64| !hidden_child(s, c, iset)),
                out@ == node(s, id).child_ids.take(k as int).filter(pred),
            decreases n - k,
        {
            let c = child_ids[k];
            proof {
                crate::idea::lemma_idea_vec_deep_view(&self.ideas);
                assert(node(s, id).child_ids[k as int] == c);
                assert(1 <= c <= s.len());
                assert(self.ideas@[c - 1]@ == s[c - 1]);
                assert(crate::model::valid_name(s[c - 1].name));
            }
            let c_idx = (c - 1) as usize;
            proof {
                assert(c_idx as int == c - 1);
                assert(self.ideas@[c_idx as int]@.name == node(s, c).name);
            }
            let first = self.ideas[c_idx].name.as_str().get_char(0);
            let hidden = first == '.' || tags_intersect(&self.ideas[c_idx].tags, &ignore_tags);
            proof {
                assert(hidden == hidden_child(s, c, iset)) by {
                    assert(first == node(s, c).name[0]);
                    if tags_intersect_spec(self.ideas@[c - 1]@.tags, ignore_tags.deep_view()) {
                        let t = choose|t: Seq<char>|
                            #[trigger] node(s, c).tags.contains(t)
                                && ignore_tags.deep_view().contains(t);
                        assert(iset.contains(t));
                    }
                    if hidden_child(s, c, iset) && node(s, c).name[0] != META_MARKER {
                        let t = choose|t: Seq<char>|
                            #[trigger] node(s, c).tags.contains(t) && iset.contains(t);
                        assert(ignore_tags.deep_view().contains(t));
                        assert(tags_intersect_spec(node(s, c).tags, ignore_tags.deep_view()));
                    }
                }
                let taken = node(s, id).child_ids.take(k as int);
                Seq::lemma_filter_push(taken, c, pred);
                assert(taken.push(c) =~= node(s, id).child_ids.take(k + 1));
            }
            if !hidden {
                out.push(c);
            }
            k = k + 1;
        }
        proof {
            assert(node(s, id).child_ids.take(n as int) =~= node(s, id).child_ids);
        }
        Ok(out)
    }

    /// The single child of `parent_id` whose name contains `hint`, hidden
    /// children included. No matching child fails with `NoMatch`, more than
    /// one with `AmbiguousMatch`.
    pub fn get_child_by_name_hint(&self, parent_id: i64, hint: String) -> (r: Result<Idea, Error>)
        requires
            wf(self@),
        ensures
            match r {
                Ok(idea) => valid_id(self@, parent_id) && crate::model::hint_matches(
                    self@,
                    parent_id,
                    hint@,
                ).len() == 1 && idea@ == node(
                    self@,
                    crate::model::hint_matches(self@, parent_id, hint@)[0],
                ),
                Err(e) => (if !valid_id(self@, parent_id) {
                    e == Error::NotFound
                } else if crate::model::hint_matches(self@, parent_id, hint@).len() == 0 {
                    e == Error::NoMatch
                } else {
                    e == Error::AmbiguousMatch && crate::model::hint_matches(
                        self@,
                        parent_id,
                        hint@,
                    ).len() >= 2
                }),
            },
    {
        if parent_id < 1 || parent_id > self.ideas.len() as i64 {
            return Err(Error::NotFound);
        }
        let idx = (parent_id - 1) as usize;
        let ghost s = self@;
        let ghost pred = |c: i64| crate::strutil::contains_seq(node(s, c).name, hint@);
        let total = self.ideas.len();
        let child_ids = &self.ideas[idx].child_ids;
        let n = child_ids.len();
        let mut found: Option<i64> = None;
        let mut k: usize = 0;
        proof {
            crate::idea::lemma_idea_vec_deep_view(&self.ideas);
            assert(node(s, parent_id).child_ids.take(0).filter(pred) =~= Seq::<i64>::empty());
        }
        while k < n
            invariant
                wf(s),
                s == self@,
                valid_id(s, parent_id),
                idx == parent_id - 1,
                n == node(s, parent_id).child_ids.len(),
                child_ids@ == node(s, parent_id).child_ids,
                0 <= k <= n,
                total == self.ideas@.len(),
                s.len() == self.ideas@.len(),
                pred == (|c: i64| crate::strutil::contains_seq(node(s, c).name, hint@)),
                match found {
                    None => node(s, parent_id).child_ids.take(k as int).filter(pred).len() == 0,
                    Some(f) => valid_id(s, f) && node(s, parent_id).child_ids.take(
                        k as int,
                    ).filter(pred) == seq![f],
                },
            decreases n - k,
        {
            let c = child_ids[k];
            proof {
                crate::idea::lemma_idea_vec_deep_view(&self.ideas);
                assert(node(s, parent_id).child_ids[k as int] == c);
                assert(1 <= c <= s.len());
                assert(self.ideas@[c - 1]@ == s[c - 1]);
            }
            let c_idx = (c - 1) as usize;
            proof {
                assert(c_idx as int == c - 1);
            }
            let matched = crate::strutil::str_contains(
                self.ideas[c_idx].name.as_str(),
                hint.as_str(),
            );
            proof {
                assert(matched == pred(c));
                let taken = node(s, parent_id).child_ids.take(k as int);
                Seq::lemma_filter_push(taken, c, pred);
                assert(taken.push(c) =~= node(s, parent_id).child_ids.take(k + 1));
            }
            if matched {
                match found {
                    None => {
                        found = Some(c);
                        proof {
                            let taken = node(s, parent_id).child_ids.take(k as int);
                            assert(taken.filter(pred).push(c) =~= seq![c]);
                        }
                    },
                    Some(_) => {
                        proof {
                            let all_children = node(s, parent_id).child_ids;
                            assert(all_children =~= all_children.take(k + 1) + all_children.skip(
                                k + 1,
                            ));
                            Seq::filter_distributes_over_add(
                                all_children.take(k + 1),
                                all_children.skip(k + 1),
                                pred,
                            );
                            assert(all_children.take(k + 1).filter(pred).len() == 2);
                        }
                        return Err(Error::AmbiguousMatch);
                    },
                }
            }
            k = k + 1;
        }
        proof {
            assert(node(s, parent_id).child_ids.take(n as int) =~= node(s, parent_id).child_ids);
        }
        match found {
            None => Err(Error::NoMatch),
            Some(c) => {
                let c_idx = (c - 1) as usize;
                proof {
                    crate::idea::lemma_idea_vec_deep_view(&self.ideas);
                    assert(c_idx as int == c - 1);
                }
                let dup = self.ideas[c_idx].duplicate();
                proof {
                    assert(dup@ == node(s, c));
                    assert(crate::model::hint_matches(s, parent_id, hint@)[0] == c);
                }
                Ok(dup)
            },
        }
    }

    /// Every idea whose name, description or some tag contains the hint, in
    /// id order.
    pub fn search_ideas(&self, hint: &String) -> (r: Result<Vec<Idea>, Error>)
        requires
            wf(self@),
        ensures
            match r {
                Ok(v) => v.deep_view() == self@.filter(
                    |d: IdeaData| crate::model::idea_matches_hint(d, hint@),
                ),
                Err(_) => false,
            },
    {
        let ghost s = self@;
        let ghost pred = |d: IdeaData| crate::model::idea_matches_hint(d, hint@);
        let n = self.ideas.len();
        let mut out: Vec<Idea> = Vec::new();
        let mut i: usize = 0;
        proof {
            crate::idea::lemma_idea_vec_deep_view(&self.ideas);
            assert(out.deep_view() =~= s.take(0).filter(pred));
        }
        while i < n
            invariant
                wf(s),
                s == self@,
                n == self.ideas@.len(),
                s.len() == n,
                0 <= i <= n,
                pred == (|d: IdeaData| crate::model::idea_matches_hint(d, hint@)),
                out.deep_view() == s.take(i as int).filter(pred),
            decreases n - i,
        {
            proof {
                crate::idea::lemma_idea_vec_deep_view(&self.ideas);
                assert(self.ideas@[i as int]@ == s[i as int]);
            }
            let name_hit = crate::strutil::str_contains(
                self.ideas[i].name.as_str(),
                hint.as_str(),
            );
            let desc_hit = crate::strutil::str_contains(
                self.ideas[i].description.as_str(),
                hint.as_str(),
            );
            let tag_hit = any_tag_contains(&self.ideas[i].tags, hint.as_str());
            let matched = name_hit || desc_hit || tag_hit;
            proof {
                assert(matched == pred(s[i as int])) by {
                    assert(s[i as int].tags == self.ideas@[i as int].tags.deep_view());
                    if tag_hit {
                        let t = choose|t: Seq<char>|
                            #[trigger] self.ideas@[i as int].tags.deep_view().contains(t)
                                && crate::strutil::contains_seq(t, hint@);
                        assert(s[i as int].tags.contains(t));
                    }
                    if !name_hit && !desc_hit && !tag_hit && pred(s[i as int]) {
                        let t = choose|t: Seq<char>|
                            #[trigger] s[i as int].tags.contains(t) && crate::strutil::contains_seq(
                                t,
                                hint@,
                            );
                        assert(self.ideas@[i as int].tags.deep_view().contains(t));
                        assert(false);
                    }
                }
                let taken = s.take(i as int);
                Seq::lemma_filter_push(taken, s[i as int], pred);
                assert(taken.push(s[i as int]) =~= s.take(i + 1));
            }
            if matched {
                let ghost prev = out.deep_view();
                out.push(self.ideas[i].duplicate());
                proof {
                    crate::idea::lemma_idea_vec_deep_view(&out);
                    assert(out.deep_view() =~= prev.push(s[i as int])) by {
                        assert forall|j: int| 0 <= j < out@.len() implies #[trigger] out.deep_view()[j]
                            == prev.push(s[i as int])[j] by {
                            if j < out@.len() - 1 {
                                assert(out.deep_view()[j] == out@[j]@);
                            }
                        }
                    }
                }
            }
            i = i + 1;
        }
        proof {
            assert(s.take(n as int) =~= s);
        }
        Ok(out)
    }

    /// Creates a new idea under the given parent and returns its id, the
    /// next unused one. The name is stored trimmed; a name that trims to
    /// nothing is refused with `EmptyName`, and one that an existing child
    /// of the parent carries with `DuplicateName`. On failure the store is
    /// unchanged.
    pub fn create_idea(&mut self, parent_id: i64, name: String, args: Option<IdeaArgs>) -> (r:
        Result<i64, Error>)
        requires
            wf(old(self)@),
            old(self)@.len() < i64::MAX,
        ensures
            wf(final(self)@),
            match r {
                Ok(new_id) => {
                    &&& valid_id(old(self)@, parent_id)
                    &&& trim_spec(name@).len() > 0
                    &&& !has_child_named(old(self)@, parent_id - 1, trim_spec(name@))
                    &&& new_id == old(self)@.len() + 1
                    &&& final(self)@ == old(self)@.update(
                        parent_id - 1,
                        IdeaData {
                            child_ids: node(old(self)@, parent_id).child_ids.push(new_id),
                            ..node(old(self)@, parent_id)
                        },
                    ).push(
                        IdeaData {
                            id: new_id,
                            name: trim_spec(name@),
                            description: preset_description(&args),
                            tags: preset_tags(&args),
                            parent_id: Some(parent_id),
                            child_ids: Seq::empty(),
                        },
                    )
                },
                Err(e) => final(self)@ == old(self)@ && (if !valid_id(old(self)@, parent_id) {
                    e == Error::NotFound
                } else if trim_spec(name@).len() == 0 {
                    e == Error::EmptyName
                } else {
                    e == Error::DuplicateName && has_child_named(
                        old(self)@,
                        parent_id - 1,
                        trim_spec(name@),
                    )
                }),
            },
    {
        if parent_id < 1 || parent_id > self.ideas.len() as i64 {
            return Err(Error::NotFound);
        }
        let p_idx = (parent_id - 1) as usize;
        let trimmed = trim_str(name.as_str());
        if trimmed.as_str().is_empty() {
            return Err(Error::EmptyName);
        }
        proof {
            lemma_child_scan(self@, p_idx as int, trimmed@);
        }
        if self.scan_children_for_name(p_idx, &trimmed, 0) {
            return Err(Error::DuplicateName);
        }
        let new_id = self.ideas.len() as i64 + 1;
        let (description, tags) = match args {
            Some(a) => (
                match a.description {
                    Some(d) => d,
                    None => String::new(),
                },
                match a.tags {
                    Some(t) => t,
                    None => Vec::new(),
                },
            ),
            None => (String::new(), Vec::new()),
        };
        let idea = Idea {
            id: new_id,
            name: trimmed,
            description,
            tags,
            parent_id: Some(parent_id),
            child_ids: Vec::new(),
        };
        self.ideas.push(idea);
        self.ideas[p_idx].child_ids.push(new_id);
        proof {
            crate::strutil::lemma_trim_shape(name@);
            let nd = IdeaData {
                id: new_id,
                name: trim_spec(name@),
                description: preset_description(&args),
                tags: preset_tags(&args),
                parent_id: Some(parent_id),
                child_ids: Seq::empty(),
            };
            let s2 = old(self)@.update(
                parent_id - 1,
                IdeaData {
                    child_ids: node(old(self)@, parent_id).child_ids.push(new_id),
                    ..node(old(self)@, parent_id)
                },
            ).push(nd);
            assert(self@ =~~= s2);
            crate::model::lemma_create_preserves_wf(old(self)@, self@, parent_id - 1, nd);
        }
        Ok(new_id)
    }

    /// Moves the idea `child_id` under `parent_id`. The root cannot move; a
    /// name collision among the new siblings fails with `DuplicateName`,
    /// and a parent inside the child's own subtree with `WouldCreateCycle`.
    /// A failed move leaves the store exactly as it was.
    pub fn set_parent(&mut self, child_id: i64, parent_id: i64) -> (r: Result<(), Error>)
        requires
            wf(old(self)@),
        ensures
            wf(final(self)@),
            match r {
                Ok(()) => {
                    &&& child_id != ROOT_ID
                    &&& valid_id(old(self)@, child_id)
                    &&& valid_id(old(self)@, parent_id)
                    &&& !has_child_named(
                        old(self)@,
                        parent_id - 1,
                        node(old(self)@, child_id).name,
                    )
                    &&& !root_path(old(self)@, parent_id - 1).contains(child_id - 1)
                    &&& final(self)@ == crate::model::move_result(old(self)@, child_id, parent_id)
                },
                Err(e) => final(self)@ == old(self)@ && (if child_id == ROOT_ID {
                    e == Error::CannotMoveRoot
                } else if !valid_id(old(self)@, child_id) || !valid_id(old(self)@, parent_id) {
                    e == Error::NotFound
                } else if has_child_named(
                    old(self)@,
                    parent_id - 1,
                    node(old(self)@, child_id).name,
                ) {
                    e == Error::DuplicateName
                } else {
                    e == Error::WouldCreateCycle && root_path(old(self)@, parent_id - 1).contains(
                        child_id - 1,
                    )
                }),
            },
    {
        if child_id == ROOT_ID {
            return Err(Error::CannotMoveRoot);
        }
        if child_id < 1 || child_id > self.ideas.len() as i64 {
            return Err(Error::NotFound);
        }
        if parent_id < 1 || parent_id > self.ideas.len() as i64 {
            return Err(Error::NotFound);
        }
        let c_idx = (child_id - 1) as usize;
        let np_idx = (parent_id - 1) as usize;
        proof {
            crate::idea::lemma_idea_vec_deep_view(&self.ideas);
        }
        let child_name = self.ideas[c_idx].name.clone();
        proof {
            lemma_child_scan(self@, np_idx as int, child_name@);
        }
        if self.scan_children_for_name(np_idx, &child_name, 0) {
            return Err(Error::DuplicateName);
        }
        if self.root_walk_contains(np_idx, c_idx) {
            return Err(Error::WouldCreateCycle);
        }
        let op = match self.ideas[c_idx].parent_id {
            Some(p) => p,
            None => {
                proof {
                    assert(self@[c_idx as int].parent_id is Some);
                    assert(false);
                }
                return Err(Error::NotFound);
            },
        };
        let op_idx = (op - 1) as usize;
        proof {
            assert(self@[op - 1].child_ids.contains(child_id));
        }
        let j = self.find_child_index(op_idx, child_id);
        let ghost s1 = self@;
        self.ideas[op_idx].child_ids.remove(j);
        proof {
            crate::idea::lemma_idea_vec_deep_view(&self.ideas);
            assert(self@ =~~= s1.update(
                op - 1,
                IdeaData {
                    child_ids: s1[op - 1].child_ids.remove(j as int),
                    ..s1[op - 1]
                },
            ));
        }
        let ghost sa = self@;
        self.ideas[np_idx].child_ids.push(child_id);
        proof {
            crate::idea::lemma_idea_vec_deep_view(&self.ideas);
            assert(self@ =~~= sa.update(
                parent_id - 1,
                IdeaData {
                    child_ids: sa[parent_id - 1].child_ids.push(child_id),
                    ..sa[parent_id - 1]
                },
            ));
        }
        let ghost sb = self@;
        self.ideas[c_idx].parent_id = Some(parent_id);
        proof {
            crate::idea::lemma_idea_vec_deep_view(&self.ideas);
            assert(self@ =~~= sb.update(
                child_id - 1,
                IdeaData { parent_id: Some(parent_id), ..sb[child_id - 1] },
            ));
            let sj = choose|sj: int|
                0 <= sj < s1[op - 1].child_ids.len() && #[trigger] s1[op - 1].child_ids[sj]
                    == child_id;
            assert(sj == j) by {
                if sj != j {
                    assert(s1[op - 1].child_ids[sj] == s1[op - 1].child_ids[j as int]);
                    assert(false);
                }
            }
            crate::model::lemma_no_self_parent(s1, child_id - 1);
            assert(op != child_id);
            assert(parent_id != child_id) by {
                crate::model::lemma_root_path_exists(s1, parent_id - 1);
                let pp = root_path(s1, parent_id - 1);
                assert(pp[0] == parent_id - 1);
                assert(pp.contains(pp[0]));
            }
            assert(op != parent_id) by {
                if op == parent_id {
                    assert(s1[op - 1].child_ids[j as int] == child_id);
                    assert(has_child_named(s1, parent_id - 1, s1[child_id - 1].name));
                }
            }
            assert(self@ =~~= crate::model::move_result(s1, child_id, parent_id));
            crate::model::lemma_move_preserves_wf(s1, self@, child_id, parent_id);
        }
        Ok(())
    }
}

impl IdeaTree {
    /// Rebuilds a tree from stored records, as a durable store hands them
    /// back: record `k` must carry id `k + 1`. Every invariant is checked;
    /// records that do not form a well-shaped tree are refused with
    /// `StorageIO`.
    pub fn from_records(records: Vec<Idea>) -> (r: Result<IdeaTree, Error>)
        ensures
            match r {
                Ok(t) => wf(records.deep_view()) && t@ == records.deep_view(),
                Err(e) => e == Error::StorageIO && !wf(records.deep_view()),
            },
    {
        let ghost s = records.deep_view();
        proof {
            crate::idea::lemma_idea_vec_deep_view(&records);
        }
        let n = records.len();
        if n == 0 {
            return Err(Error::StorageIO);
        }
        if n as u64 > i64::MAX as u64 {
            return Err(Error::StorageIO);
        }
        if !check_ids(&records) {
            return Err(Error::StorageIO);
        }
        if !check_parents(&records) {
            return Err(Error::StorageIO);
        }
        if !check_children(&records) {
            return Err(Error::StorageIO);
        }
        if !check_parents_listed(&records) {
            return Err(Error::StorageIO);
        }
        if !check_sibling_names(&records) {
            return Err(Error::StorageIO);
        }
        if !check_names(&records) {
            return Err(Error::StorageIO);
        }
        if !check_acyclic(&records) {
            return Err(Error::StorageIO);
        }
        Ok(IdeaTree { ideas: records })
    }
}

/// Decides `ids_sequential` on stored records.
fn check_ids(v: &Vec<Idea>) -> (r: bool)
    requires
        v@.len() <= i64::MAX,
    ensures
        r == ids_sequential(v.deep_view()),
{
    proof {
        crate::idea::lemma_idea_vec_deep_view(v);
    }
    let ghost s = v.deep_view();
    let n = v.len();
    let mut i: usize = 0;
    while i < n
        invariant
            0 <= i <= n,
            n == v@.len(),
            s == v.deep_view(),
            s.len() == n,
            s.len() <= i64::MAX,
            forall|j: int| 0 <= j < i ==> (#[trigger] s[j]).id == j + 1,
        decreases n - i,
    {
        proof {
            crate::idea::lemma_idea_vec_deep_view(v);
            assert(s[i as int] == v@[i as int]@);
        }
        if v[i].id != i as i64 + 1 {
            proof {
                assert(s[i as int].id != i + 1);
            }
            return false;
        }
        i = i + 1;
    }
    true
}

/// Decides `parents_valid` on stored records.
fn check_parents(v: &Vec<Idea>) -> (r: bool)
    requires
        v@.len() >= 1,
        v@.len() <= i64::MAX,
    ensures
        r == parents_valid(v.deep_view()),
{
    proof {
        crate::idea::lemma_idea_vec_deep_view(v);
    }
    let ghost s = v.deep_view();
    let n = v.len();
    match v[0].parent_id {
        Some(_) => {
            return false;
        },
        None => {},
    }
    let mut i: usize = 1;
    while i < n
        invariant
            1 <= i <= n,
            n == v@.len(),
            s == v.deep_view(),
            s.len() == n,
            s.len() <= i64::MAX,
            s[0].parent_id is None,
            forall|j: int|
                1 <= j < i ==> (#[trigger] s[j]).parent_id is Some && 1 <= s[j].parent_id->0
                    <= s.len(),
        decreases n - i,
    {
        proof {
            crate::idea::lemma_idea_vec_deep_view(v);
            assert(s[i as int] == v@[i as int]@);
        }
        match v[i].parent_id {
            Some(p) => {
                if p < 1 || p > n as i64 {
                    proof {
                        assert(n as i64 <= s.len());
                    }
                    return false;
                }
            },
            None => {
                return false;
            },
        }
        i = i + 1;
    }
    true
}

/// Decides `children_point_back` and `child_lists_unique` together on
/// stored records.
fn check_children(v: &Vec<Idea>) -> (r: bool)
    requires
        v@.len() <= i64::MAX,
    ensures
        r == (children_point_back(v.deep_view()) && child_lists_unique(v.deep_view())),
{
    proof {
        crate::idea::lemma_idea_vec_deep_view(v);
    }
    let ghost s = v.deep_view();
    let n = v.len();
    let mut i: usize = 0;
    while i < n
        invariant
            0 <= i <= n,
            n == v@.len(),
            s == v.deep_view(),
            s.len() == n,
            s.len() <= i64::MAX,
            forall|i0: int, k: int|
                0 <= i0 < i && 0 <= k < s[i0].child_ids.len() ==> 1 <= #[trigger] s[i0].child_ids[k]
                    <= s.len() && s[s[i0].child_ids[k] - 1].parent_id == Some((i0 + 1) as i64),
            forall|i0: int, k1: int, k2: int|
                0 <= i0 < i && 0 <= k1 < k2 < s[i0].child_ids.len()
                    ==> #[trigger] s[i0].child_ids[k1] != #[trigger] s[i0].child_ids[k2],
        decreases n - i,
    {
        proof {
            crate::idea::lemma_idea_vec_deep_view(v);
            assert(s[i as int] == v@[i as int]@);
        }
        let m = v[i].child_ids.len();
        let mut k: usize = 0;
        while k < m
            invariant
                0 <= k <= m,
                0 <= i < n,
                n == v@.len(),
                s == v.deep_view(),
                s.len() == n,
                s.len() <= i64::MAX,
                m == s[i as int].child_ids.len(),
                v@[i as int]@ == s[i as int],
                forall|k0: int|
                    0 <= k0 < k ==> 1 <= #[trigger] s[i as int].child_ids[k0] <= s.len()
                        && s[s[i as int].child_ids[k0] - 1].parent_id == Some((i + 1) as i64),
                forall|k1: int, k2: int|
                    0 <= k1 < k2 < k ==> #[trigger] s[i as int].child_ids[k1]
                        != #[trigger] s[i as int].child_ids[k2],
            decreases m - k,
        {
            proof {
                crate::idea::lemma_idea_vec_deep_view(v);
            }
            let c = v[i].child_ids[k];
            if c < 1 || c > n as i64 {
                return false;
            }
            let c_idx = (c - 1) as usize;
            proof {
                assert(s[c - 1] == v@[c - 1]@);
            }
            let back = match v[c_idx].parent_id {
                Some(p) => p == i as i64 + 1,
                None => false,
            };
            if !back {
                proof {
                    assert(s[s[i as int].child_ids[k as int] - 1].parent_id != Some(
                        (i + 1) as i64,
                    ));
                }
                return false;
            }
            // No earlier entry of this list may repeat the id.
            let mut k2: usize = 0;
            while k2 < k
                invariant
                    0 <= k2 <= k < m,
                    0 <= i < n,
                    n == v@.len(),
                    s == v.deep_view(),
                    s.len() == n,
                    m == s[i as int].child_ids.len(),
                    v@[i as int]@ == s[i as int],
                    c == s[i as int].child_ids[k as int],
                    forall|j: int| 0 <= j < k2 ==> #[trigger] s[i as int].child_ids[j] != c,
                decreases k - k2,
            {
                proof {
                    crate::idea::lemma_idea_vec_deep_view(v);
                }
                if v[i].child_ids[k2] == c {
                    return false;
                }
                k2 = k2 + 1;
            }
            k = k + 1;
        }
        i = i + 1;
    }
    true
}

/// Decides `parents_list_children` on stored records.
fn check_parents_listed(v: &Vec<Idea>) -> (r: bool)
    requires
        parents_valid(v.deep_view()),
        v@.len() <= i64::MAX,
    ensures
        r == parents_list_children(v.deep_view()),
{
    proof {
        crate::idea::lemma_idea_vec_deep_view(v);
    }
    let ghost s = v.deep_view();
    let n = v.len();
    let mut c: usize = 1;
    while c < n
        invariant
            1 <= c <= n,
            n == v@.len(),
            s == v.deep_view(),
            s.len() == n,
            s.len() <= i64::MAX,
            parents_valid(s),
            forall|c0: int|
                1 <= c0 < c ==> s[(#[trigger] s[c0]).parent_id->0 - 1].child_ids.contains(
                    (c0 + 1) as i64,
                ),
        decreases n - c,
    {
        proof {
            crate::idea::lemma_idea_vec_deep_view(v);
            assert(s[c as int] == v@[c as int]@);
        }
        let p = match v[c].parent_id {
            Some(p) => p,
            None => {
                proof {
                    assert(false);
                }
                return false;
            },
        };
        let p_idx = (p - 1) as usize;
        proof {
            assert(s[p - 1] == v@[p - 1]@);
        }
        let m = v[p_idx].child_ids.len();
        let mut k: usize = 0;
        let mut listed = false;
        while k < m && !listed
            invariant
                0 <= k <= m,
                0 <= p - 1 < n,
                p_idx == p - 1,
                n == v@.len(),
                s == v.deep_view(),
                s.len() == n,
                s.len() <= i64::MAX,
                m == s[p - 1].child_ids.len(),
                v@[p - 1]@ == s[p - 1],
                c < n,
                listed ==> s[p - 1].child_ids.contains((c + 1) as i64),
                !listed ==> forall|j: int|
                    0 <= j < k ==> #[trigger] s[p - 1].child_ids[j] != (c + 1) as i64,
            decreases m - k,
        {
            proof {
                crate::idea::lemma_idea_vec_deep_view(v);
            }
            if v[p_idx].child_ids[k] == c as i64 + 1 {
                proof {
                    assert(s[p - 1].child_ids[k as int] == (c + 1) as i64);
                }
                listed = true;
            }
            k = k + 1;
        }
        if !listed {
            proof {
                if s[p - 1].child_ids.contains((c + 1) as i64) {
                    let j = choose|j: int|
                        0 <= j < s[p - 1].child_ids.len() && #[trigger] s[p - 1].child_ids[j]
                            == (c + 1) as i64;
                    assert(false);
                }
            }
            return false;
        }
        c = c + 1;
    }
    true
}

/// Decides `sibling_names_unique` on stored records.
fn check_sibling_names(v: &Vec<Idea>) -> (r: bool)
    requires
        children_point_back(v.deep_view()),
        v@.len() <= i64::MAX,
    ensures
        r == sibling_names_unique(v.deep_view()),
{
    proof {
        crate::idea::lemma_idea_vec_deep_view(v);
    }
    let ghost s = v.deep_view();
    let n = v.len();
    let mut i: usize = 0;
    while i < n
        invariant
            0 <= i <= n,
            n == v@.len(),
            s == v.deep_view(),
            s.len() == n,
            children_point_back(s),
            forall|i0: int, k1: int, k2: int|
                0 <= i0 < i && 0 <= k1 < k2 < s[i0].child_ids.len()
                    ==> s[#[trigger] s[i0].child_ids[k1] - 1].name != s[#[trigger] s[i0].child_ids[k2]
                    - 1].name,
        decreases n - i,
    {
        proof {
            crate::idea::lemma_idea_vec_deep_view(v);
            assert(s[i as int] == v@[i as int]@);
        }
        let m = v[i].child_ids.len();
        let mut k2: usize = 0;
        while k2 < m
            invariant
                0 <= k2 <= m,
                0 <= i < n,
                n == v@.len(),
                s == v.deep_view(),
                s.len() == n,
                children_point_back(s),
                m == s[i as int].child_ids.len(),
                v@[i as int]@ == s[i as int],
                forall|j1: int, j2: int|
                    0 <= j1 < j2 < k2 ==> s[#[trigger] s[i as int].child_ids[j1]
                        - 1].name != s[#[trigger] s[i as int].child_ids[j2] - 1].name,
            decreases m - k2,
        {
            let mut k1: usize = 0;
            while k1 < k2
                invariant
                    0 <= k1 <= k2 < m,
                    0 <= i < n,
                    n == v@.len(),
                    s == v.deep_view(),
                    s.len() == n,
                    children_point_back(s),
                    m == s[i as int].child_ids.len(),
                    v@[i as int]@ == s[i as int],
                    forall|j1: int|
                        0 <= j1 < k1 ==> s[#[trigger] s[i as int].child_ids[j1]
                            - 1].name != s[s[i as int].child_ids[k2 as int] - 1].name,
                decreases k2 - k1,
            {
                proof {
                    crate::idea::lemma_idea_vec_deep_view(v);
                    assert(1 <= s[i as int].child_ids[k1 as int] <= s.len());
                    assert(1 <= s[i as int].child_ids[k2 as int] <= s.len());
                }
                let c1 = v[i].child_ids[k1];
                let c2 = v[i].child_ids[k2];
                proof {
                    assert(s[c1 - 1] == v@[c1 - 1]@);
                    assert(s[c2 - 1] == v@[c2 - 1]@);
                }
                if v[(c1 - 1) as usize].name.eq(&v[(c2 - 1) as usize].name) {
                    return false;
                }
                k1 = k1 + 1;
            }
            k2 = k2 + 1;
        }
        i = i + 1;
    }
    true
}

/// Decides `names_valid` on stored records.
fn check_names(v: &Vec<Idea>) -> (r: bool)
    ensures
        r == names_valid(v.deep_view()),
{
    proof {
        crate::idea::lemma_idea_vec_deep_view(v);
    }
    let ghost s = v.deep_view();
    let n = v.len();
    let mut i: usize = 0;
    while i < n
        invariant
            0 <= i <= n,
            n == v@.len(),
            s == v.deep_view(),
            s.len() == n,
            forall|j: int| 0 <= j < i ==> valid_name((#[trigger] s[j]).name),
        decreases n - i,
    {
        proof {
            crate::idea::lemma_idea_vec_deep_view(v);
            assert(s[i as int] == v@[i as int]@);
        }
        let name = &v[i].name;
        let len = name.as_str().unicode_len();
        if len == 0 {
            return false;
        }
        if crate::strutil::is_space(name.as_str().get_char(0)) {
            return false;
        }
        if crate::strutil::is_space(name.as_str().get_char(len - 1)) {
            return false;
        }
        i = i + 1;
    }
    true
}

/// Decides whether the walk up from `start` reaches the root.
fn reaches_root_check(v: &Vec<Idea>, start: usize) -> (r: bool)
    requires
        ids_sequential(v.deep_view()),
        parents_valid(v.deep_view()),
        start < v@.len(),
    ensures
        r == reaches_root(v.deep_view(), start as int),
{
    proof {
        crate::idea::lemma_idea_vec_deep_view(v);
    }
    let ghost s = v.deep_view();
    let n = v.len();
    let mut cur = start;
    let mut steps: usize = 0;
    loop
        invariant
            n == v@.len(),
            s == v.deep_view(),
            s.len() == n,
            ids_sequential(s),
            parents_valid(s),
            cur < n,
            steps <= n,
            reaches_root(s, start as int) == reaches_root(s, cur as int),
            reaches_root(s, cur as int) ==> is_root_path(s, root_path(s, start as int))
                && root_path(s, start as int).len() == root_path(s, cur as int).len() + steps,
        decreases n - steps,
    {
        if cur == 0 {
            proof {
                assert(is_chain(s, seq![0int]));
                assert(is_root_path(s, seq![0int]) && seq![0int][0] == 0);
            }
            return true;
        }
        if steps >= n {
            proof {
                if reaches_root(s, cur as int) {
                    let q0 = root_path(s, start as int);
                    crate::model::lemma_root_path_bounded(s, q0);
                    let qc = root_path(s, cur as int);
                    assert(is_root_path(s, qc) && qc[0] == cur);
                    assert(qc.len() >= 1);
                    assert(q0.len() > n);
                    assert(false);
                }
            }
            return false;
        }
        proof {
            crate::idea::lemma_idea_vec_deep_view(v);
            assert(s[cur as int] == v@[cur as int]@);
        }
        let p = match v[cur].parent_id {
            Some(p) => p,
            None => {
                proof {
                    assert(s[cur as int].parent_id is Some);
                    assert(false);
                }
                return false;
            },
        };
        proof {
            let t = p - 1;
            if reaches_root(s, cur as int) {
                let q = root_path(s, cur as int);
                assert(is_root_path(s, q) && q[0] == cur);
                assert(q.len() > 1) by {
                    if q.len() == 1 {
                        assert(q.last() == q[0]);
                    }
                }
                assert(q[1] == t);
                crate::model::lemma_chain_subrange(s, q, 1, q.len() as int);
                assert(q.drop_first().last() == q.last());
                assert(is_root_path(s, q.drop_first()) && q.drop_first()[0] == t);
                assert(reaches_root(s, t));
                let qt = root_path(s, t);
                crate::model::lemma_root_path_unique(s, q.drop_first(), qt);
                assert(q.len() == qt.len() + 1);
            } else {
                if reaches_root(s, t) {
                    let qt = root_path(s, t);
                    assert(is_root_path(s, qt) && qt[0] == t);
                    assert(is_chain(s, seq![cur as int]));
                    crate::model::lemma_chain_concat(s, seq![cur as int], qt);
                    let w = seq![cur as int] + qt;
                    assert(w.last() == qt.last());
                    assert(is_root_path(s, w) && w[0] == cur);
                    assert(false);
                }
            }
        }
        cur = (p - 1) as usize;
        steps = steps + 1;
    }
}

/// Decides `acyclic` on stored records.
fn check_acyclic(v: &Vec<Idea>) -> (r: bool)
    requires
        ids_sequential(v.deep_view()),
        parents_valid(v.deep_view()),
    ensures
        r == acyclic(v.deep_view()),
{
    proof {
        crate::idea::lemma_idea_vec_deep_view(v);
    }
    let ghost s = v.deep_view();
    let n = v.len();
    let mut i: usize = 0;
    while i < n
        invariant
            0 <= i <= n,
            n == v@.len(),
            s == v.deep_view(),
            s.len() == n,
            ids_sequential(s),
            parents_valid(s),
            forall|j: int| 0 <= j < i ==> reaches_root(s, j),
        decreases n - i,
    {
        if !reaches_root_check(v, i) {
            return false;
        }
        i = i + 1;
    }
    true
}

/// The description a fresh idea starts with: the preset, or empty.
pub open spec fn preset_description(args: &Option<IdeaArgs>) -> Seq<char> {
    match args {
        Some(a) => match a.description {
            Some(d) => d@,
            None => Seq::empty(),
        },
        None => Seq::empty(),
    }
}

/// The tags a fresh idea starts with: the presets, or none.
pub open spec fn preset_tags(args: &Option<IdeaArgs>) -> Seq<Seq<char>> {
    match args {
        Some(a) => match a.tags {
            Some(t) => t.deep_view(),
            None => Seq::empty(),
        },
        None => Seq::empty(),
    }
}

/// Appends a copy of every string in `tags` to `all`.
fn append_tags(all: &mut Vec<String>, tags: &Vec<String>)
    ensures
        final(all).deep_view() == old(all).deep_view() + tags.deep_view(),
{
    let ghost start = all@;
    let n = tags.len();
    let mut i: usize = 0;
    while i < n
        invariant
            0 <= i <= n,
            n == tags@.len(),
            all@ == start + tags@.take(i as int),
        decreases n - i,
    {
        all.push(tags[i].clone());
        proof {
            assert(all@ =~= start + tags@.take(i + 1));
        }
        i = i + 1;
    }
    proof {
        assert(tags@.take(n as int) =~= tags@);
        crate::idea::lemma_string_vec_deep_view(all);
        crate::idea::lemma_string_vec_deep_view(tags);
        assert forall|k: int| 0 <= k < all@.len() implies #[trigger] all.deep_view()[k] == (old(
            all,
        ).deep_view() + tags.deep_view())[k] by {
            if k < start.len() {
                assert(old(all).deep_view()[k] == start[k]@);
                assert(all@[k] == start[k]);
            } else {
                assert(all@[k] == tags@[k - start.len()]);
                assert(tags.deep_view()[k - start.len()] == tags@[k - start.len()]@);
            }
        }
        assert(final(all).deep_view() =~= old(all).deep_view() + tags.deep_view());
    }
}

/// Two tag collections share at least one tag.
pub open spec fn tags_intersect_spec(a: Seq<Seq<char>>, b: Seq<Seq<char>>) -> bool {
    exists|t: Seq<char>| #[trigger] a.contains(t) && b.contains(t)
}

/// Decides whether some tag occurs in both vectors.
fn tags_intersect(a: &Vec<String>, b: &Vec<String>) -> (r: bool)
    ensures
        r == tags_intersect_spec(a.deep_view(), b.deep_view()),
{
    proof {
        crate::idea::lemma_string_vec_deep_view(a);
    }
    let n = a.len();
    let mut i: usize = 0;
    while i < n
        invariant
            0 <= i <= n,
            n == a@.len(),
            a.deep_view().len() == n,
            forall|k: int|
                0 <= k < i ==> !b.deep_view().contains(#[trigger] a.deep_view()[k]),
        decreases n - i,
    {
        proof {
            crate::idea::lemma_string_vec_deep_view(a);
        }
        if vec_contains_string(b, &a[i]) {
            proof {
                assert(a.deep_view()[i as int] == a@[i as int]@);
                assert(a.deep_view().contains(a.deep_view()[i as int]));
            }
            return true;
        }
        i = i + 1;
    }
    proof {
        if tags_intersect_spec(a.deep_view(), b.deep_view()) {
            let t = choose|t: Seq<char>|
                #[trigger] a.deep_view().contains(t) && b.deep_view().contains(t);
            let k = choose|k: int| 0 <= k < a.deep_view().len() && a.deep_view()[k] == t;
            assert(false);
        }
    }
    false
}

/// Decides whether some tag in the vector contains `hint`.
fn any_tag_contains(tags: &Vec<String>, hint: &str) -> (r: bool)
    ensures
        r == exists|t: Seq<char>|
            #[trigger] tags.deep_view().contains(t) && crate::strutil::contains_seq(t, hint@),
{
    proof {
        crate::idea::lemma_string_vec_deep_view(tags);
    }
    let n = tags.len();
    let mut i: usize = 0;
    while i < n
        invariant
            0 <= i <= n,
            n == tags@.len(),
            tags.deep_view().len() == n,
            forall|k: int|
                0 <= k < i ==> !crate::strutil::contains_seq(
                    #[trigger] tags.deep_view()[k],
                    hint@,
                ),
        decreases n - i,
    {
        proof {
            crate::idea::lemma_string_vec_deep_view(tags);
        }
        if crate::strutil::str_contains(tags[i].as_str(), hint) {
            proof {
                assert(tags.deep_view()[i as int] == tags@[i as int]@);
                assert(tags.deep_view().contains(tags.deep_view()[i as int]));
            }
            return true;
        }
        i = i + 1;
    }
    proof {
        if exists|t: Seq<char>|
            #[trigger] tags.deep_view().contains(t) && crate::strutil::contains_seq(t, hint@) {
            let t = choose|t: Seq<char>|
                #[trigger] tags.deep_view().contains(t) && crate::strutil::contains_seq(t, hint@);
            let k = choose|k: int| 0 <= k < tags.deep_view().len() && tags.deep_view()[k] == t;
            assert(false);
        }
    }
    false
}

/// Decides whether the vector holds a string with the given characters.
fn vec_contains_string(v: &Vec<String>, s: &String) -> (r: bool)
    ensures
        r == v.deep_view().contains(s@),
{
    let n = v.len();
    let mut i: usize = 0;
    while i < n
        invariant
            0 <= i <= n,
            n == v.len(),
            forall|k: int| 0 <= k < i ==> #[trigger] v.deep_view()[k] != s@,
        decreases n - i,
    {
        proof {
            crate::idea::lemma_string_vec_deep_view(v);
        }
        if v[i].eq(s) {
            assert(v.deep_view()[i as int] == s@);
            return true;
        }
        i = i + 1;
    }
    false
}

/// The fresh store is well-formed.
proof fn lemma_initial_model_wf()
    ensures
        wf(initial_model()),
{
    let m = initial_model();
    reveal_strlit("Do All the Vastly Impractical Nonsense Conceivable In (short) Bursts Of Time!");
    reveal_strlit(".ignore");
    reveal_strlit(".settings");
    reveal_strlit(".shortcuts");
    assert(m[0] == root_data());
    assert(m[1] == ignore_data());
    assert(m[2] == settings_data());
    assert(m[3] == shortcuts_data());
    assert(valid_name(m[0].name));
    assert(valid_name(m[1].name));
    assert(valid_name(m[2].name));
    assert(valid_name(m[3].name));
    assert(m[1].name != m[2].name);
    assert(m[1].name != m[3].name);
    assert(m[2].name != m[3].name);
    assert(root_data().child_ids[0] == 2);
    assert(root_data().child_ids[1] == 3);
    assert(root_data().child_ids[2] == 4);
    assert(parents_list_children(m)) by {
        assert forall|c: int| 1 <= c < m.len() implies m[(#[trigger] m[c]).parent_id->0
            - 1].child_ids.contains((c + 1) as i64) by {
            assert(m[c].parent_id->0 == 1);
            assert(m[0].child_ids[c - 1] == (c + 1) as i64);
        }
    }
    assert(acyclic(m)) by {
        assert(is_chain(m, seq![0int]));
        assert(is_root_path(m, seq![0int]) && seq![0int][0] == 0);
        assert forall|i: int| 1 <= i < m.len() implies reaches_root(m, i) by {
            let q = seq![i, 0int];
            assert(q.drop_first() =~= seq![0int]);
            assert(m[i].parent_id->0 == 1);
            assert(is_chain(m, q));
            assert(is_root_path(m, q) && q[0] == i);
        }
    }
}

} // verus!
