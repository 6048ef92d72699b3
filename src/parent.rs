use vstd::prelude::*;
use vstd::string::StringExecFns;
use crate::access::{entry_mut, find_entry, key_pos, lookup};
use crate::tree::{leaf, upsert, upsert_entry, ConfItem, ConfSection, Confindent, SectionModel};

verus! {

/// Navigation and building, shared by the document and its sections.
pub trait ConfParent: Sized {
    /// This parent seen as a section: its own value and depth, and its children. The
    /// document has no value and depth 0.
    spec fn parent_model(&self) -> SectionModel;

    /// The depth that a child created here receives.
    spec fn child_depth(&self) -> int;

    /// The child under `key`.
    fn get_child(&self, key: &str) -> (r: Option<&ConfSection>)
        ensures
            match r {
                None => lookup(self.parent_model().children, key@) is None,
                Some(c) => lookup(self.parent_model().children, key@) == Some(c.model()),
            },
    ;

    /// Same as `get_child`.
    fn child(&self, key: &str) -> (r: Option<&ConfSection>)
        ensures
            match r {
                None => lookup(self.parent_model().children, key@) is None,
                Some(c) => lookup(self.parent_model().children, key@) == Some(c.model()),
            },
    {
        self.get_child(key)
    }

    /// The child under `key`, for change; this parent keeps its own value and depth.
    fn get_child_mut(&mut self, key: &str) -> (r: Option<&mut ConfSection>)
        ensures
            r is None ==> lookup(old(self).parent_model().children, key@) is None,
            r is None ==> final(self).parent_model() == old(self).parent_model(),
            r matches Some(c) ==> lookup(old(self).parent_model().children, key@) == Some(
                c.model(),
            ),
            r matches Some(c) ==> {
                let m = old(self).parent_model();
                let p = key_pos(m.children, key@);
                final(self).parent_model() == (SectionModel {
                    value: m.value,
                    depth: m.depth,
                    children: m.children.update(p, (m.children[p].0, final(c).model())),
                })
            },
    ;

    /// Same as `get_child_mut`.
    fn child_mut(&mut self, key: &str) -> (r: Option<&mut ConfSection>)
        ensures
            r is None ==> lookup(old(self).parent_model().children, key@) is None,
            r is None ==> final(self).parent_model() == old(self).parent_model(),
            r matches Some(c) ==> lookup(old(self).parent_model().children, key@) == Some(
                c.model(),
            ),
            r matches Some(c) ==> {
                let m = old(self).parent_model();
                let p = key_pos(m.children, key@);
                final(self).parent_model() == (SectionModel {
                    value: m.value,
                    depth: m.depth,
                    children: m.children.update(p, (m.children[p].0, final(c).model())),
                })
            },
    {
        self.get_child_mut(key)
    }

    /// Adds the child `key` with `value` at `child_depth`, in place of any child under
    /// that key (which is dropped with its subtree).
    fn create_child(&mut self, key: &str, value: &str) -> (r: &mut Self)
        requires
            old(self).child_depth() <= usize::MAX,
        ensures
            ({
                let m = old(self).parent_model();
                r.parent_model() == (SectionModel {
                    value: m.value,
                    depth: m.depth,
                    children: upsert(
                        m.children,
                        key@,
                        leaf(Some(value@), old(self).child_depth() as nat),
                    ),
                })
            }),
            r.child_depth() == old(self).child_depth(),
            *final(self) == *final(r),
    ;

    /// Same as `create_child`.
    fn create(&mut self, key: &str, value: &str) -> (r: &mut Self)
        requires
            old(self).child_depth() <= usize::MAX,
        ensures
            ({
                let m = old(self).parent_model();
                r.parent_model() == (SectionModel {
                    value: m.value,
                    depth: m.depth,
                    children: upsert(
                        m.children,
                        key@,
                        leaf(Some(value@), old(self).child_depth() as nat),
                    ),
                })
            }),
            r.child_depth() == old(self).child_depth(),
            *final(self) == *final(r),
    {
        self.create_child(key, value)
    }

    /// The value of the child under `key`, converted as `ConfSection::get_value` does.
    fn get_child_value<Y: std::str::FromStr>(&self, key: &str) -> (r: Option<Y>)
        ensures
            lookup(self.parent_model().children, key@) is None ==> r is None,
            lookup(self.parent_model().children, key@) matches Some(c) && c.value is None
                ==> r is None,
    {
        match self.get_child(key) {
            None => None,
            Some(c) => c.get::<Y>(),
        }
    }

    /// Same as `get_child_value`.
    fn child_value<Y: std::str::FromStr>(&self, key: &str) -> (r: Option<Y>)
        ensures
            lookup(self.parent_model().children, key@) is None ==> r is None,
            lookup(self.parent_model().children, key@) matches Some(c) && c.value is None
                ==> r is None,
    {
        self.get_child_value::<Y>(key)
    }
}

/// A section as a parent is the section itself, and its children go one level deeper.
pub broadcast proof fn lemma_section_parent(s: &ConfSection)
    ensures
        #[trigger] s.parent_model() == s.model(),
        s.child_depth() == s.model().depth + 1,
{
    s.lemma_model_children();
}

impl ConfParent for ConfSection {
    closed spec fn parent_model(&self) -> SectionModel {
        self.model()
    }

    closed spec fn child_depth(&self) -> int {
        self.indent_level + 1
    }

    fn get_child(&self, key: &str) -> (r: Option<&ConfSection>) {
        proof {
            self.lemma_model_children();
        }
        match find_entry(&self.children, key) {
            None => None,
            Some(p) => Some(&self.children[p].1),
        }
    }

    fn get_child_mut(&mut self, key: &str) -> (r: Option<&mut ConfSection>) {
        proof {
            old(self).lemma_model_children();
        }
        broadcast use crate::tree::lemma_section_model, crate::tree::lemma_entries_model_update;

        entry_mut(&mut self.children, key)
    }

    fn create_child(&mut self, key: &str, value: &str) -> (r: &mut Self) {
        proof {
            old(self).lemma_model_children();
        }
        let sec = ConfSection::new(
            ConfItem::Text(String::from_str(value)),
            self.indent_level + 1,
            Vec::new(),
        );
        assert(sec.model().children =~= Seq::<(Seq<char>, SectionModel)>::empty());
        upsert_entry(&mut self.children, String::from_str(key), sec);
        proof {
            self.lemma_model_children();
        }
        self
    }
}

impl ConfParent for Confindent {
    open spec fn parent_model(&self) -> SectionModel {
        SectionModel { value: None, depth: 0, children: self.model() }
    }

    open spec fn child_depth(&self) -> int {
        0
    }

    fn get_child(&self, key: &str) -> (r: Option<&ConfSection>) {
        proof {
            crate::tree::lemma_doc_model(*self);
        }
        match find_entry(&self.sections, key) {
            None => None,
            Some(p) => Some(&self.sections[p].1),
        }
    }

    fn get_child_mut(&mut self, key: &str) -> (r: Option<&mut ConfSection>) {
        proof {
            crate::tree::lemma_doc_model(*old(self));
        }
        broadcast use crate::tree::lemma_doc_model, crate::tree::lemma_entries_model_update;

        entry_mut(&mut self.sections, key)
    }

    fn create_child(&mut self, key: &str, value: &str) -> (r: &mut Self) {
        proof {
            crate::tree::lemma_doc_model(*old(self));
        }
        let sec = ConfSection::new(ConfItem::Text(String::from_str(value)), 0, Vec::new());
        assert(sec.model().children =~= Seq::<(Seq<char>, SectionModel)>::empty());
        upsert_entry(&mut self.sections, String::from_str(key), sec);
        proof {
            crate::tree::lemma_doc_model(*self);
        }
        self
    }
}

} // verus!
