use vstd::prelude::*;

verus! {

/// The scalar payload of a section.
#[derive(Debug, PartialEq)]
pub enum ConfItem {
    Empty,
    Text(String),
}

impl View for ConfItem {
    type V = Option<Seq<char>>;

    open spec fn view(&self) -> Option<Seq<char>> {
        match self {
            ConfItem::Empty => None,
            ConfItem::Text(s) => Some(s@),
        }
    }
}

/// Mathematical picture of a section: its value, its depth and its ordered children.
pub struct SectionModel {
    pub value: Option<Seq<char>>,
    pub depth: nat,
    pub children: Seq<(Seq<char>, SectionModel)>,
}

/// One node of the configuration tree.
#[derive(Debug, PartialEq)]
pub struct ConfSection {
    pub(crate) value: ConfItem,
    pub(crate) indent_level: usize,
    pub(crate) children: Vec<(String, ConfSection)>,
}

impl ConfSection {
    /// The section as a mathematical value, children included.
    pub closed spec fn model(&self) -> SectionModel
        decreases self,
        via Self::lemma_model_decreases
    {
        SectionModel {
            value: self.value@,
            depth: self.indent_level as nat,
            children: Seq::new(
                self.children@.len(),
                |i: int|
                    if 0 <= i < self.children@.len() {
                        let e = self.children@[i];
                        (e.0@, e.1.model())
                    } else {
                        (Seq::empty(), SectionModel { value: None, depth: 0, children: Seq::empty() })
                    },
            ),
        }
    }

    pub(crate) proof fn lemma_model_children(&self)
        ensures
            self.model().children == entries_model(self.children@),
            self.model().value == self.value@,
            self.model().depth == self.indent_level,
    {
        assert(self.model().children =~= entries_model(self.children@));
    }

    pub(crate) proof fn lemma_child_decreases(&self, j: int)
        requires
            0 <= j < self.children@.len(),
        ensures
            decreases_to!(self => self.children@[j].1),
    {
        broadcast use vstd::std_specs::vec::group_vec_axioms;
        broadcast use vstd::seq::group_seq_axioms;

        assert(decreases_to!(self.children => self.children@));
        assert(decreases_to!(self.children@ => self.children@[j]));
    }

    #[via_fn]
    proof fn lemma_model_decreases(&self) {
        broadcast use vstd::std_specs::vec::group_vec_axioms;
        broadcast use vstd::seq::group_seq_axioms;

        assert forall|i: int| 0 <= i < self.children@.len() implies decreases_to!(self => self.children@[i].1) by {
            assert(decreases_to!(self.children => self.children@));
            assert(decreases_to!(self.children@ => self.children@[i]));
        }
    }
}

/// Ordered entries of a mapping, as keys and section models.
pub type Entries = Seq<(Seq<char>, SectionModel)>;

/// The model of stored entries, in order.
pub open spec fn entries_model(v: Seq<(String, ConfSection)>) -> Entries {
    Seq::new(v.len(), |i: int| (v[i].0@, v[i].1.model()))
}

/// A section as it stands alone: no children.
pub open spec fn leaf(value: Option<Seq<char>>, depth: nat) -> SectionModel {
    SectionModel { value, depth, children: Seq::empty() }
}

/// The entries of `m` whose key is not `k`, in order.
pub open spec fn without_key(m: Entries, k: Seq<char>) -> Entries
    decreases m.len(),
{
    if m.len() == 0 {
        m
    } else if m[0].0 == k {
        without_key(m.drop_first(), k)
    } else {
        seq![m[0]] + without_key(m.drop_first(), k)
    }
}

/// Insert with overwrite: any entry under `k` is dropped with its subtree, and the new
/// entry becomes the most recently declared one.
pub open spec fn upsert(m: Entries, k: Seq<char>, s: SectionModel) -> Entries {
    without_key(m, k).push((k, s))
}

pub(crate) proof fn lemma_without_key_remove(m: Entries, k: Seq<char>, i: int)
    requires
        0 <= i < m.len(),
        m[i].0 == k,
    ensures
        without_key(m.remove(i), k) == without_key(m, k),
    decreases i,
{
    if i > 0 {
        lemma_without_key_remove(m.drop_first(), k, i - 1);
        assert(m.remove(i).drop_first() =~= m.drop_first().remove(i - 1));
    } else {
        assert(m.remove(0) =~= m.drop_first());
    }
}

pub(crate) proof fn lemma_without_absent_key(m: Entries, k: Seq<char>)
    requires
        forall|j: int| 0 <= j < m.len() ==> m[j].0 != k,
    ensures
        without_key(m, k) == m,
    decreases m.len(),
{
    if m.len() > 0 {
        lemma_without_absent_key(m.drop_first(), k);
        assert(seq![m[0]] + m.drop_first() =~= m);
    }
}

/// Replaces or adds the entry under `key`, as `upsert` says.
pub(crate) fn upsert_entry(v: &mut Vec<(String, ConfSection)>, key: String, sec: ConfSection)
    ensures
        entries_model(final(v)@) == upsert(entries_model(old(v)@), key@, sec.model()),
{
    let ghost k = key@;
    let mut i: usize = 0;
    while i < v.len()
        invariant
            i <= v@.len(),
            k == key@,
            without_key(entries_model(v@), k) == without_key(entries_model(old(v)@), k),
            forall|j: int| 0 <= j < i ==> v@[j].0@ != k,
        decreases v@.len() - i,
    {
        if v[i].0 == key {
            proof {
                lemma_without_key_remove(entries_model(v@), k, i as int);
                assert(entries_model(v@.remove(i as int)) =~= entries_model(v@).remove(i as int));
            }
            v.remove(i);
        } else {
            i += 1;
        }
    }
    proof {
        lemma_without_absent_key(entries_model(v@), k);
    }
    v.push((key, sec));
    assert(entries_model(v@) =~= upsert(entries_model(old(v)@), k, sec.model()));
}

pub(crate) broadcast proof fn lemma_section_model(s: ConfSection)
    ensures
        #[trigger] s.model() == (SectionModel {
            value: s.value@,
            depth: s.indent_level as nat,
            children: entries_model(s.children@),
        }),
{
    s.lemma_model_children();
}

pub(crate) broadcast proof fn lemma_entries_model_update(
    v: Seq<(String, ConfSection)>,
    p: int,
    e: (String, ConfSection),
)
    requires
        0 <= p < v.len(),
    ensures
        #[trigger] entries_model(v.update(p, e)) == entries_model(v).update(p, (e.0@, e.1.model())),
{
    assert(entries_model(v.update(p, e)) =~= entries_model(v).update(p, (e.0@, e.1.model())));
}

pub(crate) broadcast proof fn lemma_doc_model(d: Confindent)
    ensures
        #[trigger] d.model() == entries_model(d.sections@),
{
}

/// A whole configuration: the ordered top-level sections.
#[derive(Debug, PartialEq)]
pub struct Confindent {
    pub(crate) sections: Vec<(String, ConfSection)>,
}

impl Confindent {
    /// The top-level entries, in declaration order.
    pub closed spec fn model(&self) -> Entries {
        entries_model(self.sections@)
    }

    /// An empty configuration.
    pub fn new() -> (r: Self)
        ensures
            r.model() == Seq::<(Seq<char>, SectionModel)>::empty(),
    {
        let r = Confindent { sections: Vec::new() };
        assert(r.model() =~= Seq::<(Seq<char>, SectionModel)>::empty());
        r
    }
}

} // verus!
