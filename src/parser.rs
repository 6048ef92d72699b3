use vstd::prelude::*;
use crate::text::{
    chars_of, indent_from, indent_in, lemma_indent_bounds, lemma_line_end_bounds, line_end,
    line_end_in, skip_ws, skip_ws_in, string_of, token_end, token_end_in,
};
use crate::tree::{
    entries_model, leaf, upsert, upsert_entry, ConfItem, ConfSection, Confindent, Entries, SectionModel,
};

verus! {

/// What one line declares: its key and a childless section, or nothing for a line
/// without a key. Only the first token after the key is kept as the value.
pub open spec fn line_event(l: Seq<char>) -> Option<(Seq<char>, SectionModel)> {
    let (depth, p) = indent_from(l, 0);
    let k0 = skip_ws(l, p);
    if k0 >= l.len() {
        None
    } else {
        let k1 = token_end(l, k0);
        let v0 = skip_ws(l, k1);
        let value = if v0 >= l.len() {
            None
        } else {
            Some(l.subrange(v0, token_end(l, v0)))
        };
        Some((l.subrange(k0, k1), leaf(value, depth)))
    }
}

/// Position of the most recently declared entry among the first `n` of `m` whose
/// depth is `d`.
pub open spec fn last_at_depth(m: Entries, d: nat, n: int) -> Option<int>
    decreases n,
{
    if n <= 0 {
        None
    } else if m[n - 1].1.depth == d {
        Some(n - 1)
    } else {
        last_at_depth(m, d, n - 1)
    }
}

/// Attaching a parsed section to the document's top-level entries: depth 0 (or an empty
/// document) goes to the top; otherwise into the most recently declared top-level
/// section one level up; failing that, to the top anyway.
pub open spec fn attach(m: Entries, k: Seq<char>, s: SectionModel) -> Entries {
    if m.len() == 0 || s.depth == 0 {
        upsert(m, k, s)
    } else {
        match last_at_depth(m, (s.depth - 1) as nat, m.len() as int) {
            Some(i) => m.update(
                i,
                (
                    m[i].0,
                    SectionModel {
                        value: m[i].1.value,
                        depth: m[i].1.depth,
                        children: upsert(m[i].1.children, k, s),
                    },
                ),
            ),
            None => upsert(m, k, s),
        }
    }
}

/// The document after the lines of `s` from position `i` on are attached to `m`.
pub open spec fn build_from(s: Seq<char>, i: int, m: Entries) -> Entries
    decreases s.len() - i,
    via build_from_decreases
{
    if i < 0 || i > s.len() {
        m
    } else {
        let e = line_end(s, i);
        let m2 = match line_event(s.subrange(i, e)) {
            Some(ev) => attach(m, ev.0, ev.1),
            None => m,
        };
        if e < s.len() {
            build_from(s, e + 1, m2)
        } else {
            m2
        }
    }
}

#[via_fn]
proof fn build_from_decreases(s: Seq<char>, i: int, m: Entries) {
    if 0 <= i <= s.len() {
        lemma_line_end_bounds(s, i);
    }
}

/// The document that a text describes.
pub open spec fn parse_doc(s: Seq<char>) -> Entries {
    build_from(s, 0, Seq::empty())
}

/// Reads the line `t[lo..hi]`.
fn parse_line(t: &Vec<char>, lo: usize, hi: usize) -> (r: Option<(String, ConfSection)>)
    requires
        lo <= hi <= t@.len(),
    ensures
        match r {
            None => line_event(t@.subrange(lo as int, hi as int)) is None,
            Some(p) => line_event(t@.subrange(lo as int, hi as int)) == Some((p.0@, p.1.model())),
        },
{
    let ghost l = t@.subrange(lo as int, hi as int);
    let (depth, p) = indent_in(t, lo, hi);
    proof {
        lemma_indent_bounds(l, 0);
    }
    let k0 = skip_ws_in(t, lo, p, hi);
    if k0 >= hi {
        return None;
    }
    let k1 = token_end_in(t, lo, k0, hi);
    let v0 = skip_ws_in(t, lo, k1, hi);
    let value = if v0 >= hi {
        ConfItem::Empty
    } else {
        let v1 = token_end_in(t, lo, v0, hi);
        assert(l.subrange(v0 - lo, v1 - lo) =~= t@.subrange(v0 as int, v1 as int));
        ConfItem::Text(string_of(t, v0, v1))
    };
    let key = string_of(t, k0, k1);
    assert(l.subrange(k0 - lo, k1 - lo) =~= t@.subrange(k0 as int, k1 as int));
    let sec = ConfSection::new(value, depth, Vec::new());
    assert(sec.model().children =~= Seq::<(Seq<char>, SectionModel)>::empty());
    Some((key, sec))
}

impl ConfSection {
    pub(crate) fn new(
        value: ConfItem,
        indent_level: usize,
        children: Vec<(String, ConfSection)>,
    ) -> (r: ConfSection)
        ensures
            r.model() == (SectionModel {
                value: value@,
                depth: indent_level as nat,
                children: entries_model(children@),
            }),
    {
        let r = ConfSection { value, indent_level, children };
        proof {
            r.lemma_model_children();
        }
        r
    }

    /// Reads one line: its key and the section it declares, or `None` for a blank line.
    pub fn parse(s: &str) -> (r: Option<(String, ConfSection)>)
        ensures
            match r {
                None => line_event(s@) is None,
                Some(p) => line_event(s@) == Some((p.0@, p.1.model())),
            },
    {
        let t = chars_of(s);
        assert(t@.subrange(0, t@.len() as int) =~= s@);
        parse_line(&t, 0, t.len())
    }
}

impl Confindent {
    /// Attaches a parsed section, as `attach` says.
    pub(crate) fn add_section(&mut self, key: String, cs: ConfSection)
        ensures
            final(self).model() == attach(old(self).model(), key@, cs.model()),
    {
        proof {
            cs.lemma_model_children();
            crate::tree::lemma_doc_model(*self);
        }
        if self.sections.len() == 0 || cs.indent_level == 0 {
            upsert_entry(&mut self.sections, key, cs);
            proof {
                crate::tree::lemma_doc_model(*self);
            }
            return;
        }
        let ghost m = self.model();
        let ghost d = (cs.model().depth - 1) as nat;
        let mut i = self.sections.len();
        while i > 0
            invariant
                i <= self.sections@.len(),
                self.sections@ == old(self).sections@,
                m == entries_model(self.sections@),
                d == cs.indent_level - 1,
                m.len() > 0,
                cs.indent_level > 0,
                cs.model().depth == cs.indent_level,
                last_at_depth(m, d, m.len() as int) == last_at_depth(m, d, i as int),
            decreases i,
        {
            proof {
                self.sections@[i - 1].1.lemma_model_children();
            }
            if self.sections[i - 1].1.indent_level == cs.indent_level - 1 {
                let ghost before = self.sections@[i - 1];
                let e = &mut self.sections[i - 1];
                upsert_entry(&mut e.1.children, key, cs);
                proof {
                    let after = self.sections@[i - 1];
                    after.1.lemma_model_children();
                    crate::tree::lemma_doc_model(*self);
                    before.1.lemma_model_children();
                    assert(self.sections@ == old(self).sections@.update(i - 1, after));
                    let j = (i - 1) as int;
                    assert(m[j] == (before.0@, before.1.model()));
                    assert(last_at_depth(m, d, i as int) == Some(j));
                    let new_sec = SectionModel {
                        value: m[j].1.value,
                        depth: m[j].1.depth,
                        children: upsert(m[j].1.children, key@, cs.model()),
                    };
                    assert(after.1.model() == new_sec);
                    assert(attach(m, key@, cs.model()) == m.update(j, (m[j].0, new_sec)));
                    crate::tree::lemma_doc_model(*old(self));
                    assert(self.model() == attach(old(self).model(), key@, cs.model()));
                }
                return;
            }
            i -= 1;
        }
        upsert_entry(&mut self.sections, key, cs);
        proof {
            crate::tree::lemma_doc_model(*self);
        }
    }

    /// Reads a whole text. Blank lines and lines without a key are skipped; nothing fails.
    pub fn from_str(s: &str) -> (r: Confindent)
        ensures
            r.model() == parse_doc(s@),
    {
        let t = chars_of(s);
        let n = t.len();
        let mut doc = Confindent::new();
        let mut i: usize = 0;
        loop
            invariant
                t@ == s@,
                n == t@.len(),
                i <= n,
                parse_doc(s@) == build_from(s@, i as int, doc.model()),
            decreases n - i,
        {
            let e = line_end_in(&t, i);
            match parse_line(&t, i, e) {
                Some((k, sec)) => doc.add_section(k, sec),
                None => {},
            }
            if e < n {
                i = e + 1;
            } else {
                return doc;
            }
        }
    }
}

impl std::str::FromStr for Confindent {
    type Err = std::convert::Infallible;

    /// Reads a whole text as `Confindent::from_str` does; this never fails.
    fn from_str(s: &str) -> Result<Confindent, std::convert::Infallible> {
        Ok(Confindent::from_str(s))
    }
}

} // verus!
