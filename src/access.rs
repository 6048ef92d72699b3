use vstd::prelude::*;
use crate::render::{trim, trim_text};
use crate::text::{chars_of, string_of};
use crate::tree::{entries_model, ConfItem, ConfSection, Confindent, Entries, SectionModel};

verus! {

/// Position of the most recently declared entry of `m` under `k`, or -1.
pub open spec fn key_pos(m: Entries, k: Seq<char>) -> int
    decreases m.len(),
{
    if m.len() == 0 {
        -1
    } else if m.last().0 == k {
        m.len() - 1
    } else {
        key_pos(m.drop_last(), k)
    }
}

/// The section of `m` under `k`, if any.
pub open spec fn lookup(m: Entries, k: Seq<char>) -> Option<SectionModel> {
    let p = key_pos(m, k);
    if p < 0 {
        None
    } else {
        Some(m[p].1)
    }
}

/// First position at or after `i` that holds a comma (or the end).
pub open spec fn comma_end(s: Seq<char>, i: int) -> int
    decreases s.len() - i,
{
    if 0 <= i < s.len() && s[i] != ',' {
        comma_end(s, i + 1)
    } else {
        i
    }
}

proof fn lemma_comma_end(s: Seq<char>, i: int)
    requires
        0 <= i <= s.len(),
    ensures
        i <= comma_end(s, i) <= s.len(),
        comma_end(s, i) < s.len() ==> s[comma_end(s, i)] == ',',
    decreases s.len() - i,
{
    if i < s.len() && s[i] != ',' {
        lemma_comma_end(s, i + 1);
    }
}

/// The comma-separated pieces of `s` from position `i` on, each trimmed.
pub open spec fn items_from(s: Seq<char>, i: int) -> Seq<Seq<char>>
    decreases s.len() - i,
    via items_from_decreases
{
    if i < 0 || i > s.len() {
        Seq::empty()
    } else {
        let e = comma_end(s, i);
        let first = seq![trim(s.subrange(i, e))];
        if e < s.len() {
            first + items_from(s, e + 1)
        } else {
            first
        }
    }
}

#[via_fn]
proof fn items_from_decreases(s: Seq<char>, i: int) {
    if 0 <= i <= s.len() {
        lemma_comma_end(s, i);
    }
}

/// The items of a list value: its comma-separated pieces, each trimmed.
pub open spec fn list_items(s: Seq<char>) -> Seq<Seq<char>> {
    items_from(s, 0)
}

/// Splits a list value at each comma and trims each piece.
pub fn split_list(s: &str) -> (r: Vec<String>)
    ensures
        r@.map_values(|x: String| x@) == list_items(s@),
{
    let t = chars_of(s);
    let n = t.len();
    let mut r: Vec<String> = Vec::new();
    let mut i: usize = 0;
    loop
        invariant
            t@ == s@,
            n == s@.len(),
            i <= n,
            r@.map_values(|x: String| x@) + items_from(s@, i as int) == list_items(s@),
        decreases n - i,
    {
        let mut e = i;
        while e < n && t[e] != ','
            invariant
                i <= e <= n == s@.len(),
                t@ == s@,
                comma_end(s@, i as int) == comma_end(s@, e as int),
            decreases n - e,
        {
            e += 1;
        }
        let raw = string_of(&t, i, e);
        let piece = trim_text(raw.as_str());
        let ghost before = r@;
        r.push(piece);
        assert(r@.map_values(|x: String| x@) =~= before.map_values(|x: String| x@).push(piece@));
        if e < n {
            assert(items_from(s@, i as int) =~= seq![piece@] + items_from(s@, e + 1));
            i = e + 1;
        } else {
            assert(items_from(s@, i as int) =~= seq![piece@]);
            assert(items_from(s@, e as int + 1) =~= Seq::<Seq<char>>::empty());
            assert(r@.map_values(|x: String| x@) =~= list_items(s@));
            return r;
        }
    }
}

/// Every part, in order, when all are present; `None` when any is missing.
pub fn all_or_nothing<T>(parts: Vec<Option<T>>) -> (r: Option<Vec<T>>)
    ensures
        r is Some <==> (forall|i: int| 0 <= i < parts@.len() ==> parts@[i] is Some),
        r matches Some(v) ==> v@.len() == parts@.len(),
        r matches Some(v) ==> forall|i: int| 0 <= i < parts@.len() ==> parts@[i] == Some(v@[i]),
{
    let mut i: usize = 0;
    while i < parts.len()
        invariant
            i <= parts@.len(),
            forall|j: int| 0 <= j < i ==> parts@[j] is Some,
        decreases parts@.len() - i,
    {
        match &parts[i] {
            None => return None,
            Some(_) => {},
        }
        i += 1;
    }
    let ghost orig = parts@;
    let ghost n = orig.len();
    let mut rest = parts;
    let mut back: Vec<T> = Vec::new();
    while rest.len() > 0
        invariant
            n == orig.len(),
            forall|j: int| 0 <= j < n ==> orig[j] is Some,
            rest@ == orig.subrange(0, rest@.len() as int),
            back@.len() == n - rest@.len(),
            forall|j: int| 0 <= j < back@.len() ==> orig[n - 1 - j] == Some(back@[j]),
        decreases rest@.len(),
    {
        match rest.pop() {
            Some(Some(x)) => back.push(x),
            _ => {},
        }
    }
    let mut out: Vec<T> = Vec::new();
    while back.len() > 0
        invariant
            n == orig.len(),
            out@.len() + back@.len() == n,
            forall|j: int| 0 <= j < out@.len() ==> orig[j] == Some(out@[j]),
            forall|j: int| 0 <= j < back@.len() ==> orig[n - 1 - j] == Some(back@[j]),
        decreases back@.len(),
    {
        match back.pop() {
            Some(x) => out.push(x),
            None => {},
        }
    }
    Some(out)
}

/// Relies on str::parse: the conversion is `T`'s own `FromStr`; its error becomes `None`.
#[verifier::external_body]
fn parse_as<T: std::str::FromStr>(s: &str) -> (r: Option<T>) {
    s.parse::<T>().ok()
}

/// Position of the entry under `key` in `v`, the most recently declared one.
pub(crate) fn find_entry(v: &Vec<(String, ConfSection)>, key: &str) -> (r: Option<usize>)
    ensures
        match r {
            None => key_pos(entries_model(v@), key@) == -1,
            Some(p) => key_pos(entries_model(v@), key@) == p && p < v@.len(),
        },
{
    let ghost m = entries_model(v@);
    let k = String::from_str(key);
    let mut i = v.len();
    assert(m.subrange(0, v@.len() as int) =~= m);
    while i > 0
        invariant
            i <= v@.len(),
            k@ == key@,
            m == entries_model(v@),
            key_pos(m, key@) == key_pos(m.subrange(0, i as int), key@),
        decreases i,
    {
        proof {
            assert(m.subrange(0, i as int).drop_last() =~= m.subrange(0, i - 1));
        }
        if v[i - 1].0 == k {
            assert(m.subrange(0, i as int).last() == m[i - 1]);
            return Some(i - 1);
        }
        i -= 1;
    }
    None
}

/// Entry of `v` under `key`, for change.
pub(crate) fn entry_mut<'a>(v: &'a mut Vec<(String, ConfSection)>, key: &str) -> (r: Option<&'a mut ConfSection>)
    ensures
        match r {
            None => {
                &&& lookup(entries_model(old(v)@), key@) is None
                &&& final(v)@ == old(v)@
            },
            Some(c) => {
                let p = key_pos(entries_model(old(v)@), key@);
                &&& lookup(entries_model(old(v)@), key@) == Some(c.model())
                &&& final(v)@ == old(v)@.update(p, (old(v)@[p].0, *final(c)))
                &&& entries_model(final(v)@) == entries_model(old(v)@).update(
                    p,
                    (entries_model(old(v)@)[p].0, final(c).model()),
                )
            },
        },
{
    broadcast use crate::tree::lemma_entries_model_update;

    match find_entry(v, key) {
        None => None,
        Some(p) => {
            let e = &mut v[p];
            Some(&mut e.1)
        },
    }
}

impl ConfSection {
    /// The value of this section.
    pub fn value(&self) -> (r: &ConfItem)
        ensures
            r@ == self.model().value,
    {
        proof {
            self.lemma_model_children();
        }
        &self.value
    }

    /// The depth this section was given when it was made.
    pub fn indent_level(&self) -> (r: usize)
        ensures
            r == self.model().depth,
    {
        proof {
            self.lemma_model_children();
        }
        self.indent_level
    }

    /// The number of children.
    pub fn child_count(&self) -> (r: usize)
        ensures
            r == self.model().children.len(),
    {
        proof {
            self.lemma_model_children();
        }
        self.children.len()
    }

    /// Replaces the value with `value`.
    pub fn set_value(&mut self, value: &str) -> (r: &mut Self)
        ensures
            r.model() == (SectionModel {
                value: Some(value@),
                depth: old(self).model().depth,
                children: old(self).model().children,
            }),
            *final(self) == *final(r),
    {
        proof {
            old(self).lemma_model_children();
        }
        self.value = ConfItem::Text(String::from_str(value));
        proof {
            self.lemma_model_children();
        }
        self
    }

    /// Same as `set_value`.
    pub fn set(&mut self, value: &str) -> (r: &mut Self)
        ensures
            r.model() == (SectionModel {
                value: Some(value@),
                depth: old(self).model().depth,
                children: old(self).model().children,
            }),
            *final(self) == *final(r),
    {
        self.set_value(value)
    }

    /// The value converted by `T`'s `FromStr`: `None` for an empty value or a failed
    /// conversion.
    pub fn get_value<T: std::str::FromStr>(&self) -> (r: Option<T>)
        ensures
            self.model().value is None ==> r is None,
    {
        proof {
            self.lemma_model_children();
        }
        match &self.value {
            ConfItem::Empty => None,
            ConfItem::Text(s) => parse_as::<T>(s.as_str()),
        }
    }

    /// Same as `get_value`.
    pub fn get<T: std::str::FromStr>(&self) -> (r: Option<T>)
        ensures
            self.model().value is None ==> r is None,
    {
        self.get_value::<T>()
    }

    /// The value read as a comma-separated list, each item trimmed and converted by
    /// `T`'s `FromStr`: `None` for an empty value or when any item fails to convert.
    pub fn get_vec<T: std::str::FromStr>(&self) -> (r: Option<Vec<T>>)
        ensures
            self.model().value is None ==> r is None,
            r matches Some(v) ==> v@.len() == list_items(self.model().value->0).len(),
    {
        proof {
            self.lemma_model_children();
        }
        match &self.value {
            ConfItem::Empty => None,
            ConfItem::Text(s) => {
                let items = split_list(s.as_str());
                let ghost n = list_items(s@).len();
                assert(items@.len() == n) by {
                    assert(items@.map_values(|x: String| x@).len() == items@.len());
                }
                let mut parts: Vec<Option<T>> = Vec::new();
                let mut i: usize = 0;
                while i < items.len()
                    invariant
                        i <= items@.len() == n,
                        parts@.len() == i,
                    decreases items@.len() - i,
                {
                    parts.push(parse_as::<T>(items[i].as_str()));
                    i += 1;
                }
                all_or_nothing(parts)
            },
        }
    }
}

impl Confindent {
    /// The number of top-level sections.
    pub fn len(&self) -> (r: usize)
        ensures
            r == self.model().len(),
    {
        proof {
            crate::tree::lemma_doc_model(*self);
        }
        self.sections.len()
    }

    /// Whether there is no top-level section.
    pub fn is_empty(&self) -> (r: bool)
        ensures
            r == (self.model().len() == 0),
    {
        proof {
            crate::tree::lemma_doc_model(*self);
        }
        self.sections.len() == 0
    }
}

} // verus!
