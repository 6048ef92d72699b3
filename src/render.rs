use vstd::prelude::*;
use vstd::string::StrSliceExecFns;
use vstd::string::StringExecFns;
use crate::text::{chars_of, is_whitespace, is_ws, push_char, skip_ws};
use crate::tree::{lemma_doc_model, ConfItem, ConfSection, Confindent, Entries, SectionModel};

verus! {

/// The text of a value: nothing for an empty one.
pub open spec fn value_text(v: Option<Seq<char>>) -> Seq<char> {
    match v {
        None => Seq::empty(),
        Some(t) => t,
    }
}

/// `t` with a tab after each of its line feeds.
pub open spec fn tab_after_feeds(t: Seq<char>) -> Seq<char>
    decreases t.len(),
{
    if t.len() == 0 {
        Seq::empty()
    } else {
        tab_after_feeds(t.drop_last()) + if t.last() == '\n' {
            seq!['\n', '\t']
        } else {
            seq![t.last()]
        }
    }
}

/// The text of a section under `key`: `key value`, then each child's own text on the
/// following lines, every one of its lines led by one more tab.
pub open spec fn render_section(key: Seq<char>, m: SectionModel) -> Seq<char>
    decreases m, m.children.len() + 1,
{
    key + seq![' '] + value_text(m.value) + render_children(m, m.children.len() as int)
}

/// The first `n` children of `m`, each after a line feed and a tab, with a tab after
/// every line feed of its own text.
pub open spec fn render_children(m: SectionModel, n: int) -> Seq<char>
    decreases m, n,
    via render_children_decreases
{
    if n <= 0 || n > m.children.len() {
        Seq::empty()
    } else {
        render_children(m, n - 1) + seq!['\n', '\t'] + tab_after_feeds(
            render_section(m.children[n - 1].0, m.children[n - 1].1),
        )
    }
}

#[via_fn]
proof fn render_children_decreases(m: SectionModel, n: int) {
    broadcast use vstd::seq::group_seq_axioms;

    if 0 < n <= m.children.len() {
        assert(decreases_to!(m.children => m.children[n - 1]));
    }
}

/// The first `n` top-level sections one after another, a blank line between two of them.
pub open spec fn render_blocks(m: Entries, n: int) -> Seq<char>
    decreases n,
{
    if n <= 0 || n > m.len() {
        Seq::empty()
    } else if n == 1 {
        render_section(m[0].0, m[0].1)
    } else {
        render_blocks(m, n - 1) + seq!['\n', '\n'] + render_section(m[n - 1].0, m[n - 1].1)
    }
}

/// The end of `s[..n]` once trailing whitespace is dropped.
pub open spec fn trimmed_end(s: Seq<char>, n: int) -> int
    decreases n,
{
    if n > 0 && is_ws(s[n - 1]) {
        trimmed_end(s, n - 1)
    } else {
        n
    }
}

/// `s` without leading and trailing whitespace.
pub open spec fn trim(s: Seq<char>) -> Seq<char> {
    let a = skip_ws(s, 0);
    if a >= s.len() {
        Seq::empty()
    } else {
        s.subrange(a, trimmed_end(s, s.len() as int))
    }
}

/// The text of a whole document.
pub open spec fn render_doc(m: Entries) -> Seq<char> {
    trim(render_blocks(m, m.len() as int))
}

/// `s` without leading and trailing whitespace.
pub fn trim_text(s: &str) -> (r: String)
    ensures
        r@ == trim(s@),
{
    let n = s.unicode_len();
    let mut a: usize = 0;
    while a < n && is_whitespace(s.get_char(a))
        invariant
            a <= n == s@.len(),
            skip_ws(s@, 0) == skip_ws(s@, a as int),
        decreases n - a,
    {
        a += 1;
    }
    if a >= n {
        return String::new();
    }
    let mut b: usize = n;
    proof {
        crate::text::lemma_skip_ws_bounds(s@, a as int);
    }
    while b > a && is_whitespace(s.get_char(b - 1))
        invariant
            a < n == s@.len(),
            a < b <= n,
            !is_ws(s@[a as int]),
            trimmed_end(s@, n as int) == trimmed_end(s@, b as int),
        decreases b,
    {
        b -= 1;
    }
    assert(trimmed_end(s@, b as int) == b);
    String::from_str(s.substring_char(a, b))
}

/// Appends `t` to `out` with a tab after each of its line feeds.
fn append_tabbed(out: &mut String, t: &str)
    ensures
        final(out)@ == old(out)@ + tab_after_feeds(t@),
{
    let v = chars_of(t);
    let mut i: usize = 0;
    while i < v.len()
        invariant
            v@ == t@,
            i <= v@.len(),
            out@ == old(out)@ + tab_after_feeds(v@.subrange(0, i as int)),
        decreases v@.len() - i,
    {
        let ghost before = out@;
        push_char(out, v[i]);
        if v[i] == '\n' {
            push_char(out, '\t');
        }
        proof {
            let p = v@.subrange(0, i + 1);
            assert(p.drop_last() =~= v@.subrange(0, i as int));
            assert(p.last() == v@[i as int]);
        }
        assert(out@ =~= old(out)@ + tab_after_feeds(v@.subrange(0, i + 1)));
        i += 1;
    }
    assert(v@.subrange(0, v@.len() as int) =~= t@);
}

impl ConfSection {
    /// The text of this section under `key`, as `render_section` says.
    pub fn into_string(&self, key: &str) -> (r: String)
        ensures
            r@ == render_section(key@, self.model()),
        decreases self,
    {
        proof {
            self.lemma_model_children();
        }
        let ghost m = self.model();
        let mut out = String::from_str(key);
        push_char(&mut out, ' ');
        match &self.value {
            ConfItem::Empty => {},
            ConfItem::Text(v) => out.append(v.as_str()),
        }
        let ghost head = key@ + seq![' '] + value_text(m.value);
        assert(out@ =~= head + render_children(m, 0));
        let mut j: usize = 0;
        while j < self.children.len()
            invariant
                j <= self.children@.len(),
                m == self.model(),
                m.children == crate::tree::entries_model(self.children@),
                out@ == head + render_children(m, j as int),
            decreases self.children@.len() - j,
        {
            proof {
                self.lemma_child_decreases(j as int);
            }
            let ghost before = out@;
            push_char(&mut out, '\n');
            push_char(&mut out, '\t');
            let text = self.children[j].1.into_string(self.children[j].0.as_str());
            append_tabbed(&mut out, text.as_str());
            proof {
                assert(m.children[j as int] == (
                    self.children@[j as int].0@,
                    self.children@[j as int].1.model(),
                ));
                assert(out@ =~= head + render_children(m, j + 1));
            }
            j += 1;
        }
        out
    }
}

impl Confindent {
    /// The text of the whole document: its top-level sections separated by blank lines,
    /// without leading or trailing whitespace.
    pub fn into_string(&self) -> (r: String)
        ensures
            r@ == render_doc(self.model()),
    {
        proof {
            lemma_doc_model(*self);
        }
        let ghost m = self.model();
        let mut out = String::new();
        assert(out@ =~= render_blocks(m, 0));
        let mut i: usize = 0;
        while i < self.sections.len()
            invariant
                i <= self.sections@.len(),
                m == crate::tree::entries_model(self.sections@),
                out@ == render_blocks(m, i as int),
            decreases self.sections@.len() - i,
        {
            if i > 0 {
                push_char(&mut out, '\n');
                push_char(&mut out, '\n');
            }
            let text = self.sections[i].1.into_string(self.sections[i].0.as_str());
            out.append(text.as_str());
            proof {
                assert(m[i as int] == (
                    self.sections@[i as int].0@,
                    self.sections@[i as int].1.model(),
                ));
                assert(out@ =~= render_blocks(m, i + 1));
            }
            i += 1;
        }
        trim_text(out.as_str())
    }
}

impl From<Confindent> for String {
    /// The text of the document, as `Confindent::into_string` gives it.
    fn from(doc: Confindent) -> String {
        doc.into_string()
    }
}

// Two strings with the same characters need not be equal as values to Verus, so the
// result is stated by `Confindent::into_string`, not here.
impl vstd::std_specs::convert::FromSpecImpl<Confindent> for String {
    open spec fn obeys_from_spec() -> bool {
        false
    }

    open spec fn from_spec(doc: Confindent) -> String {
        choose|r: String| r@ == render_doc(doc.model())
    }
}

} // verus!
