use vstd::prelude::*;
use crate::parser::{attach, build_from, last_at_depth, line_event, parse_doc};
use crate::render::{
    render_blocks, render_children, render_doc, render_section, tab_after_feeds, trim, trimmed_end,
    value_text,
};
use crate::text::{
    indent_from, is_ws, lemma_indent_bounds, lemma_line_end_bounds, lemma_skip_ws_bounds,
    lemma_token_end_bounds, line_end, skip_ws, token_end,
};
use crate::tree::{
    leaf, lemma_without_absent_key, lemma_without_key_remove, upsert, without_key, Entries,
    SectionModel,
};

verus! {

/// A key or a value as the text format can carry it: non-empty, with no whitespace.
pub open spec fn is_token(t: Seq<char>) -> bool {
    t.len() > 0 && forall|i: int| 0 <= i < t.len() ==> !is_ws(t[i])
}

/// No key stands twice in `m`.
pub open spec fn unique_keys(m: Entries) -> bool {
    forall|i: int, j: int| 0 <= i < j < m.len() ==> m[i].0 != m[j].0
}

/// A section that one line can describe at `depth`: a token key, no value or a token one.
pub open spec fn line_entry(e: (Seq<char>, SectionModel), depth: nat) -> bool {
    &&& is_token(e.0)
    &&& (e.1.value matches Some(t) ==> is_token(t))
    &&& e.1.depth == depth
}

/// A document of top-level sections at depth 0 whose children are at depth 1 and have no
/// children of their own; keys are unique in each mapping.
pub open spec fn two_level(m: Entries) -> bool {
    &&& unique_keys(m)
    &&& forall|i: int|
        #![trigger m[i]]
        0 <= i < m.len() ==> {
            &&& line_entry(m[i], 0)
            &&& unique_keys(m[i].1.children)
            &&& forall|j: int|
                #![trigger m[i].1.children[j]]
                0 <= j < m[i].1.children.len() ==> {
                    &&& line_entry(m[i].1.children[j], 1)
                    &&& m[i].1.children[j].1.children.len() == 0
                }
        }
}

/// Lines joined by line feeds.
pub open spec fn join(l: Seq<Seq<char>>) -> Seq<char>
    decreases l.len(),
{
    if l.len() == 0 {
        Seq::empty()
    } else if l.len() == 1 {
        l[0]
    } else {
        join(l.drop_last()) + seq!['\n'] + l.last()
    }
}

/// The document after each line of `l` is attached in turn.
pub open spec fn fold_lines(l: Seq<Seq<char>>, m: Entries) -> Entries
    decreases l.len(),
{
    if l.len() == 0 {
        m
    } else {
        let m2 = match line_event(l[0]) {
            Some(ev) => attach(m, ev.0, ev.1),
            None => m,
        };
        fold_lines(l.drop_first(), m2)
    }
}

/// The line of an entry, behind `ind`.
pub open spec fn entry_line(ind: Seq<char>, e: (Seq<char>, SectionModel)) -> Seq<char> {
    ind + e.0 + seq![' '] + value_text(e.1.value)
}

/// The lines of the first `c` children of `s`.
pub open spec fn child_lines(s: SectionModel, c: int) -> Seq<Seq<char>>
    decreases c,
{
    if c <= 0 || c > s.children.len() {
        Seq::empty()
    } else {
        child_lines(s, c - 1).push(entry_line(seq!['\t'], s.children[c - 1]))
    }
}

/// The lines of a top-level entry and its children.
pub open spec fn block_lines(e: (Seq<char>, SectionModel)) -> Seq<Seq<char>> {
    seq![entry_line(Seq::empty(), e)] + child_lines(e.1, e.1.children.len() as int)
}

/// The lines of the first `n` top-level entries, an empty line between two blocks.
pub open spec fn doc_lines(m: Entries, n: int) -> Seq<Seq<char>>
    decreases n,
{
    if n <= 0 || n > m.len() {
        Seq::empty()
    } else if n == 1 {
        block_lines(m[0])
    } else {
        doc_lines(m, n - 1) + seq![Seq::<char>::empty()] + block_lines(m[n - 1])
    }
}

proof fn lemma_join_append(a: Seq<Seq<char>>, c: Seq<Seq<char>>)
    requires
        a.len() > 0,
        c.len() > 0,
    ensures
        join(a + c) == join(a) + seq!['\n'] + join(c),
    decreases c.len(),
{
    if c.len() == 1 {
        assert((a + c).drop_last() =~= a);
    } else {
        lemma_join_append(a, c.drop_last());
        assert((a + c).drop_last() =~= a + c.drop_last());
    }
}

proof fn lemma_join_front(l: Seq<Seq<char>>)
    requires
        l.len() >= 2,
    ensures
        join(l) == l[0] + seq!['\n'] + join(l.drop_first()),
    decreases l.len(),
{
    if l.len() > 2 {
        lemma_join_front(l.drop_last());
        let df = l.drop_first();
        assert(l.drop_last().drop_first() =~= df.drop_last());
        assert(df.last() == l.last());
        assert(join(df) == join(df.drop_last()) + seq!['\n'] + df.last());
        assert(join(l) =~= l[0] + seq!['\n'] + join(df));
    } else {
        assert(l.drop_last().len() == 1);
        assert(l.drop_first().len() == 1);
        assert(join(l.drop_last()) == l[0]);
        assert(join(l.drop_first()) == l[1]);
        assert(join(l) == l[0] + seq!['\n'] + l[1]);
    }
}

proof fn lemma_no_feeds(t: Seq<char>)
    requires
        forall|i: int| 0 <= i < t.len() ==> t[i] != '\n',
    ensures
        tab_after_feeds(t) == t,
    decreases t.len(),
{
    if t.len() > 0 {
        lemma_no_feeds(t.drop_last());
        assert(t.drop_last() + seq![t.last()] =~= t);
    }
}

proof fn lemma_children_text(k: Seq<char>, s: SectionModel, c: int)
    requires
        0 <= c <= s.children.len(),
        forall|j: int|
            #![trigger s.children[j]]
            0 <= j < s.children.len() ==> {
                &&& line_entry(s.children[j], 1)
                &&& s.children[j].1.children.len() == 0
            },
    ensures
        join(seq![entry_line(Seq::empty(), (k, s))] + child_lines(s, c))
            == entry_line(Seq::empty(), (k, s)) + render_children(s, c),
    decreases c,
{
    let h = entry_line(Seq::empty(), (k, s));
    if c == 0 {
        assert(seq![h] + child_lines(s, 0) =~= seq![h]);
        assert(render_children(s, 0) =~= Seq::empty());
        assert(h + Seq::<char>::empty() =~= h);
    } else {
        lemma_children_text(k, s, c - 1);
        let e = s.children[c - 1];
        assert(line_entry(e, 1));
        assert(seq![h] + child_lines(s, c) =~= (seq![h] + child_lines(s, c - 1)).push(
            entry_line(seq!['\t'], e),
        ));
        assert(render_children(e.1, e.1.children.len() as int) =~= Seq::empty());
        let own = render_section(e.0, e.1);
        assert(own =~= entry_line(Seq::empty(), e));
        assert(is_ws('\n'));
        assert forall|i: int| 0 <= i < own.len() implies own[i] != '\n' by {
            if i < e.0.len() {
                assert(own[i] == e.0[i]);
            } else if i > e.0.len() {
                assert(own[i] == value_text(e.1.value)[i - e.0.len() - 1]);
            }
        }
        lemma_no_feeds(own);
        assert(seq!['\n', '\t'] + own =~= seq!['\n'] + entry_line(seq!['\t'], e));
        assert((seq![h] + child_lines(s, c)).drop_last() =~= seq![h] + child_lines(s, c - 1));
    }
}

proof fn lemma_block_text(e: (Seq<char>, SectionModel))
    requires
        forall|j: int|
            #![trigger e.1.children[j]]
            0 <= j < e.1.children.len() ==> {
                &&& line_entry(e.1.children[j], 1)
                &&& e.1.children[j].1.children.len() == 0
            },
    ensures
        render_section(e.0, e.1) == join(block_lines(e)),
{
    lemma_children_text(e.0, e.1, e.1.children.len() as int);
    assert(render_section(e.0, e.1) =~= entry_line(Seq::empty(), e) + render_children(
        e.1,
        e.1.children.len() as int,
    ));
}

proof fn lemma_blocks_text(m: Entries, n: int)
    requires
        1 <= n <= m.len(),
        two_level(m),
    ensures
        render_blocks(m, n) == join(doc_lines(m, n)),
        doc_lines(m, n).len() > 0,
    decreases n,
{
    lemma_block_text(m[n - 1]);
    if n > 1 {
        lemma_blocks_text(m, n - 1);
        let a = doc_lines(m, n - 1);
        let b = block_lines(m[n - 1]);
        let sep = seq![Seq::<char>::empty()];
        lemma_join_append(a + sep, b);
        lemma_join_append(a, sep);
        assert(join(sep) == Seq::<char>::empty());
        assert(render_blocks(m, n) =~= join(a + sep + b));
    }
}

proof fn lemma_line_end_run(s: Seq<char>, i: int, j: int)
    requires
        0 <= i <= j <= s.len(),
        forall|t: int| i <= t < j ==> s[t] != '\n',
        j == s.len() || s[j] == '\n',
    ensures
        line_end(s, i) == j,
    decreases j - i,
{
    if i < j {
        lemma_line_end_run(s, i + 1, j);
    }
}

/// One line feed-free line after another: the parser attaches them in turn.
proof fn lemma_build_lines(s: Seq<char>, pre: Seq<char>, l: Seq<Seq<char>>, m: Entries)
    requires
        l.len() > 0,
        s == pre + join(l),
        forall|i: int, t: int| 0 <= i < l.len() && 0 <= t < l[i].len() ==> l[i][t] != '\n',
    ensures
        build_from(s, pre.len() as int, m) == fold_lines(l, m),
    decreases l.len(),
{
    let p = pre.len() as int;
    let first = l[0];
    let m2 = match line_event(first) {
        Some(ev) => attach(m, ev.0, ev.1),
        None => m,
    };
    if l.len() == 1 {
        lemma_line_end_run(s, p, s.len() as int);
        assert(s.subrange(p, s.len() as int) =~= first);
        assert(l.drop_first().len() == 0);
        assert(fold_lines(l, m) == fold_lines(l.drop_first(), m2));
    } else {
        lemma_join_front(l);
        let e = p + first.len();
        lemma_line_end_run(s, p, e);
        assert(s.subrange(p, e) =~= first);
        let pre2 = pre + first + seq!['\n'];
        assert(s =~= pre2 + join(l.drop_first()));
        lemma_build_lines(s, pre2, l.drop_first(), m2);
    }
}

proof fn lemma_token_run(l: Seq<char>, p: int, q: int)
    requires
        0 <= p <= q <= l.len(),
        forall|j: int| p <= j < q ==> !is_ws(l[j]),
        q == l.len() || is_ws(l[q]),
    ensures
        token_end(l, p) == q,
    decreases q - p,
{
    if p < q {
        lemma_token_run(l, p + 1, q);
    }
}

/// The indentation that `entry_line` writes at `depth` (0 or 1).
pub open spec fn indent_of(depth: nat) -> Seq<char> {
    if depth == 0 {
        Seq::empty()
    } else {
        seq!['\t']
    }
}

proof fn lemma_line_event(e: (Seq<char>, SectionModel), d: nat, trimmed: bool)
    requires
        d <= 1,
        line_entry(e, d),
        trimmed ==> e.1.value is None,
    ensures
        ({
            let l = if trimmed {
                indent_of(d) + e.0
            } else {
                entry_line(indent_of(d), e)
            };
            &&& line_event(l) == Some((e.0, leaf(e.1.value, d)))
            &&& forall|t: int| 0 <= t < l.len() ==> l[t] != '\n'
        }),
{
    let ind = indent_of(d);
    let k = e.0;
    let vt = value_text(e.1.value);
    let l = if trimmed {
        ind + k
    } else {
        entry_line(ind, e)
    };
    let n = ind.len() as int;
    assert(is_ws('\t') && is_ws(' ') && is_ws('\n'));
    assert(l[n] == k[0]);
    assert(!is_ws(l[n]));
    if d == 0 {
        assert(indent_from(l, 0) == (0nat, 0int));
    } else {
        assert(l[0] == '\t');
        assert(indent_from(l, 1) == (0nat, 1int));
        assert(indent_from(l, 0) == (1nat, 1int));
    }
    assert(skip_ws(l, n) == n);
    let k1 = n + k.len();
    if trimmed {
        lemma_token_run(l, n, k1);
        assert(l.len() == k1);
        assert(skip_ws(l, k1) == k1);
    } else {
        assert(l[k1] == ' ');
        lemma_token_run(l, n, k1);
        assert(skip_ws(l, k1) == skip_ws(l, k1 + 1));
        if e.1.value is None {
            assert(l.len() == k1 + 1);
            assert(skip_ws(l, k1 + 1) == k1 + 1);
        } else {
            let t = e.1.value->0;
            assert(l[k1 + 1] == t[0]);
            assert(skip_ws(l, k1 + 1) == k1 + 1);
            lemma_token_run(l, k1 + 1, l.len() as int);
            assert(l.subrange(k1 + 1, l.len() as int) =~= t);
        }
    }
    assert(l.subrange(n, k1) =~= k);
    assert forall|t: int| 0 <= t < l.len() implies l[t] != '\n' by {
        if t >= n && t < k1 {
            assert(l[t] == k[t - n]);
        } else if !trimmed && t > k1 {
            assert(l[t] == vt[t - k1 - 1]);
        }
    }
}

proof fn lemma_fold_append(a: Seq<Seq<char>>, b: Seq<Seq<char>>, m: Entries)
    ensures
        fold_lines(a + b, m) == fold_lines(b, fold_lines(a, m)),
    decreases a.len(),
{
    if a.len() > 0 {
        assert((a + b).drop_first() =~= a.drop_first() + b);
        assert((a + b)[0] == a[0]);
        let m2 = match line_event(a[0]) {
            Some(ev) => attach(m, ev.0, ev.1),
            None => m,
        };
        lemma_fold_append(a.drop_first(), b, m2);
    } else {
        assert(a + b =~= b);
    }
}

proof fn lemma_fold_one(l: Seq<char>, m: Entries)
    ensures
        fold_lines(seq![l], m) == match line_event(l) {
            Some(ev) => attach(m, ev.0, ev.1),
            None => m,
        },
{
    let m2 = match line_event(l) {
        Some(ev) => attach(m, ev.0, ev.1),
        None => m,
    };
    assert(seq![l][0] == l);
    assert(seq![l].drop_first().len() == 0);
    assert(fold_lines(seq![l].drop_first(), m2) == m2);
}

/// A top-level entry with only its first `c` children.
pub open spec fn partial(e: (Seq<char>, SectionModel), c: int) -> (Seq<char>, SectionModel) {
    (e.0, SectionModel { value: e.1.value, depth: e.1.depth, children: e.1.children.take(c) })
}

proof fn lemma_fold_children(m: Entries, e: (Seq<char>, SectionModel), c: int)
    requires
        0 <= c <= e.1.children.len(),
        e.1.depth == 0,
        unique_keys(e.1.children),
        forall|j: int|
            #![trigger e.1.children[j]]
            0 <= j < e.1.children.len() ==> {
                &&& line_entry(e.1.children[j], 1)
                &&& e.1.children[j].1.children.len() == 0
            },
    ensures
        fold_lines(child_lines(e.1, c), m.push(partial(e, 0))) == m.push(partial(e, c)),
    decreases c,
{
    if c == 0 {
        assert(child_lines(e.1, 0).len() == 0);
    } else {
        lemma_fold_children(m, e, c - 1);
        let x = e.1.children[c - 1];
        let line = entry_line(seq!['\t'], x);
        lemma_fold_append(child_lines(e.1, c - 1), seq![line], m.push(partial(e, 0)));
        assert(child_lines(e.1, c) == child_lines(e.1, c - 1) + seq![line]);
        let acc = m.push(partial(e, c - 1));
        lemma_fold_one(line, acc);
        lemma_line_event(x, 1, false);
        assert(indent_of(1) == seq!['\t']);
        let n = acc.len() as int;
        assert(acc[n - 1].1.depth == 0);
        assert(last_at_depth(acc, 0, n) == Some(n - 1));
        let kids = e.1.children.take(c - 1);
        assert forall|j: int| 0 <= j < kids.len() implies kids[j].0 != x.0 by {
            assert(kids[j] == e.1.children[j]);
        }
        lemma_without_absent_key(kids, x.0);
        assert(x.1.children =~= Seq::<(Seq<char>, SectionModel)>::empty());
        assert(x.1 == leaf(x.1.value, 1));
        assert(kids.push((x.0, leaf(x.1.value, 1))) =~= e.1.children.take(c));
        assert(attach(acc, x.0, leaf(x.1.value, 1)) =~= m.push(partial(e, c)));
    }
}

proof fn lemma_fold_block(m: Entries, e: (Seq<char>, SectionModel))
    requires
        line_entry(e, 0),
        unique_keys(e.1.children),
        forall|j: int|
            #![trigger e.1.children[j]]
            0 <= j < e.1.children.len() ==> {
                &&& line_entry(e.1.children[j], 1)
                &&& e.1.children[j].1.children.len() == 0
            },
        forall|j: int| 0 <= j < m.len() ==> m[j].0 != e.0,
    ensures
        fold_lines(block_lines(e), m) == m.push(e),
{
    let top = entry_line(Seq::empty(), e);
    lemma_line_event(e, 0, false);
    assert(indent_of(0) == Seq::<char>::empty());
    lemma_fold_append(seq![top], child_lines(e.1, e.1.children.len() as int), m);
    lemma_fold_one(top, m);
    lemma_without_absent_key(m, e.0);
    assert(e.1.children.take(0) =~= Seq::<(Seq<char>, SectionModel)>::empty());
    assert(leaf(e.1.value, 0) == partial(e, 0).1);
    assert(upsert(m, e.0, leaf(e.1.value, 0)) == m.push(partial(e, 0)));
    lemma_fold_children(m, e, e.1.children.len() as int);
    assert(e.1.children.take(e.1.children.len() as int) =~= e.1.children);
}

proof fn lemma_fold_doc(m: Entries, n: int)
    requires
        1 <= n <= m.len(),
        two_level(m),
    ensures
        fold_lines(doc_lines(m, n), Seq::empty()) == m.take(n),
    decreases n,
{
    let e = m[n - 1];
    assert(line_entry(m[n - 1], 0));
    if n == 1 {
        lemma_fold_block(Seq::empty(), e);
        assert(Seq::<(Seq<char>, SectionModel)>::empty().push(e) =~= m.take(1));
    } else {
        lemma_fold_doc(m, n - 1);
        let a = doc_lines(m, n - 1);
        let sep = seq![Seq::<char>::empty()];
        lemma_fold_append(a + sep, block_lines(e), Seq::empty());
        lemma_fold_append(a, sep, Seq::empty());
        lemma_fold_one(Seq::<char>::empty(), m.take(n - 1));
        assert(a + sep + block_lines(e) == doc_lines(m, n));
        assert(indent_from(Seq::<char>::empty(), 0) == (0nat, 0int));
        assert(line_event(Seq::<char>::empty()) is None);
        let prev = m.take(n - 1);
        assert forall|j: int| 0 <= j < prev.len() implies #[trigger] prev[j].0 != e.0 by {
            assert(prev[j] == m[j]);
        }
        lemma_fold_block(m.take(n - 1), e);
        assert(m.take(n - 1).push(e) =~= m.take(n));
    }
}

proof fn lemma_trimmed_end_run(s: Seq<char>, x: int, n: int)
    requires
        0 < x <= n <= s.len(),
        !is_ws(s[x - 1]),
        forall|j: int| x <= j < s.len() ==> is_ws(s[j]),
    ensures
        trimmed_end(s, n) == x,
    decreases n,
{
    if n > x {
        lemma_trimmed_end_run(s, x, n - 1);
    }
}

proof fn lemma_trim(x: Seq<char>, w: Seq<char>)
    requires
        x.len() > 0,
        !is_ws(x[0]),
        !is_ws(x.last()),
        forall|j: int| 0 <= j < w.len() ==> is_ws(w[j]),
    ensures
        trim(x + w) == x,
{
    let s = x + w;
    assert(skip_ws(s, 0) == 0);
    assert forall|j: int| x.len() <= j < s.len() implies is_ws(s[j]) by {
        assert(s[j] == w[j - x.len()]);
    }
    lemma_trimmed_end_run(s, x.len() as int, s.len() as int);
    assert(s.subrange(0, x.len() as int) =~= x);
}

/// No line of `l` holds a line feed.
pub open spec fn clean(l: Seq<Seq<char>>) -> bool {
    forall|i: int, t: int| 0 <= i < l.len() && 0 <= t < l[i].len() ==> l[i][t] != '\n'
}

proof fn lemma_clean_append(a: Seq<Seq<char>>, b: Seq<Seq<char>>)
    requires
        clean(a),
        clean(b),
    ensures
        clean(a + b),
{
    assert forall|i: int, t: int| 0 <= i < (a + b).len() && 0 <= t < (a + b)[i].len() implies (a
        + b)[i][t] != '\n' by {
        if i >= a.len() {
            assert((a + b)[i] == b[i - a.len()]);
        }
    }
}

proof fn lemma_child_lines_clean(e: (Seq<char>, SectionModel), c: int)
    requires
        0 <= c <= e.1.children.len(),
        forall|j: int|
            #![trigger e.1.children[j]]
            0 <= j < e.1.children.len() ==> line_entry(e.1.children[j], 1),
    ensures
        clean(child_lines(e.1, c)),
        child_lines(e.1, c).len() == c,
        c > 0 ==> child_lines(e.1, c).last() == entry_line(seq!['\t'], e.1.children[c - 1]),
    decreases c,
{
    if c > 0 {
        lemma_child_lines_clean(e, c - 1);
        let x = e.1.children[c - 1];
        lemma_line_event(x, 1, false);
        assert(indent_of(1) == seq!['\t']);
        lemma_clean_append(child_lines(e.1, c - 1), seq![entry_line(seq!['\t'], x)]);
        assert(child_lines(e.1, c) == child_lines(e.1, c - 1) + seq![entry_line(seq!['\t'], x)]);
    }
}

/// The entry written on the last line of a non-empty two-level document, and its depth.
pub open spec fn last_line_entry(m: Entries) -> ((Seq<char>, SectionModel), nat) {
    if m.last().1.children.len() > 0 {
        (m.last().1.children.last(), 1)
    } else {
        (m.last(), 0)
    }
}

proof fn lemma_doc_lines_shape(m: Entries, n: int)
    requires
        1 <= n <= m.len(),
        two_level(m),
    ensures
        clean(doc_lines(m, n)),
        doc_lines(m, n).len() > 0,
        doc_lines(m, n)[0] == entry_line(Seq::empty(), m[0]),
        n == m.len() ==> doc_lines(m, n).last() == entry_line(
            indent_of(last_line_entry(m).1),
            last_line_entry(m).0,
        ),
    decreases n,
{
    let e = m[n - 1];
    assert(line_entry(m[n - 1], 0));
    lemma_child_lines_clean(e, e.1.children.len() as int);
    lemma_line_event(e, 0, false);
    assert(indent_of(0) == Seq::<char>::empty());
    let top = seq![entry_line(Seq::empty(), e)];
    lemma_clean_append(top, child_lines(e.1, e.1.children.len() as int));
    let b = block_lines(e);
    if n > 1 {
        lemma_doc_lines_shape(m, n - 1);
        let sep = seq![Seq::<char>::empty()];
        lemma_clean_append(doc_lines(m, n - 1), sep);
        lemma_clean_append(doc_lines(m, n - 1) + sep, b);
        assert(doc_lines(m, n) == doc_lines(m, n - 1) + sep + b);
        assert(doc_lines(m, n).last() == b.last());
        assert(doc_lines(m, n)[0] == doc_lines(m, n - 1)[0]);
    }
    if e.1.children.len() > 0 {
        assert(b.last() == child_lines(e.1, e.1.children.len() as int).last());
    } else {
        assert(b.len() == 1);
    }
}

/// Whether the last line of a non-empty two-level document loses its trailing space.
pub open spec fn last_trimmed(m: Entries) -> bool {
    last_line_entry(m).0.1.value is None
}

/// The last line of the text of a non-empty two-level document, once trimmed.
pub open spec fn last_line(m: Entries) -> Seq<char> {
    let (e, d) = last_line_entry(m);
    if last_trimmed(m) {
        indent_of(d) + e.0
    } else {
        entry_line(indent_of(d), e)
    }
}

/// The lines of the text of a non-empty two-level document.
pub open spec fn text_lines(m: Entries) -> Seq<Seq<char>> {
    doc_lines(m, m.len() as int).drop_last().push(last_line(m))
}

proof fn lemma_last_line(m: Entries)
    requires
        m.len() > 0,
        two_level(m),
    ensures
        line_entry(last_line_entry(m).0, last_line_entry(m).1),
        last_line_entry(m).1 <= 1,
{
    let n = m.len() as int;
    assert(line_entry(m[n - 1], 0));
    if m.last().1.children.len() > 0 {
        let c = m.last().1.children.len() - 1;
        assert(line_entry(m[n - 1].1.children[c], 1));
    }
}

proof fn lemma_text_lines(m: Entries)
    requires
        m.len() > 0,
        two_level(m),
    ensures
        render_doc(m) == join(text_lines(m)),
        clean(text_lines(m)),
        text_lines(m).len() > 0,
{
    let n = m.len() as int;
    lemma_blocks_text(m, n);
    lemma_doc_lines_shape(m, n);
    lemma_last_line(m);
    let l = doc_lines(m, n);
    let (e, d) = last_line_entry(m);
    let trimmed = last_trimmed(m);
    let y = last_line(m);
    let w = if trimmed {
        seq![' ']
    } else {
        Seq::<char>::empty()
    };
    lemma_line_event(e, d, trimmed);
    lemma_line_event(e, d, false);
    assert(entry_line(indent_of(d), e) =~= y + w);
    let l2 = text_lines(m);
    assert(l2.drop_last() =~= l.drop_last());
    let x = join(l2);
    assert(join(l) =~= x + w) by {
        if l.len() > 1 {
            assert(join(l) == join(l.drop_last()) + seq!['\n'] + l.last());
            assert(x == join(l.drop_last()) + seq!['\n'] + y);
        }
    }
    assert(is_ws(' '));
    assert(!is_ws(x[0]) && !is_ws(x.last())) by {
        let k0 = m[0].0;
        assert(line_entry(m[0], 0));
        if l.len() > 1 {
            lemma_join_front(l2);
            assert(l2[0] == l[0]);
            assert(x[0] == l[0][0]);
            assert(l[0][0] == k0[0]);
            assert(x.last() == y.last());
        } else {
            assert(x == y);
            assert(l[0] == l.last());
            assert(d == 0);
            assert(x[0] == k0[0]);
        }
        if trimmed {
            assert(y.last() == e.0.last());
        } else {
            let t = e.1.value->0;
            assert(y.last() == t.last());
        }
    }
    lemma_trim(x, w);
    assert forall|i: int, t: int| 0 <= i < l2.len() && 0 <= t < l2[i].len() implies l2[i][t]
        != '\n' by {
        if i < l2.len() - 1 {
            assert(l2[i] == l[i]);
        }
    }
}

proof fn lemma_fold_text_lines(m: Entries)
    requires
        m.len() > 0,
        two_level(m),
    ensures
        fold_lines(text_lines(m), Seq::empty()) == m,
{
    let n = m.len() as int;
    lemma_doc_lines_shape(m, n);
    lemma_last_line(m);
    let l = doc_lines(m, n);
    let (e, d) = last_line_entry(m);
    let y = last_line(m);
    lemma_line_event(e, d, last_trimmed(m));
    lemma_line_event(e, d, false);
    let l2 = text_lines(m);
    let before = fold_lines(l.drop_last(), Seq::empty());
    lemma_fold_append(l.drop_last(), seq![y], Seq::empty());
    lemma_fold_append(l.drop_last(), seq![l.last()], Seq::empty());
    assert(l2 =~= l.drop_last() + seq![y]);
    assert(l =~= l.drop_last() + seq![l.last()]);
    lemma_fold_one(y, before);
    lemma_fold_one(l.last(), before);
    lemma_fold_doc(m, n);
    assert(m.take(n) =~= m);
}

/// Rendering a two-level document and reading the text back gives the same document:
/// the same keys in the same order, the same values and the same depths.
pub proof fn law_round_trip(m: Entries)
    requires
        two_level(m),
    ensures
        parse_doc(render_doc(m)) == m,
{
    if m.len() == 0 {
        let s = Seq::<char>::empty();
        assert(render_blocks(m, 0) == s);
        assert(skip_ws(s, 0) == 0);
        assert(render_doc(m) == s);
        assert(line_end(s, 0) == 0);
        assert(s.subrange(0, 0) =~= s);
        assert(indent_from(s, 0) == (0nat, 0int));
        assert(line_event(s.subrange(0, 0)) is None);
        assert(m =~= Seq::<(Seq<char>, SectionModel)>::empty());
    } else {
        lemma_text_lines(m);
        lemma_fold_text_lines(m);
        let x = render_doc(m);
        assert(x =~= Seq::<char>::empty() + join(text_lines(m)));
        lemma_build_lines(x, Seq::empty(), text_lines(m), Seq::empty());
    }
}

/// What holds of a top-level entry of any document read from text: a line's key and
/// value, unique child keys, and children one level deeper with no children.
pub open spec fn parsed_entry(e: (Seq<char>, SectionModel)) -> bool {
    &&& line_entry(e, e.1.depth)
    &&& unique_keys(e.1.children)
    &&& forall|j: int|
        #![trigger e.1.children[j]]
        0 <= j < e.1.children.len() ==> {
            &&& line_entry(e.1.children[j], e.1.depth + 1)
            &&& e.1.children[j].1.children.len() == 0
        }
}

/// What holds of any document read from text.
pub open spec fn parsed_shape(m: Entries) -> bool {
    &&& unique_keys(m)
    &&& forall|i: int| #![trigger m[i]] 0 <= i < m.len() ==> parsed_entry(m[i])
}

proof fn lemma_line_event_shape(l: Seq<char>)
    ensures
        line_event(l) matches Some(ev) ==> line_entry(ev, ev.1.depth) && ev.1.children.len() == 0,
{
    let (depth, p) = indent_from(l, 0);
    lemma_indent_bounds(l, 0);
    lemma_skip_ws_bounds(l, p);
    let k0 = skip_ws(l, p);
    if k0 < l.len() {
        lemma_token_end_bounds(l, k0);
        let k1 = token_end(l, k0);
        let key = l.subrange(k0, k1);
        assert forall|i: int| 0 <= i < key.len() implies !is_ws(key[i]) by {
            assert(key[i] == l[k0 + i]);
        }
        lemma_skip_ws_bounds(l, k1);
        let v0 = skip_ws(l, k1);
        if v0 < l.len() {
            lemma_token_end_bounds(l, v0);
            let t = l.subrange(v0, token_end(l, v0));
            assert forall|i: int| 0 <= i < t.len() implies !is_ws(t[i]) by {
                assert(t[i] == l[v0 + i]);
            }
        }
    }
}

/// Dropping a key keeps what holds of every entry and keeps keys unique.
proof fn lemma_without_keeps(
    m: Entries,
    k: Seq<char>,
    ok: spec_fn((Seq<char>, SectionModel)) -> bool,
)
    requires
        unique_keys(m),
        forall|j: int| 0 <= j < m.len() ==> ok(m[j]),
    ensures
        unique_keys(without_key(m, k)),
        forall|i: int| 0 <= i < without_key(m, k).len() ==> ok(without_key(m, k)[i]),
        forall|i: int| 0 <= i < without_key(m, k).len() ==> without_key(m, k)[i].0 != k,
{
    if exists|p: int| 0 <= p < m.len() && m[p].0 == k {
        let p = choose|p: int| 0 <= p < m.len() && m[p].0 == k;
        lemma_without_key_remove(m, k, p);
        let r = m.remove(p);
        assert forall|j: int| 0 <= j < r.len() implies r[j].0 != k by {
            if j < p {
                assert(r[j] == m[j]);
            } else {
                assert(r[j] == m[j + 1]);
            }
        }
        lemma_without_absent_key(r, k);
        assert forall|i: int, j: int| 0 <= i < j < r.len() implies r[i].0 != r[j].0 by {
            let a = if i < p { i } else { i + 1 };
            let b = if j < p { j } else { j + 1 };
            assert(r[i] == m[a] && r[j] == m[b]);
        }
        assert forall|i: int| 0 <= i < r.len() implies ok(r[i]) by {
            if i >= p {
                assert(r[i] == m[i + 1]);
            }
        }
    } else {
        lemma_without_absent_key(m, k);
    }
}

proof fn lemma_attach_shape(m: Entries, k: Seq<char>, s: SectionModel)
    requires
        parsed_shape(m),
        line_entry((k, s), s.depth),
        s.children.len() == 0,
    ensures
        parsed_shape(attach(m, k, s)),
{
    let ok_top = |e: (Seq<char>, SectionModel)| parsed_entry(e);
    let new_top = (k, s);
    assert(parsed_entry(new_top)) by {
        assert(unique_keys(s.children));
    }
    if m.len() == 0 || s.depth == 0 {
        lemma_without_keeps(m, k, ok_top);
    } else {
        match last_at_depth(m, (s.depth - 1) as nat, m.len() as int) {
            Some(i) => {
                lemma_last_at_depth(m, (s.depth - 1) as nat, m.len() as int);
                let e = m[i];
                assert(parsed_entry(e));
                let d = e.1.depth;
                let ok_child = |c: (Seq<char>, SectionModel)|
                    line_entry(c, d + 1) && c.1.children.len() == 0;
                lemma_without_keeps(e.1.children, k, ok_child);
                let kids = upsert(e.1.children, k, s);
                let w = without_key(e.1.children, k);
                assert forall|a: int, b: int| 0 <= a < b < kids.len() implies kids[a].0
                    != kids[b].0 by {
                    if b == kids.len() - 1 {
                        assert(kids[a] == w[a]);
                    } else {
                        assert(kids[a] == w[a] && kids[b] == w[b]);
                    }
                }
                assert forall|j: int| 0 <= j < kids.len() implies ok_child(kids[j]) by {
                    if j < w.len() {
                        assert(kids[j] == w[j]);
                    }
                }
                let ne = (e.0, SectionModel { value: e.1.value, depth: d, children: kids });
                assert(parsed_entry(ne));
                let r = m.update(i, ne);
                assert(r == attach(m, k, s));
                assert forall|a: int, b: int| 0 <= a < b < r.len() implies r[a].0 != r[b].0 by {
                    assert(r[a].0 == m[a].0 && r[b].0 == m[b].0);
                }
                assert forall|j: int| 0 <= j < r.len() implies #[trigger] parsed_entry(r[j]) by {
                    if j != i {
                        assert(r[j] == m[j]);
                    }
                }
            },
            None => {
                lemma_without_keeps(m, k, ok_top);
            },
        }
    }
    if m.len() == 0 || s.depth == 0 || last_at_depth(m, (s.depth - 1) as nat, m.len() as int)
        is None {
        let w = without_key(m, k);
        let r = upsert(m, k, s);
        assert forall|a: int, b: int| 0 <= a < b < r.len() implies r[a].0 != r[b].0 by {
            if b == r.len() - 1 {
                assert(r[a] == w[a]);
            } else {
                assert(r[a] == w[a] && r[b] == w[b]);
            }
        }
        assert forall|j: int| 0 <= j < r.len() implies #[trigger] parsed_entry(r[j]) by {
            if j < w.len() {
                assert(r[j] == w[j]);
                assert(ok_top(w[j]));
            }
        }
    }
}

proof fn lemma_last_at_depth(m: Entries, d: nat, n: int)
    requires
        n <= m.len(),
    ensures
        last_at_depth(m, d, n) matches Some(i) ==> 0 <= i < n && m[i].1.depth == d,
    decreases n,
{
    if n > 0 && m[n - 1].1.depth != d {
        lemma_last_at_depth(m, d, n - 1);
    }
}

proof fn lemma_build_shape(s: Seq<char>, i: int, m: Entries)
    requires
        parsed_shape(m),
    ensures
        parsed_shape(build_from(s, i, m)),
    decreases s.len() - i,
{
    if 0 <= i <= s.len() {
        lemma_line_end_bounds(s, i);
        let e = line_end(s, i);
        let l = s.subrange(i, e);
        lemma_line_event_shape(l);
        let m2 = match line_event(l) {
            Some(ev) => attach(m, ev.0, ev.1),
            None => m,
        };
        if line_event(l) is Some {
            let ev = line_event(l)->0;
            lemma_attach_shape(m, ev.0, ev.1);
        }
        if e < s.len() {
            lemma_build_shape(s, e + 1, m2);
        }
    }
}

/// Reading any text, rendering the document and reading that text back gives the same
/// document, provided every top-level section of the first reading stands at depth 0
/// (no line was kept at the top for want of a parent).
pub proof fn law_round_trip_parsed(s: Seq<char>)
    requires
        forall|i: int| 0 <= i < parse_doc(s).len() ==> #[trigger] parse_doc(s)[i].1.depth == 0,
    ensures
        parse_doc(render_doc(parse_doc(s))) == parse_doc(s),
{
    let m = parse_doc(s);
    assert(parsed_shape(Seq::<(Seq<char>, SectionModel)>::empty()));
    lemma_build_shape(s, 0, Seq::empty());
    assert forall|i: int| #![trigger m[i]] 0 <= i < m.len() implies {
        &&& line_entry(m[i], 0)
        &&& unique_keys(m[i].1.children)
        &&& forall|j: int|
            #![trigger m[i].1.children[j]]
            0 <= j < m[i].1.children.len() ==> {
                &&& line_entry(m[i].1.children[j], 1)
                &&& m[i].1.children[j].1.children.len() == 0
            }
    } by {
        assert(parsed_entry(m[i]));
        assert(m[i].1.depth == 0);
    }
    law_round_trip(m);
}

} // verus!
