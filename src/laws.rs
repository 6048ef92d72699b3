use vstd::prelude::*;
use crate::access::{key_pos, lookup};
use crate::parser::{attach, last_at_depth};
use crate::tree::{upsert, without_key, Entries, SectionModel};

verus! {

proof fn lemma_without_key_excludes(m: Entries, k: Seq<char>)
    ensures
        forall|i: int| 0 <= i < without_key(m, k).len() ==> without_key(m, k)[i].0 != k,
    decreases m.len(),
{
    if m.len() > 0 {
        lemma_without_key_excludes(m.drop_first(), k);
        let r = without_key(m.drop_first(), k);
        if m[0].0 != k {
            assert forall|i: int| 0 <= i < without_key(m, k).len() implies without_key(m, k)[i].0 != k by {
                if i > 0 {
                    assert(without_key(m, k)[i] == r[i - 1]);
                }
            }
        }
    }
}

proof fn lemma_without_key_push(m: Entries, e: (Seq<char>, SectionModel), k: Seq<char>)
    requires
        e.0 != k,
    ensures
        without_key(m.push(e), k) == without_key(m, k).push(e),
    decreases m.len(),
{
    if m.len() == 0 {
        assert(m.push(e).drop_first() =~= m);
        assert(seq![e] + Seq::<(Seq<char>, SectionModel)>::empty() =~= Seq::empty().push(e));
    } else {
        assert(m.push(e).drop_first() =~= m.drop_first().push(e));
        lemma_without_key_push(m.drop_first(), e, k);
        if m[0].0 != k {
            assert(seq![m[0]] + without_key(m.drop_first(), k).push(e) =~= (seq![m[0]]
                + without_key(m.drop_first(), k)).push(e));
        }
    }
}

/// Creating an entry twice under one key leaves exactly one entry under that key, and it
/// holds the second section.
pub proof fn law_create_overwrites(m: Entries, k: Seq<char>, first: SectionModel, second: SectionModel)
    ensures
        ({
            let twice = upsert(upsert(m, k, first), k, second);
            &&& lookup(twice, k) == Some(second)
            &&& forall|i: int| 0 <= i < twice.len() && twice[i].0 == k ==> i == twice.len() - 1
        }),
{
    let once = upsert(m, k, first);
    let twice = upsert(once, k, second);
    lemma_without_key_excludes(once, k);
    assert(twice.last() == (k, second));
    assert(key_pos(twice, k) == twice.len() - 1);
}

/// After two top-level sections declared in the order `first`, `second`, a section one
/// level deeper becomes a child of `second`, the most recently declared one; `first` is
/// left as it was.
pub proof fn law_attach_to_latest(
    m: Entries,
    first: Seq<char>,
    a: SectionModel,
    second: Seq<char>,
    b: SectionModel,
    k: Seq<char>,
    c: SectionModel,
)
    requires
        a.depth == 0,
        b.depth == 0,
        c.depth == 1,
        first != second,
    ensures
        ({
            let d = attach(attach(attach(m, first, a), second, b), k, c);
            &&& lookup(d, second) == Some(
                SectionModel { value: b.value, depth: b.depth, children: upsert(b.children, k, c) },
            )
            &&& lookup(d, first) == Some(a)
        }),
{
    let d1 = attach(m, first, a);
    let d2 = attach(d1, second, b);
    let d = attach(d2, k, c);
    assert(d1 == upsert(m, first, a));
    assert(d2 == upsert(d1, second, b));
    let n = d2.len() as int;
    assert(d2[n - 1] == (second, b));
    assert(last_at_depth(d2, 0, n) == Some(n - 1));
    let nb = SectionModel { value: b.value, depth: b.depth, children: upsert(b.children, k, c) };
    assert(d == d2.update(n - 1, (second, nb)));
    assert(d.last() == (second, nb));
    assert(key_pos(d, second) == n - 1);
    lemma_without_key_push(without_key(m, first), (first, a), second);
    assert(d.drop_last() =~= without_key(d1, second));
    let w = without_key(without_key(m, first), second);
    assert(without_key(d1, second) == w.push((first, a)));
    assert(key_pos(d.drop_last(), first) == w.len());
    assert(key_pos(d, first) == w.len());
}

} // verus!
