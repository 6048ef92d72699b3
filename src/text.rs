use vstd::prelude::*;
use vstd::std_specs::iter::IteratorSpec;

verus! {

/// A character with Unicode's White_Space property.
pub open spec fn is_ws(c: char) -> bool {
    let u = c as u32;
    (0x09 <= u && u <= 0x0d) || u == 0x20 || u == 0x85 || u == 0xa0 || u == 0x1680 || (0x2000
        <= u && u <= 0x200a) || u == 0x2028 || u == 0x2029 || u == 0x202f || u == 0x205f || u
        == 0x3000
}

/// Whether `c` is whitespace, as `is_ws` says.
pub fn is_whitespace(c: char) -> (r: bool)
    ensures
        r == is_ws(c),
{
    let u = c as u32;
    (0x09 <= u && u <= 0x0d) || u == 0x20 || u == 0x85 || u == 0xa0 || u == 0x1680 || (0x2000
        <= u && u <= 0x200a) || u == 0x2028 || u == 0x2029 || u == 0x202f || u == 0x205f || u
        == 0x3000
}

/// Indentation at the start of `l[i..]`: the number of units (one tab, or two spaces)
/// and the position just after them.
pub open spec fn indent_from(l: Seq<char>, i: int) -> (nat, int)
    decreases l.len() - i,
{
    if 0 <= i < l.len() && l[i] == '\t' {
        let r = indent_from(l, i + 1);
        (r.0 + 1, r.1)
    } else if 0 <= i && i + 1 < l.len() && l[i] == ' ' && l[i + 1] == ' ' {
        let r = indent_from(l, i + 2);
        (r.0 + 1, r.1)
    } else {
        (0, i)
    }
}

/// First position at or after `i` that holds no whitespace (or the end).
pub open spec fn skip_ws(l: Seq<char>, i: int) -> int
    decreases l.len() - i,
{
    if 0 <= i < l.len() && is_ws(l[i]) {
        skip_ws(l, i + 1)
    } else {
        i
    }
}

/// First position at or after `i` that holds whitespace (or the end).
pub open spec fn token_end(l: Seq<char>, i: int) -> int
    decreases l.len() - i,
{
    if 0 <= i < l.len() && !is_ws(l[i]) {
        token_end(l, i + 1)
    } else {
        i
    }
}

/// First position at or after `i` that holds a line feed (or the end).
pub open spec fn line_end(s: Seq<char>, i: int) -> int
    decreases s.len() - i,
{
    if 0 <= i < s.len() && s[i] != '\n' {
        line_end(s, i + 1)
    } else {
        i
    }
}

/// The indentation ends within the line and holds at most one unit per character.
pub proof fn lemma_indent_bounds(l: Seq<char>, i: int)
    requires
        0 <= i <= l.len(),
    ensures
        i <= indent_from(l, i).1 <= l.len(),
        indent_from(l, i).0 <= indent_from(l, i).1 - i,
    decreases l.len() - i,
{
    if i < l.len() && l[i] == '\t' {
        lemma_indent_bounds(l, i + 1);
    } else if i + 1 < l.len() && l[i] == ' ' && l[i + 1] == ' ' {
        lemma_indent_bounds(l, i + 2);
    }
}

/// `skip_ws` stops within the line, after whitespace only, at a non-whitespace character
/// or the end.
pub proof fn lemma_skip_ws_bounds(l: Seq<char>, i: int)
    requires
        0 <= i <= l.len(),
    ensures
        i <= skip_ws(l, i) <= l.len(),
        forall|j: int| i <= j < skip_ws(l, i) ==> is_ws(l[j]),
        skip_ws(l, i) < l.len() ==> !is_ws(l[skip_ws(l, i)]),
    decreases l.len() - i,
{
    if i < l.len() && is_ws(l[i]) {
        lemma_skip_ws_bounds(l, i + 1);
    }
}

/// `token_end` stops within the line, after non-whitespace only, at whitespace or the end.
pub proof fn lemma_token_end_bounds(l: Seq<char>, i: int)
    requires
        0 <= i <= l.len(),
    ensures
        i <= token_end(l, i) <= l.len(),
        forall|j: int| i <= j < token_end(l, i) ==> !is_ws(l[j]),
        i < l.len() && !is_ws(l[i]) ==> token_end(l, i) > i,
    decreases l.len() - i,
{
    if i < l.len() && !is_ws(l[i]) {
        lemma_token_end_bounds(l, i + 1);
    }
}

/// `line_end` stops within the text, after no line feed, at a line feed or the end.
pub proof fn lemma_line_end_bounds(s: Seq<char>, i: int)
    requires
        0 <= i <= s.len(),
    ensures
        i <= line_end(s, i) <= s.len(),
        forall|j: int| i <= j < line_end(s, i) ==> s[j] != '\n',
        line_end(s, i) < s.len() ==> s[line_end(s, i)] == '\n',
    decreases s.len() - i,
{
    if i < s.len() && s[i] != '\n' {
        lemma_line_end_bounds(s, i + 1);
    }
}

/// The characters of `s`, one by one.
pub fn chars_of(s: &str) -> (r: Vec<char>)
    ensures
        r@ == s@,
{
    broadcast use vstd::string::group_string_axioms;

    let mut it = s.chars();
    let mut r: Vec<char> = Vec::new();
    loop
        invariant
            r@ + it.remaining() == s@,
        decreases s@.len() - r@.len(),
    {
        match it.next() {
            Some(c) => r.push(c),
            None => {
                assert(r@ =~= s@);
                return r;
            },
        }
    }
}

/// Relies on String::push: appends `c` at the end of `s`.
#[verifier::external_body]
pub(crate) fn push_char(s: &mut String, c: char)
    ensures
        final(s)@ == old(s)@.push(c),
{
    s.push(c)
}

/// The characters `t[a..b]` as a string.
pub fn string_of(t: &Vec<char>, a: usize, b: usize) -> (r: String)
    requires
        a <= b <= t@.len(),
    ensures
        r@ == t@.subrange(a as int, b as int),
{
    let mut r = String::new();
    let mut i = a;
    while i < b
        invariant
            a <= i <= b <= t@.len(),
            r@ == t@.subrange(a as int, i as int),
        decreases b - i,
    {
        push_char(&mut r, t[i]);
        assert(r@ =~= t@.subrange(a as int, i + 1));
        i += 1;
    }
    r
}

/// `skip_ws` over `t[lo..hi]`, in positions of `t`.
pub fn skip_ws_in(t: &Vec<char>, lo: usize, i: usize, hi: usize) -> (r: usize)
    requires
        lo <= i <= hi <= t@.len(),
    ensures
        r as int - lo == skip_ws(t@.subrange(lo as int, hi as int), i - lo),
        i <= r <= hi,
{
    let ghost l = t@.subrange(lo as int, hi as int);
    let mut j = i;
    while j < hi && is_whitespace(t[j])
        invariant
            lo <= i <= j <= hi <= t@.len(),
            l == t@.subrange(lo as int, hi as int),
            skip_ws(l, i - lo) == skip_ws(l, j - lo),
        decreases hi - j,
    {
        j += 1;
    }
    j
}

/// `token_end` over `t[lo..hi]`, in positions of `t`.
pub fn token_end_in(t: &Vec<char>, lo: usize, i: usize, hi: usize) -> (r: usize)
    requires
        lo <= i <= hi <= t@.len(),
    ensures
        r as int - lo == token_end(t@.subrange(lo as int, hi as int), i - lo),
        i <= r <= hi,
{
    let ghost l = t@.subrange(lo as int, hi as int);
    let mut j = i;
    while j < hi && !is_whitespace(t[j])
        invariant
            lo <= i <= j <= hi <= t@.len(),
            l == t@.subrange(lo as int, hi as int),
            token_end(l, i - lo) == token_end(l, j - lo),
        decreases hi - j,
    {
        j += 1;
    }
    j
}

/// `indent_from` over `t[lo..hi]` from its start: depth and position in `t`.
pub fn indent_in(t: &Vec<char>, lo: usize, hi: usize) -> (r: (usize, usize))
    requires
        lo <= hi <= t@.len(),
    ensures
        r.0 as nat == indent_from(t@.subrange(lo as int, hi as int), 0).0,
        r.1 as int - lo == indent_from(t@.subrange(lo as int, hi as int), 0).1,
        lo <= r.1 <= hi,
{
    let ghost l = t@.subrange(lo as int, hi as int);
    let mut depth: usize = 0;
    let mut j = lo;
    proof {
        lemma_indent_bounds(l, 0);
    }
    while j < hi && (t[j] == '\t' || (j + 1 < hi && t[j] == ' ' && t[j + 1] == ' '))
        invariant
            lo <= j <= hi <= t@.len(),
            l == t@.subrange(lo as int, hi as int),
            depth + indent_from(l, j - lo).0 == indent_from(l, 0).0,
            indent_from(l, j - lo).1 == indent_from(l, 0).1,
            depth <= j - lo,
        decreases hi - j,
    {
        proof {
            lemma_indent_bounds(l, j - lo);
        }
        if t[j] == '\t' {
            j += 1;
        } else {
            j += 2;
        }
        depth += 1;
    }
    (depth, j)
}

/// `line_end` over `t`.
pub fn line_end_in(t: &Vec<char>, i: usize) -> (r: usize)
    requires
        i <= t@.len(),
    ensures
        r as int == line_end(t@, i as int),
        i <= r <= t@.len(),
{
    let mut j = i;
    while j < t.len() && t[j] != '\n'
        invariant
            i <= j <= t@.len(),
            line_end(t@, i as int) == line_end(t@, j as int),
        decreases t@.len() - j,
    {
        j += 1;
    }
    j
}

} // verus!
