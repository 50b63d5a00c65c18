//! Facts about generated text: brace nesting, line breaks, indentation,
//! and guard lines.
use vstd::prelude::*;

verus! {

/// `s` holds no line break.
pub open spec fn single_line(s: Seq<char>) -> bool {
    forall|i: int| 0 <= i < s.len() ==> #[trigger] s[i] != '\n'
}

/// The nesting depth after reading `s` from depth `d`, where `{` opens and
/// `}` closes; -1 once a `}` closes more than was opened.
pub open spec fn brace_depth(s: Seq<char>, d: int) -> int
    decreases s.len(),
{
    if d < 0 {
        -1
    } else if s.len() == 0 {
        d
    } else if s[0] == '{' {
        brace_depth(s.drop_first(), d + 1)
    } else if s[0] == '}' {
        brace_depth(s.drop_first(), d - 1)
    } else {
        brace_depth(s.drop_first(), d)
    }
}

/// `s` holds no brace.
pub open spec fn brace_free(s: Seq<char>) -> bool {
    forall|i: int| 0 <= i < s.len() ==> #[trigger] s[i] != '{' && s[i] != '}'
}

/// Reading `a` then `b` is reading `a + b`.
pub proof fn lemma_brace_depth_concat(a: Seq<char>, b: Seq<char>, d: int)
    ensures
        brace_depth(a + b, d) == brace_depth(b, brace_depth(a, d)),
    decreases a.len(),
{
    if d < 0 {
        if b.len() > 0 {
            assert(brace_depth(b, -1) == -1);
        }
    } else if a.len() == 0 {
        assert(a + b =~= b);
    } else {
        assert((a + b).drop_first() =~= a.drop_first() + b);
        let d2 = if a[0] == '{' { d + 1 } else if a[0] == '}' { d - 1 } else { d };
        lemma_brace_depth_concat(a.drop_first(), b, d2);
    }
}

/// Text without braces leaves the depth as it was.
pub proof fn lemma_brace_free_depth(s: Seq<char>, d: int)
    requires
        brace_free(s),
        d >= 0,
    ensures
        brace_depth(s, d) == d,
    decreases s.len(),
{
    if s.len() > 0 {
        assert(s[0] != '{' && s[0] != '}');
        lemma_brace_free_depth(s.drop_first(), d);
    }
}

/// Text without braces, joined, has none.
pub proof fn lemma_brace_free_concat(a: Seq<char>, b: Seq<char>)
    requires
        brace_free(a),
        brace_free(b),
    ensures
        brace_free(a + b),
{
    assert forall|i: int| 0 <= i < (a + b).len() implies #[trigger] (a + b)[i] != '{' && (a + b)[i] != '}' by {
        if i >= a.len() {
            assert((a + b)[i] == b[i - a.len()]);
        }
    }
}

/// `s` without its leading spaces.
pub open spec fn trim_indent(s: Seq<char>) -> Seq<char>
    decreases s.len(),
{
    if s.len() > 0 && s[0] == ' ' {
        trim_indent(s.drop_first())
    } else {
        s
    }
}

/// A guard line: past its indentation it begins with `#`.
pub open spec fn is_guard(l: Seq<char>) -> bool {
    trim_indent(l).len() > 0 && trim_indent(l)[0] == '#'
}

/// The length of the first line of `s`, its line break included.
pub open spec fn line_end(s: Seq<char>) -> int
    decreases s.len(),
{
    if s.len() == 0 {
        0
    } else if s[0] == '\n' {
        1
    } else {
        1 + line_end(s.drop_first())
    }
}

/// `s` with every guard line taken out.
pub open spec fn strip_guards(s: Seq<char>) -> Seq<char>
    decreases s.len(),
{
    let k = line_end(s);
    if s.len() == 0 || k < 1 || k > s.len() {
        s
    } else {
        (if is_guard(s.take(k)) {
            Seq::empty()
        } else {
            s.take(k)
        }) + strip_guards(s.skip(k))
    }
}

/// `s` is whole lines: empty, or ending in a line break.
pub open spec fn whole_lines(s: Seq<char>) -> bool {
    s.len() == 0 || s.last() == '\n'
}

/// `s` is indentation only.
pub open spec fn all_spaces(s: Seq<char>) -> bool {
    forall|i: int| 0 <= i < s.len() ==> #[trigger] s[i] == ' '
}

/// The first line of non-empty text ends at its first line break, or at its end.
pub proof fn lemma_line_end_bounds(s: Seq<char>)
    requires
        s.len() > 0,
    ensures
        1 <= line_end(s) <= s.len(),
        s[line_end(s) - 1] == '\n' || line_end(s) == s.len(),
        forall|i: int| 0 <= i < line_end(s) - 1 ==> #[trigger] s[i] != '\n',
    decreases s.len(),
{
    if s[0] != '\n' && s.len() == 1 {
        assert(line_end(s.drop_first()) == 0);
    } else if s[0] != '\n' {
        lemma_line_end_bounds(s.drop_first());
        assert forall|i: int| 0 <= i < line_end(s) - 1 implies #[trigger] s[i] != '\n' by {
            if i > 0 {
                assert(s[i] == s.drop_first()[i - 1]);
            }
        }
    }
}

/// Text that ends a line keeps its first line when more follows.
pub proof fn lemma_line_end_concat(a: Seq<char>, b: Seq<char>)
    requires
        a.len() > 0,
        a.last() == '\n',
    ensures
        line_end(a + b) == line_end(a),
    decreases a.len(),
{
    if a[0] != '\n' {
        assert((a + b).drop_first() =~= a.drop_first() + b);
        lemma_line_end_concat(a.drop_first(), b);
    }
}

/// Whole lines joined are whole lines.
pub proof fn lemma_whole_lines_concat(a: Seq<char>, b: Seq<char>)
    requires
        whole_lines(a),
        whole_lines(b),
    ensures
        whole_lines(a + b),
{
    if b.len() == 0 {
        assert(a + b =~= a);
    }
}

/// Guard lines are taken out of `a + b` line by line where `a` is whole lines.
pub proof fn lemma_strip_concat(a: Seq<char>, b: Seq<char>)
    requires
        whole_lines(a),
    ensures
        strip_guards(a + b) == strip_guards(a) + strip_guards(b),
    decreases a.len(),
{
    if a.len() == 0 {
        assert(a + b =~= b);
        assert(strip_guards(a) + strip_guards(b) =~= strip_guards(b));
    } else {
        lemma_line_end_bounds(a);
        lemma_line_end_concat(a, b);
        let k = line_end(a);
        assert((a + b).take(k) =~= a.take(k));
        assert((a + b).skip(k) =~= a.skip(k) + b);
        if k < a.len() {
            assert(a.skip(k).last() == a.last());
        }
        lemma_strip_concat(a.skip(k), b);
        let piece = if is_guard(a.take(k)) {
            Seq::<char>::empty()
        } else {
            a.take(k)
        };
        assert(strip_guards(a + b) == piece + strip_guards(a.skip(k) + b));
        assert(strip_guards(a) == piece + strip_guards(a.skip(k)));
        assert(piece + (strip_guards(a.skip(k)) + strip_guards(b)) =~= piece + strip_guards(a.skip(k)) + strip_guards(b));
    }
}

/// Indentation before a line that starts with no space is trimmed away.
pub proof fn lemma_trim_indent(ind: Seq<char>, r: Seq<char>)
    requires
        all_spaces(ind),
        r.len() > 0,
        r[0] != ' ',
    ensures
        trim_indent(ind + r) == r,
    decreases ind.len(),
{
    if ind.len() == 0 {
        assert(ind + r =~= r);
    } else {
        assert((ind + r).drop_first() =~= ind.drop_first() + r);
        lemma_trim_indent(ind.drop_first(), r);
    }
}

/// One indented line is kept whole, unless it is a guard, which goes.
pub proof fn lemma_strip_one(ind: Seq<char>, r: Seq<char>)
    requires
        all_spaces(ind),
        r.len() > 0,
        r[0] != ' ',
        r.last() == '\n',
        single_line(r.drop_last()),
    ensures
        strip_guards(ind + r) == if r[0] == '#' {
            Seq::<char>::empty()
        } else {
            ind + r
        },
        whole_lines(ind + r),
{
    let l = ind + r;
    lemma_line_end_bounds(l);
    let k = line_end(l);
    if k < l.len() {
        if k - 1 < ind.len() {
            assert(l[k - 1] == ' ');
        } else {
            assert(l[k - 1] == r.drop_last()[k - 1 - ind.len()]);
        }
    }
    assert(k == l.len());
    assert(l.take(k) =~= l);
    assert(l.skip(k) =~= Seq::<char>::empty());
    assert(strip_guards(Seq::<char>::empty()) =~= Seq::<char>::empty());
    lemma_trim_indent(ind, r);
    assert(is_guard(l) == (r[0] == '#'));
    let piece = if is_guard(l) { Seq::<char>::empty() } else { l };
    assert(strip_guards(l) == piece + strip_guards(l.skip(k)));
    assert(piece + Seq::<char>::empty() =~= piece);
    assert(l.last() == r.last());
}

/// Text without line breaks, joined, has none.
pub proof fn lemma_single_line_concat(a: Seq<char>, b: Seq<char>)
    requires
        single_line(a),
        single_line(b),
    ensures
        single_line(a + b),
{
    assert forall|i: int| 0 <= i < (a + b).len() implies #[trigger] (a + b)[i] != '\n' by {
        if i >= a.len() {
            assert((a + b)[i] == b[i - a.len()]);
        }
    }
}

} // verus!
