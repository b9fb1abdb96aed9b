//! The shortcodes that transforming a chapter looks up, so that their markup
//! can be rendered before the chapter is transformed.
use vstd::prelude::*;
use crate::markdown::{
    fences_before, inside_fence, lemma_render_lines_flat, output_lines,
    cell_out, fence_after, render_lines, replace_in_text, replace_outside_code, row_out, transformed, is_fence, is_lone_shortcode, is_table_row, lines, lone_name, starts_with_three,
    strip_cr, table_row_at,
};
use crate::shortcode::{
    is_shortcode_char, lemma_name_run_end_at, name_end, name_run_end, shortcode_at,
};
use crate::text::{
    chars_of, find_char, index_of, skip_space, skip_space_back, string_of, trim, views,
};

verus! {

/// The names of the shortcodes found in plain text, in order.
pub open spec fn text_requests(s: Seq<char>) -> Seq<Seq<char>>
    decreases s.len(),
{
    if s.len() == 0 {
        seq![]
    } else if shortcode_at(s, 0) {
        let k = name_run_end(s, 1);
        seq![s.subrange(1, k)] + text_requests(s.skip(k + 1))
    } else {
        text_requests(s.drop_first())
    }
}

/// The names of the shortcodes found outside backtick code spans.
pub open spec fn code_requests(s: Seq<char>, in_code: bool) -> Seq<Seq<char>>
    decreases s.len(),
{
    let i = index_of(s, '`');
    let head = if in_code {
        Seq::<Seq<char>>::empty()
    } else {
        text_requests(s.take(i))
    };
    if 0 <= i < s.len() {
        head + code_requests(s.skip(i + 1), !in_code)
    } else {
        head
    }
}

/// The names a table cell looks up.
pub open spec fn cell_requests(cell: Seq<char>) -> Seq<Seq<char>> {
    let t = trim(cell);
    let lone = if is_lone_shortcode(t) {
        seq![lone_name(t)]
    } else {
        Seq::<Seq<char>>::empty()
    };
    lone + code_requests(cell, false)
}

/// The names a table row looks up.
pub open spec fn row_requests(line: Seq<char>) -> Seq<Seq<char>>
    decreases line.len(),
{
    let i = index_of(line, '|');
    if 0 <= i < line.len() {
        cell_requests(line.take(i)) + row_requests(line.skip(i + 1))
    } else {
        cell_requests(line)
    }
}

/// The names a line looks up.
pub open spec fn line_requests(line: Seq<char>, in_fence: bool) -> Seq<Seq<char>> {
    if is_fence(line) || in_fence {
        Seq::<Seq<char>>::empty()
    } else if is_table_row(line) {
        row_requests(line)
    } else {
        code_requests(line, false)
    }
}

/// The names a sequence of lines looks up.
pub open spec fn lines_requests(ls: Seq<Seq<char>>, in_fence: bool) -> Seq<Seq<char>>
    decreases ls.len(),
{
    if ls.len() == 0 {
        seq![]
    } else {
        line_requests(ls[0], in_fence) + lines_requests(
            ls.drop_first(),
            fence_after(ls[0], in_fence),
        )
    }
}

/// The names transforming a chapter looks up, in order, with repeats.
pub open spec fn requested(input: Seq<char>) -> Seq<Seq<char>> {
    lines_requests(lines(input), false)
}

proof fn lemma_views_push(s: Seq<String>, x: String)
    ensures
        views(s.push(x)) == views(s).push(x@),
{
    assert(views(s.push(x)) =~= views(s).push(x@));
}

fn text_requests_into(v: &Vec<char>, lo: usize, hi: usize, out: &mut Vec<String>)
    requires
        lo <= hi <= v@.len(),
    ensures
        views(final(out)@) == views(old(out)@) + text_requests(v@.subrange(lo as int, hi as int)),
{
    let ghost target = views(old(out)@) + text_requests(v@.subrange(lo as int, hi as int));
    let mut p = lo;
    while p < hi
        invariant
            lo <= p <= hi <= v@.len(),
            views(out@) + text_requests(v@.subrange(p as int, hi as int)) == target,
        decreases hi - p,
    {
        let ghost s = v@.subrange(p as int, hi as int);
        if v[p] == ':' {
            let k = name_end(v, p + 1, hi);
            proof {
                assert forall|j: int| 1 <= j < k - p implies is_shortcode_char(s[j]) by {
                    assert(s[j] == v@[p + j]);
                }
                if k < hi {
                    assert(s[k - p] == v@[k as int]);
                }
                lemma_name_run_end_at(s, 1, k - p);
            }
            if k > p + 1 && k < hi && v[k] == ':' {
                let name = string_of(v, p + 1, k);
                proof {
                    assert(s[k - p] == v@[k as int]);
                    assert(shortcode_at(s, 0));
                    assert(s.subrange(1, k - p) =~= v@.subrange(p + 1, k as int));
                    assert(s.skip(k - p + 1) =~= v@.subrange(k + 1, hi as int));
                    lemma_views_push(out@, name);
                }
                out.push(name);
                p = k + 1;
                assert(views(out@) + text_requests(v@.subrange(p as int, hi as int)) =~= target);
                continue ;
            }
        }
        proof {
            assert(!shortcode_at(s, 0));
            assert(s.drop_first() =~= v@.subrange(p + 1, hi as int));
        }
        p = p + 1;
    }
    assert(views(out@) =~= target);
}

fn code_requests_into(v: &Vec<char>, lo: usize, hi: usize, out: &mut Vec<String>)
    requires
        lo <= hi <= v@.len(),
    ensures
        views(final(out)@) == views(old(out)@) + code_requests(
            v@.subrange(lo as int, hi as int),
            false,
        ),
{
    let ghost target = views(old(out)@) + code_requests(v@.subrange(lo as int, hi as int), false);
    let mut p = lo;
    let mut in_code = false;
    while p < hi
        invariant
            lo <= p <= hi <= v@.len(),
            views(out@) + code_requests(v@.subrange(p as int, hi as int), in_code) == target,
        decreases hi - p,
    {
        let ghost s = v@.subrange(p as int, hi as int);
        let i = find_char(v, p, hi, '`');
        proof {
            assert(s.take(i - p) =~= v@.subrange(p as int, i as int));
        }
        if !in_code {
            text_requests_into(v, p, i, out);
        }
        if i < hi {
            proof {
                assert(s.skip(i - p + 1) =~= v@.subrange(i + 1, hi as int));
            }
            p = i + 1;
            in_code = !in_code;
            assert(views(out@) + code_requests(v@.subrange(p as int, hi as int), in_code)
                =~= target);
        } else {
            p = hi;
            assert(code_requests(v@.subrange(p as int, hi as int), in_code)
                =~= Seq::<Seq<char>>::empty());
            assert(views(out@) =~= target);
        }
    }
    proof {
        let e = v@.subrange(p as int, hi as int);
        assert(code_requests(e, in_code) =~= Seq::<Seq<char>>::empty());
    }
    assert(views(out@) =~= target);
}

fn cell_requests_into(v: &Vec<char>, lo: usize, hi: usize, out: &mut Vec<String>)
    requires
        lo <= hi <= v@.len(),
    ensures
        views(final(out)@) == views(old(out)@) + cell_requests(v@.subrange(lo as int, hi as int)),
{
    let ghost t = trim(v@.subrange(lo as int, hi as int));
    let a = skip_space(v, lo, hi);
    let b = skip_space_back(v, a, hi);
    proof {
        assert(t =~= v@.subrange(a as int, b as int));
    }
    let mut lone = false;
    if b - a >= 3 && v[a] == ':' && v[b - 1] == ':' {
        let k = name_end(v, a + 1, b - 1);
        if k == b - 1 {
            proof {
                assert forall|j: int| 1 <= j < t.len() - 1 implies is_shortcode_char(
                    #[trigger] t[j],
                ) by {
                    assert(t[j] == v@[a + j]);
                }
                assert(t.subrange(1, t.len() - 1) =~= v@.subrange(a + 1, b - 1));
            }
            let name = string_of(v, a + 1, b - 1);
            proof {
                lemma_views_push(out@, name);
            }
            out.push(name);
            lone = true;
        } else {
            proof {
                assert(t[k - a] == v@[k as int]);
            }
        }
    }
    assert(lone == is_lone_shortcode(t));
    code_requests_into(v, lo, hi, out);
    assert(views(out@) =~= views(old(out)@) + cell_requests(v@.subrange(lo as int, hi as int)));
}

fn row_requests_into(v: &Vec<char>, lo: usize, hi: usize, out: &mut Vec<String>)
    requires
        lo <= hi <= v@.len(),
    ensures
        views(final(out)@) == views(old(out)@) + row_requests(v@.subrange(lo as int, hi as int)),
{
    let ghost target = views(old(out)@) + row_requests(v@.subrange(lo as int, hi as int));
    let mut p = lo;
    loop
        invariant_except_break
            lo <= p <= hi <= v@.len(),
            views(out@) + row_requests(v@.subrange(p as int, hi as int)) == target,
        ensures
            views(out@) == target,
        decreases hi - p,
    {
        let ghost s = v@.subrange(p as int, hi as int);
        let i = find_char(v, p, hi, '|');
        if i < hi {
            cell_requests_into(v, p, i, out);
            proof {
                assert(s.take(i - p) =~= v@.subrange(p as int, i as int));
                assert(s.skip(i - p + 1) =~= v@.subrange(i + 1, hi as int));
            }
            p = i + 1;
            assert(views(out@) + row_requests(v@.subrange(p as int, hi as int)) =~= target);
        } else {
            cell_requests_into(v, p, hi, out);
            assert(views(out@) =~= target);
            break ;
        }
    }
}

/// The names of the shortcodes that `transform_markdown` looks up for `input`,
/// in the order it meets them, repeats included.
pub fn shortcode_requests(input: &str) -> (r: Vec<String>)
    ensures
        views(r@) == requested(input@),
{
    let v = chars_of(input);
    let n = v.len();
    let mut out: Vec<String> = Vec::new();
    let mut p: usize = 0;
    let mut in_fence = false;
    proof {
        assert(v@.subrange(0, n as int) =~= input@);
        assert(views(out@) =~= Seq::<Seq<char>>::empty());
    }
    while p < n
        invariant
            p <= n == v@.len(),
            v@ == input@,
            views(out@) + lines_requests(lines(v@.subrange(p as int, n as int)), in_fence)
                == requested(input@),
        decreases n - p,
    {
        let ghost s = v@.subrange(p as int, n as int);
        let i = find_char(&v, p, n, '\n');
        let mut e = i;
        if i < n && e > p && v[e - 1] == '\r' {
            e = e - 1;
        }
        let ghost line = v@.subrange(p as int, e as int);
        let ghost ls = lines(s);
        proof {
            if i < n {
                assert(s.take(i - p) =~= v@.subrange(p as int, i as int));
                assert(strip_cr(s.take(i - p)) =~= line);
                assert(s.skip(i - p + 1) =~= v@.subrange(i + 1, n as int));
                assert(ls[0] == line);
                assert(ls.drop_first() =~= lines(v@.subrange(i + 1, n as int)));
            } else {
                assert(s =~= line);
                assert(ls =~= seq![line]);
                assert(ls.drop_first() =~= Seq::<Seq<char>>::empty());
                assert(lines(v@.subrange(n as int, n as int)) =~= Seq::<Seq<char>>::empty());
            }
        }
        let fence = starts_with_three(&v, p, e, '`') || starts_with_three(&v, p, e, '~');
        let ghost before = views(out@);
        if !fence && !in_fence {
            if table_row_at(&v, p, e) {
                row_requests_into(&v, p, e, &mut out);
            } else {
                code_requests_into(&v, p, e, &mut out);
            }
        }
        assert(views(out@) =~= before + line_requests(line, in_fence));
        if fence {
            in_fence = !in_fence;
        }
        p = if i < n {
            i + 1
        } else {
            n
        };
        assert(views(out@) + lines_requests(lines(v@.subrange(p as int, n as int)), in_fence)
            =~= requested(input@));
    }
    proof {
        assert(lines(v@.subrange(n as int, n as int)) =~= Seq::<Seq<char>>::empty());
    }
    assert(views(out@) =~= requested(input@));
    out
}

/// Two tables give the same answer for every name in `ks`.
pub open spec fn agree_on(
    m1: Map<Seq<char>, Seq<char>>,
    m2: Map<Seq<char>, Seq<char>>,
    ks: Seq<Seq<char>>,
) -> bool {
    forall|i: int|
        0 <= i < ks.len() ==> {
            &&& m1.contains_key(#[trigger] ks[i]) == m2.contains_key(ks[i])
            &&& m1.contains_key(ks[i]) ==> m1[ks[i]] == m2[ks[i]]
        }
}

/// Agreeing on a concatenation is agreeing on both parts.
pub proof fn lemma_agree_split(
    m1: Map<Seq<char>, Seq<char>>,
    m2: Map<Seq<char>, Seq<char>>,
    a: Seq<Seq<char>>,
    b: Seq<Seq<char>>,
)
    requires
        agree_on(m1, m2, a + b),
    ensures
        agree_on(m1, m2, a),
        agree_on(m1, m2, b),
{
    assert forall|i: int| 0 <= i < a.len() implies {
        &&& m1.contains_key(#[trigger] a[i]) == m2.contains_key(a[i])
        &&& m1.contains_key(a[i]) ==> m1[a[i]] == m2[a[i]]
    } by {
        assert((a + b)[i] == a[i]);
    }
    assert forall|i: int| 0 <= i < b.len() implies {
        &&& m1.contains_key(#[trigger] b[i]) == m2.contains_key(b[i])
        &&& m1.contains_key(b[i]) ==> m1[b[i]] == m2[b[i]]
    } by {
        assert((a + b)[a.len() + i] == b[i]);
    }
}

proof fn lemma_text_agree(
    s: Seq<char>,
    m1: Map<Seq<char>, Seq<char>>,
    m2: Map<Seq<char>, Seq<char>>,
)
    requires
        agree_on(m1, m2, text_requests(s)),
    ensures
        replace_in_text(s, m1) == replace_in_text(s, m2),
    decreases s.len(),
{
    if s.len() > 0 {
        if shortcode_at(s, 0) {
            let k = name_run_end(s, 1);
            let name = s.subrange(1, k);
            lemma_agree_split(m1, m2, seq![name], text_requests(s.skip(k + 1)));
            assert(seq![name][0] == name);
            lemma_text_agree(s.skip(k + 1), m1, m2);
        } else {
            lemma_text_agree(s.drop_first(), m1, m2);
        }
    }
}

proof fn lemma_code_agree(
    s: Seq<char>,
    in_code: bool,
    m1: Map<Seq<char>, Seq<char>>,
    m2: Map<Seq<char>, Seq<char>>,
)
    requires
        agree_on(m1, m2, code_requests(s, in_code)),
    ensures
        replace_outside_code(s, in_code, m1) == replace_outside_code(s, in_code, m2),
    decreases s.len(),
{
    let i = index_of(s, '`');
    crate::text::lemma_index_of(s, '`');
    let head = if in_code {
        Seq::<Seq<char>>::empty()
    } else {
        text_requests(s.take(i))
    };
    if i < s.len() {
        lemma_agree_split(m1, m2, head, code_requests(s.skip(i + 1), !in_code));
        lemma_code_agree(s.skip(i + 1), !in_code, m1, m2);
    }
    if !in_code {
        lemma_text_agree(s.take(i), m1, m2);
    }
}

proof fn lemma_cell_agree(
    cell: Seq<char>,
    m1: Map<Seq<char>, Seq<char>>,
    m2: Map<Seq<char>, Seq<char>>,
)
    requires
        agree_on(m1, m2, cell_requests(cell)),
    ensures
        cell_out(cell, m1) == cell_out(cell, m2),
{
    let t = trim(cell);
    let lone = if is_lone_shortcode(t) {
        seq![lone_name(t)]
    } else {
        Seq::<Seq<char>>::empty()
    };
    lemma_agree_split(m1, m2, lone, code_requests(cell, false));
    if is_lone_shortcode(t) {
        assert(lone[0] == lone_name(t));
    }
    lemma_code_agree(cell, false, m1, m2);
}

proof fn lemma_row_agree(
    line: Seq<char>,
    m1: Map<Seq<char>, Seq<char>>,
    m2: Map<Seq<char>, Seq<char>>,
)
    requires
        agree_on(m1, m2, row_requests(line)),
    ensures
        row_out(line, m1) == row_out(line, m2),
    decreases line.len(),
{
    let i = index_of(line, '|');
    crate::text::lemma_index_of(line, '|');
    if i < line.len() {
        lemma_agree_split(m1, m2, cell_requests(line.take(i)), row_requests(line.skip(i + 1)));
        lemma_cell_agree(line.take(i), m1, m2);
        lemma_row_agree(line.skip(i + 1), m1, m2);
    } else {
        lemma_cell_agree(line, m1, m2);
    }
}

proof fn lemma_lines_agree(
    ls: Seq<Seq<char>>,
    in_fence: bool,
    m1: Map<Seq<char>, Seq<char>>,
    m2: Map<Seq<char>, Seq<char>>,
)
    requires
        agree_on(m1, m2, lines_requests(ls, in_fence)),
    ensures
        render_lines(ls, in_fence, m1) == render_lines(ls, in_fence, m2),
    decreases ls.len(),
{
    if ls.len() > 0 {
        let l = ls[0];
        lemma_agree_split(
            m1,
            m2,
            line_requests(l, in_fence),
            lines_requests(ls.drop_first(), fence_after(l, in_fence)),
        );
        if !is_fence(l) && !in_fence {
            if is_table_row(l) {
                lemma_row_agree(l, m1, m2);
            } else {
                lemma_code_agree(l, false, m1, m2);
            }
        }
        lemma_lines_agree(ls.drop_first(), fence_after(l, in_fence), m1, m2);
    }
}

/// A transformed chapter depends on the markup table only at the shortcodes
/// that `shortcode_requests` lists: two tables that agree there give the same
/// chapter. So rendering just those shortcodes beforehand is enough.
pub proof fn lemma_only_requested_shortcodes_matter(
    input: Seq<char>,
    m1: Map<Seq<char>, Seq<char>>,
    m2: Map<Seq<char>, Seq<char>>,
)
    requires
        agree_on(m1, m2, requested(input)),
    ensures
        transformed(input, m1) == transformed(input, m2),
{
    lemma_lines_agree(lines(input), false, m1, m2);
}

/// The shortcodes each line looks up, where the fence state before the lines
/// is `in_fence`.
pub open spec fn line_request_lists(ls: Seq<Seq<char>>, in_fence: bool) -> Seq<Seq<Seq<char>>> {
    Seq::new(ls.len(), |k: int| line_requests(ls[k], in_fence != inside_fence(ls, k)))
}

proof fn lemma_lines_requests_flat(ls: Seq<Seq<char>>, in_fence: bool)
    ensures
        lines_requests(ls, in_fence) == line_request_lists(ls, in_fence).flatten(),
    decreases ls.len(),
{
    let out = line_request_lists(ls, in_fence);
    if ls.len() > 0 {
        let rest = ls.drop_first();
        let f2 = fence_after(ls[0], in_fence);
        lemma_lines_requests_flat(rest, f2);
        assert forall|k: int| 0 <= k < rest.len() implies #[trigger] out.drop_first()[k]
            == line_request_lists(rest, f2)[k] by {
            assert(rest[k] == ls[k + 1]);
            assert(fences_before(ls, k + 1) == (if is_fence(ls[0]) {
                1nat
            } else {
                0nat
            }) + fences_before(rest, k));
        }
        assert(out.drop_first() =~= line_request_lists(rest, f2));
        assert(fences_before(ls, 0) == 0);
    } else {
        assert(out =~= Seq::<Seq<Seq<char>>>::empty());
    }
}

/// Fenced code is untouched: a fence line, or a line inside a fenced block,
/// comes out as it went in, followed by `\n`, at its place among the output
/// lines; and none of its shortcodes is looked up, so none is rendered.
pub proof fn lemma_fenced_lines_untouched(
    input: Seq<char>,
    rendered: Map<Seq<char>, Seq<char>>,
    k: int,
)
    requires
        0 <= k < lines(input).len(),
        is_fence(lines(input)[k]) || inside_fence(lines(input), k),
    ensures
        transformed(input, rendered) == output_lines(lines(input), false, rendered).flatten(),
        output_lines(lines(input), false, rendered)[k] == lines(input)[k] + seq!['\n'],
        requested(input) == line_request_lists(lines(input), false).flatten(),
        line_request_lists(lines(input), false)[k] == Seq::<Seq<char>>::empty(),
{
    lemma_render_lines_flat(lines(input), false, rendered);
    lemma_lines_requests_flat(lines(input), false);
}

} // verus!
