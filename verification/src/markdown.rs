//! Replacing shortcodes in Markdown chapters.
//!
//! A chapter is read line by line. Lines inside fenced code blocks (and the
//! fence lines themselves) are kept as they are. Table rows are split at `|`
//! and each cell is handled on its own; a cell that holds nothing but one
//! shortcode gets a centered icon. Everywhere else, text between backticks is
//! kept and each `:name:` outside backticks is replaced by its rendered markup,
//! when there is one.
use vstd::prelude::*;
use crate::shortcode::{
    is_shortcode_char, lemma_name_run_end_at, name_end, name_run_end, shortcode_at, ShortcodeMap,
};
use crate::text::{
    chars_of, find_char, index_of, is_space, lemma_index_of, push_char, push_range, push_str,
    skip_space, skip_space_back, space_pred, starts_with, string_of, trim, trim_start,
};

verus! {

/// Markup placed before the icon of a cell that holds only a shortcode.
pub const CELL_OPEN: &'static str = "<span style=\"display:inline-flex; width: 100%; justify-content: center;\">";

/// Markup placed after the icon of a cell that holds only a shortcode.
pub const CELL_CLOSE: &'static str = "</span>";

/// What a shortcode named `name` becomes: its rendered markup, or the
/// shortcode as written when it has none.
pub open spec fn replacement(name: Seq<char>, rendered: Map<Seq<char>, Seq<char>>) -> Seq<char> {
    if rendered.contains_key(name) {
        rendered[name]
    } else {
        seq![':'] + name + seq![':']
    }
}

/// `s` with each shortcode replaced, scanning from the left and resuming after
/// the closing colon of each shortcode found.
pub open spec fn replace_in_text(s: Seq<char>, rendered: Map<Seq<char>, Seq<char>>) -> Seq<char>
    decreases s.len(),
{
    if s.len() == 0 {
        seq![]
    } else if shortcode_at(s, 0) {
        let k = name_run_end(s, 1);
        replacement(s.subrange(1, k), rendered) + replace_in_text(s.skip(k + 1), rendered)
    } else {
        seq![s[0]] + replace_in_text(s.drop_first(), rendered)
    }
}

/// `s` read as alternating plain text and backtick code spans, starting in
/// code when `in_code`: shortcodes are replaced in plain text only, and the
/// backticks are kept.
pub open spec fn replace_outside_code(
    s: Seq<char>,
    in_code: bool,
    rendered: Map<Seq<char>, Seq<char>>,
) -> Seq<char>
    decreases s.len(),
{
    let i = index_of(s, '`');
    let head = if in_code {
        s.take(i)
    } else {
        replace_in_text(s.take(i), rendered)
    };
    if 0 <= i < s.len() {
        head + seq!['`'] + replace_outside_code(s.skip(i + 1), !in_code, rendered)
    } else {
        head
    }
}

/// A trimmed cell that is exactly one shortcode.
pub open spec fn is_lone_shortcode(t: Seq<char>) -> bool {
    &&& t.len() >= 3
    &&& t[0] == ':'
    &&& t[t.len() - 1] == ':'
    &&& forall|j: int| 1 <= j < t.len() - 1 ==> is_shortcode_char(#[trigger] t[j])
}

/// The name inside a lone shortcode.
pub open spec fn lone_name(t: Seq<char>) -> Seq<char> {
    t.subrange(1, t.len() - 1)
}

/// The output for one table cell.
pub open spec fn cell_out(cell: Seq<char>, rendered: Map<Seq<char>, Seq<char>>) -> Seq<char> {
    let t = trim(cell);
    if is_lone_shortcode(t) && rendered.contains_key(lone_name(t)) {
        CELL_OPEN@ + rendered[lone_name(t)] + CELL_CLOSE@
    } else {
        replace_outside_code(cell, false, rendered)
    }
}

/// The output for a table row: its cells, split at `|`, each handled alone.
pub open spec fn row_out(line: Seq<char>, rendered: Map<Seq<char>, Seq<char>>) -> Seq<char>
    decreases line.len(),
{
    let i = index_of(line, '|');
    if 0 <= i < line.len() {
        cell_out(line.take(i), rendered) + seq!['|'] + row_out(line.skip(i + 1), rendered)
    } else {
        cell_out(line, rendered)
    }
}

/// A line that starts, after leading whitespace, with `|`.
pub open spec fn is_table_row(line: Seq<char>) -> bool {
    let t = trim_start(line);
    t.len() > 0 && t[0] == '|'
}

/// A line that opens or closes a fenced code block.
pub open spec fn is_fence(line: Seq<char>) -> bool {
    starts_with(trim_start(line), seq!['`', '`', '`']) || starts_with(
        trim_start(line),
        seq!['~', '~', '~'],
    )
}

/// The output for one line, given whether it stands inside a fenced block.
pub open spec fn line_out(
    line: Seq<char>,
    in_fence: bool,
    rendered: Map<Seq<char>, Seq<char>>,
) -> Seq<char> {
    if is_fence(line) || in_fence {
        line
    } else if is_table_row(line) {
        row_out(line, rendered)
    } else {
        replace_outside_code(line, false, rendered)
    }
}

/// Whether the line after `line` stands inside a fenced block.
pub open spec fn fence_after(line: Seq<char>, in_fence: bool) -> bool {
    if is_fence(line) {
        !in_fence
    } else {
        in_fence
    }
}

/// A line with its `\r` removed, when it ended in `\r\n`.
pub open spec fn strip_cr(l: Seq<char>) -> Seq<char> {
    if l.len() > 0 && l[l.len() - 1] == '\r' {
        l.drop_last()
    } else {
        l
    }
}

/// What `str::lines` yields: the text split at `\n`, a `\r` before the `\n`
/// removed, and no empty line after a final line ending.
pub open spec fn lines(s: Seq<char>) -> Seq<Seq<char>>
    decreases s.len(),
{
    if s.len() == 0 {
        seq![]
    } else {
        let i = index_of(s, '\n');
        if 0 <= i < s.len() {
            seq![strip_cr(s.take(i))] + lines(s.skip(i + 1))
        } else {
            seq![s]
        }
    }
}

/// The output for a sequence of lines, each followed by `\n`.
pub open spec fn render_lines(
    ls: Seq<Seq<char>>,
    in_fence: bool,
    rendered: Map<Seq<char>, Seq<char>>,
) -> Seq<char>
    decreases ls.len(),
{
    if ls.len() == 0 {
        seq![]
    } else {
        line_out(ls[0], in_fence, rendered) + seq!['\n'] + render_lines(
            ls.drop_first(),
            fence_after(ls[0], in_fence),
            rendered,
        )
    }
}

/// The transformed chapter.
pub open spec fn transformed(input: Seq<char>, rendered: Map<Seq<char>, Seq<char>>) -> Seq<char> {
    render_lines(lines(input), false, rendered)
}

/// Appends `replace_in_text(v[lo..hi])`.
fn text_into(v: &Vec<char>, lo: usize, hi: usize, rendered: &ShortcodeMap, out: &mut String)
    requires
        lo <= hi <= v@.len(),
    ensures
        final(out)@ == old(out)@ + replace_in_text(v@.subrange(lo as int, hi as int), rendered@),
{
    let ghost target = old(out)@ + replace_in_text(v@.subrange(lo as int, hi as int), rendered@);
    let mut p = lo;
    while p < hi
        invariant
            lo <= p <= hi <= v@.len(),
            out@ + replace_in_text(v@.subrange(p as int, hi as int), rendered@) == target,
        decreases hi - p,
    {
        let ghost s = v@.subrange(p as int, hi as int);
        if v[p] == ':' {
            let k = name_end(v, p + 1, hi);
            proof {
                assert forall|j: int| 1 <= j < k - p implies is_shortcode_char(s[j]) by {
                    assert(s[j] == v@[p + j]);
                }
                if k < hi {
                    assert(s[k - p] == v@[k as int]);
                }
                lemma_name_run_end_at(s, 1, k - p);
            }
            if k > p + 1 && k < hi && v[k] == ':' {
                let name = string_of(v, p + 1, k);
                proof {
                    assert(s[k - p] == v@[k as int]);
                    assert(shortcode_at(s, 0));
                    assert(s.subrange(1, k - p) =~= v@.subrange(p + 1, k as int));
                    assert(s.skip(k - p + 1) =~= v@.subrange(k + 1, hi as int));
                }
                match rendered.get(name.as_str()) {
                    Some(markup) => {
                        push_str(out, markup.as_str());
                    },
                    None => {
                        push_char(out, ':');
                        push_str(out, name.as_str());
                        push_char(out, ':');
                    },
                }
                p = k + 1;
                assert(out@ + replace_in_text(v@.subrange(p as int, hi as int), rendered@)
                    =~= target);
                continue ;
            }
        }
        proof {
            assert(!shortcode_at(s, 0));
            assert(s.drop_first() =~= v@.subrange(p + 1, hi as int));
        }
        push_char(out, v[p]);
        p = p + 1;
        assert(out@ + replace_in_text(v@.subrange(p as int, hi as int), rendered@) =~= target);
    }
    assert(out@ =~= target);
}

/// Appends `replace_outside_code(v[lo..hi], false)`.
fn code_spans_into(v: &Vec<char>, lo: usize, hi: usize, rendered: &ShortcodeMap, out: &mut String)
    requires
        lo <= hi <= v@.len(),
    ensures
        final(out)@ == old(out)@ + replace_outside_code(
            v@.subrange(lo as int, hi as int),
            false,
            rendered@,
        ),
{
    let ghost target = old(out)@ + replace_outside_code(
        v@.subrange(lo as int, hi as int),
        false,
        rendered@,
    );
    let mut p = lo;
    let mut in_code = false;
    while p < hi
        invariant
            lo <= p <= hi <= v@.len(),
            out@ + replace_outside_code(v@.subrange(p as int, hi as int), in_code, rendered@)
                == target,
        decreases hi - p,
    {
        let ghost s = v@.subrange(p as int, hi as int);
        let i = find_char(v, p, hi, '`');
        proof {
            assert(s.take(i - p) =~= v@.subrange(p as int, i as int));
        }
        if in_code {
            push_range(out, v, p, i);
        } else {
            text_into(v, p, i, rendered, out);
        }
        if i < hi {
            push_char(out, '`');
            proof {
                assert(s.skip(i - p + 1) =~= v@.subrange(i + 1, hi as int));
            }
            p = i + 1;
            in_code = !in_code;
            assert(out@ + replace_outside_code(v@.subrange(p as int, hi as int), in_code, rendered@)
                =~= target);
        } else {
            p = hi;
            assert(replace_outside_code(v@.subrange(p as int, hi as int), in_code, rendered@)
                =~= Seq::<char>::empty());
            assert(out@ =~= target);
        }
    }
    proof {
        let e = v@.subrange(p as int, hi as int);
        assert(e.len() == 0);
        assert(replace_outside_code(e, in_code, rendered@) =~= Seq::<char>::empty());
    }
    assert(out@ =~= target);
}

/// Whether `v[lo..hi]`, trimmed, is exactly one shortcode; if so, also where its
/// name lies.
fn lone_shortcode(v: &Vec<char>, lo: usize, hi: usize) -> (r: Option<(usize, usize)>)
    requires
        lo <= hi <= v@.len(),
    ensures
        r is Some <==> is_lone_shortcode(trim(v@.subrange(lo as int, hi as int))),
        r matches Some((a, b)) ==> a <= b <= v@.len() && v@.subrange(a as int, b as int)
            == lone_name(trim(v@.subrange(lo as int, hi as int))),
{
    let a = skip_space(v, lo, hi);
    let b = skip_space_back(v, a, hi);
    let ghost t = trim(v@.subrange(lo as int, hi as int));
    proof {
        assert(t =~= v@.subrange(a as int, b as int));
    }
    if b - a >= 3 && v[a] == ':' && v[b - 1] == ':' {
        let k = name_end(v, a + 1, b - 1);
        if k == b - 1 {
            proof {
                assert forall|j: int| 1 <= j < t.len() - 1 implies is_shortcode_char(#[trigger] t[j]) by {
                    assert(t[j] == v@[a + j]);
                }
                assert(t.subrange(1, t.len() - 1) =~= v@.subrange(a + 1, b - 1));
            }
            return Some((a + 1, b - 1));
        } else {
            proof {
                assert(!is_shortcode_char(v@[k as int]));
                assert(t[k - a] == v@[k as int]);
            }
            return None;
        }
    }
    None
}

/// Appends `cell_out(v[lo..hi])`.
fn cell_into(v: &Vec<char>, lo: usize, hi: usize, rendered: &ShortcodeMap, out: &mut String)
    requires
        lo <= hi <= v@.len(),
    ensures
        final(out)@ == old(out)@ + cell_out(v@.subrange(lo as int, hi as int), rendered@),
{
    if let Some((a, b)) = lone_shortcode(v, lo, hi) {
        let name = string_of(v, a, b);
        if let Some(markup) = rendered.get(name.as_str()) {
            push_str(out, CELL_OPEN);
            push_str(out, markup.as_str());
            push_str(out, CELL_CLOSE);
            assert(out@ =~= old(out)@ + cell_out(v@.subrange(lo as int, hi as int), rendered@));
            return ;
        }
    }
    code_spans_into(v, lo, hi, rendered, out);
}

/// Appends `row_out(v[lo..hi])`.
fn row_into(v: &Vec<char>, lo: usize, hi: usize, rendered: &ShortcodeMap, out: &mut String)
    requires
        lo <= hi <= v@.len(),
    ensures
        final(out)@ == old(out)@ + row_out(v@.subrange(lo as int, hi as int), rendered@),
{
    let ghost target = old(out)@ + row_out(v@.subrange(lo as int, hi as int), rendered@);
    let mut p = lo;
    loop
        invariant_except_break
            lo <= p <= hi <= v@.len(),
            out@ + row_out(v@.subrange(p as int, hi as int), rendered@) == target,
        ensures
            out@ == target,
        decreases hi - p,
    {
        let ghost s = v@.subrange(p as int, hi as int);
        let i = find_char(v, p, hi, '|');
        if i < hi {
            cell_into(v, p, i, rendered, out);
            push_char(out, '|');
            proof {
                assert(s.take(i - p) =~= v@.subrange(p as int, i as int));
                assert(s.skip(i - p + 1) =~= v@.subrange(i + 1, hi as int));
            }
            p = i + 1;
            assert(out@ + row_out(v@.subrange(p as int, hi as int), rendered@) =~= target);
        } else {
            cell_into(v, p, hi, rendered, out);
            assert(out@ =~= target);
            break ;
        }
    }
}

/// Whether `v[lo..hi]` starts, after leading whitespace, with `c` three times.
pub(crate) fn starts_with_three(v: &Vec<char>, lo: usize, hi: usize, c: char) -> (b: bool)
    requires
        lo <= hi <= v@.len(),
    ensures
        b == starts_with(trim_start(v@.subrange(lo as int, hi as int)), seq![c, c, c]),
{
    let a = skip_space(v, lo, hi);
    let ghost t = trim_start(v@.subrange(lo as int, hi as int));
    proof {
        assert(t =~= v@.subrange(a as int, hi as int));
    }
    if hi - a >= 3 && v[a] == c && v[a + 1] == c && v[a + 2] == c {
        assert(t.take(3) =~= seq![c, c, c]);
        true
    } else {
        proof {
            if 3 <= t.len() && t.take(3) == seq![c, c, c] {
                assert(t.take(3)[0] == t[0]);
                assert(t.take(3)[1] == t[1]);
                assert(t.take(3)[2] == t[2]);
            }
        }
        false
    }
}

/// Whether `v[lo..hi]` is a table row.
pub(crate) fn table_row_at(v: &Vec<char>, lo: usize, hi: usize) -> (b: bool)
    requires
        lo <= hi <= v@.len(),
    ensures
        b == is_table_row(v@.subrange(lo as int, hi as int)),
{
    let a = skip_space(v, lo, hi);
    let ghost t = trim_start(v@.subrange(lo as int, hi as int));
    proof {
        assert(t =~= v@.subrange(a as int, hi as int));
    }
    a < hi && v[a] == '|'
}

/// Whether a line starts a table row: after leading whitespace it begins with `|`.
pub fn looks_like_table_row(line: &str) -> (b: bool)
    ensures
        b == is_table_row(line@),
{
    let v = chars_of(line);
    let n = v.len();
    proof {
        assert(v@.subrange(0, n as int) =~= line@);
    }
    table_row_at(&v, 0, n)
}

/// Appends `line_out(v[lo..hi], in_fence)`, and tells whether the line is a fence.
fn line_into(
    v: &Vec<char>,
    lo: usize,
    hi: usize,
    in_fence: bool,
    rendered: &ShortcodeMap,
    out: &mut String,
) -> (fence: bool)
    requires
        lo <= hi <= v@.len(),
    ensures
        fence == is_fence(v@.subrange(lo as int, hi as int)),
        final(out)@ == old(out)@ + line_out(v@.subrange(lo as int, hi as int), in_fence, rendered@),
{
    let fence = starts_with_three(v, lo, hi, '`') || starts_with_three(v, lo, hi, '~');
    if fence || in_fence {
        push_range(out, v, lo, hi);
    } else if table_row_at(v, lo, hi) {
        row_into(v, lo, hi, rendered, out);
    } else {
        code_spans_into(v, lo, hi, rendered, out);
    }
    fence
}

/// Replaces the shortcodes of a Markdown chapter with their rendered markup,
/// leaving fenced code blocks and inline code untouched. Every line of the
/// result ends in `\n`.
pub fn transform_markdown(input: &str, rendered: &ShortcodeMap) -> (r: String)
    ensures
        r@ == transformed(input@, rendered@),
{
    let v = chars_of(input);
    let n = v.len();
    let mut out = String::new();
    let mut p: usize = 0;
    let mut in_fence = false;
    proof {
        assert(v@.subrange(0, n as int) =~= input@);
    }
    while p < n
        invariant
            p <= n == v@.len(),
            v@ == input@,
            out@ + render_lines(lines(v@.subrange(p as int, n as int)), in_fence, rendered@)
                == transformed(input@, rendered@),
        decreases n - p,
    {
        let ghost s = v@.subrange(p as int, n as int);
        let i = find_char(&v, p, n, '\n');
        let mut e = i;
        if i < n && e > p && v[e - 1] == '\r' {
            e = e - 1;
        }
        let ghost line = v@.subrange(p as int, e as int);
        let ghost ls = lines(s);
        proof {
            if i < n {
                assert(s.take(i - p) =~= v@.subrange(p as int, i as int));
                assert(strip_cr(s.take(i - p)) =~= line);
                assert(s.skip(i - p + 1) =~= v@.subrange(i + 1, n as int));
                assert(ls[0] == line);
                assert(ls.drop_first() =~= lines(v@.subrange(i + 1, n as int)));
            } else {
                assert(s =~= line);
                assert(ls =~= seq![line]);
                assert(ls.drop_first() =~= Seq::<Seq<char>>::empty());
                assert(lines(v@.subrange(n as int, n as int)) =~= Seq::<Seq<char>>::empty());
            }
        }
        let fence = line_into(&v, p, e, in_fence, rendered, &mut out);
        push_char(&mut out, '\n');
        if fence {
            in_fence = !in_fence;
        }
        p = if i < n {
            i + 1
        } else {
            n
        };
        assert(out@ + render_lines(lines(v@.subrange(p as int, n as int)), in_fence, rendered@)
            =~= transformed(input@, rendered@));
    }
    proof {
        assert(lines(v@.subrange(n as int, n as int)) =~= Seq::<Seq<char>>::empty());
    }
    assert(out@ =~= transformed(input@, rendered@));
    out
}

/// Replaces each shortcode of `text` by its rendered markup; a shortcode
/// without markup is kept as written.
pub fn replace_shortcodes_in_text(text: &str, rendered: &ShortcodeMap) -> (r: String)
    ensures
        r@ == replace_in_text(text@, rendered@),
{
    let v = chars_of(text);
    let n = v.len();
    let mut out = String::new();
    text_into(&v, 0, n, rendered, &mut out);
    assert(v@.subrange(0, n as int) =~= text@);
    assert(out@ =~= replace_in_text(text@, rendered@));
    out
}

/// Replaces the shortcodes of one line outside its backtick code spans.
pub fn replace_shortcodes(line: &str, rendered: &ShortcodeMap) -> (r: String)
    ensures
        r@ == replace_outside_code(line@, false, rendered@),
{
    let v = chars_of(line);
    let n = v.len();
    let mut out = String::new();
    code_spans_into(&v, 0, n, rendered, &mut out);
    assert(v@.subrange(0, n as int) =~= line@);
    assert(out@ =~= replace_outside_code(line@, false, rendered@));
    out
}

/// Handles one table cell: a cell that holds one shortcode with markup becomes
/// that markup, centered; any other cell is handled like a line.
pub fn replace_shortcodes_in_table_cell(cell: &str, rendered: &ShortcodeMap) -> (r: String)
    ensures
        r@ == cell_out(cell@, rendered@),
{
    let v = chars_of(cell);
    let n = v.len();
    let mut out = String::new();
    cell_into(&v, 0, n, rendered, &mut out);
    assert(v@.subrange(0, n as int) =~= cell@);
    assert(out@ =~= cell_out(cell@, rendered@));
    out
}

/// Handles a table row cell by cell, keeping the `|` separators.
pub fn replace_shortcodes_in_table_row(line: &str, rendered: &ShortcodeMap) -> (r: String)
    ensures
        r@ == row_out(line@, rendered@),
{
    let v = chars_of(line);
    let n = v.len();
    let mut out = String::new();
    row_into(&v, 0, n, rendered, &mut out);
    assert(v@.subrange(0, n as int) =~= line@);
    assert(out@ =~= row_out(line@, rendered@));
    out
}

/// The lines, each followed by `\n`.
pub open spec fn joined(ls: Seq<Seq<char>>) -> Seq<char>
    decreases ls.len(),
{
    if ls.len() == 0 {
        seq![]
    } else {
        ls[0] + seq!['\n'] + joined(ls.drop_first())
    }
}

proof fn lemma_text_unrendered(s: Seq<char>)
    ensures
        replace_in_text(s, Map::empty()) == s,
    decreases s.len(),
{
    if s.len() > 0 {
        if shortcode_at(s, 0) {
            let k = name_run_end(s, 1);
            lemma_text_unrendered(s.skip(k + 1));
            assert(s =~= seq![':'] + s.subrange(1, k) + seq![':'] + s.skip(k + 1));
        } else {
            lemma_text_unrendered(s.drop_first());
            assert(s =~= seq![s[0]] + s.drop_first());
        }
    }
}

proof fn lemma_code_unrendered(s: Seq<char>, in_code: bool)
    ensures
        replace_outside_code(s, in_code, Map::empty()) == s,
    decreases s.len(),
{
    let i = index_of(s, '`');
    lemma_index_of(s, '`');
    lemma_text_unrendered(s.take(i));
    if i < s.len() {
        lemma_code_unrendered(s.skip(i + 1), !in_code);
        assert(s =~= s.take(i) + seq!['`'] + s.skip(i + 1));
    } else {
        assert(s.take(i) =~= s);
    }
}

proof fn lemma_row_unrendered(line: Seq<char>)
    ensures
        row_out(line, Map::empty()) == line,
    decreases line.len(),
{
    let i = index_of(line, '|');
    lemma_index_of(line, '|');
    if i < line.len() {
        lemma_code_unrendered(line.take(i), false);
        lemma_row_unrendered(line.skip(i + 1));
        assert(line =~= line.take(i) + seq!['|'] + line.skip(i + 1));
    } else {
        lemma_code_unrendered(line, false);
    }
}

proof fn lemma_lines_unrendered(ls: Seq<Seq<char>>, in_fence: bool)
    ensures
        render_lines(ls, in_fence, Map::empty()) == joined(ls),
    decreases ls.len(),
{
    if ls.len() > 0 {
        lemma_row_unrendered(ls[0]);
        lemma_code_unrendered(ls[0], false);
        lemma_lines_unrendered(ls.drop_first(), fence_after(ls[0], in_fence));
    }
}

/// When no shortcode has markup, a chapter comes out as it went in: its lines,
/// each ended by `\n`. Shortcodes that cannot be rendered are left as written.
pub proof fn lemma_unrendered_chapter_unchanged(input: Seq<char>)
    ensures
        transformed(input, Map::empty()) == joined(lines(input)),
{
    lemma_lines_unrendered(lines(input), false);
}

/// How many of the first `k` lines open or close a fenced block.
pub open spec fn fences_before(ls: Seq<Seq<char>>, k: int) -> nat
    decreases k,
{
    if k <= 0 || ls.len() == 0 {
        0
    } else {
        (if is_fence(ls[0]) {
            1nat
        } else {
            0nat
        }) + fences_before(ls.drop_first(), k - 1)
    }
}

/// Line `k` stands inside a fenced block: an odd number of fence lines come
/// before it.
pub open spec fn inside_fence(ls: Seq<Seq<char>>, k: int) -> bool {
    fences_before(ls, k) % 2 == 1
}

/// The output of each line, with its `\n`, where the fence state before the
/// lines is `in_fence`.
pub open spec fn output_lines(
    ls: Seq<Seq<char>>,
    in_fence: bool,
    rendered: Map<Seq<char>, Seq<char>>,
) -> Seq<Seq<char>> {
    Seq::new(
        ls.len(),
        |k: int| line_out(ls[k], in_fence != inside_fence(ls, k), rendered) + seq!['\n'],
    )
}

/// The output of the lines is the output of each line, in order.
pub proof fn lemma_render_lines_flat(ls: Seq<Seq<char>>, in_fence: bool, rendered: Map<Seq<char>, Seq<char>>)
    ensures
        render_lines(ls, in_fence, rendered) == output_lines(ls, in_fence, rendered).flatten(),
    decreases ls.len(),
{
    let out = output_lines(ls, in_fence, rendered);
    if ls.len() > 0 {
        let rest = ls.drop_first();
        let f2 = fence_after(ls[0], in_fence);
        lemma_render_lines_flat(rest, f2, rendered);
        assert forall|k: int| 0 <= k < rest.len() implies #[trigger] out.drop_first()[k]
            == output_lines(rest, f2, rendered)[k] by {
            assert(rest[k] == ls[k + 1]);
            assert(fences_before(ls, k + 1) == (if is_fence(ls[0]) {
                1nat
            } else {
                0nat
            }) + fences_before(rest, k));
        }
        assert(out.drop_first() =~= output_lines(rest, f2, rendered));
        assert(fences_before(ls, 0) == 0);
        assert(out.first() == line_out(ls[0], in_fence, rendered) + seq!['\n']);
    } else {
        assert(out =~= Seq::<Seq<char>>::empty());
    }
}

/// A chapter comes out line by line: each line of `str::lines`, followed by
/// `\n`, is kept as it is when it is a fence line or stands inside a fenced
/// block (an odd number of fence lines before it), else is handled as a table
/// row when it looks like one, else as a line with inline code.
pub proof fn lemma_transform_line_by_line(input: Seq<char>, rendered: Map<Seq<char>, Seq<char>>)
    ensures
        transformed(input, rendered) == Seq::new(
            lines(input).len(),
            |k: int|
                {
                    let l = lines(input)[k];
                    let kept = is_fence(l) || inside_fence(lines(input), k);
                    (if kept {
                        l
                    } else if is_table_row(l) {
                        row_out(l, rendered)
                    } else {
                        replace_outside_code(l, false, rendered)
                    }) + seq!['\n']
                },
        ).flatten(),
{
    let ls = lines(input);
    lemma_render_lines_flat(ls, false, rendered);
    assert(output_lines(ls, false, rendered) =~= Seq::new(
        ls.len(),
        |k: int|
            {
                let l = ls[k];
                let kept = is_fence(l) || inside_fence(ls, k);
                (if kept {
                    l
                } else if is_table_row(l) {
                    row_out(l, rendered)
                } else {
                    replace_outside_code(l, false, rendered)
                }) + seq!['\n']
            },
    ));
}

/// What `str::split(c)` yields: the parts between the `c`s, empty ones
/// included, always at least one.
pub open spec fn split_on(s: Seq<char>, c: char) -> Seq<Seq<char>>
    decreases s.len(),
{
    let i = index_of(s, c);
    if 0 <= i < s.len() {
        seq![s.take(i)] + split_on(s.skip(i + 1), c)
    } else {
        seq![s]
    }
}

/// The parts joined with `c` between them, as `join` does.
pub open spec fn join_with(parts: Seq<Seq<char>>, c: char) -> Seq<char>
    decreases parts.len(),
{
    if parts.len() == 0 {
        seq![]
    } else if parts.len() == 1 {
        parts[0]
    } else {
        parts[0] + seq![c] + join_with(parts.drop_first(), c)
    }
}

proof fn lemma_split_on_nonempty(s: Seq<char>, c: char)
    ensures
        split_on(s, c).len() >= 1,
    decreases s.len(),
{
    let i = index_of(s, c);
    lemma_index_of(s, c);
    if i < s.len() {
        lemma_split_on_nonempty(s.skip(i + 1), c);
    }
}

/// A table row is its cells, split at `|`, each handled on its own and joined
/// again with `|`.
pub proof fn lemma_row_cell_by_cell(line: Seq<char>, rendered: Map<Seq<char>, Seq<char>>)
    ensures
        row_out(line, rendered) == join_with(
            split_on(line, '|').map_values(|cell: Seq<char>| cell_out(cell, rendered)),
            '|',
        ),
    decreases line.len(),
{
    let f = |cell: Seq<char>| cell_out(cell, rendered);
    let i = index_of(line, '|');
    lemma_index_of(line, '|');
    if i < line.len() {
        let rest = line.skip(i + 1);
        lemma_row_cell_by_cell(rest, rendered);
        lemma_split_on_nonempty(rest, '|');
        let parts = split_on(line, '|');
        assert(parts.map_values(f).drop_first() =~= split_on(rest, '|').map_values(f));
        assert(parts.map_values(f)[0] == cell_out(line.take(i), rendered));
    } else {
        assert(split_on(line, '|').map_values(f) =~= seq![cell_out(line, rendered)]);
    }
}

/// The parts of a line between backticks, alternately plain text (with
/// shortcodes replaced) and code (kept), starting in code when `in_code`.
pub open spec fn alternate(
    parts: Seq<Seq<char>>,
    in_code: bool,
    rendered: Map<Seq<char>, Seq<char>>,
) -> Seq<Seq<char>> {
    Seq::new(
        parts.len(),
        |k: int|
            if (k % 2 == 1) != in_code {
                parts[k]
            } else {
                replace_in_text(parts[k], rendered)
            },
    )
}

/// A line is split at its backticks; the parts at even places are plain text,
/// whose shortcodes are replaced, and those at odd places are inline code (or
/// text after an unmatched backtick), kept; the parts are joined again with
/// backticks.
pub proof fn lemma_code_spans_by_split(
    s: Seq<char>,
    in_code: bool,
    rendered: Map<Seq<char>, Seq<char>>,
)
    ensures
        replace_outside_code(s, in_code, rendered) == join_with(
            alternate(split_on(s, '`'), in_code, rendered),
            '`',
        ),
    decreases s.len(),
{
    let i = index_of(s, '`');
    lemma_index_of(s, '`');
    let parts = split_on(s, '`');
    let alt = alternate(parts, in_code, rendered);
    if i < s.len() {
        let rest = s.skip(i + 1);
        lemma_code_spans_by_split(rest, !in_code, rendered);
        lemma_split_on_nonempty(rest, '`');
        assert forall|k: int| 0 <= k < alt.len() - 1 implies #[trigger] alt.drop_first()[k]
            == alternate(split_on(rest, '`'), !in_code, rendered)[k] by {
            assert(parts[k + 1] == split_on(rest, '`')[k]);
            assert(((k + 1) % 2 == 1) == !(k % 2 == 1));
        }
        assert(alt.drop_first() =~= alternate(split_on(rest, '`'), !in_code, rendered));
        assert(alt[0] == (if in_code {
            s.take(i)
        } else {
            replace_in_text(s.take(i), rendered)
        }));
    } else {
        assert(alt =~= seq![
            if in_code {
                s
            } else {
                replace_in_text(s, rendered)
            },
        ]);
        assert(s.take(i) =~= s);
    }
}

/// A character of the class `[A-Za-z0-9_-]`, by its code point.
pub open spec fn in_name_class(c: char) -> bool {
    let u = c as u32;
    (48 <= u && u <= 57) || (65 <= u && u <= 90) || (97 <= u && u <= 122) || u == 95 || u == 45
}

/// Shortcode names are made of exactly the characters `[A-Za-z0-9_-]`.
pub proof fn lemma_shortcode_characters(c: char)
    ensures
        is_shortcode_char(c) <==> in_name_class(c),
{
}

/// A whole text `:name:`, with a nonempty name over `[A-Za-z0-9_-]`, is one
/// shortcode: it becomes the markup of `name` when there is one, and stays as
/// written otherwise.
pub proof fn lemma_single_shortcode(name: Seq<char>, rendered: Map<Seq<char>, Seq<char>>)
    requires
        name.len() > 0,
        forall|j: int| 0 <= j < name.len() ==> in_name_class(#[trigger] name[j]),
    ensures
        rendered.contains_key(name) ==> replace_in_text(seq![':'] + name + seq![':'], rendered)
            == rendered[name],
        !rendered.contains_key(name) ==> replace_in_text(seq![':'] + name + seq![':'], rendered)
            == seq![':'] + name + seq![':'],
{
    let s = seq![':'] + name + seq![':'];
    let k: int = name.len() as int + 1;
    assert forall|j: int| 1 <= j < k implies is_shortcode_char(s[j]) by {
        assert(s[j] == name[j - 1]);
        lemma_shortcode_characters(s[j]);
    }
    assert(s[k] == ':');
    lemma_name_run_end_at(s, 1, k);
    assert(shortcode_at(s, 0));
    assert(s.subrange(1, k) =~= name);
    assert(s.skip(k + 1) =~= Seq::<char>::empty());
    assert(replace_in_text(s.skip(k + 1), rendered) =~= Seq::<char>::empty());
    assert(replacement(name, rendered) + Seq::<char>::empty() =~= replacement(name, rendered));
}

/// Line `l` has, after `k` whitespace characters, three times `c`.
pub open spec fn marker_after_indent(l: Seq<char>, k: int, c: char) -> bool {
    &&& 0 <= k
    &&& k + 3 <= l.len()
    &&& forall|j: int| 0 <= j < k ==> is_space(#[trigger] l[j])
    &&& l[k] == c
    &&& l[k + 1] == c
    &&& l[k + 2] == c
}

proof fn lemma_trim_start_at(l: Seq<char>) -> (k: int)
    ensures
        0 <= k <= l.len(),
        forall|j: int| 0 <= j < k ==> is_space(#[trigger] l[j]),
        k == l.len() || !is_space(l[k]),
        trim_start(l) == l.skip(k),
    decreases l.len(),
{
    if l.len() > 0 && is_space(l[0]) {
        let k1 = lemma_trim_start_at(l.drop_first());
        assert forall|j: int| 0 <= j < k1 + 1 implies is_space(#[trigger] l[j]) by {
            if j > 0 {
                assert(l[j] == l.drop_first()[j - 1]);
            }
        }
        if k1 < l.drop_first().len() {
            assert(l[k1 + 1] == l.drop_first()[k1]);
        }
        assert(l.drop_first().skip(k1) =~= l.skip(k1 + 1));
        k1 + 1
    } else {
        assert(l.skip(0) =~= l);
        0
    }
}

/// A fence line is one whose text, after any leading whitespace, starts with
/// three backticks or three tildes; so indented fences count too.
pub proof fn lemma_fence_lines(l: Seq<char>)
    ensures
        is_fence(l) <==> exists|k: int| marker_after_indent(l, k, '`') || marker_after_indent(l, k, '~'),
{
    let k0 = lemma_trim_start_at(l);
    let t = l.skip(k0);
    if is_fence(l) {
        assert(t.take(3)[0] == t[0] && t.take(3)[1] == t[1] && t.take(3)[2] == t[2]);
        assert(t[0] == l[k0] && t[1] == l[k0 + 1] && t[2] == l[k0 + 2]);
        if starts_with(t, seq!['`', '`', '`']) {
            assert(marker_after_indent(l, k0, '`'));
        } else {
            assert(marker_after_indent(l, k0, '~'));
        }
    }
    assert forall|k: int, c: char| (c == '`' || c == '~') && marker_after_indent(l, k, c) implies is_fence(l) by {
        if k < k0 {
            assert(is_space(l[k]));
        }
        if k > k0 {
            assert(is_space(l[k0]));
        }
        assert(k == k0);
        assert(t.take(3) =~= seq![c, c, c]);
    }
}

/// Indenting a line with whitespace does not change whether it is a fence.
pub proof fn lemma_fence_ignores_indent(w: Seq<char>, l: Seq<char>)
    requires
        forall|j: int| 0 <= j < w.len() ==> is_space(#[trigger] w[j]),
    ensures
        is_fence(w + l) == is_fence(l),
{
    crate::shortcode::lemma_strip_leading_append(w, l, space_pred());
    assert forall|j: int| 0 <= j < w.len() implies space_pred()(w[j]) by {}
}

} // verus!
