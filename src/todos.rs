use crate::session::{
    chars_of, is_blank, is_blank_chars, is_white, is_white_exec, join_push, join_spec, string_of,
    string_views,
};
use vstd::prelude::*;

verus! {

/// The pieces of `s` between newlines, the last one possibly empty.
pub open spec fn raw_pieces(s: Seq<char>) -> Seq<Seq<char>>
    decreases s.len(),
{
    if s.len() == 0 {
        seq![Seq::empty()]
    } else {
        let prev = raw_pieces(s.drop_last());
        if s.last() == '\n' {
            prev.push(Seq::empty())
        } else {
            prev.update(prev.len() - 1, prev.last().push(s.last()))
        }
    }
}

/// A line that ended in `\r\n` loses its `\r`.
pub open spec fn strip_cr(l: Seq<char>) -> Seq<char> {
    if l.len() > 0 && l.last() == '\r' {
        l.drop_last()
    } else {
        l
    }
}

/// The lines of `s` as `str::lines` gives them: split at `\n` or `\r\n`, with
/// no empty line after a final line ending.
pub open spec fn text_lines(s: Seq<char>) -> Seq<Seq<char>> {
    let p = raw_pieces(s);
    let n = p.len() as int;
    if p.last().len() == 0 {
        Seq::new((n - 1) as nat, |i: int| strip_cr(p[i]))
    } else {
        Seq::new(
            n as nat,
            |i: int|
                if i < n - 1 {
                    strip_cr(p[i])
                } else {
                    p[i]
                },
        )
    }
}

pub open spec fn views(v: Seq<Vec<char>>) -> Seq<Seq<char>> {
    Seq::new(v.len(), |i: int| v[i]@)
}

proof fn lemma_raw_pieces_nonempty(s: Seq<char>)
    ensures
        raw_pieces(s).len() >= 1,
    decreases s.len(),
{
    if s.len() > 0 {
        lemma_raw_pieces_nonempty(s.drop_last());
    }
}

fn strip_cr_chars(l: &Vec<char>) -> (r: Vec<char>)
    ensures
        r@ == strip_cr(l@),
{
    let mut out = l.clone();
    assert(out@ =~= l@);
    if out.len() > 0 && out[out.len() - 1] == '\r' {
        out.pop();
        assert(out@ =~= l@.drop_last());
    }
    out
}

/// Splits text into lines at `\n` or `\r\n`.
pub fn split_lines(cs: &Vec<char>) -> (r: Vec<Vec<char>>)
    ensures
        views(r@) == text_lines(cs@),
{
    let mut pieces: Vec<Vec<char>> = Vec::new();
    let mut cur: Vec<char> = Vec::new();
    let mut i: usize = 0;
    assert(views(pieces@).push(cur@) =~= raw_pieces(cs@.take(0)));
    while i < cs.len()
        invariant
            i <= cs@.len(),
            views(pieces@).push(cur@) == raw_pieces(cs@.take(i as int)),
        decreases cs@.len() - i,
    {
        let ghost before = cs@.take(i as int);
        assert(cs@.take(i as int + 1).drop_last() =~= before);
        proof {
            lemma_raw_pieces_nonempty(before);
        }
        if cs[i] == '\n' {
            pieces.push(cur);
            cur = Vec::new();
            assert(views(pieces@).push(cur@) =~= raw_pieces(cs@.take(i as int + 1)));
        } else {
            cur.push(cs[i]);
            assert(views(pieces@).push(cur@) =~= raw_pieces(cs@.take(i as int + 1)));
        }
        i += 1;
    }
    assert(cs@.take(cs@.len() as int) =~= cs@);
    let ghost p = raw_pieces(cs@);
    let mut out: Vec<Vec<char>> = Vec::new();
    let mut k: usize = 0;
    while k < pieces.len()
        invariant
            k <= pieces@.len(),
            views(pieces@).push(cur@) == p,
            views(out@) == Seq::new(k as nat, |j: int| strip_cr(p[j])),
        decreases pieces@.len() - k,
    {
        assert(p[k as int] == pieces@[k as int]@);
        let line = strip_cr_chars(&pieces[k]);
        let ghost before = views(out@);
        let ghost lv = line@;
        out.push(line);
        assert(views(out@) =~= before.push(lv));
        k += 1;
        assert(views(out@) =~= Seq::new(k as nat, |j: int| strip_cr(p[j])));
    }
    assert(p.len() == pieces@.len() + 1);
    assert(p.last() == cur@);
    if cur.len() > 0 {
        let ghost before = views(out@);
        out.push(cur);
        assert(views(out@) =~= before.push(p.last()));
        assert(views(out@) =~= text_lines(cs@));
    } else {
        assert(views(out@) =~= text_lines(cs@));
    }
    out
}

/// Number of whitespace characters that `s` starts with.
pub open spec fn lead_white(s: Seq<char>) -> int
    decreases s.len(),
{
    if s.len() > 0 && is_white(s[0]) {
        1 + lead_white(s.drop_first())
    } else {
        0
    }
}

/// Bytes that `c` takes in UTF-8.
pub open spec fn utf8_width(c: char) -> int {
    let u = c as u32;
    if u < 0x80 {
        1
    } else if u < 0x800 {
        2
    } else if u < 0x10000 {
        3
    } else {
        4
    }
}

pub open spec fn utf8_len(s: Seq<char>) -> int
    decreases s.len(),
{
    if s.len() == 0 {
        0
    } else {
        utf8_len(s.drop_last()) + utf8_width(s.last())
    }
}

pub open spec fn is_bullet(c: char) -> bool {
    c == '-' || c == '*' || c == '+'
}

/// For a line `<ws>* <bullet> <ws>+ [ <ws>* ] ...`, the byte length of its
/// leading whitespace; `None` for any other line.
pub open spec fn checkbox_indent(l: Seq<char>) -> Option<int> {
    let i = lead_white(l);
    let k = lead_white(l.skip(i + 1));
    let open = i + 1 + k;
    let m = lead_white(l.skip(open + 1));
    let close = open + 1 + m;
    if i < l.len() && is_bullet(l[i]) && k >= 1 && open < l.len() && l[open] == '[' && close
        < l.len() && l[close] == ']' {
        Some(utf8_len(l.take(i)))
    } else {
        None
    }
}

pub(crate) fn lead_white_from(l: &Vec<char>, start: usize) -> (r: usize)
    requires
        start <= l@.len(),
    ensures
        r == start + lead_white(l@.skip(start as int)),
        start <= r <= l@.len(),
        r < l@.len() ==> !is_white(l@[r as int]),
{
    let mut pos = start;
    assert(lead_white(l@.skip(start as int)) == (pos - start) + lead_white(l@.skip(pos as int)));
    while pos < l.len() && is_white_exec(l[pos])
        invariant
            start <= pos <= l@.len(),
            lead_white(l@.skip(start as int)) == (pos - start) + lead_white(l@.skip(pos as int)),
        decreases l@.len() - pos,
    {
        assert(l@.skip(pos as int).drop_first() =~= l@.skip(pos as int + 1));
        pos += 1;
    }
    if pos < l.len() {
        assert(l@.skip(pos as int)[0] == l@[pos as int]);
    }
    pos
}

fn utf8_len_of_prefix(l: &Vec<char>, n: usize) -> (r: u128)
    requires
        n <= l@.len(),
    ensures
        r == utf8_len(l@.take(n as int)),
{
    let mut total: u128 = 0;
    let mut i: usize = 0;
    assert(l@.take(0) =~= Seq::<char>::empty());
    while i < n
        invariant
            n <= l@.len(),
            i <= n,
            total == utf8_len(l@.take(i as int)),
            total <= 4 * i,
        decreases n - i,
    {
        assert(l@.take(i as int + 1).drop_last() =~= l@.take(i as int));
        let u = l[i] as u32;
        let w: u128 = if u < 0x80 {
            1
        } else if u < 0x800 {
            2
        } else if u < 0x10000 {
            3
        } else {
            4
        };
        total = total + w;
        i += 1;
    }
    total
}

/// The indent of a checklist line, as `checkbox_indent` gives it.
fn checkbox_indent_of(l: &Vec<char>) -> (r: Option<u128>)
    ensures
        r matches Some(v) ==> checkbox_indent(l@) == Some(v as int),
        r is None ==> checkbox_indent(l@) is None,
{
    let i = lead_white_from(l, 0);
    assert(l@.skip(0) =~= l@);
    if i >= l.len() || !(l[i] == '-' || l[i] == '*' || l[i] == '+') {
        return None;
    }
    let open = lead_white_from(l, i + 1);
    if open == i + 1 || open >= l.len() || l[open] != '[' {
        return None;
    }
    let close = lead_white_from(l, open + 1);
    if close >= l.len() || l[close] != ']' {
        return None;
    }
    let w = utf8_len_of_prefix(l, i);
    assert(lead_white(l@) == i);
    assert(lead_white(l@.skip(i + 1)) == open - i - 1);
    assert(lead_white(l@.skip(open + 1)) == close - open - 1);
    assert(checkbox_indent(l@) == Some(w as int));
    Some(w)
}

/// End (exclusive) of the block that continues a checklist line of indent
/// `indent` from line `j` on: blank lines and lines indented deeper.
pub open spec fn block_end(lines: Seq<Seq<char>>, indent: int, j: int) -> int
    decreases lines.len() - j,
{
    if 0 <= j < lines.len() && (is_blank(lines[j]) || lead_white(lines[j]) > indent) {
        block_end(lines, indent, j + 1)
    } else {
        j
    }
}

proof fn lemma_block_end_bounds(lines: Seq<Seq<char>>, indent: int, j: int)
    requires
        0 <= j,
    ensures
        j <= block_end(lines, indent, j),
        j <= lines.len() ==> block_end(lines, indent, j) <= lines.len(),
    decreases lines.len() - j,
{
    if 0 <= j < lines.len() && (is_blank(lines[j]) || lead_white(lines[j]) > indent) {
        lemma_block_end_bounds(lines, indent, j + 1);
    }
}

/// The unchecked checklist items from line `i` on, each joined with its
/// continuation lines by `\n`.
pub open spec fn todo_items(lines: Seq<Seq<char>>, i: int) -> Seq<Seq<char>>
    decreases lines.len() - i,
{
    if i < 0 || i >= lines.len() {
        Seq::empty()
    } else {
        match checkbox_indent(lines[i]) {
            Some(ind) => {
                let j = block_end(lines, ind, i + 1);
                let next = if j > i && j <= lines.len() {
                    j
                } else {
                    i + 1
                };
                seq![join_spec(lines.subrange(i, next), seq!['\n'])] + todo_items(lines, next)
            },
            None => todo_items(lines, i + 1),
        }
    }
}

/// Whether `l` continues the block of a checklist line of indent `indent`.
fn continues_block(l: &Vec<char>, indent: u128) -> (r: bool)
    ensures
        r == (is_blank(l@) || lead_white(l@) > indent),
{
    if is_blank_chars(l) {
        return true;
    }
    let lw = lead_white_from(l, 0);
    assert(l@.skip(0) =~= l@);
    lw as u128 > indent
}

/// The unchecked checklist items of a markdown text (`- [ ] ...`, also with
/// `*` or `+`), each with the blank and deeper-indented lines that follow it.
pub fn extract_unchecked_todos(content: &str) -> (r: Vec<String>)
    ensures
        string_views(r@) == todo_items(text_lines(content@), 0),
{
    let cs = chars_of(content);
    let lines = split_lines(&cs);
    let ghost ls = views(lines@);
    let sep = vec!['\n'];
    assert(sep@ =~= seq!['\n']);
    let mut items: Vec<String> = Vec::new();
    let mut i: usize = 0;
    assert(string_views(items@) + todo_items(ls, 0) =~= todo_items(ls, 0));
    while i < lines.len()
        invariant
            ls == views(lines@),
            sep@ == seq!['\n'],
            i <= lines@.len(),
            string_views(items@) + todo_items(ls, i as int) == todo_items(ls, 0),
        decreases lines@.len() - i,
    {
        assert(ls[i as int] == lines@[i as int]@);
        match checkbox_indent_of(&lines[i]) {
            Some(indent) => {
                let ghost ind = indent as int;
                let mut block: Vec<char> = Vec::new();
                join_push(&mut block, &lines[i], &sep, true, Ghost(Seq::<Seq<char>>::empty()));
                assert(seq![ls[i as int]] =~= ls.subrange(i as int, i as int + 1));
                assert(Seq::<Seq<char>>::empty().push(ls[i as int]) =~= ls.subrange(
                    i as int,
                    i as int + 1,
                ));
                let mut j = i + 1;
                proof {
                    lemma_block_end_bounds(ls, ind, j as int);
                }
                while j < lines.len() && continues_block(&lines[j], indent)
                    invariant
                        ls == views(lines@),
                        sep@ == seq!['\n'],
                        i < j <= lines@.len(),
                        indent == ind,
                        block_end(ls, ind, i as int + 1) == block_end(ls, ind, j as int),
                        block@ == join_spec(ls.subrange(i as int, j as int), seq!['\n']),
                    decreases lines@.len() - j,
                {
                    assert(ls[j as int] == lines@[j as int]@);
                    join_push(&mut block, &lines[j], &sep, false, Ghost(ls.subrange(i as int, j as int)));
                    assert(ls.subrange(i as int, j as int).push(ls[j as int]) =~= ls.subrange(
                        i as int,
                        j as int + 1,
                    ));
                    j += 1;
                }
                if j < lines.len() {
                    assert(ls[j as int] == lines@[j as int]@);
                }
                let ghost before = string_views(items@);
                let text = string_of(&block);
                items.push(text);
                assert(string_views(items@) =~= before.push(block@));
                assert(before.push(block@) + todo_items(ls, j as int) =~= before + todo_items(
                    ls,
                    i as int,
                ));
                i = j;
            },
            None => {
                i += 1;
            },
        }
    }
    assert(string_views(items@) + Seq::<Seq<char>>::empty() =~= string_views(items@));
    items
}

} // verus!
