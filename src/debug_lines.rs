use crate::session::{
    chars_of, is_blank, is_blank_chars, string_of, string_views, trim_end_chars, trim_end_spec,
    trim_start_chars, trim_start_spec,
};
use crate::todos::{lead_white, lead_white_from};
use vstd::prelude::*;

verus! {

pub open spec fn trim_spec(s: Seq<char>) -> Seq<char> {
    trim_start_spec(trim_end_spec(s))
}

pub open spec fn pdb_word() -> Seq<char> {
    seq!['p', 'd', 'b']
}

pub open spec fn ipdb_word() -> Seq<char> {
    seq!['i', 'p', 'd', 'b']
}

pub open spec fn import_word() -> Seq<char> {
    seq!['i', 'm', 'p', 'o', 'r', 't']
}

pub open spec fn set_trace_call() -> Seq<char> {
    seq!['.', 's', 'e', 't', '_', 't', 'r', 'a', 'c', 'e', '(', ')']
}

pub open spec fn is_debugger(m: Seq<char>) -> bool {
    m == pdb_word() || m == ipdb_word()
}

/// The text after `import` and at least one whitespace character, if `t`
/// starts that way.
pub open spec fn after_import(t: Seq<char>) -> Option<Seq<char>> {
    if t.len() >= 6 && t.take(6) == import_word() && lead_white(t.skip(6)) >= 1 {
        Some(t.skip(6 + lead_white(t.skip(6))))
    } else {
        None
    }
}

/// A line that is only `pdb.set_trace()` or `ipdb.set_trace()`.
pub open spec fn is_set_trace_line(l: Seq<char>) -> bool {
    let t = trim_spec(l);
    t == pdb_word() + set_trace_call() || t == ipdb_word() + set_trace_call()
}

/// The debugger module of a line that is only `import pdb` or `import ipdb`.
pub open spec fn import_module(l: Seq<char>) -> Option<Seq<char>> {
    match after_import(trim_spec(l)) {
        Some(m) => if is_debugger(m) {
            Some(m)
        } else {
            None
        },
        None => None,
    }
}

/// A line that is only `import M; M2.set_trace()` with debugger modules.
pub open spec fn is_single_line_break(l: Seq<char>) -> bool {
    match after_import(trim_spec(l)) {
        Some(r) => {
            let m = if r.len() >= 3 && r.take(3) == pdb_word() {
                pdb_word()
            } else {
                ipdb_word()
            };
            &&& r.len() > m.len()
            &&& r.take(m.len() as int) == m
            &&& r[m.len() as int] == ';'
            &&& is_set_trace_line(r.skip(m.len() as int + 1))
        },
        None => false,
    }
}

/// End (exclusive) of the run of blank lines from line `j`.
pub open spec fn blank_end(lines: Seq<Seq<char>>, j: int) -> int
    decreases lines.len() - j,
{
    if 0 <= j < lines.len() && is_blank(lines[j]) {
        blank_end(lines, j + 1)
    } else {
        j
    }
}

/// The lines from line `i` on without debugger breakpoints: one-line
/// `import pdb; pdb.set_trace()`, a lone `pdb.set_trace()`, and an
/// `import pdb` followed (past blank lines) by `pdb.set_trace()`, together
/// with the blank lines between them.
pub open spec fn kept_lines(lines: Seq<Seq<char>>, i: int) -> Seq<Seq<char>>
    decreases lines.len() - i,
{
    if i < 0 || i >= lines.len() {
        Seq::empty()
    } else if is_single_line_break(lines[i]) || is_set_trace_line(lines[i]) {
        kept_lines(lines, i + 1)
    } else {
        match import_module(lines[i]) {
            Some(m) => {
                let j = blank_end(lines, i + 1);
                let j2 = if i < j <= lines.len() {
                    j
                } else {
                    i + 1
                };
                if j2 < lines.len() && trim_spec(lines[j2]) == m + set_trace_call() {
                    kept_lines(lines, j2 + 1)
                } else {
                    lines.subrange(i, j2) + kept_lines(lines, j2)
                }
            },
            None => seq![lines[i]] + kept_lines(lines, i + 1),
        }
    }
}

fn same_chars(a: &Vec<char>, b: &Vec<char>) -> (r: bool)
    ensures
        r == (a@ == b@),
{
    if a.len() != b.len() {
        return false;
    }
    let mut i: usize = 0;
    while i < a.len()
        invariant
            a@.len() == b@.len(),
            i <= a@.len(),
            forall|k: int| 0 <= k < i ==> a@[k] == b@[k],
        decreases a@.len() - i,
    {
        if a[i] != b[i] {
            return false;
        }
        i += 1;
    }
    assert(a@ =~= b@);
    true
}

/// Whether `s` from index `at` on starts with `w`.
fn has_at(s: &Vec<char>, at: usize, w: &Vec<char>) -> (r: bool)
    requires
        at <= s@.len(),
    ensures
        r == (at + w@.len() <= s@.len() && s@.subrange(at as int, at + w@.len()) == w@),
{
    if w.len() > s.len() - at {
        return false;
    }
    let n = s.len();
    let mut i: usize = 0;
    while i < w.len()
        invariant
            n == s@.len(),
            at + w@.len() <= s@.len(),
            i <= w@.len(),
            forall|k: int| 0 <= k < i ==> s@[at + k] == w@[k],
        decreases w@.len() - i,
    {
        if s[at + i] != w[i] {
            assert(s@.subrange(at as int, at + w@.len())[i as int] != w@[i as int]);
            return false;
        }
        i += 1;
    }
    assert(s@.subrange(at as int, at + w@.len()) =~= w@);
    true
}

fn suffix_from(s: &Vec<char>, at: usize) -> (r: Vec<char>)
    requires
        at <= s@.len(),
    ensures
        r@ == s@.skip(at as int),
{
    let mut out: Vec<char> = Vec::new();
    let mut j = at;
    while j < s.len()
        invariant
            at <= j <= s@.len(),
            out@ == s@.subrange(at as int, j as int),
        decreases s@.len() - j,
    {
        out.push(s[j]);
        j += 1;
        assert(out@ =~= s@.subrange(at as int, j as int));
    }
    out
}

fn trim_chars(s: &Vec<char>) -> (r: Vec<char>)
    ensures
        r@ == trim_spec(s@),
{
    let e = trim_end_chars(s);
    trim_start_chars(&e)
}

/// The words the line grammar is made of.
struct Words {
    pdb: Vec<char>,
    ipdb: Vec<char>,
    import: Vec<char>,
    set_trace: Vec<char>,
}

impl Words {
    spec fn wf(&self) -> bool {
        &&& self.pdb@ == pdb_word()
        &&& self.ipdb@ == ipdb_word()
        &&& self.import@ == import_word()
        &&& self.set_trace@ == set_trace_call()
    }

    fn new() -> (w: Words)
        ensures
            w.wf(),
    {
        let w = Words {
            pdb: vec!['p', 'd', 'b'],
            ipdb: vec!['i', 'p', 'd', 'b'],
            import: vec!['i', 'm', 'p', 'o', 'r', 't'],
            set_trace: vec!['.', 's', 'e', 't', '_', 't', 'r', 'a', 'c', 'e', '(', ')'],
        };
        assert(w.pdb@ =~= pdb_word());
        assert(w.ipdb@ =~= ipdb_word());
        assert(w.import@ =~= import_word());
        assert(w.set_trace@ =~= set_trace_call());
        w
    }

    /// Whether `t` is `m` followed by `.set_trace()`.
    fn is_call_of(&self, t: &Vec<char>, m: &Vec<char>) -> (r: bool)
        requires
            self.wf(),
        ensures
            r == (t@ == m@ + set_trace_call()),
    {
        if m.len() > t.len() || t.len() - m.len() != self.set_trace.len() {
            assert(t@.len() != (m@ + set_trace_call()).len());
            return false;
        }
        let r = has_at(t, 0, m) && has_at(t, m.len(), &self.set_trace);
        if r {
            assert(t@ =~= m@ + set_trace_call());
        } else {
            proof {
                if t@ == m@ + set_trace_call() {
                    assert(t@.subrange(0, m@.len() as int) =~= m@);
                    assert(t@.subrange(m@.len() as int, t@.len() as int) =~= set_trace_call());
                }
            }
        }
        r
    }

    fn set_trace_line(&self, l: &Vec<char>) -> (r: bool)
        requires
            self.wf(),
        ensures
            r == is_set_trace_line(l@),
    {
        let t = trim_chars(l);
        self.is_call_of(&t, &self.pdb) || self.is_call_of(&t, &self.ipdb)
    }

    fn after_import_of(&self, t: &Vec<char>) -> (r: Option<Vec<char>>)
        requires
            self.wf(),
        ensures
            r matches Some(v) ==> after_import(t@) == Some(v@),
            r is None ==> after_import(t@) is None,
    {
        if !has_at(t, 0, &self.import) {
            proof {
                if t@.len() >= 6 {
                    assert(t@.subrange(0, 6) =~= t@.take(6));
                }
            }
            return None;
        }
        assert(t@.subrange(0, 6) =~= t@.take(6));
        let k = lead_white_from(t, 6);
        if k == 6 {
            return None;
        }
        Some(suffix_from(t, k))
    }

    fn import_module_of(&self, l: &Vec<char>) -> (r: Option<Vec<char>>)
        requires
            self.wf(),
        ensures
            r matches Some(v) ==> import_module(l@) == Some(v@),
            r is None ==> import_module(l@) is None,
    {
        let t = trim_chars(l);
        match self.after_import_of(&t) {
            Some(m) => {
                if same_chars(&m, &self.pdb) || same_chars(&m, &self.ipdb) {
                    Some(m)
                } else {
                    None
                }
            },
            None => None,
        }
    }

    fn single_line_break(&self, l: &Vec<char>) -> (r: bool)
        requires
            self.wf(),
        ensures
            r == is_single_line_break(l@),
    {
        let t = trim_chars(l);
        match self.after_import_of(&t) {
            Some(rest) => {
                let n: usize = if has_at(&rest, 0, &self.pdb) {
                    3
                } else {
                    4
                };
                proof {
                    if rest@.len() >= 3 {
                        assert(rest@.subrange(0, 3) =~= rest@.take(3));
                    }
                }
                let m = if n == 3 {
                    &self.pdb
                } else {
                    &self.ipdb
                };
                if rest.len() <= n || !has_at(&rest, 0, m) {
                    proof {
                        if rest@.len() > n {
                            assert(rest@.subrange(0, n as int) =~= rest@.take(n as int));
                        }
                    }
                    return false;
                }
                assert(rest@.subrange(0, n as int) =~= rest@.take(n as int));
                if rest[n] != ';' {
                    return false;
                }
                let tail = suffix_from(&rest, n + 1);
                self.set_trace_line(&tail)
            },
            None => false,
        }
    }
}

/// Removes debugger breakpoints from the lines of a Python source: a one-line
/// `import pdb; pdb.set_trace()`, a lone `pdb.set_trace()`, and an
/// `import pdb` followed (past blank lines) by `pdb.set_trace()`, together
/// with the blank lines between them. `ipdb` is treated alike.
pub fn strip_debug_lines(lines: &Vec<String>) -> (r: Vec<String>)
    ensures
        string_views(r@) == kept_lines(string_views(lines@), 0),
{
    let words = Words::new();
    let ghost ls = string_views(lines@);
    let mut out: Vec<String> = Vec::new();
    let mut i: usize = 0;
    assert(string_views(out@) + kept_lines(ls, 0) =~= kept_lines(ls, 0));
    while i < lines.len()
        invariant
            words.wf(),
            ls == string_views(lines@),
            i <= lines@.len(),
            string_views(out@) + kept_lines(ls, i as int) == kept_lines(ls, 0),
        decreases lines@.len() - i,
    {
        let line = chars_of(lines[i].as_str());
        assert(line@ == ls[i as int]);
        let ghost before = string_views(out@);
        if words.single_line_break(&line) || words.set_trace_line(&line) {
            i += 1;
        } else {
            match words.import_module_of(&line) {
                Some(m) => {
                    let mut j = i + 1;
                    while j < lines.len() && is_blank_chars(&chars_of(lines[j].as_str()))
                        invariant
                            ls == string_views(lines@),
                            i < j <= lines@.len(),
                            blank_end(ls, i as int + 1) == blank_end(ls, j as int),
                        decreases lines@.len() - j,
                    {
                        j += 1;
                    }
                    proof {
                        if j < lines@.len() {
                            assert(ls[j as int] == lines@[j as int]@);
                        }
                    }
                    let matched = j < lines.len() && {
                        let next = chars_of(lines[j].as_str());
                        let t = trim_chars(&next);
                        words.is_call_of(&t, &m)
                    };
                    if matched {
                        i = j + 1;
                    } else {
                        let mut k = i;
                        while k < j
                            invariant
                                ls == string_views(lines@),
                                i <= k <= j <= lines@.len(),
                                string_views(out@) == before + ls.subrange(i as int, k as int),
                            decreases j - k,
                        {
                            let ghost mid = string_views(out@);
                            out.push(lines[k].clone());
                            assert(string_views(out@) =~= mid.push(ls[k as int]));
                            assert(ls.subrange(i as int, k as int).push(ls[k as int]) =~= ls.subrange(
                                i as int,
                                k as int + 1,
                            ));
                            k += 1;
                        }
                        assert(before + ls.subrange(i as int, j as int) + kept_lines(ls, j as int)
                            =~= before + (ls.subrange(i as int, j as int) + kept_lines(
                            ls,
                            j as int,
                        )));
                        i = j;
                    }
                },
                None => {
                    out.push(lines[i].clone());
                    assert(string_views(out@) =~= before.push(ls[i as int]));
                    assert(before.push(ls[i as int]) + kept_lines(ls, i as int + 1) =~= before + (
                    seq![ls[i as int]] + kept_lines(ls, i as int + 1)));
                    i += 1;
                },
            }
        }
    }
    assert(string_views(out@) + Seq::<Seq<char>>::empty() =~= string_views(out@));
    out
}

} // verus!
