use crate::debug_lines::trim_spec;
use crate::session::{
    chars_of, is_blank, is_blank_chars, string_of, trim_end_chars, trim_end_spec,
    trim_start_chars,
};
use crate::todos::{split_lines, text_lines, views};
use vstd::prelude::*;

verus! {

pub open spec fn is_digit(c: char) -> bool {
    0x30 <= (c as u32) && (c as u32) <= 0x39
}

pub open spec fn digit_value(c: char) -> int {
    (c as u32) - 0x30
}

/// The decimal value of a run of digits.
pub open spec fn digits_value(s: Seq<char>) -> int
    decreases s.len(),
{
    if s.len() == 0 {
        0
    } else {
        digits_value(s.drop_last()) * 10 + digit_value(s.last())
    }
}

/// `s` without a leading `+`.
pub open spec fn unsigned_part(s: Seq<char>) -> Seq<char> {
    if s.len() > 0 && s[0] == '+' {
        s.drop_first()
    } else {
        s
    }
}

pub open spec fn all_digits(d: Seq<char>) -> bool {
    forall|i: int| 0 <= i < d.len() ==> #[trigger] is_digit(d[i])
}

/// `s` read as a `u32` the way `str::parse` reads it: an optional `+`, then
/// one or more decimal digits, within range.
pub open spec fn parse_u32_spec(s: Seq<char>) -> Option<u32> {
    let d = unsigned_part(s);
    if d.len() > 0 && all_digits(d) && digits_value(d) <= u32::MAX {
        Some(digits_value(d) as u32)
    } else {
        None
    }
}

proof fn lemma_digits_nonneg(s: Seq<char>)
    requires
        forall|i: int| 0 <= i < s.len() ==> #[trigger] is_digit(s[i]),
    ensures
        digits_value(s) >= 0,
    decreases s.len(),
{
    if s.len() > 0 {
        assert forall|i: int| 0 <= i < s.drop_last().len() implies #[trigger] is_digit(
            s.drop_last()[i],
        ) by {
            assert(s.drop_last()[i] == s[i]);
        }
        lemma_digits_nonneg(s.drop_last());
        assert(is_digit(s[s.len() - 1]));
    }
}

fn parse_u32_chars(s: &Vec<char>) -> (r: Option<u32>)
    ensures
        r == parse_u32_spec(s@),
{
    let start: usize = if s.len() > 0 && s[0] == '+' {
        1
    } else {
        0
    };
    let ghost d = unsigned_part(s@);
    assert(d =~= s@.skip(start as int));
    if start >= s.len() {
        return None;
    }
    let mut value: u64 = 0;
    let mut i = start;
    assert(s@.subrange(start as int, start as int) =~= Seq::<char>::empty());
    while i < s.len()
        invariant
            start <= i <= s@.len(),
            d == s@.skip(start as int),
            d == unsigned_part(s@),
            value == digits_value(s@.subrange(start as int, i as int)),
            value <= u32::MAX,
            forall|k: int| start <= k < i ==> #[trigger] is_digit(s@[k]),
        decreases s@.len() - i,
    {
        let c = s[i] as u32;
        let ghost pre = s@.subrange(start as int, i as int);
        let ghost next = s@.subrange(start as int, i as int + 1);
        assert(next.drop_last() =~= pre);
        if c < 0x30 || c > 0x39 {
            assert(d[i - start] == s@[i as int]);
            assert(!is_digit(d[i - start]));
            assert(!all_digits(d));
            return None;
        }
        let nv = value * 10 + (c - 0x30) as u64;
        if nv > 0xffff_ffff {
            proof {
                assert forall|k: int| 0 <= k < next.len() implies #[trigger] is_digit(next[k]) by {
                    assert(next[k] == s@[start + k]);
                }
                let rest = s@.subrange(i as int + 1, s@.len() as int);
                assert(d =~= next + rest);
                lemma_digits_grow(next, rest);
                assert(digits_value(next) > u32::MAX);
                if all_digits(d) {
                    assert(digits_value(d) > u32::MAX);
                }
            }
            return None;
        }
        value = nv;
        i += 1;
    }
    assert(s@.subrange(start as int, s@.len() as int) =~= d);
    Some(value as u32)
}

/// Appending digits never makes the value smaller.
proof fn lemma_digits_grow(a: Seq<char>, b: Seq<char>)
    requires
        forall|i: int| 0 <= i < a.len() ==> #[trigger] is_digit(a[i]),
    ensures
        (forall|i: int| 0 <= i < (a + b).len() ==> #[trigger] is_digit((a + b)[i])) ==> digits_value(
            a + b,
        ) >= digits_value(a),
    decreases b.len(),
{
    if b.len() > 0 {
        let ab = a + b;
        assert(ab.drop_last() =~= a + b.drop_last());
        if forall|i: int| 0 <= i < ab.len() ==> #[trigger] is_digit(ab[i]) {
            assert forall|i: int| 0 <= i < (a + b.drop_last()).len() implies #[trigger] is_digit(
                (a + b.drop_last())[i],
            ) by {
                assert((a + b.drop_last())[i] == ab[i]);
            }
            lemma_digits_grow(a, b.drop_last());
            lemma_digits_nonneg(a);
            assert(is_digit(ab.last()));
        }
    } else {
        assert(a + b =~= a);
    }
}

/// The largest window index among the lines, each trimmed and read as a `u32`.
pub open spec fn max_index(lines: Seq<Seq<char>>) -> Option<u32>
    decreases lines.len(),
{
    if lines.len() == 0 {
        None
    } else {
        let prev = max_index(lines.drop_last());
        match parse_u32_spec(trim_spec(lines.last())) {
            Some(v) => match prev {
                Some(m) => Some(if v > m {
                    v
                } else {
                    m
                }),
                None => Some(v),
            },
            None => prev,
        }
    }
}

/// The index for the next window after those listed one per line (tmux's
/// `list-windows -F '#I'`): one past the largest, saturating, or 1 when none
/// can be read.
pub fn next_window_index(listing: &str) -> (r: u32)
    ensures
        r == match max_index(text_lines(listing@)) {
            Some(m) => if m == u32::MAX {
                m
            } else {
                (m + 1) as u32
            },
            None => 1u32,
        },
{
    let cs = chars_of(listing);
    let lines = split_lines(&cs);
    let ghost ls = views(lines@);
    let mut best: Option<u32> = None;
    let mut i: usize = 0;
    assert(ls.take(0) =~= Seq::<Seq<char>>::empty());
    while i < lines.len()
        invariant
            ls == views(lines@),
            i <= lines@.len(),
            best == max_index(ls.take(i as int)),
        decreases lines@.len() - i,
    {
        assert(ls.take(i as int + 1).drop_last() =~= ls.take(i as int));
        assert(ls.take(i as int + 1).last() == lines@[i as int]@);
        let e = trim_end_chars(&lines[i]);
        let t = trim_start_chars(&e);
        match parse_u32_chars(&t) {
            Some(v) => {
                best = match best {
                    Some(m) => Some(if v > m {
                        v
                    } else {
                        m
                    }),
                    None => Some(v),
                };
            },
            None => {},
        }
        i += 1;
    }
    assert(ls.take(lines@.len() as int) =~= ls);
    match best {
        Some(m) => m.saturating_add(1),
        None => 1,
    }
}

pub open spec fn is_y(c: char) -> bool {
    c == 'y' || c == 'Y'
}

/// An answer that accepts: empty, `y` or `yes` in any ASCII case, around whitespace.
pub open spec fn is_confirmation_spec(s: Seq<char>) -> bool {
    let t = trim_spec(s);
    t.len() == 0 || (t.len() == 1 && is_y(t[0])) || (t.len() == 3 && is_y(t[0]) && (t[1] == 'e'
        || t[1] == 'E') && (t[2] == 's' || t[2] == 'S'))
}

/// Whether a typed answer to the launch prompt accepts.
pub fn is_confirmation(answer: &str) -> (r: bool)
    ensures
        r == is_confirmation_spec(answer@),
{
    let cs = chars_of(answer);
    let e = trim_end_chars(&cs);
    let t = trim_start_chars(&e);
    let n = t.len();
    n == 0 || (n == 1 && (t[0] == 'y' || t[0] == 'Y')) || (n == 3 && (t[0] == 'y' || t[0] == 'Y')
        && (t[1] == 'e' || t[1] == 'E') && (t[2] == 's' || t[2] == 'S'))
}

/// How a launch treats the tmux session before opening windows.
#[derive(Clone, Copy, Debug, PartialEq, Eq, Structural)]
pub struct SessionPlan {
    /// Kill the session that exists first.
    pub kill_existing: bool,
    /// Create the session, whose first window then takes the first prompt.
    pub create_session: bool,
    /// Add windows to the session that exists, after its last one.
    pub reuse_existing: bool,
}

/// Plans the session: a missing session is created; an existing one is
/// replaced when asked, else reused.
pub fn plan_session(session_exists: bool, replace: bool) -> (p: SessionPlan)
    ensures
        p.kill_existing == (session_exists && replace),
        p.create_session == (!session_exists || replace),
        p.reuse_existing == (session_exists && !replace),
{
    if session_exists {
        if replace {
            SessionPlan { kill_existing: true, create_session: true, reuse_existing: false }
        } else {
            SessionPlan { kill_existing: false, create_session: false, reuse_existing: true }
        }
    } else {
        SessionPlan { kill_existing: false, create_session: true, reuse_existing: false }
    }
}

/// The number of the window for prompt `idx` when windows start at `start`,
/// or `None` when it would not fit a `u32`.
pub fn window_number(start: u32, idx: usize) -> (r: Option<u32>)
    ensures
        start + idx <= u32::MAX ==> r == Some((start + idx) as u32),
        start + idx > u32::MAX ==> r is None,
{
    if idx as u64 > (u32::MAX - start) as u64 {
        None
    } else {
        Some(start + idx as u32)
    }
}

/// Whether prompt `idx` needs a new window: all do but the first one of a
/// session just created, which uses the session's own window.
pub fn needs_new_window(plan: SessionPlan, idx: usize) -> (r: bool)
    ensures
        r == !(plan.create_session && idx == 0),
{
    !(plan.create_session && idx == 0)
}

/// The one-line preview of a prompt: its first line without trailing
/// whitespace, marked with ` …` when a non-blank second line follows, or
/// `<empty>` when nothing is left.
pub open spec fn preview_spec(prompt: Seq<char>) -> Seq<char> {
    let ls = text_lines(prompt);
    let first = if ls.len() > 0 {
        trim_end_spec(ls[0])
    } else {
        Seq::empty()
    };
    let shown = if ls.len() > 1 && !is_blank(ls[1]) {
        first + seq![' ', '\u{2026}']
    } else {
        first
    };
    if shown.len() == 0 {
        seq!['<', 'e', 'm', 'p', 't', 'y', '>']
    } else {
        shown
    }
}

/// The preview shown for a prompt before launching.
pub fn preview_line(prompt: &str) -> (r: String)
    ensures
        r@ == preview_spec(prompt@),
{
    let cs = chars_of(prompt);
    let lines = split_lines(&cs);
    let ghost ls = views(lines@);
    let mut shown: Vec<char> = if lines.len() > 0 {
        assert(ls[0] == lines@[0]@);
        trim_end_chars(&lines[0])
    } else {
        Vec::new()
    };
    if lines.len() > 1 {
        assert(ls[1] == lines@[1]@);
        if !is_blank_chars(&lines[1]) {
            let ghost before = shown@;
            shown.push(' ');
            shown.push('\u{2026}');
            assert(shown@ =~= before + seq![' ', '\u{2026}']);
        }
    }
    if shown.len() == 0 {
        let e = vec!['<', 'e', 'm', 'p', 't', 'y', '>'];
        assert(e@ =~= seq!['<', 'e', 'm', 'p', 't', 'y', '>']);
        return string_of(&e);
    }
    string_of(&shown)
}

} // verus!
