use vstd::prelude::*;

verus! {

/// Why a harness command cannot be built.
#[derive(Clone, Copy, Debug, PartialEq, Eq, Structural)]
pub enum SessionError {
    /// No argument of the harness command holds the `{item}` placeholder.
    MissingItemToken,
    /// The harness command has no words.
    EmptyCommand,
    /// The harness command string has an unclosed quote.
    UnparsableCommand,
}

/// The placeholder that a harness command argument carries for the prompt.
pub open spec fn item_token() -> Seq<char> {
    seq!['{', 'i', 't', 'e', 'm', '}']
}

fn item_token_chars() -> (r: Vec<char>)
    ensures
        r@ == item_token(),
{
    let r = vec!['{', 'i', 't', 'e', 'm', '}'];
    assert(r@ =~= item_token());
    r
}

/// Relies on `str::chars` collected into a `Vec`: the characters of the text, in order.
#[verifier::external_body]
pub(crate) fn chars_of(s: &str) -> (r: Vec<char>)
    ensures
        r@ == s@,
{
    s.chars().collect()
}

/// Relies on `String`'s `FromIterator<char>`: the text of exactly these characters.
#[verifier::external_body]
pub(crate) fn string_of(v: &Vec<char>) -> (r: String)
    ensures
        r@ == v@,
{
    v.iter().collect()
}

/// `pat` occurs in `s` at index `i`.
pub open spec fn occurs_at(s: Seq<char>, pat: Seq<char>, i: int) -> bool {
    0 <= i && i + pat.len() <= s.len() && s.subrange(i, i + pat.len()) == pat
}

pub open spec fn contains_seq(s: Seq<char>, pat: Seq<char>) -> bool {
    exists|i: int| occurs_at(s, pat, i)
}

/// `s` with every occurrence of the non-empty `pat`, taken left to right
/// without overlap, replaced by `rep`.
pub open spec fn replace_all(s: Seq<char>, pat: Seq<char>, rep: Seq<char>) -> Seq<char>
    decreases s.len(),
{
    if pat.len() == 0 || s.len() < pat.len() {
        s
    } else if s.take(pat.len() as int) == pat {
        rep + replace_all(s.skip(pat.len() as int), pat, rep)
    } else {
        seq![s[0]] + replace_all(s.drop_first(), pat, rep)
    }
}

fn occurs_at_exec(s: &Vec<char>, pat: &Vec<char>, i: usize) -> (r: bool)
    requires
        i <= s@.len(),
    ensures
        r == occurs_at(s@, pat@, i as int),
{
    if pat.len() > s.len() - i {
        return false;
    }
    let n = s.len();
    let mut j: usize = 0;
    while j < pat.len()
        invariant
            n == s@.len(),
            i + pat@.len() <= s@.len(),
            j <= pat@.len(),
            forall|k: int| 0 <= k < j ==> s@[i + k] == pat@[k],
        decreases pat@.len() - j,
    {
        if s[i + j] != pat[j] {
            assert(s@.subrange(i as int, i + pat@.len())[j as int] != pat@[j as int]);
            return false;
        }
        j += 1;
    }
    assert(s@.subrange(i as int, i + pat@.len()) =~= pat@);
    true
}

fn contains_chars(s: &Vec<char>, pat: &Vec<char>) -> (r: bool)
    ensures
        r == contains_seq(s@, pat@),
{
    let mut i: usize = 0;
    while i < s.len()
        invariant
            i <= s@.len(),
            forall|k: int| 0 <= k < i ==> !occurs_at(s@, pat@, k),
        decreases s@.len() - i,
    {
        if occurs_at_exec(s, pat, i) {
            return true;
        }
        i += 1;
    }
    if occurs_at_exec(s, pat, i) {
        return true;
    }
    assert forall|k: int| !occurs_at(s@, pat@, k) by {
        if k > s@.len() {
            assert(k + pat@.len() > s@.len());
        }
    }
    false
}

fn replace_chars(s: &Vec<char>, pat: &Vec<char>, rep: &Vec<char>) -> (r: Vec<char>)
    requires
        pat@.len() > 0,
    ensures
        r@ == replace_all(s@, pat@, rep@),
{
    let mut out: Vec<char> = Vec::new();
    let mut i: usize = 0;
    assert(s@.skip(0) =~= s@);
    while i < s.len()
        invariant
            pat@.len() > 0,
            i <= s@.len(),
            out@ + replace_all(s@.skip(i as int), pat@, rep@) == replace_all(s@, pat@, rep@),
        decreases s@.len() - i,
    {
        let ghost rest = s@.skip(i as int);
        if pat.len() <= s.len() - i && occurs_at_exec(s, pat, i) {
            assert(rest.take(pat@.len() as int) =~= s@.subrange(i as int, i + pat@.len()));
            assert(rest.skip(pat@.len() as int) =~= s@.skip(i + pat@.len()));
            let mut j: usize = 0;
            let ghost before = out@;
            while j < rep.len()
                invariant
                    j <= rep@.len(),
                    out@ == before + rep@.take(j as int),
                decreases rep@.len() - j,
            {
                out.push(rep[j]);
                j += 1;
                assert(out@ =~= before + rep@.take(j as int));
            }
            assert(rep@.take(rep@.len() as int) =~= rep@);
            assert(out@ + replace_all(s@.skip(i + pat@.len()), pat@, rep@) =~= before + (rep@
                + replace_all(rest.skip(pat@.len() as int), pat@, rep@)));
            i += pat.len();
        } else {
            proof {
                if pat@.len() <= rest.len() {
                    assert(rest.take(pat@.len() as int) =~= s@.subrange(i as int, i + pat@.len()));
                }
            }
            assert(rest.drop_first() =~= s@.skip(i + 1));
            let ghost before = out@;
            out.push(s[i]);
            assert(out@ + replace_all(s@.skip(i + 1), pat@, rep@) =~= before + (seq![s@[i as int]]
                + replace_all(rest.drop_first(), pat@, rep@)));
            i += 1;
        }
    }
    assert(s@.skip(i as int) =~= Seq::<char>::empty());
    assert(out@ + Seq::<char>::empty() =~= out@);
    out
}

/// Whether any argument holds the `{item}` placeholder.
pub fn contains_item_token(args: &Vec<String>) -> (r: bool)
    ensures
        r == exists|i: int| 0 <= i < args@.len() && contains_seq(#[trigger] args@[i]@, item_token()),
{
    let token = item_token_chars();
    let mut i: usize = 0;
    while i < args.len()
        invariant
            token@ == item_token(),
            i <= args@.len(),
            forall|k: int| 0 <= k < i ==> !contains_seq(#[trigger] args@[k]@, item_token()),
        decreases args@.len() - i,
    {
        let cs = chars_of(args[i].as_str());
        if contains_chars(&cs, &token) {
            return true;
        }
        i += 1;
    }
    false
}

/// `arg` with every `{item}` replaced by `prompt`.
pub fn replace_item_token(arg: &str, prompt: &str) -> (r: String)
    ensures
        r@ == replace_all(arg@, item_token(), prompt@),
{
    let token = item_token_chars();
    let a = chars_of(arg);
    let p = chars_of(prompt);
    let out = replace_chars(&a, &token, &p);
    string_of(&out)
}

/// Characters that make a shell word need quoting.
pub open spec fn needs_quoting(c: char) -> bool {
    c == ' ' || c == '\t' || c == '\n' || c == '\r' || c == '\'' || c == '"' || c == '\\' || c
        == '$' || c == '`' || c == '!' || c == '(' || c == ')'
}

/// A single quote written inside single quotes: close, quoted quote, reopen.
pub open spec fn quote_escape() -> Seq<char> {
    seq!['\'', '"', '\'', '"', '\'']
}

/// `input` as one POSIX shell word: `''` when empty; unchanged when it holds
/// no special character; otherwise single-quoted with inner quotes escaped.
pub open spec fn shell_escape_spec(input: Seq<char>) -> Seq<char> {
    if input.len() == 0 {
        seq!['\'', '\'']
    } else if !(exists|i: int| 0 <= i < input.len() && #[trigger] needs_quoting(input[i])) {
        input
    } else {
        seq!['\''] + replace_all(input, seq!['\''], quote_escape()) + seq!['\'']
    }
}

fn shell_escape_chars(input: &Vec<char>) -> (r: Vec<char>)
    ensures
        r@ == shell_escape_spec(input@),
{
    if input.len() == 0 {
        let r = vec!['\'', '\''];
        assert(r@ =~= seq!['\'', '\'']);
        return r;
    }
    let mut special = false;
    let mut i: usize = 0;
    while i < input.len()
        invariant
            i <= input@.len(),
            special == exists|k: int| 0 <= k < i && #[trigger] needs_quoting(input@[k]),
        decreases input@.len() - i,
    {
        let c = input[i];
        if c == ' ' || c == '\t' || c == '\n' || c == '\r' || c == '\'' || c == '"' || c == '\\'
            || c == '$' || c == '`' || c == '!' || c == '(' || c == ')' {
            special = true;
            assert(needs_quoting(input@[i as int]));
        } else {
            assert(!needs_quoting(input@[i as int]));
        }
        proof {
            if special {
                assert(exists|k: int| 0 <= k < i + 1 && #[trigger] needs_quoting(input@[k]));
            } else {
                assert forall|k: int| 0 <= k < i + 1 implies !#[trigger] needs_quoting(
                    input@[k],
                ) by {}
            }
        }
        i += 1;
    }
    if !special {
        return input.clone();
    }
    let quote = vec!['\''];
    let esc = vec!['\'', '"', '\'', '"', '\''];
    assert(quote@ =~= seq!['\'']);
    assert(esc@ =~= quote_escape());
    let inner = replace_chars(input, &quote, &esc);
    let mut out = vec!['\''];
    let mut j: usize = 0;
    while j < inner.len()
        invariant
            j <= inner@.len(),
            out@ == seq!['\''] + inner@.take(j as int),
        decreases inner@.len() - j,
    {
        out.push(inner[j]);
        j += 1;
        assert(out@ =~= seq!['\''] + inner@.take(j as int));
    }
    out.push('\'');
    assert(inner@.take(inner@.len() as int) =~= inner@);
    assert(out@ =~= shell_escape_spec(input@));
    out
}

/// Quotes `input` as one POSIX shell word.
pub fn shell_escape(input: &str) -> (r: String)
    ensures
        r@ == shell_escape_spec(input@),
{
    let cs = chars_of(input);
    let out = shell_escape_chars(&cs);
    string_of(&out)
}

/// `parts` joined with `sep` between neighbours.
pub open spec fn join_spec(parts: Seq<Seq<char>>, sep: Seq<char>) -> Seq<char>
    decreases parts.len(),
{
    if parts.len() == 0 {
        Seq::empty()
    } else if parts.len() == 1 {
        parts[0]
    } else {
        join_spec(parts.drop_last(), sep) + sep + parts.last()
    }
}

fn append_chars(out: &mut Vec<char>, more: &Vec<char>)
    ensures
        final(out)@ == old(out)@ + more@,
{
    let ghost start = out@;
    let mut j: usize = 0;
    while j < more.len()
        invariant
            j <= more@.len(),
            out@ == start + more@.take(j as int),
        decreases more@.len() - j,
    {
        out.push(more[j]);
        j += 1;
        assert(out@ =~= start + more@.take(j as int));
    }
    assert(more@.take(more@.len() as int) =~= more@);
}

/// Adds `part` to the joined text of `done` earlier parts.
pub(crate) fn join_push(
    out: &mut Vec<char>,
    part: &Vec<char>,
    sep: &Vec<char>,
    first: bool,
    Ghost(parts): Ghost<Seq<Seq<char>>>,
)
    requires
        old(out)@ == join_spec(parts, sep@),
        first == (parts.len() == 0),
    ensures
        final(out)@ == join_spec(parts.push(part@), sep@),
{
    assert(parts.push(part@).drop_last() =~= parts);
    if !first {
        append_chars(out, sep);
    } else {
        assert(old(out)@ =~= Seq::<char>::empty());
    }
    append_chars(out, part);
    if first {
        assert(out@ =~= part@);
    }
}

/// The shell words of a harness command once `{item}` is replaced by `prompt`.
pub open spec fn command_words(args: Seq<String>, prompt: Seq<char>) -> Seq<Seq<char>> {
    Seq::new(args.len(), |i: int| shell_escape_spec(replace_all(args[i]@, item_token(), prompt)))
}

/// The command line typed into a window: each argument with `{item}` replaced
/// by `prompt`, shell-quoted, joined by spaces. Refused when no argument holds
/// `{item}`.
pub fn build_shell_command(harness_cmd: &Vec<String>, prompt: &str) -> (r: Result<String, SessionError>)
    ensures
        !(exists|i: int| 0 <= i < harness_cmd@.len() && contains_seq(#[trigger] harness_cmd@[i]@, item_token()))
            ==> r == Err::<String, SessionError>(SessionError::MissingItemToken),
        (exists|i: int| 0 <= i < harness_cmd@.len() && contains_seq(#[trigger] harness_cmd@[i]@, item_token()))
            ==> (r matches Ok(s) && s@ == join_spec(command_words(harness_cmd@, prompt@), seq![' '])),
{
    if !contains_item_token(harness_cmd) {
        return Err(SessionError::MissingItemToken);
    }
    let sep = vec![' '];
    assert(sep@ =~= seq![' ']);
    let ghost words = command_words(harness_cmd@, prompt@);
    let mut out: Vec<char> = Vec::new();
    let mut i: usize = 0;
    assert(words.take(0) =~= Seq::<Seq<char>>::empty());
    while i < harness_cmd.len()
        invariant
            i <= harness_cmd@.len(),
            sep@ == seq![' '],
            words == command_words(harness_cmd@, prompt@),
            out@ == join_spec(words.take(i as int), sep@),
        decreases harness_cmd@.len() - i,
    {
        let replaced = replace_item_token(harness_cmd[i].as_str(), prompt);
        let rc = chars_of(replaced.as_str());
        let escaped = shell_escape_chars(&rc);
        join_push(&mut out, &escaped, &sep, i == 0, Ghost(words.take(i as int)));
        assert(words.take(i as int).push(escaped@) =~= words.take(i as int + 1));
        i += 1;
    }
    assert(words.take(harness_cmd@.len() as int) =~= words);
    Ok(string_of(&out))
}

/// Unicode `White_Space`, as `char::is_whitespace` and the trimming methods of `str` use it.
pub open spec fn is_white(c: char) -> bool {
    let u = c as u32;
    (9 <= u && u <= 13) || u == 32 || u == 0x85 || u == 0xa0 || u == 0x1680 || (0x2000 <= u && u
        <= 0x200a) || u == 0x2028 || u == 0x2029 || u == 0x202f || u == 0x205f || u == 0x3000
}

pub(crate) fn is_white_exec(c: char) -> (r: bool)
    ensures
        r == is_white(c),
{
    let u = c as u32;
    (9 <= u && u <= 13) || u == 32 || u == 0x85 || u == 0xa0 || u == 0x1680 || (0x2000 <= u && u
        <= 0x200a) || u == 0x2028 || u == 0x2029 || u == 0x202f || u == 0x205f || u == 0x3000
}

pub open spec fn trim_end_spec(s: Seq<char>) -> Seq<char>
    decreases s.len(),
{
    if s.len() > 0 && is_white(s.last()) {
        trim_end_spec(s.drop_last())
    } else {
        s
    }
}

pub open spec fn trim_start_spec(s: Seq<char>) -> Seq<char>
    decreases s.len(),
{
    if s.len() > 0 && is_white(s[0]) {
        trim_start_spec(s.drop_first())
    } else {
        s
    }
}

/// Holds nothing but whitespace.
pub open spec fn is_blank(s: Seq<char>) -> bool {
    forall|i: int| 0 <= i < s.len() ==> #[trigger] is_white(s[i])
}

pub(crate) fn trim_end_chars(s: &Vec<char>) -> (r: Vec<char>)
    ensures
        r@ == trim_end_spec(s@),
{
    let mut end = s.len();
    assert(s@.take(end as int) =~= s@);
    while end > 0 && is_white_exec(s[end - 1])
        invariant
            end <= s@.len(),
            trim_end_spec(s@) == trim_end_spec(s@.take(end as int)),
        decreases end,
    {
        assert(s@.take(end as int).drop_last() =~= s@.take(end as int - 1));
        end -= 1;
    }
    let mut out: Vec<char> = Vec::new();
    let mut j: usize = 0;
    while j < end
        invariant
            end <= s@.len(),
            j <= end,
            out@ == s@.take(j as int),
        decreases end - j,
    {
        out.push(s[j]);
        j += 1;
        assert(out@ =~= s@.take(j as int));
    }
    out
}

pub(crate) fn trim_start_chars(s: &Vec<char>) -> (r: Vec<char>)
    ensures
        r@ == trim_start_spec(s@),
{
    let mut start: usize = 0;
    assert(s@.skip(0) =~= s@);
    while start < s.len() && is_white_exec(s[start])
        invariant
            start <= s@.len(),
            trim_start_spec(s@) == trim_start_spec(s@.skip(start as int)),
        decreases s@.len() - start,
    {
        assert(s@.skip(start as int).drop_first() =~= s@.skip(start as int + 1));
        start += 1;
    }
    let mut out: Vec<char> = Vec::new();
    let mut j: usize = start;
    while j < s.len()
        invariant
            start <= j <= s@.len(),
            out@ == s@.subrange(start as int, j as int),
        decreases s@.len() - j,
    {
        out.push(s[j]);
        j += 1;
        assert(out@ =~= s@.subrange(start as int, j as int));
    }
    assert(out@ =~= s@.skip(start as int));
    out
}

pub(crate) fn is_blank_chars(s: &Vec<char>) -> (r: bool)
    ensures
        r == is_blank(s@),
{
    let mut i: usize = 0;
    while i < s.len()
        invariant
            i <= s@.len(),
            forall|k: int| 0 <= k < i ==> #[trigger] is_white(s@[k]),
        decreases s@.len() - i,
    {
        if !is_white_exec(s[i]) {
            return false;
        }
        i += 1;
    }
    true
}

/// The parts of a prompt: a non-blank prefix without trailing whitespace, the
/// item without trailing whitespace, a non-blank suffix without leading whitespace.
pub open spec fn prompt_parts(item: Seq<char>, prefix: Option<Seq<char>>, suffix: Option<Seq<char>>) -> Seq<Seq<char>> {
    let head = match prefix {
        Some(p) => if !is_blank(p) {
            seq![trim_end_spec(p)]
        } else {
            Seq::empty()
        },
        None => Seq::empty(),
    };
    let tail = match suffix {
        Some(x) => if !is_blank(x) {
            seq![trim_start_spec(x)]
        } else {
            Seq::empty()
        },
        None => Seq::empty(),
    };
    head + seq![trim_end_spec(item)] + tail
}

pub open spec fn paragraph_break() -> Seq<char> {
    seq!['\n', '\n']
}

pub open spec fn opt_view(o: Option<&str>) -> Option<Seq<char>> {
    match o {
        Some(s) => Some(s@),
        None => None,
    }
}

/// Builds the prompt for one item: the optional prefix, the item and the
/// optional suffix, separated by blank lines.
pub fn build_prompt(item: &str, prefix: Option<&str>, suffix: Option<&str>) -> (r: String)
    ensures
        r@ == join_spec(prompt_parts(item@, opt_view(prefix), opt_view(suffix)), paragraph_break()),
{
    let sep = vec!['\n', '\n'];
    assert(sep@ =~= paragraph_break());
    let ghost parts = prompt_parts(item@, opt_view(prefix), opt_view(suffix));
    let ghost mut done: Seq<Seq<char>> = Seq::empty();
    let mut out: Vec<char> = Vec::new();
    let mut first = true;
    if let Some(p) = prefix {
        let pc = chars_of(p);
        if !is_blank_chars(&pc) {
            let t = trim_end_chars(&pc);
            join_push(&mut out, &t, &sep, first, Ghost(done));
            first = false;
            proof {
                done = done.push(t@);
            }
        }
    }
    let ic = chars_of(item);
    let it = trim_end_chars(&ic);
    join_push(&mut out, &it, &sep, first, Ghost(done));
    proof {
        done = done.push(it@);
    }
    if let Some(x) = suffix {
        let xc = chars_of(x);
        if !is_blank_chars(&xc) {
            let t = trim_start_chars(&xc);
            join_push(&mut out, &t, &sep, false, Ghost(done));
            proof {
                done = done.push(t@);
            }
        }
    }
    assert(done =~= parts);
    string_of(&out)
}

pub open spec fn string_views(v: Seq<String>) -> Seq<Seq<char>> {
    Seq::new(v.len(), |i: int| v[i]@)
}

/// The words that POSIX-style shell splitting finds in a text, or `None` for
/// an unclosed quote.
pub uninterp spec fn shell_split_of(s: Seq<char>) -> Option<Seq<Seq<char>>>;

/// Relies on `shell_words::split`: its words depend on the text alone, and it
/// fails (with `ParseError`) exactly when the text cannot be split.
#[verifier::external_body]
fn shell_split(s: &str) -> (r: Option<Vec<String>>)
    ensures
        r matches Some(v) ==> shell_split_of(s@) == Some(string_views(v@)),
        r is None ==> shell_split_of(s@) is None,
{
    match shell_words::split(s) {
        Ok(words) => Some(words),
        Err(_) => None,
    }
}

fn copy_strings(v: &Vec<String>) -> (r: Vec<String>)
    ensures
        string_views(r@) == string_views(v@),
{
    let mut out: Vec<String> = Vec::new();
    let mut i: usize = 0;
    while i < v.len()
        invariant
            i <= v@.len(),
            string_views(out@) == string_views(v@).take(i as int),
        decreases v@.len() - i,
    {
        let ghost before = string_views(out@);
        out.push(v[i].clone());
        assert(string_views(out@) =~= before.push(v@[i as int]@));
        i += 1;
        assert(string_views(out@) =~= string_views(v@).take(i as int));
    }
    assert(string_views(v@).take(v@.len() as int) =~= string_views(v@));
    out
}

/// What a split of the harness command string gives: its words, unless the
/// split failed or found none.
pub open spec fn accept_split_spec(parsed: Option<Seq<Seq<char>>>) -> Result<Seq<Seq<char>>, SessionError> {
    match parsed {
        None => Err(SessionError::UnparsableCommand),
        Some(words) => if words.len() == 0 {
            Err(SessionError::EmptyCommand)
        } else {
            Ok(words)
        },
    }
}

pub open spec fn result_views(r: Result<Vec<String>, SessionError>) -> Result<Seq<Seq<char>>, SessionError> {
    match r {
        Ok(v) => Ok(string_views(v@)),
        Err(e) => Err(e),
    }
}

pub open spec fn opt_views(o: Option<Vec<String>>) -> Option<Seq<Seq<char>>> {
    match o {
        Some(v) => Some(string_views(v@)),
        None => None,
    }
}

/// Takes the outcome of splitting a harness command string: its words, unless
/// the split failed or found none.
pub fn accept_split(parsed: Option<Vec<String>>) -> (r: Result<Vec<String>, SessionError>)
    ensures
        result_views(r) == accept_split_spec(opt_views(parsed)),
{
    match parsed {
        None => Err(SessionError::UnparsableCommand),
        Some(words) => {
            if words.len() == 0 {
                Err(SessionError::EmptyCommand)
            } else {
                Ok(words)
            }
        },
    }
}

/// The harness command as words: a single argument that holds whitespace
/// (after trimming) is split as a shell command string; otherwise the
/// arguments stand as given. An empty command is refused.
pub open spec fn normalize_spec(raw: Seq<Seq<char>>) -> Result<Seq<Seq<char>>, SessionError> {
    if raw.len() == 0 {
        Err(SessionError::EmptyCommand)
    } else if raw.len() == 1 && exists|i: int|
        0 <= i < trim_start_spec(trim_end_spec(raw[0])).len() && #[trigger] is_white(
            trim_start_spec(trim_end_spec(raw[0]))[i],
        ) {
        accept_split_spec(shell_split_of(trim_start_spec(trim_end_spec(raw[0]))))
    } else {
        Ok(raw)
    }
}

/// Turns the harness command arguments into the words to run.
pub fn normalize_harness_cmd(raw: &Vec<String>) -> (r: Result<Vec<String>, SessionError>)
    ensures
        result_views(r) == normalize_spec(string_views(raw@)),
{
    if raw.len() == 0 {
        return Err(SessionError::EmptyCommand);
    }
    if raw.len() == 1 {
        assert(string_views(raw@)[0] == raw@[0]@);
        let cs = chars_of(raw[0].as_str());
        let e = trim_end_chars(&cs);
        let single = trim_start_chars(&e);
        let mut i: usize = 0;
        let mut spaced = false;
        while i < single.len()
            invariant
                i <= single@.len(),
                spaced == exists|k: int| 0 <= k < i && #[trigger] is_white(single@[k]),
            decreases single@.len() - i,
        {
            if is_white_exec(single[i]) {
                spaced = true;
            }
            proof {
                if spaced {
                    assert(exists|k: int| 0 <= k < i + 1 && #[trigger] is_white(single@[k]));
                } else {
                    assert forall|k: int| 0 <= k < i + 1 implies !#[trigger] is_white(single@[k]) by {}
                }
            }
            i += 1;
        }
        if spaced {
            let text = string_of(&single);
            return accept_split(shell_split(text.as_str()));
        }
    }
    Ok(copy_strings(raw))
}

} // verus!
