use vstd::prelude::*;

verus! {

/// Whitespace as `char::is_whitespace` reads it (the Unicode White_Space property).
pub open spec fn is_space(c: char) -> bool {
    let u = c as u32;
    (9 <= u && u <= 13) || u == 32 || u == 0x85 || u == 0xa0 || u == 0x1680 || (0x2000 <= u
        && u <= 0x200a) || u == 0x2028 || u == 0x2029 || u == 0x202f || u == 0x205f || u == 0x3000
}

fn char_is_space(c: char) -> (r: bool)
    ensures
        r == is_space(c),
{
    let u = c as u32;
    (9 <= u && u <= 13) || u == 32 || u == 0x85 || u == 0xa0 || u == 0x1680 || (0x2000 <= u
        && u <= 0x200a) || u == 0x2028 || u == 0x2029 || u == 0x202f || u == 0x205f || u == 0x3000
}

/// Index of the first `d` in `s` at or after `i`, or the length of `s` when there is none.
pub open spec fn delim_from(s: Seq<char>, d: char, i: int) -> int
    decreases s.len() - i,
{
    if i < 0 || i >= s.len() {
        s.len() as int
    } else if s[i] == d {
        i
    } else {
        delim_from(s, d, i + 1)
    }
}

/// What comes before the first comment delimiter of a line.
pub open spec fn before_delim(s: Seq<char>, d: char) -> Seq<char> {
    s.subrange(0, delim_from(s, d, 0))
}

/// Index of the first non-space character at or after `i`.
pub open spec fn text_start(s: Seq<char>, i: int) -> int
    decreases s.len() - i,
{
    if i < 0 || i >= s.len() {
        s.len() as int
    } else if !is_space(s[i]) {
        i
    } else {
        text_start(s, i + 1)
    }
}

/// One past the last non-space character before `j`, or 0 when there is none.
pub open spec fn text_end(s: Seq<char>, j: int) -> int
    decreases j,
{
    if j <= 0 || j > s.len() {
        0
    } else if !is_space(s[j - 1]) {
        j
    } else {
        text_end(s, j - 1)
    }
}

/// `s` without its leading and trailing whitespace.
pub open spec fn trimmed(s: Seq<char>) -> Seq<char> {
    let a = text_start(s, 0);
    let b = text_end(s, s.len() as int);
    if a < b {
        s.subrange(a, b)
    } else {
        Seq::empty()
    }
}

/// The pattern that one line of an ignore file holds (empty when it holds none).
pub open spec fn line_pattern(line: Seq<char>, d: char) -> Seq<char> {
    trimmed(before_delim(line, d))
}

/// The patterns of the given lines, in order, blank ones left out.
pub open spec fn patterns_of(lines: Seq<Seq<char>>, d: char) -> Seq<Seq<char>>
    decreases lines.len(),
{
    if lines.len() == 0 {
        Seq::empty()
    } else {
        let rest = patterns_of(lines.drop_last(), d);
        let p = line_pattern(lines.last(), d);
        if p.len() == 0 {
            rest
        } else {
            rest.push(p)
        }
    }
}

/// Index just after the last `/` before `j` (0 when there is none).
pub open spec fn name_start(s: Seq<char>, j: int) -> int
    decreases j,
{
    if j <= 0 || j > s.len() {
        0
    } else if s[j - 1] == '/' {
        j
    } else {
        name_start(s, j - 1)
    }
}

/// The last component of a path: what follows its last `/`.
pub open spec fn file_name(p: Seq<char>) -> Seq<char> {
    p.subrange(name_start(p, p.len() as int), p.len() as int)
}

pub open spec fn strings_view(v: Seq<String>) -> Seq<Seq<char>> {
    v.map_values(|s: String| s@)
}

/// Characters that a regular expression reads as syntax.
pub open spec fn is_meta(c: char) -> bool {
    c == '\\' || c == '.' || c == '+' || c == '*' || c == '?' || c == '(' || c == ')' || c
        == '|' || c == '[' || c == ']' || c == '{' || c == '}' || c == '^' || c == '$' || c
        == '#' || c == '&' || c == '-' || c == '~'
}

/// Characters that stand for themselves only once escaped inside a class.
pub open spec fn is_class_meta(c: char) -> bool {
    c == '\\' || c == '[' || c == ']' || c == '&' || c == '~' || c == '^'
}

/// The regular expression that stands for one glob character, read in the
/// given state: outside a class `*` is any run of characters, `?` any one
/// character and `[` opens a class; inside, a `]` that is not first closes it, a
/// first `!` negates it, and other characters stand for themselves.
pub open spec fn glob_piece(c: char, in_class: bool, first: bool) -> Seq<char> {
    if !in_class {
        if c == '*' {
            seq!['.', '*']
        } else if c == '?' {
            seq!['.']
        } else if c == '[' {
            seq!['[']
        } else if is_meta(c) {
            seq!['\\', c]
        } else {
            seq![c]
        }
    } else if c == ']' && !first {
        seq![']']
    } else if c == '!' && first {
        seq!['^']
    } else if is_class_meta(c) {
        seq!['\\', c]
    } else {
        seq![c]
    }
}

/// Whether the glob reader is inside a class after reading `c` in a state.
pub open spec fn class_after(c: char, in_class: bool, first: bool) -> bool {
    if !in_class {
        c == '['
    } else {
        !(c == ']' && !first)
    }
}

/// Whether the next character is the first of a class after reading `c`.
pub open spec fn first_after(c: char, in_class: bool) -> bool {
    !in_class && c == '['
}

/// The regular expression for `g` from index `i` on, read in the given state;
/// `None` where a class is left open.
pub open spec fn glob_rest(g: Seq<char>, i: int, in_class: bool, first: bool) -> Option<Seq<char>>
    decreases g.len() - i,
{
    if i < 0 || i >= g.len() {
        if in_class {
            None
        } else {
            Some(Seq::empty())
        }
    } else {
        let c = g[i];
        match glob_rest(g, i + 1, class_after(c, in_class, first), first_after(c, in_class)) {
            Some(r) => Some(glob_piece(c, in_class, first) + r),
            None => None,
        }
    }
}

/// The regular expression of a glob, anchored to the whole path; `None` where
/// the glob is malformed (a class is left open).
pub open spec fn glob_regex(g: Seq<char>) -> Option<Seq<char>> {
    match glob_rest(g, 0, false, false) {
        Some(b) => Some(seq!['^'] + b + seq!['$']),
        None => None,
    }
}

/// Whether every glob of the list is well formed.
pub open spec fn globs_valid(gs: Seq<Seq<char>>) -> bool {
    forall|i: int| 0 <= i < gs.len() ==> (#[trigger] glob_regex(gs[i])) is Some
}

pub open spec fn globs_regexes(gs: Seq<Seq<char>>) -> Seq<Seq<char>> {
    gs.map_values(|g: Seq<char>| glob_regex(g)->Some_0)
}

/// What `regex::RegexSet` makes of a list of expressions and a text: `None` where
/// the expressions do not compile, else whether any of them matches the text.
pub uninterp spec fn regex_set_outcome(exprs: Seq<Seq<char>>, text: Seq<char>) -> Option<bool>;

/// Relies on `regex::RegexSet::new`, which compiles the expressions together or
/// fails, and on `RegexSet::is_match`, which tells whether any of them matches.
#[verifier::external_body]
fn regex_set_is_match(exprs: &Vec<String>, text: &String) -> (r: Result<bool, String>)
    ensures
        r is Ok <==> regex_set_outcome(strings_view(exprs@), text@) is Some,
        r matches Ok(b) ==> regex_set_outcome(strings_view(exprs@), text@) == Some(b),
{
    match regex::RegexSet::new(exprs) {
        Ok(set) => Ok(set.is_match(text)),
        Err(e) => Err(e.to_string()),
    }
}


/// What follows the first comment delimiter of a line (empty when it has none).
pub open spec fn after_delim(s: Seq<char>, d: char) -> Seq<char> {
    if delim_from(s, d, 0) < s.len() {
        s.subrange(delim_from(s, d, 0) + 1, s.len() as int)
    } else {
        Seq::empty()
    }
}

/// Splits `s` at its first `d`: the pattern half before it and the comment half
/// after it (all of `s` and an empty comment where there is no `d`).
pub fn partition(s: &String, d: char) -> (r: (String, String))
    ensures
        r.0@ == before_delim(s@, d),
        r.1@ == after_delim(s@, d),
{
    let st = s.as_str();
    let n = st.unicode_len();
    let mut i: usize = 0;
    while i < n && st.get_char(i) != d
        invariant
            n == s@.len(),
            st@ == s@,
            0 <= i <= n,
            delim_from(s@, d, i as int) == delim_from(s@, d, 0),
        decreases n - i,
    {
        i = i + 1;
    }
    assert(delim_from(s@, d, i as int) == i);
    let head = String::from_str(st.substring_char(0, i));
    let tail = if i < n {
        String::from_str(st.substring_char(i + 1, n))
    } else {
        String::new()
    };
    (head, tail)
}

/// A line split by `partition` is its pattern half, the delimiter and its
/// comment half; the pattern half holds no delimiter.
pub proof fn lemma_partition_round_trip(s: Seq<char>, d: char)
    requires
        s.contains(d),
    ensures
        before_delim(s, d) + seq![d] + after_delim(s, d) == s,
        !before_delim(s, d).contains(d),
{
    lemma_delim_from_bounds(s, d, 0);
    let i = delim_from(s, d, 0);
    if i == s.len() {
        let k = choose|k: int| 0 <= k < s.len() && s[k] == d;
        assert(s[k] != d);
    }
    assert(before_delim(s, d) + seq![d] + after_delim(s, d) =~= s);
}

proof fn lemma_delim_from_bounds(s: Seq<char>, d: char, i: int)
    requires
        0 <= i <= s.len(),
    ensures
        i <= delim_from(s, d, i) <= s.len(),
        delim_from(s, d, i) < s.len() ==> s[delim_from(s, d, i)] == d,
        forall|k: int| i <= k < delim_from(s, d, i) ==> s[k] != d,
    decreases s.len() - i,
{
    if i < s.len() && s[i] != d {
        lemma_delim_from_bounds(s, d, i + 1);
    }
}

/// `s` without leading and trailing whitespace.
pub fn trim(s: &String) -> (r: String)
    ensures
        r@ == trimmed(s@),
{
    let st = s.as_str();
    let n = st.unicode_len();
    let mut a: usize = 0;
    while a < n && char_is_space(st.get_char(a))
        invariant
            n == s@.len(),
            st@ == s@,
            0 <= a <= n,
            text_start(s@, a as int) == text_start(s@, 0),
        decreases n - a,
    {
        a = a + 1;
    }
    assert(text_start(s@, a as int) == a);
    let mut b: usize = n;
    while b > 0 && char_is_space(st.get_char(b - 1))
        invariant
            n == s@.len(),
            st@ == s@,
            0 <= b <= n,
            text_end(s@, b as int) == text_end(s@, n as int),
        decreases b,
    {
        b = b - 1;
    }
    assert(text_end(s@, b as int) == b);
    if a < b {
        String::from_str(st.substring_char(a, b))
    } else {
        String::new()
    }
}

/// The last component of a path.
pub fn last_component(p: &String) -> (r: String)
    ensures
        r@ == file_name(p@),
{
    let st = p.as_str();
    let n = st.unicode_len();
    let mut j: usize = n;
    while j > 0 && st.get_char(j - 1) != '/'
        invariant
            n == p@.len(),
            st@ == p@,
            0 <= j <= n,
            name_start(p@, j as int) == name_start(p@, n as int),
        decreases j,
    {
        j = j - 1;
    }
    assert(name_start(p@, j as int) == j);
    String::from_str(st.substring_char(j, n))
}

/// Appends the regular expression of the glob character `c` (which `cs` holds).
fn push_piece(out: &mut String, cs: &str, c: char, in_class: bool, first: bool)
    requires
        cs@ == seq![c],
    ensures
        final(out)@ == old(out)@ + glob_piece(c, in_class, first),
{
    if !in_class {
        if c == '*' {
            out.append(".*");
            proof { reveal_strlit(".*"); }
        } else if c == '?' {
            out.append(".");
            proof { reveal_strlit("."); }
        } else if c == '[' {
            out.append("[");
            proof { reveal_strlit("["); }
        } else if c == '\\' || c == '.' || c == '+' || c == '(' || c == ')' || c == '|' || c
            == ']' || c == '{' || c == '}' || c == '^' || c == '$' || c == '#' || c == '&'
            || c == '-' || c == '~' {
            out.append("\\");
            proof { reveal_strlit("\\"); }
            out.append(cs);
        } else {
            out.append(cs);
        }
    } else if c == ']' && !first {
        out.append("]");
        proof { reveal_strlit("]"); }
    } else if c == '!' && first {
        out.append("^");
        proof { reveal_strlit("^"); }
    } else if c == '\\' || c == '[' || c == ']' || c == '&' || c == '~' || c == '^' {
        out.append("\\");
        proof { reveal_strlit("\\"); }
        out.append(cs);
    } else {
        out.append(cs);
    }
    proof {
        assert(final(out)@ =~= old(out)@ + glob_piece(c, in_class, first));
    }
}

/// The regular expression of a glob (see `glob_regex`); `None` where the glob
/// is malformed.
pub fn glob_to_regex(g: &String) -> (r: Option<String>)
    ensures
        r matches Some(x) ==> glob_regex(g@) == Some(x@),
        r is None ==> glob_regex(g@) is None,
{
    let st = g.as_str();
    let n = st.unicode_len();
    let mut out = String::from_str("^");
    proof {
        reveal_strlit("^");
    }
    let ghost head = out@;
    let mut in_class = false;
    let mut first = false;
    let mut i: usize = 0;
    while i < n
        invariant
            n == g@.len(),
            st@ == g@,
            0 <= i <= n,
            head == seq!['^'],
            glob_rest(g@, 0, false, false) == match glob_rest(g@, i as int, in_class, first) {
                Some(r) => Some(out@.subrange(1, out@.len() as int) + r),
                None => None,
            },
            out@.len() >= 1,
            out@[0] == '^',
        decreases n - i,
    {
        let c = st.get_char(i);
        let ghost before = out@;
        let cs = st.substring_char(i, i + 1);
        proof {
            assert(cs@ =~= seq![c]);
        }
        push_piece(&mut out, cs, c, in_class, first);
        let next_class = if !in_class {
            c == '['
        } else {
            !(c == ']' && !first)
        };
        let next_first = !in_class && c == '[';
        proof {
            let piece = glob_piece(c, in_class, first);
            assert(next_class == class_after(c, in_class, first));
            assert(next_first == first_after(c, in_class));
            match glob_rest(g@, i + 1, next_class, next_first) {
                Some(r) => {
                    assert(out@.subrange(1, out@.len() as int) + r =~= before.subrange(
                        1,
                        before.len() as int,
                    ) + (piece + r));
                },
                None => {},
            }
        }
        in_class = next_class;
        first = next_first;
        i = i + 1;
    }
    if in_class {
        return None;
    }
    let ghost body = out@.subrange(1, out@.len() as int);
    out.append("$");
    proof {
        reveal_strlit("$");
        assert(out@ =~= seq!['^'] + body + seq!['$']);
    }
    Some(out)
}

/// Whether a path is kept by a list of globs: `Some(true)` where none of them
/// matches it, `Some(false)` where one does, `None` where they do not compile.
pub open spec fn kept_by(globs: Seq<Seq<char>>, p: Seq<char>) -> Option<bool> {
    if !globs_valid(globs) {
        None
    } else {
        match regex_set_outcome(globs_regexes(globs), p) {
            Some(b) => Some(!b),
            None => None,
        }
    }
}

/// The glob that matches the ignore file itself wherever it stands: any path
/// that ends in `/` and the file's name.
pub open spec fn own_name_glob(path: Seq<char>) -> Seq<char> {
    seq!['*', '/'] + file_name(path)
}

/// The patterns of an ignore file whose lines are `lines` (`None`: there is no
/// such file), followed by the glob of the file's own name.
pub open spec fn loaded_patterns(lines: Option<Seq<Seq<char>>>, d: char, path: Seq<char>) -> Seq<
    Seq<char>,
> {
    match lines {
        Some(ls) => patterns_of(ls, d),
        None => Seq::empty(),
    }.push(own_name_glob(path))
}

/// Reads ignore files: one glob per line, with comments after a delimiter.
pub struct DotIgnoreConfigParser {
    pub comment_delimeter: char,
}

impl DotIgnoreConfigParser {
    pub fn new(comment_delimeter: char) -> (r: Self)
        ensures
            r.comment_delimeter == comment_delimeter,
    {
        Self { comment_delimeter }
    }

    /// A parser whose comments start with `#`.
    pub fn defaults() -> (r: Self)
        ensures
            r.comment_delimeter == '#',
    {
        Self { comment_delimeter: '#' }
    }

    /// The patterns that `lines` hold, in order.
    pub fn read(&self, lines: &Vec<String>) -> (r: Vec<String>)
        ensures
            strings_view(r@) == patterns_of(strings_view(lines@), self.comment_delimeter),
    {
        let d = self.comment_delimeter;
        let mut globs: Vec<String> = Vec::new();
        let mut i: usize = 0;
        while i < lines.len()
            invariant
                0 <= i <= lines@.len(),
                strings_view(globs@) == patterns_of(
                    strings_view(lines@).subrange(0, i as int),
                    d,
                ),
            decreases lines@.len() - i,
        {
            let glob = trim(&partition(&lines[i], d).0);
            proof {
                let pre = strings_view(lines@).subrange(0, i as int);
                let next = strings_view(lines@).subrange(0, i + 1);
                assert(next.drop_last() =~= pre);
                assert(next.last() == lines@[i as int]@);
            }
            if glob.as_str().unicode_len() > 0 {
                let ghost old_globs = globs@;
                globs.push(glob);
                proof {
                    assert(strings_view(globs@) =~= strings_view(old_globs).push(glob@));
                }
            }
            i = i + 1;
        }
        proof {
            assert(strings_view(lines@).subrange(0, lines@.len() as int) =~= strings_view(lines@));
        }
        globs
    }

    /// The patterns of the ignore file at `path`, whose lines are `lines`, or
    /// `None` where there is no such file; the file's own name always comes last.
    pub fn load(&self, path: &String, lines: Option<&Vec<String>>) -> (r: Vec<String>)
        ensures
            strings_view(r@) == loaded_patterns(
                match lines {
                    Some(ls) => Some(strings_view(ls@)),
                    None => None,
                },
                self.comment_delimeter,
                path@,
            ),
    {
        let mut globs = match lines {
            Some(ls) => self.read(ls),
            None => Vec::new(),
        };
        let mut name = String::from_str("*/");
        let last = last_component(path);
        name.append(last.as_str());
        proof {
            reveal_strlit("*/");
            assert(name@ =~= own_name_glob(path@));
        }
        let ghost old_globs = globs@;
        globs.push(name);
        proof {
            assert(strings_view(globs@) =~= strings_view(old_globs).push(name@));
            if lines is None {
                assert(strings_view(old_globs) =~= Seq::<Seq<char>>::empty());
            }
        }
        globs
    }
}

/// The ignore configuration of one run: the file it comes from and its globs.
pub struct DotIgnoreConfig {
    pub filename: String,
    pub parser: DotIgnoreConfigParser,
    pub ignore_globs: Vec<String>,
}

impl DotIgnoreConfig {
    /// A configuration read from `filename`, with no globs collected yet.
    pub fn new(filename: &String) -> (r: DotIgnoreConfig)
        ensures
            r.filename@ == filename@,
            r.parser.comment_delimeter == '#',
            r.ignore_globs@.len() == 0,
    {
        DotIgnoreConfig {
            filename: filename.clone(),
            parser: DotIgnoreConfigParser::defaults(),
            ignore_globs: Vec::new(),
        }
    }

    /// Collects the globs of the ignore file from its lines (`None`: the file is
    /// missing, which leaves only the file's own name).
    pub fn collect(&mut self, lines: Option<&Vec<String>>)
        ensures
            final(self).filename == old(self).filename,
            final(self).parser == old(self).parser,
            strings_view(final(self).ignore_globs@) == loaded_patterns(
                match lines {
                    Some(ls) => Some(strings_view(ls@)),
                    None => None,
                },
                old(self).parser.comment_delimeter,
                old(self).filename@,
            ),
    {
        self.ignore_globs = self.parser.load(&self.filename, lines);
    }

    /// Whether `path` is kept, that is matched by none of the globs; an error
    /// where the globs do not compile.
    pub fn match_glob(&self, path: &String) -> (r: Result<bool, String>)
        ensures
            r is Ok <==> kept_by(strings_view(self.ignore_globs@), path@) is Some,
            r matches Ok(b) ==> kept_by(strings_view(self.ignore_globs@), path@) == Some(b),
    {
        let mut exprs: Vec<String> = Vec::new();
        let mut i: usize = 0;
        while i < self.ignore_globs.len()
            invariant
                0 <= i <= self.ignore_globs@.len(),
                globs_valid(strings_view(self.ignore_globs@).subrange(0, i as int)),
                strings_view(exprs@) == globs_regexes(
                    strings_view(self.ignore_globs@).subrange(0, i as int),
                ),
            decreases self.ignore_globs@.len() - i,
        {
            let e = match glob_to_regex(&self.ignore_globs[i]) {
                Some(e) => e,
                None => {
                    proof {
                        assert(strings_view(self.ignore_globs@)[i as int] == self.ignore_globs@[i as int]@);
                    }
                    return Err(String::from_str("malformed glob"));
                },
            };
            let ghost old_exprs = exprs@;
            exprs.push(e);
            proof {
                let gs = strings_view(self.ignore_globs@);
                assert(gs.subrange(0, i + 1).drop_last() =~= gs.subrange(0, i as int));
                assert forall|k: int| 0 <= k < i + 1 implies (#[trigger] glob_regex(
                    gs.subrange(0, i + 1)[k],
                )) is Some by {
                    if k < i {
                        assert(gs.subrange(0, i + 1)[k] == gs.subrange(0, i as int)[k]);
                    }
                }
                assert(strings_view(exprs@) =~= strings_view(old_exprs).push(e@));
                assert(globs_regexes(strings_view(self.ignore_globs@).subrange(0, i + 1))
                    =~= globs_regexes(strings_view(self.ignore_globs@).subrange(0, i as int)).push(
                    e@,
                ));
            }
            i = i + 1;
        }
        proof {
            assert(strings_view(self.ignore_globs@).subrange(0, i as int) =~= strings_view(
                self.ignore_globs@,
            ));
        }
        match regex_set_is_match(&exprs, path) {
            Ok(b) => Ok(!b),
            Err(e) => Err(e),
        }
    }
}


/// The glob of the ignore file's own name is always among its patterns,
/// whatever the file holds.
pub proof fn lemma_own_name_ignored(lines: Option<Seq<Seq<char>>>, d: char, path: Seq<char>)
    ensures
        loaded_patterns(lines, d, path).contains(own_name_glob(path)),
        loaded_patterns(lines, d, path).last() == own_name_glob(path),
{
    let ps = loaded_patterns(lines, d, path);
    assert(ps[ps.len() - 1] == own_name_glob(path));
}

/// A missing ignore file gives no patterns of its own: only its name's glob.
pub proof fn lemma_missing_file(d: char, path: Seq<char>)
    ensures
        loaded_patterns(None, d, path) == seq![own_name_glob(path)],
{
    assert(loaded_patterns(None, d, path) =~= seq![own_name_glob(path)]);
}

} // verus!
