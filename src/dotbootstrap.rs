use vstd::prelude::*;
use crate::dotfile_crawler::DotCrawler;
use crate::dotignore::{DotIgnoreConfig, file_name, kept_by, last_component, strings_view, trim, trimmed};

verus! {

/// Whether `s` ends with `suffix`.
pub open spec fn ends_with(s: Seq<char>, suffix: Seq<char>) -> bool {
    suffix.len() <= s.len() && s.subrange(s.len() - suffix.len(), s.len() as int) == suffix
}

/// Whether `p` lies under `root`: `root` is a prefix of it that ends at a
/// component boundary.
pub open spec fn under(p: Seq<char>, root: Seq<char>) -> bool {
    &&& root.len() <= p.len()
    &&& p.subrange(0, root.len() as int) == root
    &&& (p.len() == root.len() || p[root.len() as int] == '/' || (root.len() > 0 && root.last()
        == '/'))
}

/// `p` with `root` taken off its front, and the separator after it.
pub open spec fn relative_to(p: Seq<char>, root: Seq<char>) -> Seq<char> {
    if p.len() > root.len() && p[root.len() as int] == '/' {
        p.subrange(root.len() as int + 1, p.len() as int)
    } else {
        p.subrange(root.len() as int, p.len() as int)
    }
}

/// `rel` placed under `base`, with one separator between them.
pub open spec fn joined(base: Seq<char>, rel: Seq<char>) -> Seq<char> {
    if base.len() == 0 {
        rel
    } else if base.last() == '/' {
        base + rel
    } else {
        base + seq!['/'] + rel
    }
}

/// Where the link for `from` goes: its path under `src` placed under `dest`;
/// `None` where `from` is not under `src`.
pub open spec fn destination(from: Seq<char>, src: Seq<char>, dest: Seq<char>) -> Option<
    Seq<char>,
> {
    if under(from, src) {
        Some(joined(dest, relative_to(from, src)))
    } else {
        None
    }
}

/// Why a plan cannot be made.
pub enum PlanFault {
    /// The ignore globs do not compile.
    Pattern,
    /// A candidate does not lie under the source directory.
    Path,
}

/// The mapping from source to destination that `candidates` give, in order,
/// where later entries overwrite earlier ones; or the fault met first.
pub open spec fn plan_of(
    candidates: Seq<Seq<char>>,
    globs: Seq<Seq<char>>,
    src: Seq<char>,
    dest: Seq<char>,
    exec_name: Seq<char>,
) -> Result<Map<Seq<char>, Seq<char>>, PlanFault>
    decreases candidates.len(),
{
    if candidates.len() == 0 {
        Ok(Map::empty())
    } else {
        match plan_of(candidates.drop_last(), globs, src, dest, exec_name) {
            Err(f) => Err(f),
            Ok(m) => {
                let from = candidates.last();
                match kept_by(globs, from) {
                    None => Err(PlanFault::Pattern),
                    Some(false) => Ok(m),
                    Some(true) => if ends_with(file_name(from), exec_name) {
                        Ok(m)
                    } else {
                        match destination(from, src, dest) {
                            None => Err(PlanFault::Path),
                            Some(to) => Ok(m.insert(from, to)),
                        }
                    },
                }
            },
        }
    }
}

/// The map that a list of pairs holds, later pairs overwriting earlier ones.
pub open spec fn pairs_map(s: Seq<(Seq<char>, Seq<char>)>) -> Map<Seq<char>, Seq<char>>
    decreases s.len(),
{
    if s.len() == 0 {
        Map::empty()
    } else {
        pairs_map(s.drop_last()).insert(s.last().0, s.last().1)
    }
}

pub open spec fn pairs_view(v: Seq<(String, String)>) -> Seq<(Seq<char>, Seq<char>)> {
    v.map_values(|p: (String, String)| (p.0@, p.1@))
}

pub open spec fn keys_distinct(s: Seq<(Seq<char>, Seq<char>)>) -> bool {
    forall|i: int, j: int| 0 <= i < j < s.len() ==> s[i].0 != s[j].0
}

proof fn lemma_pairs_map_update(s: Seq<(Seq<char>, Seq<char>)>, i: int, v: Seq<char>)
    requires
        keys_distinct(s),
        0 <= i < s.len(),
    ensures
        pairs_map(s.update(i, (s[i].0, v))) == pairs_map(s).insert(s[i].0, v),
    decreases s.len(),
{
    let t = s.update(i, (s[i].0, v));
    if i == s.len() - 1 {
        assert(t.drop_last() =~= s.drop_last());
        assert(pairs_map(t) =~= pairs_map(s).insert(s[i].0, v));
    } else {
        assert(t.drop_last() =~= s.drop_last().update(i, (s[i].0, v)));
        lemma_pairs_map_update(s.drop_last(), i, v);
        assert(s.last().0 != s[i].0);
        assert(pairs_map(t) =~= pairs_map(s).insert(s[i].0, v));
    }
}

proof fn lemma_pairs_map_has(s: Seq<(Seq<char>, Seq<char>)>, k: Seq<char>)
    requires
        forall|i: int| 0 <= i < s.len() ==> s[i].0 != k,
    ensures
        !pairs_map(s).contains_key(k),
    decreases s.len(),
{
    if s.len() > 0 {
        lemma_pairs_map_has(s.drop_last(), k);
    }
}

/// A fault met on a prefix of the candidates is the fault of all of them.
proof fn lemma_fault_stays(
    c: Seq<Seq<char>>,
    i: int,
    globs: Seq<Seq<char>>,
    src: Seq<char>,
    dest: Seq<char>,
    exec_name: Seq<char>,
    f: PlanFault,
)
    requires
        0 <= i <= c.len(),
        plan_of(c.subrange(0, i), globs, src, dest, exec_name) == Err::<
            Map<Seq<char>, Seq<char>>,
            _,
        >(f),
    ensures
        plan_of(c, globs, src, dest, exec_name) == Err::<Map<Seq<char>, Seq<char>>, _>(f),
    decreases c.len() - i,
{
    if i == c.len() {
        assert(c.subrange(0, i) =~= c);
    } else {
        assert(c.subrange(0, i + 1).drop_last() =~= c.subrange(0, i));
        lemma_fault_stays(c, i + 1, globs, src, dest, exec_name, f);
    }
}

/// Links dotfiles from a source directory into a destination directory.
pub struct DotBootstrap {
    pub dotignore: DotIgnoreConfig,
    pub crawler: DotCrawler,
    pub src_dir: String,
    pub dest_dir: String,
}

/// Why a plan could not be made, with the offending path or the cause.
pub enum PlanError {
    Pattern(String),
    Path(String),
}

impl PlanError {
    pub open spec fn fault(&self) -> PlanFault {
        match self {
            PlanError::Pattern(_) => PlanFault::Pattern,
            PlanError::Path(_) => PlanFault::Path,
        }
    }

    /// A message for the user.
    pub fn message(&self) -> (r: String)
        ensures
            r@ == match self {
                PlanError::Pattern(m) => m@,
                PlanError::Path(p) => p@,
            },
    {
        match self {
            PlanError::Pattern(m) => m.clone(),
            PlanError::Path(p) => p.clone(),
        }
    }
}

/// Sets `to` as the destination of `from` in a list of pairs with distinct keys.
fn put_pair(map: &mut Vec<(String, String)>, from: String, to: String)
    requires
        keys_distinct(pairs_view(old(map)@)),
    ensures
        keys_distinct(pairs_view(final(map)@)),
        pairs_map(pairs_view(final(map)@)) == pairs_map(pairs_view(old(map)@)).insert(from@, to@),
{
    let mut i: usize = 0;
    while i < map.len()
        invariant
            0 <= i <= map@.len(),
            map@ == old(map)@,
            keys_distinct(pairs_view(old(map)@)),
            forall|j: int| 0 <= j < i ==> map@[j].0@ != from@,
        decreases map@.len() - i,
    {
        if map[i].0 == from {
            let ghost s = pairs_view(map@);
            map.set(i, (from, to));
            proof {
                assert(pairs_view(map@) =~= s.update(i as int, (s[i as int].0, to@)));
                lemma_pairs_map_update(s, i as int, to@);
            }
            return;
        }
        i = i + 1;
    }
    let ghost s = pairs_view(map@);
    proof {
        lemma_pairs_map_has(s, from@);
    }
    map.push((from, to));
    proof {
        assert(pairs_view(map@) =~= s.push((from@, to@)));
        assert(pairs_view(map@).drop_last() =~= s);
    }
}

/// Whether `s` ends with `suffix`.
pub fn string_ends_with(s: &String, suffix: &String) -> (r: bool)
    ensures
        r == ends_with(s@, suffix@),
{
    let a = s.as_str();
    let b = suffix.as_str();
    let n = a.unicode_len();
    let m = b.unicode_len();
    if m > n {
        return false;
    }
    let mut i: usize = 0;
    while i < m
        invariant
            n == s@.len(),
            m == suffix@.len(),
            m <= n,
            a@ == s@,
            b@ == suffix@,
            0 <= i <= m,
            forall|j: int| 0 <= j < i ==> s@[n - m + j] == suffix@[j],
        decreases m - i,
    {
        if a.get_char(n - m + i) != b.get_char(i) {
            proof {
                assert(s@.subrange(n - m, n as int)[i as int] != suffix@[i as int]);
            }
            return false;
        }
        i = i + 1;
    }
    proof {
        assert(s@.subrange(n - m, n as int) =~= suffix@);
    }
    true
}

/// Where the link for `from` goes under `dest`, given that `from` lies under
/// `src`; `None` where it does not.
pub fn rebase(from: &String, src: &String, dest: &String) -> (r: Option<String>)
    ensures
        r matches Some(t) ==> destination(from@, src@, dest@) == Some(t@),
        r is None ==> destination(from@, src@, dest@) is None,
{
    let f = from.as_str();
    let s = src.as_str();
    let d = dest.as_str();
    let n = f.unicode_len();
    let k = s.unicode_len();
    if k > n {
        return None;
    }
    let mut i: usize = 0;
    while i < k
        invariant
            n == from@.len(),
            k == src@.len(),
            k <= n,
            f@ == from@,
            s@ == src@,
            0 <= i <= k,
            forall|j: int| 0 <= j < i ==> from@[j] == src@[j],
        decreases k - i,
    {
        if f.get_char(i) != s.get_char(i) {
            proof {
                assert(from@.subrange(0, k as int)[i as int] != src@[i as int]);
            }
            return None;
        }
        i = i + 1;
    }
    proof {
        assert(from@.subrange(0, k as int) =~= src@);
    }
    let boundary = n == k || f.get_char(k) == '/' || (k > 0 && s.get_char(k - 1) == '/');
    if !boundary {
        return None;
    }
    let rel = if n > k && f.get_char(k) == '/' {
        f.substring_char(k + 1, n)
    } else {
        f.substring_char(k, n)
    };
    let dn = d.unicode_len();
    let mut out = String::from_str(d);
    if dn == 0 {
        return Some(String::from_str(rel));
    }
    if d.get_char(dn - 1) != '/' {
        out.append("/");
        proof {
            reveal_strlit("/");
        }
    }
    out.append(rel);
    proof {
        if dest@.last() != '/' {
            assert(out@ =~= dest@ + seq!['/'] + rel@);
        }
    }
    Some(out)
}

impl DotBootstrap {
    pub open spec fn wf(&self) -> bool {
        self.crawler.wf()
    }

    pub fn new(dotignore_fn: &String, src_dir: &String, dest_dir: &String) -> (r: DotBootstrap)
        ensures
            r.wf(),
            r.dotignore.filename@ == dotignore_fn@,
            r.dotignore.parser.comment_delimeter == '#',
            r.dotignore.ignore_globs@.len() == 0,
            r.crawler.dotfolders_crawler.cwd@ == src_dir@,
            r.crawler.dotfiles_crawler.cwd@ == src_dir@,
            !r.crawler.dotfolders_crawler.started,
            r.crawler.dotfolders_crawler.stack@.len() == 0,
            r.crawler.dotfolders_crawler.folders@.len() == 0,
            r.crawler.dotfolders_crawler.discovered@.len() == 0,
            r.crawler.files@.len() == 0,
            r.src_dir@ == src_dir@,
            r.dest_dir@ == dest_dir@,
    {
        DotBootstrap {
            dotignore: DotIgnoreConfig::new(dotignore_fn),
            crawler: DotCrawler::new(src_dir),
            src_dir: src_dir.clone(),
            dest_dir: dest_dir.clone(),
        }
    }

    /// The map from each kept candidate to where its link goes. A candidate is
    /// dropped where an ignore glob matches it or where its name ends with
    /// `exec_name`, the name of the running program.
    pub fn plan(&self, candidates: &Vec<String>, exec_name: &String) -> (r: Result<
        Vec<(String, String)>,
        PlanError,
    >)
        ensures
            r matches Ok(m) ==> {
                &&& keys_distinct(pairs_view(m@))
                &&& plan_of(
                    strings_view(candidates@),
                    strings_view(self.dotignore.ignore_globs@),
                    self.src_dir@,
                    self.dest_dir@,
                    exec_name@,
                ) == Ok::<_, PlanFault>(pairs_map(pairs_view(m@)))
            },
            r matches Err(e) ==> plan_of(
                strings_view(candidates@),
                strings_view(self.dotignore.ignore_globs@),
                self.src_dir@,
                self.dest_dir@,
                exec_name@,
            ) == Err::<Map<Seq<char>, Seq<char>>, _>(e.fault()),
            r matches Err(PlanError::Path(p)) ==> strings_view(candidates@).contains(p@)
                && destination(p@, self.src_dir@, self.dest_dir@) is None,
    {
        let ghost globs = strings_view(self.dotignore.ignore_globs@);
        let mut map: Vec<(String, String)> = Vec::new();
        proof {
            assert(pairs_view(map@) =~= Seq::<(Seq<char>, Seq<char>)>::empty());
            assert(strings_view(candidates@).subrange(0, 0) =~= Seq::<Seq<char>>::empty());
        }
        let mut i: usize = 0;
        while i < candidates.len()
            invariant
                0 <= i <= candidates@.len(),
                globs == strings_view(self.dotignore.ignore_globs@),
                keys_distinct(pairs_view(map@)),
                plan_of(
                    strings_view(candidates@).subrange(0, i as int),
                    globs,
                    self.src_dir@,
                    self.dest_dir@,
                    exec_name@,
                ) == Ok::<_, PlanFault>(pairs_map(pairs_view(map@))),
            decreases candidates@.len() - i,
        {
            let from = &candidates[i];
            proof {
                let pre = strings_view(candidates@).subrange(0, i as int);
                let next = strings_view(candidates@).subrange(0, i + 1);
                assert(next.drop_last() =~= pre);
                assert(next.last() == from@);
            }
            match self.dotignore.match_glob(from) {
                Err(e) => {
                    proof {
                        lemma_fault_stays(
                            strings_view(candidates@),
                            i + 1,
                            globs,
                            self.src_dir@,
                            self.dest_dir@,
                            exec_name@,
                            PlanFault::Pattern,
                        );
                    }
                    return Err(PlanError::Pattern(e));
                },
                Ok(false) => {},
                Ok(true) => {
                    let name = last_component(from);
                    if !string_ends_with(&name, exec_name) {
                        match rebase(from, &self.src_dir, &self.dest_dir) {
                            None => {
                                proof {
                                    lemma_fault_stays(
                                        strings_view(candidates@),
                                        i + 1,
                                        globs,
                                        self.src_dir@,
                                        self.dest_dir@,
                                        exec_name@,
                                        PlanFault::Path,
                                    );
                                }
                                proof {
                                    assert(strings_view(candidates@)[i as int] == from@);
                                }
                                return Err(PlanError::Path(from.clone()));
                            },
                            Some(to) => {
                                put_pair(&mut map, from.clone(), to);
                            },
                        }
                    }
                },
            }
            i = i + 1;
        }
        proof {
            assert(strings_view(candidates@).subrange(0, i as int) =~= strings_view(candidates@));
        }
        Ok(map)
    }
}


/// Whether the map that `plan_of` gives holds `c`: exactly where `c` is a
/// candidate that no glob ignores and that is not the running program.
pub open spec fn planned(
    candidates: Seq<Seq<char>>,
    globs: Seq<Seq<char>>,
    exec_name: Seq<char>,
    c: Seq<char>,
) -> bool {
    candidates.contains(c) && kept_by(globs, c) == Some(true) && !ends_with(file_name(c), exec_name)
}

/// A successful plan maps exactly the candidates that no glob ignores and that
/// are not the running program, each to its destination under `dest`.
pub proof fn lemma_plan_keys(
    candidates: Seq<Seq<char>>,
    globs: Seq<Seq<char>>,
    src: Seq<char>,
    dest: Seq<char>,
    exec_name: Seq<char>,
)
    requires
        plan_of(candidates, globs, src, dest, exec_name) is Ok,
    ensures
        forall|c: Seq<char>|
            #![trigger planned(candidates, globs, exec_name, c)]
            plan_of(candidates, globs, src, dest, exec_name)->Ok_0.contains_key(c) <==> planned(
                candidates,
                globs,
                exec_name,
                c,
            ),
        forall|c: Seq<char>|
            #![trigger planned(candidates, globs, exec_name, c)]
            planned(candidates, globs, exec_name, c) ==> destination(c, src, dest) == Some(
                plan_of(candidates, globs, src, dest, exec_name)->Ok_0[c],
            ),
    decreases candidates.len(),
{
    if candidates.len() > 0 {
        let pre = candidates.drop_last();
        let last = candidates.last();
        lemma_plan_keys(pre, globs, src, dest, exec_name);
        assert forall|c: Seq<char>| #[trigger] candidates.contains(c) <==> (pre.contains(c) || c
            == last) by {
            if candidates.contains(c) {
                let k = choose|k: int| 0 <= k < candidates.len() && candidates[k] == c;
                if k < candidates.len() - 1 {
                    assert(pre[k] == c);
                }
            }
            if pre.contains(c) {
                let k = choose|k: int| 0 <= k < pre.len() && pre[k] == c;
                assert(candidates[k] == c);
            }
            if c == last {
                assert(candidates[candidates.len() - 1] == c);
            }
        }
        assert forall|c: Seq<char>|
            #![trigger planned(candidates, globs, exec_name, c)]
            planned(candidates, globs, exec_name, c) <==> (planned(pre, globs, exec_name, c) || (c
                == last && planned(candidates, globs, exec_name, c))) by {
            assert(candidates.contains(c) <==> (pre.contains(c) || c == last));
        }
    }
}

/// What to do for one link: where nothing is at the destination the link is
/// made; where something is, it is replaced only once the user confirmed.
pub enum LinkStep {
    Create,
    Replace,
    Skip,
}

pub open spec fn link_step(dest_exists: bool, confirmed: bool) -> LinkStep {
    if !dest_exists {
        LinkStep::Create
    } else if confirmed {
        LinkStep::Replace
    } else {
        LinkStep::Skip
    }
}

/// Whether `c` is `w`, or the ASCII capital of `w`.
pub open spec fn same_letter(c: char, w: char) -> bool {
    c == w || ('A' <= c && c <= 'Z' && (c as u32) + 32 == (w as u32))
}

/// Whether `a` equals `word` once ASCII capitals are made small (`word` is small).
pub open spec fn same_word(a: Seq<char>, word: Seq<char>) -> bool {
    a.len() == word.len() && forall|i: int| 0 <= i < a.len() ==> same_letter(a[i], word[i])
}

/// Whether an answer to a question is yes: `y` or `yes` in any case, with
/// whitespace around it; any other answer is no.
pub open spec fn is_yes(answer: Seq<char>) -> bool {
    same_word(trimmed(answer), seq!['y']) || same_word(trimmed(answer), seq!['y', 'e', 's'])
}

fn matches_word(a: &str, word: &str) -> (r: bool)
    ensures
        r == same_word(a@, word@),
{
    let n = a.unicode_len();
    if n != word.unicode_len() {
        return false;
    }
    let mut i: usize = 0;
    while i < n
        invariant
            n == a@.len(),
            n == word@.len(),
            0 <= i <= n,
            forall|j: int| 0 <= j < i ==> same_letter(a@[j], word@[j]),
        decreases n - i,
    {
        let c = a.get_char(i);
        let w = word.get_char(i);
        if !(c == w || ('A' <= c && c <= 'Z' && (c as u32) + 32 == (w as u32))) {
            return false;
        }
        i = i + 1;
    }
    true
}

/// Whether the user's answer confirms (see `is_yes`).
pub fn answer_is_yes(answer: &String) -> (r: bool)
    ensures
        r == is_yes(answer@),
{
    let t = trim(answer);
    let y = matches_word(t.as_str(), "y");
    let yes = matches_word(t.as_str(), "yes");
    proof {
        reveal_strlit("y");
        reveal_strlit("yes");
        assert("y"@ =~= seq!['y']);
        assert("yes"@ =~= seq!['y', 'e', 's']);
    }
    y || yes
}

/// What to do for one link (see `link_step`).
pub fn decide(dest_exists: bool, confirmed: bool) -> (r: LinkStep)
    ensures
        r == link_step(dest_exists, confirmed),
{
    if !dest_exists {
        LinkStep::Create
    } else if confirmed {
        LinkStep::Replace
    } else {
        LinkStep::Skip
    }
}

/// The destination side of the file system after one mapping entry is applied:
/// `state` maps each path that exists there to what it points at.
pub open spec fn apply_entry(
    state: Map<Seq<char>, Seq<char>>,
    from: Seq<char>,
    to: Seq<char>,
    confirmed: bool,
) -> Map<Seq<char>, Seq<char>> {
    match link_step(state.contains_key(to), confirmed) {
        LinkStep::Skip => state,
        _ => state.insert(to, from),
    }
}

/// The destination side after every entry of a mapping is applied in turn, the
/// user answering `confirmed` to each question.
pub open spec fn apply_all(
    state: Map<Seq<char>, Seq<char>>,
    entries: Seq<(Seq<char>, Seq<char>)>,
    confirmed: bool,
) -> Map<Seq<char>, Seq<char>>
    decreases entries.len(),
{
    if entries.len() == 0 {
        state
    } else {
        let last = entries.last();
        apply_entry(apply_all(state, entries.drop_last(), confirmed), last.0, last.1, confirmed)
    }
}

/// The links that a mapping asks for, from destination to source.
pub open spec fn links_of(entries: Seq<(Seq<char>, Seq<char>)>) -> Map<Seq<char>, Seq<char>>
    decreases entries.len(),
{
    if entries.len() == 0 {
        Map::empty()
    } else {
        links_of(entries.drop_last()).insert(entries.last().1, entries.last().0)
    }
}

proof fn lemma_apply_confirmed(state: Map<Seq<char>, Seq<char>>, entries: Seq<(Seq<char>, Seq<char>)>)
    ensures
        apply_all(state, entries, true) == state.union_prefer_right(links_of(entries)),
    decreases entries.len(),
{
    if entries.len() == 0 {
        assert(state.union_prefer_right(links_of(entries)) =~= state);
    } else {
        lemma_apply_confirmed(state, entries.drop_last());
        assert(apply_all(state, entries, true) =~= state.union_prefer_right(links_of(entries)));
    }
}

/// Applying a mapping twice, every question answered yes, leaves the same links
/// as applying it once.
pub proof fn lemma_apply_idempotent(
    state: Map<Seq<char>, Seq<char>>,
    entries: Seq<(Seq<char>, Seq<char>)>,
)
    ensures
        apply_all(apply_all(state, entries, true), entries, true) == apply_all(
            state,
            entries,
            true,
        ),
{
    let once = apply_all(state, entries, true);
    lemma_apply_confirmed(state, entries);
    lemma_apply_confirmed(once, entries);
    assert(once.union_prefer_right(links_of(entries)) =~= once);
}

} // verus!
