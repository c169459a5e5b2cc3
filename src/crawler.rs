use vstd::prelude::*;
use crate::dotignore::strings_view;

verus! {

/// One entry of a directory listing, as the file system reported it.
#[derive(Clone, Debug)]
pub struct DirItem {
    /// The entry's full path (the listed directory joined with its name).
    pub path: String,
    /// The entry's own name.
    pub name: String,
    /// Whether it is, or links to, a directory.
    pub is_dir: bool,
    /// Whether it is, or links to, a plain file.
    pub is_file: bool,
}

/// The paths of the plain files among `entries`, in listing order.
pub open spec fn files_of(entries: Seq<DirItem>) -> Seq<Seq<char>>
    decreases entries.len(),
{
    if entries.len() == 0 {
        Seq::empty()
    } else {
        let rest = files_of(entries.drop_last());
        if entries.last().is_file {
            rest.push(entries.last().path@)
        } else {
            rest
        }
    }
}

/// The paths of the directories among `entries`, in listing order.
pub open spec fn dirs_of(entries: Seq<DirItem>) -> Seq<Seq<char>>
    decreases entries.len(),
{
    if entries.len() == 0 {
        Seq::empty()
    } else {
        let rest = dirs_of(entries.drop_last());
        if entries.last().is_dir {
            rest.push(entries.last().path@)
        } else {
            rest
        }
    }
}

/// The name of the file that marks a directory as one linkable unit.
pub open spec fn marker_name() -> Seq<char> {
    seq!['.', 'd', 'o', 't', 'f', 'i', 'l', 'e', 'l', 'n']
}

/// Whether a listing holds the marker file.
pub open spec fn has_marker(entries: Seq<DirItem>) -> bool {
    exists|i: int| 0 <= i < entries.len() && entries[i].name@ == marker_name()
}

/// A way of crawling a directory tree, one listing at a time: the crawler names
/// the directory it needs listed next, is handed that listing, and at the end
/// gives the paths that it found.
pub trait Crawler {
    /// What holds of the crawler's state between calls.
    spec fn inv(&self) -> bool;

    /// The directory to list next, or `None` once the crawl is over.
    fn next_dir(&mut self) -> (r: Option<String>)
        requires
            old(self).inv(),
        ensures
            final(self).inv(),
    ;

    /// Hands over the listing of the directory last named by `next_dir`.
    fn take_listing(&mut self, entries: &Vec<DirItem>)
        requires
            old(self).inv(),
        ensures
            final(self).inv(),
    ;

    /// The paths found so far.
    spec fn result(&self) -> Seq<Seq<char>>;

    /// The paths found so far.
    fn found(&self) -> (r: Vec<String>)
        requires
            self.inv(),
        ensures
            strings_view(r@) == self.result(),
    ;
}

/// Where no entry of a listing is both a file and a directory, as in any real
/// listing, the file crawl gives exactly the paths of its plain files: every
/// path it gives is that of a plain file, never of a directory, and every plain
/// file's path is among them.
pub proof fn lemma_files_only(entries: Seq<DirItem>)
    requires
        forall|i: int| 0 <= i < entries.len() ==> !(#[trigger] entries[i].is_file && entries[i].is_dir),
    ensures
        forall|p: Seq<char>|
            #[trigger] files_of(entries).contains(p) ==> exists|i: int|
                0 <= i < entries.len() && entries[i].path@ == p && entries[i].is_file
                    && !entries[i].is_dir,
        forall|i: int|
            0 <= i < entries.len() && #[trigger] entries[i].is_file ==> files_of(entries).contains(
                entries[i].path@,
            ),
    decreases entries.len(),
{
    if entries.len() > 0 {
        let pre = entries.drop_last();
        let n = entries.len() - 1;
        lemma_files_only(pre);
        let rest = files_of(pre);
        assert forall|p: Seq<char>| #[trigger] files_of(entries).contains(p) implies exists|i: int|
            0 <= i < entries.len() && entries[i].path@ == p && entries[i].is_file
                && !entries[i].is_dir by {
            let k = choose|k: int| 0 <= k < files_of(entries).len() && files_of(entries)[k] == p;
            if entries.last().is_file && k == rest.len() {
                assert(entries[n].path@ == p);
            } else {
                assert(rest[k] == p);
                assert(rest.contains(p));
                let j = choose|j: int| 0 <= j < pre.len() && pre[j].path@ == p && pre[j].is_file
                    && !pre[j].is_dir;
                assert(entries[j] == pre[j]);
            }
        }
        assert forall|i: int| 0 <= i < entries.len() && #[trigger] entries[i].is_file implies files_of(
            entries,
        ).contains(entries[i].path@) by {
            if i == n {
                assert(files_of(entries)[rest.len() as int] == entries[i].path@);
            } else {
                assert(pre[i] == entries[i]);
                assert(rest.contains(entries[i].path@));
                let k = choose|k: int| 0 <= k < rest.len() && rest[k] == entries[i].path@;
                assert(files_of(entries)[k] == entries[i].path@);
            }
        }
    }
}

/// Finds the plain files directly inside one directory.
pub struct FileCrawler {
    pub cwd: String,
    pub listed: bool,
    pub files: Vec<String>,
}

/// Finds, depth first, the directories under a root that hold the marker file.
pub struct DirectoryCrawler {
    pub cwd: String,
    /// Directories still to visit; the last one is visited first.
    pub stack: Vec<String>,
    /// Directories visited so far.
    pub discovered: Vec<String>,
    /// Visited directories that hold the marker file.
    pub folders: Vec<String>,
    /// The directory whose listing is awaited, once the root was listed.
    pub current: Option<String>,
    pub started: bool,
    /// The listing that each visited directory was handed.
    pub listings: Ghost<Map<Seq<char>, Seq<DirItem>>>,
    /// The directories of the root's listing.
    pub root_dirs: Ghost<Seq<Seq<char>>>,
}

/// The plain files of a listing.
pub fn select_files(entries: &Vec<DirItem>) -> (r: Vec<String>)
    ensures
        strings_view(r@) == files_of(entries@),
{
    let mut files: Vec<String> = Vec::new();
    let mut i: usize = 0;
    while i < entries.len()
        invariant
            0 <= i <= entries@.len(),
            strings_view(files@) == files_of(entries@.subrange(0, i as int)),
        decreases entries@.len() - i,
    {
        proof {
            assert(entries@.subrange(0, i + 1).drop_last() =~= entries@.subrange(0, i as int));
        }
        if entries[i].is_file {
            let ghost old_files = files@;
            files.push(entries[i].path.clone());
            proof {
                assert(strings_view(files@) =~= strings_view(old_files).push(entries@[i as int].path@));
            }
        }
        i = i + 1;
    }
    proof {
        assert(entries@.subrange(0, i as int) =~= entries@);
    }
    files
}

/// Pushes the directories of a listing on `stack`, in listing order.
fn push_dirs(stack: &mut Vec<String>, entries: &Vec<DirItem>)
    ensures
        strings_view(final(stack)@) == strings_view(old(stack)@) + dirs_of(entries@),
{
    let mut i: usize = 0;
    while i < entries.len()
        invariant
            0 <= i <= entries@.len(),
            strings_view(stack@) == strings_view(old(stack)@) + dirs_of(entries@.subrange(0, i as int)),
        decreases entries@.len() - i,
    {
        proof {
            assert(entries@.subrange(0, i + 1).drop_last() =~= entries@.subrange(0, i as int));
        }
        if entries[i].is_dir {
            let ghost before = stack@;
            stack.push(entries[i].path.clone());
            proof {
                assert(strings_view(stack@) =~= strings_view(before).push(entries@[i as int].path@));
            }
        }
        i = i + 1;
    }
    proof {
        assert(entries@.subrange(0, i as int) =~= entries@);
    }
}

/// Whether a listing holds the marker file.
pub fn listing_has_marker(entries: &Vec<DirItem>) -> (r: bool)
    ensures
        r == has_marker(entries@),
{
    let marker = String::from_str(".dotfileln");
    proof {
        reveal_strlit(".dotfileln");
        assert(marker@ =~= marker_name());
    }
    let mut i: usize = 0;
    while i < entries.len()
        invariant
            0 <= i <= entries@.len(),
            marker@ == marker_name(),
            forall|j: int| 0 <= j < i ==> entries@[j].name@ != marker_name(),
        decreases entries@.len() - i,
    {
        if entries[i].name == marker {
            return true;
        }
        i = i + 1;
    }
    false
}

/// Whether `p` is among `v`.
fn contains_path(v: &Vec<String>, p: &String) -> (r: bool)
    ensures
        r == strings_view(v@).contains(p@),
{
    let mut i: usize = 0;
    while i < v.len()
        invariant
            0 <= i <= v@.len(),
            forall|j: int| 0 <= j < i ==> v@[j]@ != p@,
        decreases v@.len() - i,
    {
        if v[i] == *p {
            proof {
                assert(strings_view(v@)[i as int] == p@);
            }
            return true;
        }
        i = i + 1;
    }
    proof {
        if strings_view(v@).contains(p@) {
            let k = choose|k: int| 0 <= k < strings_view(v@).len() && strings_view(v@)[k] == p@;
            assert(v@[k]@ == p@);
        }
    }
    false
}

impl FileCrawler {
    pub fn new(cwd: &String) -> (r: Self)
        ensures
            r.cwd@ == cwd@,
            !r.listed,
            r.files@.len() == 0,
    {
        FileCrawler { cwd: cwd.clone(), listed: false, files: Vec::new() }
    }

    /// The plain files directly inside the directory whose listing is `entries`.
    pub fn crawl(&self, entries: &Vec<DirItem>) -> (r: Vec<String>)
        ensures
            strings_view(r@) == files_of(entries@),
    {
        select_files(entries)
    }
}

impl Crawler for FileCrawler {
    open spec fn inv(&self) -> bool {
        true
    }

    open spec fn result(&self) -> Seq<Seq<char>> {
        strings_view(self.files@)
    }

    fn next_dir(&mut self) -> Option<String> {
        if self.listed {
            None
        } else {
            self.listed = true;
            Some(self.cwd.clone())
        }
    }

    fn take_listing(&mut self, entries: &Vec<DirItem>) {
        self.files = self.crawl(entries);
    }

    fn found(&self) -> Vec<String> {
        self.files.clone()
    }
}


proof fn lemma_push_contains(s: Seq<Seq<char>>, x: Seq<char>)
    ensures
        forall|y: Seq<char>| #[trigger] s.push(x).contains(y) <==> s.contains(y) || y == x,
{
    assert forall|y: Seq<char>| #[trigger] s.push(x).contains(y) <==> s.contains(y) || y == x by {
        if s.push(x).contains(y) {
            let k = choose|k: int| 0 <= k < s.push(x).len() && s.push(x)[k] == y;
            if k < s.len() {
                assert(s[k] == y);
            }
        }
        if s.contains(y) {
            let k = choose|k: int| 0 <= k < s.len() && s[k] == y;
            assert(s.push(x)[k] == y);
        }
        if y == x {
            assert(s.push(x)[s.len() as int] == y);
        }
    }
}

proof fn lemma_concat_contains(a: Seq<Seq<char>>, b: Seq<Seq<char>>)
    ensures
        forall|y: Seq<char>| #[trigger] (a + b).contains(y) <==> a.contains(y) || b.contains(y),
{
    assert forall|y: Seq<char>| #[trigger] (a + b).contains(y) <==> a.contains(y) || b.contains(y) by {
        if (a + b).contains(y) {
            let k = choose|k: int| 0 <= k < (a + b).len() && (a + b)[k] == y;
            if k < a.len() {
                assert(a[k] == y);
            } else {
                assert(b[k - a.len()] == y);
            }
        }
        if a.contains(y) {
            let k = choose|k: int| 0 <= k < a.len() && a[k] == y;
            assert((a + b)[k] == y);
        }
        if b.contains(y) {
            let k = choose|k: int| 0 <= k < b.len() && b[k] == y;
            assert((a + b)[k + a.len()] == y);
        }
    }
}

/// What is in `s` is in its first `j` entries or among `disc`, where every entry
/// from `j` on is in `disc`.
proof fn lemma_cut_contains(s: Seq<Seq<char>>, j: int, disc: Seq<Seq<char>>)
    requires
        0 <= j <= s.len(),
        forall|k: int| j <= k < s.len() ==> disc.contains(#[trigger] s[k]),
    ensures
        forall|y: Seq<char>| #[trigger] s.contains(y) ==> s.subrange(0, j).contains(y) || disc.contains(y),
{
    assert forall|y: Seq<char>| #[trigger] s.contains(y) implies s.subrange(0, j).contains(y)
        || disc.contains(y) by {
        let k = choose|k: int| 0 <= k < s.len() && s[k] == y;
        if k < j {
            assert(s.subrange(0, j)[k] == y);
        }
    }
}

impl DirectoryCrawler {
    /// The crawler's invariant. Nothing is visited twice and nothing found twice;
    /// each visited directory is listed, but for the one whose listing is awaited;
    /// the directories found are exactly the listed ones that hold the marker
    /// file; and every directory of a listing is visited or still on the stack.
    pub open spec fn wf(&self) -> bool {
        let disc = strings_view(self.discovered@);
        let fold = strings_view(self.folders@);
        let stack = strings_view(self.stack@);
        let listed = self.listings@;
        &&& disc.no_duplicates()
        &&& fold.no_duplicates()
        &&& forall|d: Seq<char>| #[trigger] listed.contains_key(d) ==> disc.contains(d)
        &&& forall|d: Seq<char>|
            #[trigger] disc.contains(d) ==> listed.contains_key(d) || (self.current matches Some(
                c,
            ) && c@ == d)
        &&& self.current matches Some(c) ==> disc.contains(c@) && !listed.contains_key(c@)
        &&& forall|d: Seq<char>|
            #[trigger] fold.contains(d) <==> listed.contains_key(d) && has_marker(listed[d])
        &&& forall|d: Seq<char>, e: Seq<char>|
            listed.contains_key(d) && #[trigger] dirs_of(listed[d]).contains(e) ==> disc.contains(
                e,
            ) || stack.contains(e)
        &&& forall|e: Seq<char>|
            #[trigger] self.root_dirs@.contains(e) ==> disc.contains(e) || stack.contains(e)
    }

    pub fn new(cwd: &String) -> (r: Self)
        ensures
            r.wf(),
            r.cwd@ == cwd@,
            r.stack@.len() == 0,
            r.discovered@.len() == 0,
            r.folders@.len() == 0,
            r.listings@ == Map::<Seq<char>, Seq<DirItem>>::empty(),
            r.root_dirs@.len() == 0,
            r.current is None,
            !r.started,
    {
        let r = DirectoryCrawler {
            cwd: cwd.clone(),
            stack: Vec::new(),
            discovered: Vec::new(),
            folders: Vec::new(),
            current: None,
            started: false,
            listings: Ghost(Map::empty()),
            root_dirs: Ghost(Seq::empty()),
        };
        proof {
            assert(strings_view(r.discovered@) =~= Seq::<Seq<char>>::empty());
            assert(strings_view(r.folders@) =~= Seq::<Seq<char>>::empty());
        }
        r
    }

    /// Starts the crawl from the root's listing: its directories are to be visited.
    pub fn begin(&mut self, entries: &Vec<DirItem>)
        requires
            old(self).wf(),
        ensures
            final(self).wf(),
            strings_view(final(self).stack@) == strings_view(old(self).stack@) + dirs_of(entries@),
            final(self).root_dirs@ == old(self).root_dirs@ + dirs_of(entries@),
            final(self).discovered == old(self).discovered,
            final(self).folders == old(self).folders,
            final(self).listings == old(self).listings,
            final(self).current == old(self).current,
            final(self).cwd == old(self).cwd,
            final(self).started,
    {
        let ghost old_stack = strings_view(self.stack@);
        push_dirs(&mut self.stack, entries);
        self.root_dirs = Ghost(self.root_dirs@ + dirs_of(entries@));
        self.started = true;
        proof {
            lemma_concat_contains(old_stack, dirs_of(entries@));
            lemma_concat_contains(old(self).root_dirs@, dirs_of(entries@));
        }
    }

    /// Takes directories off the top of the stack until one that was not visited
    /// yet, marks it visited and awaits its listing; `None` once the stack holds
    /// only visited directories, which it then drops.
    pub fn next_unvisited(&mut self) -> (r: Option<String>)
        requires
            old(self).wf(),
            old(self).current is None,
        ensures
            final(self).wf(),
            final(self).folders == old(self).folders,
            final(self).listings == old(self).listings,
            final(self).root_dirs == old(self).root_dirs,
            final(self).cwd == old(self).cwd,
            final(self).started == old(self).started,
            final(self).current == r,
            r is None ==> {
                &&& final(self).stack@.len() == 0
                &&& final(self).discovered == old(self).discovered
                &&& forall|k: int|
                    0 <= k < old(self).stack@.len() ==> strings_view(
                        old(self).discovered@,
                    ).contains(#[trigger] old(self).stack@[k]@)
            },
            r matches Some(d) ==> {
                &&& !strings_view(old(self).discovered@).contains(d@)
                &&& strings_view(final(self).discovered@) == strings_view(
                    old(self).discovered@,
                ).push(d@)
                &&& exists|j: int|
                    0 <= j < old(self).stack@.len() && old(self).stack@[j]@ == d@
                        && final(self).stack@ == old(self).stack@.subrange(0, j) && forall|k: int|
                        j < k < old(self).stack@.len() ==> strings_view(
                            old(self).discovered@,
                        ).contains(#[trigger] old(self).stack@[k]@)
            },
    {
        let ghost disc0 = strings_view(self.discovered@);
        let ghost stack0 = self.stack@;
        loop
            invariant
                self.wf(),
                self.current is None,
                self.folders == old(self).folders,
                self.discovered == old(self).discovered,
                self.listings == old(self).listings,
                self.root_dirs == old(self).root_dirs,
                self.cwd == old(self).cwd,
                self.started == old(self).started,
                disc0 == strings_view(old(self).discovered@),
                stack0 == old(self).stack@,
                self.stack@.len() <= stack0.len(),
                self.stack@ == stack0.subrange(0, self.stack@.len() as int),
                forall|k: int|
                    self.stack@.len() <= k < stack0.len() ==> disc0.contains(#[trigger] stack0[k]@),
            decreases self.stack@.len(),
        {
            let ghost before = self.stack@;
            let ghost n = before.len();
            match self.stack.pop() {
                None => {
                    return None;
                },
                Some(p) => {
                    proof {
                        assert(p == stack0[n - 1]);
                        assert(self.stack@ =~= stack0.subrange(0, n - 1));
                    }
                    let seen = contains_path(&self.discovered, &p);
                    if !seen {
                        let ghost old_disc = self.discovered@;
                        self.discovered.push(p.clone());
                        proof {
                            assert(strings_view(self.discovered@) =~= disc0.push(p@));
                            lemma_push_contains(disc0, p@);
                            assert(strings_view(before)[n - 1] == p@);
                            lemma_cut_contains(strings_view(before), n - 1, disc0.push(p@));
                            assert(strings_view(before).subrange(0, n - 1) =~= strings_view(
                                self.stack@,
                            ));
                            assert(disc0.push(p@)[disc0.len() as int] == p@);
                            assert forall|d: Seq<char>, e: Seq<char>|
                                self.listings@.contains_key(d) && #[trigger] dirs_of(
                                    self.listings@[d],
                                ).contains(e) implies strings_view(self.discovered@).contains(e)
                                || strings_view(self.stack@).contains(e) by {
                                if strings_view(before).contains(e) {
                                }
                            }
                            assert forall|e: Seq<char>| #[trigger]
                                self.root_dirs@.contains(e) implies strings_view(
                                self.discovered@,
                            ).contains(e) || strings_view(self.stack@).contains(e) by {
                                if strings_view(before).contains(e) {
                                }
                            }
                        }
                        self.current = Some(p.clone());
                        proof {
                            let j = n - 1;
                            assert(stack0[j]@ == p@);
                            assert(self.stack@ == stack0.subrange(0, j));
                        }
                        return Some(p);
                    }
                    proof {
                        assert(strings_view(before)[n - 1] == p@);
                        lemma_cut_contains(strings_view(before), n - 1, disc0);
                        assert(strings_view(before).subrange(0, n - 1) =~= strings_view(
                            self.stack@,
                        ));
                        assert forall|d: Seq<char>, e: Seq<char>|
                            self.listings@.contains_key(d) && #[trigger] dirs_of(
                                self.listings@[d],
                            ).contains(e) implies strings_view(self.discovered@).contains(e)
                            || strings_view(self.stack@).contains(e) by {
                            if strings_view(before).contains(e) {
                            }
                        }
                        assert forall|e: Seq<char>| #[trigger]
                            self.root_dirs@.contains(e) implies strings_view(
                            self.discovered@,
                        ).contains(e) || strings_view(self.stack@).contains(e) by {
                            if strings_view(before).contains(e) {
                            }
                        }
                    }
                },
            }
        }
    }

    /// What a step of `advance` does: `pre` is the crawler before, `post` after.
    pub open spec fn advanced(pre: Self, post: Self, r: Option<String>) -> bool {
        &&& (post.wf())
        &&& (post.folders == pre.folders)
        &&& (post.listings == pre.listings)
        &&& (post.root_dirs == pre.root_dirs)
        &&& (post.cwd == pre.cwd)
        &&& (post.started)
        &&& (!pre.started ==> {
                &&& r matches Some(d) && d@ == pre.cwd@
                &&& post.stack == pre.stack
                &&& post.discovered == pre.discovered
                &&& post.current == pre.current
            })
        &&& (pre.started && pre.current is Some ==> {
                &&& r == pre.current
                &&& post.stack == pre.stack
                &&& post.discovered == pre.discovered
                &&& post.current == pre.current
            })
        &&& (pre.started && pre.current is None ==> post.current == r)
        &&& (pre.started && pre.current is None && r is None ==> {
                &&& post.stack@.len() == 0
                &&& post.discovered == pre.discovered
                &&& forall|k: int|
                    0 <= k < pre.stack@.len() ==> strings_view(
                        pre.discovered@,
                    ).contains(#[trigger] pre.stack@[k]@)
            })
        &&& (pre.started && pre.current is None ==> (r matches Some(d) ==> {
                &&& !strings_view(pre.discovered@).contains(d@)
                &&& strings_view(post.discovered@) == strings_view(
                    pre.discovered@,
                ).push(d@)
                &&& exists|j: int|
                    0 <= j < pre.stack@.len() && pre.stack@[j]@ == d@
                        && post.stack@ == pre.stack@.subrange(0, j) && forall|k: int|
                        j < k < pre.stack@.len() ==> strings_view(
                            pre.discovered@,
                        ).contains(#[trigger] pre.stack@[k]@)
            }))
    }

    /// The directory to list next: the root first, then the one whose listing
    /// is awaited, else the topmost directory of the stack not visited yet;
    /// `None` once the crawl is over.
    pub fn advance(&mut self) -> (r: Option<String>)
        requires
            old(self).wf(),
        ensures
            final(self).wf(),
            Self::advanced(*old(self), *final(self), r),
    {
        if !self.started {
            self.started = true;
            Some(self.cwd.clone())
        } else {
            match &self.current {
                Some(d) => Some(d.clone()),
                None => self.next_unvisited(),
            }
        }
    }

    /// Takes the listing of the directory being visited: its directories are to
    /// be visited, and it is found if the listing holds the marker file.
    pub fn visit(&mut self, entries: &Vec<DirItem>)
        requires
            old(self).wf(),
            old(self).current is Some,
        ensures
            final(self).wf(),
            final(self).current is None,
            final(self).discovered == old(self).discovered,
            final(self).root_dirs == old(self).root_dirs,
            final(self).listings@ == old(self).listings@.insert(
                old(self).current->Some_0@,
                entries@,
            ),
            final(self).cwd == old(self).cwd,
            final(self).started == old(self).started,
            strings_view(final(self).stack@) == strings_view(old(self).stack@) + dirs_of(entries@),
            strings_view(final(self).folders@) == if has_marker(entries@) {
                strings_view(old(self).folders@).push(old(self).current->Some_0@)
            } else {
                strings_view(old(self).folders@)
            },
    {
        let d = match &self.current {
            Some(d) => d.clone(),
            None => String::new(),
        };
        let ghost old_stack = strings_view(self.stack@);
        let ghost old_fold = strings_view(self.folders@);
        push_dirs(&mut self.stack, entries);
        self.listings = Ghost(self.listings@.insert(d@, entries@));
        proof {
            lemma_concat_contains(old_stack, dirs_of(entries@));
        }
        if listing_has_marker(entries) {
            self.folders.push(d);
            proof {
                assert(strings_view(self.folders@) =~= old_fold.push(d@));
                lemma_push_contains(old_fold, d@);
            }
        }
        self.current = None;
        proof {
            let listed = self.listings@;
            assert(old(self).current->Some_0@ == d@);
            assert(!old_fold.contains(d@));
            assert forall|x: Seq<char>| #[trigger] listed.contains_key(x) implies strings_view(
                self.discovered@,
            ).contains(x) by {
                if x != d@ {
                    assert(old(self).listings@.contains_key(x));
                }
            }
            assert forall|x: Seq<char>| #[trigger] strings_view(self.discovered@).contains(x) implies listed.contains_key(x) by {
                if x != d@ {
                    assert(old(self).listings@.contains_key(x));
                }
            }
            assert forall|x: Seq<char>| #[trigger]
                strings_view(self.folders@).contains(x) <==> listed.contains_key(x) && has_marker(
                    listed[x],
                ) by {
                if x != d@ {
                    assert(old(self).listings@.contains_key(x) == listed.contains_key(x));
                }
            }
            assert forall|x: Seq<char>, e: Seq<char>|
                listed.contains_key(x) && #[trigger] dirs_of(listed[x]).contains(e) implies strings_view(
                self.discovered@,
            ).contains(e) || strings_view(self.stack@).contains(e) by {
                if x != d@ {
                    assert(old(self).listings@.contains_key(x));
                }
            }
        }
    }

    /// The directories found so far; none comes twice.
    pub fn folders(&self) -> (r: Vec<String>)
        requires
            self.wf(),
        ensures
            r@ == self.folders@,
            strings_view(r@).no_duplicates(),
    {
        self.folders.clone()
    }
}

/// Whatever listings a directory crawler was handed, and in whatever order, it
/// never finds the same directory twice.
pub proof fn lemma_found_once(c: &DirectoryCrawler)
    requires
        c.wf(),
    ensures
        strings_view(c.folders@).no_duplicates(),
{
}

/// Once a crawl is over (the stack is empty and no listing is awaited), it has
/// listed every directory of the root's listing and of every listing since, and
/// found exactly the listed directories whose listing holds the marker file.
/// What it found thus does not depend on the order of the entries in a listing.
pub proof fn lemma_crawl_complete(c: &DirectoryCrawler)
    requires
        c.wf(),
        c.current is None,
        c.stack@.len() == 0,
    ensures
        forall|e: Seq<char>| #[trigger] c.root_dirs@.contains(e) ==> c.listings@.contains_key(e),
        forall|d: Seq<char>, e: Seq<char>|
            c.listings@.contains_key(d) && #[trigger] dirs_of(c.listings@[d]).contains(e)
                ==> c.listings@.contains_key(e),
        forall|d: Seq<char>|
            #[trigger] strings_view(c.folders@).contains(d) <==> c.listings@.contains_key(d)
                && has_marker(c.listings@[d]),
{
    assert(strings_view(c.stack@) =~= Seq::<Seq<char>>::empty());
}

impl Crawler for DirectoryCrawler {
    open spec fn inv(&self) -> bool {
        self.wf()
    }

    open spec fn result(&self) -> Seq<Seq<char>> {
        strings_view(self.folders@)
    }

    fn next_dir(&mut self) -> Option<String> {
        self.advance()
    }

    fn take_listing(&mut self, entries: &Vec<DirItem>) {
        if self.current.is_some() {
            self.visit(entries);
        } else {
            self.begin(entries);
        }
    }

    fn found(&self) -> Vec<String> {
        self.folders()
    }
}

} // verus!
