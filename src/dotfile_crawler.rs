use vstd::prelude::*;
use crate::crawler::{Crawler, DirItem, DirectoryCrawler, FileCrawler, files_of, dirs_of, has_marker};
use crate::dotignore::strings_view;

verus! {

/// Crawls a dotfiles directory: its plain files, then the directories under it
/// that are marked as linkable units.
pub struct DotCrawler {
    pub dotfiles_crawler: FileCrawler,
    pub dotfolders_crawler: DirectoryCrawler,
    /// The plain files of the root, once its listing came.
    pub files: Vec<String>,
}

impl DotCrawler {
    pub open spec fn wf(&self) -> bool {
        self.dotfolders_crawler.wf()
    }

    pub fn new(dot_dir: &String) -> (r: DotCrawler)
        ensures
            r.wf(),
            r.dotfiles_crawler.cwd@ == dot_dir@,
            r.dotfolders_crawler.cwd@ == dot_dir@,
            !r.dotfolders_crawler.started,
            r.dotfolders_crawler.stack@.len() == 0,
            r.dotfolders_crawler.folders@.len() == 0,
            r.dotfolders_crawler.discovered@.len() == 0,
            r.dotfolders_crawler.current is None,
            r.files@.len() == 0,
    {
        DotCrawler {
            dotfiles_crawler: FileCrawler::new(dot_dir),
            dotfolders_crawler: DirectoryCrawler::new(dot_dir),
            files: Vec::new(),
        }
    }

    /// The directory to list next: the root first, then each directory under it
    /// once; `None` once the crawl is over.
    pub fn next_dir(&mut self) -> (r: Option<String>)
        requires
            old(self).wf(),
        ensures
            final(self).wf(),
            final(self).files == old(self).files,
            final(self).dotfiles_crawler == old(self).dotfiles_crawler,
            DirectoryCrawler::advanced(
                old(self).dotfolders_crawler,
                final(self).dotfolders_crawler,
                r,
            ),
    {
        self.dotfolders_crawler.advance()
    }

    /// Hands over the listing of the directory last named by `next_dir`: the
    /// root's gives the plain files, each listing gives directories to visit.
    pub fn take_listing(&mut self, entries: &Vec<DirItem>)
        requires
            old(self).wf(),
        ensures
            final(self).wf(),
            strings_view(final(self).dotfolders_crawler.stack@) == strings_view(
                old(self).dotfolders_crawler.stack@,
            ) + dirs_of(entries@),
            old(self).dotfolders_crawler.current is None ==> {
                &&& strings_view(final(self).files@) == files_of(entries@)
                &&& final(self).dotfolders_crawler.folders == old(self).dotfolders_crawler.folders
            },
            old(self).dotfolders_crawler.current matches Some(d) ==> {
                &&& final(self).files == old(self).files
                &&& strings_view(final(self).dotfolders_crawler.folders@) == if has_marker(
                    entries@,
                ) {
                    strings_view(old(self).dotfolders_crawler.folders@).push(d@)
                } else {
                    strings_view(old(self).dotfolders_crawler.folders@)
                }
            },
    {
        if self.dotfolders_crawler.current.is_some() {
            self.dotfolders_crawler.visit(entries);
        } else {
            self.files = self.dotfiles_crawler.crawl(entries);
            self.dotfolders_crawler.begin(entries);
        }
    }

    /// Everything found: the plain files of the root, then the marked directories.
    pub fn crawl(&self) -> (r: Vec<String>)
        requires
            self.wf(),
        ensures
            strings_view(r@) == strings_view(self.files@) + strings_view(
                self.dotfolders_crawler.folders@,
            ),
    {
        let mut out = self.files.clone();
        let found = self.dotfolders_crawler.folders();
        let mut i: usize = 0;
        while i < found.len()
            invariant
                0 <= i <= found@.len(),
                found@ == self.dotfolders_crawler.folders@,
                strings_view(out@) == strings_view(self.files@) + strings_view(found@).subrange(
                    0,
                    i as int,
                ),
            decreases found@.len() - i,
        {
            let ghost before = out@;
            out.push(found[i].clone());
            proof {
                assert(strings_view(out@) =~= strings_view(before).push(found@[i as int]@));
                assert(strings_view(found@).subrange(0, i + 1) =~= strings_view(found@).subrange(
                    0,
                    i as int,
                ).push(found@[i as int]@));
            }
            i = i + 1;
        }
        proof {
            assert(strings_view(found@).subrange(0, i as int) =~= strings_view(found@));
        }
        out
    }
}

impl Crawler for DotCrawler {
    open spec fn inv(&self) -> bool {
        self.wf()
    }

    open spec fn result(&self) -> Seq<Seq<char>> {
        strings_view(self.files@) + strings_view(self.dotfolders_crawler.folders@)
    }

    fn next_dir(&mut self) -> Option<String> {
        DotCrawler::next_dir(self)
    }

    fn take_listing(&mut self, entries: &Vec<DirItem>) {
        DotCrawler::take_listing(self, entries)
    }

    fn found(&self) -> Vec<String> {
        self.crawl()
    }
}

} // verus!
