use std::collections::HashMap;

use dotbootstrap::crawler::{Crawler, DirItem, DirectoryCrawler, FileCrawler};
use dotbootstrap::dotbootstrap::{answer_is_yes, decide, rebase, string_ends_with, DotBootstrap, LinkStep, PlanError};
use dotbootstrap::dotfile_crawler::DotCrawler;
use dotbootstrap::dotignore::{
    glob_to_regex, last_component, partition, trim, DotIgnoreConfig, DotIgnoreConfigParser,
};

fn s(x: &str) -> String {
    x.to_string()
}

fn file(dir: &str, name: &str) -> DirItem {
    DirItem { path: format!("{}/{}", dir, name), name: s(name), is_dir: false, is_file: true }
}

fn dir(parent: &str, name: &str) -> DirItem {
    DirItem { path: format!("{}/{}", parent, name), name: s(name), is_dir: true, is_file: false }
}

fn lines(ls: &[&str]) -> Vec<String> {
    ls.iter().map(|l| l.to_string()).collect()
}

/// Runs a crawler over a tree given as listings, the way a program would.
fn run<C: Crawler>(c: &mut C, tree: &HashMap<String, Vec<DirItem>>) -> Vec<String> {
    let mut steps = 0;
    while let Some(d) = c.next_dir() {
        let entries = tree.get(&d).cloned().unwrap_or_default();
        c.take_listing(&entries);
        steps += 1;
        assert!(steps < 1000);
    }
    c.found()
}

fn sample_tree() -> HashMap<String, Vec<DirItem>> {
    let mut t = HashMap::new();
    t.insert(s("/r"), vec![file("/r", ".vimrc"), dir("/r", "A"), file("/r", ".bashrc"), dir("/r", "C")]);
    t.insert(s("/r/A"), vec![dir("/r/A", "B"), file("/r/A", "x")]);
    t.insert(s("/r/A/B"), vec![file("/r/A/B", ".dotfileln"), file("/r/A/B", "init.lua")]);
    t.insert(s("/r/C"), vec![file("/r/C", "y")]);
    t
}

#[test]
fn file_crawler_lists_only_plain_files() {
    let fc = FileCrawler::new(&s("/r"));
    let entries = vec![file("/r", "a"), dir("/r", "d1"), file("/r", "b"), dir("/r", "d2"), file("/r", "c")];
    let mut got = fc.crawl(&entries);
    got.sort();
    assert_eq!(got, vec![s("/r/a"), s("/r/b"), s("/r/c")]);
    assert!(fc.crawl(&vec![dir("/r", "only")]).is_empty());
}

#[test]
fn file_crawler_through_trait() {
    let mut fc = FileCrawler::new(&s("/r"));
    let mut got = run(&mut fc, &sample_tree());
    got.sort();
    assert_eq!(got, vec![s("/r/.bashrc"), s("/r/.vimrc")]);
}

#[test]
fn directory_crawler_finds_marked_directory() {
    let mut dc = DirectoryCrawler::new(&s("/r"));
    assert_eq!(run(&mut dc, &sample_tree()), vec![s("/r/A/B")]);
}

#[test]
fn directory_crawler_ignores_marker_in_root() {
    let mut t = sample_tree();
    t.get_mut("/r").unwrap().push(file("/r", ".dotfileln"));
    let mut dc = DirectoryCrawler::new(&s("/r"));
    assert_eq!(run(&mut dc, &t), vec![s("/r/A/B")]);
}

#[test]
fn directory_crawler_visits_shared_directory_once() {
    let mut t = sample_tree();
    // /r/C lists /r/A/B a second time, as a link into the same subtree would.
    t.insert(s("/r/C"), vec![file("/r/C", "y"), DirItem { path: s("/r/A/B"), name: s("B"), is_dir: true, is_file: false }]);
    let mut dc = DirectoryCrawler::new(&s("/r"));
    assert_eq!(run(&mut dc, &t), vec![s("/r/A/B")]);
    assert_eq!(dc.discovered.len(), 3);
}

#[test]
fn directory_crawler_terminates_on_cycle() {
    let mut t = HashMap::new();
    t.insert(s("/r"), vec![dir("/r", "a")]);
    t.insert(s("/r/a"), vec![DirItem { path: s("/r/a"), name: s("self"), is_dir: true, is_file: false }, file("/r/a", ".dotfileln")]);
    let mut dc = DirectoryCrawler::new(&s("/r"));
    assert_eq!(run(&mut dc, &t), vec![s("/r/a")]);
}

#[test]
fn dot_crawler_concatenates_files_and_folders() {
    let mut c = DotCrawler::new(&s("/r"));
    let got = run(&mut c, &sample_tree());
    assert_eq!(got.len(), 3);
    let mut files = got[..2].to_vec();
    files.sort();
    assert_eq!(files, vec![s("/r/.bashrc"), s("/r/.vimrc")]);
    assert_eq!(got[2], s("/r/A/B"));
    assert_eq!(c.crawl(), got);
}

#[test]
fn partition_and_trim() {
    assert_eq!(partition(&s("  *.swp # editor"), '#'), (s("  *.swp "), s(" editor")));
    assert_eq!(partition(&s("no comment"), '#'), (s("no comment"), s("")));
    assert_eq!(partition(&s("#all"), '#'), (s(""), s("all")));
    assert_eq!(partition(&s("*.swp # vim"), '#'), (s("*.swp "), s(" vim")));
    assert_eq!(partition(&s("a#b#c"), '#'), (s("a"), s("b#c")));
    assert_eq!(partition(&s("node_modules/**"), '#'), (s("node_modules/**"), s("")));
    assert_eq!(trim(&s(" \t a b \n")), s("a b"));
    assert_eq!(trim(&s("   ")), s(""));
    assert_eq!(trim(&s("\u{3000}x\u{a0}")), s("x"));
}

#[test]
fn parser_reads_patterns_in_order() {
    let p = DotIgnoreConfigParser::defaults();
    let got = p.read(&lines(&["*.swp", "", "   ", "# only a comment", " node_modules/** # deps", "README.md"]));
    assert_eq!(got, vec![s("*.swp"), s("node_modules/**"), s("README.md")]);
    let semi = DotIgnoreConfigParser::new(';');
    assert_eq!(semi.read(&lines(&["a#b ; c"])), vec![s("a#b")]);
}

#[test]
fn load_appends_own_name() {
    let p = DotIgnoreConfigParser::defaults();
    let ls = lines(&["*.bak"]);
    assert_eq!(p.load(&s("/src/.dotignore"), Some(&ls)), vec![s("*.bak"), s("*/.dotignore")]);
}

#[test]
fn missing_ignore_file_gives_only_own_name() {
    let mut cfg = DotIgnoreConfig::new(&s("conf/.dotignore"));
    assert!(cfg.ignore_globs.is_empty());
    cfg.collect(None);
    assert_eq!(cfg.ignore_globs, vec![s("*/.dotignore")]);
}

#[test]
fn glob_translation() {
    assert_eq!(glob_to_regex(&s("*.bak")), Some(s("^.*\\.bak$")));
    assert_eq!(glob_to_regex(&s("a?c")), Some(s("^a.c$")));
    assert_eq!(glob_to_regex(&s("x+(y)")), Some(s("^x\\+\\(y\\)$")));
    assert_eq!(glob_to_regex(&s("[!ab]x")), Some(s("^[^ab]x$")));
    assert_eq!(glob_to_regex(&s("[]a]")), Some(s("^[\\]a]$")));
    assert_eq!(glob_to_regex(&s("[a-")), None);
    assert_eq!(glob_to_regex(&s("x]")), Some(s("^x\\]$")));
}

#[test]
fn match_glob_on_bak() {
    let mut cfg = DotIgnoreConfig::new(&s(".dotignore"));
    cfg.collect(Some(&lines(&["*.bak"])));
    assert_eq!(cfg.match_glob(&s("/src/notes.bak")), Ok(false));
    assert_eq!(cfg.match_glob(&s("/src/.vimrc")), Ok(true));
    assert_eq!(cfg.match_glob(&s("/src/.dotignore")), Ok(false));
    assert_eq!(cfg.match_glob(&s("/src/x.dotignore")), Ok(true));
    assert_eq!(cfg.match_glob(&s("/src/notes.bak2")), Ok(true));
}

#[test]
fn globs_match_the_whole_path() {
    let mut cfg = DotIgnoreConfig::new(&s(".dotignore"));
    cfg.collect(Some(&lines(&["b", "/src/[xy].txt"])));
    assert_eq!(cfg.match_glob(&s("/a/b")), Ok(true));
    assert_eq!(cfg.match_glob(&s("b")), Ok(false));
    assert_eq!(cfg.match_glob(&s("/src/x.txt")), Ok(false));
    assert_eq!(cfg.match_glob(&s("/src/z.txt")), Ok(true));
}

#[test]
fn malformed_glob_is_a_pattern_error() {
    let mut cfg = DotIgnoreConfig::new(&s(".dotignore"));
    cfg.collect(Some(&lines(&["[a-"])));
    assert!(cfg.match_glob(&s("/src/a")).is_err());
    let mut b = DotBootstrap::new(&s(".dotignore"), &s("/src"), &s("/home/u"));
    b.dotignore.collect(Some(&lines(&["[a-"])));
    assert!(matches!(b.plan(&vec![s("/src/a")], &s("prog")), Err(PlanError::Pattern(_))));
}

#[test]
fn advance_repeats_awaited_directory() {
    let mut dc = DirectoryCrawler::new(&s("/r"));
    assert_eq!(dc.advance(), Some(s("/r")));
    dc.begin(&vec![dir("/r", "a")]);
    assert_eq!(dc.advance(), Some(s("/r/a")));
    assert_eq!(dc.advance(), Some(s("/r/a")));
    dc.visit(&vec![file("/r/a", ".dotfileln")]);
    assert_eq!(dc.advance(), None);
    assert_eq!(dc.folders(), vec![s("/r/a")]);
}

#[test]
fn path_helpers() {
    assert_eq!(last_component(&s("/a/b/c.txt")), s("c.txt"));
    assert_eq!(last_component(&s("plain")), s("plain"));
    assert!(string_ends_with(&s("dotbootstrap"), &s("bootstrap")));
    assert!(!string_ends_with(&s("boot"), &s("bootstrap")));
}

#[test]
fn rebase_vimrc() {
    assert_eq!(rebase(&s("/src/.vimrc"), &s("/src"), &s("/home/u")), Some(s("/home/u/.vimrc")));
    assert_eq!(rebase(&s("/src/a/b"), &s("/src/"), &s("/home/u/")), Some(s("/home/u/a/b")));
    assert_eq!(rebase(&s("./.vimrc"), &s("."), &s("/h")), Some(s("/h/.vimrc")));
    assert_eq!(rebase(&s("/srcx/.vimrc"), &s("/src"), &s("/h")), None);
    assert_eq!(rebase(&s("/other"), &s("/src"), &s("/h")), None);
}

fn bootstrap_with(globs: &[&str]) -> DotBootstrap {
    let mut b = DotBootstrap::new(&s(".dotignore"), &s("/src"), &s("/home/u"));
    b.dotignore.collect(Some(&lines(globs)));
    b
}

#[test]
fn plan_maps_vimrc_into_home() {
    let b = bootstrap_with(&[]);
    let m = b.plan(&vec![s("/src/.vimrc")], &s("dotbootstrap")).ok().unwrap();
    assert_eq!(m, vec![(s("/src/.vimrc"), s("/home/u/.vimrc"))]);
}

#[test]
fn plan_drops_ignored_own_file_and_program() {
    let b = bootstrap_with(&["*.bak"]);
    let cands = vec![
        s("/src/.vimrc"),
        s("/src/old.bak"),
        s("/src/.dotignore"),
        s("/src/dotbootstrap"),
        s("/src/nvim"),
    ];
    let m = b.plan(&cands, &s("dotbootstrap")).ok().unwrap();
    assert_eq!(m, vec![(s("/src/.vimrc"), s("/home/u/.vimrc")), (s("/src/nvim"), s("/home/u/nvim"))]);
}

#[test]
fn plan_overwrites_repeated_source() {
    let b = bootstrap_with(&[]);
    let m = b.plan(&vec![s("/src/a"), s("/src/b"), s("/src/a")], &s("prog")).ok().unwrap();
    assert_eq!(m, vec![(s("/src/a"), s("/home/u/a")), (s("/src/b"), s("/home/u/b"))]);
}

#[test]
fn plan_rejects_path_outside_source() {
    let b = bootstrap_with(&[]);
    match b.plan(&vec![s("/src/a"), s("/elsewhere/b")], &s("prog")) {
        Err(PlanError::Path(p)) => assert_eq!(p, s("/elsewhere/b")),
        _ => panic!("expected a path error"),
    }
}

#[test]
fn link_decisions() {
    assert!(matches!(decide(false, false), LinkStep::Create));
    assert!(matches!(decide(false, true), LinkStep::Create));
    assert!(matches!(decide(true, true), LinkStep::Replace));
    assert!(matches!(decide(true, false), LinkStep::Skip));
}

#[test]
fn second_confirmed_run_replaces_identically() {
    // First run: nothing exists, every link is created; second run: every
    // destination exists and is replaced by the same link.
    let b = bootstrap_with(&[]);
    let m = b.plan(&vec![s("/src/.vimrc"), s("/src/.bashrc")], &s("prog")).ok().unwrap();
    let mut fs: HashMap<String, String> = HashMap::new();
    for _ in 0..2 {
        for (from, to) in &m {
            match decide(fs.contains_key(to), true) {
                LinkStep::Skip => {}
                _ => {
                    fs.insert(to.clone(), from.clone());
                }
            }
        }
    }
    assert_eq!(fs.len(), 2);
    assert_eq!(fs.get("/home/u/.vimrc"), Some(&s("/src/.vimrc")));
}

#[test]
fn yes_answers() {
    assert!(answer_is_yes(&s("y\n")));
    assert!(answer_is_yes(&s("  YES ")));
    assert!(answer_is_yes(&s("Yes")));
    assert!(!answer_is_yes(&s("n")));
    assert!(!answer_is_yes(&s("no")));
    assert!(!answer_is_yes(&s("yess")));
    assert!(!answer_is_yes(&s("")));
}

#[test]
fn plan_error_message_names_path() {
    let b = bootstrap_with(&[]);
    let e = b.plan(&vec![s("/x/y")], &s("prog")).err().unwrap();
    assert_eq!(e.message(), s("/x/y"));
}
