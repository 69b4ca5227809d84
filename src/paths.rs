use vstd::prelude::*;

use crate::scan::texts;

verus! {

/// A file-system entry as the traversal sees it.
pub enum Entry {
    /// A regular file, by its path.
    File(String),
    /// A directory, by its path, with its entries in the order the listing gave them.
    Dir(String, Vec<Entry>),
    /// Anything else (a dangling link, a device): never scanned.
    Other(String),
}

/// The regular files found below `e` in depth-first order, taking only the first `k`
/// entries of a directory.
pub open spec fn files_within(e: Entry, k: int) -> Seq<Seq<char>>
    decreases e, k,
{
    match e {
        Entry::File(p) => seq![p@],
        Entry::Other(_) => Seq::empty(),
        Entry::Dir(_, ch) => {
            if k <= 0 || k > ch@.len() {
                Seq::empty()
            } else {
                files_within(e, k - 1) + files_within(ch@[k - 1], entry_count(ch@[k - 1]))
            }
        },
    }
}

/// How many entries a directory lists; zero for anything else.
pub open spec fn entry_count(e: Entry) -> int {
    match e {
        Entry::Dir(_, ch) => ch@.len() as int,
        _ => 0,
    }
}

/// The regular files found by a depth-first descent from `e`.
pub open spec fn discovered(e: Entry) -> Seq<Seq<char>> {
    files_within(e, entry_count(e))
}

/// `e` holds the regular file `p`: it is that file, or one of its entries holds it.
/// This says nothing of the order in which a directory lists its entries.
pub open spec fn holds_file(e: Entry, p: Seq<char>) -> bool
    decreases e,
{
    match e {
        Entry::File(q) => q@ == p,
        Entry::Other(_) => false,
        Entry::Dir(_, ch) => exists|i: int| 0 <= i < ch@.len() && holds_file(#[trigger] ch@[i], p),
    }
}

proof fn lemma_within_holds(e: Entry, k: int, p: Seq<char>)
    requires
        0 <= k <= entry_count(e),
    ensures
        files_within(e, k).contains(p) <==> match e {
            Entry::Dir(_, ch) => exists|i: int| 0 <= i < k && holds_file(#[trigger] ch@[i], p),
            _ => holds_file(e, p),
        },
    decreases e, k,
{
    match e {
        Entry::File(q) => {
            assert(seq![q@][0] == q@);
        },
        Entry::Other(_) => {},
        Entry::Dir(_, ch) => {
            if k > 0 {
                lemma_within_holds(e, k - 1, p);
                let c = ch@[k - 1];
                lemma_within_holds(c, entry_count(c), p);
                let a = files_within(e, k - 1);
                let b = files_within(c, entry_count(c));
                assert(files_within(e, k) == a + b);
                if (a + b).contains(p) {
                    let w = choose|w: int| 0 <= w < (a + b).len() && (a + b)[w] == p;
                    if w < a.len() {
                        assert(a[w] == p);
                    } else {
                        assert(b[w - a.len()] == p);
                    }
                }
                if a.contains(p) {
                    let w = choose|w: int| 0 <= w < a.len() && a[w] == p;
                    assert((a + b)[w] == p);
                }
                if b.contains(p) {
                    let w = choose|w: int| 0 <= w < b.len() && b[w] == p;
                    assert((a + b)[a.len() + w] == p);
                }
                assert(holds_file(c, p) <==> match c {
                    Entry::Dir(_, cc) => exists|i: int|
                        0 <= i < cc@.len() && holds_file(#[trigger] cc@[i], p),
                    _ => holds_file(c, p),
                });
                if exists|i: int| 0 <= i < k && holds_file(#[trigger] ch@[i], p) {
                    let i = choose|i: int| 0 <= i < k && holds_file(#[trigger] ch@[i], p);
                    if i < k - 1 {
                        assert(exists|j: int| 0 <= j < k - 1 && holds_file(#[trigger] ch@[j], p));
                    }
                }
            }
        },
    }
}

/// A recursive search discovers exactly the regular files reachable from its root, in
/// whatever order directories list their entries: a path is discovered if and only if
/// the tree holds a regular file at that path.
pub proof fn lemma_discovered_are_reachable(root: Entry)
    ensures
        forall|p: Seq<char>| #[trigger] discovered(root).contains(p) <==> holds_file(root, p),
{
    assert forall|p: Seq<char>| #[trigger] discovered(root).contains(p) <==> holds_file(root, p) by {
        lemma_within_holds(root, entry_count(root), p);
    }
}

fn collect_within(e: &Entry, out: &mut Vec<String>)
    ensures
        texts(final(out)@) == texts(old(out)@) + discovered(*e),
    decreases e,
{
    let ghost before = out@;
    match e {
        Entry::File(p) => {
            out.push(p.clone());
            assert(texts(out@) =~= texts(before) + discovered(*e));
        },
        Entry::Other(_) => {
            assert(texts(out@) =~= texts(before) + discovered(*e));
        },
        Entry::Dir(_, ch) => {
            let n = ch.len();
            assert(texts(out@) =~= texts(before) + files_within(*e, 0));
            for i in 0..n
                invariant
                    n == ch@.len(),
                    *e == Entry::Dir(e->Dir_0, *ch),
                    texts(out@) == texts(before) + files_within(*e, i as int),
            {
                collect_within(&ch[i], out);
                assert(texts(out@) =~= texts(before) + files_within(*e, i + 1));
            }
        },
    }
}

/// The regular files below `root`, in depth-first order: a file stands for itself, a
/// directory for the files found in each of its entries in listing order, anything
/// else for nothing.
pub fn collect_files(root: &Entry) -> (r: Vec<String>)
    ensures
        texts(r@) == discovered(*root),
{
    let mut r: Vec<String> = Vec::new();
    collect_within(root, &mut r);
    assert(texts(r@) =~= discovered(*root));
    r
}

/// The file list of a search that does not descend: the named path alone, whatever
/// it names.
pub fn single_target(path: &String) -> (r: Vec<String>)
    ensures
        texts(r@) == seq![path@],
{
    let mut r: Vec<String> = Vec::new();
    r.push(path.clone());
    assert(texts(r@) =~= seq![path@]);
    r
}

} // verus!
