use vstd::prelude::*;

use crate::partition::{chunk_of, joined_chunks, lemma_joined_prefix, lemma_partition_exact};
use crate::scan::{LineMatch, match_views, matching_lines, scan_lines, texts};

verus! {

/// What reading one listed path gave.
pub enum FileContent {
    /// Not a regular file, or it could not be opened: it contributes no matches.
    Unreadable,
    /// Every line of the file, terminators stripped.
    Lines(Vec<String>),
    /// The lines read before one that could not be decoded as text.
    Broken(Vec<String>),
}

/// A listed path together with what reading it gave.
pub struct SourceFile {
    pub path: String,
    pub content: FileContent,
}

/// One matching line of one file.
pub struct Hit {
    /// The file the line is in.
    pub path: String,
    /// 1-based position of the line in its file.
    pub line_number: usize,
    /// The line, without its terminator.
    pub text: String,
}

impl View for Hit {
    type V = (Seq<char>, int, Seq<char>);

    open spec fn view(&self) -> (Seq<char>, int, Seq<char>) {
        (self.path@, self.line_number as int, self.text@)
    }
}

/// What one worker produced from its chunk.
pub struct ChunkScan {
    /// The matches, in file order, then line order.
    pub hits: Vec<Hit>,
    /// A line could not be decoded, and the worker stopped there.
    pub aborted: bool,
}

/// The views of a list of hits.
pub open spec fn hit_views(hs: Seq<Hit>) -> Seq<(Seq<char>, int, Seq<char>)> {
    hs.map_values(|h: Hit| h@)
}

/// The lines that reading gave.
pub open spec fn content_lines(c: FileContent) -> Seq<Seq<char>> {
    match c {
        FileContent::Unreadable => Seq::empty(),
        FileContent::Lines(v) => texts(v@),
        FileContent::Broken(v) => texts(v@),
    }
}

/// Reading stopped at a line that is not valid text.
pub open spec fn is_broken(c: FileContent) -> bool {
    c is Broken
}

/// The matches of one file, each tagged with the file's path.
pub open spec fn file_hits(f: SourceFile, p: Seq<char>) -> Seq<(Seq<char>, int, Seq<char>)> {
    matching_lines(content_lines(f.content), p).map_values(
        |m: (int, Seq<char>)| (f.path@, m.0, m.1),
    )
}

/// What a worker produces from `files`: the matches of each file in turn, stopping
/// after the first file with an undecodable line; the flag tells whether it stopped so.
pub open spec fn chunk_scan(files: Seq<SourceFile>, p: Seq<char>) -> (
    Seq<(Seq<char>, int, Seq<char>)>,
    bool,
)
    decreases files.len(),
{
    if files.len() == 0 {
        (Seq::empty(), false)
    } else {
        let prev = chunk_scan(files.drop_last(), p);
        if prev.1 {
            prev
        } else {
            (prev.0 + file_hits(files.last(), p), is_broken(files.last().content))
        }
    }
}

fn tag_matches(path: &String, ms: &Vec<LineMatch>, out: &mut Vec<Hit>)
    ensures
        hit_views(final(out)@) == hit_views(old(out)@) + match_views(ms@).map_values(
            |m: (int, Seq<char>)| (path@, m.0, m.1),
        ),
{
    let ghost before = out@;
    let n = ms.len();
    for i in 0..n
        invariant
            n == ms@.len(),
            hit_views(out@) == hit_views(before) + match_views(ms@.take(i as int)).map_values(
                |m: (int, Seq<char>)| (path@, m.0, m.1),
            ),
    {
        let m = &ms[i];
        let ghost prev = out@;
        let h = Hit { path: path.clone(), line_number: m.line_number, text: m.text.clone() };
        out.push(h);
        assert(ms@.take(i + 1) =~= ms@.take(i as int).push(*m));
        assert(hit_views(out@) =~= hit_views(prev).push(h@));
        assert(match_views(ms@.take(i + 1)) =~= match_views(ms@.take(i as int)).push(m@));
        assert(hit_views(out@) =~= hit_views(before) + match_views(ms@.take(i + 1)).map_values(
            |m: (int, Seq<char>)| (path@, m.0, m.1),
        ));
    }
    assert(ms@.take(n as int) =~= ms@);
}

/// The work of one worker: scans each file of its chunk in order, and stops after a
/// file in which a line could not be decoded, leaving the rest of the chunk unscanned.
pub fn scan_chunk(files: &Vec<SourceFile>, pattern: &str) -> (r: ChunkScan)
    ensures
        (hit_views(r.hits@), r.aborted) == chunk_scan(files@, pattern@),
{
    let mut hits: Vec<Hit> = Vec::new();
    let n = files.len();
    let mut i: usize = 0;
    while i < n
        invariant
            i <= n == files@.len(),
            (hit_views(hits@), false) == chunk_scan(files@.take(i as int), pattern@),
        decreases n - i,
    {
        let f = &files[i];
        assert(files@.take(i + 1).drop_last() =~= files@.take(i as int));
        assert(files@.take(i + 1).last() == *f);
        match &f.content {
            FileContent::Unreadable => {
                assert(matching_lines(Seq::empty(), pattern@) =~= Seq::empty());
                assert(hit_views(hits@) =~= hit_views(hits@) + file_hits(*f, pattern@));
            },
            FileContent::Lines(lines) => {
                let ms = scan_lines(lines, pattern);
                tag_matches(&f.path, &ms, &mut hits);
            },
            FileContent::Broken(lines) => {
                let ms = scan_lines(lines, pattern);
                tag_matches(&f.path, &ms, &mut hits);
                assert(files@.take(i + 1) =~= files@.take(i as int).push(*f));
                if i + 1 < n {
                    proof {
                        lemma_stop_is_kept(files@, pattern@, i + 1);
                    }
                } else {
                    assert(files@.take(i + 1) =~= files@);
                }
                return ChunkScan { hits, aborted: true };
            },
        }
        i = i + 1;
    }
    assert(files@.take(n as int) =~= files@);
    ChunkScan { hits, aborted: false }
}

/// The aggregated output line of a match: its file's path, a colon, the line.
pub open spec fn record_text(h: (Seq<char>, int, Seq<char>)) -> Seq<char> {
    h.0 + ":"@ + h.2
}

/// The record of each hit, in order.
pub open spec fn record_texts(hs: Seq<(Seq<char>, int, Seq<char>)>) -> Seq<Seq<char>> {
    hs.map_values(|h: (Seq<char>, int, Seq<char>)| record_text(h))
}

impl Hit {
    /// `"<path>:<line>"`, the form in which the match is finally reported.
    pub fn record(&self) -> (r: String)
        ensures
            r@ == record_text(self@),
    {
        let mut r = self.path.clone();
        r.append(":");
        r.append(self.text.as_str());
        r
    }
}

/// The matches of a whole run, appended by the workers as they finish their files and
/// read once every worker is done.
pub struct ResultSink {
    records: Vec<String>,
}

impl View for ResultSink {
    type V = Seq<Seq<char>>;

    closed spec fn view(&self) -> Seq<Seq<char>> {
        texts(self.records@)
    }
}

impl ResultSink {
    /// An empty sink.
    pub fn new() -> (r: ResultSink)
        ensures
            r@ == Seq::<Seq<char>>::empty(),
    {
        let r = ResultSink { records: Vec::new() };
        assert(r@ =~= Seq::<Seq<char>>::empty());
        r
    }

    /// Adds one record after the others.
    pub fn append(&mut self, record: String)
        ensures
            final(self)@ == old(self)@.push(record@),
    {
        let ghost before = self.records@;
        self.records.push(record);
        assert(texts(self.records@) =~= texts(before).push(record@));
    }

    /// Adds the record of each hit, in order.
    pub fn append_hits(&mut self, hits: &Vec<Hit>)
        ensures
            final(self)@ == old(self)@ + record_texts(hit_views(hits@)),
    {
        let ghost before = self@;
        let n = hits.len();
        for i in 0..n
            invariant
                n == hits@.len(),
                self@ == before + record_texts(hit_views(hits@.take(i as int))),
        {
            let r = hits[i].record();
            self.append(r);
            assert(record_texts(hit_views(hits@.take(i + 1))) =~= record_texts(
                hit_views(hits@.take(i as int)),
            ).push(r@));
            assert(self@ =~= before + record_texts(hit_views(hits@.take(i + 1))));
        }
        assert(hits@.take(n as int) =~= hits@);
    }

    /// Every record so far, in the order appended.
    pub fn snapshot_all(&self) -> (r: Vec<String>)
        ensures
            texts(r@) == self@,
    {
        self.records.clone()
    }

    /// How many records the sink holds.
    pub fn len(&self) -> (r: usize)
        ensures
            r == self@.len(),
    {
        self.records.len()
    }
}

/// No file of `files` holds an undecodable line.
pub open spec fn none_broken(files: Seq<SourceFile>) -> bool {
    forall|i: int| 0 <= i < files.len() ==> !is_broken(#[trigger] files[i].content)
}

/// The matches that worker `i` of `k` finds.
pub open spec fn worker_hits(files: Seq<SourceFile>, k: nat, p: Seq<char>, i: nat) -> Seq<
    (Seq<char>, int, Seq<char>),
> {
    chunk_scan(chunk_of(files, k, i), p).0
}

/// The matches of workers `0 .. m`, each worker's block after the one before.
pub open spec fn pooled_hits(files: Seq<SourceFile>, k: nat, p: Seq<char>, m: nat) -> Seq<
    (Seq<char>, int, Seq<char>),
>
    decreases m,
{
    if m == 0 {
        Seq::empty()
    } else {
        pooled_hits(files, k, p, (m - 1) as nat) + worker_hits(files, k, p, (m - 1) as nat)
    }
}

/// The matches as they reach the sink when the workers finish in the order `ord`, each
/// appending its block at once.
pub open spec fn hits_in_order(files: Seq<SourceFile>, k: nat, p: Seq<char>, ord: Seq<nat>) -> Seq<
    (Seq<char>, int, Seq<char>),
>
    decreases ord.len(),
{
    if ord.len() == 0 {
        Seq::empty()
    } else {
        hits_in_order(files, k, p, ord.drop_last()) + worker_hits(files, k, p, ord.last())
    }
}

proof fn lemma_scan_concat(a: Seq<SourceFile>, b: Seq<SourceFile>, p: Seq<char>)
    requires
        none_broken(a + b),
    ensures
        chunk_scan(a + b, p) == (chunk_scan(a, p).0 + chunk_scan(b, p).0, false),
    decreases b.len(),
{
    if b.len() == 0 {
        assert(a + b =~= a);
        lemma_no_stop(a, p);
        assert(chunk_scan(a, p).0 + chunk_scan(b, p).0 =~= chunk_scan(a, p).0);
    } else {
        assert((a + b).drop_last() =~= a + b.drop_last());
        assert((a + b).last() == b.last());
        assert(none_broken(a + b.drop_last())) by {
            assert forall|i: int| 0 <= i < (a + b.drop_last()).len() implies !is_broken(
                #[trigger] (a + b.drop_last())[i].content,
            ) by {
                assert((a + b.drop_last())[i] == (a + b)[i]);
            }
        }
        lemma_scan_concat(a, b.drop_last(), p);
        assert(none_broken(b)) by {
            assert forall|i: int| 0 <= i < b.len() implies !is_broken(#[trigger] b[i].content) by {
                assert(b[i] == (a + b)[a.len() + i]);
            }
        }
        lemma_no_stop(b.drop_last(), p);
        assert(!is_broken((a + b)[a.len() + b.len() - 1].content));
    }
}

proof fn lemma_no_stop(files: Seq<SourceFile>, p: Seq<char>)
    requires
        none_broken(files),
    ensures
        !chunk_scan(files, p).1,
    decreases files.len(),
{
    if files.len() > 0 {
        assert(none_broken(files.drop_last())) by {
            assert forall|i: int| 0 <= i < files.drop_last().len() implies !is_broken(
                #[trigger] files.drop_last()[i].content,
            ) by {
                assert(files.drop_last()[i] == files[i]);
            }
        }
        lemma_no_stop(files.drop_last(), p);
        assert(!is_broken(files[files.len() - 1].content));
    }
}

proof fn lemma_pooled_is_joined(files: Seq<SourceFile>, k: nat, p: Seq<char>, m: nat)
    requires
        k >= 1,
        m <= k,
        none_broken(files),
    ensures
        pooled_hits(files, k, p, m) == chunk_scan(joined_chunks(files, k, m), p).0,
    decreases m,
{
    if m > 0 {
        lemma_pooled_is_joined(files, k, p, (m - 1) as nat);
        lemma_joined_prefix(files, k, m);
        lemma_partition_exact(files, k);
        let j = joined_chunks(files, k, m);
        assert(none_broken(j)) by {
            assert forall|i: int| 0 <= i < j.len() implies !is_broken(#[trigger] j[i].content) by {
                assert(j[i] == files[i]);
            }
        }
        lemma_scan_concat(joined_chunks(files, k, (m - 1) as nat), chunk_of(files, k, (m - 1) as nat), p);
    } else {
        assert(chunk_scan(joined_chunks(files, k, 0), p).0 =~= Seq::empty());
    }
}

/// Spreading a search over any number `k >= 1` of workers finds the same matches, in
/// the same order when blocks are joined in worker order, as one worker scanning the
/// whole list, as long as no file holds an undecodable line; a worker whose chunk is
/// empty finds nothing.
pub proof fn lemma_workers_agree(files: Seq<SourceFile>, k: nat, p: Seq<char>)
    requires
        k >= 1,
        none_broken(files),
    ensures
        pooled_hits(files, k, p, k) == chunk_scan(files, p).0,
        pooled_hits(files, k, p, k) == pooled_hits(files, 1, p, 1),
        forall|i: nat|
            i < k && chunk_of(files, k, i).len() == 0 ==> (#[trigger] worker_hits(
                files,
                k,
                p,
                i,
            )).len() == 0,
{
    lemma_pooled_is_joined(files, k, p, k);
    lemma_partition_exact(files, k);
    lemma_pooled_is_joined(files, 1, p, 1);
    lemma_partition_exact(files, 1);
    assert forall|i: nat| i < k && chunk_of(files, k, i).len() == 0 implies (#[trigger] worker_hits(
        files,
        k,
        p,
        i,
    )).len() == 0 by {
        assert(chunk_of(files, k, i) =~= Seq::<SourceFile>::empty());
    }
}

proof fn lemma_in_order_contains(
    files: Seq<SourceFile>,
    k: nat,
    p: Seq<char>,
    ord: Seq<nat>,
    h: (Seq<char>, int, Seq<char>),
)
    ensures
        hits_in_order(files, k, p, ord).contains(h) <==> exists|j: int|
            0 <= j < ord.len() && (#[trigger] worker_hits(files, k, p, ord[j])).contains(h),
    decreases ord.len(),
{
    if ord.len() > 0 {
        let a = hits_in_order(files, k, p, ord.drop_last());
        let b = worker_hits(files, k, p, ord.last());
        lemma_in_order_contains(files, k, p, ord.drop_last(), h);
        if (a + b).contains(h) {
            let w = choose|w: int| 0 <= w < (a + b).len() && (a + b)[w] == h;
            if w < a.len() {
                assert(a[w] == h);
                let j = choose|j: int|
                    0 <= j < ord.drop_last().len() && (#[trigger] worker_hits(
                        files,
                        k,
                        p,
                        ord.drop_last()[j],
                    )).contains(h);
                assert(ord[j] == ord.drop_last()[j]);
            } else {
                assert(b[w - a.len()] == h);
                assert(ord[ord.len() - 1] == ord.last());
            }
        }
        if exists|j: int| 0 <= j < ord.len() && (#[trigger] worker_hits(files, k, p, ord[j])).contains(h) {
            let j = choose|j: int| 0 <= j < ord.len() && (#[trigger] worker_hits(files, k, p, ord[j])).contains(h);
            if j < ord.len() - 1 {
                assert(ord.drop_last()[j] == ord[j]);
                assert(a.contains(h));
                let w = choose|w: int| 0 <= w < a.len() && a[w] == h;
                assert((a + b)[w] == h);
            } else {
                let w = choose|w: int| 0 <= w < b.len() && b[w] == h;
                assert((a + b)[a.len() + w] == h);
            }
        }
    }
}

/// Whatever order the workers finish and append in, a run reports the same set of
/// `"<path>:<line>"` records: two runs over the same files, pattern and worker count
/// agree on every record, though their order may differ.
pub proof fn lemma_any_finish_order(
    files: Seq<SourceFile>,
    k: nat,
    p: Seq<char>,
    ord1: Seq<nat>,
    ord2: Seq<nat>,
)
    requires
        k >= 1,
        forall|j: int| 0 <= j < ord1.len() ==> #[trigger] ord1[j] < k,
        forall|j: int| 0 <= j < ord2.len() ==> #[trigger] ord2[j] < k,
        forall|i: nat| i < k ==> #[trigger] ord1.contains(i),
        forall|i: nat| i < k ==> #[trigger] ord2.contains(i),
    ensures
        forall|r: Seq<char>|
            #[trigger] record_texts(hits_in_order(files, k, p, ord1)).contains(r) <==> record_texts(
                hits_in_order(files, k, p, ord2),
            ).contains(r),
{
    assert forall|r: Seq<char>| #[trigger]
        record_texts(hits_in_order(files, k, p, ord1)).contains(r) implies record_texts(
        hits_in_order(files, k, p, ord2),
    ).contains(r) by {
        lemma_record_moves(files, k, p, ord1, ord2, r);
    }
    assert forall|r: Seq<char>| #[trigger]
        record_texts(hits_in_order(files, k, p, ord2)).contains(r) implies record_texts(
        hits_in_order(files, k, p, ord1),
    ).contains(r) by {
        lemma_record_moves(files, k, p, ord2, ord1, r);
    }
}

proof fn lemma_record_moves(
    files: Seq<SourceFile>,
    k: nat,
    p: Seq<char>,
    ord1: Seq<nat>,
    ord2: Seq<nat>,
    r: Seq<char>,
)
    requires
        forall|j: int| 0 <= j < ord1.len() ==> #[trigger] ord1[j] < k,
        forall|i: nat| i < k ==> #[trigger] ord2.contains(i),
        record_texts(hits_in_order(files, k, p, ord1)).contains(r),
    ensures
        record_texts(hits_in_order(files, k, p, ord2)).contains(r),
{
    let s1 = hits_in_order(files, k, p, ord1);
    let s2 = hits_in_order(files, k, p, ord2);
    let w = choose|w: int| 0 <= w < record_texts(s1).len() && record_texts(s1)[w] == r;
    let h = s1[w];
    assert(s1.contains(h));
    lemma_in_order_contains(files, k, p, ord1, h);
    let j = choose|j: int| 0 <= j < ord1.len() && (#[trigger] worker_hits(files, k, p, ord1[j])).contains(h);
    let i = ord1[j];
    assert(ord2.contains(i));
    let j2 = choose|j2: int| 0 <= j2 < ord2.len() && ord2[j2] == i;
    assert(worker_hits(files, k, p, ord2[j2]).contains(h));
    lemma_in_order_contains(files, k, p, ord2, h);
    let w2 = choose|w2: int| 0 <= w2 < s2.len() && s2[w2] == h;
    assert(record_texts(s2)[w2] == r);
}

/// A path that is not a regular file, or cannot be opened (a directory named in a
/// search that does not descend, a missing file), gives no matches and does not stop
/// its worker.
pub proof fn lemma_unreadable_gives_nothing(f: SourceFile, p: Seq<char>)
    requires
        f.content is Unreadable,
    ensures
        file_hits(f, p).len() == 0,
        chunk_scan(seq![f], p) == (Seq::<(Seq<char>, int, Seq<char>)>::empty(), false),
{
    assert(seq![f].drop_last() =~= Seq::<SourceFile>::empty());
    assert(content_lines(f.content) == Seq::<Seq<char>>::empty());
    assert(matching_lines(Seq::<Seq<char>>::empty(), p) =~= Seq::empty());
    assert(file_hits(f, p) =~= Seq::empty());
    assert(seq![f].last() == f);
    let none = chunk_scan(seq![f].drop_last(), p);
    assert(none == (Seq::<(Seq<char>, int, Seq<char>)>::empty(), false));
    assert(none.0 + file_hits(f, p) =~= Seq::<(Seq<char>, int, Seq<char>)>::empty());
    assert(chunk_scan(seq![f], p).0 =~= Seq::<(Seq<char>, int, Seq<char>)>::empty());
}

/// Once a worker has stopped, the files after the stop change nothing.
proof fn lemma_stop_is_kept(files: Seq<SourceFile>, p: Seq<char>, m: int)
    requires
        0 <= m <= files.len(),
        chunk_scan(files.take(m), p).1,
    ensures
        chunk_scan(files, p) == chunk_scan(files.take(m), p),
    decreases files.len() - m,
{
    if m < files.len() {
        assert(files.take(m + 1).drop_last() =~= files.take(m));
        lemma_stop_is_kept(files, p, m + 1);
    } else {
        assert(files.take(m) =~= files);
    }
}

} // verus!
