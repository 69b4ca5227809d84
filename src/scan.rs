use vstd::prelude::*;

verus! {

/// `p` occurs in `t` starting at position `i`.
pub open spec fn occurs_at(t: Seq<char>, p: Seq<char>, i: int) -> bool {
    0 <= i && i + p.len() <= t.len() && t.subrange(i, i + p.len()) == p
}

/// `t` contains `p` as a literal, case-sensitive substring.
pub open spec fn contains_seq(t: Seq<char>, p: Seq<char>) -> bool {
    exists|i: int| occurs_at(t, p, i)
}

/// The lines of a file that contain `p`, each with its 1-based line number, in line order.
pub open spec fn matching_lines(lines: Seq<Seq<char>>, p: Seq<char>) -> Seq<(int, Seq<char>)>
    decreases lines.len(),
{
    if lines.len() == 0 {
        Seq::empty()
    } else {
        let prev = matching_lines(lines.drop_last(), p);
        if contains_seq(lines.last(), p) {
            prev.push((lines.len() as int, lines.last()))
        } else {
            prev
        }
    }
}

/// The text of each line.
pub open spec fn texts(lines: Seq<String>) -> Seq<Seq<char>> {
    lines.map_values(|l: String| l@)
}

/// One line of a file that contains the pattern.
pub struct LineMatch {
    /// 1-based position of the line in its file.
    pub line_number: usize,
    /// The line, without its terminator.
    pub text: String,
}

impl View for LineMatch {
    type V = (int, Seq<char>);

    open spec fn view(&self) -> (int, Seq<char>) {
        (self.line_number as int, self.text@)
    }
}

/// The views of a list of line matches.
pub open spec fn match_views(ms: Seq<LineMatch>) -> Seq<(int, Seq<char>)> {
    ms.map_values(|m: LineMatch| m@)
}

/// The characters of `s`, one by one.
pub fn chars_of(s: &str) -> (r: Vec<char>)
    ensures
        r@ == s@,
{
    let mut r: Vec<char> = Vec::new();
    for c in it: s.chars()
        invariant
            r@ == it.seq().take(it.index() as int),
    {
        r.push(c);
    }
    r
}

fn occurs_in_chars(t: &Vec<char>, p: &Vec<char>, i: usize) -> (r: bool)
    requires
        i + p@.len() <= t@.len(),
    ensures
        r == occurs_at(t@, p@, i as int),
{
    let m = p.len();
    let tl = t.len();
    let mut j: usize = 0;
    while j < m
        invariant
            j <= m == p@.len(),
            tl == t@.len(),
            i + m <= t@.len(),
            forall|x: int| 0 <= x < j ==> t@[i + x] == p@[x],
        decreases m - j,
    {
        if t[i + j] != p[j] {
            assert(t@.subrange(i as int, i + m)[j as int] != p@[j as int]);
            return false;
        }
        j = j + 1;
    }
    assert(t@.subrange(i as int, i + m) =~= p@);
    true
}

/// Whether `line` contains `pattern` as a literal substring; the empty pattern is
/// contained in every line.
pub fn contains_pattern(line: &str, pattern: &str) -> (r: bool)
    ensures
        r == contains_seq(line@, pattern@),
{
    let t = chars_of(line);
    let p = chars_of(pattern);
    if p.len() > t.len() {
        return false;
    }
    if p.len() == 0 {
        assert(t@.subrange(0, 0) =~= p@);
        assert(occurs_at(t@, p@, 0));
        return true;
    }
    let tl = t.len();
    let last = tl - p.len();
    let mut i: usize = 0;
    while i <= last
        invariant
            i <= last + 1,
            p@.len() >= 1,
            tl == t@.len(),
            last + p@.len() == t@.len(),
            t@ == line@,
            p@ == pattern@,
            forall|x: int| 0 <= x < i ==> !occurs_at(t@, p@, x),
        decreases last + 1 - i,
    {
        if occurs_in_chars(&t, &p, i) {
            return true;
        }
        i = i + 1;
    }
    assert forall|x: int| !occurs_at(t@, p@, x) by {
        if 0 <= x <= last {
            assert(x < i);
        }
    }
    false
}

/// The lines that contain `pattern`, with their 1-based line numbers, in line order.
pub fn scan_lines(lines: &Vec<String>, pattern: &str) -> (r: Vec<LineMatch>)
    ensures
        match_views(r@) == matching_lines(texts(lines@), pattern@),
{
    let mut r: Vec<LineMatch> = Vec::new();
    let n = lines.len();
    for i in 0..n
        invariant
            n == lines@.len(),
            match_views(r@) == matching_lines(texts(lines@.take(i as int)), pattern@),
    {
        let line = &lines[i];
        let hit = contains_pattern(line.as_str(), pattern);
        proof {
            assert(texts(lines@.take(i + 1)).drop_last() =~= texts(lines@.take(i as int)));
        }
        if hit {
            r.push(LineMatch { line_number: i + 1, text: line.clone() });
        }
        assert(match_views(r@) =~= matching_lines(texts(lines@.take(i + 1)), pattern@));
    }
    assert(lines@.take(n as int) =~= lines@);
    r
}

/// Scanning finds every line that contains the pattern and nothing else: line `i`
/// (counted from 0) is reported, as number `i + 1`, exactly when it contains `p`,
/// and each reported entry is such a line.
pub proof fn lemma_scan_finds_every_match(lines: Seq<Seq<char>>, p: Seq<char>)
    ensures
        forall|i: int|
            0 <= i < lines.len() ==> (#[trigger] matching_lines(lines, p).contains((i + 1, lines[i]))
                <==> contains_seq(lines[i], p)),
        forall|j: int|
            0 <= j < matching_lines(lines, p).len() ==> {
                let m = #[trigger] matching_lines(lines, p)[j];
                &&& 1 <= m.0 <= lines.len()
                &&& m.1 == lines[m.0 - 1]
                &&& contains_seq(m.1, p)
            },
    decreases lines.len(),
{
    if lines.len() > 0 {
        let prev = lines.drop_last();
        lemma_scan_finds_every_match(prev, p);
        let r = matching_lines(lines, p);
        let pr = matching_lines(prev, p);
        assert forall|i: int| 0 <= i < lines.len() implies (#[trigger] r.contains((i + 1, lines[i]))
            <==> contains_seq(lines[i], p)) by {
            if i + 1 < lines.len() {
                assert(lines[i] == prev[i]);
                if r.contains((i + 1, lines[i])) {
                    let w = choose|w: int| 0 <= w < r.len() && r[w] == (i + 1, lines[i]);
                    if w < pr.len() {
                        assert(pr[w] == r[w]);
                        assert(pr.contains((i + 1, prev[i])));
                    }
                }
                if pr.contains((i + 1, prev[i])) {
                    let w = choose|w: int| 0 <= w < pr.len() && pr[w] == (i + 1, prev[i]);
                    assert(r[w] == pr[w]);
                    assert(r.contains((i + 1, lines[i])));
                }
            } else {
                if contains_seq(lines[i], p) {
                    assert(r[r.len() - 1] == (i + 1, lines[i]));
                    assert(r.contains((i + 1, lines[i])));
                } else {
                    if r.contains((i + 1, lines[i])) {
                        let w = choose|w: int| 0 <= w < r.len() && r[w] == (i + 1, lines[i]);
                        assert(pr[w] == r[w]);
                    }
                }
            }
        }
        assert forall|j: int| 0 <= j < r.len() implies {
            let m = #[trigger] r[j];
            &&& 1 <= m.0 <= lines.len()
            &&& m.1 == lines[m.0 - 1]
            &&& contains_seq(m.1, p)
        } by {
            if j < pr.len() {
                assert(r[j] == pr[j]);
                assert(pr[j].1 == prev[pr[j].0 - 1]);
            }
        }
    }
}

/// The empty pattern matches every line: scanning with it reports each line, numbered
/// from 1, in order.
pub proof fn lemma_empty_pattern_matches_all(lines: Seq<Seq<char>>)
    ensures
        matching_lines(lines, Seq::empty()) == Seq::new(lines.len(), |i: int| (i + 1, lines[i])),
    decreases lines.len(),
{
    if lines.len() > 0 {
        let prev = lines.drop_last();
        lemma_empty_pattern_matches_all(prev);
        assert(lines.last().subrange(0, 0) =~= Seq::<char>::empty());
        assert(occurs_at(lines.last(), Seq::empty(), 0));
        assert(matching_lines(lines, Seq::empty()) =~= Seq::new(lines.len(), |i: int| (i + 1, lines[i])));
    }
}

} // verus!
