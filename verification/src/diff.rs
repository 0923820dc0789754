//! A line diff of two texts through a longest common subsequence of their lines.
use vstd::prelude::*;
use crate::charseq::{copy_range, lemma_split_nonempty, pieces, split_char, split_on};
use crate::text::{chars_of, same_chars, string_from_chars};

verus! {

/// A line without the `\r` of a `\r\n` ending.
pub open spec fn strip_cr(l: Seq<char>) -> Seq<char> {
    if l.len() > 0 && l.last() == '\r' {
        l.drop_last()
    } else {
        l
    }
}

/// The lines of `s` as `str::lines` yields them: split at `\n`, a `\r` before the `\n`
/// dropped, and no empty line after a final `\n`.
pub open spec fn text_lines(s: Seq<char>) -> Seq<Seq<char>> {
    let p = split_char(s, '\n');
    let body = Seq::new((p.len() - 1) as nat, |k: int| strip_cr(p[k]));
    if p.last().len() == 0 {
        body
    } else {
        body.push(p.last())
    }
}

/// Length of a longest common subsequence of `a[i..]` and `b[j..]`.
pub open spec fn lcs(a: Seq<Seq<char>>, b: Seq<Seq<char>>, i: int, j: int) -> nat
    decreases a.len() - i + b.len() - j,
{
    if i < 0 || j < 0 || i >= a.len() || j >= b.len() {
        0
    } else if a[i] == b[j] {
        lcs(a, b, i + 1, j + 1) + 1
    } else {
        let down = lcs(a, b, i + 1, j);
        let right = lcs(a, b, i, j + 1);
        if down >= right {
            down
        } else {
            right
        }
    }
}

pub open spec fn removed(l: Seq<char>) -> Seq<char> {
    seq!['-'] + l
}

pub open spec fn added(l: Seq<char>) -> Seq<char> {
    seq!['+'] + l
}

/// The diff lines from position `i` of `a` and `j` of `b`: common lines are skipped, and where
/// the lines differ the `a` line is removed when that keeps a longest common subsequence,
/// otherwise the `b` line is added.
pub open spec fn diff_from(a: Seq<Seq<char>>, b: Seq<Seq<char>>, i: int, j: int) -> Seq<
    Seq<char>,
>
    decreases a.len() - i + b.len() - j,
{
    if i < 0 || j < 0 || i > a.len() || j > b.len() {
        Seq::empty()
    } else if i < a.len() && j < b.len() {
        if a[i] == b[j] {
            diff_from(a, b, i + 1, j + 1)
        } else if lcs(a, b, i + 1, j) >= lcs(a, b, i, j + 1) {
            seq![removed(a[i])] + diff_from(a, b, i + 1, j)
        } else {
            seq![added(b[j])] + diff_from(a, b, i, j + 1)
        }
    } else if i < a.len() {
        seq![removed(a[i])] + diff_from(a, b, i + 1, j)
    } else if j < b.len() {
        seq![added(b[j])] + diff_from(a, b, i, j + 1)
    } else {
        Seq::empty()
    }
}

/// Number of diff lines that start with `marker`.
pub open spec fn marked(d: Seq<Seq<char>>, marker: char) -> nat
    decreases d.len(),
{
    if d.len() == 0 {
        0
    } else {
        (if d[0].len() > 0 && d[0][0] == marker {
            1nat
        } else {
            0nat
        }) + marked(d.drop_first(), marker)
    }
}

pub open spec fn strings_view(v: Seq<String>) -> Seq<Seq<char>> {
    v.map_values(|s: String| s@)
}

proof fn lemma_marked_cons(l: Seq<char>, d: Seq<Seq<char>>, marker: char)
    ensures
        marked(seq![l] + d, marker) == (if l.len() > 0 && l[0] == marker {
            1nat
        } else {
            0nat
        }) + marked(d, marker),
{
    assert((seq![l] + d).drop_first() =~= d);
    assert((seq![l] + d)[0] == l);
}

proof fn lemma_lcs_bound(a: Seq<Seq<char>>, b: Seq<Seq<char>>, i: int, j: int)
    requires
        0 <= i <= a.len(),
        0 <= j <= b.len(),
    ensures
        lcs(a, b, i, j) <= a.len() - i,
        lcs(a, b, i, j) <= b.len() - j,
    decreases a.len() - i + b.len() - j,
{
    if i < a.len() && j < b.len() {
        lemma_lcs_bound(a, b, i + 1, j + 1);
        lemma_lcs_bound(a, b, i + 1, j);
        lemma_lcs_bound(a, b, i, j + 1);
    }
}

/// The diff removes exactly the lines of `a` outside a longest common subsequence and adds
/// exactly the lines of `b` outside it: it is a shortest line edit.
pub proof fn lemma_diff_is_minimal(a: Seq<Seq<char>>, b: Seq<Seq<char>>, i: int, j: int)
    requires
        0 <= i <= a.len(),
        0 <= j <= b.len(),
    ensures
        marked(diff_from(a, b, i, j), '-') + lcs(a, b, i, j) == a.len() - i,
        marked(diff_from(a, b, i, j), '+') + lcs(a, b, i, j) == b.len() - j,
    decreases a.len() - i + b.len() - j,
{
    let d = diff_from(a, b, i, j);
    if i < a.len() && j < b.len() {
        if a[i] == b[j] {
            lemma_diff_is_minimal(a, b, i + 1, j + 1);
        } else if lcs(a, b, i + 1, j) >= lcs(a, b, i, j + 1) {
            lemma_diff_is_minimal(a, b, i + 1, j);
            lemma_marked_cons(removed(a[i]), diff_from(a, b, i + 1, j), '-');
            lemma_marked_cons(removed(a[i]), diff_from(a, b, i + 1, j), '+');
        } else {
            lemma_diff_is_minimal(a, b, i, j + 1);
            lemma_marked_cons(added(b[j]), diff_from(a, b, i, j + 1), '-');
            lemma_marked_cons(added(b[j]), diff_from(a, b, i, j + 1), '+');
        }
    } else if i < a.len() {
        lemma_diff_is_minimal(a, b, i + 1, j);
        lemma_marked_cons(removed(a[i]), diff_from(a, b, i + 1, j), '-');
        lemma_marked_cons(removed(a[i]), diff_from(a, b, i + 1, j), '+');
    } else if j < b.len() {
        lemma_diff_is_minimal(a, b, i, j + 1);
        lemma_marked_cons(added(b[j]), diff_from(a, b, i, j + 1), '-');
        lemma_marked_cons(added(b[j]), diff_from(a, b, i, j + 1), '+');
    }
}

/// `pairs` matches lines of `a` from `i` on with equal lines of `b` from `j` on, in increasing
/// order on both sides: a common subsequence of the two.
pub open spec fn common_from(a: Seq<Seq<char>>, b: Seq<Seq<char>>, i: int, j: int, pairs: Seq<(int, int)>) -> bool {
    &&& forall|k: int|
        0 <= k < pairs.len() ==> i <= (#[trigger] pairs[k]).0 < a.len() && j <= pairs[k].1 < b.len() && a[pairs[k].0]
            == b[pairs[k].1]
    &&& forall|k: int, l: int|
        0 <= k < l < pairs.len() ==> (#[trigger] pairs[k]).0 < (#[trigger] pairs[l]).0 && pairs[k].1 < pairs[l].1
}

/// No common subsequence is longer than `lcs`.
pub proof fn lemma_lcs_is_longest(a: Seq<Seq<char>>, b: Seq<Seq<char>>, i: int, j: int, pairs: Seq<(int, int)>)
    requires
        0 <= i <= a.len(),
        0 <= j <= b.len(),
        common_from(a, b, i, j, pairs),
    ensures
        pairs.len() <= lcs(a, b, i, j),
    decreases a.len() - i + b.len() - j,
{
    if pairs.len() > 0 {
        let (p, q) = pairs[0];
        assert(i <= p < a.len() && j <= q < b.len());
        let tail = pairs.drop_first();
        if a[i] == b[j] {
            assert forall|k: int| 0 <= k < tail.len() implies i + 1 <= (#[trigger] tail[k]).0 < a.len() && j + 1 <= tail[k].1
                < b.len() && a[tail[k].0] == b[tail[k].1] by {
                assert(tail[k] == pairs[k + 1]);
                assert(pairs[0].0 < pairs[k + 1].0);
            }
            assert forall|k: int, l: int| 0 <= k < l < tail.len() implies (#[trigger] tail[k]).0 < (#[trigger] tail[l]).0
                && tail[k].1 < tail[l].1 by {
                assert(tail[k] == pairs[k + 1] && tail[l] == pairs[l + 1]);
            }
            lemma_lcs_is_longest(a, b, i + 1, j + 1, tail);
        } else if p > i {
            assert forall|k: int| 0 <= k < pairs.len() implies i + 1 <= (#[trigger] pairs[k]).0 by {
                if k > 0 {
                    assert(pairs[0].0 < pairs[k].0);
                }
            }
            lemma_lcs_is_longest(a, b, i + 1, j, pairs);
        } else {
            assert(q != j);
            assert forall|k: int| 0 <= k < pairs.len() implies j + 1 <= (#[trigger] pairs[k]).1 by {
                if k > 0 {
                    assert(pairs[0].1 < pairs[k].1);
                }
            }
            lemma_lcs_is_longest(a, b, i, j + 1, pairs);
        }
    }
}

/// No line edit that keeps a common subsequence of the two texts removes or adds fewer lines
/// than the diff: the diff is a shortest edit.
pub proof fn lemma_diff_is_shortest(a: Seq<Seq<char>>, b: Seq<Seq<char>>, pairs: Seq<(int, int)>)
    requires
        common_from(a, b, 0, 0, pairs),
    ensures
        marked(diff_from(a, b, 0, 0), '-') <= a.len() - pairs.len(),
        marked(diff_from(a, b, 0, 0), '+') <= b.len() - pairs.len(),
{
    lemma_lcs_is_longest(a, b, 0, 0, pairs);
    lemma_diff_is_minimal(a, b, 0, 0);
}

/// Two texts with the same lines have an empty diff.
pub proof fn lemma_diff_of_same_lines_is_empty(a: Seq<Seq<char>>, i: int)
    requires
        0 <= i <= a.len(),
    ensures
        diff_from(a, a, i, i) == Seq::<Seq<char>>::empty(),
    decreases a.len() - i,
{
    if i < a.len() {
        lemma_diff_of_same_lines_is_empty(a, i + 1);
    }
}

/// The lines of `s`, split as `str::lines` does.
pub fn lines_of(s: &str) -> (r: Vec<Vec<char>>)
    ensures
        pieces(r@) == text_lines(s@),
{
    let chars = chars_of(s);
    let p = split_on(&chars, '\n');
    proof {
        lemma_split_nonempty(chars@, '\n');
    }
    let n = p.len();
    let mut out: Vec<Vec<char>> = Vec::new();
    let mut k: usize = 0;
    while k + 1 < n
        invariant
            n == p@.len(),
            n >= 1,
            k + 1 <= n,
            pieces(p@) == split_char(chars@, '\n'),
            pieces(out@) == Seq::new(k as nat, |t: int| strip_cr(pieces(p@)[t])),
        decreases n - k,
    {
        let line = &p[k];
        let stripped = if line.len() > 0 && line[line.len() - 1] == '\r' {
            copy_range(line, 0, line.len() - 1)
        } else {
            copy_range(line, 0, line.len())
        };
        assert(stripped@ =~= strip_cr(pieces(p@)[k as int]));
        let ghost before = pieces(out@);
        out.push(stripped);
        assert(pieces(out@) =~= before.push(stripped@));
        k = k + 1;
        assert(pieces(out@) =~= Seq::new(k as nat, |t: int| strip_cr(pieces(p@)[t])));
    }
    let last = &p[n - 1];
    assert(pieces(p@).last() == last@);
    if last.len() > 0 {
        let ghost before = pieces(out@);
        let copy = copy_range(last, 0, last.len());
        assert(copy@ =~= last@);
        out.push(copy);
        assert(pieces(out@) =~= before.push(last@));
    }
    out
}

/// The rows of the longest-common-subsequence table, last row first: `rows[n - i][j]` is
/// `lcs(a, b, i, j)`.
fn lcs_rows(a: &Vec<Vec<char>>, b: &Vec<Vec<char>>) -> (rows: Vec<Vec<usize>>)
    ensures
        rows@.len() == a@.len() + 1,
        forall|k: int|
            0 <= k <= a@.len() ==> (#[trigger] rows@[k])@.len() == b@.len() + 1,
        forall|k: int, j: int|
            0 <= k <= a@.len() && 0 <= j <= b@.len() ==> #[trigger] rows@[k]@[j] == lcs(
                pieces(a@),
                pieces(b@),
                a@.len() - k,
                j,
            ),
{
    let n = a.len();
    let m = b.len();
    let ghost pa = pieces(a@);
    let ghost pb = pieces(b@);
    let mut rows: Vec<Vec<usize>> = Vec::new();
    let mut last: Vec<usize> = Vec::new();
    last.push(0);
    let mut j: usize = 0;
    while j < m
        invariant
            m == b@.len(),
            j <= m,
            last@.len() == j + 1,
            forall|t: int| 0 <= t <= j ==> #[trigger] last@[t] == 0,
        decreases m - j,
    {
        last.push(0);
        j = j + 1;
    }
    assert forall|t: int| 0 <= t <= m implies #[trigger] last@[t] == lcs(pa, pb, n as int, t) by {
    }
    rows.push(last);
    let mut k: usize = 0;
    while k < n
        invariant
            n == a@.len(),
            m == b@.len(),
            pa == pieces(a@),
            pb == pieces(b@),
            k <= n,
            rows@.len() == k + 1,
            forall|r: int| 0 <= r <= k ==> (#[trigger] rows@[r])@.len() == m + 1,
            forall|r: int, t: int|
                0 <= r <= k && 0 <= t <= m ==> #[trigger] rows@[r]@[t] == lcs(
                    pa,
                    pb,
                    n - r,
                    t,
                ),
        decreases n - k,
    {
        let i = n - 1 - k;
        let below = &rows[k];
        let mut row: Vec<usize> = Vec::new();
        row.push(0);
        let mut t: usize = 0;
        while t < m
            invariant
                m == b@.len(),
                t <= m,
                row@.len() == t + 1,
                forall|u: int| 0 <= u <= t ==> #[trigger] row@[u] == 0,
            decreases m - t,
        {
            row.push(0);
            t = t + 1;
        }
        proof {
            lemma_lcs_bound(pa, pb, i as int, m as int);
        }
        let mut jj: usize = m;
        while jj > 0
            invariant
                n == a@.len(),
                m == b@.len(),
                pa == pieces(a@),
                pb == pieces(b@),
                i < n,
                jj <= m,
                row@.len() == m + 1,
                below@.len() == m + 1,
                forall|t: int| 0 <= t <= m ==> #[trigger] below@[t] == lcs(pa, pb, i + 1, t),
                forall|t: int| jj <= t <= m ==> #[trigger] row@[t] == lcs(pa, pb, i as int, t),
            decreases jj,
        {
            let j = jj - 1;
            proof {
                lemma_lcs_bound(pa, pb, i + 1, j + 1);
                lemma_lcs_bound(pa, pb, i + 1, j as int);
                lemma_lcs_bound(pa, pb, i as int, j + 1);
                assert(pa[i as int] == a@[i as int]@);
                assert(pb[j as int] == b@[j as int]@);
            }
            let v = if same_chars(&a[i], &b[j]) {
                below[j + 1] + 1
            } else if below[j] >= row[j + 1] {
                below[j]
            } else {
                row[j + 1]
            };
            row.set(j, v);
            jj = j;
        }
        rows.push(row);
        k = k + 1;
    }
    rows
}

/// The `-`/`+` lines that turn the lines of `a` into the lines of `b`, computed through a
/// longest common subsequence; lines both keep are not listed.
pub fn text_diff(a: &str, b: &str) -> (r: Vec<String>)
    ensures
        strings_view(r@) == diff_from(text_lines(a@), text_lines(b@), 0, 0),
{
    let al = lines_of(a);
    let bl = lines_of(b);
    let ghost pa = pieces(al@);
    let ghost pb = pieces(bl@);
    let rows = lcs_rows(&al, &bl);
    let n = al.len();
    let m = bl.len();
    let mut out: Vec<String> = Vec::new();
    let mut i: usize = 0;
    let mut j: usize = 0;
    while i < n || j < m
        invariant
            n == al@.len(),
            m == bl@.len(),
            pa == pieces(al@),
            pb == pieces(bl@),
            i <= n,
            j <= m,
            rows@.len() == n + 1,
            forall|k: int| 0 <= k <= n ==> (#[trigger] rows@[k])@.len() == m + 1,
            forall|k: int, t: int|
                0 <= k <= n && 0 <= t <= m ==> #[trigger] rows@[k]@[t] == lcs(pa, pb, n - k, t),
            strings_view(out@) + diff_from(pa, pb, i as int, j as int) == diff_from(pa, pb, 0, 0),
        decreases n - i + m - j,
    {
        let ghost before = strings_view(out@);
        if i < n && j < m {
            assert(pa[i as int] == al@[i as int]@);
            assert(pb[j as int] == bl@[j as int]@);
            if same_chars(&al[i], &bl[j]) {
                i = i + 1;
                j = j + 1;
            } else if rows[n - (i + 1)][j] >= rows[n - i][j + 1] {
                let mut line: Vec<char> = Vec::new();
                line.push('-');
                crate::text::push_chars(&mut line, &al[i]);
                out.push(string_from_chars(line.as_slice()));
                assert(strings_view(out@) =~= before.push(removed(pa[i as int])));
                assert(seq![removed(pa[i as int])] + diff_from(pa, pb, i + 1, j as int)
                    == diff_from(pa, pb, i as int, j as int));
                assert(before.push(removed(pa[i as int])) + diff_from(pa, pb, i + 1, j as int)
                    =~= before + (seq![removed(pa[i as int])] + diff_from(pa, pb, i + 1, j as int)));
                i = i + 1;
            } else {
                let mut line: Vec<char> = Vec::new();
                line.push('+');
                crate::text::push_chars(&mut line, &bl[j]);
                out.push(string_from_chars(line.as_slice()));
                assert(strings_view(out@) =~= before.push(added(pb[j as int])));
                assert(before.push(added(pb[j as int])) + diff_from(pa, pb, i as int, j + 1)
                    =~= before + (seq![added(pb[j as int])] + diff_from(pa, pb, i as int, j + 1)));
                j = j + 1;
            }
        } else if i < n {
            assert(pa[i as int] == al@[i as int]@);
            let mut line: Vec<char> = Vec::new();
            line.push('-');
            crate::text::push_chars(&mut line, &al[i]);
            out.push(string_from_chars(line.as_slice()));
            assert(strings_view(out@) =~= before.push(removed(pa[i as int])));
            assert(before.push(removed(pa[i as int])) + diff_from(pa, pb, i + 1, j as int)
                =~= before + (seq![removed(pa[i as int])] + diff_from(pa, pb, i + 1, j as int)));
            i = i + 1;
        } else {
            assert(pb[j as int] == bl@[j as int]@);
            let mut line: Vec<char> = Vec::new();
            line.push('+');
            crate::text::push_chars(&mut line, &bl[j]);
            out.push(string_from_chars(line.as_slice()));
            assert(strings_view(out@) =~= before.push(added(pb[j as int])));
            assert(before.push(added(pb[j as int])) + diff_from(pa, pb, i as int, j + 1)
                =~= before + (seq![added(pb[j as int])] + diff_from(pa, pb, i as int, j + 1)));
            j = j + 1;
        }
    }
    assert(diff_from(pa, pb, i as int, j as int) =~= Seq::<Seq<char>>::empty());
    assert(strings_view(out@) =~= strings_view(out@) + diff_from(pa, pb, i as int, j as int));
    out
}

} // verus!
