//! `diff`: a line diff of two files through their longest common
//! subsequence, in the normal `diff` output format.
use crate::argparse::{parse_args, parse_args_spec, str_views, CommandMeta};
use crate::commands::{failure, ov, positional_chars, read_text, read_text_exec, CmdOutput, OutView, output};
use crate::fs::{Fs, FsView};
use crate::text::{chars_eq, clone_chars, dec, lines, lines_of, lit, push_all, push_str, u64_to_text, views};
use vstd::prelude::*;

verus! {

// ══════════════════════════════════════════════════════════════════
// Longest common subsequence
// ══════════════════════════════════════════════════════════════════

/// The length of a longest common subsequence of the first `i` lines of
/// `a` and the first `j` lines of `b`.
pub open spec fn lcs_len(a: Seq<Seq<char>>, b: Seq<Seq<char>>, i: int, j: int) -> nat
    decreases i + j,
{
    if i <= 0 || j <= 0 {
        0
    } else if a[i - 1] == b[j - 1] {
        lcs_len(a, b, i - 1, j - 1) + 1
    } else {
        let x = lcs_len(a, b, i - 1, j);
        let y = lcs_len(a, b, i, j - 1);
        if x >= y {
            x
        } else {
            y
        }
    }
}

/// The common subsequence that walking back through the table gives: equal
/// lines are taken; otherwise the walk goes up when that keeps more, else
/// left.
pub open spec fn lcs_back(a: Seq<Seq<char>>, b: Seq<Seq<char>>, i: int, j: int) -> Seq<Seq<char>>
    decreases i + j,
{
    if i <= 0 || j <= 0 {
        seq![]
    } else if a[i - 1] == b[j - 1] {
        lcs_back(a, b, i - 1, j - 1).push(a[i - 1])
    } else if lcs_len(a, b, i - 1, j) > lcs_len(a, b, i, j - 1) {
        lcs_back(a, b, i - 1, j)
    } else {
        lcs_back(a, b, i, j - 1)
    }
}

pub open spec fn lcs(a: Seq<Seq<char>>, b: Seq<Seq<char>>) -> Seq<Seq<char>> {
    lcs_back(a, b, a.len() as int, b.len() as int)
}

/// `x` is a subsequence of `a`: its items occur in `a` in the same order.
pub open spec fn is_subseq(x: Seq<Seq<char>>, a: Seq<Seq<char>>) -> bool
    decreases a.len(),
{
    if x.len() == 0 {
        true
    } else if a.len() == 0 {
        false
    } else {
        (x.last() == a.last() && is_subseq(x.drop_last(), a.drop_last())) || is_subseq(x, a.drop_last())
    }
}

proof fn lemma_lcs_back(a: Seq<Seq<char>>, b: Seq<Seq<char>>, i: int, j: int)
    requires
        0 <= i <= a.len(),
        0 <= j <= b.len(),
    ensures
        is_subseq(lcs_back(a, b, i, j), a.take(i)),
        is_subseq(lcs_back(a, b, i, j), b.take(j)),
        lcs_back(a, b, i, j).len() == lcs_len(a, b, i, j),
    decreases i + j,
{
    let x = lcs_back(a, b, i, j);
    if i > 0 && j > 0 {
        assert(a.take(i).drop_last() =~= a.take(i - 1));
        assert(b.take(j).drop_last() =~= b.take(j - 1));
        assert(a.take(i).last() == a[i - 1]);
        assert(b.take(j).last() == b[j - 1]);
        if a[i - 1] == b[j - 1] {
            lemma_lcs_back(a, b, i - 1, j - 1);
            let y = lcs_back(a, b, i - 1, j - 1);
            assert(x.drop_last() =~= y);
        } else if lcs_len(a, b, i - 1, j) > lcs_len(a, b, i, j - 1) {
            lemma_lcs_back(a, b, i - 1, j);
        } else {
            lemma_lcs_back(a, b, i, j - 1);
        }
    } else {
        assert(x.len() == 0);
    }
}

/// What `diff` keeps: the common part it walks along is a subsequence of
/// both files, as long as the table says a common subsequence can be.
pub proof fn law_lcs_common(a: Seq<Seq<char>>, b: Seq<Seq<char>>)
    ensures
        is_subseq(lcs(a, b), a),
        is_subseq(lcs(a, b), b),
        lcs(a, b).len() == lcs_len(a, b, a.len() as int, b.len() as int),
{
    lemma_lcs_back(a, b, a.len() as int, b.len() as int);
    assert(a.take(a.len() as int) =~= a);
    assert(b.take(b.len() as int) =~= b);
}

proof fn lemma_subseq_drop_last(x: Seq<Seq<char>>, a: Seq<Seq<char>>)
    requires
        x.len() > 0,
        is_subseq(x, a),
    ensures
        is_subseq(x.drop_last(), a),
    decreases a.len(),
{
    let y = x.drop_last();
    if a.len() > 0 && y.len() > 0 {
        if is_subseq(x, a.drop_last()) {
            lemma_subseq_drop_last(x, a.drop_last());
        }
    }
}

proof fn lemma_lcs_longest(a: Seq<Seq<char>>, b: Seq<Seq<char>>, i: int, j: int, z: Seq<Seq<char>>)
    requires
        0 <= i <= a.len(),
        0 <= j <= b.len(),
        is_subseq(z, a.take(i)),
        is_subseq(z, b.take(j)),
    ensures
        z.len() <= lcs_len(a, b, i, j),
    decreases i + j,
{
    if z.len() > 0 {
        assert(i > 0 && j > 0);
        assert(a.take(i).drop_last() =~= a.take(i - 1));
        assert(b.take(j).drop_last() =~= b.take(j - 1));
        assert(a.take(i).last() == a[i - 1]);
        assert(b.take(j).last() == b[j - 1]);
        if a[i - 1] == b[j - 1] {
            let y = z.drop_last();
            if !(z.last() == a[i - 1] && is_subseq(y, a.take(i - 1))) {
                lemma_subseq_drop_last(z, a.take(i - 1));
            }
            if !(z.last() == b[j - 1] && is_subseq(y, b.take(j - 1))) {
                lemma_subseq_drop_last(z, b.take(j - 1));
            }
            lemma_lcs_longest(a, b, i - 1, j - 1, y);
        } else if z.last() != a[i - 1] {
            lemma_lcs_longest(a, b, i - 1, j, z);
        } else {
            lemma_lcs_longest(a, b, i, j - 1, z);
        }
    }
}

/// The common part `diff` walks along is a longest one: no common
/// subsequence of the two files is longer.
pub proof fn law_lcs_longest(a: Seq<Seq<char>>, b: Seq<Seq<char>>, z: Seq<Seq<char>>)
    requires
        is_subseq(z, a),
        is_subseq(z, b),
    ensures
        z.len() <= lcs(a, b).len(),
{
    assert(a.take(a.len() as int) =~= a);
    assert(b.take(b.len() as int) =~= b);
    lemma_lcs_longest(a, b, a.len() as int, b.len() as int, z);
    lemma_lcs_back(a, b, a.len() as int, b.len() as int);
}

proof fn lemma_lcs_len_bound(a: Seq<Seq<char>>, b: Seq<Seq<char>>, i: int, j: int)
    requires
        0 <= i,
        0 <= j,
    ensures
        lcs_len(a, b, i, j) <= i,
    decreases i + j,
{
    if i > 0 && j > 0 {
        if a[i - 1] == b[j - 1] {
            lemma_lcs_len_bound(a, b, i - 1, j - 1);
        } else {
            lemma_lcs_len_bound(a, b, i - 1, j);
            lemma_lcs_len_bound(a, b, i, j - 1);
        }
    }
}

fn lines_equal(a: &Vec<Vec<char>>, b: &Vec<Vec<char>>) -> (r: bool)
    ensures
        r == (views(a@) == views(b@)),
{
    if a.len() != b.len() {
        assert(views(a@).len() != views(b@).len());
        return false;
    }
    let mut i: usize = 0;
    while i < a.len()
        invariant
            a@.len() == b@.len(),
            i <= a@.len(),
            forall|k: int| 0 <= k < i ==> a@[k]@ == b@[k]@,
        decreases a@.len() - i,
    {
        if !chars_eq(a[i].as_slice(), b[i].as_slice()) {
            assert(views(a@)[i as int] != views(b@)[i as int]);
            return false;
        }
        i = i + 1;
    }
    assert(views(a@) =~= views(b@));
    true
}

/// The table of `lcs_len`, row by row.
fn lcs_table(a: &Vec<Vec<char>>, b: &Vec<Vec<char>>) -> (t: Vec<Vec<usize>>)
    requires
        a@.len() <= diff_cap(),
        b@.len() <= diff_cap(),
    ensures
        t@.len() == a@.len() + 1,
        forall|r: int| 0 <= r <= a@.len() ==> (#[trigger] t@[r])@.len() == b@.len() + 1,
        forall|r: int, c: int|
            0 <= r <= a@.len() && 0 <= c <= b@.len() ==> (#[trigger] t@[r]@[c]) == lcs_len(
                views(a@),
                views(b@),
                r,
                c,
            ),
{
    let ghost av = views(a@);
    let ghost bv = views(b@);
    let mut table: Vec<Vec<usize>> = Vec::new();
    let mut row0: Vec<usize> = Vec::new();
    let mut c: usize = 0;
    while c <= b.len()
        invariant
            b@.len() <= diff_cap(),
            c <= b@.len() + 1,
            row0@.len() == c,
            forall|x: int| 0 <= x < c ==> row0@[x] == 0,
        decreases b@.len() + 1 - c,
    {
        row0.push(0);
        c = c + 1;
    }
    table.push(row0);
    let mut i: usize = 0;
    while i < a.len()
        invariant
            i <= a@.len(),
            a@.len() <= diff_cap(),
            b@.len() <= diff_cap(),
            av == views(a@),
            bv == views(b@),
            table@.len() == i + 1,
            forall|r: int| 0 <= r <= i ==> (#[trigger] table@[r])@.len() == b@.len() + 1,
            forall|r: int, c: int|
                0 <= r <= i && 0 <= c <= b@.len() ==> (#[trigger] table@[r]@[c]) == lcs_len(av, bv, r, c),
        decreases a@.len() - i,
    {
        let prev = &table[i];
        let mut cur: Vec<usize> = Vec::new();
        cur.push(0);
        let mut j: usize = 0;
        while j < b.len()
            invariant
                i < a@.len(),
                a@.len() <= diff_cap(),
                j <= b@.len(),
                av == views(a@),
                bv == views(b@),
                prev@.len() == b@.len() + 1,
                forall|c: int| 0 <= c <= b@.len() ==> (#[trigger] prev@[c]) == lcs_len(av, bv, i as int, c),
                cur@.len() == j + 1,
                forall|c: int| 0 <= c <= j ==> (#[trigger] cur@[c]) == lcs_len(av, bv, i + 1, c),
            decreases b@.len() - j,
        {
            assert(av[i as int] == a@[i as int]@ && bv[j as int] == b@[j as int]@);
            let v = if chars_eq(a[i].as_slice(), b[j].as_slice()) {
                proof {
                    lemma_lcs_len_bound(av, bv, i as int, j as int);
                }
                prev[j] + 1
            } else {
                let x = prev[j + 1];
                let y = cur[j];
                if x >= y {
                    x
                } else {
                    y
                }
            };
            cur.push(v);
            j = j + 1;
        }
        table.push(cur);
        i = i + 1;
    }
    table
}

fn lcs_exec(a: &Vec<Vec<char>>, b: &Vec<Vec<char>>) -> (r: Vec<Vec<char>>)
    requires
        a@.len() <= diff_cap(),
        b@.len() <= diff_cap(),
    ensures
        views(r@) == lcs(views(a@), views(b@)),
{
    let ghost av = views(a@);
    let ghost bv = views(b@);
    let table = lcs_table(a, b);
    let mut res: Vec<Vec<char>> = Vec::new();
    let ghost mut acc: Seq<Seq<char>> = seq![];
    let mut i = a.len();
    let mut j = b.len();
    while i > 0 && j > 0
        invariant
            i <= a@.len(),
            j <= b@.len(),
            av == views(a@),
            bv == views(b@),
            table@.len() == a@.len() + 1,
            forall|r: int| 0 <= r <= a@.len() ==> (#[trigger] table@[r])@.len() == b@.len() + 1,
            forall|r: int, c: int|
                0 <= r <= a@.len() && 0 <= c <= b@.len() ==> (#[trigger] table@[r]@[c]) == lcs_len(av, bv, r, c),
            lcs(av, bv) == lcs_back(av, bv, i as int, j as int) + acc,
            views(res@) == acc.reverse(),
        decreases i + j,
    {
        assert(av[i - 1] == a@[i - 1]@ && bv[j - 1] == b@[j - 1]@);
        if chars_eq(a[i - 1].as_slice(), b[j - 1].as_slice()) {
            let ghost before = views(res@);
            res.push(clone_chars(a[i - 1].as_slice()));
            proof {
                let x = av[i - 1];
                assert(lcs_back(av, bv, i as int, j as int) == lcs_back(av, bv, i - 1, j - 1).push(x));
                assert(lcs_back(av, bv, i - 1, j - 1).push(x) + acc =~= lcs_back(av, bv, i - 1, j - 1)
                    + (seq![x] + acc));
                assert(views(res@) =~= before.push(x));
                assert((seq![x] + acc).reverse() =~= acc.reverse().push(x));
                acc = seq![x] + acc;
            }
            i = i - 1;
            j = j - 1;
        } else if table[i - 1][j] > table[i][j - 1] {
            i = i - 1;
        } else {
            j = j - 1;
        }
    }
    assert(lcs_back(av, bv, i as int, j as int) =~= seq![]);
    assert(lcs(av, bv) =~= acc);
    let mut out: Vec<Vec<char>> = Vec::new();
    let mut k = res.len();
    while k > 0
        invariant
            k <= res@.len(),
            views(out@) =~= views(res@).skip(k as int).reverse(),
        decreases k,
    {
        k = k - 1;
        let ghost before = views(out@);
        out.push(clone_chars(res[k].as_slice()));
        assert(views(out@) =~= before.push(res@[k as int]@));
    }
    assert(views(res@).skip(0) =~= views(res@));
    assert(acc.reverse().reverse() =~= acc);
    out
}

// ══════════════════════════════════════════════════════════════════
// Hunks
// ══════════════════════════════════════════════════════════════════

/// The end of the run of lines from `i` that are not the next common line.
pub open spec fn run_end(s: Seq<Seq<char>>, i: int, l: Seq<Seq<char>>, k: int) -> int
    decreases s.len() - i,
{
    if 0 <= i < s.len() && (k >= l.len() || s[i] != l[k]) {
        run_end(s, i + 1, l, k)
    } else {
        i
    }
}

pub proof fn lemma_run_end(s: Seq<Seq<char>>, i: int, l: Seq<Seq<char>>, k: int)
    requires
        0 <= i <= s.len(),
    ensures
        i <= run_end(s, i, l, k) <= s.len(),
    decreases s.len() - i,
{
    if i < s.len() && (k >= l.len() || s[i] != l[k]) {
        lemma_run_end(s, i + 1, l, k);
    }
}

/// A line number, or a range of them (`from,to`).
pub open spec fn range_text(from: nat, to: nat) -> Seq<char> {
    if from == to {
        dec(from)
    } else {
        dec(from) + ","@ + dec(to)
    }
}

/// The lines `from..to` of `s`, each after a marker and ending in a newline.
pub open spec fn marked(mark: Seq<char>, s: Seq<Seq<char>>, from: int, to: int) -> Seq<char>
    decreases to - from,
{
    if from >= to {
        seq![]
    } else {
        marked(mark, s, from, to - 1) + mark + s[to - 1] + "\n"@
    }
}

/// A hunk: lines `i0..i1` of `a` removed and lines `j0..j1` of `b` added,
/// as a change (`c`), a deletion (`d`) or an addition (`a`).
pub open spec fn hunk(a: Seq<Seq<char>>, b: Seq<Seq<char>>, i0: int, i1: int, j0: int, j1: int) -> Seq<char> {
    if i1 > i0 && j1 > j0 {
        range_text((i0 + 1) as nat, i1 as nat) + "c"@ + range_text((j0 + 1) as nat, j1 as nat) + "\n"@
            + marked("< "@, a, i0, i1) + "---\n"@ + marked("> "@, b, j0, j1)
    } else if i1 > i0 {
        range_text((i0 + 1) as nat, i1 as nat) + "d"@ + dec(j1 as nat) + "\n"@ + marked("< "@, a, i0, i1)
    } else if j1 > j0 {
        dec(i1 as nat) + "a"@ + range_text((j0 + 1) as nat, j1 as nat) + "\n"@ + marked("> "@, b, j0, j1)
    } else {
        seq![]
    }
}

/// The walk over both files along the common lines `l`, from lines `i`,
/// `j` and common line `k`: common lines are passed, the lines between
/// make hunks.
pub open spec fn diff_walk(a: Seq<Seq<char>>, b: Seq<Seq<char>>, l: Seq<Seq<char>>, i: int, j: int, k: int) -> Seq<
    char,
>
    decreases a.len() - i + b.len() - j,
{
    if !(0 <= i <= a.len() && 0 <= j <= b.len()) || (i >= a.len() && j >= b.len()) {
        seq![]
    } else if 0 <= k < l.len() && i < a.len() && j < b.len() && a[i] == l[k] && b[j] == l[k] {
        diff_walk(a, b, l, i + 1, j + 1, k + 1)
    } else {
        let i1 = run_end(a, i, l, k);
        let j1 = run_end(b, j, l, k);
        proof {
            lemma_run_end(a, i, l, k);
            lemma_run_end(b, j, l, k);
        }
        if i1 == i && j1 == j {
            seq![]
        } else {
            hunk(a, b, i, i1, j, j1) + diff_walk(a, b, l, i1, j1, k)
        }
    }
}

/// The most lines a file may have for `diff`.
pub open spec fn diff_cap() -> nat {
    100_000
}

/// A walk that prints nothing, from positions with no more common lines
/// left than lines left in either file, finds the rest of both files equal.
proof fn lemma_walk_silent(a: Seq<Seq<char>>, b: Seq<Seq<char>>, l: Seq<Seq<char>>, i: int, j: int, k: int)
    requires
        0 <= i <= a.len(),
        0 <= j <= b.len(),
        0 <= k <= l.len(),
        l.len() - k <= a.len() - i,
        l.len() - k <= b.len() - j,
        diff_walk(a, b, l, i, j, k).len() == 0,
    ensures
        a.skip(i) == b.skip(j),
    decreases a.len() - i + b.len() - j,
{
    if i >= a.len() && j >= b.len() {
        assert(a.skip(i) =~= b.skip(j));
    } else if 0 <= k < l.len() && i < a.len() && j < b.len() && a[i] == l[k] && b[j] == l[k] {
        lemma_walk_silent(a, b, l, i + 1, j + 1, k + 1);
        assert(a.skip(i) =~= seq![a[i]] + a.skip(i + 1));
        assert(b.skip(j) =~= seq![b[j]] + b.skip(j + 1));
    } else {
        let i1 = run_end(a, i, l, k);
        let j1 = run_end(b, j, l, k);
        lemma_run_end(a, i, l, k);
        lemma_run_end(b, j, l, k);
        if i1 == i && j1 == j {
            // Neither file can go on without a common line, so both are
            // at a common line or at their end; the count rules that out.
            if i < a.len() {
                lemma_run_end(a, i + 1, l, k);
                assert(k < l.len() && a[i] == l[k]);
            }
            if j < b.len() {
                lemma_run_end(b, j + 1, l, k);
                assert(k < l.len() && b[j] == l[k]);
            }
            assert(false);
        } else {
            reveal_strlit("c");
            reveal_strlit("d");
            reveal_strlit("a");
            let h = hunk(a, b, i, i1, j, j1);
            assert(h.len() > 0);
            assert((h + diff_walk(a, b, l, i1, j1, k)).len() > 0);
        }
    }
}

/// `diff` prints nothing exactly when the two files have the same lines
/// (when both can be read and neither is too long).
pub proof fn law_diff_silent_iff_same(meta: CommandMeta, args: Seq<Seq<char>>, fs: FsView, cwd: Seq<char>)
    requires
        parse_args_spec(meta, args).positional.len() >= 2,
        read_text(fs, parse_args_spec(meta, args).positional[0], cwd) is Some,
        read_text(fs, parse_args_spec(meta, args).positional[1], cwd) is Some,
        lines_of(read_text(fs, parse_args_spec(meta, args).positional[0], cwd).unwrap()).len() <= diff_cap(),
        lines_of(read_text(fs, parse_args_spec(meta, args).positional[1], cwd).unwrap()).len() <= diff_cap(),
    ensures
        (diff_spec(meta, args, fs, cwd).out.len() == 0) == (lines_of(
            read_text(fs, parse_args_spec(meta, args).positional[0], cwd).unwrap(),
        ) == lines_of(read_text(fs, parse_args_spec(meta, args).positional[1], cwd).unwrap())),
{
    let pa = parse_args_spec(meta, args);
    let a = lines_of(read_text(fs, pa.positional[0], cwd).unwrap());
    let b = lines_of(read_text(fs, pa.positional[1], cwd).unwrap());
    if a != b && diff_walk(a, b, lcs(a, b), 0, 0, 0).len() == 0 {
        law_lcs_common(a, b);
        lemma_lcs_len_bound(a, b, a.len() as int, b.len() as int);
        lemma_lcs_len_sym_bound(a, b, a.len() as int, b.len() as int);
        lemma_walk_silent(a, b, lcs(a, b), 0, 0, 0);
        assert(a.skip(0) =~= a);
        assert(b.skip(0) =~= b);
    }
}

proof fn lemma_lcs_len_sym_bound(a: Seq<Seq<char>>, b: Seq<Seq<char>>, i: int, j: int)
    requires
        0 <= i,
        0 <= j,
    ensures
        lcs_len(a, b, i, j) <= j,
    decreases i + j,
{
    if i > 0 && j > 0 {
        if a[i - 1] == b[j - 1] {
            lemma_lcs_len_sym_bound(a, b, i - 1, j - 1);
        } else {
            lemma_lcs_len_sym_bound(a, b, i - 1, j);
            lemma_lcs_len_sym_bound(a, b, i, j - 1);
        }
    }
}

/// `diff FILE1 FILE2`: nothing and 0 when the files have the same lines,
/// else the hunks and 1; 2 for a missing operand or file or too many lines.
pub open spec fn diff_spec(meta: CommandMeta, args: Seq<Seq<char>>, fs: FsView, cwd: Seq<char>) -> OutView {
    let pa = parse_args_spec(meta, args);
    if pa.positional.len() < 2 {
        ov(seq![], "diff: missing operand\n"@, 2)
    } else {
        let fa = pa.positional[0];
        let fb = pa.positional[1];
        match read_text(fs, fa, cwd) {
            None => ov(seq![], "diff: "@ + fa + ": No such file or directory\n"@, 2),
            Some(ta) => match read_text(fs, fb, cwd) {
                None => ov(seq![], "diff: "@ + fb + ": No such file or directory\n"@, 2),
                Some(tb) => {
                    let a = lines_of(ta);
                    let b = lines_of(tb);
                    if a.len() > diff_cap() || b.len() > diff_cap() {
                        ov(seq![], "diff: input too large\n"@, 2)
                    } else if a == b {
                        ov(seq![], seq![], 0)
                    } else {
                        ov(diff_walk(a, b, lcs(a, b), 0, 0, 0), seq![], 1)
                    }
                },
            },
        }
    }
}

fn run_end_exec(s: &Vec<Vec<char>>, i: usize, l: &Vec<Vec<char>>, k: usize) -> (r: usize)
    requires
        i <= s@.len(),
    ensures
        r as int == run_end(views(s@), i as int, views(l@), k as int),
{
    let ghost sv = views(s@);
    let ghost lv = views(l@);
    let mut x = i;
    while x < s.len() && (k >= l.len() || !chars_eq(s[x].as_slice(), l[k].as_slice()))
        invariant
            i <= x <= s@.len(),
            sv == views(s@),
            lv == views(l@),
            run_end(sv, i as int, lv, k as int) == run_end(sv, x as int, lv, k as int),
        decreases s@.len() - x,
    {
        assert(k < l@.len() ==> sv[x as int] == s@[x as int]@ && lv[k as int] == l@[k as int]@);
        x = x + 1;
    }
    assert(x < s@.len() ==> sv[x as int] == s@[x as int]@ && lv[k as int] == l@[k as int]@);
    x
}

fn push_num(out: &mut Vec<char>, n: usize)
    ensures
        final(out)@ == old(out)@ + dec(n as nat),
{
    let t = u64_to_text(n as u64);
    push_all(out, t.as_slice());
}

fn push_range(out: &mut Vec<char>, from: usize, to: usize)
    ensures
        final(out)@ == old(out)@ + range_text(from as nat, to as nat),
{
    let ghost o = out@;
    push_num(out, from);
    if from != to {
        push_str(out, ",");
        push_num(out, to);
    }
    assert(out@ =~= o + range_text(from as nat, to as nat));
}

fn push_marked(out: &mut Vec<char>, mark: &str, s: &Vec<Vec<char>>, from: usize, to: usize)
    requires
        from <= to <= s@.len(),
    ensures
        final(out)@ == old(out)@ + marked(mark@, views(s@), from as int, to as int),
{
    let ghost o = out@;
    let mut x = from;
    assert(marked(mark@, views(s@), from as int, from as int) =~= seq![]);
    while x < to
        invariant
            from <= x <= to <= s@.len(),
            out@ == o + marked(mark@, views(s@), from as int, x as int),
        decreases to - x,
    {
        push_str(out, mark);
        push_all(out, s[x].as_slice());
        push_str(out, "\n");
        assert(views(s@)[x as int] == s@[x as int]@);
        x = x + 1;
    }
}

fn push_hunk(out: &mut Vec<char>, a: &Vec<Vec<char>>, b: &Vec<Vec<char>>, i0: usize, i1: usize, j0: usize, j1: usize)
    requires
        i0 <= i1 <= a@.len(),
        j0 <= j1 <= b@.len(),
    ensures
        final(out)@ == old(out)@ + hunk(views(a@), views(b@), i0 as int, i1 as int, j0 as int, j1 as int),
{
    let ghost o = out@;
    if i1 > i0 && j1 > j0 {
        push_range(out, i0 + 1, i1);
        push_str(out, "c");
        push_range(out, j0 + 1, j1);
        push_str(out, "\n");
        push_marked(out, "< ", a, i0, i1);
        push_str(out, "---\n");
        push_marked(out, "> ", b, j0, j1);
    } else if i1 > i0 {
        push_range(out, i0 + 1, i1);
        push_str(out, "d");
        push_num(out, j1);
        push_str(out, "\n");
        push_marked(out, "< ", a, i0, i1);
    } else if j1 > j0 {
        push_num(out, i1);
        push_str(out, "a");
        push_range(out, j0 + 1, j1);
        push_str(out, "\n");
        push_marked(out, "> ", b, j0, j1);
    }
    assert(out@ =~= o + hunk(views(a@), views(b@), i0 as int, i1 as int, j0 as int, j1 as int));
}

fn diff_lines(a: &Vec<Vec<char>>, b: &Vec<Vec<char>>) -> (r: Vec<char>)
    requires
        a@.len() <= diff_cap(),
        b@.len() <= diff_cap(),
    ensures
        r@ == diff_walk(views(a@), views(b@), lcs(views(a@), views(b@)), 0, 0, 0),
{
    let ghost av = views(a@);
    let ghost bv = views(b@);
    let l = lcs_exec(a, b);
    let ghost lv = views(l@);
    let mut out: Vec<char> = Vec::new();
    let mut i: usize = 0;
    let mut j: usize = 0;
    let mut k: usize = 0;
    let mut stuck = false;
    while (i < a.len() || j < b.len()) && !stuck
        invariant
            i <= a@.len(),
            j <= b@.len(),
            k <= i,
            av == views(a@),
            bv == views(b@),
            lv == views(l@),
            lv == lcs(av, bv),
            !stuck ==> out@ + diff_walk(av, bv, lv, i as int, j as int, k as int) == diff_walk(av, bv, lv, 0, 0, 0),
            stuck ==> out@ == diff_walk(av, bv, lv, 0, 0, 0),
        decreases a@.len() - i + b@.len() - j + (if stuck { 0int } else { 1int }),
    {
        if k < l.len() && i < a.len() && j < b.len() && chars_eq(a[i].as_slice(), l[k].as_slice())
            && chars_eq(b[j].as_slice(), l[k].as_slice()) {
            assert(av[i as int] == a@[i as int]@ && bv[j as int] == b@[j as int]@ && lv[k as int] == l@[k as int]@);
            i = i + 1;
            j = j + 1;
            k = k + 1;
        } else {
            proof {
                if k < l@.len() && i < a@.len() && j < b@.len() {
                    assert(av[i as int] == a@[i as int]@ && bv[j as int] == b@[j as int]@ && lv[k as int] == l@[k as int]@);
                }
                lemma_run_end(av, i as int, lv, k as int);
                lemma_run_end(bv, j as int, lv, k as int);
            }
            let i1 = run_end_exec(a, i, &l, k);
            let j1 = run_end_exec(b, j, &l, k);
            if i1 == i && j1 == j {
                assert(out@ + seq![] =~= out@);
                stuck = true;
            } else {
                let ghost before = out@;
                push_hunk(&mut out, a, b, i, i1, j, j1);
                assert(out@ + diff_walk(av, bv, lv, i1 as int, j1 as int, k as int) =~= before + (hunk(
                    av,
                    bv,
                    i as int,
                    i1 as int,
                    j as int,
                    j1 as int,
                ) + diff_walk(av, bv, lv, i1 as int, j1 as int, k as int)));
                i = i1;
                j = j1;
            }
        }
    }
    if !stuck {
        assert(diff_walk(av, bv, lv, i as int, j as int, k as int) =~= seq![]);
        assert(out@ + seq![] =~= out@);
    }
    out
}

pub fn cmd_diff(meta: &CommandMeta, args: &[String], fs: &Fs, cwd: &[char]) -> (r: CmdOutput)
    ensures
        r.view() == diff_spec(*meta, str_views(args@), fs.view(), cwd@),
{
    let pa = parse_args(meta, args);
    let pos = positional_chars(&pa);
    if pos.len() < 2 {
        return failure(lit("diff: missing operand\n"), 2);
    }
    assert(views(pos@)[0] == pos@[0]@ && views(pos@)[1] == pos@[1]@);
    let ta = match read_text_exec(fs, pos[0].as_slice(), cwd) {
        Some(t) => t,
        None => {
            let mut e = lit("diff: ");
            push_all(&mut e, pos[0].as_slice());
            push_str(&mut e, ": No such file or directory\n");
            return failure(e, 2);
        },
    };
    let tb = match read_text_exec(fs, pos[1].as_slice(), cwd) {
        Some(t) => t,
        None => {
            let mut e = lit("diff: ");
            push_all(&mut e, pos[1].as_slice());
            push_str(&mut e, ": No such file or directory\n");
            return failure(e, 2);
        },
    };
    let a = lines(ta.as_slice());
    let b = lines(tb.as_slice());
    if a.len() > 100_000 || b.len() > 100_000 {
        return failure(lit("diff: input too large\n"), 2);
    }
    if lines_equal(&a, &b) {
        return output(Vec::new(), Vec::new(), 0);
    }
    let out = diff_lines(&a, &b);
    output(out, Vec::new(), 1)
}

} // verus!
