//! `sort`: by text, or by the numbers the lines hold (`-n`), reversed
//! (`-r`), with repeated lines kept once (`-u`).
use crate::argparse::{parse_args, parse_args_spec, str_views, CommandMeta};
use crate::commands::{
    failure, flag_on, flag_on_exec, ov, positional_chars, success, CmdOutput, OutView,
};
use crate::fs::{Fs, FsView};
use crate::text::{
    all_digits, clone_chars, dedup, dedup_exec, is_digit, less_than, lex_lt, lines, lines_of,
    reverse_exec, sort_lines, sort_spec, split_chars, split_on, split_state, subvec, trim, trim_spec,
    views,
};
use crate::textcmds::{file_text, file_text_exec, lines_out};
use vstd::prelude::*;

verus! {

// ══════════════════════════════════════════════════════════════════
// Numbers in lines
// ══════════════════════════════════════════════════════════════════

/// Digits without their leading zeros.
pub open spec fn strip_lead_zeros(s: Seq<char>) -> Seq<char>
    decreases s.len(),
{
    if s.len() > 0 && s[0] == '0' {
        strip_lead_zeros(s.drop_first())
    } else {
        s
    }
}

/// Digits without their trailing zeros.
pub open spec fn strip_trail_zeros(s: Seq<char>) -> Seq<char>
    decreases s.len(),
{
    if s.len() > 0 && s.last() == '0' {
        strip_trail_zeros(s.drop_last())
    } else {
        s
    }
}

/// The number a line holds, as its sign, its integer digits (no leading
/// zeros) and its fraction digits (no trailing zeros): an optional sign,
/// digits, and at most one `.`, with at least one digit, around which
/// whitespace is ignored.
pub open spec fn num_key(line: Seq<char>) -> Option<(bool, Seq<char>, Seq<char>)> {
    let t = trim_spec(line);
    let neg = t.len() > 0 && t[0] == '-';
    let body = if t.len() > 0 && (t[0] == '-' || t[0] == '+') {
        t.drop_first()
    } else {
        t
    };
    let parts = split_on(body, '.');
    let ip = parts[0];
    let fp = if parts.len() == 2 {
        parts[1]
    } else {
        seq![]
    };
    if parts.len() <= 2 && all_digits(ip) && all_digits(fp) && ip.len() + fp.len() > 0 {
        Some((neg, strip_lead_zeros(ip), strip_trail_zeros(fp)))
    } else {
        None
    }
}

pub open spec fn key_is_zero(k: (bool, Seq<char>, Seq<char>)) -> bool {
    k.1.len() == 0 && k.2.len() == 0
}

/// The order of magnitudes: more integer digits is larger; with as many,
/// the digits decide, then the fraction digits.
pub open spec fn mag_lt(a: (bool, Seq<char>, Seq<char>), b: (bool, Seq<char>, Seq<char>)) -> bool {
    if a.1.len() != b.1.len() {
        a.1.len() < b.1.len()
    } else if a.1 != b.1 {
        lex_lt(a.1, b.1)
    } else {
        lex_lt(a.2, b.2)
    }
}

/// The order of the numbers (zero has no sign).
pub open spec fn num_lt(a: (bool, Seq<char>, Seq<char>), b: (bool, Seq<char>, Seq<char>)) -> bool {
    let na = a.0 && !key_is_zero(a);
    let nb = b.0 && !key_is_zero(b);
    if na && !nb {
        true
    } else if !na && nb {
        false
    } else if !na {
        mag_lt(a, b)
    } else {
        mag_lt(b, a)
    }
}

/// The order `sort -n` uses on lines: by the numbers they hold; a line
/// without a number is neither before nor after any other.
pub open spec fn line_num_lt(x: Seq<char>, y: Seq<char>) -> bool {
    match (num_key(x), num_key(y)) {
        (Some(a), Some(b)) => num_lt(a, b),
        _ => false,
    }
}

fn strip_lead_zeros_exec(s: &[char]) -> (r: Vec<char>)
    ensures
        r@ == strip_lead_zeros(s@),
{
    let mut i: usize = 0;
    assert(s@.skip(0) =~= s@);
    while i < s.len() && s[i] == '0'
        invariant
            i <= s@.len(),
            strip_lead_zeros(s@.skip(i as int)) == strip_lead_zeros(s@),
        decreases s@.len() - i,
    {
        assert(s@.skip(i as int).drop_first() =~= s@.skip(i + 1));
        i = i + 1;
    }
    let r = subvec(s, i, s.len());
    assert(r@ =~= s@.skip(i as int));
    r
}

fn strip_trail_zeros_exec(s: &[char]) -> (r: Vec<char>)
    ensures
        r@ == strip_trail_zeros(s@),
{
    let mut n: usize = s.len();
    assert(s@.take(s@.len() as int) =~= s@);
    while n > 0 && s[n - 1] == '0'
        invariant
            n <= s@.len(),
            strip_trail_zeros(s@.take(n as int)) == strip_trail_zeros(s@),
        decreases n,
    {
        assert(s@.take(n as int).drop_last() =~= s@.take(n - 1));
        n = n - 1;
    }
    let r = subvec(s, 0, n);
    assert(r@ =~= s@.take(n as int));
    r
}

fn all_digits_exec(s: &[char]) -> (r: bool)
    ensures
        r == all_digits(s@),
{
    let mut i: usize = 0;
    while i < s.len()
        invariant
            i <= s@.len(),
            forall|k: int| 0 <= k < i ==> is_digit(#[trigger] s@[k]),
        decreases s@.len() - i,
    {
        if !('0' <= s[i] && s[i] <= '9') {
            return false;
        }
        i = i + 1;
    }
    true
}

fn num_key_exec(line: &[char]) -> (r: Option<(bool, Vec<char>, Vec<char>)>)
    ensures
        match r {
            Some(k) => num_key(line@) == Some((k.0, k.1@, k.2@)),
            None => num_key(line@) is None,
        },
{
    let t = trim(line);
    let neg = t.len() > 0 && t[0] == '-';
    let body = if t.len() > 0 && (t[0] == '-' || t[0] == '+') {
        subvec(t.as_slice(), 1, t.len())
    } else {
        clone_chars(t.as_slice())
    };
    assert(t@.len() > 0 && (t@[0] == '-' || t@[0] == '+') ==> body@ =~= t@.drop_first());
    let parts = split_chars(body.as_slice(), '.');
    if parts.len() > 2 {
        return None;
    }
    assert(views(parts@)[0] == parts@[0]@);
    let ip = &parts[0];
    let fp = if parts.len() == 2 {
        assert(views(parts@)[1] == parts@[1]@);
        clone_chars(parts[1].as_slice())
    } else {
        Vec::new()
    };
    assert(parts@.len() != 2 ==> fp@ =~= seq![]);
    if all_digits_exec(ip.as_slice()) && all_digits_exec(fp.as_slice()) && (ip.len() > 0 || fp.len()
        > 0) {
        Some((neg, strip_lead_zeros_exec(ip.as_slice()), strip_trail_zeros_exec(fp.as_slice())))
    } else {
        None
    }
}

fn chars_equal(a: &[char], b: &[char]) -> (r: bool)
    ensures
        r == (a@ == b@),
{
    crate::text::chars_eq(a, b)
}

fn mag_lt_exec(a: &(bool, Vec<char>, Vec<char>), b: &(bool, Vec<char>, Vec<char>)) -> (r: bool)
    ensures
        r == mag_lt((a.0, a.1@, a.2@), (b.0, b.1@, b.2@)),
{
    if a.1.len() != b.1.len() {
        a.1.len() < b.1.len()
    } else if !chars_equal(a.1.as_slice(), b.1.as_slice()) {
        less_than(a.1.as_slice(), b.1.as_slice())
    } else {
        less_than(a.2.as_slice(), b.2.as_slice())
    }
}

fn line_num_lt_exec(x: &[char], y: &[char]) -> (r: bool)
    ensures
        r == line_num_lt(x@, y@),
{
    match (num_key_exec(x), num_key_exec(y)) {
        (Some(a), Some(b)) => {
            let na = a.0 && !(a.1.len() == 0 && a.2.len() == 0);
            let nb = b.0 && !(b.1.len() == 0 && b.2.len() == 0);
            if na && !nb {
                true
            } else if !na && nb {
                false
            } else if !na {
                mag_lt_exec(&a, &b)
            } else {
                mag_lt_exec(&b, &a)
            }
        },
        _ => false,
    }
}

// ══════════════════════════════════════════════════════════════════
// Sorting by number
// ══════════════════════════════════════════════════════════════════

pub open spec fn insert_by_num(s: Seq<Seq<char>>, x: Seq<char>) -> Seq<Seq<char>>
    decreases s.len(),
{
    if s.len() == 0 {
        seq![x]
    } else if line_num_lt(x, s[0]) {
        seq![x] + s
    } else {
        seq![s[0]] + insert_by_num(s.drop_first(), x)
    }
}

/// The stable sort of lines by the numbers they hold.
pub open spec fn sort_num_spec(s: Seq<Seq<char>>) -> Seq<Seq<char>>
    decreases s.len(),
{
    if s.len() == 0 {
        seq![]
    } else {
        insert_by_num(sort_num_spec(s.drop_last()), s.last())
    }
}

proof fn lemma_insert_num_at(s: Seq<Seq<char>>, x: Seq<char>, j: int)
    requires
        0 <= j <= s.len(),
        forall|k: int| 0 <= k < j ==> !line_num_lt(x, #[trigger] s[k]),
        j < s.len() ==> line_num_lt(x, s[j]),
    ensures
        insert_by_num(s, x) == s.insert(j, x),
    decreases j,
{
    if s.len() == 0 {
        assert(s.insert(j, x) =~= seq![x]);
    } else if j == 0 {
        assert(s.insert(0, x) =~= seq![x] + s);
    } else {
        assert(!line_num_lt(x, s[0]));
        let t = s.drop_first();
        assert forall|k: int| 0 <= k < j - 1 implies !line_num_lt(x, #[trigger] t[k]) by {
            assert(t[k] == s[k + 1]);
        }
        lemma_insert_num_at(t, x, j - 1);
        assert(s.insert(j, x) =~= seq![s[0]] + t.insert(j - 1, x));
    }
}

fn sort_num_lines(v: &Vec<Vec<char>>) -> (r: Vec<Vec<char>>)
    ensures
        views(r@) == sort_num_spec(views(v@)),
{
    let mut r: Vec<Vec<char>> = Vec::new();
    let mut i: usize = 0;
    while i < v.len()
        invariant
            i <= v@.len(),
            views(r@) == sort_num_spec(views(v@).take(i as int)),
        decreases v@.len() - i,
    {
        let x = clone_chars(v[i].as_slice());
        let mut j: usize = 0;
        while j < r.len() && !line_num_lt_exec(x.as_slice(), r[j].as_slice())
            invariant
                j <= r@.len(),
                forall|k: int| 0 <= k < j ==> !line_num_lt(x@, #[trigger] views(r@)[k]),
            decreases r@.len() - j,
        {
            j = j + 1;
        }
        let ghost before = views(r@);
        proof {
            lemma_insert_num_at(before, x@, j as int);
        }
        r.insert(j, x);
        assert(views(r@) =~= before.insert(j as int, x@));
        i = i + 1;
        assert(views(v@).take(i as int).drop_last() =~= views(v@).take(i - 1));
    }
    assert(views(v@).take(v@.len() as int) =~= views(v@));
    r
}

// ══════════════════════════════════════════════════════════════════
// sort
// ══════════════════════════════════════════════════════════════════

/// `sort`: the lines in order (by text, or by number with `-n`), reversed
/// with `-r`, adjacent repeats dropped with `-u`.
pub open spec fn sort_cmd_spec(meta: CommandMeta, args: Seq<Seq<char>>, stdin: Seq<char>, fs: FsView, cwd: Seq<char>) -> OutView {
    let pa = parse_args_spec(meta, args);
    match file_text(pa.positional, stdin, fs, cwd, "sort: cannot read"@) {
        Err(e) => ov(seq![], e, 1),
        Ok(t) => {
            let ls = lines_of(t);
            let sorted = if flag_on(pa, 'n') {
                sort_num_spec(ls)
            } else {
                sort_spec(ls)
            };
            let ordered = if flag_on(pa, 'r') {
                sorted.reverse()
            } else {
                sorted
            };
            let kept = if flag_on(pa, 'u') {
                dedup(ordered)
            } else {
                ordered
            };
            ov(lines_out(kept), seq![], 0)
        },
    }
}

pub fn cmd_sort(meta: &CommandMeta, args: &[String], stdin: &[char], fs: &Fs, cwd: &[char]) -> (r: CmdOutput)
    ensures
        r.view() == sort_cmd_spec(*meta, str_views(args@), stdin@, fs.view(), cwd@),
{
    let pa = parse_args(meta, args);
    let reverse = flag_on_exec(&pa, 'r');
    let numeric = flag_on_exec(&pa, 'n');
    let unique = flag_on_exec(&pa, 'u');
    let pos = positional_chars(&pa);
    let t = match file_text_exec(&pos, stdin, fs, cwd, "sort: cannot read") {
        Err(e) => {
            return failure(e, 1);
        },
        Ok(t) => t,
    };
    let ls = lines(t.as_slice());
    let sorted = if numeric {
        sort_num_lines(&ls)
    } else {
        sort_lines(&ls)
    };
    let ordered = if reverse {
        reverse_exec(&sorted)
    } else {
        sorted
    };
    let kept = if unique {
        dedup_exec(&ordered)
    } else {
        ordered
    };
    let mut out = crate::text::join(&kept, crate::text::lit("\n").as_slice());
    crate::text::push_str(&mut out, "\n");
    success(out)
}

// ══════════════════════════════════════════════════════════════════
// What `sort -n` promises
// ══════════════════════════════════════════════════════════════════

pub open spec fn pow10(n: nat) -> nat
    decreases n,
{
    if n == 0 {
        1
    } else {
        10 * pow10((n - 1) as nat)
    }
}

/// The value of a decimal digit.
pub open spec fn digit_value(c: char) -> nat {
    ((c as u32) - ('0' as u32)) as nat
}

/// The value of a string of decimal digits.
pub open spec fn digits_value(s: Seq<char>) -> nat
    decreases s.len(),
{
    if s.len() == 0 {
        0
    } else {
        digit_value(s[0]) * pow10((s.len() - 1) as nat) + digits_value(s.drop_first())
    }
}

/// The integer a line holds: around whitespace, an optional sign and one
/// or more decimal digits.
pub open spec fn int_value(line: Seq<char>) -> Option<int> {
    let t = trim_spec(line);
    let signed = t.len() > 0 && (t[0] == '-' || t[0] == '+');
    let body = if signed {
        t.drop_first()
    } else {
        t
    };
    if body.len() > 0 && all_digits(body) {
        let v = digits_value(body) as int;
        Some(
            if t[0] == '-' {
                -v
            } else {
                v
            },
        )
    } else {
        None
    }
}

proof fn lemma_pow10_pos(n: nat)
    ensures
        pow10(n) >= 1,
    decreases n,
{
    if n > 0 {
        lemma_pow10_pos((n - 1) as nat);
    }
}

proof fn lemma_pow10_mono(a: nat, b: nat)
    requires
        a <= b,
    ensures
        pow10(a) <= pow10(b),
    decreases b,
{
    if a < b {
        lemma_pow10_mono(a, (b - 1) as nat);
        lemma_pow10_pos((b - 1) as nat);
    }
}

proof fn lemma_digits_bound(s: Seq<char>)
    requires
        all_digits(s),
    ensures
        digits_value(s) < pow10(s.len()),
        s.len() > 0 && s[0] != '0' ==> digits_value(s) >= pow10((s.len() - 1) as nat),
    decreases s.len(),
{
    if s.len() > 0 {
        let u = s.drop_first();
        assert forall|i: int| 0 <= i < u.len() implies is_digit(#[trigger] u[i]) by {
            assert(u[i] == s[i + 1]);
        }
        lemma_digits_bound(u);
        assert(is_digit(s[0]));
        let d = digit_value(s[0]);
        let p = pow10((s.len() - 1) as nat);
        assert(d <= 9);
        assert(d * p <= 9 * p) by (nonlinear_arith)
            requires
                d <= 9,
        ;
        assert(pow10(s.len()) == 10 * p);
        if s[0] != '0' {
            assert(d >= 1);
            assert(d * p >= p) by (nonlinear_arith)
                requires
                    d >= 1,
            ;
        }
    }
}

/// Of two digit strings of one length, the one first in text order has
/// the smaller value.
proof fn lemma_digits_lex(a: Seq<char>, b: Seq<char>)
    requires
        all_digits(a),
        all_digits(b),
        a.len() == b.len(),
        lex_lt(a, b),
    ensures
        digits_value(a) < digits_value(b),
    decreases a.len(),
{
    let ua = a.drop_first();
    let ub = b.drop_first();
    assert forall|i: int| 0 <= i < ua.len() implies is_digit(#[trigger] ua[i]) by {
        assert(ua[i] == a[i + 1]);
    }
    assert forall|i: int| 0 <= i < ub.len() implies is_digit(#[trigger] ub[i]) by {
        assert(ub[i] == b[i + 1]);
    }
    let p = pow10((a.len() - 1) as nat);
    assert(is_digit(a[0]) && is_digit(b[0]));
    let da = digit_value(a[0]);
    let db = digit_value(b[0]);
    if a[0] != b[0] {
        assert((a[0] as u32) < (b[0] as u32));
        assert(da < db);
        lemma_digits_bound(ua);
        lemma_digits_bound(ub);
        let ra = digits_value(ua);
        assert(da * p + ra < db * p) by (nonlinear_arith)
            requires
                da < db,
                ra < p,
        ;
    } else {
        lemma_digits_lex(ua, ub);
    }
}

proof fn lemma_strip_value(s: Seq<char>)
    requires
        all_digits(s),
    ensures
        digits_value(strip_lead_zeros(s)) == digits_value(s),
        all_digits(strip_lead_zeros(s)),
        strip_lead_zeros(s).len() > 0 ==> strip_lead_zeros(s)[0] != '0',
    decreases s.len(),
{
    if s.len() > 0 && s[0] == '0' {
        let u = s.drop_first();
        assert forall|i: int| 0 <= i < u.len() implies is_digit(#[trigger] u[i]) by {
            assert(u[i] == s[i + 1]);
        }
        lemma_strip_value(u);
        assert(digit_value(s[0]) == 0);
    }
}

/// For digit strings without leading zeros, the magnitude order is the
/// order of their values.
proof fn lemma_mag_value(a: Seq<char>, b: Seq<char>, sa: bool, sb: bool)
    requires
        all_digits(a),
        all_digits(b),
        a.len() > 0 ==> a[0] != '0',
        b.len() > 0 ==> b[0] != '0',
    ensures
        mag_lt((sa, a, seq![]), (sb, b, seq![])) == (digits_value(a) < digits_value(b)),
{
    lemma_digits_bound(a);
    lemma_digits_bound(b);
    if a.len() < b.len() {
        lemma_pow10_mono(a.len(), (b.len() - 1) as nat);
    } else if a.len() > b.len() {
        lemma_pow10_mono(b.len(), (a.len() - 1) as nat);
    } else if a != b {
        if lex_lt(a, b) {
            lemma_digits_lex(a, b);
        } else {
            crate::text::lemma_lex_total(a, b);
            lemma_digits_lex(b, a);
        }
    } else {
        crate::text::lemma_lex_irreflexive(seq![]);
    }
}

proof fn lemma_split_free(s: Seq<char>, sep: char)
    requires
        forall|i: int| 0 <= i < s.len() ==> s[i] != sep,
    ensures
        split_state(s, sep) == (Seq::<Seq<char>>::empty(), s),
    decreases s.len(),
{
    if s.len() > 0 {
        let u = s.drop_last();
        assert forall|i: int| 0 <= i < u.len() implies u[i] != sep by {
            assert(u[i] == s[i]);
        }
        lemma_split_free(u, sep);
        assert(s[s.len() - 1] != sep);
        assert(u.push(s.last()) =~= s);
    } else {
        assert(s =~= Seq::<char>::empty());
    }
}

/// What `num_key` makes of a line that holds an integer.
proof fn lemma_int_key(x: Seq<char>)
    requires
        int_value(x) is Some,
    ensures
        ({
            let t = trim_spec(x);
            let body = if t.len() > 0 && (t[0] == '-' || t[0] == '+') {
                t.drop_first()
            } else {
                t
            };
            &&& num_key(x) == Some((t.len() > 0 && t[0] == '-', strip_lead_zeros(body), Seq::<char>::empty()))
            &&& digits_value(strip_lead_zeros(body)) == digits_value(body)
            &&& all_digits(strip_lead_zeros(body))
            &&& strip_lead_zeros(body).len() > 0 ==> strip_lead_zeros(body)[0] != '0'
        }),
{
    let t = trim_spec(x);
    let body = if t.len() > 0 && (t[0] == '-' || t[0] == '+') {
        t.drop_first()
    } else {
        t
    };
    assert forall|i: int| 0 <= i < body.len() implies body[i] != '.' by {
        assert(is_digit(body[i]));
    }
    lemma_split_free(body, '.');
    assert(split_on(body, '.') =~= seq![body]);
    assert(strip_trail_zeros(Seq::<char>::empty()) == Seq::<char>::empty());
    assert(all_digits(Seq::<char>::empty()));
    lemma_strip_value(body);
}

/// On lines that hold integers, `sort -n`'s order is the order of the
/// integers.
pub proof fn lemma_num_order(x: Seq<char>, y: Seq<char>)
    requires
        int_value(x) is Some,
        int_value(y) is Some,
    ensures
        line_num_lt(x, y) == (int_value(x).unwrap() < int_value(y).unwrap()),
{
    lemma_int_key(x);
    lemma_int_key(y);
    let tx = trim_spec(x);
    let ty = trim_spec(y);
    let bx = if tx.len() > 0 && (tx[0] == '-' || tx[0] == '+') {
        tx.drop_first()
    } else {
        tx
    };
    let by = if ty.len() > 0 && (ty[0] == '-' || ty[0] == '+') {
        ty.drop_first()
    } else {
        ty
    };
    let ka = num_key(x).unwrap();
    let kb = num_key(y).unwrap();
    lemma_mag_value(ka.1, kb.1, ka.0, kb.0);
    lemma_mag_value(kb.1, ka.1, kb.0, ka.0);
    lemma_digits_bound(ka.1);
    lemma_digits_bound(kb.1);
    if ka.1.len() > 0 {
        lemma_pow10_pos((ka.1.len() - 1) as nat);
    }
    if kb.1.len() > 0 {
        lemma_pow10_pos((kb.1.len() - 1) as nat);
    }
}

/// Every line holds an integer.
pub open spec fn int_lines(s: Seq<Seq<char>>) -> bool {
    forall|i: int| 0 <= i < s.len() ==> (#[trigger] int_value(s[i])) is Some
}

/// The lines go up by the integers they hold.
pub open spec fn ascending_ints(s: Seq<Seq<char>>) -> bool {
    forall|i: int, j: int|
        0 <= i < j < s.len() ==> int_value(#[trigger] s[i]).unwrap() <= int_value(#[trigger] s[j]).unwrap()
}

proof fn lemma_insert_num(s: Seq<Seq<char>>, x: Seq<char>)
    requires
        int_lines(s),
        int_value(x) is Some,
        ascending_ints(s),
    ensures
        int_lines(insert_by_num(s, x)),
        ascending_ints(insert_by_num(s, x)),
        insert_by_num(s, x).to_multiset() == s.to_multiset().insert(x),
    decreases s.len(),
{
    broadcast use vstd::seq_lib::group_to_multiset_ensures;
    let r = insert_by_num(s, x);
    if s.len() == 0 {
        assert(r =~= seq![x]);
        assert(s.to_multiset() =~= vstd::multiset::Multiset::empty());
        assert(r =~= s.insert(0, x));
        assert(r.remove(0) =~= s);
    } else if line_num_lt(x, s[0]) {
        lemma_num_order(x, s[0]);
        assert(r == seq![x] + s);
        assert(r =~= s.insert(0, x));
        assert(r.remove(0) =~= s);
        assert forall|a: int, b: int| 0 <= a < b < r.len() implies int_value(#[trigger] r[a]).unwrap()
            <= int_value(#[trigger] r[b]).unwrap() by {
            if a == 0 {
                if b > 1 {
                    assert(int_value(s[0]).unwrap() <= int_value(s[b - 1]).unwrap());
                }
            } else {
                assert(r[a] == s[a - 1] && r[b] == s[b - 1]);
            }
        }
        assert forall|i: int| 0 <= i < r.len() implies (#[trigger] int_value(r[i])) is Some by {
            if i > 0 {
                assert(r[i] == s[i - 1]);
            }
        }
    } else {
        lemma_num_order(x, s[0]);
        let t = s.drop_first();
        assert forall|i: int| 0 <= i < t.len() implies (#[trigger] int_value(t[i])) is Some by {
            assert(t[i] == s[i + 1]);
        }
        assert forall|i: int, j: int| 0 <= i < j < t.len() implies int_value(#[trigger] t[i]).unwrap()
            <= int_value(#[trigger] t[j]).unwrap() by {
            assert(t[i] == s[i + 1] && t[j] == s[j + 1]);
        }
        lemma_insert_num(t, x);
        let r2 = insert_by_num(t, x);
        assert(r == seq![s[0]] + r2);
        assert(r =~= r2.insert(0, s[0]));
        assert(r.remove(0) =~= r2);
        assert(s =~= t.insert(0, s[0]));
        assert(s.remove(0) =~= t);
        assert forall|i: int| 0 <= i < r.len() implies (#[trigger] int_value(r[i])) is Some by {
            if i > 0 {
                assert(r[i] == r2[i - 1]);
            }
        }
        assert forall|a: int, b: int| 0 <= a < b < r.len() implies int_value(#[trigger] r[a]).unwrap()
            <= int_value(#[trigger] r[b]).unwrap() by {
            if a == 0 {
                let e = r2[b - 1];
                assert(r[b] == e);
                assert(r2.to_multiset().count(e) > 0);
                assert(t.to_multiset().insert(x).count(e) > 0);
                if e != x {
                    assert(t.to_multiset().count(e) > 0);
                    assert(t.contains(e));
                    let k = choose|k: int| 0 <= k < t.len() && t[k] == e;
                    assert(s[k + 1] == e);
                    assert(int_value(s[0]).unwrap() <= int_value(s[k + 1]).unwrap());
                }
            } else {
                assert(r[a] == r2[a - 1] && r[b] == r2[b - 1]);
            }
        }
        assert(r.to_multiset() =~= s.to_multiset().insert(x)) by {
            assert(r[0] == s[0]);
            assert(s[0] == s[0]);
        }
    }
}

/// On lines that all hold integers, numeric sorting puts them in order of
/// their values (negative ones too) and keeps every line as often as it
/// came.
pub proof fn law_sort_num_order(s: Seq<Seq<char>>)
    requires
        int_lines(s),
    ensures
        ascending_ints(sort_num_spec(s)),
        sort_num_spec(s).to_multiset() == s.to_multiset(),
    decreases s.len(),
{
    broadcast use vstd::seq_lib::group_to_multiset_ensures;
    if s.len() == 0 {
        assert(sort_num_spec(s) =~= s);
    } else {
        let t = s.drop_last();
        assert forall|i: int| 0 <= i < t.len() implies (#[trigger] int_value(t[i])) is Some by {
            assert(t[i] == s[i]);
        }
        law_sort_num_order(t);
        lemma_sort_num_ints(t);
        assert(int_value(s[s.len() - 1]) is Some);
        lemma_insert_num(sort_num_spec(t), s.last());
        assert(t.push(s.last()) =~= s);
        assert(s.to_multiset() == t.to_multiset().insert(s.last()));
    }
}

proof fn lemma_sort_num_ints(s: Seq<Seq<char>>)
    requires
        int_lines(s),
    ensures
        int_lines(sort_num_spec(s)),
        ascending_ints(sort_num_spec(s)),
    decreases s.len(),
{
    if s.len() > 0 {
        let t = s.drop_last();
        assert forall|i: int| 0 <= i < t.len() implies (#[trigger] int_value(t[i])) is Some by {
            assert(t[i] == s[i]);
        }
        lemma_sort_num_ints(t);
        assert(int_value(s[s.len() - 1]) is Some);
        lemma_insert_num(sort_num_spec(t), s.last());
    } else {
        assert(sort_num_spec(s) =~= s);
    }
}

/// `sort -n` (without `-r` or `-u`) on lines that all hold integers prints
/// them, every one as often as it came, in order of their values:
/// `-10` before `-5` before `3`.
pub proof fn law_sort_numeric(meta: CommandMeta, args: Seq<Seq<char>>, stdin: Seq<char>, fs: FsView, cwd: Seq<char>)
    requires
        flag_on(parse_args_spec(meta, args), 'n'),
        !flag_on(parse_args_spec(meta, args), 'r'),
        !flag_on(parse_args_spec(meta, args), 'u'),
        file_text(parse_args_spec(meta, args).positional, stdin, fs, cwd, "sort: cannot read"@) is Ok,
        int_lines(lines_of(file_text(parse_args_spec(meta, args).positional, stdin, fs, cwd, "sort: cannot read"@)->Ok_0)),
    ensures
        ({
            let ls = lines_of(file_text(parse_args_spec(meta, args).positional, stdin, fs, cwd, "sort: cannot read"@)->Ok_0);
            let r = sort_num_spec(ls);
            &&& sort_cmd_spec(meta, args, stdin, fs, cwd).out == lines_out(r)
            &&& sort_cmd_spec(meta, args, stdin, fs, cwd).code == 0
            &&& r.to_multiset() == ls.to_multiset()
            &&& ascending_ints(r)
        }),
{
    let ls = lines_of(file_text(parse_args_spec(meta, args).positional, stdin, fs, cwd, "sort: cannot read"@)->Ok_0);
    law_sort_num_order(ls);
}

/// `sort` (no `-n`, `-u`) prints every line of its input as often as it
/// came, in text order, or in reverse text order with `-r`.
pub proof fn law_sort_text(meta: CommandMeta, args: Seq<Seq<char>>, stdin: Seq<char>, fs: FsView, cwd: Seq<char>)
    requires
        !flag_on(parse_args_spec(meta, args), 'n'),
        !flag_on(parse_args_spec(meta, args), 'u'),
        file_text(parse_args_spec(meta, args).positional, stdin, fs, cwd, "sort: cannot read"@) is Ok,
    ensures
        ({
            let ls = lines_of(file_text(parse_args_spec(meta, args).positional, stdin, fs, cwd, "sort: cannot read"@)->Ok_0);
            let r = if flag_on(parse_args_spec(meta, args), 'r') {
                sort_spec(ls).reverse()
            } else {
                sort_spec(ls)
            };
            &&& sort_cmd_spec(meta, args, stdin, fs, cwd).out == lines_out(r)
            &&& sort_cmd_spec(meta, args, stdin, fs, cwd).code == 0
            &&& r.to_multiset() == ls.to_multiset()
            &&& !flag_on(parse_args_spec(meta, args), 'r') ==> forall|i: int, j: int|
                0 <= i < j < r.len() ==> !lex_lt(#[trigger] r[j], #[trigger] r[i])
            &&& flag_on(parse_args_spec(meta, args), 'r') ==> forall|i: int, j: int|
                0 <= i < j < r.len() ==> !lex_lt(#[trigger] r[i], #[trigger] r[j])
        }),
{
    let ls = lines_of(file_text(parse_args_spec(meta, args).positional, stdin, fs, cwd, "sort: cannot read"@)->Ok_0);
    crate::text::law_sort_sorted(ls);
    let q = sort_spec(ls);
    q.lemma_reverse_to_multiset();
    let r = q.reverse();
    assert forall|i: int, j: int| 0 <= i < j < r.len() implies !lex_lt(#[trigger] r[i], #[trigger] r[j]) by {
        assert(r[i] == q[q.len() - 1 - i] && r[j] == q[q.len() - 1 - j]);
        assert(!lex_lt(q[q.len() - 1 - i], q[q.len() - 1 - j]));
    }
}

/// `sort -n -r` (without `-u`) on lines that all hold integers prints them,
/// every one as often as it came, from the largest value down.
pub proof fn law_sort_numeric_reverse(meta: CommandMeta, args: Seq<Seq<char>>, stdin: Seq<char>, fs: FsView, cwd: Seq<char>)
    requires
        flag_on(parse_args_spec(meta, args), 'n'),
        flag_on(parse_args_spec(meta, args), 'r'),
        !flag_on(parse_args_spec(meta, args), 'u'),
        file_text(parse_args_spec(meta, args).positional, stdin, fs, cwd, "sort: cannot read"@) is Ok,
        int_lines(lines_of(file_text(parse_args_spec(meta, args).positional, stdin, fs, cwd, "sort: cannot read"@)->Ok_0)),
    ensures
        ({
            let ls = lines_of(file_text(parse_args_spec(meta, args).positional, stdin, fs, cwd, "sort: cannot read"@)->Ok_0);
            let r = sort_num_spec(ls).reverse();
            &&& sort_cmd_spec(meta, args, stdin, fs, cwd).out == lines_out(r)
            &&& r.to_multiset() == ls.to_multiset()
            &&& forall|i: int, j: int|
                0 <= i < j < r.len() ==> int_value(#[trigger] r[j]).unwrap() <= int_value(#[trigger] r[i]).unwrap()
        }),
{
    let ls = lines_of(file_text(parse_args_spec(meta, args).positional, stdin, fs, cwd, "sort: cannot read"@)->Ok_0);
    law_sort_num_order(ls);
    let q = sort_num_spec(ls);
    q.lemma_reverse_to_multiset();
    let r = q.reverse();
    assert forall|i: int, j: int| 0 <= i < j < r.len() implies int_value(#[trigger] r[j]).unwrap() <= int_value(
        #[trigger] r[i],
    ).unwrap() by {
        assert(r[i] == q[q.len() - 1 - i] && r[j] == q[q.len() - 1 - j]);
        assert(int_value(q[q.len() - 1 - j]).unwrap() <= int_value(q[q.len() - 1 - i]).unwrap());
    }
}

} // verus!
