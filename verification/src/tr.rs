//! `tr`: translate, delete or squeeze characters of stdin.
use crate::commands::{failure, ov, success, CmdOutput, OutView};
use crate::text::{char_from_u32, chars_eq, chars_of, is_scalar, lit, push_all};
use vstd::prelude::*;

verus! {

// ══════════════════════════════════════════════════════════════════
// Character sets
// ══════════════════════════════════════════════════════════════════

/// The characters with codes from `lo` to `hi`, in order (codes that are
/// no characters are skipped).
pub open spec fn code_range(lo: int, hi: int) -> Seq<char>
    decreases hi - lo + 1,
{
    if lo > hi {
        seq![]
    } else {
        let rest = code_range(lo + 1, hi);
        if 0 <= lo <= u32::MAX && is_scalar(lo as u32) {
            seq![(lo as u32) as char] + rest
        } else {
            rest
        }
    }
}

/// A set written with ranges: `a-z` stands for the characters from `a` to
/// `z` when the first is not after the last.
pub open spec fn expand_chars(cs: Seq<char>) -> Seq<char>
    decreases cs.len(),
{
    if cs.len() == 0 {
        seq![]
    } else if cs.len() >= 3 && cs[1] == '-' && (cs[0] as u32) <= (cs[2] as u32) {
        code_range(cs[0] as u32 as int, cs[2] as u32 as int) + expand_chars(cs.skip(3))
    } else {
        seq![cs[0]] + expand_chars(cs.drop_first())
    }
}

/// The character classes `tr` knows.
pub open spec fn tr_class(arg: Seq<char>) -> Option<Seq<char>> {
    if arg == "[:upper:]"@ {
        Some("ABCDEFGHIJKLMNOPQRSTUVWXYZ"@)
    } else if arg == "[:lower:]"@ {
        Some("abcdefghijklmnopqrstuvwxyz"@)
    } else if arg == "[:digit:]"@ {
        Some("0123456789"@)
    } else if arg == "[:alpha:]"@ {
        Some("abcdefghijklmnopqrstuvwxyzABCDEFGHIJKLMNOPQRSTUVWXYZ"@)
    } else if arg == "[:alnum:]"@ {
        Some("abcdefghijklmnopqrstuvwxyzABCDEFGHIJKLMNOPQRSTUVWXYZ0123456789"@)
    } else if arg == "[:space:]"@ {
        Some(" \x09\x0a\x0d\x0b\x0c"@)
    } else if arg == "[:blank:]"@ {
        Some(" \x09"@)
    } else if arg == "[:print:]"@ {
        Some(" !\"#$%&'()*+,-./0123456789:;<=>?@ABCDEFGHIJKLMNOPQRSTUVWXYZ[\\]^_`abcdefghijklmnopqrstuvwxyz{|}~"@)
    } else if arg == "[:graph:]"@ {
        Some("!\"#$%&'()*+,-./0123456789:;<=>?@ABCDEFGHIJKLMNOPQRSTUVWXYZ[\\]^_`abcdefghijklmnopqrstuvwxyz{|}~"@)
    } else if arg == "[:punct:]"@ {
        Some("!\"#$%&'()*+,-./:;<=>?@[\\]^_`{|}~"@)
    } else if arg == "[:cntrl:]"@ {
        Some("\x00\x01\x02\x03\x04\x05\x06\x07\x08\x09\x0a\x0b\x0c\x0d\x0e\x0f\x10\x11\x12\x13\x14\x15\x16\x17\x18\x19\x1a\x1b\x1c\x1d\x1e\x1f\x7f"@)
    } else if arg == "[:xdigit:]"@ {
        Some("0123456789abcdefABCDEF"@)
    } else if arg == "[:word:]"@ {
        Some("abcdefghijklmnopqrstuvwxyzABCDEFGHIJKLMNOPQRSTUVWXYZ0123456789_"@)
    } else {
        None
    }
}

/// A set argument: a class name, or characters and ranges.
pub open spec fn tr_set(arg: Seq<char>) -> Seq<char> {
    match tr_class(arg) {
        Some(s) => s,
        None => expand_chars(arg),
    }
}

fn push_code_range(out: &mut Vec<char>, lo: char, hi: char)
    requires
        (lo as u32) <= (hi as u32),
    ensures
        final(out)@ == old(out)@ + code_range(lo as u32 as int, hi as u32 as int),
{
    let hi_u = hi as u32;
    let mut u: u32 = lo as u32;
    let ghost out0 = old(out)@;
    assert(out@ + code_range(u as int, hi_u as int) == out0 + code_range(lo as u32 as int, hi_u as int));
    while u <= hi_u
        invariant
            (lo as u32) <= u <= hi_u + 1,
            hi_u == hi as u32,
            hi_u <= 0x10FFFF,
            out@ + code_range(u as int, hi_u as int) == out0 + code_range(lo as u32 as int, hi_u as int),
        decreases hi_u + 1 - u,
    {
        let ghost before = out@;
        match char_from_u32(u) {
            Some(c) => {
                out.push(c);
                assert(out@ =~= before + seq![c]);
                assert(code_range(u as int, hi_u as int) == seq![(u as u32) as char] + code_range(u + 1, hi_u as int));
                assert(out@ + code_range(u + 1, hi_u as int) =~= before + code_range(u as int, hi_u as int));
            },
            None => {
                assert(code_range(u as int, hi_u as int) == code_range(u + 1, hi_u as int));
            },
        }
        u = u + 1;
    }
    assert(code_range(u as int, hi_u as int) =~= seq![]);
    assert(out@ + seq![] =~= out@);
}

fn expand_chars_exec(cs: &[char]) -> (r: Vec<char>)
    ensures
        r@ == expand_chars(cs@),
{
    let mut out: Vec<char> = Vec::new();
    let mut i: usize = 0;
    assert(cs@.skip(0) =~= cs@);
    while i < cs.len()
        invariant
            i <= cs@.len(),
            out@ + expand_chars(cs@.skip(i as int)) == expand_chars(cs@),
        decreases cs@.len() - i,
    {
        let ghost rest = cs@.skip(i as int);
        if cs.len() - i > 2 && cs[i + 1] == '-' && (cs[i] as u32) <= (cs[i + 2] as u32) {
            let ghost before = out@;
            push_code_range(&mut out, cs[i], cs[i + 2]);
            assert(rest[1] == cs@[i + 1] && rest[0] == cs@[i as int] && rest[2] == cs@[i + 2]);
            assert(rest.skip(3) =~= cs@.skip(i + 3));
            i = i + 3;
        } else {
            let ghost before = out@;
            out.push(cs[i]);
            assert(rest.len() >= 3 ==> rest[1] == cs@[i + 1] && rest[0] == cs@[i as int] && rest[2]
                == cs@[i + 2]);
            assert(rest.drop_first() =~= cs@.skip(i + 1));
            assert(out@ =~= before + seq![rest[0]]);
            i = i + 1;
        }
    }
    assert(cs@.skip(i as int) =~= seq![]);
    assert(out@ + seq![] =~= out@);
    out
}

fn is_class(arg: &[char], name: &str) -> (r: bool)
    ensures
        r == (arg@ == name@),
{
    let n = chars_of(name);
    chars_eq(arg, n.as_slice())
}

fn tr_set_exec(arg: &[char]) -> (r: Vec<char>)
    ensures
        r@ == tr_set(arg@),
{
    if is_class(arg, "[:upper:]") {
        lit("ABCDEFGHIJKLMNOPQRSTUVWXYZ")
    } else if is_class(arg, "[:lower:]") {
        lit("abcdefghijklmnopqrstuvwxyz")
    } else if is_class(arg, "[:digit:]") {
        lit("0123456789")
    } else if is_class(arg, "[:alpha:]") {
        lit("abcdefghijklmnopqrstuvwxyzABCDEFGHIJKLMNOPQRSTUVWXYZ")
    } else if is_class(arg, "[:alnum:]") {
        lit("abcdefghijklmnopqrstuvwxyzABCDEFGHIJKLMNOPQRSTUVWXYZ0123456789")
    } else if is_class(arg, "[:space:]") {
        lit(" \x09\x0a\x0d\x0b\x0c")
    } else if is_class(arg, "[:blank:]") {
        lit(" \x09")
    } else if is_class(arg, "[:print:]") {
        lit(" !\"#$%&'()*+,-./0123456789:;<=>?@ABCDEFGHIJKLMNOPQRSTUVWXYZ[\\]^_`abcdefghijklmnopqrstuvwxyz{|}~")
    } else if is_class(arg, "[:graph:]") {
        lit("!\"#$%&'()*+,-./0123456789:;<=>?@ABCDEFGHIJKLMNOPQRSTUVWXYZ[\\]^_`abcdefghijklmnopqrstuvwxyz{|}~")
    } else if is_class(arg, "[:punct:]") {
        lit("!\"#$%&'()*+,-./:;<=>?@[\\]^_`{|}~")
    } else if is_class(arg, "[:cntrl:]") {
        lit("\x00\x01\x02\x03\x04\x05\x06\x07\x08\x09\x0a\x0b\x0c\x0d\x0e\x0f\x10\x11\x12\x13\x14\x15\x16\x17\x18\x19\x1a\x1b\x1c\x1d\x1e\x1f\x7f")
    } else if is_class(arg, "[:xdigit:]") {
        lit("0123456789abcdefABCDEF")
    } else if is_class(arg, "[:word:]") {
        lit("abcdefghijklmnopqrstuvwxyzABCDEFGHIJKLMNOPQRSTUVWXYZ0123456789_")
    } else {
        expand_chars_exec(arg)
    }
}

/// The ASCII characters (codes below 128) that are not in a set, in order.
pub open spec fn ascii_outside(set: Seq<char>, n: nat) -> Seq<char>
    decreases n,
{
    if n == 0 {
        seq![]
    } else {
        let c = ((n - 1) as u8) as char;
        ascii_outside(set, (n - 1) as nat) + if set.contains(c) {
            seq![]
        } else {
            seq![c]
        }
    }
}

fn contains_char(s: &[char], c: char) -> (r: bool)
    ensures
        r == s@.contains(c),
{
    let mut i: usize = 0;
    while i < s.len()
        invariant
            i <= s@.len(),
            forall|k: int| 0 <= k < i ==> s@[k] != c,
        decreases s@.len() - i,
    {
        if s[i] == c {
            assert(s@[i as int] == c);
            return true;
        }
        i = i + 1;
    }
    false
}

fn complement_exec(set: &[char]) -> (r: Vec<char>)
    ensures
        r@ == ascii_outside(set@, 128),
{
    let mut out: Vec<char> = Vec::new();
    let mut i: u8 = 0;
    while i < 128
        invariant
            i <= 128,
            out@ == ascii_outside(set@, i as nat),
        decreases 128 - i,
    {
        let c = i as char;
        assert(c == ((i as nat) as u8) as char);
        if !contains_char(set, c) {
            out.push(c);
        }
        assert(ascii_outside(set@, (i + 1) as nat) == ascii_outside(set@, i as nat) + if set@.contains(c) {
            seq![]
        } else {
            seq![c]
        });
        i = i + 1;
    }
    out
}

// ══════════════════════════════════════════════════════════════════
// The operation
// ══════════════════════════════════════════════════════════════════

/// The options and sets that `tr`'s arguments give: `-d`, `-s`, `-c`
/// (or `-C`) anywhere, the first other argument as set 1, the next as set 2.
pub struct TrArgs {
    pub delete: bool,
    pub squeeze: bool,
    pub complement: bool,
    pub set1: Option<Seq<char>>,
    pub set2: Option<Seq<char>>,
}

pub open spec fn tr_args(args: Seq<Seq<char>>) -> TrArgs
    decreases args.len(),
{
    if args.len() == 0 {
        TrArgs { delete: false, squeeze: false, complement: false, set1: None, set2: None }
    } else {
        let st = tr_args(args.drop_last());
        let a = args.last();
        if a.len() > 0 && a[0] == '-' {
            let fl = a.drop_first();
            TrArgs {
                delete: st.delete || fl.contains('d'),
                squeeze: st.squeeze || fl.contains('s'),
                complement: st.complement || fl.contains('c') || fl.contains('C'),
                ..st
            }
        } else if st.set1 is None {
            TrArgs { set1: Some(tr_set(a)), ..st }
        } else if st.set2 is None {
            TrArgs { set2: Some(tr_set(a)), ..st }
        } else {
            st
        }
    }
}

/// The text without the characters of a set.
pub open spec fn delete_chars(t: Seq<char>, set: Seq<char>) -> Seq<char>
    decreases t.len(),
{
    if t.len() == 0 {
        seq![]
    } else {
        delete_chars(t.drop_last(), set) + if set.contains(t.last()) {
            seq![]
        } else {
            seq![t.last()]
        }
    }
}

/// The text with each run of a repeated character of the set kept once;
/// also the last character kept.
pub open spec fn squeeze_state(t: Seq<char>, set: Seq<char>) -> (Seq<char>, Option<char>)
    decreases t.len(),
{
    if t.len() == 0 {
        (seq![], None)
    } else {
        let (o, prev) = squeeze_state(t.drop_last(), set);
        let c = t.last();
        if set.contains(c) && prev == Some(c) {
            (o, prev)
        } else {
            (o.push(c), Some(c))
        }
    }
}

/// The first position of a character in a sequence.
pub open spec fn first_index(s: Seq<char>, c: char) -> Option<int>
    decreases s.len(),
{
    if s.len() == 0 {
        None
    } else if s[0] == c {
        Some(0)
    } else {
        match first_index(s.drop_first(), c) {
            Some(i) => Some(i + 1),
            None => None,
        }
    }
}

/// A character translated: one of set 1 becomes the character at the same
/// place in set 2 (its last one when set 2 is shorter); others stay. An
/// empty set 2 leaves every character as it is.
pub open spec fn tr_char(c: char, from: Seq<char>, to: Seq<char>) -> char {
    match first_index(from, c) {
        Some(p) => if p < to.len() {
            to[p]
        } else if to.len() > 0 {
            to.last()
        } else {
            c
        },
        None => c,
    }
}

pub open spec fn translate(t: Seq<char>, from: Seq<char>, to: Seq<char>) -> Seq<char> {
    Seq::new(t.len(), |i: int| tr_char(t[i], from, to))
}

/// `tr` on stdin.
pub open spec fn tr_spec(args: Seq<Seq<char>>, stdin: Seq<char>) -> OutView {
    let st = tr_args(args);
    match st.set1 {
        None => ov(seq![], "tr: missing operand\n"@, 1),
        Some(s1) => {
            let e1 = if st.complement {
                ascii_outside(s1, 128)
            } else {
                s1
            };
            if st.delete {
                ov(delete_chars(stdin, e1), seq![], 0)
            } else if st.squeeze {
                ov(squeeze_state(stdin, e1).0, seq![], 0)
            } else {
                match st.set2 {
                    None => ov(seq![], "tr: missing operand after set\n"@, 1),
                    Some(s2) => ov(translate(stdin, e1, s2), seq![], 0),
                }
            }
        },
    }
}

proof fn lemma_first_index(s: Seq<char>, c: char, j: int)
    requires
        0 <= j <= s.len(),
        forall|k: int| 0 <= k < j ==> s[k] != c,
        j < s.len() ==> s[j] == c,
    ensures
        first_index(s, c) == (if j < s.len() {
            Some(j)
        } else {
            None::<int>
        }),
    decreases s.len(),
{
    if s.len() > 0 && j > 0 {
        let t = s.drop_first();
        assert forall|k: int| 0 <= k < j - 1 implies t[k] != c by {
            assert(t[k] == s[k + 1]);
        }
        lemma_first_index(t, c, j - 1);
    }
}

fn tr_char_exec(c: char, from: &[char], to: &[char]) -> (r: char)
    ensures
        r == tr_char(c, from@, to@),
{
    let mut j: usize = 0;
    while j < from.len() && from[j] != c
        invariant
            j <= from@.len(),
            forall|k: int| 0 <= k < j ==> from@[k] != c,
        decreases from@.len() - j,
    {
        j = j + 1;
    }
    proof {
        lemma_first_index(from@, c, j as int);
    }
    if j < from.len() {
        if j < to.len() {
            to[j]
        } else if to.len() > 0 {
            to[to.len() - 1]
        } else {
            c
        }
    } else {
        c
    }
}

fn flag_chars_contain(a: &[char], c: char) -> (r: bool)
    requires
        a@.len() > 0,
    ensures
        r == a@.drop_first().contains(c),
{
    let mut i: usize = 1;
    while i < a.len()
        invariant
            1 <= i <= a@.len(),
            forall|k: int| 1 <= k < i ==> a@[k] != c,
        decreases a@.len() - i,
    {
        if a[i] == c {
            assert(a@.drop_first()[i - 1] == c);
            return true;
        }
        i = i + 1;
    }
    assert forall|k: int| 0 <= k < a@.drop_first().len() implies a@.drop_first()[k] != c by {
        assert(a@.drop_first()[k] == a@[k + 1]);
    }
    false
}

/// `tr`: with `-d` the characters of set 1 are deleted (also with `-s`);
/// with `-s` alone repeats of them are squeezed; otherwise they are
/// translated into set 2. `-c` takes the ASCII characters outside set 1.
pub fn cmd_tr(args: &[String], stdin: &[char]) -> (r: CmdOutput)
    ensures
        r.view() == tr_spec(crate::argparse::str_views(args@), stdin@),
{
    let ghost av = crate::argparse::str_views(args@);
    let mut delete = false;
    let mut squeeze = false;
    let mut complement = false;
    let mut set1: Option<Vec<char>> = None;
    let mut set2: Option<Vec<char>> = None;
    let mut i: usize = 0;
    while i < args.len()
        invariant
            i <= args@.len(),
            av == crate::argparse::str_views(args@),
            ({
                let st = tr_args(av.take(i as int));
                &&& st.delete == delete
                &&& st.squeeze == squeeze
                &&& st.complement == complement
                &&& st.set1 == match set1 {
                    Some(v) => Some(v@),
                    None => None::<Seq<char>>,
                }
                &&& st.set2 == match set2 {
                    Some(v) => Some(v@),
                    None => None::<Seq<char>>,
                }
            }),
        decreases args@.len() - i,
    {
        let ghost t = av.take(i + 1);
        assert(t.drop_last() =~= av.take(i as int));
        assert(t.last() == args@[i as int]@);
        let a = chars_of(args[i].as_str());
        if a.len() > 0 && a[0] == '-' {
            delete = delete || flag_chars_contain(a.as_slice(), 'd');
            squeeze = squeeze || flag_chars_contain(a.as_slice(), 's');
            complement = complement || flag_chars_contain(a.as_slice(), 'c') || flag_chars_contain(
                a.as_slice(),
                'C',
            );
        } else if set1.is_none() {
            set1 = Some(tr_set_exec(a.as_slice()));
        } else if set2.is_none() {
            set2 = Some(tr_set_exec(a.as_slice()));
        }
        i = i + 1;
    }
    assert(av.take(args@.len() as int) =~= av);
    let s1 = match set1 {
        None => {
            return failure(lit("tr: missing operand\n"), 1);
        },
        Some(s) => s,
    };
    let e1 = if complement {
        complement_exec(s1.as_slice())
    } else {
        s1
    };
    let mut out: Vec<char> = Vec::new();
    if delete {
        let mut k: usize = 0;
        while k < stdin.len()
            invariant
                k <= stdin@.len(),
                out@ == delete_chars(stdin@.take(k as int), e1@),
            decreases stdin@.len() - k,
        {
            let ghost tk = stdin@.take(k + 1);
            assert(tk.drop_last() =~= stdin@.take(k as int));
            assert(tk.last() == stdin@[k as int]);
            let ghost before = out@;
            if !contains_char(e1.as_slice(), stdin[k]) {
                out.push(stdin[k]);
                assert(out@ =~= before + seq![stdin@[k as int]]);
            } else {
                assert(out@ =~= before + seq![]);
            }
            k = k + 1;
        }
        assert(stdin@.take(stdin@.len() as int) =~= stdin@);
        return success(out);
    }
    if squeeze {
        let mut prev: Option<char> = None;
        let mut k: usize = 0;
        while k < stdin.len()
            invariant
                k <= stdin@.len(),
                (out@, prev) == squeeze_state(stdin@.take(k as int), e1@),
            decreases stdin@.len() - k,
        {
            let ghost tk = stdin@.take(k + 1);
            assert(tk.drop_last() =~= stdin@.take(k as int));
            assert(tk.last() == stdin@[k as int]);
            let ch = stdin[k];
            if !(contains_char(e1.as_slice(), ch) && prev == Some(ch)) {
                out.push(ch);
                prev = Some(ch);
            }
            k = k + 1;
        }
        assert(stdin@.take(stdin@.len() as int) =~= stdin@);
        return success(out);
    }
    let s2 = match set2 {
        None => {
            return failure(lit("tr: missing operand after set\n"), 1);
        },
        Some(s) => s,
    };
    let mut k: usize = 0;
    while k < stdin.len()
        invariant
            k <= stdin@.len(),
            out@ =~= translate(stdin@.take(k as int), e1@, s2@),
        decreases stdin@.len() - k,
    {
        out.push(tr_char_exec(stdin[k], e1.as_slice(), s2.as_slice()));
        k = k + 1;
    }
    assert(stdin@.take(stdin@.len() as int) =~= stdin@);
    success(out)
}

} // verus!
