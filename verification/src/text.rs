//! Character-level text utilities shared by the parser, the file system and
//! the commands: conversions between `str`, `String`, bytes and `Vec<char>`,
//! line splitting, word splitting, trimming, joining, searching, decimal
//! formatting and parsing, and a stable lexicographic sort.
use vstd::prelude::*;
use vstd::slice::slice_to_vec;
use vstd::utf8::*;

verus! {


// ── Conversions (std calls) ──────────────────────────────────────

/// The characters of a string slice (`str::chars`, collected).
#[verifier::external_body]
pub(crate) fn chars_of(s: &str) -> (r: Vec<char>)
    ensures
        r@ == s@,
{
    s.chars().collect()
}

/// The `String` holding exactly the given characters (`Iterator::collect`).
#[verifier::external_body]
pub(crate) fn string_of(v: &[char]) -> (r: String)
    ensures
        r@ == v@,
{
    v.iter().collect()
}

/// What `String::from_utf8_lossy` makes of a byte sequence.
pub uninterp spec fn lossy_utf8(b: Seq<u8>) -> Seq<char>;

/// Decodes bytes as UTF-8, replacing invalid sequences by U+FFFD
/// (`String::from_utf8_lossy`). Its documentation states that valid UTF-8
/// comes back unchanged; that is the one fact claimed besides the name.
#[verifier::external_body]
pub(crate) fn decode_lossy(b: &[u8]) -> (r: Vec<char>)
    ensures
        r@ == lossy_utf8(b@),
        valid_utf8(b@) ==> r@ == decode_utf8(b@),
{
    String::from_utf8_lossy(b).chars().collect()
}

/// Lower-case form of a string (`str::to_lowercase`).
pub uninterp spec fn lowercase(s: Seq<char>) -> Seq<char>;

/// An ASCII letter or digit.
pub open spec fn is_ascii_alnum(c: char) -> bool {
    ('a' <= c && c <= 'z') || ('A' <= c && c <= 'Z') || ('0' <= c && c <= '9')
}

/// The ASCII lower case of a character: `A`..`Z` become `a`..`z`, every
/// other character stays.
pub open spec fn ascii_lower(c: char) -> char {
    if 'A' <= c && c <= 'Z' {
        ((c as u32) + 32) as char
    } else {
        c
    }
}

/// Every character is ASCII.
pub open spec fn all_ascii(s: Seq<char>) -> bool {
    forall|i: int| 0 <= i < s.len() ==> (s[i] as u32) < 0x80
}

/// The lower case of a text: for an ASCII text its letters `A`..`Z`
/// lowered, otherwise what `str::to_lowercase` gives.
pub closed spec fn lower_text(s: Seq<char>) -> Seq<char> {
    if all_ascii(s) {
        s.map_values(|c: char| ascii_lower(c))
    } else {
        lowercase(s)
    }
}

/// The lower case of a text (see `lower_text`).
pub(crate) fn lower_text_exec(v: &[char]) -> (r: Vec<char>)
    ensures
        r@ == lower_text(v@),
{
    to_lowercase(v)
}

/// The lower case of an ASCII text lowers its letters `A`..`Z` and keeps
/// every other character.
pub proof fn lemma_lower_text_ascii(s: Seq<char>)
    requires
        all_ascii(s),
    ensures
        lower_text(s) == s.map_values(|c: char| ascii_lower(c)),
{
}

/// Whether a character is a letter or a digit: for an ASCII character
/// `a`..`z`, `A`..`Z`, `0`..`9`, otherwise what `char::is_alphanumeric`
/// gives.
pub open spec fn word_char(c: char) -> bool {
    if (c as u32) < 0x80 {
        is_ascii_alnum(c)
    } else {
        alphanumeric(c)
    }
}

/// Lower-cases the characters (`str::to_lowercase`); the Unicode mapping is
/// named, not spelled out. Of it the contract states the ASCII part, which
/// the Unicode tables fix: a text of ASCII characters has its letters
/// `A`..`Z` lowered and every other character kept.
#[verifier::external_body]
pub(crate) fn to_lowercase(v: &[char]) -> (r: Vec<char>)
    ensures
        r@ == lowercase(v@),
        all_ascii(v@) ==> r@ == v@.map_values(|c: char| ascii_lower(c)),
{
    let s: String = v.iter().collect();
    s.to_lowercase().chars().collect()
}

/// Whether a character is alphabetic or numeric in Unicode (`char::is_alphanumeric`).
pub uninterp spec fn alphanumeric(c: char) -> bool;

/// `char::is_alphanumeric`; the Unicode tables are named, not spelled out.
/// Of them the contract states the ASCII part: an ASCII character is
/// alphanumeric exactly when it is a letter or a digit.
#[verifier::external_body]
pub(crate) fn is_alphanumeric(c: char) -> (b: bool)
    ensures
        b == alphanumeric(c),
        (c as u32) < 0x80 ==> (b <==> is_ascii_alnum(c)),
{
    c.is_alphanumeric()
}

/// Whether a number is a Unicode scalar value (a `char`).
pub open spec fn is_scalar(u: u32) -> bool {
    u <= 0xD7FF || (0xE000 <= u && u <= 0x10FFFF)
}

/// The character with a given code (`char::from_u32`): `None` for a number
/// that is no Unicode scalar value.
#[verifier::external_body]
pub(crate) fn char_from_u32(u: u32) -> (r: Option<char>)
    ensures
        is_scalar(u) ==> r == Some(u as char),
        !is_scalar(u) ==> r is None,
{
    char::from_u32(u)
}

/// UTF-8 encoding of a character sequence.
pub fn encode_text(v: &[char]) -> (r: Vec<u8>)
    ensures
        r@ == encode_utf8(v@),
{
    let s = string_of(v);
    slice_to_vec(s.as_str().as_bytes())
}

// ── Whitespace ───────────────────────────────────────────────────

/// The Unicode `White_Space` property, as used by `char::is_whitespace`.
pub open spec fn is_ws(c: char) -> bool {
    let u = c as u32;
    ||| 0x9 <= u <= 0xd
    ||| u == 0x20
    ||| u == 0x85
    ||| u == 0xa0
    ||| u == 0x1680
    ||| 0x2000 <= u <= 0x200a
    ||| u == 0x2028
    ||| u == 0x2029
    ||| u == 0x202f
    ||| u == 0x205f
    ||| u == 0x3000
}

pub fn is_whitespace(c: char) -> (b: bool)
    ensures
        b == is_ws(c),
{
    let u = c as u32;
    (0x9 <= u && u <= 0xd) || u == 0x20 || u == 0x85 || u == 0xa0 || u == 0x1680 || (0x2000 <= u
        && u <= 0x200a) || u == 0x2028 || u == 0x2029 || u == 0x202f || u == 0x205f || u == 0x3000
}

/// The character sequences held by a vector of character vectors.
pub open spec fn views(v: Seq<Vec<char>>) -> Seq<Seq<char>> {
    Seq::new(v.len(), |i: int| v[i]@)
}

pub open spec fn is_digit(c: char) -> bool {
    '0' <= c <= '9'
}

// ── Equality, prefixes, search ───────────────────────────────────

pub fn chars_eq(a: &[char], b: &[char]) -> (r: bool)
    ensures
        r == (a@ == b@),
{
    if a.len() != b.len() {
        return false;
    }
    let mut i: usize = 0;
    while i < a.len()
        invariant
            a@.len() == b@.len(),
            i <= a@.len(),
            forall|k: int| 0 <= k < i ==> a@[k] == b@[k],
        decreases a@.len() - i,
    {
        if a[i] != b[i] {
            return false;
        }
        i = i + 1;
    }
    assert(a@ =~= b@);
    true
}

/// Whether `p` occurs in `s` at position `i`.
pub open spec fn occurs_at(s: Seq<char>, p: Seq<char>, i: int) -> bool {
    0 <= i && i + p.len() <= s.len() && s.subrange(i, i + p.len()) == p
}

pub fn matches_at(s: &[char], p: &[char], i: usize) -> (r: bool)
    ensures
        r == occurs_at(s@, p@, i as int),
{
    if i > s.len() || p.len() > s.len() - i {
        return false;
    }
    let mut k: usize = 0;
    while k < p.len()
        invariant
            i + p@.len() <= s@.len(),
            s@.len() == s.len(),
            k <= p@.len(),
            forall|j: int| 0 <= j < k ==> s@[i + j] == p@[j],
        decreases p@.len() - k,
    {
        let idx: usize = i + k;
        if s[idx] != p[k] {
            assert(s@.subrange(i as int, i + p@.len())[k as int] != p@[k as int]);
            return false;
        }
        k = k + 1;
    }
    assert(s@.subrange(i as int, i + p@.len()) =~= p@);
    true
}

pub open spec fn has_suffix(s: Seq<char>, p: Seq<char>) -> bool {
    occurs_at(s, p, s.len() - p.len())
}

pub open spec fn contains_sub(s: Seq<char>, p: Seq<char>) -> bool {
    exists|i: int| occurs_at(s, p, i)
}

/// The first position at or after `from` where `p` occurs in `s`.
pub fn find_from(s: &[char], p: &[char], from: usize) -> (r: Option<usize>)
    ensures
        match r {
            Some(i) => from <= i && occurs_at(s@, p@, i as int) && forall|j: int|
                from <= j < i ==> !occurs_at(s@, p@, j),
            None => forall|j: int| from <= j ==> !occurs_at(s@, p@, j),
        },
{
    if from > s.len() {
        return None;
    }
    let mut i = from;
    while i < s.len()
        invariant
            from <= i <= s@.len(),
            forall|j: int| from <= j < i ==> !occurs_at(s@, p@, j),
        decreases s@.len() - i,
    {
        if matches_at(s, p, i) {
            return Some(i);
        }
        i = i + 1;
    }
    if matches_at(s, p, i) {
        return Some(i);
    }
    None
}

pub fn contains_chars(s: &[char], p: &[char]) -> (r: bool)
    ensures
        r == contains_sub(s@, p@),
{
    match find_from(s, p, 0) {
        Some(i) => true,
        None => {
            assert(forall|j: int| !occurs_at(s@, p@, j));
            false
        },
    }
}

// ── Building text ────────────────────────────────────────────────

pub fn push_all(v: &mut Vec<char>, s: &[char])
    ensures
        final(v)@ == old(v)@ + s@,
{
    let mut i: usize = 0;
    while i < s.len()
        invariant
            i <= s@.len(),
            v@ == old(v)@ + s@.take(i as int),
        decreases s@.len() - i,
    {
        v.push(s[i]);
        i = i + 1;
        assert(s@.take(i as int) =~= s@.take(i - 1) + seq![s@[i - 1]]);
    }
    assert(s@.take(s@.len() as int) =~= s@);
}

pub fn push_str(v: &mut Vec<char>, s: &str)
    ensures
        final(v)@ == old(v)@ + s@,
{
    let c = chars_of(s);
    push_all(v, c.as_slice());
}

pub fn lit(s: &str) -> (r: Vec<char>)
    ensures
        r@ == s@,
{
    chars_of(s)
}

pub fn subvec(s: &[char], a: usize, b: usize) -> (r: Vec<char>)
    requires
        a <= b <= s@.len(),
    ensures
        r@ == s@.subrange(a as int, b as int),
{
    let mut r: Vec<char> = Vec::new();
    let mut i = a;
    while i < b
        invariant
            a <= i <= b <= s@.len(),
            r@ == s@.subrange(a as int, i as int),
        decreases b - i,
    {
        r.push(s[i]);
        i = i + 1;
        assert(r@ =~= s@.subrange(a as int, i as int));
    }
    r
}

pub fn clone_chars(s: &[char]) -> (r: Vec<char>)
    ensures
        r@ == s@,
{
    let r = subvec(s, 0, s.len());
    assert(s@.subrange(0, s@.len() as int) =~= s@);
    r
}

// ── Decimal numbers ──────────────────────────────────────────────

pub open spec fn digit_char(d: nat) -> char {
    ((d + 48) as u32) as char
}

/// Decimal representation of a natural number, without leading zeros.
pub open spec fn dec(n: nat) -> Seq<char>
    decreases n,
{
    if n < 10 {
        seq![digit_char(n)]
    } else {
        dec(n / 10).push(digit_char(n % 10))
    }
}

pub fn u64_to_text(n: u64) -> (r: Vec<char>)
    ensures
        r@ == dec(n as nat),
    decreases n,
{
    if n < 10 {
        let c = char_of_digit(n);
        let mut r: Vec<char> = Vec::new();
        r.push(c);
        assert(r@ =~= seq![digit_char(n as nat)]);
        r
    } else {
        let mut r = u64_to_text(n / 10);
        r.push(char_of_digit(n % 10));
        r
    }
}

fn char_of_digit(d: u64) -> (c: char)
    requires
        d < 10,
    ensures
        c == digit_char(d as nat),
{
    if d == 0 {
        '0'
    } else if d == 1 {
        '1'
    } else if d == 2 {
        '2'
    } else if d == 3 {
        '3'
    } else if d == 4 {
        '4'
    } else if d == 5 {
        '5'
    } else if d == 6 {
        '6'
    } else if d == 7 {
        '7'
    } else if d == 8 {
        '8'
    } else {
        '9'
    }
}

pub open spec fn digit_val(c: char) -> nat {
    ((c as u32) - 48) as nat
}

/// Value of a sequence of decimal digits.
pub open spec fn digits_value(d: Seq<char>) -> nat
    decreases d.len(),
{
    if d.len() == 0 {
        0
    } else {
        digits_value(d.drop_last()) * 10 + digit_val(d.last())
    }
}

pub open spec fn all_digits(d: Seq<char>) -> bool {
    forall|i: int| 0 <= i < d.len() ==> is_digit(#[trigger] d[i])
}

/// What `str::parse::<usize>` accepts: an optional `+`, then one or more
/// ASCII digits, with a value that fits in `usize`.
pub open spec fn parse_usize_spec(s: Seq<char>) -> Option<usize> {
    let d = if s.len() > 0 && s[0] == '+' {
        s.drop_first()
    } else {
        s
    };
    if d.len() > 0 && all_digits(d) && digits_value(d) <= usize::MAX {
        Some(digits_value(d) as usize)
    } else {
        None
    }
}

pub fn parse_usize(s: &[char]) -> (r: Option<usize>)
    ensures
        r == parse_usize_spec(s@),
{
    let start: usize = if s.len() > 0 && s[0] == '+' {
        1
    } else {
        0
    };
    let ghost d = if s@.len() > 0 && s@[0] == '+' {
        s@.drop_first()
    } else {
        s@
    };
    assert(d =~= s@.skip(start as int));
    if start >= s.len() {
        return None;
    }
    let mut v: usize = 0;
    let mut i = start;
    let mut overflow = false;
    while i < s.len()
        invariant
            start <= i <= s@.len(),
            start < s@.len(),
            d =~= s@.skip(start as int),
            d == (if s@.len() > 0 && s@[0] == '+' {
                s@.drop_first()
            } else {
                s@
            }),
            all_digits(d.take(i - start)),
            !overflow ==> v == digits_value(d.take(i - start)),
            overflow ==> digits_value(d.take(i - start)) > usize::MAX,
        decreases s@.len() - i,
    {
        let c = s[i];
        if !('0' <= c && c <= '9') {
            assert(d[i - start] == c);
            assert(!is_digit(d[i - start]));
            return None;
        }
        let dv = (c as u32 - 48) as usize;
        let ghost old_take = d.take(i - start);
        i = i + 1;
        assert(d.take(i - start).drop_last() =~= old_take);
        assert(d.take(i - start).last() == c);
        if !overflow {
            match v.checked_mul(10) {
                Some(m) => match m.checked_add(dv) {
                    Some(n) => {
                        v = n;
                    },
                    None => {
                        overflow = true;
                    },
                },
                None => {
                    overflow = true;
                },
            }
        } else {
            assert(digits_value(d.take(i - start)) >= digits_value(old_take) * 10);
        }
    }
    assert(d.take(i - start) =~= d);
    if overflow {
        None
    } else {
        Some(v)
    }
}

// ── Splitting ────────────────────────────────────────────────────

/// State of a left-to-right split on a separator: the finished pieces and
/// the piece being built.
pub open spec fn split_state(s: Seq<char>, sep: char) -> (Seq<Seq<char>>, Seq<char>)
    decreases s.len(),
{
    if s.len() == 0 {
        (seq![], seq![])
    } else {
        let (done, cur) = split_state(s.drop_last(), sep);
        if s.last() == sep {
            (done.push(cur), seq![])
        } else {
            (done, cur.push(s.last()))
        }
    }
}

/// `str::split` on a single character: the pieces between separators.
pub open spec fn split_on(s: Seq<char>, sep: char) -> Seq<Seq<char>> {
    split_state(s, sep).0.push(split_state(s, sep).1)
}

pub fn split_chars(s: &[char], sep: char) -> (r: Vec<Vec<char>>)
    ensures
        views(r@) == split_on(s@, sep),
        r@.len() >= 1,
{
    let mut done: Vec<Vec<char>> = Vec::new();
    let mut cur: Vec<char> = Vec::new();
    let mut i: usize = 0;
    while i < s.len()
        invariant
            i <= s@.len(),
            (views(done@), cur@) == split_state(s@.take(i as int), sep),
        decreases s@.len() - i,
    {
        let c = s[i];
        let ghost before = views(done@);
        assert(s@.take(i + 1).drop_last() =~= s@.take(i as int));
        if c == sep {
            done.push(cur);
            cur = Vec::new();
            assert(views(done@) =~= before.push(split_state(s@.take(i as int), sep).1));
        } else {
            cur.push(c);
            assert(views(done@) =~= before);
        }
        i = i + 1;
    }
    assert(s@.take(s@.len() as int) =~= s@);
    let ghost before = views(done@);
    done.push(cur);
    assert(views(done@) =~= before.push(split_state(s@, sep).1));
    done
}

/// `str::lines`: split at `\n`, drop a final empty piece, and strip a `\r`
/// that precedes a `\n`.
pub open spec fn lines_of(s: Seq<char>) -> Seq<Seq<char>> {
    let p = split_on(s, '\n');
    let q = if p.last().len() == 0 {
        p.drop_last()
    } else {
        p
    };
    Seq::new(
        q.len(),
        |i: int|
            if i < p.len() - 1 && q[i].len() > 0 && q[i].last() == '\r' {
                q[i].drop_last()
            } else {
                q[i]
            },
    )
}

pub fn lines(s: &[char]) -> (r: Vec<Vec<char>>)
    ensures
        views(r@) == lines_of(s@),
{
    let p = split_chars(s, '\n');
    let n = p.len();
    let keep = if p[n - 1].len() == 0 {
        n - 1
    } else {
        n
    };
    let ghost pv = views(p@);
    let ghost q = if pv.last().len() == 0 {
        pv.drop_last()
    } else {
        pv
    };
    assert(q.len() == keep);
    let mut r: Vec<Vec<char>> = Vec::new();
    let mut i: usize = 0;
    while i < keep
        invariant
            keep <= n == p@.len(),
            pv == views(p@),
            q.len() == keep,
            forall|k: int| 0 <= k < keep ==> q[k] == pv[k],
            i <= keep,
            views(r@) =~= lines_of(s@).take(i as int),
            lines_of(s@).len() == keep,
            pv == split_on(s@, '\n'),
        decreases keep - i,
    {
        let line = &p[i];
        let ll = line.len();
        let piece = if i < n - 1 && ll > 0 && line[ll - 1] == '\r' {
            subvec(line.as_slice(), 0, ll - 1)
        } else {
            clone_chars(line.as_slice())
        };
        assert(piece@ == lines_of(s@)[i as int]);
        let ghost before = views(r@);
        r.push(piece);
        i = i + 1;
        assert(views(r@) =~= before.push(piece@));
        assert(lines_of(s@).take(i as int) =~= lines_of(s@).take(i - 1).push(piece@));
    }
    assert(lines_of(s@).take(keep as int) =~= lines_of(s@));
    r
}

/// State of `str::split_whitespace`: words found so far and the current word.
pub open spec fn words_state(s: Seq<char>) -> (Seq<Seq<char>>, Seq<char>)
    decreases s.len(),
{
    if s.len() == 0 {
        (seq![], seq![])
    } else {
        let (done, cur) = words_state(s.drop_last());
        if is_ws(s.last()) {
            if cur.len() > 0 {
                (done.push(cur), seq![])
            } else {
                (done, cur)
            }
        } else {
            (done, cur.push(s.last()))
        }
    }
}

/// `str::split_whitespace`: the maximal runs of non-whitespace characters.
pub open spec fn words_of(s: Seq<char>) -> Seq<Seq<char>> {
    let (done, cur) = words_state(s);
    if cur.len() > 0 {
        done.push(cur)
    } else {
        done
    }
}

pub fn split_words(s: &[char]) -> (r: Vec<Vec<char>>)
    ensures
        views(r@) == words_of(s@),
{
    let mut done: Vec<Vec<char>> = Vec::new();
    let mut cur: Vec<char> = Vec::new();
    let mut i: usize = 0;
    while i < s.len()
        invariant
            i <= s@.len(),
            (views(done@), cur@) == words_state(s@.take(i as int)),
        decreases s@.len() - i,
    {
        let c = s[i];
        let ghost before = views(done@);
        assert(s@.take(i + 1).drop_last() =~= s@.take(i as int));
        if is_whitespace(c) {
            if cur.len() > 0 {
                done.push(cur);
                cur = Vec::new();
                assert(views(done@) =~= before.push(words_state(s@.take(i as int)).1));
            }
        } else {
            cur.push(c);
        }
        i = i + 1;
    }
    assert(s@.take(s@.len() as int) =~= s@);
    if cur.len() > 0 {
        let ghost before = views(done@);
        done.push(cur);
        assert(views(done@) =~= before.push(words_state(s@).1));
    }
    done
}

// ── Trimming ─────────────────────────────────────────────────────

pub open spec fn trim_start_spec(s: Seq<char>) -> Seq<char>
    decreases s.len(),
{
    if s.len() > 0 && is_ws(s[0]) {
        trim_start_spec(s.drop_first())
    } else {
        s
    }
}

pub open spec fn trim_end_spec(s: Seq<char>) -> Seq<char>
    decreases s.len(),
{
    if s.len() > 0 && is_ws(s.last()) {
        trim_end_spec(s.drop_last())
    } else {
        s
    }
}

/// `str::trim`: whitespace removed from both ends.
pub open spec fn trim_spec(s: Seq<char>) -> Seq<char> {
    trim_end_spec(trim_start_spec(s))
}

pub fn trim(s: &[char]) -> (r: Vec<char>)
    ensures
        r@ == trim_spec(s@),
{
    let mut a: usize = 0;
    assert(s@.skip(0) =~= s@);
    while a < s.len() && is_whitespace(s[a])
        invariant
            a <= s@.len(),
            trim_start_spec(s@) == trim_start_spec(s@.skip(a as int)),
        decreases s@.len() - a,
    {
        assert(s@.skip(a as int).drop_first() =~= s@.skip(a + 1));
        a = a + 1;
    }
    let ghost t = s@.skip(a as int);
    assert(trim_start_spec(s@) == t);
    let mut b: usize = s.len();
    while b > a && is_whitespace(s[b - 1])
        invariant
            a <= b <= s@.len(),
            t == s@.skip(a as int),
            trim_end_spec(t) == trim_end_spec(s@.subrange(a as int, b as int)),
        decreases b,
    {
        assert(s@.subrange(a as int, b as int).drop_last() =~= s@.subrange(a as int, b - 1));
        b = b - 1;
    }
    assert(s@.subrange(a as int, s@.len() as int) =~= t);
    subvec(s, a, b)
}

// ── Joining ──────────────────────────────────────────────────────

/// `[T]::join`: the pieces with the separator between consecutive ones.
pub open spec fn join_spec(parts: Seq<Seq<char>>, sep: Seq<char>) -> Seq<char>
    decreases parts.len(),
{
    if parts.len() == 0 {
        seq![]
    } else if parts.len() == 1 {
        parts[0]
    } else {
        join_spec(parts.drop_last(), sep) + sep + parts.last()
    }
}

pub fn join(parts: &Vec<Vec<char>>, sep: &[char]) -> (r: Vec<char>)
    ensures
        r@ == join_spec(views(parts@), sep@),
{
    let mut r: Vec<char> = Vec::new();
    let mut i: usize = 0;
    while i < parts.len()
        invariant
            i <= parts@.len(),
            r@ == join_spec(views(parts@).take(i as int), sep@),
        decreases parts@.len() - i,
    {
        let ghost before = r@;
        if i > 0 {
            push_all(&mut r, sep);
        }
        push_all(&mut r, parts[i].as_slice());
        i = i + 1;
        assert(views(parts@).take(i as int).drop_last() =~= views(parts@).take(i - 1));
    }
    assert(views(parts@).take(parts@.len() as int) =~= views(parts@));
    r
}

// ── Lexicographic order and a stable insertion sort ──────────────

/// Strict lexicographic order on character sequences (the order of `str`).
pub open spec fn lex_lt(a: Seq<char>, b: Seq<char>) -> bool
    decreases a.len(),
{
    if a.len() == 0 {
        b.len() > 0
    } else if b.len() == 0 {
        false
    } else if a[0] != b[0] {
        (a[0] as u32) < (b[0] as u32)
    } else {
        lex_lt(a.drop_first(), b.drop_first())
    }
}

pub fn less_than(a: &[char], b: &[char]) -> (r: bool)
    ensures
        r == lex_lt(a@, b@),
{
    let mut i: usize = 0;
    assert(a@.skip(0) =~= a@);
    assert(b@.skip(0) =~= b@);
    while i < a.len() && i < b.len()
        invariant
            i <= a@.len(),
            i <= b@.len(),
            lex_lt(a@, b@) == lex_lt(a@.skip(i as int), b@.skip(i as int)),
        decreases a@.len() - i,
    {
        if a[i] != b[i] {
            assert(a@.skip(i as int)[0] == a@[i as int]);
            assert(b@.skip(i as int)[0] == b@[i as int]);
            return (a[i] as u32) < (b[i] as u32);
        }
        assert(a@.skip(i as int).drop_first() =~= a@.skip(i + 1));
        assert(b@.skip(i as int).drop_first() =~= b@.skip(i + 1));
        i = i + 1;
    }
    a.len() - i == 0 && b.len() - i > 0
}

/// Inserts `x` before the first element that is greater than it.
pub open spec fn insert_sorted(s: Seq<Seq<char>>, x: Seq<char>) -> Seq<Seq<char>>
    decreases s.len(),
{
    if s.len() == 0 {
        seq![x]
    } else if lex_lt(x, s[0]) {
        seq![x] + s
    } else {
        seq![s[0]] + insert_sorted(s.drop_first(), x)
    }
}

/// The stable sort of a sequence of strings (as `slice::sort` on strings).
pub open spec fn sort_spec(s: Seq<Seq<char>>) -> Seq<Seq<char>>
    decreases s.len(),
{
    if s.len() == 0 {
        seq![]
    } else {
        insert_sorted(sort_spec(s.drop_last()), s.last())
    }
}

proof fn lemma_insert_at(s: Seq<Seq<char>>, x: Seq<char>, j: int)
    requires
        0 <= j <= s.len(),
        forall|k: int| 0 <= k < j ==> !lex_lt(x, #[trigger] s[k]),
        j < s.len() ==> lex_lt(x, s[j]),
    ensures
        insert_sorted(s, x) == s.insert(j, x),
    decreases j,
{
    if s.len() == 0 {
        assert(s.insert(j, x) =~= seq![x]);
    } else if j == 0 {
        assert(s.insert(0, x) =~= seq![x] + s);
    } else {
        assert(!lex_lt(x, s[0]));
        let t = s.drop_first();
        assert forall|k: int| 0 <= k < j - 1 implies !lex_lt(x, #[trigger] t[k]) by {
            assert(t[k] == s[k + 1]);
        }
        lemma_insert_at(t, x, j - 1);
        assert(s.insert(j, x) =~= seq![s[0]] + t.insert(j - 1, x));
    }
}

pub fn sort_lines(v: &Vec<Vec<char>>) -> (r: Vec<Vec<char>>)
    ensures
        views(r@) == sort_spec(views(v@)),
{
    let mut r: Vec<Vec<char>> = Vec::new();
    let mut i: usize = 0;
    while i < v.len()
        invariant
            i <= v@.len(),
            views(r@) == sort_spec(views(v@).take(i as int)),
        decreases v@.len() - i,
    {
        let x = clone_chars(v[i].as_slice());
        let mut j: usize = 0;
        while j < r.len() && !less_than(x.as_slice(), r[j].as_slice())
            invariant
                j <= r@.len(),
                forall|k: int| 0 <= k < j ==> !lex_lt(x@, #[trigger] views(r@)[k]),
            decreases r@.len() - j,
        {
            j = j + 1;
        }
        let ghost before = views(r@);
        proof {
            lemma_insert_at(before, x@, j as int);
        }
        r.insert(j, x);
        assert(views(r@) =~= before.insert(j as int, x@));
        i = i + 1;
        assert(views(v@).take(i as int).drop_last() =~= views(v@).take(i - 1));
    }
    assert(views(v@).take(v@.len() as int) =~= views(v@));
    r
}

/// Lines in order: no line is less than one before it.
pub open spec fn sorted_lines(s: Seq<Seq<char>>) -> bool {
    forall|i: int, j: int| 0 <= i < j < s.len() ==> !lex_lt(#[trigger] s[j], #[trigger] s[i])
}

pub(crate) proof fn lemma_lex_irreflexive(a: Seq<char>)
    ensures
        !lex_lt(a, a),
    decreases a.len(),
{
    if a.len() > 0 {
        lemma_lex_irreflexive(a.drop_first());
    }
}

pub(crate) proof fn lemma_lex_transitive(a: Seq<char>, b: Seq<char>, c: Seq<char>)
    requires
        lex_lt(a, b),
        lex_lt(b, c),
    ensures
        lex_lt(a, c),
    decreases a.len(),
{
    if a.len() > 0 && b.len() > 0 && c.len() > 0 {
        if a[0] == b[0] && b[0] == c[0] {
            lemma_lex_transitive(a.drop_first(), b.drop_first(), c.drop_first());
        }
    }
}

pub(crate) proof fn lemma_lex_total(a: Seq<char>, b: Seq<char>)
    requires
        a != b,
    ensures
        lex_lt(a, b) || lex_lt(b, a),
    decreases a.len(),
{
    if a.len() == 0 {
        assert(b.len() > 0) by {
            if b.len() == 0 {
                assert(a =~= b);
            }
        }
    } else if b.len() > 0 && a[0] == b[0] {
        if a.drop_first() == b.drop_first() {
            assert(a =~= seq![a[0]] + a.drop_first());
            assert(b =~= seq![b[0]] + b.drop_first());
        }
        lemma_lex_total(a.drop_first(), b.drop_first());
    } else if b.len() > 0 {
        let ca = a[0];
        let cb = b[0];
        vstd::utf8::char_u32_cast(ca, ca as u32);
        vstd::utf8::char_u32_cast(cb, cb as u32);
        assert((ca as u32) != (cb as u32));
    }
}

/// Where `insert_sorted` puts `x`: before the first line greater than it.
spec fn insert_pos(s: Seq<Seq<char>>, x: Seq<char>) -> int
    decreases s.len(),
{
    if s.len() == 0 {
        0
    } else if lex_lt(x, s[0]) {
        0
    } else {
        1 + insert_pos(s.drop_first(), x)
    }
}

proof fn lemma_insert_pos(s: Seq<Seq<char>>, x: Seq<char>)
    ensures
        0 <= insert_pos(s, x) <= s.len(),
        forall|k: int| 0 <= k < insert_pos(s, x) ==> !lex_lt(x, #[trigger] s[k]),
        insert_pos(s, x) < s.len() ==> lex_lt(x, s[insert_pos(s, x)]),
    decreases s.len(),
{
    if s.len() > 0 && !lex_lt(x, s[0]) {
        let t = s.drop_first();
        lemma_insert_pos(t, x);
        assert forall|k: int| 0 <= k < insert_pos(s, x) implies !lex_lt(x, #[trigger] s[k]) by {
            if k > 0 {
                assert(s[k] == t[k - 1]);
            }
        }
        if insert_pos(s, x) < s.len() {
            assert(s[insert_pos(s, x)] == t[insert_pos(t, x)]);
        }
    }
}

/// Inserting into sorted lines keeps them sorted and adds exactly `x`.
proof fn lemma_insert_sorted_sorted(s: Seq<Seq<char>>, x: Seq<char>)
    requires
        sorted_lines(s),
    ensures
        sorted_lines(insert_sorted(s, x)),
        insert_sorted(s, x).to_multiset() == s.to_multiset().insert(x),
{
    lemma_insert_pos(s, x);
    let j = insert_pos(s, x);
    lemma_insert_at(s, x, j);
    let r = s.insert(j, x);
    assert forall|a: int, b: int| 0 <= a < b < r.len() implies !lex_lt(#[trigger] r[b], #[trigger] r[a]) by {
        let ea = if a < j { s[a] } else if a == j { x } else { s[a - 1] };
        let eb = if b < j { s[b] } else if b == j { x } else { s[b - 1] };
        assert(r[a] == ea);
        assert(r[b] == eb);
        if a == j {
            // x before s[b - 1], with s[j] <= s[b - 1] and x < s[j]
            if lex_lt(eb, x) {
                lemma_lex_transitive(eb, x, s[j]);
                if b - 1 == j {
                    lemma_lex_irreflexive(s[j]);
                } else {
                    assert(!lex_lt(s[b - 1], s[j]));
                }
            }
        } else if b == j {
            assert(!lex_lt(x, s[a]));
        } else if a < j && j < b {
            assert(a < b - 1 || a == b - 1);
            if a == b - 1 {
                lemma_lex_irreflexive(s[a]);
            }
        } else if j < a {
            assert(!lex_lt(s[b - 1], s[a - 1]));
        }
    }
    assert(r.remove(j) =~= s);
    broadcast use vstd::seq_lib::group_to_multiset_ensures;
    assert(r[j] == x);
    assert(r.to_multiset() =~= s.to_multiset().insert(x)) by {
        assert(r.to_multiset().count(x) > 0);
        assert(s.to_multiset() == r.to_multiset().remove(x));
    }
}

/// `sort` puts lines in order and keeps every line, as often as it came.
pub proof fn law_sort_sorted(s: Seq<Seq<char>>)
    ensures
        sorted_lines(sort_spec(s)),
        sort_spec(s).to_multiset() == s.to_multiset(),
    decreases s.len(),
{
    if s.len() > 0 {
        let t = s.drop_last();
        law_sort_sorted(t);
        lemma_insert_sorted_sorted(sort_spec(t), s.last());
        broadcast use vstd::seq_lib::group_to_multiset_ensures;
        assert(t.push(s.last()) =~= s);
        assert(t.push(s.last()).to_multiset() =~= t.to_multiset().insert(s.last()));
        assert(s.to_multiset() == t.to_multiset().insert(s.last()));
        assert(sort_spec(s) == insert_sorted(sort_spec(t), s.last()));
        assert(sort_spec(s).to_multiset() == sort_spec(t).to_multiset().insert(s.last()));
    } else {
        assert(sort_spec(s) =~= s);
    }
}

// ── Replacing ────────────────────────────────────────────────────

/// `str::replace` for a nonempty pattern: every occurrence, scanning left
/// to right without overlap, replaced by `t`.
pub open spec fn replace_all(s: Seq<char>, p: Seq<char>, t: Seq<char>) -> Seq<char>
    decreases s.len(),
{
    if s.len() == 0 {
        seq![]
    } else if p.len() > 0 && occurs_at(s, p, 0) {
        t + replace_all(s.skip(p.len() as int), p, t)
    } else {
        seq![s[0]] + replace_all(s.drop_first(), p, t)
    }
}

/// `str::replacen(p, t, 1)` for a nonempty pattern: the first occurrence
/// replaced by `t`.
pub open spec fn replace_first(s: Seq<char>, p: Seq<char>, t: Seq<char>) -> Seq<char>
    decreases s.len(),
{
    if s.len() == 0 {
        seq![]
    } else if p.len() > 0 && occurs_at(s, p, 0) {
        t + s.skip(p.len() as int)
    } else {
        seq![s[0]] + replace_first(s.drop_first(), p, t)
    }
}

proof fn lemma_occurs_skip(s: Seq<char>, p: Seq<char>, i: int)
    requires
        0 <= i <= s.len(),
    ensures
        occurs_at(s.skip(i), p, 0) == occurs_at(s, p, i),
{
    if occurs_at(s, p, i) {
        assert(s.skip(i).subrange(0, p.len() as int) =~= s.subrange(i, i + p.len()));
    }
    if occurs_at(s.skip(i), p, 0) {
        assert(s.skip(i).subrange(0, p.len() as int) =~= s.subrange(i, i + p.len()));
    }
}

pub fn replace_all_exec(s: &[char], p: &[char], t: &[char]) -> (r: Vec<char>)
    ensures
        r@ == replace_all(s@, p@, t@),
{
    let mut r: Vec<char> = Vec::new();
    let mut i: usize = 0;
    assert(s@.skip(0) =~= s@);
    while i < s.len()
        invariant
            i <= s@.len(),
            r@ + replace_all(s@.skip(i as int), p@, t@) == replace_all(s@, p@, t@),
        decreases s@.len() - i,
    {
        let ghost rest = s@.skip(i as int);
        proof {
            lemma_occurs_skip(s@, p@, i as int);
        }
        if p.len() > 0 && matches_at(s, p, i) {
            push_all(&mut r, t);
            assert(rest.skip(p@.len() as int) =~= s@.skip(i + p@.len()));
            i = i + p.len();
        } else {
            r.push(s[i]);
            assert(rest.drop_first() =~= s@.skip(i + 1));
            assert(seq![rest[0]] + replace_all(rest.drop_first(), p@, t@) == replace_all(rest, p@, t@));
            i = i + 1;
        }
    }
    assert(s@.skip(i as int) =~= seq![]);
    assert(r@ + seq![] =~= r@);
    r
}

pub fn replace_first_exec(s: &[char], p: &[char], t: &[char]) -> (r: Vec<char>)
    ensures
        r@ == replace_first(s@, p@, t@),
{
    let mut r: Vec<char> = Vec::new();
    let mut i: usize = 0;
    assert(s@.skip(0) =~= s@);
    while i < s.len()
        invariant
            i <= s@.len(),
            r@ + replace_first(s@.skip(i as int), p@, t@) == replace_first(s@, p@, t@),
        decreases s@.len() - i,
    {
        let ghost rest = s@.skip(i as int);
        proof {
            lemma_occurs_skip(s@, p@, i as int);
        }
        if p.len() > 0 && matches_at(s, p, i) {
            let ghost before = r@;
            push_all(&mut r, t);
            let tail = subvec(s, i + p.len(), s.len());
            push_all(&mut r, tail.as_slice());
            assert(rest.skip(p@.len() as int) =~= tail@);
            assert(r@ =~= before + replace_first(rest, p@, t@));
            assert(s@.skip(s@.len() as int) =~= seq![]);
            assert(r@ + seq![] =~= r@);
            return r;
        } else {
            r.push(s[i]);
            assert(rest.drop_first() =~= s@.skip(i + 1));
            assert(seq![rest[0]] + replace_first(rest.drop_first(), p@, t@) == replace_first(rest, p@, t@));
            i = i + 1;
        }
    }
    assert(s@.skip(i as int) =~= seq![]);
    assert(r@ + seq![] =~= r@);
    r
}

// ── Padding, adding and deduplicating ────────────────────────────

/// `n` spaces.
pub open spec fn blanks(n: nat) -> Seq<char> {
    Seq::new(n, |i: int| ' ')
}

/// Right-aligned in a field of `w` characters (`{:>w}`).
pub open spec fn pad_left(s: Seq<char>, w: nat) -> Seq<char> {
    if s.len() < w {
        blanks((w - s.len()) as nat) + s
    } else {
        s
    }
}

pub fn pad_left_exec(s: &[char], w: usize) -> (r: Vec<char>)
    ensures
        r@ == pad_left(s@, w as nat),
{
    let mut r: Vec<char> = Vec::new();
    if s.len() < w {
        let n = w - s.len();
        let mut i: usize = 0;
        while i < n
            invariant
                i <= n,
                r@ =~= blanks(i as nat),
            decreases n - i,
        {
            r.push(' ');
            i = i + 1;
        }
    }
    push_all(&mut r, s);
    assert(r@ =~= pad_left(s@, w as nat));
    r
}

/// Addition modulo 2^64.
pub open spec fn wrap_add(a: u64, b: u64) -> u64 {
    if a + b > u64::MAX {
        (a + b - u64::MAX - 1) as u64
    } else {
        (a + b) as u64
    }
}

pub fn wrap_add_exec(a: u64, b: u64) -> (r: u64)
    ensures
        r == wrap_add(a, b),
{
    if a <= u64::MAX - b {
        a + b
    } else {
        b - (u64::MAX - a) - 1
    }
}

/// `Vec::dedup`: consecutive equal items kept once.
pub open spec fn dedup(s: Seq<Seq<char>>) -> Seq<Seq<char>>
    decreases s.len(),
{
    if s.len() == 0 {
        seq![]
    } else {
        let d = dedup(s.drop_last());
        if d.len() > 0 && d.last() == s.last() {
            d
        } else {
            d.push(s.last())
        }
    }
}

/// `dedup` leaves no two equal items next to each other, and keeps every
/// item that was there.
pub proof fn law_dedup_no_repeats(s: Seq<Seq<char>>)
    ensures
        forall|i: int, j: int|
            0 <= i && j == i + 1 && j < dedup(s).len() ==> #[trigger] dedup(s)[i] != #[trigger] dedup(s)[j],
        forall|x: Seq<char>|
            #![trigger s.contains(x)]
            #![trigger dedup(s).contains(x)]
            s.contains(x) <==> dedup(s).contains(x),
    decreases s.len(),
{
    if s.len() > 0 {
        let t = s.drop_last();
        law_dedup_no_repeats(t);
        let d = dedup(t);
        let l = s.last();
        assert forall|x: Seq<char>| s.contains(x) <==> dedup(s).contains(x) by {
            if s.contains(x) {
                let k = choose|k: int| 0 <= k < s.len() && s[k] == x;
                if k < s.len() - 1 {
                    assert(t[k] == x);
                    assert(t.contains(x));
                    let m = choose|m: int| 0 <= m < d.len() && d[m] == x;
                    if d.len() > 0 && d.last() == l {
                        assert(dedup(s)[m] == x);
                    } else {
                        assert(dedup(s)[m] == x);
                    }
                } else {
                    if d.len() > 0 && d.last() == l {
                        assert(dedup(s)[d.len() - 1] == x);
                    } else {
                        assert(dedup(s)[d.len() as int] == x);
                    }
                }
            }
            if dedup(s).contains(x) {
                let m = choose|m: int| 0 <= m < dedup(s).len() && dedup(s)[m] == x;
                if m < d.len() {
                    assert(d[m] == x);
                    assert(d.contains(x));
                    let k = choose|k: int| 0 <= k < t.len() && t[k] == x;
                    assert(s[k] == x);
                } else {
                    assert(s[s.len() - 1] == x);
                }
            }
        }
        if !(d.len() > 0 && d.last() == l) {
            assert forall|i: int, j: int|
                0 <= i && j == i + 1 && j < d.push(l).len() implies #[trigger] d.push(l)[i]
                != #[trigger] d.push(l)[j] by {
                if j < d.len() {
                    assert(d.push(l)[i] == d[i]);
                    assert(d.push(l)[j] == d[j]);
                } else {
                    assert(d.push(l)[i] == d.last());
                }
            }
        }
    }
}

pub fn dedup_exec(s: &Vec<Vec<char>>) -> (r: Vec<Vec<char>>)
    ensures
        views(r@) == dedup(views(s@)),
{
    let mut r: Vec<Vec<char>> = Vec::new();
    let mut i: usize = 0;
    while i < s.len()
        invariant
            i <= s@.len(),
            views(r@) == dedup(views(s@).take(i as int)),
        decreases s@.len() - i,
    {
        let ghost t = views(s@).take(i + 1);
        assert(t.drop_last() =~= views(s@).take(i as int));
        assert(t.last() == s@[i as int]@);
        let n = r.len();
        if n > 0 && chars_eq(r[n - 1].as_slice(), s[i].as_slice()) {
            assert(views(r@).last() == r@[n - 1]@);
        } else {
            let ghost before = views(r@);
            r.push(clone_chars(s[i].as_slice()));
            assert(views(r@) =~= before.push(s@[i as int]@));
            assert(n > 0 ==> before.last() == r@[n - 1]@);
        }
        i = i + 1;
    }
    assert(views(s@).take(s@.len() as int) =~= views(s@));
    r
}

/// The items in reverse order.
pub fn reverse_exec(s: &Vec<Vec<char>>) -> (r: Vec<Vec<char>>)
    ensures
        views(r@) == views(s@).reverse(),
{
    let mut r: Vec<Vec<char>> = Vec::new();
    let mut i: usize = s.len();
    while i > 0
        invariant
            i <= s@.len(),
            views(r@) =~= views(s@).skip(i as int).reverse(),
        decreases i,
    {
        i = i - 1;
        let ghost before = views(r@);
        r.push(clone_chars(s[i].as_slice()));
        assert(views(r@) =~= before.push(s@[i as int]@));
    }
    assert(views(s@).skip(0) =~= views(s@));
    r
}

} // verus!
