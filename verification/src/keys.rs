//! Paths from the root as the file system keeps them. A stored path is a
//! chain of names in which every node shares the path above it, so a deep
//! tree costs one name per node. A path that is asked about is one text with
//! the index ranges of its components.
use crate::fs::{has_key_prefix, is_child_key, key_of, parent_of};
use crate::paths::{range_is, range_views, ranges_ok, resolve_abs, split_path, split_ranges};
use crate::text::{clone_chars, push_all};
use std::rc::Rc;
use vstd::prelude::*;
use vstd::slice::slice_to_vec;

verus! {

// ══════════════════════════════════════════════════════════════════
// Components of a path that is asked about
// ══════════════════════════════════════════════════════════════════

/// The components of a path: one text and the index range of each
/// component in it.
pub struct Comps {
    buf: Vec<char>,
    ranges: Vec<(usize, usize)>,
}

impl Comps {
    #[verifier::type_invariant]
    spec fn ranges_fit(self) -> bool {
        ranges_ok(self.buf@, self.ranges@)
    }

    /// The components, in order.
    pub closed spec fn view(&self) -> Seq<Seq<char>> {
        range_views(self.buf@, self.ranges@)
    }

    pub fn len(&self) -> (r: usize)
        ensures
            r == self.view().len(),
    {
        self.ranges.len()
    }

    /// The components of an absolute path (none for the root).
    pub fn of_abs(abs: Vec<char>) -> (c: Comps)
        ensures
            c.view() == key_of(abs@),
    {
        if abs.len() == 0 || (abs.len() == 1 && abs[0] == '/') {
            assert(abs@.len() == 1 && abs@[0] == '/' ==> abs@ =~= seq!['/']);
            let ranges: Vec<(usize, usize)> = Vec::new();
            let c = Comps { buf: abs, ranges };
            assert(c.view() =~= seq![]);
            c
        } else {
            assert(abs@ != seq!['/']) by {
                if abs@.len() == 1 {
                    assert(abs@[0] != '/');
                }
            }
            let ranges = split_ranges(abs.as_slice(), 1, '/');
            assert(abs@.skip(1) =~= abs@.drop_first());
            Comps { buf: abs, ranges }
        }
    }

    /// The components of the directory a new node for `abs` goes into,
    /// and the node's name.
    pub fn parent_of(abs: &[char]) -> (r: (Comps, Vec<char>))
        ensures
            (r.0.view(), r.1@) == parent_of(abs@),
    {
        let (pp, name) = split_path(abs);
        let mut root: Vec<char> = Vec::new();
        root.push('/');
        assert(root@ =~= seq!['/']);
        let pabs = resolve_abs(pp.as_slice(), root.as_slice());
        (Comps::of_abs(pabs), name)
    }

    /// These components followed by one more.
    pub fn with_name(&self, name: &[char]) -> (c: Comps)
        ensures
            c.view() == self.view().push(name@),
    {
        proof {
            use_type_invariant(self);
        }
        let mut buf = slice_to_vec(self.buf.as_slice());
        let a = buf.len();
        push_all(&mut buf, name);
        let b = buf.len();
        let mut ranges = slice_to_vec(self.ranges.as_slice());
        let ghost old_buf = self.buf@;
        ranges.push((a, b));
        assert(buf@ == old_buf + name@);
        assert forall|i: int| 0 <= i < ranges@.len() implies (#[trigger] ranges@[i]).0 <= ranges@[i].1
            <= buf@.len() by {
            if i < self.ranges@.len() {
                assert(ranges@[i] == self.ranges@[i]);
            }
        }
        let c = Comps { buf, ranges };
        assert forall|i: int| 0 <= i < self.ranges@.len() implies #[trigger] c.view()[i]
            == self.view()[i] by {
            let r = self.ranges@[i];
            assert(c.ranges@[i] == r);
            assert(buf@.subrange(r.0 as int, r.1 as int) =~= old_buf.subrange(r.0 as int, r.1 as int));
        }
        assert(c.view()[self.ranges@.len() as int] =~= name@);
        assert(c.view() =~= self.view().push(name@));
        c
    }

    /// Whether component `j` is `name`.
    fn comp_is(&self, j: usize, name: &[char]) -> (r: bool)
        requires
            j < self.view().len(),
        ensures
            r == (self.view()[j as int] == name@),
    {
        proof {
            use_type_invariant(self);
        }
        let (a, b) = self.ranges[j];
        range_is(self.buf.as_slice(), a, b, name)
    }
}

// ══════════════════════════════════════════════════════════════════
// Stored paths
// ══════════════════════════════════════════════════════════════════

/// A stored path: its last name, its length (saturated), and the stored
/// path above it, shared with the entry that owns it.
pub struct KeyNode {
    name: Vec<char>,
    depth: u64,
    parent: Option<Rc<KeyNode>>,
}

/// The names of a stored path, from the root down (none for the root).
pub closed spec fn chain_view(k: Option<Rc<KeyNode>>) -> Seq<Seq<char>>
    decreases k,
{
    match k {
        None => seq![],
        Some(n) => chain_view(n.parent).push(n.name@),
    }
}

/// The root has the empty path.
pub proof fn lemma_root_chain()
    ensures
        chain_view(None) == Seq::<Seq<char>>::empty(),
{
}

spec fn sat(n: nat) -> u64 {
    if n >= u64::MAX {
        u64::MAX
    } else {
        n as u64
    }
}

impl KeyNode {
    #[verifier::type_invariant]
    spec fn depth_ok(self) -> bool {
        self.depth == sat(chain_view(self.parent).len() + 1)
    }
}

spec fn node_chain(n: &KeyNode) -> Seq<Seq<char>> {
    chain_view(n.parent).push(n.name@)
}

proof fn lemma_sat(n: nat, m: nat)
    requires
        m <= u64::MAX,
    ensures
        sat(n) < m ==> n < m,
        n == m ==> sat(n) == m,
{
}

/// The path a cursor stands on (none past the root).
spec fn cursor_chain(c: Option<&KeyNode>) -> Seq<Seq<char>> {
    match c {
        Some(n) => node_chain(n),
        None => seq![],
    }
}

/// A second handle to the same stored path.
///
/// Calls `Rc::clone`, which hands out another pointer to the same
/// allocation: the value behind it is the same.
#[verifier::external_body]
pub(crate) fn share(k: &Rc<KeyNode>) -> (r: Rc<KeyNode>)
    ensures
        r == *k,
{
    Rc::clone(k)
}

fn share_opt(k: &Option<Rc<KeyNode>>) -> (r: Option<Rc<KeyNode>>)
    ensures
        r == *k,
{
    match k {
        Some(n) => Some(share(n)),
        None => None,
    }
}

/// A handle to the stored path at an entry, for paths built on it.
pub fn share_key(k: &Rc<KeyNode>) -> (r: Option<Rc<KeyNode>>)
    ensures
        chain_view(r) == chain_view(Some(*k)),
{
    Some(share(k))
}

fn depth_at(n: &KeyNode) -> (d: u64)
    ensures
        d == sat(node_chain(n).len()),
{
    proof {
        use_type_invariant(n);
    }
    n.depth
}

/// The stored path one step up.
fn up<'a>(c: Option<&'a KeyNode>) -> (r: Option<&'a KeyNode>)
    requires
        c is Some,
    ensures
        cursor_chain(r) == cursor_chain(c).drop_last(),
{
    match c {
        Some(n) => match &n.parent {
            Some(p) => Some(&**p),
            None => None,
        },
        None => None,
    }
}

/// A stored path: `p` followed by `name`.
pub fn push_key(p: &Option<Rc<KeyNode>>, name: Vec<char>) -> (r: Rc<KeyNode>)
    ensures
        chain_view(Some(r)) == chain_view(*p).push(name@),
{
    let d = match p {
        Some(n) => depth_at(&**n),
        None => 0,
    };
    let nd = if d == u64::MAX {
        d
    } else {
        d + 1
    };
    Rc::new(KeyNode { name, depth: nd, parent: share_opt(p) })
}

/// The last name of a stored path.
pub fn key_name(k: &Rc<KeyNode>) -> (r: &Vec<char>)
    ensures
        chain_view(Some(*k)).len() >= 1,
        r@ == chain_view(Some(*k)).last(),
{
    &k.name
}

/// Whether the path a cursor stands on is `c`.
fn cursor_matches(start: Option<&KeyNode>, c: &Comps) -> (r: bool)
    ensures
        r == (cursor_chain(start) == c.view()),
{
    let n = c.len();
    let ghost kv = cursor_chain(start);
    let ghost cv = c.view();
    match start {
        Some(kn) => {
            if depth_at(kn) != n as u64 {
                proof {
                    lemma_sat(kv.len(), n as nat);
                }
                assert(kv.len() != cv.len());
                return false;
            }
        },
        None => {
            assert(cv.len() == 0 ==> cv =~= kv);
            return n == 0;
        },
    }
    let mut cur: Option<&KeyNode> = start;
    let mut m: usize = n;
    assert(kv.take(kv.len() as int) =~= kv);
    assert(kv.skip(kv.len() as int) =~= cv.skip(n as int));
    while m > 0
        invariant
            m <= n,
            n == cv.len(),
            cv == c.view(),
            kv == cursor_chain(start),
            cursor_chain(cur) == kv.take(cursor_chain(cur).len() as int),
            cursor_chain(cur).len() <= kv.len(),
            kv.len() - cursor_chain(cur).len() == n - m,
            kv.skip(cursor_chain(cur).len() as int) == cv.skip(m as int),
        decreases m,
    {
        let ghost l = cursor_chain(cur).len();
        match cur {
            None => {
                assert(kv.len() != cv.len());
                return false;
            },
            Some(node) => {
                assert(cursor_chain(cur) == node_chain(node));
                assert(node_chain(node).last() == node.name@);
                assert(kv.take(l as int)[l - 1] == kv[l - 1]);
                assert(node.name@ == kv[l - 1]);
                if !c.comp_is(m - 1, node.name.as_slice()) {
                    assert(kv[l - 1] != cv[m - 1]);
                    assert(kv.skip(l - 1)[0] != cv.skip(m - 1)[0]);
                    return false;
                }
                let next = up(cur);
                assert(cursor_chain(next) =~= kv.take(l - 1));
                assert(kv.skip(l - 1) =~= seq![kv[l - 1]] + kv.skip(l as int));
                assert(cv.skip(m - 1) =~= seq![cv[m - 1]] + cv.skip(m as int));
                cur = next;
                m = m - 1;
            },
        }
    }
    match cur {
        None => {
            assert(kv.skip(0) =~= kv);
            assert(cv.skip(0) =~= cv);
            true
        },
        Some(_) => {
            assert(kv.len() != cv.len());
            false
        },
    }
}

/// Whether a stored path is `c`.
pub fn chain_matches(k: &Rc<KeyNode>, c: &Comps) -> (r: bool)
    ensures
        r == (chain_view(Some(*k)) == c.view()),
{
    cursor_matches(Some(&**k), c)
}

/// Whether a stored path is `c` followed by one name.
pub fn chain_is_child(k: &Rc<KeyNode>, c: &Comps) -> (r: bool)
    ensures
        r == is_child_key(chain_view(Some(*k)), c.view()),
{
    let kn: &KeyNode = &**k;
    let ghost kv = chain_view(Some(*k));
    let ghost pv = chain_view(kn.parent);
    assert(kv.take(kv.len() - 1) =~= pv);
    assert(kv == pv.push(kn.name@));
    let r = match &kn.parent {
        Some(p) => {
            assert(cursor_chain(Some(&**p)) == chain_view(Some(*p)));
            cursor_matches(Some(&**p), c)
        },
        None => {
            assert(c.view().len() == 0 ==> c.view() =~= pv);
            c.len() == 0
        },
    };
    proof {
        if r {
            assert(kv.take(c.view().len() as int) =~= pv);
        }
        if is_child_key(kv, c.view()) {
            assert(pv == c.view());
        }
    }
    r
}

/// Whether `c` is a prefix of a stored path.
pub fn chain_has_prefix(k: &Rc<KeyNode>, c: &Comps) -> (r: bool)
    ensures
        r == has_key_prefix(chain_view(Some(*k)), c.view()),
{
    let plen = c.len();
    let kn: &KeyNode = &**k;
    let ghost kv = chain_view(Some(*k));
    assert(kv == cursor_chain(Some(kn)));
    if depth_at(kn) < plen as u64 {
        proof {
            lemma_sat(kv.len(), plen as nat);
        }
        return false;
    }
    let mut lead: Option<&KeyNode> = Some(kn);
    let mut i: usize = 0;
    assert(kv.take(kv.len() as int) =~= kv);
    while i < plen
        invariant
            i <= plen,
            plen == c.view().len(),
            kv == chain_view(Some(*k)),
            cursor_chain(lead) == kv.take(cursor_chain(lead).len() as int),
            cursor_chain(lead).len() + i == kv.len(),
        decreases plen - i,
    {
        if lead.is_none() {
            return false;
        }
        let ghost l = cursor_chain(lead).len();
        let next = up(lead);
        assert(cursor_chain(next) =~= kv.take(l - 1));
        lead = next;
        i = i + 1;
    }
    let mut trail: Option<&KeyNode> = Some(kn);
    while lead.is_some()
        invariant
            plen == c.view().len(),
            cursor_chain(lead) == kv.take(cursor_chain(lead).len() as int),
            cursor_chain(trail) == kv.take(cursor_chain(trail).len() as int),
            cursor_chain(trail).len() == cursor_chain(lead).len() + plen,
            cursor_chain(trail).len() <= kv.len(),
        decreases cursor_chain(lead).len(),
    {
        let ghost l = cursor_chain(lead).len();
        let ghost t = cursor_chain(trail).len();
        assert(trail is Some);
        let next_lead = up(lead);
        let next_trail = up(trail);
        assert(cursor_chain(next_lead) =~= kv.take(l - 1));
        assert(cursor_chain(next_trail) =~= kv.take(t - 1));
        lead = next_lead;
        trail = next_trail;
    }
    cursor_matches(trail, c)
}

/// The names of a stored path, last first.
fn names_rev(k: &Rc<KeyNode>) -> (r: Vec<Vec<char>>)
    ensures
        r@.len() == chain_view(Some(*k)).len(),
        forall|i: int|
            0 <= i < r@.len() ==> (#[trigger] r@[i])@ == chain_view(Some(*k))[r@.len() - 1 - i],
{
    let kn: &KeyNode = &**k;
    let ghost kv = chain_view(Some(*k));
    assert(kv == cursor_chain(Some(kn)));
    let mut rev: Vec<Vec<char>> = Vec::new();
    let mut cur: Option<&KeyNode> = Some(kn);
    assert(kv.take(kv.len() as int) =~= kv);
    while cur.is_some()
        invariant
            cursor_chain(cur) == kv.take(cursor_chain(cur).len() as int),
            cursor_chain(cur).len() <= kv.len(),
            rev@.len() + cursor_chain(cur).len() == kv.len(),
            forall|i: int| 0 <= i < rev@.len() ==> (#[trigger] rev@[i])@ == kv[kv.len() - 1 - i],
        decreases cursor_chain(cur).len(),
    {
        let ghost l = cursor_chain(cur).len();
        match cur {
            Some(node) => {
                assert(cursor_chain(cur) == node_chain(node));
                assert(node_chain(node).last() == node.name@);
                assert(kv.take(l as int)[l - 1] == kv[l - 1]);
                rev.push(clone_chars(node.name.as_slice()));
            },
            None => {},
        }
        let next = up(cur);
        assert(cursor_chain(next) =~= kv.take(l - 1));
        cur = next;
    }
    rev
}

/// A stored path: `to` followed by the names of `k` after the first `n`.
pub fn rebase_key(to: &Rc<KeyNode>, k: &Rc<KeyNode>, n: usize) -> (r: Rc<KeyNode>)
    requires
        n <= chain_view(Some(*k)).len(),
    ensures
        chain_view(Some(r)) == chain_view(Some(*to)) + chain_view(Some(*k)).skip(n as int),
{
    let ghost kv = chain_view(Some(*k));
    let ghost tv = chain_view(Some(*to));
    let rev = names_rev(k);
    let total = rev.len();
    let mut acc: Rc<KeyNode> = share(to);
    let mut idx: usize = total - n;
    assert(tv + kv.subrange(n as int, n as int) =~= tv);
    while idx > 0
        invariant
            total == kv.len(),
            rev@.len() == total,
            n <= total,
            idx <= total - n,
            forall|i: int| 0 <= i < rev@.len() ==> (#[trigger] rev@[i])@ == kv[total - 1 - i],
            chain_view(Some(acc)) == tv + kv.subrange(n as int, total - idx),
        decreases idx,
    {
        idx = idx - 1;
        let nm = clone_chars(rev[idx].as_slice());
        assert(nm@ == kv[total - 1 - idx]);
        let p = Some(acc);
        acc = push_key(&p, nm);
        assert(kv.subrange(n as int, total - idx) =~= kv.subrange(n as int, total - idx - 1).push(
            kv[total - 1 - idx],
        ));
    }
    assert(kv.subrange(n as int, total as int) =~= kv.skip(n as int));
    acc
}

} // verus!
