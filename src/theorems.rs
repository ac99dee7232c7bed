//! What holds of the tree builder and of case coercion across all inputs.
use vstd::prelude::*;

use crate::config::{build_tree, coerced_key, lemma_nocase_index, nocase_index};
use crate::parser::coerced_children;
use crate::text::{eq_ascii_nocase, lemma_split_nonempty, occurs_at, split_seq};
use crate::value::{chain, key_index, lemma_key_index, tree_insert, Tree};

verus! {

/// The segments joined with the separator between each two.
pub open spec fn join(segs: Seq<Seq<char>>, sep: Seq<char>) -> Seq<char>
    decreases segs.len(),
{
    if segs.len() == 0 {
        Seq::empty()
    } else if segs.len() == 1 {
        segs[0]
    } else {
        segs[0] + sep + join(segs.drop_first(), sep)
    }
}

/// No occurrence of the separator starts inside the segment, even one that
/// would run on into a following separator.
pub open spec fn clean_segment(s: Seq<char>, sep: Seq<char>) -> bool {
    forall|i: int| 0 <= i < s.len() ==> !occurs_at(s + sep, sep, i)
}

/// `q` is a prefix of `p` (possibly `p` itself).
pub open spec fn is_prefix<A>(q: Seq<A>, p: Seq<A>) -> bool {
    q.len() <= p.len() && p.take(q.len() as int) == q
}

/// The node that `path` leads to, following the first child of each name.
pub open spec fn lookup(t: Tree, path: Seq<Seq<char>>) -> Option<Tree>
    decreases path.len(),
{
    if path.len() == 0 {
        Some(t)
    } else {
        match t {
            Tree::Leaf(_) => None,
            Tree::Branch(cs) => {
                let i = key_index(cs, path[0]);
                if i < cs.len() {
                    lookup(cs[i].1, path.drop_first())
                } else {
                    None
                }
            },
        }
    }
}

/// Pairs whose keys join the given segments and whose values are single values.
pub open spec fn joined_pairs(segs: Seq<Seq<Seq<char>>>, vals: Seq<Seq<char>>, sep: Seq<char>) -> Seq<
    (Seq<char>, Tree),
> {
    Seq::new(segs.len(), |i: int| (join(segs[i], sep), Tree::Leaf(vals[i])))
}

proof fn lemma_split_prefix(p: Seq<char>, u: Seq<char>, sep: Seq<char>)
    requires
        sep.len() > 0,
        forall|i: int| 0 <= i < p.len() ==> !occurs_at(p + u, sep, i),
    ensures
        split_seq(p + u, sep) == split_seq(u, sep).update(0, p + split_seq(u, sep)[0]),
    decreases p.len(),
{
    lemma_split_nonempty(u, sep);
    let su = split_seq(u, sep);
    if p.len() == 0 {
        assert(p + u =~= u);
        assert(su.update(0, p + su[0]) =~= su);
    } else {
        let t = p + u;
        let q = p.drop_first();
        assert(t.skip(1) =~= q + u);
        assert forall|i: int| 0 <= i < q.len() implies !occurs_at(q + u, sep, i) by {
            assert(!occurs_at(t, sep, i + 1));
            if i + sep.len() <= (q + u).len() {
                assert(t.subrange(i + 1, i + 1 + sep.len()) =~= (q + u).subrange(
                    i,
                    i + sep.len(),
                ));
            }
        }
        lemma_split_prefix(q, u, sep);
        assert(!occurs_at(t, sep, 0));
        assert(seq![t[0]] + (q + su[0]) =~= p + su[0]);
        assert(split_seq(t, sep) =~= su.update(0, p + su[0]));
    }
}

/// Where `s` and `t` agree on the first `n` characters, an occurrence ending
/// within them is found in both or in neither.
proof fn lemma_occurs_agree(s: Seq<char>, t: Seq<char>, sep: Seq<char>, i: int, n: int)
    requires
        0 <= i,
        i + sep.len() <= n <= s.len(),
        n <= t.len(),
        s.take(n) == t.take(n),
    ensures
        occurs_at(s, sep, i) == occurs_at(t, sep, i),
{
    assert(s.subrange(i, i + sep.len()) =~= s.take(n).subrange(i, i + sep.len()));
    assert(t.subrange(i, i + sep.len()) =~= t.take(n).subrange(i, i + sep.len()));
}

/// Splitting a key joined from clean segments gives back the segments.
pub proof fn lemma_split_join(segs: Seq<Seq<char>>, sep: Seq<char>)
    requires
        sep.len() > 0,
        segs.len() >= 1,
        forall|j: int| 0 <= j < segs.len() ==> clean_segment(#[trigger] segs[j], sep),
    ensures
        split_seq(join(segs, sep), sep) == segs,
    decreases segs.len(),
{
    let s0 = segs[0];
    assert(clean_segment(segs[0], sep));
    if segs.len() == 1 {
        let e = Seq::<char>::empty();
        assert forall|i: int| 0 <= i < s0.len() implies !occurs_at(s0 + e, sep, i) by {
            assert(s0 + e =~= s0);
            assert(!occurs_at(s0 + sep, sep, i));
            if i + sep.len() <= s0.len() {
                assert(s0.take(s0.len() as int) =~= (s0 + sep).take(s0.len() as int));
                lemma_occurs_agree(s0, s0 + sep, sep, i, s0.len() as int);
            }
        }
        lemma_split_prefix(s0, e, sep);
        assert(s0 + e =~= s0);
        assert(split_seq(e, sep).update(0, s0 + split_seq(e, sep)[0]) =~= segs);
    } else {
        let rest = segs.drop_first();
        assert forall|j: int| 0 <= j < rest.len() implies clean_segment(#[trigger] rest[j], sep) by {
            assert(rest[j] == segs[j + 1]);
        }
        lemma_split_join(rest, sep);
        let jr = join(rest, sep);
        let u = sep + jr;
        assert(s0 + u =~= s0 + sep + jr);
        assert forall|i: int| 0 <= i < s0.len() implies !occurs_at(s0 + u, sep, i) by {
            assert(!occurs_at(s0 + sep, sep, i));
            assert((s0 + u).take((s0.len() + sep.len()) as int) =~= (s0 + sep).take(
                (s0.len() + sep.len()) as int,
            ));
            lemma_occurs_agree(s0 + u, s0 + sep, sep, i, (s0.len() + sep.len()) as int);
        }
        lemma_split_prefix(s0, u, sep);
        assert(u.subrange(0, sep.len() as int) =~= sep);
        assert(u.skip(sep.len() as int) =~= jr);
        assert(split_seq(u, sep) == seq![Seq::<char>::empty()] + rest);
        assert(s0 + Seq::<char>::empty() =~= s0);
        assert((seq![Seq::<char>::empty()] + rest).update(0, s0) =~= segs);
    }
}

/// Pairs whose keys split into the same paths, with the same values, build
/// the same tree, whatever their separators.
pub proof fn lemma_same_paths_same_tree(
    a: Seq<(Seq<char>, Tree)>,
    sep_a: Seq<char>,
    b: Seq<(Seq<char>, Tree)>,
    sep_b: Seq<char>,
)
    requires
        a.len() == b.len(),
        forall|i: int|
            0 <= i < a.len() ==> split_seq((#[trigger] a[i]).0, sep_a) == split_seq(b[i].0, sep_b)
                && a[i].1 == b[i].1,
    ensures
        build_tree(a, sep_a) == build_tree(b, sep_b),
    decreases a.len(),
{
    if a.len() > 0 {
        let n = a.len() - 1;
        assert(a[n] == a.last());
        assert(b[n] == b.last());
        assert forall|i: int| 0 <= i < a.drop_last().len() implies split_seq(
            (#[trigger] a.drop_last()[i]).0,
            sep_a,
        ) == split_seq(b.drop_last()[i].0, sep_b) && a.drop_last()[i].1 == b.drop_last()[i].1 by {
            assert(a.drop_last()[i] == a[i]);
            assert(b.drop_last()[i] == b[i]);
        }
        lemma_same_paths_same_tree(a.drop_last(), sep_a, b.drop_last(), sep_b);
    }
}

/// The same keys written with another separator build the same tree: pairs
/// whose keys join the same clean segments, one list with `sep_a` and the
/// other with `sep_b`, give equal results.
pub proof fn lemma_separator_exchange(
    segs: Seq<Seq<Seq<char>>>,
    vals: Seq<Seq<char>>,
    sep_a: Seq<char>,
    sep_b: Seq<char>,
)
    requires
        sep_a.len() > 0,
        sep_b.len() > 0,
        segs.len() == vals.len(),
        forall|i: int|
            0 <= i < segs.len() ==> (#[trigger] segs[i]).len() >= 1 && forall|j: int|
                0 <= j < segs[i].len() ==> clean_segment(#[trigger] segs[i][j], sep_a)
                    && clean_segment(segs[i][j], sep_b),
    ensures
        build_tree(joined_pairs(segs, vals, sep_a), sep_a) == build_tree(
            joined_pairs(segs, vals, sep_b),
            sep_b,
        ),
{
    let a = joined_pairs(segs, vals, sep_a);
    let b = joined_pairs(segs, vals, sep_b);
    assert forall|i: int| 0 <= i < a.len() implies split_seq((#[trigger] a[i]).0, sep_a)
        == split_seq(b[i].0, sep_b) && a[i].1 == b[i].1 by {
        let s = segs[i];
        assert(s.len() >= 1);
        assert forall|j: int| 0 <= j < s.len() implies clean_segment(#[trigger] s[j], sep_a) by {
            assert(s[j] == segs[i][j]);
        }
        assert forall|j: int| 0 <= j < s.len() implies clean_segment(#[trigger] s[j], sep_b) by {
            assert(s[j] == segs[i][j]);
        }
        lemma_split_join(s, sep_a);
        lemma_split_join(s, sep_b);
    }
    lemma_same_paths_same_tree(a, sep_a, b, sep_b);
}

/// `i` is the first position named `k`, or the end where none is.
proof fn lemma_key_index_is(cs: Seq<(Seq<char>, Tree)>, k: Seq<char>, i: int)
    requires
        0 <= i <= cs.len(),
        forall|j: int| 0 <= j < i ==> cs[j].0 != k,
        i == cs.len() || cs[i].0 == k,
    ensures
        key_index(cs, k) == i,
{
    lemma_key_index(cs, k);
    let r = key_index(cs, k);
    if r < i {
        assert(cs[r].0 == k);
    } else if r > i {
        assert(cs[i].0 != k);
    }
}

proof fn lemma_key_index_update(cs: Seq<(Seq<char>, Tree)>, i: int, n: Tree, k: Seq<char>)
    requires
        0 <= i < cs.len(),
    ensures
        key_index(cs.update(i, (cs[i].0, n)), k) == key_index(cs, k),
{
    let cs2 = cs.update(i, (cs[i].0, n));
    lemma_key_index(cs, k);
    let r = key_index(cs, k);
    assert forall|j: int| 0 <= j < r implies cs2[j].0 != k by {
        assert(cs2[j].0 == cs[j].0);
    }
    if r < cs.len() {
        assert(cs2[r].0 == cs[r].0);
    }
    lemma_key_index_is(cs2, k, r);
}

proof fn lemma_key_index_push(cs: Seq<(Seq<char>, Tree)>, x: (Seq<char>, Tree), k: Seq<char>)
    ensures
        key_index(cs, k) < cs.len() ==> key_index(cs.push(x), k) == key_index(cs, k),
        key_index(cs, k) == cs.len() && x.0 == k ==> key_index(cs.push(x), k) == cs.len(),
        key_index(cs, k) == cs.len() && x.0 != k ==> key_index(cs.push(x), k) == cs.len() + 1,
{
    let cs2 = cs.push(x);
    lemma_key_index(cs, k);
    let r = key_index(cs, k);
    assert forall|j: int| 0 <= j < r implies cs2[j].0 != k by {
        assert(cs2[j] == cs[j]);
    }
    if r < cs.len() {
        assert(cs2[r] == cs[r]);
        lemma_key_index_is(cs2, k, r);
    } else if x.0 == k {
        lemma_key_index_is(cs2, k, r);
    } else {
        lemma_key_index_is(cs2, k, r + 1);
    }
}

/// Following `q` and then `r` is following `q + r`.
proof fn lemma_lookup_concat(t: Tree, q: Seq<Seq<char>>, r: Seq<Seq<char>>)
    ensures
        lookup(t, q + r) == match lookup(t, q) {
            Some(n) => lookup(n, r),
            None => None,
        },
    decreases q.len(),
{
    if q.len() == 0 {
        assert(q + r =~= r);
    } else {
        assert((q + r)[0] == q[0]);
        assert((q + r).drop_first() =~= q.drop_first() + r);
        match t {
            Tree::Leaf(_) => {},
            Tree::Branch(cs) => {
                let i = key_index(cs, q[0]);
                if i < cs.len() {
                    lemma_lookup_concat(cs[i].1, q.drop_first(), r);
                }
            },
        }
    }
}

/// Below a single value no longer path leads anywhere.
proof fn lemma_lookup_past_leaf(t: Tree, q: Seq<Seq<char>>, p: Seq<Seq<char>>)
    requires
        lookup(t, q) matches Some(Tree::Leaf(_)),
        is_prefix(q, p),
        q.len() < p.len(),
    ensures
        lookup(t, p) is None,
{
    let r = p.skip(q.len() as int);
    assert(q + r =~= p);
    lemma_lookup_concat(t, q, r);
}

proof fn lemma_chain_finds(p: Seq<Seq<char>>, v: Tree)
    ensures
        lookup(chain(p, v), p) == Some(v),
    decreases p.len(),
{
    if p.len() > 0 {
        let cs = seq![(p[0], chain(p.drop_first(), v))];
        lemma_key_index_is(cs, p[0], 0);
        lemma_chain_finds(p.drop_first(), v);
    }
}

proof fn lemma_chain_reach(p: Seq<Seq<char>>, x: Seq<char>, q: Seq<Seq<char>>)
    requires
        lookup(chain(p, Tree::Leaf(x)), q) is Some,
    ensures
        is_prefix(q, p),
    decreases p.len(),
{
    if q.len() == 0 {
        assert(p.take(0) =~= q);
    } else {
        if p.len() > 0 {
            let cs = seq![(p[0], chain(p.drop_first(), Tree::Leaf(x)))];
            lemma_key_index(cs, q[0]);
            if q[0] == p[0] {
                lemma_key_index_is(cs, q[0], 0);
                lemma_chain_reach(p.drop_first(), x, q.drop_first());
                assert(p.take(q.len() as int) =~= seq![p[0]] + p.drop_first().take(
                    q.len() - 1,
                ));
                assert(q =~= seq![q[0]] + q.drop_first());
            } else {
                lemma_key_index_is(cs, q[0], 1);
            }
        }
    }
}

/// An insertion succeeds where no proper prefix of its path is a single value
/// and the path itself leads nowhere yet.
proof fn lemma_insert_ok(t: Tree, p: Seq<Seq<char>>, v: Tree)
    requires
        t is Branch,
        p.len() >= 1,
        lookup(t, p) is None,
        forall|m: int|
            1 <= m < p.len() ==> !(lookup(t, #[trigger] p.take(m)) matches Some(Tree::Leaf(_))),
    ensures
        tree_insert(t, p, v) is Ok,
    decreases p.len(),
{
    let cs = t->Branch_0;
    if p.len() == 1 {
        lemma_key_index(cs, p[0]);
        let i = key_index(cs, p[0]);
        if i < cs.len() {
            assert(lookup(cs[i].1, p.drop_first()) == Some(cs[i].1));
        }
    }
    if p.len() >= 2 {
        let i = key_index(cs, p[0]);
        lemma_key_index(cs, p[0]);
        if i < cs.len() {
            assert(p.take(1).drop_first() =~= Seq::<Seq<char>>::empty());
            assert(p.take(1)[0] == p[0]);
            assert(lookup(cs[i].1, p.take(1).drop_first()) == Some(cs[i].1));
            assert(lookup(t, p.take(1)) == Some(cs[i].1));
            let c = cs[i].1;
            if c is Branch {
                let tail = p.drop_first();
                assert forall|m: int| 1 <= m < tail.len() implies !(lookup(
                    c,
                    #[trigger] tail.take(m),
                ) matches Some(Tree::Leaf(_))) by {
                    assert(p.take(m + 1)[0] == p[0]);
                    assert(p.take(m + 1).drop_first() =~= tail.take(m));
                    assert(lookup(t, p.take(m + 1)) == lookup(c, tail.take(m)));
                }
                lemma_insert_ok(c, tail, v);
            }
        }
    }
}

/// An insertion leaves every node it does not pass through where it was.
proof fn lemma_insert_keeps(t: Tree, p: Seq<Seq<char>>, v: Tree, q: Seq<Seq<char>>)
    requires
        p.len() >= 1,
        tree_insert(t, p, v) is Ok,
        lookup(t, q) is Some,
        !(is_prefix(q, p) && q.len() < p.len()),
    ensures
        lookup(tree_insert(t, p, v)->Ok_0, q) == lookup(t, q),
    decreases p.len(),
{
    let t2 = tree_insert(t, p, v)->Ok_0;
    assert(t is Branch);
    let cs = t->Branch_0;
    if q.len() == 0 {
        assert(p.take(0) =~= q);
    } else {
        let iq = key_index(cs, q[0]);
        assert(lookup(t, q) == (if iq < cs.len() {
            lookup(cs[iq].1, q.drop_first())
        } else {
            None::<Tree>
        }));
        lemma_key_index(cs, q[0]);
        assert(iq < cs.len());
        let i = key_index(cs, p[0]);
        lemma_key_index(cs, p[0]);
        if p.len() <= 1 || i == cs.len() {
            let x = if p.len() <= 1 {
                (p[0], v)
            } else {
                (p[0], chain(p.drop_first(), v))
            };
            lemma_key_index_push(cs, x, q[0]);
            assert(cs.push(x)[iq] == cs[iq]);
        } else {
            let n = tree_insert(cs[i].1, p.drop_first(), v)->Ok_0;
            lemma_key_index_update(cs, i, n, q[0]);
            if q[0] != p[0] {
                lemma_key_index(cs, q[0]);
                assert(iq != i);
            } else {
                assert(iq == i);
                let q2 = q.drop_first();
                let tail = p.drop_first();
                assert(!(is_prefix(q2, tail) && q2.len() < tail.len())) by {
                    if is_prefix(q2, tail) && q2.len() < tail.len() {
                        assert(p.take(q.len() as int) =~= seq![p[0]] + tail.take(q2.len() as int));
                        assert(q =~= seq![q[0]] + q2);
                    }
                }
                lemma_insert_keeps(cs[i].1, tail, v, q2);
            }
        }
    }
}

/// After an insertion its path leads to the inserted value, where it led
/// nowhere before.
proof fn lemma_insert_finds(t: Tree, p: Seq<Seq<char>>, v: Tree)
    requires
        p.len() >= 1,
        tree_insert(t, p, v) is Ok,
        lookup(t, p) is None,
    ensures
        lookup(tree_insert(t, p, v)->Ok_0, p) == Some(v),
    decreases p.len(),
{
    let cs = t->Branch_0;
    let i = key_index(cs, p[0]);
    lemma_key_index(cs, p[0]);
    if p.len() <= 1 {
        assert(p.drop_first() =~= Seq::<Seq<char>>::empty());
        lemma_key_index_push(cs, (p[0], v), p[0]);
    } else if i == cs.len() {
        lemma_key_index_push(cs, (p[0], chain(p.drop_first(), v)), p[0]);
        lemma_chain_finds(p.drop_first(), v);
    } else {
        let n = tree_insert(cs[i].1, p.drop_first(), v)->Ok_0;
        lemma_key_index_update(cs, i, n, p[0]);
        lemma_insert_finds(cs[i].1, p.drop_first(), v);
    }
}

/// After inserting a single value, every path that leads somewhere led
/// somewhere before or is a prefix of the inserted path.
proof fn lemma_insert_reach(t: Tree, p: Seq<Seq<char>>, x: Seq<char>, q: Seq<Seq<char>>)
    requires
        p.len() >= 1,
        tree_insert(t, p, Tree::Leaf(x)) is Ok,
        lookup(tree_insert(t, p, Tree::Leaf(x))->Ok_0, q) is Some,
    ensures
        lookup(t, q) is Some || is_prefix(q, p),
    decreases p.len(),
{
    let v = Tree::Leaf(x);
    let cs = t->Branch_0;
    if q.len() > 0 {
        let iq = key_index(cs, q[0]);
        let i = key_index(cs, p[0]);
        lemma_key_index(cs, p[0]);
        lemma_key_index(cs, q[0]);
        assert(q =~= seq![q[0]] + q.drop_first());
        if p.len() <= 1 || i == cs.len() {
            let below = if p.len() <= 1 {
                v
            } else {
                chain(p.drop_first(), v)
            };
            let e = (p[0], below);
            lemma_key_index_push(cs, e, q[0]);
            if iq < cs.len() {
                assert(cs.push(e)[iq] == cs[iq]);
            } else if q[0] == p[0] {
                assert(cs.push(e)[cs.len() as int] == e);
                if p.len() <= 1 {
                    assert(q.drop_first().len() == 0);
                    assert(p.take(q.len() as int) =~= q);
                } else {
                    lemma_chain_reach(p.drop_first(), x, q.drop_first());
                    assert(p.take(q.len() as int) =~= seq![p[0]] + p.drop_first().take(
                        q.len() - 1,
                    ));
                }
            }
        } else {
            let n = tree_insert(cs[i].1, p.drop_first(), v)->Ok_0;
            lemma_key_index_update(cs, i, n, q[0]);
            if q[0] == p[0] {
                lemma_insert_reach(cs[i].1, p.drop_first(), x, q.drop_first());
                if is_prefix(q.drop_first(), p.drop_first()) {
                    assert(p.take(q.len() as int) =~= seq![p[0]] + p.drop_first().take(
                        q.len() - 1,
                    ));
                }
            } else {
                assert(iq != i);
            }
        }
    }
}

/// An insertion whose path runs through a single value fails, naming the
/// path from the segment that reached that value on.
pub proof fn lemma_collision(t: Tree, p: Seq<Seq<char>>, v: Tree, m: int)
    requires
        1 <= m < p.len(),
        lookup(t, p.take(m)) matches Some(Tree::Leaf(_)),
    ensures
        tree_insert(t, p, v) == Err::<Tree, Seq<Seq<char>>>(p.skip(m - 1)),
    decreases m,
{
    let cs = t->Branch_0;
    let i = key_index(cs, p[0]);
    lemma_key_index(cs, p[0]);
    assert(p.take(m)[0] == p[0]);
    assert(p.take(m).drop_first() =~= p.drop_first().take(m - 1));
    assert(t is Branch);
    assert(i < cs.len());
    let c = cs[i].1;
    assert(lookup(t, p.take(m)) == lookup(c, p.drop_first().take(m - 1)));
    if m == 1 {
        assert(p.skip(0) =~= p);
        assert(c is Leaf);
    } else {
        assert(c is Branch);
        assert(p.drop_first().skip(m - 2) =~= p.skip(m - 1));
        lemma_collision(c, p.drop_first(), v, m - 1);
    }
}

/// What holds after the first `n` pairs are in, where pair `i` has the path
/// `segs[i]` and the single value `vals[i]`.
proof fn lemma_build_prefix(
    pairs: Seq<(Seq<char>, Tree)>,
    segs: Seq<Seq<Seq<char>>>,
    vals: Seq<Seq<char>>,
    sep: Seq<char>,
    n: int,
)
    requires
        segs.len() == vals.len(),
        pairs.len() == segs.len(),
        0 <= n <= segs.len(),
        forall|i: int|
            0 <= i < segs.len() ==> (#[trigger] segs[i]).len() >= 1 && split_seq(pairs[i].0, sep)
                == segs[i] && pairs[i].1 == Tree::Leaf(vals[i]),
        forall|i: int, k: int|
            0 <= i < segs.len() && 0 <= k < segs.len() && i != k ==> !is_prefix(
                #[trigger] segs[i],
                #[trigger] segs[k],
            ),
    ensures
        build_tree(pairs.take(n), sep) matches Ok(t) && t is Branch && (
        forall|i: int| 0 <= i < n ==> lookup(t, #[trigger] segs[i]) == Some(Tree::Leaf(vals[i])))
            && (forall|q: Seq<Seq<char>>|
            #[trigger] lookup(t, q) is Some ==> q.len() == 0 || exists|i: int|
                0 <= i < n && is_prefix(q, #[trigger] segs[i])),
    decreases n,
{
    if n == 0 {
        assert(pairs.take(0) =~= Seq::<(Seq<char>, Tree)>::empty());
        let t = Tree::Branch(Seq::<(Seq<char>, Tree)>::empty());
        assert forall|q: Seq<Seq<char>>| #[trigger] lookup(t, q) is Some implies q.len() == 0 by {
            if q.len() > 0 {
                assert(key_index(Seq::<(Seq<char>, Tree)>::empty(), q[0]) == 0);
            }
        }
    } else {
        lemma_build_prefix(pairs, segs, vals, sep, n - 1);
        let t = build_tree(pairs.take(n - 1), sep)->Ok_0;
        let k = n - 1;
        let p = segs[k];
        assert(pairs.take(n).drop_last() =~= pairs.take(n - 1));
        assert(pairs.take(n).last() == pairs[k]);
        assert(split_seq(pairs[k].0, sep) == p);
        // No proper prefix of the new path is a single value.
        assert forall|m: int| 1 <= m < p.len() implies !(lookup(
            t,
            #[trigger] p.take(m),
        ) matches Some(Tree::Leaf(_))) by {
            if lookup(t, p.take(m)) matches Some(Tree::Leaf(_)) {
                let i = choose|i: int| 0 <= i < n - 1 && is_prefix(p.take(m), #[trigger] segs[i]);
                if p.take(m).len() < segs[i].len() {
                    lemma_lookup_past_leaf(t, p.take(m), segs[i]);
                } else {
                    assert(segs[i] =~= p.take(m));
                    assert(is_prefix(segs[i], segs[k]));
                }
            }
        }
        // The new path led nowhere before.
        assert(lookup(t, p) is None) by {
            if lookup(t, p) is Some {
                let i = choose|i: int| 0 <= i < n - 1 && is_prefix(p, #[trigger] segs[i]);
                assert(is_prefix(segs[k], segs[i]));
            }
        }
        lemma_insert_ok(t, p, Tree::Leaf(vals[k]));
        let t2 = tree_insert(t, p, Tree::Leaf(vals[k]))->Ok_0;
        lemma_insert_finds(t, p, Tree::Leaf(vals[k]));
        assert forall|i: int| 0 <= i < n implies lookup(t2, #[trigger] segs[i]) == Some(
            Tree::Leaf(vals[i]),
        ) by {
            if i < k {
                assert(!is_prefix(segs[i], segs[k]));
                lemma_insert_keeps(t, p, Tree::Leaf(vals[k]), segs[i]);
            }
        }
        assert forall|q: Seq<Seq<char>>| #[trigger] lookup(t2, q) is Some implies q.len() == 0
            || exists|i: int| 0 <= i < n && is_prefix(q, #[trigger] segs[i]) by {
            lemma_insert_reach(t, p, vals[k], q);
            if is_prefix(q, p) {
                assert(is_prefix(q, segs[k]));
            }
        }
    }
}

/// Keys joined from clean segments, no path of which repeats or starts
/// another, build a tree that mirrors their paths: each path leads to its
/// own value, and every single value in the tree is at one of the paths.
pub proof fn lemma_round_trip(segs: Seq<Seq<Seq<char>>>, vals: Seq<Seq<char>>, sep: Seq<char>)
    requires
        sep.len() > 0,
        segs.len() == vals.len(),
        forall|i: int|
            0 <= i < segs.len() ==> (#[trigger] segs[i]).len() >= 1 && forall|j: int|
                0 <= j < segs[i].len() ==> clean_segment(#[trigger] segs[i][j], sep),
        forall|i: int, k: int|
            0 <= i < segs.len() && 0 <= k < segs.len() && i != k ==> !is_prefix(
                #[trigger] segs[i],
                #[trigger] segs[k],
            ),
    ensures
        build_tree(joined_pairs(segs, vals, sep), sep) matches Ok(t) && (forall|i: int|
            0 <= i < segs.len() ==> lookup(t, #[trigger] segs[i]) == Some(Tree::Leaf(vals[i])))
            && (forall|q: Seq<Seq<char>>|
            #[trigger] lookup(t, q) matches Some(Tree::Leaf(_)) ==> exists|i: int|
                0 <= i < segs.len() && q == #[trigger] segs[i]),
{
    let n = segs.len() as int;
    let pairs = joined_pairs(segs, vals, sep);
    assert forall|i: int| 0 <= i < segs.len() implies (#[trigger] segs[i]).len() >= 1 && split_seq(
        pairs[i].0,
        sep,
    ) == segs[i] && pairs[i].1 == Tree::Leaf(vals[i]) by {
        let p = segs[i];
        assert forall|j: int| 0 <= j < p.len() implies clean_segment(#[trigger] p[j], sep) by {
            assert(p[j] == segs[i][j]);
        }
        lemma_split_join(p, sep);
    }
    lemma_build_prefix(pairs, segs, vals, sep, n);
    assert(pairs.take(n) =~= pairs);
    let t = build_tree(pairs, sep)->Ok_0;
    assert forall|q: Seq<Seq<char>>| #[trigger] lookup(t, q) matches Some(Tree::Leaf(_)) implies exists|
        i: int,
    | 0 <= i < segs.len() && q == #[trigger] segs[i] by {
        assert(lookup(t, q) is Some);
        if q.len() == 0 {
            assert(lookup(t, q) == Some(t));
        } else {
            let i = choose|i: int| 0 <= i < n && is_prefix(q, #[trigger] segs[i]);
            if q.len() < segs[i].len() {
                lemma_lookup_past_leaf(t, q, segs[i]);
            } else {
                assert(segs[i] =~= q);
            }
        }
    }
}

/// Keys whose paths (the segments they split into) neither repeat nor start
/// one another, each with a single value, build a tree that mirrors their
/// paths: each path leads to its own value, and every single value in the
/// tree is at one of the paths.
pub proof fn lemma_round_trip_keys(pairs: Seq<(Seq<char>, Tree)>, sep: Seq<char>)
    requires
        forall|i: int| 0 <= i < pairs.len() ==> (#[trigger] pairs[i]).1 is Leaf,
        forall|i: int, k: int|
            0 <= i < pairs.len() && 0 <= k < pairs.len() && i != k ==> !is_prefix(
                split_seq((#[trigger] pairs[i]).0, sep),
                split_seq((#[trigger] pairs[k]).0, sep),
            ),
    ensures
        build_tree(pairs, sep) matches Ok(t) && (forall|i: int|
            0 <= i < pairs.len() ==> lookup(t, split_seq((#[trigger] pairs[i]).0, sep)) == Some(
                pairs[i].1,
            )) && (forall|q: Seq<Seq<char>>|
            #[trigger] lookup(t, q) matches Some(Tree::Leaf(_)) ==> exists|i: int|
                0 <= i < pairs.len() && q == split_seq((#[trigger] pairs[i]).0, sep)),
{
    let n = pairs.len() as int;
    let segs = Seq::new(pairs.len(), |i: int| split_seq(pairs[i].0, sep));
    let vals = Seq::new(pairs.len(), |i: int| pairs[i].1->Leaf_0);
    assert forall|i: int| 0 <= i < segs.len() implies (#[trigger] segs[i]).len() >= 1 && split_seq(
        pairs[i].0,
        sep,
    ) == segs[i] && pairs[i].1 == Tree::Leaf(vals[i]) by {
        lemma_split_nonempty(pairs[i].0, sep);
        assert(pairs[i].1 is Leaf);
    }
    assert forall|i: int, k: int|
        0 <= i < segs.len() && 0 <= k < segs.len() && i != k implies !is_prefix(
        #[trigger] segs[i],
        #[trigger] segs[k],
    ) by {
        assert(!is_prefix(split_seq(pairs[i].0, sep), split_seq(pairs[k].0, sep)));
    }
    lemma_build_prefix(pairs, segs, vals, sep, n);
    assert(pairs.take(n) =~= pairs);
    let t = build_tree(pairs, sep)->Ok_0;
    assert forall|i: int| 0 <= i < pairs.len() implies lookup(
        t,
        split_seq((#[trigger] pairs[i]).0, sep),
    ) == Some(pairs[i].1) by {
        assert(lookup(t, segs[i]) == Some(Tree::Leaf(vals[i])));
    }
    assert forall|q: Seq<Seq<char>>| #[trigger] lookup(t, q) matches Some(Tree::Leaf(_)) implies exists|
        i: int,
    | 0 <= i < pairs.len() && q == split_seq((#[trigger] pairs[i]).0, sep) by {
        assert(lookup(t, q) is Some);
        if q.len() == 0 {
            assert(lookup(t, q) == Some(t));
        } else {
            let i = choose|i: int| 0 <= i < n && is_prefix(q, #[trigger] segs[i]);
            if q.len() < segs[i].len() {
                lemma_lookup_past_leaf(t, q, segs[i]);
            } else {
                assert(segs[i] =~= q);
                assert(q == split_seq(pairs[i].0, sep));
            }
        }
    }
}

/// A key that ends where a group already stands fails, naming its last
/// segment.
pub proof fn lemma_ends_at_group(t: Tree, p: Seq<Seq<char>>, v: Tree)
    requires
        p.len() >= 1,
        lookup(t, p) matches Some(Tree::Branch(_)),
    ensures
        tree_insert(t, p, v) == Err::<Tree, Seq<Seq<char>>>(p.skip(p.len() - 1)),
    decreases p.len(),
{
    assert(t is Branch);
    let cs = t->Branch_0;
    let i = key_index(cs, p[0]);
    lemma_key_index(cs, p[0]);
    assert(i < cs.len());
    let c = cs[i].1;
    assert(lookup(t, p) == lookup(c, p.drop_first()));
    if p.len() == 1 {
        assert(p.drop_first().len() == 0);
        assert(p.skip(0) =~= p);
    } else {
        assert(c is Branch);
        assert(p.drop_first().skip(p.len() - 2) =~= p.skip(p.len() - 1));
        lemma_ends_at_group(c, p.drop_first(), v);
    }
}

/// The first key's tree, from an empty group.
proof fn lemma_first_key(p: Seq<Seq<char>>, v: Tree)
    requires
        p.len() >= 1,
    ensures
        tree_insert(Tree::Branch(Seq::empty()), p, v) is Ok,
        lookup(tree_insert(Tree::Branch(Seq::empty()), p, v)->Ok_0, p) == Some(v),
{
    let t = Tree::Branch(Seq::<(Seq<char>, Tree)>::empty());
    assert(key_index(Seq::<(Seq<char>, Tree)>::empty(), p[0]) == 0);
    assert(lookup(t, p) is None);
    assert forall|m: int| 1 <= m < p.len() implies !(lookup(
        t,
        #[trigger] p.take(m),
    ) matches Some(Tree::Leaf(_))) by {
        assert(p.take(m)[0] == p[0]);
    }
    lemma_insert_ok(t, p, v);
    lemma_insert_finds(t, p, v);
}

/// Two keys, the path of one running on past the end of the other's, cannot
/// be built together, whichever of them comes first.
pub proof fn lemma_conflict_either_order(
    a: (Seq<char>, Seq<char>),
    b: (Seq<char>, Seq<char>),
    sep: Seq<char>,
)
    requires
        is_prefix(split_seq(a.0, sep), split_seq(b.0, sep)),
        split_seq(a.0, sep).len() < split_seq(b.0, sep).len(),
    ensures
        build_tree(seq![(a.0, Tree::Leaf(a.1)), (b.0, Tree::Leaf(b.1))], sep) is Err,
        build_tree(seq![(b.0, Tree::Leaf(b.1)), (a.0, Tree::Leaf(a.1))], sep) is Err,
{
    let pa = split_seq(a.0, sep);
    let pb = split_seq(b.0, sep);
    let ea = (a.0, Tree::Leaf(a.1));
    let eb = (b.0, Tree::Leaf(b.1));
    let empty = Seq::<(Seq<char>, Tree)>::empty();
    lemma_split_nonempty(a.0, sep);
    lemma_split_nonempty(b.0, sep);
    assert(seq![ea, eb].drop_last() =~= seq![ea]);
    assert(seq![eb, ea].drop_last() =~= seq![eb]);
    assert(seq![ea].drop_last() =~= empty);
    assert(seq![eb].drop_last() =~= empty);
    // `a` first: its single value stands where `b` wants to go on.
    lemma_first_key(pa, Tree::Leaf(a.1));
    let t1 = tree_insert(Tree::Branch(empty), pa, Tree::Leaf(a.1))->Ok_0;
    assert(pb.take(pa.len() as int) == pa);
    lemma_collision(t1, pb, Tree::Leaf(b.1), pa.len() as int);
    assert(build_tree(empty, sep) == Ok::<Tree, Seq<Seq<char>>>(Tree::Branch(empty)));
    assert(seq![ea].last() == ea);
    assert(build_tree(seq![ea], sep) == Ok::<Tree, Seq<Seq<char>>>(t1));
    assert(seq![ea, eb].last() == eb);
    assert(build_tree(seq![ea, eb], sep) == tree_insert(t1, pb, Tree::Leaf(b.1)));
    // `b` first: a group stands where `a` ends.
    lemma_first_key(pb, Tree::Leaf(b.1));
    let t2 = tree_insert(Tree::Branch(empty), pb, Tree::Leaf(b.1))->Ok_0;
    let r = pb.skip(pa.len() as int);
    assert(pa + r =~= pb);
    lemma_lookup_concat(t2, pa, r);
    assert(lookup(t2, pa) matches Some(Tree::Branch(_)));
    lemma_ends_at_group(t2, pa, Tree::Leaf(a.1));
    assert(seq![eb].last() == eb);
    assert(build_tree(seq![eb], sep) == Ok::<Tree, Seq<Seq<char>>>(t2));
    assert(seq![eb, ea].last() == ea);
    assert(build_tree(seq![eb, ea], sep) == tree_insert(t2, pa, Tree::Leaf(a.1)));
}

/// Insertion keeps children in the order in which their names were first
/// seen: every existing child keeps its place and name, and a new child is
/// only ever added at the end, under the first segment of the path.
pub proof fn lemma_insert_keeps_order(cs: Seq<(Seq<char>, Tree)>, p: Seq<Seq<char>>, v: Tree)
    requires
        p.len() >= 1,
        tree_insert(Tree::Branch(cs), p, v) is Ok,
    ensures
        ({
            let cs2 = tree_insert(Tree::Branch(cs), p, v)->Ok_0->Branch_0;
            &&& cs.len() <= cs2.len() <= cs.len() + 1
            &&& forall|j: int| 0 <= j < cs.len() ==> (#[trigger] cs2[j]).0 == cs[j].0
            &&& cs2.len() == cs.len() + 1 ==> cs2[cs.len() as int].0 == p[0]
        }),
{
    if p.len() >= 2 {
        let i = key_index(cs, p[0]);
        lemma_key_index(cs, p[0]);
    }
}

/// Case-insensitive matching treats keys that differ only in ASCII case
/// alike.
proof fn lemma_nocase_index_same(names: Seq<Seq<char>>, a: Seq<char>, b: Seq<char>)
    requires
        eq_ascii_nocase(a, b),
    ensures
        nocase_index(names, a) == nocase_index(names, b),
    decreases names.len(),
{
    if names.len() > 0 {
        lemma_nocase_index_same(names.drop_first(), a, b);
    }
}

/// Without case sensitivity, keys that differ only in ASCII case are renamed
/// to the same expected name, when one of them matches one.
pub proof fn lemma_coerce_ignores_case(names: Seq<Seq<char>>, a: Seq<char>, b: Seq<char>)
    requires
        eq_ascii_nocase(a, b),
        nocase_index(names, a) < names.len(),
    ensures
        coerced_key(false, names, a) == coerced_key(false, names, b),
{
    lemma_nocase_index_same(names, a, b);
}

/// Renaming a key a second time changes nothing.
pub proof fn lemma_coerce_idempotent(case_sensitive: bool, names: Seq<Seq<char>>, k: Seq<char>)
    ensures
        coerced_key(case_sensitive, names, coerced_key(case_sensitive, names, k)) == coerced_key(
            case_sensitive,
            names,
            k,
        ),
{
    if !case_sensitive {
        lemma_nocase_index(names, k);
        let j = nocase_index(names, k);
        if j < names.len() {
            assert(eq_ascii_nocase(names[j], k));
            lemma_nocase_index_same(names, names[j], k);
        }
    }
}

/// With case sensitivity, keys are never renamed.
pub proof fn lemma_coerce_case_sensitive(names: Seq<Seq<char>>, cs: Seq<(Seq<char>, Tree)>)
    ensures
        coerced_children(true, names, cs) == cs,
{
    assert(coerced_children(true, names, cs) =~= cs);
}

/// Without case sensitivity, two groups whose keys differ only in ASCII case,
/// and each match an expected name, present the same entries to a struct or
/// enum request.
pub proof fn lemma_coerce_children_ignore_case(
    names: Seq<Seq<char>>,
    a: Seq<(Seq<char>, Tree)>,
    b: Seq<(Seq<char>, Tree)>,
)
    requires
        a.len() == b.len(),
        forall|i: int|
            0 <= i < a.len() ==> eq_ascii_nocase((#[trigger] a[i]).0, b[i].0) && a[i].1 == b[i].1
                && nocase_index(names, a[i].0) < names.len(),
    ensures
        coerced_children(false, names, a) == coerced_children(false, names, b),
{
    assert forall|i: int| 0 <= i < a.len() implies coerced_children(false, names, a)[i]
        == coerced_children(false, names, b)[i] by {
        lemma_coerce_ignores_case(names, a[i].0, b[i].0);
    }
    assert(coerced_children(false, names, a) =~= coerced_children(false, names, b));
}

} // verus!
