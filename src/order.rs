//! The order of array elements rebuilt from their keys: an optional leading
//! number, then the rest of the key.
use vstd::prelude::*;

use crate::text::chars_of;
use crate::value::{children_of, lemma_children_of, Tree, Value};

verus! {

pub open spec fn is_digit(c: char) -> bool {
    '0' <= c && c <= '9'
}

/// The number of ASCII digits at the start of `k`.
pub open spec fn digit_count(k: Seq<char>) -> nat
    decreases k.len(),
{
    if k.len() > 0 && is_digit(k[0]) {
        1 + digit_count(k.drop_first())
    } else {
        0
    }
}

/// The decimal value of a run of digits.
pub open spec fn digits_value(d: Seq<char>) -> nat
    decreases d.len(),
{
    if d.len() == 0 {
        0
    } else {
        digits_value(d.drop_last()) * 10 + ((d.last() as u32) - ('0' as u32)) as nat
    }
}

/// The leading number of a key: `None` where the key does not start with a
/// digit, or where the number does not fit in a `usize`.
pub open spec fn index_number(k: Seq<char>) -> Option<nat> {
    let n = digit_count(k);
    if n == 0 || digits_value(k.take(n as int)) > usize::MAX {
        None
    } else {
        Some(digits_value(k.take(n as int)))
    }
}

/// What follows the leading digits of a key.
pub open spec fn index_rest(k: Seq<char>) -> Seq<char> {
    k.skip(digit_count(k) as int)
}

/// `a` comes strictly before `b` when compared character by character.
pub open spec fn chars_lt(a: Seq<char>, b: Seq<char>) -> bool
    decreases a.len(),
{
    if a.len() == 0 {
        b.len() > 0
    } else if b.len() == 0 {
        false
    } else if a[0] != b[0] {
        a[0] < b[0]
    } else {
        chars_lt(a.drop_first(), b.drop_first())
    }
}

/// The order of two (number, rest) pairs: no number before any number,
/// numbers by value, then the rests character by character.
pub open spec fn parts_lt(na: Option<nat>, ra: Seq<char>, nb: Option<nat>, rb: Seq<char>) -> bool {
    match (na, nb) {
        (None, Some(_)) => true,
        (Some(_), None) => false,
        (Some(x), Some(y)) => x < y || (x == y && chars_lt(ra, rb)),
        (None, None) => chars_lt(ra, rb),
    }
}

/// Key `a` sorts strictly before key `b`.
pub open spec fn index_lt(a: Seq<char>, b: Seq<char>) -> bool {
    parts_lt(index_number(a), index_rest(a), index_number(b), index_rest(b))
}

/// `x` placed after every element of `s` whose key does not sort after its own.
pub open spec fn insert_by_index<A>(s: Seq<(Seq<char>, A)>, x: (Seq<char>, A)) -> Seq<
    (Seq<char>, A),
>
    decreases s.len(),
{
    if s.len() == 0 {
        seq![x]
    } else if index_lt(x.0, s.last().0) {
        insert_by_index(s.drop_last(), x).push(s.last())
    } else {
        s.push(x)
    }
}

/// The elements sorted by key; elements whose keys tie keep their order.
pub open spec fn sort_by_index<A>(s: Seq<(Seq<char>, A)>) -> Seq<(Seq<char>, A)>
    decreases s.len(),
{
    if s.len() == 0 {
        s
    } else {
        insert_by_index(sort_by_index(s.drop_last()), s.last())
    }
}

pub open spec fn opt_nat(o: Option<usize>) -> Option<nat> {
    match o {
        Some(n) => Some(n as nat),
        None => None,
    }
}

proof fn lemma_digit_count(k: Seq<char>, i: int)
    requires
        0 <= i <= k.len(),
        forall|j: int| 0 <= j < i ==> is_digit(k[j]),
        i == k.len() || !is_digit(k[i]),
    ensures
        digit_count(k) == i,
    decreases i,
{
    if i > 0 {
        lemma_digit_count(k.drop_first(), i - 1);
    }
}

/// A run of digits is worth no less than any of its prefixes.
proof fn lemma_digits_value_grows(d: Seq<char>, c: char)
    requires
        is_digit(c),
    ensures
        digits_value(d.push(c)) >= digits_value(d),
        digits_value(d.push(c)) == digits_value(d) * 10 + ((c as u32) - ('0' as u32)) as nat,
{
    assert(d.push(c).drop_last() =~= d);
}

/// The leading number of `cs` and what follows it.
fn index_parts(cs: &Vec<char>) -> (r: (Option<usize>, Vec<char>))
    ensures
        opt_nat(r.0) == index_number(cs@),
        r.1@ == index_rest(cs@),
{
    let mut i: usize = 0;
    let mut value: usize = 0;
    let mut overflow = false;
    while i < cs.len() && '0' <= cs[i] && cs[i] <= '9'
        invariant
            i <= cs.len(),
            forall|j: int| 0 <= j < i ==> is_digit(cs@[j]),
            overflow <==> digits_value(cs@.take(i as int)) > usize::MAX,
            !overflow ==> value == digits_value(cs@.take(i as int)),
        decreases cs.len() - i,
    {
        let d = ((cs[i] as u32) - ('0' as u32)) as usize;
        proof {
            assert(cs@.take(i + 1) =~= cs@.take(i as int).push(cs@[i as int]));
            lemma_digits_value_grows(cs@.take(i as int), cs@[i as int]);
        }
        if !overflow {
            if value > (usize::MAX - d) / 10 {
                overflow = true;
            } else {
                value = value * 10 + d;
            }
        }
        i = i + 1;
    }
    proof {
        lemma_digit_count(cs@, i as int);
    }
    let mut rest: Vec<char> = Vec::new();
    let mut j: usize = i;
    while j < cs.len()
        invariant
            i <= j <= cs.len(),
            rest@ == cs@.subrange(i as int, j as int),
        decreases cs.len() - j,
    {
        rest.push(cs[j]);
        j = j + 1;
        assert(rest@ =~= cs@.subrange(i as int, j as int));
    }
    assert(rest@ =~= cs@.skip(i as int));
    if i == 0 || overflow {
        (None, rest)
    } else {
        (Some(value), rest)
    }
}

/// Whether `a` comes strictly before `b` character by character.
fn chars_less(a: &Vec<char>, b: &Vec<char>) -> (r: bool)
    ensures
        r == chars_lt(a@, b@),
{
    let mut i: usize = 0;
    proof {
        assert(a@.skip(0) =~= a@);
        assert(b@.skip(0) =~= b@);
    }
    while i < a.len() && i < b.len() && a[i] == b[i]
        invariant
            i <= a.len(),
            i <= b.len(),
            chars_lt(a@, b@) == chars_lt(a@.skip(i as int), b@.skip(i as int)),
        decreases a.len() - i,
    {
        proof {
            assert(a@.skip(i as int).drop_first() =~= a@.skip(i + 1));
            assert(b@.skip(i as int).drop_first() =~= b@.skip(i + 1));
        }
        i = i + 1;
    }
    if i == a.len() {
        i < b.len()
    } else if i == b.len() {
        false
    } else {
        a[i] < b[i]
    }
}

/// Whether the parts `a` sort strictly before the parts `b`.
fn parts_less(a: &(Option<usize>, Vec<char>), b: &(Option<usize>, Vec<char>)) -> (r: bool)
    ensures
        r == parts_lt(opt_nat(a.0), a.1@, opt_nat(b.0), b.1@),
{
    match (a.0, b.0) {
        (None, Some(_)) => true,
        (Some(_), None) => false,
        (Some(x), Some(y)) => x < y || (x == y && chars_less(&a.1, &b.1)),
        (None, None) => chars_less(&a.1, &b.1),
    }
}

proof fn lemma_insert_step<A>(s: Seq<(Seq<char>, A)>, x: (Seq<char>, A), p: int)
    requires
        0 < p <= s.len(),
        index_lt(x.0, s[p - 1].0),
    ensures
        insert_by_index(s.take(p), x) == insert_by_index(s.take(p - 1), x).push(s[p - 1]),
{
    assert(s.take(p).drop_last() =~= s.take(p - 1));
}

/// No element's key sorts before the key of an element ahead of it.
pub open spec fn index_sorted<A>(s: Seq<(Seq<char>, A)>) -> bool {
    forall|i: int, j: int| 0 <= i < j < s.len() ==> !index_lt(s[j].0, s[i].0)
}

proof fn lemma_chars_lt_total(a: Seq<char>, b: Seq<char>)
    ensures
        !chars_lt(a, a),
        chars_lt(a, b) ==> !chars_lt(b, a),
        a != b ==> chars_lt(a, b) || chars_lt(b, a),
    decreases a.len(),
{
    if a.len() > 0 {
        lemma_chars_lt_total(a.drop_first(), a.drop_first());
        if b.len() > 0 {
            lemma_chars_lt_total(a.drop_first(), b.drop_first());
            if a != b && a[0] == b[0] {
                assert(a =~= seq![a[0]] + a.drop_first());
                assert(b =~= seq![b[0]] + b.drop_first());
            }
        }
    } else if b.len() == 0 {
        assert(a =~= b);
    }
}

proof fn lemma_chars_lt_trans(a: Seq<char>, b: Seq<char>, c: Seq<char>)
    requires
        chars_lt(a, b),
        chars_lt(b, c),
    ensures
        chars_lt(a, c),
    decreases a.len(),
{
    if a.len() > 0 && a[0] == b[0] && b[0] == c[0] {
        lemma_chars_lt_trans(a.drop_first(), b.drop_first(), c.drop_first());
    }
}

proof fn lemma_index_lt_order(x: Seq<char>, y: Seq<char>, z: Seq<char>)
    ensures
        !index_lt(x, x),
        index_lt(x, y) ==> !index_lt(y, x),
        !index_lt(x, y) && !index_lt(y, z) ==> !index_lt(x, z),
{
    lemma_chars_lt_total(index_rest(x), index_rest(x));
    lemma_chars_lt_total(index_rest(x), index_rest(y));
    lemma_chars_lt_total(index_rest(y), index_rest(z));
    lemma_chars_lt_total(index_rest(x), index_rest(z));
    if !index_lt(x, y) && !index_lt(y, z) && index_lt(x, z) {
        if chars_lt(index_rest(z), index_rest(y)) && chars_lt(index_rest(y), index_rest(x)) {
            lemma_chars_lt_trans(index_rest(z), index_rest(y), index_rest(x));
        }
    }
}

proof fn lemma_insert_by_index<A>(s: Seq<(Seq<char>, A)>, x: (Seq<char>, A))
    requires
        index_sorted(s),
    ensures
        index_sorted(insert_by_index(s, x)),
        insert_by_index(s, x).to_multiset() == s.to_multiset().insert(x),
    decreases s.len(),
{
    broadcast use vstd::seq_lib::group_to_multiset_ensures;

    if s.len() == 0 {
        assert(seq![x] =~= s.push(x));
    } else {
        let last = s.last();
        let front = s.drop_last();
        assert(front.push(last) =~= s);
        if index_lt(x.0, last.0) {
            assert(index_sorted(front));
            lemma_insert_by_index(front, x);
            let r = insert_by_index(front, x);
            lemma_index_lt_order(x.0, last.0, last.0);
            assert forall|i: int| 0 <= i < r.len() implies !index_lt(last.0, (#[trigger] r[i]).0) by {
                assert(r.to_multiset().count(r[i]) > 0);
                assert(front.to_multiset().insert(x).count(r[i]) > 0);
                if r[i] != x {
                    assert(front.to_multiset().count(r[i]) > 0);
                    assert(front.contains(r[i]));
                    let k = choose|k: int| 0 <= k < front.len() && front[k] == r[i];
                    assert(s[k] == front[k]);
                }
            }
        } else {
            assert forall|k: int| 0 <= k < s.len() implies !index_lt(x.0, (#[trigger] s[k]).0) by {
                lemma_index_lt_order(x.0, last.0, s[k].0);
                if k < s.len() - 1 {
                    assert(!index_lt(last.0, s[k].0));
                } else {
                    lemma_index_lt_order(x.0, x.0, x.0);
                }
            }
        }
    }
}

/// Sorting by key keeps every element and puts the elements in key order.
pub proof fn lemma_sort_by_index<A>(s: Seq<(Seq<char>, A)>)
    ensures
        index_sorted(sort_by_index(s)),
        sort_by_index(s).to_multiset() == s.to_multiset(),
    decreases s.len(),
{
    broadcast use vstd::seq_lib::group_to_multiset_ensures;

    if s.len() > 0 {
        lemma_sort_by_index(s.drop_last());
        lemma_insert_by_index(sort_by_index(s.drop_last()), s.last());
        assert(s.drop_last().push(s.last()) =~= s);
    }
}

/// The children sorted by the leading numbers of their keys, then by what
/// follows; children whose keys tie keep their order.
pub fn sort_children(children: Vec<(String, Value)>) -> (r: Vec<(String, Value)>)
    ensures
        children_of(r@) == sort_by_index(children_of(children@)),
        index_sorted(children_of(r@)),
        children_of(r@).to_multiset() == children_of(children@).to_multiset(),
{
    let ghost all = children_of(children@);
    let mut r: Vec<(String, Value)> = Vec::new();
    let mut keys: Vec<(Option<usize>, Vec<char>)> = Vec::new();
    proof {
        lemma_children_of(children@);
        assert(all.take(0) =~= Seq::<(Seq<char>, Tree)>::empty());
        assert(children_of(r@) =~= Seq::<(Seq<char>, Tree)>::empty());
    }
    for child in it: children
        invariant
            it.seq() == children@,
            all == children_of(children@),
            all.len() == children@.len(),
            forall|j: int|
                0 <= j < children@.len() ==> #[trigger] all[j] == (
                    children@[j].0@,
                    children@[j].1@,
                ),
            children_of(r@) == sort_by_index(all.take(it.index() as int)),
            keys@.len() == r@.len(),
            forall|j: int|
                0 <= j < r@.len() ==> opt_nat((#[trigger] keys@[j]).0) == index_number(r@[j].0@)
                    && keys@[j].1@ == index_rest(r@[j].0@),
    {
        let ghost sorted = children_of(r@);
        let ghost x = (child.0@, child.1@);
        proof {
            lemma_children_of(r@);
            assert(all.take(it.index() + 1).drop_last() =~= all.take(it.index() as int));
            assert(all.take(it.index() + 1).last() == x);
        }
        let key_chars = chars_of(child.0.as_str());
        let k = index_parts(&key_chars);
        let mut p: usize = r.len();
        proof {
            assert(sorted.take(p as int) =~= sorted);
            assert(insert_by_index(sorted, x) + sorted.skip(p as int) =~= insert_by_index(sorted, x));
        }
        while p > 0 && parts_less(&k, &keys[p - 1])
            invariant
                p <= r@.len(),
                sorted == children_of(r@),
                sorted.len() == r@.len(),
                keys@.len() == r@.len(),
                opt_nat(k.0) == index_number(x.0),
                k.1@ == index_rest(x.0),
                forall|j: int|
                    0 <= j < r@.len() ==> opt_nat((#[trigger] keys@[j]).0) == index_number(
                        r@[j].0@,
                    ) && keys@[j].1@ == index_rest(r@[j].0@),
                forall|j: int|
                    0 <= j < r@.len() ==> #[trigger] sorted[j] == (r@[j].0@, r@[j].1@),
                insert_by_index(sorted, x) == insert_by_index(sorted.take(p as int), x) + sorted.skip(
                    p as int,
                ),
            decreases p,
        {
            proof {
                assert(sorted[p - 1] == (r@[p - 1].0@, r@[p - 1].1@));
                lemma_insert_step(sorted, x, p as int);
                assert(sorted.skip(p - 1) =~= seq![sorted[p - 1]] + sorted.skip(p as int));
                assert(insert_by_index(sorted.take(p - 1), x).push(sorted[p - 1]) + sorted.skip(
                    p as int,
                ) =~= insert_by_index(sorted.take(p - 1), x) + sorted.skip(p - 1));
            }
            p = p - 1;
        }
        proof {
            if p > 0 {
                assert(sorted[p - 1] == (r@[p - 1].0@, r@[p - 1].1@));
                assert(sorted.take(p as int).last() == sorted[p - 1]);
                assert(sorted.take(p as int).drop_last() =~= sorted.take(p - 1));
                assert(insert_by_index(sorted.take(p as int), x) == sorted.take(p as int).push(x));
            } else {
                assert(sorted.take(0) =~= Seq::<(Seq<char>, Tree)>::empty());
            }
        }
        let ghost before = r@;
        let ghost kbefore = keys@;
        r.insert(p, child);
        keys.insert(p, k);
        proof {
            lemma_children_of(r@);
            assert(children_of(r@) =~= sorted.take(p as int).push(x) + sorted.skip(p as int));
            assert forall|j: int| 0 <= j < r@.len() implies opt_nat(
                (#[trigger] keys@[j]).0,
            ) == index_number(r@[j].0@) && keys@[j].1@ == index_rest(r@[j].0@) by {
                if j > p {
                    assert(keys@[j] == kbefore[j - 1]);
                    assert(r@[j] == before[j - 1]);
                } else if j < p {
                    assert(keys@[j] == kbefore[j]);
                    assert(r@[j] == before[j]);
                }
            }
        }
    }
    proof {
        assert(all.take(children@.len() as int) =~= all);
        lemma_sort_by_index(all);
    }
    r
}

} // verus!
