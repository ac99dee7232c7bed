//! Character-level helpers on keys: splitting on a separator, ASCII case
//! folding and prefix stripping, each stated over `Seq<char>`.
use vstd::prelude::*;

verus! {

/// Relies on `String::push`: the character is appended at the end.
pub assume_specification[ String::push ](s: &mut String, ch: char)
    ensures
        final(s)@ == old(s)@.push(ch),
;

/// The ASCII lowercase form of one character; every other character is kept.
pub open spec fn ascii_lower(c: char) -> char {
    if 'A' <= c && c <= 'Z' {
        ((c as u32) + 32) as char
    } else {
        c
    }
}

/// The ASCII lowercase form of a whole key.
pub open spec fn ascii_lower_seq(s: Seq<char>) -> Seq<char> {
    s.map_values(|c: char| ascii_lower(c))
}

/// Two keys are equal once their ASCII letters are lowercased.
pub open spec fn eq_ascii_nocase(a: Seq<char>, b: Seq<char>) -> bool {
    ascii_lower_seq(a) == ascii_lower_seq(b)
}

/// `p` is a prefix of `s`.
pub open spec fn starts_with(s: Seq<char>, p: Seq<char>) -> bool {
    p.len() <= s.len() && s.take(p.len() as int) == p
}

/// `sep` occurs in `s` starting at position `i`.
pub open spec fn occurs_at(s: Seq<char>, sep: Seq<char>, i: int) -> bool {
    0 <= i && i + sep.len() <= s.len() && s.subrange(i, i + sep.len()) == sep
}

/// The segments of `s` between the non-overlapping occurrences of `sep`,
/// found from left to right. With an empty separator every character is a
/// segment of its own, framed by an empty segment on each side.
pub open spec fn split_seq(s: Seq<char>, sep: Seq<char>) -> Seq<Seq<char>>
    decreases s.len(),
{
    if sep.len() == 0 {
        seq![Seq::<char>::empty()] + s.map_values(|c: char| seq![c]) + seq![Seq::<char>::empty()]
    } else if s.len() == 0 {
        seq![Seq::<char>::empty()]
    } else if occurs_at(s, sep, 0) {
        seq![Seq::<char>::empty()] + split_seq(s.skip(sep.len() as int), sep)
    } else {
        let rest = split_seq(s.skip(1), sep);
        rest.update(0, seq![s[0]] + rest[0])
    }
}

pub proof fn lemma_split_nonempty(s: Seq<char>, sep: Seq<char>)
    ensures
        split_seq(s, sep).len() >= 1,
    decreases s.len(),
{
    if sep.len() != 0 && s.len() != 0 {
        if occurs_at(s, sep, 0) {
            lemma_split_nonempty(s.skip(sep.len() as int), sep);
        } else {
            lemma_split_nonempty(s.skip(1), sep);
        }
    }
}

/// The views of a list of strings.
pub open spec fn views(v: Seq<String>) -> Seq<Seq<char>> {
    v.map_values(|s: String| s@)
}

/// The characters of `s`, in order.
pub fn chars_of(s: &str) -> (r: Vec<char>)
    ensures
        r@ == s@,
{
    let mut r: Vec<char> = Vec::new();
    for c in it: s.chars()
        invariant
            it.seq() == s@,
            r@ == it.seq().take(it.index() as int),
    {
        r.push(c);
    }
    r
}

/// The string made of `cs[from..to]`.
pub fn string_of(cs: &Vec<char>, from: usize, to: usize) -> (r: String)
    requires
        from <= to <= cs.len(),
    ensures
        r@ == cs@.subrange(from as int, to as int),
{
    let mut r = String::new();
    let mut i: usize = from;
    while i < to
        invariant
            from <= i <= to <= cs.len(),
            r@ == cs@.subrange(from as int, i as int),
        decreases to - i,
    {
        r.push(cs[i]);
        i = i + 1;
        assert(r@ =~= cs@.subrange(from as int, i as int));
    }
    r
}

/// The ASCII lowercase form of one character.
pub fn lower_char(c: char) -> (r: char)
    ensures
        r == ascii_lower(c),
{
    if 'A' <= c && c <= 'Z' {
        ((c as u8) + 32) as char
    } else {
        c
    }
}

/// `s` with its ASCII letters lowercased; other characters are kept.
pub fn to_ascii_lowercase(s: &str) -> (r: String)
    ensures
        r@ == ascii_lower_seq(s@),
{
    let cs = chars_of(s);
    let mut r = String::new();
    let mut i: usize = 0;
    while i < cs.len()
        invariant
            i <= cs.len(),
            cs@ == s@,
            r@ == ascii_lower_seq(cs@.take(i as int)),
        decreases cs.len() - i,
    {
        r.push(lower_char(cs[i]));
        i = i + 1;
        assert(r@ =~= ascii_lower_seq(cs@.take(i as int)));
    }
    assert(cs@.take(cs.len() as int) =~= cs@);
    r
}

/// Whether `a` and `b` are equal up to the case of ASCII letters.
pub fn eq_ignore_ascii_case(a: &str, b: &str) -> (r: bool)
    ensures
        r == eq_ascii_nocase(a@, b@),
{
    let x = chars_of(a);
    let y = chars_of(b);
    if x.len() != y.len() {
        assert(ascii_lower_seq(a@).len() != ascii_lower_seq(b@).len());
        return false;
    }
    let mut i: usize = 0;
    while i < x.len()
        invariant
            i <= x.len() == y.len(),
            x@ == a@,
            y@ == b@,
            forall|j: int| 0 <= j < i ==> ascii_lower(x@[j]) == ascii_lower(y@[j]),
        decreases x.len() - i,
    {
        if lower_char(x[i]) != lower_char(y[i]) {
            assert(ascii_lower_seq(a@)[i as int] != ascii_lower_seq(b@)[i as int]);
            return false;
        }
        i = i + 1;
    }
    assert(ascii_lower_seq(a@) =~= ascii_lower_seq(b@));
    true
}

/// Whether `cs` holds `pat` at position `i`.
fn occurs_in(cs: &Vec<char>, pat: &Vec<char>, i: usize) -> (r: bool)
    requires
        i <= cs.len(),
    ensures
        r == occurs_at(cs@, pat@, i as int),
{
    if pat.len() > cs.len() - i {
        return false;
    }
    let mut j: usize = 0;
    while j < pat.len()
        invariant
            j <= pat.len(),
            i + pat.len() <= cs.len(),
            forall|k: int| 0 <= k < j ==> cs@[i + k] == pat@[k],
        decreases pat.len() - j,
    {
        if cs[i + j] != pat[j] {
            assert(cs@.subrange(i as int, i + pat.len())[j as int] != pat@[j as int]);
            return false;
        }
        j = j + 1;
    }
    assert(cs@.subrange(i as int, i + pat.len()) =~= pat@);
    true
}

/// `s` without its leading `prefix`, or `None` where `s` does not start with it.
pub fn strip_prefix(s: &str, prefix: &str) -> (r: Option<String>)
    ensures
        r is Some <==> starts_with(s@, prefix@),
        r matches Some(t) ==> t@ == s@.skip(prefix@.len() as int),
{
    let cs = chars_of(s);
    let ps = chars_of(prefix);
    if occurs_in(&cs, &ps, 0) {
        assert(cs@.take(ps@.len() as int) =~= cs@.subrange(0, ps@.len() as int));
        let t = string_of(&cs, ps.len(), cs.len());
        assert(t@ =~= s@.skip(prefix@.len() as int));
        Some(t)
    } else {
        assert(!starts_with(s@, prefix@)) by {
            if starts_with(s@, prefix@) {
                assert(cs@.take(ps@.len() as int) =~= cs@.subrange(0, ps@.len() as int));
            }
        }
        None
    }
}

/// The segments of `s` between the occurrences of `sep`, as `str::split` gives them.
pub fn split_key(s: &str, sep: &str) -> (r: Vec<String>)
    ensures
        views(r@) == split_seq(s@, sep@),
{
    let cs = chars_of(s);
    let ps = chars_of(sep);
    let mut r: Vec<String> = Vec::new();
    if ps.len() == 0 {
        r.push(String::new());
        let mut i: usize = 0;
        while i < cs.len()
            invariant
                i <= cs.len(),
                cs@ == s@,
                views(r@) == seq![Seq::<char>::empty()] + cs@.take(i as int).map_values(
                    |c: char| seq![c],
                ),
            decreases cs.len() - i,
        {
            let one = string_of(&cs, i, i + 1);
            assert(one@ =~= seq![cs@[i as int]]);
            let ghost prev = r@;
            r.push(one);
            assert(views(r@) =~= views(prev).push(one@));
            assert(cs@.take(i + 1).map_values(|c: char| seq![c]) =~= cs@.take(i as int).map_values(
                |c: char| seq![c],
            ).push(seq![cs@[i as int]]));
            i = i + 1;
            assert(views(r@) =~= seq![Seq::<char>::empty()] + cs@.take(i as int).map_values(
                |c: char| seq![c],
            ));
        }
        r.push(String::new());
        assert(cs@.take(cs.len() as int) =~= cs@);
        assert(views(r@) =~= split_seq(s@, sep@));
        return r;
    }
    let mut start: usize = 0;
    let mut i: usize = 0;
    proof {
        lemma_split_nonempty(s@, sep@);
        let all = split_seq(s@, sep@);
        assert(cs@.skip(0) =~= cs@);
        assert(cs@.subrange(0, 0) + all[0] =~= all[0]);
        assert(all =~= views(r@) + seq![all[0]] + all.skip(1));
    }
    while i < cs.len()
        invariant
            start <= i <= cs.len(),
            cs@ == s@,
            ps@ == sep@,
            ps@.len() > 0,
            split_seq(s@, sep@) == views(r@) + seq![
                cs@.subrange(start as int, i as int) + split_seq(cs@.skip(i as int), sep@)[0],
            ] + split_seq(cs@.skip(i as int), sep@).skip(1),
        decreases cs.len() - i,
    {
        let ghost tail = cs@.skip(i as int);
        proof {
            lemma_split_nonempty(tail, sep@);
        }
        if occurs_in(&cs, &ps, i) {
            assert(tail.subrange(0, sep@.len() as int) =~= cs@.subrange(
                i as int,
                i + sep@.len(),
            ));
            assert(tail.skip(sep@.len() as int) =~= cs@.skip(i + ps.len()));
            r.push(string_of(&cs, start, i));
            i = i + ps.len();
            start = i;
            proof {
                let next = split_seq(cs@.skip(i as int), sep@);
                lemma_split_nonempty(cs@.skip(i as int), sep@);
                assert(cs@.subrange(start as int, i as int) + next[0] =~= next[0]);
                assert(seq![Seq::<char>::empty()] + next =~= split_seq(tail, sep@));
                assert(next =~= seq![next[0]] + next.skip(1));
            }
            assert(split_seq(s@, sep@) =~= views(r@) + seq![
                cs@.subrange(start as int, i as int) + split_seq(cs@.skip(i as int), sep@)[0],
            ] + split_seq(cs@.skip(i as int), sep@).skip(1));
        } else {
            proof {
                assert(!occurs_at(tail, sep@, 0)) by {
                    if occurs_at(tail, sep@, 0) {
                        assert(tail.subrange(0, sep@.len() as int) =~= cs@.subrange(
                            i as int,
                            i + sep@.len(),
                        ));
                    }
                }
                assert(tail.skip(1) =~= cs@.skip(i + 1));
                let next = split_seq(cs@.skip(i + 1), sep@);
                lemma_split_nonempty(cs@.skip(i + 1), sep@);
                assert(cs@.subrange(start as int, i as int) + (seq![tail[0]] + next[0])
                    =~= cs@.subrange(start as int, i + 1) + next[0]);
                assert(split_seq(tail, sep@).skip(1) =~= next.skip(1));
            }
            i = i + 1;
        }
    }
    proof {
        assert(cs@.skip(i as int) =~= Seq::<char>::empty());
        assert(cs@.subrange(start as int, i as int) + Seq::<char>::empty() =~= cs@.subrange(
            start as int,
            i as int,
        ));
    }
    r.push(string_of(&cs, start, cs.len()));
    assert(views(r@) =~= split_seq(s@, sep@));
    r
}

} // verus!
