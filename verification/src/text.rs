//! Text helpers shared by the rest of the library.
//!
//! Partition names, archive entry paths and kernel command lines are all
//! handled as sequences of characters. Names are ordered lexicographically
//! by character, which for Rust strings is the same order as the one of
//! their UTF-8 bytes.

use vstd::prelude::*;
use vstd::string::*;

verus! {

/// The character sequences of a list of names.
pub open spec fn names_view(names: Seq<String>) -> Seq<Seq<char>> {
    Seq::new(names.len(), |i: int| names[i]@)
}

/// `p` is a prefix of `s`.
pub open spec fn is_prefix_of(p: Seq<char>, s: Seq<char>) -> bool {
    p.len() <= s.len() && s.subrange(0, p.len() as int) == p
}

/// Strict lexicographic order on character sequences.
pub open spec fn lex_lt(a: Seq<char>, b: Seq<char>) -> bool
    decreases a.len(),
{
    if b.len() == 0 {
        false
    } else if a.len() == 0 {
        true
    } else if a[0] != b[0] {
        (a[0] as u32) < (b[0] as u32)
    } else {
        lex_lt(a.drop_first(), b.drop_first())
    }
}

/// Every name stands before all the names that follow it.
pub open spec fn strictly_sorted(s: Seq<Seq<char>>) -> bool {
    forall|i: int, j: int| 0 <= i < j < s.len() ==> lex_lt(s[i], s[j])
}

/// No name occurs twice.
pub open spec fn distinct(s: Seq<Seq<char>>) -> bool {
    forall|i: int, j: int| 0 <= i < j < s.len() ==> s[i] != s[j]
}

/// The index of the first occurrence of `c` in `s`, or the length of `s`
/// where `c` does not occur.
pub open spec fn first_index_of(s: Seq<char>, c: char) -> int
    decreases s.len(),
{
    if s.len() == 0 {
        0
    } else if s[0] == c {
        0
    } else {
        1 + first_index_of(s.drop_first(), c)
    }
}

/// How two names stand to each other in the lexicographic order.
#[derive(Clone, Copy, Debug, PartialEq, Eq, Structural)]
pub enum Rank {
    Before,
    Same,
    After,
}

/// No name stands before itself.
pub proof fn lemma_lex_lt_irreflexive(a: Seq<char>)
    ensures
        !lex_lt(a, a),
    decreases a.len(),
{
    if a.len() > 0 {
        lemma_lex_lt_irreflexive(a.drop_first());
    }
}

/// A name that stands before a second stands before all that the second
/// stands before.
pub proof fn lemma_lex_lt_transitive(a: Seq<char>, b: Seq<char>, c: Seq<char>)
    requires
        lex_lt(a, b),
        lex_lt(b, c),
    ensures
        lex_lt(a, c),
    decreases a.len(),
{
    if a.len() > 0 && a[0] == b[0] && b[0] == c[0] {
        lemma_lex_lt_transitive(a.drop_first(), b.drop_first(), c.drop_first());
    }
}

/// Two characters with the same code are the same character.
pub proof fn lemma_char_code_injective(c: char, d: char)
    ensures
        (c as u32) == (d as u32) ==> c == d,
{
    if (c as u32) == (d as u32) {
        vstd::utf8::char_u32_cast(c, c as u32);
        vstd::utf8::char_u32_cast(d, d as u32);
    }
}

/// A strictly sorted list holds no name twice.
pub proof fn lemma_sorted_distinct(s: Seq<Seq<char>>)
    requires
        strictly_sorted(s),
    ensures
        distinct(s),
{
    assert forall|i: int, j: int| 0 <= i < j < s.len() implies s[i] != s[j] by {
        lemma_lex_lt_irreflexive(s[i]);
    }
}

/// `first_index_of` is the index of an occurrence, and there is none before
/// it.
pub proof fn lemma_first_index_of(s: Seq<char>, c: char)
    ensures
        0 <= first_index_of(s, c) <= s.len(),
        first_index_of(s, c) < s.len() ==> s[first_index_of(s, c)] == c,
        forall|i: int| 0 <= i < first_index_of(s, c) ==> s[i] != c,
        first_index_of(s, c) == s.len() <==> !s.contains(c),
    decreases s.len(),
{
    if s.len() > 0 && s[0] != c {
        let t = s.drop_first();
        lemma_first_index_of(t, c);
        assert forall|i: int| 0 <= i < first_index_of(s, c) implies s[i] != c by {
            if i > 0 {
                assert(s[i] == t[i - 1]);
            }
        }
        if first_index_of(s, c) < s.len() {
            assert(s[first_index_of(s, c)] == t[first_index_of(t, c)]);
        }
        if t.contains(c) {
            let j = choose|j: int| 0 <= j < t.len() && t[j] == c;
            assert(s[j + 1] == c);
        }
        if s.contains(c) {
            let j = choose|j: int| 0 <= j < s.len() && s[j] == c;
            assert(t[j - 1] == c);
        }
    } else if s.len() > 0 {
        assert(s[0] == c);
    }
}

/// The index of the first occurrence of `name` in `names`, or the length of
/// `names` where it does not occur.
pub open spec fn position_of(names: Seq<Seq<char>>, name: Seq<char>) -> int
    decreases names.len(),
{
    if names.len() == 0 {
        0
    } else if names[0] == name {
        0
    } else {
        1 + position_of(names.drop_first(), name)
    }
}

/// `position_of` is the index of an occurrence, and there is none before it.
pub proof fn lemma_position_of(names: Seq<Seq<char>>, name: Seq<char>)
    ensures
        0 <= position_of(names, name) <= names.len(),
        position_of(names, name) < names.len() ==> names[position_of(names, name)] == name,
        forall|i: int| 0 <= i < position_of(names, name) ==> names[i] != name,
        position_of(names, name) < names.len() <==> names.contains(name),
    decreases names.len(),
{
    if names.len() > 0 && names[0] != name {
        let t = names.drop_first();
        lemma_position_of(t, name);
        assert forall|i: int| 0 <= i < position_of(names, name) implies names[i] != name by {
            if i > 0 {
                assert(names[i] == t[i - 1]);
            }
        }
        if position_of(names, name) < names.len() {
            assert(names[position_of(names, name)] == t[position_of(t, name)]);
        }
        if t.contains(name) {
            let j = choose|j: int| 0 <= j < t.len() && t[j] == name;
            assert(names[j + 1] == name);
        }
        if names.contains(name) {
            let j = choose|j: int| 0 <= j < names.len() && names[j] == name;
            assert(t[j - 1] == name);
        }
    } else if names.len() > 0 {
        assert(names[0] == name);
    }
}

/// The position of a name is the index before which it does not occur.
pub proof fn lemma_position_is(names: Seq<Seq<char>>, name: Seq<char>, k: int)
    requires
        0 <= k <= names.len(),
        forall|i: int| 0 <= i < k ==> names[i] != name,
        k < names.len() ==> names[k] == name,
    ensures
        position_of(names, name) == k,
{
    lemma_position_of(names, name);
    let f = position_of(names, name);
    if f < k {
        assert(names[f] != name);
    } else if k < f {
        assert(names[k] != name);
    }
}

/// A list with one more entry holds what it held before, and that entry.
pub proof fn lemma_contains_push<A>(s: Seq<A>, x: A)
    ensures
        forall|n: A| s.push(x).contains(n) <==> s.contains(n) || n == x,
{
    let t = s.push(x);
    assert forall|n: A| t.contains(n) <==> s.contains(n) || n == x by {
        if t.contains(n) {
            let k = choose|k: int| 0 <= k < t.len() && t[k] == n;
            if k < s.len() {
                assert(s[k] == n);
            }
        }
        if s.contains(n) {
            let k = choose|k: int| 0 <= k < s.len() && s[k] == n;
            assert(t[k] == n);
        }
        assert(t[s.len() as int] == x);
    }
}

/// The first `i + 1` entries of a list are its first `i` and the next one.
pub proof fn lemma_take_next<A>(s: Seq<A>, i: int)
    requires
        0 <= i < s.len(),
    ensures
        s.take(i + 1) == s.take(i).push(s[i]),
        forall|n: A| s.take(i + 1).contains(n) <==> s.take(i).contains(n) || n == s[i],
{
    assert(s.take(i + 1) =~= s.take(i).push(s[i]));
    lemma_contains_push(s.take(i), s[i]);
}

/// The characters of a string, in order.
pub fn to_chars(s: &str) -> (v: Vec<char>)
    ensures
        v@ == s@,
{
    let mut v: Vec<char> = Vec::new();
    for c in it: s.chars()
        invariant
            it.seq() == s@,
            v@ == it.seq().take(it.index() as int),
    {
        v.push(c);
    }
    v
}

/// Whether two strings hold the same characters.
pub fn str_eq(a: &str, b: &str) -> (r: bool)
    ensures
        r == (a@ == b@),
{
    let x = a.as_bytes();
    let y = b.as_bytes();
    if x.len() != y.len() {
        return false;
    }
    let mut i: usize = 0;
    while i < x.len()
        invariant
            i <= x.len(),
            x.len() == y.len(),
            x@ == a.spec_bytes(),
            y@ == b.spec_bytes(),
            forall|j: int| 0 <= j < i ==> x@[j] == y@[j],
        decreases x.len() - i,
    {
        if x[i] != y[i] {
            return false;
        }
        i += 1;
    }
    proof {
        assert(x@ =~= y@);
        vstd::utf8::encode_utf8_decode_utf8(a@);
        vstd::utf8::encode_utf8_decode_utf8(b@);
    }
    true
}

/// Whether `s` begins with `prefix`.
pub fn starts_with(s: &str, prefix: &str) -> (r: bool)
    ensures
        r == is_prefix_of(prefix@, s@),
{
    let x = to_chars(s);
    let p = to_chars(prefix);
    if p.len() > x.len() {
        return false;
    }
    let mut i: usize = 0;
    while i < p.len()
        invariant
            i <= p.len() <= x.len(),
            x@ == s@,
            p@ == prefix@,
            forall|j: int| 0 <= j < i ==> x@[j] == p@[j],
        decreases p.len() - i,
    {
        if x[i] != p[i] {
            assert(s@.subrange(0, p.len() as int)[i as int] != p@[i as int]);
            return false;
        }
        i += 1;
    }
    assert(s@.subrange(0, p.len() as int) =~= p@);
    true
}

/// The place of `a` relative to `b` in the lexicographic order.
pub fn lex_order(a: &str, b: &str) -> (r: Rank)
    ensures
        r == Rank::Before <==> lex_lt(a@, b@),
        r == Rank::Same <==> a@ == b@,
        r == Rank::After <==> lex_lt(b@, a@),
{
    let x = to_chars(a);
    let y = to_chars(b);
    let mut i: usize = 0;
    proof {
        assert(x@.skip(0) =~= x@);
        assert(y@.skip(0) =~= y@);
    }
    while i < x.len() && i < y.len()
        invariant
            i <= x.len(),
            i <= y.len(),
            x@ == a@,
            y@ == b@,
            x@.take(i as int) == y@.take(i as int),
            lex_lt(x@, y@) == lex_lt(x@.skip(i as int), y@.skip(i as int)),
            lex_lt(y@, x@) == lex_lt(y@.skip(i as int), x@.skip(i as int)),
        decreases x.len() - i,
    {
        let cx: u32 = x[i] as u32;
        let cy: u32 = y[i] as u32;
        proof {
            assert(x@.skip(i as int)[0] == x@[i as int]);
            assert(y@.skip(i as int)[0] == y@[i as int]);
            assert(x@.skip(i as int).drop_first() =~= x@.skip(i + 1));
            assert(y@.skip(i as int).drop_first() =~= y@.skip(i + 1));
        }
        if cx < cy {
            return Rank::Before;
        }
        if cx > cy {
            return Rank::After;
        }
        proof {
            lemma_char_code_injective(x@[i as int], y@[i as int]);
            assert(x@.take(i + 1) =~= x@.take(i as int).push(x@[i as int]));
            assert(y@.take(i + 1) =~= y@.take(i as int).push(y@[i as int]));
        }
        i += 1;
    }
    if i < y.len() {
        proof {
            assert(x@.skip(i as int).len() == 0);
            assert(x@.len() != y@.len());
        }
        Rank::Before
    } else if i < x.len() {
        proof {
            assert(y@.skip(i as int).len() == 0);
            assert(x@.len() != y@.len());
        }
        Rank::After
    } else {
        proof {
            assert(x@.take(i as int) =~= x@);
            assert(y@.take(i as int) =~= y@);
            lemma_lex_lt_irreflexive(x@);
        }
        Rank::Same
    }
}

/// Whether `names` holds `name`.
pub fn contains_name(names: &Vec<String>, name: &str) -> (r: bool)
    ensures
        r == names_view(names@).contains(name@),
{
    let mut i: usize = 0;
    while i < names.len()
        invariant
            i <= names.len(),
            forall|j: int| 0 <= j < i ==> names_view(names@)[j] != name@,
        decreases names.len() - i,
    {
        if str_eq(names[i].as_str(), name) {
            assert(names_view(names@)[i as int] == name@);
            return true;
        }
        i += 1;
    }
    false
}

/// The names of `names` in ascending order, each of them once.
pub fn sorted_unique(names: &Vec<String>) -> (r: Vec<String>)
    ensures
        strictly_sorted(names_view(r@)),
        distinct(names_view(r@)),
        forall|n: Seq<char>| names_view(r@).contains(n) <==> names_view(names@).contains(n),
{
    let mut out: Vec<String> = Vec::new();
    let mut i: usize = 0;
    while i < names.len()
        invariant
            i <= names.len(),
            strictly_sorted(names_view(out@)),
            forall|n: Seq<char>| names_view(out@).contains(n) <==> names_view(names@).take(i as int).contains(n),
        decreases names.len() - i,
    {
        let ghost before = names_view(out@);
        let ghost seen = names_view(names@).take(i as int);
        let name = names[i].clone();
        insert_sorted(&mut out, name);
        proof {
            let grown = names_view(names@).take(i + 1);
            assert(grown =~= seen.push(names@[i as int]@));
            assert forall|n: Seq<char>| names_view(out@).contains(n) <==> grown.contains(n) by {
                if grown.contains(n) {
                    let k = choose|k: int| 0 <= k < grown.len() && grown[k] == n;
                    if k < i {
                        assert(seen[k] == n);
                    }
                }
                if seen.contains(n) {
                    let k = choose|k: int| 0 <= k < seen.len() && seen[k] == n;
                    assert(grown[k] == n);
                }
                assert(grown[i as int] == names@[i as int]@);
            }
        }
        i += 1;
    }
    proof {
        assert(names_view(names@).take(i as int) =~= names_view(names@));
        lemma_sorted_distinct(names_view(out@));
    }
    out
}

/// Where `name` belongs in a sorted list: the index of the first entry that
/// does not stand before it, and whether that entry is `name` itself.
fn find_slot(list: &Vec<String>, name: &str) -> (r: (usize, bool))
    requires
        strictly_sorted(names_view(list@)),
    ensures
        r.0 <= list.len(),
        forall|j: int| 0 <= j < r.0 ==> lex_lt(names_view(list@)[j], name@),
        r.1 ==> r.0 < list.len() && names_view(list@)[r.0 as int] == name@,
        !r.1 ==> forall|j: int| r.0 <= j < list.len() ==> lex_lt(name@, names_view(list@)[j]),
{
    let ghost all = names_view(list@);
    let mut p: usize = 0;
    while p < list.len()
        invariant
            p <= list.len(),
            all == names_view(list@),
            strictly_sorted(all),
            forall|j: int| 0 <= j < p ==> lex_lt(all[j], name@),
        decreases list.len() - p,
    {
        let rank = lex_order(list[p].as_str(), name);
        assert(all[p as int] == list@[p as int]@);
        match rank {
            Rank::Before => {},
            Rank::Same => {
                return (p, true);
            },
            Rank::After => {
                proof {
                    assert forall|j: int| p <= j < list.len() implies lex_lt(name@, all[j]) by {
                        if j > p {
                            lemma_lex_lt_transitive(name@, all[p as int], all[j]);
                        }
                    }
                }
                return (p, false);
            },
        }
        p += 1;
    }
    (p, false)
}

/// Puts `name` at its place in a sorted list, unless the list holds it.
pub fn insert_sorted(list: &mut Vec<String>, name: String)
    requires
        strictly_sorted(names_view(old(list)@)),
    ensures
        strictly_sorted(names_view(final(list)@)),
        forall|n: Seq<char>|
            names_view(final(list)@).contains(n) <==> (names_view(old(list)@).contains(n) || n
                == name@),
{
    let ghost before = names_view(list@);
    let (p, found) = find_slot(list, name.as_str());
    if found {
        return ;
    }
    let ghost added = name@;
    list.insert(p, name);
    proof {
        let after = names_view(list@);
        assert(after.len() == before.len() + 1);
        assert forall|j: int| 0 <= j < after.len() implies after[j] == (if j < p {
            before[j]
        } else if j == p {
            added
        } else {
            before[j - 1]
        }) by {}
        assert forall|a: int, b: int| 0 <= a < b < after.len() implies lex_lt(
            after[a],
            after[b],
        ) by {
            if b < p {
                assert(lex_lt(before[a], before[b]));
            } else if b == p {
                assert(lex_lt(before[a], added));
            } else if a < p {
                assert(lex_lt(before[a], before[b - 1]));
            } else if a == p {
                assert(lex_lt(added, before[b - 1]));
            } else {
                assert(lex_lt(before[a - 1], before[b - 1]));
            }
        }
        assert forall|n: Seq<char>| after.contains(n) <==> (before.contains(n) || n
            == added) by {
            if after.contains(n) {
                let k = choose|k: int| 0 <= k < after.len() && after[k] == n;
                if k < p {
                    assert(before[k] == n);
                } else if k > p {
                    assert(before[k - 1] == n);
                }
            }
            if before.contains(n) {
                let k = choose|k: int| 0 <= k < before.len() && before[k] == n;
                if k < p {
                    assert(after[k] == n);
                } else {
                    assert(after[k + 1] == n);
                }
            }
            assert(after[p as int] == added);
        }
    }
}

} // verus!
