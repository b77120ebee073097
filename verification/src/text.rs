//! Text, handled as sequences of characters.

use vstd::prelude::*;

verus! {

/// `String::push` appends one character to the end of the string.
pub assume_specification[ String::push ](s: &mut String, c: char)
    ensures
        final(s)@ == old(s)@.push(c),
;

/// The characters that Unicode gives the White_Space property.
pub open spec fn white_space(c: char) -> bool {
    ||| '\u{9}' <= c <= '\u{d}'
    ||| c == '\u{20}'
    ||| c == '\u{85}'
    ||| c == '\u{a0}'
    ||| c == '\u{1680}'
    ||| '\u{2000}' <= c <= '\u{200a}'
    ||| c == '\u{2028}'
    ||| c == '\u{2029}'
    ||| c == '\u{202f}'
    ||| c == '\u{205f}'
    ||| c == '\u{3000}'
}

/// [`white_space`], computed.
pub fn is_white_space(c: char) -> (r: bool)
    ensures
        r == white_space(c),
{
    ('\u{9}' <= c && c <= '\u{d}') || c == '\u{20}' || c == '\u{85}' || c == '\u{a0}' || c
        == '\u{1680}' || ('\u{2000}' <= c && c <= '\u{200a}') || c == '\u{2028}' || c == '\u{2029}'
        || c == '\u{202f}' || c == '\u{205f}' || c == '\u{3000}'
}

/// An ASCII capital made small; any other character as it is.
pub open spec fn lower(c: char) -> char {
    if 'A' <= c <= 'Z' {
        ((c as u32) + 32) as char
    } else {
        c
    }
}

/// [`lower`], computed.
pub fn to_lower(c: char) -> (r: char)
    ensures
        r == lower(c),
{
    if 'A' <= c && c <= 'Z' {
        ((c as u8) + 32) as char
    } else {
        c
    }
}

/// The characters of a string.
pub fn chars_of(s: &str) -> (r: Vec<char>)
    ensures
        r@ == s@,
{
    let mut out: Vec<char> = Vec::new();
    for c in it: s.chars()
        invariant
            it.seq() == s@,
            out@ == s@.take(it.index() as int),
    {
        out.push(c);
    }
    assert(s@.take(s@.len() as int) =~= s@);
    out
}

/// The string made of the given characters.
pub fn string_of(v: &[char]) -> (r: String)
    ensures
        r@ == v@,
{
    let mut out = String::new();
    let mut i: usize = 0;
    while i < v.len()
        invariant
            i <= v.len(),
            out@ == v@.take(i as int),
        decreases v.len() - i,
    {
        out.push(v[i]);
        assert(v@.take(i + 1) =~= v@.take(i as int).push(v@[i as int]));
        i = i + 1;
    }
    assert(v@.take(v@.len() as int) =~= v@);
    out
}

/// A text without the white space at its front.
pub open spec fn trimmed_front(s: Seq<char>) -> Seq<char>
    decreases s.len(),
{
    if s.len() > 0 && white_space(s[0]) {
        trimmed_front(s.drop_first())
    } else {
        s
    }
}

/// A text without the white space at its back.
pub open spec fn trimmed_back(s: Seq<char>) -> Seq<char>
    decreases s.len(),
{
    if s.len() > 0 && white_space(s.last()) {
        trimmed_back(s.drop_last())
    } else {
        s
    }
}

/// A text without the white space at its ends.
pub open spec fn trimmed(s: Seq<char>) -> Seq<char> {
    trimmed_back(trimmed_front(s))
}

/// [`trimmed`], computed.
pub fn trim(v: &[char]) -> (r: Vec<char>)
    ensures
        r@ == trimmed(v@),
{
    let mut a: usize = 0;
    assert(v@.skip(0) =~= v@);
    while a < v.len() && is_white_space(v[a])
        invariant
            a <= v.len(),
            trimmed_front(v@) == trimmed_front(v@.skip(a as int)),
        decreases v.len() - a,
    {
        assert(v@.skip(a as int).drop_first() =~= v@.skip(a + 1));
        a = a + 1;
    }
    let ghost front = v@.skip(a as int);
    let mut b: usize = v.len();
    assert(v@.subrange(a as int, b as int) =~= front);
    while b > a && is_white_space(v[b - 1])
        invariant
            a <= b <= v.len(),
            front == v@.skip(a as int),
            trimmed_back(front) == trimmed_back(v@.subrange(a as int, b as int)),
        decreases b,
    {
        assert(v@.subrange(a as int, b as int).drop_last() =~= v@.subrange(a as int, b - 1));
        b = b - 1;
    }
    part(v, a, b)
}

/// The characters from `a` up to `b`.
pub fn part(v: &[char], a: usize, b: usize) -> (r: Vec<char>)
    requires
        a <= b <= v@.len(),
    ensures
        r@ == v@.subrange(a as int, b as int),
{
    let mut out: Vec<char> = Vec::new();
    let mut i: usize = a;
    while i < b
        invariant
            a <= i <= b <= v@.len(),
            out@ == v@.subrange(a as int, i as int),
        decreases b - i,
    {
        out.push(v[i]);
        assert(out@ =~= v@.subrange(a as int, i + 1));
        i = i + 1;
    }
    out
}

/// Where `c` first occurs in a text, or its length.
pub open spec fn first_of(s: Seq<char>, c: char) -> int
    decreases s.len(),
{
    if s.len() == 0 || s[0] == c {
        0
    } else {
        1 + first_of(s.drop_first(), c)
    }
}

/// Where `c` last occurs in a text, or -1.
pub open spec fn last_of(s: Seq<char>, c: char) -> int
    decreases s.len(),
{
    if s.len() == 0 {
        -1
    } else if s.last() == c {
        s.len() - 1
    } else {
        last_of(s.drop_last(), c)
    }
}

/// [`first_of`], computed.
pub fn find_first(v: &[char], c: char) -> (r: usize)
    ensures
        r == first_of(v@, c),
        r <= v@.len(),
        r < v@.len() ==> v@[r as int] == c,
{
    let mut i: usize = 0;
    assert(v@.skip(0) =~= v@);
    while i < v.len() && v[i] != c
        invariant
            i <= v.len(),
            first_of(v@, c) == i + first_of(v@.skip(i as int), c),
        decreases v.len() - i,
    {
        assert(v@.skip(i as int).drop_first() =~= v@.skip(i + 1));
        i = i + 1;
    }
    i
}

/// [`last_of`], computed; `None` stands for -1.
pub fn find_last(v: &[char], c: char) -> (r: Option<usize>)
    ensures
        match r {
            Some(i) => i == last_of(v@, c) && i < v@.len(),
            None => last_of(v@, c) == -1,
        },
{
    let mut i: usize = v.len();
    assert(v@.take(i as int) =~= v@);
    while i > 0
        invariant
            i <= v.len(),
            last_of(v@, c) == last_of(v@.take(i as int), c),
        decreases i,
    {
        assert(v@.take(i as int).drop_last() =~= v@.take(i - 1));
        if v[i - 1] == c {
            return Some(i - 1);
        }
        i = i - 1;
    }
    None
}

/// `s` without the characters `c` at its end.
pub open spec fn stripped(s: Seq<char>, c: char) -> Seq<char>
    decreases s.len(),
{
    if s.len() > 0 && s.last() == c {
        stripped(s.drop_last(), c)
    } else {
        s
    }
}

/// [`stripped`], in place.
pub fn strip(v: &mut Vec<char>, c: char)
    ensures
        final(v)@ == stripped(old(v)@, c),
{
    while v.len() > 0 && v[v.len() - 1] == c
        invariant
            stripped(old(v)@, c) == stripped(v@, c),
        decreases v@.len(),
    {
        let ghost before = v@;
        v.pop();
        assert(v@ =~= before.drop_last());
    }
}

/// Appends the characters of `v`.
pub fn push_all(out: &mut Vec<char>, v: &Vec<char>)
    ensures
        final(out)@ == old(out)@ + v@,
{
    let mut i: usize = 0;
    while i < v.len()
        invariant
            i <= v@.len(),
            out@ == old(out)@ + v@.take(i as int),
        decreases v@.len() - i,
    {
        out.push(v[i]);
        assert(out@ =~= old(out)@ + v@.take(i + 1));
        i = i + 1;
    }
    assert(v@.take(v@.len() as int) =~= v@);
}

/// Whether a text starts with another.
pub fn starts_with(s: &str, prefix: &str) -> (r: bool)
    ensures
        r == prefix@.is_prefix_of(s@),
{
    let v = chars_of(s);
    let w = chars_of(prefix);
    if v.len() < w.len() {
        return false;
    }
    let mut i: usize = 0;
    while i < w.len()
        invariant
            i <= w@.len() <= v@.len(),
            v@ == s@,
            w@ == prefix@,
            forall|k: int| 0 <= k < i ==> w@[k] == v@[k],
        decreases w@.len() - i,
    {
        if v[i] != w[i] {
            return false;
        }
        i = i + 1;
    }
    assert(prefix@ =~= s@.take(prefix@.len() as int));
    true
}

/// Whether `a` comes before `b` in a dictionary, or is the same text.
pub open spec fn not_behind(a: Seq<char>, b: Seq<char>) -> bool
    decreases a.len(),
{
    if a.len() == 0 {
        true
    } else if b.len() == 0 {
        false
    } else if a[0] != b[0] {
        (a[0] as int) < (b[0] as int)
    } else {
        not_behind(a.drop_first(), b.drop_first())
    }
}

/// [`not_behind`] can be decided by the first difference.
proof fn lemma_not_behind(a: Seq<char>, b: Seq<char>, i: int)
    requires
        0 <= i <= a.len(),
        i <= b.len(),
        forall|k: int| 0 <= k < i ==> a[k] == b[k],
    ensures
        not_behind(a, b) == not_behind(a.skip(i), b.skip(i)),
    decreases i,
{
    if i == 0 {
        assert(a.skip(0) =~= a);
        assert(b.skip(0) =~= b);
    } else {
        lemma_not_behind(a.drop_first(), b.drop_first(), i - 1);
        assert(a.drop_first().skip(i - 1) =~= a.skip(i));
        assert(b.drop_first().skip(i - 1) =~= b.skip(i));
    }
}

proof fn lemma_not_behind_total(a: Seq<char>, b: Seq<char>)
    ensures
        not_behind(a, b) || not_behind(b, a),
    decreases a.len(),
{
    if a.len() > 0 && b.len() > 0 && a[0] == b[0] {
        lemma_not_behind_total(a.drop_first(), b.drop_first());
    }
}

proof fn lemma_not_behind_transitive(a: Seq<char>, b: Seq<char>, c: Seq<char>)
    requires
        not_behind(a, b),
        not_behind(b, c),
    ensures
        not_behind(a, c),
    decreases a.len(),
{
    if a.len() > 0 && b.len() > 0 && c.len() > 0 && a[0] == b[0] && b[0] == c[0] {
        lemma_not_behind_transitive(a.drop_first(), b.drop_first(), c.drop_first());
    }
}

fn comes_first(a: &str, b: &str) -> (r: bool)
    ensures
        r == not_behind(a@, b@),
{
    let v = chars_of(a);
    let w = chars_of(b);
    let mut i: usize = 0;
    while i < v.len() && i < w.len() && v[i] == w[i]
        invariant
            i <= v@.len(),
            i <= w@.len(),
            v@ == a@,
            w@ == b@,
            forall|k: int| 0 <= k < i ==> v@[k] == w@[k],
        decreases v@.len() - i,
    {
        i = i + 1;
    }
    proof {
        lemma_not_behind(a@, b@, i as int);
    }
    if i == v.len() {
        true
    } else if i == w.len() {
        false
    } else {
        v[i] < w[i]
    }
}

/// The texts of a list of strings.
pub open spec fn texts(v: Seq<String>) -> Seq<Seq<char>> {
    Seq::new(v.len(), |i: int| v[i]@)
}

/// Texts in dictionary order.
pub open spec fn alphabetical(s: Seq<Seq<char>>) -> bool {
    forall|i: int, j: int| 0 <= i <= j < s.len() ==> not_behind(#[trigger] s[i], #[trigger] s[j])
}

/// A list of strings in dictionary order.
pub fn sort_texts(v: &Vec<String>) -> (r: Vec<String>)
    ensures
        alphabetical(texts(r@)),
        texts(r@).to_multiset() == texts(v@).to_multiset(),
{
    broadcast use vstd::seq_lib::group_to_multiset_ensures;

    let mut out: Vec<String> = Vec::new();
    let mut i: usize = 0;
    assert(texts(out@) =~= texts(v@).take(0));
    while i < v.len()
        invariant
            i <= v@.len(),
            alphabetical(texts(out@)),
            texts(out@).to_multiset() == texts(v@).take(i as int).to_multiset(),
            out@.len() == i,
        decreases v@.len() - i,
    {
        let s = v[i].clone();
        let ghost before = texts(out@);
        let mut at: usize = 0;
        while at < out.len() && comes_first(out[at].as_str(), s.as_str())
            invariant
                at <= out@.len(),
                before == texts(out@),
                forall|k: int| 0 <= k < at ==> not_behind(#[trigger] before[k], s@),
            decreases out@.len() - at,
        {
            at = at + 1;
        }
        proof {
            assert forall|k: int| at <= k < before.len() implies not_behind(
                s@,
                #[trigger] before[k],
            ) by {
                lemma_not_behind_total(before[at as int], s@);
                assert(not_behind(before[at as int], before[k]));
                lemma_not_behind_transitive(s@, before[at as int], before[k]);
            }
        }
        out.insert(at, s);
        proof {
            let after = texts(out@);
            assert(after =~= before.insert(at as int, s@));
            lemma_inserted_multiset(before, at as int, s@);
            assert(texts(v@).take(i + 1) =~= texts(v@).take(i as int).push(s@));
            lemma_pushed_multiset(texts(v@).take(i as int), s@);
            assert forall|x: int, y: int| 0 <= x <= y < after.len() implies not_behind(
                #[trigger] after[x],
                #[trigger] after[y],
            ) by {
                if x == at && y == at {
                    lemma_not_behind_total(s@, s@);
                } else if x < at && y > at {
                    assert(not_behind(before[x], before[y - 1]));
                } else if x < at && y < at {
                    assert(not_behind(before[x], before[y]));
                } else if x > at {
                    assert(not_behind(before[x - 1], before[y - 1]));
                }
            }
        }
        i = i + 1;
    }
    assert(texts(v@).take(i as int) =~= texts(v@));
    out
}

proof fn lemma_pushed_multiset(s: Seq<Seq<char>>, x: Seq<char>)
    ensures
        s.push(x).to_multiset() == s.to_multiset().insert(x),
{
    vstd::seq_lib::to_multiset_build(s, x);
}

proof fn lemma_inserted_multiset(s: Seq<Seq<char>>, at: int, x: Seq<char>)
    requires
        0 <= at <= s.len(),
    ensures
        s.insert(at, x).to_multiset() == s.to_multiset().insert(x),
{
    let front = s.take(at);
    let back = s.skip(at);
    assert(s =~= front + back);
    assert(s.insert(at, x) =~= front.push(x) + back);
    vstd::seq_lib::lemma_multiset_commutative(front, back);
    vstd::seq_lib::lemma_multiset_commutative(front.push(x), back);
    lemma_pushed_multiset(front, x);
    broadcast use vstd::multiset::group_multiset_axioms;

    assert(s.insert(at, x).to_multiset() =~= s.to_multiset().insert(x));
}

} // verus!
