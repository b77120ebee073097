//! Bet sizes as text.

use crate::num::Num;
use crate::text::{chars_of, part, push_all, string_of, to_lower, trim};
use crate::text;
use crate::tree::BetSize;
use vstd::prelude::*;

verus! {

/// What is wrong with a size.
#[derive(Clone, Copy, Debug, PartialEq, Eq, Structural)]
pub enum SizeFault {
    /// The size is not a number.
    Invalid,
    /// A raise multiple must be more than one.
    MultipleTooSmall,
    /// A bet size must be positive.
    NotPositive,
}

/// A fault, with the token it was found in.
#[derive(Debug)]
pub struct SizeError {
    pub fault: SizeFault,
    pub token: String,
}

/// What reading a size leads to: a value, or a fault and the token it is in.
pub type Read<T> = Result<T, (SizeFault, Seq<char>)>;

/// What separates sizes.
pub open spec fn separates(c: char) -> bool {
    c == ',' || c == ' ' || c == ';'
}

/// Where the first size of a text ends.
pub open spec fn size_end(s: Seq<char>) -> int
    decreases s.len(),
{
    if s.len() == 0 || separates(s[0]) {
        0
    } else {
        1 + size_end(s.drop_first())
    }
}

/// A text in small letters.
pub open spec fn lowered(s: Seq<char>) -> Seq<char> {
    Seq::new(s.len(), |i: int| text::lower(s[i]))
}

/// The ways to write an all-in.
pub open spec fn says_all_in(s: Seq<char>) -> bool {
    ||| s == seq!['a']
    ||| s == seq!['a', 'l', 'l', 'i', 'n']
    ||| s == seq!['a', 'l', 'l', '-', 'i', 'n']
}

/// The size that a token denotes.
pub open spec fn size_named<N: Num>(tok: Seq<char>) -> Read<BetSize<N>> {
    if says_all_in(tok) {
        Ok(BetSize::AllIn)
    } else if tok.len() > 0 && tok.last() == 'x' {
        match N::parse_spec(tok.drop_last()) {
            None => Err((SizeFault::Invalid, tok)),
            Some(m) => if m.at_most_spec(N::decimal_spec(1, 0)) {
                Err((SizeFault::MultipleTooSmall, tok))
            } else {
                Ok(BetSize::PrevMult(m))
            },
        }
    } else {
        match N::parse_spec(tok) {
            None => Err((SizeFault::Invalid, tok)),
            Some(p) => if p.at_most_spec(N::decimal_spec(0, 0)) {
                Err((SizeFault::NotPositive, tok))
            } else {
                Ok(BetSize::PotPct(p))
            },
        }
    }
}

/// The sizes of a text, behind those already read. Empty tokens are skipped.
pub open spec fn sizes_named<N: Num>(read: Seq<BetSize<N>>, s: Seq<char>) -> Read<Seq<BetSize<N>>>
    decreases s.len(),
{
    let end = size_end(s);
    let tok = lowered(text::trimmed(s.take(end)));
    let next = if tok.len() == 0 {
        Ok(read)
    } else {
        match size_named(tok) {
            Err(e) => Err(e),
            Ok(size) => Ok(read.push(size)),
        }
    };
    match next {
        Err(e) => Err(e),
        Ok(read) => if end < 0 || end >= s.len() {
            Ok(read)
        } else {
            sizes_named(read, s.skip(end + 1))
        },
    }
}

fn to_lower_all(v: &Vec<char>) -> (r: Vec<char>)
    ensures
        r@ == lowered(v@),
{
    let mut out: Vec<char> = Vec::new();
    let mut i: usize = 0;
    while i < v.len()
        invariant
            i <= v@.len(),
            out@.len() == i,
            forall|k: int| 0 <= k < i ==> out@[k] == text::lower(v@[k]),
        decreases v@.len() - i,
    {
        out.push(to_lower(v[i]));
        i = i + 1;
    }
    assert(out@ =~= lowered(v@));
    out
}

fn is_all_in(v: &Vec<char>) -> (r: bool)
    ensures
        r == says_all_in(v@),
{
    let r = (v.len() == 1 && v[0] == 'a') || (v.len() == 5 && v[0] == 'a' && v[1] == 'l' && v[2]
        == 'l' && v[3] == 'i' && v[4] == 'n') || (v.len() == 6 && v[0] == 'a' && v[1] == 'l' && v[2]
        == 'l' && v[3] == '-' && v[4] == 'i' && v[5] == 'n');
    proof {
        if r {
            if v@.len() == 1 {
                assert(v@ =~= seq!['a']);
            } else if v@.len() == 5 {
                assert(v@ =~= seq!['a', 'l', 'l', 'i', 'n']);
            } else {
                assert(v@ =~= seq!['a', 'l', 'l', '-', 'i', 'n']);
            }
        }
    }
    r
}

fn fail<N>(fault: SizeFault, token: &Vec<char>) -> (r: Result<BetSize<N>, SizeError>)
    ensures
        r matches Err(e) && e.fault == fault && e.token@ == token@,
{
    Err(SizeError { fault, token: string_of(token) })
}

fn read_size<N: Num>(tok: &Vec<char>) -> (r: Result<BetSize<N>, SizeError>)
    ensures
        match r {
            Ok(size) => size_named::<N>(tok@) == Read::<BetSize<N>>::Ok(size),
            Err(e) => size_named::<N>(tok@) == Read::<BetSize<N>>::Err((e.fault, e.token@)),
        },
{
    if is_all_in(tok) {
        return Ok(BetSize::AllIn);
    }
    if tok.len() > 0 && tok[tok.len() - 1] == 'x' {
        let head = part(tok, 0, tok.len() - 1);
        assert(head@ =~= tok@.drop_last());
        let text = string_of(&head);
        match N::parse(text.as_str()) {
            None => fail(SizeFault::Invalid, tok),
            Some(m) => if m.at_most(N::decimal(1, 0)) {
                fail(SizeFault::MultipleTooSmall, tok)
            } else {
                Ok(BetSize::PrevMult(m))
            },
        }
    } else {
        let text = string_of(tok);
        match N::parse(text.as_str()) {
            None => fail(SizeFault::Invalid, tok),
            Some(p) => if p.at_most(N::decimal(0, 0)) {
                fail(SizeFault::NotPositive, tok)
            } else {
                Ok(BetSize::PotPct(p))
            },
        }
    }
}

/// Parse a size list like "33 75" / "50, a" / "2.5x, 100".
pub fn parse_sizes<N: Num>(s: &str) -> (r: Result<Vec<BetSize<N>>, SizeError>)
    ensures
        match r {
            Ok(v) => sizes_named(Seq::<BetSize<N>>::empty(), s@) == Read::<Seq<BetSize<N>>>::Ok(
                v@,
            ),
            Err(e) => sizes_named(Seq::<BetSize<N>>::empty(), s@) == Read::<Seq<BetSize<N>>>::Err(
                (e.fault, e.token@),
            ),
        },
{
    let v = chars_of(s);
    let mut out: Vec<BetSize<N>> = Vec::new();
    let mut from: usize = 0;
    assert(v@.skip(0) =~= v@);
    assert(out@ =~= Seq::<BetSize<N>>::empty());
    loop
        invariant
            from <= v@.len(),
            v@ == s@,
            sizes_named(Seq::<BetSize<N>>::empty(), s@) == sizes_named(out@, v@.skip(from as int)),
        decreases v@.len() - from,
    {
        let mut end: usize = from;
        while end < v.len() && !(v[end] == ',' || v[end] == ' ' || v[end] == ';')
            invariant
                from <= end <= v@.len(),
                size_end(v@.skip(from as int)) == end - from + size_end(v@.skip(end as int)),
            decreases v@.len() - end,
        {
            assert(v@.skip(end as int).drop_first() =~= v@.skip(end + 1));
            end = end + 1;
        }
        let raw = part(&v, from, end);
        let ghost rest = v@.skip(from as int);
        assert(raw@ =~= rest.take(end - from));
        let tok = to_lower_all(&trim(&raw));
        if tok.len() > 0 {
            match read_size(&tok) {
                Err(e) => return Err(e),
                Ok(size) => out.push(size),
            }
        }
        if end >= v.len() {
            return Ok(out);
        }
        assert(rest.skip(end - from + 1) =~= v@.skip(end + 1));
        from = end + 1;
    }
}

/// The text of one size.
pub open spec fn size_text<N: Num>(size: BetSize<N>) -> Seq<char> {
    match size {
        BetSize::PotPct(p) => p.shown_spec(),
        BetSize::PrevMult(m) => m.shown_spec().push('x'),
        BetSize::AllIn => seq!['a'],
    }
}

/// The texts of sizes with spaces between them.
pub open spec fn sizes_text<N: Num>(sizes: Seq<BetSize<N>>) -> Seq<char>
    decreases sizes.len(),
{
    if sizes.len() == 0 {
        Seq::empty()
    } else if sizes.len() == 1 {
        size_text(sizes[0])
    } else {
        sizes_text(sizes.drop_last()) + seq![' '] + size_text(sizes.last())
    }
}

/// Writes a size list in the form that [`parse_sizes`] reads.
pub fn sizes_to_string<N: Num>(sizes: &[BetSize<N>]) -> (r: String)
    ensures
        r@ == sizes_text(sizes@),
{
    let mut out: Vec<char> = Vec::new();
    let mut i: usize = 0;
    assert(sizes@.take(0) =~= Seq::<BetSize<N>>::empty());
    assert(out@ =~= sizes_text(sizes@.take(0)));
    while i < sizes.len()
        invariant
            i <= sizes@.len(),
            out@ == sizes_text(sizes@.take(i as int)),
        decreases sizes@.len() - i,
    {
        let ghost before = out@;
        let ghost now = sizes@.take(i + 1);
        assert(now.drop_last() =~= sizes@.take(i as int));
        if i > 0 {
            out.push(' ');
        }
        match sizes[i] {
            BetSize::PotPct(p) => {
                let text = p.shown();
                push_all(&mut out, &chars_of(text.as_str()));
            },
            BetSize::PrevMult(m) => {
                let text = m.shown();
                push_all(&mut out, &chars_of(text.as_str()));
                out.push('x');
            },
            BetSize::AllIn => out.push('a'),
        }
        proof {
            let t = size_text(sizes@[i as int]);
            if i == 0 {
                assert(out@ =~= t);
                assert(now[0] == sizes@[0]);
            } else {
                assert(out@ =~= before + seq![' '] + t);
            }
        }
        i = i + 1;
    }
    assert(sizes@.take(sizes@.len() as int) =~= sizes@);
    string_of(&out)
}

} // verus!
