//! Save files: a magic line, a header line, and arenas of little-endian
//! words, each behind its length.

use vstd::prelude::*;

verus! {

/// Why a save file cannot be read.
#[derive(Clone, Copy, Debug, PartialEq, Eq, Structural)]
pub enum SaveError {
    /// The file ends too early.
    Truncated,
    /// The file does not start with the magic line.
    NotASave,
    /// An arena does not have the size that the rebuilt tree needs.
    ArenaSize { file: u64, expected: u64 },
}

/// The `n` little-endian bytes of a number.
pub open spec fn le_bytes(x: int, n: nat) -> Seq<u8>
    decreases n,
{
    if n == 0 {
        Seq::empty()
    } else {
        seq![(x % 256) as u8] + le_bytes(x / 256, (n - 1) as nat)
    }
}

/// The number that little-endian bytes stand for.
pub open spec fn le_value(s: Seq<u8>) -> int
    decreases s.len(),
{
    if s.len() == 0 {
        0
    } else {
        s[0] + 256 * le_value(s.drop_first())
    }
}

/// How many numbers `n` bytes can stand for.
pub open spec fn span(n: nat) -> int
    decreases n,
{
    if n == 0 {
        1
    } else {
        256 * span((n - 1) as nat)
    }
}

pub proof fn lemma_le_roundtrip(x: int, n: nat)
    requires
        0 <= x < span(n),
    ensures
        le_bytes(x, n).len() == n,
        le_value(le_bytes(x, n)) == x,
    decreases n,
{
    if n > 0 {
        lemma_le_roundtrip(x / 256, (n - 1) as nat);
        let s = le_bytes(x, n);
        assert(s.drop_first() =~= le_bytes(x / 256, (n - 1) as nat));
    }
}

proof fn lemma_spans()
    ensures
        span(4) == 0x1_0000_0000,
        span(8) == 0x1_0000_0000_0000_0000,
{
    reveal_with_fuel(span, 9);
}

/// Appends the `n` little-endian bytes of a number.
pub fn push_le(out: &mut Vec<u8>, x: u64, n: u8)
    ensures
        final(out)@ == old(out)@ + le_bytes(x as int, n as nat),
{
    let mut rest: u64 = x;
    let mut k: u8 = 0;
    let ghost all = le_bytes(x as int, n as nat);
    let ghost start = out@;
    assert(start + Seq::<u8>::empty() =~= start);
    while k < n
        invariant
            k <= n,
            out@ + le_bytes(rest as int, (n - k) as nat) == start + all,
        decreases n - k,
    {
        let ghost before = out@;
        let b: u8 = (rest % 256) as u8;
        out.push(b);
        assert(out@ + le_bytes((rest / 256) as int, (n - k - 1) as nat) =~= before + le_bytes(
            rest as int,
            (n - k) as nat,
        ));
        rest = rest / 256;
        k = k + 1;
    }
    assert(out@ + Seq::<u8>::empty() =~= out@);
}

/// Reads a number of eight bytes.
pub(crate) fn read_eight(bytes: &[u8], at: usize) -> (r: u64)
    requires
        at + 8 <= bytes@.len(),
    ensures
        r == le_value(bytes@.subrange(at as int, at + 8)),
{
    let size: usize = bytes.len();
    assert(at + 8 <= size);
    let s = read_four(bytes, at);
    let t = read_four(bytes, at + 4);
    proof {
        let all = bytes@.subrange(at as int, at + 8);
        let lo = bytes@.subrange(at as int, at + 4);
        let hi = bytes@.subrange(at + 4, at + 8);
        lemma_le_join(lo, hi);
        assert(lo + hi =~= all);
        lemma_spans();
    }
    s as u64 + t as u64 * 0x1_0000_0000
}

/// Reads a number of four bytes.
fn read_four(bytes: &[u8], at: usize) -> (r: u32)
    requires
        at + 4 <= bytes@.len(),
    ensures
        r == le_value(bytes@.subrange(at as int, at + 4)),
{
    let a: u8 = bytes[at];
    let b: u8 = bytes[at + 1];
    let c: u8 = bytes[at + 2];
    let d: u8 = bytes[at + 3];
    proof {
        reveal_with_fuel(le_value, 5);
        let s = bytes@.subrange(at as int, at + 4);
        assert(s[0] == a && s[1] == b && s[2] == c && s[3] == d);
        assert(s.drop_first()[0] == b);
        assert(s.drop_first().drop_first()[0] == c);
        assert(s.drop_first().drop_first().drop_first()[0] == d);
    }
    a as u32 + b as u32 * 0x100 + c as u32 * 0x1_0000 + d as u32 * 0x100_0000
}

proof fn lemma_le_join(s: Seq<u8>, t: Seq<u8>)
    ensures
        le_value(s + t) == le_value(s) + span(s.len()) * le_value(t),
    decreases s.len(),
{
    if s.len() == 0 {
        assert(s + t =~= t);
    } else {
        let rest = s.drop_first();
        lemma_le_join(rest, t);
        assert((s + t).drop_first() =~= rest + t);
        let p = span(rest.len());
        let v = le_value(t);
        assert(256 * (p * v) == (256 * p) * v) by (nonlinear_arith);
    }
}

// ---------------------------------------------------------------------------
// Header
// ---------------------------------------------------------------------------

/// The first line break from `from` on.
pub open spec fn line_end(bytes: Seq<u8>, from: int) -> Option<int>
    decreases bytes.len() - from,
{
    if from >= bytes.len() {
        None
    } else if bytes[from] == 10 {
        Some(from)
    } else {
        line_end(bytes, from + 1)
    }
}

/// Where the header line of a file ends.
pub open spec fn header_end(magic: Seq<u8>, bytes: Seq<u8>) -> Result<int, SaveError> {
    if bytes.len() < magic.len() {
        Err(SaveError::Truncated)
    } else if bytes.take(magic.len() as int) != magic {
        Err(SaveError::NotASave)
    } else {
        match line_end(bytes, magic.len() as int) {
            Some(at) => Ok(at),
            None => Err(SaveError::Truncated),
        }
    }
}

/// Where the header line of a file ends: it starts behind the magic, and the
/// arenas start behind its line break.
pub fn find_header_end(magic: &[u8], bytes: &[u8]) -> (r: Result<usize, SaveError>)
    ensures
        match r {
            Ok(at) => header_end(magic@, bytes@) == Ok::<int, SaveError>(at as int) && magic@.len()
                <= at < bytes@.len(),
            Err(e) => header_end(magic@, bytes@) == Err::<int, SaveError>(e),
        },
{
    if bytes.len() < magic.len() {
        return Err(SaveError::Truncated);
    }
    let mut i: usize = 0;
    while i < magic.len()
        invariant
            i <= magic@.len() <= bytes@.len(),
            forall|k: int| 0 <= k < i ==> magic@[k] == bytes@[k],
        decreases magic@.len() - i,
    {
        if bytes[i] != magic[i] {
            assert(bytes@.take(magic@.len() as int)[i as int] != magic@[i as int]);
            return Err(SaveError::NotASave);
        }
        i = i + 1;
    }
    assert(bytes@.take(magic@.len() as int) =~= magic@);
    let mut at: usize = magic.len();
    while at < bytes.len()
        invariant
            magic@.len() <= at <= bytes@.len(),
            bytes@.take(magic@.len() as int) == magic@,
            line_end(bytes@, magic@.len() as int) == line_end(bytes@, at as int),
        decreases bytes@.len() - at,
    {
        if bytes[at] == 10 {
            return Ok(at);
        }
        at = at + 1;
    }
    Err(SaveError::Truncated)
}

// ---------------------------------------------------------------------------
// Arenas
// ---------------------------------------------------------------------------

/// The bytes of words.
pub open spec fn words_bytes(words: Seq<u32>) -> Seq<u8>
    decreases words.len(),
{
    if words.len() == 0 {
        Seq::empty()
    } else {
        words_bytes(words.drop_last()) + le_bytes(words.last() as int, 4)
    }
}

/// The bytes of an arena: its length, then its words.
pub open spec fn arena_bytes(words: Seq<u32>) -> Seq<u8> {
    le_bytes(words.len() as int, 8) + words_bytes(words)
}

pub fn push_arena(out: &mut Vec<u8>, words: &[u32])
    ensures
        final(out)@ == old(out)@ + arena_bytes(words@),
{
    let ghost start = out@;
    push_le(out, words.len() as u64, 8);
    let ghost framed = out@;
    let mut i: usize = 0;
    assert(words@.take(0) =~= Seq::<u32>::empty());
    assert(framed + Seq::<u8>::empty() =~= framed);
    while i < words.len()
        invariant
            i <= words@.len(),
            out@ == framed + words_bytes(words@.take(i as int)),
        decreases words@.len() - i,
    {
        let ghost before = out@;
        push_le(out, words[i] as u64, 4);
        assert(words@.take(i + 1).drop_last() =~= words@.take(i as int));
        assert(out@ =~= framed + words_bytes(words@.take(i + 1)));
        i = i + 1;
    }
    assert(words@.take(i as int) =~= words@);
    assert(out@ =~= start + arena_bytes(words@));
}

/// Word `i` of an arena whose words start at `at`.
pub open spec fn word_at(bytes: Seq<u8>, at: int, i: int) -> u32 {
    le_value(bytes.subrange(at + 4 * i, at + 4 * i + 4)) as u32
}

/// An arena of the expected size, and where it ends.
pub open spec fn arena_read(bytes: Seq<u8>, at: int, expected: int) -> Result<
    (Seq<u32>, int),
    SaveError,
> {
    if at + 8 > bytes.len() {
        Err(SaveError::Truncated)
    } else {
        let len = le_value(bytes.subrange(at, at + 8));
        if len != expected {
            Err(SaveError::ArenaSize { file: len as u64, expected: expected as u64 })
        } else if at + 8 + 4 * expected > bytes.len() {
            Err(SaveError::Truncated)
        } else {
            Ok(
                (
                    Seq::new(expected as nat, |i: int| word_at(bytes, at + 8, i)),
                    at + 8 + 4 * expected,
                ),
            )
        }
    }
}

pub fn read_arena(bytes: &[u8], at: usize, expected: usize) -> (r: Result<
    (Vec<u32>, usize),
    SaveError,
>)
    requires
        at <= bytes@.len(),
    ensures
        match r {
            Ok((words, end)) => arena_read(bytes@, at as int, expected as int) == Ok::<
                (Seq<u32>, int),
                SaveError,
            >((words@, end as int)) && end <= bytes@.len(),
            Err(e) => arena_read(bytes@, at as int, expected as int) == Err::<
                (Seq<u32>, int),
                SaveError,
            >(e),
        },
{
    let size: usize = bytes.len();
    if size - at < 8 {
        return Err(SaveError::Truncated);
    }
    let len: u64 = read_eight(bytes, at);
    if len != expected as u64 {
        return Err(SaveError::ArenaSize { file: len, expected: expected as u64 });
    }
    let start: usize = at + 8;
    if (size - start) / 4 < expected {
        return Err(SaveError::Truncated);
    }
    let mut words: Vec<u32> = Vec::new();
    let mut i: usize = 0;
    while i < expected
        invariant
            i <= expected,
            start + 4 * expected <= bytes@.len() == size,
            words@ == Seq::new(i as nat, |k: int| word_at(bytes@, start as int, k)),
        decreases expected - i,
    {
        words.push(read_four(bytes, start + 4 * i));
        assert(words@ =~= Seq::new((i + 1) as nat, |k: int| word_at(bytes@, start as int, k)));
        i = i + 1;
    }
    Ok((words, start + 4 * expected))
}

// ---------------------------------------------------------------------------
// What is written is read back
// ---------------------------------------------------------------------------

proof fn lemma_words_len(words: Seq<u32>)
    ensures
        words_bytes(words).len() == 4 * words.len(),
    decreases words.len(),
{
    if words.len() > 0 {
        lemma_words_len(words.drop_last());
        lemma_spans();
        lemma_le_roundtrip(words.last() as int, 4);
    }
}

proof fn lemma_word_back(words: Seq<u32>, i: int)
    requires
        0 <= i < words.len(),
    ensures
        words_bytes(words).len() == 4 * words.len(),
        words_bytes(words).subrange(4 * i, 4 * i + 4) == le_bytes(words[i] as int, 4),
    decreases words.len(),
{
    let rest = words.drop_last();
    lemma_words_len(words);
    lemma_words_len(rest);
    lemma_spans();
    lemma_le_roundtrip(words.last() as int, 4);
    if i < rest.len() {
        lemma_word_back(rest, i);
        assert(words_bytes(words).subrange(4 * i, 4 * i + 4) =~= words_bytes(rest).subrange(
            4 * i,
            4 * i + 4,
        ));
    } else {
        assert(words_bytes(words).subrange(4 * i, 4 * i + 4) =~= le_bytes(
            words.last() as int,
            4,
        ));
    }
}

/// Law: an arena that was written somewhere in a file is read back from there,
/// word for word.
pub proof fn law_arena_read_back(before: Seq<u8>, words: Seq<u32>, after: Seq<u8>)
    requires
        words.len() < span(8),
    ensures
        arena_read(
            before + arena_bytes(words) + after,
            before.len() as int,
            words.len() as int,
        ) == Ok::<(Seq<u32>, int), SaveError>(
            (words, (before.len() + arena_bytes(words).len()) as int),
        ),
{
    let all = before + arena_bytes(words) + after;
    let at = before.len() as int;
    lemma_le_roundtrip(words.len() as int, 8);
    lemma_words_len(words);
    lemma_spans();
    assert(all.subrange(at, at + 8) =~= le_bytes(words.len() as int, 8));
    let got = Seq::new(words.len(), |i: int| word_at(all, at + 8, i));
    assert forall|i: int| 0 <= i < words.len() implies got[i] == words[i] by {
        lemma_word_back(words, i);
        lemma_le_roundtrip(words[i] as int, 4);
        assert(all.subrange(at + 8 + 4 * i, at + 8 + 4 * i + 4) =~= words_bytes(words).subrange(
            4 * i,
            4 * i + 4,
        ));
    }
    assert(got =~= words);
}

proof fn lemma_line_end(bytes: Seq<u8>, from: int, at: int)
    requires
        0 <= from <= at < bytes.len(),
        bytes[at] == 10,
        forall|k: int| from <= k < at ==> bytes[k] != 10,
    ensures
        line_end(bytes, from) == Some(at),
    decreases at - from,
{
    if from < at {
        lemma_line_end(bytes, from + 1, at);
    }
}

/// Law: a header line without line breaks is found again, whatever follows.
pub proof fn law_header_read_back(magic: Seq<u8>, header: Seq<u8>, body: Seq<u8>)
    requires
        forall|k: int| 0 <= k < header.len() ==> header[k] != 10,
    ensures
        header_end(magic, magic + header + seq![10u8] + body) == Ok::<int, SaveError>(
            (magic.len() + header.len()) as int,
        ),
        (magic + header + seq![10u8] + body).subrange(
            magic.len() as int,
            (magic.len() + header.len()) as int,
        ) == header,
{
    let all = magic + header + seq![10u8] + body;
    let at = (magic.len() + header.len()) as int;
    assert(all.take(magic.len() as int) =~= magic);
    assert forall|k: int| magic.len() <= k < at implies all[k] != 10 by {
        assert(all[k] == header[k - magic.len()]);
    }
    assert(all[at] == 10);
    lemma_line_end(all, magic.len() as int, at);
    assert(all.subrange(magic.len() as int, at) =~= header);
}

} // verus!
