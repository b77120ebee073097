//! Names that users give to what they save, made fit for file names.

use crate::text;
use crate::text::{chars_of, push_all, string_of, trim};
use vstd::prelude::*;

verus! {

/// Whether Unicode counts a character as a letter or a number.
pub uninterp spec fn alphanumeric(c: char) -> bool;

/// `char::is_alphanumeric` tells whether a character is a letter or a number.
/// Which characters those are is left to Unicode's tables: the contract only
/// names the answer.
#[verifier::external_body]
fn is_alphanumeric(c: char) -> (r: bool)
    ensures
        r == alphanumeric(c),
{
    c.is_alphanumeric()
}

/// Why a name is refused.
#[derive(Debug, Clone, Copy, PartialEq, Eq, Structural)]
pub enum NameError {
    Save,
    Game,
    Report,
    Profile,
}

impl NameError {
    pub open spec fn text(self) -> Seq<char> {
        match self {
            NameError::Save => "invalid save name"@,
            NameError::Game => "give the save a name"@,
            NameError::Report => "give the report a name"@,
            NameError::Profile => "profile needs a name"@,
        }
    }

    /// What to tell the user.
    pub fn message(&self) -> (r: &'static str)
        ensures
            r@ == self.text(),
    {
        match self {
            NameError::Save => "invalid save name",
            NameError::Game => "give the save a name",
            NameError::Report => "give the report a name",
            NameError::Profile => "profile needs a name",
        }
    }
}

/// Whether a character may stand in a file name: a letter or number, a space,
/// a hyphen, an underscore, and for some files a dot.
pub open spec fn allowed(c: char, letter: bool, dots: bool) -> bool {
    letter || c == ' ' || c == '-' || c == '_' || (dots && c == '.')
}

/// The characters of a name that may stand in a file name; `letters` tells
/// which of them are letters or numbers.
pub open spec fn kept(s: Seq<char>, letters: Seq<bool>, dots: bool) -> Seq<char>
    decreases s.len(),
{
    if s.len() == 0 {
        Seq::empty()
    } else {
        let before = kept(s.drop_last(), letters, dots);
        if allowed(s.last(), letters[s.len() - 1], dots) {
            before.push(s.last())
        } else {
            before
        }
    }
}

/// A name without what may not stand in a file name, and without the white
/// space around it.
pub open spec fn cleaned(s: Seq<char>, letters: Seq<bool>, dots: bool) -> Seq<char> {
    text::trimmed(kept(s, letters, dots))
}

/// Which characters of a text are letters or numbers.
pub open spec fn letters_of(s: Seq<char>) -> Seq<bool> {
    Seq::new(s.len(), |i: int| alphanumeric(s[i]))
}

/// [`cleaned`], computed; nothing where nothing is left.
pub fn clean(name: &[char], letters: &[bool], dots: bool) -> (r: Option<Vec<char>>)
    requires
        letters@.len() == name@.len(),
    ensures
        match r {
            Some(v) => v@ == cleaned(name@, letters@, dots) && v@.len() > 0,
            None => cleaned(name@, letters@, dots).len() == 0,
        },
{
    let mut out: Vec<char> = Vec::new();
    let mut i: usize = 0;
    assert(name@.take(0) =~= Seq::<char>::empty());
    while i < name.len()
        invariant
            i <= name@.len() == letters@.len(),
            out@ == kept(name@.take(i as int), letters@, dots),
        decreases name@.len() - i,
    {
        assert(name@.take(i + 1).drop_last() =~= name@.take(i as int));
        let c = name[i];
        if letters[i] || c == ' ' || c == '-' || c == '_' || (dots && c == '.') {
            out.push(c);
        }
        i = i + 1;
    }
    assert(name@.take(name@.len() as int) =~= name@);
    let v = trim(&out);
    if v.len() > 0 {
        Some(v)
    } else {
        None
    }
}

fn letters_in(s: &[char]) -> (r: Vec<bool>)
    ensures
        r@ == letters_of(s@),
{
    let mut out: Vec<bool> = Vec::new();
    let mut i: usize = 0;
    while i < s.len()
        invariant
            i <= s@.len(),
            out@ == letters_of(s@).take(i as int),
        decreases s@.len() - i,
    {
        out.push(is_alphanumeric(s[i]));
        assert(out@ =~= letters_of(s@).take(i + 1));
        i = i + 1;
    }
    assert(out@ =~= letters_of(s@));
    out
}

/// Whether a result is a text put together from a folder, what is left of a
/// name and an ending, or the error where nothing is left.
pub open spec fn filed(
    r: Result<String, NameError>,
    folder: Seq<char>,
    name: Seq<char>,
    dots: bool,
    ending: Seq<char>,
    error: NameError,
) -> bool {
    let left = cleaned(name, letters_of(name), dots);
    match r {
        Ok(path) => left.len() > 0 && path@ == folder + left + ending,
        Err(e) => left.len() == 0 && e == error,
    }
}

fn file_at(folder: &str, name: &str, dots: bool, ending: &str, error: NameError) -> (r: Result<
    String,
    NameError,
>)
    ensures
        filed(r, folder@, name@, dots, ending@, error),
{
    let chars = chars_of(name);
    let letters = letters_in(&chars);
    match clean(&chars, &letters, dots) {
        Some(left) => {
            let mut out = chars_of(folder);
            push_all(&mut out, &left);
            push_all(&mut out, &chars_of(ending));
            Ok(string_of(&out))
        },
        None => Err(error),
    }
}

/// A save's name, made fit for a file name.
pub fn sanitize_name(name: &str) -> (r: Result<String, NameError>)
    ensures
        filed(r, ""@, name@, true, ""@, NameError::Save),
{
    file_at("", name, true, "", NameError::Save)
}

/// Where a preflop game of this name is saved.
pub fn pf_game_path(name: &str) -> (r: Result<String, NameError>)
    ensures
        filed(r, "saves/preflop/"@, name@, false, ".gtop"@, NameError::Game),
{
    file_at("saves/preflop/", name, false, ".gtop", NameError::Game)
}

/// Where a report of this name is kept.
pub fn report_path(name: &str) -> (r: Result<String, NameError>)
    ensures
        filed(r, "saves/reports/"@, name@, false, ".json"@, NameError::Report),
{
    file_at("saves/reports/", name, false, ".json", NameError::Report)
}

/// Where a player's profile of this name is kept.
pub fn profile_path(name: &str) -> (r: Result<String, NameError>)
    ensures
        filed(r, "saves/profiles/"@, name@, false, ".json"@, NameError::Profile),
{
    file_at("saves/profiles/", name, false, ".json", NameError::Profile)
}

// ---------------------------------------------------------------------------
// What is left of a name
// ---------------------------------------------------------------------------

proof fn lemma_kept(s: Seq<char>, dots: bool)
    ensures
        forall|i: int|
            0 <= i < kept(s, letters_of(s), dots).len() ==> allowed(
                #[trigger] kept(s, letters_of(s), dots)[i],
                alphanumeric(kept(s, letters_of(s), dots)[i]),
                dots,
            ),
    decreases s.len(),
{
    if s.len() > 0 {
        let rest = s.drop_last();
        lemma_kept(rest, dots);
        lemma_letters(rest, letters_of(rest), letters_of(s), dots);
        let before = kept(rest, letters_of(s), dots);
        assert forall|i: int| 0 <= i < kept(s, letters_of(s), dots).len() implies allowed(
            #[trigger] kept(s, letters_of(s), dots)[i],
            alphanumeric(kept(s, letters_of(s), dots)[i]),
            dots,
        ) by {
            if i < before.len() {
                assert(kept(s, letters_of(s), dots)[i] == before[i]);
            }
        }
    }
}

proof fn lemma_letters(s: Seq<char>, a: Seq<bool>, b: Seq<bool>, dots: bool)
    requires
        s.len() <= a.len(),
        s.len() <= b.len(),
        forall|i: int| 0 <= i < s.len() ==> #[trigger] a[i] == b[i],
    ensures
        kept(s, a, dots) == kept(s, b, dots),
    decreases s.len(),
{
    if s.len() > 0 {
        assert(a[s.len() - 1] == b[s.len() - 1]);
        lemma_letters(s.drop_last(), a, b, dots);
    }
}

proof fn lemma_trimmed_within(s: Seq<char>)
    ensures
        forall|i: int|
            0 <= i < text::trimmed(s).len() ==> s.contains(#[trigger] text::trimmed(s)[i]),
{
    lemma_front_within(s);
    let front = text::trimmed_front(s);
    lemma_back_within(front);
    assert forall|i: int| 0 <= i < text::trimmed(s).len() implies s.contains(
        #[trigger] text::trimmed(s)[i],
    ) by {
        assert(front.contains(text::trimmed_back(front)[i]));
    }
}

proof fn lemma_front_within(s: Seq<char>)
    ensures
        forall|c: char| #[trigger] text::trimmed_front(s).contains(c) ==> s.contains(c),
    decreases s.len(),
{
    if s.len() > 0 && text::white_space(s[0]) {
        lemma_front_within(s.drop_first());
        assert forall|c: char| #[trigger] text::trimmed_front(s).contains(c) implies s.contains(
            c,
        ) by {
            assert(text::trimmed_front(s.drop_first()).contains(c));
            assert(s.drop_first().contains(c));
            let i = choose|i: int| 0 <= i < s.drop_first().len() && s.drop_first()[i] == c;
            assert(s[i + 1] == c);
        }
    }
}

proof fn lemma_back_within(s: Seq<char>)
    ensures
        forall|i: int|
            0 <= i < text::trimmed_back(s).len() ==> s.contains(
                #[trigger] text::trimmed_back(s)[i],
            ),
    decreases s.len(),
{
    if s.len() > 0 && text::white_space(s.last()) {
        lemma_back_within(s.drop_last());
        assert forall|i: int| 0 <= i < text::trimmed_back(s).len() implies s.contains(
            #[trigger] text::trimmed_back(s)[i],
        ) by {
            let c = text::trimmed_back(s.drop_last())[i];
            assert(s.drop_last().contains(c));
            let k = choose|k: int| 0 <= k < s.drop_last().len() && s.drop_last()[k] == c;
            assert(s[k] == c);
        }
    }
}

/// Every character of a cleaned name may stand in a file name.
pub proof fn law_cleaned_names_are_allowed(name: Seq<char>, dots: bool, i: int)
    requires
        0 <= i < cleaned(name, letters_of(name), dots).len(),
    ensures
        ({
            let c = cleaned(name, letters_of(name), dots)[i];
            allowed(c, alphanumeric(c), dots)
        }),
{
    let all = kept(name, letters_of(name), dots);
    lemma_kept(name, dots);
    lemma_trimmed_within(all);
    let c = text::trimmed(all)[i];
    assert(all.contains(c));
    let k = choose|k: int| 0 <= k < all.len() && all[k] == c;
    assert(allowed(all[k], alphanumeric(all[k]), dots));
}

} // verus!
