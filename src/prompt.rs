//! Answers to yes/no prompts. Reading the answer from the user is left to
//! the caller; here an answer line becomes a value.
use vstd::prelude::*;

verus! {

/// What `str::to_lowercase` gives for `s`.
pub uninterp spec fn lower_of(s: Seq<char>) -> Seq<char>;

/// Relies on `str::to_lowercase`: the lowercase form of `s`, which depends
/// on its characters alone.
#[verifier::external_body]
fn lowercase(s: &str) -> (r: String)
    ensures
        r@ == lower_of(s@),
{
    s.to_lowercase()
}

/// True when `s` holds exactly the characters of `t`.
fn spells(s: &str, t: &[char]) -> (r: bool)
    ensures
        r == (s@ == t@),
{
    let n = s.unicode_len();
    if n != t.len() {
        return false;
    }
    let mut i: usize = 0;
    while i < n
        invariant
            n == s@.len(),
            n == t@.len(),
            i <= n,
            forall|k: int| 0 <= k < i ==> s@[k] == t@[k],
        decreases n - i,
    {
        if s.get_char(i) != t[i] {
            return false;
        }
        i = i + 1;
    }
    assert(s@ =~= t@);
    true
}

/// The error of a prompt: the answer could not be read or made sense of.
#[derive(Debug, Clone, Copy, PartialEq, Eq)]
pub struct Error;

/// Something that can be built from the answer a user typed at a prompt.
pub trait PromptItem: Sized {
    /// The options shown to the user, the default capitalised: `Y/n`, `y/N`.
    const OPTIONS: &'static str;

    /// What `parse_input` gives for the answer line `input`.
    spec fn answer_to(input: Seq<char>) -> Result<Self, Error>;

    /// Reads an answer line, which may end with a newline. An answer that
    /// fits no option gives the default.
    fn parse_input(input: String) -> (r: Result<Self, Error>)
        ensures
            r == Self::answer_to(input@),
    ;
}

/// A yes/no answer that is yes unless the user said no.
#[derive(Debug, PartialEq, Eq, Clone, Copy, Default)]
pub enum Yes {
    /// The user did not answer "no".
    #[default]
    Yes,
    /// The user answered "no".
    No,
}

/// The answer that a lowercased line `folded` gives to a prompt whose
/// default is yes: no for `n` or `no` followed by a newline, else yes.
pub open spec fn yes_answer(folded: Seq<char>) -> Yes {
    if folded == seq!['n', '\n'] || folded == seq!['n', 'o', '\n'] {
        Yes::No
    } else {
        Yes::Yes
    }
}

impl Yes {
    /// The answer for an already lowercased line.
    pub fn from_folded(folded: &str) -> (r: Yes)
        ensures
            r == yes_answer(folded@),
    {
        let n = ['n', '\n'];
        let no = ['n', 'o', '\n'];
        assert(n@ =~= seq!['n', '\n']);
        assert(no@ =~= seq!['n', 'o', '\n']);
        if spells(folded, &n) || spells(folded, &no) {
            Yes::No
        } else {
            Yes::Yes
        }
    }
}

impl PromptItem for Yes {
    const OPTIONS: &'static str = "Y/n";

    open spec fn answer_to(input: Seq<char>) -> Result<Yes, Error> {
        Ok(yes_answer(lower_of(input)))
    }

    fn parse_input(input: String) -> (r: Result<Yes, Error>) {
        let folded = lowercase(input.as_str());
        Ok(Yes::from_folded(folded.as_str()))
    }
}

/// A yes/no answer that is no unless the user said yes.
#[derive(Debug, PartialEq, Eq, Clone, Copy, Default)]
pub enum No {
    /// The user did not answer "yes".
    #[default]
    No,
    /// The user answered "yes".
    Yes,
}

/// The answer that a lowercased line `folded` gives to a prompt whose
/// default is no: yes for exactly `y` or `yes`, else no.
pub open spec fn no_answer(folded: Seq<char>) -> No {
    if folded == seq!['y'] || folded == seq!['y', 'e', 's'] {
        No::Yes
    } else {
        No::No
    }
}

impl No {
    /// The answer for an already lowercased line.
    pub fn from_folded(folded: &str) -> (r: No)
        ensures
            r == no_answer(folded@),
    {
        let y = ['y'];
        let yes = ['y', 'e', 's'];
        assert(y@ =~= seq!['y']);
        assert(yes@ =~= seq!['y', 'e', 's']);
        if spells(folded, &y) || spells(folded, &yes) {
            No::Yes
        } else {
            No::No
        }
    }
}

impl PromptItem for No {
    const OPTIONS: &'static str = "y/N";

    open spec fn answer_to(input: Seq<char>) -> Result<No, Error> {
        Ok(no_answer(lower_of(input)))
    }

    fn parse_input(input: String) -> (r: Result<No, Error>) {
        let folded = lowercase(input.as_str());
        Ok(No::from_folded(folded.as_str()))
    }
}

} // verus!
