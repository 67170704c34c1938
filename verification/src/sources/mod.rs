use vstd::prelude::*;

pub mod basics;
pub mod db;
pub mod path;
pub mod pwd;
pub mod zoxide;

use crate::sources::basics::Basics;
use crate::sources::path::Path;
use crate::sources::pwd::Pwd;
use crate::sources::zoxide::Zoxide;

verus! {

/// A provider of suggestions for the word being typed.
pub trait Source: Sized {
    /// The word types for which this source is meant to be used.
    spec fn spec_cond(&self, word: Seq<char>) -> bool;

    /// The priority of this source: lower values come first.
    spec fn spec_priority(&self) -> usize;

    /// Only enable for specific word types.
    fn cond(&self, word: &str) -> (enabled: bool)
        ensures
            enabled == self.spec_cond(word@),
    ;

    /// The priority of the source.
    fn priority(&self) -> (p: usize)
        ensures
            p == self.spec_priority(),
    ;
}

/// The sources of suggestions, in the order in which they are consulted.
pub struct Sources<S> {
    sources: Vec<S>,
}

impl<S> View for Sources<S> {
    type V = Seq<S>;

    closed spec fn view(&self) -> Seq<S> {
        self.sources@
    }
}

impl<S> Sources<S> {
    pub fn new(sources: Vec<S>) -> (res: Self)
        ensures
            res@ == sources@,
    {
        Sources { sources }
    }

    /// The sources, in the order in which they are consulted.
    pub fn list(&self) -> (r: &Vec<S>)
        ensures
            r@ == self@,
    {
        &self.sources
    }
}

/// The first suggestion among the answers of the sources, taken in order.
pub open spec fn first_some(answers: Seq<Option<String>>) -> Option<String>
    decreases answers.len(),
{
    if answers.len() == 0 {
        None
    } else if answers[0] is Some {
        answers[0]
    } else {
        first_some(answers.drop_first())
    }
}

/// The first answer is the answer at some position before which no source
/// answered; with none, no source answered at all.
pub proof fn lemma_first_some(answers: Seq<Option<String>>)
    ensures
        first_some(answers) is None ==> forall|i: int|
            0 <= i < answers.len() ==> #[trigger] answers[i] is None,
        first_some(answers) is Some ==> exists|k: int|
            0 <= k < answers.len() && #[trigger] answers[k] == first_some(answers) && forall|i: int|
                0 <= i < k ==> #[trigger] answers[i] is None,
    decreases answers.len(),
{
    if answers.len() > 0 && answers[0] is None {
        let t = answers.drop_first();
        lemma_first_some(t);
        if first_some(answers) is None {
            assert forall|i: int| 0 <= i < answers.len() implies #[trigger] answers[i] is None by {
                if i > 0 {
                    assert(answers[i] == t[i - 1]);
                }
            }
        } else {
            let k = choose|k: int|
                0 <= k < t.len() && #[trigger] t[k] == first_some(t) && forall|i: int|
                    0 <= i < k ==> #[trigger] t[i] is None;
            assert(answers[k + 1] == t[k]);
            assert forall|i: int| 0 <= i < k + 1 implies #[trigger] answers[i] is None by {
                if i > 0 {
                    assert(answers[i] == t[i - 1]);
                }
            }
        }
    } else if answers.len() > 0 {
        assert(answers[0] == first_some(answers));
    }
}

/// The suggestion that a search gives: the answer of the first source, in
/// order, that has one; nothing when there are no sources or none answers.
pub fn first_suggestion(answers: Vec<Option<String>>) -> (r: Option<String>)
    ensures
        r == first_some(answers@),
{
    let n = answers.len();
    let mut i: usize = 0;
    assert(answers@.skip(0) =~= answers@);
    while i < n
        invariant
            n == answers@.len(),
            i <= n,
            first_some(answers@.skip(i as int)) == first_some(answers@),
        decreases n - i,
    {
        if answers[i].is_some() {
            assert(answers@.skip(i as int)[0] == answers@[i as int]);
            return answers[i].clone();
        }
        assert(answers@.skip(i as int).drop_first() =~= answers@.skip(i + 1));
        i = i + 1;
    }
    assert(answers@.skip(i as int).len() == 0);
    None
}

/// The answers of `sources` for `word`, with nothing in place of the answer
/// of a source that is not enabled for `word`.
pub open spec fn enabled_answers<S: Source>(
    sources: Seq<S>,
    word: Seq<char>,
    answers: Seq<Option<String>>,
) -> Seq<Option<String>> {
    Seq::new(
        answers.len(),
        |i: int|
            if sources[i].spec_cond(word) {
                answers[i]
            } else {
                None
            },
    )
}

impl<S: Source> Sources<S> {
    /// Whether the source at `i` is enabled for `word`.
    pub fn enabled(&self, i: usize, word: &str) -> (b: bool)
        requires
            i < self@.len(),
        ensures
            b == self@[i as int].spec_cond(word@),
    {
        self.sources[i].cond(word)
    }

    /// The suggestion for `word` from the answers of the sources, in order:
    /// the first answer of a source that is enabled for `word`.
    pub fn suggestion(&self, word: &str, answers: Vec<Option<String>>) -> (r: Option<String>)
        requires
            answers@.len() == self@.len(),
        ensures
            r == first_some(enabled_answers(self@, word@, answers@)),
    {
        let n = answers.len();
        let mut kept: Vec<Option<String>> = Vec::new();
        for i in 0..n
            invariant
                n == answers@.len(),
                n == self@.len(),
                kept@ == enabled_answers(self@, word@, answers@).take(i as int),
        {
            let a = if self.sources[i].cond(word) {
                answers[i].clone()
            } else {
                None
            };
            kept.push(a);
            assert(kept@ =~= enabled_answers(self@, word@, answers@).take(i + 1));
        }
        assert(kept@ =~= enabled_answers(self@, word@, answers@));
        first_suggestion(kept)
    }
}

/// A source that is not enabled for a word never gives the suggestion: a
/// suggestion is the answer of an enabled source, and no enabled source
/// before it answered.
pub proof fn lemma_suggestion_from_enabled<S: Source>(
    sources: Seq<S>,
    word: Seq<char>,
    answers: Seq<Option<String>>,
)
    requires
        answers.len() == sources.len(),
    ensures
        first_some(enabled_answers(sources, word, answers)) is Some ==> exists|i: int|
            0 <= i < sources.len() && sources[i].spec_cond(word) && #[trigger] answers[i]
                == first_some(enabled_answers(sources, word, answers)) && forall|j: int|
                0 <= j < i && sources[j].spec_cond(word) ==> #[trigger] answers[j] is None,
{
    let e = enabled_answers(sources, word, answers);
    lemma_first_some(e);
    if first_some(e) is Some {
        let k = choose|k: int|
            0 <= k < e.len() && #[trigger] e[k] == first_some(e) && forall|i: int| 0 <= i < k ==> #[trigger] e[i] is None;
        assert(sources[k].spec_cond(word));
        assert(answers[k] == first_some(e));
        assert forall|j: int| 0 <= j < k && sources[j].spec_cond(word) implies #[trigger] answers[j] is None by {
            assert(e[j] is None);
        }
    }
}

/// The suggestion is the answer of the first enabled source that answered:
/// when some enabled source answered, there is a suggestion, and it is the
/// answer of the earliest such source; when none did, there is none.
pub proof fn lemma_suggestion_first_enabled_answer<S: Source>(
    sources: Seq<S>,
    word: Seq<char>,
    answers: Seq<Option<String>>,
)
    requires
        answers.len() == sources.len(),
    ensures
        forall|k: int|
            0 <= k < sources.len() && sources[k].spec_cond(word) && #[trigger] answers[k] is Some
                && (forall|j: int|
                0 <= j < k && sources[j].spec_cond(word) ==> answers[j] is None) ==> first_some(
                enabled_answers(sources, word, answers),
            ) == answers[k],
        (forall|i: int| 0 <= i < sources.len() && sources[i].spec_cond(word) ==> #[trigger] answers[i] is None)
            ==> first_some(enabled_answers(sources, word, answers)) is None,
{
    let e = enabled_answers(sources, word, answers);
    lemma_first_some(e);
    assert forall|k: int|
        0 <= k < sources.len() && sources[k].spec_cond(word) && #[trigger] answers[k] is Some && (
        forall|j: int| 0 <= j < k && sources[j].spec_cond(word) ==> answers[j] is None) implies first_some(
        e,
    ) == answers[k] by {
        assert(e[k] == answers[k]);
        if first_some(e) is None {
            assert(e[k] is None);
        } else {
            let k2 = choose|k2: int|
                0 <= k2 < e.len() && #[trigger] e[k2] == first_some(e) && forall|i: int|
                    0 <= i < k2 ==> #[trigger] e[i] is None;
            if k2 < k {
                assert(e[k2] is Some);
                assert(sources[k2].spec_cond(word));
                assert(answers[k2] is None);
            } else if k2 > k {
                assert(e[k] is None);
            }
        }
    }
    if forall|i: int| 0 <= i < sources.len() && sources[i].spec_cond(word) ==> #[trigger] answers[i] is None {
        if first_some(e) is Some {
            let k2 = choose|k2: int|
                0 <= k2 < e.len() && #[trigger] e[k2] == first_some(e) && forall|i: int|
                    0 <= i < k2 ==> #[trigger] e[i] is None;
            assert(sources[k2].spec_cond(word));
            assert(answers[k2] is None);
        }
    }
}

/// The sources of this library, as one type.
#[derive(Clone, Copy)]
pub enum SourceKind {
    Pwd(Pwd),
    Zoxide(Zoxide),
    Path(Path),
    Basics(Basics),
}

impl Source for SourceKind {
    open spec fn spec_cond(&self, word: Seq<char>) -> bool {
        match self {
            SourceKind::Pwd(s) => s.spec_cond(word),
            SourceKind::Zoxide(s) => s.spec_cond(word),
            SourceKind::Path(s) => s.spec_cond(word),
            SourceKind::Basics(s) => s.spec_cond(word),
        }
    }

    open spec fn spec_priority(&self) -> usize {
        match self {
            SourceKind::Pwd(s) => s.spec_priority(),
            SourceKind::Zoxide(s) => s.spec_priority(),
            SourceKind::Path(s) => s.spec_priority(),
            SourceKind::Basics(s) => s.spec_priority(),
        }
    }

    fn cond(&self, word: &str) -> (enabled: bool) {
        match self {
            SourceKind::Pwd(s) => s.cond(word),
            SourceKind::Zoxide(s) => s.cond(word),
            SourceKind::Path(s) => s.cond(word),
            SourceKind::Basics(s) => s.cond(word),
        }
    }

    fn priority(&self) -> (p: usize) {
        match self {
            SourceKind::Pwd(s) => s.priority(),
            SourceKind::Zoxide(s) => s.priority(),
            SourceKind::Path(s) => s.priority(),
            SourceKind::Basics(s) => s.priority(),
        }
    }
}

} // verus!
