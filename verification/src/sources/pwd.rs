use vstd::prelude::*;
use crate::paths::{
    components, join_path, lemma_parent_components, opt_view, parent_text, parent_text_of, path_components, push_path,
    same_components,
};
use crate::sources::Source;
use crate::text::{
    byte_count, byte_len, byte_prefix, byte_prefix_of, chars_of, ends_with_char, is_char_cut,
    is_cut, is_whitespace, is_ws, split_whitespace, starts_with_char, trim_end,
    trimmed_end, views, words,
};
use crate::util::{
    expand_spec, expand_with_home, opt_str_view, starts_with_tilde,
    unexpand_spec, unexpand_with_home,
};

verus! {

broadcast use vstd::seq_lib::group_seq_properties;

/// Suggests entries of the current directory, or of the directory that the
/// last word names.
#[derive(Clone, Copy)]
pub struct Pwd;

/// The word being completed: the last word of the input when it has more
/// than one, else nothing.
pub open spec fn pwd_word(input: Seq<char>) -> Seq<char> {
    if words(input).len() > 1 {
        words(input).last()
    } else {
        Seq::<char>::empty()
    }
}

/// Whether the text before the word being completed ends on a character
/// boundary; when it does not, slicing the input there panics.
pub open spec fn pwd_cut_ok(input: Seq<char>) -> bool {
    is_char_cut(input, byte_len(input) - byte_len(pwd_word(input)))
}

/// The input before the word being completed: cut as many bytes before its
/// end as the word has, trailing white space removed.
pub open spec fn pwd_rest(input: Seq<char>) -> Seq<char> {
    trim_end(byte_prefix(input, byte_len(input) - byte_len(pwd_word(input))))
}

/// The path the search starts from: the word being completed, or else the
/// current directory with the home directory abbreviated.
pub open spec fn pwd_start(input: Seq<char>, pwd: Seq<char>, home: Option<Seq<char>>) -> Option<
    Seq<char>,
> {
    if words(input).len() > 1 {
        Some(pwd_word(input))
    } else {
        unexpand_spec(pwd, home, home)
    }
}

/// Whether the search looks into the parent of `path` for its last component.
pub open spec fn descends(path: Seq<char>, word: Seq<char>) -> bool {
    components(path).len() > 1 && word.len() > 0
}

/// The first of `keys` that does not start with `.`.
pub open spec fn first_visible(keys: Seq<Seq<char>>) -> Option<Seq<char>>
    decreases keys.len(),
{
    if keys.len() == 0 {
        None
    } else if !(keys[0].len() > 0 && keys[0][0] == '.') {
        Some(keys[0])
    } else {
        first_visible(keys.drop_first())
    }
}

/// Where and what to search for the word being completed.
pub struct PwdTarget {
    /// The word being completed, or empty.
    pub word: String,
    /// The input before the word, without trailing white space.
    pub rest: String,
    /// Whether the starting path was written with `~`.
    pub home_abbr: bool,
    /// The starting path with `~` expanded.
    pub path: String,
    /// The parent of `path` when the search looks there; it must be an
    /// existing directory for the search to go on.
    pub parent: Option<String>,
    /// The directory whose entries are searched.
    pub base: String,
    /// The text that the entries are matched against.
    pub search: String,
}

impl PwdTarget {
    /// The target is what the search makes of the input `input`, the current
    /// directory `pwd` and the home directory `home`.
    pub open spec fn describes(self, input: Seq<char>, pwd: Seq<char>, home: Option<Seq<char>>) -> bool {
        let start = pwd_start(input, pwd, home).unwrap();
        let path = expand_spec(start, home).unwrap();
        let cs = components(path);
        &&& self.word@ == pwd_word(input)
        &&& self.rest@ == pwd_rest(input)
        &&& self.home_abbr == starts_with_tilde(start)
        &&& self.path@ == path
        &&& if descends(path, pwd_word(input)) {
            &&& self.search@ == cs.last()
            &&& opt_view(self.parent) == Some(parent_text(path))
            &&& self.base@ == parent_text(path)
        } else {
            &&& self.search@ == pwd_word(input)
            &&& self.parent is None
            &&& self.base@ == pwd
        }
    }

    /// Whether the entries of `path` itself are listed, all of them, rather
    /// than the entries of `base` that match `search`: when there is nothing
    /// to match, or when `path` exists and the word ends with `/`.
    pub fn show_next(&self, path_exists: bool) -> (b: bool)
        ensures
            b == (self.search@.len() == 0 || (path_exists && self.word@.len() > 0
                && self.word@.last() == '/')),
    {
        self.search.unicode_len() == 0 || (path_exists && ends_with_char(self.word.as_str(), '/'))
    }

    /// The character that listed entries must start with: none is asked
    /// (a space) when all are shown, else the first character of `search`.
    pub fn start_char(&self, show_next: bool) -> (r: Option<char>)
        ensures
            r == (if show_next {
                Some(' ')
            } else if self.search@.len() > 0 {
                Some(self.search@[0])
            } else {
                None
            }),
    {
        if show_next {
            Some(' ')
        } else if self.search.unicode_len() > 0 {
            Some(self.search.as_str().get_char(0))
        } else {
            None
        }
    }

    /// Whether hidden entries are left out: unless `search` starts with `.`.
    pub fn hides_dotfiles(&self) -> (b: bool)
        ensures
            b == !(self.search@.len() > 0 && self.search@[0] == '.'),
    {
        !starts_with_char(self.search.as_str(), '.')
    }

    /// Whether an entry named `name` is listed.
    pub fn keeps_entry(show_next: bool, start: char, name: &str) -> (b: bool)
        ensures
            b == (show_next || (name@.len() > 0 && name@[0] == start)),
    {
        show_next || starts_with_char(name, start)
    }

    /// The text to match the listed entries `keys` against: the first entry
    /// that does not start with `.` when all entries are shown or there was
    /// nothing to match and some were listed (nothing if there is no such
    /// entry), else `search`.
    pub fn search_term(&self, show_next: bool, keys: &Vec<String>) -> (r: Option<String>)
        ensures
            opt_view(r) == (if (show_next || self.search@.len() == 0) && keys@.len() > 0 {
                first_visible(views(keys@))
            } else {
                Some(self.search@)
            }),
    {
        if (show_next || self.search.unicode_len() == 0) && keys.len() > 0 {
            let n = keys.len();
            let mut i: usize = 0;
            assert(views(keys@).skip(0) =~= views(keys@));
            while i < n
                invariant
                    n == keys@.len(),
                    i <= n,
                    (show_next || self.search@.len() == 0) && keys@.len() > 0,
                    first_visible(views(keys@).skip(i as int)) == first_visible(views(keys@)),
                decreases n - i,
            {
                let k = &keys[i];
                assert(views(keys@).skip(i as int)[0] == k@);
                if !starts_with_char(k.as_str(), '.') {
                    let c = k.clone();
                    assert(first_visible(views(keys@).skip(i as int)) == Some(c@));
                    assert(opt_view(Some(c)) == Some(c@));
                    return Some(c);
                }
                assert(views(keys@).skip(i as int).drop_first() =~= views(keys@).skip(i + 1));
                i = i + 1;
            }
            assert(views(keys@).skip(i as int).len() == 0);
            None
        } else {
            Some(self.search.clone())
        }
    }

    /// The position of the best ranked among matching entries with the keys
    /// `keys`: a least key under `access_le`, the first such; nothing when
    /// there is no entry.
    pub fn best_ranked(keys: &Vec<(Option<i128>, bool)>) -> (r: Option<usize>)
        ensures
            r is None <==> keys@.len() == 0,
            r matches Some(i) ==> i < keys@.len() && (forall|j: int|
                0 <= j < keys@.len() ==> access_le(keys@[i as int], #[trigger] keys@[j])) && (
            forall|j: int| 0 <= j < i ==> !access_le(#[trigger] keys@[j], keys@[i as int])),
    {
        if keys.len() == 0 {
            return None;
        }
        let mut best: usize = 0;
        let mut k: usize = 1;
        while k < keys.len()
            invariant
                1 <= k <= keys@.len(),
                best < k,
                forall|j: int| 0 <= j < k ==> access_le(keys@[best as int], #[trigger] keys@[j]),
                forall|j: int| 0 <= j < best ==> !access_le(#[trigger] keys@[j], keys@[best as int]),
            decreases keys@.len() - k,
        {
            if !key_le(&keys[best], &keys[k]) {
                best = k;
            }
            k = k + 1;
        }
        Some(best)
    }

    /// The suggestion made from the best matching entry `matching` (a
    /// directory when `is_dir`): with all entries shown, the input before the
    /// word, a space, the entry and a `/` for a directory. Otherwise the entry,
    /// joined to `base` unless `base` is the current directory `pwd`, with the
    /// home directory abbreviated when the input used `~` (nothing when there
    /// is no home directory), a `/` for a directory, and before it the input
    /// before the word and a space when that is not empty.
    pub fn suggestion(
        &self,
        pwd: &str,
        home: Option<&str>,
        show_next: bool,
        matching: &str,
        is_dir: bool,
    ) -> (r: Option<String>)
        ensures
            opt_view(r) == pwd_suggestion_spec(
                self.rest@,
                self.base@,
                self.home_abbr,
                pwd@,
                opt_str_view(home),
                show_next,
                matching@,
                is_dir,
            ),
    {
        proof {
            reveal_strlit("/");
            reveal_strlit("");
            reveal_strlit(" ");
        }
        let dir = if is_dir {
            "/"
        } else {
            ""
        };
        if show_next {
            return Some(
                String::from_str(self.rest.as_str()).concat(" ").concat(matching).concat(dir),
            );
        }
        let same = same_components(
            &path_components(self.base.as_str()),
            &path_components(pwd),
        );
        let p = if same {
            String::from_str(matching)
        } else {
            join_path(self.base.as_str(), matching)
        };
        let path = if self.home_abbr {
            match unexpand_with_home(p.as_str(), home, home) {
                Some(x) => x,
                None => return None,
            }
        } else {
            p
        };
        if self.rest.unicode_len() == 0 {
            Some(path.concat(dir))
        } else {
            Some(String::from_str(self.rest.as_str()).concat(" ").concat(path.as_str()).concat(dir))
        }
    }
}

/// The order in which matching entries are ranked: by the time they were
/// last accessed, an unknown time first, then files before directories. A
/// key is the access time in nanoseconds from the Unix epoch, if known, and
/// whether the entry is a directory.
pub open spec fn access_le(a: (Option<i128>, bool), b: (Option<i128>, bool)) -> bool {
    let dir_le = !a.1 || b.1;
    match (a.0, b.0) {
        (None, None) => dir_le,
        (None, Some(_)) => true,
        (Some(_), None) => false,
        (Some(x), Some(y)) => x < y || (x == y && dir_le),
    }
}

/// A target whose expanded path has at most one component, or that has no
/// word to complete, searches the current directory itself: its base is the
/// current directory, it names no parent, and it matches the word as typed.
pub proof fn lemma_target_stays_in_pwd(
    t: PwdTarget,
    input: Seq<char>,
    pwd: Seq<char>,
    home: Option<Seq<char>>,
)
    requires
        t.describes(input, pwd, home),
        components(t.path@).len() <= 1 || t.word@.len() == 0,
    ensures
        t.base@ == pwd,
        t.parent is None,
        t.search@ == t.word@,
{
}

/// A target whose expanded path has two components or more and that has a
/// word to complete searches the parent of that path, which has all its
/// components but the last, for that last component.
pub proof fn lemma_target_descends(
    t: PwdTarget,
    input: Seq<char>,
    pwd: Seq<char>,
    home: Option<Seq<char>>,
)
    requires
        t.describes(input, pwd, home),
        components(t.path@).len() >= 2,
        t.word@.len() > 0,
    ensures
        t.search@ == components(t.path@).last(),
        t.parent is Some,
        t.parent->0@ == t.base@,
        components(t.base@) == components(t.path@).drop_last(),
{
    lemma_parent_components(t.path@);
}

/// The suggestion that `PwdTarget::suggestion` makes.
pub open spec fn pwd_suggestion_spec(
    rest: Seq<char>,
    base: Seq<char>,
    home_abbr: bool,
    pwd: Seq<char>,
    home: Option<Seq<char>>,
    show_next: bool,
    matching: Seq<char>,
    is_dir: bool,
) -> Option<Seq<char>> {
    let dir = if is_dir {
        seq!['/']
    } else {
        Seq::<char>::empty()
    };
    if show_next {
        Some(rest + seq![' '] + matching + dir)
    } else {
        let p = if components(base) == components(pwd) {
            matching
        } else {
            push_path(base, matching)
        };
        let path = if home_abbr {
            unexpand_spec(p, home, home)
        } else {
            Some(p)
        };
        match path {
            None => None,
            Some(x) => if rest.len() == 0 {
                Some(x + dir)
            } else {
                Some(rest + seq![' '] + x + dir)
            },
        }
    }
}

impl Pwd {
    /// Whether `target` can cut the input without panicking.
    pub fn can_target(input: &str) -> (b: bool)
        ensures
            b == pwd_cut_ok(input@),
    {
        let word = Self::word_of(input);
        let total = byte_count(input);
        let wb = byte_count(word.as_str());
        if total < wb {
            false
        } else {
            is_cut(input, total - wb)
        }
    }

    /// The word being completed.
    fn word_of(input: &str) -> (w: String)
        ensures
            w@ == pwd_word(input@),
    {
        let ws = split_whitespace(input);
        if ws.len() > 1 {
            assert(views(ws@)[ws@.len() - 1] == ws@[ws@.len() - 1]@);
            ws[ws.len() - 1].clone()
        } else {
            String::new()
        }
    }

    /// Where and what to search for the input `input`, in the current
    /// directory `pwd` with the home directory `home`; nothing when the
    /// starting path cannot be found or expanded for lack of a home directory.
    pub fn target(input: &str, pwd: &str, home: Option<&str>) -> (r: Option<PwdTarget>)
        requires
            pwd_cut_ok(input@),
        ensures
            r is None <==> (pwd_start(input@, pwd@, opt_str_view(home)) is None || expand_spec(
                pwd_start(input@, pwd@, opt_str_view(home)).unwrap(),
                opt_str_view(home),
            ) is None),
            r matches Some(t) ==> t.describes(input@, pwd@, opt_str_view(home)),
    {
        let nwords = split_whitespace(input).len();
        let word = Self::word_of(input);
        let start = if nwords > 1 {
            String::from_str(word.as_str())
        } else {
            match unexpand_with_home(pwd, home, home) {
                Some(s) => s,
                None => return None,
            }
        };
        let total = byte_count(input);
        let wb = byte_count(word.as_str());
        let before = byte_prefix_of(input, total - wb);
        let rest = trimmed_end(before.as_str());
        let home_abbr = {
            let cs = path_components(start.as_str());
            cs.len() >= 1 && is_tilde(&cs[0])
        };
        let path = match expand_with_home(start.as_str(), home) {
            Some(p) => p,
            None => return None,
        };
        let cs = path_components(path.as_str());
        if cs.len() > 1 && word.unicode_len() > 0 {
            let n = cs.len();
            let search = cs[n - 1].clone();
            let parent = parent_text_of(path.as_str());
            Some(
                PwdTarget {
                    word,
                    rest,
                    home_abbr,
                    path,
                    parent: Some(parent.clone()),
                    base: parent,
                    search,
                },
            )
        } else {
            let search = word.clone();
            Some(
                PwdTarget {
                    word,
                    rest,
                    home_abbr,
                    path,
                    parent: None,
                    base: String::from_str(pwd),
                    search,
                },
            )
        }
    }
}

/// `access_le` on two keys.
fn key_le(a: &(Option<i128>, bool), b: &(Option<i128>, bool)) -> (r: bool)
    ensures
        r == access_le(*a, *b),
{
    let dir_le = !a.1 || b.1;
    match (a.0, b.0) {
        (None, None) => dir_le,
        (None, Some(_)) => true,
        (Some(_), None) => false,
        (Some(x), Some(y)) => x < y || (x == y && dir_le),
    }
}

/// Whether `w` is `~`.
fn is_tilde(w: &String) -> (b: bool)
    ensures
        b == (w@ == seq!['~']),
{
    if w.unicode_len() == 1 && w.as_str().get_char(0) == '~' {
        assert(w@ =~= seq!['~']);
        true
    } else {
        false
    }
}

impl Source for Pwd {
    open spec fn spec_cond(&self, word: Seq<char>) -> bool {
        words(word).len() > 1 || (word.len() > 0 && is_ws(word.last()))
    }

    open spec fn spec_priority(&self) -> usize {
        0
    }

    fn cond(&self, word: &str) -> (enabled: bool) {
        if split_whitespace(word).len() > 1 {
            return true;
        }
        let chars = chars_of(word);
        chars.len() > 0 && is_whitespace(chars[chars.len() - 1])
    }

    fn priority(&self) -> (p: usize) {
        0
    }
}

} // verus!
