//! The command database: its entries, and the reading of a command line.

use vstd::prelude::*;
use crate::text::{starts_with_char, views};

verus! {

broadcast use vstd::seq_lib::group_seq_properties;

/// What an argument of a command is.
#[derive(Clone, Copy, Debug, PartialEq, Eq, Structural)]
pub enum ArgKind {
    /// The argument is a file
    File,
    /// The argument is a directory
    Dir,
    /// The argument is a flag
    Flag,
    /// The argument is a number
    Number,
    /// The argument is a string / keyword / subcommand
    Word,
}

/// An argument of a command, with how often and when it was last used.
/// Two arguments are equal when their texts are.
pub struct Arg {
    text: String,
    frequency: usize,
    used: u64,
}

impl Arg {
    pub closed spec fn text_view(&self) -> Seq<char> {
        self.text@
    }

    pub closed spec fn frequency_view(&self) -> usize {
        self.frequency
    }

    pub closed spec fn used_view(&self) -> u64 {
        self.used
    }

    /// A new argument with the text `text`, never used.
    pub fn from_text(text: &str) -> (a: Arg)
        ensures
            a.text_view() == text@,
            a.frequency_view() == 0,
            a.used_view() == 0,
    {
        Arg { text: String::from_str(text), frequency: 0, used: 0 }
    }

    /// An argument with the given text and counts.
    pub fn with_counts(text: String, frequency: usize, used: u64) -> (a: Arg)
        ensures
            a.text_view() == text@,
            a.frequency_view() == frequency,
            a.used_view() == used,
    {
        Arg { text, frequency, used }
    }

    pub fn text(&self) -> (r: &str)
        ensures
            r@ == self.text_view(),
    {
        self.text.as_str()
    }

    pub fn frequency(&self) -> (r: usize)
        ensures
            r == self.frequency_view(),
    {
        self.frequency
    }

    pub fn used(&self) -> (r: u64)
        ensures
            r == self.used_view(),
    {
        self.used
    }
}

impl PartialEq for Arg {
    fn eq(&self, other: &Self) -> (r: bool) {
        self.text == other.text
    }
}

impl vstd::std_specs::cmp::PartialEqSpecImpl for Arg {
    open spec fn obeys_eq_spec() -> bool {
        true
    }

    open spec fn eq_spec(&self, other: &Self) -> bool {
        self.text_view() == other.text_view()
    }
}

impl Eq for Arg {

}

/// A command in the database: how often and when it was last used, and the
/// kinds of the arguments seen with it. No two arguments share a text.
pub struct Entry {
    frequency: usize,
    used: u64,
    args: Vec<(Arg, ArgKind)>,
}

impl Entry {
    #[verifier::type_invariant]
    spec fn distinct_args(&self) -> bool {
        forall|i: int, j: int|
            0 <= i < j < self.args@.len() ==> self.args@[i].0.text_view() != self.args@[j].0.text_view()
    }

    pub closed spec fn frequency_view(&self) -> usize {
        self.frequency
    }

    pub closed spec fn used_view(&self) -> u64 {
        self.used
    }

    /// The arguments, each as its text, frequency and time of last use,
    /// with its kind.
    pub closed spec fn args_view(&self) -> Seq<(Seq<char>, usize, u64, ArgKind)> {
        self.args@.map_values(|p: (Arg, ArgKind)| arg_entry(p))
    }

    /// An entry with the given counts and arguments, no two of which share a text.
    pub fn new(frequency: usize, used: u64, args: Vec<(Arg, ArgKind)>) -> (e: Entry)
        requires
            forall|i: int, j: int|
                0 <= i < j < args@.len() ==> args@[i].0.text_view() != args@[j].0.text_view(),
        ensures
            e.frequency_view() == frequency,
            e.used_view() == used,
            e.args_view() == args@.map_values(|p: (Arg, ArgKind)| arg_entry(p)),
    {
        Entry { frequency, used, args }
    }

    pub fn frequency(&self) -> (r: usize)
        ensures
            r == self.frequency_view(),
    {
        self.frequency
    }

    pub fn used(&self) -> (r: u64)
        ensures
            r == self.used_view(),
    {
        self.used
    }

    /// The arguments with their kinds.
    pub fn args(&self) -> (r: &Vec<(Arg, ArgKind)>)
        ensures
            r@.map_values(|p: (Arg, ArgKind)| arg_entry(p)) == self.args_view(),
    {
        &self.args
    }

    /// The kind recorded for the argument with the text of `arg`, if any.
    pub fn kind_of(&self, arg: &Arg) -> (r: Option<ArgKind>)
        ensures
            r matches Some(k) ==> exists|i: int|
                0 <= i < self.args_view().len() && (#[trigger] self.args_view()[i]).0
                    == arg.text_view() && self.args_view()[i].3 == k,
            r is None ==> forall|i: int|
                0 <= i < self.args_view().len() ==> (#[trigger] self.args_view()[i]).0
                    != arg.text_view(),
    {
        let n = self.args.len();
        for i in 0..n
            invariant
                n == self.args@.len(),
                forall|j: int| 0 <= j < i ==> self.args@[j].0.text_view() != arg.text_view(),
        {
            if self.args[i].0.text == arg.text {
                assert(self.args_view()[i as int] == arg_entry(self.args@[i as int]));
                return Some(self.args[i].1);
            }
        }
        assert forall|i: int| 0 <= i < self.args_view().len() implies (
        #[trigger] self.args_view()[i]).0 != arg.text_view() by {
            assert(self.args_view()[i] == arg_entry(self.args@[i]));
        }
        None
    }
}

/// An argument with its kind, as the text, frequency and time of last use
/// of the argument, and the kind.
pub open spec fn arg_entry(p: (Arg, ArgKind)) -> (Seq<char>, usize, u64, ArgKind) {
    (p.0.text_view(), p.0.frequency_view(), p.0.used_view(), p.1)
}


#[verifier::external_type_specification]
#[verifier::external_body]
pub struct ExShellParseError(shell_words::ParseError);

/// The words of a command line as `shell_words::split` reads them, or nothing
/// when a quote is left open.
pub uninterp spec fn shell_split(input: Seq<char>) -> Option<Seq<Seq<char>>>;

/// `shell_words::split`: the words of `input` under the quoting rules of a
/// POSIX shell; it fails on an unclosed quote. Its result is named `shell_split`.
#[verifier::external_body]
fn split_shell(input: &str) -> (r: Result<Vec<String>, shell_words::ParseError>)
    ensures
        r matches Ok(ws) ==> shell_split(input@) == Some(views(ws@)),
        r is Err ==> shell_split(input@) is None,
{
    shell_words::split(input)
}

/// Whether `c` is a one-byte character.
pub open spec fn is_ascii(c: char) -> bool {
    (c as u32) < 0x80
}

/// Whether `c` is an ASCII letter; among one-byte characters these are the
/// ones that `argmap` does not read as the end of a group of short flags.
pub open spec fn is_ascii_letter(c: char) -> bool {
    ('a' <= c && c <= 'z') || ('A' <= c && c <= 'Z')
}

/// Whether `c` is an ASCII digit.
pub open spec fn is_ascii_digit(c: char) -> bool {
    '0' <= c && c <= '9'
}

/// How `argmap` reads the group of short flags `w` from its character `i` on,
/// one byte at a time: nothing when it slices inside a multi-byte character
/// (which panics); else whether it stopped early, at a character from the
/// third on that is not a letter, whose rest becomes the value of the flag
/// before it. The last character is read apart and is never sliced.
pub open spec fn short_group(w: Seq<char>, i: int) -> Option<bool>
    decreases w.len() - i,
{
    if i < 1 || i >= w.len() {
        Some(false)
    } else if i == w.len() - 1 && is_ascii(w[i]) {
        Some(false)
    } else if !is_ascii(w[i]) {
        None
    } else if i >= 2 && !is_ascii_letter(w[i]) {
        Some(true)
    } else {
        short_group(w, i + 1)
    }
}

/// What `argmap::parse` keeps between words: whether `--` was seen, and
/// whether a flag waits for its value. Reading the word `w` gives the next
/// state, or nothing when `argmap` panics on it.
pub open spec fn argmap_step(state: (bool, bool), w: Seq<char>) -> Option<(bool, bool)> {
    let (dashdash, pending) = state;
    if dashdash || w == seq!['-', '-'] {
        Some((true, pending))
    } else if w == seq!['-'] {
        Some((false, pending))
    } else if w.len() >= 2 && w[0] == '-' && w[1] == '-' {
        Some((false, !w.contains('=')))
    } else if w.len() >= 1 && w[0] == '-' {
        if pending && !is_ascii(w[1]) {
            None
        } else if pending && is_ascii_digit(w[1]) {
            Some((false, false))
        } else if w.contains('=') {
            Some((false, false))
        } else {
            match short_group(w, 1) {
                None => None,
                Some(true) => Some((false, false)),
                Some(false) => Some((false, w.len() == 2 || is_ascii_letter(w.last()))),
            }
        }
    } else {
        Some((false, false))
    }
}

/// The state of `argmap::parse` after reading `words`, from no `--` and no
/// flag waiting; nothing when it panics on one of them.
pub open spec fn argmap_run(words: Seq<Seq<char>>) -> Option<(bool, bool)>
    decreases words.len(),
{
    if words.len() == 0 {
        Some((false, false))
    } else {
        match argmap_run(words.drop_last()) {
            None => None,
            Some(state) => argmap_step(state, words.last()),
        }
    }
}

/// Whether `argmap::parse`, in the state `state`, keeps the word `w` as a
/// positional argument: every word after `--`; the word `-`; a word that does
/// not start with `-` when no flag waits for a value.
pub open spec fn argmap_keeps(state: (bool, bool), w: Seq<char>) -> bool {
    let (dashdash, pending) = state;
    dashdash || (w != seq!['-', '-'] && (w == seq!['-'] || (!is_flag(w) && !pending)))
}

/// The positional arguments that `argmap::parse` finds among `words`, in order.
pub open spec fn argmap_positional(words: Seq<Seq<char>>) -> Seq<Seq<char>>
    decreases words.len(),
{
    if words.len() == 0 {
        Seq::<Seq<char>>::empty()
    } else {
        let prev = argmap_positional(words.drop_last());
        match argmap_run(words.drop_last()) {
            Some(state) => if argmap_keeps(state, words.last()) {
                prev.push(words.last())
            } else {
                prev
            },
            None => prev,
        }
    }
}

/// A first word that does not start with `-` is the first positional argument.
pub proof fn lemma_first_positional(words: Seq<Seq<char>>)
    requires
        words.len() > 0,
        !is_flag(words[0]),
    ensures
        argmap_positional(words).len() > 0,
        argmap_positional(words)[0] == words[0],
    decreases words.len(),
{
    if words.len() == 1 {
        assert(words.drop_last() =~= Seq::<Seq<char>>::empty());
        assert(words.last() != seq!['-', '-']) by {
            if words.last() == seq!['-', '-'] {
                assert(words.last()[0] == '-');
            }
        }
    } else {
        assert(words.drop_last()[0] == words[0]);
        lemma_first_positional(words.drop_last());
    }
}

/// Whether `argmap::parse` reads `words` without panicking.
pub open spec fn argmap_accepts(words: Seq<Seq<char>>) -> bool {
    argmap_run(words) is Some
}

/// `argmap::parse`: the positional arguments among `words`, as
/// `argmap_positional` reads them off the source. The crate slices short
/// flags by bytes, which panics inside a multi-byte character;
/// `argmap_accepts` leaves out exactly the words on which that happens.
#[verifier::external_body]
fn positional_args(words: &Vec<String>) -> (r: Vec<String>)
    requires
        argmap_accepts(views(words@)),
    ensures
        views(r@) == argmap_positional(views(words@)),
{
    argmap::parse(words.iter()).0
}

/// Whether a word starts with `-`.
pub open spec fn is_flag(w: Seq<char>) -> bool {
    w.len() > 0 && w[0] == '-'
}

/// `short_group(w, 1)` for a word `w` of at least two characters.
fn short_group_of(w: &str) -> (r: Option<bool>)
    requires
        w@.len() >= 2,
    ensures
        r == short_group(w@, 1),
{
    let n = w.unicode_len();
    let mut i: usize = 1;
    loop
        invariant
            n == w@.len(),
            1 <= i < n,
            short_group(w@, i as int) == short_group(w@, 1),
        decreases n - i,
    {
        let c = w.get_char(i);
        let ascii = (c as u32) < 0x80;
        if i == n - 1 && ascii {
            return Some(false);
        }
        if !ascii {
            return None;
        }
        if i >= 2 && !letter(c) {
            return Some(true);
        }
        i = i + 1;
    }
}

/// Whether `c` is an ASCII letter.
fn letter(c: char) -> (b: bool)
    ensures
        b == is_ascii_letter(c),
{
    ('a' <= c && c <= 'z') || ('A' <= c && c <= 'Z')
}

/// Whether `w` holds the character `c`.
fn contains_char(w: &str, c: char) -> (b: bool)
    ensures
        b == w@.contains(c),
{
    let n = w.unicode_len();
    let mut k: usize = 0;
    while k < n
        invariant
            n == w@.len(),
            k <= n,
            forall|m: int| 0 <= m < k ==> w@[m] != c,
        decreases n - k,
    {
        if w.get_char(k) == c {
            assert(w@[k as int] == c);
            return true;
        }
        k = k + 1;
    }
    false
}

/// `argmap_step` on the state `state` and the word `w`.
fn argmap_step_of(state: (bool, bool), w: &str) -> (r: Option<(bool, bool)>)
    ensures
        r == argmap_step(state, w@),
{
    let (dashdash, pending) = state;
    let n = w.unicode_len();
    let two_dashes = n == 2 && w.get_char(0) == '-' && w.get_char(1) == '-';
    assert(two_dashes == (w@ == seq!['-', '-'])) by {
        if w@ == seq!['-', '-'] {
            assert(w@[0] == '-' && w@[1] == '-');
        }
        if two_dashes {
            assert(w@ =~= seq!['-', '-']);
        }
    }
    if dashdash || two_dashes {
        return Some((true, pending));
    }
    let one_dash = n == 1 && w.get_char(0) == '-';
    assert(one_dash == (w@ == seq!['-'])) by {
        if w@ == seq!['-'] {
            assert(w@[0] == '-');
        }
        if one_dash {
            assert(w@ =~= seq!['-']);
        }
    }
    if one_dash {
        return Some((false, pending));
    }
    if n >= 2 && w.get_char(0) == '-' && w.get_char(1) == '-' {
        return Some((false, !contains_char(w, '=')));
    }
    if n >= 1 && w.get_char(0) == '-' {
        let c1 = w.get_char(1);
        if pending && (c1 as u32) >= 0x80 {
            return None;
        }
        if pending && '0' <= c1 && c1 <= '9' {
            return Some((false, false));
        }
        if contains_char(w, '=') {
            return Some((false, false));
        }
        match short_group_of(w) {
            None => None,
            Some(true) => Some((false, false)),
            Some(false) => Some((false, n == 2 || letter(w.get_char(n - 1)))),
        }
    } else {
        Some((false, false))
    }
}

/// Whether `argmap::parse` reads `words` without panicking.
pub fn accepts_words(words: &Vec<String>) -> (b: bool)
    ensures
        b == argmap_accepts(views(words@)),
{
    let n = words.len();
    let mut state: (bool, bool) = (false, false);
    assert(views(words@).take(0) =~= Seq::<Seq<char>>::empty());
    for i in 0..n
        invariant
            n == words@.len(),
            argmap_run(views(words@).take(i as int)) == Some(state),
    {
        let ghost t = views(words@).take(i + 1);
        assert(t.drop_last() =~= views(words@).take(i as int));
        assert(t.last() == words@[i as int]@);
        match argmap_step_of(state, words[i].as_str()) {
            None => {
                proof {
                    lemma_run_stays_failed(views(words@), i + 1);
                }
                assert(views(words@).take(n as int) =~= views(words@));
                return false;
            },
            Some(next) => {
                state = next;
            },
        }
    }
    assert(views(words@).take(n as int) =~= views(words@));
    true
}

/// Once `argmap` panics on a word, it never reads the words after it.
proof fn lemma_run_stays_failed(words: Seq<Seq<char>>, k: int)
    requires
        0 <= k <= words.len(),
        argmap_run(words.take(k)) is None,
    ensures
        argmap_run(words) is None,
    decreases words.len() - k,
{
    if k < words.len() {
        assert(words.take(k + 1).drop_last() =~= words.take(k));
        lemma_run_stays_failed(words, k + 1);
    } else {
        assert(words.take(k) =~= words);
    }
}

/// The first word of `words` that starts with `-`, counting from the end.
pub open spec fn last_flag_spec(words: Seq<Seq<char>>) -> Option<Seq<char>>
    decreases words.len(),
{
    if words.len() == 0 {
        None
    } else if is_flag(words.last()) {
        Some(words.last())
    } else {
        last_flag_spec(words.drop_last())
    }
}

/// The last word of `words` that starts with `-`.
pub fn last_flag(words: &Vec<String>) -> (r: Option<String>)
    ensures
        crate::paths::opt_view(r) == last_flag_spec(views(words@)),
{
    let mut i = words.len();
    assert(views(words@).take(i as int) =~= views(words@));
    while i > 0
        invariant
            i <= words@.len(),
            last_flag_spec(views(words@).take(i as int)) == last_flag_spec(views(words@)),
        decreases i,
    {
        let w = &words[i - 1];
        assert(views(words@).take(i as int).last() == w@);
        if starts_with_char(w.as_str(), '-') {
            return Some(w.clone());
        }
        assert(views(words@).take(i as int).drop_last() =~= views(words@).take(i - 1));
        i = i - 1;
    }
    None
}

/// The words of the command line `input`; nothing when a quote is left open.
pub fn split_command_line(input: &str) -> (r: Option<Vec<String>>)
    ensures
        r is None <==> shell_split(input@) is None,
        r matches Some(ws) ==> shell_split(input@) == Some(views(ws@)),
{
    match split_shell(input) {
        Ok(ws) => Some(ws),
        Err(_) => None,
    }
}

/// A command line read for a lookup in the database.
pub struct CommandQuery {
    /// The words of the command line.
    pub words: Vec<String>,
    /// The first word.
    pub cmd: String,
    /// The last word that starts with `-`, if any.
    pub last_key: Option<String>,
}

/// The words of `input`, its command and its last flag; nothing when a quote
/// is left open or there is no word.
pub fn command_query(input: &str) -> (r: Option<CommandQuery>)
    ensures
        r is None <==> (shell_split(input@) is None || shell_split(input@).unwrap().len() == 0),
        r matches Some(q) ==> shell_split(input@) == Some(views(q.words@)) && q.cmd@ == views(
            q.words@,
        )[0] && crate::paths::opt_view(q.last_key) == last_flag_spec(views(q.words@)),
{
    let words = split_command_line(input)?;
    if words.len() == 0 {
        return None;
    }
    let cmd = words[0].clone();
    let last_key = last_flag(&words);
    Some(CommandQuery { words, cmd, last_key })
}

/// The first positional argument that `argmap` finds among `words`.
pub fn first_positional(words: &Vec<String>) -> (r: Option<String>)
    requires
        argmap_accepts(views(words@)),
    ensures
        crate::paths::opt_view(r) == (if argmap_positional(views(words@)).len() > 0 {
            Some(argmap_positional(views(words@))[0])
        } else {
            None
        }),
        words@.len() > 0 && !is_flag(words@[0]@) ==> (r matches Some(p) && p@ == words@[0]@),
{
    let args = positional_args(words);
    proof {
        if words@.len() > 0 && !is_flag(words@[0]@) {
            assert(views(words@)[0] == words@[0]@);
            lemma_first_positional(views(words@));
        }
    }
    if args.len() > 0 {
        assert(views(args@)[0] == args@[0]@);
        Some(args[0].clone())
    } else {
        None
    }
}

/// What `parse_input` gives: the command, the words after it, and the
/// position of the last word (0 for the command), when the command line
/// splits into words and `argmap` finds a positional argument among them.
pub open spec fn parse_input_spec(input: Seq<char>) -> Option<(Seq<char>, Seq<Seq<char>>, int)> {
    match shell_split(input) {
        None => None,
        Some(ws) => if argmap_positional(ws).len() == 0 || ws.len() == 0 {
            None
        } else {
            Some((ws[0], ws.drop_first(), ws.len() - 1))
        },
    }
}

/// Whether `parse_input` can read `input` without `argmap` panicking.
pub open spec fn parse_input_ok(input: Seq<char>) -> bool {
    match shell_split(input) {
        Some(ws) => argmap_accepts(ws),
        None => true,
    }
}

/// What `parse_input` gives lays the command line out as the command, then
/// its arguments, with the position of the last word counted from the
/// command at 0: that position is the number of arguments.
pub proof fn lemma_parse_input_layout(input: Seq<char>)
    ensures
        parse_input_spec(input) matches Some((cmd, args, pos)) ==> pos == args.len()
            && shell_split(input) == Some(seq![cmd] + args),
{
    if let Some((cmd, args, pos)) = parse_input_spec(input) {
        let ws = shell_split(input).unwrap();
        assert(ws =~= seq![cmd] + args);
    }
}

/// The command in `input`, the words after it, and the position of the
/// input's last word.
pub fn parse_input(input: &str) -> (r: Option<(String, Vec<String>, usize)>)
    requires
        parse_input_ok(input@),
    ensures
        (match r {
            None => parse_input_spec(input@) is None,
            Some((cmd, args, pos)) => parse_input_spec(input@) == Some(
                (cmd@, views(args@), pos as int),
            ),
        }),
{
    let words = split_command_line(input)?;
    let _first = first_positional(&words)?;
    if words.len() == 0 {
        return None;
    }
    let argpos = words.len() - 1;
    let cmd = words[0].clone();
    let mut args: Vec<String> = Vec::new();
    for i in 1..words.len()
        invariant
            views(args@) == views(words@).subrange(1, i as int),
    {
        let ghost before = args@;
        args.push(words[i].clone());
        assert(views(args@) =~= views(before).push(words@[i as int]@));
        assert(views(args@) =~= views(words@).subrange(1, i + 1));
    }
    assert(views(args@) =~= views(words@).drop_first());
    assert(views(words@)[0] == cmd@);
    Some((cmd, args, argpos))
}

/// `parse_input`, or nothing at all on the inputs on which `argmap` panics.
pub fn parse_input_checked(input: &str) -> (r: Option<Option<(String, Vec<String>, usize)>>)
    ensures
        r is None <==> !parse_input_ok(input@),
        r matches Some(x) ==> (match x {
            None => parse_input_spec(input@) is None,
            Some((cmd, args, pos)) => parse_input_spec(input@) == Some(
                (cmd@, views(args@), pos as int),
            ),
        }),
{
    match split_command_line(input) {
        None => Some(parse_input(input)),
        Some(words) => {
            if !accepts_words(&words) {
                None
            } else {
                Some(parse_input(input))
            }
        },
    }
}

} // verus!
