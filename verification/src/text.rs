use vstd::prelude::*;

verus! {

broadcast use vstd::seq_lib::group_seq_properties;

/// Unicode white space, as `char::is_whitespace` defines it.
pub open spec fn is_ws(c: char) -> bool {
    c == '\t' || c == '\n' || c == '\u{0B}' || c == '\u{0C}' || c == '\r' || c == ' '
        || c == '\u{85}' || c == '\u{A0}' || c == '\u{1680}' || ('\u{2000}' <= c
        && c <= '\u{200A}') || c == '\u{2028}' || c == '\u{2029}' || c == '\u{202F}'
        || c == '\u{205F}' || c == '\u{3000}'
}

/// `is_ws` as a predicate.
pub open spec fn ws() -> spec_fn(char) -> bool {
    |c: char| is_ws(c)
}

/// Whether `c` is white space.
pub fn is_whitespace(c: char) -> (b: bool)
    ensures
        b == is_ws(c),
{
    c == '\t' || c == '\n' || c == '\u{0B}' || c == '\u{0C}' || c == '\r' || c == ' '
        || c == '\u{85}' || c == '\u{A0}' || c == '\u{1680}' || ('\u{2000}' <= c
        && c <= '\u{200A}') || c == '\u{2028}' || c == '\u{2029}' || c == '\u{202F}'
        || c == '\u{205F}' || c == '\u{3000}'
}

/// The characters of `s`, in order.
pub fn chars_of(s: &str) -> (v: Vec<char>)
    ensures
        v@ == s@,
{
    let mut v: Vec<char> = Vec::new();
    for c in it: s.chars()
        invariant
            v@ == it.seq().take(it.index() as int),
    {
        v.push(c);
    }
    v
}

/// The pieces of `s` between separators, empty pieces included: what
/// `str::split` with a character predicate yields.
pub open spec fn pieces(s: Seq<char>, sep: spec_fn(char) -> bool) -> Seq<Seq<char>>
    decreases s.len(),
{
    if s.len() == 0 {
        seq![Seq::<char>::empty()]
    } else {
        let p = pieces(s.drop_last(), sep);
        if sep(s.last()) {
            p.push(Seq::<char>::empty())
        } else {
            p.update(p.len() - 1, p.last().push(s.last()))
        }
    }
}

/// Whether a piece is non-empty.
pub open spec fn nonempty() -> spec_fn(Seq<char>) -> bool {
    |w: Seq<char>| w.len() > 0
}

/// The whitespace-separated words of `s`, as `str::split_whitespace` yields them.
pub open spec fn words(s: Seq<char>) -> Seq<Seq<char>> {
    pieces(s, ws()).filter(nonempty())
}

/// The character views of a sequence of strings.
pub open spec fn views(v: Seq<String>) -> Seq<Seq<char>> {
    v.map_values(|w: String| w@)
}

pub proof fn lemma_pieces_len(s: Seq<char>, sep: spec_fn(char) -> bool)
    ensures
        pieces(s, sep).len() >= 1,
    decreases s.len(),
{
    if s.len() > 0 {
        lemma_pieces_len(s.drop_last(), sep);
    }
}

/// No piece holds a separator.
pub proof fn lemma_pieces_no_sep(s: Seq<char>, sep: spec_fn(char) -> bool)
    ensures
        forall|k: int, i: int|
            0 <= k < pieces(s, sep).len() && 0 <= i < pieces(s, sep)[k].len() ==> !sep(
                #[trigger] pieces(s, sep)[k][i],
            ),
    decreases s.len(),
{
    if s.len() > 0 {
        lemma_pieces_no_sep(s.drop_last(), sep);
        lemma_pieces_len(s.drop_last(), sep);
        let p = pieces(s.drop_last(), sep);
        if !sep(s.last()) {
            assert forall|k: int, i: int|
                0 <= k < pieces(s, sep).len() && 0 <= i < pieces(s, sep)[k].len() implies !sep(
                #[trigger] pieces(s, sep)[k][i],
            ) by {
                if k == p.len() - 1 && i == p.last().len() {
                } else if k == p.len() - 1 {
                    assert(pieces(s, sep)[k][i] == p[k][i]);
                }
            }
        }
    }
}

/// Which separator a splitting function uses.
pub enum Separator {
    Whitespace,
    Slash,
    Colon,
}

/// The predicate that a separator stands for.
pub open spec fn sep_fn(sep: Separator) -> spec_fn(char) -> bool {
    match sep {
        Separator::Whitespace => ws(),
        Separator::Slash => |c: char| c == '/',
        Separator::Colon => |c: char| c == ':',
    }
}

/// Whether `c` is the separator `sep`.
pub fn is_separator(sep: &Separator, c: char) -> (b: bool)
    ensures
        b == sep_fn(*sep)(c),
{
    match sep {
        Separator::Whitespace => is_whitespace(c),
        Separator::Slash => c == '/',
        Separator::Colon => c == ':',
    }
}

/// The string made of the characters `from..to` of `s`.
pub fn substring(s: &str, from: usize, to: usize) -> (r: String)
    requires
        from <= to <= s@.len(),
    ensures
        r@ == s@.subrange(from as int, to as int),
{
    String::from_str(s.substring_char(from, to))
}

/// The pieces of `s` between the separators `sep`, empty ones included.
pub fn split_pieces(s: &str, sep: Separator) -> (r: Vec<String>)
    ensures
        views(r@) == pieces(s@, sep_fn(sep)),
{
    let chars = chars_of(s);
    let n = chars.len();
    let mut done: Vec<String> = Vec::new();
    let mut start: usize = 0;
    let mut i: usize = 0;
    while i < n
        invariant
            chars@ == s@,
            n == s@.len(),
            start <= i <= n,
            views(done@).push(s@.subrange(start as int, i as int)) == pieces(
                s@.take(i as int),
                sep_fn(sep),
            ),
        decreases n - i,
    {
        let c = chars[i];
        let ghost prev = pieces(s@.take(i as int), sep_fn(sep));
        assert(s@.take(i + 1).drop_last() =~= s@.take(i as int));
        if is_separator(&sep, c) {
            let piece = substring(s, start, i);
            let ghost old_done = done@;
            done.push(piece);
            assert(views(done@) =~= views(old_done).push(piece@));
            start = i + 1;
            assert(s@.subrange(start as int, i + 1) =~= Seq::<char>::empty());
            assert(views(done@).push(s@.subrange(start as int, i + 1)) =~= prev.push(
                Seq::<char>::empty(),
            ));
        } else {
            assert(s@.subrange(start as int, i + 1) =~= s@.subrange(start as int, i as int).push(c));
            assert(views(done@).push(s@.subrange(start as int, i + 1)) =~= prev.update(
                prev.len() - 1,
                prev.last().push(c),
            ));
        }
        i = i + 1;
    }
    let last = substring(s, start, n);
    done.push(last);
    assert(s@.take(n as int) =~= s@);
    assert(views(done@) =~= views(done@.drop_last()).push(last@));
    done
}

/// The whitespace-separated words of `s`.
pub fn split_whitespace(s: &str) -> (r: Vec<String>)
    ensures
        views(r@) == words(s@),
{
    let all = split_pieces(s, Separator::Whitespace);
    let mut out: Vec<String> = Vec::new();
    let n = all.len();
    for i in 0..n
        invariant
            n == all@.len(),
            views(out@) == views(all@).take(i as int).filter(nonempty()),
    {
        let w = &all[i];
        assert(views(all@).take(i + 1) =~= views(all@).take(i as int).push(w@));
        if w.unicode_len() > 0 {
            out.push(w.clone());
        }
        assert(views(out@) =~= views(all@).take(i + 1).filter(nonempty())) by {
            views(all@).take(i as int).lemma_filter_push(w@, nonempty());
        }
    }
    assert(views(all@).take(n as int) =~= views(all@));
    out
}


/// `s` without its trailing white space, as `str::trim_end` gives it.
pub open spec fn trim_end(s: Seq<char>) -> Seq<char>
    decreases s.len(),
{
    if s.len() > 0 && is_ws(s.last()) {
        trim_end(s.drop_last())
    } else {
        s
    }
}

/// `s` without its leading white space, as `str::trim_start` gives it.
pub open spec fn trim_start(s: Seq<char>) -> Seq<char>
    decreases s.len(),
{
    if s.len() > 0 && is_ws(s[0]) {
        trim_start(s.drop_first())
    } else {
        s
    }
}

/// `s` without leading and trailing white space, as `str::trim` gives it.
pub open spec fn trim(s: Seq<char>) -> Seq<char> {
    trim_start(trim_end(s))
}

/// The characters of `s` without its trailing white space.
pub fn trim_end_chars(s: &Vec<char>) -> (r: usize)
    ensures
        r <= s@.len(),
        s@.take(r as int) == trim_end(s@),
{
    let mut j = s.len();
    assert(s@.take(j as int) =~= s@);
    while j > 0 && is_whitespace(s[j - 1])
        invariant
            j <= s@.len(),
            trim_end(s@.take(j as int)) == trim_end(s@),
        decreases j,
    {
        assert(s@.take(j - 1) =~= s@.take(j as int).drop_last());
        j = j - 1;
    }
    j
}

/// The position of the first character of `s` that is not white space,
/// or the length of `s` if there is none.
pub fn trim_start_chars(s: &Vec<char>) -> (r: usize)
    ensures
        r <= s@.len(),
        s@.skip(r as int) == trim_start(s@),
{
    let mut i: usize = 0;
    assert(s@.skip(0) =~= s@);
    while i < s.len() && is_whitespace(s[i as usize])
        invariant
            i <= s@.len(),
            trim_start(s@.skip(i as int)) == trim_start(s@),
        decreases s@.len() - i,
    {
        assert(s@.skip(i + 1) =~= s@.skip(i as int).drop_first());
        i = i + 1;
    }
    i
}

/// The number of bytes that UTF-8 takes for `c`.
pub open spec fn utf8_len(c: char) -> nat {
    if (c as u32) < 0x80 {
        1
    } else if (c as u32) < 0x800 {
        2
    } else if (c as u32) < 0x10000 {
        3
    } else {
        4
    }
}

/// The number of bytes that UTF-8 takes for `s`: the `len` of a `str`.
pub open spec fn byte_len(s: Seq<char>) -> nat
    decreases s.len(),
{
    if s.len() == 0 {
        0
    } else {
        byte_len(s.drop_last()) + utf8_len(s.last())
    }
}

/// Whether byte offset `n` of `s` falls on a character boundary.
pub open spec fn is_char_cut(s: Seq<char>, n: int) -> bool {
    exists|j: int| 0 <= j <= s.len() && #[trigger] byte_len(s.take(j)) == n
}

/// The number of characters of `s` that the first `n` bytes hold.
pub open spec fn cut_index(s: Seq<char>, n: int) -> int {
    choose|j: int| 0 <= j <= s.len() && #[trigger] byte_len(s.take(j)) == n
}

/// The first `n` bytes of `s`, as `&s[..n]` gives them.
pub open spec fn byte_prefix(s: Seq<char>, n: int) -> Seq<char> {
    s.take(cut_index(s, n))
}

/// The number of bytes that UTF-8 takes for `c`.
pub fn char_utf8_len(c: char) -> (n: u128)
    ensures
        n == utf8_len(c),
{
    let x = c as u32;
    if x < 0x80 {
        1
    } else if x < 0x800 {
        2
    } else if x < 0x10000 {
        3
    } else {
        4
    }
}

pub proof fn lemma_byte_len_take_mono(s: Seq<char>, a: int, b: int)
    requires
        0 <= a < b <= s.len(),
    ensures
        byte_len(s.take(a)) < byte_len(s.take(b)),
    decreases b - a,
{
    assert(s.take(b).drop_last() =~= s.take(b - 1));
    if a < b - 1 {
        lemma_byte_len_take_mono(s, a, b - 1);
    }
}

pub proof fn lemma_byte_len_concat(a: Seq<char>, b: Seq<char>)
    ensures
        byte_len(a + b) == byte_len(a) + byte_len(b),
    decreases b.len(),
{
    if b.len() == 0 {
        assert(a + b =~= a);
    } else {
        assert((a + b).drop_last() =~= a + b.drop_last());
        lemma_byte_len_concat(a, b.drop_last());
    }
}

/// The number of bytes that UTF-8 takes for `s`.
pub fn bytes_in(s: &Vec<char>) -> (n: u128)
    ensures
        n == byte_len(s@),
{
    let mut n: u128 = 0;
    for i in 0..s.len()
        invariant
            n == byte_len(s@.take(i as int)),
            n <= 4 * i,
    {
        assert(s@.take(i + 1).drop_last() =~= s@.take(i as int));
        n = n + char_utf8_len(s[i]);
    }
    assert(s@.take(s@.len() as int) =~= s@);
    n
}

/// The number of characters that the first `n` bytes of `s` hold, when byte
/// `n` falls on a character boundary.
pub fn char_cut(s: &Vec<char>, n: u128) -> (r: Option<usize>)
    ensures
        r is Some <==> is_char_cut(s@, n as int),
        r matches Some(j) ==> j == cut_index(s@, n as int) && j <= s@.len() && byte_len(
            s@.take(j as int),
        ) == n,
{
    let mut j: usize = 0;
    let mut acc: u128 = 0;
    while j < s.len() && acc < n
        invariant
            j <= s@.len(),
            acc == byte_len(s@.take(j as int)),
            acc <= 4 * j,
            forall|k: int| 0 <= k < j ==> byte_len(#[trigger] s@.take(k)) < n,
        decreases s@.len() - j,
    {
        assert(s@.take(j + 1).drop_last() =~= s@.take(j as int));
        acc = acc + char_utf8_len(s[j]);
        j = j + 1;
    }
    if acc == n {
        proof {
            assert forall|k: int| 0 <= k <= s@.len() && #[trigger] byte_len(s@.take(k)) == n implies k == j by {
                if k < j {
                } else if k > j {
                    lemma_byte_len_take_mono(s@, j as int, k);
                }
            }
        }
        Some(j)
    } else {
        proof {
            assert forall|k: int| 0 <= k <= s@.len() implies #[trigger] byte_len(s@.take(k)) != n by {
                if k > j {
                    lemma_byte_len_take_mono(s@, j as int, k);
                } else if k == j {
                } else {
                }
            }
        }
        None
    }
}


/// The characters `0..j` of `v` as a string, given that `v` holds the characters of `s`.
fn prefix_string(s: &str, v: &Vec<char>, j: usize) -> (r: String)
    requires
        v@ == s@,
        j <= v@.len(),
    ensures
        r@ == s@.take(j as int),
{
    substring(s, 0, j)
}

/// `s` without its trailing white space.
pub fn trimmed_end(s: &str) -> (r: String)
    ensures
        r@ == trim_end(s@),
{
    let v = chars_of(s);
    let e = trim_end_chars(&v);
    prefix_string(s, &v, e)
}

/// `s` without leading and trailing white space.
pub fn trimmed(s: &str) -> (r: String)
    ensures
        r@ == trim(s@),
{
    let t = trimmed_end(s);
    let v = chars_of(t.as_str());
    let b = trim_start_chars(&v);
    let r = substring(t.as_str(), b, v.len());
    assert(r@ =~= t@.skip(b as int));
    r
}

/// The first `n` bytes of `s`, which must end on a character boundary.
pub fn byte_prefix_of(s: &str, n: u128) -> (r: String)
    requires
        is_char_cut(s@, n as int),
    ensures
        r@ == byte_prefix(s@, n as int),
{
    let v = chars_of(s);
    let j = char_cut(&v, n).unwrap();
    prefix_string(s, &v, j)
}

/// The number of bytes of `s`.
pub fn byte_count(s: &str) -> (n: u128)
    ensures
        n == byte_len(s@),
{
    let v = chars_of(s);
    bytes_in(&v)
}

/// Whether byte offset `n` of `s` falls on a character boundary.
pub fn is_cut(s: &str, n: u128) -> (b: bool)
    ensures
        b == is_char_cut(s@, n as int),
{
    let v = chars_of(s);
    char_cut(&v, n).is_some()
}

/// Whether `s` starts with `prefix`.
pub fn starts_with(s: &str, prefix: &str) -> (b: bool)
    ensures
        b == prefix@.is_prefix_of(s@),
{
    let a = chars_of(s);
    let p = chars_of(prefix);
    if p.len() > a.len() {
        return false;
    }
    for i in 0..p.len()
        invariant
            p@ == prefix@,
            a@ == s@,
            p@.len() <= a@.len(),
            forall|k: int| 0 <= k < i ==> p@[k] == a@[k],
    {
        if p[i] != a[i] {
            return false;
        }
    }
    assert(prefix@ =~= s@.take(prefix@.len() as int));
    true
}

/// Whether `s` starts with the character `c`.
pub fn starts_with_char(s: &str, c: char) -> (b: bool)
    ensures
        b == (s@.len() > 0 && s@[0] == c),
{
    s.unicode_len() > 0 && s.get_char(0) == c
}

/// Whether `s` ends with the character `c`.
pub fn ends_with_char(s: &str, c: char) -> (b: bool)
    ensures
        b == (s@.len() > 0 && s@.last() == c),
{
    let n = s.unicode_len();
    n > 0 && s.get_char(n - 1) == c
}

/// The last whitespace-separated word of `s`, if it has one.
pub fn last_word(s: &str) -> (r: Option<String>)
    ensures
        r is Some <==> words(s@).len() > 0,
        r matches Some(w) ==> w@ == words(s@).last(),
{
    let ws = split_whitespace(s);
    let n = ws.len();
    if n == 0 {
        None
    } else {
        assert(views(ws@)[n - 1] == ws@[n - 1]@);
        Some(ws[n - 1].clone())
    }
}

} // verus!
