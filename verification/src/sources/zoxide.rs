use vstd::prelude::*;
use crate::paths::{
    common_components, common_prefix, components, file_name, file_name_of, opt_view,
    path_components, pop_components, same_components,
};
use crate::sources::Source;
use crate::text::{
    byte_count, byte_len, byte_prefix, byte_prefix_of, is_char_cut, is_cut, last_word,
    is_ws, lemma_pieces_no_sep, pieces, split_whitespace, trim, trim_end, trimmed, trimmed_end,
    views, words, ws,
};

verus! {

broadcast use vstd::seq_lib::group_seq_properties;

/// Suggests directories that `zoxide` knows.
#[derive(Clone, Copy)]
pub struct Zoxide;

/// What to ask `zoxide` for, and the text that stays before the answer.
pub struct ZoxideQuery {
    /// The last word of the input, to be looked up.
    pub search: String,
    /// The input before the last word, trimmed.
    pub rest: String,
}

/// The word to look up: the last word of `word`.
pub open spec fn zoxide_search(word: Seq<char>) -> Seq<char> {
    trim_end(words(word).last())
}

/// Whether the text before the word to look up ends on a character boundary;
/// when it does not, slicing the input there panics.
pub open spec fn zoxide_cut_ok(word: Seq<char>) -> bool {
    words(word).len() > 0 ==> is_char_cut(
        word,
        byte_len(word) - byte_len(zoxide_search(word)),
    )
}

/// The text before the word to look up: the input cut as many bytes before
/// its end as the word has, then trimmed.
pub open spec fn zoxide_rest(word: Seq<char>) -> Seq<char> {
    trim(byte_prefix(word, byte_len(word) - byte_len(zoxide_search(word))))
}

/// The suggestion made from the directory `res` that `zoxide` answered, with
/// `pwd` the current directory: the last component of `res` after the part
/// it shares with `pwd` (one component less of it when it is all of either
/// path), after `rest` and a space when `rest` is not empty.
pub open spec fn zoxide_suggestion_spec(rest: Seq<char>, res: Seq<char>, pwd: Seq<char>) -> Option<
    Seq<char>,
> {
    let cr = components(res);
    let cp = components(pwd);
    let common = common_prefix(cr, cp);
    let kept = if common == cr || common == cp {
        pop_components(common)
    } else {
        common
    };
    match file_name(cr.skip(kept.len() as int)) {
        None => None,
        Some(name) => if rest.len() == 0 {
            Some(name)
        } else {
            Some(rest + seq![' '] + name)
        },
    }
}

/// The word looked up is the last whitespace-separated word of the input, as
/// it stands: it is not empty and holds no white space.
pub proof fn lemma_zoxide_search_is_last_word(word: Seq<char>)
    requires
        words(word).len() > 0,
    ensures
        zoxide_search(word) == words(word).last(),
        zoxide_search(word).len() > 0,
        forall|i: int| 0 <= i < zoxide_search(word).len() ==> !is_ws(#[trigger] zoxide_search(word)[i]),
{
    let p = pieces(word, ws());
    let f = words(word);
    let w = f.last();
    lemma_pieces_no_sep(word, ws());
    broadcast use vstd::seq_lib::group_filter_ensures;
    assert(f.contains(w));
    p.lemma_filter_contains_rev(crate::text::nonempty(), w);
    assert(p.contains(w));
    let k = choose|k: int| 0 <= k < p.len() && p[k] == w;
    assert forall|i: int| 0 <= i < w.len() implies !is_ws(#[trigger] w[i]) by {
        assert(!ws()(p[k][i]));
    }
    assert(w.len() > 0);
    assert(!is_ws(w.last()));
}

impl Zoxide {
    /// Whether `query` can cut the input `word` without panicking.
    pub fn can_query(word: &str) -> (b: bool)
        ensures
            b == zoxide_cut_ok(word@),
    {
        match last_word(word) {
            None => true,
            Some(w) => {
                let search = trimmed_end(w.as_str());
                let total = byte_count(word);
                let sb = byte_count(search.as_str());
                if total < sb {
                    assert(!is_char_cut(word@, byte_len(word@) - byte_len(search@)));
                    false
                } else {
                    is_cut(word, total - sb)
                }
            },
        }
    }

    /// Whether the paths `res` and `pwd` share a first component, which
    /// `suggestion` needs.
    pub fn shares_start(res: &str, pwd: &str) -> (b: bool)
        ensures
            b == (common_prefix(components(res@), components(pwd@)).len() > 0),
    {
        common_components(res, pwd).is_some()
    }

    /// The word to look up and the text before it; nothing when the input has no word.
    pub fn query(word: &str) -> (r: Option<ZoxideQuery>)
        requires
            zoxide_cut_ok(word@),
        ensures
            r is None <==> words(word@).len() == 0,
            r matches Some(q) ==> q.search@ == zoxide_search(word@) && q.rest@ == zoxide_rest(
                word@,
            ),
    {
        let w = last_word(word)?;
        let search = trimmed_end(w.as_str());
        let total = byte_count(word);
        let sb = byte_count(search.as_str());
        let before = byte_prefix_of(word, total - sb);
        let rest = trimmed(before.as_str());
        Some(ZoxideQuery { search, rest })
    }

    /// The suggestion made from the answer `res` of `zoxide` in the current directory `pwd`.
    pub fn suggestion(rest: &str, res: &str, pwd: &str) -> (r: Option<String>)
        requires
            common_prefix(components(res@), components(pwd@)).len() > 0,
        ensures
            opt_view(r) == zoxide_suggestion_spec(rest@, res@, pwd@),
    {
        let cr = path_components(res);
        let cp = path_components(pwd);
        let common = common_components(res, pwd).unwrap();
        let n = common.len();
        let kept_len = if same_components(&common, &cr) || same_components(&common, &cp) {
            if n == 0 || is_root_component(&common[n - 1]) {
                n
            } else {
                n - 1
            }
        } else {
            n
        };
        proof {
            let kept = if views(common@) == components(res@) || views(common@) == components(pwd@) {
                pop_components(views(common@))
            } else {
                views(common@)
            };
            assert(kept.len() == kept_len);
            crate::paths::lemma_common_prefix(components(res@), components(pwd@));
        }
        let mut tail: Vec<String> = Vec::new();
        for i in kept_len..cr.len()
            invariant
                kept_len <= cr@.len(),
                views(tail@) == views(cr@).subrange(kept_len as int, i as int),
        {
            let ghost before = tail@;
            tail.push(cr[i].clone());
            assert(views(tail@) =~= views(before).push(cr@[i as int]@));
            assert(views(tail@) =~= views(cr@).subrange(kept_len as int, i + 1));
        }
        assert(views(tail@) =~= views(cr@).skip(kept_len as int));
        let name = file_name_of(&tail)?;
        if rest.unicode_len() == 0 {
            Some(name)
        } else {
            proof {
                reveal_strlit(" ");
            }
            Some(String::from_str(rest).concat(" ").concat(name.as_str()))
        }
    }
}

/// Whether `w` is the root component `/`.
fn is_root_component(w: &String) -> (b: bool)
    ensures
        b == (w@ == seq!['/']),
{
    if w.unicode_len() == 1 && w.as_str().get_char(0) == '/' {
        assert(w@ =~= seq!['/']);
        true
    } else {
        false
    }
}

impl Source for Zoxide {
    open spec fn spec_cond(&self, word: Seq<char>) -> bool {
        words(word).len() > 1
    }

    open spec fn spec_priority(&self) -> usize {
        0
    }

    fn cond(&self, word: &str) -> (enabled: bool) {
        split_whitespace(word).len() > 1
    }

    fn priority(&self) -> (p: usize) {
        0
    }
}

} // verus!
