use vstd::prelude::*;
use crate::sources::Source;
use crate::text::{
    byte_count, byte_len, byte_prefix, byte_prefix_of, is_char_cut, is_cut, pieces, sep_fn,
    split_pieces, starts_with, views, Separator,
};

verus! {

/// Suggests programs found in the directories of `PATH`.
#[derive(Clone, Copy)]
pub struct Path;

/// The number of leading bytes of the search that program names must share.
pub open spec fn prefix_bytes(search: Seq<char>) -> int {
    if byte_len(search) < 2 {
        byte_len(search) as int
    } else {
        2
    }
}

/// Whether a name starts with `start`.
pub open spec fn has_prefix(start: Seq<char>) -> spec_fn(Seq<char>) -> bool {
    |w: Seq<char>| start.is_prefix_of(w)
}

/// The names kept are exactly the names that start with `start`, a name
/// equal to `start` included, in their order.
pub proof fn lemma_matching_names_are_prefixed(names: Seq<Seq<char>>, start: Seq<char>)
    ensures
        forall|w: Seq<char>|
            #[trigger] names.filter(has_prefix(start)).contains(w) <==> names.contains(w)
                && start.is_prefix_of(w),
        names.filter(has_prefix(start)).contains(start) <==> names.contains(start),
{
    broadcast use vstd::seq_lib::group_filter_ensures;
    let pred = has_prefix(start);
    assert forall|w: Seq<char>| #[trigger] names.filter(pred).contains(w) <==> names.contains(w)
        && start.is_prefix_of(w) by {
        if names.filter(pred).contains(w) {
            names.lemma_filter_contains_rev(pred, w);
        }
        if names.contains(w) && start.is_prefix_of(w) {
            let k = choose|k: int| 0 <= k < names.len() && names[k] == w;
            assert(pred(names[k]));
        }
    }
    assert(start.is_prefix_of(start));
}

impl Path {
    /// The directories listed in the value `path_var` of `PATH`: the pieces
    /// between its `:`, empty ones included.
    pub fn directories(path_var: &str) -> (r: Vec<String>)
        ensures
            views(r@) == pieces(path_var@, sep_fn(Separator::Colon)),
    {
        split_pieces(path_var, Separator::Colon)
    }

    /// Whether the first bytes of `search` that names are matched on end on a
    /// character boundary; when they do not, slicing there panics.
    pub fn can_prefix(search: &str) -> (b: bool)
        ensures
            b == is_char_cut(search@, prefix_bytes(search@)),
    {
        let n = byte_count(search);
        let k: u128 = if n < 2 {
            n
        } else {
            2
        };
        is_cut(search, k)
    }

    /// The start that program names must have: the first two bytes of
    /// `search`, or all of it when it is shorter.
    pub fn name_prefix(search: &str) -> (r: String)
        requires
            is_char_cut(search@, prefix_bytes(search@)),
        ensures
            r@ == byte_prefix(search@, prefix_bytes(search@)),
    {
        let n = byte_count(search);
        let k: u128 = if n < 2 {
            n
        } else {
            2
        };
        byte_prefix_of(search, k)
    }

    /// The names among `names` that start with `start`, in order.
    pub fn matching_names(names: Vec<String>, start: &str) -> (r: Vec<String>)
        ensures
            views(r@) == views(names@).filter(has_prefix(start@)),
    {
        let ghost pred = has_prefix(start@);
        let mut out: Vec<String> = Vec::new();
        let n = names.len();
        for i in 0..n
            invariant
                n == names@.len(),
                pred == has_prefix(start@),
                views(out@) == views(names@).take(i as int).filter(pred),
        {
            let w = &names[i];
            assert(views(names@).take(i + 1) =~= views(names@).take(i as int).push(w@));
            let ghost before = out@;
            let keep = starts_with(w.as_str(), start);
            assert(keep == pred(w@));
            if keep {
                out.push(w.clone());
                assert(views(out@) =~= views(before).push(w@));
            } else {
                assert(views(out@) =~= views(before));
            }
            proof {
                views(names@).take(i as int).lemma_filter_push(w@, pred);
                assert(views(out@) =~= views(names@).take(i + 1).filter(pred));
            }
        }
        assert(views(names@).take(n as int) =~= views(names@));
        out
    }
}

impl Source for Path {
    open spec fn spec_cond(&self, word: Seq<char>) -> bool {
        true
    }

    open spec fn spec_priority(&self) -> usize {
        0
    }

    fn cond(&self, word: &str) -> (enabled: bool) {
        true
    }

    fn priority(&self) -> (p: usize) {
        0
    }
}

} // verus!
