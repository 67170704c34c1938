//! Expanding a leading `~` of a path to the home directory, and the reverse.

use vstd::prelude::*;
use crate::paths::{
    components, cur_comp, has_cur_dir, has_root, is_component_prefix, is_normal, join, join_path,
    lemma_components_join, lemma_components_valid, lemma_push_components, lemma_strip_components,
    normal_part, opt_view, path_components, push_path, root_comp, root_string, same_components,
    slash,
    strip_components, strip_components_of,
};
use crate::text::{pieces, views};

verus! {

broadcast use vstd::seq_lib::group_seq_properties;

/// The component `~`.
pub open spec fn tilde() -> Seq<char> {
    seq!['~']
}

/// Whether the path `p` starts with the component `~`.
pub open spec fn starts_with_tilde(p: Seq<char>) -> bool {
    components(p).len() >= 1 && components(p)[0] == tilde()
}

/// The path `p` with a leading `~` replaced by the home directory `home`:
/// `p` itself when it does not start with `~`; `home` when it is `~`; otherwise
/// what follows the `~` in `p`, pushed onto `home`, or after a single `/`
/// when `home` is the root directory.
pub open spec fn expand_spec(p: Seq<char>, home: Option<Seq<char>>) -> Option<Seq<char>> {
    let cp = components(p);
    if !starts_with_tilde(p) {
        Some(p)
    } else if cp.len() == 1 {
        home
    } else {
        match home {
            None => None,
            Some(h) => if components(h) == seq![root_comp()] {
                Some(seq!['/'] + strip_components(p, 1))
            } else {
                Some(push_path(h, strip_components(p, 1)))
            },
        }
    }
}

/// The path `p` with a leading home directory replaced by `~`: `p` itself when
/// it does not start with `home`; `~` when it is the home directory as looked
/// up again (`home_again`); otherwise `~` with what follows the home directory
/// in `p` pushed onto it.
/// No home directory at either lookup gives nothing.
pub open spec fn unexpand_spec(
    p: Seq<char>,
    home: Option<Seq<char>>,
    home_again: Option<Seq<char>>,
) -> Option<Seq<char>> {
    match home {
        None => None,
        Some(h) => {
            let ch = components(h);
            let cp = components(p);
            if !ch.is_prefix_of(cp) {
                Some(p)
            } else {
                match home_again {
                    None => None,
                    Some(h2) => if cp == components(h2) {
                        Some(tilde())
                    } else {
                        Some(push_path(tilde(), strip_components(p, ch.len() as int)))
                    },
                }
            }
        }
    }
}

/// The characters of an optional string slice.
pub open spec fn opt_str_view(s: Option<&str>) -> Option<Seq<char>> {
    match s {
        Some(x) => Some(x@),
        None => None,
    }
}

/// The one-character string `~`.
fn tilde_string() -> (r: String)
    ensures
        r@ == tilde(),
{
    proof {
        reveal_strlit("~");
    }
    String::from_str("~")
}

/// Whether `w` is `~`.
fn is_tilde(w: &String) -> (b: bool)
    ensures
        b == (w@ == tilde()),
{
    if w.unicode_len() == 1 {
        let c = w.as_str().get_char(0);
        if c == '~' {
            assert(w@ =~= tilde());
            true
        } else {
            false
        }
    } else {
        false
    }
}

/// `p` with a leading `~` expanded to `home`.
pub fn expand_with_home(p: &str, home: Option<&str>) -> (r: Option<String>)
    ensures
        opt_view(r) == expand_spec(p@, opt_str_view(home)),
{
    let cp = path_components(p);
    if !(cp.len() >= 1 && is_tilde(&cp[0])) {
        return Some(String::from_str(p));
    }
    if cp.len() == 1 {
        return match home {
            Some(h) => Some(String::from_str(h)),
            None => None,
        };
    }
    match home {
        None => None,
        Some(h) => {
            let x = strip_components_of(p, 1);
            let ch = path_components(h);
            if ch.len() == 1 && is_root(&ch[0]) {
                assert(views(ch@) =~= seq![root_comp()]);
                let mut r = root_string();
                r.append(x.as_str());
                Some(r)
            } else {
                assert(views(ch@) != seq![root_comp()]) by {
                    if views(ch@) == seq![root_comp()] {
                        assert(views(ch@)[0] == ch@[0]@);
                    }
                }
                Some(join_path(h, x.as_str()))
            }
        }
    }
}

/// Whether `w` is `/`.
fn is_root(w: &String) -> (b: bool)
    ensures
        b == (w@ == root_comp()),
{
    if w.unicode_len() == 1 {
        let c = w.as_str().get_char(0);
        if c == '/' {
            assert(w@ =~= root_comp());
            true
        } else {
            false
        }
    } else {
        false
    }
}

/// `p` with a leading home directory abbreviated to `~`; `home` is the home
/// directory as first looked up, `home_again` as looked up a second time.
pub fn unexpand_with_home(p: &str, home: Option<&str>, home_again: Option<&str>) -> (r: Option<
    String,
>)
    ensures
        opt_view(r) == unexpand_spec(p@, opt_str_view(home), opt_str_view(home_again)),
{
    match home {
        None => None,
        Some(h) => {
            let ch = path_components(h);
            let cp = path_components(p);
            if !is_component_prefix(&ch, &cp) {
                return Some(String::from_str(p));
            }
            match home_again {
                None => None,
                Some(h2) => {
                    let ch2 = path_components(h2);
                    if same_components(&cp, &ch2) {
                        Some(tilde_string())
                    } else {
                        let x = strip_components_of(p, ch.len());
                        let t = tilde_string();
                        Some(join_path(t.as_str(), x.as_str()))
                    }
                }
            }
        }
    }
}

/// Expanding leaves a path that does not start with `~` as it is, whatever
/// the home directory.
pub proof fn lemma_expand_plain(p: Seq<char>, home: Option<Seq<char>>)
    requires
        !starts_with_tilde(p),
    ensures
        expand_spec(p, home) == Some(p),
{
}

/// Abbreviating `~` undoes expanding it: for a path that starts with `~`,
/// unexpanding the expanded path gives back a path with the same components.
pub proof fn lemma_unexpand_expand(p: Seq<char>, home: Seq<char>)
    requires
        starts_with_tilde(p),
    ensures
        expand_spec(p, Some(home)) is Some,
        unexpand_spec(expand_spec(p, Some(home)).unwrap(), Some(home), Some(home)) is Some,
        components(
            unexpand_spec(expand_spec(p, Some(home)).unwrap(), Some(home), Some(home)).unwrap(),
        ) == components(p),
{
    let cp = components(p);
    assert(is_normal(tilde())) by {
        assert(tilde()[0] != seq!['.'][0]);
        assert(tilde() != seq!['.']);
    }
    assert(is_normal(seq![tilde()][0]));
    lemma_components_join(seq![tilde()]);
    assert(join(seq![tilde()]) == tilde());
    if cp.len() == 1 {
        assert(cp =~= seq![tilde()]);
    } else {
        let rest = cp.skip(1);
        let x = strip_components(p, 1);
        lemma_strip_components(p, 1);
        let e = expand_spec(p, Some(home)).unwrap();
        lemma_expanded_components(home, x);
        let ch = components(home);
        assert(components(e) =~= ch + rest);
        assert(ch.is_prefix_of(components(e)));
        assert(components(e) != ch) by {
            assert(components(e).len() == ch.len() + rest.len());
        }
        let y = strip_components(e, ch.len() as int);
        lemma_strip_components(e, ch.len() as int);
        assert(components(y) =~= rest);
        lemma_components_valid(p);
        assert(is_normal(cp[1]));
        assert(rest[0] == cp[1]);
        assert(rest[0] != root_comp()) by {
            assert(rest[0][0] != '/');
        }
        assert(rest[0] != cur_comp());
        lemma_leading_normal(y);
        lemma_push_components(tilde(), y);
        assert(components(tilde()) + rest =~= cp);
    }
}

/// Expanding `~` undoes abbreviating it: for a path under a home directory
/// that has components, expanding the abbreviated path gives back a path with
/// the same components.
pub proof fn lemma_expand_unexpand(p: Seq<char>, home: Seq<char>)
    requires
        components(home).is_prefix_of(components(p)),
        components(home).len() >= 1,
    ensures
        unexpand_spec(p, Some(home), Some(home)) is Some,
        expand_spec(unexpand_spec(p, Some(home), Some(home)).unwrap(), Some(home)) is Some,
        components(
            expand_spec(unexpand_spec(p, Some(home), Some(home)).unwrap(), Some(home)).unwrap(),
        ) == components(p),
{
    let cp = components(p);
    let ch = components(home);
    assert(is_normal(tilde())) by {
        assert(tilde()[0] != seq!['.'][0]);
        assert(tilde() != seq!['.']);
    }
    assert(is_normal(seq![tilde()][0]));
    lemma_components_join(seq![tilde()]);
    assert(join(seq![tilde()]) == tilde());
    assert(starts_with_tilde(tilde()));
    if cp != ch {
        let k = ch.len() as int;
        assert(cp.len() > k) by {
            if cp.len() == k {
                assert(cp =~= ch);
            }
        }
        let rest = cp.skip(k);
        let y = strip_components(p, k);
        lemma_strip_components(p, k);
        let u = push_path(tilde(), y);
        lemma_push_components(tilde(), y);
        assert(components(u) =~= seq![tilde()] + rest);
        assert(starts_with_tilde(u));
        let x = strip_components(u, 1);
        lemma_strip_components(u, 1);
        assert(components(x) =~= rest);
        lemma_components_valid(p);
        assert(is_normal(cp[k]));
        assert(rest[0] == cp[k]);
        assert(rest[0] != root_comp()) by {
            assert(rest[0][0] != '/');
        }
        assert(rest[0] != cur_comp());
        lemma_leading_normal(x);
        lemma_expanded_components(home, x);
        assert(ch + rest =~= cp);
    }
}

/// With a home directory, expanding never fails: a path that starts with
/// `~` gives a path that no longer does (for a home that does not itself
/// start with `~`), and any other path comes back as it is.
pub proof fn lemma_expand_with_home_succeeds(p: Seq<char>, home: Seq<char>)
    requires
        components(home).len() >= 1,
        components(home)[0] != tilde(),
    ensures
        expand_spec(p, Some(home)) is Some,
        !starts_with_tilde(expand_spec(p, Some(home)).unwrap()),
        !starts_with_tilde(p) ==> expand_spec(p, Some(home)) == Some(p),
{
    let cp = components(p);
    if starts_with_tilde(p) && cp.len() > 1 {
        let x = strip_components(p, 1);
        lemma_strip_components(p, 1);
        lemma_components_valid(p);
        assert(is_normal(cp[1]));
        assert(components(x)[0] == cp[1]);
        assert(components(x)[0] != root_comp()) by {
            assert(cp[1][0] != '/');
        }
        lemma_leading_normal(x);
        lemma_expanded_components(home, x);
        let e = expand_spec(p, Some(home)).unwrap();
        assert(components(e)[0] == components(home)[0]);
    }
}

/// Expanding twice is expanding once, for a home directory that has
/// components and does not itself start with `~`.
pub proof fn lemma_expand_idempotent(p: Seq<char>, home: Seq<char>)
    requires
        components(home).len() >= 1,
        components(home)[0] != tilde(),
    ensures
        expand_spec(p, Some(home)) is Some,
        expand_spec(expand_spec(p, Some(home)).unwrap(), Some(home)) == expand_spec(p, Some(home)),
{
    let cp = components(p);
    if starts_with_tilde(p) && cp.len() > 1 {
        let x = strip_components(p, 1);
        lemma_strip_components(p, 1);
        lemma_components_valid(p);
        assert(is_normal(cp[1]));
        assert(components(x)[0] == cp[1]);
        assert(components(x)[0] != root_comp()) by {
            assert(cp[1][0] != '/');
        }
        lemma_leading_normal(x);
        lemma_expanded_components(home, x);
        let e = expand_spec(p, Some(home)).unwrap();
        assert(components(e)[0] == components(home)[0]);
    }
}

/// Abbreviating twice is abbreviating once, for a home directory that
/// starts at the root.
pub proof fn lemma_unexpand_idempotent(p: Seq<char>, home: Seq<char>)
    requires
        has_root(home),
    ensures
        unexpand_spec(p, Some(home), Some(home)) is Some,
        unexpand_spec(unexpand_spec(p, Some(home), Some(home)).unwrap(), Some(home), Some(home))
            == unexpand_spec(p, Some(home), Some(home)),
{
    let cp = components(p);
    let ch = components(home);
    assert(ch[0] == root_comp());
    assert(is_normal(tilde())) by {
        assert(tilde()[0] != seq!['.'][0]);
        assert(tilde() != seq!['.']);
    }
    assert(is_normal(seq![tilde()][0]));
    lemma_components_join(seq![tilde()]);
    assert(join(seq![tilde()]) == tilde());
    assert(root_comp() != tilde()) by {
        assert(root_comp()[0] != tilde()[0]);
    }
    if ch.is_prefix_of(cp) {
        if cp == ch {
            assert(!ch.is_prefix_of(components(tilde()))) by {
                assert(components(tilde())[0] == tilde());
            }
        } else {
            let k = ch.len() as int;
            assert(cp.len() > k) by {
                if cp.len() == k {
                    assert(cp =~= ch);
                }
            }
            let y = strip_components(p, k);
            lemma_strip_components(p, k);
            lemma_push_components(tilde(), y);
            let u = push_path(tilde(), y);
            assert(components(u)[0] == tilde());
            assert(!ch.is_prefix_of(components(u))) by {
                assert(components(u)[0] != ch[0]);
            }
        }
    }
}

/// The components of a relative path `x` put after the home directory
/// `home` as expanding does: those of `home`, then those of `x`.
proof fn lemma_expanded_components(home: Seq<char>, x: Seq<char>)
    requires
        x.len() > 0,
        x[0] != '/',
        !has_cur_dir(x),
    ensures
        components(
            if components(home) == seq![root_comp()] {
                seq!['/'] + x
            } else {
                push_path(home, x)
            },
        ) == components(home) + components(x),
{
    if components(home) == seq![root_comp()] {
        let r = seq!['/'];
        assert(r + x =~= push_path(r, x));
        lemma_push_components(r, x);
        assert(r.drop_last() =~= Seq::<char>::empty());
        assert(pieces(r.drop_last(), slash()) == seq![Seq::<char>::empty()]);
        assert(pieces(r, slash()) =~= seq![Seq::<char>::empty(), Seq::<char>::empty()]);
        assert forall|t: int| 0 <= t < pieces(r, slash()).len() implies !normal_part()(
            #[trigger] pieces(r, slash())[t],
        ) by {}
        pieces(r, slash()).lemma_all_neg_filter_empty(normal_part());
        assert(components(r) =~= seq![root_comp()]);
    } else {
        lemma_push_components(home, x);
    }
}

/// A path whose first component is normal does not start with `/` or with
/// the current directory.
proof fn lemma_leading_normal(y: Seq<char>)
    requires
        components(y).len() >= 1,
        components(y)[0] != root_comp(),
        components(y)[0] != cur_comp(),
    ensures
        y.len() > 0,
        y[0] != '/',
        !has_cur_dir(y),
{
    if y.len() == 0 {
        assert(pieces(y, slash()) =~= seq![Seq::<char>::empty()]);
        reveal(Seq::filter);
        assert(pieces(y, slash()).filter(normal_part()) =~= Seq::<Seq<char>>::empty());
    }
}

/// What a lookup of the home directory can give: nothing, or a non-empty path.
pub open spec fn found_home(home: Option<Seq<char>>) -> bool {
    home is None || home->0.len() > 0
}

/// Expands and abbreviates the home directory in paths.
pub trait ExpandHome {
    /// The path with a leading `~` expanded to the home directory.
    fn expand(&self) -> Option<String>;

    /// The path with a leading home directory abbreviated to `~`.
    fn unexpand(&self) -> Option<String>;
}

/// `dirs::home_dir`: the current user's home directory, if one can be found.
/// It reads the environment, so of what comes back only this is stated: on
/// Unix the crate never gives an empty path.
#[verifier::external_body]
fn home_dir() -> (r: Option<String>)
    ensures
        r matches Some(h) ==> h@.len() > 0,
{
    match dirs::home_dir() {
        Some(h) => Some(h.to_string_lossy().into_owned()),
        None => None,
    }
}

impl ExpandHome for str {
    fn expand(&self) -> (r: Option<String>)
        ensures
            exists|home: Option<Seq<char>>|
                found_home(home) && opt_view(r) == #[trigger] expand_spec(self@, home),
    {
        let home = home_dir();
        let r = match &home {
            Some(h) => expand_with_home(self, Some(h.as_str())),
            None => expand_with_home(self, None),
        };
        assert(opt_view(r) == expand_spec(self@, opt_view(home)));
        r
    }

    fn unexpand(&self) -> (r: Option<String>)
        ensures
            exists|home: Option<Seq<char>>, home_again: Option<Seq<char>>|
                found_home(home) && found_home(home_again) && opt_view(r)
                    == #[trigger] unexpand_spec(self@, home, home_again),
    {
        let home = home_dir();
        let h = match &home {
            Some(h) => h,
            None => {
                assert(unexpand_spec(self@, None, None) == None::<Seq<char>>);
                return None;
            },
        };
        if !is_component_prefix(&path_components(h.as_str()), &path_components(self)) {
            let r = unexpand_with_home(self, Some(h.as_str()), None);
            assert(opt_view(r) == unexpand_spec(self@, Some(h@), None));
            return r;
        }
        let again = home_dir();
        let r = match &again {
            Some(h2) => unexpand_with_home(self, Some(h.as_str()), Some(h2.as_str())),
            None => unexpand_with_home(self, Some(h.as_str()), None),
        };
        assert(opt_view(r) == unexpand_spec(self@, Some(h@), opt_view(again)));
        r
    }
}

} // verus!
