//! Paths as sequences of components, with the meaning that `std::path` gives
//! them on Unix: a leading `/` is the root, a leading `.` alone or before a
//! `/` is the current directory, empty and other `.` parts are dropped.

use vstd::prelude::*;
use crate::text::{
    chars_of, lemma_pieces_len, lemma_pieces_no_sep, pieces, sep_fn, split_pieces, substring, views,
    Separator,
};

verus! {

broadcast use vstd::seq_lib::group_seq_properties;

/// The separator of path parts.
pub open spec fn slash() -> spec_fn(char) -> bool {
    sep_fn(Separator::Slash)
}

/// A part that stands as a component of its own: not empty and not `.`.
pub open spec fn normal_part() -> spec_fn(Seq<char>) -> bool {
    |w: Seq<char>| w.len() > 0 && w != seq!['.']
}

/// The component that stands for the root directory.
pub open spec fn root_comp() -> Seq<char> {
    seq!['/']
}

/// The component that stands for the current directory.
pub open spec fn cur_comp() -> Seq<char> {
    seq!['.']
}

pub open spec fn has_root(s: Seq<char>) -> bool {
    s.len() > 0 && s[0] == '/'
}

pub open spec fn has_cur_dir(s: Seq<char>) -> bool {
    !has_root(s) && s.len() > 0 && s[0] == '.' && (s.len() == 1 || s[1] == '/')
}

/// The components of the path `s`, as `Path::components` yields them, each
/// written as the string it stands for.
pub open spec fn components(s: Seq<char>) -> Seq<Seq<char>> {
    (if has_root(s) {
        seq![root_comp()]
    } else {
        Seq::<Seq<char>>::empty()
    }) + (if has_cur_dir(s) {
        seq![cur_comp()]
    } else {
        Seq::<Seq<char>>::empty()
    }) + pieces(s, slash()).filter(normal_part())
}

/// The parts `ws` joined by `/`.
pub open spec fn join(ws: Seq<Seq<char>>) -> Seq<char>
    decreases ws.len(),
{
    if ws.len() == 0 {
        Seq::<char>::empty()
    } else if ws.len() == 1 {
        ws[0]
    } else {
        join(ws.drop_last()) + seq!['/'] + ws.last()
    }
}

/// The path written from the components `cs`.
pub open spec fn render(cs: Seq<Seq<char>>) -> Seq<char> {
    if cs.len() > 0 && cs[0] == root_comp() {
        seq!['/'] + join(cs.drop_first())
    } else {
        join(cs)
    }
}

/// `base` with `name` pushed onto it, as `PathBuf::push` and `Path::join` do on Unix.
pub open spec fn push_path(base: Seq<char>, name: Seq<char>) -> Seq<char> {
    if name.len() > 0 && name[0] == '/' {
        name
    } else if base.len() == 0 || base.last() == '/' {
        base + name
    } else {
        base + seq!['/'] + name
    }
}

/// A component that is neither the root nor the current directory.
pub open spec fn is_normal(w: Seq<char>) -> bool {
    w.len() > 0 && w != seq!['.'] && forall|i: int| 0 <= i < w.len() ==> w[i] != '/'
}

#[verifier::rlimit(40)]
pub proof fn lemma_pieces_concat(a: Seq<char>, c: char, b: Seq<char>, sep: spec_fn(char) -> bool)
    requires
        sep(c),
    ensures
        pieces(a + seq![c] + b, sep) == pieces(a, sep) + pieces(b, sep),
    decreases b.len(),
{
    let s = a + seq![c] + b;
    if b.len() == 0 {
        assert(s.drop_last() =~= a);
        assert(pieces(a + seq![c], sep) =~= pieces(a, sep) + pieces(b, sep));
    } else {
        assert(s.drop_last() =~= a + seq![c] + b.drop_last());
        lemma_pieces_concat(a, c, b.drop_last(), sep);
        lemma_pieces_len(b.drop_last(), sep);
        let pa = pieces(a, sep);
        let pb = pieces(b.drop_last(), sep);
        if sep(b.last()) {
            assert(pieces(s, sep) =~= pa + pb.push(Seq::<char>::empty()));
        } else {
            assert(pieces(s, sep) =~= pa + pb.update(pb.len() - 1, pb.last().push(b.last())));
        }
    }
}

#[verifier::rlimit(40)]
pub proof fn lemma_pieces_single(w: Seq<char>, sep: spec_fn(char) -> bool)
    requires
        forall|i: int| 0 <= i < w.len() ==> !sep(#[trigger] w[i]),
    ensures
        pieces(w, sep) == seq![w],
    decreases w.len(),
{
    if w.len() == 0 {
        assert(pieces(w, sep) =~= seq![w]);
    } else {
        lemma_pieces_single(w.drop_last(), sep);
        assert(w.drop_last().push(w.last()) =~= w);
        assert(pieces(w, sep) =~= seq![w]);
    }
}

#[verifier::rlimit(40)]
pub proof fn lemma_pieces_join(ws: Seq<Seq<char>>)
    requires
        ws.len() >= 1,
        forall|i: int| 0 <= i < ws.len() ==> is_normal(#[trigger] ws[i]),
    ensures
        pieces(join(ws), slash()) == ws,
    decreases ws.len(),
{
    if ws.len() == 1 {
        lemma_pieces_single(ws[0], slash());
        assert(pieces(join(ws), slash()) =~= ws);
    } else {
        lemma_pieces_join(ws.drop_last());
        lemma_pieces_single(ws.last(), slash());
        lemma_pieces_concat(join(ws.drop_last()), '/', ws.last(), slash());
        assert(pieces(join(ws), slash()) =~= ws);
    }
}

#[verifier::rlimit(40)]
pub proof fn lemma_filter_all(ws: Seq<Seq<char>>, pred: spec_fn(Seq<char>) -> bool)
    requires
        forall|i: int| 0 <= i < ws.len() ==> pred(#[trigger] ws[i]),
    ensures
        ws.filter(pred) == ws,
    decreases ws.len(),
{
    reveal(Seq::filter);
    if ws.len() > 0 {
        lemma_filter_all(ws.drop_last(), pred);
        assert(ws.drop_last().push(ws.last()) =~= ws);
    }
}

#[verifier::rlimit(40)]
pub proof fn lemma_join_first(ws: Seq<Seq<char>>)
    requires
        ws.len() >= 1,
        ws[0].len() > 0,
    ensures
        join(ws).len() >= ws[0].len(),
        join(ws).take(ws[0].len() as int) == ws[0],
    decreases ws.len(),
{
    if ws.len() > 1 {
        lemma_join_first(ws.drop_last());
        assert(join(ws).take(ws[0].len() as int) =~= join(ws.drop_last()).take(ws[0].len() as int));
    }
}

/// The components of the parts `ws` joined by `/` are the parts themselves.
#[verifier::rlimit(40)]
pub proof fn lemma_components_join(ws: Seq<Seq<char>>)
    requires
        ws.len() >= 1,
        forall|i: int| 0 <= i < ws.len() ==> is_normal(#[trigger] ws[i]),
    ensures
        components(join(ws)) == ws,
{
    lemma_pieces_join(ws);
    lemma_filter_all(ws, normal_part());
    lemma_join_first(ws);
    let s = join(ws);
    assert(s[0] == ws[0][0]);
    assert(!has_root(s));
    if has_cur_dir(s) {
        if ws[0].len() == 1 {
            assert(ws[0] =~= seq!['.']);
        } else {
            assert(ws[0][1] == s[1]);
        }
    }
    assert(components(s) =~= ws);
}

#[verifier::rlimit(40)]
pub proof fn lemma_filter_concat(a: Seq<Seq<char>>, b: Seq<Seq<char>>, pred: spec_fn(Seq<char>) -> bool)
    ensures
        (a + b).filter(pred) == a.filter(pred) + b.filter(pred),
{
    Seq::filter_distributes_over_add(a, b, pred);
}

/// Pushing a relative path `x` that does not start with `.` as a component
/// onto `h` adds the components of `x` to those of `h`.
#[verifier::rlimit(40)]
pub proof fn lemma_push_components(h: Seq<char>, x: Seq<char>)
    requires
        x.len() > 0,
        x[0] != '/',
        !has_cur_dir(x),
    ensures
        components(push_path(h, x)) == components(h) + components(x),
{
    assert(components(x) =~= pieces(x, slash()).filter(normal_part()));
    if h.len() == 0 {
        assert(push_path(h, x) =~= x);
        assert(pieces(h, slash()) =~= seq![Seq::<char>::empty()]);
        reveal(Seq::filter);
        assert(pieces(h, slash()).filter(normal_part()) =~= Seq::<Seq<char>>::empty());
        assert(components(h) =~= Seq::<Seq<char>>::empty());
        assert(components(h) + components(x) =~= components(x));
    } else {
        let h2 = if h.last() == '/' {
            h.drop_last()
        } else {
            h
        };
        let s = push_path(h, x);
        assert(s =~= h2 + seq!['/'] + x);
        lemma_pieces_concat(h2, '/', x, slash());
        let ph = pieces(h, slash());
        let ph2 = pieces(h2, slash());
        if h.last() == '/' {
            assert(h =~= h2 + seq!['/'] + Seq::<char>::empty());
            lemma_pieces_concat(h2, '/', Seq::<char>::empty(), slash());
            assert(pieces(Seq::<char>::empty(), slash()) =~= seq![Seq::<char>::empty()]);
            lemma_filter_concat(ph2, seq![Seq::<char>::empty()], normal_part());
            reveal(Seq::filter);
            assert(seq![Seq::<char>::empty()].filter(normal_part()) =~= Seq::<Seq<char>>::empty());
            assert(ph.filter(normal_part()) =~= ph2.filter(normal_part()));
        }
        lemma_filter_concat(ph2, pieces(x, slash()), normal_part());
        assert(pieces(s, slash()).filter(normal_part()) =~= ph.filter(normal_part())
            + components(x));
        assert(s[0] == h[0]);
        assert(has_root(s) == has_root(h));
        if h.len() >= 2 {
            assert(s[1] == h[1]);
        } else if h[0] != '/' {
            assert(s[1] == '/');
        }
        assert(has_cur_dir(s) == has_cur_dir(h));
        assert(components(s) =~= components(h) + components(x));
    }
}

/// Pushing parts onto a path adds them to its components.
#[verifier::rlimit(40)]
pub proof fn lemma_components_push(h: Seq<char>, ws: Seq<Seq<char>>)
    requires
        ws.len() >= 1,
        forall|i: int| 0 <= i < ws.len() ==> is_normal(#[trigger] ws[i]),
    ensures
        components(push_path(h, join(ws))) == components(h) + ws,
{
    let x = join(ws);
    lemma_components_join(ws);
    lemma_join_first(ws);
    assert(x[0] == ws[0][0]);
    assert(x[0] != '/');
    assert(!has_cur_dir(x)) by {
        if has_cur_dir(x) {
            if ws[0].len() == 1 {
                assert(ws[0] =~= seq!['.']);
            } else {
                assert(ws[0][1] == x[1]);
            }
        }
    }
    lemma_push_components(h, x);
}


/// The one-character string `/`.
pub fn root_string() -> (r: String)
    ensures
        r@ == root_comp(),
{
    proof {
        reveal_strlit("/");
    }
    String::from_str("/")
}

/// The one-character string `.`.
pub fn cur_string() -> (r: String)
    ensures
        r@ == cur_comp(),
{
    proof {
        reveal_strlit(".");
    }
    String::from_str(".")
}

/// Whether `w` is `.`.
fn is_dot(w: &str) -> (b: bool)
    ensures
        b == (w@ == seq!['.']),
{
    if w.unicode_len() == 1 {
        let c = w.get_char(0);
        if c == '.' {
            assert(w@ =~= seq!['.']);
            true
        } else {
            false
        }
    } else {
        false
    }
}

/// The components of the path `s`.
pub fn path_components(s: &str) -> (r: Vec<String>)
    ensures
        views(r@) == components(s@),
{
    let chars = chars_of(s);
    let n = chars.len();
    let root = n > 0 && chars[0] == '/';
    let cur = !root && n > 0 && chars[0] == '.' && (n == 1 || chars[1] == '/');
    let mut out: Vec<String> = Vec::new();
    if root {
        out.push(root_string());
    }
    if cur {
        out.push(cur_string());
    }
    let ghost head = views(out@);
    assert(head =~= (if has_root(s@) {
        seq![root_comp()]
    } else {
        Seq::<Seq<char>>::empty()
    }) + (if has_cur_dir(s@) {
        seq![cur_comp()]
    } else {
        Seq::<Seq<char>>::empty()
    }));
    let all = split_pieces(s, Separator::Slash);
    let m = all.len();
    for i in 0..m
        invariant
            m == all@.len(),
            views(all@) == pieces(s@, slash()),
            views(out@) == head + views(all@).take(i as int).filter(normal_part()),
    {
        let w = &all[i];
        assert(views(all@).take(i + 1) =~= views(all@).take(i as int).push(w@));
        let ghost before = views(out@);
        if w.unicode_len() > 0 && !is_dot(w.as_str()) {
            out.push(w.clone());
            assert(views(out@) =~= before.push(w@));
        }
        proof {
            views(all@).take(i as int).lemma_filter_push(w@, normal_part());
        }
        assert(views(out@) =~= head + views(all@).take(i + 1).filter(normal_part()));
    }
    assert(views(all@).take(m as int) =~= views(all@));
    out
}

/// `base` with `name` pushed onto it.
pub fn join_path(base: &str, name: &str) -> (r: String)
    ensures
        r@ == push_path(base@, name@),
{
    let nl = name.unicode_len();
    let bl = base.unicode_len();
    if nl > 0 && name.get_char(0) == '/' {
        String::from_str(name)
    } else if bl == 0 || base.get_char(bl - 1) == '/' {
        String::from_str(base).concat(name)
    } else {
        proof {
            reveal_strlit("/");
        }
        String::from_str(base).concat("/").concat(name)
    }
}

/// Whether two component lists are equal.
pub fn same_components(a: &Vec<String>, b: &Vec<String>) -> (r: bool)
    ensures
        r == (views(a@) == views(b@)),
{
    if a.len() != b.len() {
        return false;
    }
    is_component_prefix(a, b)
}

/// Whether the components `base` are a prefix of the components `p`, as
/// `Path::starts_with` decides.
pub fn is_component_prefix(base: &Vec<String>, p: &Vec<String>) -> (r: bool)
    ensures
        r == views(base@).is_prefix_of(views(p@)),
{
    if base.len() > p.len() {
        return false;
    }
    for i in 0..base.len()
        invariant
            base@.len() <= p@.len(),
            forall|k: int| 0 <= k < i ==> base@[k]@ == p@[k]@,
    {
        if base[i] != p[i] {
            assert(views(base@)[i as int] != views(p@)[i as int]);
            return false;
        }
    }
    assert(views(base@) =~= views(p@).take(base@.len() as int));
    true
}


/// A component sequence that a path can have: the root or the current
/// directory may come first, every other component is normal.
pub open spec fn valid_components(cs: Seq<Seq<char>>) -> bool {
    forall|i: int|
        0 <= i < cs.len() ==> is_normal(#[trigger] cs[i]) || (i == 0 && (cs[i] == root_comp()
            || cs[i] == cur_comp()))
}

#[verifier::rlimit(40)]
pub proof fn lemma_filter_normal(s: Seq<char>)
    ensures
        forall|k: int|
            0 <= k < pieces(s, slash()).filter(normal_part()).len() ==> is_normal(
                #[trigger] pieces(s, slash()).filter(normal_part())[k],
            ),
{
    let ps = pieces(s, slash());
    lemma_pieces_no_sep(s, slash());
    broadcast use vstd::seq_lib::group_filter_ensures;
    assert forall|k: int| 0 <= k < ps.filter(normal_part()).len() implies is_normal(
        #[trigger] ps.filter(normal_part())[k],
    ) by {
        let w = ps.filter(normal_part())[k];
        assert(ps.filter(normal_part()).contains(w));
        ps.lemma_filter_contains_rev(normal_part(), w);
        assert(ps.contains(w));
        let j = choose|j: int| 0 <= j < ps.len() && ps[j] == w;
        assert forall|i: int| 0 <= i < w.len() implies w[i] != '/' by {
            assert(!slash()(ps[j][i]));
        }
    }
}

/// The components of any path form a valid component sequence.
#[verifier::rlimit(40)]
pub proof fn lemma_components_valid(s: Seq<char>)
    ensures
        valid_components(components(s)),
{
    lemma_filter_normal(s);
    let ns = pieces(s, slash()).filter(normal_part());
    let cs = components(s);
    assert forall|i: int| 0 <= i < cs.len() implies is_normal(#[trigger] cs[i]) || (i == 0 && (cs[i]
        == root_comp() || cs[i] == cur_comp())) by {
        let head = cs.len() - ns.len();
        if i >= head {
            assert(cs[i] == ns[i - head]);
        }
    }
}

#[verifier::rlimit(40)]
pub proof fn lemma_join_prepend(a: Seq<char>, ws: Seq<Seq<char>>)
    requires
        ws.len() >= 1,
    ensures
        join(seq![a] + ws) == a + seq!['/'] + join(ws),
    decreases ws.len(),
{
    let s = seq![a] + ws;
    assert(s.last() == ws.last());
    if ws.len() == 1 {
        assert(s.drop_last() =~= seq![a]);
        assert(join(seq![a]) == a);
        assert(join(s) == join(s.drop_last()) + seq!['/'] + s.last());
        assert(join(ws) == ws[0]);
        assert(join(s) =~= a + seq!['/'] + join(ws));
    } else {
        lemma_join_prepend(a, ws.drop_last());
        assert(s.drop_last() =~= seq![a] + ws.drop_last());
        assert(join(s) == join(s.drop_last()) + seq!['/'] + s.last());
        assert(join(ws) == join(ws.drop_last()) + seq!['/'] + ws.last());
        assert(join(s) =~= a + seq!['/'] + join(ws));
    }
}

/// Writing out a valid component sequence and reading its components back
/// gives the same sequence.
#[verifier::rlimit(40)]
pub proof fn lemma_render_components(cs: Seq<Seq<char>>)
    requires
        valid_components(cs),
    ensures
        components(render(cs)) == cs,
{
    reveal(Seq::filter);
    if cs.len() == 0 {
        assert(pieces(render(cs), slash()) =~= seq![Seq::<char>::empty()]);
        assert(components(render(cs)) =~= cs);
    } else if cs[0] == root_comp() || cs[0] == cur_comp() {
        let rest = cs.drop_first();
        assert forall|i: int| 0 <= i < rest.len() implies is_normal(#[trigger] rest[i]) by {
            assert(rest[i] == cs[i + 1]);
        }
        let head = cs[0];
        assert(head.len() == 1);
        let hp = pieces(head, slash());
        assert(head.drop_last() =~= Seq::<char>::empty());
        assert(pieces(head.drop_last(), slash()) =~= seq![Seq::<char>::empty()]);
        reveal_with_fuel(Seq::filter, 3);
        if head == root_comp() {
            assert(head.last() == '/');
            assert(hp =~= seq![Seq::<char>::empty(), Seq::<char>::empty()]);
            assert(hp.drop_last() =~= seq![Seq::<char>::empty()]);
        } else {
            assert(head.last() == '.');
            assert(Seq::<char>::empty().push('.') =~= seq!['.']);
            assert(hp =~= seq![seq!['.']]);
        }
        assert(hp.filter(normal_part()) =~= Seq::<Seq<char>>::empty());
        assert(components(head) =~= seq![head]);
        if rest.len() == 0 {
            if head == root_comp() {
                assert(render(cs) =~= head);
            } else {
                assert(render(cs) == head);
            }
        } else {
            lemma_join_first(rest);
            assert(join(rest)[0] == rest[0][0]);
            assert(join(rest)[0] != '/');
            if head == root_comp() {
                assert(head.last() == '/');
                assert(render(cs) =~= push_path(head, join(rest)));
            } else {
                assert(cs =~= seq![head] + rest);
                lemma_join_prepend(head, rest);
                assert(head.last() == '.');
                assert(render(cs) =~= push_path(head, join(rest)));
            }
            lemma_components_push(head, rest);
            assert(components(render(cs)) =~= cs);
        }
    } else {
        lemma_components_join(cs);
    }
}

/// The longest common start of two component sequences.
pub open spec fn common_prefix(a: Seq<Seq<char>>, b: Seq<Seq<char>>) -> Seq<Seq<char>>
    decreases a.len(),
{
    if a.len() == 0 || b.len() == 0 || a[0] != b[0] {
        Seq::<Seq<char>>::empty()
    } else {
        seq![a[0]] + common_prefix(a.drop_first(), b.drop_first())
    }
}

#[verifier::rlimit(40)]
pub proof fn lemma_common_prefix(a: Seq<Seq<char>>, b: Seq<Seq<char>>)
    ensures
        common_prefix(a, b).is_prefix_of(a),
        common_prefix(a, b).is_prefix_of(b),
        common_prefix(a, b).len() == a.len() || common_prefix(a, b).len() == b.len() || a[
            common_prefix(a, b).len() as int] != b[common_prefix(a, b).len() as int],
    decreases a.len(),
{
    if a.len() == 0 || b.len() == 0 || a[0] != b[0] {
    } else {
        lemma_common_prefix(a.drop_first(), b.drop_first());
        let c = common_prefix(a, b);
        let t = common_prefix(a.drop_first(), b.drop_first());
        assert forall|i: int| 0 <= i < c.len() implies c[i] == a[i] && c[i] == b[i] by {
            if i > 0 {
                assert(c[i] == t[i - 1]);
            }
        }
    }
}

/// `common_path::common_path`: the path made of the components that `one` and
/// `two` share at their start, or nothing when they share none. The crate
/// compares the two component lists pairwise and pushes each equal component
/// onto an empty path.
#[verifier::external_body]
fn common_path_of(one: &str, two: &str) -> (r: Option<String>)
    ensures
        r matches Some(c) ==> common_prefix(components(one@), components(two@)).len() > 0 && c@
            == render(common_prefix(components(one@), components(two@))),
        r is None ==> common_prefix(components(one@), components(two@)).len() == 0,
{
    match common_path::common_path(one, two) {
        Some(p) => Some(p.to_string_lossy().into_owned()),
        None => None,
    }
}

/// The components that `one` and `two` share at their start, or nothing when
/// they share none.
pub fn common_components(one: &str, two: &str) -> (r: Option<Vec<String>>)
    ensures
        r is None <==> common_prefix(components(one@), components(two@)).len() == 0,
        r matches Some(c) ==> views(c@) == common_prefix(components(one@), components(two@)),
{
    let common = common_path_of(one, two);
    match common {
        None => None,
        Some(c) => {
            proof {
                let a = components(one@);
                let b = components(two@);
                lemma_common_prefix(a, b);
                lemma_components_valid(one@);
                let cp = common_prefix(a, b);
                assert(valid_components(cp)) by {
                    assert forall|i: int| 0 <= i < cp.len() implies is_normal(#[trigger] cp[i]) || (i
                        == 0 && (cp[i] == root_comp() || cp[i] == cur_comp())) by {
                        assert(cp[i] == a[i]);
                    }
                }
                lemma_render_components(cp);
            }
            Some(path_components(c.as_str()))
        },
    }
}

/// The components left after `PathBuf::pop`: all but the last, unless the
/// last is the root or there are none.
pub open spec fn pop_components(cs: Seq<Seq<char>>) -> Seq<Seq<char>> {
    if cs.len() == 0 || cs.last() == root_comp() {
        cs
    } else {
        cs.drop_last()
    }
}

/// The name that `Path::file_name` gives for a path with the components `cs`:
/// the last component, when it is a normal one other than `..`.
pub open spec fn file_name(cs: Seq<Seq<char>>) -> Option<Seq<char>> {
    if cs.len() > 0 && cs.last() != root_comp() && cs.last() != cur_comp() && cs.last() != seq![
        '.',
        '.',
    ] {
        Some(cs.last())
    } else {
        None
    }
}

/// The last component of `cs` as `Path::file_name` names it.
pub fn file_name_of(cs: &Vec<String>) -> (r: Option<String>)
    ensures
        opt_view(r) == file_name(views(cs@)),
{
    let n = cs.len();
    if n == 0 {
        return None;
    }
    let last = &cs[n - 1];
    assert(views(cs@).last() == last@);
    let len = last.unicode_len();
    let s = last.as_str();
    if len == 1 && (s.get_char(0) == '/' || s.get_char(0) == '.') {
        assert(last@ == root_comp() || last@ == cur_comp()) by {
            if s@[0] == '/' {
                assert(last@ =~= root_comp());
            } else {
                assert(last@ =~= cur_comp());
            }
        }
        None
    } else if len == 2 && s.get_char(0) == '.' && s.get_char(1) == '.' {
        assert(last@ =~= seq!['.', '.']);
        None
    } else {
        assert(last@ != root_comp() && last@ != cur_comp() && last@ != seq!['.', '.']) by {
            if last@ == root_comp() {
                assert(last@[0] == '/');
            }
            if last@ == cur_comp() {
                assert(last@[0] == '.');
            }
            if last@ == seq!['.', '.'] {
                assert(last@[0] == '.' && last@[1] == '.');
            }
        }
        Some(last.clone())
    }
}

/// An optional string's characters.
pub open spec fn opt_view(s: Option<String>) -> Option<Seq<char>> {
    match s {
        Some(x) => Some(x@),
        None => None,
    }
}


/// The start and end of each piece of `s` between `/`, in order.
pub open spec fn piece_spans(s: Seq<char>) -> Seq<(int, int)>
    decreases s.len(),
{
    if s.len() == 0 {
        seq![(0int, 0int)]
    } else {
        let p = piece_spans(s.drop_last());
        if s.last() == '/' {
            p.push((s.len() as int, s.len() as int))
        } else {
            p.update(p.len() - 1, (p.last().0, s.len() as int))
        }
    }
}

/// The spans line up with the pieces: one span per piece, each piece is the
/// text of its span, spans are in bounds and the last one ends at the end.
#[verifier::rlimit(40)]
pub proof fn lemma_piece_spans(s: Seq<char>)
    ensures
        piece_spans(s).len() == pieces(s, slash()).len(),
        piece_spans(s).last().1 == s.len(),
        piece_spans(s)[0].0 == 0,
        forall|k: int|
            0 <= k < piece_spans(s).len() ==> 0 <= #[trigger] piece_spans(s)[k].0 <= piece_spans(
                s,
            )[k].1 <= s.len() && pieces(s, slash())[k] == s.subrange(
                piece_spans(s)[k].0,
                piece_spans(s)[k].1,
            ),
        forall|a: int, b: int|
            0 <= a < b < piece_spans(s).len() ==> #[trigger] piece_spans(s)[a].1 < #[trigger] piece_spans(
                s,
            )[b].0,
    decreases s.len(),
{
    if s.len() > 0 {
        let t = s.drop_last();
        lemma_piece_spans(t);
        lemma_pieces_len(t, slash());
        let ps = piece_spans(s);
        let pt = piece_spans(t);
        assert forall|k: int| 0 <= k < ps.len() implies 0 <= #[trigger] ps[k].0 <= ps[k].1 <= s.len()
            && pieces(s, slash())[k] == s.subrange(ps[k].0, ps[k].1) by {
            if k < pt.len() && !(s.last() != '/' && k == pt.len() - 1) {
                assert(s.subrange(ps[k].0, ps[k].1) =~= t.subrange(pt[k].0, pt[k].1));
            } else if s.last() == '/' {
                assert(s.subrange(ps[k].0, ps[k].1) =~= Seq::<char>::empty());
            } else {
                assert(s.subrange(ps[k].0, ps[k].1) =~= t.subrange(pt[k].0, pt[k].1).push(s.last()));
            }
        }
    }
}

/// The pieces of the text from the start of piece `i` to the end of piece
/// `j` are the pieces `i..=j`.
#[verifier::rlimit(40)]
pub proof fn lemma_pieces_between(s: Seq<char>, i: int, j: int)
    requires
        0 <= i <= j < pieces(s, slash()).len(),
    ensures
        pieces(s.subrange(piece_spans(s)[i].0, piece_spans(s)[j].1), slash()) == pieces(
            s,
            slash(),
        ).subrange(i, j + 1),
    decreases s.len(),
{
    lemma_piece_spans(s);
    let ps = piece_spans(s);
    let pp = pieces(s, slash());
    if s.len() == 0 {
        assert(s.subrange(0, 0) =~= s);
        assert(pp.subrange(0, 1) =~= pp);
    } else {
        let t = s.drop_last();
        let c = s.last();
        let n = s.len() as int;
        lemma_piece_spans(t);
        lemma_pieces_len(t, slash());
        let pt = piece_spans(t);
        let qt = pieces(t, slash());
        let last = qt.len() - 1;
        if c == '/' {
            if j < pp.len() - 1 {
                lemma_pieces_between(t, i, j);
                assert(ps[i] == pt[i] && ps[j] == pt[j]);
                assert(0 <= pt[i].0 <= pt[i].1 <= t.len());
                assert(0 <= pt[j].0 <= pt[j].1 <= t.len());
                assert(pt[i].0 <= pt[j].1);
                assert(s.subrange(ps[i].0, ps[j].1) =~= t.subrange(pt[i].0, pt[j].1));
                assert(pp.subrange(i, j + 1) =~= qt.subrange(i, j + 1));
            } else if i == j {
                assert(s.subrange(ps[i].0, ps[j].1) =~= Seq::<char>::empty());
                assert(pp.subrange(i, j + 1) =~= seq![Seq::<char>::empty()]);
            } else {
                lemma_pieces_between(t, i, last);
                let x = t.subrange(pt[i].0, pt[last].1);
                assert(s.subrange(ps[i].0, ps[j].1) =~= x.push('/'));
                assert(x.push('/').drop_last() =~= x);
                assert(pp.subrange(i, j + 1) =~= qt.subrange(i, last + 1).push(Seq::<char>::empty()));
            }
        } else {
            if j < last {
                lemma_pieces_between(t, i, j);
                assert(ps[i] == pt[i] && ps[j] == pt[j]);
                assert(0 <= pt[i].0 <= pt[i].1 <= t.len());
                assert(0 <= pt[j].0 <= pt[j].1 <= t.len());
                assert(pt[i].0 <= pt[j].1);
                assert(s.subrange(ps[i].0, ps[j].1) =~= t.subrange(pt[i].0, pt[j].1));
                assert(pp.subrange(i, j + 1) =~= qt.subrange(i, j + 1));
            } else {
                lemma_pieces_between(t, i, last);
                let x = t.subrange(pt[i].0, pt[last].1);
                assert(s.subrange(ps[i].0, ps[j].1) =~= x.push(c));
                assert(x.push(c).drop_last() =~= x);
                lemma_pieces_len(x, slash());
                let qx = pieces(x, slash());
                assert(pp.subrange(i, j + 1) =~= qx.update(qx.len() - 1, qx.last().push(c)));
            }
        }
    }
}


/// The positions of the normal parts of `p`, in order.
pub open spec fn normal_indices(p: Seq<Seq<char>>) -> Seq<int>
    decreases p.len(),
{
    if p.len() == 0 {
        Seq::<int>::empty()
    } else {
        let i = normal_indices(p.drop_last());
        if normal_part()(p.last()) {
            i.push(p.len() - 1)
        } else {
            i
        }
    }
}

/// The normal parts are those at the normal positions, which increase and
/// are in bounds; after the last of them no part is normal.
#[verifier::rlimit(40)]
pub proof fn lemma_normal_indices(p: Seq<Seq<char>>)
    ensures
        p.filter(normal_part()).len() == normal_indices(p).len(),
        forall|m: int|
            0 <= m < normal_indices(p).len() ==> 0 <= #[trigger] normal_indices(p)[m] < p.len()
                && p.filter(normal_part())[m] == p[normal_indices(p)[m]] && normal_part()(
                p[normal_indices(p)[m]],
            ),
        forall|a: int, b: int|
            0 <= a < b < normal_indices(p).len() ==> #[trigger] normal_indices(p)[a]
                < #[trigger] normal_indices(p)[b],
        forall|k: int|
            0 <= k < p.len() && (normal_indices(p).len() == 0 || k > normal_indices(p).last())
                ==> !normal_part()(#[trigger] p[k]),
    decreases p.len(),
{
    reveal(Seq::filter);
    if p.len() > 0 {
        let q = p.drop_last();
        lemma_normal_indices(q);
        let iq = normal_indices(q);
        let ip = normal_indices(p);
        assert forall|k: int|
            0 <= k < p.len() && (ip.len() == 0 || k > ip.last()) implies !normal_part()(
            #[trigger] p[k],
        ) by {
            if k < p.len() - 1 {
                assert(p[k] == q[k]);
                if iq.len() > 0 {
                    assert(ip.len() > 0);
                }
            }
        }
    }
}

/// The normal parts from the one at normal position `m` to the last normal
/// one are the normal parts of `p` from the `m`-th on.
#[verifier::rlimit(40)]
pub proof fn lemma_normal_tail(p: Seq<Seq<char>>, m: int)
    requires
        0 <= m < normal_indices(p).len(),
    ensures
        p.subrange(normal_indices(p)[m], normal_indices(p).last() + 1).filter(normal_part())
            == p.filter(normal_part()).skip(m),
    decreases p.len(),
{
    reveal(Seq::filter);
    lemma_normal_indices(p);
    let q = p.drop_last();
    lemma_normal_indices(q);
    let ip = normal_indices(p);
    let iq = normal_indices(q);
    let x = p.last();
    let l = p.len() - 1;
    if normal_part()(x) {
        if m == iq.len() {
            assert(p.subrange(ip[m], ip.last() + 1) =~= seq![x]);
            assert(seq![x] =~= Seq::<Seq<char>>::empty().push(x));
            assert(Seq::<Seq<char>>::empty().filter(normal_part()) =~= Seq::<Seq<char>>::empty());
            assert(p.filter(normal_part()) == q.filter(normal_part()).push(x));
            assert(p.filter(normal_part()).skip(m) =~= seq![x]);
        } else {
            lemma_normal_tail(q, m);
            let a = iq[m];
            let b = iq.last() + 1;
            let whole = q.subrange(a, l);
            assert(whole =~= q.subrange(a, b) + q.subrange(b, l));
            lemma_filter_concat(q.subrange(a, b), q.subrange(b, l), normal_part());
            assert(q.subrange(b, l).filter(normal_part()) =~= Seq::<Seq<char>>::empty()) by {
                assert forall|k: int| 0 <= k < q.subrange(b, l).len() implies !normal_part()(
                    #[trigger] q.subrange(b, l)[k],
                ) by {
                    assert(q.subrange(b, l)[k] == q[b + k]);
                }
                q.subrange(b, l).lemma_all_neg_filter_empty(normal_part());
            }
            assert(p.subrange(ip[m], ip.last() + 1) =~= whole.push(x));
            assert(whole.push(x).drop_last() =~= whole);
            assert(p.filter(normal_part()).skip(m) =~= q.filter(normal_part()).skip(m).push(x));
        }
    } else {
        lemma_normal_tail(q, m);
        assert(ip == iq);
        assert(p.subrange(ip[m], ip.last() + 1) =~= q.subrange(iq[m], iq.last() + 1));
    }
}


/// The normal parts up to the one at normal position `m` are the first
/// `m + 1` normal parts.
#[verifier::rlimit(40)]
pub proof fn lemma_normal_head(p: Seq<Seq<char>>, m: int)
    requires
        0 <= m < normal_indices(p).len(),
    ensures
        p.subrange(0, normal_indices(p)[m] + 1).filter(normal_part()) == p.filter(
            normal_part(),
        ).take(m + 1),
    decreases p.len(),
{
    reveal(Seq::filter);
    lemma_normal_indices(p);
    let q = p.drop_last();
    lemma_normal_indices(q);
    let ip = normal_indices(p);
    let iq = normal_indices(q);
    let x = p.last();
    if normal_part()(x) && m == iq.len() {
        assert(ip[m] == p.len() - 1);
        assert(p.subrange(0, ip[m] + 1) =~= p);
        assert(p.filter(normal_part()).take(m + 1) =~= p.filter(normal_part()));
    } else {
        assert(m < iq.len());
        assert(ip[m] == iq[m]);
        lemma_normal_head(q, m);
        assert(p.subrange(0, ip[m] + 1) =~= q.subrange(0, iq[m] + 1));
        if normal_part()(x) {
            assert(p.filter(normal_part()) == q.filter(normal_part()).push(x));
            assert(p.filter(normal_part()).take(m + 1) =~= q.filter(normal_part()).take(m + 1));
        } else {
            assert(p.filter(normal_part()) == q.filter(normal_part()));
        }
    }
}

/// The number of components of `s` before its normal ones: one for the root
/// or the current directory, else none.
pub open spec fn head_len(s: Seq<char>) -> int {
    if has_root(s) || has_cur_dir(s) {
        1
    } else {
        0
    }
}

/// The text that `Path::strip_prefix` leaves of `s` once a prefix of `k`
/// components is taken off: from the first normal component left to the end
/// of the last normal component; with nothing taken off, `s` up to the end
/// of its last normal component, or up to the end of its root or current
/// directory when it has no normal one.
pub open spec fn strip_components(s: Seq<char>, k: int) -> Seq<char> {
    let ps = piece_spans(s);
    let ni = normal_indices(pieces(s, slash()));
    let m = k - head_len(s);
    if k == 0 {
        s.subrange(
            0,
            if ni.len() > 0 {
                ps[ni.last()].1
            } else {
                head_len(s)
            },
        )
    } else if m < ni.len() {
        s.subrange(ps[ni[m]].0, ps[ni.last()].1)
    } else {
        Seq::<char>::empty()
    }
}

/// The text that `Path::parent` gives for `s`: `s` up to the end of its
/// second-to-last normal component, or up to the end of its root or current
/// directory when it has fewer.
pub open spec fn parent_text(s: Seq<char>) -> Seq<char> {
    let ps = piece_spans(s);
    let ni = normal_indices(pieces(s, slash()));
    s.subrange(
        0,
        if ni.len() >= 2 {
            ps[ni[ni.len() - 2]].1
        } else {
            head_len(s)
        },
    )
}

/// The components of `s` are its head followed by its normal parts.
#[verifier::rlimit(40)]
pub proof fn lemma_components_split(s: Seq<char>)
    ensures
        components(s).len() == head_len(s) + pieces(s, slash()).filter(normal_part()).len(),
        components(s).skip(head_len(s)) == pieces(s, slash()).filter(normal_part()),
        head_len(s) == 1 ==> components(s)[0] == root_comp() || components(s)[0] == cur_comp(),
{
    let f = pieces(s, slash()).filter(normal_part());
    assert(components(s).skip(head_len(s)) =~= f);
}

/// With no component taken off, `strip_components` keeps all components.
#[verifier::rlimit(40)]
proof fn lemma_strip_none(s: Seq<char>)
    ensures
        components(strip_components(s, 0)) == components(s),
{
    let k = 0int;
    reveal(Seq::filter);
    let pp = pieces(s, slash());
    let ps = piece_spans(s);
    let ni = normal_indices(pp);
    let f = pp.filter(normal_part());
    let h = head_len(s);
    let m = k - h;
    lemma_piece_spans(s);
    lemma_normal_indices(pp);
    lemma_components_split(s);
    lemma_pieces_no_sep(s, slash());
    let r = strip_components(s, k);
    if ni.len() > 0 {
        let j = ni.last();
        lemma_pieces_between(s, 0, j);
        assert(pp.subrange(0, j + 1) + pp.skip(j + 1) =~= pp);
        lemma_filter_concat(pp.subrange(0, j + 1), pp.skip(j + 1), normal_part());
        assert(pp.skip(j + 1).filter(normal_part()) =~= Seq::<Seq<char>>::empty()) by {
            assert forall|t: int| 0 <= t < pp.skip(j + 1).len() implies !normal_part()(
                #[trigger] pp.skip(j + 1)[t],
            ) by {
                assert(pp.skip(j + 1)[t] == pp[j + 1 + t]);
            }
            pp.skip(j + 1).lemma_all_neg_filter_empty(normal_part());
        }
        assert(pieces(r, slash()).filter(normal_part()) == f);
        let pj = pp[j];
        assert(pj.len() > 0);
        assert(pj == s.subrange(ps[j].0, ps[j].1));
        assert(0 <= ps[j].0 <= ps[j].1 <= s.len());
        assert(r.len() == ps[j].1);
        assert(r.len() >= 1);
        assert(r[0] == s[0]);
        if r.len() >= 2 {
            assert(r[1] == s[1]);
        } else {
            assert(ps[j].0 == 0);
            assert(pj =~= seq![s[0]]);
        }
        assert(has_root(r) == has_root(s));
        assert(has_cur_dir(r) == has_cur_dir(s));
        assert(components(r) =~= components(s));
    } else {
        assert(f.len() == 0);
        if h == 0 {
            assert(r =~= Seq::<char>::empty());
            assert(pieces(r, slash()) =~= seq![Seq::<char>::empty()]);
            assert(components(r) =~= components(s));
        } else {
            assert(r =~= seq![s[0]]);
            assert(r.drop_last() =~= Seq::<char>::empty());
            assert(pieces(r.drop_last(), slash()) == seq![Seq::<char>::empty()]);
            assert(r.last() == s[0]);
            if has_root(s) {
                assert(pieces(r, slash()) =~= seq![Seq::<char>::empty(), Seq::<char>::empty()]);
                assert(pieces(r, slash()).drop_last() =~= seq![Seq::<char>::empty()]);
            } else {
                assert(has_cur_dir(s));
                assert(r.last() == '.');
                assert(!slash()(r.last()));
                let p0 = pieces(r.drop_last(), slash());
                assert(pieces(r, slash()) == p0.update(0, p0[0].push('.')));
                assert(Seq::<char>::empty().push('.') =~= seq!['.']);
                assert(pieces(r, slash()) =~= seq![seq!['.']]);
            }
            assert forall|t: int| 0 <= t < pieces(r, slash()).len() implies !normal_part()(
                #[trigger] pieces(r, slash())[t],
            ) by {}
            pieces(r, slash()).lemma_all_neg_filter_empty(normal_part());
            assert(components(r) =~= components(s));
        }
    }
    assert(components(s).skip(0) =~= components(s));
}

/// The root or current directory that `s` starts with, cut off alone, has
/// just that component.
#[verifier::rlimit(40)]
proof fn lemma_head_components(s: Seq<char>)
    ensures
        components(s.subrange(0, head_len(s))) == components(s).take(head_len(s)),
{
    reveal(Seq::filter);
    let h = head_len(s);
    let r = s.subrange(0, h);
    lemma_components_split(s);
    if h == 0 {
        assert(r =~= Seq::<char>::empty());
        assert(pieces(r, slash()) =~= seq![Seq::<char>::empty()]);
        assert(components(r) =~= Seq::<Seq<char>>::empty());
    } else {
        assert(r =~= seq![s[0]]);
        assert(r.drop_last() =~= Seq::<char>::empty());
        assert(pieces(r.drop_last(), slash()) == seq![Seq::<char>::empty()]);
        assert(r.last() == s[0]);
        if has_root(s) {
            assert(pieces(r, slash()) =~= seq![Seq::<char>::empty(), Seq::<char>::empty()]);
        } else {
            assert(has_cur_dir(s));
            assert(!slash()(r.last()));
            let p0 = pieces(r.drop_last(), slash());
            assert(pieces(r, slash()) == p0.update(0, p0[0].push('.')));
            assert(Seq::<char>::empty().push('.') =~= seq!['.']);
            assert(pieces(r, slash()) =~= seq![seq!['.']]);
        }
        assert forall|t: int| 0 <= t < pieces(r, slash()).len() implies !normal_part()(
            #[trigger] pieces(r, slash())[t],
        ) by {}
        pieces(r, slash()).lemma_all_neg_filter_empty(normal_part());
        assert(components(r) =~= components(s).take(1));
    }
}

/// Taking the parent of a path with two components or more drops its last
/// component.
#[verifier::rlimit(40)]
pub proof fn lemma_parent_components(s: Seq<char>)
    requires
        components(s).len() >= 2,
    ensures
        components(parent_text(s)) == components(s).drop_last(),
{
    let pp = pieces(s, slash());
    let ps = piece_spans(s);
    let ni = normal_indices(pp);
    let f = pp.filter(normal_part());
    let h = head_len(s);
    lemma_piece_spans(s);
    lemma_normal_indices(pp);
    lemma_components_split(s);
    lemma_pieces_no_sep(s, slash());
    let r = parent_text(s);
    if ni.len() >= 2 {
        let m = ni.len() - 2;
        let j = ni[m];
        lemma_pieces_between(s, 0, j);
        lemma_normal_head(pp, m);
        assert(pieces(r, slash()).filter(normal_part()) == f.drop_last()) by {
            assert(f.take(m + 1) =~= f.drop_last());
        }
        let pj = pp[j];
        assert(pj.len() > 0);
        assert(pj == s.subrange(ps[j].0, ps[j].1));
        assert(0 <= ps[j].0 <= ps[j].1 <= s.len());
        assert(r.len() == ps[j].1);
        assert(r[0] == s[0]);
        if r.len() >= 2 {
            assert(r[1] == s[1]);
        } else {
            assert(ps[j].0 == 0);
            assert(pj =~= seq![s[0]]);
        }
        assert(has_root(r) == has_root(s));
        assert(has_cur_dir(r) == has_cur_dir(s));
        assert(components(r) =~= components(s).drop_last());
    } else {
        assert(h == 1);
        lemma_head_components(s);
        assert(components(s).take(1) =~= components(s).drop_last());
    }
}

/// The text from the start of a normal piece to the end of a later piece
/// starts with neither `/` nor the current directory.
#[verifier::rlimit(40)]
proof fn lemma_span_start(s: Seq<char>, i: int, j: int)
    requires
        0 <= i <= j < pieces(s, slash()).len(),
        normal_part()(pieces(s, slash())[i]),
    ensures
        ({
            let r = s.subrange(piece_spans(s)[i].0, piece_spans(s)[j].1);
            &&& r.len() > 0
            &&& r[0] != '/'
            &&& !has_cur_dir(r)
        }),
{
    let pp = pieces(s, slash());
    let ps = piece_spans(s);
    lemma_piece_spans(s);
    lemma_pieces_no_sep(s, slash());
    let pi = pp[i];
    assert(pi == s.subrange(ps[i].0, ps[i].1));
    assert(0 <= ps[i].0 <= ps[i].1 <= s.len());
    assert(0 <= ps[j].0 <= ps[j].1 <= s.len());
    assert(ps[i].1 <= ps[j].1) by {
        if i < j {
            assert(ps[i].1 < ps[j].0);
        }
    }
    let r = s.subrange(ps[i].0, ps[j].1);
    assert(r.len() >= pi.len());
    assert(r[0] == pi[0]);
    assert(r[0] != '/') by {
        assert(!slash()(pp[i][0]));
    }
    assert(!has_cur_dir(r)) by {
        if r[0] == '.' {
            if pi.len() == 1 {
                assert(pi =~= seq!['.']);
            } else {
                assert(r[1] == pi[1]);
                assert(!slash()(pp[i][1]));
            }
        }
    }
}

/// With some but not all normal components taken off, `strip_components`
/// leaves the rest, written without a leading `/` or current directory.
#[verifier::rlimit(40)]
proof fn lemma_strip_some(s: Seq<char>, k: int)
    requires
        k >= 1,
        k - head_len(s) < normal_indices(pieces(s, slash())).len(),
    ensures
        components(strip_components(s, k)) == components(s).skip(k),
        strip_components(s, k).len() > 0,
        strip_components(s, k)[0] != '/',
        !has_cur_dir(strip_components(s, k)),
{
    let pp = pieces(s, slash());
    let ni = normal_indices(pp);
    let f = pp.filter(normal_part());
    let h = head_len(s);
    let m = k - h;
    lemma_normal_indices(pp);
    lemma_components_split(s);
    let r = strip_components(s, k);
    let i = ni[m];
    let j = ni.last();
    assert(i <= j) by {
        if m < ni.len() - 1 {
            assert(ni[m] < ni[ni.len() - 1]);
        }
    }
    lemma_pieces_between(s, i, j);
    lemma_normal_tail(pp, m);
    lemma_span_start(s, i, j);
    assert(components(r) =~= pieces(r, slash()).filter(normal_part()));
    assert(components(s).skip(k) =~= f.skip(m));
}

/// What `strip_components` leaves has the components that follow the first `k`.
#[verifier::rlimit(40)]
pub proof fn lemma_strip_components(s: Seq<char>, k: int)
    requires
        0 <= k <= components(s).len(),
    ensures
        components(strip_components(s, k)) == components(s).skip(k),
        k >= 1 && k < components(s).len() ==> strip_components(s, k).len() > 0 && strip_components(
            s,
            k,
        )[0] != '/' && !has_cur_dir(strip_components(s, k)),
{
    let pp = pieces(s, slash());
    let ni = normal_indices(pp);
    let h = head_len(s);
    lemma_normal_indices(pp);
    lemma_components_split(s);
    let r = strip_components(s, k);
    if k == 0 {
        lemma_strip_none(s);
    } else if k - h < ni.len() {
        lemma_strip_some(s, k);
    } else {
        assert(r =~= Seq::<char>::empty());
        assert(pieces(r, slash()) =~= seq![Seq::<char>::empty()]);
        reveal(Seq::filter);
        assert(pieces(r, slash()).filter(normal_part()) =~= Seq::<Seq<char>>::empty());
        assert(components(r) =~= Seq::<Seq<char>>::empty());
        assert(components(s).skip(k) =~= Seq::<Seq<char>>::empty());
    }
}


/// The spans of the pieces of `s` between `/`, as character positions.
fn spans_of(s: &Vec<char>) -> (r: Vec<(usize, usize)>)
    ensures
        r@.len() == piece_spans(s@).len(),
        forall|k: int|
            0 <= k < r@.len() ==> (#[trigger] r@[k]).0 as int == piece_spans(s@)[k].0 && r@[k].1 as int
                == piece_spans(s@)[k].1,
{
    let mut out: Vec<(usize, usize)> = Vec::new();
    out.push((0, 0));
    let n = s.len();
    assert(s@.take(0) =~= Seq::<char>::empty());
    for i in 0..n
        invariant
            n == s@.len(),
            out@.len() >= 1,
            out@.len() == piece_spans(s@.take(i as int)).len(),
            forall|k: int|
                0 <= k < out@.len() ==> (#[trigger] out@[k]).0 as int == piece_spans(
                    s@.take(i as int),
                )[k].0 && out@[k].1 as int == piece_spans(s@.take(i as int))[k].1,
    {
        let ghost t = s@.take(i + 1);
        assert(t.drop_last() =~= s@.take(i as int));
        assert(t.last() == s@[i as int]);
        if s[i] == '/' {
            out.push((i + 1, i + 1));
        } else {
            let last = out.len() - 1;
            let a = out[last].0;
            out.set(last, (a, i + 1));
        }
    }
    assert(s@.take(n as int) =~= s@);
    out
}

/// The positions of the normal parts among `all`.
fn normal_positions(all: &Vec<String>) -> (r: Vec<usize>)
    ensures
        r@.len() == normal_indices(views(all@)).len(),
        forall|k: int| 0 <= k < r@.len() ==> #[trigger] r@[k] as int == normal_indices(views(all@))[k],
{
    let mut out: Vec<usize> = Vec::new();
    let n = all.len();
    assert(views(all@).take(0) =~= Seq::<Seq<char>>::empty());
    for i in 0..n
        invariant
            n == all@.len(),
            out@.len() == normal_indices(views(all@).take(i as int)).len(),
            forall|k: int|
                0 <= k < out@.len() ==> #[trigger] out@[k] as int == normal_indices(
                    views(all@).take(i as int),
                )[k],
    {
        let ghost t = views(all@).take(i + 1);
        assert(t.drop_last() =~= views(all@).take(i as int));
        assert(t.last() == all@[i as int]@);
        let w = &all[i];
        if w.unicode_len() > 0 && !is_dot(w.as_str()) {
            out.push(i);
        }
    }
    assert(views(all@).take(n as int) =~= views(all@));
    out
}

/// The number of components of `s` before its normal ones.
fn head_len_of(s: &Vec<char>) -> (h: usize)
    ensures
        h as int == head_len(s@),
{
    let n = s.len();
    let root = n > 0 && s[0] == '/';
    let cur = !root && n > 0 && s[0] == '.' && (n == 1 || s[1] == '/');
    if root || cur {
        1
    } else {
        0
    }
}

/// What `Path::strip_prefix` leaves of `s` once a prefix of `k` components
/// is taken off.
pub fn strip_components_of(s: &str, k: usize) -> (r: String)
    ensures
        r@ == strip_components(s@, k as int),
{
    let chars = chars_of(s);
    let spans = spans_of(&chars);
    let all = split_pieces(s, Separator::Slash);
    assert(views(all@) == pieces(s@, slash()));
    let ni = normal_positions(&all);
    let h = head_len_of(&chars);
    proof {
        lemma_piece_spans(s@);
        lemma_normal_indices(pieces(s@, slash()));
    }
    let ghost ps = piece_spans(s@);
    let ghost nis = normal_indices(pieces(s@, slash()));
    if k == 0 {
        let end = if ni.len() > 0 {
            let j = ni[ni.len() - 1];
            assert(j as int == nis.last());
            spans[j].1
        } else {
            h
        };
        substring(s, 0, end)
    } else if k - h < ni.len() {
        let m = k - h;
        let i = ni[m];
        let j = ni[ni.len() - 1];
        assert(i <= j) by {
            if m < ni.len() - 1 {
                assert(nis[m as int] < nis[nis.len() - 1]);
            }
        }
        assert(ps[i as int].1 <= ps[j as int].1) by {
            if i < j {
                assert(ps[i as int].1 < ps[j as int].0);
            }
        }
        substring(s, spans[i].0, spans[j].1)
    } else {
        String::new()
    }
}

/// What `Path::parent` gives for `s`, which has a component to drop.
pub fn parent_text_of(s: &str) -> (r: String)
    ensures
        r@ == parent_text(s@),
{
    let chars = chars_of(s);
    let spans = spans_of(&chars);
    let all = split_pieces(s, Separator::Slash);
    assert(views(all@) == pieces(s@, slash()));
    let ni = normal_positions(&all);
    let h = head_len_of(&chars);
    proof {
        lemma_piece_spans(s@);
        lemma_normal_indices(pieces(s@, slash()));
    }
    let end = if ni.len() >= 2 {
        spans[ni[ni.len() - 2]].1
    } else {
        h
    };
    substring(s, 0, end)
}

} // verus!
