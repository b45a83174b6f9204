//! Lexical path handling over `/`-separated strings.
//!
//! Paths are the portable project paths the analyzer records: `/` separates
//! components, a leading `/` makes a path absolute. The functions follow the
//! lexical rules of `std::path` on Unix: empty and `.` components are dropped
//! (a leading `.` of a relative path is kept), and two paths are equal when
//! their component lists are.
use vstd::prelude::*;

use crate::order::{compare_text, int_order, is_total_order, lemma_lex_total, lemma_text_order_total, lex_order, text_order};
use crate::text::{chars_of, push_char};

verus! {

pub open spec fn slash() -> Seq<char> {
    seq!['/']
}

pub open spec fn dot() -> Seq<char> {
    seq!['.']
}

pub open spec fn dot_dot() -> Seq<char> {
    seq!['.', '.']
}

/// The pieces of a path between `/` separators, read left to right.
pub open spec fn split_pieces(p: Seq<char>) -> Seq<Seq<char>>
    decreases p.len(),
{
    if p.len() == 0 {
        seq![Seq::<char>::empty()]
    } else {
        let prev = split_pieces(p.drop_last());
        if p.last() == '/' {
            prev.push(Seq::<char>::empty())
        } else {
            prev.update(prev.len() - 1, prev.last().push(p.last()))
        }
    }
}

/// A piece that names a component: neither empty nor `.`.
pub open spec fn keeps_piece(piece: Seq<char>) -> bool {
    piece.len() != 0 && piece != dot()
}

pub open spec fn is_absolute(p: Seq<char>) -> bool {
    p.len() > 0 && p[0] == '/'
}

/// A relative path that starts with a `.` component.
pub open spec fn has_leading_cur(p: Seq<char>) -> bool {
    &&& !is_absolute(p)
    &&& p.len() >= 1 && p[0] == '.'
    &&& (p.len() == 1 || p[1] == '/')
}

/// The components of a path: `/` for the root, `.` for a leading current
/// directory, then every named piece in order (`..` included).
pub open spec fn components(p: Seq<char>) -> Seq<Seq<char>> {
    let named = split_pieces(p).filter(|s: Seq<char>| keeps_piece(s));
    if is_absolute(p) {
        seq![slash()] + named
    } else if has_leading_cur(p) {
        seq![dot()] + named
    } else {
        named
    }
}

/// `PathBuf::push` of one component onto a path.
pub open spec fn push_component(acc: Seq<char>, c: Seq<char>) -> Seq<char> {
    if c == slash() {
        slash()
    } else if acc.len() == 0 {
        c
    } else if acc.last() == '/' {
        acc + c
    } else {
        acc + slash() + c
    }
}

/// The path made of a list of components, pushed one after the other.
pub open spec fn build(cs: Seq<Seq<char>>) -> Seq<char>
    decreases cs.len(),
{
    if cs.len() == 0 {
        Seq::<char>::empty()
    } else {
        push_component(build(cs.drop_last()), cs.last())
    }
}

/// `Path::join`: an absolute reference replaces the base.
pub open spec fn join(base: Seq<char>, rel: Seq<char>) -> Seq<char> {
    if is_absolute(rel) {
        rel
    } else if base.len() == 0 {
        rel
    } else if base.last() == '/' {
        base + rel
    } else {
        base + slash() + rel
    }
}

/// Lexical normalization: `..` pops the last component (never past the
/// root), `.` is dropped, everything else is pushed.
pub open spec fn normalize_components(cs: Seq<Seq<char>>) -> Seq<Seq<char>>
    decreases cs.len(),
{
    if cs.len() == 0 {
        Seq::<Seq<char>>::empty()
    } else {
        let prev = normalize_components(cs.drop_last());
        let c = cs.last();
        if c == dot_dot() {
            if prev.len() > 0 && prev.last() != slash() {
                prev.drop_last()
            } else {
                prev
            }
        } else if c == dot() {
            prev
        } else if c == slash() {
            seq![slash()]
        } else {
            prev.push(c)
        }
    }
}

/// Lexical normalization of a path.
pub open spec fn normalize(p: Seq<char>) -> Seq<char> {
    build(normalize_components(components(p)))
}

/// `Path::starts_with`: the components of `prefix` begin those of `p`.
pub open spec fn starts_with(p: Seq<char>, prefix: Seq<char>) -> bool {
    components(prefix).is_prefix_of(components(p))
}

/// `Path::ends_with`: the components of `suffix` end those of `p`.
pub open spec fn ends_with(p: Seq<char>, suffix: Seq<char>) -> bool {
    components(suffix).is_suffix_of(components(p))
}

/// `Path == Path`: equal component lists.
pub open spec fn same_path(a: Seq<char>, b: Seq<char>) -> bool {
    components(a) == components(b)
}

/// `Path::file_name`: the last component when it is a name.
pub open spec fn file_name(p: Seq<char>) -> Option<Seq<char>> {
    let cs = components(p);
    if cs.len() > 0 && cs.last() != slash() && cs.last() != dot() && cs.last() != dot_dot() {
        Some(cs.last())
    } else {
        None
    }
}

/// Index of the last `.` of a sequence, when there is one.
pub open spec fn last_dot(s: Seq<char>) -> Option<int>
    decreases s.len(),
{
    if s.len() == 0 {
        None
    } else if s.last() == '.' {
        Some(s.len() - 1)
    } else {
        last_dot(s.drop_last())
    }
}

/// `Path::extension`: what follows the last `.` of the file name, unless
/// that dot starts the name.
pub open spec fn extension(p: Seq<char>) -> Option<Seq<char>> {
    match file_name(p) {
        Some(name) => match last_dot(name) {
            Some(i) => if i == 0 {
                None
            } else {
                Some(name.skip(i + 1))
            },
            None => None,
        },
        None => None,
    }
}

/// `Path::file_stem`: the file name before the extension.
pub open spec fn file_stem(p: Seq<char>) -> Option<Seq<char>> {
    match file_name(p) {
        Some(name) => match last_dot(name) {
            Some(i) => if i == 0 {
                Some(name)
            } else {
                Some(name.take(i))
            },
            None => Some(name),
        },
        None => None,
    }
}

/// `Path::parent`: the path without its last component, when that
/// component is not the root.
pub open spec fn parent(p: Seq<char>) -> Option<Seq<char>> {
    let cs = components(p);
    if cs.len() > 0 && cs.last() != slash() {
        Some(build(cs.drop_last()))
    } else {
        None
    }
}

// ---------------------------------------------------------------------
// Lemmas

proof fn lemma_split_pieces_nonempty(p: Seq<char>)
    ensures
        split_pieces(p).len() >= 1,
    decreases p.len(),
{
    if p.len() > 0 {
        lemma_split_pieces_nonempty(p.drop_last());
    }
}

proof fn lemma_filter_push(s: Seq<Seq<char>>, x: Seq<char>)
    ensures
        s.push(x).filter(|t: Seq<char>| keeps_piece(t)) == if keeps_piece(x) {
            s.filter(|t: Seq<char>| keeps_piece(t)).push(x)
        } else {
            s.filter(|t: Seq<char>| keeps_piece(t))
        },
{
    reveal_with_fuel(Seq::filter, 1);
    assert(s.push(x).drop_last() =~= s);
}

// ---------------------------------------------------------------------
// Executable functions

/// The components of a path, as character sequences.
pub fn components_of(p: &str) -> (r: Vec<Vec<char>>)
    ensures
        r@.len() == components(p@).len(),
        forall|i: int| 0 <= i < r@.len() ==> #[trigger] r@[i]@ == components(p@)[i],
        views(r@) == components(p@),
{
    let r = components_of_impl(p);
    proof { assert(views(r@) =~= components(p@)); }
    r
}

fn components_of_impl(p: &str) -> (r: Vec<Vec<char>>)
    ensures
        r@.len() == components(p@).len(),
        forall|i: int| 0 <= i < r@.len() ==> #[trigger] r@[i]@ == components(p@)[i],
{
    let cs = chars_of(p);
    let n = cs.len();
    let mut named: Vec<Vec<char>> = Vec::new();
    let mut cur: Vec<char> = Vec::new();
    let mut i: usize = 0;
    proof { lemma_split_pieces_nonempty(cs@.take(0)); assert(cs@.take(0) =~= Seq::<char>::empty()); }
    while i < n
        invariant
            cs@ == p@,
            n == cs@.len(),
            0 <= i <= n,
            split_pieces(cs@.take(i as int)).len() >= 1,
            cur@ == split_pieces(cs@.take(i as int)).last(),
            named@.len() == split_pieces(cs@.take(i as int)).drop_last().filter(|t: Seq<char>| keeps_piece(t)).len(),
            forall|k: int| 0 <= k < named@.len() ==> #[trigger] named@[k]@
                == split_pieces(cs@.take(i as int)).drop_last().filter(|t: Seq<char>| keeps_piece(t))[k],
        decreases n - i,
    {
        let c = cs[i];
        let ghost pre = cs@.take(i as int);
        let ghost post = cs@.take(i + 1);
        proof {
            assert(post.drop_last() =~= pre);
            assert(post.last() == c);
            lemma_split_pieces_nonempty(pre);
        }
        if c == '/' {
            let ghost old_named = named@;
            proof {
                assert(split_pieces(post) == split_pieces(pre).push(Seq::<char>::empty()));
                assert(split_pieces(post).drop_last() =~= split_pieces(pre));
                assert(split_pieces(pre) =~= split_pieces(pre).drop_last().push(split_pieces(pre).last()));
                lemma_filter_push(split_pieces(pre).drop_last(), split_pieces(pre).last());
            }
            let keep = cur.len() != 0 && !(cur.len() == 1 && cur[0] == '.');
            proof {
                assert(keep == keeps_piece(cur@)) by {
                    if cur@ == dot() {
                        assert(cur@.len() == 1 && cur@[0] == '.');
                    }
                    if cur@.len() == 1 && cur@[0] == '.' {
                        assert(cur@ =~= dot());
                    }
                }
            }
            if keep {
                named.push(cur);
            }
            cur = Vec::new();
        } else {
            proof {
                let prev = split_pieces(pre);
                assert(split_pieces(post) == prev.update(prev.len() - 1, prev.last().push(c)));
                assert(split_pieces(post).drop_last() =~= prev.drop_last());
            }
            cur.push(c);
        }
        i = i + 1;
    }
    proof {
        assert(cs@.take(n as int) =~= cs@);
        let sp = split_pieces(cs@);
        assert(sp =~= sp.drop_last().push(sp.last()));
        lemma_filter_push(sp.drop_last(), sp.last());
    }
    let keep = cur.len() != 0 && !(cur.len() == 1 && cur[0] == '.');
    proof {
        assert(keep == keeps_piece(cur@)) by {
            if cur@ == dot() {
                assert(cur@.len() == 1 && cur@[0] == '.');
            }
            if cur@.len() == 1 && cur@[0] == '.' {
                assert(cur@ =~= dot());
            }
        }
    }
    if keep {
        named.push(cur);
    }
    let ghost named_spec = split_pieces(p@).filter(|t: Seq<char>| keeps_piece(t));
    let absolute = n > 0 && cs[0] == '/';
    let leading_cur = !absolute && n >= 1 && cs[0] == '.' && (n == 1 || cs[1] == '/');
    if absolute || leading_cur {
        let mut out: Vec<Vec<char>> = Vec::new();
        if absolute {
            out.push(vec!['/']);
            proof { assert(out@[0]@ =~= slash()); }
        } else {
            out.push(vec!['.']);
            proof { assert(out@[0]@ =~= dot()); }
        }
        let mut k: usize = 0;
        while k < named.len()
            invariant
                out@.len() == k + 1,
                named@.len() == named_spec.len(),
                forall|j: int| 0 <= j < named@.len() ==> #[trigger] named@[j]@ == named_spec[j],
                absolute ==> out@[0]@ == slash(),
                !absolute ==> out@[0]@ == dot(),
                forall|j: int| 1 <= j < out@.len() ==> #[trigger] out@[j]@ == named_spec[j - 1],
                0 <= k <= named@.len(),
            decreases named@.len() - k,
        {
            let piece = named[k].clone();
            out.push(piece);
            k = k + 1;
        }
        out
    } else {
        named
    }
}

/// The character views of a list of components.
pub open spec fn views(cs: Seq<Vec<char>>) -> Seq<Seq<char>> {
    cs.map_values(|v: Vec<char>| v@)
}

/// A string holding the path built from components.
pub fn build_string(cs: &Vec<Vec<char>>) -> (r: String)
    ensures
        r@ == build(cs@.map_values(|v: Vec<char>| v@)),
{
    let ghost views = cs@.map_values(|v: Vec<char>| v@);
    let mut out = String::new();
    let mut i: usize = 0;
    while i < cs.len()
        invariant
            0 <= i <= cs@.len(),
            views == cs@.map_values(|v: Vec<char>| v@),
            out@ == build(views.take(i as int)),
        decreases cs@.len() - i,
    {
        let c = &cs[i];
        let ghost acc = out@;
        proof {
            assert(views.take(i + 1).drop_last() =~= views.take(i as int));
            assert(views.take(i + 1).last() == c@);
        }
        let is_root = c.len() == 1 && c[0] == '/';
        proof {
            if c@ == slash() { assert(c@.len() == 1 && c@[0] == '/'); }
            if is_root { assert(c@ =~= slash()); }
        }
        if is_root {
            out = String::new();
            push_char(&mut out, '/');
            proof { assert(out@ =~= slash()); }
        } else {
            let empty = string_is_empty(&out);
            let ends_slash = !empty && string_ends_with_slash(&out);
            if !empty && !ends_slash {
                push_char(&mut out, '/');
            }
            let mut j: usize = 0;
            let ghost base = out@;
            while j < c.len()
                invariant
                    0 <= j <= c@.len(),
                    out@ == base + c@.take(j as int),
                decreases c@.len() - j,
            {
                push_char(&mut out, c[j]);
                proof { assert(base + c@.take(j + 1) =~= (base + c@.take(j as int)).push(c@[j as int])); }
                j = j + 1;
            }
            proof {
                assert(c@.take(c@.len() as int) =~= c@);
                if acc.len() == 0 {
                    assert(base =~= Seq::<char>::empty());
                    assert(out@ =~= c@);
                } else if acc.last() == '/' {
                    assert(base == acc);
                } else {
                    assert(base =~= acc + slash());
                }
            }
        }
        i = i + 1;
    }
    proof { assert(views.take(cs@.len() as int) =~= views); }
    out
}

/// True when the string holds no character.
fn string_is_empty(s: &String) -> (r: bool)
    ensures
        r == (s@.len() == 0),
{
    let cs = chars_of(s.as_str());
    cs.len() == 0
}

/// True when the last character of a non-empty string is `/`.
fn string_ends_with_slash(s: &String) -> (r: bool)
    requires
        s@.len() > 0,
    ensures
        r == (s@.last() == '/'),
{
    let cs = chars_of(s.as_str());
    cs[cs.len() - 1] == '/'
}


fn is_root_piece(c: &Vec<char>) -> (r: bool)
    ensures
        r == (c@ == slash()),
{
    let r = c.len() == 1 && c[0] == '/';
    proof {
        if c@ == slash() { assert(c@.len() == 1 && c@[0] == '/'); }
        if r { assert(c@ =~= slash()); }
    }
    r
}

fn is_dot_piece(c: &Vec<char>) -> (r: bool)
    ensures
        r == (c@ == dot()),
{
    let r = c.len() == 1 && c[0] == '.';
    proof {
        if c@ == dot() { assert(c@.len() == 1 && c@[0] == '.'); }
        if r { assert(c@ =~= dot()); }
    }
    r
}

fn is_dot_dot_piece(c: &Vec<char>) -> (r: bool)
    ensures
        r == (c@ == dot_dot()),
{
    let r = c.len() == 2 && c[0] == '.' && c[1] == '.';
    proof {
        if c@ == dot_dot() { assert(c@.len() == 2 && c@[0] == '.' && c@[1] == '.'); }
        if r { assert(c@ =~= dot_dot()); }
    }
    r
}

/// Lexical normalization of a path (see [`normalize`]).
pub fn normalize_path(p: &str) -> (r: String)
    ensures
        r@ == normalize(p@),
{
    let cs = components_of(p);
    let mut out: Vec<Vec<char>> = Vec::new();
    let mut i: usize = 0;
    while i < cs.len()
        invariant
            0 <= i <= cs@.len(),
            views(cs@) == components(p@),
            views(out@) == normalize_components(views(cs@).take(i as int)),
        decreases cs@.len() - i,
    {
        let c = &cs[i];
        let ghost before = views(out@);
        proof {
            assert(views(cs@).take(i + 1).drop_last() =~= views(cs@).take(i as int));
            assert(views(cs@).take(i + 1).last() == c@);
        }
        if is_dot_dot_piece(c) {
            if out.len() > 0 && !is_root_piece(&out[out.len() - 1]) {
                out.pop();
                proof { assert(views(out@) =~= before.drop_last()); }
            }
        } else if is_dot_piece(c) {
        } else if is_root_piece(c) {
            out = Vec::new();
            out.push(c.clone());
            proof { assert(views(out@) =~= seq![slash()]); }
        } else {
            out.push(c.clone());
            proof { assert(views(out@) =~= before.push(c@)); }
        }
        i = i + 1;
    }
    proof { assert(views(cs@).take(cs@.len() as int) =~= views(cs@)); }
    build_string(&out)
}

/// `Path::join` (see [`join`]).
pub fn join_path(base: &str, rel: &str) -> (r: String)
    ensures
        r@ == join(base@, rel@),
{
    let b = chars_of(base);
    let r = chars_of(rel);
    let mut out: Vec<char> = Vec::new();
    if r.len() > 0 && r[0] == '/' {
        out = r;
    } else if b.len() == 0 {
        out = r;
    } else {
        out = b.clone();
        if b[b.len() - 1] != '/' {
            out.push('/');
        }
        let ghost head = out@;
        let mut j: usize = 0;
        while j < r.len()
            invariant
                0 <= j <= r@.len(),
                out@ == head + r@.take(j as int),
            decreases r@.len() - j,
        {
            out.push(r[j]);
            proof { assert(head + r@.take(j + 1) =~= (head + r@.take(j as int)).push(r@[j as int])); }
            j = j + 1;
        }
        proof {
            assert(r@.take(r@.len() as int) =~= r@);
            if b@.last() != '/' {
                assert(head =~= b@ + slash());
            }
        }
    }
    crate::text::string_of(out.as_slice())
}

fn pieces_eq(a: &Vec<char>, b: &Vec<char>) -> (r: bool)
    ensures
        r == (a@ == b@),
{
    crate::text::chars_eq(a.as_slice(), b.as_slice())
}

/// `Path::starts_with` (see [`starts_with`]).
pub fn path_starts_with(p: &str, prefix: &str) -> (r: bool)
    ensures
        r == starts_with(p@, prefix@),
{
    let a = components_of(p);
    let b = components_of(prefix);
    if b.len() > a.len() {
        return false;
    }
    let mut i: usize = 0;
    while i < b.len()
        invariant
            b@.len() <= a@.len(),
            views(a@) == components(p@),
            views(b@) == components(prefix@),
            0 <= i <= b@.len(),
            forall|j: int| 0 <= j < i ==> components(prefix@)[j] == components(p@)[j],
        decreases b@.len() - i,
    {
        if !pieces_eq(&a[i], &b[i]) {
            proof { assert(views(a@)[i as int] != views(b@)[i as int]); }
            return false;
        }
        i = i + 1;
    }
    true
}

/// `Path::ends_with` (see [`ends_with`]).
pub fn path_ends_with(p: &str, suffix: &str) -> (r: bool)
    ensures
        r == ends_with(p@, suffix@),
{
    let a = components_of(p);
    let b = components_of(suffix);
    if b.len() > a.len() {
        return false;
    }
    let alen = a.len();
    let off = alen - b.len();
    let mut i: usize = 0;
    while i < b.len()
        invariant
            alen == a@.len(),
            b@.len() <= a@.len(),
            off == a@.len() - b@.len(),
            views(a@) == components(p@),
            views(b@) == components(suffix@),
            0 <= i <= b@.len(),
            forall|j: int| 0 <= j < i ==> components(suffix@)[j] == components(p@)[j + off],
        decreases b@.len() - i,
    {
        assert(off + i < a@.len());
        if !pieces_eq(&a[off + i], &b[i]) {
            proof { assert(views(a@)[off + i] != views(b@)[i as int]); }
            return false;
        }
        i = i + 1;
    }
    true
}

/// Component-wise path equality (see [`same_path`]).
pub fn paths_equal(a: &str, b: &str) -> (r: bool)
    ensures
        r == same_path(a@, b@),
{
    let x = components_of(a);
    let y = components_of(b);
    if x.len() != y.len() {
        return false;
    }
    let mut i: usize = 0;
    while i < x.len()
        invariant
            x@.len() == y@.len(),
            views(x@) == components(a@),
            views(y@) == components(b@),
            0 <= i <= x@.len(),
            forall|j: int| 0 <= j < i ==> components(a@)[j] == components(b@)[j],
        decreases x@.len() - i,
    {
        if !pieces_eq(&x[i], &y[i]) {
            proof { assert(views(x@)[i as int] != views(y@)[i as int]); }
            return false;
        }
        i = i + 1;
    }
    proof { assert(components(a@) =~= components(b@)); }
    true
}

/// `Path::file_name` (see [`file_name`]).
pub fn file_name_of(p: &str) -> (r: Option<String>)
    ensures
        r.is_some() == file_name(p@).is_some(),
        r matches Some(s) ==> s@ == file_name(p@)->0,
{
    let cs = components_of(p);
    if cs.len() == 0 {
        return None;
    }
    let last = &cs[cs.len() - 1];
    proof { assert(views(cs@).last() == last@); }
    if is_root_piece(last) || is_dot_piece(last) || is_dot_dot_piece(last) {
        None
    } else {
        Some(crate::text::string_of(last.as_slice()))
    }
}

fn last_dot_index(s: &Vec<char>) -> (r: Option<usize>)
    ensures
        r matches Some(i) ==> last_dot(s@) == Some(i as int) && i < s@.len(),
        r is None ==> last_dot(s@) is None,
{
    let mut k: usize = s.len();
    proof { assert(s@.take(s@.len() as int) =~= s@); }
    while k > 0
        invariant
            0 <= k <= s@.len(),
            last_dot(s@) == last_dot(s@.take(k as int)),
        decreases k,
    {
        proof { assert(s@.take(k as int).drop_last() =~= s@.take(k - 1)); }
        if s[k - 1] == '.' {
            return Some(k - 1);
        }
        k = k - 1;
    }
    None
}

/// `Path::extension` (see [`extension`]).
pub fn extension_of(p: &str) -> (r: Option<String>)
    ensures
        r.is_some() == extension(p@).is_some(),
        r matches Some(s) ==> s@ == extension(p@)->0,
{
    match file_name_of(p) {
        None => None,
        Some(name) => {
            let cs = chars_of(name.as_str());
            match last_dot_index(&cs) {
                None => None,
                Some(i) => {
                    if i == 0 {
                        None
                    } else {
                        let mut out: Vec<char> = Vec::new();
                        let n = cs.len();
                        assert(i < n);
                        let mut j: usize = i + 1;
                        while j < cs.len()
                            invariant
                                i + 1 <= j <= cs@.len(),
                                out@ =~= cs@.subrange(i + 1, j as int),
                            decreases cs@.len() - j,
                        {
                            out.push(cs[j]);
                            j = j + 1;
                        }
                        Some(crate::text::string_of(out.as_slice()))
                    }
                }
            }
        }
    }
}

/// `Path::file_stem` (see [`file_stem`]).
pub fn file_stem_of(p: &str) -> (r: Option<String>)
    ensures
        r.is_some() == file_stem(p@).is_some(),
        r matches Some(s) ==> s@ == file_stem(p@)->0,
{
    match file_name_of(p) {
        None => None,
        Some(name) => {
            let cs = chars_of(name.as_str());
            match last_dot_index(&cs) {
                None => Some(name),
                Some(i) => {
                    if i == 0 {
                        Some(name)
                    } else {
                        let mut out: Vec<char> = Vec::new();
                        let mut j: usize = 0;
                        while j < i
                            invariant
                                0 <= j <= i < cs@.len(),
                                out@ =~= cs@.take(j as int),
                            decreases i - j,
                        {
                            out.push(cs[j]);
                            j = j + 1;
                        }
                        Some(crate::text::string_of(out.as_slice()))
                    }
                }
            }
        }
    }
}

/// `Path::parent` (see [`parent`]).
pub fn parent_of(p: &str) -> (r: Option<String>)
    ensures
        r.is_some() == parent(p@).is_some(),
        r matches Some(s) ==> s@ == parent(p@)->0,
{
    let mut cs = components_of(p);
    if cs.len() == 0 {
        return None;
    }
    proof { assert(views(cs@).last() == cs@.last()@); }
    if is_root_piece(&cs[cs.len() - 1]) {
        return None;
    }
    let ghost all = views(cs@);
    cs.pop();
    proof { assert(views(cs@) =~= all.drop_last()); }
    Some(build_string(&cs))
}

// ---------------------------------------------------------------------
// Order of paths

/// Rank of a component in `std::path::Component`'s order: the root, then the
/// current directory, then the parent directory, then named components.
pub open spec fn component_rank(c: Seq<char>) -> int {
    if c == slash() {
        0
    } else if c == dot() {
        1
    } else if c == dot_dot() {
        2
    } else {
        3
    }
}

/// Three-way order of two components: by rank, then by text.
pub open spec fn component_order(a: Seq<char>, b: Seq<char>) -> int {
    if component_rank(a) != component_rank(b) {
        int_order(component_rank(a), component_rank(b))
    } else {
        text_order(a, b)
    }
}

/// `Path`'s `Ord`: the component lists compared lexicographically.
pub open spec fn path_order(a: Seq<char>, b: Seq<char>) -> int {
    lex_order(components(a), components(b), |x: Seq<char>, y: Seq<char>| component_order(x, y))
}

/// The order of components is a total order.
pub proof fn lemma_component_order_total()
    ensures
        is_total_order(|x: Seq<char>, y: Seq<char>| component_order(x, y)),
{
    lemma_text_order_total();
    let t = |x: Seq<char>, y: Seq<char>| text_order(x, y);
    let c = |x: Seq<char>, y: Seq<char>| component_order(x, y);
    assert forall|x: Seq<char>, y: Seq<char>| -1 <= #[trigger] c(x, y) <= 1 by {
        assert(-1 <= t(x, y) <= 1);
    }
    assert forall|x: Seq<char>, y: Seq<char>| #[trigger] c(x, y) == -c(y, x) by {
        assert(t(x, y) == -t(y, x));
    }
    assert forall|x: Seq<char>, y: Seq<char>| (#[trigger] c(x, y) == 0) <==> x == y by {
        assert((t(x, y) == 0) <==> x == y);
    }
    assert forall|x: Seq<char>, y: Seq<char>, z: Seq<char>| #[trigger] c(x, y) <= 0 && #[trigger] c(y, z) <= 0 implies c(x, z) <= 0 by {
        assert(t(x, y) <= 0 && t(y, z) <= 0 ==> t(x, z) <= 0);
        assert((t(x, z) == 0) <==> x == z);
        assert(t(x, z) == -t(z, x));
        assert((t(x, y) == 0) <==> x == y);
        assert((t(y, z) == 0) <==> y == z);
    }
}

/// The order of paths is a total preorder (paths with equal components are
/// equal in it).
pub proof fn lemma_path_order(a: Seq<char>, b: Seq<char>, c: Seq<char>)
    ensures
        -1 <= path_order(a, b) <= 1,
        path_order(a, b) == -path_order(b, a),
        path_order(a, b) <= 0 && path_order(b, c) <= 0 ==> path_order(a, c) <= 0,
        (path_order(a, b) == 0) <==> same_path(a, b),
{
    let co = |x: Seq<char>, y: Seq<char>| component_order(x, y);
    lemma_component_order_total();
    lemma_lex_total(co);
    let l = |x: Seq<Seq<char>>, y: Seq<Seq<char>>| lex_order(x, y, co);
    assert(-1 <= l(components(a), components(b)) <= 1);
    assert(l(components(a), components(b)) == -l(components(b), components(a)));
    assert(l(components(a), components(b)) <= 0 && l(components(b), components(c)) <= 0 ==> l(components(a), components(c)) <= 0);
    assert((l(components(a), components(b)) == 0) <==> components(a) == components(b));
}

fn component_rank_of(c: &Vec<char>) -> (r: u8)
    ensures
        r as int == component_rank(c@),
{
    if is_root_piece(c) {
        0
    } else if is_dot_piece(c) {
        1
    } else if is_dot_dot_piece(c) {
        2
    } else {
        3
    }
}

fn compare_components(a: &Vec<char>, b: &Vec<char>) -> (r: i8)
    ensures
        r as int == component_order(a@, b@),
{
    let ra = component_rank_of(a);
    let rb = component_rank_of(b);
    if ra < rb {
        -1
    } else if rb < ra {
        1
    } else {
        compare_text(a.as_slice(), b.as_slice())
    }
}

/// Three-way comparison of two paths (see [`path_order`]).
pub fn compare_paths(a: &str, b: &str) -> (r: i8)
    ensures
        r as int == path_order(a@, b@),
{
    let x = components_of(a);
    let y = components_of(b);
    let ghost co = |p: Seq<char>, q: Seq<char>| component_order(p, q);
    let mut i: usize = 0;
    proof {
        assert(views(x@).skip(0) =~= views(x@));
        assert(views(y@).skip(0) =~= views(y@));
    }
    while i < x.len() && i < y.len()
        invariant
            views(x@) == components(a@),
            views(y@) == components(b@),
            0 <= i <= x@.len(),
            i <= y@.len(),
            co == (|p: Seq<char>, q: Seq<char>| component_order(p, q)),
            path_order(a@, b@) == lex_order(views(x@).skip(i as int), views(y@).skip(i as int), co),
        decreases x@.len() - i,
    {
        let c = compare_components(&x[i], &y[i]);
        proof {
            assert(views(x@).skip(i as int)[0] == x@[i as int]@);
            assert(views(y@).skip(i as int)[0] == y@[i as int]@);
            assert(views(x@).skip(i as int).drop_first() =~= views(x@).skip(i + 1));
            assert(views(y@).skip(i as int).drop_first() =~= views(y@).skip(i + 1));
        }
        if c != 0 {
            return c;
        }
        i = i + 1;
    }
    if i < x.len() {
        1
    } else if i < y.len() {
        -1
    } else {
        0
    }
}

/// A path with every `\` turned into `/`.
pub open spec fn portable(p: Seq<char>) -> Seq<char> {
    p.map_values(|c: char| if c == '\\' { '/' } else { c })
}

/// The portable spelling of a path: `/` separators only.
pub fn portable_path(p: &str) -> (r: String)
    ensures
        r@ == portable(p@),
{
    let cs = chars_of(p);
    let mut out = String::new();
    let mut i: usize = 0;
    while i < cs.len()
        invariant
            cs@ == p@,
            0 <= i <= cs@.len(),
            out@ == portable(cs@.take(i as int)),
        decreases cs@.len() - i,
    {
        let c = cs[i];
        push_char(&mut out, if c == '\\' { '/' } else { c });
        proof { assert(portable(cs@.take(i + 1)) =~= portable(cs@.take(i as int)).push(if c == '\\' { '/' } else { c })); }
        i = i + 1;
    }
    proof { assert(cs@.take(i as int) =~= cs@); }
    out
}

} // verus!
