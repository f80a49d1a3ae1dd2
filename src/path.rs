use vstd::prelude::*;
use vstd::multiset::Multiset;
use vstd::relations::{sorted_by, total_ordering};
use vstd::seq_lib::{lemma_sorted_unique, to_multiset_insert, to_multiset_build};

verus! {

/// A path as the sequence of its components, root first. Its base name is the
/// last component.
#[derive(Debug, PartialEq, Eq)]
pub struct FsPath {
    parts: Vec<String>,
}

/// Texts of a list of strings.
pub open spec fn texts_of(v: Seq<String>) -> Seq<Seq<char>> {
    v.map_values(|s: String| s@)
}

impl View for FsPath {
    type V = Seq<Seq<char>>;

    closed spec fn view(&self) -> Seq<Seq<char>> {
        texts_of(self.parts@)
    }
}

/// Views of a list of paths.
pub open spec fn paths_view(v: Seq<FsPath>) -> Seq<Seq<Seq<char>>> {
    v.map_values(|p: FsPath| p@)
}

/// Order of characters by code point, which is also the order of their UTF-8
/// encodings.
pub open spec fn char_lt(a: char, b: char) -> bool {
    (a as u32) < (b as u32)
}

/// Strict lexicographic order of component texts.
pub open spec fn text_lt(a: Seq<char>, b: Seq<char>) -> bool
    decreases a.len(),
{
    if a.len() == 0 {
        b.len() > 0
    } else if b.len() == 0 {
        false
    } else if a[0] != b[0] {
        char_lt(a[0], b[0])
    } else {
        text_lt(a.drop_first(), b.drop_first())
    }
}

/// Strict lexicographic order of component sequences.
pub open spec fn parts_lt(a: Seq<Seq<char>>, b: Seq<Seq<char>>) -> bool
    decreases a.len(),
{
    if a.len() == 0 {
        b.len() > 0
    } else if b.len() == 0 {
        false
    } else if a[0] != b[0] {
        text_lt(a[0], b[0])
    } else {
        parts_lt(a.drop_first(), b.drop_first())
    }
}

/// The result order: fewer components first; among paths with as many
/// components, lexicographic order of the components.
pub open spec fn path_lt(a: Seq<Seq<char>>, b: Seq<Seq<char>>) -> bool {
    a.len() < b.len() || (a.len() == b.len() && parts_lt(a, b))
}

/// `path_lt` or equal.
pub open spec fn path_le(a: Seq<Seq<char>>, b: Seq<Seq<char>>) -> bool {
    a == b || path_lt(a, b)
}

/// `path_le` as a relation.
pub open spec fn path_order() -> spec_fn(Seq<Seq<char>>, Seq<Seq<char>>) -> bool {
    |a: Seq<Seq<char>>, b: Seq<Seq<char>>| path_le(a, b)
}

proof fn lemma_char_lt_total(a: char, b: char)
    ensures
        !char_lt(a, a),
        char_lt(a, b) ==> !char_lt(b, a),
        a != b ==> char_lt(a, b) || char_lt(b, a),
{
}


proof fn lemma_text_lt_irreflexive(a: Seq<char>)
    ensures
        !text_lt(a, a),
    decreases a.len(),
{
    if a.len() > 0 {
        lemma_text_lt_irreflexive(a.drop_first());
    }
}

proof fn lemma_text_lt_asymmetric(a: Seq<char>, b: Seq<char>)
    ensures
        text_lt(a, b) ==> !text_lt(b, a),
    decreases a.len(),
{
    lemma_char_lt_total(a[0], b[0]);
    if a.len() > 0 && b.len() > 0 && a[0] == b[0] {
        lemma_text_lt_asymmetric(a.drop_first(), b.drop_first());
    }
}

proof fn lemma_text_lt_transitive(a: Seq<char>, b: Seq<char>, c: Seq<char>)
    requires
        text_lt(a, b),
        text_lt(b, c),
    ensures
        text_lt(a, c),
    decreases a.len(),
{
    if a.len() > 0 && b.len() > 0 && c.len() > 0 && a[0] == b[0] && b[0] == c[0] {
        lemma_text_lt_transitive(a.drop_first(), b.drop_first(), c.drop_first());
    }
}

proof fn lemma_text_lt_connected(a: Seq<char>, b: Seq<char>)
    ensures
        a != b ==> text_lt(a, b) || text_lt(b, a),
    decreases a.len(),
{
    if a.len() > 0 && b.len() > 0 {
        lemma_char_lt_total(a[0], b[0]);
        if a[0] == b[0] {
            lemma_text_lt_connected(a.drop_first(), b.drop_first());
            if a.drop_first() == b.drop_first() {
                assert(a =~= seq![a[0]] + a.drop_first());
                assert(b =~= seq![b[0]] + b.drop_first());
            }
        }
    } else if a.len() == 0 && b.len() == 0 {
        assert(a =~= b);
    }
}

proof fn lemma_parts_lt_irreflexive(a: Seq<Seq<char>>)
    ensures
        !parts_lt(a, a),
    decreases a.len(),
{
    if a.len() > 0 {
        lemma_parts_lt_irreflexive(a.drop_first());
    }
}

proof fn lemma_parts_lt_asymmetric(a: Seq<Seq<char>>, b: Seq<Seq<char>>)
    ensures
        parts_lt(a, b) ==> !parts_lt(b, a),
    decreases a.len(),
{
    if a.len() > 0 && b.len() > 0 {
        lemma_text_lt_asymmetric(a[0], b[0]);
        if a[0] == b[0] {
            lemma_parts_lt_asymmetric(a.drop_first(), b.drop_first());
        }
    }
}

proof fn lemma_parts_lt_transitive(a: Seq<Seq<char>>, b: Seq<Seq<char>>, c: Seq<Seq<char>>)
    requires
        parts_lt(a, b),
        parts_lt(b, c),
    ensures
        parts_lt(a, c),
    decreases a.len(),
{
    if a.len() > 0 && b.len() > 0 && c.len() > 0 {
        if a[0] == b[0] && b[0] == c[0] {
            lemma_parts_lt_transitive(a.drop_first(), b.drop_first(), c.drop_first());
        } else if a[0] != b[0] && b[0] != c[0] {
            lemma_text_lt_transitive(a[0], b[0], c[0]);
            lemma_text_lt_irreflexive(a[0]);
        }
    }
}

proof fn lemma_parts_lt_connected(a: Seq<Seq<char>>, b: Seq<Seq<char>>)
    ensures
        a != b ==> parts_lt(a, b) || parts_lt(b, a),
    decreases a.len(),
{
    if a.len() > 0 && b.len() > 0 {
        lemma_text_lt_connected(a[0], b[0]);
        if a[0] == b[0] {
            lemma_parts_lt_connected(a.drop_first(), b.drop_first());
            if a.drop_first() == b.drop_first() {
                assert(a =~= seq![a[0]] + a.drop_first());
                assert(b =~= seq![b[0]] + b.drop_first());
            }
        }
    } else if a.len() == 0 && b.len() == 0 {
        assert(a =~= b);
    }
}

/// The result order is a total order.
pub proof fn lemma_path_order_total()
    ensures
        total_ordering(path_order()),
{
    let r = path_order();
    assert forall|a: Seq<Seq<char>>, b: Seq<Seq<char>>| #[trigger] r(a, b) && #[trigger] r(b, a) implies a == b by {
        lemma_parts_lt_asymmetric(a, b);
    }
    assert forall|a: Seq<Seq<char>>, b: Seq<Seq<char>>, c: Seq<Seq<char>>| #[trigger] r(a, b) && #[trigger] r(b, c) implies r(a, c) by {
        if a != b && b != c && a.len() == b.len() && b.len() == c.len() {
            lemma_parts_lt_transitive(a, b, c);
        }
    }
    assert forall|a: Seq<Seq<char>>, b: Seq<Seq<char>>| #[trigger] r(a, b) || #[trigger] r(b, a) by {
        lemma_parts_lt_connected(a, b);
    }
}


/// The base name of a path: its last component, or empty for an empty path.
pub open spec fn base_name(p: Seq<Seq<char>>) -> Seq<char> {
    if p.len() == 0 {
        Seq::empty()
    } else {
        p.last()
    }
}

impl FsPath {
    /// The path made of `parts`, root first.
    pub fn new(parts: Vec<String>) -> (r: FsPath)
        ensures
            r@ == texts_of(parts@),
    {
        FsPath { parts }
    }

    /// The components, root first.
    pub fn components(&self) -> (r: &Vec<String>)
        ensures
            texts_of(r@) == self@,
    {
        &self.parts
    }

    /// The number of components.
    pub fn len(&self) -> (r: usize)
        ensures
            r == self@.len(),
    {
        self.parts.len()
    }

    /// The base name: the last component, or "" for an empty path.
    pub fn name(&self) -> (r: &str)
        ensures
            r@ == base_name(self@),
    {
        if self.parts.len() == 0 {
            proof {
                reveal_strlit("");
            }
            ""
        } else {
            assert(texts_of(self.parts@).last() == self.parts@.last()@);
            self.parts[self.parts.len() - 1].as_str()
        }
    }

    /// A second path with the same components.
    pub fn duplicate(&self) -> (r: FsPath)
        ensures
            r@ == self@,
    {
        let mut parts: Vec<String> = Vec::new();
        let mut i: usize = 0;
        while i < self.parts.len()
            invariant
                0 <= i <= self.parts@.len(),
                texts_of(parts@) == texts_of(self.parts@).subrange(0, i as int),
            decreases self.parts@.len() - i,
        {
            let ghost before = parts@;
            parts.push(self.parts[i].clone());
            assert(texts_of(parts@) =~= texts_of(before).push(self.parts@[i as int]@));
            assert(texts_of(self.parts@).subrange(0, i + 1) =~= texts_of(self.parts@).subrange(0, i as int).push(self.parts@[i as int]@));
            i = i + 1;
        }
        assert(texts_of(self.parts@).subrange(0, i as int) =~= self@);
        FsPath { parts }
    }

    /// The entry called `name` inside this directory.
    pub fn child(&self, name: String) -> (r: FsPath)
        ensures
            r@ == self@.push(name@),
    {
        let mut parts = self.duplicate().parts;
        let ghost before = parts@;
        parts.push(name);
        assert(texts_of(parts@) =~= texts_of(before).push(name@));
        FsPath { parts }
    }
}

/// Whether `a` comes before `b` in code-point order.
pub fn text_less(a: &str, b: &str) -> (r: bool)
    ensures
        r == text_lt(a@, b@),
{
    let la = a.unicode_len();
    let lb = b.unicode_len();
    let mut i: usize = 0;
    assert(a@.skip(0) =~= a@);
    assert(b@.skip(0) =~= b@);
    while i < la && i < lb
        invariant
            la == a@.len(),
            lb == b@.len(),
            0 <= i <= la,
            i <= lb,
            text_lt(a@, b@) == text_lt(a@.skip(i as int), b@.skip(i as int)),
        decreases la - i,
    {
        let ca = a.get_char(i);
        let cb = b.get_char(i);
        if ca != cb {
            return (ca as u32) < (cb as u32);
        }
        assert(a@.skip(i as int).drop_first() =~= a@.skip(i + 1));
        assert(b@.skip(i as int).drop_first() =~= b@.skip(i + 1));
        i = i + 1;
    }
    i < lb
}

/// Whether `a` comes before `b` in the lexicographic order of components.
fn parts_less(a: &Vec<String>, b: &Vec<String>) -> (r: bool)
    ensures
        r == parts_lt(texts_of(a@), texts_of(b@)),
{
    let ghost ta = texts_of(a@);
    let ghost tb = texts_of(b@);
    let mut i: usize = 0;
    assert(ta.skip(0) =~= ta);
    assert(tb.skip(0) =~= tb);
    while i < a.len() && i < b.len()
        invariant
            ta == texts_of(a@),
            tb == texts_of(b@),
            0 <= i <= a@.len(),
            i <= b@.len(),
            parts_lt(ta, tb) == parts_lt(ta.skip(i as int), tb.skip(i as int)),
        decreases a@.len() - i,
    {
        let ea: &str = a[i].as_str();
        let eb: &str = b[i].as_str();
        assert(ta.skip(i as int)[0] == ea@);
        assert(tb.skip(i as int)[0] == eb@);
        if text_less(ea, eb) {
            proof {
                lemma_text_lt_irreflexive(ea@);
            }
            return true;
        }
        if text_less(eb, ea) {
            proof {
                lemma_text_lt_asymmetric(ea@, eb@);
            }
            return false;
        }
        proof {
            lemma_text_lt_connected(ea@, eb@);
        }
        assert(ta.skip(i as int).drop_first() =~= ta.skip(i + 1));
        assert(tb.skip(i as int).drop_first() =~= tb.skip(i + 1));
        i = i + 1;
    }
    i < b.len()
}

/// Whether `a` comes strictly before `b` in the result order.
pub fn path_less(a: &FsPath, b: &FsPath) -> (r: bool)
    ensures
        r == path_lt(a@, b@),
{
    let la = a.parts.len();
    let lb = b.parts.len();
    if la != lb {
        la < lb
    } else {
        parts_less(&a.parts, &b.parts)
    }
}

/// Sorts `paths` into the result order: fewer components first, then
/// lexicographic order of the components.
pub fn sort_paths(paths: Vec<FsPath>) -> (r: Vec<FsPath>)
    ensures
        paths_view(r@) == paths_view(paths@).sort_by(path_order()),
        sorted_by(paths_view(r@), path_order()),
        paths_view(r@).to_multiset() == paths_view(paths@).to_multiset(),
{
    broadcast use vstd::seq_lib::group_to_multiset_ensures;
    let ghost all = paths_view(paths@);
    let mut rest = paths;
    let mut sorted: Vec<FsPath> = Vec::new();
    proof {
        lemma_path_order_total();
    }
    while rest.len() > 0
        invariant
            total_ordering(path_order()),
            sorted_by(paths_view(sorted@), path_order()),
            paths_view(sorted@).to_multiset().add(paths_view(rest@).to_multiset()) == all.to_multiset(),
        decreases rest@.len(),
    {
        let ghost rest_before = rest@;
        let x = rest.pop().unwrap();
        assert(rest_before =~= rest@.push(x));
        assert(paths_view(rest_before) =~= paths_view(rest@).push(x@));
        let mut p: usize = 0;
        while p < sorted.len() && !path_less(&x, &sorted[p])
            invariant
                total_ordering(path_order()),
                0 <= p <= sorted@.len(),
                forall|k: int| 0 <= k < p ==> path_le(#[trigger] paths_view(sorted@)[k], x@),
            decreases sorted@.len() - p,
        {
            proof {
                lemma_parts_lt_connected(x@, sorted@[p as int]@);
            }
            p = p + 1;
        }
        let ghost sv = paths_view(sorted@);
        sorted.insert(p, x);
        assert(paths_view(sorted@) =~= sv.insert(p as int, x@));
        assert forall|i: int, j: int| 0 <= i < j < paths_view(sorted@).len() implies #[trigger] path_order()(paths_view(sorted@)[i], paths_view(sorted@)[j]) by {
            let s = paths_view(sorted@);
            if p < sv.len() {
                assert(path_lt(x@, sv[p as int]));
            }
            if j < p {
                assert(path_order()(sv[i], sv[j]));
            } else if j == p {
            } else if i < p {
                assert(path_order()(sv[i], sv[j - 1]));
            } else if i == p {
                assert(path_order()(sv[p as int], sv[j - 1]));
                assert(path_order()(x@, sv[p as int]));
            } else {
                assert(path_order()(sv[i - 1], sv[j - 1]));
            }
        }
        proof {
            to_multiset_insert(sv, p as int, x@);
            to_multiset_build(paths_view(rest@), x@);
        }
        assert(paths_view(sorted@).to_multiset().add(paths_view(rest@).to_multiset()) =~= all.to_multiset());
    }
    proof {
        assert(paths_view(rest@).to_multiset() =~= Multiset::empty());
        assert(paths_view(sorted@).to_multiset() =~= all.to_multiset());
        all.lemma_sort_by_ensures(path_order());
        lemma_sorted_unique(paths_view(sorted@), all.sort_by(path_order()), path_order());
    }
    sorted
}

/// In a result, a path with fewer components comes first, and among paths
/// with as many components the lexicographically smaller one comes first.
pub proof fn lemma_result_order(r: Seq<Seq<Seq<char>>>, i: int, j: int)
    requires
        sorted_by(r, path_order()),
        0 <= i < r.len(),
        0 <= j < r.len(),
    ensures
        r[i].len() < r[j].len() ==> i < j,
        r[i].len() == r[j].len() && parts_lt(r[i], r[j]) ==> i < j,
{
    if j < i {
        assert(path_order()(r[j], r[i]));
        lemma_parts_lt_asymmetric(r[i], r[j]);
    } else if i == j {
        lemma_parts_lt_irreflexive(r[i]);
    }
}

/// The result depends only on which files were collected, not on the order in
/// which the walk met them: listing order and stack order do not show, so an
/// unchanged filesystem gives the same result every time.
pub proof fn lemma_result_ignores_walk_order(a: Seq<Seq<Seq<char>>>, b: Seq<Seq<Seq<char>>>)
    requires
        a.to_multiset() == b.to_multiset(),
    ensures
        a.sort_by(path_order()) == b.sort_by(path_order()),
{
    lemma_path_order_total();
    a.lemma_sort_by_ensures(path_order());
    b.lemma_sort_by_ensures(path_order());
    lemma_sorted_unique(a.sort_by(path_order()), b.sort_by(path_order()), path_order());
}

} // verus!
