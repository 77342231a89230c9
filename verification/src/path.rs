//! Paths as sequences of name components.
//!
//! A path in the model is a `Vec<String>` of components; its mathematical
//! value is the `Seq<Seq<char>>` given by `deep_view()`.

use vstd::prelude::*;
use vstd::string::StrSliceExecFns;

verus! {

/// A name marks its entry as hidden when its first character is `.`.
pub open spec fn hidden_name(name: Seq<char>) -> bool {
    name.len() > 0 && name[0] == '.'
}

/// Whether the given component is a hidden name.
pub fn is_hidden(name: &String) -> (r: bool)
    ensures
        r == hidden_name(name@),
{
    name.as_str().unicode_len() > 0 && name.as_str().get_char(0) == '.'
}

/// Whether the given component can mark a visible entry: it has a
/// first character, and that character is not a dot.
pub fn is_visible_name(name: &String) -> (r: bool)
    ensures
        r == (name@.len() > 0 && !hidden_name(name@)),
{
    name.as_str().unicode_len() > 0 && !(name.as_str().get_char(0) == '.')
}

/// `p` is an initial segment of `q` (possibly all of `q`).
pub open spec fn is_prefix(p: Seq<Seq<char>>, q: Seq<Seq<char>>) -> bool {
    p.len() <= q.len() && forall|i: int| 0 <= i < p.len() ==> p[i] == q[i]
}

/// `p` is a proper initial segment of `q`.
pub open spec fn is_strict_prefix(p: Seq<Seq<char>>, q: Seq<Seq<char>>) -> bool {
    is_prefix(p, q) && p.len() < q.len()
}

/// Whether two paths have the same components.
pub fn path_eq(a: &Vec<String>, b: &Vec<String>) -> (r: bool)
    ensures
        r == (a.deep_view() == b.deep_view()),
{
    if a.len() != b.len() {
        assert(a.deep_view().len() != b.deep_view().len());
        return false;
    }
    let n = a.len();
    let mut i: usize = 0;
    while i < n
        invariant
            n == a@.len(),
            n == b@.len(),
            i <= n,
            forall|j: int| 0 <= j < i ==> a@[j]@ == b@[j]@,
        decreases n - i,
    {
        if !(a[i] == b[i]) {
            assert(a.deep_view()[i as int] != b.deep_view()[i as int]);
            return false;
        }
        i += 1;
    }
    proof {
        assert(a.deep_view() =~= b.deep_view());
    }
    true
}

/// Whether `prefix` is an initial segment of `p`.
pub fn starts_with(prefix: &Vec<String>, p: &Vec<String>) -> (r: bool)
    ensures
        r == is_prefix(prefix.deep_view(), p.deep_view()),
{
    if prefix.len() > p.len() {
        return false;
    }
    let n = prefix.len();
    let mut i: usize = 0;
    while i < n
        invariant
            n == prefix@.len(),
            n <= p@.len(),
            i <= n,
            forall|j: int| 0 <= j < i ==> prefix@[j]@ == p@[j]@,
        decreases n - i,
    {
        if !(prefix[i] == p[i]) {
            assert(prefix.deep_view()[i as int] != p.deep_view()[i as int]);
            return false;
        }
        i += 1;
    }
    true
}

/// A copy of `p` with the same components.
pub fn clone_path(p: &Vec<String>) -> (r: Vec<String>)
    ensures
        r.deep_view() == p.deep_view(),
{
    let mut r: Vec<String> = Vec::new();
    let mut i: usize = 0;
    while i < p.len()
        invariant
            i <= p@.len(),
            r@.len() == i,
            forall|j: int| 0 <= j < i ==> r@[j]@ == p@[j]@,
        decreases p@.len() - i,
    {
        r.push(p[i].clone());
        i += 1;
    }
    proof {
        assert(r.deep_view() =~= p.deep_view());
    }
    r
}

/// The concatenation of `base` and `rest`.
pub fn join(base: &Vec<String>, rest: &Vec<String>) -> (r: Vec<String>)
    ensures
        r.deep_view() == base.deep_view() + rest.deep_view(),
{
    let mut r = clone_path(base);
    let mut i: usize = 0;
    while i < rest.len()
        invariant
            i <= rest@.len(),
            r@.len() == base.deep_view().len() + i,
            r.deep_view().subrange(0, base.deep_view().len() as int) =~= base.deep_view(),
            forall|j: int| 0 <= j < i ==> r@[base.deep_view().len() + j]@ == rest@[j]@,
        decreases rest@.len() - i,
    {
        r.push(rest[i].clone());
        assert(r.deep_view().subrange(0, base.deep_view().len() as int)
            =~= base.deep_view());
        i += 1;
    }
    proof {
        assert(r.deep_view() =~= base.deep_view() + rest.deep_view());
    }
    r
}

/// `base` extended by one final component.
pub fn join_one(base: &Vec<String>, name: &String) -> (r: Vec<String>)
    ensures
        r.deep_view() == base.deep_view().push(name@),
{
    let mut r = clone_path(base);
    r.push(name.clone());
    proof {
        assert(r.deep_view() =~= base.deep_view().push(name@));
    }
    r
}

/// All components of `p` but the last.
pub fn parent(p: &Vec<String>) -> (r: Vec<String>)
    requires
        p@.len() > 0,
    ensures
        r.deep_view() == p.deep_view().drop_last(),
{
    let mut r: Vec<String> = Vec::new();
    let n = p.len() - 1;
    let mut i: usize = 0;
    while i < n
        invariant
            n == p@.len() - 1,
            i <= n,
            r@.len() == i,
            forall|j: int| 0 <= j < i ==> r@[j]@ == p@[j]@,
        decreases n - i,
    {
        r.push(p[i].clone());
        i += 1;
    }
    proof {
        assert(r.deep_view() =~= p.deep_view().drop_last());
    }
    r
}

/// The final component of `p`.
pub fn file_name(p: &Vec<String>) -> (r: String)
    requires
        p@.len() > 0,
    ensures
        r@ == p.deep_view().last(),
{
    p[p.len() - 1].clone()
}

/// The components of `p` that follow `prefix`, when `prefix` begins `p`.
pub fn strip_prefix(prefix: &Vec<String>, p: &Vec<String>) -> (r: Option<Vec<String>>)
    ensures
        match r {
            Some(rest) => is_prefix(prefix.deep_view(), p.deep_view()) && rest.deep_view()
                == p.deep_view().subrange(
                prefix.deep_view().len() as int,
                p.deep_view().len() as int,
            ),
            None => !is_prefix(prefix.deep_view(), p.deep_view()),
        },
{
    if !starts_with(prefix, p) {
        return None;
    }
    let mut r: Vec<String> = Vec::new();
    let mut i: usize = prefix.len();
    while i < p.len()
        invariant
            prefix@.len() <= i <= p@.len(),
            r@.len() == i - prefix@.len(),
            forall|j: int| 0 <= j < i - prefix@.len() ==> r@[j]@ == p@[prefix@.len() + j]@,
        decreases p@.len() - i,
    {
        r.push(p[i].clone());
        i += 1;
    }
    proof {
        assert(r.deep_view() =~= p.deep_view().subrange(
            prefix.deep_view().len() as int,
            p.deep_view().len() as int,
        ));
    }
    Some(r)
}

/// The position of the last `.` in `name` that does not stand first,
/// or `-1` when there is none.  A leading dot marks a hidden name and
/// does not begin an extension.
pub open spec fn last_dot(name: Seq<char>) -> int
    decreases name.len(),
{
    if name.len() <= 1 {
        -1
    } else if name[name.len() - 1] == '.' {
        name.len() - 1
    } else {
        last_dot(name.drop_last())
    }
}

/// The stem of a file name: everything before the last `.`, except that a
/// name without an extension (or with only a leading dot) is its own stem.
pub open spec fn stem_of(name: Seq<char>) -> Seq<char> {
    if last_dot(name) >= 1 {
        name.subrange(0, last_dot(name))
    } else {
        name
    }
}

/// The name of the compressed output for a source named `name`.
pub open spec fn jpg_name(name: Seq<char>) -> Seq<char> {
    stem_of(name) + ".jpg"@
}

proof fn lemma_last_dot_found(name: Seq<char>, k: int)
    requires
        1 <= k < name.len(),
        name[k] == '.',
        forall|j: int| k < j < name.len() ==> name[j] != '.',
    ensures
        last_dot(name) == k,
    decreases name.len(),
{
    if k < name.len() - 1 {
        lemma_last_dot_found(name.drop_last(), k);
    }
}

proof fn lemma_last_dot_none(name: Seq<char>)
    requires
        forall|j: int| 1 <= j < name.len() ==> name[j] != '.',
    ensures
        last_dot(name) == -1,
    decreases name.len(),
{
    if name.len() > 1 {
        lemma_last_dot_none(name.drop_last());
    }
}

proof fn lemma_last_dot_bound(name: Seq<char>)
    ensures
        -1 <= last_dot(name) < name.len() || last_dot(name) == -1,
        last_dot(name) != -1 ==> 1 <= last_dot(name) < name.len() && name[last_dot(name)]
            == '.',
    decreases name.len(),
{
    if name.len() > 1 && name[name.len() - 1] != '.' {
        lemma_last_dot_bound(name.drop_last());
        if last_dot(name.drop_last()) != -1 {
            assert(name.drop_last()[last_dot(name)] == name[last_dot(name)]);
        }
    }
}

/// Renaming a visible file to its `.jpg` output keeps the stem and
/// keeps the name visible.
pub proof fn lemma_jpg_name_stem(name: Seq<char>)
    requires
        name.len() > 0,
        !hidden_name(name),
    ensures
        stem_of(jpg_name(name)) == stem_of(name),
        jpg_name(name).len() > 0,
        !hidden_name(jpg_name(name)),
{
    broadcast use vstd::string::group_string_axioms;

    reveal_strlit(".jpg");
    let stem = stem_of(name);
    let ext = ".jpg"@;
    assert(ext.len() == 4);
    assert(ext[0] == '.' && ext[1] == 'j' && ext[2] == 'p' && ext[3] == 'g');
    assert(stem.len() >= 1 && stem[0] == name[0]) by {
        lemma_last_dot_bound(name);
        if last_dot(name) >= 1 {
            assert(stem == name.subrange(0, last_dot(name)));
        }
    }
    let whole = jpg_name(name);
    assert(whole.len() == stem.len() + 4);
    assert(whole[stem.len() as int] == '.');
    assert(forall|j: int| stem.len() < j < whole.len() ==> whole[j] != '.');
    lemma_last_dot_found(whole, stem.len() as int);
    assert(stem_of(whole) =~= stem);
    assert(whole[0] == stem[0]);
}

/// Two initial segments of one path lead through each other.
pub proof fn lemma_prefixes_comparable(a: Seq<Seq<char>>, b: Seq<Seq<char>>, p: Seq<Seq<char>>)
    requires
        is_prefix(a, p),
        is_prefix(b, p),
    ensures
        is_prefix(a, b) || is_prefix(b, a),
{
    if a.len() <= b.len() {
        assert(is_prefix(a, b));
    } else {
        assert(is_prefix(b, a));
    }
}

/// The stem of a file name component.
pub fn stem(name: &String) -> (r: String)
    ensures
        r@ == stem_of(name@),
{
    let s = name.as_str();
    let n = s.unicode_len();
    if n <= 1 {
        return name.clone();
    }
    let mut i: usize = n;
    while i > 1
        invariant
            1 <= i <= n,
            n == name@.len(),
            s@ == name@,
            forall|j: int| i <= j < n ==> name@[j] != '.',
        decreases i,
    {
        if s.get_char(i - 1) == '.' {
            proof {
                lemma_last_dot_found(name@, i - 1);
            }
            let sub = s.substring_char(0, i - 1);
            return sub.to_owned();
        }
        i -= 1;
    }
    proof {
        lemma_last_dot_none(name@);
    }
    name.clone()
}

/// The compressed output name for a source named `name`.
pub fn jpg_target_name(name: &String) -> (r: String)
    ensures
        r@ == jpg_name(name@),
{
    stem(name).concat(".jpg")
}

} // verus!
