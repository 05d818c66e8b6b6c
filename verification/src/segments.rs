//! Which files of the log directory are segments, and in which order they
//! are recovered.

use std::cmp::Ordering;
use vstd::prelude::*;
use vstd::string::StringExecFns;
use vstd::utf8::encode_utf8;

verus! {

/// The ending of a lock file's name.
pub open spec fn lock_suffix() -> Seq<char> {
    ".lock"@
}

/// Whether `name` ends with `suffix`.
pub open spec fn ends_with(name: Seq<char>, suffix: Seq<char>) -> bool {
    name.len() >= suffix.len() && name.subrange(name.len() - suffix.len(), name.len() as int)
        == suffix
}

/// Whether a file of the log directory is a segment: every file is, but the
/// lock files that stand beside the segments.
pub open spec fn is_segment_name(name: Seq<char>) -> bool {
    !ends_with(name, lock_suffix())
}

/// The order of the bytes of two names: `a` sorts before `b`.
pub open spec fn bytes_less(a: Seq<u8>, b: Seq<u8>) -> bool
    decreases a.len(),
{
    if b.len() == 0 {
        false
    } else if a.len() == 0 {
        true
    } else if a[0] != b[0] {
        a[0] < b[0]
    } else {
        bytes_less(a.skip(1), b.skip(1))
    }
}

/// The order of two names: that of their UTF-8 bytes. Segment names hold
/// their time of creation, so a name that sorts later is a newer segment.
pub open spec fn name_less(a: Seq<char>, b: Seq<char>) -> bool {
    bytes_less(encode_utf8(a), encode_utf8(b))
}

/// The names that a list of paths stands for.
pub open spec fn names_of(paths: Seq<String>) -> Seq<Seq<char>> {
    paths.map_values(|p: String| p@)
}

/// Whether no name is followed by one that sorts after it.
pub open spec fn newest_first(names: Seq<Seq<char>>) -> bool {
    forall|i: int, j: int| 0 <= i < j < names.len() ==> !name_less(names[i], names[j])
}

/// Calls `str::ends_with`, which says whether the pattern matches a suffix
/// of the text.
#[verifier::external_body]
fn has_suffix(name: &str, suffix: &str) -> (yes: bool)
    ensures
        yes == ends_with(name@, suffix@),
{
    name.ends_with(suffix)
}

/// Whether the file is a segment and no lock file.
pub fn is_segment(name: &str) -> (yes: bool)
    ensures
        yes == is_segment_name(name@),
{
    !has_suffix(name, ".lock")
}

/// The path of the lock file that guards `segment`.
pub fn lock_path(segment: &str) -> (path: String)
    ensures
        path@ == segment@ + lock_suffix(),
{
    String::from_str(segment).concat(".lock")
}

/// Whether `a` sorts before `b`.
pub fn sorts_before(a: &str, b: &str) -> (yes: bool)
    ensures
        yes == name_less(a@, b@),
{
    let x = a.as_bytes();
    let y = b.as_bytes();
    let mut i: usize = 0;
    assert(x@.skip(0) =~= x@ && y@.skip(0) =~= y@);
    while i < x.len() && i < y.len() && x[i] == y[i]
        invariant
            i <= x@.len(),
            i <= y@.len(),
            bytes_less(x@, y@) == bytes_less(x@.skip(i as int), y@.skip(i as int)),
        decreases x@.len() - i,
    {
        assert(x@.skip(i as int).skip(1) =~= x@.skip(i + 1));
        assert(y@.skip(i as int).skip(1) =~= y@.skip(i + 1));
        i += 1;
    }
    if i >= y.len() {
        false
    } else if i >= x.len() {
        true
    } else {
        x[i] < y[i]
    }
}

/// Orders two names for a sort that puts the newest first.
fn newer_first(a: &String, b: &String) -> (o: Ordering)
    ensures
        o == Ordering::Less <==> name_less(b@, a@),
        o == Ordering::Greater <==> name_less(a@, b@),
{
    proof {
        lemma_less_is_one_way(encode_utf8(a@), encode_utf8(b@));
    }
    if sorts_before(b.as_str(), a.as_str()) {
        Ordering::Less
    } else if sorts_before(a.as_str(), b.as_str()) {
        Ordering::Greater
    } else {
        Ordering::Equal
    }
}

/// Of two names at most one sorts before the other.
pub proof fn lemma_less_is_one_way(a: Seq<u8>, b: Seq<u8>)
    ensures
        !(bytes_less(a, b) && bytes_less(b, a)),
    decreases a.len(),
{
    if a.len() > 0 && b.len() > 0 && a[0] == b[0] {
        lemma_less_is_one_way(a.skip(1), b.skip(1));
    }
}

/// The order of names is transitive.
pub proof fn lemma_less_is_transitive(a: Seq<u8>, b: Seq<u8>, c: Seq<u8>)
    requires
        bytes_less(a, b),
        bytes_less(b, c),
    ensures
        bytes_less(a, c),
    decreases a.len(),
{
    if a.len() > 0 && b.len() > 0 && c.len() > 0 && a[0] == b[0] && b[0] == c[0] {
        lemma_less_is_transitive(a.skip(1), b.skip(1), c.skip(1));
    }
}

/// Of two different names one sorts before the other.
pub proof fn lemma_less_is_total(a: Seq<u8>, b: Seq<u8>)
    ensures
        a == b || bytes_less(a, b) || bytes_less(b, a),
    decreases a.len(),
{
    if a.len() > 0 && b.len() > 0 && a[0] == b[0] {
        lemma_less_is_total(a.skip(1), b.skip(1));
        if a.skip(1) == b.skip(1) {
            assert(a =~= seq![a[0]] + a.skip(1));
            assert(b =~= seq![b[0]] + b.skip(1));
        }
    } else if a.len() == 0 && b.len() == 0 {
        assert(a =~= b);
    }
}

/// What two names begin with alike does not tell them apart.
pub proof fn lemma_common_prefix(p: Seq<u8>, x: Seq<u8>, y: Seq<u8>)
    ensures
        bytes_less(p + x, p + y) == bytes_less(x, y),
    decreases p.len(),
{
    if p.len() == 0 {
        assert(p + x =~= x);
        assert(p + y =~= y);
    } else {
        lemma_common_prefix(p.skip(1), x, y);
        assert((p + x).skip(1) =~= p.skip(1) + x);
        assert((p + y).skip(1) =~= p.skip(1) + y);
        assert((p + x)[0] == (p + y)[0]);
    }
}

/// What two names of one length end with alike does not tell them apart.
pub proof fn lemma_common_suffix(x: Seq<u8>, y: Seq<u8>, s: Seq<u8>)
    requires
        x.len() == y.len(),
    ensures
        bytes_less(x + s, y + s) == bytes_less(x, y),
    decreases x.len(),
{
    if x.len() == 0 {
        assert(x + s =~= s);
        assert(y + s =~= s);
        lemma_less_is_one_way(s, s);
    } else {
        lemma_common_suffix(x.skip(1), y.skip(1), s);
        assert((x + s).skip(1) =~= x.skip(1) + s);
        assert((y + s).skip(1) =~= y.skip(1) + s);
        assert((x + s)[0] == x[0]);
        assert((y + s)[0] == y[0]);
    }
}

/// The bytes of two texts, one after the other, are the bytes of the first
/// followed by those of the second.
pub proof fn lemma_bytes_of_concatenation(a: Seq<char>, b: Seq<char>)
    ensures
        encode_utf8(a + b) == encode_utf8(a) + encode_utf8(b),
    decreases a.len(),
{
    if a.len() == 0 {
        assert(a + b =~= b);
        assert(encode_utf8(a) + encode_utf8(b) =~= encode_utf8(b));
    } else {
        lemma_bytes_of_concatenation(a.drop_first(), b);
        assert((a + b).drop_first() =~= a.drop_first() + b);
        assert((a + b)[0] == a[0]);
        let head = vstd::utf8::encode_scalar(a[0] as u32);
        assert(head + (encode_utf8(a.drop_first()) + encode_utf8(b)) =~= (head + encode_utf8(
            a.drop_first(),
        )) + encode_utf8(b));
    }
}

/// Calls `sort_unstable_by` with [`newer_first`]. The standard library sorts
/// the slice in place by the order handed in: the same names are there
/// afterwards, and none is followed by one that the order puts before it.
#[verifier::external_body]
fn sort_newest_first(names: &mut Vec<String>)
    ensures
        names_of(final(names)@).to_multiset() == names_of(old(names)@).to_multiset(),
        newest_first(names_of(final(names)@)),
{
    names.sort_unstable_by(|a, b| newer_first(a, b));
}

/// The segments among `files`, in the order in which they are recovered:
/// newest name first.
pub fn recovery_order(files: &Vec<String>) -> (order: Vec<String>)
    ensures
        names_of(order@).to_multiset() == names_of(files@).filter(
            |name: Seq<char>| is_segment_name(name),
        ).to_multiset(),
        newest_first(names_of(order@)),
{
    let ghost keep = |name: Seq<char>| is_segment_name(name);
    let mut order: Vec<String> = Vec::new();
    let mut i: usize = 0;
    proof {
        reveal(Seq::filter);
        assert(names_of(files@.subrange(0, 0)) =~= Seq::<Seq<char>>::empty());
        assert(names_of(order@) =~= Seq::<Seq<char>>::empty());
    }
    while i < files.len()
        invariant
            i <= files@.len(),
            keep == |name: Seq<char>| is_segment_name(name),
            names_of(order@) == names_of(files@.subrange(0, i as int)).filter(keep),
        decreases files@.len() - i,
    {
        let ghost seen = names_of(files@.subrange(0, i as int));
        let ghost kept = names_of(order@);
        if is_segment(files[i].as_str()) {
            order.push(files[i].clone());
            assert(names_of(order@) =~= kept.push(files@[i as int]@));
        }
        proof {
            reveal(Seq::filter);
            let grown = names_of(files@.subrange(0, i + 1));
            assert(grown.drop_last() =~= seen);
            assert(grown.last() == files@[i as int]@);
        }
        i += 1;
    }
    assert(files@.subrange(0, i as int) =~= files@);
    sort_newest_first(&mut order);
    order
}

} // verus!
