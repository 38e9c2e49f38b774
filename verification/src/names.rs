//! Lists of names: without repeats, and in ascending order.

use vstd::prelude::*;

verus! {

/// The texts of a list of strings.
pub open spec fn texts(names: Seq<String>) -> Seq<Seq<char>> {
    Seq::new(names.len(), |i: int| names[i]@)
}

/// Whether text `a` comes before text `b` or is `b`, character by
/// character, by code point. This is the order of strings.
pub open spec fn text_le(a: Seq<char>, b: Seq<char>) -> bool
    decreases a.len(),
{
    if a.len() == 0 {
        true
    } else if b.len() == 0 {
        false
    } else if a[0] != b[0] {
        (a[0] as u32) < (b[0] as u32)
    } else {
        text_le(a.drop_first(), b.drop_first())
    }
}

/// Whether each text of the list comes before the texts behind it, or is
/// the same.
pub open spec fn ascending(list: Seq<Seq<char>>) -> bool {
    forall|i: int, j: int| 0 <= i < j < list.len() ==> text_le(list[i], list[j])
}

/// Calls `Itertools::sorted` of `itertools` on the strings of `names`. The
/// crate documents that it collects the items and sorts them with the
/// standard library's stable `sort`, which leaves a reordering of the same
/// items in ascending order; the standard library orders strings by code
/// point, character by character.
#[verifier::external_body]
fn sorted_texts(names: Vec<String>) -> (r: Vec<String>)
    ensures
        texts(r@).to_multiset() == texts(names@).to_multiset(),
        ascending(texts(r@)),
{
    itertools::Itertools::sorted(names.into_iter()).collect()
}

/// Whether `name` is in `list`.
pub fn holds_text(list: &Vec<String>, name: &String) -> (r: bool)
    ensures
        r == texts(list@).contains(name@),
{
    let mut i: usize = 0;
    while i < list.len()
        invariant
            0 <= i <= list@.len(),
            forall|k: int| 0 <= k < i ==> texts(list@)[k] != name@,
        decreases list@.len() - i,
    {
        if list[i] == *name {
            assert(texts(list@)[i as int] == name@);
            return true;
        }
        i += 1;
    }
    false
}

/// The names of `names`, each once, in the order in which they first come.
pub fn unique(names: &Vec<String>) -> (r: Vec<String>)
    ensures
        texts(r@).no_duplicates(),
        forall|t: Seq<char>| texts(r@).contains(t) <==> texts(names@).contains(t),
{
    let mut out: Vec<String> = Vec::new();
    let mut i: usize = 0;
    while i < names.len()
        invariant
            0 <= i <= names@.len(),
            texts(out@).no_duplicates(),
            forall|t: Seq<char>|
                texts(out@).contains(t) <==> exists|k: int|
                    0 <= k < i && #[trigger] texts(names@)[k] == t,
        decreases names@.len() - i,
    {
        if !holds_text(&out, &names[i]) {
            let ghost before = texts(out@);
            out.push(names[i].clone());
            assert(texts(out@) =~= before.push(names@[i as int]@));
            assert forall|t: Seq<char>| texts(out@).contains(t) implies exists|k: int|
                0 <= k < i + 1 && #[trigger] texts(names@)[k] == t by {
                let j = choose|j: int| 0 <= j < texts(out@).len() && texts(out@)[j] == t;
                if j < before.len() {
                    assert(before.contains(t));
                } else {
                    assert(texts(names@)[i as int] == t);
                }
            }
            assert forall|t: Seq<char>|
                (exists|k: int| 0 <= k < i + 1 && #[trigger] texts(names@)[k] == t) implies texts(
                out@,
            ).contains(t) by {
                let k = choose|k: int| 0 <= k < i + 1 && #[trigger] texts(names@)[k] == t;
                if k < i {
                    assert(before.contains(t));
                    let j = choose|j: int| 0 <= j < before.len() && before[j] == t;
                    assert(texts(out@)[j] == t);
                } else {
                    assert(texts(out@)[before.len() as int] == t);
                }
            }
        } else {
            assert(texts(names@)[i as int] == names@[i as int]@);
        }
        i += 1;
    }
    assert forall|t: Seq<char>| texts(out@).contains(t) <==> texts(names@).contains(t) by {
        if texts(names@).contains(t) {
            let k = choose|k: int| 0 <= k < texts(names@).len() && texts(names@)[k] == t;
            assert(texts(names@)[k] == t);
        }
    }
    out
}

/// A reordering of a list holds the same items, and has no repeats if the
/// list has none.
pub proof fn lemma_reordered<A>(a: Seq<A>, b: Seq<A>)
    requires
        a.to_multiset() == b.to_multiset(),
    ensures
        forall|t: A| a.contains(t) <==> b.contains(t),
        b.no_duplicates() ==> a.no_duplicates(),
        a.len() == b.len(),
{
    vstd::seq_lib::to_multiset_len(a);
    vstd::seq_lib::to_multiset_len(b);
    assert forall|t: A| a.contains(t) <==> b.contains(t) by {
        vstd::seq_lib::to_multiset_contains(a, t);
        vstd::seq_lib::to_multiset_contains(b, t);
    }
    if b.no_duplicates() {
        b.lemma_multiset_has_no_duplicates();
        a.lemma_multiset_has_no_duplicates_conv();
    }
}

/// The names of `names`, each once, in ascending order.
pub fn sorted_unique(names: &Vec<String>) -> (r: Vec<String>)
    ensures
        texts(r@).no_duplicates(),
        ascending(texts(r@)),
        forall|t: Seq<char>| texts(r@).contains(t) <==> texts(names@).contains(t),
{
    let once: Vec<String> = unique(names);
    let sorted: Vec<String> = sorted_texts(once);
    proof {
        lemma_reordered(texts(sorted@), texts(once@));
    }
    sorted
}

} // verus!
