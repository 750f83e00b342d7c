//! Suggestions for a field while it is typed: the known values that hold
//! what was typed, whatever the case of the letters.

use vstd::prelude::*;
use crate::text::chars_of;

verus! {

/// The lower-case form that `str::to_lowercase` gives a text.
pub uninterp spec fn lowercase(s: Seq<char>) -> Seq<char>;

/// `str::to_lowercase` of the standard library. Claimed of it: the text it
/// returns depends on the characters of `s` alone. What that text is, is
/// not stated.
#[verifier::external_body]
fn to_lowercase(s: &str) -> (lower: String)
    ensures
        lower@ == lowercase(s@),
{
    s.to_lowercase()
}

/// Whether `needle` stands somewhere in `hay`, character for character.
pub open spec fn occurs_in(needle: Seq<char>, hay: Seq<char>) -> bool {
    exists|i: int| occurs_at(needle, hay, i)
}

/// Whether `needle` stands in `hay` at place `i`.
pub open spec fn occurs_at(needle: Seq<char>, hay: Seq<char>, i: int) -> bool {
    0 <= i && i + needle.len() <= hay.len() && hay.subrange(i, i + needle.len()) == needle
}

/// Whether a value whose lower-case form is `value` is offered for a typed
/// text whose lower-case form is `typed`: for an empty text every value is,
/// otherwise those that hold the text.
pub open spec fn offered(value: Seq<char>, typed: Seq<char>) -> bool {
    typed.len() == 0 || occurs_in(typed, value)
}

/// The values offered for the text `typed`.
pub open spec fn offered_for(typed: Seq<char>) -> spec_fn(Seq<char>) -> bool {
    |value: Seq<char>| offered(lowercase(value), lowercase(typed))
}

/// The texts of `values`, in order.
pub open spec fn texts(values: Seq<String>) -> Seq<Seq<char>> {
    values.map_values(|s: String| s@)
}

/// Tells whether `needle` stands somewhere in `hay`.
pub fn contains_text(hay: &str, needle: &str) -> (found: bool)
    ensures
        found == occurs_in(needle@, hay@),
{
    let h = chars_of(hay);
    let n = chars_of(needle);
    if n.len() > h.len() {
        assert forall|i: int| !occurs_at(n@, h@, i) by {}
        return false;
    }
    let last = h.len() - n.len();
    let mut i: usize = 0;
    while i < last
        invariant
            i <= last == h.len() - n.len(),
            h@ == hay@,
            n@ == needle@,
            forall|k: int| 0 <= k < i ==> !occurs_at(n@, h@, k),
        decreases last - i,
    {
        if has_prefix_at(&h, i, &n) {
            assert(occurs_at(n@, h@, i as int));
            return true;
        }
        i += 1;
    }
    let found = has_prefix_at(&h, last, &n);
    proof {
        if !found {
            assert forall|k: int| !occurs_at(n@, h@, k) by {}
        }
    }
    found
}

/// Tells whether `needle` stands in `hay` at place `at`.
fn has_prefix_at(hay: &Vec<char>, at: usize, needle: &Vec<char>) -> (b: bool)
    requires
        at + needle.len() <= hay.len(),
    ensures
        b == occurs_at(needle@, hay@, at as int),
{
    let mut k: usize = 0;
    while k < needle.len()
        invariant
            k <= needle.len(),
            at + needle.len() <= hay.len(),
            forall|j: int| 0 <= j < k ==> needle@[j] == hay@[at + j],
        decreases needle.len() - k,
    {
        if needle[k] != hay[at + k] {
            assert(hay@.subrange(at as int, at + needle.len())[k as int] == hay@[at + k]);
            return false;
        }
        k += 1;
    }
    assert(hay@.subrange(at as int, at + needle.len()) =~= needle@);
    true
}

/// Tells whether a value is offered for a typed text, both given in lower
/// case.
pub fn is_offered(value: &str, typed: &str) -> (b: bool)
    ensures
        b == offered(value@, typed@),
{
    typed.is_empty() || contains_text(value, typed)
}

/// The values among `known` that are offered for the text `typed`, in their
/// order: all of them for an empty text, otherwise those that hold the text,
/// where letters match whatever their case.
pub fn suggestions(known: &Vec<String>, typed: &str) -> (offers: Vec<String>)
    ensures
        texts(offers@) == texts(known@).filter(offered_for(typed@)),
{
    let typed_lower = to_lowercase(typed);
    let ghost pick = offered_for(typed@);
    let mut offers: Vec<String> = Vec::new();
    let mut i: usize = 0;
    proof {
        reveal(Seq::filter);
        assert(texts(known@.take(0)) =~= Seq::<Seq<char>>::empty());
        assert(texts(offers@) =~= Seq::<Seq<char>>::empty());
    }
    while i < known.len()
        invariant
            i <= known.len(),
            typed_lower@ == lowercase(typed@),
            pick == offered_for(typed@),
            texts(offers@) == texts(known@.take(i as int)).filter(pick),
        decreases known.len() - i,
    {
        let ghost before = texts(known@.take(i as int));
        let ghost so_far = offers@;
        proof {
            reveal(Seq::filter);
            assert(texts(known@.take(i + 1)) =~= before.push(known@[i as int]@));
            assert(before.push(known@[i as int]@).drop_last() =~= before);
        }
        let value_lower = to_lowercase(known[i].as_str());
        if is_offered(value_lower.as_str(), typed_lower.as_str()) {
            offers.push(known[i].clone());
            proof {
                assert(texts(offers@) =~= texts(so_far).push(known@[i as int]@));
            }
        }
        i += 1;
    }
    proof {
        assert(known@.take(known.len() as int) =~= known@);
    }
    offers
}

} // verus!
