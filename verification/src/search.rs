//! First-match search over sequences, shared by the directories and lists.

use vstd::prelude::*;

verus! {

/// The index of the first element that satisfies `p`, if any.
pub open spec fn find_first<A>(s: Seq<A>, p: spec_fn(A) -> bool) -> Option<nat>
    decreases s.len(),
{
    if s.len() == 0 {
        None
    } else if p(s[0]) {
        Some(0)
    } else {
        match find_first(s.drop_first(), p) {
            Some(i) => Some(i + 1),
            None => None,
        }
    }
}

/// What `find_first` gives: the first satisfying index, or `None` when no
/// element satisfies `p`.
pub proof fn lemma_find_first<A>(s: Seq<A>, p: spec_fn(A) -> bool)
    ensures
        match find_first(s, p) {
            Some(i) => i < s.len() && p(s[i as int]) && forall|j: int| 0 <= j < i ==> !p(#[trigger] s[j]),
            None => forall|j: int| 0 <= j < s.len() ==> !p(#[trigger] s[j]),
        },
    decreases s.len(),
{
    if s.len() > 0 && !p(s[0]) {
        lemma_find_first(s.drop_first(), p);
        match find_first(s.drop_first(), p) {
            Some(i) => {
                assert forall|j: int| 0 <= j < i + 1 implies !p(#[trigger] s[j]) by {
                    if j > 0 {
                        assert(s[j] == s.drop_first()[j - 1]);
                    }
                }
            },
            None => {
                assert forall|j: int| 0 <= j < s.len() implies !p(#[trigger] s[j]) by {
                    if j > 0 {
                        assert(s[j] == s.drop_first()[j - 1]);
                    }
                }
            },
        }
    }
}

/// `find_first` is determined by the first satisfying index.
pub proof fn lemma_find_first_at<A>(s: Seq<A>, p: spec_fn(A) -> bool, i: int)
    requires
        0 <= i < s.len(),
        p(s[i]),
        forall|j: int| 0 <= j < i ==> !p(#[trigger] s[j]),
    ensures
        find_first(s, p) == Some(i as nat),
{
    lemma_find_first(s, p);
    match find_first(s, p) {
        Some(k) => {
            if k < i {
                assert(!p(s[k as int]));
            } else if k > i {
                assert(!p(s[i]));
            }
        },
        None => {
            assert(!p(s[i]));
        },
    }
}

/// `find_first` is `None` when nothing satisfies `p`.
pub proof fn lemma_find_first_none<A>(s: Seq<A>, p: spec_fn(A) -> bool)
    requires
        forall|j: int| 0 <= j < s.len() ==> !p(#[trigger] s[j]),
    ensures
        find_first(s, p) is None,
{
    lemma_find_first(s, p);
    match find_first(s, p) {
        Some(k) => {
            assert(!p(s[k as int]));
        },
        None => {},
    }
}

} // verus!
