//! Small verified helpers over byte strings.
//!
//! Topics, subscriber ids, message bodies and wire lines are all plain
//! byte strings (`Vec<u8>`), compared by byte equality.

use vstd::prelude::*;

verus! {

/// Byte-for-byte equality of two byte strings.
pub(crate) fn bytes_eq(a: &Vec<u8>, b: &Vec<u8>) -> (r: bool)
    ensures
        r == (a@ == b@),
{
    if a.len() != b.len() {
        return false;
    }
    let mut i: usize = 0;
    while i < a.len()
        invariant
            i <= a.len(),
            a.len() == b.len(),
            forall|j: int| 0 <= j < i ==> a@[j] == b@[j],
        decreases a.len() - i,
    {
        if a[i] != b[i] {
            return false;
        }
        i = i + 1;
    }
    proof {
        assert(a@ =~= b@);
    }
    true
}

/// A fresh copy of a byte string.
pub(crate) fn bytes_clone(a: &Vec<u8>) -> (r: Vec<u8>)
    ensures
        r@ == a@,
{
    let mut r: Vec<u8> = Vec::new();
    let mut i: usize = 0;
    while i < a.len()
        invariant
            i <= a.len(),
            r@ == a@.take(i as int),
        decreases a.len() - i,
    {
        r.push(a[i]);
        proof {
            assert(r@ =~= a@.take(i + 1 as int));
        }
        i = i + 1;
    }
    proof {
        assert(a@.take(a@.len() as int) =~= a@);
    }
    r
}

/// The sub-string of `a` from `from` (inclusive) to `to` (exclusive).
pub(crate) fn sub_bytes(a: &Vec<u8>, from: usize, to: usize) -> (r: Vec<u8>)
    requires
        from <= to <= a@.len(),
    ensures
        r@ == a@.subrange(from as int, to as int),
{
    let mut r: Vec<u8> = Vec::new();
    let mut i: usize = from;
    while i < to
        invariant
            from <= i <= to <= a@.len(),
            r@ == a@.subrange(from as int, i as int),
        decreases to - i,
    {
        r.push(a[i]);
        proof {
            assert(r@ =~= a@.subrange(from as int, i + 1 as int));
        }
        i = i + 1;
    }
    r
}

/// Appends a copy of `src` to `dst`.
pub(crate) fn extend_bytes(dst: &mut Vec<u8>, src: &Vec<u8>)
    ensures
        final(dst)@ == old(dst)@ + src@,
{
    let mut i: usize = 0;
    while i < src.len()
        invariant
            i <= src.len(),
            dst@ == old(dst)@ + src@.take(i as int),
        decreases src.len() - i,
    {
        dst.push(src[i]);
        proof {
            assert(dst@ =~= old(dst)@ + src@.take(i + 1 as int));
        }
        i = i + 1;
    }
    proof {
        assert(old(dst)@ + src@.take(src@.len() as int) =~= old(dst)@ + src@);
    }
}

/// Whether a sequence of byte strings contains `x`, by byte equality.
pub open spec fn seq_has(s: Seq<Seq<u8>>, x: Seq<u8>) -> bool {
    s.contains(x)
}

/// Whether a list of byte strings contains `x`, by byte equality.
pub(crate) fn list_has(s: &Vec<Vec<u8>>, x: &Vec<u8>) -> (r: bool)
    ensures
        r == seq_has(views_of(s@), x@),
{
    let mut i: usize = 0;
    while i < s.len()
        invariant
            i <= s.len(),
            forall|j: int| 0 <= j < i ==> s@[j]@ != x@,
        decreases s.len() - i,
    {
        if bytes_eq(&s[i], x) {
            proof {
                assert(views_of(s@)[i as int] == x@);
            }
            return true;
        }
        i = i + 1;
    }
    proof {
        assert(forall|j: int| 0 <= j < views_of(s@).len() ==> views_of(s@)[j] != x@);
    }
    false
}

/// The views of a sequence of byte strings.
pub open spec fn views_of(s: Seq<Vec<u8>>) -> Seq<Seq<u8>> {
    s.map_values(|v: Vec<u8>| v@)
}

/// Taking views commutes with appending one element.
pub(crate) proof fn lemma_views_push(s: Seq<Vec<u8>>, v: Vec<u8>)
    ensures
        views_of(s.push(v)) == views_of(s).push(v@),
{
    assert(views_of(s.push(v)) =~= views_of(s).push(v@));
}

/// An appended element is in a sequence exactly when it was there
/// already or is the one appended.
pub(crate) proof fn lemma_seq_has_push(s: Seq<Seq<u8>>, a: Seq<u8>, x: Seq<u8>)
    ensures
        seq_has(s.push(a), x) <==> (seq_has(s, x) || a == x),
{
    if seq_has(s, x) {
        let i = choose|i: int| 0 <= i < s.len() && s[i] == x;
        assert(s.push(a)[i] == x);
    }
    if a == x {
        assert(s.push(a)[s.len() as int] == x);
    }
    if seq_has(s.push(a), x) {
        let i = choose|i: int| 0 <= i < s.push(a).len() && s.push(a)[i] == x;
        if i < s.len() {
            assert(s[i] == x);
        }
    }
}

/// A fresh copy of a list of byte strings.
pub(crate) fn clone_list(s: &Vec<Vec<u8>>) -> (r: Vec<Vec<u8>>)
    ensures
        views_of(r@) == views_of(s@),
{
    let mut r: Vec<Vec<u8>> = Vec::new();
    let mut i: usize = 0;
    while i < s.len()
        invariant
            i <= s.len(),
            views_of(r@) == views_of(s@).take(i as int),
        decreases s.len() - i,
    {
        let c = bytes_clone(&s[i]);
        proof {
            lemma_views_push(r@, c);
            assert(views_of(r@).push(c@) =~= views_of(s@).take(i + 1 as int));
        }
        r.push(c);
        i = i + 1;
    }
    proof {
        assert(views_of(s@).take(s@.len() as int) =~= views_of(s@));
    }
    r
}

/// Keeps, in order, the entries of `s` that are not in `bad`.
pub(crate) fn filter_out(s: &Vec<Vec<u8>>, bad: &Vec<Vec<u8>>) -> (r: Vec<Vec<u8>>)
    requires
        views_of(s@).no_duplicates(),
    ensures
        views_of(r@).no_duplicates(),
        views_of(r@).to_set() == views_of(s@).to_set().difference(views_of(bad@).to_set()),
        forall|x: Seq<u8>|
            seq_has(views_of(r@), x) <==> (seq_has(views_of(s@), x) && !seq_has(
                views_of(bad@),
                x,
            )),
{
    let mut r: Vec<Vec<u8>> = Vec::new();
    let mut i: usize = 0;
    while i < s.len()
        invariant
            i <= s.len(),
            views_of(s@).no_duplicates(),
            views_of(r@).no_duplicates(),
            forall|x: Seq<u8>|
                seq_has(views_of(r@), x) <==> ((exists|k: int|
                    0 <= k < i && views_of(s@)[k] == x) && !seq_has(views_of(bad@), x)),
        decreases s.len() - i,
    {
        if !list_has(bad, &s[i]) {
            let c = bytes_clone(&s[i]);
            proof {
                lemma_views_push(r@, c);
                assert forall|x: Seq<u8>| #[trigger] seq_has(views_of(r@).push(c@), x) implies (
                (exists|k: int| 0 <= k < i + 1 && views_of(s@)[k] == x) && !seq_has(
                    views_of(bad@),
                    x,
                )) by {
                    lemma_seq_has_push(views_of(r@), c@, x);
                    if c@ == x {
                        assert(views_of(s@)[i as int] == x);
                    }
                }
                assert forall|x: Seq<u8>|
                    ((exists|k: int| 0 <= k < i + 1 && views_of(s@)[k] == x) && !seq_has(
                        views_of(bad@),
                        x,
                    )) implies #[trigger] seq_has(views_of(r@).push(c@), x) by {
                    lemma_seq_has_push(views_of(r@), c@, x);
                }
                assert(!seq_has(views_of(r@), c@));
                assert(!views_of(r@).contains(c@));
            }
            r.push(c);
        } else {
            proof {
                assert forall|x: Seq<u8>| #[trigger] seq_has(views_of(r@), x) <==> ((exists|
                    k: int,
                |
                    0 <= k < i + 1 && views_of(s@)[k] == x) && !seq_has(views_of(bad@), x)) by {
                    if (exists|k: int| 0 <= k < i + 1 && views_of(s@)[k] == x) && !seq_has(
                        views_of(bad@),
                        x,
                    ) {
                        let k = choose|k: int| 0 <= k < i + 1 && views_of(s@)[k] == x;
                        assert(k < i);
                    }
                }
            }
        }
        i = i + 1;
    }
    proof {
        assert forall|x: Seq<u8>| #[trigger] views_of(r@).to_set().contains(x)
            == views_of(s@).to_set().difference(views_of(bad@).to_set()).contains(x) by {
            assert(seq_has(views_of(r@), x) <==> ((exists|k: int|
                0 <= k < s@.len() && views_of(s@)[k] == x) && !seq_has(views_of(bad@), x)));
        }
        assert(views_of(r@).to_set() =~= views_of(s@).to_set().difference(
            views_of(bad@).to_set(),
        ));
    }
    r
}

} // verus!
