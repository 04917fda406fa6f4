use vstd::prelude::*;

verus! {

/// An element is in `s` pushed with `x` when it is in `s` or is `x`.
pub proof fn lemma_push_contains<T>(s: Seq<T>, x: T)
    ensures
        forall|k: T| #[trigger] s.push(x).contains(k) <==> s.contains(k) || k == x,
{
    assert forall|k: T| #[trigger] s.push(x).contains(k) <==> s.contains(k) || k == x by {
        if s.push(x).contains(k) {
            let i = choose|i: int| 0 <= i < s.push(x).len() && s.push(x)[i] == k;
            if i < s.len() {
                assert(s[i] == k);
            }
        }
        if s.contains(k) {
            let i = choose|i: int| 0 <= i < s.len() && s[i] == k;
            assert(s.push(x)[i] == k);
        }
        if k == x {
            assert(s.push(x)[s.len() as int] == k);
        }
    }
}

/// Pushing a new element keeps a sequence free of repeats.
pub proof fn lemma_push_no_duplicates<T>(s: Seq<T>, x: T)
    requires
        s.no_duplicates(),
        !s.contains(x),
    ensures
        s.push(x).no_duplicates(),
{
    assert forall|a: int, b: int|
        0 <= a < s.push(x).len() && 0 <= b < s.push(x).len() && a != b implies s.push(x)[a]
        != s.push(x)[b] by {
        if a == s.len() {
            assert(s[b] == s.push(x)[b]);
        } else if b == s.len() {
            assert(s[a] == s.push(x)[a]);
        }
    }
}

} // verus!
