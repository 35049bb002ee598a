//! Byte strings as keys: their lexicographic order, sorting and removal of repeats.
use vstd::prelude::*;

verus! {

/// Lexicographic order on byte strings, the order std gives `[u8]` and `Vec<u8>`:
/// the first differing byte decides, and a proper prefix comes first.
pub open spec fn lex_lt(a: Seq<u8>, b: Seq<u8>) -> bool
    decreases a.len(),
{
    if b.len() == 0 {
        false
    } else if a.len() == 0 {
        true
    } else if a[0] != b[0] {
        a[0] < b[0]
    } else {
        lex_lt(a.drop_first(), b.drop_first())
    }
}

/// `a` comes before `b` or equals it.
pub open spec fn lex_le(a: Seq<u8>, b: Seq<u8>) -> bool {
    a == b || lex_lt(a, b)
}

/// Every key comes strictly before every later one.
pub open spec fn strictly_sorted(ks: Seq<Seq<u8>>) -> bool {
    forall|i: int, j: int| 0 <= i < j < ks.len() ==> lex_lt(#[trigger] ks[i], #[trigger] ks[j])
}

/// The byte strings that a vector of byte vectors holds.
pub open spec fn views(v: Seq<Vec<u8>>) -> Seq<Seq<u8>> {
    v.map_values(|x: Vec<u8>| x@)
}

pub proof fn lemma_lex_irreflexive(a: Seq<u8>)
    ensures
        !lex_lt(a, a),
    decreases a.len(),
{
    if a.len() > 0 {
        lemma_lex_irreflexive(a.drop_first());
    }
}

pub proof fn lemma_lex_transitive(a: Seq<u8>, b: Seq<u8>, c: Seq<u8>)
    requires
        lex_lt(a, b),
        lex_lt(b, c),
    ensures
        lex_lt(a, c),
    decreases a.len(),
{
    if a.len() > 0 && a[0] == b[0] && b[0] == c[0] {
        lemma_lex_transitive(a.drop_first(), b.drop_first(), c.drop_first());
    }
}

pub proof fn lemma_lex_total(a: Seq<u8>, b: Seq<u8>)
    ensures
        lex_lt(a, b) || a == b || lex_lt(b, a),
    decreases a.len(),
{
    if a.len() > 0 && b.len() > 0 && a[0] == b[0] {
        lemma_lex_total(a.drop_first(), b.drop_first());
        if a.drop_first() == b.drop_first() {
            assert(a =~= seq![a[0]] + a.drop_first());
            assert(b =~= seq![b[0]] + b.drop_first());
        }
    } else if a.len() == 0 && b.len() == 0 {
        assert(a =~= b);
    }
}

pub proof fn lemma_lex_asymmetric(a: Seq<u8>, b: Seq<u8>)
    requires
        lex_lt(a, b),
    ensures
        !lex_lt(b, a),
        a != b,
{
    lemma_lex_irreflexive(a);
    if lex_lt(b, a) {
        lemma_lex_transitive(a, b, a);
    }
}

/// A strictly sorted sequence repeats no key.
pub proof fn lemma_strictly_sorted_no_dups(ks: Seq<Seq<u8>>)
    requires
        strictly_sorted(ks),
    ensures
        ks.no_duplicates(),
{
    assert forall|i: int, j: int| 0 <= i < ks.len() && 0 <= j < ks.len() && i != j implies ks[i]
        != ks[j] by {
        if i < j {
            lemma_lex_asymmetric(ks[i], ks[j]);
        } else {
            lemma_lex_asymmetric(ks[j], ks[i]);
        }
    }
}

/// Sorts byte vectors in the order of `Ord for Vec<u8>`.
#[verifier::external_body]
fn sort_byte_vecs(v: &mut Vec<Vec<u8>>)
    ensures
        views(final(v)@).to_multiset() == views(old(v)@).to_multiset(),
        forall|i: int, j: int|
            0 <= i < j < final(v)@.len() ==> lex_le(#[trigger] final(v)@[i]@, #[trigger] final(v)@[j]@),
{
    v.sort();
}

/// Whether two byte vectors hold the same bytes.
pub fn bytes_equal(a: &Vec<u8>, b: &Vec<u8>) -> (r: bool)
    ensures
        r == (a@ == b@),
{
    if a.len() != b.len() {
        return false;
    }
    let mut i: usize = 0;
    while i < a.len()
        invariant
            i <= a.len() == b.len(),
            a@.take(i as int) == b@.take(i as int),
        decreases a.len() - i,
    {
        if a[i] != b[i] {
            assert(a@.take(i as int + 1)[i as int] != b@.take(i as int + 1)[i as int]);
            return false;
        }
        assert(a@.take(i as int + 1) =~= a@.take(i as int).push(a@[i as int]));
        assert(b@.take(i as int + 1) =~= b@.take(i as int).push(b@[i as int]));
        i = i + 1;
    }
    assert(a@ =~= a@.take(i as int));
    assert(b@ =~= b@.take(i as int));
    true
}

/// The byte strings of `v`, sorted, each kept once.
pub fn sorted_unique(v: Vec<Vec<u8>>) -> (r: Vec<Vec<u8>>)
    ensures
        strictly_sorted(views(r@)),
        forall|k: Seq<u8>| views(r@).contains(k) <==> views(v@).contains(k),
{
    let mut s = v;
    sort_byte_vecs(&mut s);
    proof {
        assert forall|k: Seq<u8>| views(s@).contains(k) <==> views(v@).contains(k) by {
            vstd::seq_lib::to_multiset_contains(views(s@), k);
            vstd::seq_lib::to_multiset_contains(views(v@), k);
        }
    }
    let mut out: Vec<Vec<u8>> = Vec::new();
    let mut i: usize = 0;
    while i < s.len()
        invariant
            i <= s@.len(),
            strictly_sorted(views(out@)),
            forall|a: int, b: int|
                0 <= a < b < s@.len() ==> lex_le(#[trigger] s@[a]@, #[trigger] s@[b]@),
            i > 0 ==> out@.len() > 0 && out@.last()@ == s@[i - 1]@,
            i == 0 ==> out@.len() == 0,
            forall|k: Seq<u8>|
                views(out@).contains(k) <==> exists|a: int| 0 <= a < i && #[trigger] s@[a]@ == k,
        decreases s@.len() - i,
    {
        let keep = if out.len() == 0 {
            true
        } else {
            !bytes_equal(&out[out.len() - 1], &s[i])
        };
        let ghost old_out = out@;
        if keep {
            out.push(s[i].clone());
            proof {
                let n = old_out.len() as int;
                assert(views(out@) =~= views(old_out).push(s@[i as int]@));
                if i > 0 {
                    assert(lex_le(s@[i - 1]@, s@[i as int]@));
                    assert(lex_lt(views(old_out)[n - 1], s@[i as int]@));
                    assert forall|a: int, b: int| 0 <= a < b < views(out@).len() implies lex_lt(
                        #[trigger] views(out@)[a],
                        #[trigger] views(out@)[b],
                    ) by {
                        if b == n && a < n - 1 {
                            lemma_lex_transitive(views(old_out)[a], views(old_out)[n - 1], s@[i as int]@);
                        }
                    }
                }
                assert forall|k: Seq<u8>| views(out@).contains(k) <==> exists|a: int|
                    0 <= a < i + 1 && #[trigger] s@[a]@ == k by {
                    if views(out@).contains(k) && k != s@[i as int]@ {
                        let idx = choose|j: int| 0 <= j < views(out@).len() && views(out@)[j] == k;
                        assert(views(old_out)[idx] == k);
                        assert(views(old_out).contains(k));
                    }
                    if exists|a: int| 0 <= a < i + 1 && #[trigger] s@[a]@ == k {
                        let a = choose|a: int| 0 <= a < i + 1 && #[trigger] s@[a]@ == k;
                        if a < i {
                            assert(views(old_out).contains(k));
                            let idx = choose|j: int| 0 <= j < views(old_out).len() && views(old_out)[j] == k;
                            assert(views(out@)[idx] == k);
                        } else {
                            assert(views(out@)[old_out.len() as int] == k);
                        }
                    }
                }
            }
        } else {
            proof {
                let n = out@.len() as int;
                assert(n > 0);
                assert(views(out@)[n - 1] == s@[i as int]@);
                assert forall|k: Seq<u8>| views(out@).contains(k) <==> exists|a: int|
                    0 <= a < i + 1 && #[trigger] s@[a]@ == k by {
                    if exists|a: int| 0 <= a < i + 1 && #[trigger] s@[a]@ == k {
                        let a = choose|a: int| 0 <= a < i + 1 && #[trigger] s@[a]@ == k;
                        if a == i {
                            assert(views(out@)[n - 1] == k);
                        }
                    }
                }
            }
        }
        i = i + 1;
    }
    proof {
        assert forall|k: Seq<u8>| views(out@).contains(k) <==> views(v@).contains(k) by {
            if views(s@).contains(k) {
                let a = views(s@).index_of(k);
                assert(s@[a]@ == k);
            }
            if exists|a: int| 0 <= a < s@.len() && #[trigger] s@[a]@ == k {
                let a = choose|a: int| 0 <= a < s@.len() && #[trigger] s@[a]@ == k;
                assert(views(s@)[a] == k);
            }
        }
    }
    out
}

} // verus!
