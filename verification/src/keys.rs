use vstd::prelude::*;

use vstd::multiset::Multiset;
use vstd::seq_lib::group_to_multiset_ensures;

verus! {

/// One entry of the keyword index: a byte offset into the logical
/// concatenation of all decompressed record blocks, and the normalised
/// keyword in its byte form.
pub struct KeyEntry {
    pub offset: usize,
    pub text: Vec<u8>,
}

/// The caller-supplied policy that folds a raw headword into its canonical
/// comparable form, used both when indexing and when looking a query up.
pub trait KeyMaker {
    /// What the policy maps a headword to.
    spec fn make_spec(&self, key: Seq<char>, resource: bool) -> Seq<char>;

    fn make(&self, key: &str, resource: bool) -> (r: String)
        ensures
            r@ == self.make_spec(key@, resource),
    ;
}

/// The policy that keeps every headword as it is.
pub struct IdentityKeyMaker;

impl KeyMaker for IdentityKeyMaker {
    open spec fn make_spec(&self, key: Seq<char>, resource: bool) -> Seq<char> {
        key
    }

    fn make(&self, key: &str, resource: bool) -> (r: String)
        ensures
            r@ == self.make_spec(key@, resource),
    {
        key.to_owned()
    }
}

/// Lexicographic byte order, the order `Ord` gives byte strings.
pub open spec fn bytes_le(a: Seq<u8>, b: Seq<u8>) -> bool
    decreases a.len(),
{
    if a.len() == 0 {
        true
    } else if b.len() == 0 {
        false
    } else if a[0] < b[0] {
        true
    } else if a[0] > b[0] {
        false
    } else {
        bytes_le(a.drop_first(), b.drop_first())
    }
}

pub proof fn lemma_bytes_le_total(a: Seq<u8>, b: Seq<u8>)
    ensures
        bytes_le(a, b) || bytes_le(b, a),
        bytes_le(a, b) && bytes_le(b, a) ==> a == b,
    decreases a.len(),
{
    if a.len() > 0 && b.len() > 0 && a[0] == b[0] {
        lemma_bytes_le_total(a.drop_first(), b.drop_first());
        if bytes_le(a, b) && bytes_le(b, a) {
            assert(a =~= seq![a[0]] + a.drop_first());
            assert(b =~= seq![b[0]] + b.drop_first());
        }
    }
}

pub proof fn lemma_bytes_le_trans(a: Seq<u8>, b: Seq<u8>, c: Seq<u8>)
    requires
        bytes_le(a, b),
        bytes_le(b, c),
    ensures
        bytes_le(a, c),
    decreases a.len(),
{
    if a.len() > 0 && b.len() > 0 && c.len() > 0 && a[0] == b[0] && b[0] == c[0] {
        lemma_bytes_le_trans(a.drop_first(), b.drop_first(), c.drop_first());
    }
}

/// Compares two byte strings in lexicographic order.
pub fn bytes_le_exec(a: &Vec<u8>, b: &Vec<u8>) -> (r: bool)
    ensures
        r == bytes_le(a@, b@),
{
    let mut i: usize = 0;
    proof {
        assert(a@.skip(0) =~= a@);
        assert(b@.skip(0) =~= b@);
    }
    while i < a.len() && i < b.len()
        invariant
            i <= a@.len() && i <= b@.len(),
            bytes_le(a@, b@) == bytes_le(a@.skip(i as int), b@.skip(i as int)),
            bytes_le(b@, a@) == bytes_le(b@.skip(i as int), a@.skip(i as int)),
        decreases a@.len() - i,
    {
        let x = a[i];
        let y = b[i];
        proof {
            let sa = a@.skip(i as int);
            let sb = b@.skip(i as int);
            assert(sa[0] == a@[i as int] && sb[0] == b@[i as int]);
            assert(sa.drop_first() =~= a@.skip(i + 1));
            assert(sb.drop_first() =~= b@.skip(i + 1));
        }
        if x < y {
            return true;
        }
        if x > y {
            return false;
        }
        i = i + 1;
    }
    proof {
        if i == a.len() {
            assert(a@.skip(i as int).len() == 0);
        } else {
            assert(b@.skip(i as int).len() == 0);
            assert(a@.skip(i as int).len() > 0);
        }
    }
    a.len() <= b.len()
}

/// The index is sorted: every earlier entry's text is at or before every
/// later entry's text in lexicographic byte order.
pub open spec fn entries_sorted(s: Seq<KeyEntry>) -> bool {
    forall|i: int, j: int|
        0 <= i < j < s.len() ==> bytes_le(#[trigger] s[i].text@, #[trigger] s[j].text@)
}

proof fn lemma_to_multiset_insert<A>(s: Seq<A>, i: int, a: A)
    requires
        0 <= i <= s.len(),
    ensures
        s.insert(i, a).to_multiset() =~= s.to_multiset().insert(a),
{
    broadcast use group_to_multiset_ensures;

    let t = s.insert(i, a);
    t.to_multiset_ensures();
    s.to_multiset_ensures();
    assert(t.remove(i) =~= s);
    assert(t.remove(i).to_multiset() =~= t.to_multiset().remove(t[i]));
    assert(t[i] == a);
    assert(s.to_multiset() =~= t.to_multiset().remove(a));
    assert(t.contains(a));
    assert(t.to_multiset().count(a) > 0);
    assert forall|x: A| t.to_multiset().count(x) == s.to_multiset().insert(a).count(x) by {
        if x == a {
            assert(s.to_multiset().count(a) == t.to_multiset().count(a) - 1);
        } else {
            assert(s.to_multiset().count(x) == t.to_multiset().count(x));
        }
    }
    assert(t.to_multiset() =~= s.to_multiset().insert(a));
}

/// Mapping a function over two sequences that hold the same elements (with
/// multiplicity) yields sequences that hold the same images.
pub proof fn lemma_map_to_multiset<A, B>(s1: Seq<A>, s2: Seq<A>, f: spec_fn(A) -> B)
    requires
        s1.to_multiset() == s2.to_multiset(),
    ensures
        s1.map_values(f).to_multiset() == s2.map_values(f).to_multiset(),
    decreases s1.len(),
{
    s1.to_multiset_ensures();
    s2.to_multiset_ensures();
    s1.map_values(f).to_multiset_ensures();
    s2.map_values(f).to_multiset_ensures();
    if s1.len() == 0 {
        assert(s2.len() == 0);
        assert(s1.map_values(f) =~= s2.map_values(f));
    } else {
        let x = s1.last();
        assert(s1.contains(x));
        assert(s1.to_multiset().count(x) > 0);
        assert(s2.to_multiset().count(x) > 0);
        assert(s2.contains(x));
        let j = choose|j: int| 0 <= j < s2.len() && s2[j] == x;
        let s1p = s1.drop_last();
        let s2p = s2.remove(j);
        s1p.to_multiset_ensures();
        s2p.to_multiset_ensures();
        assert(s1p =~= s1.remove(s1.len() - 1));
        assert(s1.remove(s1.len() - 1).to_multiset() =~= s1.to_multiset().remove(x));
        assert(s2.remove(j).to_multiset() =~= s2.to_multiset().remove(x));
        assert(s1p.to_multiset() =~= s2p.to_multiset());
        lemma_map_to_multiset(s1p, s2p, f);
        s1p.map_values(f).to_multiset_ensures();
        s2p.map_values(f).to_multiset_ensures();
        let m1 = s1.map_values(f);
        let m2 = s2.map_values(f);
        m1.to_multiset_ensures();
        m2.to_multiset_ensures();
        assert(s1p.map_values(f) =~= m1.remove(m1.len() - 1));
        assert(m1.remove(m1.len() - 1).to_multiset() =~= m1.to_multiset().remove(m1[m1.len() - 1]));
        assert(m1[m1.len() - 1] == f(x));
        assert(s2p.map_values(f) =~= m2.remove(j));
        assert(m2.remove(j).to_multiset() =~= m2.to_multiset().remove(m2[j]));
        assert(m2[j] == f(x));
        assert(m1.contains(f(x))) by {
            assert(m1[m1.len() - 1] == f(x));
        }
        assert(m2.contains(f(x))) by {
            assert(m2[j] == f(x));
        }
        assert(m1.to_multiset().count(f(x)) > 0);
        assert(m2.to_multiset().count(f(x)) > 0);
        assert forall|y: B| m1.to_multiset().count(y) == m2.to_multiset().count(y) by {
            if y == f(x) {
                assert(m1.to_multiset().remove(f(x)).count(y) == m1.to_multiset().count(y) - 1);
                assert(m2.to_multiset().remove(f(x)).count(y) == m2.to_multiset().count(y) - 1);
            } else {
                assert(m1.to_multiset().remove(f(x)).count(y) == m1.to_multiset().count(y));
                assert(m2.to_multiset().remove(f(x)).count(y) == m2.to_multiset().count(y));
            }
        }
        assert(m1.to_multiset() =~= m2.to_multiset());
    }
}

/// Sorts the entries by text in lexicographic byte order; the result is a
/// permutation of the input.
pub fn sort_entries(v: Vec<KeyEntry>) -> (r: Vec<KeyEntry>)
    ensures
        entries_sorted(r@),
        r@.to_multiset() == v@.to_multiset(),
        r@.len() == v@.len(),
{
    broadcast use group_to_multiset_ensures;

    let mut rest = v;
    let mut out: Vec<KeyEntry> = Vec::new();
    proof {
        assert(out@.to_multiset().add(rest@.to_multiset()) =~= rest@.to_multiset());
    }
    while rest.len() > 0
        invariant
            entries_sorted(out@),
            out@.to_multiset().add(rest@.to_multiset()) == v@.to_multiset(),
            out@.len() + rest@.len() == v@.len(),
        decreases rest@.len(),
    {
        let ghost rest0 = rest@;
        let e = rest.pop().unwrap();
        proof {
            rest0.to_multiset_ensures();
            assert(rest@ =~= rest0.remove(rest0.len() - 1));
            assert(rest0[rest0.len() - 1] == e);
            assert(rest0.remove(rest0.len() - 1).to_multiset() =~= rest0.to_multiset().remove(e));
            assert(rest@.to_multiset() =~= rest0.to_multiset().remove(e));
            assert(rest0.contains(e)) by {
                assert(rest0[rest0.len() - 1] == e);
            }
            assert(rest0.to_multiset().count(e) > 0);
        }
        let mut p: usize = 0;
        while p < out.len() && bytes_le_exec(&out[p].text, &e.text)
            invariant
                p <= out@.len(),
                entries_sorted(out@),
                forall|k: int| 0 <= k < p ==> bytes_le(#[trigger] out@[k].text@, e.text@),
            decreases out@.len() - p,
        {
            p = p + 1;
        }
        proof {
            if p < out@.len() {
                lemma_bytes_le_total(out@[p as int].text@, e.text@);
            }
            assert forall|k: int| p <= k < out@.len() implies bytes_le(
                e.text@,
                #[trigger] out@[k].text@,
            ) by {
                if p < k {
                    lemma_bytes_le_trans(e.text@, out@[p as int].text@, out@[k].text@);
                }
            }
        }
        let ghost out0 = out@;
        let ghost et = e.text@;
        out.insert(p, e);
        proof {
            out0.to_multiset_ensures();
            rest0.to_multiset_ensures();
            lemma_to_multiset_insert(out0, p as int, e);
            assert(out@ == out0.insert(p as int, e));
            assert forall|i: int, j: int| 0 <= i < j < out@.len() implies bytes_le(
                #[trigger] out@[i].text@,
                #[trigger] out@[j].text@,
            ) by {
                if i < p && j > p {
                    assert(out@[i] == out0[i] && out@[j] == out0[j - 1]);
                } else if j == p {
                    assert(out@[i] == out0[i] && out@[j].text@ == et);
                } else if i == p {
                    assert(out@[j] == out0[j - 1] && out@[i].text@ == et);
                }
            }
            assert(out@.to_multiset() =~= out0.to_multiset().insert(e));
            assert forall|x: KeyEntry|
                out@.to_multiset().add(rest@.to_multiset()).count(x) == v@.to_multiset().count(
                    x,
                ) by {
                if x == e {
                    assert(out@.to_multiset().count(e) == out0.to_multiset().count(e) + 1);
                    assert(rest@.to_multiset().count(e) == rest0.to_multiset().count(e) - 1);
                } else {
                    assert(out@.to_multiset().count(x) == out0.to_multiset().count(x));
                    assert(rest@.to_multiset().count(x) == rest0.to_multiset().count(x));
                }
            }
            assert(out@.to_multiset().add(rest@.to_multiset()) =~= v@.to_multiset());
        }
    }
    proof {
        assert(rest@.len() == 0);
        assert(rest@.to_multiset() =~= Multiset::<KeyEntry>::empty());
        assert(out@.to_multiset() =~= v@.to_multiset());
    }
    out
}

} // verus!
