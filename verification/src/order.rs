//! Lexicographic order of identifiers, as `str` orders them.

use vstd::prelude::*;

verus! {

/// `a` sorts strictly before `b` in the byte order of their UTF-8
/// encodings, which is the code-point order of their characters.
pub open spec fn lex_lt(a: Seq<char>, b: Seq<char>) -> bool
    decreases a.len(),
{
    if a.len() == 0 {
        b.len() > 0
    } else if b.len() == 0 {
        false
    } else if a[0] != b[0] {
        a[0] < b[0]
    } else {
        lex_lt(a.drop_first(), b.drop_first())
    }
}

proof fn lemma_lex_lt_skip(a: Seq<char>, b: Seq<char>, i: int)
    requires
        0 <= i < a.len(),
        i < b.len(),
        a[i] == b[i],
    ensures
        lex_lt(a.skip(i), b.skip(i)) == lex_lt(a.skip(i + 1), b.skip(i + 1)),
{
    assert(a.skip(i).drop_first() =~= a.skip(i + 1));
    assert(b.skip(i).drop_first() =~= b.skip(i + 1));
}

/// Strict lexicographic comparison of two character sequences.
pub fn chars_lt(a: &Vec<char>, b: &Vec<char>) -> (lt: bool)
    ensures
        lt == lex_lt(a@, b@),
{
    let mut i: usize = 0;
    assert(a@.skip(0) =~= a@);
    assert(b@.skip(0) =~= b@);
    while i < a.len() && i < b.len()
        invariant
            i <= a.len(),
            i <= b.len(),
            lex_lt(a@, b@) == lex_lt(a@.skip(i as int), b@.skip(i as int)),
        decreases a.len() - i,
    {
        if a[i] != b[i] {
            let ca: char = a[i];
            let cb: char = b[i];
            let lt: bool = ca < cb;
            assert(a@.skip(i as int)[0] == a@[i as int]);
            assert(b@.skip(i as int)[0] == b@[i as int]);
            return lt;
        }
        proof {
            lemma_lex_lt_skip(a@, b@, i as int);
        }
        i = i + 1;
    }
    i < b.len()
}

/// `lex_lt` never holds of a sequence and itself.
pub proof fn lemma_lex_lt_irreflexive(a: Seq<char>)
    ensures
        !lex_lt(a, a),
    decreases a.len(),
{
    if a.len() > 0 {
        lemma_lex_lt_irreflexive(a.drop_first());
    }
}

/// Of two different sequences, one sorts before the other, and never both.
pub proof fn lemma_lex_lt_total(a: Seq<char>, b: Seq<char>)
    ensures
        a != b ==> (lex_lt(a, b) || lex_lt(b, a)),
        !(lex_lt(a, b) && lex_lt(b, a)),
    decreases a.len(),
{
    if a.len() > 0 && b.len() > 0 {
        if a[0] == b[0] {
            lemma_lex_lt_total(a.drop_first(), b.drop_first());
            if a.drop_first() == b.drop_first() {
                assert(a =~= seq![a[0]] + a.drop_first());
                assert(b =~= seq![b[0]] + b.drop_first());
            }
        }
    } else if a.len() == 0 && b.len() == 0 {
        assert(a =~= b);
    }
}

/// `lex_lt` is transitive.
pub proof fn lemma_lex_lt_transitive(a: Seq<char>, b: Seq<char>, c: Seq<char>)
    requires
        lex_lt(a, b),
        lex_lt(b, c),
    ensures
        lex_lt(a, c),
    decreases a.len(),
{
    if a.len() > 0 && b.len() > 0 && c.len() > 0 {
        if a[0] == b[0] && b[0] == c[0] {
            lemma_lex_lt_transitive(a.drop_first(), b.drop_first(), c.drop_first());
        }
    }
}

/// Consecutive items, and so all items, of `s` ascend strictly.
pub open spec fn strictly_ascending(s: Seq<Seq<char>>) -> bool {
    forall|i: int, j: int| 0 <= i < j < s.len() ==> lex_lt(#[trigger] s[i], #[trigger] s[j])
}

/// The texts of a list of strings.
pub open spec fn texts(v: Seq<String>) -> Seq<Seq<char>> {
    v.map_values(|s: String| s@)
}

/// Insert `x` into the strictly ascending `out`, unless it is there.
fn insert_sorted(out: &mut Vec<String>, x: String)
    requires
        strictly_ascending(texts(old(out)@)),
    ensures
        strictly_ascending(texts(final(out)@)),
        texts(final(out)@).to_set() == texts(old(out)@).to_set().insert(x@),
{
    let xc: Vec<char> = crate::text::chars_of(x.as_str());
    let mut p: usize = 0;
    while p < out.len()
        invariant
            p <= out.len(),
            xc@ == x@,
            strictly_ascending(texts(out@)),
            forall|i: int| 0 <= i < p ==> lex_lt(#[trigger] texts(out@)[i], x@),
        ensures
            p <= out.len(),
            p < out.len() ==> !lex_lt(texts(out@)[p as int], x@),
            forall|i: int| 0 <= i < p ==> lex_lt(#[trigger] texts(out@)[i], x@),
        decreases out.len() - p,
    {
        let oc: Vec<char> = crate::text::chars_of(out[p].as_str());
        assert(texts(out@)[p as int] == out@[p as int]@);
        if !chars_lt(&oc, &xc) {
            break;
        }
        p = p + 1;
    }
    let ghost before = texts(out@);
    if p < out.len() && out[p] == x {
        assert(before.to_set() =~= before.to_set().insert(x@)) by {
            assert(before[p as int] == x@);
        }
        return;
    }
    proof {
        if p < out.len() {
            assert(before[p as int] == out@[p as int]@);
            lemma_lex_lt_total(before[p as int], x@);
        }
    }
    out.insert(p, x);
    let ghost after = texts(out@);
    assert(after =~= before.insert(p as int, x@));
    assert forall|i: int, j: int| 0 <= i < j < after.len() implies lex_lt(
        #[trigger] after[i],
        #[trigger] after[j],
    ) by {
        if j < p {
            assert(after[i] == before[i] && after[j] == before[j]);
        } else if j == p {
            assert(after[i] == before[i]);
        } else if i < p {
            assert(after[i] == before[i] && after[j] == before[j - 1]);
            if j - 1 > p {
                lemma_lex_lt_transitive(x@, before[p as int], before[j - 1]);
            }
            lemma_lex_lt_transitive(before[i], x@, before[j - 1]);
        } else if i == p {
            assert(after[j] == before[j - 1]);
            if j - 1 > p {
                lemma_lex_lt_transitive(x@, before[p as int], before[j - 1]);
            }
        } else {
            assert(after[i] == before[i - 1] && after[j] == before[j - 1]);
        }
    }
    assert(after.to_set() =~= before.to_set().insert(x@)) by {
        assert forall|t: Seq<char>| after.to_set().contains(t) implies before.to_set().insert(x@).contains(t) by {
            let k = choose|k: int| 0 <= k < after.len() && after[k] == t;
            if k < p {
                assert(before[k] == t);
            } else if k > p {
                assert(before[k - 1] == t);
            }
        }
        assert forall|t: Seq<char>| before.to_set().insert(x@).contains(t) implies after.to_set().contains(t) by {
            if t == x@ {
                assert(after[p as int] == t);
            } else {
                let k = choose|k: int| 0 <= k < before.len() && before[k] == t;
                if k < p {
                    assert(after[k] == t);
                } else {
                    assert(after[k + 1] == t);
                }
            }
        }
    }
}

/// The distinct strings of `items`, in ascending order (sort, then dedup).
pub fn sorted_unique(items: Vec<String>) -> (out: Vec<String>)
    ensures
        strictly_ascending(texts(out@)),
        texts(out@).to_set() == texts(items@).to_set(),
{
    let mut out: Vec<String> = Vec::new();
    let mut k: usize = 0;
    assert(texts(out@).to_set() =~= texts(items@.take(0)).to_set());
    while k < items.len()
        invariant
            k <= items.len(),
            strictly_ascending(texts(out@)),
            texts(out@).to_set() == texts(items@.take(k as int)).to_set(),
        decreases items.len() - k,
    {
        let x: String = items[k].clone();
        insert_sorted(&mut out, x);
        assert(texts(items@.take(k + 1)) =~= texts(items@.take(k as int)).push(items@[k as int]@));
        proof {
            lemma_push_to_set(texts(items@.take(k as int)), items@[k as int]@);
        }
        k = k + 1;
    }
    assert(items@.take(items.len() as int) =~= items@);
    out
}

proof fn lemma_push_to_set(s: Seq<Seq<char>>, x: Seq<char>)
    ensures
        s.push(x).to_set() == s.to_set().insert(x),
{
    assert(s.push(x).to_set() =~= s.to_set().insert(x)) by {
        assert forall|t: Seq<char>| s.push(x).to_set().contains(t) implies s.to_set().insert(x).contains(t) by {
            let k = choose|k: int| 0 <= k < s.push(x).len() && s.push(x)[k] == t;
            if k < s.len() {
                assert(s[k] == t);
            }
        }
        assert forall|t: Seq<char>| s.to_set().insert(x).contains(t) implies s.push(x).to_set().contains(t) by {
            if t == x {
                assert(s.push(x)[s.len() as int] == t);
            } else {
                let k = choose|k: int| 0 <= k < s.len() && s[k] == t;
                assert(s.push(x)[k] == t);
            }
        }
    }
}

proof fn lemma_ascending_prefix_equal(a: Seq<Seq<char>>, b: Seq<Seq<char>>, i: int)
    requires
        strictly_ascending(a),
        strictly_ascending(b),
        a.to_set() == b.to_set(),
        0 <= i < a.len(),
        i < b.len(),
    ensures
        forall|j: int| 0 <= j <= i ==> a[j] == b[j],
    decreases i,
{
    if i > 0 {
        lemma_ascending_prefix_equal(a, b, i - 1);
    }
    assert(a.to_set().contains(a[i]));
    let k = choose|k: int| 0 <= k < b.len() && b[k] == a[i];
    assert(b.to_set().contains(b[i]));
    let m = choose|m: int| 0 <= m < a.len() && a[m] == b[i];
    if k < i {
        assert(b[k] == a[k]);
        assert(lex_lt(a[k], a[i]));
        lemma_lex_lt_irreflexive(a[i]);
    } else if k > i {
        assert(lex_lt(b[i], b[k]));
        if m < i {
            assert(a[m] == b[m]);
            assert(lex_lt(b[m], b[i]));
            lemma_lex_lt_irreflexive(b[i]);
        } else if m == i {
            lemma_lex_lt_irreflexive(a[i]);
        } else {
            assert(lex_lt(a[i], a[m]));
            lemma_lex_lt_total(a[i], b[i]);
        }
    }
}

/// Two strictly ascending sequences with the same items are equal.
pub proof fn lemma_ascending_unique(a: Seq<Seq<char>>, b: Seq<Seq<char>>)
    requires
        strictly_ascending(a),
        strictly_ascending(b),
        a.to_set() == b.to_set(),
    ensures
        a == b,
{
    assert forall|i: int, j: int| 0 <= i < a.len() && 0 <= j < a.len() && i != j implies a[i] != a[j] by {
        if i < j {
            assert(lex_lt(a[i], a[j]));
        } else {
            assert(lex_lt(a[j], a[i]));
        }
        lemma_lex_lt_irreflexive(a[i]);
    }
    assert forall|i: int, j: int| 0 <= i < b.len() && 0 <= j < b.len() && i != j implies b[i] != b[j] by {
        if i < j {
            assert(lex_lt(b[i], b[j]));
        } else {
            assert(lex_lt(b[j], b[i]));
        }
        lemma_lex_lt_irreflexive(b[i]);
    }
    a.unique_seq_to_set();
    b.unique_seq_to_set();
    if a.len() > 0 {
        lemma_ascending_prefix_equal(a, b, a.len() - 1);
    }
    assert(a =~= b);
}

} // verus!
