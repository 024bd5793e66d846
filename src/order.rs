use vstd::prelude::*;

verus! {

/// Lexicographic order on byte strings; a proper prefix comes first.
pub open spec fn path_lt(a: Seq<u8>, b: Seq<u8>) -> bool
    decreases a.len(),
{
    if a.len() == 0 {
        b.len() > 0
    } else if b.len() == 0 {
        false
    } else if a[0] != b[0] {
        a[0] < b[0]
    } else {
        path_lt(a.drop_first(), b.drop_first())
    }
}

/// Each element is strictly below every later one.
pub open spec fn strictly_sorted(s: Seq<Seq<u8>>) -> bool {
    forall|i: int, j: int| 0 <= i < j < s.len() ==> #[trigger] path_lt(s[i], s[j])
}

/// `s` holds exactly the members of `set`.
pub open spec fn lists_exactly(s: Seq<Seq<u8>>, set: Set<Seq<u8>>) -> bool {
    forall|x: Seq<u8>| #[trigger] s.contains(x) <==> set.contains(x)
}

/// The members of `set` in increasing order.
pub open spec fn sorted_members(set: Set<Seq<u8>>) -> Seq<Seq<u8>> {
    choose|s: Seq<Seq<u8>>| strictly_sorted(s) && lists_exactly(s, set)
}

pub proof fn lemma_lt_irreflexive(a: Seq<u8>)
    ensures
        !path_lt(a, a),
    decreases a.len(),
{
    if a.len() > 0 {
        lemma_lt_irreflexive(a.drop_first());
    }
}

pub proof fn lemma_lt_transitive(a: Seq<u8>, b: Seq<u8>, c: Seq<u8>)
    requires
        path_lt(a, b),
        path_lt(b, c),
    ensures
        path_lt(a, c),
    decreases a.len(),
{
    if a.len() > 0 && b.len() > 0 && c.len() > 0 && a[0] == b[0] && b[0] == c[0] {
        lemma_lt_transitive(a.drop_first(), b.drop_first(), c.drop_first());
    }
}

pub proof fn lemma_lt_total(a: Seq<u8>, b: Seq<u8>)
    requires
        a != b,
    ensures
        path_lt(a, b) || path_lt(b, a),
    decreases a.len(),
{
    if a.len() == 0 && b.len() == 0 {
        assert(a =~= b);
    }
    if a.len() > 0 && b.len() > 0 && a[0] == b[0] {
        if a.drop_first() =~= b.drop_first() {
            assert forall|i: int| 0 <= i < a.len() implies a[i] == b[i] by {
                if i > 0 {
                    assert(a[i] == a.drop_first()[i - 1]);
                    assert(b[i] == b.drop_first()[i - 1]);
                }
            }
            assert(a =~= b);
        } else {
            lemma_lt_total(a.drop_first(), b.drop_first());
        }
    }
}

pub proof fn lemma_lt_asymmetric(a: Seq<u8>, b: Seq<u8>)
    requires
        path_lt(a, b),
    ensures
        !path_lt(b, a),
{
    if path_lt(b, a) {
        lemma_lt_transitive(a, b, a);
        lemma_lt_irreflexive(a);
    }
}

/// Two increasing sequences with the same members are the same sequence.
pub proof fn lemma_sorted_unique(a: Seq<Seq<u8>>, b: Seq<Seq<u8>>)
    requires
        strictly_sorted(a),
        strictly_sorted(b),
        forall|x: Seq<u8>| #[trigger] a.contains(x) <==> b.contains(x),
    ensures
        a == b,
    decreases a.len(),
{
    if a.len() == 0 {
        if b.len() > 0 {
            assert(b.contains(b[0]));
            assert(a.contains(b[0]));
        }
        assert(a =~= b);
    } else {
        assert(a.contains(a[0]));
        assert(b.len() > 0);
        assert(b.contains(b[0]));
        assert(a.contains(b[0]));
        assert(b.contains(a[0]));
        let j = choose|j: int| 0 <= j < b.len() && b[j] == a[0];
        let k = choose|k: int| 0 <= k < a.len() && a[k] == b[0];
        if j > 0 {
            assert(path_lt(b[0], b[j]));
            assert(path_lt(b[0], a[0]));
            if k > 0 {
                assert(path_lt(a[0], a[k]));
                assert(path_lt(a[0], b[0]));
                lemma_lt_transitive(b[0], a[0], b[0]);
            }
            lemma_lt_irreflexive(b[0]);
        }
        assert(a[0] == b[0]);
        let ta = a.drop_first();
        let tb = b.drop_first();
        assert forall|x: Seq<u8>| #[trigger] ta.contains(x) <==> tb.contains(x) by {
            if ta.contains(x) {
                let i = choose|i: int| 0 <= i < ta.len() && ta[i] == x;
                assert(path_lt(a[0], a[i + 1]));
                lemma_lt_irreflexive(x);
                assert(a.contains(x));
                assert(b.contains(x));
                let i2 = choose|i2: int| 0 <= i2 < b.len() && b[i2] == x;
                assert(i2 != 0);
                assert(tb[i2 - 1] == x);
            }
            if tb.contains(x) {
                let i = choose|i: int| 0 <= i < tb.len() && tb[i] == x;
                assert(path_lt(b[0], b[i + 1]));
                lemma_lt_irreflexive(x);
                assert(b.contains(x));
                assert(a.contains(x));
                let i2 = choose|i2: int| 0 <= i2 < a.len() && a[i2] == x;
                assert(i2 != 0);
                assert(ta[i2 - 1] == x);
            }
        }
        lemma_sorted_unique(ta, tb);
        assert(a =~= seq![a[0]] + ta);
        assert(b =~= seq![b[0]] + tb);
    }
}

/// An increasing listing of `set` is the one `sorted_members` names.
pub proof fn lemma_sorted_members(s: Seq<Seq<u8>>, set: Set<Seq<u8>>)
    requires
        strictly_sorted(s),
        lists_exactly(s, set),
    ensures
        sorted_members(set) == s,
{
    let c = sorted_members(set);
    assert(strictly_sorted(c) && lists_exactly(c, set));
    lemma_sorted_unique(c, s);
}

/// `s` with `x` put in its place, unless it is there already.
pub open spec fn with_member(s: Seq<Seq<u8>>, x: Seq<u8>) -> Seq<Seq<u8>>
    decreases s.len(),
{
    if s.len() == 0 {
        seq![x]
    } else if s[0] == x {
        s
    } else if path_lt(x, s[0]) {
        seq![x] + s
    } else {
        seq![s[0]] + with_member(s.drop_first(), x)
    }
}

pub proof fn lemma_with_member(s: Seq<Seq<u8>>, x: Seq<u8>)
    requires
        strictly_sorted(s),
    ensures
        strictly_sorted(with_member(s, x)),
        forall|y: Seq<u8>| #[trigger] with_member(s, x).contains(y) <==> (s.contains(y) || y == x),
    decreases s.len(),
{
    let r = with_member(s, x);
    if s.len() == 0 {
        assert(r[0] == x);
    } else if s[0] == x {
    } else if path_lt(x, s[0]) {
        assert forall|i: int, j: int| 0 <= i < j < r.len() implies #[trigger] path_lt(r[i], r[j]) by {
            if i == 0 {
                if j > 1 {
                    assert(path_lt(s[0], s[j - 1]));
                    lemma_lt_transitive(x, s[0], s[j - 1]);
                }
            } else {
                assert(path_lt(s[i - 1], s[j - 1]));
            }
        }
        assert forall|y: Seq<u8>| #[trigger] r.contains(y) <==> (s.contains(y) || y == x) by {
            if r.contains(y) {
                let i = choose|i: int| 0 <= i < r.len() && r[i] == y;
                if i > 0 {
                    assert(s[i - 1] == y);
                }
            }
            if s.contains(y) {
                let i = choose|i: int| 0 <= i < s.len() && s[i] == y;
                assert(r[i + 1] == y);
            }
            if y == x {
                assert(r[0] == y);
            }
        }
    } else {
        let tail = s.drop_first();
        assert forall|i: int, j: int| 0 <= i < j < tail.len() implies #[trigger] path_lt(tail[i], tail[j]) by {
            assert(path_lt(s[i + 1], s[j + 1]));
        }
        lemma_with_member(tail, x);
        let rt = with_member(tail, x);
        lemma_lt_total(x, s[0]);
        assert forall|i: int, j: int| 0 <= i < j < r.len() implies #[trigger] path_lt(r[i], r[j]) by {
            if i == 0 {
                assert(rt.contains(rt[j - 1]));
                if rt[j - 1] != x {
                    assert(tail.contains(rt[j - 1]));
                    let k = choose|k: int| 0 <= k < tail.len() && tail[k] == rt[j - 1];
                    assert(path_lt(s[0], s[k + 1]));
                }
            } else {
                assert(path_lt(rt[i - 1], rt[j - 1]));
            }
        }
        assert forall|y: Seq<u8>| #[trigger] r.contains(y) <==> (s.contains(y) || y == x) by {
            if r.contains(y) {
                let i = choose|i: int| 0 <= i < r.len() && r[i] == y;
                if i > 0 {
                    assert(rt.contains(y));
                    if y != x {
                        assert(tail.contains(y));
                        let k = choose|k: int| 0 <= k < tail.len() && tail[k] == y;
                        assert(s[k + 1] == y);
                    }
                } else {
                    assert(s[0] == y);
                }
            }
            if s.contains(y) {
                let i = choose|i: int| 0 <= i < s.len() && s[i] == y;
                if i > 0 {
                    assert(tail[i - 1] == y);
                    assert(rt.contains(y));
                    let k = choose|k: int| 0 <= k < rt.len() && rt[k] == y;
                    assert(r[k + 1] == y);
                } else {
                    assert(r[0] == y);
                }
            }
            if y == x {
                assert(rt.contains(y));
                let k = choose|k: int| 0 <= k < rt.len() && rt[k] == y;
                assert(r[k + 1] == y);
            }
        }
    }
}

/// Compares two byte strings in `path_lt` order.
pub fn path_less(a: &Vec<u8>, b: &Vec<u8>) -> (r: bool)
    ensures
        r == path_lt(a@, b@),
{
    let n = a.len();
    let m = b.len();
    let mut i: usize = 0;
    assert(a@.subrange(0, n as int) =~= a@);
    assert(b@.subrange(0, m as int) =~= b@);
    while i < n && i < m
        invariant
            n == a@.len(),
            m == b@.len(),
            i <= n,
            i <= m,
            path_lt(a@, b@) == path_lt(a@.subrange(i as int, n as int), b@.subrange(i as int, m as int)),
        decreases n - i,
    {
        let x = a[i];
        let y = b[i];
        proof {
            let sa = a@.subrange(i as int, n as int);
            let sb = b@.subrange(i as int, m as int);
            assert(sa.drop_first() =~= a@.subrange(i + 1, n as int));
            assert(sb.drop_first() =~= b@.subrange(i + 1, m as int));
        }
        if x != y {
            return x < y;
        }
        i = i + 1;
    }
    i < m && i == n
}

pub open spec fn views(v: Seq<Vec<u8>>) -> Seq<Seq<u8>> {
    v.map_values(|x: Vec<u8>| x@)
}

/// Adds `p` to an increasing list of byte strings, unless it is already there.
pub fn insert_sorted(v: &mut Vec<Vec<u8>>, p: Vec<u8>)
    requires
        strictly_sorted(views(old(v)@)),
    ensures
        strictly_sorted(views(final(v)@)),
        forall|x: Seq<u8>| #[trigger]
            views(final(v)@).contains(x) <==> (views(old(v)@).contains(x) || x == p@),
{
    let ghost s = views(v@);
    let n = v.len();
    let mut i: usize = 0;
    while i < n && path_less(&v[i], &p)
        invariant
            n == v@.len(),
            s == views(v@),
            i <= n,
            forall|j: int| 0 <= j < i ==> #[trigger] path_lt(s[j], p@),
        decreases n - i,
    {
        i = i + 1;
    }
    if i < n && !path_less(&p, &v[i]) {
        proof {
            if s[i as int] != p@ {
                lemma_lt_total(s[i as int], p@);
            }
            assert forall|x: Seq<u8>| #[trigger] s.contains(x) <==> (s.contains(x) || x == p@) by {
                if x == p@ {
                    assert(s[i as int] == x);
                }
            }
        }
        return;
    }
    let ghost pv = p@;
    v.insert(i, p);
    proof {
        let t = views(v@);
        assert(t =~= s.insert(i as int, pv));
        if i < n {
            if s[i as int] != pv {
                lemma_lt_total(s[i as int], pv);
            }
            lemma_lt_irreflexive(pv);
            assert(path_lt(pv, s[i as int]));
        }
        assert forall|a: int, b: int| 0 <= a < b < t.len() implies #[trigger] path_lt(t[a], t[b]) by {
            if b < i {
            } else if a < i && b == i {
            } else if a < i && b > i {
                assert(path_lt(s[a], s[b - 1]));
            } else if a == i {
                if b - 1 > i {
                    assert(path_lt(s[i as int], s[b - 1]));
                    lemma_lt_transitive(pv, s[i as int], s[b - 1]);
                }
            } else {
                assert(path_lt(s[a - 1], s[b - 1]));
            }
        }
        assert forall|x: Seq<u8>| #[trigger] t.contains(x) <==> (s.contains(x) || x == pv) by {
            if t.contains(x) {
                let j = choose|j: int| 0 <= j < t.len() && t[j] == x;
                if j < i {
                    assert(s[j] == x);
                } else if j > i {
                    assert(s[j - 1] == x);
                }
            }
            if s.contains(x) {
                let j = choose|j: int| 0 <= j < s.len() && s[j] == x;
                if j < i {
                    assert(t[j] == x);
                } else {
                    assert(t[j + 1] == x);
                }
            }
            if x == pv {
                assert(t[i as int] == x);
            }
        }
    }
}

} // verus!
