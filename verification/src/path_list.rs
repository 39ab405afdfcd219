//! Ordered lists of paths without repetition, as the watcher keeps them.

use vstd::prelude::*;

verus! {

/// The character sequences of a list of strings.
pub open spec fn views(v: Seq<String>) -> Seq<Seq<char>> {
    v.map_values(|s: String| s@)
}

/// Appends `p` unless the list already holds it.
pub open spec fn push_once(s: Seq<Seq<char>>, p: Seq<char>) -> Seq<Seq<char>> {
    if s.contains(p) {
        s
    } else {
        s.push(p)
    }
}

/// Removes the first occurrence of `p`, if any.
pub open spec fn remove_first(s: Seq<Seq<char>>, p: Seq<char>) -> Seq<Seq<char>>
    decreases s.len(),
{
    if s.len() == 0 {
        s
    } else if s[0] == p {
        s.drop_first()
    } else {
        seq![s[0]] + remove_first(s.drop_first(), p)
    }
}

/// A list without repeated elements.
pub open spec fn distinct(s: Seq<Seq<char>>) -> bool {
    forall|i: int, j: int| 0 <= i < j < s.len() ==> s[i] != s[j]
}

pub proof fn lemma_remove_first_absent(s: Seq<Seq<char>>, p: Seq<char>)
    requires
        !s.contains(p),
    ensures
        remove_first(s, p) == s,
    decreases s.len(),
{
    if s.len() > 0 {
        assert(s[0] != p);
        assert(!s.drop_first().contains(p)) by {
            if s.drop_first().contains(p) {
                let k = choose|k: int| 0 <= k < s.drop_first().len() && s.drop_first()[k] == p;
                assert(s[k + 1] == p);
            }
        }
        lemma_remove_first_absent(s.drop_first(), p);
        assert(seq![s[0]] + s.drop_first() =~= s);
    }
}

pub proof fn lemma_remove_first_at(s: Seq<Seq<char>>, p: Seq<char>, i: int)
    requires
        0 <= i < s.len(),
        s[i] == p,
        forall|k: int| 0 <= k < i ==> s[k] != p,
    ensures
        remove_first(s, p) =~= s.take(i) + s.skip(i + 1),
    decreases s.len(),
{
    if i > 0 {
        let t = s.drop_first();
        assert forall|k: int| 0 <= k < i - 1 implies t[k] != p by {
            assert(t[k] == s[k + 1]);
        }
        lemma_remove_first_at(t, p, i - 1);
        assert(s.take(i) =~= seq![s[0]] + t.take(i - 1));
        assert(s.skip(i + 1) =~= t.skip(i));
    }
}

/// Elements of `remove_first(s, p)` are elements of `s`, and a distinct list
/// loses exactly `p`.
pub proof fn lemma_remove_first_contains(s: Seq<Seq<char>>, p: Seq<char>, q: Seq<char>)
    requires
        distinct(s),
    ensures
        remove_first(s, p).contains(q) <==> (s.contains(q) && q != p),
        distinct(remove_first(s, p)),
        remove_first(s, p).len() == if s.contains(p) { s.len() - 1 } else { s.len() as int },
    decreases s.len(),
{
    if s.len() > 0 {
        let t = s.drop_first();
        assert(distinct(t)) by {
            assert forall|i: int, j: int| 0 <= i < j < t.len() implies t[i] != t[j] by {
                assert(t[i] == s[i + 1] && t[j] == s[j + 1]);
            }
        }
        lemma_remove_first_contains(t, p, q);
        lemma_remove_first_contains(t, p, s[0]);
        assert(s.contains(q) <==> (s[0] == q || t.contains(q))) by {
            if s.contains(q) {
                let k = choose|k: int| 0 <= k < s.len() && s[k] == q;
                if k > 0 {
                    assert(t[k - 1] == q);
                }
            }
            if t.contains(q) {
                let k = choose|k: int| 0 <= k < t.len() && t[k] == q;
                assert(s[k + 1] == q);
            }
        }
        assert(!t.contains(s[0])) by {
            if t.contains(s[0]) {
                let k = choose|k: int| 0 <= k < t.len() && t[k] == s[0];
                assert(s[k + 1] == s[0]);
            }
        }
        assert(s.contains(p) <==> (s[0] == p || t.contains(p))) by {
            if s.contains(p) {
                let k = choose|k: int| 0 <= k < s.len() && s[k] == p;
                if k > 0 {
                    assert(t[k - 1] == p);
                }
            }
            if t.contains(p) {
                let k = choose|k: int| 0 <= k < t.len() && t[k] == p;
                assert(s[k + 1] == p);
            }
        }
        if s[0] == p {
            assert(remove_first(s, p) == t);
        } else {
            let r = seq![s[0]] + remove_first(t, p);
            assert(remove_first(s, p) == r);
            assert(r.contains(q) <==> (s[0] == q || remove_first(t, p).contains(q))) by {
                if r.contains(q) {
                    let k = choose|k: int| 0 <= k < r.len() && r[k] == q;
                    if k > 0 {
                        assert(remove_first(t, p)[k - 1] == q);
                    }
                }
                if remove_first(t, p).contains(q) {
                    let k = choose|k: int| 0 <= k < remove_first(t, p).len() && remove_first(t, p)[k] == q;
                    assert(r[k + 1] == q);
                }
                assert(r[0] == s[0]);
            }
            assert(distinct(r)) by {
                assert forall|i: int, j: int| 0 <= i < j < r.len() implies r[i] != r[j] by {
                    if i == 0 {
                        assert(r[j] == remove_first(t, p)[j - 1]);
                        assert(remove_first(t, p).contains(r[j]));
                    } else {
                        assert(r[i] == remove_first(t, p)[i - 1]);
                        assert(r[j] == remove_first(t, p)[j - 1]);
                    }
                }
            }
        }
    }
}

pub proof fn lemma_push_once_contains(s: Seq<Seq<char>>, p: Seq<char>, q: Seq<char>)
    requires
        distinct(s),
    ensures
        push_once(s, p).contains(q) <==> (s.contains(q) || q == p),
        distinct(push_once(s, p)),
{
    if !s.contains(p) {
        let r = s.push(p);
        assert(r[s.len() as int] == p);
        assert(r.contains(q) <==> (s.contains(q) || q == p)) by {
            if r.contains(q) {
                let k = choose|k: int| 0 <= k < r.len() && r[k] == q;
                if k < s.len() {
                    assert(s[k] == q);
                }
            }
            if s.contains(q) {
                let k = choose|k: int| 0 <= k < s.len() && s[k] == q;
                assert(r[k] == q);
            }
        }
        assert forall|i: int, j: int| 0 <= i < j < r.len() implies r[i] != r[j] by {
            if j == s.len() {
                assert(s[i] == r[i]);
            }
        }
    }
}

/// `remove_first` on a distinct list, for every element at once.
pub proof fn lemma_remove_first_all(s: Seq<Seq<char>>, a: Seq<char>)
    requires
        distinct(s),
    ensures
        distinct(remove_first(s, a)),
        forall|q: Seq<char>| #[trigger] remove_first(s, a).contains(q) <==> (s.contains(q) && q != a),
{
    lemma_remove_first_contains(s, a, a);
    assert forall|q: Seq<char>| #[trigger] remove_first(s, a).contains(q) <==> (s.contains(q) && q != a) by {
        lemma_remove_first_contains(s, a, q);
    }
}

/// `push_once` on a distinct list, for every element at once.
pub proof fn lemma_push_once_all(s: Seq<Seq<char>>, a: Seq<char>)
    requires
        distinct(s),
    ensures
        distinct(push_once(s, a)),
        forall|q: Seq<char>| #[trigger] push_once(s, a).contains(q) <==> (s.contains(q) || q == a),
{
    lemma_push_once_contains(s, a, a);
    assert forall|q: Seq<char>| #[trigger] push_once(s, a).contains(q) <==> (s.contains(q) || q == a) by {
        lemma_push_once_contains(s, a, q);
    }
}

/// Whether `v` holds a string equal to `p`.
pub fn list_contains(v: &Vec<String>, p: &String) -> (r: bool)
    ensures
        r == views(v@).contains(p@),
{
    let mut i: usize = 0;
    while i < v.len()
        invariant
            i <= v.len(),
            forall|k: int| 0 <= k < i ==> v@[k]@ != p@,
        decreases v.len() - i,
    {
        if v[i] == *p {
            assert(views(v@)[i as int] == p@);
            return true;
        }
        i = i + 1;
    }
    proof {
        if views(v@).contains(p@) {
            let k = choose|k: int| 0 <= k < views(v@).len() && views(v@)[k] == p@;
            assert(v@[k]@ == p@);
        }
    }
    false
}

/// Appends a copy of `p` unless `v` holds it already.
pub fn list_push_once(v: &mut Vec<String>, p: &String)
    ensures
        views(final(v)@) == push_once(views(old(v)@), p@),
{
    if !list_contains(v, p) {
        v.push(p.clone());
        assert(views(v@) =~= views(old(v)@).push(p@));
    }
}

/// Removes the first string equal to `p`; returns whether one was removed.
pub fn list_remove_first(v: &mut Vec<String>, p: &String) -> (r: bool)
    ensures
        views(final(v)@) == remove_first(views(old(v)@), p@),
        r == views(old(v)@).contains(p@),
        !r ==> final(v)@ == old(v)@,
{
    let ghost s = views(v@);
    let mut i: usize = 0;
    while i < v.len()
        invariant
            i <= v.len(),
            v@ == old(v)@,
            s == views(v@),
            forall|k: int| 0 <= k < i ==> s[k] != p@,
        decreases v.len() - i,
    {
        if v[i] == *p {
            proof {
                lemma_remove_first_at(s, p@, i as int);
            }
            v.remove(i);
            assert(views(v@) =~= s.take(i as int) + s.skip(i + 1));
            assert(s[i as int] == p@);
            return true;
        }
        i = i + 1;
    }
    proof {
        assert(!s.contains(p@)) by {
            if s.contains(p@) {
                let k = choose|k: int| 0 <= k < s.len() && s[k] == p@;
            }
        }
        lemma_remove_first_absent(s, p@);
    }
    false
}

} // verus!
