use vstd::prelude::*;
use vstd::hash_set::StringHashSet;

verus! {

/// The text of each line.
pub open spec fn texts(lines: Seq<String>) -> Seq<Seq<char>> {
    lines.map_values(|l: String| l@)
}

/// Line `i` of `second` occurs in `first` and not earlier in `second`.
pub open spec fn is_reported(first: Seq<Seq<char>>, second: Seq<Seq<char>>, i: int) -> bool {
    &&& first.contains(second[i])
    &&& forall|j: int| 0 <= j < i ==> second[j] != second[i]
}

/// The lines of `second` that also occur in `first`, in the order of `second`,
/// each text once (at its first occurrence in `second`).
pub open spec fn common(first: Seq<Seq<char>>, second: Seq<Seq<char>>) -> Seq<Seq<char>>
    decreases second.len(),
{
    if second.len() == 0 {
        Seq::empty()
    } else {
        let rest = common(first, second.drop_last());
        if is_reported(first, second, second.len() - 1) {
            rest.push(second.last())
        } else {
            rest
        }
    }
}

/// `a` is where `x` first occurs in `s`.
pub open spec fn first_at(s: Seq<Seq<char>>, x: Seq<char>, a: int) -> bool {
    &&& 0 <= a < s.len()
    &&& s[a] == x
    &&& forall|j: int| 0 <= j < a ==> s[j] != x
}

/// `x` first occurs in `s` before `y` first occurs there.
pub open spec fn first_before(s: Seq<Seq<char>>, x: Seq<char>, y: Seq<char>) -> bool {
    exists|a: int, b: int| a < b && #[trigger] first_at(s, x, a) && #[trigger] first_at(s, y, b)
}

/// `res` holds each text that occurs in both `first` and `second`, and nothing
/// else, each once, in the order in which they first occur in `second`.
pub open spec fn reports_common(first: Seq<Seq<char>>, second: Seq<Seq<char>>, res: Seq<Seq<char>>) -> bool {
    &&& forall|x: Seq<char>| #[trigger] res.contains(x) <==> first.contains(x) && second.contains(x)
    &&& forall|i: int, j: int| 0 <= i < j < res.len() ==> #[trigger] res[i] != #[trigger] res[j]
    &&& forall|i: int, j: int|
        0 <= i < j < res.len() ==> first_before(second, #[trigger] res[i], #[trigger] res[j])
}

/// Every text of `s` has a first occurrence.
proof fn lemma_first_occurrence(s: Seq<Seq<char>>, x: Seq<char>)
    requires
        s.contains(x),
    ensures
        exists|a: int| first_at(s, x, a),
    decreases s.len(),
{
    let t = s.drop_last();
    if t.contains(x) {
        lemma_first_occurrence(t, x);
        let a = choose|a: int| first_at(t, x, a);
        assert(s[a] == t[a]);
        assert forall|j: int| 0 <= j < a implies s[j] != x by {
            assert(s[j] == t[j]);
        }
        assert(first_at(s, x, a));
    } else {
        assert forall|j: int| 0 <= j < s.len() - 1 implies s[j] != x by {
            assert(t[j] == s[j]);
        }
        assert(first_at(s, x, s.len() - 1));
    }
}

/// What `common` reports: each text found in both lists, once, in the order of
/// its first occurrence in `second`.
pub proof fn lemma_common_reports(first: Seq<Seq<char>>, second: Seq<Seq<char>>)
    ensures
        reports_common(first, second, common(first, second)),
    decreases second.len(),
{
    let res = common(first, second);
    if second.len() == 0 {
        assert(res =~= Seq::<Seq<char>>::empty());
    } else {
        let t = second.drop_last();
        let x = second.last();
        lemma_common_reports(first, t);
        let prev = common(first, t);
        assert forall|y: Seq<char>| t.contains(y) implies second.contains(y) by {
            let j = choose|j: int| 0 <= j < t.len() && t[j] == y;
            assert(second[j] == y);
        }
        assert forall|y: Seq<char>| second.contains(y) && y != x implies t.contains(y) by {
            let j = choose|j: int| 0 <= j < second.len() && second[j] == y;
            assert(t[j] == y);
        }
        assert(second[second.len() - 1] == x);
        assert forall|y: Seq<char>, a: int| first_at(t, y, a) implies #[trigger] first_at(second, y, a) by {
            assert(t[a] == second[a]);
            assert forall|j: int| 0 <= j < a implies second[j] != y by {
                assert(t[j] == second[j]);
            }
        }
        let reported = is_reported(first, second, second.len() - 1);
        if reported {
            assert(res == prev.push(x));
            assert(!t.contains(x)) by {
                if t.contains(x) {
                    let j = choose|j: int| 0 <= j < t.len() && t[j] == x;
                    assert(second[j] == second[second.len() - 1]);
                }
            }
            assert forall|y: Seq<char>| #[trigger] res.contains(y) <==> first.contains(y) && second.contains(y) by {
                if res.contains(y) && y != x {
                    let j = choose|j: int| 0 <= j < res.len() && res[j] == y;
                    assert(prev[j] == y);
                    assert(prev.contains(y));
                }
                if first.contains(y) && second.contains(y) {
                    if y == x {
                        assert(res[res.len() - 1] == y);
                    } else {
                        assert(t.contains(y));
                        assert(prev.contains(y));
                        let j = choose|j: int| 0 <= j < prev.len() && prev[j] == y;
                        assert(res[j] == y);
                    }
                }
            }
            assert(first_at(second, x, second.len() - 1)) by {
                assert forall|j: int| 0 <= j < second.len() - 1 implies second[j] != x by {
                    assert(t[j] == second[j]);
                }
            }
            assert forall|i: int, j: int| 0 <= i < j < res.len() implies #[trigger] res[i] != #[trigger] res[j]
                && first_before(second, res[i], res[j]) by {
                if j < prev.len() {
                    assert(res[i] == prev[i] && res[j] == prev[j]);
                    assert(first_before(t, prev[i], prev[j]));
                    let (a, b) = choose|a: int, b: int| a < b && #[trigger] first_at(t, prev[i], a) && #[trigger] first_at(t, prev[j], b);
                    assert(first_at(second, res[i], a));
                    assert(first_at(second, res[j], b));
                } else {
                    assert(res[j] == x);
                    assert(res[i] == prev[i]);
                    assert(prev.contains(prev[i]));
                    assert(t.contains(res[i]));
                    lemma_first_occurrence(t, res[i]);
                    let a = choose|a: int| first_at(t, res[i], a);
                    assert(first_at(second, res[i], a));
                }
            }
        } else {
            assert(res == prev);
            assert forall|y: Seq<char>| #[trigger] res.contains(y) <==> first.contains(y) && second.contains(y) by {
                if first.contains(y) && second.contains(y) && y == x {
                    assert(!(forall|j: int| 0 <= j < second.len() - 1 ==> #[trigger] second[j] != x));
                    let j = choose|j: int| 0 <= j < second.len() - 1 && #[trigger] second[j] == x;
                    assert(t[j] == y);
                    assert(t.contains(y));
                }
            }
            assert forall|i: int, j: int| 0 <= i < j < res.len() implies first_before(
                second,
                #[trigger] res[i],
                #[trigger] res[j],
            ) by {
                assert(first_before(t, prev[i], prev[j]));
                let (a, b) = choose|a: int, b: int| a < b && #[trigger] first_at(t, prev[i], a) && #[trigger] first_at(t, prev[j], b);
                assert(first_at(second, res[i], a));
                assert(first_at(second, res[j], b));
            }
        }
    }
}

/// The lines of `second` that also occur in `first`, each reported once.
pub fn common_lines(first: Vec<String>, second: Vec<String>) -> (res: Vec<String>)
    ensures
        texts(res@) == common(texts(first@), texts(second@)),
        reports_common(texts(first@), texts(second@), texts(res@)),
{
    proof {
        lemma_common_reports(texts(first@), texts(second@));
    }
    let ghost f = texts(first@);
    let ghost s = texts(second@);
    let mut seen = StringHashSet::new();
    for line in it: first
        invariant
            it.seq() == first@,
            f == texts(first@),
            forall|t: Seq<char>| #[trigger] seen@.contains(t) <==> exists|j: int| 0 <= j < it.index() && f[j] == t,
    {
        let ghost i = it.index() as int;
        assert(line@ == f[i]);
        seen.insert(line);
        assert forall|t: Seq<char>| #[trigger] seen@.contains(t) implies exists|j: int| 0 <= j < i + 1 && f[j] == t by {
            if t == f[i] {
                assert(f[i] == t);
            }
        }
    }
    assert forall|t: Seq<char>| #[trigger] seen@.contains(t) <==> f.contains(t) by {
        if f.contains(t) {
            let j = choose|j: int| 0 <= j < f.len() && f[j] == t;
            assert(exists|j: int| 0 <= j < f.len() && f[j] == t);
        }
    }
    let mut res: Vec<String> = Vec::new();
    for line in it: second
        invariant
            it.seq() == second@,
            s == texts(second@),
            forall|t: Seq<char>| #[trigger] seen@.contains(t) <==> (f.contains(t) && forall|j: int|
                0 <= j < it.index() ==> s[j] != t),
            texts(res@) == common(f, s.take(it.index() as int)),
    {
        let ghost i = it.index() as int;
        let ghost pre = s.take(i + 1);
        assert(pre.drop_last() =~= s.take(i));
        assert(pre.last() == line@);
        assert forall|j: int| 0 <= j < i + 1 implies pre[j] == s[j] by {}
        assert(common(f, s.take(i)) == common(f, pre.drop_last()));
        if seen.contains(line.as_str()) {
            seen.remove(line.as_str());
            assert(is_reported(f, pre, i));
            let ghost before = res@;
            res.push(line);
            assert(texts(res@) =~= texts(before).push(line@));
        } else {
            assert(!is_reported(f, pre, i));
        }
    }
    assert(s.take(s.len() as int) =~= s);
    res
}

} // verus!
