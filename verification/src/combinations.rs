use vstd::prelude::*;

verus! {

/// All `k`-element subsequences of `s`: first those that keep `s[0]`
/// (each with `s[0]` in front), then those that skip it.
pub open spec fn combos(s: Seq<i32>, k: nat) -> Seq<Seq<i32>>
    decreases s.len(),
{
    if k == 0 {
        seq![Seq::empty()]
    } else if s.len() == 0 {
        Seq::empty()
    } else {
        combos(s.drop_first(), (k - 1) as nat).map_values(|c: Seq<i32>| seq![s[0]] + c)
            + combos(s.drop_first(), k)
    }
}

/// The binomial coefficient `n` choose `k`.
pub open spec fn binomial(n: nat, k: nat) -> nat
    decreases n,
{
    if k == 0 {
        1
    } else if n == 0 {
        0
    } else {
        binomial((n - 1) as nat, (k - 1) as nat) + binomial((n - 1) as nat, k)
    }
}

/// Choosing one element gives the singletons, in order.
proof fn lemma_combos_one(s: Seq<i32>)
    ensures
        combos(s, 1) =~= s.map_values(|x: i32| seq![x]),
    decreases s.len(),
{
    if s.len() > 0 {
        lemma_combos_one(s.drop_first());
        let base = combos(s.drop_first(), 0).map_values(|c: Seq<i32>| seq![s[0]] + c);
        assert(base =~= seq![seq![s[0]]]) by {
            assert(seq![s[0]] + Seq::<i32>::empty() =~= seq![s[0]]);
        }
        assert(s.map_values(|x: i32| seq![x]) =~= seq![seq![s[0]]] + s.drop_first().map_values(
            |x: i32| seq![x],
        ));
    }
}

/// The number of `k`-combinations of `s` is `binomial(|s|, k)`.
pub proof fn lemma_combos_count(s: Seq<i32>, k: nat)
    ensures
        combos(s, k).len() == binomial(s.len(), k),
    decreases s.len(),
{
    if k > 0 && s.len() > 0 {
        lemma_combos_count(s.drop_first(), (k - 1) as nat);
        lemma_combos_count(s.drop_first(), k);
    }
}

/// Every `k`-combination of `s` has exactly `k` elements, each taken from `s`.
pub proof fn lemma_combos_members(s: Seq<i32>, k: nat)
    ensures
        forall|i: int|
            0 <= i < combos(s, k).len() ==> {
                &&& (#[trigger] combos(s, k)[i]).len() == k
                &&& forall|j: int| 0 <= j < k ==> s.contains(combos(s, k)[i][j])
            },
    decreases s.len(),
{
    if k > 0 && s.len() > 0 {
        let t = s.drop_first();
        lemma_combos_members(t, (k - 1) as nat);
        lemma_combos_members(t, k);
        let a = combos(t, (k - 1) as nat).map_values(|c: Seq<i32>| seq![s[0]] + c);
        let b = combos(t, k);
        assert forall|i: int| 0 <= i < combos(s, k).len() implies {
            &&& (#[trigger] combos(s, k)[i]).len() == k
            &&& forall|j: int| 0 <= j < k ==> s.contains(combos(s, k)[i][j])
        } by {
            if i < a.len() {
                let c = combos(t, (k - 1) as nat)[i];
                assert(combos(s, k)[i] == seq![s[0]] + c);
                assert forall|j: int| 0 <= j < k implies s.contains(combos(s, k)[i][j]) by {
                    if j == 0 {
                        assert(s[0] == combos(s, k)[i][j]);
                    } else {
                        assert(combos(s, k)[i][j] == c[j - 1]);
                        assert(t.contains(c[j - 1]));
                        let w = choose|w: int| 0 <= w < t.len() && t[w] == c[j - 1];
                        assert(s[w + 1] == t[w]);
                    }
                }
            } else {
                let c = b[i - a.len()];
                assert(combos(s, k)[i] == c);
                assert forall|j: int| 0 <= j < k implies s.contains(combos(s, k)[i][j]) by {
                    assert(t.contains(c[j]));
                    let w = choose|w: int| 0 <= w < t.len() && t[w] == c[j];
                    assert(s[w + 1] == t[w]);
                }
            }
        }
    }
}

/// `idx` lists `k` positions of a sequence of length `n`, in increasing order.
pub open spec fn is_position_choice(idx: Seq<int>, n: int, k: int) -> bool {
    &&& idx.len() == k
    &&& forall|i: int| 0 <= i < idx.len() ==> 0 <= #[trigger] idx[i] < n
    &&& forall|i: int, j: int| 0 <= i < j < idx.len() ==> #[trigger] idx[i] < #[trigger] idx[j]
}

/// `a` comes before `b` in lexicographic order: they agree up to some place, where
/// `a` is smaller.
pub open spec fn lex_before(a: Seq<int>, b: Seq<int>) -> bool {
    exists|p: int|
        #![trigger a.take(p), b.take(p)]
        0 <= p < a.len() && p < b.len() && a.take(p) == b.take(p) && a[p] < b[p]
}

/// The elements of `s` at the positions `idx`, in that order.
pub open spec fn at_positions(s: Seq<i32>, idx: Seq<int>) -> Seq<i32> {
    idx.map_values(|i: int| s[i])
}

/// `t` gives, for each row of `rows`, the positions in `s` it is taken from: each
/// row takes `k` increasing positions, the rows come in lexicographic order of
/// their positions, and every choice of `k` increasing positions has a row.
pub open spec fn enumerates(s: Seq<i32>, k: int, rows: Seq<Seq<i32>>, t: Seq<Seq<int>>) -> bool {
    &&& t.len() == rows.len()
    &&& forall|i: int|
        0 <= i < t.len() ==> is_position_choice(#[trigger] t[i], s.len() as int, k) && rows[i]
            == at_positions(s, t[i])
    &&& forall|i: int, j: int| 0 <= i < j < t.len() ==> lex_before(#[trigger] t[i], #[trigger] t[j])
    &&& forall|idx: Seq<int>|
        #[trigger] is_position_choice(idx, s.len() as int, k) ==> exists|i: int|
            0 <= i < t.len() && #[trigger] t[i] == idx
}

/// `rows` are the `k`-combinations of `s`, one for each choice of `k` positions,
/// each keeping the order of `s`, listed in lexicographic order of positions: so
/// those that take `s[0]` come first.
pub open spec fn lex_combinations(s: Seq<i32>, k: int, rows: Seq<Seq<i32>>) -> bool {
    exists|t: Seq<Seq<int>>| enumerates(s, k, rows, t)
}

/// Every position one further on.
spec fn shift(t: Seq<int>) -> Seq<int> {
    t.map_values(|x: int| x + 1)
}

/// The choices of `k` increasing positions out of `n`, in lexicographic order.
spec fn position_choices(n: nat, k: nat) -> Seq<Seq<int>>
    decreases n,
{
    if k == 0 {
        seq![Seq::empty()]
    } else if n == 0 {
        Seq::empty()
    } else {
        position_choices((n - 1) as nat, (k - 1) as nat).map_values(|t: Seq<int>| seq![0int] + shift(t))
            + position_choices((n - 1) as nat, k).map_values(|t: Seq<int>| shift(t))
    }
}

/// The combinations are the elements at the chosen positions.
proof fn lemma_combos_at_positions(s: Seq<i32>, k: nat)
    ensures
        combos(s, k) == position_choices(s.len(), k).map_values(|t: Seq<int>| at_positions(s, t)),
    decreases s.len(),
{
    let pc = position_choices(s.len(), k);
    if k == 0 {
        assert(at_positions(s, Seq::<int>::empty()) =~= Seq::<i32>::empty());
        assert(combos(s, k) =~= pc.map_values(|t: Seq<int>| at_positions(s, t)));
    } else if s.len() == 0 {
        assert(combos(s, k) =~= pc.map_values(|t: Seq<int>| at_positions(s, t)));
    } else {
        let s1 = s.drop_first();
        lemma_combos_at_positions(s1, (k - 1) as nat);
        lemma_combos_at_positions(s1, k);
        let pa = position_choices(s1.len(), (k - 1) as nat);
        let pb = position_choices(s1.len(), k);
        let a = combos(s1, (k - 1) as nat).map_values(|c: Seq<i32>| seq![s[0]] + c);
        let b = combos(s1, k);
        lemma_position_choices_valid(s1.len(), (k - 1) as nat);
        lemma_position_choices_valid(s1.len(), k);
        assert forall|i: int| 0 <= i < pa.len() implies #[trigger] at_positions(
            s,
            seq![0int] + shift(pa[i]),
        ) == seq![s[0]] + at_positions(s1, pa[i]) by {
            let t = pa[i];
            assert(is_position_choice(t, s1.len() as int, k - 1));
            let l = at_positions(s, seq![0int] + shift(t));
            let r = seq![s[0]] + at_positions(s1, t);
            assert forall|j: int| 0 <= j < l.len() implies l[j] == r[j] by {
                if j > 0 {
                    assert(0 <= t[j - 1] < s1.len());
                    assert(s1[t[j - 1]] == s[t[j - 1] + 1]);
                }
            }
            assert(l =~= r);
        }
        assert forall|i: int| 0 <= i < pb.len() implies #[trigger] at_positions(s, shift(pb[i]))
            == at_positions(s1, pb[i]) by {
            let t = pb[i];
            assert(is_position_choice(t, s1.len() as int, k as int));
            let l = at_positions(s, shift(t));
            let r = at_positions(s1, t);
            assert forall|j: int| 0 <= j < l.len() implies l[j] == r[j] by {
                assert(0 <= t[j] < s1.len());
                assert(s1[t[j]] == s[t[j] + 1]);
            }
            assert(l =~= r);
        }
        let lhs = combos(s, k);
        let rhs = pc.map_values(|t: Seq<int>| at_positions(s, t));
        assert(lhs.len() == rhs.len());
        assert forall|i: int| 0 <= i < lhs.len() implies lhs[i] == rhs[i] by {
            if i < a.len() {
                assert(pc[i] == seq![0int] + shift(pa[i]));
            } else {
                assert(pc[i] == shift(pb[i - a.len()]));
            }
        }
        assert(lhs =~= rhs);
    }
}

/// Each listed choice takes `k` increasing positions out of `n`.
proof fn lemma_position_choices_valid(n: nat, k: nat)
    ensures
        forall|i: int|
            0 <= i < position_choices(n, k).len() ==> is_position_choice(
                #[trigger] position_choices(n, k)[i],
                n as int,
                k as int,
            ),
    decreases n,
{
    if k > 0 && n > 0 {
        let n1 = (n - 1) as nat;
        lemma_position_choices_valid(n1, (k - 1) as nat);
        lemma_position_choices_valid(n1, k);
        let pa = position_choices(n1, (k - 1) as nat);
        let pb = position_choices(n1, k);
        assert forall|i: int| 0 <= i < position_choices(n, k).len() implies is_position_choice(
            #[trigger] position_choices(n, k)[i],
            n as int,
            k as int,
        ) by {
            if i < pa.len() {
                let t = pa[i];
                assert(is_position_choice(t, n1 as int, k - 1));
                let u = seq![0int] + shift(t);
                assert(position_choices(n, k)[i] == u);
                assert forall|x: int, y: int| 0 <= x < y < u.len() implies #[trigger] u[x] < #[trigger] u[y] by {
                    if x > 0 {
                        assert(t[x - 1] < t[y - 1]);
                    } else {
                        assert(0 <= t[y - 1]);
                    }
                }
                assert forall|x: int| 0 <= x < u.len() implies 0 <= #[trigger] u[x] < n by {
                    if x > 0 {
                        assert(0 <= t[x - 1] < n1);
                    }
                }
            } else {
                let t = pb[i - pa.len()];
                assert(is_position_choice(t, n1 as int, k as int));
                let u = shift(t);
                assert(position_choices(n, k)[i] == u);
                assert forall|x: int, y: int| 0 <= x < y < u.len() implies #[trigger] u[x] < #[trigger] u[y] by {
                    assert(t[x] < t[y]);
                }
                assert forall|x: int| 0 <= x < u.len() implies 0 <= #[trigger] u[x] < n by {
                    assert(0 <= t[x] < n1);
                }
            }
        }
    }
}

/// The listed choices come in lexicographic order.
proof fn lemma_position_choices_sorted(n: nat, k: nat)
    ensures
        forall|i: int, j: int|
            0 <= i < j < position_choices(n, k).len() ==> lex_before(
                #[trigger] position_choices(n, k)[i],
                #[trigger] position_choices(n, k)[j],
            ),
    decreases n,
{
    if k > 0 && n > 0 {
        let n1 = (n - 1) as nat;
        lemma_position_choices_sorted(n1, (k - 1) as nat);
        lemma_position_choices_sorted(n1, k);
        lemma_position_choices_valid(n1, k);
        let pa = position_choices(n1, (k - 1) as nat);
        let pb = position_choices(n1, k);
        let pc = position_choices(n, k);
        assert forall|i: int, j: int| 0 <= i < j < pc.len() implies lex_before(
            #[trigger] pc[i],
            #[trigger] pc[j],
        ) by {
            let u = pc[i];
            let v = pc[j];
            if j < pa.len() {
                let a = pa[i];
                let b = pa[j];
                assert(lex_before(a, b));
                let p = choose|p: int|
                    #![trigger a.take(p), b.take(p)]
                    0 <= p < a.len() && p < b.len() && a.take(p) == b.take(p) && a[p] < b[p];
                assert(u == seq![0int] + shift(a));
                assert(v == seq![0int] + shift(b));
                assert forall|x: int| 0 <= x < p + 1 implies u[x] == v[x] by {
                    if x > 0 {
                        assert(a.take(p)[x - 1] == b.take(p)[x - 1]);
                    }
                }
                assert(u.take(p + 1) =~= v.take(p + 1));
                assert(u[p + 1] < v[p + 1]);
            } else if i >= pa.len() {
                let a = pb[i - pa.len()];
                let b = pb[j - pa.len()];
                assert(lex_before(a, b));
                let p = choose|p: int|
                    #![trigger a.take(p), b.take(p)]
                    0 <= p < a.len() && p < b.len() && a.take(p) == b.take(p) && a[p] < b[p];
                assert(u == shift(a));
                assert(v == shift(b));
                assert forall|x: int| 0 <= x < p implies u[x] == v[x] by {
                    assert(a.take(p)[x] == b.take(p)[x]);
                }
                assert(u.take(p) =~= v.take(p));
                assert(u[p] < v[p]);
            } else {
                let a = pa[i];
                let b = pb[j - pa.len()];
                assert(u == seq![0int] + shift(a));
                assert(v == shift(b));
                assert(is_position_choice(b, n1 as int, k as int));
                assert(0 <= b[0]);
                assert(u.take(0) =~= v.take(0));
                assert(u[0] < v[0]);
            }
        }
    }
}

/// Every choice of `k` increasing positions out of `n` is listed.
proof fn lemma_position_choices_complete(n: nat, k: nat, idx: Seq<int>)
    requires
        is_position_choice(idx, n as int, k as int),
    ensures
        exists|i: int| 0 <= i < position_choices(n, k).len() && position_choices(n, k)[i] == idx,
    decreases n,
{
    let pc = position_choices(n, k);
    if k == 0 {
        assert(idx =~= Seq::<int>::empty());
        assert(pc[0] == idx);
    } else if n == 0 {
        assert(idx.len() > 0);
        assert(0 <= idx[0] < n as int);
        assert(false);
    } else {
        let n1 = (n - 1) as nat;
        let pa = position_choices(n1, (k - 1) as nat);
        let pb = position_choices(n1, k);
        if idx[0] == 0 {
            let tail = idx.drop_first().map_values(|x: int| x - 1);
            assert forall|x: int| 0 <= x < tail.len() implies 0 <= #[trigger] tail[x] < n1 by {
                assert(idx[0] < idx[x + 1]);
            }
            assert forall|x: int, y: int| 0 <= x < y < tail.len() implies #[trigger] tail[x]
                < #[trigger] tail[y] by {
                assert(idx[x + 1] < idx[y + 1]);
            }
            assert(is_position_choice(tail, n1 as int, k - 1));
            lemma_position_choices_complete(n1, (k - 1) as nat, tail);
            let i = choose|i: int| 0 <= i < pa.len() && pa[i] == tail;
            assert(pc[i] == seq![0int] + shift(pa[i]));
            assert(seq![0int] + shift(tail) =~= idx);
        } else {
            let t = idx.map_values(|x: int| x - 1);
            assert forall|x: int| 0 <= x < t.len() implies 0 <= #[trigger] t[x] < n1 by {
                if x > 0 {
                    assert(idx[0] < idx[x]);
                }
            }
            assert forall|x: int, y: int| 0 <= x < y < t.len() implies #[trigger] t[x] < #[trigger] t[y] by {
                assert(idx[x] < idx[y]);
            }
            assert(is_position_choice(t, n1 as int, k as int));
            lemma_position_choices_complete(n1, k, t);
            let i = choose|i: int| 0 <= i < pb.len() && pb[i] == t;
            assert(pc[pa.len() + i] == shift(pb[i]));
            assert(shift(t) =~= idx);
        }
    }
}

/// The `k`-combinations of `s` are listed once for each choice of `k` positions,
/// each in the order of `s`, in lexicographic order of their positions: those
/// that take `s[0]` come before those that do not.
pub proof fn lemma_combos_in_lex_order(s: Seq<i32>, k: nat)
    ensures
        lex_combinations(s, k as int, combos(s, k)),
{
    let t = position_choices(s.len(), k);
    lemma_combos_at_positions(s, k);
    lemma_position_choices_valid(s.len(), k);
    lemma_position_choices_sorted(s.len(), k);
    assert forall|idx: Seq<int>| #[trigger] is_position_choice(idx, s.len() as int, k as int) implies exists|i: int|
        0 <= i < t.len() && #[trigger] t[i] == idx by {
        lemma_position_choices_complete(s.len(), k, idx);
    }
    assert(enumerates(s, k as int, combos(s, k), t));
}

/// The contents of a vector of rows, each row by its view.
pub open spec fn rows_view(v: Seq<Vec<i32>>) -> Seq<Seq<i32>> {
    v.map_values(|r: Vec<i32>| r@)
}

/// The `k`-combinations of `arr[start..]`.
fn combinations_from(arr: &[i32], start: usize, k: usize) -> (res: Vec<Vec<i32>>)
    requires
        start <= arr@.len(),
    ensures
        rows_view(res@) =~= combos(arr@.skip(start as int), k as nat),
    decreases arr@.len() - start,
{
    let ghost s = arr@.skip(start as int);
    if k == 0 {
        let mut res: Vec<Vec<i32>> = Vec::new();
        res.push(Vec::new());
        return res;
    }
    if start == arr.len() {
        return Vec::new();
    }
    if k == 1 {
        proof {
            lemma_combos_one(s);
        }
        let mut res: Vec<Vec<i32>> = Vec::new();
        let mut i: usize = start;
        while i < arr.len()
            invariant
                start <= i <= arr@.len(),
                s == arr@.skip(start as int),
                rows_view(res@) =~= s.take(i - start).map_values(|x: i32| seq![x]),
            decreases arr@.len() - i,
        {
            let mut single: Vec<i32> = Vec::new();
            single.push(arr[i]);
            assert(single@ =~= seq![arr@[i as int]]);
            let ghost before = res@;
            res.push(single);
            assert(s[i - start] == arr@[i as int]);
            assert(s.take(i + 1 - start) =~= s.take(i - start).push(arr@[i as int]));
            assert(rows_view(res@) =~= rows_view(before).push(single@));
            i = i + 1;
        }
        assert(s.take(arr@.len() - start) =~= s);
        return res;
    }
    let mut first_part = combinations_from(arr, start + 1, k - 1);
    let mut second_part = combinations_from(arr, start + 1, k);
    let ghost t = arr@.skip(start + 1);
    assert(t =~= s.drop_first());
    let head = arr[start];
    let ghost firsts = combos(t, (k - 1) as nat);
    let mut i: usize = 0;
    while i < first_part.len()
        invariant
            0 <= i <= first_part@.len(),
            firsts.len() == first_part@.len(),
            forall|j: int| 0 <= j < i ==> (#[trigger] first_part@[j])@ == seq![head] + firsts[j],
            forall|j: int| i <= j < firsts.len() ==> (#[trigger] first_part@[j])@ == firsts[j],
        decreases first_part@.len() - i,
    {
        let mut c: Vec<i32> = Vec::new();
        first_part.set_and_swap(i, &mut c);
        c.insert(0, head);
        assert(c@ =~= seq![head] + firsts[i as int]);
        first_part.set(i, c);
        i = i + 1;
    }
    assert(rows_view(first_part@) =~= firsts.map_values(|c: Seq<i32>| seq![head] + c));
    first_part.append(&mut second_part);
    first_part
}
/// All `k`-element combinations of `arr`, each in the order of `arr`.
/// The combinations that contain `arr[0]` come first.
pub fn combinations(arr: &[i32], k: usize) -> (res: Vec<Vec<i32>>)
    ensures
        rows_view(res@) == combos(arr@, k as nat),
        lex_combinations(arr@, k as int, rows_view(res@)),
{
    proof {
        lemma_combos_in_lex_order(arr@, k as nat);
    }
    assert(arr@.skip(0) =~= arr@);
    combinations_from(arr, 0, k)
}

} // verus!
