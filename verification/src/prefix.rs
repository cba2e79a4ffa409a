use vstd::prelude::*;
use vstd::utf8::*;
use vstd::string::StringSliceAdditionalSpecFns;
use vstd::std_specs::iter::IteratorSpec;
use vstd::string::StrSliceExecFns;
use vstd::pervasive::VecAdditionalExecFns;

verus! {

broadcast use vstd::string::group_string_axioms, vstd::utf8::group_utf8_lib;

/// Every string of `strs` has a character at position `k`, equal to the one in `strs[0]`.
pub open spec fn agree_at(strs: Seq<Seq<char>>, k: int) -> bool {
    forall|i: int| 0 <= i < strs.len() ==> k < (#[trigger] strs[i]).len() && strs[i][k] == strs[0][k]
}

/// `p` is the longest common prefix of `strs`: the first `n` characters of
/// `strs[0]`, where position `n` is the first at which the strings do not all agree.
/// With no strings, the prefix is empty.
pub open spec fn is_longest_common_prefix(strs: Seq<Seq<char>>, p: Seq<char>) -> bool {
    if strs.len() == 0 {
        p == Seq::<char>::empty()
    } else {
        &&& p.len() <= strs[0].len()
        &&& p == strs[0].take(p.len() as int)
        &&& forall|k: int| 0 <= k < p.len() ==> agree_at(strs, k)
        &&& !agree_at(strs, p.len() as int)
    }
}

/// The characters of each string.
pub open spec fn views(strs: Seq<&str>) -> Seq<Seq<char>> {
    strs.map_values(|s: &str| s@)
}

/// The longest common prefix is unique.
pub proof fn lemma_longest_common_prefix_unique(strs: Seq<Seq<char>>, p: Seq<char>, q: Seq<char>)
    requires
        is_longest_common_prefix(strs, p),
        is_longest_common_prefix(strs, q),
    ensures
        p == q,
{
    if strs.len() > 0 {
        if p.len() < q.len() {
            assert(agree_at(strs, p.len() as int));
        } else if q.len() < p.len() {
            assert(agree_at(strs, q.len() as int));
        }
        assert(p =~= q);
    }
}

/// Encoding a concatenation concatenates the encodings.
proof fn lemma_encode_concat(a: Seq<char>, b: Seq<char>)
    ensures
        encode_utf8(a + b) == encode_utf8(a) + encode_utf8(b),
    decreases a.len(),
{
    if a.len() > 0 {
        assert((a + b).drop_first() =~= a.drop_first() + b);
        lemma_encode_concat(a.drop_first(), b);
        assert(encode_utf8(a + b) =~= encode_utf8(a) + encode_utf8(b));
    }
}

/// The end of the encoding of a prefix is a character boundary.
proof fn lemma_prefix_boundary(a: Seq<char>, b: Seq<char>)
    ensures
        is_char_boundary(encode_utf8(a + b), encode_utf8(a).len() as int),
    decreases a.len(),
{
    if a.len() > 0 {
        let bytes = encode_utf8(a + b);
        encode_utf8_valid_utf8(a + b);
        encode_utf8_first_scalar(a + b);
        assert((a + b)[0] == a[0]);
        assert((a + b).drop_first() =~= a.drop_first() + b);
        lemma_encode_concat(a.drop_first(), b);
        assert(pop_first_scalar(bytes) =~= encode_utf8(a.drop_first() + b));
        lemma_prefix_boundary(a.drop_first(), b);
        assert(encode_scalar(a[0] as u32).len() > 0);
    }
}

/// The characters of a string take at least as many bytes as there are characters.
proof fn lemma_encode_len(a: Seq<char>)
    ensures
        a.len() <= encode_utf8(a).len(),
    decreases a.len(),
{
    if a.len() > 0 {
        lemma_encode_len(a.drop_first());
    }
}

/// The number of bytes of the UTF-8 encoding of `c`, as `char::len_utf8` gives it.
fn utf8_len(c: char) -> (res: usize)
    ensures
        res == encode_scalar(c as u32).len(),
{
    let v = c as u32;
    if v < 0x80 {
        1
    } else if v < 0x800 {
        2
    } else if v < 0x10000 {
        3
    } else {
        4
    }
}

/// Splits `s` after its first `k` characters, which take `b` bytes.
proof fn lemma_split_after(s: Seq<char>, k: int, b: int)
    requires
        0 <= k <= s.len(),
        b == encode_utf8(s.take(k)).len(),
    ensures
        is_char_boundary(encode_utf8(s), b),
        encode_utf8(s).subrange(0, b) == encode_utf8(s.take(k)),
        encode_utf8(s).subrange(b, encode_utf8(s).len() as int) == encode_utf8(s.skip(k)),
{
    assert(s =~= s.take(k) + s.skip(k));
    lemma_encode_concat(s.take(k), s.skip(k));
    lemma_prefix_boundary(s.take(k), s.skip(k));
    assert(encode_utf8(s).subrange(0, b) =~= encode_utf8(s.take(k)));
    assert(encode_utf8(s).subrange(b, encode_utf8(s).len() as int) =~= encode_utf8(s.skip(k)));
}

/// Equal encodings come from equal strings.
proof fn lemma_encode_injective(a: Seq<char>, b: Seq<char>)
    requires
        encode_utf8(a) == encode_utf8(b),
    ensures
        a == b,
{
    encode_utf8_decode_utf8(a);
    encode_utf8_decode_utf8(b);
}

/// The longest common prefix of `strs`, found by comparing byte positions in place.
pub fn longest_common_prefix_no_allocs(strs: Vec<&str>) -> (res: String)
    ensures
        is_longest_common_prefix(views(strs@), res@),
{
    let ghost v = views(strs@);
    if strs.len() == 0 {
        return String::new();
    }
    if strs.len() == 1 {
        let res = strs[0].to_string();
        assert(!agree_at(v, v[0].len() as int));
        assert(res@ =~= v[0].take(v[0].len() as int));
        return res;
    }
    let first_str = strs[0];
    let ghost first = first_str@;
    let mut bend: usize = 0;
    let ghost mut k: int = 0;
    let byte_len = first_str.as_bytes().len();
    let mut it = first_str.chars();
    proof {
        lemma_encode_len(first);
        assert(first.take(0) =~= Seq::<char>::empty());
    }
    loop
        invariant_except_break
            it.remaining() == first.skip(k),
        invariant
            v == views(strs@),
            strs@.len() >= 2,
            first == v[0],
            first_str@ == first,
            0 <= k <= first.len(),
            bend == encode_utf8(first.take(k)).len(),
            byte_len == encode_utf8(first).len(),
            forall|j: int| 0 <= j < k ==> agree_at(v, j),
        ensures
            0 <= k <= first.len(),
            bend == encode_utf8(first.take(k)).len(),
            forall|j: int| 0 <= j < k ==> agree_at(v, j),
            !agree_at(v, k),
        decreases first.len() - k,
    {
        let next = it.next();
        let ch = match next {
            None => {
                assert(k == first.len());
                break ;
            },
            Some(c) => c,
        };
        assert(ch == first[k]);
        let mut matched = true;
        let mut idx: usize = 1;
        while idx < strs.len()
            invariant_except_break
                matched,
                forall|i: int| 0 <= i < idx ==> k < (#[trigger] v[i]).len() && v[i][k] == first[k],
            invariant
                v == views(strs@),
                first == v[0],
                0 <= k < first.len(),
                ch == first[k],
                bend == encode_utf8(first.take(k)).len(),
                forall|j: int| 0 <= j < k ==> agree_at(v, j),
                1 <= idx <= strs@.len(),
            ensures
                matched ==> agree_at(v, k),
                !matched ==> !agree_at(v, k),
            decreases strs@.len() - idx,
        {
            let s = strs[idx];
            let ghost sv = s@;
            assert(sv == v[idx as int]);
            assert(agree_at(v, k - 1) || k == 0);
            assert(k <= sv.len()) by {
                if k > 0 {
                    assert(agree_at(v, k - 1));
                }
            }
            assert(sv.take(k) =~= first.take(k)) by {
                assert forall|j: int| 0 <= j < k implies sv[j] == first[j] by {
                    assert(agree_at(v, j));
                }
            }
            proof {
                lemma_split_after(sv, k, bend as int);
            }
            if !s.is_char_boundary(bend) {
                matched = false;
                break ;
            }
            let (_, rest) = s.split_at(bend);
            proof {
                lemma_encode_injective(rest@, sv.skip(k));
            }
            let mut rest_chars = rest.chars();
            let nch = rest_chars.next();
            match nch {
                None => {
                    assert(sv.len() == k);
                    matched = false;
                    break ;
                },
                Some(c) => {
                    if c != ch {
                        assert(sv[k] != first[k]);
                        matched = false;
                        break ;
                    }
                },
            }
            idx = idx + 1;
        }
        if !matched {
            break ;
        }
        proof {
            lemma_encode_concat(first.take(k), seq![ch]);
            assert(first.take(k + 1) =~= first.take(k) + seq![ch]);
            assert(seq![ch].drop_first() =~= Seq::<char>::empty());
            assert(encode_utf8(Seq::<char>::empty()) == Seq::<u8>::empty());
            assert(seq![ch][0] == ch);
            assert(encode_utf8(seq![ch]) =~= encode_scalar(ch as u32));
            lemma_encode_concat(first.take(k + 1), first.skip(k + 1));
            assert(first =~= first.take(k + 1) + first.skip(k + 1));
            lemma_split_after(first, k + 1, encode_utf8(first.take(k + 1)).len() as int);
        }
        let width = utf8_len(ch);
        bend = bend + width;
        proof {
            k = k + 1;
        }
    }
    proof {
        lemma_split_after(first, k, bend as int);
    }
    let (head, _) = first_str.split_at(bend);
    proof {
        lemma_encode_injective(head@, first.take(k));
    }
    let res = head.to_string();
    assert(res@.len() == k);
    res
}

/// The longest common prefix of `strs`, found by walking one character iterator per string.
pub fn longest_common_prefix_allocs(strs: Vec<&str>) -> (res: String)
    ensures
        is_longest_common_prefix(views(strs@), res@),
{
    let ghost v = views(strs@);
    if strs.len() == 0 {
        return String::new();
    }
    if strs.len() == 1 {
        let x = strs[0];
        let res = x.to_string();
        assert(!agree_at(v, v[0].len() as int));
        assert(res@ =~= v[0].take(v[0].len() as int));
        return res;
    }
    let mut chars: Vec<std::str::Chars> = Vec::new();
    for i in 0..strs.len()
        invariant
            v == views(strs@),
            chars@.len() == i,
            forall|j: int| 0 <= j < i ==> (#[trigger] chars@[j]).remaining() == v[j],
    {
        let c = strs[i].chars();
        chars.push(c);
    }
    let mut len: usize = 0;
    let byte_len = strs[0].as_bytes().len();
    proof {
        lemma_encode_len(v[0]);
    }
    loop
        invariant_except_break
            forall|j: int| 0 <= j < v.len() ==> (#[trigger] chars@[j]).remaining() == v[j].skip(len as int),
        invariant
            v == views(strs@),
            v.len() >= 2,
            chars@.len() == v.len(),
            len <= v[0].len(),
            v[0].len() <= encode_utf8(v[0]).len(),
            byte_len == encode_utf8(v[0]).len(),
            forall|k: int| 0 <= k < len ==> agree_at(v, k),
        ensures
            len <= v[0].len(),
            forall|k: int| 0 <= k < len ==> agree_at(v, k),
            !agree_at(v, len as int),
        decreases v[0].len() - len,
    {
        let mut cur_char: char = ' ';
        let mut matched = true;
        let mut i: usize = 0;
        while i < chars.len()
            invariant_except_break
                matched,
                forall|j: int| 0 <= j < i ==> len < (#[trigger] v[j]).len() && v[j][len as int] == v[0][len as int],
                i > 0 ==> cur_char == v[0][len as int],
                forall|j: int| i <= j < v.len() ==> (#[trigger] chars@[j]).remaining() == v[j].skip(len as int),
                forall|j: int| 0 <= j < i ==> (#[trigger] chars@[j]).remaining() == v[j].skip(len + 1),
            invariant
                v == views(strs@),
                v.len() >= 2,
                chars@.len() == v.len(),
                len <= v[0].len(),
                forall|k: int| 0 <= k < len ==> agree_at(v, k),
                i <= chars@.len(),
            ensures
                matched ==> agree_at(v, len as int),
                !matched ==> !agree_at(v, len as int),
                matched ==> forall|j: int| 0 <= j < v.len() ==> (#[trigger] chars@[j]).remaining() == v[j].skip(len + 1),
            decreases chars@.len() - i,
        {
            let mut it = "".chars();
            chars.set_and_swap(i, &mut it);
            assert(it.remaining() == v[i as int].skip(len as int));
            assert(len <= v[i as int].len()) by {
                if len > 0 {
                    assert(agree_at(v, len - 1));
                }
            }
            let ch = it.next();
            chars.set_and_swap(i, &mut it);
            match ch {
                None => {
                    assert(v[i as int].len() == len);
                    matched = false;
                    break ;
                },
                Some(c) => {
                    assert(c == v[i as int][len as int]);
                    if i == 0 {
                        cur_char = c;
                    } else if c != cur_char {
                        matched = false;
                        break ;
                    }
                },
            }
            i = i + 1;
        }
        if !matched {
            break ;
        }
        assert(len < v[0].len());
        assert(len < byte_len);
        len = len + 1;
        assert forall|j: int| 0 <= j < v.len() implies (#[trigger] chars@[j]).remaining() == v[j].skip(len as int) by {
        }
    }
    let res = strs[0].substring_char(0, len).to_string();
    assert(res@ =~= v[0].take(len as int));
    res
}

/// The longest common prefix of `strs`.
pub fn longest_common_prefix(strs: Vec<&str>) -> (res: String)
    ensures
        is_longest_common_prefix(views(strs@), res@),
{
    longest_common_prefix_no_allocs(strs)
}

} // verus!
