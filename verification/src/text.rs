//! Byte-level text primitives for the profile text format: whitespace
//! trimming, first-occurrence search, and delimiter splitting, each proved
//! against a small specification function.

use vstd::prelude::*;

verus! {

/// ASCII whitespace: space, tab, line feed, vertical tab, form feed,
/// carriage return.
pub open spec fn is_space(b: u8) -> bool {
    b == 32 || b == 9 || b == 10 || b == 11 || b == 12 || b == 13
}

/// The sequence with leading whitespace removed.
pub open spec fn trim_front(s: Seq<u8>) -> Seq<u8>
    decreases s.len(),
{
    if s.len() > 0 && is_space(s[0]) {
        trim_front(s.skip(1))
    } else {
        s
    }
}

/// The sequence with trailing whitespace removed.
pub open spec fn trim_back(s: Seq<u8>) -> Seq<u8>
    decreases s.len(),
{
    if s.len() > 0 && is_space(s.last()) {
        trim_back(s.drop_last())
    } else {
        s
    }
}

/// The sequence with surrounding whitespace removed.
pub open spec fn spec_trim(s: Seq<u8>) -> Seq<u8> {
    trim_back(trim_front(s))
}

/// Index of the first occurrence of `b` in `s`, or `s.len()` if absent.
pub open spec fn find_byte(s: Seq<u8>, b: u8) -> int
    decreases s.len(),
{
    if s.len() == 0 {
        0
    } else if s[0] == b {
        0
    } else {
        1 + find_byte(s.skip(1), b)
    }
}

/// The pieces of `s` between occurrences of the delimiter `b`: always at
/// least one piece, and one more piece per occurrence, delimiters excluded.
pub open spec fn split_byte(s: Seq<u8>, b: u8) -> Seq<Seq<u8>>
    decreases s.len(),
{
    let d = find_byte(s, b);
    if 0 <= d < s.len() {
        seq![s.take(d)] + split_byte(s.skip(d + 1), b)
    } else {
        seq![s]
    }
}

pub proof fn lemma_find_byte_props(s: Seq<u8>, b: u8)
    ensures
        0 <= find_byte(s, b) <= s.len(),
        find_byte(s, b) < s.len() ==> s[find_byte(s, b)] == b,
        forall|i: int| 0 <= i < find_byte(s, b) ==> s[i] != b,
    decreases s.len(),
{
    if s.len() > 0 && s[0] != b {
        lemma_find_byte_props(s.skip(1), b);
        assert forall|i: int| 0 <= i < find_byte(s, b) implies s[i] != b by {
            if i > 0 {
                assert(s.skip(1)[i - 1] == s[i]);
            }
        }
    }
}

pub proof fn lemma_find_byte_skip(s: Seq<u8>, b: u8, k: int)
    requires
        0 <= k <= s.len(),
        forall|i: int| 0 <= i < k ==> s[i] != b,
    ensures
        find_byte(s, b) == k + find_byte(s.skip(k), b),
    decreases k,
{
    if k == 0 {
        assert(s.skip(0) =~= s);
    } else {
        assert(s.len() > 0 && s[0] != b);
        lemma_find_byte_skip(s.skip(1), b, k - 1);
        assert(s.skip(1).skip(k - 1) =~= s.skip(k));
        assert(forall|i: int| 0 <= i < k - 1 ==> s.skip(1)[i] == s[i + 1]);
    }
}

/// Index of the first occurrence of `b`, or the length of `s` if absent.
pub fn index_of(s: &[u8], b: u8) -> (r: usize)
    ensures
        r == find_byte(s@, b),
{
    let n: usize = s.len();
    let mut i: usize = 0;
    while i < n
        invariant
            0 <= i <= n,
            n == s@.len(),
            forall|j: int| 0 <= j < i ==> s@[j] != b,
        decreases n - i,
    {
        if s[i] == b {
            proof {
                lemma_find_byte_skip(s@, b, i as int);
                assert(s@.skip(i as int)[0] == b);
            }
            return i;
        }
        i = i + 1;
    }
    proof {
        lemma_find_byte_skip(s@, b, n as int);
        assert(s@.skip(n as int) =~= Seq::<u8>::empty());
    }
    n
}

/// Whether two byte strings hold the same bytes.
pub fn bytes_eq(a: &[u8], b: &[u8]) -> (r: bool)
    ensures
        r == (a@ == b@),
{
    if a.len() != b.len() {
        return false;
    }
    let n: usize = a.len();
    let mut i: usize = 0;
    while i < n
        invariant
            0 <= i <= n,
            n == a@.len() && n == b@.len(),
            forall|j: int| 0 <= j < i ==> a@[j] == b@[j],
        decreases n - i,
    {
        if a[i] != b[i] {
            return false;
        }
        i = i + 1;
    }
    proof {
        assert(a@ =~= b@);
    }
    true
}

proof fn lemma_trim_front_skip(s: Seq<u8>, k: int)
    requires
        0 <= k <= s.len(),
        forall|i: int| 0 <= i < k ==> is_space(s[i]),
    ensures
        trim_front(s) == trim_front(s.skip(k)),
    decreases k,
{
    if k == 0 {
        assert(s.skip(0) =~= s);
    } else {
        lemma_trim_front_skip(s.skip(1), k - 1);
        assert(s.skip(1).skip(k - 1) =~= s.skip(k));
        assert(forall|i: int| 0 <= i < k - 1 ==> s.skip(1)[i] == s[i + 1]);
    }
}

proof fn lemma_trim_back_sub(s: Seq<u8>, k: int)
    requires
        0 <= k <= s.len(),
        forall|i: int| k <= i < s.len() ==> is_space(s[i]),
    ensures
        trim_back(s) == trim_back(s.take(k)),
    decreases s.len() - k,
{
    if k == s.len() {
        assert(s.take(k) =~= s);
    } else {
        assert(s.len() > 0 && is_space(s.last()));
        lemma_trim_back_sub(s.drop_last(), k);
        assert(s.drop_last().take(k) =~= s.take(k));
    }
}

/// The bytes of `s` with surrounding ASCII whitespace removed.
pub fn trim_bytes(s: &[u8]) -> (r: &[u8])
    ensures
        r@ == spec_trim(s@),
{
    let n: usize = s.len();
    let mut i: usize = 0;
    while i < n && is_space_exec(s[i])
        invariant
            0 <= i <= n,
            n == s@.len(),
            forall|j: int| 0 <= j < i ==> is_space(s@[j]),
        decreases n - i,
    {
        i = i + 1;
    }
    proof {
        lemma_trim_front_skip(s@, i as int);
    }
    if i == n {
        proof {
            assert(s@.skip(n as int) =~= Seq::<u8>::empty());
        }
        let r = vstd::slice::slice_subrange(s, n, n);
        proof {
            assert(r@ =~= Seq::<u8>::empty());
        }
        return r;
    }
    // s@[i] is not a space, so trim_front(s@) == s@.skip(i).
    assert(trim_front(s@) == s@.skip(i as int));
    let mut j: usize = n;
    while j > i && is_space_exec(s[j - 1])
        invariant
            i <= j <= n,
            n == s@.len(),
            i < n,
            !is_space(s@[i as int]),
            forall|k: int| j <= k < n ==> is_space(s@[k]),
        decreases j,
    {
        j = j - 1;
    }
    proof {
        lemma_trim_back_sub(s@.skip(i as int), j - i);
        assert(forall|k: int| j - i <= k < s@.skip(i as int).len() ==> is_space(
            s@.skip(i as int)[k],
        ));
        assert(s@.skip(i as int).take(j - i) =~= s@.subrange(i as int, j as int));
        // The piece s@[i..j] ends in a non-space (or is the single byte at i),
        // so trim_back leaves it unchanged.
        if j > i {
            assert(!is_space(s@[j - 1]));
            assert(s@.subrange(i as int, j as int).last() == s@[j - 1]);
        } else {
            assert(s@.subrange(i as int, j as int).len() == 0);
        }
    }
    vstd::slice::slice_subrange(s, i, j)
}

/// Executable mirror of `is_space`.
pub fn is_space_exec(b: u8) -> (r: bool)
    ensures
        r == is_space(b),
{
    b == 32 || b == 9 || b == 10 || b == 11 || b == 12 || b == 13
}

/// Every piece of `ps`, trimmed.
pub open spec fn trim_all(ps: Seq<Seq<u8>>) -> Seq<Seq<u8>> {
    ps.map_values(|p: Seq<u8>| spec_trim(p))
}

/// Splits `s` at each occurrence of `b` and trims every piece.
pub fn split_trim(s: &[u8], b: u8) -> (r: Vec<Vec<u8>>)
    ensures
        r.deep_view() == trim_all(split_byte(s@, b)),
{
    let ghost target = trim_all(split_byte(s@, b));
    let mut out: Vec<Vec<u8>> = Vec::new();
    let mut pos: usize = 0;
    let n: usize = s.len();
    proof {
        assert(s@.skip(0) =~= s@);
    }
    loop
        invariant
            0 <= pos <= n,
            n == s@.len(),
            target == trim_all(split_byte(s@, b)),
            target == out.deep_view() + trim_all(split_byte(s@.skip(pos as int), b)),
        decreases n - pos,
    {
        let rest = vstd::slice::slice_subrange(s, pos, n);
        proof {
            assert(rest@ =~= s@.skip(pos as int));
        }
        let d = index_of(rest, b);
        proof {
            lemma_find_byte_props(rest@, b);
        }
        if d == rest.len() {
            let ghost prev = out.deep_view();
            let piece = vstd::slice::slice_to_vec(trim_bytes(rest));
            out.push(piece);
            proof {
                assert(split_byte(rest@, b) =~= seq![rest@]);
                assert(trim_all(split_byte(rest@, b)) =~~= seq![spec_trim(rest@)]);
                assert(out.deep_view() =~~= prev.push(spec_trim(rest@)));
                assert(out.deep_view() =~~= target);
            }
            return out;
        } else {
            let head = vstd::slice::slice_subrange(rest, 0, d);
            proof {
                assert(head@ =~= rest@.take(d as int));
            }
            let ghost prev = out.deep_view();
            let piece = vstd::slice::slice_to_vec(trim_bytes(head));
            out.push(piece);
            proof {
                assert(split_byte(rest@, b) == seq![rest@.take(d as int)] + split_byte(
                    rest@.skip(d + 1),
                    b,
                ));
                assert(trim_all(seq![rest@.take(d as int)] + split_byte(rest@.skip(d + 1), b))
                    =~~= seq![spec_trim(rest@.take(d as int))] + trim_all(split_byte(
                    rest@.skip(d + 1),
                    b,
                )));
                assert(rest@.skip(d + 1) =~= s@.skip(pos + d + 1));
                assert(out.deep_view() =~~= prev.push(spec_trim(rest@.take(d as int))));
            }
            pos = pos + d + 1;
        }
    }
}

} // verus!
