use vstd::prelude::*;
use crate::candidate::{alphabet, alphabet_size, distinct_texts, has_text, in_alphabet, rank, text_of};

verus! {

/// A four-symbol label over the alphabet with at most two distinct symbols:
/// all four the same, three and one, or two and two.
pub open spec fn is_repeat_pattern(s: Seq<char>, letters_only: bool) -> bool {
    &&& s.len() == 4
    &&& forall|i: int| 0 <= i < 4 ==> in_alphabet(#[trigger] s[i], letters_only)
    &&& forall|i: int, j: int, k: int| 0 <= i < 4 && 0 <= j < 4 && 0 <= k < 4
        ==> #[trigger] s[i] == s[j] || #[trigger] s[j] == #[trigger] s[k] || s[i] == s[k]
}

/// The number of repeat patterns over an alphabet of `n` symbols.
pub open spec fn repeat_pattern_count(n: int) -> int {
    n + 4 * n * (n - 1) + 3 * n * (n - 1)
}

/// The pattern of class `c` and arrangement `t` built from `x` and `y`:
/// class 0 is `xxxx`; class 1 puts one `y` among three `x` at the
/// arrangement's place from the end; class 2 is `xxyy`, `xyyx` or `xyxy`.
pub open spec fn pattern(c: int, t: int, x: char, y: char) -> Seq<char> {
    if c == 0 {
        seq![x, x, x, x]
    } else if c == 1 {
        if t == 0 {
            seq![x, x, x, y]
        } else if t == 1 {
            seq![x, x, y, x]
        } else if t == 2 {
            seq![x, y, x, x]
        } else {
            seq![y, x, x, x]
        }
    } else {
        if t == 0 {
            seq![x, x, y, y]
        } else if t == 1 {
            seq![x, y, y, x]
        } else {
            seq![x, y, x, y]
        }
    }
}

/// A key `(c, i, j, t)` names the pattern of class `c` and arrangement `t`
/// over the symbols at positions `i` and `j` of an alphabet of `n` symbols.
pub open spec fn valid_key(c: int, i: int, j: int, t: int, n: int) -> bool {
    &&& 0 <= i < n
    &&& 0 <= j < n
    &&& c == 0 ==> j == i && t == 0
    &&& c == 1 ==> i != j && 0 <= t < 4
    &&& c == 2 ==> i != j && 0 <= t < 3
    &&& 0 <= c <= 2
}

/// Lexicographic order of keys.
pub open spec fn key_lt(k: (int, int, int, int), l: (int, int, int, int)) -> bool {
    ||| k.0 < l.0
    ||| k.0 == l.0 && k.1 < l.1
    ||| k.0 == l.0 && k.1 == l.1 && k.2 < l.2
    ||| k.0 == l.0 && k.1 == l.1 && k.2 == l.2 && k.3 < l.3
}

/// The key of a four-symbol text with at most two distinct symbols.
pub open spec fn key_of(s: Seq<char>) -> (int, int, int, int) {
    if s[0] == s[1] && s[1] == s[2] && s[2] == s[3] {
        (0, rank(s[0]), rank(s[0]), 0)
    } else if s[0] == s[1] && s[1] == s[2] {
        (1, rank(s[0]), rank(s[3]), 0)
    } else if s[0] == s[1] && s[1] == s[3] {
        (1, rank(s[0]), rank(s[2]), 1)
    } else if s[0] == s[2] && s[2] == s[3] {
        (1, rank(s[0]), rank(s[1]), 2)
    } else if s[1] == s[2] && s[2] == s[3] {
        (1, rank(s[1]), rank(s[0]), 3)
    } else if s[0] == s[1] {
        (2, rank(s[0]), rank(s[2]), 0)
    } else if s[0] == s[3] {
        (2, rank(s[0]), rank(s[1]), 1)
    } else {
        (2, rank(s[0]), rank(s[1]), 2)
    }
}

/// Facts about an alphabet vector as `alphabet` returns it.
pub open spec fn is_alphabet(a: Seq<char>, letters_only: bool) -> bool {
    &&& a.len() == alphabet_size(letters_only)
    &&& forall|k: int| 0 <= k < a.len() ==> in_alphabet(#[trigger] a[k], letters_only)
    &&& forall|c: char| in_alphabet(c, letters_only) ==> a.contains(c)
    &&& forall|k: int| 0 <= k < a.len() ==> rank(#[trigger] a[k]) == k
    &&& a.no_duplicates()
}

/// The pattern a valid key names.
pub open spec fn pattern_at(a: Seq<char>, c: int, i: int, j: int, t: int) -> Seq<char> {
    pattern(c, t, a[i], a[j])
}

proof fn lemma_pattern_key(a: Seq<char>, letters_only: bool, c: int, i: int, j: int, t: int)
    requires
        is_alphabet(a, letters_only),
        valid_key(c, i, j, t, a.len() as int),
    ensures
        key_of(pattern_at(a, c, i, j, t)) == (c, i, j, t),
        is_repeat_pattern(pattern_at(a, c, i, j, t), letters_only),
{
    assert(rank(a[i]) == i && rank(a[j]) == j);
    assert(i != j ==> a[i] != a[j]);
    let s = pattern_at(a, c, i, j, t);
    assert(in_alphabet(a[i], letters_only) && in_alphabet(a[j], letters_only));
    assert(s.len() == 4);
    assert forall|k: int| 0 <= k < 4 implies in_alphabet(#[trigger] s[k], letters_only) by {
        assert(s[k] == a[i] || s[k] == a[j]);
    }
    assert forall|x: int, y: int, z: int| 0 <= x < 4 && 0 <= y < 4 && 0 <= z < 4
        implies #[trigger] s[x] == s[y] || #[trigger] s[y] == #[trigger] s[z] || s[x] == s[z] by {
        assert(s[x] == a[i] || s[x] == a[j]);
        assert(s[y] == a[i] || s[y] == a[j]);
        assert(s[z] == a[i] || s[z] == a[j]);
    }
}

proof fn lemma_pattern_of_key(a: Seq<char>, letters_only: bool, s: Seq<char>)
    requires
        is_alphabet(a, letters_only),
        is_repeat_pattern(s, letters_only),
    ensures
        valid_key(key_of(s).0, key_of(s).1, key_of(s).2, key_of(s).3, a.len() as int),
        pattern_at(a, key_of(s).0, key_of(s).1, key_of(s).2, key_of(s).3) == s,
{
    assert forall|k: int| 0 <= k < 4 implies 0 <= rank(#[trigger] s[k]) < a.len() && a[rank(s[k])] == s[k] by {
        assert(in_alphabet(s[k], letters_only));
        assert(a.contains(s[k]));
        let m = choose|m: int| 0 <= m < a.len() && a[m] == s[k];
        assert(rank(a[m]) == m);
    }
    assert(s[0] == s[1] || s[1] == s[2] || s[0] == s[2]);
    assert(s[0] == s[1] || s[1] == s[3] || s[0] == s[3]);
    assert(s[0] == s[2] || s[2] == s[3] || s[0] == s[3]);
    assert(s[1] == s[2] || s[2] == s[3] || s[1] == s[3]);
    let k = key_of(s);
    assert(pattern_at(a, k.0, k.1, k.2, k.3) =~= s);
}

/// The text of a pattern.
fn pattern_text(c: u8, t: u8, x: char, y: char) -> (r: String)
    ensures
        r@ == pattern(c as int, t as int, x, y),
{
    let v: Vec<char> = if c == 0 {
        vec![x, x, x, x]
    } else if c == 1 {
        if t == 0 {
            vec![x, x, x, y]
        } else if t == 1 {
            vec![x, x, y, x]
        } else if t == 2 {
            vec![x, y, x, x]
        } else {
            vec![y, x, x, x]
        }
    } else {
        if t == 0 {
            vec![x, x, y, y]
        } else if t == 1 {
            vec![x, y, y, x]
        } else {
            vec![x, y, x, y]
        }
    };
    assert(v@ =~= pattern(c as int, t as int, x, y));
    text_of(&v)
}

/// What holds of the patterns produced before key `cur`.
pub open spec fn produced_before(r: Seq<String>, a: Seq<char>, letters_only: bool, cur: (int, int, int, int)) -> bool {
    &&& forall|m: int| 0 <= m < r.len() ==> is_repeat_pattern(#[trigger] r[m]@, letters_only)
    &&& forall|m: int| 0 <= m < r.len() ==> key_lt(key_of(#[trigger] r[m]@), cur)
    &&& distinct_texts(r)
    &&& forall|c: int, i: int, j: int, t: int| valid_key(c, i, j, t, a.len() as int) && key_lt((c, i, j, t), cur)
        ==> #[trigger] has_text(r, pattern_at(a, c, i, j, t))
}

/// Appends the pattern of key `(c, i, j, t)`.
fn push_pattern(r: &mut Vec<String>, a: &Vec<char>, letters_only: bool, c: u8, i: usize, j: usize, t: u8)
    requires
        is_alphabet(a@, letters_only),
        valid_key(c as int, i as int, j as int, t as int, a@.len() as int),
        produced_before(old(r)@, a@, letters_only, (c as int, i as int, j as int, t as int)),
    ensures
        final(r)@.len() == old(r)@.len() + 1,
        produced_before(final(r)@, a@, letters_only, (c as int, i as int, j as int, t as int + 1)),
{
    let ghost key = (c as int, i as int, j as int, t as int);
    let s = pattern_text(c, t, a[i], a[j]);
    proof {
        lemma_pattern_key(a@, letters_only, c as int, i as int, j as int, t as int);
        assert forall|m: int| 0 <= m < r@.len() implies (#[trigger] r@[m])@ != s@ by {
            assert(key_lt(key_of(r@[m]@), key));
        }
    }
    let ghost old_r = r@;
    r.push(s);
    proof {
        assert(r@[r@.len() - 1]@ == s@);
        assert forall|m: int| 0 <= m < r@.len() implies is_repeat_pattern(#[trigger] r@[m]@, letters_only)
            && key_lt(key_of(r@[m]@), (c as int, i as int, j as int, t as int + 1)) by {
            if m < old_r.len() {
                assert(r@[m] == old_r[m]);
            }
        }
        assert forall|a1: int, b1: int| 0 <= a1 < b1 < r@.len() implies #[trigger] r@[a1]@ != #[trigger] r@[b1]@ by {
            if b1 < old_r.len() {
                assert(r@[a1] == old_r[a1] && r@[b1] == old_r[b1]);
            } else {
                assert(r@[a1] == old_r[a1]);
            }
        }
        assert forall|c2: int, i2: int, j2: int, t2: int|
            valid_key(c2, i2, j2, t2, a@.len() as int) && key_lt((c2, i2, j2, t2), (c as int, i as int, j as int, t as int + 1))
            implies #[trigger] has_text(r@, pattern_at(a@, c2, i2, j2, t2)) by {
            if key_lt((c2, i2, j2, t2), key) {
                assert(has_text(old_r, pattern_at(a@, c2, i2, j2, t2)));
                let m = choose|m: int| 0 <= m < old_r.len() && #[trigger] old_r[m]@ == pattern_at(a@, c2, i2, j2, t2);
                assert(r@[m] == old_r[m]);
            } else {
                assert(r@[old_r.len() as int]@ == pattern_at(a@, c2, i2, j2, t2));
            }
        }
    }
}

/// The repeat patterns over the alphabet, each once: the four-symbol labels
/// that use at most two distinct symbols.
pub fn generate_repeat_pattern_domains(letters_only: bool) -> (r: Vec<String>)
    ensures
        forall|k: int| 0 <= k < r@.len() ==> is_repeat_pattern(#[trigger] r@[k]@, letters_only),
        forall|s: Seq<char>| #[trigger] is_repeat_pattern(s, letters_only) ==> has_text(r@, s),
        distinct_texts(r@),
        r@.len() == repeat_pattern_count(alphabet_size(letters_only) as int),
{
    let a = alphabet(letters_only);
    let n = a.len();
    let ghost nn = n as int;
    let mut r: Vec<String> = Vec::new();
    let mut i: usize = 0;
    while i < n
        invariant
            is_alphabet(a@, letters_only),
            n == a@.len(),
            i <= n,
            r@.len() == i,
            produced_before(r@, a@, letters_only, (0, i as int, 0, 0)),
        decreases n - i,
    {
        push_pattern(&mut r, &a, letters_only, 0, i, i, 0);
        i = i + 1;
    }
    let mut class: u8 = 1;
    while class <= 2
        invariant
            is_alphabet(a@, letters_only),
            n == a@.len(),
            nn == n,
            1 <= class <= 3,
            r@.len() == nn + (if class > 1 { 4 * (nn * (nn - 1)) } else { 0 }) + (if class > 2 { 3 * (nn * (nn - 1)) } else { 0 }),
            produced_before(r@, a@, letters_only, (class as int, 0, 0, 0)),
        decreases 3 - class,
    {
        let shapes: u8 = if class == 1 { 4 } else { 3 };
        let ghost base = r@.len() as int;
        let mut i: usize = 0;
        while i < n
            invariant
                is_alphabet(a@, letters_only),
                n == a@.len(),
                nn == n,
                1 <= class <= 2,
                shapes == if class == 1 { 4u8 } else { 3u8 },
                i <= n,
                r@.len() == base + shapes * (i * (nn - 1)),
                produced_before(r@, a@, letters_only, (class as int, i as int, 0, 0)),
            decreases n - i,
        {
            let mut j: usize = 0;
            let ghost row = r@.len() as int;
            while j < n
                invariant
                    is_alphabet(a@, letters_only),
                    n == a@.len(),
                    1 <= class <= 2,
                    shapes == if class == 1 { 4u8 } else { 3u8 },
                    i < n,
                    j <= n,
                    r@.len() == row + shapes * (j - (if j > i { 1int } else { 0int })),
                    produced_before(r@, a@, letters_only, (class as int, i as int, j as int, 0)),
                decreases n - j,
            {
                if i != j {
                    let mut t: u8 = 0;
                    while t < shapes
                        invariant
                            is_alphabet(a@, letters_only),
                            n == a@.len(),
                            1 <= class <= 2,
                            shapes == if class == 1 { 4u8 } else { 3u8 },
                            i < n,
                            j < n,
                            i != j,
                            t <= shapes,
                            r@.len() == row + shapes * (j - (if j > i { 1int } else { 0int })) + t,
                            produced_before(r@, a@, letters_only, (class as int, i as int, j as int, t as int)),
                        decreases shapes - t,
                    {
                        push_pattern(&mut r, &a, letters_only, class, i, j, t);
                        t = t + 1;
                    }
                }
                j = j + 1;
            }
            proof {
                assert(shapes * (i * (nn - 1)) + shapes * (nn - 1) == shapes * ((i + 1) * (nn - 1))) by (nonlinear_arith);
            }
            i = i + 1;
        }
        class = class + 1;
    }
    proof {
        assert forall|s: Seq<char>| #[trigger] is_repeat_pattern(s, letters_only) implies has_text(r@, s) by {
            lemma_pattern_of_key(a@, letters_only, s);
            let k = key_of(s);
            assert(has_text(r@, pattern_at(a@, k.0, k.1, k.2, k.3)));
        }
    }
    r
}

} // verus!
