use vstd::prelude::*;

verus! {

/// A symbol of the label alphabet: a lowercase letter, or also a digit when
/// `letters_only` is false. The hyphen is handled apart.
pub open spec fn in_alphabet(c: char, letters_only: bool) -> bool {
    ('a' <= c && c <= 'z') || (!letters_only && '0' <= c && c <= '9')
}

/// The position of an alphabet symbol: letters first, then digits.
pub open spec fn rank(c: char) -> int {
    if 'a' <= c && c <= 'z' {
        c as u32 - 97
    } else {
        c as u32 - 48 + 26
    }
}

pub open spec fn alphabet_size(letters_only: bool) -> nat {
    if letters_only {
        26
    } else {
        36
    }
}

/// A partial label: alphabet symbols and hyphens, no leading hyphen and no
/// two hyphens in a row.
pub open spec fn is_label_prefix(s: Seq<char>, letters_only: bool) -> bool {
    &&& forall|i: int| 0 <= i < s.len() ==> in_alphabet(#[trigger] s[i], letters_only) || s[i] == '-'
    &&& s.len() > 0 ==> s[0] != '-'
    &&& forall|i: int| 0 <= i < s.len() - 1 ==> !(#[trigger] s[i] == '-' && s[i + 1] == '-')
}

/// A candidate label of one to four symbols that neither starts nor ends with
/// a hyphen and holds no two hyphens in a row.
pub open spec fn is_candidate(s: Seq<char>, letters_only: bool) -> bool {
    &&& 1 <= s.len() <= 4
    &&& is_label_prefix(s, letters_only)
    &&& s.last() != '-'
}

/// A candidate neither starts nor ends with a hyphen and never holds two
/// hyphens in a row.
pub proof fn lemma_candidate_hyphens(s: Seq<char>, letters_only: bool)
    requires
        is_candidate(s, letters_only),
    ensures
        s[0] != '-',
        s[s.len() - 1] != '-',
        forall|i: int| 0 <= i < s.len() - 1 ==> !(#[trigger] s[i] == '-' && s[i + 1] == '-'),
{
}

/// The texts of a sequence of strings.
pub open spec fn texts(v: Seq<String>) -> Seq<Seq<char>> {
    v.map_values(|s: String| s@)
}

/// Whether `s` is the text of some element of `v`.
pub open spec fn has_text(v: Seq<String>, s: Seq<char>) -> bool {
    exists|k: int| 0 <= k < v.len() && #[trigger] v[k]@ == s
}

/// No two elements of `v` have the same text.
pub open spec fn distinct_texts(v: Seq<String>) -> bool {
    forall|a: int, b: int| 0 <= a < b < v.len() ==> #[trigger] v[a]@ != #[trigger] v[b]@
}

/// Relies on `String`'s `FromIterator<&char>`: the string of the given
/// characters, in order.
#[verifier::external_body]
pub(crate) fn text_of(v: &Vec<char>) -> (r: String)
    ensures
        r@ == v@,
{
    v.iter().collect()
}

/// The alphabet symbols: the letters in order, then the digits unless
/// `letters_only`.
pub(crate) fn alphabet(letters_only: bool) -> (r: Vec<char>)
    ensures
        r@.len() == alphabet_size(letters_only),
        forall|k: int| 0 <= k < r@.len() ==> in_alphabet(#[trigger] r@[k], letters_only),
        forall|c: char| in_alphabet(c, letters_only) ==> r@.contains(c),
        forall|k: int| 0 <= k < r@.len() ==> rank(#[trigger] r@[k]) == k,
        r@.no_duplicates(),
{
    let mut r: Vec<char> = Vec::new();
    let mut i: u8 = 0;
    while i < 26
        invariant
            i <= 26,
            r@.len() == i,
            forall|k: int| 0 <= k < i ==> (#[trigger] r@[k]) as u32 == 97 + k,
            forall|k: int| 0 <= k < i ==> in_alphabet(#[trigger] r@[k], letters_only),
        decreases 26 - i,
    {
        r.push((97u8 + i) as char);
        i = i + 1;
    }
    if !letters_only {
        let mut d: u8 = 0;
        while d < 10
            invariant
                d <= 10,
                !letters_only,
                r@.len() == 26 + d,
                forall|k: int| 0 <= k < 26 ==> (#[trigger] r@[k]) as u32 == 97 + k,
                forall|k: int| 26 <= k < 26 + d ==> (#[trigger] r@[k]) as u32 == 48 + k - 26,
                forall|k: int| 0 <= k < 26 + d ==> in_alphabet(#[trigger] r@[k], letters_only),
            decreases 10 - d,
        {
            r.push((48u8 + d) as char);
            d = d + 1;
        }
    }
    assert forall|c: char| in_alphabet(c, letters_only) implies r@.contains(c) by {
        if 'a' <= c && c <= 'z' {
            let k = c as u32 - 97;
            assert(r@[k as int] as u32 == c as u32);
            assert(r@[k as int] == c);
        } else {
            let k = c as u32 - 48 + 26;
            assert(r@[k as int] as u32 == c as u32);
            assert(r@[k as int] == c);
        }
    }
    r
}

/// Whether the symbol `c` may follow the partial label `p`: a hyphen neither
/// starts a label nor follows another hyphen.
pub open spec fn may_extend(p: Seq<char>, c: char) -> bool {
    !(c == '-' && (p.len() == 0 || p.last() == '-'))
}

/// Whether `s` is the content of some element of `v`.
pub open spec fn has_chars(v: Seq<Vec<char>>, s: Seq<char>) -> bool {
    exists|m: int| 0 <= m < v.len() && #[trigger] v[m]@ == s
}

/// `v` holds every partial label of length `n`, each once, and nothing else.
pub open spec fn is_level(v: Seq<Vec<char>>, n: nat, letters_only: bool) -> bool {
    &&& forall|m: int| 0 <= m < v.len() ==> (#[trigger] v[m])@.len() == n && is_label_prefix(v[m]@, letters_only)
    &&& forall|s: Seq<char>| s.len() == n && #[trigger] is_label_prefix(s, letters_only) ==> has_chars(v, s)
    &&& forall|a: int, b: int| 0 <= a < b < v.len() ==> (#[trigger] v[a])@ != (#[trigger] v[b])@
}

/// `symbols` is the alphabet with the hyphen, each symbol once.
pub open spec fn is_symbol_set(symbols: Seq<char>, letters_only: bool) -> bool {
    &&& symbols.no_duplicates()
    &&& forall|j: int| 0 <= j < symbols.len() ==> in_alphabet(#[trigger] symbols[j], letters_only) || symbols[j] == '-'
    &&& forall|c: char| in_alphabet(c, letters_only) || c == '-' ==> #[trigger] symbols.contains(c)
}

proof fn lemma_extend_prefix(p: Seq<char>, c: char, letters_only: bool)
    requires
        is_label_prefix(p, letters_only),
        in_alphabet(c, letters_only) || c == '-',
        may_extend(p, c),
    ensures
        is_label_prefix(p.push(c), letters_only),
{
    let q = p.push(c);
    assert forall|i: int| 0 <= i < q.len() implies in_alphabet(#[trigger] q[i], letters_only) || q[i] == '-' by {
        if i < p.len() {
            assert(q[i] == p[i]);
        }
    }
    assert forall|i: int| 0 <= i < q.len() - 1 implies !(#[trigger] q[i] == '-' && q[i + 1] == '-') by {
        if i < p.len() - 1 {
            assert(q[i] == p[i] && q[i + 1] == p[i + 1]);
        } else {
            assert(q[i] == p.last());
        }
    }
}

proof fn lemma_split_prefix(s: Seq<char>, letters_only: bool)
    requires
        is_label_prefix(s, letters_only),
        s.len() > 0,
    ensures
        is_label_prefix(s.drop_last(), letters_only),
        may_extend(s.drop_last(), s.last()),
        s.drop_last().push(s.last()) == s,
        in_alphabet(s.last(), letters_only) || s.last() == '-',
{
    let p = s.drop_last();
    assert(s.drop_last().push(s.last()) =~= s);
    assert forall|i: int| 0 <= i < p.len() implies in_alphabet(#[trigger] p[i], letters_only) || p[i] == '-' by {
        assert(p[i] == s[i]);
    }
    assert forall|i: int| 0 <= i < p.len() - 1 implies !(#[trigger] p[i] == '-' && p[i + 1] == '-') by {
        assert(p[i] == s[i] && p[i + 1] == s[i + 1]);
    }
    if s.len() > 1 {
        assert(p.last() == s[s.len() - 2]);
    }
    assert(s.last() == s[s.len() - 1]);
}

/// Every one-symbol extension of the partial labels of `level`.
fn extend_level(level: &Vec<Vec<char>>, symbols: &Vec<char>, n: usize, letters_only: bool) -> (next: Vec<Vec<char>>)
    requires
        is_level(level@, n as nat, letters_only),
        is_symbol_set(symbols@, letters_only),
    ensures
        is_level(next@, n as nat + 1, letters_only),
{
    let mut next: Vec<Vec<char>> = Vec::new();
    let ghost mut src_i: Seq<int> = Seq::empty();
    let ghost mut src_j: Seq<int> = Seq::empty();
    let mut i: usize = 0;
    while i < level.len()
        invariant
            is_level(level@, n as nat, letters_only),
            is_symbol_set(symbols@, letters_only),
            i <= level.len(),
            src_i.len() == next@.len(),
            src_j.len() == next@.len(),
            forall|m: int| 0 <= m < next@.len() ==> 0 <= #[trigger] src_i[m] < i && 0 <= src_j[m] < symbols@.len(),
            forall|m: int| 0 <= m < next@.len() ==> (#[trigger] next@[m])@ == level@[src_i[m]]@.push(symbols@[src_j[m]]),
            forall|m: int| 0 <= m < next@.len() ==> is_label_prefix((#[trigger] next@[m])@, letters_only),
            forall|a: int, b: int| 0 <= a < b < next@.len() ==> (#[trigger] next@[a])@ != (#[trigger] next@[b])@,
            forall|i2: int, j2: int| 0 <= i2 < i && 0 <= j2 < symbols@.len() && may_extend(level@[i2]@, symbols@[j2])
                ==> #[trigger] has_chars(next@, level@[i2]@.push(symbols@[j2])),
        decreases level.len() - i,
    {
        let mut j: usize = 0;
        while j < symbols.len()
            invariant
                is_level(level@, n as nat, letters_only),
                is_symbol_set(symbols@, letters_only),
                i < level.len(),
                j <= symbols.len(),
                src_i.len() == next@.len(),
                src_j.len() == next@.len(),
                forall|m: int| 0 <= m < next@.len() ==> 0 <= #[trigger] src_i[m] <= i && 0 <= src_j[m] < symbols@.len(),
                forall|m: int| 0 <= m < next@.len() && src_i[m] == i ==> #[trigger] src_j[m] < j,
                forall|m: int| 0 <= m < next@.len() ==> (#[trigger] next@[m])@ == level@[src_i[m]]@.push(symbols@[src_j[m]]),
                forall|m: int| 0 <= m < next@.len() ==> is_label_prefix((#[trigger] next@[m])@, letters_only),
                forall|a: int, b: int| 0 <= a < b < next@.len() ==> (#[trigger] next@[a])@ != (#[trigger] next@[b])@,
                forall|i2: int, j2: int| 0 <= i2 < i && 0 <= j2 < symbols@.len() && may_extend(level@[i2]@, symbols@[j2])
                    ==> #[trigger] has_chars(next@, level@[i2]@.push(symbols@[j2])),
                forall|j2: int| 0 <= j2 < j && may_extend(level@[i as int]@, symbols@[j2])
                    ==> #[trigger] has_chars(next@, level@[i as int]@.push(symbols@[j2])),
            decreases symbols.len() - j,
        {
            let c = symbols[j];
            let p = &level[i];
            let blocked = c == '-' && (p.len() == 0 || p[p.len() - 1] == '-');
            assert(blocked == !may_extend(level@[i as int]@, symbols@[j as int]));
            if !blocked {
                let mut q = p.clone();
                q.push(c);
                let ghost new = level@[i as int]@.push(symbols@[j as int]);
                assert(q@ =~= new);
                proof {
                    lemma_extend_prefix(level@[i as int]@, c, letters_only);
                    assert forall|m: int| 0 <= m < next@.len() implies (#[trigger] next@[m])@ != new by {
                        if next@[m]@ == new {
                            if src_i[m] < i {
                                assert(next@[m]@.drop_last() =~= level@[src_i[m]]@);
                                assert(new.drop_last() =~= level@[i as int]@);
                            } else {
                                assert(next@[m]@.last() == symbols@[src_j[m]]);
                                assert(new.last() == symbols@[j as int]);
                            }
                        }
                    }
                }
                let ghost old_next = next@;
                next.push(q);
                proof {
                    src_i = src_i.push(i as int);
                    src_j = src_j.push(j as int);
                    assert forall|s: Seq<char>| has_chars(old_next, s) implies has_chars(next@, s) by {
                        let m = choose|m: int| 0 <= m < old_next.len() && #[trigger] old_next[m]@ == s;
                        assert(next@[m] == old_next[m]);
                    }
                    assert(next@[next@.len() - 1]@ == new);
                    assert forall|i2: int, j2: int|
                        0 <= i2 < i && 0 <= j2 < symbols@.len() && may_extend(level@[i2]@, symbols@[j2])
                        implies #[trigger] has_chars(next@, level@[i2]@.push(symbols@[j2])) by {
                        assert(has_chars(old_next, level@[i2]@.push(symbols@[j2])));
                    }
                    assert forall|j2: int| 0 <= j2 <= j && may_extend(level@[i as int]@, symbols@[j2])
                        implies #[trigger] has_chars(next@, level@[i as int]@.push(symbols@[j2])) by {
                        if j2 < j {
                            assert(has_chars(old_next, level@[i as int]@.push(symbols@[j2])));
                        }
                    }
                }
            }
            j = j + 1;
        }
        i = i + 1;
    }
    proof {
        assert forall|s: Seq<char>| s.len() == n as nat + 1 && #[trigger] is_label_prefix(s, letters_only)
            implies has_chars(next@, s) by {
            lemma_split_prefix(s, letters_only);
            let p = s.drop_last();
            assert(has_chars(level@, p));
            let i2 = choose|m: int| 0 <= m < level@.len() && #[trigger] level@[m]@ == p;
            assert(symbols@.contains(s.last()));
            let j2 = choose|j: int| 0 <= j < symbols@.len() && symbols@[j] == s.last();
            assert(has_chars(next@, level@[i2]@.push(symbols@[j2])));
        }
    }
    next
}

/// The alphabet followed by the hyphen.
fn symbols(letters_only: bool) -> (r: Vec<char>)
    ensures
        is_symbol_set(r@, letters_only),
{
    let mut r = alphabet(letters_only);
    let ghost a = r@;
    r.push('-');
    proof {
        assert forall|x: int, y: int| 0 <= x < r@.len() && 0 <= y < r@.len() && x != y implies r@[x] != r@[y] by {
            if x < a.len() && y < a.len() {
                assert(a[x] != a[y]);
            } else if x < a.len() {
                assert(in_alphabet(a[x], letters_only));
            } else {
                assert(in_alphabet(a[y], letters_only));
            }
        }
        assert forall|j: int| 0 <= j < r@.len() implies in_alphabet(#[trigger] r@[j], letters_only) || r@[j] == '-' by {
            if j < a.len() {
                assert(r@[j] == a[j]);
            }
        }
        assert forall|c: char| in_alphabet(c, letters_only) || c == '-' implies #[trigger] r@.contains(c) by {
            if c == '-' {
                assert(r@[a.len() as int] == c);
            } else {
                let k = choose|k: int| 0 <= k < a.len() && a[k] == c;
                assert(r@[k] == c);
            }
        }
    }
    r
}

/// Every candidate label of the given length over the alphabet, each once,
/// in no promised order. Partial labels are extended one symbol at a time,
/// dropping those that would start with a hyphen or hold two in a row; the
/// complete ones that end with a hyphen are left out.
pub fn generate_domains(length: usize, letters_only: bool) -> (r: Vec<String>)
    ensures
        forall|k: int| 0 <= k < r@.len() ==> is_candidate((#[trigger] r@[k])@, letters_only) && r@[k]@.len() == length,
        forall|s: Seq<char>| #[trigger] is_candidate(s, letters_only) && s.len() == length ==> has_text(r@, s),
        distinct_texts(r@),
        length == 1 ==> r@.len() == alphabet_size(letters_only),
        length == 1 ==> forall|k: int| 0 <= k < r@.len() ==> !(#[trigger] r@[k])@.contains('-'),
{
    let mut r: Vec<String> = Vec::new();
    if length == 1 {
        let a = alphabet(letters_only);
        let mut i: usize = 0;
        while i < a.len()
            invariant
                length == 1,
                i <= a@.len(),
                a@.len() == alphabet_size(letters_only),
                forall|k: int| 0 <= k < a@.len() ==> in_alphabet(#[trigger] a@[k], letters_only),
                forall|c: char| in_alphabet(c, letters_only) ==> a@.contains(c),
                a@.no_duplicates(),
                r@.len() == i,
                forall|k: int| 0 <= k < i ==> (#[trigger] r@[k])@ == seq![a@[k]],
            decreases a.len() - i,
        {
            let one = vec![a[i]];
            let t = text_of(&one);
            r.push(t);
            i = i + 1;
        }
        proof {
            assert forall|k: int| 0 <= k < r@.len() implies is_candidate((#[trigger] r@[k])@, letters_only)
                && r@[k]@.len() == length by {
                assert(in_alphabet(a@[k], letters_only));
            }
            assert forall|s: Seq<char>| #[trigger] is_candidate(s, letters_only) && s.len() == length
                implies has_text(r@, s) by {
                assert(s[0] != '-');
                assert(in_alphabet(s[0], letters_only));
                assert(a@.contains(s[0]));
                let k = choose|k: int| 0 <= k < a@.len() && a@[k] == s[0];
                assert(r@[k]@ =~= s);
            }
            assert forall|x: int, y: int| 0 <= x < y < r@.len() implies #[trigger] r@[x]@ != #[trigger] r@[y]@ by {
                assert(r@[x]@[0] == a@[x]);
                assert(r@[y]@[0] == a@[y]);
            }
            assert forall|k: int| 0 <= k < r@.len() implies !(#[trigger] r@[k])@.contains('-') by {
                assert(in_alphabet(a@[k], letters_only));
                assert(r@[k]@[0] == a@[k]);
            }
        }
    } else if 2 <= length && length <= 4 {
        let syms = symbols(letters_only);
        let mut level: Vec<Vec<char>> = vec![Vec::new()];
        proof {
            assert(level@[0]@ =~= Seq::<char>::empty());
            assert forall|s: Seq<char>| s.len() == 0 && #[trigger] is_label_prefix(s, letters_only)
                implies has_chars(level@, s) by {
                assert(level@[0]@ =~= s);
            }
        }
        let mut n: usize = 0;
        while n < length
            invariant
                n <= length <= 4,
                is_symbol_set(syms@, letters_only),
                is_level(level@, n as nat, letters_only),
            decreases length - n,
        {
            level = extend_level(&level, &syms, n, letters_only);
            n = n + 1;
        }
        let mut i: usize = 0;
        let ghost mut src: Seq<int> = Seq::empty();
        while i < level.len()
            invariant
                2 <= length <= 4,
                i <= level@.len(),
                is_level(level@, length as nat, letters_only),
                src.len() == r@.len(),
                forall|m: int| 0 <= m < r@.len() ==> 0 <= #[trigger] src[m] < i && r@[m]@ == level@[src[m]]@,
                forall|m: int| 0 <= m < r@.len() ==> is_candidate((#[trigger] r@[m])@, letters_only) && r@[m]@.len() == length,
                distinct_texts(r@),
                forall|i2: int| 0 <= i2 < i && level@[i2]@.last() != '-' ==> has_text(r@, #[trigger] level@[i2]@),
            decreases level.len() - i,
        {
            let p = &level[i];
            if p[p.len() - 1] != '-' {
                let t = text_of(p);
                let ghost old_r = r@;
                proof {
                    assert forall|m: int| 0 <= m < old_r.len() implies (#[trigger] old_r[m])@ != t@ by {
                        assert(level@[src[m]]@ != level@[i as int]@);
                    }
                }
                r.push(t);
                proof {
                    src = src.push(i as int);
                    assert(r@[r@.len() - 1]@ == t@);
                    assert forall|i2: int| 0 <= i2 <= i && level@[i2]@.last() != '-'
                        implies has_text(r@, #[trigger] level@[i2]@) by {
                        if i2 < i {
                            let m = choose|m: int| 0 <= m < old_r.len() && #[trigger] old_r[m]@ == level@[i2]@;
                            assert(r@[m] == old_r[m]);
                        }
                    }
                }
            }
            i = i + 1;
        }
        proof {
            assert forall|s: Seq<char>| #[trigger] is_candidate(s, letters_only) && s.len() == length
                implies has_text(r@, s) by {
                assert(is_label_prefix(s, letters_only));
                let m = choose|m: int| 0 <= m < level@.len() && #[trigger] level@[m]@ == s;
            }
        }
    }
    r
}

pub open spec fn is_ascii_alnum(c: char) -> bool {
    ('a' <= c && c <= 'z') || ('A' <= c && c <= 'Z') || ('0' <= c && c <= '9')
}

/// A well-formed label text: one to four ASCII letters, digits or hyphens,
/// neither starting nor ending with a hyphen, with no two hyphens in a row.
pub open spec fn is_valid_label(s: Seq<char>) -> bool {
    &&& 1 <= s.len() <= 4
    &&& s[0] != '-'
    &&& s.last() != '-'
    &&& forall|i: int| 0 <= i < s.len() - 1 ==> !(#[trigger] s[i] == '-' && s[i + 1] == '-')
    &&& forall|i: int| 0 <= i < s.len() ==> is_ascii_alnum(#[trigger] s[i]) || s[i] == '-'
}

/// Whether `domain` is a well-formed label.
pub fn is_valid_domain(domain: &str) -> (r: bool)
    ensures
        r == is_valid_label(domain@),
{
    let n = domain.unicode_len();
    if n < 1 || n > 4 {
        return false;
    }
    if domain.get_char(0) == '-' || domain.get_char(n - 1) == '-' {
        return false;
    }
    let mut i: usize = 0;
    while i < n
        invariant
            n == domain@.len(),
            1 <= n <= 4,
            i <= n,
            forall|k: int| 0 <= k < i ==> is_ascii_alnum(#[trigger] domain@[k]) || domain@[k] == '-',
            forall|k: int| 0 <= k < i && k < n - 1 ==> !(#[trigger] domain@[k] == '-' && domain@[k + 1] == '-'),
        decreases n - i,
    {
        let c = domain.get_char(i);
        if !(('a' <= c && c <= 'z') || ('A' <= c && c <= 'Z') || ('0' <= c && c <= '9') || c == '-') {
            return false;
        }
        if i + 1 < n && c == '-' && domain.get_char(i + 1) == '-' {
            return false;
        }
        i = i + 1;
    }
    true
}

} // verus!
