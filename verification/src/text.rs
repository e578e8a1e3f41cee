//! Character-sequence orderings and wildcard matching.
//!
//! Titles, ids and tags are ordered by codepoint-lexicographic comparison,
//! and title searches use glob patterns where `*` stands for any run of
//! characters and `?` for exactly one character.

use vstd::prelude::*;

verus! {

/// Strict codepoint-lexicographic order on character sequences.
pub open spec fn lex_lt(a: Seq<char>, b: Seq<char>) -> bool
    decreases a.len(),
{
    if b.len() == 0 {
        false
    } else if a.len() == 0 {
        true
    } else if a[0] == b[0] {
        lex_lt(a.skip(1), b.skip(1))
    } else {
        (a[0] as u32) < (b[0] as u32)
    }
}

/// Non-strict codepoint-lexicographic order on character sequences.
pub open spec fn lex_le(a: Seq<char>, b: Seq<char>) -> bool {
    lex_lt(a, b) || a == b
}

/// Two characters with the same codepoint are the same character.
proof fn lemma_char_cast_inj(c1: char, c2: char)
    requires
        (c1 as u32) == (c2 as u32),
    ensures
        c1 == c2,
{
}

/// The order is irreflexive: no sequence is strictly below itself.
pub proof fn lemma_lex_irrefl(a: Seq<char>)
    ensures
        !lex_lt(a, a),
    decreases a.len(),
{
    if a.len() > 0 {
        lemma_lex_irrefl(a.skip(1));
    }
}

/// The order is asymmetric: two sequences are never strictly below each other.
pub proof fn lemma_lex_asym(a: Seq<char>, b: Seq<char>)
    requires
        lex_lt(a, b),
    ensures
        !lex_lt(b, a),
        a != b,
    decreases a.len(),
{
    assert(b.len() > 0);
    if a.len() > 0 && a[0] == b[0] {
        assert(lex_lt(a.skip(1), b.skip(1)));
        lemma_lex_asym(a.skip(1), b.skip(1));
        assert(!lex_lt(b, a));
        assert(a != b) by {
            if a == b {
                assert(a.skip(1) == b.skip(1));
            }
        }
    } else if a.len() == 0 {
        assert(!lex_lt(b, a));
        assert(a != b);
    } else {
        assert((a[0] as u32) < (b[0] as u32));
        assert(!lex_lt(b, a));
        assert(a != b);
    }
}

/// Any two sequences are comparable: one is strictly below the other or
/// they are equal.
pub proof fn lemma_lex_trichotomy(a: Seq<char>, b: Seq<char>)
    ensures
        lex_lt(a, b) || lex_lt(b, a) || a == b,
    decreases a.len(),
{
    if a.len() == 0 && b.len() == 0 {
        assert(a =~= b);
    } else if a.len() > 0 && b.len() > 0 {
        if a[0] == b[0] {
            lemma_lex_trichotomy(a.skip(1), b.skip(1));
            if a.skip(1) == b.skip(1) {
                assert(a.len() == b.len()) by {
                    assert(a.skip(1).len() == b.skip(1).len());
                }
                assert(a =~= b) by {
                    assert forall|i: int| 0 <= i < a.len() implies a[i] == b[i] by {
                        if i >= 1 {
                            assert(a[i] == a.skip(1)[i - 1]);
                            assert(b[i] == b.skip(1)[i - 1]);
                        }
                    }
                }
            }
        } else {
            assert((a[0] as u32) != (b[0] as u32)) by {
                if (a[0] as u32) == (b[0] as u32) {
                    lemma_char_cast_inj(a[0], b[0]);
                }
            }
        }
    }
}

/// The strict order is transitive.
pub proof fn lemma_lex_trans(a: Seq<char>, b: Seq<char>, c: Seq<char>)
    requires
        lex_lt(a, b),
        lex_lt(b, c),
    ensures
        lex_lt(a, c),
    decreases a.len(),
{
    assert(c.len() > 0);
    if a.len() == 0 {
        assert(lex_lt(a, c));
    } else {
        assert(b.len() > 0);
        if a[0] == b[0] && b[0] == c[0] {
            assert(lex_lt(a.skip(1), b.skip(1)));
            assert(lex_lt(b.skip(1), c.skip(1)));
            lemma_lex_trans(a.skip(1), b.skip(1), c.skip(1));
            assert(lex_lt(a, c));
        } else {
            assert((a[0] as u32) <= (b[0] as u32));
            assert((b[0] as u32) <= (c[0] as u32));
            assert((a[0] as u32) < (c[0] as u32));
            assert(a[0] != c[0]);
            assert(lex_lt(a, c));
        }
    }
}

/// Comparison is settled by the first position where the sequences differ:
/// dropping a common prefix does not change the outcome.
pub proof fn lemma_lex_skip(a: Seq<char>, b: Seq<char>, i: int)
    requires
        0 <= i <= a.len(),
        i <= b.len(),
        forall|k: int| 0 <= k < i ==> a[k] == b[k],
    ensures
        lex_lt(a, b) == lex_lt(a.skip(i), b.skip(i)),
    decreases i,
{
    if i > 0 {
        assert(a.len() > 0 && b.len() > 0 && a[0] == b[0]);
        assert forall|k: int| 0 <= k < i - 1 implies a.skip(1)[k] == b.skip(1)[k] by {
            assert(a.skip(1)[k] == a[k + 1]);
            assert(b.skip(1)[k] == b[k + 1]);
        }
        lemma_lex_skip(a.skip(1), b.skip(1), i - 1);
        assert(a.skip(1).skip(i - 1) =~= a.skip(i));
        assert(b.skip(1).skip(i - 1) =~= b.skip(i));
        assert(lex_lt(a, b) == lex_lt(a.skip(1), b.skip(1)));
    } else {
        assert(a.skip(0) =~= a);
        assert(b.skip(0) =~= b);
    }
}

/// Three-way codepoint-lexicographic comparison of two strings:
/// `-1` when `a` is strictly below `b`, `1` when above, `0` when equal.
pub fn lex_compare(a: &str, b: &str) -> (r: i8)
    ensures
        r == -1 || r == 0 || r == 1,
        (r == 0) <==> a@ == b@,
        (r == -1) <==> lex_lt(a@, b@),
        (r == 1) <==> lex_lt(b@, a@),
{
    let alen = a.unicode_len();
    let blen = b.unicode_len();
    let n = if alen < blen {
        alen
    } else {
        blen
    };
    let mut i: usize = 0;
    while i < n
        invariant
            0 <= i <= n,
            n <= alen,
            n <= blen,
            alen == a@.len(),
            blen == b@.len(),
            n == alen || n == blen,
            forall|k: int| 0 <= k < i ==> a@[k] == b@[k],
        decreases n - i,
    {
        let ca = a.get_char(i);
        let cb = b.get_char(i);
        if ca != cb {
            proof {
                lemma_lex_skip(a@, b@, i as int);
                assert(a@.skip(i as int)[0] == a@[i as int]);
                assert(b@.skip(i as int)[0] == b@[i as int]);
            }
            if (ca as u32) < (cb as u32) {
                proof {
                    assert(lex_lt(a@, b@));
                    lemma_lex_asym(a@, b@);
                }
                return -1;
            } else {
                proof {
                    lemma_lex_skip(b@, a@, i as int);
                    assert(b@.skip(i as int)[0] == b@[i as int]);
                    assert(lex_lt(b@, a@));
                    lemma_lex_asym(b@, a@);
                }
                return 1;
            }
        }
        i = i + 1;
    }
    if alen == blen {
        proof {
            assert(a@ =~= b@);
            lemma_lex_irrefl(a@);
        }
        0
    } else if alen < blen {
        proof {
            lemma_lex_skip(a@, b@, n as int);
            assert(a@.skip(n as int).len() == 0);
            assert(b@.skip(n as int).len() > 0);
            assert(lex_lt(a@, b@));
            lemma_lex_asym(a@, b@);
        }
        -1
    } else {
        proof {
            lemma_lex_skip(b@, a@, n as int);
            assert(b@.skip(n as int).len() == 0);
            assert(a@.skip(n as int).len() > 0);
            assert(lex_lt(b@, a@));
            lemma_lex_asym(b@, a@);
        }
        1
    }
}

/// Non-strict comparison of two strings under the codepoint order.
pub fn lex_str_le(a: &str, b: &str) -> (r: bool)
    ensures
        r == lex_le(a@, b@),
{
    let c = lex_compare(a, b);
    c <= 0
}

/// Glob matching: `*` matches any run of characters (including none) and
/// `?` matches exactly one character; every other pattern character matches
/// only itself.
pub open spec fn glob_match(p: Seq<char>, s: Seq<char>) -> bool
    decreases p.len(), s.len(),
{
    if p.len() == 0 {
        s.len() == 0
    } else if p[0] == '*' {
        glob_match(p.skip(1), s) || (s.len() > 0 && glob_match(p, s.skip(1)))
    } else {
        s.len() > 0 && (p[0] == '?' || p[0] == s[0]) && glob_match(p.skip(1), s.skip(1))
    }
}

/// Whether the pattern holds a wildcard character.
pub open spec fn has_wildcard(p: Seq<char>) -> bool {
    exists|i: int| 0 <= i < p.len() && (p[i] == '*' || p[i] == '?')
}

/// A pattern without wildcard characters matches exactly itself and
/// nothing else.
pub proof fn lemma_glob_no_wildcard_exact(p: Seq<char>, s: Seq<char>)
    requires
        !has_wildcard(p),
    ensures
        glob_match(p, s) <==> p == s,
    decreases p.len(),
{
    if p.len() == 0 {
        if s.len() == 0 {
            assert(p =~= s);
        }
    } else {
        assert(p[0] != '*' && p[0] != '?');
        assert(!has_wildcard(p.skip(1))) by {
            if has_wildcard(p.skip(1)) {
                let i = choose|i: int|
                    0 <= i < p.skip(1).len() && (p.skip(1)[i] == '*' || p.skip(1)[i] == '?');
                assert(p[i + 1] == p.skip(1)[i]);
            }
        }
        lemma_glob_no_wildcard_exact(p.skip(1), s.skip(1));
        if s.len() > 0 && p[0] == s[0] {
            if p.skip(1) == s.skip(1) {
                assert(p.len() == s.len()) by {
                    assert(p.skip(1).len() == s.skip(1).len());
                }
                assert(p =~= s) by {
                    assert forall|i: int| 0 <= i < p.len() implies p[i] == s[i] by {
                        if i >= 1 {
                            assert(p[i] == p.skip(1)[i - 1]);
                            assert(s[i] == s.skip(1)[i - 1]);
                        }
                    }
                }
            }
            if p == s {
                assert(p.skip(1) == s.skip(1));
            }
        } else {
            assert(!glob_match(p, s));
            assert(p != s);
        }
    }
}

/// A `*` followed by a wildcard-free tail matches exactly the strings that
/// end with that tail.
pub proof fn lemma_glob_star_suffix(p: Seq<char>, s: Seq<char>)
    requires
        !has_wildcard(p),
    ensures
        glob_match(seq!['*'].add(p), s) <==> (p.len() <= s.len() && s.skip(
            s.len() - p.len(),
        ) == p),
    decreases s.len(),
{
    let sp = seq!['*'].add(p);
    assert(sp[0] == '*');
    assert(sp.skip(1) =~= p);
    lemma_glob_no_wildcard_exact(p, s);
    if s.len() > 0 {
        lemma_glob_star_suffix(p, s.skip(1));
        if p.len() <= s.len() - 1 {
            assert(s.skip(1).skip(s.len() - 1 - p.len()) =~= s.skip(s.len() - p.len()));
        }
    }
    if glob_match(sp, s) {
        if glob_match(p, s) {
            assert(p == s);
            assert(s.skip(0) =~= s);
        }
    } else {
        if p.len() <= s.len() && s.skip(s.len() - p.len()) == p {
            if p.len() == s.len() {
                assert(s.skip(0) =~= s);
                assert(p == s);
            } else {
                assert(s.len() > 0);
            }
        }
    }
}

/// Recursive matcher over character vectors, working on the suffixes that
/// start at `pi` and `si`.
fn glob_match_at(p: &Vec<char>, pi: usize, s: &Vec<char>, si: usize) -> (r: bool)
    requires
        pi <= p.len(),
        si <= s.len(),
    ensures
        r == glob_match(p@.skip(pi as int), s@.skip(si as int)),
    decreases p.len() - pi, s.len() - si,
{
    proof {
        if pi < p.len() {
            assert(p@.skip(pi as int)[0] == p@[pi as int]);
            assert(p@.skip(pi as int).skip(1) =~= p@.skip(pi as int + 1));
        }
        if si < s.len() {
            assert(s@.skip(si as int)[0] == s@[si as int]);
            assert(s@.skip(si as int).skip(1) =~= s@.skip(si as int + 1));
        }
    }
    if pi == p.len() {
        si == s.len()
    } else {
        let c = p[pi];
        if c == '*' {
            if glob_match_at(p, pi + 1, s, si) {
                true
            } else if si < s.len() {
                glob_match_at(p, pi, s, si + 1)
            } else {
                false
            }
        } else if si == s.len() {
            false
        } else {
            let d = s[si];
            if c == '?' || c == d {
                glob_match_at(p, pi + 1, s, si + 1)
            } else {
                false
            }
        }
    }
}

/// The characters of a string, as a vector.
pub fn str_chars(s: &str) -> (r: Vec<char>)
    ensures
        r@ == s@,
{
    let n = s.unicode_len();
    let mut r: Vec<char> = Vec::new();
    let mut i: usize = 0;
    while i < n
        invariant
            0 <= i <= n,
            n == s@.len(),
            r@ =~= s@.take(i as int),
        decreases n - i,
    {
        r.push(s.get_char(i));
        i = i + 1;
    }
    proof {
        assert(s@.take(n as int) =~= s@);
    }
    r
}

/// Whether a title matches a glob pattern.
pub fn title_matches(pattern: &str, title: &str) -> (r: bool)
    ensures
        r == glob_match(pattern@, title@),
{
    let p = str_chars(pattern);
    let t = str_chars(title);
    proof {
        assert(p@.skip(0) =~= p@);
        assert(t@.skip(0) =~= t@);
    }
    glob_match_at(&p, 0, &t, 0)
}

/// The views of a sequence of strings.
pub open spec fn str_views(v: Seq<String>) -> Seq<Seq<char>> {
    v.map_values(|s: String| s@)
}

/// Whether the vector holds a string with the same characters as `t`.
pub fn contains_string(v: &Vec<String>, t: &String) -> (r: bool)
    ensures
        r == str_views(v@).contains(t@),
{
    let mut i: usize = 0;
    while i < v.len()
        invariant
            0 <= i <= v.len(),
            forall|k: int| 0 <= k < i ==> v@[k]@ != t@,
        decreases v.len() - i,
    {
        if v[i] == *t {
            proof {
                assert(str_views(v@)[i as int] == v@[i as int]@);
            }
            return true;
        }
        i = i + 1;
    }
    proof {
        assert forall|k: int| 0 <= k < str_views(v@).len() implies str_views(v@)[k] != t@ by {
            assert(str_views(v@)[k] == v@[k]@);
        }
    }
    false
}

/// The non-strict order is transitive.
pub proof fn lemma_lex_le_trans(a: Seq<char>, b: Seq<char>, c: Seq<char>)
    requires
        lex_le(a, b),
        lex_le(b, c),
    ensures
        lex_le(a, c),
{
    if a != b && b != c {
        lemma_lex_trans(a, b, c);
    }
}

/// The non-strict order is total.
pub proof fn lemma_lex_le_total(a: Seq<char>, b: Seq<char>)
    ensures
        lex_le(a, b) || lex_le(b, a),
{
    lemma_lex_trichotomy(a, b);
}

/// Inserts a character sequence in front of the first element that is not
/// below it, keeping a sorted sequence sorted.
pub open spec fn insert_lex(x: Seq<char>, s: Seq<Seq<char>>) -> Seq<Seq<char>>
    decreases s.len(),
{
    if s.len() == 0 {
        seq![x]
    } else if lex_le(x, s[0]) {
        seq![x] + s
    } else {
        seq![s[0]] + insert_lex(x, s.skip(1))
    }
}

/// Sorts a sequence of character sequences by repeated insertion, in the
/// codepoint-lexicographic order.
pub open spec fn sort_lex(s: Seq<Seq<char>>) -> Seq<Seq<char>>
    decreases s.len(),
{
    if s.len() == 0 {
        Seq::empty()
    } else {
        insert_lex(s.last(), sort_lex(s.drop_last()))
    }
}

/// Whether a sequence of character sequences is sorted in the
/// codepoint-lexicographic order.
pub open spec fn sorted_lex(s: Seq<Seq<char>>) -> bool {
    forall|i: int, j: int| 0 <= i < j < s.len() ==> lex_le(s[i], s[j])
}

/// Insertion adds one element, and every element of the result is the
/// inserted one or one of the original sequence.
proof fn lemma_insert_lex_shape(x: Seq<char>, s: Seq<Seq<char>>)
    ensures
        insert_lex(x, s).len() == s.len() + 1,
        forall|k: int|
            0 <= k < insert_lex(x, s).len() ==> insert_lex(x, s)[k] == x || s.contains(
                insert_lex(x, s)[k],
            ),
    decreases s.len(),
{
    if s.len() == 0 {
    } else if lex_le(x, s[0]) {
        let r = seq![x] + s;
        assert forall|k: int| 0 <= k < r.len() implies r[k] == x || s.contains(r[k]) by {
            if k >= 1 {
                assert(r[k] == s[k - 1]);
            }
        }
    } else {
        lemma_insert_lex_shape(x, s.skip(1));
        let t = insert_lex(x, s.skip(1));
        let r = seq![s[0]] + t;
        assert forall|k: int| 0 <= k < r.len() implies r[k] == x || s.contains(r[k]) by {
            if k == 0 {
                assert(s.contains(s[0]));
            } else {
                assert(r[k] == t[k - 1]);
                if t[k - 1] != x {
                    let i = choose|i: int| 0 <= i < s.skip(1).len() && s.skip(1)[i] == t[k - 1];
                    assert(s[i + 1] == s.skip(1)[i]);
                    assert(s.contains(s[i + 1]));
                }
            }
        }
    }
}

/// Insertion into a sorted sequence yields a sorted sequence.
pub proof fn lemma_insert_lex_sorted(x: Seq<char>, s: Seq<Seq<char>>)
    requires
        sorted_lex(s),
    ensures
        sorted_lex(insert_lex(x, s)),
    decreases s.len(),
{
    if s.len() == 0 {
    } else if lex_le(x, s[0]) {
        let r = seq![x] + s;
        assert forall|i: int, j: int| 0 <= i < j < r.len() implies lex_le(r[i], r[j]) by {
            if i == 0 {
                assert(r[j] == s[j - 1]);
                if j > 1 {
                    lemma_lex_le_trans(x, s[0], s[j - 1]);
                }
            } else {
                assert(r[i] == s[i - 1] && r[j] == s[j - 1]);
            }
        }
    } else {
        lemma_lex_trichotomy(x, s[0]);
        assert(lex_lt(s[0], x));
        assert(sorted_lex(s.skip(1))) by {
            assert forall|i: int, j: int|
                0 <= i < j < s.skip(1).len() implies lex_le(s.skip(1)[i], s.skip(1)[j]) by {
                assert(s.skip(1)[i] == s[i + 1] && s.skip(1)[j] == s[j + 1]);
            }
        }
        lemma_insert_lex_sorted(x, s.skip(1));
        lemma_insert_lex_shape(x, s.skip(1));
        let t = insert_lex(x, s.skip(1));
        let r = seq![s[0]] + t;
        assert forall|i: int, j: int| 0 <= i < j < r.len() implies lex_le(r[i], r[j]) by {
            if i == 0 {
                assert(r[j] == t[j - 1]);
                if t[j - 1] == x {
                } else {
                    let m = choose|m: int| 0 <= m < s.skip(1).len() && s.skip(1)[m] == t[j - 1];
                    assert(s[m + 1] == s.skip(1)[m]);
                    assert(lex_le(s[0], s[m + 1]));
                }
            } else {
                assert(r[i] == t[i - 1] && r[j] == t[j - 1]);
            }
        }
    }
}

/// Insertion adds exactly the inserted element to the multiset of elements.
pub proof fn lemma_insert_lex_multiset(x: Seq<char>, s: Seq<Seq<char>>)
    ensures
        insert_lex(x, s).to_multiset() =~= s.to_multiset().insert(x),
    decreases s.len(),
{
    broadcast use vstd::seq_lib::group_to_multiset_ensures;
    broadcast use vstd::multiset::group_multiset_axioms;

    if s.len() == 0 {
        assert(seq![x] =~= Seq::<Seq<char>>::empty().push(x));
    } else if lex_le(x, s[0]) {
        vstd::seq_lib::lemma_multiset_commutative(seq![x], s);
        assert(seq![x] =~= Seq::<Seq<char>>::empty().push(x));
    } else {
        lemma_insert_lex_multiset(x, s.skip(1));
        vstd::seq_lib::lemma_multiset_commutative(seq![s[0]], insert_lex(x, s.skip(1)));
        assert(s =~= seq![s[0]] + s.skip(1));
        vstd::seq_lib::lemma_multiset_commutative(seq![s[0]], s.skip(1));
    }
}

/// Sorting yields a sorted permutation of the input.
pub proof fn lemma_sort_lex_ensures(s: Seq<Seq<char>>)
    ensures
        sorted_lex(sort_lex(s)),
        sort_lex(s).to_multiset() =~= s.to_multiset(),
        sort_lex(s).len() == s.len(),
    decreases s.len(),
{
    broadcast use vstd::seq_lib::group_to_multiset_ensures;
    broadcast use vstd::multiset::group_multiset_axioms;

    if s.len() > 0 {
        lemma_sort_lex_ensures(s.drop_last());
        lemma_insert_lex_sorted(s.last(), sort_lex(s.drop_last()));
        lemma_insert_lex_multiset(s.last(), sort_lex(s.drop_last()));
        lemma_insert_lex_shape(s.last(), sort_lex(s.drop_last()));
        assert(s =~= s.drop_last().push(s.last()));
    }
}

/// Where the first position not below the inserted element is `j`, the
/// insertion puts the element exactly there.
pub proof fn lemma_insert_lex_at(x: Seq<char>, s: Seq<Seq<char>>, j: int)
    requires
        0 <= j <= s.len(),
        forall|k: int| 0 <= k < j ==> !lex_le(x, s[k]),
        j < s.len() ==> lex_le(x, s[j]),
    ensures
        insert_lex(x, s) == s.insert(j, x),
    decreases j,
{
    if j == 0 {
        if s.len() == 0 {
            assert(insert_lex(x, s) =~= s.insert(0, x));
        } else {
            assert(lex_le(x, s[0]));
            assert(insert_lex(x, s) =~= s.insert(0, x));
        }
    } else {
        assert(!lex_le(x, s[0]));
        assert forall|k: int| 0 <= k < j - 1 implies !lex_le(x, s.skip(1)[k]) by {
            assert(s.skip(1)[k] == s[k + 1]);
        }
        assert(j - 1 < s.skip(1).len() ==> lex_le(x, s.skip(1)[j - 1])) by {
            if j - 1 < s.skip(1).len() {
                assert(s.skip(1)[j - 1] == s[j]);
            }
        }
        lemma_insert_lex_at(x, s.skip(1), j - 1);
        assert(insert_lex(x, s) =~= s.insert(j, x)) by {
            assert(insert_lex(x, s) == seq![s[0]] + s.skip(1).insert(j - 1, x));
            s.skip(1).insert_ensures(j - 1, x);
            s.insert_ensures(j, x);
            assert forall|k: int|
                0 <= k < s.len() + 1 implies (seq![s[0]] + s.skip(1).insert(j - 1, x))[k]
                == s.insert(j, x)[k] by {
                if k >= 1 {
                    assert((seq![s[0]] + s.skip(1).insert(j - 1, x))[k] == s.skip(1).insert(
                        j - 1,
                        x,
                    )[k - 1]);
                    if k - 1 < j - 1 {
                        assert(s.skip(1).insert(j - 1, x)[k - 1] == s.skip(1)[k - 1]);
                        assert(s.skip(1)[k - 1] == s[k]);
                        assert(s.insert(j, x)[k] == s[k]);
                    } else if k - 1 == j - 1 {
                        assert(s.skip(1).insert(j - 1, x)[j - 1] == x);
                        assert(s.insert(j, x)[j] == x);
                    } else {
                        assert(s.skip(1).insert(j - 1, x)[k - 1] == s.skip(1)[k - 2]);
                        assert(s.skip(1)[k - 2] == s[k - 1]);
                        assert(s.insert(j, x)[k] == s[k - 1]);
                    }
                }
            }
        }
    }
}

/// The position in front of the first element that `x` is not above:
/// where a sorted vector is scanned, this is where `x` belongs.
fn lower_position(r: &Vec<String>, x: &String) -> (j: usize)
    ensures
        j <= r@.len(),
        forall|k: int| 0 <= k < j ==> !lex_le(x@, r@[k]@),
        j < r@.len() ==> lex_le(x@, r@[j as int]@),
{
    let mut j: usize = 0;
    while j < r.len()
        invariant
            0 <= j <= r@.len(),
            forall|k: int| 0 <= k < j ==> !lex_le(x@, r@[k]@),
        decreases r@.len() - j,
    {
        if lex_str_le(x, &r[j]) {
            return j;
        }
        j = j + 1;
    }
    j
}

/// Inserts a string into a vector at the position the sorted-insertion
/// order assigns to it.
pub fn insert_string_sorted(r: &mut Vec<String>, x: String)
    ensures
        str_views(final(r)@) == insert_lex(x@, str_views(old(r)@)),
{
    let j = lower_position(r, &x);
    proof {
        assert forall|k: int| 0 <= k < j implies !lex_le(x@, str_views(r@)[k]) by {
            assert(str_views(r@)[k] == r@[k]@);
        }
        if (j as int) < r@.len() {
            assert(str_views(r@)[j as int] == r@[j as int]@);
        }
        lemma_insert_lex_at(x@, str_views(r@), j as int);
    }
    let ghost prev = r@;
    r.insert(j, x);
    proof {
        prev.insert_ensures(j as int, x);
        str_views(prev).insert_ensures(j as int, x@);
        assert(str_views(r@) =~= str_views(prev).insert(j as int, x@)) by {
            assert forall|k: int| 0 <= k < r@.len() implies str_views(r@)[k] == str_views(
                prev,
            ).insert(j as int, x@)[k] by {
                assert(str_views(r@)[k] == r@[k]@);
                if k < j {
                    assert(r@[k] == prev[k]);
                    assert(str_views(prev)[k] == prev[k]@);
                } else if k == j {
                } else {
                    assert(r@[k] == prev[k - 1]);
                    assert(str_views(prev)[k - 1] == prev[k - 1]@);
                }
            }
        }
    }
}

/// Sorts the strings of a vector in the codepoint-lexicographic order.
pub fn sort_strings(v: &Vec<String>) -> (r: Vec<String>)
    ensures
        str_views(r@) == sort_lex(str_views(v@)),
{
    let mut r: Vec<String> = Vec::new();
    let mut i: usize = 0;
    while i < v.len()
        invariant
            0 <= i <= v@.len(),
            str_views(r@) == sort_lex(str_views(v@).take(i as int)),
        decreases v@.len() - i,
    {
        insert_string_sorted(&mut r, v[i].clone());
        proof {
            let t = str_views(v@).take(i + 1);
            assert(t.drop_last() =~= str_views(v@).take(i as int));
            assert(t.last() == str_views(v@)[i as int]);
            assert(str_views(v@)[i as int] == v@[i as int]@);
        }
        i = i + 1;
    }
    proof {
        assert(str_views(v@).take(v@.len() as int) =~= str_views(v@));
    }
    r
}

/// The name of what `str::to_lowercase` returns for a given sequence of
/// characters: the lowercase equivalent depends on the characters alone.
pub uninterp spec fn lower_of(s: Seq<char>) -> Seq<char>;

/// Relies on str::to_lowercase: the result is the Unicode lowercase
/// equivalent of the input, a function of the input characters alone, and
/// the lowercase of an empty string is empty.
#[verifier::external_body]
pub fn to_lowercase(s: &str) -> (r: String)
    ensures
        r@ == lower_of(s@),
        s@.len() == 0 ==> r@.len() == 0,
{
    s.to_lowercase()
}

/// Tag normalization: every tag lowercased, and the whole collection
/// sorted in the codepoint-lexicographic order.
pub open spec fn normalized_tags_of(tags: Seq<Seq<char>>) -> Seq<Seq<char>> {
    sort_lex(tags.map_values(|t: Seq<char>| lower_of(t)))
}

/// Relies on String::push: appends exactly one character.
#[verifier::external_body]
pub fn push_char(s: &mut String, c: char)
    ensures
        final(s)@ == old(s)@.push(c),
{
    s.push(c);
}

/// A directory path joined with one more component: a separator is added
/// only where the directory neither is empty nor already ends in one.
pub open spec fn path_join(dir: Seq<char>, name: Seq<char>) -> Seq<char> {
    if dir.len() == 0 {
        name
    } else if dir[dir.len() - 1] == '/' {
        dir + name
    } else {
        dir + seq!['/'] + name
    }
}

/// Joins a directory path and a component with a `/` separator.
pub fn join_path(dir: &str, name: &str) -> (r: String)
    ensures
        r@ == path_join(dir@, name@),
{
    let n = dir.unicode_len();
    if n == 0 {
        name.to_owned()
    } else if dir.get_char(n - 1) == '/' {
        let r = dir.to_owned().concat(name);
        proof {
            assert(r@ =~= path_join(dir@, name@));
        }
        r
    } else {
        let mut r = dir.to_owned();
        push_char(&mut r, '/');
        let r2 = r.concat(name);
        proof {
            assert(r2@ =~= path_join(dir@, name@));
        }
        r2
    }
}

} // verus!

