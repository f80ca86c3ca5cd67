//! Character-level helpers shared by the URL and attribute code.

use vstd::prelude::*;

verus! {

/// `String::push` appends one character to the end of the string.
pub assume_specification[ String::push ](s: &mut String, ch: char)
    ensures
        final(s)@ == old(s)@.push(ch),
;

/// Calls `Arc::clone`, which hands out another pointer to the same value.
#[verifier::external_body]
pub(crate) fn arc_clone<T>(a: &std::sync::Arc<T>) -> (r: std::sync::Arc<T>)
    ensures
        r == *a,
{
    std::sync::Arc::clone(a)
}

/// The characters of `s`, in order.
pub fn chars_of(s: &str) -> (v: Vec<char>)
    ensures
        v@ == s@,
{
    let mut v: Vec<char> = Vec::new();
    for c in it: s.chars()
        invariant
            v@ == it.seq().take(it.index() as int),
    {
        v.push(c);
    }
    v
}

/// A string holding exactly the characters of `cs`.
pub fn string_from_chars(cs: &[char]) -> (s: String)
    ensures
        s@ == cs@,
{
    let mut s = String::new();
    let mut i: usize = 0;
    while i < cs.len()
        invariant
            i <= cs@.len(),
            s@ == cs@.take(i as int),
        decreases cs@.len() - i,
    {
        s.push(cs[i]);
        i = i + 1;
        assert(cs@.take(i as int) =~= cs@.take((i - 1) as int).push(cs@[i - 1]));
    }
    assert(cs@.take(cs@.len() as int) =~= cs@);
    s
}

} // verus!

verus! {

/// The ASCII lowercase form of a character: `A`..=`Z` map to `a`..=`z`,
/// everything else is unchanged.
pub open spec fn ascii_lower(c: char) -> char {
    if 'A' <= c && c <= 'Z' {
        ((c as u32) + 32) as char
    } else {
        c
    }
}

/// The ASCII lowercase form of a character sequence.
pub open spec fn ascii_lower_seq(s: Seq<char>) -> Seq<char> {
    s.map_values(|c: char| ascii_lower(c))
}

/// Whether `a` and `b` are equal ignoring ASCII case.
pub open spec fn eq_ignore_ascii_case(a: Seq<char>, b: Seq<char>) -> bool {
    ascii_lower_seq(a) == ascii_lower_seq(b)
}

/// Index of the first occurrence of `c` in `s`; meaningful when `s` contains `c`.
pub open spec fn first_index(s: Seq<char>, c: char) -> int {
    choose|i: int| is_first_index(s, c, i)
}

/// `i` is the position of the first `c` in `s`.
pub open spec fn is_first_index(s: Seq<char>, c: char, i: int) -> bool {
    &&& 0 <= i < s.len()
    &&& s[i] == c
    &&& forall|j: int| 0 <= j < i ==> s[j] != c
}

/// The first index is unique, so `first_index` names it.
pub proof fn lemma_first_index(s: Seq<char>, c: char, i: int)
    requires
        is_first_index(s, c, i),
    ensures
        first_index(s, c) == i,
{
    let k = first_index(s, c);
    assert(is_first_index(s, c, k));
    if k < i {
        assert(s[k] != c);
    } else if i < k {
        assert(s[i] != c);
    }
}

pub fn char_to_ascii_lower(c: char) -> (r: char)
    ensures
        r == ascii_lower(c),
{
    if 'A' <= c && c <= 'Z' {
        let b: u8 = (c as u8) + 32;
        b as char
    } else {
        c
    }
}

/// Position of the first `c` in `v`, if any.
pub fn find_char(v: &[char], c: char) -> (r: Option<usize>)
    ensures
        match r {
            Some(i) => is_first_index(v@, c, i as int) && first_index(v@, c) == i,
            None => !v@.contains(c),
        },
{
    let mut i: usize = 0;
    while i < v.len()
        invariant
            i <= v@.len(),
            forall|j: int| 0 <= j < i ==> v@[j] != c,
        decreases v@.len() - i,
    {
        if v[i] == c {
            proof { lemma_first_index(v@, c, i as int); }
            return Some(i);
        }
        i = i + 1;
    }
    None
}

/// Whether `a[from..to]` equals `b` ignoring ASCII case.
pub fn range_eq_ignore_ascii_case(a: &[char], from: usize, to: usize, b: &[char]) -> (r: bool)
    requires
        from <= to <= a@.len(),
    ensures
        r == eq_ignore_ascii_case(a@.subrange(from as int, to as int), b@),
{
    let ghost sa = a@.subrange(from as int, to as int);
    if to - from != b.len() {
        assert(ascii_lower_seq(sa).len() != ascii_lower_seq(b@).len());
        return false;
    }
    let mut i: usize = 0;
    while i < b.len()
        invariant
            from <= to <= a@.len(),
            to - from == b@.len(),
            sa == a@.subrange(from as int, to as int),
            i <= b@.len(),
            forall|j: int| 0 <= j < i ==> ascii_lower(sa[j]) == ascii_lower(b@[j]),
        decreases b@.len() - i,
    {
        let x = char_to_ascii_lower(a[from + i]);
        let y = char_to_ascii_lower(b[i]);
        if x != y {
            assert(ascii_lower_seq(sa)[i as int] != ascii_lower_seq(b@)[i as int]);
            return false;
        }
        i = i + 1;
    }
    assert(ascii_lower_seq(sa) =~= ascii_lower_seq(b@));
    true
}

/// The ASCII lowercase form of `v[from..to]`, as a vector.
pub fn lower_range(v: &[char], from: usize, to: usize) -> (r: Vec<char>)
    requires
        from <= to <= v@.len(),
    ensures
        r@ == ascii_lower_seq(v@.subrange(from as int, to as int)),
{
    let mut r: Vec<char> = Vec::new();
    let mut i: usize = from;
    while i < to
        invariant
            from <= i <= to <= v@.len(),
            r@ =~= ascii_lower_seq(v@.subrange(from as int, i as int)),
        decreases to - i,
    {
        r.push(char_to_ascii_lower(v[i]));
        i = i + 1;
    }
    r
}

} // verus!

verus! {

/// Appends the characters of `t` to `s`.
pub fn push_str(s: &mut String, t: &str)
    ensures
        final(s)@ == old(s)@ + t@,
{
    let cs = chars_of(t);
    let mut i: usize = 0;
    while i < cs.len()
        invariant
            cs@ == t@,
            i <= cs@.len(),
            s@ == old(s)@ + cs@.take(i as int),
        decreases cs@.len() - i,
    {
        s.push(cs[i]);
        i = i + 1;
        assert(cs@.take(i as int) =~= cs@.take((i - 1) as int).push(cs@[i - 1]));
    }
    assert(cs@.take(cs@.len() as int) =~= cs@);
}

} // verus!

verus! {

/// Whether two strings hold the same characters.
pub fn str_eq(a: &str, b: &str) -> (r: bool)
    ensures
        r == (a@ == b@),
{
    a.to_owned() == b.to_owned()
}

/// Characters with the Unicode `White_Space` property (what
/// `char::is_whitespace` tests).
pub open spec fn is_unicode_ws(c: char) -> bool {
    ||| '\u{9}' <= c <= '\u{d}'
    ||| c == ' '
    ||| c == '\u{85}'
    ||| c == '\u{a0}'
    ||| c == '\u{1680}'
    ||| '\u{2000}' <= c <= '\u{200a}'
    ||| c == '\u{2028}'
    ||| c == '\u{2029}'
    ||| c == '\u{202f}'
    ||| c == '\u{205f}'
    ||| c == '\u{3000}'
}

/// Whether `c` is Unicode white space.
pub fn is_whitespace(c: char) -> (r: bool)
    ensures
        r == is_unicode_ws(c),
{
    ('\u{9}' <= c && c <= '\u{d}') || c == ' ' || c == '\u{85}' || c == '\u{a0}' || c == '\u{1680}'
        || ('\u{2000}' <= c && c <= '\u{200a}') || c == '\u{2028}' || c == '\u{2029}' || c == '\u{202f}'
        || c == '\u{205f}' || c == '\u{3000}'
}

/// The number of white-space characters `s` starts with.
pub open spec fn lead_ws(s: Seq<char>) -> nat
    decreases s.len(),
{
    if s.len() > 0 && is_unicode_ws(s[0]) {
        1 + lead_ws(s.drop_first())
    } else {
        0
    }
}

/// The number of white-space characters `s` ends with.
pub open spec fn trail_ws(s: Seq<char>) -> nat
    decreases s.len(),
{
    if s.len() > 0 && is_unicode_ws(s.last()) {
        1 + trail_ws(s.drop_last())
    } else {
        0
    }
}

/// `s` without its leading and trailing white space (what `str::trim`
/// gives).
pub open spec fn trimmed(s: Seq<char>) -> Seq<char> {
    let t = s.skip(lead_ws(s) as int);
    t.take(t.len() - trail_ws(t))
}

/// `s` with leading and trailing white space removed.
pub fn trim_str(s: &str) -> (r: String)
    ensures
        r@ == trimmed(s@),
{
    let v = chars_of(s);
    let ghost sv = v@;
    let mut i: usize = 0;
    proof {
        assert(sv.skip(0) =~= sv);
    }
    while i < v.len() && is_whitespace(v[i])
        invariant
            sv == v@,
            i <= sv.len(),
            lead_ws(sv) == i + lead_ws(sv.skip(i as int)),
        decreases sv.len() - i,
    {
        proof {
            assert(sv.skip(i as int)[0] == sv[i as int]);
            assert(sv.skip(i as int).drop_first() =~= sv.skip(i + 1));
        }
        i = i + 1;
    }
    proof {
        if i < sv.len() {
            assert(sv.skip(i as int)[0] == sv[i as int]);
        }
        assert(lead_ws(sv.skip(i as int)) == 0);
    }
    let ghost t = sv.skip(i as int);
    let mut j: usize = v.len();
    proof {
        assert(t.take(t.len() as int) =~= t);
    }
    while j > i && is_whitespace(v[j - 1])
        invariant
            sv == v@,
            i <= j <= sv.len(),
            t == sv.skip(i as int),
            trail_ws(t) == (sv.len() - j) + trail_ws(t.take(j - i)),
        decreases j,
    {
        proof {
            let u = t.take(j - i);
            assert(u.last() == sv[j - 1]);
            assert(u.drop_last() =~= t.take(j - 1 - i));
        }
        j = j - 1;
    }
    proof {
        let u = t.take(j - i);
        if j > i {
            assert(u.last() == sv[j - 1]);
        }
        assert(trail_ws(u) == 0);
        assert(sv.subrange(i as int, j as int) =~= t.take(t.len() - trail_ws(t)));
    }
    string_from_chars(&v.as_slice()[i..j])
}

/// `s[i..j]` is a maximal non-empty run of non-white-space characters: one
/// of the pieces `split_whitespace` yields.
pub open spec fn is_token_at(s: Seq<char>, i: int, j: int) -> bool {
    &&& 0 <= i < j <= s.len()
    &&& forall|k: int| i <= k < j ==> !is_unicode_ws(#[trigger] s[k])
    &&& (i == 0 || is_unicode_ws(s[i - 1]))
    &&& (j == s.len() || is_unicode_ws(s[j]))
}

/// `t` is one of the white-space separated pieces of `s`.
pub open spec fn is_token_of(s: Seq<char>, t: Seq<char>) -> bool {
    exists|i: int, j: int| is_token_at(s, i, j) && s.subrange(i, j) == t
}

/// The character sequences of a list of strings.
pub open spec fn string_views(v: Seq<String>) -> Seq<Seq<char>> {
    v.map_values(|x: String| x@)
}

/// Whether `v` holds a string equal to `t`.
pub fn contains_string(v: &Vec<String>, t: &String) -> (r: bool)
    ensures
        r == string_views(v@).contains(t@),
{
    let mut i: usize = 0;
    while i < v.len()
        invariant
            i <= v@.len(),
            forall|k: int| 0 <= k < i ==> v@[k]@ != t@,
        decreases v@.len() - i,
    {
        if v[i] == *t {
            proof {
                assert(string_views(v@)[i as int] == t@);
            }
            return true;
        }
        i = i + 1;
    }
    proof {
        if string_views(v@).contains(t@) {
            let k = choose|k: int| 0 <= k < string_views(v@).len() && string_views(v@)[k] == t@;
            assert(v@[k]@ == t@);
        }
    }
    false
}

/// After pushing `t` unless it was already there, the list holds exactly
/// the old items and `t`.
proof fn lemma_push_contains(before: Seq<Seq<char>>, after: Seq<Seq<char>>, t: Seq<char>)
    requires
        after == before.push(t) || (after == before && before.contains(t)),
    ensures
        forall|x: Seq<char>| #[trigger] after.contains(x) <==> (before.contains(x) || x == t),
{
    assert forall|x: Seq<char>| #[trigger] after.contains(x) <==> (before.contains(x) || x == t) by {
        if after == before.push(t) {
            if after.contains(x) && x != t {
                let k = choose|k: int| 0 <= k < after.len() && after[k] == x;
                assert(before[k] == x);
            }
            if before.contains(x) {
                let k = choose|k: int| 0 <= k < before.len() && before[k] == x;
                assert(after[k] == x);
            }
            if x == t {
                assert(after[before.len() as int] == x);
            }
        }
    }
}

/// A token that ends at `i` starts where the current run of non-space
/// characters started; if no run is open, no token ends at `i`.
proof fn lemma_token_end(s: Seq<char>, start: Option<int>, i: int, a: int)
    requires
        0 <= i < s.len(),
        is_unicode_ws(s[i]),
        start is Some ==> 0 <= start->0 < i && (start->0 == 0 || is_unicode_ws(s[start->0 - 1])) && forall|k: int|
            start->0 <= k < i ==> !is_unicode_ws(#[trigger] s[k]),
        start is None ==> i == 0 || is_unicode_ws(s[i - 1]),
        is_token_at(s, a, i),
    ensures
        start == Some(a),
{
    assert(!is_unicode_ws(s[i - 1]));
    if start is Some {
        let st = start->0;
        if a < st {
            assert(!is_unicode_ws(s[st - 1]));
        } else if a > st {
            assert(!is_unicode_ws(s[a - 1]));
        }
    }
}

/// The distinct white-space separated pieces of `s`, each once, in order of
/// first appearance.
pub fn distinct_tokens(s: &str) -> (r: Vec<String>)
    ensures
        string_views(r@).no_duplicates(),
        forall|t: Seq<char>| #[trigger] string_views(r@).contains(t) <==> is_token_of(s@, t),
{
    let cs = chars_of(s);
    let mut out: Vec<String> = Vec::new();
    let mut start: Option<usize> = None;
    let mut i: usize = 0;
    proof {
        assert(string_views(out@) =~= Seq::<Seq<char>>::empty());
    }
    while i < cs.len()
        invariant
            cs@ == s@,
            i <= cs@.len(),
            string_views(out@).no_duplicates(),
            start is Some ==> start->0 < i && (start->0 == 0 || is_unicode_ws(cs@[start->0 - 1])) && forall|k: int|
                start->0 <= k < i ==> !is_unicode_ws(#[trigger] cs@[k]),
            start is None ==> i == 0 || is_unicode_ws(cs@[i - 1]),
            forall|t: Seq<char>| #[trigger] string_views(out@).contains(t) <==> exists|a: int, b: int|
                is_token_at(cs@, a, b) && b < i && cs@.subrange(a, b) == t,
        decreases cs@.len() - i,
    {
        let c = cs[i];
        let ghost before = string_views(out@);
        let ghost st0: Option<int> = match start { Some(x) => Some(x as int), None => None };
        if is_whitespace(c) {
            if let Some(st) = start {
                let tok = string_from_chars(&cs.as_slice()[st..i]);
                proof {
                    assert(is_token_at(cs@, st as int, i as int));
                    assert(tok@ == cs@.subrange(st as int, i as int));
                }
                let ghost tv = tok@;
                if !contains_string(&out, &tok) {
                    out.push(tok);
                    proof {
                        assert(string_views(out@) =~= before.push(tv));
                    }
                }
                proof {
                    lemma_push_contains(before, string_views(out@), tv);
                }
                start = None;
                proof {
                    assert forall|t: Seq<char>| #[trigger] string_views(out@).contains(t) <==> exists|a: int, b: int|
                        is_token_at(cs@, a, b) && b < i + 1 && cs@.subrange(a, b) == t by {
                        if exists|a: int, b: int| is_token_at(cs@, a, b) && b < i + 1 && cs@.subrange(a, b) == t {
                            let (a, b) = choose|a: int, b: int| is_token_at(cs@, a, b) && b < i + 1 && cs@.subrange(a, b) == t;
                            if b == i {
                                lemma_token_end(cs@, st0, i as int, a);
                            } else {
                                assert(before.contains(t));
                            }
                        }
                        if before.contains(t) {
                            let (a, b) = choose|a: int, b: int| is_token_at(cs@, a, b) && b < i && cs@.subrange(a, b) == t;
                            assert(is_token_at(cs@, a, b) && b < i + 1 && cs@.subrange(a, b) == t);
                        }
                        if t == tv {
                            assert(is_token_at(cs@, st as int, i as int) && i < i + 1 && cs@.subrange(st as int, i as int) == t);
                        }
                    }
                }
            } else {
                proof {
                    assert forall|t: Seq<char>| #[trigger] string_views(out@).contains(t) <==> exists|a: int, b: int|
                        is_token_at(cs@, a, b) && b < i + 1 && cs@.subrange(a, b) == t by {
                        if exists|a: int, b: int| is_token_at(cs@, a, b) && b < i + 1 && cs@.subrange(a, b) == t {
                            let (a, b) = choose|a: int, b: int| is_token_at(cs@, a, b) && b < i + 1 && cs@.subrange(a, b) == t;
                            if b == i {
                                lemma_token_end(cs@, st0, i as int, a);
                            }
                        }
                        if before.contains(t) {
                            let (a, b) = choose|a: int, b: int| is_token_at(cs@, a, b) && b < i && cs@.subrange(a, b) == t;
                            assert(is_token_at(cs@, a, b) && b < i + 1 && cs@.subrange(a, b) == t);
                        }
                    }
                }
            }
        } else {
            proof {
                assert forall|t: Seq<char>| #[trigger] string_views(out@).contains(t) <==> exists|a: int, b: int|
                    is_token_at(cs@, a, b) && b < i + 1 && cs@.subrange(a, b) == t by {
                    if before.contains(t) {
                        let (a, b) = choose|a: int, b: int| is_token_at(cs@, a, b) && b < i && cs@.subrange(a, b) == t;
                        assert(is_token_at(cs@, a, b) && b < i + 1 && cs@.subrange(a, b) == t);
                    }
                }
            }
            if start.is_none() {
                start = Some(i);
            }
        }
        i = i + 1;
    }
    let ghost before = string_views(out@);
    let ghost st0: Option<int> = match start { Some(x) => Some(x as int), None => None };
    if let Some(st) = start {
        let tok = string_from_chars(&cs.as_slice()[st..cs.len()]);
        proof {
            assert(is_token_at(cs@, st as int, cs@.len() as int));
            assert(tok@ == cs@.subrange(st as int, cs@.len() as int));
        }
        let ghost tv = tok@;
        if !contains_string(&out, &tok) {
            out.push(tok);
            proof {
                assert(string_views(out@) =~= before.push(tv));
            }
        }
        proof {
            lemma_push_contains(before, string_views(out@), tv);
        }
    }
    proof {
        let n = cs@.len() as int;
        assert forall|t: Seq<char>| #[trigger] string_views(out@).contains(t) <==> is_token_of(s@, t) by {
            if is_token_of(s@, t) {
                let (a, b) = choose|a: int, b: int| is_token_at(s@, a, b) && s@.subrange(a, b) == t;
                if b < n {
                    assert(before.contains(t));
                } else {
                    if st0 is Some {
                        let st = st0->0;
                        if a < st {
                            assert(!is_unicode_ws(cs@[st - 1]));
                        } else if a > st {
                            assert(!is_unicode_ws(cs@[a - 1]));
                        }
                    } else {
                        assert(!is_unicode_ws(cs@[n - 1]));
                    }
                }
            }
            if before.contains(t) {
                let (a, b) = choose|a: int, b: int| is_token_at(cs@, a, b) && b < n && cs@.subrange(a, b) == t;
                assert(is_token_at(s@, a, b) && s@.subrange(a, b) == t);
            }
            if st0 is Some && string_views(out@).contains(t) && !before.contains(t) {
                assert(is_token_at(s@, st0->0, n) && s@.subrange(st0->0, n) == t);
            }
        }
    }
    out
}

} // verus!
