//! Character classes and free-text checks shared by the source schema.

use vstd::prelude::*;

verus! {

broadcast use vstd::string::group_string_axioms;

/// Unicode general category `Cc`: U+0000..=U+001F and U+007F..=U+009F.
pub open spec fn is_control_char(c: char) -> bool {
    (c as u32) <= 0x1f || (0x7f <= (c as u32) && (c as u32) <= 0x9f)
}

/// NEXT LINE, LINE SEPARATOR and PARAGRAPH SEPARATOR.
pub open spec fn is_line_separator_char(c: char) -> bool {
    c == '\u{0085}' || c == '\u{2028}' || c == '\u{2029}'
}

/// A character that free text in the source schema must not contain.
pub open spec fn is_forbidden_text_char(c: char) -> bool {
    is_control_char(c) || is_line_separator_char(c)
}

/// Whether some character of `s` is forbidden in free text.
pub open spec fn has_forbidden_text_char(s: Seq<char>) -> bool {
    exists|i: int| 0 <= i < s.len() && is_forbidden_text_char(#[trigger] s[i])
}

/// The Unicode `White_Space` property.
pub open spec fn is_white_space(c: char) -> bool {
    let n = c as u32;
    ||| 0x09 <= n <= 0x0d
    ||| n == 0x20
    ||| n == 0x85
    ||| n == 0xa0
    ||| n == 0x1680
    ||| 0x2000 <= n <= 0x200a
    ||| n == 0x2028
    ||| n == 0x2029
    ||| n == 0x202f
    ||| n == 0x205f
    ||| n == 0x3000
}

/// Whether trimming white space from both ends would change `s`.
pub open spec fn has_surrounding_white_space(s: Seq<char>) -> bool {
    s.len() > 0 && (is_white_space(s[0]) || is_white_space(s[s.len() - 1]))
}

/// Why a display name is rejected, if it is.
pub open spec fn display_name_problem(s: Seq<char>) -> Option<Seq<char>> {
    if s.len() == 0 {
        Some("display_name must not be empty"@)
    } else if has_surrounding_white_space(s) {
        Some("display_name must not have surrounding whitespace"@)
    } else if has_forbidden_text_char(s) {
        Some("display_name must not contain control characters or line separators"@)
    } else {
        None
    }
}

/// Lexicographic order by code point, which is the order of `str` and `String`.
pub open spec fn lex_less(a: Seq<char>, b: Seq<char>) -> bool
    decreases a.len(),
{
    if b.len() == 0 {
        false
    } else if a.len() == 0 {
        true
    } else if a[0] != b[0] {
        a[0] < b[0]
    } else {
        lex_less(a.drop_first(), b.drop_first())
    }
}

/// No sequence precedes itself.
pub proof fn lemma_lex_irreflexive(a: Seq<char>)
    ensures
        !lex_less(a, a),
    decreases a.len(),
{
    if a.len() > 0 {
        lemma_lex_irreflexive(a.drop_first());
    }
}

/// The lexicographic order is asymmetric.
pub proof fn lemma_lex_asymmetric(a: Seq<char>, b: Seq<char>)
    ensures
        lex_less(a, b) ==> !lex_less(b, a),
    decreases a.len(),
{
    if a.len() > 0 && b.len() > 0 && a[0] == b[0] {
        lemma_lex_asymmetric(a.drop_first(), b.drop_first());
    }
}

/// The lexicographic order is transitive.
pub proof fn lemma_lex_transitive(a: Seq<char>, b: Seq<char>, c: Seq<char>)
    ensures
        lex_less(a, b) && lex_less(b, c) ==> lex_less(a, c),
    decreases a.len(),
{
    if a.len() > 0 && b.len() > 0 && c.len() > 0 && a[0] == b[0] && b[0] == c[0] {
        lemma_lex_transitive(a.drop_first(), b.drop_first(), c.drop_first());
    }
}

/// Two different sequences are ordered one way or the other.
pub proof fn lemma_lex_total(a: Seq<char>, b: Seq<char>)
    ensures
        a != b ==> lex_less(a, b) || lex_less(b, a),
    decreases a.len(),
{
    if a.len() > 0 && b.len() > 0 {
        if a[0] == b[0] {
            lemma_lex_total(a.drop_first(), b.drop_first());
            if a.drop_first() == b.drop_first() {
                assert(a =~= seq![a[0]] + a.drop_first());
                assert(b =~= seq![b[0]] + b.drop_first());
            }
        }
    } else if a.len() == 0 && b.len() == 0 {
        assert(a =~= b);
    }
}

/// `less` is a strict total order.
pub open spec fn is_strict_order(less: spec_fn(Seq<char>, Seq<char>) -> bool) -> bool {
    &&& forall|a: Seq<char>| !(#[trigger] less(a, a))
    &&& forall|a: Seq<char>, b: Seq<char>, c: Seq<char>|
        #[trigger] less(a, b) && #[trigger] less(b, c) ==> less(a, c)
    &&& forall|a: Seq<char>, b: Seq<char>| a != b ==> #[trigger] less(a, b) || #[trigger] less(b, a)
}

/// `r` is strictly increasing under `less`.
pub open spec fn sorted_by(r: Seq<Seq<char>>, less: spec_fn(Seq<char>, Seq<char>) -> bool) -> bool {
    forall|i: int, j: int| 0 <= i < j < r.len() ==> less(#[trigger] r[i], #[trigger] r[j])
}

/// No element of `s` occurs twice.
pub open spec fn no_repeats(s: Seq<Seq<char>>) -> bool {
    forall|i: int, j: int| 0 <= i < j < s.len() ==> #[trigger] s[i] != #[trigger] s[j]
}

/// The code-point order as a function value.
pub open spec fn lex_order() -> spec_fn(Seq<char>, Seq<char>) -> bool {
    |a: Seq<char>, b: Seq<char>| lex_less(a, b)
}

/// The code-point order is a strict total order.
pub proof fn lemma_lex_order()
    ensures
        is_strict_order(lex_order()),
{
    assert forall|a: Seq<char>| !(#[trigger] lex_order()(a, a)) by {
        lemma_lex_irreflexive(a);
    }
    assert forall|a: Seq<char>, b: Seq<char>, c: Seq<char>|
        #[trigger] lex_order()(a, b) && #[trigger] lex_order()(b, c) implies lex_order()(a, c) by {
        lemma_lex_transitive(a, b, c);
    }
    assert forall|a: Seq<char>, b: Seq<char>| a != b implies #[trigger] lex_order()(a, b)
        || #[trigger] lex_order()(b, a) by {
        lemma_lex_total(a, b);
    }
}

/// `r` is `s` with `x` put in order.
spec fn sorted_with(r2: Seq<Seq<char>>, r: Seq<Seq<char>>, x: Seq<char>, less: spec_fn(Seq<char>, Seq<char>) -> bool) -> bool {
    &&& sorted_by(r2, less)
    &&& r2.len() == r.len() + 1
    &&& forall|y: Seq<char>| #[trigger] r2.contains(y) <==> (r.contains(y) || y == x)
}

/// `r` holds the members of `s` in strictly increasing order under `less`, each once, and is
/// as long as `s` when `s` has no repeats.
pub open spec fn sorted_arrangement(r: Seq<Seq<char>>, s: Seq<Seq<char>>, less: spec_fn(Seq<char>, Seq<char>) -> bool) -> bool {
    &&& sorted_by(r, less)
    &&& no_repeats(s) ==> r.len() == s.len()
    &&& forall|y: Seq<char>| #[trigger] r.contains(y) <==> s.contains(y)
}

/// An element that a sorted sequence lacks can be put in its place.
proof fn lemma_sorted_insert(r: Seq<Seq<char>>, x: Seq<char>, less: spec_fn(Seq<char>, Seq<char>) -> bool)
    requires
        is_strict_order(less),
        sorted_by(r, less),
        !r.contains(x),
    ensures
        exists|r2: Seq<Seq<char>>| #[trigger] sorted_with(r2, r, x, less),
    decreases r.len(),
{
    if r.len() == 0 {
        let r2 = seq![x];
        assert forall|y: Seq<char>| #[trigger] r2.contains(y) <==> (r.contains(y) || y == x) by {
            if y == x {
                assert(r2[0] == y);
            }
        }
        assert(sorted_by(r2, less));
        assert(sorted_with(r2, r, x, less));
    } else if less(r.last(), x) {
        let r2 = r.push(x);
        assert forall|i: int, j: int| 0 <= i < j < r2.len() implies less(#[trigger] r2[i], #[trigger] r2[j]) by {
            if j == r.len() && i < r.len() - 1 {
                assert(less(r[i], r.last()));
            }
        }
        assert forall|y: Seq<char>| #[trigger] r2.contains(y) <==> (r.contains(y) || y == x) by {
            if r2.contains(y) {
                let k = choose|k: int| 0 <= k < r2.len() && r2[k] == y;
                if k < r.len() {
                    assert(r[k] == y);
                }
            }
            if r.contains(y) {
                let k = choose|k: int| 0 <= k < r.len() && r[k] == y;
                assert(r2[k] == y);
            }
            if y == x {
                assert(r2[r.len() as int] == y);
            }
        }
        assert(sorted_with(r2, r, x, less));
    } else {
        let p = r.drop_last();
        let last = r.last();
        assert(r[r.len() - 1] == last);
        assert(last != x);
        assert(less(x, last));
        assert(sorted_by(p, less)) by {
            assert forall|i: int, j: int| 0 <= i < j < p.len() implies less(#[trigger] p[i], #[trigger] p[j]) by {
                assert(p[i] == r[i] && p[j] == r[j]);
            }
        }
        assert(!p.contains(x)) by {
            if p.contains(x) {
                let k = choose|k: int| 0 <= k < p.len() && p[k] == x;
                assert(r[k] == x);
            }
        }
        lemma_sorted_insert(p, x, less);
        let p2 = choose|p2: Seq<Seq<char>>| #[trigger] sorted_with(p2, p, x, less);
        let r2 = p2.push(last);
        assert forall|i: int, j: int| 0 <= i < j < r2.len() implies less(#[trigger] r2[i], #[trigger] r2[j]) by {
            if j == p2.len() {
                assert(r2[i] == p2[i]);
                assert(p2.contains(p2[i]));
                if p2[i] != x {
                    let k = choose|k: int| 0 <= k < p.len() && p[k] == p2[i];
                    assert(r[k] == p2[i]);
                    assert(less(r[k], r[r.len() - 1]));
                }
            } else {
                assert(r2[i] == p2[i] && r2[j] == p2[j]);
            }
        }
        assert forall|y: Seq<char>| #[trigger] r2.contains(y) <==> (r.contains(y) || y == x) by {
            if r2.contains(y) {
                let k = choose|k: int| 0 <= k < r2.len() && r2[k] == y;
                if k < p2.len() {
                    assert(p2[k] == y);
                    assert(p2.contains(y));
                    if p.contains(y) {
                        let m = choose|m: int| 0 <= m < p.len() && p[m] == y;
                        assert(r[m] == y);
                    }
                } else {
                    assert(r[r.len() - 1] == y);
                }
            }
            if r.contains(y) {
                let k = choose|k: int| 0 <= k < r.len() && r[k] == y;
                if k < p.len() {
                    assert(p[k] == y);
                    assert(p2.contains(y));
                    let m = choose|m: int| 0 <= m < p2.len() && p2[m] == y;
                    assert(r2[m] == y);
                } else {
                    assert(r2[p2.len() as int] == y);
                }
            }
            if y == x {
                assert(p2.contains(x));
                let m = choose|m: int| 0 <= m < p2.len() && p2[m] == x;
                assert(r2[m] == x);
            }
        }
        assert(sorted_with(r2, r, x, less));
    }
}

/// Every sequence has a sorted arrangement under a strict total order.
pub proof fn lemma_sorted_exists(s: Seq<Seq<char>>, less: spec_fn(Seq<char>, Seq<char>) -> bool)
    requires
        is_strict_order(less),
    ensures
        exists|r: Seq<Seq<char>>| #[trigger] sorted_arrangement(r, s, less),
    decreases s.len(),
{
    if s.len() == 0 {
        let r = Seq::<Seq<char>>::empty();
        assert(sorted_by(r, less));
        assert forall|y: Seq<char>| #[trigger] r.contains(y) <==> s.contains(y) by {}
        assert(sorted_arrangement(r, s, less));
    } else {
        let p = s.drop_last();
        let x = s.last();
        lemma_sorted_exists(p, less);
        let r0 = choose|r: Seq<Seq<char>>| #[trigger] sorted_arrangement(r, p, less);
        assert forall|y: Seq<char>| s.contains(y) <==> (p.contains(y) || y == x) by {
            if s.contains(y) {
                let k = choose|k: int| 0 <= k < s.len() && s[k] == y;
                if k < p.len() {
                    assert(p[k] == y);
                }
            }
            if p.contains(y) {
                let k = choose|k: int| 0 <= k < p.len() && p[k] == y;
                assert(s[k] == y);
            }
            if y == x {
                assert(s[s.len() - 1] == y);
            }
        }
        if no_repeats(s) {
            assert(no_repeats(p)) by {
                assert forall|i: int, j: int| 0 <= i < j < p.len() implies #[trigger] p[i] != #[trigger] p[j] by {
                    assert(p[i] == s[i] && p[j] == s[j]);
                }
            }
        }
        if r0.contains(x) {
            if no_repeats(s) {
                let k = choose|k: int| 0 <= k < p.len() && p[k] == x;
                assert(s[k] == s[s.len() - 1]);
            }
            assert(sorted_arrangement(r0, s, less));
        } else {
            lemma_sorted_insert(r0, x, less);
            let r1 = choose|r2: Seq<Seq<char>>| #[trigger] sorted_with(r2, r0, x, less);
            if no_repeats(s) {
                assert(r1.len() == s.len());
            }
            assert(sorted_arrangement(r1, s, less));
        }
    }
}

/// Whether `a` precedes `b` in code-point lexicographic order.
pub fn chars_less(a: &Vec<char>, b: &Vec<char>) -> (r: bool)
    ensures
        r == lex_less(a@, b@),
{
    let mut i: usize = 0;
    assert(a@.skip(0) =~= a@);
    assert(b@.skip(0) =~= b@);
    while i < a.len() && i < b.len()
        invariant
            i <= a.len(),
            i <= b.len(),
            lex_less(a@, b@) == lex_less(a@.skip(i as int), b@.skip(i as int)),
        decreases a.len() - i,
    {
        let x = a[i];
        let y = b[i];
        assert(a@.skip(i as int)[0] == x);
        assert(b@.skip(i as int)[0] == y);
        if x != y {
            return x < y;
        }
        assert(a@.skip(i as int).drop_first() =~= a@.skip(i + 1));
        assert(b@.skip(i as int).drop_first() =~= b@.skip(i + 1));
        i = i + 1;
    }
    i < b.len()
}

/// Whether `a` precedes `b` in code-point lexicographic order.
pub fn text_less(a: &str, b: &str) -> (r: bool)
    ensures
        r == lex_less(a@, b@),
{
    let x = chars_of(a);
    let y = chars_of(b);
    chars_less(&x, &y)
}

/// The characters of `s`, in order.
pub fn chars_of(s: &str) -> (v: Vec<char>)
    ensures
        v@ == s@,
{
    let mut v: Vec<char> = Vec::new();
    for c in it: s.chars()
        invariant
            v@ == it.seq().take(it.index() as int),
            it.seq() == s@,
    {
        v.push(c);
    }
    v
}

/// Whether two character sequences are equal.
pub fn same_chars(a: &Vec<char>, b: &Vec<char>) -> (r: bool)
    ensures
        r == (a@ == b@),
{
    if a.len() != b.len() {
        return false;
    }
    let mut i: usize = 0;
    while i < a.len()
        invariant
            i <= a.len(),
            a.len() == b.len(),
            forall|j: int| 0 <= j < i ==> a@[j] == b@[j],
        decreases a.len() - i,
    {
        if a[i] != b[i] {
            return false;
        }
        i = i + 1;
    }
    assert(a@ =~= b@);
    true
}

/// Whether two string slices hold the same characters.
pub fn same_text(a: &str, b: &str) -> (r: bool)
    ensures
        r == (a@ == b@),
{
    let x = chars_of(a);
    let y = chars_of(b);
    same_chars(&x, &y)
}

/// Whether a character sequence contains `c`.
pub fn has_char(v: &Vec<char>, c: char) -> (r: bool)
    ensures
        r == v@.contains(c),
{
    let mut i: usize = 0;
    while i < v.len()
        invariant
            i <= v.len(),
            forall|j: int| 0 <= j < i ==> v@[j] != c,
        decreases v.len() - i,
    {
        if v[i] == c {
            assert(v@[i as int] == c);
            return true;
        }
        i = i + 1;
    }
    false
}

/// Whether `c` has the Unicode `White_Space` property.
pub fn is_unicode_white_space(c: char) -> (r: bool)
    ensures
        r == is_white_space(c),
{
    let n: u32 = c as u32;
    (0x09 <= n && n <= 0x0d) || n == 0x20 || n == 0x85 || n == 0xa0 || n == 0x1680 || (0x2000
        <= n && n <= 0x200a) || n == 0x2028 || n == 0x2029 || n == 0x202f || n == 0x205f || n
        == 0x3000
}

fn is_forbidden_char(c: char) -> (r: bool)
    ensures
        r == is_forbidden_text_char(c),
{
    let n: u32 = c as u32;
    n <= 0x1f || (0x7f <= n && n <= 0x9f) || c == '\u{0085}' || c == '\u{2028}' || c == '\u{2029}'
}

/// Whether a character sequence contains a control character or a line separator.
pub fn has_forbidden_char(v: &Vec<char>) -> (r: bool)
    ensures
        r == has_forbidden_text_char(v@),
{
    let mut i: usize = 0;
    while i < v.len()
        invariant
            i <= v.len(),
            forall|j: int| 0 <= j < i ==> !is_forbidden_text_char(#[trigger] v@[j]),
        decreases v.len() - i,
    {
        if is_forbidden_char(v[i]) {
            return true;
        }
        i = i + 1;
    }
    false
}

/// Whether a character sequence starts or ends with white space.
pub fn has_surrounding_space(v: &Vec<char>) -> (r: bool)
    ensures
        r == has_surrounding_white_space(v@),
{
    v.len() > 0 && (is_unicode_white_space(v[0]) || is_unicode_white_space(v[v.len() - 1]))
}

/// Whether `value` contains a Unicode control character or a line separator.
pub fn contains_control_or_line_separator(value: &str) -> (r: bool)
    ensures
        r == has_forbidden_text_char(value@),
{
    let v = chars_of(value);
    has_forbidden_char(&v)
}

/// Check a human-facing display name.
pub fn validate_display_name(value: &str) -> (r: Result<(), String>)
    ensures
        r is Ok <==> display_name_problem(value@) is None,
        r matches Err(e) ==> display_name_problem(value@) == Some(e@),
{
    let v = chars_of(value);
    if v.len() == 0 {
        return Err("display_name must not be empty".to_owned());
    }
    if has_surrounding_space(&v) {
        return Err("display_name must not have surrounding whitespace".to_owned());
    }
    if has_forbidden_char(&v) {
        return Err(
            "display_name must not contain control characters or line separators".to_owned(),
        );
    }
    Ok(())
}

} // verus!
