//! Character-level helpers over `&str`: equality, splitting, decimal parsing,
//! lexicographic order and substring search.

use vstd::prelude::*;

verus! {

/// The characters of `s`, in order.
pub fn chars_of(s: &str) -> (v: Vec<char>)
    ensures
        v@ == s@,
{
    let n = s.unicode_len();
    let mut v: Vec<char> = Vec::new();
    let mut i: usize = 0;
    while i < n
        invariant
            n == s@.len(),
            i <= n,
            v@ == s@.subrange(0, i as int),
        decreases n - i,
    {
        let c = s.get_char(i);
        v.push(c);
        i = i + 1;
    }
    v
}

/// Whether two character sequences are equal.
pub fn chars_equal(a: &Vec<char>, b: &Vec<char>) -> (r: bool)
    ensures
        r == (a@ == b@),
{
    if a.len() != b.len() {
        return false;
    }
    let mut i: usize = 0;
    while i < a.len()
        invariant
            a@.len() == b@.len(),
            i <= a@.len(),
            forall|j: int| 0 <= j < i ==> a@[j] == b@[j],
        decreases a.len() - i,
    {
        if a[i] != b[i] {
            return false;
        }
        i = i + 1;
    }
    assert(a@ =~= b@);
    true
}

/// Whether the characters in `a` spell the string `b`.
pub fn chars_equal_str(a: &Vec<char>, b: &str) -> (r: bool)
    ensures
        r == (a@ == b@),
{
    let bv = chars_of(b);
    chars_equal(a, &bv)
}

/// Whether two strings hold the same characters.
pub fn str_equal(a: &str, b: &str) -> (r: bool)
    ensures
        r == (a@ == b@),
{
    let av = chars_of(a);
    chars_equal_str(&av, b)
}


// ---------------------------------------------------------------------------
// Splitting
// ---------------------------------------------------------------------------

/// The pieces of `s` between occurrences of `sep`, as `str::split` yields them:
/// an empty input gives one empty piece, and a separator at either end gives
/// an empty piece there.
pub open spec fn split_on(s: Seq<char>, sep: char) -> Seq<Seq<char>>
    decreases s.len(),
{
    if s.len() == 0 {
        seq![Seq::<char>::empty()]
    } else {
        let p = split_on(s.drop_last(), sep);
        if s.last() == sep {
            p.push(Seq::<char>::empty())
        } else {
            p.update(p.len() - 1, p.last().push(s.last()))
        }
    }
}

/// Splitting always yields at least one piece.
pub proof fn lemma_split_nonempty(s: Seq<char>, sep: char)
    ensures
        split_on(s, sep).len() >= 1,
    decreases s.len(),
{
    if s.len() > 0 {
        lemma_split_nonempty(s.drop_last(), sep);
    }
}

/// A text without the separator is a single piece.
pub proof fn lemma_split_without_sep(s: Seq<char>, sep: char)
    requires
        !s.contains(sep),
    ensures
        split_on(s, sep) == seq![s],
    decreases s.len(),
{
    if s.len() > 0 {
        assert(!s.drop_last().contains(sep)) by {
            if s.drop_last().contains(sep) {
                let i = choose|i: int| 0 <= i < s.drop_last().len() && s.drop_last()[i] == sep;
                assert(s[i] == sep);
            }
        }
        lemma_split_without_sep(s.drop_last(), sep);
        assert(s.last() != sep) by {
            assert(s[s.len() - 1] == s.last());
        }
        assert(s.drop_last().push(s.last()) =~= s);
        assert(seq![s.drop_last()].update(0, s.drop_last().push(s.last())) =~= seq![s]);
    } else {
        assert(s =~= Seq::<char>::empty());
    }
}

/// Splitting at a separator placed between two texts splits each text apart.
pub proof fn lemma_split_concat(s: Seq<char>, t: Seq<char>, sep: char)
    ensures
        split_on(s + seq![sep] + t, sep) == split_on(s, sep) + split_on(t, sep),
    decreases t.len(),
{
    lemma_split_nonempty(s, sep);
    if t.len() == 0 {
        assert(s + seq![sep] + t =~= s.push(sep));
        assert((s.push(sep)).drop_last() =~= s);
        assert(split_on(s, sep).push(Seq::<char>::empty()) =~= split_on(s, sep) + seq![Seq::<char>::empty()]);
    } else {
        let u = s + seq![sep] + t;
        assert(u.drop_last() =~= s + seq![sep] + t.drop_last());
        assert(u.last() == t.last());
        lemma_split_concat(s, t.drop_last(), sep);
        lemma_split_nonempty(t.drop_last(), sep);
        let a = split_on(s, sep);
        let b = split_on(t.drop_last(), sep);
        if t.last() == sep {
            assert((a + b).push(Seq::<char>::empty()) =~= a + b.push(Seq::<char>::empty()));
        } else {
            assert((a + b).update((a + b).len() - 1, (a + b).last().push(t.last())) =~= a + b.update(
                b.len() - 1,
                b.last().push(t.last()),
            ));
        }
    }
}

/// The views of a vector of character vectors.
pub open spec fn pieces_view(v: Seq<Vec<char>>) -> Seq<Seq<char>> {
    v.map_values(|p: Vec<char>| p@)
}

/// `str::split` with a single-character separator, over characters.
pub fn split_chars(s: &Vec<char>, sep: char) -> (parts: Vec<Vec<char>>)
    ensures
        pieces_view(parts@) == split_on(s@, sep),
        parts@.len() >= 1,
{
    let mut parts: Vec<Vec<char>> = Vec::new();
    let mut cur: Vec<char> = Vec::new();
    let mut i: usize = 0;
    assert(s@.subrange(0, 0) =~= Seq::<char>::empty());
    assert(pieces_view(parts@).push(cur@) =~= split_on(s@.subrange(0, 0), sep));
    while i < s.len()
        invariant
            i <= s@.len(),
            pieces_view(parts@).push(cur@) == split_on(s@.subrange(0, i as int), sep),
        decreases s.len() - i,
    {
        let c = s[i];
        let ghost pre = s@.subrange(0, i as int);
        let ghost post = s@.subrange(0, i + 1);
        assert(post.drop_last() =~= pre);
        assert(post.last() == c);
        proof {
            lemma_split_nonempty(pre, sep);
        }
        if c == sep {
            let done = cur;
            parts.push(done);
            cur = Vec::new();
            assert(pieces_view(parts@).push(cur@) =~= split_on(pre, sep).push(Seq::<char>::empty()));
        } else {
            let ghost old_cur = cur@;
            cur.push(c);
            assert(pieces_view(parts@).push(cur@) =~= split_on(pre, sep).update(
                split_on(pre, sep).len() - 1,
                split_on(pre, sep).last().push(c),
            ));
        }
        i = i + 1;
    }
    assert(s@.subrange(0, s@.len() as int) =~= s@);
    parts.push(cur);
    parts
}

// ---------------------------------------------------------------------------
// Decimal integers, as `str::parse` reads them
// ---------------------------------------------------------------------------

/// An ASCII decimal digit.
pub open spec fn is_digit(c: char) -> bool {
    ('0' as int) <= (c as int) <= ('9' as int)
}

/// Every character is a decimal digit.
pub open spec fn all_digits(s: Seq<char>) -> bool {
    forall|i: int| 0 <= i < s.len() ==> is_digit(#[trigger] s[i])
}

/// The value of a string of decimal digits (0 for the empty string).
pub open spec fn decimal_value(s: Seq<char>) -> int
    decreases s.len(),
{
    if s.len() == 0 {
        0
    } else {
        decimal_value(s.drop_last()) * 10 + ((s.last() as int) - ('0' as int))
    }
}

/// A leading `+` or `-`.
pub open spec fn is_sign(c: char) -> bool {
    c == '+' || c == '-'
}

/// What `s.parse::<i64>()` gives: an optional sign, then at least one decimal
/// digit and nothing else, the value in range.
pub open spec fn parsed_i64(s: Seq<char>) -> Option<int> {
    if s.len() == 0 || (is_sign(s[0]) && s.len() == 1) {
        None
    } else {
        let ds = if is_sign(s[0]) { s.drop_first() } else { s };
        let v = if s[0] == '-' { -decimal_value(ds) } else { decimal_value(ds) };
        if all_digits(ds) && i64::MIN <= v <= i64::MAX {
            Some(v)
        } else {
            None
        }
    }
}

/// What `s.parse::<u32>()` gives: an optional `+`, then at least one decimal
/// digit and nothing else, the value in range.
pub open spec fn parsed_u32(s: Seq<char>) -> Option<int> {
    if s.len() == 0 || (is_sign(s[0]) && s.len() == 1) {
        None
    } else {
        let ds = if s[0] == '+' { s.drop_first() } else { s };
        let v = decimal_value(ds);
        if all_digits(ds) && v <= u32::MAX {
            Some(v)
        } else {
            None
        }
    }
}

/// A value that `parse::<u32>` reads is not negative.
pub proof fn lemma_parsed_u32_nonneg(s: Seq<char>)
    ensures
        parsed_u32(s) matches Some(v) ==> v >= 0,
{
    if s.len() > 0 && !(is_sign(s[0]) && s.len() == 1) {
        let ds = if s[0] == '+' { s.drop_first() } else { s };
        if all_digits(ds) {
            lemma_decimal_nonneg(ds);
        }
    }
}

proof fn lemma_decimal_nonneg(s: Seq<char>)
    requires
        all_digits(s),
    ensures
        decimal_value(s) >= 0,
    decreases s.len(),
{
    if s.len() > 0 {
        assert(is_digit(s[s.len() - 1]));
        lemma_decimal_nonneg(s.drop_last());
    }
}

/// The value of the digits of `s` from `from` on, capped just above `cap`:
/// `None` when a character there is not a digit.
fn capped_digits(s: &Vec<char>, from: usize, cap: u64) -> (r: Option<u64>)
    requires
        from <= s@.len(),
        9 <= cap < u64::MAX,
    ensures
        r is Some <==> all_digits(s@.skip(from as int)),
        r matches Some(v) ==> (v <= cap ==> v == decimal_value(s@.skip(from as int))),
        r matches Some(v) ==> (v > cap ==> decimal_value(s@.skip(from as int)) > cap),
{
    let mut acc: u64 = 0;
    let mut i: usize = from;
    assert(s@.subrange(from as int, from as int) =~= Seq::<char>::empty());
    while i < s.len()
        invariant
            from <= i <= s@.len(),
            9 <= cap < u64::MAX,
            all_digits(s@.subrange(from as int, i as int)),
            acc <= cap ==> acc == decimal_value(s@.subrange(from as int, i as int)),
            acc > cap ==> acc == cap + 1 && decimal_value(s@.subrange(from as int, i as int)) > cap,
        decreases s.len() - i,
    {
        let c = s[i];
        let ghost pre = s@.subrange(from as int, i as int);
        let ghost post = s@.subrange(from as int, i + 1);
        assert(post.drop_last() =~= pre);
        if !('0' <= c && c <= '9') {
            assert(s@.skip(from as int)[i - from] == c);
            return None;
        }
        assert(all_digits(post));
        let d: u64 = (c as u64) - ('0' as u64);
        if acc <= cap {
            if acc > (cap - d) / 10 {
                proof {
                    lemma_decimal_nonneg(pre);
                    assert(acc * 10 + d > cap) by (nonlinear_arith)
                        requires acc > (cap - d) / 10, d <= 9, 9 <= cap;
                }
                acc = cap + 1;
            } else {
                proof {
                    assert(acc * 10 + d <= cap) by (nonlinear_arith)
                        requires acc <= (cap - d) / 10, d <= 9, 9 <= cap;
                }
                acc = acc * 10 + d;
            }
        } else {
            proof {
                lemma_decimal_nonneg(pre);
                assert(decimal_value(pre) * 10 + d > cap) by (nonlinear_arith)
                    requires decimal_value(pre) > cap, cap >= 0, d >= 0;
            }
        }
        i = i + 1;
    }
    assert(s@.subrange(from as int, s@.len() as int) =~= s@.skip(from as int));
    Some(acc)
}

/// `s.parse::<i64>()` over characters.
pub fn parse_i64(s: &Vec<char>) -> (r: Option<i64>)
    ensures
        parsed_i64(s@) == (match r {
            Some(v) => Some(v as int),
            None => None::<int>,
        }),
{
    let n = s.len();
    if n == 0 {
        return None;
    }
    let c0 = s[0];
    let signed = c0 == '+' || c0 == '-';
    if signed && n == 1 {
        return None;
    }
    let from: usize = if signed { 1 } else { 0 };
    assert(s@.skip(from as int) =~= (if is_sign(s@[0]) { s@.drop_first() } else { s@ }));
    match capped_digits(s, from, 9223372036854775808u64) {
        None => None,
        Some(v) => {
            if c0 == '-' {
                if v <= 9223372036854775808u64 {
                    let w: i128 = -(v as i128);
                    Some(w as i64)
                } else {
                    None
                }
            } else {
                if v <= 9223372036854775807u64 {
                    Some(v as i64)
                } else {
                    None
                }
            }
        },
    }
}

/// `s.parse::<u32>()` over characters.
pub fn parse_u32(s: &Vec<char>) -> (r: Option<u32>)
    ensures
        parsed_u32(s@) == (match r {
            Some(v) => Some(v as int),
            None => None::<int>,
        }),
{
    let n = s.len();
    if n == 0 {
        return None;
    }
    let c0 = s[0];
    if (c0 == '+' || c0 == '-') && n == 1 {
        return None;
    }
    let from: usize = if c0 == '+' { 1 } else { 0 };
    assert(s@.skip(from as int) =~= (if s@[0] == '+' { s@.drop_first() } else { s@ }));
    match capped_digits(s, from, 4294967295u64) {
        None => None,
        Some(v) => {
            if v <= 4294967295u64 {
                Some(v as u32)
            } else {
                None
            }
        },
    }
}


// ---------------------------------------------------------------------------
// Lexicographic order, as `String`'s `<` orders (UTF-8 byte order is
// code-point order)
// ---------------------------------------------------------------------------

/// `a` comes strictly before `b` in lexicographic order of characters.
pub open spec fn chars_less(a: Seq<char>, b: Seq<char>) -> bool
    decreases a.len(),
{
    if a.len() == 0 {
        b.len() > 0
    } else if b.len() == 0 {
        false
    } else if a[0] != b[0] {
        (a[0] as u32) < (b[0] as u32)
    } else {
        chars_less(a.drop_first(), b.drop_first())
    }
}

/// No sequence comes before itself.
pub proof fn lemma_chars_less_irreflexive(a: Seq<char>)
    ensures
        !chars_less(a, a),
    decreases a.len(),
{
    if a.len() > 0 {
        lemma_chars_less_irreflexive(a.drop_first());
    }
}

/// Of two different sequences, one comes before the other.
pub proof fn lemma_chars_less_total(a: Seq<char>, b: Seq<char>)
    ensures
        a == b || chars_less(a, b) || chars_less(b, a),
    decreases a.len(),
{
    if a.len() > 0 && b.len() > 0 && a[0] != b[0] {
        vstd::utf8::char_u32_cast(a[0], a[0] as u32);
        vstd::utf8::char_u32_cast(b[0], b[0] as u32);
    }
    if a.len() > 0 && b.len() > 0 && a[0] == b[0] {
        lemma_chars_less_total(a.drop_first(), b.drop_first());
        if a.drop_first() == b.drop_first() {
            assert(a =~= seq![a[0]] + a.drop_first());
            assert(b =~= seq![b[0]] + b.drop_first());
        }
    } else if a.len() == 0 && b.len() == 0 {
        assert(a =~= b);
    }
}

/// The order is transitive.
pub proof fn lemma_chars_less_transitive(a: Seq<char>, b: Seq<char>, c: Seq<char>)
    requires
        chars_less(a, b),
        chars_less(b, c),
    ensures
        chars_less(a, c),
    decreases a.len(),
{
    if a.len() > 0 && b.len() > 0 && c.len() > 0 && a[0] == b[0] && b[0] == c[0] {
        lemma_chars_less_transitive(a.drop_first(), b.drop_first(), c.drop_first());
    }
}

/// The order is asymmetric.
pub proof fn lemma_chars_less_asymmetric(a: Seq<char>, b: Seq<char>)
    requires
        chars_less(a, b),
    ensures
        !chars_less(b, a),
{
    if chars_less(b, a) {
        lemma_chars_less_transitive(a, b, a);
        lemma_chars_less_irreflexive(a);
    }
}

/// Whether `a` comes strictly before `b`, as `a < b` on strings.
pub fn str_less(a: &str, b: &str) -> (r: bool)
    ensures
        r == chars_less(a@, b@),
{
    let av = chars_of(a);
    let bv = chars_of(b);
    let mut i: usize = 0;
    assert(av@.skip(0) =~= av@);
    assert(bv@.skip(0) =~= bv@);
    while i < av.len() && i < bv.len()
        invariant
            i <= av@.len(),
            i <= bv@.len(),
            av@ == a@,
            bv@ == b@,
            chars_less(av@, bv@) == chars_less(av@.skip(i as int), bv@.skip(i as int)),
        decreases av.len() - i,
    {
        if av[i] != bv[i] {
            assert(av@.skip(i as int)[0] == av@[i as int]);
            assert(bv@.skip(i as int)[0] == bv@[i as int]);
            let x: u32 = av[i] as u32;
            let y: u32 = bv[i] as u32;
            return x < y;
        }
        assert(av@.skip(i as int).drop_first() =~= av@.skip(i + 1));
        assert(bv@.skip(i as int).drop_first() =~= bv@.skip(i + 1));
        i = i + 1;
    }
    i < bv.len()
}

// ---------------------------------------------------------------------------
// Substring search
// ---------------------------------------------------------------------------

/// `needle` occurs in `hay` starting at position `i`.
pub open spec fn occurs_at(hay: Seq<char>, needle: Seq<char>, i: int) -> bool {
    0 <= i && i + needle.len() <= hay.len() && hay.subrange(i, i + needle.len()) == needle
}

/// `needle` occurs somewhere in `hay`, as `str::contains` with a string pattern.
pub open spec fn contains_chars(hay: Seq<char>, needle: Seq<char>) -> bool {
    exists|i: int| occurs_at(hay, needle, i)
}

/// The empty string occurs in every string.
pub proof fn lemma_contains_empty(hay: Seq<char>)
    ensures
        contains_chars(hay, Seq::<char>::empty()),
{
    assert(hay.subrange(0, 0) =~= Seq::<char>::empty());
    assert(occurs_at(hay, Seq::<char>::empty(), 0));
}

/// Whether `needle` occurs at position `i` of `hay`.
fn occurs_at_exec(hay: &Vec<char>, needle: &Vec<char>, i: usize) -> (r: bool)
    requires
        i + needle@.len() <= hay@.len(),
    ensures
        r == occurs_at(hay@, needle@, i as int),
{
    let hl = hay.len();
    let mut j: usize = 0;
    while j < needle.len()
        invariant
            i + needle@.len() <= hay@.len(),
            hay@.len() <= usize::MAX,
            j <= needle@.len(),
            forall|k: int| 0 <= k < j ==> hay@[i + k] == needle@[k],
        decreases needle.len() - j,
    {
        if hay[i + j] != needle[j] {
            assert(hay@.subrange(i as int, i + needle@.len())[j as int] != needle@[j as int]);
            return false;
        }
        j = j + 1;
    }
    assert(hay@.subrange(i as int, i + needle@.len()) =~= needle@);
    true
}

/// Whether `needle` occurs in `hay`.
pub fn contains_exec(hay: &Vec<char>, needle: &Vec<char>) -> (r: bool)
    ensures
        r == contains_chars(hay@, needle@),
{
    if needle.len() > hay.len() {
        return false;
    }
    if needle.len() == 0 {
        proof {
            lemma_contains_empty(hay@);
            assert(needle@ =~= Seq::<char>::empty());
        }
        return true;
    }
    let last = hay.len() - needle.len();
    let mut i: usize = 0;
    while i <= last
        invariant
            last + needle@.len() == hay@.len(),
            needle@.len() >= 1,
            hay@.len() <= usize::MAX,
            i <= last + 1,
            forall|k: int| 0 <= k < i ==> !occurs_at(hay@, needle@, k),
        decreases last + 1 - i,
    {
        if occurs_at_exec(hay, needle, i) {
            return true;
        }
        i = i + 1;
    }
    false
}


/// A nonempty run of digits reads as its decimal value, as `i64` and (within
/// range) as `u32`; a leading `+` reads the same, and a leading `-` negates
/// the value as `i64` and is refused as `u32`.
pub proof fn law_parse_digits(ds: Seq<char>)
    requires
        ds.len() > 0,
        all_digits(ds),
    ensures
        decimal_value(ds) <= i64::MAX ==> parsed_i64(ds) == Some(decimal_value(ds)),
        decimal_value(ds) <= i64::MAX ==> parsed_i64(seq!['+'] + ds) == Some(decimal_value(ds)),
        decimal_value(ds) <= i64::MAX + 1 ==> parsed_i64(seq!['-'] + ds) == Some(-decimal_value(ds)),
        decimal_value(ds) > i64::MAX + 1 ==> parsed_i64(seq!['-'] + ds) is None,
        decimal_value(ds) > i64::MAX ==> parsed_i64(ds) is None,
        decimal_value(ds) <= u32::MAX ==> parsed_u32(ds) == Some(decimal_value(ds)),
        decimal_value(ds) <= u32::MAX ==> parsed_u32(seq!['+'] + ds) == Some(decimal_value(ds)),
        decimal_value(ds) > u32::MAX ==> parsed_u32(ds) is None,
        parsed_u32(seq!['-'] + ds) is None,
{
    lemma_decimal_nonneg(ds);
    assert(is_digit(ds[0]));
    assert((seq!['+'] + ds).drop_first() =~= ds);
    assert((seq!['-'] + ds).drop_first() =~= ds);
    let m = seq!['-'] + ds;
    assert(m[0] == '-');
    assert(!is_digit(m[0]));
}

/// Text that is empty, a lone sign, or holds a character that is not a digit
/// after the sign reads as no number.
pub proof fn law_parse_refuses(s: Seq<char>, i: int)
    requires
        1 <= i < s.len(),
        !is_digit(s[i]),
    ensures
        parsed_i64(s) is None,
        parsed_u32(s) is None,
        parsed_i64(Seq::<char>::empty()) is None,
        parsed_u32(Seq::<char>::empty()) is None,
        parsed_i64(seq!['+']) is None && parsed_i64(seq!['-']) is None,
        parsed_u32(seq!['+']) is None && parsed_u32(seq!['-']) is None,
{
    if is_sign(s[0]) {
        assert(s.drop_first()[i - 1] == s[i]);
    }
}

/// What the order means: a proper prefix comes first, and otherwise the first
/// position where two texts differ decides, by the characters' code points.
pub proof fn law_chars_less_meaning(a: Seq<char>, b: Seq<char>, i: int)
    requires
        0 <= i <= a.len(),
        i <= b.len(),
        a.subrange(0, i) == b.subrange(0, i),
    ensures
        i == a.len() && i < b.len() ==> chars_less(a, b),
        i == b.len() ==> !chars_less(a, b),
        i < a.len() && i < b.len() && a[i] != b[i] ==> (chars_less(a, b) <==> (a[i] as u32) < (b[i] as u32)),
    decreases i,
{
    if i > 0 {
        assert(a[0] == a.subrange(0, i)[0]);
        assert(b[0] == b.subrange(0, i)[0]);
        assert(a.drop_first().subrange(0, i - 1) =~= a.subrange(0, i).drop_first());
        assert(b.drop_first().subrange(0, i - 1) =~= b.subrange(0, i).drop_first());
        law_chars_less_meaning(a.drop_first(), b.drop_first(), i - 1);
    }
}
} // verus!
