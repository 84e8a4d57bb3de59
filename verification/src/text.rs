//! Text helpers on character sequences: conversion between `str` and
//! character vectors, decimal numbers, whitespace trimming and splitting.

use vstd::prelude::*;

verus! {

broadcast use vstd::string::group_string_axioms;

/// The characters of `s`, in order.
pub fn str_chars(s: &str) -> (r: Vec<char>)
    ensures
        r@ == s@,
{
    let mut v: Vec<char> = Vec::new();
    for c in it: s.chars()
        invariant
            v@ == it.seq().take(it.index() as int),
    {
        v.push(c);
    }
    v
}


/// Append one character with `String::push`.
#[verifier::external_body]
pub(crate) fn push_char(s: &mut String, c: char)
    ensures
        final(s)@ == old(s)@.push(c),
{
    s.push(c);
}

/// A `String` holding the given characters.
pub fn string_of_chars(v: &[char]) -> (r: String)
    ensures
        r@ == v@,
{
    let mut s = String::new();
    let mut i: usize = 0;
    while i < v.len()
        invariant
            0 <= i <= v.len(),
            s@ == v@.take(i as int),
        decreases v.len() - i,
    {
        push_char(&mut s, v[i]);
        proof {
            assert(v@.take(i + 1) =~= v@.take(i as int).push(v@[i as int]));
        }
        i = i + 1;
    }
    proof {
        assert(v@.take(v@.len() as int) =~= v@);
    }
    s
}

/// Append the characters of `t` to `s`.
pub fn append_chars(s: &mut String, t: &[char])
    ensures
        final(s)@ == old(s)@ + t@,
{
    let mut i: usize = 0;
    while i < t.len()
        invariant
            0 <= i <= t.len(),
            s@ == old(s)@ + t@.take(i as int),
        decreases t.len() - i,
    {
        push_char(s, t[i]);
        proof {
            assert(t@.take(i + 1) =~= t@.take(i as int).push(t@[i as int]));
        }
        i = i + 1;
    }
    proof {
        assert(t@.take(t@.len() as int) =~= t@);
    }
}

/// The decimal digit character for a value below ten.
pub open spec fn digit_char(d: int) -> char {
    (d + '0' as int) as char
}

/// The decimal digits of a natural number, most significant first, without
/// leading zeros (zero itself is "0").
pub open spec fn decimal_digits(n: nat) -> Seq<char>
    decreases n,
{
    if n < 10 {
        seq![digit_char(n as int)]
    } else {
        decimal_digits(n / 10).push(digit_char((n % 10) as int))
    }
}

/// The decimal text of an integer, as Rust's `Display` writes it: a minus
/// sign for negative numbers, then the digits of the magnitude.
pub open spec fn decimal_text(n: int) -> Seq<char> {
    if n < 0 {
        seq!['-'] + decimal_digits((-n) as nat)
    } else {
        decimal_digits(n as nat)
    }
}

/// Append the decimal digits of `n`.
pub fn push_u64_decimal(s: &mut String, n: u64)
    ensures
        final(s)@ == old(s)@ + decimal_digits(n as nat),
    decreases n,
{
    if n >= 10 {
        push_u64_decimal(s, n / 10);
    }
    let d: u64 = n % 10;
    let c: char = if d == 0 { '0' } else if d == 1 { '1' } else if d == 2 { '2' } else if d == 3 {
        '3'
    } else if d == 4 { '4' } else if d == 5 { '5' } else if d == 6 { '6' } else if d == 7 {
        '7'
    } else if d == 8 { '8' } else { '9' };
    assert(c == digit_char(d as int));
    push_char(s, c);
    proof {
        if n >= 10 {
            assert(decimal_digits(n as nat) == decimal_digits((n / 10) as nat).push(c));
        } else {
            assert(decimal_digits(n as nat) == seq![c]);
        }
    }
}

/// Append the decimal text of `n`.
pub fn push_i64_decimal(s: &mut String, n: i64)
    ensures
        final(s)@ == old(s)@ + decimal_text(n as int),
{
    if n < 0 {
        push_char(s, '-');
        let mag: u64 = if n == i64::MIN { 9223372036854775808u64 } else { (-n) as u64 };
        push_u64_decimal(s, mag);
        assert(old(s)@.push('-') + decimal_digits(mag as nat) =~= old(s)@ + (seq!['-']
            + decimal_digits(mag as nat)));
    } else {
        push_u64_decimal(s, n as u64);
    }
}

/// The decimal text of `n`.
pub fn i64_to_string(n: i64) -> (r: String)
    ensures
        r@ == decimal_text(n as int),
{
    let mut s = String::new();
    push_i64_decimal(&mut s, n);
    assert(Seq::<char>::empty() + decimal_text(n as int) =~= decimal_text(n as int));
    s
}

/// The decimal text of `n`.
pub fn u64_to_string(n: u64) -> (r: String)
    ensures
        r@ == decimal_digits(n as nat),
{
    let mut s = String::new();
    push_u64_decimal(&mut s, n);
    assert(Seq::<char>::empty() + decimal_digits(n as nat) =~= decimal_digits(n as nat));
    s
}


/// Whether `p` is a prefix of `s`.
pub open spec fn is_prefix(p: Seq<char>, s: Seq<char>) -> bool {
    p.len() <= s.len() && s.take(p.len() as int) == p
}

/// Whether `p` is a prefix of `s`.
pub fn starts_with(s: &[char], p: &[char]) -> (r: bool)
    ensures
        r == is_prefix(p@, s@),
{
    if p.len() > s.len() {
        return false;
    }
    let mut i: usize = 0;
    while i < p.len()
        invariant
            0 <= i <= p.len() <= s.len(),
            forall|j: int| 0 <= j < i ==> s@[j] == p@[j],
        decreases p.len() - i,
    {
        if s[i] != p[i] {
            assert(s@.take(p.len() as int)[i as int] != p@[i as int]);
            return false;
        }
        i = i + 1;
    }
    assert(s@.take(p.len() as int) =~= p@);
    true
}

/// Whether two character sequences are equal.
pub fn chars_eq(a: &[char], b: &[char]) -> (r: bool)
    ensures
        r == (a@ == b@),
{
    if a.len() != b.len() {
        return false;
    }
    let r = starts_with(a, b);
    proof {
        assert(a@.take(b.len() as int) =~= a@);
    }
    r
}

/// The characters `s[from..to]`.
pub fn slice_chars(s: &[char], from: usize, to: usize) -> (r: Vec<char>)
    requires
        from <= to <= s.len(),
    ensures
        r@ == s@.subrange(from as int, to as int),
{
    let mut v: Vec<char> = Vec::new();
    let mut i: usize = from;
    while i < to
        invariant
            from <= i <= to <= s.len(),
            v@ == s@.subrange(from as int, i as int),
        decreases to - i,
    {
        v.push(s[i]);
        proof {
            assert(s@.subrange(from as int, i + 1) =~= s@.subrange(from as int, i as int).push(
                s@[i as int],
            ));
        }
        i = i + 1;
    }
    v
}

/// Whether `c` is an ASCII decimal digit.
pub open spec fn is_ascii_digit(c: char) -> bool {
    '0' <= c && c <= '9'
}

/// Whether every character of `d` is an ASCII decimal digit.
pub open spec fn all_ascii_digits(d: Seq<char>) -> bool {
    forall|i: int| 0 <= i < d.len() ==> is_ascii_digit(#[trigger] d[i])
}

/// The value of a string of decimal digits (zero for the empty string).
pub open spec fn digits_value(d: Seq<char>) -> int
    decreases d.len(),
{
    if d.len() == 0 {
        0
    } else {
        digits_value(d.drop_last()) * 10 + (d.last() as int - '0' as int)
    }
}

/// What `isize::from_str` returns: an optional `+` or `-` sign followed by
/// one or more ASCII digits whose value fits in an `isize`.
pub open spec fn parse_isize_spec(s: Seq<char>) -> Option<int> {
    let signed = s.len() > 0 && (s[0] == '-' || s[0] == '+');
    let body = if signed {
        s.drop_first()
    } else {
        s
    };
    let v = if s.len() > 0 && s[0] == '-' {
        -digits_value(body)
    } else {
        digits_value(body)
    };
    if body.len() == 0 || !all_ascii_digits(body) {
        None
    } else if isize::MIN <= v <= isize::MAX {
        Some(v)
    } else {
        None
    }
}

proof fn lemma_digits_value_nonneg(d: Seq<char>)
    requires
        all_ascii_digits(d),
    ensures
        digits_value(d) >= 0,
    decreases d.len(),
{
    if d.len() > 0 {
        assert(all_ascii_digits(d.drop_last())) by {
            assert forall|i: int| 0 <= i < d.drop_last().len() implies is_ascii_digit(
                #[trigger] d.drop_last()[i],
            ) by {
                assert(d.drop_last()[i] == d[i]);
            }
        }
        lemma_digits_value_nonneg(d.drop_last());
        assert(is_ascii_digit(d[d.len() - 1]));
    }
}

/// The decimal digits of a number are digits, and they read back as the
/// number.
proof fn lemma_decimal_digits_value(m: nat)
    ensures
        decimal_digits(m).len() > 0,
        all_ascii_digits(decimal_digits(m)),
        digits_value(decimal_digits(m)) == m,
    decreases m,
{
    let d = decimal_digits(m);
    if m < 10 {
        assert(d.drop_last() =~= Seq::<char>::empty());
        assert(digit_char(m as int) as int == m + '0' as int);
        assert(digits_value(d) == digits_value(d.drop_last()) * 10 + (d.last() as int - '0' as int));
    } else {
        lemma_decimal_digits_value(m / 10);
        assert(d.drop_last() =~= decimal_digits(m / 10));
        assert(digit_char((m % 10) as int) as int == m % 10 + '0' as int);
        assert(d.last() == digit_char((m % 10) as int));
        assert((m / 10) * 10 + m % 10 == m) by (nonlinear_arith);
        assert(digits_value(d) == digits_value(d.drop_last()) * 10 + (d.last() as int - '0' as int));
        assert forall|i: int| 0 <= i < d.len() implies is_ascii_digit(#[trigger] d[i]) by {
            if i < d.len() - 1 {
                assert(d[i] == decimal_digits(m / 10)[i]);
            }
        }
    }
}

/// The decimal text of an `isize` parses back to the same number.
pub proof fn lemma_parse_decimal_text(n: int)
    requires
        isize::MIN <= n <= isize::MAX,
    ensures
        parse_isize_spec(decimal_text(n)) == Some(n),
{
    let s = decimal_text(n);
    if n < 0 {
        lemma_decimal_digits_value((-n) as nat);
        assert(s.drop_first() =~= decimal_digits((-n) as nat));
    } else {
        lemma_decimal_digits_value(n as nat);
        assert(is_ascii_digit(s[0]));
    }
}

/// Parse a decimal `isize` the way `str::parse::<isize>` does.
pub fn parse_isize(s: &[char]) -> (r: Option<isize>)
    ensures
        r matches Some(v) ==> parse_isize_spec(s@) == Some(v as int),
        r is None ==> parse_isize_spec(s@) is None,
{
    let n: usize = s.len();
    let signed: bool = n > 0 && (s[0] == '-' || s[0] == '+');
    let negative: bool = n > 0 && s[0] == '-';
    let start: usize = if signed { 1 } else { 0 };
    let ghost body = if signed { s@.drop_first() } else { s@ };
    assert(body =~= s@.subrange(start as int, n as int));
    if start >= n {
        return None;
    }
    let bound: i128 = 9223372036854775808i128;
    let mut acc: i128 = 0;
    let mut overflow: bool = false;
    let mut i: usize = start;
    while i < n
        invariant
            start <= i <= n == s.len(),
            start == 0 || start == 1,
            start == 1 <==> signed,
            signed == (n > 0 && (s@[0] == '-' || s@[0] == '+')),
            body == s@.subrange(start as int, n as int),
            all_ascii_digits(s@.subrange(start as int, i as int)),
            !overflow ==> acc == digits_value(s@.subrange(start as int, i as int)),
            !overflow ==> 0 <= acc <= bound,
            overflow ==> digits_value(s@.subrange(start as int, i as int)) > bound,
            bound == 9223372036854775808i128,
        decreases n - i,
    {
        let c: char = s[i];
        if !('0' <= c && c <= '9') {
            assert(body[i - start] == c);
            assert(!is_ascii_digit(body[i - start]));
            assert(!all_ascii_digits(body));
            assert(parse_isize_spec(s@) is None);
            return None;
        }
        let ghost prev = s@.subrange(start as int, i as int);
        let ghost next = s@.subrange(start as int, i + 1);
        assert(next.drop_last() =~= prev);
        assert(next.last() == c);
        assert(all_ascii_digits(next)) by {
            assert forall|j: int| 0 <= j < next.len() implies is_ascii_digit(#[trigger] next[j]) by {
                if j < prev.len() {
                    assert(next[j] == prev[j]);
                }
            }
        }
        if !overflow {
            let dv: i128 = (c as u32 - '0' as u32) as i128;
            let nacc: i128 = acc * 10 + dv;
            if nacc > bound {
                overflow = true;
            } else {
                acc = nacc;
            }
        } else {
            proof {
                lemma_digits_value_nonneg(prev);
            }
        }
        i = i + 1;
    }
    assert(s@.subrange(start as int, n as int) == body);
    if overflow {
        return None;
    }
    let value: i128 = if negative { -acc } else { acc };
    if value < isize::MIN as i128 || value > isize::MAX as i128 {
        return None;
    }
    Some(value as isize)
}

/// Whether `c` has Unicode's `White_Space` property, as `char::is_whitespace`
/// decides.
pub open spec fn is_whitespace(c: char) -> bool {
    c == ' ' || ('\t' <= c && c <= '\r') || c == '\u{85}' || c == '\u{a0}' || c == '\u{1680}' || (
    '\u{2000}' <= c && c <= '\u{200a}') || c == '\u{2028}' || c == '\u{2029}' || c == '\u{202f}'
        || c == '\u{205f}' || c == '\u{3000}'
}

/// Whether `c` is white space.
pub fn char_is_whitespace(c: char) -> (r: bool)
    ensures
        r == is_whitespace(c),
{
    c == ' ' || ('\t' <= c && c <= '\r') || c == '\u{85}' || c == '\u{a0}' || c == '\u{1680}' || (
    '\u{2000}' <= c && c <= '\u{200a}') || c == '\u{2028}' || c == '\u{2029}' || c == '\u{202f}'
        || c == '\u{205f}' || c == '\u{3000}'
}

/// `s` without leading white space.
pub open spec fn trim_start_spec(s: Seq<char>) -> Seq<char>
    decreases s.len(),
{
    if s.len() > 0 && is_whitespace(s[0]) {
        trim_start_spec(s.drop_first())
    } else {
        s
    }
}

/// `s` without trailing white space.
pub open spec fn trim_end_spec(s: Seq<char>) -> Seq<char>
    decreases s.len(),
{
    if s.len() > 0 && is_whitespace(s.last()) {
        trim_end_spec(s.drop_last())
    } else {
        s
    }
}

/// `s` without leading and trailing white space, as `str::trim` gives it.
pub open spec fn trim_spec(s: Seq<char>) -> Seq<char> {
    trim_end_spec(trim_start_spec(s))
}

/// `s` without leading and trailing white space.
pub fn trim(s: &[char]) -> (r: Vec<char>)
    ensures
        r@ == trim_spec(s@),
{
    let n: usize = s.len();
    let mut i: usize = 0;
    assert(s@.subrange(0, n as int) =~= s@);
    while i < n && char_is_whitespace(s[i])
        invariant
            0 <= i <= n == s.len(),
            trim_start_spec(s@) == trim_start_spec(s@.subrange(i as int, n as int)),
        decreases n - i,
    {
        assert(s@.subrange(i as int, n as int).drop_first() =~= s@.subrange(i + 1, n as int));
        i = i + 1;
    }
    let mut j: usize = n;
    while j > i && char_is_whitespace(s[j - 1])
        invariant
            0 <= i <= j <= n == s.len(),
            trim_spec(s@) == trim_end_spec(s@.subrange(i as int, j as int)),
        decreases j,
    {
        assert(s@.subrange(i as int, j as int).drop_last() =~= s@.subrange(i as int, j - 1));
        j = j - 1;
    }
    slice_chars(s, i, j)
}

/// The pieces of `s` between occurrences of any of the characters `seps`,
/// as `str::split` yields them (empty pieces included; at least one piece).
pub open spec fn split_pieces(s: Seq<char>, seps: Seq<char>) -> Seq<Seq<char>>
    decreases s.len(),
{
    if s.len() == 0 {
        seq![Seq::<char>::empty()]
    } else {
        let prev = split_pieces(s.drop_last(), seps);
        if seps.contains(s.last()) {
            prev.push(Seq::<char>::empty())
        } else {
            prev.update(prev.len() - 1, prev.last().push(s.last()))
        }
    }
}

/// `split_pieces` always yields at least one piece.
pub proof fn lemma_split_pieces_nonempty(s: Seq<char>, seps: Seq<char>)
    ensures
        split_pieces(s, seps).len() >= 1,
    decreases s.len(),
{
    if s.len() > 0 {
        lemma_split_pieces_nonempty(s.drop_last(), seps);
    }
}

/// The views of a vector of character vectors.
pub open spec fn views(v: Seq<Vec<char>>) -> Seq<Seq<char>> {
    v.map_values(|x: Vec<char>| x@)
}

/// Whether `c` is one of `seps`.
fn is_one_of(c: char, seps: &[char]) -> (r: bool)
    ensures
        r == seps@.contains(c),
{
    let mut i: usize = 0;
    while i < seps.len()
        invariant
            0 <= i <= seps.len(),
            forall|j: int| 0 <= j < i ==> seps@[j] != c,
        decreases seps.len() - i,
    {
        if seps[i] == c {
            return true;
        }
        i = i + 1;
    }
    false
}

/// Split `s` at each occurrence of any of the characters `seps`.
pub fn split_chars(s: &[char], seps: &[char]) -> (r: Vec<Vec<char>>)
    ensures
        views(r@) == split_pieces(s@, seps@),
{
    let mut done: Vec<Vec<char>> = Vec::new();
    let mut cur: Vec<char> = Vec::new();
    let mut i: usize = 0;
    while i < s.len()
        invariant
            0 <= i <= s.len(),
            views(done@).push(cur@) == split_pieces(s@.take(i as int), seps@),
        decreases s.len() - i,
    {
        let c: char = s[i];
        let ghost t = s@.take(i + 1);
        assert(t.drop_last() =~= s@.take(i as int));
        assert(t.last() == c);
        if is_one_of(c, seps) {
            let old_cur = cur;
            cur = Vec::new();
            let ghost before = views(done@);
            done.push(old_cur);
            assert(views(done@) =~= before.push(old_cur@));
        } else {
            let ghost before = views(done@).push(cur@);
            cur.push(c);
            assert(views(done@).push(cur@) =~= before.update(before.len() - 1, before.last().push(
                c,
            )));
        }
        i = i + 1;
    }
    assert(s@.take(s@.len() as int) =~= s@);
    let ghost before = views(done@);
    done.push(cur);
    assert(views(done@) =~= before.push(cur@));
    done
}


/// A line without one trailing carriage return.
pub open spec fn strip_cr(l: Seq<char>) -> Seq<char> {
    if l.len() > 0 && l.last() == '\r' {
        l.drop_last()
    } else {
        l
    }
}

/// The lines of `s`, as `str::lines` yields them: split at each newline,
/// a carriage return just before a newline removed, and no final empty
/// line when `s` ends with a newline (or is empty).
pub open spec fn lines_spec(s: Seq<char>) -> Seq<Seq<char>> {
    let p = split_pieces(s, seq!['\n']);
    let full = p.drop_last().map_values(|l: Seq<char>| strip_cr(l));
    if p.last().len() == 0 {
        full
    } else {
        full.push(p.last())
    }
}

/// The lines of `s`.
pub fn lines(s: &[char]) -> (r: Vec<Vec<char>>)
    ensures
        views(r@) == lines_spec(s@),
{
    let seps: Vec<char> = vec!['\n'];
    assert(seps@ =~= seq!['\n']);
    let pieces = split_chars(s, seps.as_slice());
    let ghost p = split_pieces(s@, seq!['\n']);
    proof {
        lemma_split_pieces_nonempty(s@, seq!['\n']);
    }
    let n: usize = pieces.len();
    let mut result: Vec<Vec<char>> = Vec::new();
    let mut i: usize = 0;
    while i + 1 < n
        invariant
            0 <= i < n,
            n == pieces@.len(),
            views(pieces@) == p,
            views(result@) == p.take(i as int).map_values(|l: Seq<char>| strip_cr(l)),
        decreases n - i,
    {
        let piece = &pieces[i];
        assert(p[i as int] == piece@);
        let m: usize = piece.len();
        let line = if m > 0 && piece[m - 1] == '\r' {
            slice_chars(piece.as_slice(), 0, m - 1)
        } else {
            slice_chars(piece.as_slice(), 0, m)
        };
        assert(piece@.subrange(0, m as int) =~= piece@);
        assert(piece@.subrange(0, m - 1) =~= piece@.drop_last());
        let ghost before = views(result@);
        result.push(line);
        assert(views(result@) =~= before.push(line@));
        assert(p.take(i + 1).map_values(|l: Seq<char>| strip_cr(l)) =~= p.take(i as int).map_values(
            |l: Seq<char>| strip_cr(l),
        ).push(strip_cr(p[i as int])));
        i = i + 1;
    }
    assert(p.take(i as int) =~= p.drop_last());
    let last = &pieces[n - 1];
    assert(p.last() == last@);
    if last.len() > 0 {
        let ghost before = views(result@);
        result.push(slice_chars(last.as_slice(), 0, last.len()));
        assert(last@.subrange(0, last@.len() as int) =~= last@);
        assert(views(result@) =~= before.push(last@));
    }
    result
}

/// Whether `l` holds no newline.
pub open spec fn no_newline(l: Seq<char>) -> bool {
    forall|j: int| 0 <= j < l.len() ==> l[j] != '\n'
}

/// A text that follows a text whose last piece is empty (an empty text, or
/// one that ends in a separator) continues its pieces.
pub proof fn lemma_split_pieces_append(a: Seq<char>, b: Seq<char>, seps: Seq<char>)
    requires
        split_pieces(a, seps).last().len() == 0,
    ensures
        split_pieces(a + b, seps) == split_pieces(a, seps).drop_last() + split_pieces(b, seps),
    decreases b.len(),
{
    lemma_split_pieces_nonempty(a, seps);
    let pa = split_pieces(a, seps).drop_last();
    if b.len() == 0 {
        assert(a + b =~= a);
        assert(split_pieces(b, seps) == seq![Seq::<char>::empty()]);
        assert(split_pieces(a, seps).last() =~= Seq::<char>::empty());
        assert(pa + split_pieces(b, seps) =~= split_pieces(a, seps));
    } else {
        let b0 = b.drop_last();
        lemma_split_pieces_append(a, b0, seps);
        lemma_split_pieces_nonempty(b0, seps);
        assert((a + b).drop_last() =~= a + b0);
        assert((a + b).last() == b.last());
        let pb0 = split_pieces(b0, seps);
        let prev = pa + pb0;
        assert(split_pieces(a + b, seps) == if seps.contains(b.last()) {
            prev.push(Seq::<char>::empty())
        } else {
            prev.update(prev.len() - 1, prev.last().push(b.last()))
        });
        if seps.contains(b.last()) {
            assert(prev.push(Seq::<char>::empty()) =~= pa + pb0.push(Seq::<char>::empty()));
        } else {
            assert(prev.last() == pb0.last());
            assert(prev.update(prev.len() - 1, prev.last().push(b.last())) =~= pa + pb0.update(
                pb0.len() - 1,
                pb0.last().push(b.last()),
            ));
        }
    }
}

/// A text with no separator is one piece.
pub proof fn lemma_split_pieces_single(x: Seq<char>, seps: Seq<char>)
    requires
        forall|j: int| 0 <= j < x.len() ==> !seps.contains(#[trigger] x[j]),
    ensures
        split_pieces(x, seps) == seq![x],
    decreases x.len(),
{
    if x.len() > 0 {
        lemma_split_pieces_single(x.drop_last(), seps);
        assert(!seps.contains(x[x.len() - 1]));
        assert(x.drop_last().push(x.last()) =~= x);
        assert(seq![x.drop_last()].update(0, x.drop_last().push(x.last())) =~= seq![x]);
    } else {
        assert(x =~= Seq::<char>::empty());
    }
}

/// No piece holds a separator.
pub proof fn lemma_split_pieces_free(s: Seq<char>, seps: Seq<char>)
    ensures
        forall|i: int, j: int|
            0 <= i < split_pieces(s, seps).len() && 0 <= j < split_pieces(s, seps)[i].len()
                ==> !seps.contains(#[trigger] split_pieces(s, seps)[i][j]),
    decreases s.len(),
{
    if s.len() > 0 {
        lemma_split_pieces_free(s.drop_last(), seps);
        lemma_split_pieces_nonempty(s.drop_last(), seps);
    }
}

/// No line holds a newline.
pub proof fn lemma_lines_no_newline(s: Seq<char>)
    ensures
        forall|i: int| 0 <= i < lines_spec(s).len() ==> no_newline(#[trigger] lines_spec(s)[i]),
{
    let seps = seq!['\n'];
    let p = split_pieces(s, seps);
    lemma_split_pieces_free(s, seps);
    lemma_split_pieces_nonempty(s, seps);
    assert(seps.contains('\n')) by {
        assert(seps[0] == '\n');
    }
    assert forall|i: int| 0 <= i < lines_spec(s).len() implies no_newline(#[trigger] lines_spec(s)[i]) by {
        let l = p[i];
        assert forall|j: int| 0 <= j < lines_spec(s)[i].len() implies lines_spec(s)[i][j] != '\n' by {
            assert(lines_spec(s)[i][j] == l[j]);
            assert(!seps.contains(p[i][j]));
        }
    }
}

/// Lines after a text that is empty or ends in a newline follow its lines.
pub proof fn lemma_lines_append(a: Seq<char>, b: Seq<char>)
    requires
        a.len() == 0 || a.last() == '\n',
    ensures
        lines_spec(a + b) == lines_spec(a) + lines_spec(b),
{
    let seps = seq!['\n'];
    assert(seps.contains('\n')) by {
        assert(seps[0] == '\n');
    }
    if a.len() > 0 {
        assert(split_pieces(a, seps) == split_pieces(a.drop_last(), seps).push(Seq::<char>::empty()));
    }
    lemma_split_pieces_nonempty(a, seps);
    lemma_split_pieces_nonempty(b, seps);
    lemma_split_pieces_append(a, b, seps);
    let pa = split_pieces(a, seps);
    let pb = split_pieces(b, seps);
    let p = split_pieces(a + b, seps);
    let f = |l: Seq<char>| strip_cr(l);
    assert(p.last() == pb.last());
    assert(p.drop_last() =~= pa.drop_last() + pb.drop_last());
    assert((pa.drop_last() + pb.drop_last()).map_values(f) =~= pa.drop_last().map_values(f)
        + pb.drop_last().map_values(f));
    if pb.last().len() == 0 {
        assert(lines_spec(a + b) =~= lines_spec(a) + lines_spec(b));
    } else {
        assert(lines_spec(a + b) =~= lines_spec(a) + lines_spec(b));
    }
}

/// The lines of one line and a newline.
pub proof fn lemma_lines_of_line(x: Seq<char>)
    requires
        no_newline(x),
    ensures
        lines_spec(x.push('\n')) == seq![strip_cr(x)],
{
    let seps = seq!['\n'];
    assert forall|j: int| 0 <= j < x.len() implies !seps.contains(#[trigger] x[j]) by {
        if seps.contains(x[j]) {
            let k = choose|k: int| 0 <= k < seps.len() && seps[k] == x[j];
            assert(seps[k] == '\n');
        }
    }
    lemma_split_pieces_single(x, seps);
    assert(seps.contains('\n')) by {
        assert(seps[0] == '\n');
    }
    assert(x.push('\n').drop_last() =~= x);
    let p = split_pieces(x.push('\n'), seps);
    assert(p =~= seq![x, Seq::<char>::empty()]);
    assert(p.drop_last() =~= seq![x]);
    assert(lines_spec(x.push('\n')) =~= seq![strip_cr(x)]);
}

/// Lexicographic order on texts, character by character, a proper prefix
/// first. It is the order of `str` (UTF-8 preserves the order of code
/// points).
pub open spec fn text_lt(a: Seq<char>, b: Seq<char>) -> bool
    decreases a.len(),
{
    if b.len() == 0 {
        false
    } else if a.len() == 0 {
        true
    } else if a[0] != b[0] {
        (a[0] as int) < (b[0] as int)
    } else {
        text_lt(a.drop_first(), b.drop_first())
    }
}

/// The order on texts is strict and total.
pub proof fn lemma_text_lt_order(a: Seq<char>, b: Seq<char>)
    ensures
        !text_lt(a, a),
        a != b ==> text_lt(a, b) || text_lt(b, a),
        !(text_lt(a, b) && text_lt(b, a)),
    decreases a.len(),
{
    if a.len() > 0 {
        lemma_text_lt_order(a.drop_first(), a.drop_first());
        if b.len() > 0 {
            lemma_text_lt_order(a.drop_first(), b.drop_first());
            if a[0] == b[0] && a != b {
                assert(a.drop_first() != b.drop_first()) by {
                    if a.drop_first() == b.drop_first() {
                        assert(a =~= seq![a[0]] + a.drop_first());
                        assert(b =~= seq![b[0]] + b.drop_first());
                    }
                }
            }
            if a[0] != b[0] {
                assert((a[0] as int) != (b[0] as int));
            }
        }
    } else if b.len() == 0 {
        assert(a =~= b);
    }
}

/// The order on texts is transitive.
pub proof fn lemma_text_lt_transitive(a: Seq<char>, b: Seq<char>, c: Seq<char>)
    requires
        text_lt(a, b),
        text_lt(b, c),
    ensures
        text_lt(a, c),
    decreases a.len(),
{
    if a.len() > 0 && b.len() > 0 && c.len() > 0 && a[0] == b[0] && b[0] == c[0] {
        lemma_text_lt_transitive(a.drop_first(), b.drop_first(), c.drop_first());
    }
}

/// Whether `a` sorts strictly before `b`.
pub fn text_less(a: &[char], b: &[char]) -> (r: bool)
    ensures
        r == text_lt(a@, b@),
{
    let mut i: usize = 0;
    assert(a@.skip(0) =~= a@);
    assert(b@.skip(0) =~= b@);
    while i < a.len() && i < b.len() && a[i] == b[i]
        invariant
            i <= a@.len(),
            i <= b@.len(),
            text_lt(a@, b@) == text_lt(a@.skip(i as int), b@.skip(i as int)),
        decreases a@.len() - i,
    {
        assert(a@.skip(i as int).drop_first() =~= a@.skip(i + 1));
        assert(b@.skip(i as int).drop_first() =~= b@.skip(i + 1));
        i = i + 1;
    }
    if i == b.len() {
        false
    } else if i == a.len() {
        true
    } else {
        a[i] < b[i]
    }
}

/// Whether the texts are sorted strictly increasing (and so distinct).
pub open spec fn strictly_sorted(s: Seq<Seq<char>>) -> bool {
    forall|i: int, j: int| 0 <= i < j < s.len() ==> text_lt(#[trigger] s[i], #[trigger] s[j])
}

/// Insert `x` into the strictly sorted texts `v`, where it is not already.
fn insert_sorted(v: &mut Vec<String>, x: String)
    requires
        strictly_sorted(old(v)@.map_values(|t: String| t@)),
    ensures
        strictly_sorted(final(v)@.map_values(|t: String| t@)),
        final(v)@.map_values(|t: String| t@).to_set() == old(v)@.map_values(|t: String| t@).to_set().insert(x@),
{
    let ghost old_view = v@.map_values(|t: String| t@);
    let xc = str_chars(x.as_str());
    let mut i: usize = 0;
    while i < v.len()
        invariant
            i <= v@.len(),
            v@.map_values(|t: String| t@) == old_view,
            xc@ == x@,
            forall|k: int| 0 <= k < i ==> text_lt(#[trigger] old_view[k], x@),
        ensures
            i <= v@.len(),
            v@.map_values(|t: String| t@) == old_view,
            forall|k: int| 0 <= k < i ==> text_lt(#[trigger] old_view[k], x@),
            i < v@.len() ==> !text_lt(old_view[i as int], x@),
        decreases v@.len() - i,
    {
        let vc = str_chars(v[i].as_str());
        assert(old_view[i as int] == vc@);
        if !text_less(vc.as_slice(), xc.as_slice()) {
            break;
        }
        i = i + 1;
    }
    if i < v.len() {
        let vc = str_chars(v[i].as_str());
        assert(old_view[i as int] == vc@);
        if !text_less(xc.as_slice(), vc.as_slice()) {
            proof {
                lemma_text_lt_order(x@, vc@);
                assert(old_view.to_set().insert(x@) =~= old_view.to_set()) by {
                    assert(old_view.contains(x@)) by {
                        assert(old_view[i as int] == x@);
                    }
                }
            }
            return;
        }
    }
    proof {
        if i < old_view.len() {
            lemma_text_lt_order(x@, old_view[i as int]);
        }
    }
    v.insert(i, x);
    let ghost nv = v@.map_values(|t: String| t@);
    assert(nv =~= old_view.insert(i as int, x@));
    assert forall|b: int| i < b < nv.len() implies text_lt(x@, #[trigger] nv[b]) by {
        assert(nv[b] == old_view[b - 1]);
        if b - 1 > i {
            assert(text_lt(old_view[i as int], old_view[b - 1]));
            lemma_text_lt_transitive(x@, old_view[i as int], old_view[b - 1]);
        }
    }
    assert forall|a: int, b: int| 0 <= a < b < nv.len() implies text_lt(#[trigger] nv[a], #[trigger] nv[b]) by {
        if b < i {
            assert(nv[a] == old_view[a] && nv[b] == old_view[b]);
        } else if b == i {
            assert(nv[a] == old_view[a]);
        } else if a < i {
            assert(nv[a] == old_view[a]);
            assert(text_lt(x@, nv[b]));
            lemma_text_lt_transitive(nv[a], x@, nv[b]);
        } else if a == i {
            assert(text_lt(x@, nv[b]));
        } else {
            assert(nv[a] == old_view[a - 1] && nv[b] == old_view[b - 1]);
        }
    }
    assert(nv.to_set() =~= old_view.to_set().insert(x@)) by {
        assert forall|t: Seq<char>| nv.to_set().contains(t) implies old_view.to_set().insert(x@).contains(t) by {
            let k = choose|k: int| 0 <= k < nv.len() && #[trigger] nv[k] == t;
            if k < i {
                assert(old_view[k] == t);
            } else if k > i {
                assert(old_view[k - 1] == t);
            }
        }
        assert forall|t: Seq<char>| old_view.to_set().insert(x@).contains(t) implies nv.to_set().contains(t) by {
            if t == x@ {
                assert(nv[i as int] == x@);
            } else {
                let k = choose|k: int| 0 <= k < old_view.len() && #[trigger] old_view[k] == t;
                if k < i {
                    assert(nv[k] == t);
                } else {
                    assert(nv[k + 1] == t);
                }
            }
        }
    }
}

/// A copy of a list of texts.
pub fn clone_texts(v: &[String]) -> (r: Vec<String>)
    ensures
        r@ == v@,
{
    let mut r: Vec<String> = Vec::new();
    let mut i: usize = 0;
    while i < v.len()
        invariant
            i <= v@.len(),
            r@ == v@.take(i as int),
        decreases v@.len() - i,
    {
        r.push(v[i].clone());
        assert(r@ =~= v@.take(i + 1));
        i = i + 1;
    }
    assert(v@.take(i as int) =~= v@);
    r
}

/// The texts of a finite set in increasing order.
pub open spec fn sorted_set(s: Set<Seq<char>>) -> Seq<Seq<char>> {
    choose|q: Seq<Seq<char>>| strictly_sorted(q) && q.to_set() == s
}

/// Two strictly sorted sequences of texts with the same elements are the
/// same sequence.
pub proof fn lemma_strictly_sorted_unique(a: Seq<Seq<char>>, b: Seq<Seq<char>>)
    requires
        strictly_sorted(a),
        strictly_sorted(b),
        a.to_set() == b.to_set(),
    ensures
        a == b,
    decreases a.len(),
{
    if a.len() == 0 {
        if b.len() > 0 {
            assert(b.to_set().contains(b[0]));
            assert(a.to_set().contains(b[0]));
        }
        assert(a =~= b);
    } else {
        assert(a.to_set().contains(a[0]));
        assert(b.len() > 0) by {
            if b.len() == 0 {
                assert(b.to_set().contains(a[0]));
            }
        }
        assert(b.to_set().contains(b[0]));
        let j = choose|j: int| 0 <= j < b.len() && b[j] == a[0];
        let i = choose|i: int| 0 <= i < a.len() && a[i] == b[0];
        assert(a[0] == b[0]) by {
            lemma_text_lt_order(a[0], b[0]);
            if j > 0 {
                assert(text_lt(b[0], b[j]));
                if i > 0 {
                    assert(text_lt(a[0], a[i]));
                }
            }
        }
        let a1 = a.drop_first();
        let b1 = b.drop_first();
        assert(strictly_sorted(a1)) by {
            assert forall|x: int, y: int| 0 <= x < y < a1.len() implies text_lt(#[trigger] a1[x], #[trigger] a1[y]) by {
                assert(a1[x] == a[x + 1] && a1[y] == a[y + 1]);
            }
        }
        assert(strictly_sorted(b1)) by {
            assert forall|x: int, y: int| 0 <= x < y < b1.len() implies text_lt(#[trigger] b1[x], #[trigger] b1[y]) by {
                assert(b1[x] == b[x + 1] && b1[y] == b[y + 1]);
            }
        }
        assert(a1.to_set() =~= b1.to_set()) by {
            assert forall|t: Seq<char>| a1.to_set().contains(t) implies b1.to_set().contains(t) by {
                let x = choose|x: int| 0 <= x < a1.len() && a1[x] == t;
                assert(a[x + 1] == t);
                assert(text_lt(a[0], a[x + 1]));
                lemma_text_lt_order(t, t);
                assert(b.to_set().contains(t));
                let y = choose|y: int| 0 <= y < b.len() && b[y] == t;
                assert(y != 0);
                assert(b1[y - 1] == t);
            }
            assert forall|t: Seq<char>| b1.to_set().contains(t) implies a1.to_set().contains(t) by {
                let x = choose|x: int| 0 <= x < b1.len() && b1[x] == t;
                assert(b[x + 1] == t);
                assert(text_lt(b[0], b[x + 1]));
                lemma_text_lt_order(t, t);
                assert(a.to_set().contains(t));
                let y = choose|y: int| 0 <= y < a.len() && a[y] == t;
                assert(y != 0);
                assert(a1[y - 1] == t);
            }
        }
        lemma_strictly_sorted_unique(a1, b1);
        assert(a =~= b) by {
            assert forall|k: int| 0 <= k < a.len() implies a[k] == b[k] by {
                if k > 0 {
                    assert(a[k] == a1[k - 1]);
                    assert(b[k] == b1[k - 1]);
                }
            }
        }
    }
}

/// The distinct texts among `names`, sorted.
pub fn sorted_distinct(names: Vec<String>) -> (r: Vec<String>)
    ensures
        strictly_sorted(r@.map_values(|t: String| t@)),
        r@.map_values(|t: String| t@).to_set() == names@.map_values(|t: String| t@).to_set(),
        r@.map_values(|t: String| t@) == sorted_set(names@.map_values(|t: String| t@).to_set()),
{
    let ghost all = names@.map_values(|t: String| t@);
    let mut names = names;
    let mut result: Vec<String> = Vec::new();
    assert(result@.map_values(|t: String| t@).to_set() =~= Set::<Seq<char>>::empty());
    assert(all.skip(names@.len() as int).to_set() =~= Set::<Seq<char>>::empty());
    while names.len() > 0
        invariant
            names@.len() <= all.len(),
            names@.map_values(|t: String| t@) == all.take(names@.len() as int),
            strictly_sorted(result@.map_values(|t: String| t@)),
            result@.map_values(|t: String| t@).to_set() == all.skip(names@.len() as int).to_set(),
        decreases names@.len(),
    {
        let ghost n = names@.len();
        let x = names.pop().unwrap();
        assert(all[n - 1] == x@) by {
            assert(all.take(n as int)[n - 1] == x@);
        }
        assert(names@.map_values(|t: String| t@) =~= all.take(n - 1));
        assert(all.skip(n - 1) =~= seq![x@] + all.skip(n as int));
        assert(all.skip(n - 1).to_set() =~= all.skip(n as int).to_set().insert(x@)) by {
            let s1 = all.skip(n - 1);
            let s0 = all.skip(n as int);
            assert forall|t: Seq<char>| s1.to_set().contains(t) implies s0.to_set().insert(x@).contains(t) by {
                let k = choose|k: int| 0 <= k < s1.len() && #[trigger] s1[k] == t;
                if k > 0 {
                    assert(s0[k - 1] == t);
                }
            }
            assert forall|t: Seq<char>| s0.to_set().insert(x@).contains(t) implies s1.to_set().contains(t) by {
                if t == x@ {
                    assert(s1[0] == t);
                } else {
                    let k = choose|k: int| 0 <= k < s0.len() && #[trigger] s0[k] == t;
                    assert(s1[k + 1] == t);
                }
            }
        }
        insert_sorted(&mut result, x);
    }
    assert(all.skip(0) =~= all);
    proof {
        let rv = result@.map_values(|t: String| t@);
        let q = sorted_set(all.to_set());
        assert(strictly_sorted(rv) && rv.to_set() == all.to_set());
        lemma_strictly_sorted_unique(q, rv);
    }
    result
}

/// The texts joined with `sep` between each two.
pub open spec fn join_spec(s: Seq<Seq<char>>, sep: Seq<char>) -> Seq<char>
    decreases s.len(),
{
    if s.len() == 0 {
        Seq::empty()
    } else if s.len() == 1 {
        s[0]
    } else {
        join_spec(s.drop_last(), sep) + sep + s.last()
    }
}

/// The texts joined with `sep` between each two.
pub fn join(s: &Vec<String>, sep: &str) -> (r: String)
    ensures
        r@ == join_spec(s@.map_values(|t: String| t@), sep@),
{
    let ghost all = s@.map_values(|t: String| t@);
    let mut r = String::new();
    let mut i: usize = 0;
    while i < s.len()
        invariant
            i <= s@.len(),
            all == s@.map_values(|t: String| t@),
            r@ == join_spec(all.take(i as int), sep@),
        decreases s@.len() - i,
    {
        assert(all.take(i + 1).drop_last() =~= all.take(i as int));
        assert(all.take(i + 1).last() == s@[i as int]@);
        if i > 0 {
            r.append(sep);
        } else {
            assert(all.take(1)[0] == s@[0]@);
        }
        r.append(s[i].as_str());
        i = i + 1;
    }
    assert(all.take(s@.len() as int) =~= all);
    r
}

/// Whether the texts are sorted, repeats allowed.
pub open spec fn sorted_texts(s: Seq<Seq<char>>) -> bool {
    forall|i: int, j: int| 0 <= i < j < s.len() ==> !text_lt(#[trigger] s[j], #[trigger] s[i])
}

/// Insert `x` into the sorted texts `v`, after the texts that are not
/// greater than it.
fn insert_in_order(v: &mut Vec<String>, x: String)
    requires
        sorted_texts(old(v)@.map_values(|t: String| t@)),
    ensures
        sorted_texts(final(v)@.map_values(|t: String| t@)),
        final(v)@.map_values(|t: String| t@).to_multiset() == old(v)@.map_values(|t: String| t@).to_multiset().insert(
            x@,
        ),
{
    broadcast use vstd::seq_lib::group_to_multiset_ensures;

    let ghost old_view = v@.map_values(|t: String| t@);
    let xc = str_chars(x.as_str());
    let mut i: usize = 0;
    while i < v.len()
        invariant
            i <= v@.len(),
            v@.map_values(|t: String| t@) == old_view,
            xc@ == x@,
            forall|k: int| 0 <= k < i ==> !text_lt(x@, #[trigger] old_view[k]),
        ensures
            i <= v@.len(),
            v@.map_values(|t: String| t@) == old_view,
            forall|k: int| 0 <= k < i ==> !text_lt(x@, #[trigger] old_view[k]),
            i < v@.len() ==> text_lt(x@, old_view[i as int]),
        decreases v@.len() - i,
    {
        let vc = str_chars(v[i].as_str());
        assert(old_view[i as int] == vc@);
        if text_less(xc.as_slice(), vc.as_slice()) {
            break;
        }
        i = i + 1;
    }
    v.insert(i, x);
    let ghost nv = v@.map_values(|t: String| t@);
    assert(nv =~= old_view.insert(i as int, x@));
    assert forall|b: int| i < b < nv.len() implies !text_lt(#[trigger] nv[b], x@) by {
        assert(nv[b] == old_view[b - 1]);
        if text_lt(old_view[b - 1], x@) {
            lemma_text_lt_transitive(old_view[b - 1], x@, old_view[i as int]);
            if b - 1 > i {
                assert(!text_lt(old_view[b - 1], old_view[i as int]));
            } else {
                lemma_text_lt_order(old_view[i as int], old_view[i as int]);
            }
        }
    }
    assert forall|a: int, b: int| 0 <= a < b < nv.len() implies !text_lt(#[trigger] nv[b], #[trigger] nv[a]) by {
        if b < i {
            assert(nv[a] == old_view[a] && nv[b] == old_view[b]);
        } else if b == i {
            assert(nv[a] == old_view[a]);
        } else if a < i {
            assert(nv[a] == old_view[a] && nv[b] == old_view[b - 1]);
        } else if a == i {
            assert(!text_lt(nv[b], x@));
        } else {
            assert(nv[a] == old_view[a - 1] && nv[b] == old_view[b - 1]);
        }
    }
}

/// The texts of a finite multiset in order, repeats kept.
pub open spec fn sorted_multiset(m: vstd::multiset::Multiset<Seq<char>>) -> Seq<Seq<char>> {
    choose|q: Seq<Seq<char>>| sorted_texts(q) && q.to_multiset() == m
}

/// Two sorted sequences of texts with the same elements, counted with
/// repeats, are the same sequence.
pub proof fn lemma_sorted_unique(a: Seq<Seq<char>>, b: Seq<Seq<char>>)
    requires
        sorted_texts(a),
        sorted_texts(b),
        a.to_multiset() == b.to_multiset(),
    ensures
        a == b,
    decreases a.len(),
{
    broadcast use vstd::seq_lib::group_to_multiset_ensures;

    if a.len() == 0 {
        assert(b.to_multiset().len() == 0);
        assert(a =~= b);
    } else {
        assert(a.to_multiset().len() == a.len());
        assert(b.to_multiset().len() == b.len());
        assert(a.to_multiset().count(a[0]) > 0) by {
            assert(a.contains(a[0]));
        }
        assert(b.contains(a[0]));
        assert(b.to_multiset().count(b[0]) > 0) by {
            assert(b.contains(b[0]));
        }
        assert(a.contains(b[0]));
        let j = choose|j: int| 0 <= j < b.len() && b[j] == a[0];
        let i = choose|i: int| 0 <= i < a.len() && a[i] == b[0];
        assert(a[0] == b[0]) by {
            lemma_text_lt_order(a[0], b[0]);
            if i > 0 {
                assert(!text_lt(a[i], a[0]));
            }
            if j > 0 {
                assert(!text_lt(b[j], b[0]));
            }
        }
        let a1 = a.remove(0);
        let b1 = b.remove(0);
        assert(a1 =~= a.drop_first());
        assert(b1 =~= b.drop_first());
        assert(a1.to_multiset() == a.to_multiset().remove(a[0]));
        assert(b1.to_multiset() == b.to_multiset().remove(b[0]));
        assert(sorted_texts(a1)) by {
            assert forall|x: int, y: int| 0 <= x < y < a1.len() implies !text_lt(#[trigger] a1[y], #[trigger] a1[x]) by {
                assert(a1[x] == a[x + 1] && a1[y] == a[y + 1]);
            }
        }
        assert(sorted_texts(b1)) by {
            assert forall|x: int, y: int| 0 <= x < y < b1.len() implies !text_lt(#[trigger] b1[y], #[trigger] b1[x]) by {
                assert(b1[x] == b[x + 1] && b1[y] == b[y + 1]);
            }
        }
        lemma_sorted_unique(a1, b1);
        assert forall|k: int| 0 <= k < a.len() implies a[k] == b[k] by {
            if k > 0 {
                assert(a[k] == a1[k - 1]);
                assert(b[k] == b1[k - 1]);
            }
        }
        assert(a =~= b);
    }
}

/// The texts, sorted; repeats are kept.
pub fn sort_texts(texts: Vec<String>) -> (r: Vec<String>)
    ensures
        sorted_texts(r@.map_values(|t: String| t@)),
        r@.map_values(|t: String| t@).to_multiset() == texts@.map_values(|t: String| t@).to_multiset(),
        r@.map_values(|t: String| t@) == sorted_multiset(texts@.map_values(|t: String| t@).to_multiset()),
{
    broadcast use vstd::seq_lib::group_to_multiset_ensures;

    let ghost all = texts@.map_values(|t: String| t@);
    let mut texts = texts;
    let mut result: Vec<String> = Vec::new();
    assert(result@.map_values(|t: String| t@) =~= Seq::<Seq<char>>::empty());
    assert(all.skip(texts@.len() as int) =~= Seq::<Seq<char>>::empty());
    while texts.len() > 0
        invariant
            texts@.len() <= all.len(),
            texts@.map_values(|t: String| t@) == all.take(texts@.len() as int),
            sorted_texts(result@.map_values(|t: String| t@)),
            result@.map_values(|t: String| t@).to_multiset() == all.skip(texts@.len() as int).to_multiset(),
        decreases texts@.len(),
    {
        let ghost n = texts@.len();
        let x = texts.pop().unwrap();
        assert(all[n - 1] == x@) by {
            assert(all.take(n as int)[n - 1] == x@);
        }
        assert(texts@.map_values(|t: String| t@) =~= all.take(n - 1));
        assert(all.skip(n - 1) =~= all.skip(n as int).insert(0, x@));
        proof {
            vstd::seq_lib::to_multiset_insert(all.skip(n as int), 0, x@);
        }
        assert(all.skip(n - 1).to_multiset() == all.skip(n as int).to_multiset().insert(x@));
        insert_in_order(&mut result, x);
    }
    assert(all.skip(0) =~= all);
    proof {
        let rv = result@.map_values(|t: String| t@);
        let q = sorted_multiset(all.to_multiset());
        assert(sorted_texts(rv) && rv.to_multiset() == all.to_multiset());
        lemma_sorted_unique(q, rv);
    }
    result
}

} // verus!
