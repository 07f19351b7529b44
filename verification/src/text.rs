//! Text over its model `Seq<char>`: order, numerals, padding, lines and path separators.
use vstd::prelude::*;

verus! {

/// `String::push` appends one character at the end.
pub assume_specification[ String::push ](s: &mut String, c: char)
    ensures
        final(s)@ == old(s)@.push(c),
;

/// The characters of a string.
pub fn chars_of(s: &str) -> (r: Vec<char>)
    ensures
        r@ == s@,
{
    let mut r: Vec<char> = Vec::new();
    for c in it: s.chars()
        invariant
            it.seq() == s@,
            r@ == s@.take(it.index() as int),
    {
        r.push(c);
        assert(s@.take(it.index() + 1) == s@.take(it.index() as int).push(c));
    }
    assert(s@.take(s@.len() as int) == s@);
    r
}

/// The string made of the characters from `from` up to, not including, `to`.
pub fn string_of(chars: &Vec<char>, from: usize, to: usize) -> (r: String)
    requires
        from <= to <= chars@.len(),
    ensures
        r@ == chars@.subrange(from as int, to as int),
{
    let mut r = String::new();
    let mut i: usize = from;
    while i < to
        invariant
            from <= i <= to <= chars@.len(),
            r@ == chars@.subrange(from as int, i as int),
        decreases to - i,
    {
        r.push(chars[i]);
        i = i + 1;
        assert(chars@.subrange(from as int, i as int) == chars@.subrange(
            from as int,
            i - 1,
        ).push(chars@[i - 1]));
    }
    r
}

/// Strict lexicographic order by code point, which is how strings are ordered.
pub open spec fn lex_less(a: Seq<char>, b: Seq<char>) -> bool
    decreases a.len(),
{
    if b.len() == 0 {
        false
    } else if a.len() == 0 {
        true
    } else if a[0] == b[0] {
        lex_less(a.drop_first(), b.drop_first())
    } else {
        a[0] < b[0]
    }
}

/// Whether `a` comes before `b`.
pub fn str_less(a: &str, b: &str) -> (r: bool)
    ensures
        r == lex_less(a@, b@),
{
    let x = chars_of(a);
    let y = chars_of(b);
    let mut i: usize = 0;
    assert(a@.skip(0) == a@ && b@.skip(0) == b@);
    while i < x.len() && i < y.len() && x[i] == y[i]
        invariant
            x@ == a@,
            y@ == b@,
            i <= x.len(),
            i <= y.len(),
            lex_less(a@, b@) == lex_less(a@.skip(i as int), b@.skip(i as int)),
        decreases x.len() - i,
    {
        assert(a@.skip(i as int).drop_first() == a@.skip(i + 1));
        assert(b@.skip(i as int).drop_first() == b@.skip(i + 1));
        i = i + 1;
    }
    if i >= y.len() {
        false
    } else if i >= x.len() {
        true
    } else {
        x[i] < y[i]
    }
}

/// Whether two strings hold the same characters.
pub fn same_text(a: &str, b: &str) -> (r: bool)
    ensures
        r == (a@ == b@),
{
    let x = chars_of(a);
    let y = chars_of(b);
    if x.len() != y.len() {
        return false;
    }
    let mut i: usize = 0;
    while i < x.len()
        invariant
            x@ == a@,
            y@ == b@,
            x.len() == y.len(),
            i <= x.len(),
            a@.take(i as int) == b@.take(i as int),
        decreases x.len() - i,
    {
        if x[i] != y[i] {
            assert(a@[i as int] != b@[i as int]);
            return false;
        }
        i = i + 1;
        assert(a@.take(i as int) == a@.take(i - 1).push(a@[i - 1]));
        assert(b@.take(i as int) == b@.take(i - 1).push(b@[i - 1]));
    }
    assert(a@.take(i as int) == a@ && b@.take(i as int) == b@);
    true
}

/// The order of strings never holds of a string and itself.
pub proof fn lemma_lex_irreflexive(a: Seq<char>)
    ensures
        !lex_less(a, a),
    decreases a.len(),
{
    if a.len() > 0 {
        lemma_lex_irreflexive(a.drop_first());
    }
}

/// The order of strings is transitive.
pub proof fn lemma_lex_transitive(a: Seq<char>, b: Seq<char>, c: Seq<char>)
    requires
        lex_less(a, b),
        lex_less(b, c),
    ensures
        lex_less(a, c),
    decreases a.len(),
{
    if a.len() > 0 && b.len() > 0 && c.len() > 0 && a[0] == b[0] && b[0] == c[0] {
        lemma_lex_transitive(a.drop_first(), b.drop_first(), c.drop_first());
    }
}

/// Of two different strings one comes before the other.
pub proof fn lemma_lex_total(a: Seq<char>, b: Seq<char>)
    ensures
        lex_less(a, b) || lex_less(b, a) || a == b,
    decreases a.len(),
{
    if a.len() > 0 && b.len() > 0 && a[0] == b[0] {
        lemma_lex_total(a.drop_first(), b.drop_first());
        if a.drop_first() == b.drop_first() {
            assert(a == seq![a[0]] + a.drop_first());
            assert(b == seq![b[0]] + b.drop_first());
        }
    } else if a.len() == 0 && b.len() == 0 {
        assert(a == b);
    }
}

/// The digit that stands for `d` in a base up to sixteen, in lower case.
pub open spec fn digit(d: nat) -> char {
    if d < 10 {
        (48 + d) as char
    } else {
        (87 + d) as char
    }
}

/// `n` written in `base`, most significant digit first and without leading zeros.
pub open spec fn numeral(n: nat, base: nat) -> Seq<char>
    recommends
        2 <= base <= 16,
    decreases n,
{
    if base < 2 || n < base {
        seq![digit(n)]
    } else {
        proof {
            assert(n / base < n) by (nonlinear_arith)
                requires
                    n >= base >= 2,
            ;
        }
        numeral(n / base, base).push(digit(n % base))
    }
}

/// Appends `n` written in `base`.
pub fn push_numeral(out: &mut String, n: u64, base: u64)
    requires
        2 <= base <= 16,
    ensures
        final(out)@ == old(out)@ + numeral(n as nat, base as nat),
    decreases n,
{
    if n >= base {
        assert(n / base < n) by (nonlinear_arith)
            requires
                n >= base >= 2,
        ;
        push_numeral(out, n / base, base);
    }
    assert(n % base < base) by (nonlinear_arith)
        requires
            base >= 2,
    ;
    let d: u8 = (n % base) as u8;
    assert(n < base ==> n % base == n) by (nonlinear_arith)
        requires
            base >= 2,
    ;
    if d < 10 {
        out.push((48u8 + d) as char);
    } else {
        out.push((87u8 + d) as char);
    }
    assert(out@ == old(out)@ + numeral(n as nat, base as nat));
}

/// Different numbers have different numerals.
pub proof fn law_numerals_differ(a: nat, b: nat, base: nat)
    requires
        2 <= base <= 16,
        numeral(a, base) == numeral(b, base),
    ensures
        a == b,
    decreases a,
{
    lemma_numeral_step(a, base);
    lemma_numeral_step(b, base);
    if a >= base && b >= base {
        assert(a / base < a) by (nonlinear_arith)
            requires
                a >= base >= 2,
        ;
        let x = numeral(a, base);
        let y = numeral(b, base);
        assert(x.drop_last() == y.drop_last());
        assert(x.last() == y.last());
        lemma_digits_differ(a % base, b % base);
        law_numerals_differ(a / base, b / base, base);
        assert(a == (a / base) * base + a % base) by (nonlinear_arith)
            requires
                base >= 2,
        ;
        assert(b == (b / base) * base + b % base) by (nonlinear_arith)
            requires
                base >= 2,
        ;
    } else if a < base && b < base {
        assert(numeral(a, base)[0] == digit(a));
        assert(numeral(b, base)[0] == digit(b));
        lemma_digits_differ(a, b);
    }
}

proof fn lemma_digits_differ(a: nat, b: nat)
    requires
        a < 16,
        b < 16,
        digit(a) == digit(b),
    ensures
        a == b,
{
    assert(digit(a) as int == if a < 10 {
        48 + a
    } else {
        87 + a
    });
    assert(digit(b) as int == if b < 10 {
        48 + b
    } else {
        87 + b
    });
}

proof fn lemma_numeral_step(n: nat, base: nat)
    requires
        2 <= base <= 16,
    ensures
        n < base ==> numeral(n, base) == seq![digit(n)],
        n >= base ==> numeral(n, base).len() >= 2 && numeral(n, base).drop_last() == numeral(
            n / base,
            base,
        ) && numeral(n, base).last() == digit(n % base) && n % base < base,
    decreases n,
{
    if n >= base {
        assert(n / base < n) by (nonlinear_arith)
            requires
                n >= base >= 2,
        ;
        assert(n % base < base) by (nonlinear_arith)
            requires
                base >= 2,
        ;
        lemma_numeral_step(n / base, base);
        assert(numeral(n, base).drop_last() == numeral(n / base, base));
    }
}

/// `s` filled up with spaces on the right to at least `width` characters.
pub open spec fn padded(s: Seq<char>, width: nat) -> Seq<char> {
    if s.len() < width {
        s + Seq::new((width - s.len()) as nat, |i: int| ' ')
    } else {
        s
    }
}

/// Appends `s`, filled up with spaces on the right to at least `width` characters.
pub fn push_padded(out: &mut String, s: &str, width: usize)
    ensures
        final(out)@ == old(out)@ + padded(s@, width as nat),
{
    out.append(s);
    let mut n: usize = chars_of(s).len();
    while n < width
        invariant
            n >= s@.len(),
            n > s@.len() ==> n <= width,
            out@ == old(out)@ + s@ + Seq::new((n - s@.len()) as nat, |i: int| ' '),
        decreases width - n,
    {
        out.push(' ');
        n = n + 1;
        assert(Seq::new((n - s@.len()) as nat, |i: int| ' ') == Seq::new(
            (n - 1 - s@.len()) as nat,
            |i: int| ' ',
        ).push(' '));
    }
    assert(out@ == old(out)@ + padded(s@, width as nat));
}

/// `s` with every `from` turned into `to`.
pub open spec fn replaced(s: Seq<char>, from: char, to: char) -> Seq<char> {
    s.map_values(|c: char| if c == from { to } else { c })
}

/// Replaces every `from` in `s` by `to`.
pub fn replace_char(s: &str, from: char, to: char) -> (r: String)
    ensures
        r@ == replaced(s@, from, to),
{
    let chars = chars_of(s);
    let mut r = String::new();
    let mut i: usize = 0;
    while i < chars.len()
        invariant
            chars@ == s@,
            i <= chars.len(),
            r@ == replaced(s@.take(i as int), from, to),
        decreases chars.len() - i,
    {
        let c: char = chars[i];
        if c == from {
            r.push(to);
        } else {
            r.push(c);
        }
        i = i + 1;
        assert(replaced(s@.take(i as int), from, to) == replaced(
            s@.take(i - 1),
            from,
            to,
        ).push(if c == from { to } else { c }));
    }
    assert(s@.take(i as int) == s@);
    r
}

/// What is left of `s` behind `prefix`, where `s` starts with it.
pub open spec fn stripped(s: Seq<char>, prefix: Seq<char>) -> Option<Seq<char>> {
    if prefix.is_prefix_of(s) {
        Some(s.skip(prefix.len() as int))
    } else {
        None
    }
}

/// A text that may be absent, as its model.
pub open spec fn opt_text(s: Option<String>) -> Option<Seq<char>> {
    match s {
        Some(t) => Some(t@),
        None => None,
    }
}

/// A list of texts, as its model.
pub open spec fn texts(s: Seq<String>) -> Seq<Seq<char>> {
    s.map_values(|t: String| t@)
}

/// Takes `prefix` off the front of `s`.
pub fn strip_prefix(s: &str, prefix: &str) -> (r: Option<String>)
    ensures
        opt_text(r) == stripped(s@, prefix@),
{
    let chars = chars_of(s);
    let head = chars_of(prefix);
    if head.len() > chars.len() {
        return None;
    }
    let mut i: usize = 0;
    while i < head.len()
        invariant
            chars@ == s@,
            head@ == prefix@,
            i <= head.len() <= chars.len(),
            s@.take(i as int) == prefix@.take(i as int),
        decreases head.len() - i,
    {
        if chars[i] != head[i] {
            assert(s@.take(prefix@.len() as int)[i as int] != prefix@[i as int]);
            return None;
        }
        i = i + 1;
        assert(s@.take(i as int) == s@.take(i - 1).push(s@[i - 1]));
        assert(prefix@.take(i as int) == prefix@.take(i - 1).push(prefix@[i - 1]));
    }
    assert(prefix@.take(i as int) == prefix@);
    let r = string_of(&chars, i, chars.len());
    assert(r@ == s@.skip(i as int));
    Some(r)
}

/// Whether `s` ends with `suffix`.
pub fn ends_with(s: &str, suffix: &str) -> (r: bool)
    ensures
        r == suffix@.is_suffix_of(s@),
{
    let chars = chars_of(s);
    let tail = chars_of(suffix);
    if tail.len() > chars.len() {
        return false;
    }
    let base: usize = chars.len() - tail.len();
    let ghost end = s@.skip(base as int);
    let mut i: usize = 0;
    while i < tail.len()
        invariant
            chars@ == s@,
            tail@ == suffix@,
            base == chars.len() - tail.len(),
            i <= tail.len(),
            end == s@.skip(base as int),
            end.take(i as int) == suffix@.take(i as int),
        decreases tail.len() - i,
    {
        if chars[base + i] != tail[i] {
            assert(end[i as int] != suffix@[i as int]);
            return false;
        }
        i = i + 1;
        assert(end.take(i as int) == end.take(i - 1).push(end[i - 1]));
        assert(suffix@.take(i as int) == suffix@.take(i - 1).push(suffix@[i - 1]));
    }
    assert(end.take(i as int) == end && suffix@.take(i as int) == suffix@);
    assert(end == s@.subrange(base as int, s@.len() as int));
    true
}

/// The character has the Unicode property `White_Space`.
#[verifier::opaque]
pub open spec fn is_white_space(c: char) -> bool {
    ||| '\u{9}' <= c <= '\u{d}'
    ||| c == ' '
    ||| c == '\u{85}'
    ||| c == '\u{a0}'
    ||| c == '\u{1680}'
    ||| '\u{2000}' <= c <= '\u{200a}'
    ||| c == '\u{2028}'
    ||| c == '\u{2029}'
    ||| c == '\u{202f}'
    ||| c == '\u{205f}'
    ||| c == '\u{3000}'
}

/// `char::is_whitespace` tells the characters with the Unicode property `White_Space`.
pub assume_specification[ char::is_whitespace ](c: char) -> (r: bool)
    ensures
        r == is_white_space(c),
;

/// What `str::to_lowercase` gives for a text that is not all ASCII: the Unicode lower case
/// mapping of the text.
pub uninterp spec fn unicode_lowercase(s: Seq<char>) -> Seq<char>;

/// The lower case of an ASCII character.
pub open spec fn ascii_lowercase(c: char) -> char {
    if 'A' <= c <= 'Z' {
        (c as u32 + 32) as char
    } else {
        c
    }
}

/// All characters of the text are ASCII.
pub open spec fn all_ascii(s: Seq<char>) -> bool {
    forall|i: int| 0 <= i < s.len() ==> #[trigger] s[i] < '\u{80}'
}

/// The lower case of a text.
pub open spec fn lowercase(s: Seq<char>) -> Seq<char> {
    if all_ascii(s) {
        s.map_values(|c: char| ascii_lowercase(c))
    } else {
        unicode_lowercase(s)
    }
}

/// A capital letter from `A` to `Z`.
pub open spec fn is_capital(c: char) -> bool {
    'A' <= c <= 'Z'
}

/// The text holds a capital letter from `A` to `Z`.
pub open spec fn has_capital(s: Seq<char>) -> bool {
    exists|i: int| 0 <= i < s.len() && is_capital(#[trigger] s[i])
}

/// `str::to_lowercase` depends on the text alone; no locale enters. On a text of ASCII
/// characters it maps the letters from `A` to `Z`. On any text it leaves none of these letters
/// and makes no backslash of another character.
pub assume_specification[ str::to_lowercase ](s: &str) -> (r: String)
    ensures
        all_ascii(s@) ==> r@ == s@.map_values(|c: char| ascii_lowercase(c)),
        !all_ascii(s@) ==> r@ == unicode_lowercase(s@),
        !has_capital(r@),
        r@.contains('\\') ==> s@.contains('\\'),
;

/// `s` without the white space at its front.
pub open spec fn trimmed_front(s: Seq<char>) -> Seq<char>
    decreases s.len(),
{
    if s.len() > 0 && is_white_space(s[0]) {
        trimmed_front(s.drop_first())
    } else {
        s
    }
}

/// `s` without the white space at its back.
pub open spec fn trimmed_back(s: Seq<char>) -> Seq<char>
    decreases s.len(),
{
    if s.len() > 0 && is_white_space(s.last()) {
        trimmed_back(s.drop_last())
    } else {
        s
    }
}

/// `s` without the white space around it.
pub open spec fn trimmed(s: Seq<char>) -> Seq<char> {
    trimmed_back(trimmed_front(s))
}

/// Removes the white space around `s`.
pub fn trim(s: &str) -> (r: String)
    ensures
        r@ == trimmed(s@),
{
    let chars = chars_of(s);
    let mut from: usize = 0;
    assert(s@.skip(0) == s@);
    while from < chars.len() && chars[from].is_whitespace()
        invariant
            chars@ == s@,
            from <= chars.len(),
            trimmed_front(s@) == trimmed_front(s@.skip(from as int)),
        decreases chars.len() - from,
    {
        assert(s@.skip(from as int).drop_first() == s@.skip(from + 1));
        from = from + 1;
    }
    let ghost front = s@.skip(from as int);
    assert(trimmed_front(s@) == front);
    let mut to: usize = chars.len();
    assert(s@.subrange(from as int, to as int) == front);
    while to > from && chars[to - 1].is_whitespace()
        invariant
            chars@ == s@,
            from <= to <= chars.len(),
            trimmed_back(front) == trimmed_back(s@.subrange(from as int, to as int)),
        decreases to - from,
    {
        assert(s@.subrange(from as int, to as int).drop_last() == s@.subrange(
            from as int,
            to - 1,
        ));
        to = to - 1;
    }
    string_of(&chars, from, to)
}

/// The number of characters before the first line feed, or of all where there is none.
pub open spec fn first_line_len(s: Seq<char>) -> nat
    decreases s.len(),
{
    if s.len() == 0 || s[0] == '\n' {
        0
    } else {
        1 + first_line_len(s.drop_first())
    }
}

/// A line without the carriage return that ends it, if one does.
pub open spec fn without_cr(s: Seq<char>) -> Seq<char> {
    if s.len() > 0 && s.last() == '\r' {
        s.drop_last()
    } else {
        s
    }
}

/// The lines of a text. A line ends with a line feed, or with a carriage return and a line
/// feed; the last line need not end.
pub open spec fn lines(s: Seq<char>) -> Seq<Seq<char>>
    decreases s.len(),
{
    let n = first_line_len(s) as int;
    if s.len() == 0 {
        seq![]
    } else if n >= s.len() {
        seq![s]
    } else {
        seq![without_cr(s.take(n))] + lines(s.skip(n + 1))
    }
}

/// The first line ends at the first line feed.
proof fn lemma_first_line_len(s: Seq<char>, n: int)
    requires
        0 <= n <= s.len(),
        forall|i: int| 0 <= i < n ==> s[i] != '\n',
        n < s.len() ==> s[n] == '\n',
    ensures
        first_line_len(s) == n,
    decreases s.len(),
{
    if n > 0 {
        lemma_first_line_len(s.drop_first(), n - 1);
    }
}

/// Splits a text into its lines.
pub fn split_lines(s: &str) -> (r: Vec<String>)
    ensures
        texts(r@) == lines(s@),
{
    let chars = chars_of(s);
    let mut r: Vec<String> = Vec::new();
    let mut start: usize = 0;
    let mut i: usize = 0;
    assert(s@.skip(0) == s@);
    assert(texts(r@) + lines(s@) == lines(s@));
    while i < chars.len()
        invariant
            chars@ == s@,
            start <= i <= chars.len(),
            forall|j: int| start <= j < i ==> s@[j] != '\n',
            texts(r@) + lines(s@.skip(start as int)) == lines(s@),
        decreases chars.len() - i,
    {
        if chars[i] == '\n' {
            let ghost rest = s@.skip(start as int);
            let ghost before = texts(r@);
            proof {
                lemma_first_line_len(rest, i - start);
                assert(rest.take(i - start) == s@.subrange(start as int, i as int));
                assert(rest.skip(i - start + 1) == s@.skip(i + 1));
            }
            let mut end: usize = i;
            if end > start && chars[end - 1] == '\r' {
                end = end - 1;
            }
            let line = string_of(&chars, start, end);
            assert(line@ == without_cr(rest.take(i - start)));
            r.push(line);
            assert(texts(r@) == before.push(line@));
            start = i + 1;
            assert(lines(rest) == seq![line@] + lines(s@.skip(start as int)));
            assert(texts(r@) + lines(s@.skip(start as int)) == before + lines(rest));
        }
        i = i + 1;
    }
    let ghost rest = s@.skip(start as int);
    if start < chars.len() {
        proof {
            lemma_first_line_len(rest, rest.len() as int);
        }
        let ghost before = texts(r@);
        r.push(string_of(&chars, start, chars.len()));
        assert(s@.subrange(start as int, s@.len() as int) == rest);
        assert(texts(r@) == before + lines(rest));
    } else {
        assert(texts(r@) == texts(r@) + lines(rest));
    }
    r
}

/// A text comes before another exactly where they agree up to some place and there the first
/// has ended, or has the smaller character.
pub proof fn law_lex_less(a: Seq<char>, b: Seq<char>)
    ensures
        lex_less(a, b) <==> exists|k: int|
            0 <= k <= a.len() && k < b.len() && #[trigger] a.take(k) == b.take(k) && (k == a.len()
                || a[k] < b[k]),
    decreases a.len(),
{
    if b.len() > 0 && a.len() > 0 && a[0] == b[0] {
        let c = a.drop_first();
        let d = b.drop_first();
        law_lex_less(c, d);
        if lex_less(c, d) {
            let k = choose|k: int|
                0 <= k <= c.len() && k < d.len() && #[trigger] c.take(k) == d.take(k) && (k
                    == c.len() || c[k] < d[k]);
            assert(a.take(k + 1) == seq![a[0]] + c.take(k));
            assert(b.take(k + 1) == seq![b[0]] + d.take(k));
        }
        if exists|k: int|
            0 <= k <= a.len() && k < b.len() && #[trigger] a.take(k) == b.take(k) && (k == a.len()
                || a[k] < b[k]) {
            let k = choose|k: int|
                0 <= k <= a.len() && k < b.len() && #[trigger] a.take(k) == b.take(k) && (k
                    == a.len() || a[k] < b[k]);
            assert(k > 0);
            assert(c.take(k - 1) == a.take(k).drop_first());
            assert(d.take(k - 1) == b.take(k).drop_first());
        }
    } else if b.len() > 0 {
        assert(a.take(0) == b.take(0));
        assert forall|k: int|
            0 <= k <= a.len() && k < b.len() && #[trigger] a.take(k) == b.take(k) implies k == 0 by {
            if k > 0 {
                assert(a.take(k)[0] == b.take(k)[0]);
            }
        }
    }
}

/// The number that a digit stands for.
pub open spec fn digit_value(c: char) -> int {
    if '0' <= c <= '9' {
        c as int - '0' as int
    } else {
        c as int - 'a' as int + 10
    }
}

/// The number that digits stand for in a base.
pub open spec fn value_of(digits: Seq<char>, base: nat) -> int
    decreases digits.len(),
{
    if digits.len() == 0 {
        0
    } else {
        value_of(digits.drop_last(), base) * base + digit_value(digits.last())
    }
}

/// A numeral stands for its number, is made of the digits from `0` to `9` and from `a` to `f`
/// that the base has, and has no zero in front unless it is zero.
pub proof fn law_numeral(n: nat, base: nat)
    requires
        2 <= base <= 16,
    ensures
        value_of(numeral(n, base), base) == n,
        numeral(n, base).len() > 0,
        n > 0 ==> numeral(n, base)[0] != '0',
        n == 0 ==> numeral(n, base) == seq!['0'],
        forall|i: int|
            0 <= i < numeral(n, base).len() ==> {
                let c = #[trigger] numeral(n, base)[i];
                ('0' <= c <= '9' || 'a' <= c <= 'f') && 0 <= digit_value(c) < base
            },
    decreases n,
{
    let s = numeral(n, base);
    if n < base {
        lemma_digit(n);
        assert(s == seq![digit(n)]);
        assert(s.drop_last() == Seq::<char>::empty());
        assert(value_of(s.drop_last(), base) == 0);
        assert(s.last() == digit(n));
        assert(0 * base == 0);
    } else {
        lemma_numeral_step(n, base);
        assert(n / base < n && n / base > 0) by (nonlinear_arith)
            requires
                n >= base >= 2,
        ;
        law_numeral(n / base, base);
        lemma_digit(n % base);
        let h = numeral(n / base, base);
        assert(s.drop_last() == h);
        assert(s[0] == h[0]);
        assert((n / base) * base + n % base == n) by (nonlinear_arith)
            requires
                base >= 2,
        ;
        assert forall|i: int| 0 <= i < s.len() implies {
            let c = #[trigger] s[i];
            ('0' <= c <= '9' || 'a' <= c <= 'f') && 0 <= digit_value(c) < base
        } by {
            if i < h.len() {
                let c = h[i];
                assert(s[i] == c);
            }
        }
    }
}

proof fn lemma_digit(d: nat)
    requires
        d < 16,
    ensures
        digit_value(digit(d)) == d,
        '0' <= digit(d) <= '9' || 'a' <= digit(d) <= 'f',
        d > 0 ==> digit(d) != '0',
        d == 0 ==> digit(d) == '0',
{
    assert(digit(d) as int == if d < 10 {
        48 + d
    } else {
        87 + d
    });
}

/// A padded text is the text with blanks behind it up to the width, and is not cut.
pub proof fn law_padded(s: Seq<char>, width: nat)
    ensures
        padded(s, width).len() == if s.len() < width {
            width
        } else {
            s.len()
        },
        padded(s, width).take(s.len() as int) == s,
        forall|i: int| s.len() <= i < padded(s, width).len() ==> #[trigger] padded(s, width)[i] == ' ',
{
    assert(padded(s, width).take(s.len() as int) == s);
}

/// Replacing changes the characters that are replaced and no other, and no place.
pub proof fn law_replaced(s: Seq<char>, from: char, to: char)
    ensures
        replaced(s, from, to).len() == s.len(),
        forall|i: int|
            0 <= i < s.len() ==> (s[i] == from ==> #[trigger] replaced(s, from, to)[i] == to) && (
            s[i] != from ==> replaced(s, from, to)[i] == s[i]),
{
}

/// A prefix is taken off exactly where the text is the prefix with the rest behind it.
pub proof fn law_stripped(s: Seq<char>, prefix: Seq<char>)
    ensures
        forall|rest: Seq<char>| s == #[trigger] (prefix + rest) ==> stripped(s, prefix) == Some(rest),
        stripped(s, prefix) matches Some(rest) ==> s == prefix + rest,
{
    assert forall|rest: Seq<char>| s == #[trigger] (prefix + rest) implies stripped(s, prefix)
        == Some(rest) by {
        assert(s.take(prefix.len() as int) == prefix);
        assert(prefix.is_prefix_of(s));
        assert(s.skip(prefix.len() as int) == rest);
    }
}

proof fn lemma_trimmed_front(s: Seq<char>) -> (n: int)
    ensures
        0 <= n <= s.len(),
        trimmed_front(s) == s.skip(n),
        forall|i: int| 0 <= i < n ==> is_white_space(#[trigger] s[i]),
        n < s.len() ==> !is_white_space(s[n]),
    decreases s.len(),
{
    if s.len() > 0 && is_white_space(s[0]) {
        let d = s.drop_first();
        let n = lemma_trimmed_front(d);
        assert(d.skip(n) == s.skip(n + 1));
        assert forall|i: int| 0 <= i < n + 1 implies is_white_space(#[trigger] s[i]) by {
            if i > 0 {
                assert(is_white_space(d[i - 1]));
            }
        }
        n + 1
    } else {
        assert(s.skip(0) == s);
        0
    }
}

proof fn lemma_trimmed_back(s: Seq<char>) -> (n: int)
    ensures
        0 <= n <= s.len(),
        trimmed_back(s) == s.take(n),
        forall|i: int| n <= i < s.len() ==> is_white_space(#[trigger] s[i]),
        n > 0 ==> !is_white_space(s[n - 1]),
    decreases s.len(),
{
    if s.len() > 0 && is_white_space(s.last()) {
        let d = s.drop_last();
        let n = lemma_trimmed_back(d);
        assert(d.take(n) == s.take(n));
        assert forall|i: int| n <= i < s.len() implies is_white_space(#[trigger] s[i]) by {
            if i < d.len() {
                assert(is_white_space(d[i]));
            }
        }
        n
    } else {
        assert(s.take(s.len() as int) == s);
        s.len() as int
    }
}

/// Trimming takes off white space alone, in front and behind, and all of it.
pub proof fn law_trimmed(s: Seq<char>) -> (cut: (Seq<char>, Seq<char>))
    ensures
        s == cut.0 + trimmed(s) + cut.1,
        forall|i: int| 0 <= i < cut.0.len() ==> is_white_space(#[trigger] cut.0[i]),
        forall|i: int| 0 <= i < cut.1.len() ==> is_white_space(#[trigger] cut.1[i]),
        trimmed(s).len() > 0 ==> !is_white_space(trimmed(s)[0]) && !is_white_space(
            trimmed(s).last(),
        ),
{
    let n = lemma_trimmed_front(s);
    let f = s.skip(n);
    let m = lemma_trimmed_back(f);
    let front = s.take(n);
    let back = f.skip(m);
    assert(s == front + f.take(m) + back);
    assert forall|i: int| 0 <= i < back.len() implies is_white_space(#[trigger] back[i]) by {
        assert(is_white_space(f[m + i]));
    }
    (front, back)
}

/// White space is the blank, the control characters from the tabulator to the carriage return,
/// and nineteen characters beyond ASCII.
pub proof fn law_white_space(c: char)
    ensures
        c < '\u{80}' ==> (is_white_space(c) <==> c == ' ' || c == '\t' || c == '\n' || c == '\u{b}'
            || c == '\u{c}' || c == '\r'),
        c >= '\u{80}' ==> (is_white_space(c) <==> c == '\u{85}' || c == '\u{a0}' || c == '\u{1680}'
            || '\u{2000}' <= c <= '\u{200a}' || '\u{2028}' <= c <= '\u{2029}' || c == '\u{202f}' || c
            == '\u{205f}' || c == '\u{3000}'),
{
    reveal(is_white_space);
}

/// A text without a line feed is one line, unless it is empty; and a line in front of a text
/// comes first, without the carriage return that its line feed may have before it.
pub proof fn law_lines(line: Seq<char>, rest: Seq<char>)
    requires
        !line.contains('\n'),
    ensures
        line.len() > 0 ==> lines(line) == seq![line],
        lines(Seq::<char>::empty()) == Seq::<Seq<char>>::empty(),
        line.len() == 0 || line.last() != '\r' ==> lines(line + seq!['\n'] + rest) == seq![line]
            + lines(rest),
        lines(line + seq!['\r', '\n'] + rest) == seq![line] + lines(rest),
{
    assert forall|i: int| 0 <= i < line.len() implies line[i] != '\n' by {
        assert(line.contains(line[i]));
    }
    let n = line.len() as int;
    lemma_first_line_len(line, n);
    let s = line + seq!['\n'] + rest;
    lemma_first_line_len(s, n);
    assert(s.take(n) == line);
    assert(s.skip(n + 1) == rest);
    let t = line + seq!['\r', '\n'] + rest;
    lemma_first_line_len(t, n + 1);
    assert(t.take(n + 1) == line.push('\r'));
    assert(line.push('\r').drop_last() == line);
    assert(t.skip(n + 2) == rest);
}

/// The lower case of ASCII changes the letters from `A` to `Z` alone, each to its own small
/// letter.
pub proof fn law_ascii_lowercase(s: Seq<char>)
    requires
        forall|i: int| 0 <= i < s.len() ==> #[trigger] s[i] < '\u{80}',
    ensures
        lowercase(s).len() == s.len(),
        forall|i: int|
            0 <= i < s.len() ==> {
                let c = #[trigger] lowercase(s)[i];
                if 'A' <= s[i] <= 'Z' {
                    c as int - 'a' as int == s[i] as int - 'A' as int
                } else {
                    c == s[i]
                }
            },
{
    assert(all_ascii(s));
}

} // verus!
