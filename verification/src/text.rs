//! Text handling shared by the other modules: trimming, splitting, numbers and ordering,
//! stated over sequences of characters.
use vstd::prelude::*;

verus! {

/// `String::push` appends one character at the end of the text and changes nothing else.
pub assume_specification[ String::push ](s: &mut String, c: char)
    ensures
        final(s)@ == old(s)@.push(c),
;

/// Whether `c` has the Unicode `White_Space` property.
pub open spec fn is_space(c: char) -> bool {
    ||| '\u{9}' <= c <= '\u{d}'
    ||| c == '\u{20}'
    ||| c == '\u{85}'
    ||| c == '\u{a0}'
    ||| c == '\u{1680}'
    ||| '\u{2000}' <= c <= '\u{200a}'
    ||| c == '\u{2028}'
    ||| c == '\u{2029}'
    ||| c == '\u{202f}'
    ||| c == '\u{205f}'
    ||| c == '\u{3000}'
}

/// `s` without its leading white space.
pub open spec fn trim_start(s: Seq<char>) -> Seq<char>
    decreases s.len(),
{
    if s.len() > 0 && is_space(s[0]) {
        trim_start(s.drop_first())
    } else {
        s
    }
}

/// `s` without its trailing white space.
pub open spec fn trim_end(s: Seq<char>) -> Seq<char>
    decreases s.len(),
{
    if s.len() > 0 && is_space(s.last()) {
        trim_end(s.drop_last())
    } else {
        s
    }
}

/// `s` without the white space at either end.
pub open spec fn trimmed(s: Seq<char>) -> Seq<char> {
    trim_end(trim_start(s))
}

/// The position of the first `c` in `s`, or the length of `s` when there is none.
pub open spec fn first_pos(s: Seq<char>, c: char) -> int
    decreases s.len(),
{
    if s.len() == 0 || s[0] == c {
        0
    } else {
        1 + first_pos(s.drop_first(), c)
    }
}

/// The position of the last `c` in `s`, or -1 when there is none.
pub open spec fn last_pos(s: Seq<char>, c: char) -> int
    decreases s.len(),
{
    if s.len() == 0 {
        -1
    } else if s.last() == c {
        s.len() - 1
    } else {
        last_pos(s.drop_last(), c)
    }
}

/// `s` cut at the first `c`: what stands before it and what stands after it.
pub open spec fn cut_first(s: Seq<char>, c: char) -> Option<(Seq<char>, Seq<char>)> {
    let p = first_pos(s, c);
    if p < s.len() {
        Some((s.take(p), s.skip(p + 1)))
    } else {
        None
    }
}

/// `s` cut at the last `c`: what stands before it and what stands after it.
pub open spec fn cut_last(s: Seq<char>, c: char) -> Option<(Seq<char>, Seq<char>)> {
    let p = last_pos(s, c);
    if p >= 0 {
        Some((s.take(p), s.skip(p + 1)))
    } else {
        None
    }
}

/// The pieces of `s` between the occurrences of `c`; one more than there are such
/// occurrences.
pub open spec fn split_on(s: Seq<char>, c: char) -> Seq<Seq<char>>
    decreases s.len(),
    via split_on_decreases
{
    let p = first_pos(s, c);
    if p < s.len() {
        seq![s.take(p)] + split_on(s.skip(p + 1), c)
    } else {
        seq![s]
    }
}

#[via_fn]
proof fn split_on_decreases(s: Seq<char>, c: char) {
    lemma_first_pos(s, c);
}

/// The value of a hexadecimal digit, or 16 for any other character.
pub open spec fn digit_value(c: char) -> nat {
    if '0' <= c <= '9' {
        (c as int - '0' as int) as nat
    } else if 'a' <= c <= 'f' {
        (c as int - 'a' as int + 10) as nat
    } else if 'A' <= c <= 'F' {
        (c as int - 'A' as int + 10) as nat
    } else {
        16
    }
}

/// Whether every character of `s` is a digit in `radix`.
pub open spec fn all_digits(s: Seq<char>, radix: nat) -> bool {
    forall|i: int| 0 <= i < s.len() ==> digit_value(#[trigger] s[i]) < radix
}

/// The number that the digits `s` spell in `radix`, most significant digit first.
pub open spec fn number(s: Seq<char>, radix: nat) -> nat
    decreases s.len(),
{
    if s.len() == 0 {
        0
    } else {
        number(s.drop_last(), radix) * radix + digit_value(s.last())
    }
}

/// The unsigned decimal number that `s` spells, when it spells one of at most `max`: at
/// least one digit, with at most one `+` in front.
pub open spec fn unsigned(s: Seq<char>, max: nat) -> Option<nat> {
    let d = if s.len() > 0 && s[0] == '+' {
        s.drop_first()
    } else {
        s
    };
    if d.len() > 0 && all_digits(d, 10) && number(d, 10) <= max {
        Some(number(d, 10))
    } else {
        None
    }
}

/// The character of the digit `d`, in lower case above nine.
pub open spec fn digit_char(d: nat) -> char {
    if d < 10 {
        ('0' as int + d) as char
    } else {
        ('a' as int + d - 10) as char
    }
}

/// `n` written in `radix` without leading zeros.
pub open spec fn digits_of(n: nat, radix: nat) -> Seq<char>
    decreases n,
{
    if n < radix || radix < 2 {
        seq![digit_char(n)]
    } else {
        proof {
            vstd::arithmetic::div_mod::lemma_div_decreases(n as int, radix as int);
        }
        digits_of(n / radix, radix).push(digit_char(n % radix))
    }
}

/// `n` in decimal.
pub open spec fn decimal_text(n: nat) -> Seq<char> {
    digits_of(n, 10)
}

/// The ASCII lower-case form of `c`; any other character is itself.
pub open spec fn ascii_lower(c: char) -> char {
    if 'A' <= c <= 'Z' {
        (c as int + 32) as char
    } else {
        c
    }
}

/// Whether `a` and `b` are the same text but for the case of ASCII letters.
pub open spec fn same_ignoring_case(a: Seq<char>, b: Seq<char>) -> bool {
    &&& a.len() == b.len()
    &&& forall|i: int|
        0 <= i < a.len() ==> ascii_lower(#[trigger] a[i]) == ascii_lower(b[i])
}

/// Whether `a` comes before `b` or equals it in the order of code points.
pub open spec fn text_le(a: Seq<char>, b: Seq<char>) -> bool
    decreases a.len(),
{
    if a.len() == 0 {
        true
    } else if b.len() == 0 {
        false
    } else if a[0] == b[0] {
        text_le(a.drop_first(), b.drop_first())
    } else {
        a[0] < b[0]
    }
}

proof fn lemma_trim_start(s: Seq<char>)
    ensures
        trim_start(s).len() > 0 ==> !is_space(trim_start(s)[0]),
    decreases s.len(),
{
    if s.len() > 0 && is_space(s[0]) {
        lemma_trim_start(s.drop_first());
    }
}

proof fn lemma_trim_end(s: Seq<char>)
    ensures
        trim_end(s).is_prefix_of(s),
        trim_end(s).len() > 0 ==> !is_space(trim_end(s).last()),
    decreases s.len(),
{
    if s.len() > 0 && is_space(s.last()) {
        lemma_trim_end(s.drop_last());
    }
}

/// A trimmed text has nothing left to trim.
pub proof fn lemma_trimmed_twice(s: Seq<char>)
    ensures
        trimmed(trimmed(s)) == trimmed(s),
{
    lemma_trim_start(s);
    lemma_trim_end(trim_start(s));
    let t = trimmed(s);
    if t.len() > 0 {
        assert(t[0] == trim_start(s)[0]);
    }
}

pub proof fn lemma_text_le_total(a: Seq<char>, b: Seq<char>)
    ensures
        text_le(a, b) || text_le(b, a),
        text_le(a, a),
    decreases a.len(),
{
    if a.len() > 0 && b.len() > 0 && a[0] == b[0] {
        lemma_text_le_total(a.drop_first(), b.drop_first());
    }
    if a.len() > 0 {
        lemma_text_le_total(a.drop_first(), a.drop_first());
    }
}

pub proof fn lemma_text_le_antisymmetric(a: Seq<char>, b: Seq<char>)
    requires
        text_le(a, b),
        text_le(b, a),
    ensures
        a == b,
    decreases a.len(),
{
    if a.len() > 0 && b.len() > 0 {
        lemma_text_le_antisymmetric(a.drop_first(), b.drop_first());
        assert(a == seq![a[0]] + a.drop_first());
        assert(b == seq![b[0]] + b.drop_first());
    } else {
        assert(a =~= b);
    }
}

pub proof fn lemma_text_le_transitive(a: Seq<char>, b: Seq<char>, c: Seq<char>)
    requires
        text_le(a, b),
        text_le(b, c),
    ensures
        text_le(a, c),
    decreases a.len(),
{
    if a.len() > 0 && b.len() > 0 && c.len() > 0 && a[0] == b[0] && b[0] == c[0] {
        lemma_text_le_transitive(a.drop_first(), b.drop_first(), c.drop_first());
    }
}

pub proof fn lemma_first_pos(s: Seq<char>, c: char)
    ensures
        0 <= first_pos(s, c) <= s.len(),
        first_pos(s, c) < s.len() ==> s[first_pos(s, c)] == c,
        forall|i: int| 0 <= i < first_pos(s, c) ==> s[i] != c,
    decreases s.len(),
{
    if s.len() > 0 && s[0] != c {
        let t = s.drop_first();
        lemma_first_pos(t, c);
        let p = first_pos(t, c);
        if p < t.len() {
            assert(s[p + 1] == t[p]);
        }
        assert forall|i: int| 0 <= i < p + 1 implies s[i] != c by {
            if i > 0 {
                assert(s[i] == t[i - 1]);
            }
        }
    }
}

/// A position before which there is no `c`, and at which there is one or the text ends, is
/// `first_pos`.
pub proof fn lemma_first_pos_is(s: Seq<char>, c: char, p: int)
    requires
        0 <= p <= s.len(),
        p < s.len() ==> s[p] == c,
        forall|i: int| 0 <= i < p ==> s[i] != c,
    ensures
        first_pos(s, c) == p,
{
    lemma_first_pos(s, c);
    let q = first_pos(s, c);
    if q < p {
        assert(s[q] != c);
    } else if p < q {
        assert(s[p] != c);
    }
}

pub proof fn lemma_last_pos(s: Seq<char>, c: char)
    ensures
        -1 <= last_pos(s, c) < s.len(),
        last_pos(s, c) >= 0 ==> s[last_pos(s, c)] == c,
        forall|i: int| last_pos(s, c) < i < s.len() ==> s[i] != c,
    decreases s.len(),
{
    if s.len() > 0 && s.last() != c {
        let t = s.drop_last();
        lemma_last_pos(t, c);
        assert forall|i: int| last_pos(s, c) < i < s.len() implies s[i] != c by {
            if i < s.len() - 1 {
                assert(s[i] == t[i]);
            }
        }
    }
}

/// The characters of `s`, in order.
pub fn to_chars(s: &str) -> (r: Vec<char>)
    ensures
        r@ == s@,
{
    let mut r: Vec<char> = Vec::new();
    for c in it: s.chars()
        invariant
            it.seq() == s@,
            r@ == s@.take(it.index()),
    {
        assert(s@.take(it.index() + 1) == s@.take(it.index()).push(c));
        r.push(c);
    }
    assert(s@.take(s@.len() as int) == s@);
    r
}

/// The text made of `v[from..to]`.
pub fn text_of(v: &Vec<char>, from: usize, to: usize) -> (r: String)
    requires
        from <= to <= v@.len(),
    ensures
        r@ == v@.subrange(from as int, to as int),
{
    let mut r = String::new();
    let mut i: usize = from;
    while i < to
        invariant
            from <= i <= to <= v@.len(),
            r@ == v@.subrange(from as int, i as int),
        decreases to - i,
    {
        r.push(v[i]);
        assert(v@.subrange(from as int, i + 1) == v@.subrange(from as int, i as int).push(v@[i as int]));
        i = i + 1;
    }
    r
}

/// The characters of `v[from..to]`.
pub fn slice_of(v: &Vec<char>, from: usize, to: usize) -> (r: Vec<char>)
    requires
        from <= to <= v@.len(),
    ensures
        r@ == v@.subrange(from as int, to as int),
{
    let mut r: Vec<char> = Vec::new();
    let mut i: usize = from;
    while i < to
        invariant
            from <= i <= to <= v@.len(),
            r@ == v@.subrange(from as int, i as int),
        decreases to - i,
    {
        r.push(v[i]);
        assert(v@.subrange(from as int, i + 1) == v@.subrange(from as int, i as int).push(v@[i as int]));
        i = i + 1;
    }
    r
}

/// Whether `a` and `b` are the same text.
pub fn same(a: &str, b: &str) -> (r: bool)
    ensures
        r == (a@ == b@),
{
    let x: String = a.to_owned();
    let y: String = b.to_owned();
    x == y
}

/// `a` followed by `b`.
pub fn join2(a: &str, b: &str) -> (r: String)
    ensures
        r@ == a@ + b@,
{
    let mut r: String = a.to_owned();
    r.append(b);
    r
}

/// `a`, `b` and `c`, one after the other.
pub fn join3(a: &str, b: &str, c: &str) -> (r: String)
    ensures
        r@ == a@ + b@ + c@,
{
    let mut r: String = a.to_owned();
    r.append(b);
    r.append(c);
    r
}

/// Whether `c` has the Unicode `White_Space` property.
pub fn space(c: char) -> (r: bool)
    ensures
        r == is_space(c),
{
    ('\u{9}' <= c && c <= '\u{d}') || c == '\u{20}' || c == '\u{85}' || c == '\u{a0}' || c
        == '\u{1680}' || ('\u{2000}' <= c && c <= '\u{200a}') || c == '\u{2028}' || c == '\u{2029}'
        || c == '\u{202f}' || c == '\u{205f}' || c == '\u{3000}'
}

/// `s` without the white space at either end.
pub fn trim(s: &str) -> (r: String)
    ensures
        r@ == trimmed(s@),
{
    let v: Vec<char> = to_chars(s);
    let n: usize = v.len();
    let mut i: usize = 0;
    assert(v@.skip(0) == v@);
    while i < n && space(v[i])
        invariant
            i <= n == v@.len(),
            trim_start(v@) == trim_start(v@.skip(i as int)),
        decreases n - i,
    {
        assert(v@.skip(i as int).drop_first() == v@.skip(i + 1));
        i = i + 1;
    }
    let mut j: usize = n;
    assert(v@.skip(i as int) == v@.subrange(i as int, j as int));
    while i < j && space(v[j - 1])
        invariant
            i <= j <= n == v@.len(),
            trimmed(v@) == trim_end(v@.subrange(i as int, j as int)),
        decreases j,
    {
        assert(v@.subrange(i as int, j as int).drop_last() == v@.subrange(i as int, j - 1));
        j = j - 1;
    }
    text_of(&v, i, j)
}

/// The position of the first `c` at or after `from`, or the length of `v`.
pub fn find(v: &Vec<char>, c: char, from: usize) -> (r: usize)
    requires
        from <= v@.len(),
    ensures
        r == from + first_pos(v@.skip(from as int), c),
{
    let mut i: usize = from;
    while i < v.len() && v[i] != c
        invariant
            from <= i <= v@.len(),
            forall|k: int| from <= k < i ==> v@[k] != c,
        decreases v@.len() - i,
    {
        i = i + 1;
    }
    proof {
        lemma_first_pos_is(v@.skip(from as int), c, i - from);
    }
    i
}

/// `s` cut at the first `c`.
pub fn split_once(s: &str, c: char) -> (r: Option<(String, String)>)
    ensures
        match r {
            Some(t) => cut_first(s@, c) == Some((t.0@, t.1@)),
            None => cut_first(s@, c) is None,
        },
{
    let v: Vec<char> = to_chars(s);
    assert(v@.skip(0) == v@);
    let p: usize = find(&v, c, 0);
    proof {
        lemma_first_pos(v@, c);
    }
    if p < v.len() {
        Some((text_of(&v, 0, p), text_of(&v, p + 1, v.len())))
    } else {
        None
    }
}

/// `s` cut at the last `c`.
pub fn rsplit_once(s: &str, c: char) -> (r: Option<(String, String)>)
    ensures
        match r {
            Some(t) => cut_last(s@, c) == Some((t.0@, t.1@)),
            None => cut_last(s@, c) is None,
        },
{
    let v: Vec<char> = to_chars(s);
    let mut n: usize = v.len();
    assert(v@.take(n as int) == v@);
    while n > 0 && v[n - 1] != c
        invariant
            n <= v@.len(),
            last_pos(v@, c) == last_pos(v@.take(n as int), c),
        decreases n,
    {
        assert(v@.take(n as int).drop_last() == v@.take(n - 1));
        n = n - 1;
    }
    if n > 0 {
        Some((text_of(&v, 0, n - 1), text_of(&v, n, v.len())))
    } else {
        None
    }
}

/// The pieces of `v` between the occurrences of `c`.
pub fn split(v: &Vec<char>, c: char) -> (r: Vec<Vec<char>>)
    ensures
        r@.len() == split_on(v@, c).len(),
        forall|i: int| 0 <= i < r@.len() ==> (#[trigger] r@[i])@ == split_on(v@, c)[i],
{
    let mut r: Vec<Vec<char>> = Vec::new();
    let mut i: usize = 0;
    let ghost all = split_on(v@, c);
    assert(v@.skip(0) == v@);
    assert(all == Seq::<Seq<char>>::empty() + split_on(v@.skip(0), c));
    loop
        invariant
            i <= v@.len(),
            all == split_on(v@, c),
            r@.len() + split_on(v@.skip(i as int), c).len() == all.len(),
            all.skip(r@.len() as int) == split_on(v@.skip(i as int), c),
            forall|k: int| 0 <= k < r@.len() ==> (#[trigger] r@[k])@ == all[k],
        decreases v@.len() - i,
    {
        let ghost rest = v@.skip(i as int);
        proof {
            lemma_first_pos(rest, c);
        }
        let p: usize = find(v, c, i);
        let piece: Vec<char> = slice_of(v, i, p);
        let ghost done = r@.len() as int;
        assert(piece@ == rest.take(p - i));
        assert(split_on(rest, c)[0] == piece@) by {
            assert(rest.take(p - i) == rest || p < v@.len());
        }
        assert(all[done] == all.skip(done)[0]);
        r.push(piece);
        if p == v.len() {
            return r;
        }
        assert(rest.skip(p - i + 1) == v@.skip(p + 1));
        assert(all.skip(done + 1) == split_on(v@.skip(p + 1), c)) by {
            let tail = split_on(v@.skip(p + 1), c);
            assert(split_on(rest, c) == seq![piece@] + tail);
            assert(all.skip(done + 1) =~= tail) by {
                assert forall|k: int| 0 <= k < tail.len() implies all.skip(done + 1)[k] == tail[k] by {
                    assert(all.skip(done)[k + 1] == (seq![piece@] + tail)[k + 1]);
                }
            }
        }
        i = p + 1;
    }
}

pub proof fn lemma_number_push(s: Seq<char>, i: int, radix: nat)
    requires
        0 <= i < s.len(),
    ensures
        number(s.take(i + 1), radix) == number(s.take(i), radix) * radix + digit_value(s[i]),
{
    assert(s.take(i + 1).drop_last() == s.take(i));
}

/// The number that a prefix spells is at most what the whole spells.
pub proof fn lemma_number_prefix(s: Seq<char>, i: int, radix: nat)
    requires
        0 <= i <= s.len(),
        radix >= 1,
    ensures
        number(s.take(i), radix) <= number(s, radix),
    decreases s.len(),
{
    if i < s.len() {
        lemma_number_prefix(s.drop_last(), i, radix);
        assert(s.drop_last().take(i) == s.take(i));
        let a = number(s.drop_last(), radix);
        assert(a <= a * radix) by (nonlinear_arith)
            requires
                radix >= 1,
        ;
    } else {
        assert(s.take(i) == s);
    }
}

/// The digits of `n` spell `n`; the first is a zero only if it is the only one.
pub proof fn lemma_digits_spell(n: nat, radix: nat)
    requires
        2 <= radix <= 16,
    ensures
        digits_of(n, radix).len() >= 1,
        all_digits(digits_of(n, radix), radix),
        number(digits_of(n, radix), radix) == n,
        digits_of(n, radix)[0] == '0' ==> n == 0 && digits_of(n, radix).len() == 1,
    decreases n,
{
    let d = digits_of(n, radix);
    if n < radix {
        assert(d =~= seq![digit_char(n)]);
        assert(digit_value(d[0]) == n);
        assert(d.drop_last() =~= Seq::<char>::empty());
        assert(number(d.drop_last(), radix) == 0);
        assert(0 * radix == 0);
    } else {
        let q = n / radix;
        let r = n % radix;
        vstd::arithmetic::div_mod::lemma_div_decreases(n as int, radix as int);
        vstd::arithmetic::div_mod::lemma_fundamental_div_mod(n as int, radix as int);
        assert(r < radix) by {
            vstd::arithmetic::div_mod::lemma_mod_bound(n as int, radix as int);
        }
        assert(q >= 1) by (nonlinear_arith)
            requires
                n >= radix,
                n == radix * q + r,
                r < radix,
        ;
        lemma_digits_spell(q, radix);
        let front = digits_of(q, radix);
        assert(d =~= front.push(digit_char(r)));
        assert(d.drop_last() =~= front);
        assert(digit_value(digit_char(r)) == r);
        assert(q * radix == radix * q) by (nonlinear_arith);
        assert forall|i: int| 0 <= i < d.len() implies digit_value(#[trigger] d[i]) < radix by {
            if i < front.len() {
                assert(d[i] == front[i]);
            }
        }
        assert(d[0] == front[0]);
    }
}

/// A number below 1000 has at most three decimal digits, one below 65536 at most four
/// hexadecimal ones.
pub proof fn lemma_short_digits(n: nat)
    ensures
        n < 1000 ==> digits_of(n, 10).len() <= 3,
        n < 65536 ==> digits_of(n, 16).len() <= 4,
{
    reveal_with_fuel(digits_of, 5);
    if n < 1000 {
        let a = n / 10;
        let b = a / 10;
        assert(a < 100 && b < 10);
    }
    if n < 65536 {
        let a = n / 16;
        let b = a / 16;
        let c = b / 16;
        assert(a < 4096 && b < 256 && c < 16);
    }
}

/// The decimal form of a number reads back as that number.
pub proof fn lemma_decimal_reads_back(n: nat, max: nat)
    requires
        n <= max,
    ensures
        unsigned(decimal_text(n), max) == Some(n),
{
    lemma_digits_spell(n, 10);
    assert(digit_value(decimal_text(n)[0]) < 10);
}

/// Whether `c` does not occur in `s`.
pub open spec fn lacks(s: Seq<char>, c: char) -> bool {
    forall|i: int| 0 <= i < s.len() ==> #[trigger] s[i] != c
}

/// Digits are no separators.
pub proof fn lemma_digits_lack(s: Seq<char>, radix: nat, c: char)
    requires
        all_digits(s, radix),
        radix <= 16,
        digit_value(c) == 16,
    ensures
        lacks(s, c),
{
    assert forall|i: int| 0 <= i < s.len() implies #[trigger] s[i] != c by {
        assert(digit_value(s[i]) < radix);
    }
}

/// What is split off in front of the first separator.
pub proof fn lemma_split_front(a: Seq<char>, c: char, rest: Seq<char>)
    requires
        lacks(a, c),
    ensures
        split_on(a + seq![c] + rest, c) == seq![a] + split_on(rest, c),
        split_on(a, c) == seq![a],
        first_pos(a + seq![c] + rest, c) == a.len(),
{
    let s = a + seq![c] + rest;
    assert(s[a.len() as int] == c);
    assert forall|i: int| 0 <= i < a.len() implies s[i] != c by {
        assert(s[i] == a[i]);
    }
    lemma_first_pos_is(s, c, a.len() as int);
    assert(s.take(a.len() as int) =~= a);
    assert(s.skip(a.len() as int + 1) =~= rest);
    lemma_first_pos(a, c);
    if first_pos(a, c) < a.len() {
        assert(a[first_pos(a, c)] == c);
    }
}

/// What is split off behind the last separator.
pub proof fn lemma_split_back(a: Seq<char>, c: char, b: Seq<char>)
    requires
        lacks(b, c),
    ensures
        split_on(a + seq![c] + b, c) == split_on(a, c).push(b),
    decreases a.len(),
{
    lemma_first_pos(a, c);
    let p = first_pos(a, c);
    if p < a.len() {
        let front = a.take(p);
        let rest = a.skip(p + 1);
        assert(a =~= front + seq![c] + rest);
        assert(a + seq![c] + b =~= front + seq![c] + (rest + seq![c] + b));
        assert(lacks(front, c)) by {
            assert forall|i: int| 0 <= i < front.len() implies #[trigger] front[i] != c by {
                assert(front[i] == a[i]);
            }
        }
        lemma_split_front(front, c, rest);
        lemma_split_front(front, c, rest + seq![c] + b);
        lemma_split_back(rest, c, b);
        assert((seq![front] + split_on(rest, c)).push(b) =~= seq![front] + split_on(rest, c).push(
            b,
        ));
    } else {
        assert(lacks(a, c));
        lemma_split_front(a, c, b);
        lemma_split_front(b, c, b);
        assert(seq![a] + seq![b] =~= seq![a].push(b));
    }
}

/// A text whose pieces all lack a character lacks it, but for the separator.
pub proof fn lemma_pieces_lack(s: Seq<char>, c: char, d: char)
    requires
        c != d,
        forall|i: int| 0 <= i < split_on(s, c).len() ==> lacks(#[trigger] split_on(s, c)[i], d),
    ensures
        lacks(s, d),
    decreases s.len(),
{
    lemma_first_pos(s, c);
    let p = first_pos(s, c);
    let pieces = split_on(s, c);
    if p < s.len() {
        let rest = s.skip(p + 1);
        let more = split_on(rest, c);
        assert(pieces =~= seq![s.take(p)] + more);
        assert(lacks(pieces[0], d));
        assert forall|i: int| 0 <= i < more.len() implies lacks(#[trigger] more[i], d) by {
            assert(pieces[i + 1] == more[i]);
        }
        lemma_pieces_lack(rest, c, d);
        assert forall|i: int| 0 <= i < s.len() implies #[trigger] s[i] != d by {
            if i < p {
                assert(s.take(p)[i] == s[i]);
            } else if i > p {
                assert(rest[i - p - 1] == s[i]);
            }
        }
    } else {
        assert(pieces[0] == s);
    }
}

/// The value of a hexadecimal digit, or 16 for any other character.
pub fn digit(c: char) -> (r: u32)
    ensures
        r == digit_value(c),
{
    if '0' <= c && c <= '9' {
        c as u32 - '0' as u32
    } else if 'a' <= c && c <= 'f' {
        c as u32 - 'a' as u32 + 10
    } else if 'A' <= c && c <= 'F' {
        c as u32 - 'A' as u32 + 10
    } else {
        16
    }
}

/// The number that `v[from..]` spells in `radix`, when it is made of digits only, there is
/// at least one, and the number is at most `max`.
pub fn parse_digits(v: &Vec<char>, from: usize, radix: u32, max: u64) -> (r: Option<u64>)
    requires
        from <= v@.len(),
        radix == 10 || radix == 16,
    ensures
        match r {
            Some(n) => v@.len() > from && all_digits(v@.skip(from as int), radix as nat) && n
                == number(v@.skip(from as int), radix as nat) && n <= max,
            None => !(v@.len() > from && all_digits(v@.skip(from as int), radix as nat) && number(
                v@.skip(from as int),
                radix as nat,
            ) <= max),
        },
{
    let ghost s = v@.skip(from as int);
    if v.len() == from {
        return None;
    }
    let mut n: u64 = 0;
    let mut i: usize = from;
    assert(s.take(0) == Seq::<char>::empty());
    while i < v.len()
        invariant
            from <= i <= v@.len(),
            radix == 10 || radix == 16,
            s == v@.skip(from as int),
            n == number(s.take(i - from), radix as nat),
            n <= max,
            forall|k: int| 0 <= k < i - from ==> digit_value(#[trigger] s[k]) < radix,
        decreases v@.len() - i,
    {
        let d: u32 = digit(v[i]);
        assert(s[i - from] == v@[i as int]);
        if d >= radix {
            return None;
        }
        let wide: u128 = n as u128 * radix as u128 + d as u128;
        proof {
            lemma_number_push(s, i - from, radix as nat);
            lemma_number_prefix(s, i - from + 1, radix as nat);
            assert(n * radix == n * 10 || n * radix == n * 16);
        }
        if wide > max as u128 {
            return None;
        }
        n = wide as u64;
        i = i + 1;
    }
    assert(s.take(s.len() as int) == s);
    Some(n)
}

/// The unsigned decimal number that `s` spells, when it spells one of at most `max`.
pub fn parse_unsigned(s: &str, max: u64) -> (r: Option<u64>)
    ensures
        match r {
            Some(n) => unsigned(s@, max as nat) == Some(n as nat),
            None => unsigned(s@, max as nat) is None,
        },
{
    let v: Vec<char> = to_chars(s);
    if v.len() > 0 && v[0] == '+' {
        assert(v@.skip(1) == v@.drop_first());
        parse_digits(&v, 1, 10, max)
    } else {
        assert(v@.skip(0) == v@);
        parse_digits(&v, 0, 10, max)
    }
}

/// `n` in `radix`, in lower case and without leading zeros.
pub fn digits(n: u64, radix: u64) -> (r: String)
    requires
        2 <= radix <= 16,
    ensures
        r@ == digits_of(n as nat, radix as nat),
    decreases n,
{
    if n < radix {
        let mut r = String::new();
        r.push(digit_text(n));
        assert(r@ == seq![digit_char(n as nat)]);
        r
    } else {
        assert(n / radix < n) by (nonlinear_arith)
            requires
                2 <= radix <= n,
        ;
        let mut r = digits(n / radix, radix);
        assert(n % radix < radix) by (nonlinear_arith)
            requires
                2 <= radix,
        ;
        r.push(digit_text(n % radix));
        r
    }
}

fn digit_text(d: u64) -> (r: char)
    requires
        d < 16,
    ensures
        r == digit_char(d as nat),
{
    if d < 10 {
        (48 + d as u8) as char
    } else {
        (87 + d as u8) as char
    }
}

/// `n` in decimal.
pub fn decimal(n: u64) -> (r: String)
    ensures
        r@ == decimal_text(n as nat),
{
    digits(n, 10)
}

/// Whether `a` and `b` are the same text but for the case of ASCII letters.
pub fn eq_ignore_case(a: &str, b: &str) -> (r: bool)
    ensures
        r == same_ignoring_case(a@, b@),
{
    let x: Vec<char> = to_chars(a);
    let y: Vec<char> = to_chars(b);
    if x.len() != y.len() {
        return false;
    }
    let mut i: usize = 0;
    while i < x.len()
        invariant
            i <= x@.len() == y@.len(),
            x@ == a@,
            y@ == b@,
            forall|k: int| 0 <= k < i ==> ascii_lower(#[trigger] x@[k]) == ascii_lower(y@[k]),
        decreases x@.len() - i,
    {
        if lower(x[i]) != lower(y[i]) {
            assert(ascii_lower(x@[i as int]) != ascii_lower(y@[i as int]));
            return false;
        }
        i = i + 1;
    }
    true
}

fn lower(c: char) -> (r: char)
    ensures
        r == ascii_lower(c),
{
    if 'A' <= c && c <= 'Z' {
        (c as u8 + 32) as char
    } else {
        c
    }
}

/// Whether `s` begins with `c`.
pub fn starts_with(s: &str, c: char) -> (r: bool)
    ensures
        r == (s@.len() > 0 && s@[0] == c),
{
    let v: Vec<char> = to_chars(s);
    v.len() > 0 && v[0] == c
}

/// Whether `a` comes before `b` or equals it in the order of code points.
pub fn le(a: &str, b: &str) -> (r: bool)
    ensures
        r == text_le(a@, b@),
{
    let x: Vec<char> = to_chars(a);
    let y: Vec<char> = to_chars(b);
    let mut i: usize = 0;
    assert(x@.skip(0) == x@ && y@.skip(0) == y@);
    while i < x.len() && i < y.len() && x[i] == y[i]
        invariant
            i <= x@.len(),
            i <= y@.len(),
            text_le(x@, y@) == text_le(x@.skip(i as int), y@.skip(i as int)),
        decreases x@.len() - i,
    {
        assert(x@.skip(i as int).drop_first() == x@.skip(i + 1));
        assert(y@.skip(i as int).drop_first() == y@.skip(i + 1));
        i = i + 1;
    }
    if i == x.len() {
        true
    } else if i == y.len() {
        false
    } else {
        x[i] < y[i]
    }
}

/// The white space characters, by their code points.
pub proof fn law_white_space(c: char)
    ensures
        is_space(c) <==> {
            let n = c as int;
            ||| 9 <= n <= 13
            ||| n == 32
            ||| n == 133
            ||| n == 160
            ||| n == 5760
            ||| 8192 <= n <= 8202
            ||| n == 8232
            ||| n == 8233
            ||| n == 8239
            ||| n == 8287
            ||| n == 12288
        },
{
}

proof fn lemma_trim_front(pre: Seq<char>, rest: Seq<char>)
    requires
        forall|i: int| 0 <= i < pre.len() ==> is_space(#[trigger] pre[i]),
        rest.len() > 0 ==> !is_space(rest[0]),
    ensures
        trim_start(pre + rest) == rest,
    decreases pre.len(),
{
    if pre.len() > 0 {
        let less = pre.drop_first();
        assert forall|i: int| 0 <= i < less.len() implies is_space(#[trigger] less[i]) by {
            assert(less[i] == pre[i + 1]);
        }
        lemma_trim_front(less, rest);
        assert((pre + rest)[0] == pre[0]);
        assert((pre + rest).drop_first() =~= less + rest);
    } else {
        assert(pre + rest =~= rest);
    }
}

proof fn lemma_trim_back(rest: Seq<char>, post: Seq<char>)
    requires
        forall|i: int| 0 <= i < post.len() ==> is_space(#[trigger] post[i]),
        rest.len() > 0 ==> !is_space(rest.last()),
    ensures
        trim_end(rest + post) == rest,
    decreases post.len(),
{
    if post.len() > 0 {
        let less = post.drop_last();
        assert forall|i: int| 0 <= i < less.len() implies is_space(#[trigger] less[i]) by {
            assert(less[i] == post[i]);
        }
        lemma_trim_back(rest, less);
        assert(is_space(post[post.len() - 1]));
        assert((rest + post).last() == post.last());
        assert((rest + post).drop_last() =~= rest + less);
    } else {
        assert(rest + post =~= rest);
    }
}

/// To trim is to take off all the white space at both ends and nothing else: a text that
/// neither begins nor ends with white space is what is left, whatever white space was put
/// around it.
pub proof fn law_trim(pre: Seq<char>, core: Seq<char>, post: Seq<char>)
    requires
        forall|i: int| 0 <= i < pre.len() ==> is_space(#[trigger] pre[i]),
        forall|i: int| 0 <= i < post.len() ==> is_space(#[trigger] post[i]),
        core.len() > 0 ==> !is_space(core[0]) && !is_space(core.last()),
    ensures
        trimmed(pre + core + post) == core,
        trimmed(core) == core,
{
    let none = Seq::<char>::empty();
    if core.len() > 0 {
        assert((core + post)[0] == core[0]);
        assert(pre + core + post =~= pre + (core + post));
        lemma_trim_front(pre, core + post);
    } else {
        let all = pre + core + post;
        assert forall|i: int| 0 <= i < all.len() implies is_space(#[trigger] all[i]) by {
            if i < pre.len() {
                assert(all[i] == pre[i]);
            } else {
                assert(all[i] == post[i - pre.len()]);
            }
        }
        assert(all =~= all + none);
        lemma_trim_front(all, none);
        assert(core =~= none);
    }
    lemma_trim_back(core, post);
    if core.len() == 0 {
        assert(trim_end(none) == none);
    }
}

/// To cut at a separator: what stands before it and what stands after it come out whole; the
/// first separator counts for the one, the last for the other; without one nothing is cut.
pub proof fn law_cut(a: Seq<char>, c: char, b: Seq<char>)
    ensures
        !a.contains(c) ==> cut_first(a + seq![c] + b, c) == Some((a, b)),
        !b.contains(c) ==> cut_last(a + seq![c] + b, c) == Some((a, b)),
        !a.contains(c) ==> cut_first(a, c) is None && cut_last(a, c) is None,
{
    let s = a + seq![c] + b;
    let n = a.len() as int;
    assert(s[n] == c);
    if !a.contains(c) {
        assert forall|i: int| 0 <= i < n implies s[i] != c && a[i] != c by {
            assert(s[i] == a[i]);
            assert(a.contains(a[i]));
        }
        lemma_first_pos_is(s, c, n);
        lemma_first_pos_is(a, c, n);
        lemma_last_pos(a, c);
        assert(s.take(n) =~= a);
        assert(s.skip(n + 1) =~= b);
    }
    if !b.contains(c) {
        lemma_last_pos(s, c);
        let p = last_pos(s, c);
        if p > n {
            assert(s[p] == b[p - n - 1]);
            assert(b.contains(b[p - n - 1]));
        }
        assert(p == n);
        assert(s.take(n) =~= a);
        assert(s.skip(n + 1) =~= b);
    }
}

/// To split at a separator: a text without it is one piece, and a piece in front of it comes
/// out before the pieces of the rest.
pub proof fn law_split(a: Seq<char>, c: char, rest: Seq<char>)
    requires
        !a.contains(c),
    ensures
        split_on(a, c) == seq![a],
        split_on(a + seq![c] + rest, c) == seq![a] + split_on(rest, c),
{
    assert forall|i: int| 0 <= i < a.len() implies #[trigger] a[i] != c by {
        assert(a.contains(a[i]));
    }
    lemma_split_front(a, c, rest);
}

/// What digits are worth, and how they make up a number.
pub proof fn law_numbers_by_digits(s: Seq<char>, c: char, radix: nat)
    ensures
        digit_value(c) == (if 48 <= c as int <= 57 {
            c as int - 48
        } else if 97 <= c as int <= 102 {
            c as int - 87
        } else if 65 <= c as int <= 70 {
            c as int - 55
        } else {
            16
        }),
        number(Seq::empty(), radix) == 0,
        number(s.push(c), radix) == radix * number(s, radix) + digit_value(c),
{
    assert(s.push(c).drop_last() =~= s);
    let n = number(s, radix);
    assert(n * radix == radix * n) by (nonlinear_arith);
}

/// A text of decimal digits is the number that they spell, with a plus in front or without,
/// unless it is too large.
pub proof fn law_unsigned_is_read(s: Seq<char>, max: nat)
    requires
        s.len() > 0,
        forall|i: int| 0 <= i < s.len() ==> '0' <= #[trigger] s[i] <= '9',
    ensures
        number(s, 10) <= max ==> unsigned(s, max) == Some(number(s, 10)) && unsigned(
            seq!['+'] + s,
            max,
        ) == Some(number(s, 10)),
        number(s, 10) > max ==> unsigned(s, max) is None && unsigned(seq!['+'] + s, max) is None,
{
    assert('0' <= s[0] <= '9');
    assert((seq!['+'] + s).drop_first() =~= s);
    assert forall|i: int| 0 <= i < s.len() implies digit_value(#[trigger] s[i]) < 10 by {
        assert('0' <= s[i] <= '9');
    }
}

/// A text with anything but digits in it, but for one plus in front, is no number; nor is one
/// without a digit.
pub proof fn law_unsigned_is_refused(s: Seq<char>, i: int, max: nat)
    requires
        0 <= i < s.len(),
        !('0' <= s[i] <= '9'),
        i == 0 ==> s[0] != '+' || s.len() == 1,
    ensures
        unsigned(s, max) is None,
        unsigned(Seq::empty(), max) is None,
{
    if s[0] == '+' {
        let d = s.drop_first();
        if s.len() > 1 {
            assert(d[i - 1] == s[i]);
            assert(digit_value(d[i - 1]) >= 10);
        }
    } else {
        assert(digit_value(s[i]) >= 10);
    }
}

/// How a number is written in decimal: below ten it is one digit, and ten times a number plus
/// a digit is that number followed by that digit.
pub proof fn law_decimal_digits(q: nat, d: nat)
    requires
        d < 10,
    ensures
        decimal_text(d) == seq![(48 + d) as char],
        q > 0 ==> decimal_text(10 * q + d) == decimal_text(q).push((48 + d) as char),
{
    let n = 10 * q + d;
    if q > 0 {
        vstd::arithmetic::div_mod::lemma_fundamental_div_mod_converse(
            n as int,
            10,
            q as int,
            d as int,
        );
    }
}

/// And in hexadecimal, where the digits above nine are small letters.
pub proof fn law_hex_digits(q: nat, d: nat)
    requires
        d < 16,
    ensures
        digits_of(d, 16) == seq![
            if d < 10 {
                (48 + d) as char
            } else {
                (87 + d) as char
            },
        ],
        q > 0 ==> digits_of(16 * q + d, 16) == digits_of(q, 16).push(
            if d < 10 {
                (48 + d) as char
            } else {
                (87 + d) as char
            },
        ),
{
    let n = 16 * q + d;
    if q > 0 {
        vstd::arithmetic::div_mod::lemma_fundamental_div_mod_converse(
            n as int,
            16,
            q as int,
            d as int,
        );
    }
}

/// The order of texts is that of the first character in which they differ; a text comes before
/// its extensions.
pub proof fn law_text_order(p: Seq<char>, x: char, a: Seq<char>, y: char, b: Seq<char>)
    ensures
        x < y ==> text_le(p + seq![x] + a, p + seq![y] + b),
        x < y ==> !text_le(p + seq![y] + b, p + seq![x] + a),
        text_le(p, p + a),
        a.len() > 0 ==> !text_le(p + a, p),
    decreases p.len(),
{
    if p.len() > 0 {
        let q = p.drop_first();
        law_text_order(q, x, a, y, b);
        let (l, r) = (p + seq![x] + a, p + seq![y] + b);
        assert(l.drop_first() =~= q + seq![x] + a);
        assert(r.drop_first() =~= q + seq![y] + b);
        assert((p + a).drop_first() =~= q + a);
        assert(l[0] == p[0] && r[0] == p[0] && (p + a)[0] == p[0]);
    } else {
        assert((p + seq![x] + a)[0] == x);
        assert((p + seq![y] + b)[0] == y);
        assert(p + a =~= a);
    }
}

/// The case of letters is ignored, and nothing else: two texts count as the same exactly when
/// at each place they have the same character, or a capital letter of `A` to `Z` and its small
/// one.
pub proof fn law_case_ignored(a: Seq<char>, b: Seq<char>)
    ensures
        same_ignoring_case(a, b) <==> a.len() == b.len() && forall|i: int|
            0 <= i < a.len() ==> {
                ||| #[trigger] a[i] == b[i]
                ||| 'A' <= a[i] <= 'Z' && b[i] as int == a[i] as int + 32
                ||| 'A' <= b[i] <= 'Z' && a[i] as int == b[i] as int + 32
            },
{
    if same_ignoring_case(a, b) {
        assert forall|i: int| 0 <= i < a.len() implies {
            ||| #[trigger] a[i] == b[i]
            ||| 'A' <= a[i] <= 'Z' && b[i] as int == a[i] as int + 32
            ||| 'A' <= b[i] <= 'Z' && a[i] as int == b[i] as int + 32
        } by {
            assert(ascii_lower(a[i]) == ascii_lower(b[i]));
            lemma_lower_char(a[i]);
            lemma_lower_char(b[i]);
        }
    } else if a.len() == b.len() {
        let i = choose|i: int|
            0 <= i < a.len() && ascii_lower(#[trigger] a[i]) != ascii_lower(b[i]);
        lemma_lower_char(a[i]);
        lemma_lower_char(b[i]);
        assert(!({
            ||| a[i] == b[i]
            ||| 'A' <= a[i] <= 'Z' && b[i] as int == a[i] as int + 32
            ||| 'A' <= b[i] <= 'Z' && a[i] as int == b[i] as int + 32
        }));
    }
}

proof fn lemma_lower_char(c: char)
    ensures
        ascii_lower(c) as int == (if 'A' <= c <= 'Z' {
            c as int + 32
        } else {
            c as int
        }),
{
}

} // verus!
