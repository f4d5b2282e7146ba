//! Text, seen as a sequence of characters.

use vstd::prelude::*;

verus! {

/// `String::push` appends one character.
pub assume_specification[ String::push ](s: &mut String, c: char)
    ensures
        final(s)@ == old(s)@.push(c),
;

/// Whether a character is white space in Unicode's sense.
pub open spec fn spec_is_space(c: char) -> bool {
    ||| '\u{9}' <= c <= '\u{d}'
    ||| c == ' '
    ||| c == '\u{85}'
    ||| c == '\u{a0}'
    ||| c == '\u{1680}'
    ||| '\u{2000}' <= c <= '\u{200a}'
    ||| c == '\u{2028}'
    ||| c == '\u{2029}'
    ||| c == '\u{202f}'
    ||| c == '\u{205f}'
    ||| c == '\u{3000}'
}

/// Whether a character is white space in Unicode's sense.
#[verifier::when_used_as_spec(spec_is_space)]
pub fn is_space(c: char) -> (r: bool)
    ensures
        r == spec_is_space(c),
{
    ('\u{9}' <= c && c <= '\u{d}') || c == ' ' || c == '\u{85}' || c == '\u{a0}' || c == '\u{1680}'
        || ('\u{2000}' <= c && c <= '\u{200a}') || c == '\u{2028}' || c == '\u{2029}' || c
        == '\u{202f}' || c == '\u{205f}' || c == '\u{3000}'
}

/// An ASCII letter or digit.
pub open spec fn spec_is_alphanumeric(c: char) -> bool {
    ||| '0' <= c <= '9'
    ||| 'a' <= c <= 'z'
    ||| 'A' <= c <= 'Z'
}

/// An ASCII letter or digit.
#[verifier::when_used_as_spec(spec_is_alphanumeric)]
pub fn is_alphanumeric(c: char) -> (r: bool)
    ensures
        r == spec_is_alphanumeric(c),
{
    ('0' <= c && c <= '9') || ('a' <= c && c <= 'z') || ('A' <= c && c <= 'Z')
}

/// The character with an ASCII capital made small.
pub open spec fn spec_small(c: char) -> char {
    if 'A' <= c <= 'Z' {
        (c as u8 + 32) as char
    } else {
        c
    }
}

/// The character with an ASCII capital made small.
#[verifier::when_used_as_spec(spec_small)]
pub fn small(c: char) -> (r: char)
    ensures
        r == spec_small(c),
{
    if 'A' <= c && c <= 'Z' {
        (c as u8 + 32) as char
    } else {
        c
    }
}

/// The character with a small ASCII letter made a capital.
pub open spec fn spec_capital(c: char) -> char {
    if 'a' <= c <= 'z' {
        (c as u8 - 32) as char
    } else {
        c
    }
}

/// The character with a small ASCII letter made a capital.
#[verifier::when_used_as_spec(spec_capital)]
pub fn capital(c: char) -> (r: char)
    ensures
        r == spec_capital(c),
{
    if 'a' <= c && c <= 'z' {
        (c as u8 - 32) as char
    } else {
        c
    }
}

/// Whether two texts hold the same characters.
pub fn same(a: &str, b: &str) -> (r: bool)
    ensures
        r == (a@ == b@),
{
    a.to_owned() == b.to_owned()
}

/// The characters of a text.
pub fn letters(s: &str) -> (r: Vec<char>)
    ensures
        r@ == s@,
{
    let mut v: Vec<char> = Vec::new();
    for c in it: s.chars()
        invariant
            v@ == it.seq().take(it.index() as int),
            it.seq() == s@,
    {
        v.push(c);
        assert(it.seq().take(it.index() + 1) =~= it.seq().take(it.index() as int).push(c));
    }
    assert(s@.take(s@.len() as int) =~= s@);
    v
}

/// The text made of characters `from` to `to` of a list.
pub fn gathered(v: &Vec<char>, from: usize, to: usize) -> (r: String)
    requires
        from <= to <= v.len(),
    ensures
        r@ == v@.subrange(from as int, to as int),
{
    let mut s = String::new();
    let mut i: usize = from;
    while i < to
        invariant
            from <= i <= to <= v.len(),
            s@ == v@.subrange(from as int, i as int),
        decreases to - i,
    {
        s.push(v[i]);
        i += 1;
        assert(v@.subrange(from as int, i as int) =~= v@.subrange(from as int, i - 1).push(
            v@[i - 1],
        ));
    }
    s
}

/// A text with its ASCII capitals made small.
pub open spec fn lowered(s: Seq<char>) -> Seq<char> {
    Seq::new(s.len(), |i: int| spec_small(s[i]))
}

/// A text with its small ASCII letters made capitals.
pub open spec fn raised(s: Seq<char>) -> Seq<char> {
    Seq::new(s.len(), |i: int| spec_capital(s[i]))
}

/// A text with its ASCII capitals made small.
pub fn lower(s: &str) -> (r: String)
    ensures
        r@ == lowered(s@),
{
    let v = letters(s);
    let mut out = String::new();
    for i in 0..v.len()
        invariant
            v@ == s@,
            out@ == lowered(s@).take(i as int),
    {
        out.push(small(v[i]));
        assert(lowered(s@).take(i + 1) =~= lowered(s@).take(i as int).push(small(v[i as int])));
    }
    assert(lowered(s@).take(s@.len() as int) =~= lowered(s@));
    out
}

/// A text with its small ASCII letters made capitals.
pub fn upper(s: &str) -> (r: String)
    ensures
        r@ == raised(s@),
{
    let v = letters(s);
    let mut out = String::new();
    for i in 0..v.len()
        invariant
            v@ == s@,
            out@ == raised(s@).take(i as int),
    {
        out.push(capital(v[i]));
        assert(raised(s@).take(i + 1) =~= raised(s@).take(i as int).push(capital(v[i as int])));
    }
    assert(raised(s@).take(s@.len() as int) =~= raised(s@));
    out
}

/// A text without the white space that it begins with.
pub open spec fn without_leading(s: Seq<char>) -> Seq<char>
    decreases s.len(),
{
    if s.len() > 0 && spec_is_space(s[0]) {
        without_leading(s.drop_first())
    } else {
        s
    }
}

/// A text without the white space that it ends with.
pub open spec fn without_trailing(s: Seq<char>) -> Seq<char>
    decreases s.len(),
{
    if s.len() > 0 && spec_is_space(s.last()) {
        without_trailing(s.drop_last())
    } else {
        s
    }
}

/// A text without the white space around it.
pub open spec fn trimmed(s: Seq<char>) -> Seq<char> {
    without_trailing(without_leading(s))
}

/// How many characters of white space a list begins with.
pub fn leading(v: &Vec<char>) -> (r: usize)
    ensures
        r <= v.len(),
        v@.skip(r as int) == without_leading(v@),
{
    let mut i: usize = 0;
    assert(v@.skip(0) =~= v@);
    while i < v.len() && is_space(v[i])
        invariant
            i <= v.len(),
            without_leading(v@.skip(i as int)) == without_leading(v@),
        decreases v.len() - i,
    {
        assert(v@.skip(i as int).drop_first() =~= v@.skip(i + 1));
        i += 1;
    }
    i
}

/// A text without the white space around it.
pub fn trim(s: &str) -> (r: String)
    ensures
        r@ == trimmed(s@),
{
    let v = letters(s);
    let from = leading(&v);
    let mut to: usize = v.len();
    assert(v@.subrange(from as int, to as int) =~= v@.skip(from as int));
    while to > from && is_space(v[to - 1])
        invariant
            from <= to <= v.len(),
            without_trailing(v@.subrange(from as int, to as int)) == without_trailing(
                v@.skip(from as int),
            ),
        decreases to,
    {
        assert(v@.subrange(from as int, to as int).drop_last() =~= v@.subrange(
            from as int,
            to - 1,
        ));
        to -= 1;
    }
    gathered(&v, from, to)
}

/// Whether `s` begins with `head`.
pub open spec fn begins(s: Seq<char>, head: Seq<char>) -> bool {
    head.len() <= s.len() && s.take(head.len() as int) == head
}

/// Whether `s` ends with `tail`.
pub open spec fn ends(s: Seq<char>, tail: Seq<char>) -> bool {
    tail.len() <= s.len() && s.skip(s.len() - tail.len()) == tail
}

/// Whether `part` stands somewhere in `s`.
pub open spec fn holds(s: Seq<char>, part: Seq<char>) -> bool {
    exists|i: int|
        0 <= i <= s.len() - part.len() && #[trigger] s.subrange(i, i + part.len()) == part
}

/// Whether `part` stands in `v` at position `at`.
fn stands(v: &Vec<char>, part: &Vec<char>, at: usize) -> (r: bool)
    requires
        at + part.len() <= v.len(),
    ensures
        r == (v@.subrange(at as int, at + part.len()) == part@),
{
    for k in 0..part.len()
        invariant
            at + part.len() <= v.len(),
            forall|j: int| 0 <= j < k ==> v@[at + j] == #[trigger] part@[j],
    {
        if v[at + k] != part[k] {
            assert(v@.subrange(at as int, at + part.len())[k as int] != part@[k as int]);
            return false;
        }
    }
    assert(v@.subrange(at as int, at + part.len()) =~= part@);
    true
}

/// Whether `s` begins with `head`.
pub fn starts_with(s: &str, head: &str) -> (r: bool)
    ensures
        r == begins(s@, head@),
{
    let v = letters(s);
    let h = letters(head);
    if h.len() > v.len() {
        return false;
    }
    assert(v@.subrange(0, h.len() as int) =~= v@.take(h.len() as int));
    stands(&v, &h, 0)
}

/// Whether `s` ends with `tail`.
pub fn ends_with(s: &str, tail: &str) -> (r: bool)
    ensures
        r == ends(s@, tail@),
{
    let v = letters(s);
    let t = letters(tail);
    if t.len() > v.len() {
        return false;
    }
    assert(v@.subrange(v.len() - t.len(), v.len() as int) =~= v@.skip(v.len() - t.len()));
    stands(&v, &t, v.len() - t.len())
}

/// Whether `part` stands somewhere in `s`.
pub fn contains(s: &str, part: &str) -> (r: bool)
    ensures
        r == holds(s@, part@),
{
    let v = letters(s);
    let p = letters(part);
    if p.len() > v.len() {
        return false;
    }
    let mut i: usize = 0;
    while i <= v.len() - p.len()
        invariant
            p.len() <= v.len(),
            i <= v.len() - p.len() + 1,
            v@ == s@,
            p@ == part@,
            forall|j: int|
                0 <= j < i ==> #[trigger] s@.subrange(j, j + part@.len()) != part@,
        decreases v.len() - p.len() + 1 - i,
    {
        if stands(&v, &p, i) {
            assert(s@.subrange(i as int, i + part@.len()) == part@);
            return true;
        }
        if i == v.len() - p.len() {
            return false;
        }
        i += 1;
    }
    false
}

/// The order of texts: by the first character in which they differ, a text before what
/// continues it.
pub open spec fn precedes(a: Seq<char>, b: Seq<char>) -> bool
    decreases a.len(),
{
    if b.len() == 0 {
        false
    } else if a.len() == 0 {
        true
    } else if a[0] != b[0] {
        a[0] < b[0]
    } else {
        precedes(a.drop_first(), b.drop_first())
    }
}

/// No text precedes itself.
pub proof fn lemma_precedes_irreflexive(a: Seq<char>)
    ensures
        !precedes(a, a),
    decreases a.len(),
{
    if a.len() > 0 {
        lemma_precedes_irreflexive(a.drop_first());
    }
}

/// What precedes a text precedes all that the text precedes.
pub proof fn lemma_precedes_transitive(a: Seq<char>, b: Seq<char>, c: Seq<char>)
    requires
        precedes(a, b),
        precedes(b, c),
    ensures
        precedes(a, c),
    decreases a.len(),
{
    if a.len() > 0 && a[0] == b[0] && b[0] == c[0] {
        lemma_precedes_transitive(a.drop_first(), b.drop_first(), c.drop_first());
    }
}

/// Of two texts that differ, one precedes the other.
pub proof fn lemma_precedes_total(a: Seq<char>, b: Seq<char>)
    ensures
        a == b || precedes(a, b) || precedes(b, a),
    decreases a.len(),
{
    if a.len() == 0 || b.len() == 0 {
        if a.len() == 0 && b.len() == 0 {
            assert(a =~= b);
        }
    } else if a[0] == b[0] {
        lemma_precedes_total(a.drop_first(), b.drop_first());
        if a.drop_first() == b.drop_first() {
            assert(a =~= seq![a[0]] + a.drop_first());
            assert(b =~= seq![b[0]] + b.drop_first());
        }
    }
}

/// Whether `a` comes before `b` in the order of texts.
pub fn before(a: &str, b: &str) -> (r: bool)
    ensures
        r == precedes(a@, b@),
{
    let v = letters(a);
    let w = letters(b);
    let mut i: usize = 0;
    assert(v@.skip(0) =~= v@);
    assert(w@.skip(0) =~= w@);
    while i < v.len() && i < w.len() && v[i] == w[i]
        invariant
            i <= v.len(),
            i <= w.len(),
            precedes(v@.skip(i as int), w@.skip(i as int)) == precedes(v@, w@),
        decreases v.len() - i,
    {
        assert(v@.skip(i as int).drop_first() =~= v@.skip(i + 1));
        assert(w@.skip(i as int).drop_first() =~= w@.skip(i + 1));
        i += 1;
    }
    if i == w.len() {
        false
    } else if i == v.len() {
        true
    } else {
        v[i] < w[i]
    }
}

/// Whether every character is a decimal digit.
pub open spec fn all_digits(s: Seq<char>) -> bool {
    forall|i: int| 0 <= i < s.len() ==> '0' <= #[trigger] s[i] <= '9'
}

/// The number that decimal digits spell.
pub open spec fn spelled(s: Seq<char>) -> nat
    decreases s.len(),
{
    if s.len() == 0 {
        0
    } else {
        spelled(s.drop_last()) * 10 + (s.last() as u8 - '0' as u8) as nat
    }
}

/// The whole number that a text spells: digits, after at most one sign.
pub open spec fn whole_number(s: Seq<char>) -> Option<int> {
    let body = if s.len() > 0 && (s[0] == '-' || s[0] == '+') {
        s.drop_first()
    } else {
        s
    };
    if body.len() == 0 || !all_digits(body) {
        None
    } else if s[0] == '-' {
        Some(-(spelled(body) as int))
    } else {
        Some(spelled(body) as int)
    }
}

/// Reads a whole number that fits: `None` where the text spells none, or one out of range.
pub fn parse_int(s: &str) -> (r: Option<i64>)
    ensures
        r == match whole_number(s@) {
            Some(n) => if i64::MIN <= n <= i64::MAX {
                Some(n as i64)
            } else {
                None
            },
            None => None::<i64>,
        },
{
    let v = letters(s);
    if v.len() == 0 {
        return None;
    }
    let negative = v[0] == '-';
    let start: usize = if negative || v[0] == '+' {
        1
    } else {
        0
    };
    let ghost body = v@.skip(start as int);
    assert(body =~= if start == 1 {
        s@.drop_first()
    } else {
        s@
    });
    if start == v.len() {
        return None;
    }
    let mut i: usize = start;
    let mut total: i128 = 0;
    let mut beyond = false;
    assert(body.take(0) =~= Seq::<char>::empty());
    while i < v.len()
        invariant
            start <= i <= v.len(),
            v@ == s@,
            s@.len() > 0,
            negative == (s@[0] == '-'),
            start == if s@[0] == '-' || s@[0] == '+' { 1int } else { 0int },
            body == v@.skip(start as int),
            body == if start == 1 { s@.drop_first() } else { s@ },
            all_digits(body.take(i - start)),
            0 <= total,
            !beyond ==> total == spelled(body.take(i - start)) && total
                <= 0x8000_0000_0000_0000i128,
            beyond ==> spelled(body.take(i - start)) > 0x8000_0000_0000_0000i128,
        decreases v.len() - i,
    {
        let c = v[i];
        let ghost k = i - start;
        assert(body[k] == c);
        if c < '0' || c > '9' {
            assert(!all_digits(body));
            return None;
        }
        let digit: i128 = (c as u8 - 48) as i128;
        assert(body.take(k + 1).drop_last() =~= body.take(k));
        assert(all_digits(body.take(k + 1))) by {
            assert forall|j: int| 0 <= j < k + 1 implies '0' <= #[trigger] body.take(k + 1)[j]
                <= '9' by {
                if j < k {
                    assert(body.take(k)[j] == body.take(k + 1)[j]);
                }
            }
        }
        if !beyond {
            total = total * 10 + digit;
            if total > 0x8000_0000_0000_0000 {
                beyond = true;
            }
        }
        i += 1;
    }
    assert(body.take(body.len() as int) =~= body);
    if beyond {
        None
    } else if negative {
        Some((-total) as i64)
    } else if total > 0x7FFF_FFFF_FFFF_FFFF {
        None
    } else {
        Some(total as i64)
    }
}

/// The hexadecimal digit of a number below sixteen.
pub open spec fn hex_digit(d: nat) -> char {
    if d < 10 {
        ('0' as u8 + d) as char
    } else {
        ('a' as u8 + (d - 10)) as char
    }
}

/// The `count` lowest hexadecimal digits of a number, highest first.
pub open spec fn hex_digits(n: nat, count: nat) -> Seq<char>
    decreases count,
{
    if count == 0 {
        Seq::empty()
    } else {
        hex_digits(n / 16, (count - 1) as nat).push(hex_digit(n % 16))
    }
}

/// The sixteen hexadecimal digits of a number.
pub fn hex(n: u64) -> (r: String)
    ensures
        r@ == hex_digits(n as nat, 16),
{
    let mut lowest_first: Vec<char> = Vec::new();
    let mut rest: u64 = n;
    let ghost mut done: Seq<char> = Seq::empty();
    assert(hex_digits(n as nat, 16) =~= hex_digits(n as nat, 16) + Seq::<char>::empty());
    for k in 0..16usize
        invariant
            lowest_first.len() == k,
            done.len() == k,
            forall|j: int|
                0 <= j < k ==> #[trigger] done[j] == lowest_first@[k - 1 - j],
            hex_digits(n as nat, 16) == hex_digits(rest as nat, (16 - k) as nat) + done,
    {
        let d = (rest % 16) as u8;
        let c: char = if d < 10 {
            (48 + d) as char
        } else {
            (97 + (d - 10)) as char
        };
        proof {
            assert(c == hex_digit(rest as nat % 16));
            let head = hex_digits((rest / 16) as nat, (15 - k) as nat);
            assert(head.push(c) + done =~= head + (seq![c] + done));
            done = seq![c] + done;
        }
        lowest_first.push(c);
        rest = rest / 16;
    }
    assert(hex_digits(rest as nat, 0) + done =~= done);
    let mut out = String::new();
    for k in 0..16usize
        invariant
            lowest_first.len() == 16,
            done.len() == 16,
            forall|j: int|
                0 <= j < 16 ==> #[trigger] done[j] == lowest_first@[16 - 1 - j],
            out@ == done.take(k as int),
    {
        out.push(lowest_first[15 - k]);
        assert(done.take(k + 1) =~= done.take(k as int).push(done[k as int]));
    }
    assert(done.take(16) =~= done);
    out
}

/// The decimal digits of a number, highest first, without leading zeros.
pub open spec fn digits_of(n: nat) -> Seq<char>
    decreases n,
{
    if n < 10 {
        seq![('0' as u8 + n) as char]
    } else {
        digits_of(n / 10).push(('0' as u8 + n % 10) as char)
    }
}

/// The decimal digits of a number.
pub fn count_text(n: u64) -> (r: String)
    ensures
        r@ == digits_of(n as nat),
    decreases n,
{
    let d = (n % 10) as u8;
    let c: char = (48 + d) as char;
    if n < 10 {
        let mut out = String::new();
        out.push(c);
        assert(out@ =~= digits_of(n as nat));
        out
    } else {
        let mut out = count_text(n / 10);
        out.push(c);
        out
    }
}

/// The digits of a number spell it.
pub proof fn lemma_digits_spell(n: nat)
    ensures
        all_digits(digits_of(n)),
        digits_of(n).len() > 0,
        spelled(digits_of(n)) == n,
    decreases n,
{
    let s = digits_of(n);
    if n >= 10 {
        lemma_digits_spell(n / 10);
        assert(s.drop_last() =~= digits_of(n / 10));
    } else {
        assert(s.drop_last() =~= Seq::<char>::empty());
        assert(spelled(s.drop_last()) == 0);
    }
    assert(s.last() == ('0' as u8 + n % 10) as char);
}

} // verus!
