//! Plain text helpers over character sequences.
//!
//! Every function here is stated over the view of a text: the sequence of its
//! characters.

use vstd::prelude::*;

verus! {

/// `String::push` appends one character and leaves the rest of the text alone.
pub assume_specification[ String::push ](s: &mut String, c: char)
    ensures
        final(s)@ == old(s)@.push(c),
;

/// The characters of `s`, in order.
pub fn chars_of(s: &str) -> (r: Vec<char>)
    ensures
        r@ == s@,
{
    let mut r: Vec<char> = Vec::new();
    for c in it: s.chars()
        invariant
            it.seq() == s@,
            r@ == s@.take(it.index()),
    {
        r.push(c);
    }
    r
}

/// The text spelled by `v[from..to]`.
pub fn text_between(v: &[char], from: usize, to: usize) -> (r: String)
    requires
        from <= to <= v@.len(),
    ensures
        r@ == v@.subrange(from as int, to as int),
{
    let mut r: String = String::new();
    let mut i: usize = from;
    while i < to
        invariant
            from <= i <= to <= v@.len(),
            r@ == v@.subrange(from as int, i as int),
        decreases to - i,
    {
        r.push(v[i]);
        i = i + 1;
    }
    r
}

/// The text spelled by `v`.
pub fn text_of(v: &[char]) -> (r: String)
    ensures
        r@ == v@,
{
    let r: String = text_between(v, 0, v.len());
    assert(v@.subrange(0, v@.len() as int) =~= v@);
    r
}

/// Whether two texts are the same.
pub fn same(a: &str, b: &str) -> (r: bool)
    ensures
        r == (a@ == b@),
{
    let x: String = a.to_owned();
    let y: String = b.to_owned();
    x == y
}

/// Whether two optional texts are the same.
pub fn same_option(a: &Option<String>, b: &Option<String>) -> (r: bool)
    ensures
        r == (a.deep_view() == b.deep_view()),
{
    match (a, b) {
        (Some(x), Some(y)) => same(x.as_str(), y.as_str()),
        (None, None) => true,
        _ => false,
    }
}

/// Appends `tail` to `out`.
pub fn push_text(out: &mut String, tail: &str)
    ensures
        final(out)@ == old(out)@ + tail@,
{
    out.append(tail);
}

/// `a` followed by `b`.
pub fn concat2(a: &str, b: &str) -> (r: String)
    ensures
        r@ == a@ + b@,
{
    let mut r: String = a.to_owned();
    r.append(b);
    r
}

/// `a`, then `b`, then `c`.
pub fn concat3(a: &str, b: &str, c: &str) -> (r: String)
    ensures
        r@ == a@ + b@ + c@,
{
    let mut r: String = a.to_owned();
    r.append(b);
    r.append(c);
    r
}

// ---------------------------------------------------------------------------
// numbers
// ---------------------------------------------------------------------------

/// The character of the decimal digit `d`.
pub open spec fn digit(d: int) -> char {
    (48 + d) as char
}

/// The decimal numeral of `n`, without leading zeros.
pub open spec fn dec(n: nat) -> Seq<char>
    decreases n,
{
    if n < 10 {
        seq![digit(n as int)]
    } else {
        dec(n / 10).push(digit((n % 10) as int))
    }
}

/// The decimal numeral of `n`.
pub fn decimal(n: u64) -> (r: String)
    ensures
        r@ == dec(n as nat),
    decreases n,
{
    let d: u8 = (n % 10) as u8;
    let c: char = (48 + d) as char;
    if n < 10 {
        let mut r: String = String::new();
        r.push(c);
        assert(r@ =~= seq![digit(n as int)]);
        r
    } else {
        let mut r: String = decimal(n / 10);
        r.push(c);
        r
    }
}

/// A numeral is never empty.
pub proof fn lemma_dec_nonempty(n: nat)
    ensures
        dec(n).len() >= 1,
    decreases n,
{
    if n >= 10 {
        lemma_dec_nonempty(n / 10);
    }
}

/// The numeral of `n`, filled with zeros on the left up to `width` digits.
pub open spec fn padded(n: nat, width: nat) -> Seq<char> {
    if dec(n).len() < width {
        Seq::new((width - dec(n).len()) as nat, |i: int| '0') + dec(n)
    } else {
        dec(n)
    }
}

/// The numeral of `n`, filled with zeros on the left up to `width` digits.
pub fn decimal_padded(n: u64, width: usize) -> (r: String)
    ensures
        r@ == padded(n as nat, width as nat),
{
    let d: String = decimal(n);
    let v: Vec<char> = chars_of(d.as_str());
    if v.len() >= width {
        return d;
    }
    let gap: usize = width - v.len();
    let mut r: String = String::new();
    let mut i: usize = 0;
    while i < gap
        invariant
            i <= gap,
            r@ == Seq::new(i as nat, |k: int| '0'),
        decreases gap - i,
    {
        r.push('0');
        assert(r@ =~= Seq::new((i + 1) as nat, |k: int| '0'));
        i = i + 1;
    }
    r.append(d.as_str());
    r
}

/// Digits set off in groups of three from the right.
pub open spec fn grouped(digits: Seq<char>) -> Seq<char>
    decreases digits.len(),
{
    if digits.len() <= 3 {
        digits
    } else {
        grouped(digits.take(digits.len() - 3)).push(',') + digits.skip(digits.len() - 3)
    }
}

fn grouped_prefix(v: &Vec<char>, n: usize) -> (r: String)
    requires
        n <= v@.len(),
    ensures
        r@ == grouped(v@.take(n as int)),
    decreases n,
{
    let ghost head = v@.take(n as int);
    if n <= 3 {
        let r: String = text_between(v.as_slice(), 0, n);
        assert(r@ =~= head);
        r
    } else {
        let mut r: String = grouped_prefix(v, n - 3);
        r.push(',');
        let tail: String = text_between(v.as_slice(), n - 3, n);
        r.append(tail.as_str());
        assert(head.take(head.len() - 3) =~= v@.take(n - 3));
        assert(head.skip(head.len() - 3) =~= tail@);
        r
    }
}

/// The numeral of `n` with a comma before every group of three digits.
pub fn decimal_grouped(n: u64) -> (r: String)
    ensures
        r@ == grouped(dec(n as nat)),
{
    let d: String = decimal(n);
    let v: Vec<char> = chars_of(d.as_str());
    let r: String = grouped_prefix(&v, v.len());
    assert(v@.take(v@.len() as int) =~= v@);
    r
}

/// Whether `c` is one of the ten decimal digits.
pub open spec fn is_digit(c: char) -> bool {
    48 <= c as u32 <= 57
}

/// The number that a sequence of digits spells.
pub open spec fn number(s: Seq<char>) -> nat
    decreases s.len(),
{
    if s.len() == 0 {
        0
    } else {
        number(s.drop_last()) * 10 + (s.last() as u32 - 48) as nat
    }
}

/// Whether `s` is made of digits alone.
pub open spec fn all_digits(s: Seq<char>) -> bool {
    forall|i: int| 0 <= i < s.len() ==> is_digit(#[trigger] s[i])
}

/// `s` without a leading `+`.
pub open spec fn unsigned_part(s: Seq<char>) -> Seq<char> {
    if s.len() > 0 && s[0] == '+' {
        s.skip(1)
    } else {
        s
    }
}

/// What a text spells as an unsigned 64-bit number: an optional `+`, then at
/// least one digit, nothing else, and no overflow.
pub open spec fn as_u64(s: Seq<char>) -> Option<u64> {
    let body = unsigned_part(s);
    if body.len() > 0 && all_digits(body) && number(body) <= u64::MAX {
        Some(number(body) as u64)
    } else {
        None
    }
}

proof fn lemma_number_grows(s: Seq<char>, k: int)
    requires
        0 <= k <= s.len(),
        all_digits(s),
    ensures
        number(s.take(k)) <= number(s),
    decreases s.len() - k,
{
    if k < s.len() {
        lemma_number_grows(s, k + 1);
        let next = s.take(k + 1);
        assert(next.drop_last() =~= s.take(k));
        assert(is_digit(s[k]));
        assert(number(next) >= number(s.take(k)));
    } else {
        assert(s.take(k) =~= s);
    }
}

/// A numeral is made of digits and spells its number.
pub proof fn lemma_dec_reads(n: nat)
    ensures
        all_digits(dec(n)),
        number(dec(n)) == n,
        dec(n).len() >= 1,
    decreases n,
{
    if n >= 10 {
        lemma_dec_reads(n / 10);
        let head = dec(n / 10);
        assert(dec(n).drop_last() =~= head);
        assert(is_digit(digit((n % 10) as int)));
        assert(dec(n).last() as u32 - 48 == n % 10);
    } else {
        assert(dec(n).drop_last() =~= Seq::<char>::empty());
        assert(is_digit(digit(n as int)));
        assert(dec(n).last() as u32 - 48 == n);
        assert(number(dec(n).drop_last()) == 0);
    }
}

/// Reading the numeral of a number gives the number back.
pub proof fn numeral_is_read_back(n: u64)
    ensures
        as_u64(dec(n as nat)) == Some(n),
{
    lemma_dec_reads(n as nat);
    assert(is_digit(dec(n as nat)[0]));
}

/// Reads `s` as an unsigned 64-bit number.
pub fn parse_u64(s: &str) -> (r: Option<u64>)
    ensures
        r == as_u64(s@),
{
    let v: Vec<char> = chars_of(s);
    let start: usize = if v.len() > 0 && v[0] == '+' { 1 } else { 0 };
    let ghost body = unsigned_part(s@);
    assert(body =~= v@.skip(start as int));
    let mut n: u64 = 0;
    let mut i: usize = start;
    while i < v.len()
        invariant
            start <= i <= v@.len(),
            v@ == s@,
            body == unsigned_part(s@),
            body == v@.skip(start as int),
            n == number(body.take(i - start)),
            forall|k: int| 0 <= k < i - start ==> is_digit(#[trigger] body[k]),
        decreases v@.len() - i,
    {
        let c: char = v[i];
        let m: u32 = c as u32;
        let ghost k = i - start;
        assert(body[k] == c);
        if m < 48 || m > 57 {
            assert(!is_digit(body[k]));
            return None;
        }
        let d: u64 = (m - 48) as u64;
        proof {
            let next = body.take(k + 1);
            assert(next.drop_last() =~= body.take(k));
            assert(number(next) == n * 10 + d);
            if all_digits(body) {
                lemma_number_grows(body, k + 1);
            }
        }
        match n.checked_mul(10) {
            None => {
                return None;
            },
            Some(t) => match t.checked_add(d) {
                None => {
                    return None;
                },
                Some(u) => {
                    n = u;
                },
            },
        }
        i = i + 1;
    }
    assert(body.take(body.len() as int) =~= body);
    if start == v.len() {
        return None;
    }
    Some(n)
}

// ---------------------------------------------------------------------------
// blanks
// ---------------------------------------------------------------------------

/// Whether `c` has the Unicode property White_Space.
pub open spec fn is_white(c: char) -> bool {
    let n = c as u32;
    ||| 0x9 <= n <= 0xd
    ||| n == 0x20
    ||| n == 0x85
    ||| n == 0xa0
    ||| n == 0x1680
    ||| 0x2000 <= n <= 0x200a
    ||| n == 0x2028
    ||| n == 0x2029
    ||| n == 0x202f
    ||| n == 0x205f
    ||| n == 0x3000
}

/// Whether `c` is a blank.
pub fn white(c: char) -> (r: bool)
    ensures
        r == is_white(c),
{
    let n: u32 = c as u32;
    (0x9 <= n && n <= 0xd) || n == 0x20 || n == 0x85 || n == 0xa0 || n == 0x1680 || (0x2000 <= n
        && n <= 0x200a) || n == 0x2028 || n == 0x2029 || n == 0x202f || n == 0x205f || n == 0x3000
}

/// `s` without the blanks it starts with.
pub open spec fn trimmed_start(s: Seq<char>) -> Seq<char>
    decreases s.len(),
{
    if s.len() > 0 && is_white(s[0]) {
        trimmed_start(s.skip(1))
    } else {
        s
    }
}

/// `s` without the blanks it ends with.
pub open spec fn trimmed_end(s: Seq<char>) -> Seq<char>
    decreases s.len(),
{
    if s.len() > 0 && is_white(s.last()) {
        trimmed_end(s.drop_last())
    } else {
        s
    }
}

/// `s` without the blanks at either end.
pub open spec fn trimmed(s: Seq<char>) -> Seq<char> {
    trimmed_end(trimmed_start(s))
}

/// The index of the first character of `v` that is no blank.
fn blank_prefix(v: &Vec<char>) -> (r: usize)
    ensures
        r <= v@.len(),
        trimmed_start(v@) == v@.skip(r as int),
{
    let mut i: usize = 0;
    assert(v@.skip(0) =~= v@);
    while i < v.len() && white(v[i])
        invariant
            i <= v@.len(),
            trimmed_start(v@) == trimmed_start(v@.skip(i as int)),
        decreases v@.len() - i,
    {
        assert(v@.skip(i as int)[0] == v@[i as int]);
        assert(v@.skip(i as int).skip(1) =~= v@.skip(i + 1));
        i = i + 1;
    }
    i
}

/// `s` without the blanks it starts with.
pub fn trim_start(s: &str) -> (r: String)
    ensures
        r@ == trimmed_start(s@),
{
    let v: Vec<char> = chars_of(s);
    let lo: usize = blank_prefix(&v);
    let r: String = text_between(v.as_slice(), lo, v.len());
    assert(v@.subrange(lo as int, v@.len() as int) =~= v@.skip(lo as int));
    r
}

/// `s` without the blanks at either end.
pub fn trim(s: &str) -> (r: String)
    ensures
        r@ == trimmed(s@),
{
    let v: Vec<char> = chars_of(s);
    let lo: usize = blank_prefix(&v);
    let ghost rest = v@.skip(lo as int);
    let mut hi: usize = v.len();
    assert(v@.subrange(lo as int, hi as int) =~= rest);
    while lo < hi && white(v[hi - 1])
        invariant
            lo <= hi <= v@.len(),
            rest == v@.skip(lo as int),
            trimmed_end(rest) == trimmed_end(v@.subrange(lo as int, hi as int)),
        decreases hi,
    {
        assert(v@.subrange(lo as int, hi as int).drop_last() =~= v@.subrange(
            lo as int,
            hi - 1,
        ));
        hi = hi - 1;
    }
    text_between(v.as_slice(), lo, hi)
}

/// Whether `s` is made of blanks alone.
pub fn is_blank(s: &str) -> (r: bool)
    ensures
        r == (trimmed(s@).len() == 0),
{
    let t: String = trim(s);
    t.as_str().is_empty()
}

/// `s` without the members of `set` it ends with.
pub open spec fn stripped_end(s: Seq<char>, set: Seq<char>) -> Seq<char>
    decreases s.len(),
{
    if s.len() > 0 && set.contains(s.last()) {
        stripped_end(s.drop_last(), set)
    } else {
        s
    }
}

/// `s` without the members of `set` it starts with.
pub open spec fn stripped_start(s: Seq<char>, set: Seq<char>) -> Seq<char>
    decreases s.len(),
{
    if s.len() > 0 && set.contains(s[0]) {
        stripped_start(s.skip(1), set)
    } else {
        s
    }
}

/// Whether `set` holds `c`.
pub fn holds(set: &[char], c: char) -> (r: bool)
    ensures
        r == set@.contains(c),
{
    let mut i: usize = 0;
    while i < set.len()
        invariant
            i <= set@.len(),
            forall|k: int| 0 <= k < i ==> set@[k] != c,
        decreases set@.len() - i,
    {
        if set[i] == c {
            assert(set@[i as int] == c);
            return true;
        }
        i = i + 1;
    }
    false
}

/// `s` without the members of `set` it ends with.
pub fn strip_end(s: &str, set: &[char]) -> (r: String)
    ensures
        r@ == stripped_end(s@, set@),
{
    let v: Vec<char> = chars_of(s);
    let mut hi: usize = v.len();
    assert(v@.take(hi as int) =~= v@);
    while hi > 0 && holds(set, v[hi - 1])
        invariant
            hi <= v@.len(),
            v@ == s@,
            stripped_end(s@, set@) == stripped_end(v@.take(hi as int), set@),
        decreases hi,
    {
        assert(v@.take(hi as int).drop_last() =~= v@.take(hi - 1));
        hi = hi - 1;
    }
    let r: String = text_between(v.as_slice(), 0, hi);
    assert(r@ =~= v@.take(hi as int));
    r
}

/// `s` without the members of `set` it starts with.
pub fn strip_start(s: &str, set: &[char]) -> (r: String)
    ensures
        r@ == stripped_start(s@, set@),
{
    let v: Vec<char> = chars_of(s);
    let mut lo: usize = 0;
    assert(v@.skip(0) =~= v@);
    while lo < v.len() && holds(set, v[lo])
        invariant
            lo <= v@.len(),
            v@ == s@,
            stripped_start(s@, set@) == stripped_start(v@.skip(lo as int), set@),
        decreases v@.len() - lo,
    {
        assert(v@.skip(lo as int)[0] == v@[lo as int]);
        assert(v@.skip(lo as int).skip(1) =~= v@.skip(lo + 1));
        lo = lo + 1;
    }
    let r: String = text_between(v.as_slice(), lo, v.len());
    assert(r@ =~= v@.skip(lo as int));
    r
}

// ---------------------------------------------------------------------------
// parts
// ---------------------------------------------------------------------------

/// Whether `s` starts with `t`.
pub open spec fn begins(s: Seq<char>, t: Seq<char>) -> bool {
    t.len() <= s.len() && s.take(t.len() as int) == t
}

/// Whether `s` ends with `t`.
pub open spec fn finishes(s: Seq<char>, t: Seq<char>) -> bool {
    t.len() <= s.len() && s.skip(s.len() - t.len()) == t
}

/// Whether `t` stands in `s` at position `i`.
pub open spec fn stands_at(s: Seq<char>, t: Seq<char>, i: int) -> bool {
    0 <= i && i + t.len() <= s.len() && s.subrange(i, i + t.len()) == t
}

/// Whether `t` stands somewhere in `s`.
pub open spec fn holds_text(s: Seq<char>, t: Seq<char>) -> bool {
    exists|i: int| stands_at(s, t, i)
}

/// Whether `t` stands in `s` at position `i`.
pub fn matches_at(s: &Vec<char>, t: &Vec<char>, i: usize) -> (r: bool)
    requires
        i <= s@.len(),
    ensures
        r == stands_at(s@, t@, i as int),
{
    if t.len() > s.len() - i {
        return false;
    }
    let mut k: usize = 0;
    let n: usize = s.len();
    while k < t.len()
        invariant
            k <= t@.len(),
            n == s@.len(),
            i + t@.len() <= n,
            forall|j: int| 0 <= j < k ==> s@[i + j] == t@[j],
        decreases t@.len() - k,
    {
        if s[i + k] != t[k] {
            assert(s@.subrange(i as int, i + t@.len())[k as int] != t@[k as int]);
            return false;
        }
        k = k + 1;
    }
    assert(s@.subrange(i as int, i + t@.len()) =~= t@);
    true
}

/// Whether `s` starts with `t`.
pub fn starts_with(s: &str, t: &str) -> (r: bool)
    ensures
        r == begins(s@, t@),
{
    let a: Vec<char> = chars_of(s);
    let b: Vec<char> = chars_of(t);
    let r: bool = matches_at(&a, &b, 0);
    assert(t@.len() <= s@.len() ==> s@.subrange(0, t@.len() as int) =~= s@.take(t@.len() as int));
    r
}

/// Whether `s` ends with `t`.
pub fn ends_with(s: &str, t: &str) -> (r: bool)
    ensures
        r == finishes(s@, t@),
{
    let a: Vec<char> = chars_of(s);
    let b: Vec<char> = chars_of(t);
    if b.len() > a.len() {
        return false;
    }
    let at: usize = a.len() - b.len();
    let r: bool = matches_at(&a, &b, at);
    assert(s@.subrange(at as int, at + t@.len()) =~= s@.skip(s@.len() - t@.len()));
    r
}

/// Whether `t` stands somewhere in `s`.
pub fn contains_text(s: &str, t: &str) -> (r: bool)
    ensures
        r == holds_text(s@, t@),
{
    let a: Vec<char> = chars_of(s);
    let b: Vec<char> = chars_of(t);
    let mut i: usize = 0;
    while i < a.len()
        invariant
            i <= a@.len(),
            a@ == s@,
            b@ == t@,
            forall|k: int| 0 <= k < i ==> !stands_at(s@, t@, k),
        decreases a@.len() - i,
    {
        if matches_at(&a, &b, i) {
            assert(stands_at(s@, t@, i as int));
            return true;
        }
        i = i + 1;
    }
    let last: bool = matches_at(&a, &b, i);
    if last {
        assert(stands_at(s@, t@, i as int));
    }
    last
}

/// What stands in `s` behind the prefix `t`, where `s` starts with `t`.
pub open spec fn behind(s: Seq<char>, t: Seq<char>) -> Option<Seq<char>> {
    if begins(s, t) {
        Some(s.skip(t.len() as int))
    } else {
        None
    }
}

/// What stands in `s` behind the prefix `t`, where `s` starts with `t`.
pub fn strip_prefix(s: &str, t: &str) -> (r: Option<String>)
    ensures
        r.deep_view() == behind(s@, t@),
{
    if starts_with(s, t) {
        let a: Vec<char> = chars_of(s);
        let b: Vec<char> = chars_of(t);
        let rest: String = text_between(a.as_slice(), b.len(), a.len());
        assert(rest@ =~= s@.skip(t@.len() as int));
        Some(rest)
    } else {
        None
    }
}

/// The first `n` characters of `s`, or all of them where there are fewer.
pub open spec fn first_chars(s: Seq<char>, n: int) -> Seq<char> {
    if s.len() <= n {
        s
    } else {
        s.take(n)
    }
}

/// The first `n` characters of `s`, or all of them where there are fewer.
pub fn take_chars(s: &str, n: usize) -> (r: String)
    ensures
        r@ == first_chars(s@, n as int),
{
    let v: Vec<char> = chars_of(s);
    let end: usize = if v.len() <= n { v.len() } else { n };
    let r: String = text_between(v.as_slice(), 0, end);
    assert(r@ =~= first_chars(s@, n as int));
    r
}

/// The number of characters of `s`.
pub fn char_count(s: &str) -> (r: usize)
    ensures
        r == s@.len(),
{
    let v: Vec<char> = chars_of(s);
    v.len()
}

/// The pieces of `s` between the occurrences of `c`.
pub open spec fn pieces(s: Seq<char>, c: char) -> Seq<Seq<char>>
    decreases s.len(),
{
    if s.len() == 0 {
        seq![Seq::<char>::empty()]
    } else {
        let head = pieces(s.drop_last(), c);
        if s.last() == c {
            head.push(Seq::<char>::empty())
        } else {
            head.drop_last().push(head.last().push(s.last()))
        }
    }
}

/// There is always at least one piece.
pub proof fn lemma_pieces_nonempty(s: Seq<char>, c: char)
    ensures
        pieces(s, c).len() >= 1,
    decreases s.len(),
{
    if s.len() > 0 {
        lemma_pieces_nonempty(s.drop_last(), c);
    }
}

/// The pieces of `s` between the occurrences of `c`.
pub fn split(s: &str, c: char) -> (r: Vec<String>)
    ensures
        r.deep_view() == pieces(s@, c),
        r@.len() >= 1,
{
    let v: Vec<char> = chars_of(s);
    let mut r: Vec<String> = Vec::new();
    let mut cur: String = String::new();
    let mut i: usize = 0;
    assert(v@.take(0) =~= Seq::<char>::empty());
    assert(r.deep_view().push(cur@) =~= pieces(v@.take(0), c));
    while i < v.len()
        invariant
            i <= v@.len(),
            v@ == s@,
            r.deep_view().push(cur@) == pieces(v@.take(i as int), c),
        decreases v@.len() - i,
    {
        let ghost before = r.deep_view();
        let ghost now = cur@;
        let ghost head = v@.take(i + 1);
        assert(head.drop_last() =~= v@.take(i as int));
        assert(before.push(now).drop_last() =~= before);
        if v[i] == c {
            r.push(cur);
            assert(r.deep_view() =~= before.push(now));
            cur = String::new();
        } else {
            cur.push(v[i]);
        }
        i = i + 1;
    }
    assert(v@.take(i as int) =~= s@);
    let ghost before = r.deep_view();
    r.push(cur);
    assert(r.deep_view() =~= before.push(cur@));
    r
}

/// `parts` in order, with `sep` between each two.
pub open spec fn joined(parts: Seq<Seq<char>>, sep: Seq<char>) -> Seq<char>
    decreases parts.len(),
{
    if parts.len() == 0 {
        Seq::empty()
    } else if parts.len() == 1 {
        parts[0]
    } else {
        joined(parts.drop_last(), sep) + sep + parts.last()
    }
}

/// `parts[from..to]` in order, with `sep` between each two.
pub fn join_between(parts: &Vec<String>, from: usize, to: usize, sep: &str) -> (r: String)
    requires
        from <= to <= parts@.len(),
    ensures
        r@ == joined(parts.deep_view().subrange(from as int, to as int), sep@),
{
    let mut r: String = String::new();
    let mut i: usize = from;
    let ghost all = parts.deep_view();
    assert(all.subrange(from as int, from as int) =~= Seq::<Seq<char>>::empty());
    while i < to
        invariant
            from <= i <= to <= parts@.len(),
            all == parts.deep_view(),
            r@ == joined(all.subrange(from as int, i as int), sep@),
        decreases to - i,
    {
        let ghost next = all.subrange(from as int, i + 1);
        assert(next.drop_last() =~= all.subrange(from as int, i as int));
        assert(next.last() == parts@[i as int]@);
        if i > from {
            r.append(sep);
        }
        r.append(parts[i].as_str());
        if i == from {
            assert(r@ =~= next[0]);
        }
        i = i + 1;
    }
    r
}

/// `parts` in order, with `sep` between each two.
pub fn join(parts: &Vec<String>, sep: &str) -> (r: String)
    ensures
        r@ == joined(parts.deep_view(), sep@),
{
    let r: String = join_between(parts, 0, parts.len(), sep);
    assert(parts.deep_view().subrange(0, parts@.len() as int) =~= parts.deep_view());
    r
}

/// Joining the pieces of a text at the character it was split at gives the
/// text back.
pub proof fn split_then_join(s: Seq<char>, c: char)
    ensures
        joined(pieces(s, c), seq![c]) == s,
    decreases s.len(),
{
    if s.len() == 0 {
        assert(joined(pieces(s, c), seq![c]) =~= s);
    } else {
        let head = s.drop_last();
        split_then_join(head, c);
        lemma_pieces_nonempty(head, c);
        let ps = pieces(head, c);
        if s.last() == c {
            let all = ps.push(Seq::<char>::empty());
            assert(all.drop_last() =~= ps);
            assert(joined(all, seq![c]) =~= head.push(c));
        } else {
            let all = ps.drop_last().push(ps.last().push(s.last()));
            assert(all.drop_last() =~= ps.drop_last());
            if ps.len() == 1 {
                assert(all[0] =~= head.push(s.last()));
            } else {
                assert(joined(all, seq![c]) =~= joined(ps, seq![c]).push(s.last()));
            }
        }
        assert(s =~= head.push(s.last()));
    }
}

proof fn lemma_pieces_longer(s: Seq<char>, more: Seq<char>, c: char)
    requires
        !more.contains(c),
    ensures
        pieces(s + more, c) == pieces(s, c).drop_last().push(pieces(s, c).last() + more),
    decreases more.len(),
{
    lemma_pieces_nonempty(s, c);
    let ps = pieces(s, c);
    if more.len() == 0 {
        assert(s + more =~= s);
        assert(ps.last() + more =~= ps.last());
        assert(ps =~= ps.drop_last().push(ps.last()));
    } else {
        let head = more.drop_last();
        assert(!head.contains(c)) by {
            if head.contains(c) {
                let i = choose|i: int| 0 <= i < head.len() && head[i] == c;
                assert(more[i] == c);
            }
        }
        lemma_pieces_longer(s, head, c);
        assert((s + more).drop_last() =~= s + head);
        assert(more.contains(more.last()));
        let got = pieces(s + head, c);
        assert(got.last() == ps.last() + head);
        assert(got.drop_last() =~= ps.drop_last());
        assert(got.last().push(more.last()) =~= ps.last() + more);
    }
}

/// Splitting texts that were joined at a character that none of them holds
/// gives the texts back.
pub proof fn join_then_split(parts: Seq<Seq<char>>, c: char)
    requires
        parts.len() > 0,
        forall|i: int| 0 <= i < parts.len() ==> !(#[trigger] parts[i]).contains(c),
    ensures
        pieces(joined(parts, seq![c]), c) == parts,
    decreases parts.len(),
{
    let none = Seq::<char>::empty();
    let last = parts[parts.len() - 1];
    if parts.len() == 1 {
        lemma_pieces_longer(none, last, c);
        assert(none + last =~= last);
        assert(pieces(last, c) =~= parts);
    } else {
        let head = parts.drop_last();
        assert forall|i: int| 0 <= i < head.len() implies !(#[trigger] head[i]).contains(c) by {
            assert(head[i] == parts[i]);
        }
        join_then_split(head, c);
        let front = joined(head, seq![c]);
        let ended = front + seq![c];
        assert(ended.drop_last() =~= front);
        assert(pieces(ended, c) == head.push(none));
        lemma_pieces_longer(ended, last, c);
        assert(none + last =~= last);
        assert(pieces(ended + last, c) =~= parts);
    }
}

/// The pieces of a text do not hold the character that it was split at.
pub proof fn lemma_pieces_hold_none(s: Seq<char>, c: char)
    ensures
        forall|i: int| 0 <= i < pieces(s, c).len() ==> !(#[trigger] pieces(s, c)[i]).contains(c),
    decreases s.len(),
{
    if s.len() > 0 {
        let head = s.drop_last();
        lemma_pieces_hold_none(head, c);
        lemma_pieces_nonempty(head, c);
        let ps = pieces(head, c);
        let all = pieces(s, c);
        assert forall|i: int| 0 <= i < all.len() implies !(#[trigger] all[i]).contains(c) by {
            if s.last() != c && i == all.len() - 1 {
                let longer = all[i];
                if longer.contains(c) {
                    let k = choose|k: int| 0 <= k < longer.len() && longer[k] == c;
                    assert(!ps[ps.len() - 1].contains(c));
                    assert(ps[ps.len() - 1][k] == c);
                }
            } else if i < ps.len() {
                assert(all[i] == ps[i]);
            }
        }
    }
}

// ---------------------------------------------------------------------------
// case
// ---------------------------------------------------------------------------

/// The lower-case form of an upper-case Latin letter of ASCII; any other
/// character itself.
pub open spec fn lower_ascii(c: char) -> char {
    if 65 <= c as u32 <= 90 {
        (c as u32 + 32) as char
    } else {
        c
    }
}

/// The upper-case form of a lower-case Latin letter of ASCII; any other
/// character itself.
pub open spec fn upper_ascii(c: char) -> char {
    if 97 <= c as u32 <= 122 {
        (c as u32 - 32) as char
    } else {
        c
    }
}

/// The lower-case form of `c` within ASCII.
pub fn to_lower_ascii(c: char) -> (r: char)
    ensures
        r == lower_ascii(c),
{
    let n: u32 = c as u32;
    if 65 <= n && n <= 90 {
        (n as u8 + 32) as char
    } else {
        c
    }
}

/// The upper-case form of `c` within ASCII.
pub fn to_upper_ascii(c: char) -> (r: char)
    ensures
        r == upper_ascii(c),
{
    let n: u32 = c as u32;
    if 97 <= n && n <= 122 {
        (n as u8 - 32) as char
    } else {
        c
    }
}

/// `s` with every upper-case letter of ASCII in lower case.
pub open spec fn lowered(s: Seq<char>) -> Seq<char> {
    s.map_values(|c: char| lower_ascii(c))
}

/// `s` with every upper-case letter of ASCII in lower case.
pub fn lower_text(s: &str) -> (r: String)
    ensures
        r@ == lowered(s@),
{
    let v: Vec<char> = chars_of(s);
    let mut r: String = String::new();
    let mut i: usize = 0;
    while i < v.len()
        invariant
            i <= v@.len(),
            v@ == s@,
            r@ == lowered(s@.take(i as int)),
        decreases v@.len() - i,
    {
        r.push(to_lower_ascii(v[i]));
        i = i + 1;
        assert(r@ =~= lowered(s@.take(i as int)));
    }
    assert(s@.take(i as int) =~= s@);
    r
}

/// A text in upper case, by the rules of Unicode.
pub uninterp spec fn uppercased(s: Seq<char>) -> Seq<char>;

/// A text in lower case, by the rules of Unicode.
pub uninterp spec fn lowercased(s: Seq<char>) -> Seq<char>;

/// `str::to_uppercase` maps every character by the Unicode tables; what it
/// gives depends on the text alone.
#[verifier::external_body]
pub(crate) fn upper_case(s: &str) -> (r: String)
    ensures
        r@ == uppercased(s@),
{
    s.to_uppercase()
}

/// `str::to_lowercase` maps every character by the Unicode tables; what it
/// gives depends on the text alone.
#[verifier::external_body]
pub(crate) fn lower_case(s: &str) -> (r: String)
    ensures
        r@ == lowercased(s@),
{
    s.to_lowercase()
}

// ---------------------------------------------------------------------------
// laws
// ---------------------------------------------------------------------------

/// Each part stands in the joined text.
pub proof fn parts_stand_in_the_whole(parts: Seq<Seq<char>>, sep: Seq<char>, k: int)
    requires
        0 <= k < parts.len(),
    ensures
        holds_text(joined(parts, sep), parts[k]),
    decreases parts.len(),
{
    let whole = joined(parts, sep);
    if parts.len() == 1 {
        assert(whole.subrange(0, whole.len() as int) =~= parts[0]);
        assert(stands_at(whole, parts[k], 0));
    } else {
        let head = joined(parts.drop_last(), sep);
        if k == parts.len() - 1 {
            let i = (head.len() + sep.len()) as int;
            assert(whole.subrange(i, i + parts[k].len()) =~= parts[k]);
            assert(stands_at(whole, parts[k], i));
        } else {
            parts_stand_in_the_whole(parts.drop_last(), sep, k);
            assert(parts.drop_last()[k] == parts[k]);
            let i = choose|i: int| stands_at(head, parts[k], i);
            assert(whole.subrange(i, i + parts[k].len()) =~= head.subrange(
                i,
                i + parts[k].len(),
            ));
            assert(stands_at(whole, parts[k], i));
        }
    }
}

/// Joining goes on where it stopped: two lists joined are the one, what stands
/// between, and the other.
pub proof fn joining_goes_on(a: Seq<Seq<char>>, b: Seq<Seq<char>>, sep: Seq<char>)
    requires
        a.len() > 0,
        b.len() > 0,
    ensures
        joined(a + b, sep) == joined(a, sep) + sep + joined(b, sep),
    decreases b.len(),
{
    let all = a + b;
    assert(all.drop_last() =~= a + b.drop_last());
    assert(all.last() == b.last());
    if b.len() == 1 {
        assert(a + b.drop_last() =~= a);
    } else {
        joining_goes_on(a, b.drop_last(), sep);
        assert(joined(all, sep) =~= joined(a, sep) + sep + joined(b, sep));
    }
}

/// With nothing between them, texts of two lists follow one another.
pub proof fn joining_without_a_gap(a: Seq<Seq<char>>, b: Seq<Seq<char>>)
    ensures
        joined(a + b, ""@) == joined(a, ""@) + joined(b, ""@),
{
    reveal_strlit("");
    if a.len() == 0 {
        assert(a + b =~= b);
        assert(joined(a, ""@) + joined(b, ""@) =~= joined(b, ""@));
    } else if b.len() == 0 {
        assert(a + b =~= a);
        assert(joined(a, ""@) + joined(b, ""@) =~= joined(a, ""@));
    } else {
        joining_goes_on(a, b, ""@);
        assert(joined(a, ""@) + ""@ + joined(b, ""@) =~= joined(a, ""@) + joined(b, ""@));
    }
}

/// Trimming takes blanks off both ends and nothing else: what is left stands
/// in the text between blanks, and neither starts nor ends with one.
pub proof fn trimming_takes_blanks_off(s: Seq<char>)
    ensures
        exists|i: int|
            0 <= i && i + trimmed(s).len() <= s.len() && #[trigger] stands_at(s, trimmed(s), i)
                && (forall|k: int| 0 <= k < i ==> is_white(#[trigger] s[k])) && (forall|k: int|
                i + trimmed(s).len() <= k < s.len() ==> is_white(#[trigger] s[k])),
        trimmed(s).len() > 0 ==> !is_white(trimmed(s)[0]) && !is_white(trimmed(s).last()),
{
    lemma_trimmed_start(s);
    let mid = trimmed_start(s);
    lemma_trimmed_end(mid);
    let i = (s.len() - mid.len()) as int;
    let t = trimmed(s);
    assert(s.subrange(i, i + t.len()) =~= t) by {
        assert forall|k: int| 0 <= k < t.len() implies s[i + k] == t[k] by {
            assert(mid.take(t.len() as int)[k] == mid[k]);
            assert(s.skip(i)[k] == s[i + k]);
        }
    }
    assert forall|k: int| i + t.len() <= k < s.len() implies is_white(#[trigger] s[k]) by {
        assert(s.skip(i)[k - i] == s[k]);
        assert(is_white(mid[k - i]));
    }
    assert(stands_at(s, t, i));
    if t.len() > 0 {
        assert(mid.take(t.len() as int)[0] == mid[0]);
    }
}

proof fn lemma_trimmed_start(s: Seq<char>)
    ensures
        trimmed_start(s).len() <= s.len(),
        trimmed_start(s) == s.skip(s.len() - trimmed_start(s).len()),
        forall|k: int| 0 <= k < s.len() - trimmed_start(s).len() ==> is_white(#[trigger] s[k]),
        trimmed_start(s).len() > 0 ==> !is_white(trimmed_start(s)[0]),
    decreases s.len(),
{
    if s.len() > 0 && is_white(s[0]) {
        let rest = s.skip(1);
        lemma_trimmed_start(rest);
        let n = trimmed_start(s).len();
        assert(rest.skip(rest.len() - n) =~= s.skip(s.len() - n));
        assert forall|k: int| 0 <= k < s.len() - n implies is_white(#[trigger] s[k]) by {
            if k > 0 {
                assert(rest[k - 1] == s[k]);
            }
        }
    } else {
        assert(s.skip(0) =~= s);
    }
}

proof fn lemma_trimmed_end(s: Seq<char>)
    ensures
        trimmed_end(s).len() <= s.len(),
        trimmed_end(s) == s.take(trimmed_end(s).len() as int),
        forall|k: int| trimmed_end(s).len() <= k < s.len() ==> is_white(#[trigger] s[k]),
        trimmed_end(s).len() > 0 ==> !is_white(trimmed_end(s).last()),
    decreases s.len(),
{
    if s.len() > 0 && is_white(s.last()) {
        let rest = s.drop_last();
        lemma_trimmed_end(rest);
        let n = trimmed_end(s).len();
        assert(rest.take(n as int) =~= s.take(n as int));
        assert forall|k: int| n <= k < s.len() implies is_white(#[trigger] s[k]) by {
            if k < s.len() - 1 {
                assert(rest[k] == s[k]);
            }
        }
    } else {
        assert(s.take(s.len() as int) =~= s);
    }
}

/// Grouping puts commas into a number and changes nothing else: without them
/// it is the number again.
pub proof fn grouping_adds_commas_only(digits: Seq<char>)
    requires
        !digits.contains(','),
    ensures
        grouped(digits).filter(|c: char| c != ',') == digits,
        digits.len() > 0 ==> grouped(digits).len() == digits.len() + (digits.len() - 1) / 3,
    decreases digits.len(),
{
    let keep = |c: char| c != ',';
    if digits.len() <= 3 {
        lemma_all_kept(digits);
    } else {
        let n = digits.len() - 3;
        let head = digits.take(n);
        let tail = digits.skip(n);
        assert forall|i: int| 0 <= i < head.len() implies head[i] != ',' by {
            assert(head[i] == digits[i]);
        }
        assert forall|i: int| 0 <= i < tail.len() implies tail[i] != ',' by {
            assert(tail[i] == digits[n + i]);
        }
        grouping_adds_commas_only(head);
        lemma_all_kept(tail);
        let left = grouped(head);
        assert(left.push(',').filter(keep) =~= left.filter(keep)) by {
            reveal(Seq::filter);
            assert(left.push(',').drop_last() =~= left);
        }
        Seq::filter_distributes_over_add(left.push(','), tail, keep);
        assert(head + tail =~= digits);
    }
}

proof fn lemma_all_kept(s: Seq<char>)
    requires
        !s.contains(','),
    ensures
        s.filter(|c: char| c != ',') == s,
    decreases s.len(),
{
    reveal(Seq::filter);
    if s.len() > 0 {
        let head = s.drop_last();
        assert forall|i: int| 0 <= i < head.len() implies head[i] != ',' by {
            assert(head[i] == s[i]);
        }
        assert(s.contains(s.last()));
        lemma_all_kept(head);
        assert(head.push(s.last()) =~= s);
    }
}

/// Filling a numeral up with zeros keeps its number, and makes it as wide as it
/// has to be.
pub proof fn padding_keeps_the_number(n: nat, width: nat)
    ensures
        number(padded(n, width)) == n,
        all_digits(padded(n, width)),
        padded(n, width).len() >= width,
        dec(n).len() <= width ==> padded(n, width).len() == width,
        finishes(padded(n, width), dec(n)),
{
    lemma_dec_reads(n);
    let d = dec(n);
    let p = padded(n, width);
    assert(p.skip(p.len() - d.len()) =~= d);
    if d.len() < width {
        let zeros = Seq::new((width - d.len()) as nat, |i: int| '0');
        lemma_zeros_in_front(zeros, d);
        assert forall|i: int| 0 <= i < p.len() implies is_digit(#[trigger] p[i]) by {
            if i >= zeros.len() {
                assert(p[i] == d[i - zeros.len()]);
            }
        }
    }
}

proof fn lemma_zeros_in_front(zeros: Seq<char>, d: Seq<char>)
    requires
        forall|i: int| 0 <= i < zeros.len() ==> #[trigger] zeros[i] == '0',
    ensures
        number(zeros + d) == number(d),
    decreases zeros.len() + d.len(),
{
    let s = zeros + d;
    if d.len() > 0 {
        lemma_zeros_in_front(zeros, d.drop_last());
        assert(s.drop_last() =~= zeros + d.drop_last());
    } else if zeros.len() > 0 {
        assert(s.drop_last() =~= zeros.drop_last() + d);
        lemma_zeros_in_front(zeros.drop_last(), d);
        assert(s.last() == zeros[zeros.len() - 1]);
    }
}

/// A number below 10 has one digit, one below 100 at most two, and so on.
pub proof fn lemma_dec_width(n: nat)
    ensures
        n < 10 ==> dec(n).len() == 1,
        10 <= n < 100 ==> dec(n).len() == 2,
        100 <= n < 1000 ==> dec(n).len() == 3,
        1000 <= n < 10000 ==> dec(n).len() == 4,
{
    reveal_with_fuel(dec, 5);
}

} // verus!
