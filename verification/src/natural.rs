//! Natural order of names: digit runs compare by value, letters without
//! regard to case.

use core::cmp::Ordering;
use vstd::prelude::*;

verus! {

/// How one value stands to another in an order.
#[derive(Clone, Copy, Debug, PartialEq, Eq, Structural)]
pub enum Rank {
    Before,
    Same,
    After,
}

/// Whether `b` is a decimal digit.
pub open spec fn digit_byte(b: u8) -> bool {
    48 <= b <= 57
}

/// The number of digits that `s` starts with.
pub open spec fn digit_run(s: Seq<u8>) -> nat
    decreases s.len(),
{
    if s.len() > 0 && digit_byte(s[0]) {
        1 + digit_run(s.skip(1))
    } else {
        0
    }
}

/// The value of a sequence of digits.
pub open spec fn digits_value(s: Seq<u8>) -> nat
    decreases s.len(),
{
    if s.len() == 0 {
        0
    } else {
        digits_value(s.drop_last()) * 10 + (s.last() - 48) as nat
    }
}

/// The largest value that digit runs are told apart by.
pub open spec fn value_cap() -> nat {
    u128::MAX as nat
}

/// The weight of a digit run: its value, up to the cap.
pub open spec fn run_weight(s: Seq<u8>) -> int {
    if digits_value(s) <= value_cap() {
        digits_value(s) as int
    } else {
        value_cap() as int
    }
}

/// `b` with an upper-case letter of ASCII in lower case.
pub open spec fn lower_byte(b: u8) -> u8 {
    if 65 <= b <= 90 {
        (b + 32) as u8
    } else {
        b
    }
}

/// The weight of a byte that is no digit: below every digit run, or above.
pub open spec fn byte_weight(b: u8) -> int {
    if lower_byte(b) < 48 {
        lower_byte(b) - 256
    } else {
        value_cap() + 1 + lower_byte(b)
    }
}

/// What a name is ordered by: one weight for each digit run and for each other
/// byte, in order.
pub open spec fn weights(s: Seq<u8>) -> Seq<int>
    decreases s.len(),
{
    if s.len() == 0 {
        Seq::empty()
    } else if digit_byte(s[0]) {
        let n = digit_run(s) as int;
        if 0 < n <= s.len() {
            seq![run_weight(s.take(n))] + weights(s.skip(n))
        } else {
            Seq::empty()
        }
    } else {
        seq![byte_weight(s[0])] + weights(s.skip(1))
    }
}

/// The bytes of `s` as numbers.
pub open spec fn byte_numbers(s: Seq<u8>) -> Seq<int> {
    s.map_values(|b: u8| b as int)
}

/// Lexicographic order of number sequences.
pub open spec fn lexical(a: Seq<int>, b: Seq<int>) -> Rank
    decreases a.len(),
{
    if a.len() == 0 {
        if b.len() == 0 {
            Rank::Same
        } else {
            Rank::Before
        }
    } else if b.len() == 0 {
        Rank::After
    } else if a[0] < b[0] {
        Rank::Before
    } else if a[0] > b[0] {
        Rank::After
    } else {
        lexical(a.skip(1), b.skip(1))
    }
}

/// Natural order of two names given by their bytes: by weights, and where
/// those agree by the bytes themselves.
pub open spec fn natural(a: Seq<u8>, b: Seq<u8>) -> Rank {
    match lexical(weights(a), weights(b)) {
        Rank::Same => lexical(byte_numbers(a), byte_numbers(b)),
        o => o,
    }
}

proof fn lemma_run_bounds(s: Seq<u8>)
    ensures
        digit_run(s) <= s.len(),
        s.len() > 0 && digit_byte(s[0]) ==> digit_run(s) >= 1,
    decreases s.len(),
{
    if s.len() > 0 && digit_byte(s[0]) {
        lemma_run_bounds(s.skip(1));
    }
}

proof fn lemma_run_at(s: Seq<u8>, k: int)
    requires
        0 <= k <= s.len(),
        forall|i: int| 0 <= i < k ==> digit_byte(#[trigger] s[i]),
        k < s.len() ==> !digit_byte(s[k]),
    ensures
        digit_run(s) == k,
    decreases k,
{
    if k > 0 {
        assert(digit_byte(s[0]));
        let t = s.skip(1);
        assert forall|i: int| 0 <= i < k - 1 implies digit_byte(#[trigger] t[i]) by {
            assert(digit_byte(s[i + 1]));
        }
        lemma_run_at(t, k - 1);
    }
}

proof fn lemma_weights_len_step(x: int, s: Seq<int>, y: int, t: Seq<int>)
    ensures
        lexical(seq![x] + s, seq![y] + t) == (if x < y {
            Rank::Before
        } else if x > y {
            Rank::After
        } else {
            lexical(s, t)
        }),
{
    assert((seq![x] + s).skip(1) =~= s);
    assert((seq![y] + t).skip(1) =~= t);
}

/// The value of the digit run of `s` that starts at `from`, up to the cap, and
/// where the run ends.
fn digits_from(s: &[u8], from: usize) -> (r: (u128, usize))
    requires
        from < s@.len(),
        digit_byte(s@[from as int]),
    ensures
        from < r.1 <= s@.len(),
        r.1 - from == digit_run(s@.skip(from as int)),
        r.0 == run_weight(s@.subrange(from as int, r.1 as int)),
{
    let mut n: u128 = 0;
    let mut j: usize = from;
    while j < s.len() && 48 <= s[j] && s[j] <= 57
        invariant
            from <= j <= s@.len(),
            from < s@.len(),
            n == run_weight(s@.subrange(from as int, j as int)),
            forall|i: int| from <= i < j ==> digit_byte(#[trigger] s@[i]),
        decreases s@.len() - j,
    {
        let d: u128 = (s[j] - 48) as u128;
        proof {
            let next = s@.subrange(from as int, j + 1);
            assert(next.drop_last() =~= s@.subrange(from as int, j as int));
            assert(digits_value(next) == digits_value(s@.subrange(from as int, j as int)) * 10 + d);
        }
        n = match n.checked_mul(10) {
            Some(m) => m.saturating_add(d),
            None => u128::MAX,
        };
        j = j + 1;
    }
    proof {
        let t = s@.skip(from as int);
        assert forall|i: int| 0 <= i < j - from implies digit_byte(#[trigger] t[i]) by {
            assert(digit_byte(s@[from + i]));
        }
        lemma_run_at(t, j - from);
        if j == from {
            assert(digit_byte(t[0]));
            lemma_run_bounds(t);
        }
    }
    (n, j)
}

fn lower(b: u8) -> (r: u8)
    ensures
        r == lower_byte(b),
{
    if 65 <= b && b <= 90 {
        b + 32
    } else {
        b
    }
}

/// The order of two bytes.
fn byte_order(x: u8, y: u8) -> (r: Rank)
    ensures
        r == (if x < y {
            Rank::Before
        } else if x > y {
            Rank::After
        } else {
            Rank::Same
        }),
{
    if x < y {
        Rank::Before
    } else if x > y {
        Rank::After
    } else {
        Rank::Same
    }
}

proof fn lemma_lexical_skip(a: Seq<int>, b: Seq<int>, i: int)
    requires
        0 <= i <= a.len(),
        0 <= i <= b.len(),
        forall|k: int| 0 <= k < i ==> a[k] == b[k],
    ensures
        lexical(a, b) == lexical(a.skip(i), b.skip(i)),
    decreases i,
{
    if i == 0 {
        assert(a.skip(0) =~= a);
        assert(b.skip(0) =~= b);
    } else {
        lemma_lexical_skip(a.skip(1), b.skip(1), i - 1);
        assert(a.skip(1).skip(i - 1) =~= a.skip(i));
        assert(b.skip(1).skip(i - 1) =~= b.skip(i));
    }
}

/// Lexicographic order of two byte sequences.
fn bytes_order(a: &[u8], b: &[u8]) -> (r: Rank)
    ensures
        r == lexical(byte_numbers(a@), byte_numbers(b@)),
{
    let ghost x = byte_numbers(a@);
    let ghost y = byte_numbers(b@);
    let mut i: usize = 0;
    loop
        invariant
            i <= a@.len(),
            i <= b@.len(),
            x == byte_numbers(a@),
            y == byte_numbers(b@),
            forall|k: int| 0 <= k < i ==> x[k] == y[k],
        decreases a@.len() - i,
    {
        proof {
            lemma_lexical_skip(x, y, i as int);
        }
        if i >= a.len() {
            if i >= b.len() {
                return Rank::Same;
            }
            return Rank::Before;
        }
        if i >= b.len() {
            return Rank::After;
        }
        match byte_order(a[i], b[i]) {
            Rank::Same => {},
            o => {
                return o;
            },
        }
        i = i + 1;
    }
}

/// How `a` stands to `b` in the natural order.
pub fn natural_rank(a: &str, b: &str) -> (r: Rank)
    ensures
        r == natural(vstd::utf8::encode_utf8(a@), vstd::utf8::encode_utf8(b@)),
{
    let x: &[u8] = a.as_bytes();
    let y: &[u8] = b.as_bytes();
    let mut i: usize = 0;
    let mut j: usize = 0;
    proof {
        assert(x@.skip(0) =~= x@);
        assert(y@.skip(0) =~= y@);
    }
    loop
        invariant
            i <= x@.len(),
            j <= y@.len(),
            x@ == vstd::utf8::encode_utf8(a@),
            y@ == vstd::utf8::encode_utf8(b@),
            lexical(weights(x@), weights(y@)) == lexical(
                weights(x@.skip(i as int)),
                weights(y@.skip(j as int)),
            ),
        decreases x@.len() - i,
    {
        let ghost s = x@.skip(i as int);
        let ghost t = y@.skip(j as int);
        proof {
            lemma_run_bounds(s);
            lemma_run_bounds(t);
        }
        if i >= x.len() && j >= y.len() {
            return bytes_order(x, y);
        }
        if i >= x.len() {
            assert(weights(s).len() == 0);
            assert(weights(t).len() > 0);
            return Rank::Before;
        }
        if j >= y.len() {
            assert(weights(t).len() == 0);
            assert(weights(s).len() > 0);
            return Rank::After;
        }
        let p: u8 = x[i];
        let q: u8 = y[j];
        assert(s[0] == p && t[0] == q);
        let p_digit: bool = 48 <= p && p <= 57;
        let q_digit: bool = 48 <= q && q <= 57;
        if p_digit && q_digit {
            let (n, ni) = digits_from(x, i);
            let (m, mj) = digits_from(y, j);
            proof {
                let l = digit_run(s) as int;
                let k = digit_run(t) as int;
                assert(s.take(l) =~= x@.subrange(i as int, ni as int));
                assert(t.take(k) =~= y@.subrange(j as int, mj as int));
                assert(s.skip(l) =~= x@.skip(ni as int));
                assert(t.skip(k) =~= y@.skip(mj as int));
                lemma_weights_len_step(
                    run_weight(s.take(l)),
                    weights(s.skip(l)),
                    run_weight(t.take(k)),
                    weights(t.skip(k)),
                );
            }
            if n < m {
                return Rank::Before;
            }
            if n > m {
                return Rank::After;
            }
            i = ni;
            j = mj;
        } else {
            proof {
                lemma_mixed_step(s, t);
                assert(s.skip(1) =~= x@.skip(i + 1));
                assert(t.skip(1) =~= y@.skip(j + 1));
            }
            match byte_order(lower(p), lower(q)) {
                Rank::Same => {},
                o => {
                    return o;
                },
            }
            i = i + 1;
            j = j + 1;
        }
    }
}

/// A rank as std's `Ordering`.
pub open spec fn ordering_of(r: Rank) -> Ordering {
    match r {
        Rank::Before => Ordering::Less,
        Rank::Same => Ordering::Equal,
        Rank::After => Ordering::Greater,
    }
}

/// The natural order of two names: digit runs by value, other bytes without
/// regard to the case of ASCII letters; names that agree in both are told
/// apart by their bytes.
pub fn natural_cmp(a: &str, b: &str) -> (r: Ordering)
    ensures
        r == ordering_of(natural(vstd::utf8::encode_utf8(a@), vstd::utf8::encode_utf8(b@))),
{
    match natural_rank(a, b) {
        Rank::Before => Ordering::Less,
        Rank::Same => Ordering::Equal,
        Rank::After => Ordering::Greater,
    }
}

proof fn lemma_mixed_step(s: Seq<u8>, t: Seq<u8>)
    requires
        s.len() > 0,
        t.len() > 0,
        !(digit_byte(s[0]) && digit_byte(t[0])),
    ensures
        lexical(weights(s), weights(t)) == (if lower_byte(s[0]) < lower_byte(t[0]) {
            Rank::Before
        } else if lower_byte(s[0]) > lower_byte(t[0]) {
            Rank::After
        } else {
            lexical(weights(s.skip(1)), weights(t.skip(1)))
        }),
{
    lemma_run_bounds(s);
    lemma_run_bounds(t);
    let l = digit_run(s) as int;
    let k = digit_run(t) as int;
    if digit_byte(s[0]) {
        lemma_weights_len_step(
            run_weight(s.take(l)),
            weights(s.skip(l)),
            byte_weight(t[0]),
            weights(t.skip(1)),
        );
    } else if digit_byte(t[0]) {
        lemma_weights_len_step(
            byte_weight(s[0]),
            weights(s.skip(1)),
            run_weight(t.take(k)),
            weights(t.skip(k)),
        );
    } else {
        lemma_weights_len_step(
            byte_weight(s[0]),
            weights(s.skip(1)),
            byte_weight(t[0]),
            weights(t.skip(1)),
        );
    }
}

// ---------------------------------------------------------------------------
// laws
// ---------------------------------------------------------------------------

/// The order seen from the other side.
pub open spec fn flipped(o: Rank) -> Rank {
    match o {
        Rank::Before => Rank::After,
        Rank::Same => Rank::Same,
        Rank::After => Rank::Before,
    }
}

proof fn lemma_lexical_flip(a: Seq<int>, b: Seq<int>)
    ensures
        lexical(b, a) == flipped(lexical(a, b)),
    decreases a.len(),
{
    if a.len() > 0 && b.len() > 0 && a[0] == b[0] {
        lemma_lexical_flip(a.skip(1), b.skip(1));
    }
}

proof fn lemma_lexical_equal(a: Seq<int>, b: Seq<int>)
    ensures
        (lexical(a, b) == Rank::Same) == (a == b),
    decreases a.len(),
{
    if a.len() > 0 && b.len() > 0 && a[0] == b[0] {
        lemma_lexical_equal(a.skip(1), b.skip(1));
        if a.skip(1) == b.skip(1) {
            assert(a =~= seq![a[0]] + a.skip(1));
            assert(b =~= seq![b[0]] + b.skip(1));
        }
    } else if a.len() == 0 && b.len() == 0 {
        assert(a =~= b);
    }
}

proof fn lemma_lexical_transitive(a: Seq<int>, b: Seq<int>, c: Seq<int>)
    requires
        lexical(a, b) != Rank::After,
        lexical(b, c) != Rank::After,
    ensures
        lexical(a, c) != Rank::After,
        lexical(a, c) == Rank::Same ==> lexical(a, b) == Rank::Same && lexical(b, c)
            == Rank::Same,
    decreases a.len(),
{
    if a.len() > 0 && b.len() > 0 && c.len() > 0 && a[0] == b[0] && b[0] == c[0] {
        lemma_lexical_transitive(a.skip(1), b.skip(1), c.skip(1));
    }
}

/// Two names compare as equal exactly where their bytes are the same.
pub proof fn natural_equal_only_for_same(a: Seq<u8>, b: Seq<u8>)
    ensures
        (natural(a, b) == Rank::Same) == (a == b),
{
    lemma_lexical_equal(weights(a), weights(b));
    lemma_lexical_equal(byte_numbers(a), byte_numbers(b));
    if byte_numbers(a) == byte_numbers(b) {
        assert(a.len() == byte_numbers(a).len());
        assert(b.len() == byte_numbers(b).len());
        assert forall|i: int| 0 <= i < a.len() implies a[i] == b[i] by {
            assert(byte_numbers(a)[i] == byte_numbers(b)[i]);
        }
        assert(a =~= b);
    }
}

/// Comparing two names the other way round gives the opposite answer.
pub proof fn natural_antisymmetric(a: Seq<u8>, b: Seq<u8>)
    ensures
        natural(b, a) == flipped(natural(a, b)),
{
    lemma_lexical_flip(weights(a), weights(b));
    lemma_lexical_flip(byte_numbers(a), byte_numbers(b));
}

/// A name that comes no later than a second, which comes no later than a
/// third, comes no later than the third.
pub proof fn natural_transitive(a: Seq<u8>, b: Seq<u8>, c: Seq<u8>)
    requires
        natural(a, b) != Rank::After,
        natural(b, c) != Rank::After,
    ensures
        natural(a, c) != Rank::After,
{
    lemma_lexical_transitive(weights(a), weights(b), weights(c));
    if lexical(weights(a), weights(c)) == Rank::Same {
        lemma_lexical_transitive(byte_numbers(a), byte_numbers(b), byte_numbers(c));
    }
}

// ---------------------------------------------------------------------------
// laws of what comes first
// ---------------------------------------------------------------------------

/// The weights of two texts stand one behind the other where no run of digits
/// goes over from one to the other.
pub proof fn weights_add_up(p: Seq<u8>, s: Seq<u8>)
    requires
        p.len() == 0 || s.len() == 0 || !digit_byte(p.last()) || !digit_byte(s[0]),
    ensures
        weights(p + s) == weights(p) + weights(s),
    decreases p.len(),
{
    let all = p + s;
    if p.len() == 0 {
        assert(all =~= s);
        assert(weights(p) + weights(s) =~= weights(s));
    } else if digit_byte(p[0]) {
        let n = digit_run(p) as int;
        lemma_run_bounds(p);
        lemma_run_digits(p);
        assert forall|i: int| 0 <= i < n implies digit_byte(#[trigger] all[i]) by {
            assert(all[i] == p[i]);
        }
        if n < all.len() {
            if n < p.len() {
                assert(all[n] == p[n]);
            } else {
                assert(all[n] == s[0]);
                assert(p[p.len() - 1] == p.last());
            }
        }
        lemma_run_at(all, n);
        assert(all.take(n) =~= p.take(n));
        assert(all.skip(n) =~= p.skip(n) + s);
        if n < p.len() {
            assert(p.skip(n).last() == p.last());
        }
        weights_add_up(p.skip(n), s);
        assert(weights(all) =~= weights(p) + weights(s));
    } else {
        assert(all.skip(1) =~= p.skip(1) + s);
        if p.len() > 1 {
            assert(p.skip(1).last() == p.last());
        }
        weights_add_up(p.skip(1), s);
        assert(weights(all) =~= weights(p) + weights(s));
    }
}

proof fn lemma_run_digits(s: Seq<u8>)
    ensures
        forall|i: int| 0 <= i < digit_run(s) ==> digit_byte(#[trigger] s[i]),
        digit_run(s) < s.len() ==> !digit_byte(s[digit_run(s) as int]),
        digit_run(s) <= s.len(),
    decreases s.len(),
{
    if s.len() > 0 && digit_byte(s[0]) {
        let t = s.skip(1);
        lemma_run_digits(t);
        assert forall|i: int| 0 <= i < digit_run(s) implies digit_byte(#[trigger] s[i]) by {
            if i > 0 {
                assert(t[i - 1] == s[i]);
            }
        }
        if digit_run(s) < s.len() {
            assert(t[digit_run(t) as int] == s[digit_run(s) as int]);
        }
    }
}

proof fn lemma_after_common(c: Seq<int>, a: Seq<int>, b: Seq<int>)
    ensures
        lexical(c + a, c + b) == lexical(a, b),
{
    lemma_lexical_skip(c + a, c + b, c.len() as int);
    assert((c + a).skip(c.len() as int) =~= a);
    assert((c + b).skip(c.len() as int) =~= b);
}

/// Behind the same beginning the smaller number comes first, however many
/// digits it is written with and whatever follows.
pub proof fn numbers_order_by_value(
    p: Seq<u8>,
    s: Seq<u8>,
    t: Seq<u8>,
    x: Seq<u8>,
    y: Seq<u8>,
)
    requires
        p.len() == 0 || !digit_byte(p.last()),
        s.len() > 0,
        t.len() > 0,
        forall|i: int| 0 <= i < s.len() ==> digit_byte(#[trigger] s[i]),
        forall|i: int| 0 <= i < t.len() ==> digit_byte(#[trigger] t[i]),
        x.len() == 0 || !digit_byte(x[0]),
        y.len() == 0 || !digit_byte(y[0]),
        digits_value(s) < digits_value(t) <= u128::MAX,
    ensures
        natural(p + (s + x), p + (t + y)) is Before,
{
    lemma_number_first(s, x);
    lemma_number_first(t, y);
    weights_add_up(p, s + x);
    weights_add_up(p, t + y);
    lemma_weights_len_step(run_weight(s), weights(x), run_weight(t), weights(y));
    lemma_after_common(weights(p), weights(s + x), weights(t + y));
}

proof fn lemma_number_first(s: Seq<u8>, x: Seq<u8>)
    requires
        s.len() > 0,
        forall|i: int| 0 <= i < s.len() ==> digit_byte(#[trigger] s[i]),
        x.len() == 0 || !digit_byte(x[0]),
    ensures
        weights(s + x) == seq![run_weight(s)] + weights(x),
{
    let all = s + x;
    let n = s.len() as int;
    assert forall|i: int| 0 <= i < n implies digit_byte(#[trigger] all[i]) by {
        assert(all[i] == s[i]);
    }
    if n < all.len() {
        assert(all[n] == x[0]);
    }
    lemma_run_at(all, n);
    assert(all.take(n) =~= s);
    assert(all.skip(n) =~= x);
    assert(digit_byte(all[0]));
}

/// Behind the same beginning the byte decides that comes first, upper case as
/// lower case.
pub proof fn letters_order_without_case(p: Seq<u8>, b: u8, c: u8, x: Seq<u8>, y: Seq<u8>)
    requires
        !digit_byte(b),
        !digit_byte(c),
    ensures
        lower_byte(b) < lower_byte(c) ==> natural(p + (seq![b] + x), p + (seq![c] + y)) is Before,
        lower_byte(b) == lower_byte(c) ==> lexical(
            weights(p + (seq![b] + x)),
            weights(p + (seq![c] + y)),
        ) == lexical(weights(x), weights(y)),
{
    let l = seq![b] + x;
    let r = seq![c] + y;
    assert(l.skip(1) =~= x);
    assert(r.skip(1) =~= y);
    assert(l[0] == b && r[0] == c);
    weights_add_up(p, l);
    weights_add_up(p, r);
    lemma_weights_len_step(byte_weight(b), weights(x), byte_weight(c), weights(y));
    lemma_after_common(weights(p), weights(l), weights(r));
}

/// A letter comes behind a number, and a sign below the digits before it.
pub proof fn numbers_stand_between(p: Seq<u8>, b: u8, s: Seq<u8>, x: Seq<u8>, y: Seq<u8>)
    requires
        p.len() == 0 || !digit_byte(p.last()),
        !digit_byte(b),
        s.len() > 0,
        forall|i: int| 0 <= i < s.len() ==> digit_byte(#[trigger] s[i]),
        x.len() == 0 || !digit_byte(x[0]),
    ensures
        b < 48 ==> natural(p + (seq![b] + y), p + (s + x)) is Before,
        b > 57 ==> natural(p + (s + x), p + (seq![b] + y)) is Before,
{
    let l = seq![b] + y;
    assert(l.skip(1) =~= y);
    assert(l[0] == b);
    lemma_number_first(s, x);
    weights_add_up(p, l);
    weights_add_up(p, s + x);
    lemma_weights_len_step(byte_weight(b), weights(y), run_weight(s), weights(x));
    lemma_weights_len_step(run_weight(s), weights(x), byte_weight(b), weights(y));
    lemma_after_common(weights(p), weights(l), weights(s + x));
    lemma_after_common(weights(p), weights(s + x), weights(l));
}

/// The shorter of two texts comes first where the longer goes on from it with
/// no further digit of the same number.
pub proof fn beginning_comes_first(p: Seq<u8>, s: Seq<u8>)
    requires
        s.len() > 0,
        p.len() == 0 || !digit_byte(p.last()) || !digit_byte(s[0]),
    ensures
        natural(p, p + s) is Before,
{
    weights_add_up(p, s);
    lemma_run_bounds(s);
    lemma_after_common(weights(p), Seq::empty(), weights(s));
    assert(weights(p) + Seq::<int>::empty() =~= weights(p));
    assert(weights(s).len() > 0);
}

/// The value of digits is the number that they spell.
pub proof fn digits_spell_their_value(s: Seq<u8>)
    requires
        forall|i: int| 0 <= i < s.len() ==> digit_byte(#[trigger] s[i]),
    ensures
        digits_value(s) == crate::text::number(s.map_values(|b: u8| b as char)),
    decreases s.len(),
{
    let chars = s.map_values(|b: u8| b as char);
    if s.len() > 0 {
        let head = s.drop_last();
        assert forall|i: int| 0 <= i < head.len() implies digit_byte(#[trigger] head[i]) by {
            assert(head[i] == s[i]);
        }
        digits_spell_their_value(head);
        assert(chars.drop_last() =~= head.map_values(|b: u8| b as char));
        assert(digit_byte(s[s.len() - 1]));
    }
}

} // verus!
