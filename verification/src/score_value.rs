//! Scores as decimal text: the canonical form a new score is given before it
//! is recorded, and what such a text is worth.
use vstd::prelude::*;
use crate::score_order::{is_negative, lex_sign, score_sign, lemma_score_sign_antisymmetric};

verus! {

/// Whether `b` is an ASCII decimal digit.
pub open spec fn is_digit(b: u8) -> bool {
    48 <= b <= 57
}

/// Whether every byte of `s` is an ASCII decimal digit.
pub open spec fn all_digits(s: Seq<u8>) -> bool {
    forall|i: int| 0 <= i < s.len() ==> is_digit(s[i])
}

/// Ten to the power `n`.
pub open spec fn pow10(n: nat) -> nat
    decreases n,
{
    if n == 0 {
        1
    } else {
        10 * pow10((n - 1) as nat)
    }
}

/// The number written by a string of decimal digits.
pub open spec fn digits_value(s: Seq<u8>) -> nat
    decreases s.len(),
{
    if s.len() == 0 {
        0
    } else {
        ((s[0] - 48) as nat) * pow10((s.len() - 1) as nat) + digits_value(s.drop_first())
    }
}

/// Digits without a leading zero, or the single digit zero.
pub open spec fn is_canonical_digits(d: Seq<u8>) -> bool {
    d.len() > 0 && all_digits(d) && (d.len() == 1 || d[0] != 48u8)
}

/// An integer in canonical form: digits without leading zeros, with a minus
/// sign in front for a negative number, and zero written `0`.
pub open spec fn is_canonical_integer(s: Seq<u8>) -> bool {
    if is_negative(s) {
        let t = s.drop_first();
        t.len() > 0 && all_digits(t) && t[0] != 48u8
    } else {
        is_canonical_digits(s)
    }
}

/// The number a score text stands for: its digits, negated after a minus
/// sign.
pub open spec fn int_value(s: Seq<u8>) -> int {
    if is_negative(s) {
        -(digits_value(s.drop_first()) as int)
    } else {
        digits_value(s) as int
    }
}

/// The length of the whitespace character (Unicode `White_Space`) encoded in
/// UTF-8 at position `i`, or 0 when there is none.
pub open spec fn ws_width(s: Seq<u8>, i: int) -> int {
    if i < 0 || i >= s.len() {
        0
    } else {
        let b = s[i];
        if b == 9 || b == 10 || b == 11 || b == 12 || b == 13 || b == 32 {
            1
        } else if b == 0xc2 && i + 1 < s.len() && (s[i + 1] == 0x85 || s[i + 1] == 0xa0) {
            2
        } else if b == 0xe1 && i + 2 < s.len() && s[i + 1] == 0x9a && s[i + 2] == 0x80 {
            3
        } else if b == 0xe2 && i + 2 < s.len() && ((s[i + 1] == 0x80 && ((0x80 <= s[i + 2]
            <= 0x8a) || s[i + 2] == 0xa8 || s[i + 2] == 0xa9 || s[i + 2] == 0xaf)) || (s[i + 1]
            == 0x81 && s[i + 2] == 0x9f)) {
            3
        } else if b == 0xe3 && i + 2 < s.len() && s[i + 1] == 0x80 && s[i + 2] == 0x80 {
            3
        } else {
            0
        }
    }
}

/// The position after the run of whitespace characters starting at `i`.
pub open spec fn skip_ws(s: Seq<u8>, i: int) -> int
    decreases s.len() - i,
{
    if 0 <= i < s.len() && ws_width(s, i) > 0 {
        skip_ws(s, i + ws_width(s, i))
    } else {
        i
    }
}

/// The number of leading `0` digits of `s` from `i` on.
pub open spec fn skip_zeros(s: Seq<u8>, i: int) -> int
    decreases s.len() - i,
{
    if 0 <= i < s.len() && s[i] == 48u8 {
        skip_zeros(s, i + 1)
    } else {
        i
    }
}

/// The canonical form of a score given as text: leading whitespace is
/// dropped, then an optional minus sign is read, then at least one digit and
/// nothing else; leading zeros are dropped, and zero has no sign. `None` when
/// the text is not of that shape.
pub open spec fn normalized(input: Seq<u8>) -> Option<Seq<u8>> {
    let t = input.skip(skip_ws(input, 0));
    let neg = is_negative(t);
    let d = if neg {
        t.drop_first()
    } else {
        t
    };
    if d.len() == 0 || !all_digits(d) {
        None
    } else {
        let z = d.skip(skip_zeros(d, 0));
        if z.len() == 0 {
            Some(seq![48u8])
        } else if neg {
            Some(seq![45u8] + z)
        } else {
            Some(z)
        }
    }
}

/// The whitespace width at `i`, computed.
pub(crate) fn ws_width_exec(s: &[u8], i: usize) -> (r: usize)
    requires
        i < s@.len(),
    ensures
        r == ws_width(s@, i as int),
{
    let b = s[i];
    let n = s.len();
    if b == 9 || b == 10 || b == 11 || b == 12 || b == 13 || b == 32 {
        1
    } else if b == 0xc2 && n - i > 1 && (s[i + 1] == 0x85 || s[i + 1] == 0xa0) {
        2
    } else if b == 0xe1 && n - i > 2 && s[i + 1] == 0x9a && s[i + 2] == 0x80 {
        3
    } else if b == 0xe2 && n - i > 2 && ((s[i + 1] == 0x80 && ((0x80 <= s[i + 2] && s[i + 2]
        <= 0x8a) || s[i + 2] == 0xa8 || s[i + 2] == 0xa9 || s[i + 2] == 0xaf)) || (s[i + 1]
        == 0x81 && s[i + 2] == 0x9f)) {
        3
    } else if b == 0xe3 && n - i > 2 && s[i + 1] == 0x80 && s[i + 2] == 0x80 {
        3
    } else {
        0
    }
}

/// Brings a score given as text to canonical form (see `normalized`).
pub fn normalize_integer(input: &[u8]) -> (r: Option<Vec<u8>>)
    ensures
        match r {
            Some(v) => normalized(input@) == Some(v@),
            None => normalized(input@) is None,
        },
{
    let n = input.len();
    let mut i: usize = 0;
    while i < n && ws_width_exec(input, i) > 0
        invariant
            i <= n,
            n == input@.len(),
            skip_ws(input@, i as int) == skip_ws(input@, 0),
        decreases n - i,
    {
        i = i + ws_width_exec(input, i);
    }
    assert(skip_ws(input@, i as int) == i);
    let ghost t = input@.skip(i as int);
    let neg = i < n && input[i] == 45u8;
    let start = if neg {
        i + 1
    } else {
        i
    };
    let ghost d = if neg {
        t.drop_first()
    } else {
        t
    };
    assert(skip_ws(input@, 0) == i);
    assert(is_negative(t) == neg);
    assert(d =~= input@.skip(start as int));
    if start >= n {
        assert(d.len() == 0);
        assert(normalized(input@) is None);
        return None;
    }
    let mut k = start;
    assert(!all_digits(d) ==> normalized(input@) is None);
    while k < n
        invariant
            !all_digits(d) ==> normalized(input@) is None,
            start <= k <= n,
            n == input@.len(),
            d == input@.skip(start as int),
            forall|j: int| 0 <= j < k - start ==> is_digit(d[j]),
        decreases n - k,
    {
        if !(48 <= input[k] && input[k] <= 57) {
            assert(!is_digit(d[k - start]));
            return None;
        }
        k = k + 1;
    }
    assert(all_digits(d));
    let mut z = start;
    while z < n && input[z] == 48u8
        invariant
            start <= z <= n,
            n == input@.len(),
            d == input@.skip(start as int),
            skip_zeros(d, (z - start) as int) == skip_zeros(d, 0),
        decreases n - z,
    {
        z = z + 1;
    }
    assert(skip_zeros(d, (z - start) as int) == z - start);
    assert(d.skip(z - start) =~= input@.skip(z as int));
    let mut out: Vec<u8> = Vec::new();
    if z == n {
        out.push(48u8);
        assert(out@ =~= seq![48u8]);
        return Some(out);
    }
    if neg {
        out.push(45u8);
    }
    let ghost head = out@;
    let mut j = z;
    while j < n
        invariant
            z <= j <= n,
            n == input@.len(),
            out@ == head + input@.subrange(z as int, j as int),
        decreases n - j,
    {
        out.push(input[j]);
        j = j + 1;
        assert(out@ =~= head + input@.subrange(z as int, j as int));
    }
    assert(input@.subrange(z as int, n as int) =~= input@.skip(z as int));
    assert(neg ==> out@ =~= seq![45u8] + input@.skip(z as int));
    assert(!neg ==> out@ =~= input@.skip(z as int));
    Some(out)
}

proof fn lemma_pow10_pos(n: nat)
    ensures
        pow10(n) >= 1,
    decreases n,
{
    if n > 0 {
        lemma_pow10_pos((n - 1) as nat);
    }
}

proof fn lemma_digits_value_bound(s: Seq<u8>)
    requires
        all_digits(s),
    ensures
        digits_value(s) < pow10(s.len()),
    decreases s.len(),
{
    if s.len() > 0 {
        let t = s.drop_first();
        lemma_digits_value_bound(t);
        let p = pow10(t.len());
        let d = (s[0] - 48) as nat;
        assert(d <= 9);
        assert(pow10(s.len()) == 10 * p);
        assert(d * p + digits_value(t) < 10 * p) by (nonlinear_arith)
            requires
                d <= 9,
                digits_value(t) < p,
        ;
    }
}

proof fn lemma_digits_value_lower(s: Seq<u8>)
    requires
        all_digits(s),
        s.len() > 0,
        s[0] != 48u8,
    ensures
        digits_value(s) >= pow10((s.len() - 1) as nat),
{
    let p = pow10((s.len() - 1) as nat);
    let d = (s[0] - 48) as nat;
    assert(d >= 1);
    assert(d * p >= p) by (nonlinear_arith)
        requires
            d >= 1,
    ;
}

/// On digit strings of one length, byte-wise order is numeric order.
pub proof fn lemma_lex_digits(x: Seq<u8>, y: Seq<u8>)
    requires
        all_digits(x),
        all_digits(y),
        x.len() == y.len(),
    ensures
        lex_sign(x, y) < 0 <==> digits_value(x) < digits_value(y),
        lex_sign(x, y) == 0 <==> digits_value(x) == digits_value(y),
    decreases x.len(),
{
    if x.len() > 0 {
        let (xt, yt) = (x.drop_first(), y.drop_first());
        lemma_lex_digits(xt, yt);
        lemma_digits_value_bound(xt);
        lemma_digits_value_bound(yt);
        let p = pow10(xt.len());
        let dx = (x[0] - 48) as nat;
        let dy = (y[0] - 48) as nat;
        let vx = digits_value(xt);
        let vy = digits_value(yt);
        if dx < dy {
            assert(dx * p + vx < dy * p + vy) by (nonlinear_arith)
                requires
                    dx < dy,
                    vx < p,
            ;
        } else if dx > dy {
            assert(dy * p + vy < dx * p + vx) by (nonlinear_arith)
                requires
                    dy < dx,
                    vy < p,
            ;
        }
    }
}

/// A longer canonical digit string is the greater number.
proof fn lemma_longer_digits(x: Seq<u8>, y: Seq<u8>)
    requires
        is_canonical_digits(x),
        is_canonical_digits(y),
        x.len() < y.len(),
    ensures
        digits_value(x) < digits_value(y),
{
    lemma_digits_value_bound(x);
    lemma_digits_value_lower(y);
    lemma_pow10_monotone(x.len(), (y.len() - 1) as nat);
}

proof fn lemma_pow10_monotone(a: nat, b: nat)
    requires
        a <= b,
    ensures
        pow10(a) <= pow10(b),
    decreases b,
{
    if a < b {
        lemma_pow10_monotone(a, (b - 1) as nat);
        lemma_pow10_pos((b - 1) as nat);
    }
}

/// On scores in canonical form, the score order puts the greater number
/// first: `a` comes before `b` exactly when it is greater, and the two are
/// level exactly when they are equal.
pub proof fn lemma_score_sign_numeric(a: Seq<u8>, b: Seq<u8>)
    requires
        is_canonical_integer(a),
        is_canonical_integer(b),
    ensures
        score_sign(a, b) < 0 <==> int_value(a) > int_value(b),
        score_sign(a, b) == 0 <==> int_value(a) == int_value(b),
        score_sign(a, b) > 0 <==> int_value(a) < int_value(b),
{
    lemma_score_sign_antisymmetric(a, b);
    if is_negative(a) && is_negative(b) {
        let (ta, tb) = (a.drop_first(), b.drop_first());
        if ta.len() < tb.len() {
            lemma_longer_digits(ta, tb);
        } else if tb.len() < ta.len() {
            lemma_longer_digits(tb, ta);
        } else {
            lemma_lex_digits(ta, tb);
        }
    } else if !is_negative(a) && !is_negative(b) {
        if a.len() < b.len() {
            lemma_longer_digits(a, b);
        } else if b.len() < a.len() {
            lemma_longer_digits(b, a);
        } else {
            lemma_lex_digits(b, a);
        }
    } else if is_negative(a) {
        lemma_digits_value_lower(a.drop_first());
        lemma_pow10_pos((a.drop_first().len() - 1) as nat);
    } else {
        lemma_digits_value_lower(b.drop_first());
        lemma_pow10_pos((b.drop_first().len() - 1) as nat);
    }
}

proof fn lemma_skip_zeros_props(d: Seq<u8>, i: int)
    requires
        0 <= i <= d.len(),
        forall|j: int| 0 <= j < i ==> d[j] == 48u8,
    ensures
        i <= skip_zeros(d, i) <= d.len(),
        forall|j: int| 0 <= j < skip_zeros(d, i) ==> d[j] == 48u8,
        skip_zeros(d, i) < d.len() ==> d[skip_zeros(d, i)] != 48u8,
    decreases d.len() - i,
{
    if i < d.len() && d[i] == 48u8 {
        lemma_skip_zeros_props(d, i + 1);
    }
}

proof fn lemma_leading_zeros_value(d: Seq<u8>, k: int)
    requires
        0 <= k <= d.len(),
        forall|j: int| 0 <= j < k ==> d[j] == 48u8,
    ensures
        digits_value(d) == digits_value(d.skip(k)),
    decreases k,
{
    if k > 0 {
        assert(d[0] == 48u8);
        let zero = (d[0] - 48) as nat;
        let pw = pow10((d.len() - 1) as nat);
        assert(zero == 0);
        assert(zero * pw == 0) by (nonlinear_arith)
            requires
                zero == 0,
        ;
        assert(digits_value(d) == digits_value(d.drop_first()));
        assert(d.drop_first().skip(k - 1) =~= d.skip(k));
        lemma_leading_zeros_value(d.drop_first(), k - 1);
    } else {
        assert(d.skip(0) =~= d);
    }
}

/// A score brought to canonical form is canonical and stands for the same
/// number as the text it came from (after its leading whitespace).
pub proof fn lemma_normalized_value(input: Seq<u8>)
    requires
        normalized(input) is Some,
    ensures
        is_canonical_integer(normalized(input)->0),
        int_value(normalized(input)->0) == int_value(input.skip(skip_ws(input, 0))),
{
    let t = input.skip(skip_ws(input, 0));
    let neg = is_negative(t);
    let d = if neg {
        t.drop_first()
    } else {
        t
    };
    lemma_skip_zeros_props(d, 0);
    let k = skip_zeros(d, 0);
    let z = d.skip(k);
    lemma_leading_zeros_value(d, k);
    if z.len() == 0 {
        assert(digits_value(z) == 0);
        assert(digits_value(seq![48u8]) == 0) by {
            let o = seq![48u8];
            assert(o.drop_first() =~= Seq::<u8>::empty());
            assert(digits_value(o.drop_first()) == 0);
            let zero = (o[0] - 48) as nat;
            let pw = pow10(0);
            assert(zero == 0);
            assert(zero * pw == 0) by (nonlinear_arith)
                requires
                    zero == 0,
            ;
        }
    } else if neg {
        let r = seq![45u8] + z;
        assert(r.drop_first() =~= z);
        assert(z[0] == d[k]);
    } else {
        assert(z[0] == d[k]);
        assert(!is_negative(z));
    }
}

/// A score already in canonical form is left as it is.
pub proof fn lemma_normalized_canonical(s: Seq<u8>)
    requires
        is_canonical_integer(s),
    ensures
        normalized(s) == Some(s),
{
    assert(ws_width(s, 0) == 0);
    assert(skip_ws(s, 0) == 0);
    assert(s.skip(0) =~= s);
    let neg = is_negative(s);
    let d = if neg {
        s.drop_first()
    } else {
        s
    };
    if d[0] != 48u8 {
        assert(skip_zeros(d, 0) == 0);
        assert(d.skip(0) =~= d);
        if neg {
            assert(seq![45u8] + d =~= s);
        }
    } else {
        assert(!neg && d.len() == 1);
        assert(skip_zeros(d, 1) == 1);
        assert(skip_zeros(d, 0) == 1);
        assert(s =~= seq![48u8]);
    }
}

/// Bringing a score to canonical form twice gives what once does.
pub proof fn lemma_normalized_idempotent(input: Seq<u8>)
    requires
        normalized(input) is Some,
    ensures
        normalized(normalized(input)->0) == normalized(input),
{
    lemma_normalized_value(input);
    lemma_normalized_canonical(normalized(input)->0);
}

/// Appending a digit multiplies the value by ten and adds the digit.
pub proof fn lemma_digits_value_push(s: Seq<u8>, c: u8)
    requires
        all_digits(s),
        is_digit(c),
    ensures
        digits_value(s.push(c)) == digits_value(s) * 10 + (c - 48),
    decreases s.len(),
{
    let t = s.push(c);
    let dc = (c - 48) as nat;
    if s.len() == 0 {
        assert(t.drop_first() =~= Seq::<u8>::empty());
        assert(t[0] == c);
        assert(dc * pow10(0) == dc) by (nonlinear_arith)
            requires
                pow10(0) == 1,
        ;
        assert(digits_value(t.drop_first()) == 0);
        assert(digits_value(t) == dc);
        assert(digits_value(s) == 0);
    } else {
        assert(t.drop_first() =~= s.drop_first().push(c));
        lemma_digits_value_push(s.drop_first(), c);
        let d = (s[0] - 48) as nat;
        let p = pow10((s.len() - 1) as nat);
        let v = digits_value(s.drop_first());
        assert(t[0] == s[0]);
        assert(pow10(s.len()) == 10 * p);
        assert(digits_value(t) == d * pow10(s.len()) + (v * 10 + dc));
        assert(d * (10 * p) + (v * 10 + dc) == (d * p + v) * 10 + dc) by (nonlinear_arith);
    }
}

/// The decimal digits of `n`, without leading zeros.
pub open spec fn decimal(n: nat) -> Seq<u8>
    decreases n,
{
    if n < 10 {
        seq![(48 + n) as u8]
    } else {
        decimal(n / 10).push((48 + n % 10) as u8)
    }
}

/// Appends the decimal digits of `n`.
pub fn push_decimal(out: &mut Vec<u8>, n: u64)
    ensures
        final(out)@ == old(out)@ + decimal(n as nat),
    decreases n,
{
    if n < 10 {
        out.push(48 + n as u8);
        assert(final(out)@ =~= old(out)@ + decimal(n as nat));
    } else {
        push_decimal(out, n / 10);
        out.push(48 + (n % 10) as u8);
        assert(final(out)@ =~= old(out)@ + decimal(n as nat));
    }
}

} // verus!
