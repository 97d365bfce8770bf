//! The placeholder fingerprint as written in `lib/fingerprint.c`: the
//! hexadecimal byte values listed, one per comma-separated item, on the lines
//! after the one that declares `fingerprint[]` and before the one holding
//! the closing brace.
use vstd::prelude::*;
use crate::bytes::{find_byte_from, lemma_find_byte_props};
use vstd::utf8::valid_utf8;
use crate::score_value::{ws_width, ws_width_exec};
use crate::utf8::is_valid_utf8;

verus! {

/// How many bytes the placeholder has.
pub const PLACEHOLDER_LEN: usize = 32;

/// The length of the whitespace character (Unicode `White_Space`) encoded in
/// UTF-8 that ends just before position `end`, or 0 when there is none.
pub open spec fn ws_width_before(s: Seq<u8>, end: int) -> int {
    if end >= 1 && end <= s.len() && ws_width(s, end - 1) == 1 {
        1
    } else if end >= 2 && end <= s.len() && ws_width(s, end - 2) == 2 {
        2
    } else if end >= 3 && end <= s.len() && ws_width(s, end - 3) == 3 {
        3
    } else {
        0
    }
}

/// The start of `s[start..end]` after its leading whitespace.
pub open spec fn trim_start_from(s: Seq<u8>, start: int, end: int) -> int
    decreases end - start,
{
    if 0 <= start < end <= s.len() && 0 < ws_width(s, start) <= end - start {
        trim_start_from(s, start + ws_width(s, start), end)
    } else {
        start
    }
}

/// The end of `s[start..end]` before its trailing whitespace.
pub open spec fn trim_end_from(s: Seq<u8>, start: int, end: int) -> int
    decreases end - start,
{
    if 0 <= start < end <= s.len() && 0 < ws_width_before(s, end) <= end - start {
        trim_end_from(s, start, end - ws_width_before(s, end))
    } else {
        end
    }
}

/// `s[start..end]` without leading and trailing whitespace.
pub open spec fn trimmed(s: Seq<u8>, start: int, end: int) -> Seq<u8> {
    let a = trim_start_from(s, start, end);
    s.subrange(a, trim_end_from(s, a, end))
}

/// The byte value of a hexadecimal literal's digits (underscores are
/// ignored), if every character is a digit or an underscore.
pub open spec fn hex_literal_value(d: Seq<u8>) -> Option<nat>
    decreases d.len(),
{
    if d.len() == 0 {
        Some(0)
    } else {
        match hex_literal_value(d.drop_last()) {
            None => None,
            Some(v) => {
                let c = d.last();
                if c == 95u8 {
                    Some(v)
                } else if 48 <= c <= 57 {
                    Some(v * 16 + (c - 48) as nat)
                } else if 97 <= c <= 102 {
                    Some(v * 16 + (c - 87) as nat)
                } else if 65 <= c <= 70 {
                    Some(v * 16 + (c - 55) as nat)
                } else {
                    None
                }
            },
        }
    }
}

/// Whether `d` holds at least one hexadecimal digit.
pub open spec fn has_hex_digit(d: Seq<u8>) -> bool {
    exists|i: int| 0 <= i < d.len() && d[i] != 95u8
}

/// Whether a trimmed item is listed as a byte: it starts with `0x`.
pub open spec fn is_listed(tok: Seq<u8>) -> bool {
    tok.len() >= 2 && tok[0] == 48u8 && tok[1] == 120u8
}

/// The byte an item starting with `0x` stands for, when it is a hexadecimal
/// literal of at most 255.
pub open spec fn listed_byte(tok: Seq<u8>) -> Option<u8> {
    let d = tok.skip(2);
    match hex_literal_value(d) {
        Some(v) => if has_hex_digit(d) && v <= 255 {
            Some(v as u8)
        } else {
            None
        },
        None => None,
    }
}

/// The first position in `[from, end)` holding `b`, or `end`.
pub open spec fn find_in(s: Seq<u8>, b: u8, from: int, end: int) -> int
    decreases end - from,
{
    if from >= end {
        end
    } else if s[from] == b {
        from
    } else {
        find_in(s, b, from + 1, end)
    }
}

/// `find_in` stays in range, lands on `b` unless it reaches `end`, and
/// skips no `b`.
pub proof fn lemma_find_in(s: Seq<u8>, b: u8, from: int, end: int)
    requires
        from <= end,
    ensures
        from <= find_in(s, b, from, end) <= end,
        find_in(s, b, from, end) < end ==> s[find_in(s, b, from, end)] == b,
        forall|j: int| from <= j < find_in(s, b, from, end) ==> s[j] != b,
    decreases end - from,
{
    if from < end && s[from] != b {
        lemma_find_in(s, b, from + 1, end);
    }
}

/// The values listed on `s[pos..end]`: the text is cut at commas, each item
/// is trimmed, and items starting with `0x` are read as bytes; `None` when one
/// of them is not a valid byte literal.
pub open spec fn items_from(s: Seq<u8>, pos: int, end: int) -> Option<Seq<u8>>
    decreases end + 1 - pos,
{
    if pos < 0 || pos > end || end > s.len() {
        Some(Seq::empty())
    } else {
        let c = find_in(s, 44u8, pos, end);
        proof {
            lemma_find_in(s, 44u8, pos, end);
        }
        let tok = trimmed(s, pos, c);
        let rest = items_from(s, c + 1, end);
        if is_listed(tok) {
            match listed_byte(tok) {
                Some(b) => prefixed(seq![b], rest),
                None => None,
            }
        } else {
            rest
        }
    }
}

/// `a` followed by the values of `o`, when there are any.
pub open spec fn prefixed(a: Seq<u8>, o: Option<Seq<u8>>) -> Option<Seq<u8>> {
    match o {
        Some(r) => Some(a + r),
        None => None,
    }
}

/// Whether `s[start..end]` contains `fingerprint[]`.
pub open spec fn mentions_fingerprint(s: Seq<u8>, start: int, end: int) -> bool {
    exists|i: int| start <= i && i + 13 <= end && #[trigger] s.subrange(i, i + 13) == fingerprint_decl()
}

/// `fingerprint[]`.
pub open spec fn fingerprint_decl() -> Seq<u8> {
    seq![102u8, 105u8, 110u8, 103u8, 101u8, 114u8, 112u8, 114u8, 105u8, 110u8, 116u8, 91u8, 93u8]
}

/// Whether `s[start..end]` contains a closing brace.
pub open spec fn has_brace(s: Seq<u8>, start: int, end: int) -> bool {
    exists|i: int| start <= i < end && s[i] == 125u8
}

/// The end of the line starting at `start`: before its newline, and before
/// the carriage return of a CR LF ending.
pub open spec fn line_end(s: Seq<u8>, start: int) -> int {
    let k = find_byte_from(s, 10u8, start);
    if k < s.len() && k > start && s[k - 1] == 13u8 {
        k - 1
    } else {
        k
    }
}

/// The values listed on the lines of the text from `start` on; `capture`
/// tells whether the declaration has been seen.
pub open spec fn listed_from(s: Seq<u8>, start: int, capture: bool) -> Option<Seq<u8>>
    decreases s.len() + 1 - start,
{
    if start < 0 || start >= s.len() {
        Some(Seq::empty())
    } else {
        let k = find_byte_from(s, 10u8, start);
        proof {
            lemma_find_byte_props(s, 10u8, start);
        }
        let e = line_end(s, start);
        if mentions_fingerprint(s, start, e) {
            listed_from(s, k + 1, true)
        } else if capture {
            if has_brace(s, start, e) {
                Some(Seq::empty())
            } else {
                match items_from(s, start, e) {
                    Some(a) => prefixed(a, listed_from(s, k + 1, true)),
                    None => None,
                }
            }
        } else {
            listed_from(s, k + 1, false)
        }
    }
}

/// The placeholder fingerprint a C source lists: the bytes listed after the
/// declaration, when there are exactly `PLACEHOLDER_LEN` of them.
pub open spec fn placeholder_of(s: Seq<u8>) -> Option<Seq<u8>> {
    match listed_from(s, 0, false) {
        Some(v) => if v.len() == PLACEHOLDER_LEN {
            Some(v)
        } else {
            None
        },
        None => None,
    }
}

/// The placeholder fingerprint of a C source given as bytes: `None` unless
/// the text is UTF-8 and lists exactly `PLACEHOLDER_LEN` valid bytes.
pub open spec fn placeholder_in_source(s: Seq<u8>) -> Option<Seq<u8>> {
    if valid_utf8(s) {
        placeholder_of(s)
    } else {
        None
    }
}

/// Putting `a` and then `b` in front of the values of `o` is putting `a + b`
/// in front of them.
proof fn lemma_prefixed_assoc(a: Seq<u8>, b: Seq<u8>, o: Option<Seq<u8>>)
    ensures
        prefixed(a, prefixed(b, o)) == prefixed(a + b, o),
{
    match o {
        Some(r) => {
            assert(a + (b + r) =~= (a + b) + r);
        },
        None => {},
    }
}

/// The whitespace width of the character ending just before `end`, computed.
fn ws_width_before_exec(s: &[u8], end: usize) -> (r: usize)
    requires
        end <= s@.len(),
    ensures
        r == ws_width_before(s@, end as int),
{
    if end >= 1 && ws_width_exec(s, end - 1) == 1 {
        1
    } else if end >= 2 && ws_width_exec(s, end - 2) == 2 {
        2
    } else if end >= 3 && ws_width_exec(s, end - 3) == 3 {
        3
    } else {
        0
    }
}

/// The bounds of `s[start..end]` without leading and trailing whitespace.
fn trim_range(s: &[u8], start: usize, end: usize) -> (r: (usize, usize))
    requires
        start <= end <= s@.len(),
    ensures
        r.0 == trim_start_from(s@, start as int, end as int),
        r.1 == trim_end_from(s@, r.0 as int, end as int),
        start <= r.0 <= r.1 <= end,
{
    let mut a = start;
    loop
        invariant
            start <= a <= end,
            end <= s@.len(),
            trim_start_from(s@, a as int, end as int) == trim_start_from(
                s@,
                start as int,
                end as int,
            ),
        ensures
            start <= a <= end,
            a == trim_start_from(s@, start as int, end as int),
        decreases end - a,
    {
        if a == end {
            break;
        }
        let w = ws_width_exec(s, a);
        if w == 0 || w > end - a {
            break;
        }
        a = a + w;
    }
    let mut b = end;
    loop
        invariant
            a <= b <= end,
            end <= s@.len(),
            trim_end_from(s@, a as int, b as int) == trim_end_from(s@, a as int, end as int),
        ensures
            a <= b <= end,
            b == trim_end_from(s@, a as int, end as int),
        decreases b - a,
    {
        if b == a {
            break;
        }
        let w = ws_width_before_exec(s, b);
        if w == 0 || w > b - a {
            break;
        }
        b = b - w;
    }
    (a, b)
}

/// Reading more digits never lowers the value of a hexadecimal literal, and
/// an invalid prefix makes the whole literal invalid.
proof fn lemma_hex_prefix(d: Seq<u8>, k: int)
    requires
        0 <= k <= d.len(),
    ensures
        match hex_literal_value(d.subrange(0, k)) {
            None => hex_literal_value(d) is None,
            Some(v) => match hex_literal_value(d) {
                Some(w) => w >= v,
                None => true,
            },
        },
    decreases d.len() - k,
{
    if k == d.len() {
        assert(d.subrange(0, k) =~= d);
    } else {
        lemma_hex_prefix(d.drop_last(), k);
        assert(d.drop_last().subrange(0, k) =~= d.subrange(0, k));
    }
}

/// The value of a hexadecimal literal one character longer.
proof fn lemma_hex_step(d: Seq<u8>, i: int)
    requires
        0 <= i < d.len(),
    ensures
        hex_literal_value(d.subrange(0, i + 1)) == (match hex_literal_value(d.subrange(0, i)) {
            None => None,
            Some(v) => {
                let c = d[i];
                if c == 95u8 {
                    Some(v)
                } else if 48 <= c <= 57 {
                    Some(v * 16 + (c - 48) as nat)
                } else if 97 <= c <= 102 {
                    Some(v * 16 + (c - 87) as nat)
                } else if 65 <= c <= 70 {
                    Some(v * 16 + (c - 55) as nat)
                } else {
                    None
                }
            },
        }),
        has_hex_digit(d.subrange(0, i + 1)) == (has_hex_digit(d.subrange(0, i)) || d[i] != 95u8),
{
    let p = d.subrange(0, i + 1);
    assert(p.drop_last() =~= d.subrange(0, i));
    assert(p.last() == d[i]);
    if has_hex_digit(d.subrange(0, i)) {
        let j = choose|j: int| 0 <= j < i && d.subrange(0, i)[j] != 95u8;
        assert(p[j] != 95u8);
    }
    if d[i] != 95u8 {
        assert(p[i] != 95u8);
    }
    if has_hex_digit(p) {
        let j = choose|j: int| 0 <= j < p.len() && p[j] != 95u8;
        if j < i {
            assert(d.subrange(0, i)[j] != 95u8);
        }
    }
}

/// Reads the item `s[start..end]`, which starts with `0x`, as a byte.
fn listed_byte_exec(s: &[u8], start: usize, end: usize) -> (r: Option<u8>)
    requires
        start + 2 <= end <= s@.len(),
    ensures
        r == listed_byte(s@.subrange(start as int, end as int)),
{
    let ghost d = s@.subrange(start as int, end as int).skip(2);
    assert(d =~= s@.subrange(start + 2, end as int));
    let mut v: u32 = 0;
    let mut seen = false;
    let mut i = start + 2;
    assert(d.subrange(0, 0) =~= Seq::<u8>::empty());
    while i < end
        invariant
            start + 2 <= i <= end,
            end <= s@.len(),
            d == s@.subrange(start + 2, end as int),
            d == s@.subrange(start as int, end as int).skip(2),
            v <= 255,
            hex_literal_value(d.subrange(0, i - start - 2)) == Some(v as nat),
            seen == has_hex_digit(d.subrange(0, i - start - 2)),
        decreases end - i,
    {
        let c = s[i];
        proof {
            lemma_hex_step(d, i - start - 2);
            assert(d[i - start - 2] == c);
        }
        let digit: u32;
        if c == 95u8 {
            i = i + 1;
            continue;
        } else if 48 <= c && c <= 57 {
            digit = (c - 48) as u32;
        } else if 97 <= c && c <= 102 {
            digit = (c - 87) as u32;
        } else if 65 <= c && c <= 70 {
            digit = (c - 55) as u32;
        } else {
            proof {
                lemma_hex_prefix(d, i - start - 2 + 1);
            }
            return None;
        }
        v = v * 16 + digit;
        seen = true;
        i = i + 1;
        if v > 255 {
            proof {
                lemma_hex_prefix(d, i - start - 2);
            }
            return None;
        }
    }
    assert(d.subrange(0, d.len() as int) =~= d);
    if seen {
        Some(v as u8)
    } else {
        None
    }
}

/// Appends to `out` the values listed on `s[ls..le]`; `false`, with `out`
/// unspecified, when one item is not a valid byte literal.
fn line_items(s: &[u8], ls: usize, le: usize, out: &mut Vec<u8>) -> (ok: bool)
    requires
        ls <= le <= s@.len(),
    ensures
        ok == items_from(s@, ls as int, le as int) is Some,
        ok ==> prefixed(old(out)@, items_from(s@, ls as int, le as int)) == Some(final(out)@),
{
    let ghost base = out@;
    let mut pos = ls;
    loop
        invariant
            ls <= pos <= le,
            le <= s@.len(),
            base == old(out)@,
            prefixed(base, items_from(s@, ls as int, le as int)) == prefixed(
                out@,
                items_from(s@, pos as int, le as int),
            ),
        decreases le - pos,
    {
        let mut c = pos;
        while c < le && s[c] != 44u8
            invariant
                pos <= c <= le,
                le <= s@.len(),
                find_in(s@, 44u8, c as int, le as int) == find_in(s@, 44u8, pos as int, le as int),
            decreases le - c,
        {
            c = c + 1;
        }
        assert(find_in(s@, 44u8, c as int, le as int) == c);
        let ghost rest = items_from(s@, c + 1, le as int);
        let (a, b) = trim_range(s, pos, c);
        let ghost tok = s@.subrange(a as int, b as int);
        assert(trimmed(s@, pos as int, c as int) == tok);
        if b - a >= 2 && s[a] == 48u8 && s[a + 1] == 120u8 {
            assert(is_listed(tok));
            match listed_byte_exec(s, a, b) {
                None => {
                    assert(items_from(s@, pos as int, le as int) is None);
                    return false;
                },
                Some(byte) => {
                    assert(items_from(s@, pos as int, le as int) == prefixed(seq![byte], rest));
                    proof {
                        lemma_prefixed_assoc(out@, seq![byte], rest);
                        assert(out@ + seq![byte] =~= out@.push(byte));
                    }
                    out.push(byte);
                },
            }
        } else {
            assert(!is_listed(tok));
            assert(items_from(s@, pos as int, le as int) == rest);
        }
        assert(prefixed(base, items_from(s@, ls as int, le as int)) == prefixed(out@, rest));
        if c == le {
            assert(rest == Some(Seq::<u8>::empty()));
            assert(out@ + Seq::<u8>::empty() =~= out@);
            return true;
        }
        pos = c + 1;
    }
}

/// Whether `s[start..end]` contains `fingerprint[]`, computed.
fn mentions_fingerprint_exec(s: &[u8], start: usize, end: usize) -> (r: bool)
    requires
        start <= end <= s@.len(),
    ensures
        r == mentions_fingerprint(s@, start as int, end as int),
{
    let pat: Vec<u8> = vec![102u8, 105u8, 110u8, 103u8, 101u8, 114u8, 112u8, 114u8, 105u8, 110u8, 116u8, 91u8, 93u8];
    assert(pat@ =~= fingerprint_decl());
    let mut i = start;
    while end - i >= 13
        invariant
            start <= i <= end,
            end <= s@.len(),
            pat@ == fingerprint_decl(),
            forall|j: int| start <= j < i && j + 13 <= end ==> #[trigger] s@.subrange(j, j + 13)
                != fingerprint_decl(),
        decreases end - i,
    {
        if crate::bytes::bytes_equal(&s[i..i + 13], pat.as_slice()) {
            assert(s@.subrange(i as int, i + 13) == fingerprint_decl());
            return true;
        }
        i = i + 1;
    }
    false
}

/// Whether `s[start..end]` contains a closing brace, computed.
fn has_brace_exec(s: &[u8], start: usize, end: usize) -> (r: bool)
    requires
        start <= end <= s@.len(),
    ensures
        r == has_brace(s@, start as int, end as int),
{
    let mut i = start;
    while i < end
        invariant
            start <= i <= end,
            end <= s@.len(),
            forall|j: int| start <= j < i ==> s@[j] != 125u8,
        decreases end - i,
    {
        if s[i] == 125u8 {
            return true;
        }
        i = i + 1;
    }
    false
}

/// Reads the placeholder fingerprint that the C source `content` declares
/// (see `placeholder_in_source`).
pub fn placeholder_from_source(content: &[u8]) -> (r: Option<Vec<u8>>)
    ensures
        match r {
            Some(v) => placeholder_in_source(content@) == Some(v@),
            None => placeholder_in_source(content@) is None,
        },
{
    if !is_valid_utf8(content) {
        return None;
    }
    let s = content;
    let n = s.len();
    let mut out: Vec<u8> = Vec::new();
    let mut start: usize = 0;
    let mut capture = false;
    proof {
        if let Some(v) = listed_from(s@, 0, false) {
            assert(Seq::<u8>::empty() + v =~= v);
        }
    }
    while start < n
        invariant
            start <= n,
            n == s@.len(),
            s@ == content@,
            valid_utf8(s@),
            listed_from(s@, 0, false) == prefixed(out@, listed_from(s@, start as int, capture)),
        ensures
            start == n,
            listed_from(s@, 0, false) == prefixed(out@, listed_from(s@, start as int, capture)),
        decreases n - start,
    {
        let mut k = start;
        while k < n && s[k] != 10u8
            invariant
                start <= k <= n,
                n == s@.len(),
                find_byte_from(s@, 10u8, k as int) == find_byte_from(s@, 10u8, start as int),
            decreases n - k,
        {
            k = k + 1;
        }
        assert(find_byte_from(s@, 10u8, k as int) == k);
        let mut e = k;
        if k < n && k > start && s[k - 1] == 13u8 {
            e = k - 1;
        }
        assert(e == line_end(s@, start as int));
        let ghost here = listed_from(s@, start as int, capture);
        if mentions_fingerprint_exec(s, start, e) {
            capture = true;
            assert(here == listed_from(s@, k + 1, true));
        } else if capture {
            if has_brace_exec(s, start, e) {
                assert(here == Some(Seq::<u8>::empty()));
                assert(out@ + Seq::<u8>::empty() =~= out@);
                start = n;
                break;
            }
            let ghost before = out@;
            let ghost tail = listed_from(s@, k + 1, true);
            if !line_items(s, start, e, &mut out) {
                assert(here is None);
                return None;
            }
            proof {
                let items = items_from(s@, start as int, e as int)->0;
                assert(here == prefixed(items, tail));
                lemma_prefixed_assoc(before, items, tail);
                assert(before + items == out@);
            }
        } else {
            assert(here == listed_from(s@, k + 1, false));
        }
        if k < n {
            start = k + 1;
        } else {
            assert(listed_from(s@, k + 1, capture) == Some(Seq::<u8>::empty()));
            assert(listed_from(s@, n as int, capture) == Some(Seq::<u8>::empty()));
            start = n;
        }
    }
    assert(listed_from(s@, start as int, capture) == Some(Seq::<u8>::empty()));
    proof {
        assert(out@ + Seq::<u8>::empty() =~= out@);
    }
    if out.len() == PLACEHOLDER_LEN {
        Some(out)
    } else {
        None
    }
}

/// `find_in` over a shorter range finds the same comma when it lies inside.
proof fn lemma_find_in_shorter(s: Seq<u8>, b: u8, from: int, c: int, end: int)
    requires
        from <= c <= end,
        find_in(s, b, from, end) < c || (c < end && s[c] == b && find_in(s, b, from, end) == c),
    ensures
        find_in(s, b, from, c) == (if find_in(s, b, from, end) < c {
            find_in(s, b, from, end)
        } else {
            c
        }),
    decreases c - from,
{
    lemma_find_in(s, b, from, end);
    if from < c {
        assert(find_in(s, b, from, end) == if s[from] == b {
            from
        } else {
            find_in(s, b, from + 1, end)
        });
        assert(find_in(s, b, from, c) == if s[from] == b {
            from
        } else {
            find_in(s, b, from + 1, c)
        });
        if s[from] != b {
            lemma_find_in_shorter(s, b, from + 1, c, end);
        }
    }
}

/// The items of a line are those of the text before any comma of it,
/// followed by those of the text after that comma: every comma-separated
/// segment counts, the last one too.
pub proof fn lemma_items_split(s: Seq<u8>, pos: int, c: int, end: int)
    requires
        0 <= pos <= c < end <= s.len(),
        s[c] == 44u8,
    ensures
        items_from(s, pos, end) == (match items_from(s, pos, c) {
            Some(a) => prefixed(a, items_from(s, c + 1, end)),
            None => None,
        }),
    decreases c - pos,
{
    let c0 = find_in(s, 44u8, pos, end);
    lemma_find_in(s, 44u8, pos, end);
    assert(c0 <= c) by {
        if c0 > c {
            assert(s[c] != 44u8);
        }
    }
    lemma_find_in_shorter(s, 44u8, pos, c, end);
    let tok = trimmed(s, pos, c0);
    if c0 == c {
        assert(find_in(s, 44u8, pos, c) == c);
        assert(items_from(s, c + 1, c) == Some(Seq::<u8>::empty()));
        if is_listed(tok) {
            if let Some(b) = listed_byte(tok) {
                assert(seq![b] + Seq::<u8>::empty() =~= seq![b]);
            }
        } else {
            match items_from(s, c + 1, end) {
                Some(r) => {
                    assert(Seq::<u8>::empty() + r =~= r);
                },
                None => {},
            }
        }
    } else {
        assert(find_in(s, 44u8, pos, c) == c0);
        lemma_items_split(s, c0 + 1, c, end);
        if is_listed(tok) {
            if let Some(b) = listed_byte(tok) {
                match items_from(s, c0 + 1, c) {
                    Some(a) => {
                        lemma_prefixed_assoc(seq![b], a, items_from(s, c + 1, end));
                    },
                    None => {},
                }
            }
        }
    }
}

/// A segment without a comma, with no whitespace at either end, that is a
/// `0x` literal of a byte, is read as exactly that byte.
pub proof fn lemma_items_single_literal(s: Seq<u8>, pos: int, end: int, b: u8)
    requires
        0 <= pos < end <= s.len(),
        forall|j: int| pos <= j < end ==> s[j] != 44u8,
        ws_width(s, pos) == 0,
        ws_width_before(s, end) == 0,
        is_listed(s.subrange(pos, end)),
        listed_byte(s.subrange(pos, end)) == Some(b),
    ensures
        items_from(s, pos, end) == Some(seq![b]),
{
    lemma_find_in(s, 44u8, pos, end);
    let c = find_in(s, 44u8, pos, end);
    assert(c == end) by {
        if c < end {
            assert(s[c] == 44u8);
        }
    }
    assert(trim_start_from(s, pos, end) == pos);
    assert(trim_end_from(s, pos, end) == end);
    assert(trimmed(s, pos, end) == s.subrange(pos, end));
    assert(items_from(s, end + 1, end) == Some(Seq::<u8>::empty()));
    assert(seq![b] + Seq::<u8>::empty() =~= seq![b]);
}

} // verus!
