//! The text of a score file: one entry per line, the score, a space, then
//! the rest of the line.
use vstd::prelude::*;
use vstd::utf8::valid_utf8;
use crate::bytes::{find_byte_from, lemma_find_byte_props, lemma_find_byte_at, push_all};
use crate::score_entry::{ScoreEntry, ScoreView, entries_view};
use crate::utf8::is_valid_utf8;

verus! {

/// Why a score file could not be read.
#[derive(Clone, Copy, Debug, PartialEq, Eq)]
pub enum ScoreFileError {
    /// The file holds a NUL byte, is not UTF-8, or has a line without a space.
    InvalidData,
}

/// A line without the carriage return of a CR LF ending.
pub open spec fn strip_cr(line: Seq<u8>) -> Seq<u8> {
    if line.len() > 0 && line.last() == 13u8 {
        line.drop_last()
    } else {
        line
    }
}

/// The entry a non-empty line holds: the score up to the first space, the
/// rest after it; `None` when the line has no space.
pub open spec fn parse_line(line: Seq<u8>) -> Option<ScoreView> {
    let k = find_byte_from(line, 32u8, 0);
    if k < line.len() {
        Some(ScoreView { score: line.subrange(0, k), user_data: line.subrange(k + 1, line.len() as int) })
    } else {
        None
    }
}

/// The entries of the text from position `start` on, one per line: lines
/// end at a newline (a carriage return before it is dropped) or at the end
/// of the text, empty lines are skipped, and `None` comes of a non-empty line
/// without a space.
pub open spec fn entries_from(s: Seq<u8>, start: int) -> Option<Seq<ScoreView>>
    decreases s.len() - start,
{
    if start < 0 || start >= s.len() {
        Some(Seq::empty())
    } else {
        let k = find_byte_from(s, 10u8, start);
        proof {
            lemma_find_byte_props(s, 10u8, start);
        }
        let raw = s.subrange(start, k);
        let line = if k < s.len() {
            strip_cr(raw)
        } else {
            raw
        };
        let rest = if k < s.len() {
            entries_from(s, k + 1)
        } else {
            Some(Seq::empty())
        };
        if line.len() == 0 {
            rest
        } else {
            match (parse_line(line), rest) {
                (Some(e), Some(r)) => Some(seq![e] + r),
                _ => None,
            }
        }
    }
}

/// Whether a byte string holds a NUL byte.
pub open spec fn has_nul(s: Seq<u8>) -> bool {
    exists|i: int| 0 <= i < s.len() && s[i] == 0u8
}

/// What reading a score file gives.
pub open spec fn parsed_scores(data: Seq<u8>) -> Option<Seq<ScoreView>> {
    if has_nul(data) || !valid_utf8(data) {
        None
    } else {
        entries_from(data, 0)
    }
}

/// Reads the entries of one line.
fn parse_line_exec(s: &[u8], start: usize, end: usize) -> (r: Option<ScoreEntry>)
    requires
        start <= end <= s@.len(),
    ensures
        match (r, parse_line(s@.subrange(start as int, end as int))) {
            (Some(e), Some(v)) => e@ == v,
            (None, None) => true,
            _ => false,
        },
{
    let ghost line = s@.subrange(start as int, end as int);
    let mut k = start;
    while k < end && s[k] != 32u8
        invariant
            start <= k <= end,
            end <= s@.len(),
            line == s@.subrange(start as int, end as int),
            forall|j: int| 0 <= j < k - start ==> line[j] != 32u8,
        decreases end - k,
    {
        k = k + 1;
    }
    if k == end {
        proof {
            lemma_find_byte_props(line, 32u8, 0);
        }
        return None;
    }
    proof {
        lemma_find_byte_at(line, 32u8, 0, k - start);
    }
    let mut score: Vec<u8> = Vec::new();
    push_all(&mut score, &s[start..k]);
    let mut user_data: Vec<u8> = Vec::new();
    push_all(&mut user_data, &s[k + 1..end]);
    assert(score@ =~= line.subrange(0, k - start));
    assert(user_data@ =~= line.subrange(k - start + 1, line.len() as int));
    Some(ScoreEntry { score, user_data })
}

/// Reads the text of a score file (see `parsed_scores`).
pub fn parse_scores(data: &[u8]) -> (r: Result<Vec<ScoreEntry>, ScoreFileError>)
    ensures
        match (r, parsed_scores(data@)) {
            (Ok(v), Some(e)) => entries_view(v@) == e,
            (Err(_), None) => true,
            _ => false,
        },
{
    let n = data.len();
    let mut i: usize = 0;
    while i < n
        invariant
            i <= n,
            n == data@.len(),
            forall|j: int| 0 <= j < i ==> data@[j] != 0u8,
        decreases n - i,
    {
        if data[i] == 0u8 {
            return Err(ScoreFileError::InvalidData);
        }
        i = i + 1;
    }
    if !is_valid_utf8(data) {
        return Err(ScoreFileError::InvalidData);
    }
    let mut entries: Vec<ScoreEntry> = Vec::new();
    let mut start: usize = 0;
    let ghost target = entries_from(data@, 0);
    while start < n
        invariant
            start <= n,
            n == data@.len(),
            target == entries_from(data@, 0),
            match entries_from(data@, start as int) {
                Some(r) => target == Some(entries_view(entries@) + r),
                None => target is None,
            },
        decreases n - start,
    {
        let ghost before = entries_view(entries@);
        let mut k = start;
        while k < n && data[k] != 10u8
            invariant
                start <= k <= n,
                n == data@.len(),
                find_byte_from(data@, 10u8, k as int) == find_byte_from(data@, 10u8, start as int),
            decreases n - k,
        {
            k = k + 1;
        }
        assert(find_byte_from(data@, 10u8, k as int) == k);
        let ends_with_newline = k < n;
        let mut end = k;
        if ends_with_newline && end > start && data[end - 1] == 13u8 {
            end = end - 1;
        }
        let ghost raw = data@.subrange(start as int, k as int);
        assert(data@.subrange(start as int, end as int) =~= (if ends_with_newline {
            strip_cr(raw)
        } else {
            raw
        }));
        if end > start {
            match parse_line_exec(data, start, end) {
                None => {
                    return Err(ScoreFileError::InvalidData);
                },
                Some(e) => {
                    let ghost ev = e@;
                    entries.push(e);
                    assert(entries_view(entries@) =~= before.push(ev));
                },
            }
        }
        let ghost old_start = start;
        if ends_with_newline {
            start = k + 1;
        } else {
            start = n;
        }
        proof {
            let line = data@.subrange(old_start as int, end as int);
            let rest_new = entries_from(data@, start as int);
            assert(entries_from(data@, old_start as int) == (if line.len() == 0 {
                rest_new
            } else {
                match (parse_line(line), rest_new) {
                    (Some(e), Some(r)) => Some(seq![e] + r),
                    _ => None,
                }
            }));
            match rest_new {
                Some(r) => {
                    if end > old_start {
                        assert(entries_view(entries@) + r =~= before + (seq![
                            entries_view(entries@).last(),
                        ] + r));
                    }
                },
                None => {},
            }
        }
    }
    proof {
        assert(!has_nul(data@));
        let r = entries_from(data@, n as int)->0;
        assert(r =~= Seq::<ScoreView>::empty());
        assert(entries_view(entries@) + r =~= entries_view(entries@));
    }
    Ok(entries)
}

/// The text of a score file holding `es`: for each entry, its score, a
/// space, its text and a newline.
pub open spec fn formatted(es: Seq<ScoreView>) -> Seq<u8>
    decreases es.len(),
{
    if es.len() == 0 {
        Seq::empty()
    } else {
        es[0].score + seq![32u8] + es[0].user_data + seq![10u8] + formatted(es.drop_first())
    }
}

/// Writes the text of a score file holding `entries`.
pub fn format_scores(entries: &Vec<ScoreEntry>) -> (r: Vec<u8>)
    ensures
        r@ == formatted(entries_view(entries@)),
{
    let ghost ev = entries_view(entries@);
    let mut out: Vec<u8> = Vec::new();
    let mut i: usize = 0;
    assert(ev.skip(0) =~= ev);
    while i < entries.len()
        invariant
            i <= entries@.len(),
            ev == entries_view(entries@),
            out@ + formatted(ev.skip(i as int)) == formatted(ev),
        decreases entries@.len() - i,
    {
        let ghost before = out@;
        let e = &entries[i];
        push_all(&mut out, e.score.as_slice());
        out.push(32u8);
        push_all(&mut out, e.user_data.as_slice());
        out.push(10u8);
        assert(ev.skip(i as int).drop_first() =~= ev.skip(i + 1));
        assert(ev.skip(i as int)[0] == e@);
        assert(out@ + formatted(ev.skip(i + 1)) =~= before + formatted(ev.skip(i as int)));
        i = i + 1;
    }
    assert(ev.skip(i as int).len() == 0);
    assert(out@ =~= formatted(ev));
    out
}

/// Whether an entry can be written to a score file and read back: its score
/// has no space, neither part has a newline or a NUL byte, both are UTF-8, and
/// its text does not end in a carriage return.
pub open spec fn is_writable_entry(e: ScoreView) -> bool {
    &&& forall|j: int| 0 <= j < e.score.len() ==> e.score[j] != 32u8 && e.score[j] != 10u8
        && e.score[j] != 0u8
    &&& forall|j: int| 0 <= j < e.user_data.len() ==> e.user_data[j] != 10u8 && e.user_data[j]
        != 0u8
    &&& !(e.user_data.len() > 0 && e.user_data.last() == 13u8)
    &&& valid_utf8(e.score)
    &&& valid_utf8(e.user_data)
}

proof fn lemma_entries_from_formatted(pre: Seq<u8>, es: Seq<ScoreView>)
    requires
        forall|i: int| 0 <= i < es.len() ==> is_writable_entry(#[trigger] es[i]),
    ensures
        entries_from(pre + formatted(es), pre.len() as int) == Some(es),
    decreases es.len(),
{
    let s = pre + formatted(es);
    if es.len() == 0 {
        assert(s =~= pre);
        assert(es =~= Seq::<ScoreView>::empty());
    } else {
        let e = es[0];
        assert(is_writable_entry(e));
        let line = e.score + seq![32u8] + e.user_data;
        let pre2 = pre + line + seq![10u8];
        assert(s =~= pre2 + formatted(es.drop_first()));
        let p = pre.len() as int;
        let k = p + line.len();
        assert(s[k] == 10u8);
        assert forall|j: int| p <= j < k implies s[j] != 10u8 by {
            assert(s[j] == line[j - p]);
        }
        lemma_find_byte_at(s, 10u8, p, k);
        assert(s.subrange(p, k) =~= line);
        assert(strip_cr(line) == line);
        let sp = e.score.len() as int;
        assert(line[sp] == 32u8);
        assert forall|j: int| 0 <= j < sp implies line[j] != 32u8 by {
            assert(line[j] == e.score[j]);
        }
        lemma_find_byte_at(line, 32u8, 0, sp);
        assert(line.subrange(0, sp) =~= e.score);
        assert(line.subrange(sp + 1, line.len() as int) =~= e.user_data);
        assert forall|i: int| 0 <= i < es.drop_first().len() implies is_writable_entry(
            #[trigger] es.drop_first()[i],
        ) by {
            assert(es.drop_first()[i] == es[i + 1]);
        }
        lemma_entries_from_formatted(pre2, es.drop_first());
        assert(seq![e] + es.drop_first() =~= es);
    }
}

proof fn lemma_formatted_clean(es: Seq<ScoreView>)
    requires
        forall|i: int| 0 <= i < es.len() ==> is_writable_entry(#[trigger] es[i]),
    ensures
        !has_nul(formatted(es)),
        valid_utf8(formatted(es)),
    decreases es.len(),
{
    if es.len() > 0 {
        let e = es[0];
        assert(is_writable_entry(e));
        assert forall|i: int| 0 <= i < es.drop_first().len() implies is_writable_entry(
            #[trigger] es.drop_first()[i],
        ) by {
            assert(es.drop_first()[i] == es[i + 1]);
        }
        lemma_formatted_clean(es.drop_first());
        let rest = formatted(es.drop_first());
        let f = formatted(es);
        let space = seq![32u8];
        let nl = seq![10u8];
        assert(valid_utf8(space)) by {
            assert((32u8 & 0x7f) as u32 == 32) by (bit_vector);
            assert(vstd::utf8::pop_first_scalar(space) =~= Seq::<u8>::empty());
            reveal_with_fuel(valid_utf8, 2);
        }
        assert(valid_utf8(nl)) by {
            assert((10u8 & 0x7f) as u32 == 10) by (bit_vector);
            assert(vstd::utf8::pop_first_scalar(nl) =~= Seq::<u8>::empty());
            reveal_with_fuel(valid_utf8, 2);
        }
        vstd::utf8::valid_utf8_concat(e.score, space);
        vstd::utf8::valid_utf8_concat(e.score + space, e.user_data);
        vstd::utf8::valid_utf8_concat(e.score + space + e.user_data, nl);
        vstd::utf8::valid_utf8_concat(e.score + space + e.user_data + nl, rest);
        assert(f == e.score + space + e.user_data + nl + rest);
        if has_nul(f) {
            let j = choose|j: int| 0 <= j < f.len() && f[j] == 0u8;
            let a = e.score.len() as int;
            let b = a + 1 + e.user_data.len();
            if j < a {
                assert(f[j] == e.score[j]);
            } else if j == a {
            } else if j < b {
                assert(f[j] == e.user_data[j - a - 1]);
            } else if j == b {
            } else {
                assert(f[j] == rest[j - b - 1]);
            }
        }
    }
}

/// A table written as a score file reads back as the same table, when each
/// entry can be written (see `is_writable_entry`).
pub proof fn lemma_parse_format_roundtrip(es: Seq<ScoreView>)
    requires
        forall|i: int| 0 <= i < es.len() ==> is_writable_entry(#[trigger] es[i]),
    ensures
        parsed_scores(formatted(es)) == Some(es),
{
    lemma_formatted_clean(es);
    lemma_entries_from_formatted(Seq::empty(), es);
    assert(Seq::<u8>::empty() + formatted(es) =~= formatted(es));
}

} // verus!
