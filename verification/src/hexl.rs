//! The hexl converter: command-line switches, the dump format written for
//! each block of input, and the decoder that reads that format back.
use vstd::prelude::*;
use crate::bytes::{
    bytes_equal, bytes_list, copy_bytes, find_byte, find_byte_from, lemma_find_byte_at,
    lemma_find_byte_props,
};

verus! {

/// Which direction the converter runs in.
#[derive(Clone, Copy, Debug, PartialEq, Eq)]
pub enum Mode {
    Encode,
    Decode,
}

/// The options given on the command line.
pub struct Options {
    pub mode: Mode,
    pub iso: bool,
    pub group_mask: usize,
    pub files: Vec<Vec<u8>>,
}

/// The options as plain values.
pub struct OptionsView {
    pub mode: Mode,
    pub iso: bool,
    pub group_mask: usize,
    pub files: Seq<Seq<u8>>,
}

impl View for Options {
    type V = OptionsView;

    open spec fn view(&self) -> OptionsView {
        OptionsView {
            mode: self.mode,
            iso: self.iso,
            group_mask: self.group_mask,
            files: bytes_list(self.files@),
        }
    }
}

/// A switch that the converter does not know; `progname` is the name the
/// program was run under, for the message.
pub struct InvalidSwitch {
    pub progname: Vec<u8>,
    pub switch: Vec<u8>,
}

/// The switches that the converter knows.
#[derive(Clone, Copy, Debug, PartialEq, Eq)]
pub enum Switch {
    Hex,
    Iso,
    Decode,
    GroupMask(usize),
}

pub open spec fn lit_dashdash() -> Seq<u8> {
    seq!['-' as u8, '-' as u8]
}

pub open spec fn lit_hex() -> Seq<u8> {
    seq!['-' as u8, 'h' as u8, 'e' as u8, 'x' as u8]
}

pub open spec fn lit_iso() -> Seq<u8> {
    seq!['-' as u8, 'i' as u8, 's' as u8, 'o' as u8]
}

pub open spec fn lit_un() -> Seq<u8> {
    seq!['-' as u8, 'u' as u8, 'n' as u8]
}

pub open spec fn lit_de() -> Seq<u8> {
    seq!['-' as u8, 'd' as u8, 'e' as u8]
}

/// `-group-by-` followed by the two digits of the group width.
pub open spec fn lit_group(d1: char, d2: char) -> Seq<u8> {
    seq![
        '-' as u8, 'g' as u8, 'r' as u8, 'o' as u8, 'u' as u8, 'p' as u8, '-' as u8,
        'b' as u8, 'y' as u8, '-' as u8, d1 as u8, d2 as u8, '-' as u8, 'b' as u8,
        'i' as u8, 't' as u8, 's' as u8,
    ]
}

/// `-group-by-8-bits`.
pub open spec fn lit_group8() -> Seq<u8> {
    seq![
        '-' as u8, 'g' as u8, 'r' as u8, 'o' as u8, 'u' as u8, 'p' as u8, '-' as u8,
        'b' as u8, 'y' as u8, '-' as u8, '8' as u8, '-' as u8, 'b' as u8,
        'i' as u8, 't' as u8, 's' as u8,
    ]
}

/// The program name used when the argument list is empty.
pub open spec fn lit_hexl() -> Seq<u8> {
    seq!['h' as u8, 'e' as u8, 'x' as u8, 'l' as u8]
}

/// The input name that stands for standard input.
pub open spec fn lit_stdin() -> Seq<u8> {
    seq!['-' as u8]
}

/// What a switch argument means, if the converter knows it.
pub open spec fn switch_for(arg: Seq<u8>) -> Option<Switch> {
    if arg == lit_hex() {
        Some(Switch::Hex)
    } else if arg == lit_iso() {
        Some(Switch::Iso)
    } else if arg == lit_un() || arg == lit_de() {
        Some(Switch::Decode)
    } else if arg == lit_group8() {
        Some(Switch::GroupMask(0))
    } else if arg == lit_group('1', '6') {
        Some(Switch::GroupMask(1))
    } else if arg == lit_group('3', '2') {
        Some(Switch::GroupMask(3))
    } else if arg == lit_group('6', '4') {
        Some(Switch::GroupMask(7))
    } else {
        None
    }
}

/// The options after a known switch.
pub open spec fn apply_switch(st: OptionsView, sw: Switch) -> OptionsView {
    match sw {
        Switch::Hex => st,
        Switch::Iso => OptionsView { iso: true, ..st },
        Switch::Decode => OptionsView { mode: Mode::Decode, ..st },
        Switch::GroupMask(m) => OptionsView { group_mask: m, ..st },
    }
}

/// Whether an argument is a switch rather than a file name.
pub open spec fn is_switch_arg(arg: Seq<u8>) -> bool {
    arg.len() > 1 && arg[0] == '-' as u8
}

/// Reads the arguments from `idx` on into the options `st`; an unknown switch
/// gives its index.
pub open spec fn parse_from(args: Seq<Seq<u8>>, idx: int, st: OptionsView) -> Result<
    OptionsView,
    int,
>
    decreases args.len() - idx,
{
    if idx < 0 || idx >= args.len() {
        Ok(st)
    } else {
        let arg = args[idx];
        if arg == lit_dashdash() {
            Ok(OptionsView { files: st.files + args.subrange(idx + 1, args.len() as int), ..st })
        } else if is_switch_arg(arg) {
            match switch_for(arg) {
                Some(sw) => parse_from(args, idx + 1, apply_switch(st, sw)),
                None => Err(idx),
            }
        } else {
            parse_from(args, idx + 1, OptionsView { files: st.files.push(arg), ..st })
        }
    }
}

/// The options before any argument is read.
pub open spec fn initial_options() -> OptionsView {
    OptionsView { mode: Mode::Encode, iso: false, group_mask: 1, files: Seq::empty() }
}

/// The program name used in messages.
pub open spec fn progname_of(args: Seq<Seq<u8>>) -> Seq<u8> {
    if args.len() > 0 {
        args[0]
    } else {
        lit_hexl()
    }
}

/// With no file named, standard input is read.
pub open spec fn with_default_input(st: OptionsView) -> OptionsView {
    if st.files.len() == 0 {
        OptionsView { files: seq![lit_stdin()], ..st }
    } else {
        st
    }
}

/// What the command line gives: the options, or the index of the first
/// unknown switch.
pub open spec fn parse_result(args: Seq<Seq<u8>>) -> Result<OptionsView, int> {
    match parse_from(args, 1, initial_options()) {
        Ok(st) => Ok(with_default_input(st)),
        Err(i) => Err(i),
    }
}

/// Recognises a switch.
fn recognize_switch(arg: &Vec<u8>) -> (r: Option<Switch>)
    ensures
        r == switch_for(arg@),
{
    let hex: [u8; 4] = ['-' as u8, 'h' as u8, 'e' as u8, 'x' as u8];
    let iso: [u8; 4] = ['-' as u8, 'i' as u8, 's' as u8, 'o' as u8];
    let un: [u8; 3] = ['-' as u8, 'u' as u8, 'n' as u8];
    let de: [u8; 3] = ['-' as u8, 'd' as u8, 'e' as u8];
    let g8: [u8; 16] = [
        '-' as u8, 'g' as u8, 'r' as u8, 'o' as u8, 'u' as u8, 'p' as u8, '-' as u8,
        'b' as u8, 'y' as u8, '-' as u8, '8' as u8, '-' as u8, 'b' as u8,
        'i' as u8, 't' as u8, 's' as u8,
    ];
    let mut g: [u8; 17] = [
        '-' as u8, 'g' as u8, 'r' as u8, 'o' as u8, 'u' as u8, 'p' as u8, '-' as u8,
        'b' as u8, 'y' as u8, '-' as u8, '1' as u8, '6' as u8, '-' as u8, 'b' as u8,
        'i' as u8, 't' as u8, 's' as u8,
    ];
    assert(hex@ =~= lit_hex());
    assert(iso@ =~= lit_iso());
    assert(un@ =~= lit_un());
    assert(de@ =~= lit_de());
    assert(g8@ =~= lit_group8());
    assert(g@ =~= lit_group('1', '6'));
    let a = arg.as_slice();
    if bytes_equal(a, &hex) {
        Some(Switch::Hex)
    } else if bytes_equal(a, &iso) {
        Some(Switch::Iso)
    } else if bytes_equal(a, &un) || bytes_equal(a, &de) {
        Some(Switch::Decode)
    } else if bytes_equal(a, &g8) {
        Some(Switch::GroupMask(0))
    } else if bytes_equal(a, &g) {
        Some(Switch::GroupMask(1))
    } else {
        g[10] = '3' as u8;
        g[11] = '2' as u8;
        assert(g@ =~= lit_group('3', '2'));
        if bytes_equal(a, &g) {
            Some(Switch::GroupMask(3))
        } else {
            g[10] = '6' as u8;
            g[11] = '4' as u8;
            assert(g@ =~= lit_group('6', '4'));
            if bytes_equal(a, &g) {
                Some(Switch::GroupMask(7))
            } else {
                None
            }
        }
    }
}

/// Reads the command line (program name first). Succeeds unless an argument
/// before `--` starts with `-`, is longer than one byte and is not a known
/// switch; that argument is then named in the error.
pub fn parse_args(args: &Vec<Vec<u8>>) -> (r: Result<Options, InvalidSwitch>)
    ensures
        match (r, parse_result(bytes_list(args@))) {
            (Ok(o), Ok(v)) => o@ == v,
            (Err(e), Err(i)) => e.progname@ == progname_of(bytes_list(args@)) && e.switch@
                == bytes_list(args@)[i],
            _ => false,
        },
{
    let ghost av = bytes_list(args@);
    let mut mode = Mode::Encode;
    let mut iso = false;
    let mut group_mask: usize = 1;
    let mut files: Vec<Vec<u8>> = Vec::new();
    let mut idx: usize = 1;
    let ghost target = parse_from(av, 1, initial_options());
    let mut dashdash = false;
    assert(bytes_list(files@) =~= Seq::<Seq<u8>>::empty());
    while idx < args.len()
        invariant_except_break
            1 <= idx,
            av == bytes_list(args@),
            target == parse_from(av, 1, initial_options()),
            parse_from(
                av,
                idx as int,
                OptionsView { mode, iso, group_mask, files: bytes_list(files@) },
            ) == target,
        ensures
            1 <= idx,
            av == bytes_list(args@),
            target == parse_from(av, 1, initial_options()),
            dashdash ==> target == Ok::<OptionsView, int>(
                OptionsView { mode, iso, group_mask, files: bytes_list(files@) },
            ),
            !dashdash ==> idx >= args@.len() && parse_from(
                av,
                idx as int,
                OptionsView { mode, iso, group_mask, files: bytes_list(files@) },
            ) == target,
        decreases args@.len() - idx,
    {
        let arg = &args[idx];
        let ghost st = OptionsView { mode, iso, group_mask, files: bytes_list(files@) };
        let dd: [u8; 2] = ['-' as u8, '-' as u8];
        assert(dd@ =~= lit_dashdash());
        if bytes_equal(arg.as_slice(), &dd) {
            let mut j = idx + 1;
            while j < args.len()
                invariant
                    idx < j <= args@.len(),
                    av == bytes_list(args@),
                    bytes_list(files@) == st.files + av.subrange(idx + 1, j as int),
                decreases args@.len() - j,
            {
                let copy = copy_bytes(args[j].as_slice());
                assert(av[j as int] == copy@);
                let ghost before = bytes_list(files@);
                files.push(copy);
                assert(bytes_list(files@) =~= before.push(copy@));
                assert(av.subrange(idx + 1, j + 1) =~= av.subrange(idx + 1, j as int).push(
                    av[j as int],
                ));
                j = j + 1;
                assert(bytes_list(files@) =~= st.files + av.subrange(idx + 1, j as int));
            }
            dashdash = true;
            break;
        } else if arg.len() > 1 && arg[0] == '-' as u8 {
            match recognize_switch(arg) {
                Some(Switch::Hex) => {},
                Some(Switch::Iso) => {
                    iso = true;
                },
                Some(Switch::Decode) => {
                    mode = Mode::Decode;
                },
                Some(Switch::GroupMask(m)) => {
                    group_mask = m;
                },
                None => {
                    let progname = copy_bytes(args[0].as_slice());
                    let switch = copy_bytes(arg.as_slice());
                    return Err(InvalidSwitch { progname, switch });
                },
            }
        } else {
            let copy = copy_bytes(arg.as_slice());
            assert(av[idx as int] == copy@);
            let ghost before = bytes_list(files@);
            files.push(copy);
            assert(bytes_list(files@) =~= before.push(copy@));
            assert(bytes_list(files@)[bytes_list(files@).len() - 1] == copy@);
            assert(bytes_list(files@) =~= st.files.push(av[idx as int]));
        }
        idx = idx + 1;
    }
    if files.len() == 0 {
        let mut stdin: Vec<u8> = Vec::new();
        stdin.push('-' as u8);
        assert(stdin@ =~= lit_stdin());
        files.push(stdin);
        assert(bytes_list(files@)[0] == lit_stdin());
        assert(bytes_list(files@) =~= seq![lit_stdin()]);
    }
    Ok(Options { mode, iso, group_mask, files })
}

/// The value of an ASCII hexadecimal digit, if `b` is one.
pub open spec fn spec_hex_value(b: u8) -> Option<u8> {
    if 48 <= b <= 57 {
        Some((b - 48) as u8)
    } else if 97 <= b <= 102 {
        Some((b - 97 + 10) as u8)
    } else if 65 <= b <= 70 {
        Some((b - 65 + 10) as u8)
    } else {
        None
    }
}

/// Decodes one hexadecimal digit (either case).
pub fn hex_value(byte: u8) -> (r: Option<u8>)
    ensures
        r == spec_hex_value(byte),
{
    if 48 <= byte && byte <= 57 {
        Some(byte - 48)
    } else if 97 <= byte && byte <= 102 {
        Some(byte - 97 + 10)
    } else if 65 <= byte && byte <= 70 {
        Some(byte - 65 + 10)
    } else {
        None
    }
}

/// The lowercase hexadecimal digit for `d < 16`.
pub open spec fn hex_digit(d: int) -> u8 {
    if d < 10 {
        (48 + d) as u8
    } else {
        (97 + d - 10) as u8
    }
}

/// `v` in lowercase hexadecimal, left-padded with zeros to at least `width`
/// digits.
pub open spec fn hex_padded(v: nat, width: nat) -> Seq<u8>
    decreases v, width,
{
    if v < 16 && width <= 1 {
        seq![hex_digit(v as int)]
    } else {
        hex_padded(
            v / 16,
            if width > 0 {
                (width - 1) as nat
            } else {
                0
            },
        ).push(hex_digit((v % 16) as int))
    }
}

/// A byte as two lowercase hexadecimal digits.
pub open spec fn hex_pair(b: u8) -> Seq<u8> {
    seq![hex_digit((b / 16) as int), hex_digit((b % 16) as int)]
}

/// The space written after column `i` when it ends a group.
pub open spec fn group_gap(i: int, mask: usize) -> Seq<u8> {
    if (i as usize & mask) == mask {
        seq![' ' as u8]
    } else {
        Seq::empty()
    }
}

/// The hexadecimal columns from column `i` on: a pair of digits for each byte
/// of the block, two spaces past its end, and a space after each group.
pub open spec fn hex_columns(chunk: Seq<u8>, mask: usize, i: int) -> Seq<u8>
    decreases 16 - i,
{
    if i < 0 || i >= 16 {
        Seq::empty()
    } else {
        (if i < chunk.len() {
            hex_pair(chunk[i])
        } else {
            seq![' ' as u8, ' ' as u8]
        }) + group_gap(i, mask) + hex_columns(chunk, mask, i + 1)
    }
}

/// Whether a byte is shown as itself in the text column.
pub open spec fn is_shown(b: u8, iso: bool) -> bool {
    !(b < 0x20 || (b >= 0x7f && (!iso || b < 0xa0)))
}

/// How a byte is shown in the text column: itself (in UTF-8) when printable,
/// else a dot.
pub open spec fn glyph(b: u8, iso: bool) -> Seq<u8> {
    if !is_shown(b, iso) {
        seq!['.' as u8]
    } else if b < 0x80 {
        seq![b]
    } else {
        seq![(0xc0 + b / 64) as u8, (0x80 + b % 64) as u8]
    }
}

/// The text column of a block.
pub open spec fn glyphs(chunk: Seq<u8>, iso: bool) -> Seq<u8>
    decreases chunk.len(),
{
    if chunk.len() == 0 {
        Seq::empty()
    } else {
        glyph(chunk[0], iso) + glyphs(chunk.drop_first(), iso)
    }
}

/// The dump line of a block read at `address`: the address, the hexadecimal
/// columns and the text column.
pub open spec fn encoded_line(address: u64, chunk: Seq<u8>, iso: bool, mask: usize) -> Seq<u8> {
    hex_padded(address as nat, 8) + seq![':' as u8, ' ' as u8] + hex_columns(chunk, mask, 0)
        + seq![' ' as u8] + glyphs(chunk, iso) + seq!['\n' as u8]
}

fn hex_digit_exec(d: u8) -> (r: u8)
    requires
        d < 16,
    ensures
        r == hex_digit(d as int),
{
    if d < 10 {
        48 + d
    } else {
        97 + d - 10
    }
}

/// Appends `v` in hexadecimal, padded to `width` digits.
fn push_hex_padded(out: &mut Vec<u8>, v: u64, width: usize)
    ensures
        final(out)@ == old(out)@ + hex_padded(v as nat, width as nat),
    decreases v, width,
{
    if v < 16 && width <= 1 {
        out.push(hex_digit_exec(v as u8));
        assert(final(out)@ =~= old(out)@ + hex_padded(v as nat, width as nat));
    } else {
        let w = if width > 0 {
            width - 1
        } else {
            0
        };
        push_hex_padded(out, v / 16, w);
        out.push(hex_digit_exec((v % 16) as u8));
        assert(final(out)@ =~= old(out)@ + hex_padded(v as nat, width as nat));
    }
}

/// Formats one block of at most 16 bytes read at `address` as a dump line,
/// newline included.
pub fn encode_line(address: u64, chunk: &[u8], iso: bool, group_mask: usize) -> (r: Vec<u8>)
    requires
        chunk@.len() <= 16,
    ensures
        r@ == encoded_line(address, chunk@, iso, group_mask),
{
    let mut out: Vec<u8> = Vec::new();
    push_hex_padded(&mut out, address, 8);
    out.push(':' as u8);
    out.push(' ' as u8);
    let ghost head = out@;
    let n = chunk.len();
    let mut i: usize = 0;
    while i < 16
        invariant
            i <= 16,
            n == chunk@.len(),
            n <= 16,
            out@ + hex_columns(chunk@, group_mask, i as int) == head + hex_columns(
                chunk@,
                group_mask,
                0,
            ),
        decreases 16 - i,
    {
        let ghost before = out@;
        if i < n {
            let b = chunk[i];
            out.push(hex_digit_exec(b / 16));
            out.push(hex_digit_exec(b % 16));
        } else {
            out.push(' ' as u8);
            out.push(' ' as u8);
        }
        if (i & group_mask) == group_mask {
            out.push(' ' as u8);
        }
        assert(out@ + hex_columns(chunk@, group_mask, i + 1) =~= before + hex_columns(
            chunk@,
            group_mask,
            i as int,
        ));
        i = i + 1;
    }
    out.push(' ' as u8);
    let ghost mid = out@;
    let mut k: usize = 0;
    assert(chunk@.skip(0) =~= chunk@);
    while k < n
        invariant
            k <= n,
            n == chunk@.len(),
            out@ + glyphs(chunk@.skip(k as int), iso) == mid + glyphs(chunk@, iso),
        decreases n - k,
    {
        let ghost before = out@;
        let b = chunk[k];
        if b < 0x20 || (b >= 0x7f && (!iso || b < 0xa0)) {
            out.push('.' as u8);
        } else if b < 0x80 {
            out.push(b);
        } else {
            out.push(0xc0 + b / 64);
            out.push(0x80 + b % 64);
        }
        assert(chunk@.skip(k as int).drop_first() =~= chunk@.skip(k + 1));
        assert(out@ + glyphs(chunk@.skip(k + 1), iso) =~= before + glyphs(
            chunk@.skip(k as int),
            iso,
        ));
        k = k + 1;
    }
    out.push('\n' as u8);
    assert(out@ =~= encoded_line(address, chunk@, iso, group_mask));
    out
}

/// The first position at or after `pos` that does not hold a space.
pub open spec fn skip_spaces(line: Seq<u8>, pos: int) -> int
    decreases line.len() - pos,
{
    if 0 <= pos < line.len() && line[pos] == ' ' as u8 {
        skip_spaces(line, pos + 1)
    } else {
        pos
    }
}

/// The bytes read back from the hexadecimal columns, from column `i` on at
/// position `pos`: spaces are skipped before each pair, one space after a
/// pair that ends a group, and reading stops at the first character that
/// is not a digit, at the end of the line, or after sixteen bytes.
pub open spec fn decode_pairs(line: Seq<u8>, pos: int, i: int, mask: usize) -> Seq<u8>
    decreases 16 - i,
{
    if i < 0 || i >= 16 {
        Seq::empty()
    } else {
        let p = skip_spaces(line, pos);
        if p < 0 || p + 1 >= line.len() {
            Seq::empty()
        } else {
            match (spec_hex_value(line[p]), spec_hex_value(line[p + 1])) {
                (Some(hi), Some(lo)) => {
                    let q = p + 2;
                    let q2 = if (i as usize & mask) == mask && q < line.len() && line[q] == ' ' as u8 {
                        q + 1
                    } else {
                        q
                    };
                    seq![(hi * 16 + lo) as u8] + decode_pairs(line, q2, i + 1, mask)
                },
                _ => Seq::empty(),
            }
        }
    }
}

/// The bytes read back from one dump line (without its newline): nothing
/// when the line has no space, else the columns after the first space.
pub open spec fn decoded_line(line: Seq<u8>, mask: usize) -> Seq<u8> {
    let s = find_byte_from(line, ' ' as u8, 0);
    if s < line.len() {
        decode_pairs(line, s + 1, 0, mask)
    } else {
        Seq::empty()
    }
}

proof fn lemma_skip_spaces_props(line: Seq<u8>, pos: int)
    requires
        0 <= pos,
    ensures
        pos <= skip_spaces(line, pos),
        skip_spaces(line, pos) <= line.len() || skip_spaces(line, pos) == pos,
        skip_spaces(line, pos) < line.len() ==> line[skip_spaces(line, pos)] != ' ' as u8,
    decreases line.len() - pos,
{
    if 0 <= pos < line.len() && line[pos] == ' ' as u8 {
        lemma_skip_spaces_props(line, pos + 1);
    }
}

/// Reads one dump line (without its newline) back into the bytes it shows.
pub fn decode_line(line: &[u8], group_mask: usize) -> (r: Vec<u8>)
    ensures
        r@ == decoded_line(line@, group_mask),
{
    let mut out: Vec<u8> = Vec::new();
    let len = line.len();
    match find_byte(line, ' ' as u8) {
        None => {
            assert(out@ =~= decoded_line(line@, group_mask));
            out
        },
        Some(space) => {
            let mut pos = space + 1;
            let ghost target = decode_pairs(line@, pos as int, 0, group_mask);
            let mut i: usize = 0;
            while i < 16
                invariant_except_break
                    i <= 16,
                    len == line@.len(),
                    pos <= len,
                    out@ + decode_pairs(line@, pos as int, i as int, group_mask) == target,
                ensures
                    out@ == target,
                decreases 16 - i,
            {
                let ghost start = pos;
                proof {
                    lemma_skip_spaces_props(line@, pos as int);
                }
                while pos < len && line[pos] == ' ' as u8
                    invariant
                        start <= pos <= len,
                        len == line@.len(),
                        skip_spaces(line@, pos as int) == skip_spaces(line@, start as int),
                    decreases len - pos,
                {
                    pos = pos + 1;
                }
                assert(skip_spaces(line@, pos as int) == pos);
                if pos >= len || len - pos < 2 {
                    assert(out@ =~= target);
                    break;
                }
                let hi = match hex_value(line[pos]) {
                    Some(v) => v,
                    None => {
                        assert(out@ =~= target);
                        break;
                    },
                };
                let lo = match hex_value(line[pos + 1]) {
                    Some(v) => v,
                    None => {
                        assert(out@ =~= target);
                        break;
                    },
                };
                pos = pos + 2;
                assert((hi << 4u8) | lo == hi * 16 + lo) by (bit_vector)
                    requires
                        hi < 16,
                        lo < 16,
                ;
                let ghost before = out@;
                out.push((hi << 4u8) | lo);
                if (i & group_mask) == group_mask && pos < len && line[pos] == ' ' as u8 {
                    pos = pos + 1;
                }
                assert(out@ + decode_pairs(line@, pos as int, i + 1, group_mask) =~= before
                    + decode_pairs(line@, start as int, i as int, group_mask));
                i = i + 1;
            }
            proof {
                assert(decoded_line(line@, group_mask) == target);
            }
            out
        },
    }
}

proof fn lemma_hex_digit_value(d: int)
    requires
        0 <= d < 16,
    ensures
        spec_hex_value(hex_digit(d)) == Some(d as u8),
        hex_digit(d) != ' ' as u8,
{
}

proof fn lemma_hex_padded_no_space(v: nat, width: nat)
    ensures
        forall|j: int| 0 <= j < hex_padded(v, width).len() ==> hex_padded(v, width)[j] != ' ' as u8,
    decreases v, width,
{
    if v < 16 && width <= 1 {
        lemma_hex_digit_value(v as int);
    } else {
        let w: nat = if width > 0 {
            (width - 1) as nat
        } else {
            0
        };
        lemma_hex_padded_no_space(v / 16, w);
        lemma_hex_digit_value((v % 16) as int);
        let prev = hex_padded(v / 16, w);
        assert(hex_padded(v, width) == prev.push(hex_digit((v % 16) as int)));
        assert forall|j: int| 0 <= j < hex_padded(v, width).len() implies hex_padded(
            v,
            width,
        )[j] != ' ' as u8 by {
            if j < prev.len() {
                assert(hex_padded(v, width)[j] == prev[j]);
            }
        }
    }
}

proof fn lemma_skip_to(line: Seq<u8>, q: int, t: int)
    requires
        0 <= q <= t < line.len(),
        line[t] != ' ' as u8,
        forall|j: int| q <= j < t ==> line[j] == ' ' as u8,
    ensures
        skip_spaces(line, q) == t,
    decreases t - q,
{
    if q < t {
        lemma_skip_to(line, q + 1, t);
    }
}

/// Reading the columns back from column `i`, when the line is `pre` followed
/// by the columns of a block from `i` on, starting anywhere in the run of
/// spaces just before them: the block's bytes from `i` on come back first.
proof fn lemma_decode_columns(
    line: Seq<u8>,
    pre: Seq<u8>,
    post: Seq<u8>,
    chunk: Seq<u8>,
    mask: usize,
    decode_mask: usize,
    i: int,
    q: int,
)
    requires
        chunk.len() <= 16,
        0 <= i <= chunk.len(),
        line == pre + hex_columns(chunk, mask, i) + post,
        i < chunk.len() ==> 0 <= q <= pre.len(),
        i < chunk.len() ==> forall|j: int| q <= j < pre.len() ==> line[j] == ' ' as u8,
    ensures
        decode_pairs(line, q, i, decode_mask).len() >= chunk.len() - i,
        decode_pairs(line, q, i, decode_mask).take(chunk.len() - i) == chunk.subrange(
            i,
            chunk.len() as int,
        ),
    decreases chunk.len() - i,
{
    let n = chunk.len() as int;
    if i < n {
        let b = chunk[i];
        let cols = hex_columns(chunk, mask, i);
        let next = hex_columns(chunk, mask, i + 1);
        let gap = group_gap(i, mask);
        assert(cols == hex_pair(b) + gap + next);
        let p = pre.len() as int;
        lemma_hex_digit_value((b / 16) as int);
        lemma_hex_digit_value((b % 16) as int);
        assert(line[p] == hex_digit((b / 16) as int));
        assert(line[p + 1] == hex_digit((b % 16) as int));
        lemma_skip_to(line, q, p);
        let q1 = p + 2;
        let q2 = if (i as usize & decode_mask) == decode_mask && q1 < line.len() && line[q1]
            == ' ' as u8 {
            q1 + 1
        } else {
            q1
        };
        let pre2 = pre + hex_pair(b) + gap;
        assert(line =~= pre2 + next + post);
        assert(((b / 16) * 16 + b % 16) as u8 == b);
        if i + 1 < n {
            let nb = chunk[i + 1];
            assert(next == hex_pair(nb) + group_gap(i + 1, mask) + hex_columns(chunk, mask, i + 2));
            lemma_hex_digit_value((nb / 16) as int);
            assert(line[pre2.len() as int] == hex_digit((nb / 16) as int));
            assert(q2 <= pre2.len());
            assert forall|j: int| q2 <= j < pre2.len() implies line[j] == ' ' as u8 by {
                assert(j == p + 2);
                assert(gap.len() == 1);
            }
        }
        lemma_decode_columns(line, pre2, post, chunk, mask, decode_mask, i + 1, q2);
        let rest = decode_pairs(line, q2, i + 1, decode_mask);
        assert(decode_pairs(line, q, i, decode_mask) == seq![b] + rest);
        assert((seq![b] + rest).take(n - i) =~= seq![b] + rest.take(n - i - 1));
        assert(chunk.subrange(i, n) =~= seq![b] + chunk.subrange(i + 1, n));
    } else {
        assert(decode_pairs(line, q, i, decode_mask).take(0) =~= chunk.subrange(i, n));
    }
}

proof fn lemma_decode_pairs_len(line: Seq<u8>, pos: int, i: int, mask: usize)
    requires
        0 <= i <= 16,
    ensures
        decode_pairs(line, pos, i, mask).len() <= 16 - i,
    decreases 16 - i,
{
    if i < 16 {
        let p = skip_spaces(line, pos);
        if !(p < 0 || p + 1 >= line.len()) {
            let q = p + 2;
            let q2 = if (i as usize & mask) == mask && q < line.len() && line[q] == ' ' as u8 {
                q + 1
            } else {
                q
            };
            lemma_decode_pairs_len(line, q2, i + 1, mask);
        }
    }
}

/// A block of at most sixteen bytes written as a dump line reads back
/// starting with the same bytes, whatever grouping the reader is told. (The
/// text column of a short block may read as more bytes after them.)
pub proof fn lemma_decode_encode_prefix(
    address: u64,
    chunk: Seq<u8>,
    iso: bool,
    mask: usize,
    decode_mask: usize,
)
    requires
        chunk.len() <= 16,
    ensures
        decoded_line(encoded_line(address, chunk, iso, mask), decode_mask).len() >= chunk.len(),
        decoded_line(encoded_line(address, chunk, iso, mask), decode_mask).take(
            chunk.len() as int,
        ) == chunk,
{
    let line = encoded_line(address, chunk, iso, mask);
    let h = hex_padded(address as nat, 8);
    lemma_hex_padded_no_space(address as nat, 8);
    let pre = h + seq![':' as u8, ' ' as u8];
    let post = seq![' ' as u8] + glyphs(chunk, iso) + seq!['\n' as u8];
    assert(line =~= pre + hex_columns(chunk, mask, 0) + post);
    assert(line[h.len() + 1int] == ' ' as u8);
    assert forall|j: int| 0 <= j < h.len() + 1 implies line[j] != ' ' as u8 by {
        if j < h.len() {
            assert(line[j] == h[j]);
        }
    }
    crate::bytes::lemma_find_byte_at(line, ' ' as u8, 0, h.len() + 1int);
    lemma_decode_columns(line, pre, post, chunk, mask, decode_mask, 0, pre.len() as int);
    assert(chunk.subrange(0, chunk.len() as int) =~= chunk);
}

/// A full block written as a dump line reads back as the same sixteen bytes,
/// whatever grouping the reader is told.
pub proof fn lemma_decode_encode_full_block(
    address: u64,
    chunk: Seq<u8>,
    iso: bool,
    mask: usize,
    decode_mask: usize,
)
    requires
        chunk.len() == 16,
    ensures
        decoded_line(encoded_line(address, chunk, iso, mask), decode_mask) == chunk,
{
    let line = encoded_line(address, chunk, iso, mask);
    lemma_decode_encode_prefix(address, chunk, iso, mask, decode_mask);
    let s = find_byte_from(line, ' ' as u8, 0);
    assert(s < line.len());
    lemma_decode_pairs_len(line, s + 1, 0, decode_mask);
    let d = decoded_line(line, decode_mask);
    assert(d.len() == 16);
    assert(d.take(16) =~= d);
}

/// Whether a text holds neither a newline nor a carriage return.
pub open spec fn is_single_line(s: Seq<u8>) -> bool {
    forall|j: int| 0 <= j < s.len() ==> s[j] != 10u8 && s[j] != 13u8
}

proof fn lemma_single_line_concat(a: Seq<u8>, b: Seq<u8>)
    requires
        is_single_line(a),
        is_single_line(b),
    ensures
        is_single_line(a + b),
{
    assert forall|j: int| 0 <= j < (a + b).len() implies (a + b)[j] != 10u8 && (a + b)[j]
        != 13u8 by {
        if j < a.len() {
            assert((a + b)[j] == a[j]);
        } else {
            assert((a + b)[j] == b[j - a.len()]);
        }
    }
}

proof fn lemma_hex_padded_single(v: nat, width: nat)
    ensures
        is_single_line(hex_padded(v, width)),
    decreases v, width,
{
    if !(v < 16 && width <= 1) {
        let w: nat = if width > 0 {
            (width - 1) as nat
        } else {
            0
        };
        lemma_hex_padded_single(v / 16, w);
        lemma_single_line_concat(hex_padded(v / 16, w), seq![hex_digit((v % 16) as int)]);
        assert(hex_padded(v, width) =~= hex_padded(v / 16, w) + seq![hex_digit((v % 16) as int)]);
    }
}

proof fn lemma_hex_columns_single(chunk: Seq<u8>, mask: usize, i: int)
    ensures
        is_single_line(hex_columns(chunk, mask, i)),
    decreases 16 - i,
{
    if 0 <= i < 16 {
        let head = if i < chunk.len() {
            hex_pair(chunk[i])
        } else {
            seq![' ' as u8, ' ' as u8]
        };
        lemma_hex_columns_single(chunk, mask, i + 1);
        lemma_single_line_concat(head, group_gap(i, mask));
        lemma_single_line_concat(head + group_gap(i, mask), hex_columns(chunk, mask, i + 1));
    }
}

proof fn lemma_glyphs_single(chunk: Seq<u8>, iso: bool)
    ensures
        is_single_line(glyphs(chunk, iso)),
    decreases chunk.len(),
{
    if chunk.len() > 0 {
        lemma_glyphs_single(chunk.drop_first(), iso);
        lemma_single_line_concat(glyph(chunk[0], iso), glyphs(chunk.drop_first(), iso));
    }
}

/// A dump line without its newline.
pub open spec fn line_text(address: u64, chunk: Seq<u8>, iso: bool, mask: usize) -> Seq<u8> {
    hex_padded(address as nat, 8) + seq![':' as u8, ' ' as u8] + hex_columns(chunk, mask, 0)
        + seq![' ' as u8] + glyphs(chunk, iso)
}

/// A dump line is its text and a newline, and the text is one line.
proof fn lemma_line_text(address: u64, chunk: Seq<u8>, iso: bool, mask: usize)
    ensures
        encoded_line(address, chunk, iso, mask) == line_text(address, chunk, iso, mask).push(
            10u8,
        ),
        is_single_line(line_text(address, chunk, iso, mask)),
{
    let h = hex_padded(address as nat, 8);
    lemma_hex_padded_single(address as nat, 8);
    lemma_hex_columns_single(chunk, mask, 0);
    lemma_glyphs_single(chunk, iso);
    let c = seq![':' as u8, ' ' as u8];
    let sp = seq![' ' as u8];
    lemma_single_line_concat(h, c);
    lemma_single_line_concat(h + c, hex_columns(chunk, mask, 0));
    lemma_single_line_concat(h + c + hex_columns(chunk, mask, 0), sp);
    lemma_single_line_concat(h + c + hex_columns(chunk, mask, 0) + sp, glyphs(chunk, iso));
    assert(encoded_line(address, chunk, iso, mask) =~= line_text(address, chunk, iso, mask).push(
        10u8,
    ));
}

/// A space is skipped like the run of spaces after it.
proof fn lemma_skip_space_step(line: Seq<u8>, x: int)
    requires
        0 <= x < line.len(),
        line[x] == ' ' as u8,
    ensures
        skip_spaces(line, x) == skip_spaces(line, x + 1),
{
}

/// Skipping spaces from anywhere in a run of spaces ends where skipping from
/// its end does.
proof fn lemma_skip_space_run(line: Seq<u8>, a: int, b: int)
    requires
        0 <= a <= b <= line.len(),
        forall|j: int| a <= j < b ==> line[j] == ' ' as u8,
    ensures
        skip_spaces(line, a) == skip_spaces(line, b),
    decreases b - a,
{
    if a < b {
        lemma_skip_space_step(line, a);
        lemma_skip_space_run(line, a + 1, b);
    }
}

/// Everything skipped is a space.
proof fn lemma_skipped_are_spaces(line: Seq<u8>, pos: int)
    requires
        0 <= pos,
    ensures
        forall|j: int| pos <= j < skip_spaces(line, pos) ==> line[j] == ' ' as u8,
    decreases line.len() - pos,
{
    if 0 <= pos < line.len() && line[pos] == ' ' as u8 {
        lemma_skipped_are_spaces(line, pos + 1);
    }
}

/// Skipping spaces in the part of a text after a prefix.
proof fn lemma_skip_spaces_suffix(x: Seq<u8>, y: Seq<u8>, t: int)
    requires
        0 <= t,
    ensures
        skip_spaces(x + y, x.len() + t) == x.len() + skip_spaces(y, t),
    decreases y.len() - t,
{
    if t < y.len() && y[t] == ' ' as u8 {
        assert((x + y)[x.len() + t] == y[t]);
        lemma_skip_spaces_suffix(x, y, t + 1);
    } else if t < y.len() {
        assert((x + y)[x.len() + t] == y[t]);
    }
}

/// Reading pairs depends on the start position only through where skipping
/// spaces from it ends.
proof fn lemma_decode_pairs_same_start(line: Seq<u8>, a: int, b: int, i: int, mask: usize)
    requires
        skip_spaces(line, a) == skip_spaces(line, b),
    ensures
        decode_pairs(line, a, i, mask) == decode_pairs(line, b, i, mask),
{
}

/// The columns past the end of a block are spaces.
proof fn lemma_hex_columns_blank(chunk: Seq<u8>, mask: usize, i: int)
    requires
        i >= chunk.len(),
    ensures
        forall|j: int|
            0 <= j < hex_columns(chunk, mask, i).len() ==> hex_columns(chunk, mask, i)[j]
                == ' ' as u8,
    decreases 16 - i,
{
    if 0 <= i < 16 {
        lemma_hex_columns_blank(chunk, mask, i + 1);
        let head = seq![' ' as u8, ' ' as u8] + group_gap(i, mask);
        let rest = hex_columns(chunk, mask, i + 1);
        assert(hex_columns(chunk, mask, i) == head + rest);
        assert forall|j: int| 0 <= j < (head + rest).len() implies (head + rest)[j] == ' ' as u8 by {
            if j >= head.len() {
                assert((head + rest)[j] == rest[j - head.len()]);
            }
        }
    }
}

/// Reading the columns back from column `i` gives the block's bytes from `i`
/// on, then whatever is read from the end of the block's columns.
proof fn lemma_decode_columns_exact(
    line: Seq<u8>,
    pre: Seq<u8>,
    post: Seq<u8>,
    chunk: Seq<u8>,
    mask: usize,
    decode_mask: usize,
    i: int,
    q: int,
)
    requires
        chunk.len() <= 16,
        0 <= i <= chunk.len(),
        0 <= q,
        line == pre + hex_columns(chunk, mask, i) + post,
        i < chunk.len() ==> q <= pre.len(),
        i < chunk.len() ==> forall|j: int| q <= j < pre.len() ==> line[j] == ' ' as u8,
        i == chunk.len() ==> skip_spaces(line, q) == skip_spaces(line, pre.len() as int),
    ensures
        decode_pairs(line, q, i, decode_mask) == chunk.subrange(i, chunk.len() as int)
            + decode_pairs(
            line,
            line.len() - post.len() - hex_columns(chunk, mask, chunk.len() as int).len(),
            chunk.len() as int,
            decode_mask,
        ),
    decreases chunk.len() - i,
{
    let n = chunk.len() as int;
    if i < n {
        let b = chunk[i];
        let cols = hex_columns(chunk, mask, i);
        let next = hex_columns(chunk, mask, i + 1);
        let gap = group_gap(i, mask);
        assert(cols == hex_pair(b) + gap + next);
        let p = pre.len() as int;
        lemma_hex_digit_value((b / 16) as int);
        lemma_hex_digit_value((b % 16) as int);
        assert(line[p] == hex_digit((b / 16) as int));
        assert(line[p + 1] == hex_digit((b % 16) as int));
        lemma_skip_to(line, q, p);
        let q1 = p + 2;
        let q2 = if (i as usize & decode_mask) == decode_mask && q1 < line.len() && line[q1]
            == ' ' as u8 {
            q1 + 1
        } else {
            q1
        };
        let pre2 = pre + hex_pair(b) + gap;
        assert(line =~= pre2 + next + post);
        assert(((b / 16) * 16 + b % 16) as u8 == b);
        if i + 1 < n {
            let nb = chunk[i + 1];
            assert(next == hex_pair(nb) + group_gap(i + 1, mask) + hex_columns(chunk, mask, i + 2));
            lemma_hex_digit_value((nb / 16) as int);
            assert(line[pre2.len() as int] == hex_digit((nb / 16) as int));
            assert(q2 <= pre2.len());
            assert forall|j: int| q2 <= j < pre2.len() implies line[j] == ' ' as u8 by {
                assert(j == p + 2);
                assert(gap.len() == 1);
            }
        } else {
            if gap.len() == 1 {
                assert(line[p + 2] == ' ' as u8);
                lemma_skip_space_step(line, p + 2);
            } else if q2 != q1 {
                lemma_skip_space_step(line, p + 2);
            }
        }
        lemma_decode_columns_exact(line, pre2, post, chunk, mask, decode_mask, i + 1, q2);
        let rest = decode_pairs(line, q2, i + 1, decode_mask);
        assert(decode_pairs(line, q, i, decode_mask) == seq![b] + rest);
        assert(chunk.subrange(i, n) =~= seq![b] + chunk.subrange(i + 1, n));
        let tail = decode_pairs(
            line,
            line.len() - post.len() - hex_columns(chunk, mask, n).len(),
            n,
            decode_mask,
        );
        assert(seq![b] + (chunk.subrange(i + 1, n) + tail) =~= (seq![b] + chunk.subrange(
            i + 1,
            n,
        )) + tail);
    } else {
        lemma_decode_pairs_same_start(line, q, pre.len() as int, i, decode_mask);
        assert(chunk.subrange(i, n) =~= Seq::<u8>::empty());
        assert(Seq::<u8>::empty() + decode_pairs(line, q, i, decode_mask) =~= decode_pairs(
            line,
            q,
            i,
            decode_mask,
        ));
    }
}

/// How a byte's glyph starts: a hexadecimal digit or a space only when the
/// byte is that character itself, which is then its whole glyph.
proof fn lemma_glyph_first(b: u8, iso: bool)
    ensures
        glyph(b, iso).len() >= 1,
        spec_hex_value(b) is Some ==> glyph(b, iso) == seq![b],
        b == ' ' as u8 ==> glyph(b, iso) == seq![b],
        spec_hex_value(glyph(b, iso)[0]) is Some ==> spec_hex_value(b) is Some,
        glyph(b, iso)[0] == ' ' as u8 ==> b == ' ' as u8,
        glyph(b, iso).len() >= 2 ==> spec_hex_value(glyph(b, iso)[0]) is None,
{
    if is_shown(b, iso) && b >= 0x80 {
        assert(0xc0 + b / 64 >= 0xc0);
    }
}

/// The text column of two parts of a block is the text column of each.
proof fn lemma_glyphs_append(a: Seq<u8>, b: Seq<u8>, iso: bool)
    ensures
        glyphs(a + b, iso) == glyphs(a, iso) + glyphs(b, iso),
    decreases a.len(),
{
    if a.len() == 0 {
        assert(a + b =~= b);
        assert(Seq::<u8>::empty() + glyphs(b, iso) =~= glyphs(b, iso));
    } else {
        lemma_glyphs_append(a.drop_first(), b, iso);
        assert((a + b).drop_first() =~= a.drop_first() + b);
        assert((a + b)[0] == a[0]);
        assert(glyph(a[0], iso) + (glyphs(a.drop_first(), iso) + glyphs(b, iso)) =~= (glyph(
            a[0],
            iso,
        ) + glyphs(a.drop_first(), iso)) + glyphs(b, iso));
    }
}

/// Spaces are shown as themselves.
proof fn lemma_glyphs_spaces(s: Seq<u8>, iso: bool)
    requires
        forall|j: int| 0 <= j < s.len() ==> s[j] == ' ' as u8,
    ensures
        glyphs(s, iso) == s,
    decreases s.len(),
{
    if s.len() > 0 {
        lemma_glyphs_spaces(s.drop_first(), iso);
        assert(s =~= seq![s[0]] + s.drop_first());
    }
}

/// Whether the dump line of a block reads back as exactly that block: a full
/// block always does; a shorter one does unless its text column, after the
/// spaces it starts with, starts with two hexadecimal digits, which the reader
/// takes for one more byte. In terms of the block: the first two bytes after
/// its leading spaces are not both ASCII hexadecimal digits.
pub open spec fn block_reads_back(block: Seq<u8>) -> bool {
    let j = skip_spaces(block, 0);
    block.len() >= 16 || j + 1 >= block.len() || spec_hex_value(block[j]) is None
        || spec_hex_value(block[j + 1]) is None
}

/// Whether the dump of `data` reads back as `data`: its length is a multiple
/// of sixteen, or its short last block reads back (see `block_reads_back`).
pub open spec fn dump_reads_back(data: Seq<u8>) -> bool {
    let r = data.len() % 16;
    r == 0 || block_reads_back(data.subrange(data.len() - r, data.len() as int))
}

/// The text column of a single byte is its glyph.
proof fn lemma_glyphs_one(c: u8, iso: bool)
    ensures
        glyphs(seq![c], iso) == glyph(c, iso),
{
    let s = seq![c];
    assert(s.drop_first() =~= Seq::<u8>::empty());
    assert(glyphs(Seq::<u8>::empty(), iso) == Seq::<u8>::empty());
    assert(s[0] == c);
    assert(glyphs(s, iso) == glyph(c, iso) + glyphs(s.drop_first(), iso));
    assert(glyph(c, iso) + Seq::<u8>::empty() =~= glyph(c, iso));
}

/// The columns from `i` on end with the columns from `k` on.
proof fn lemma_hex_columns_suffix(chunk: Seq<u8>, mask: usize, i: int, k: int)
    requires
        0 <= i <= k <= 16,
    ensures
        hex_columns(chunk, mask, i) == hex_columns(chunk, mask, i).take(
            hex_columns(chunk, mask, i).len() - hex_columns(chunk, mask, k).len(),
        ) + hex_columns(chunk, mask, k),
        hex_columns(chunk, mask, k).len() <= hex_columns(chunk, mask, i).len(),
    decreases k - i,
{
    let c = hex_columns(chunk, mask, i);
    if i < k {
        lemma_hex_columns_suffix(chunk, mask, i + 1, k);
        let head = (if i < chunk.len() {
            hex_pair(chunk[i])
        } else {
            seq![' ' as u8, ' ' as u8]
        }) + group_gap(i, mask);
        let c1 = hex_columns(chunk, mask, i + 1);
        let ck = hex_columns(chunk, mask, k);
        assert(c == head + c1);
        assert(c1 == c1.take(c1.len() - ck.len()) + ck);
        assert(c.take(c.len() - ck.len()) =~= head + c1.take(c1.len() - ck.len()));
        assert(c =~= c.take(c.len() - ck.len()) + ck);
    } else {
        assert(c.take(0) + c =~= c);
    }
}

/// Past the columns of a block that reads back, the reader finds nothing
/// more in its text column.
proof fn lemma_text_column_reads_nothing(
    x: Seq<u8>,
    chunk: Seq<u8>,
    iso: bool,
    i: int,
    decode_mask: usize,
)
    requires
        chunk.len() < 16,
        block_reads_back(chunk),
        0 <= i < 16,
    ensures
        decode_pairs(x + glyphs(chunk, iso), x.len() as int, i, decode_mask) == Seq::<u8>::empty(),
{
    let n = chunk.len() as int;
    let g = glyphs(chunk, iso);
    let line = x + g;
    lemma_skip_spaces_suffix(x, g, 0);
    let js = skip_spaces(chunk, 0);
    lemma_skip_spaces_props(chunk, 0);
    lemma_skipped_are_spaces(chunk, 0);
    let lead = chunk.take(js);
    lemma_glyphs_spaces(lead, iso);
    assert(chunk =~= lead + chunk.skip(js));
    lemma_glyphs_append(lead, chunk.skip(js), iso);
    let gr = glyphs(chunk.skip(js), iso);
    assert(g == lead + gr);
    lemma_skip_spaces_suffix(lead, gr, 0);
    assert forall|k: int| 0 <= k < lead.len() implies g[k] == ' ' as u8 by {
        assert(g[k] == lead[k]);
    }
    lemma_skip_space_run(g, 0, lead.len() as int);
    let p = x.len() + js;
    assert(line =~= (x + lead) + gr);
    if js < n {
        let c = chunk[js];
        let more = chunk.skip(js + 1);
        assert(chunk.skip(js) =~= seq![c] + more);
        lemma_glyphs_append(seq![c], more, iso);
        lemma_glyphs_one(c, iso);
        lemma_glyph_first(c, iso);
        assert(gr == glyph(c, iso) + glyphs(more, iso));
        assert(gr[0] == glyph(c, iso)[0]);
        assert(skip_spaces(gr, 0) == 0);
        lemma_skip_spaces_suffix(x + lead, gr, 0);
        assert(skip_spaces(line, x.len() as int) == p);
        assert(line[p] == gr[0]);
        if spec_hex_value(c) is Some && js + 1 < n {
            let c2 = chunk[js + 1];
            assert(more =~= seq![c2] + more.drop_first());
            lemma_glyphs_append(seq![c2], more.drop_first(), iso);
            lemma_glyphs_one(c2, iso);
            lemma_glyph_first(c2, iso);
            assert(gr[1] == glyph(c2, iso)[0]);
            assert(line[p + 1] == gr[1]);
        } else if spec_hex_value(c) is Some {
            assert(more.len() == 0);
            assert(glyphs(more, iso) =~= Seq::<u8>::empty());
            assert(p + 1 >= line.len());
        }
    } else {
        assert(chunk.skip(js).len() == 0);
        assert(gr =~= Seq::<u8>::empty());
        lemma_skip_spaces_suffix(x + lead, gr, 0);
        assert(skip_spaces(line, x.len() as int) == line.len());
    }
}

/// Past the columns of a block that does not read back, the reader finds
/// at least one more byte in its text column.
proof fn lemma_text_column_reads_more(
    x: Seq<u8>,
    chunk: Seq<u8>,
    iso: bool,
    i: int,
    decode_mask: usize,
)
    requires
        !block_reads_back(chunk),
        0 <= i < 16,
    ensures
        decode_pairs(x + glyphs(chunk, iso), x.len() as int, i, decode_mask).len() > 0,
{
    let n = chunk.len() as int;
    let g = glyphs(chunk, iso);
    let line = x + g;
    lemma_skip_spaces_suffix(x, g, 0);
    let js = skip_spaces(chunk, 0);
    lemma_skip_spaces_props(chunk, 0);
    lemma_skipped_are_spaces(chunk, 0);
    let lead = chunk.take(js);
    lemma_glyphs_spaces(lead, iso);
    assert(chunk =~= lead + chunk.skip(js));
    lemma_glyphs_append(lead, chunk.skip(js), iso);
    let gr = glyphs(chunk.skip(js), iso);
    assert(g == lead + gr);
    assert forall|k: int| 0 <= k < lead.len() implies g[k] == ' ' as u8 by {
        assert(g[k] == lead[k]);
    }
    lemma_skip_space_run(g, 0, lead.len() as int);
    lemma_skip_spaces_suffix(lead, gr, 0);
    let p = x.len() + js;
    assert(line =~= (x + lead) + gr);
    let c = chunk[js];
    let c2 = chunk[js + 1];
    let more = chunk.skip(js + 2);
    assert(chunk.skip(js) =~= seq![c] + (seq![c2] + more));
    lemma_glyphs_append(seq![c], seq![c2] + more, iso);
    lemma_glyphs_append(seq![c2], more, iso);
    lemma_glyphs_one(c, iso);
    lemma_glyphs_one(c2, iso);
    lemma_glyph_first(c, iso);
    lemma_glyph_first(c2, iso);
    assert(gr == seq![c] + (glyph(c2, iso) + glyphs(more, iso)));
    assert(gr[0] == c);
    assert(gr[1] == glyph(c2, iso)[0]);
    assert(skip_spaces(gr, 0) == 0);
    lemma_skip_spaces_suffix(x + lead, gr, 0);
    assert(skip_spaces(line, x.len() as int) == p);
    assert(line[p] == c);
    assert(line[p + 1] == c2);
}

/// The text of a short block's dump line reads back as the block, then
/// whatever the reader finds in its text column.
proof fn lemma_decode_line_text_split(
    address: u64,
    chunk: Seq<u8>,
    iso: bool,
    mask: usize,
    decode_mask: usize,
)
    requires
        chunk.len() < 16,
    ensures
        ({
            let line = line_text(address, chunk, iso, mask);
            let x = line.subrange(0, line.len() - glyphs(chunk, iso).len());
            &&& line == x + glyphs(chunk, iso)
            &&& decoded_line(line, decode_mask) == chunk + decode_pairs(
                x + glyphs(chunk, iso),
                x.len() as int,
                chunk.len() as int,
                decode_mask,
            )
        }),
{
    let n = chunk.len() as int;
    let line = line_text(address, chunk, iso, mask);
    let h = hex_padded(address as nat, 8);
    lemma_hex_padded_no_space(address as nat, 8);
    let pre = h + seq![':' as u8, ' ' as u8];
    let g = glyphs(chunk, iso);
    let post = seq![' ' as u8] + g;
    assert(line =~= pre + hex_columns(chunk, mask, 0) + post);
    assert(line[h.len() + 1int] == ' ' as u8);
    assert forall|j: int| 0 <= j < h.len() + 1 implies line[j] != ' ' as u8 by {
        if j < h.len() {
            assert(line[j] == h[j]);
        }
    }
    lemma_find_byte_at(line, ' ' as u8, 0, h.len() + 1int);
    lemma_decode_columns_exact(line, pre, post, chunk, mask, decode_mask, 0, pre.len() as int);
    assert(chunk.subrange(0, n) =~= chunk);
    let cn = hex_columns(chunk, mask, n);
    let start = line.len() - post.len() - cn.len();
    let c0 = hex_columns(chunk, mask, 0);
    lemma_hex_columns_suffix(chunk, mask, 0, n);
    lemma_hex_columns_blank(chunk, mask, n);
    let front = pre + c0.take(c0.len() - cn.len());
    let x = front + cn + seq![' ' as u8];
    assert(line =~= x + g);
    assert(x =~= line.subrange(0, line.len() - g.len()));
    assert(start == front.len());
    assert forall|j: int| start <= j < x.len() implies line[j] == ' ' as u8 by {
        assert(line[j] == x[j]);
        if j < start + cn.len() {
            assert(x[j] == cn[j - start]);
        }
    }
    lemma_skip_space_run(line, start, x.len() as int);
    lemma_decode_pairs_same_start(line, start, x.len() as int, n, decode_mask);
}

/// The text of a block's dump line reads back as the block exactly when
/// `block_reads_back` holds of it; otherwise as more than the block.
proof fn lemma_decode_line_text(
    address: u64,
    chunk: Seq<u8>,
    iso: bool,
    mask: usize,
    decode_mask: usize,
)
    requires
        chunk.len() <= 16,
    ensures
        block_reads_back(chunk) ==> decoded_line(line_text(address, chunk, iso, mask), decode_mask)
            == chunk,
        !block_reads_back(chunk) ==> decoded_line(
            line_text(address, chunk, iso, mask),
            decode_mask,
        ).len() > chunk.len(),
{
    let n = chunk.len() as int;
    if n < 16 {
        lemma_decode_line_text_split(address, chunk, iso, mask, decode_mask);
        let line = line_text(address, chunk, iso, mask);
        let g = glyphs(chunk, iso);
        let x = line.subrange(0, line.len() - g.len());
        let d = decode_pairs(x + g, x.len() as int, n, decode_mask);
        if block_reads_back(chunk) {
            lemma_text_column_reads_nothing(x, chunk, iso, n, decode_mask);
            assert(chunk + d =~= chunk);
        } else {
            lemma_text_column_reads_more(x, chunk, iso, n, decode_mask);
        }
    } else {
        let line = line_text(address, chunk, iso, mask);
        let h = hex_padded(address as nat, 8);
        lemma_hex_padded_no_space(address as nat, 8);
        let pre = h + seq![':' as u8, ' ' as u8];
        let post = seq![' ' as u8] + glyphs(chunk, iso);
        assert(line =~= pre + hex_columns(chunk, mask, 0) + post);
        assert(line[h.len() + 1int] == ' ' as u8);
        assert forall|j: int| 0 <= j < h.len() + 1 implies line[j] != ' ' as u8 by {
            if j < h.len() {
                assert(line[j] == h[j]);
            }
        }
        lemma_find_byte_at(line, ' ' as u8, 0, h.len() + 1int);
        lemma_decode_columns_exact(line, pre, post, chunk, mask, decode_mask, 0, pre.len() as int);
        assert(chunk.subrange(0, n) =~= chunk);
        let d = decode_pairs(
            line,
            line.len() - post.len() - hex_columns(chunk, mask, n).len(),
            n,
            decode_mask,
        );
        assert(d =~= Seq::<u8>::empty());
        assert(chunk + d =~= chunk);
    }
}

/// The dump of `data` from block `k` on: one line per block of sixteen bytes
/// (the last one may be shorter), the address of block `k` being `16 * k`.
pub open spec fn encoded_from(data: Seq<u8>, k: nat, iso: bool, mask: usize) -> Seq<u8>
    decreases data.len() + 16 - 16 * k,
{
    if 16 * k >= data.len() {
        Seq::empty()
    } else {
        let end: int = if 16 * k + 16 <= data.len() {
            (16 * k + 16) as int
        } else {
            data.len() as int
        };
        encoded_line((16 * k) as u64, data.subrange(16 * k as int, end), iso, mask) + encoded_from(
            data,
            k + 1,
            iso,
            mask,
        )
    }
}

/// What the encoder writes for `data`.
pub open spec fn encoded_text(data: Seq<u8>, iso: bool, mask: usize) -> Seq<u8> {
    encoded_from(data, 0, iso, mask)
}

/// What the decoder writes for the text `s` from position `start` on: each
/// line (split at newlines, a carriage return before a newline dropped) is
/// read back with `decoded_line`.
pub open spec fn decoded_from(s: Seq<u8>, start: int, mask: usize) -> Seq<u8>
    decreases s.len() - start,
{
    if start < 0 || start >= s.len() {
        Seq::empty()
    } else {
        let k = find_byte_from(s, 10u8, start);
        proof {
            lemma_find_byte_props(s, 10u8, start);
        }
        let raw = s.subrange(start, k);
        let line = if k < s.len() && raw.len() > 0 && raw.last() == 13u8 {
            raw.drop_last()
        } else {
            raw
        };
        decoded_line(line, mask) + if k < s.len() {
            decoded_from(s, k + 1, mask)
        } else {
            Seq::empty()
        }
    }
}

/// What the decoder writes for the text `s`.
pub open spec fn decoded_text(s: Seq<u8>, mask: usize) -> Seq<u8> {
    decoded_from(s, 0, mask)
}

/// A block that does not fill a line starts where the last whole line
/// ends.
proof fn lemma_last_block_start(len: nat, k: nat)
    requires
        16 * k < len < 16 * k + 16,
    ensures
        len - len % 16 == 16 * k,
{
    assert(len - len % 16 == 16 * k) by (nonlinear_arith)
        requires
            16 * k < len < 16 * k + 16,
    ;
}

/// Reading a text that goes on with a line and its newline: the line is
/// read back, then what follows the newline.
proof fn lemma_decoded_from_line(pre: Seq<u8>, lt: Seq<u8>, rest: Seq<u8>, decode_mask: usize)
    requires
        is_single_line(lt),
    ensures
        decoded_from(pre + lt + seq![10u8] + rest, pre.len() as int, decode_mask) == decoded_line(
            lt,
            decode_mask,
        ) + decoded_from(pre + lt + seq![10u8] + rest, (pre.len() + lt.len() + 1) as int, decode_mask),
{
    let s = pre + lt + seq![10u8] + rest;
    let p = pre.len() as int;
    let nl = p + lt.len();
    assert(s[nl] == 10u8);
    assert forall|j: int| p <= j < nl implies s[j] != 10u8 by {
        assert(s[j] == lt[j - p]);
    }
    lemma_find_byte_at(s, 10u8, p, nl);
    assert(s.subrange(p, nl) =~= lt);
    if lt.len() > 0 {
        assert(lt.last() == lt[lt.len() - 1]);
    }
}

proof fn lemma_decoded_from_encoded(
    pre: Seq<u8>,
    data: Seq<u8>,
    k: nat,
    iso: bool,
    mask: usize,
    decode_mask: usize,
)
    requires
        16 * k <= data.len(),
    ensures
        dump_reads_back(data) ==> decoded_from(
            pre + encoded_from(data, k, iso, mask),
            pre.len() as int,
            decode_mask,
        ) == data.subrange(16 * k as int, data.len() as int),
        !dump_reads_back(data) ==> decoded_from(
            pre + encoded_from(data, k, iso, mask),
            pre.len() as int,
            decode_mask,
        ).len() > data.len() - 16 * k,
    decreases data.len() - 16 * k,
{
    let s = pre + encoded_from(data, k, iso, mask);
    let p = pre.len() as int;
    if 16 * k >= data.len() {
        assert(s =~= pre);
        assert(data.subrange(16 * k as int, data.len() as int) =~= Seq::<u8>::empty());
    } else {
        let full = 16 * k + 16 <= data.len();
        let end: int = if full {
            (16 * k + 16) as int
        } else {
            data.len() as int
        };
        let chunk = data.subrange(16 * k as int, end);
        let address = (16 * k) as u64;
        let lt = line_text(address, chunk, iso, mask);
        lemma_line_text(address, chunk, iso, mask);
        let rest = encoded_from(data, k + 1, iso, mask);
        let pre2 = pre + lt + seq![10u8];
        assert(s =~= pre + lt + seq![10u8] + rest);
        lemma_decoded_from_line(pre, lt, rest, decode_mask);
        if !full {
            lemma_last_block_start(data.len(), k);
        }
        lemma_decode_line_text(address, chunk, iso, mask, decode_mask);
        assert(s =~= pre2 + rest);
        if full {
            lemma_decoded_from_encoded(pre2, data, k + 1, iso, mask, decode_mask);
            assert(block_reads_back(chunk));
        } else {
            assert(rest =~= Seq::<u8>::empty());
            assert(decoded_from(s, pre2.len() as int, decode_mask) =~= Seq::<u8>::empty());
            assert(data.subrange(end, data.len() as int) =~= Seq::<u8>::empty());
            assert(dump_reads_back(data) == block_reads_back(chunk));
        }
        assert(data.subrange(16 * k as int, data.len() as int) =~= chunk + data.subrange(
            end,
            data.len() as int,
        ));
    }
}

/// Decoding undoes encoding exactly when `dump_reads_back` holds: the dump
/// of `data` reads back as `data`, whatever grouping either side uses, when
/// its length is a multiple of sixteen or its short last block reads back; on
/// any other input the reader takes two hexadecimal digits of the last text
/// column for more bytes, and reads back more than `data`.
pub proof fn lemma_decode_encode_text(data: Seq<u8>, iso: bool, mask: usize, decode_mask: usize)
    ensures
        decoded_text(encoded_text(data, iso, mask), decode_mask) == data <==> dump_reads_back(data),
{
    lemma_decoded_from_encoded(Seq::empty(), data, 0, iso, mask, decode_mask);
    assert(Seq::<u8>::empty() + encoded_from(data, 0, iso, mask) =~= encoded_from(
        data,
        0,
        iso,
        mask,
    ));
    assert(data.subrange(0, data.len() as int) =~= data);
}

/// Bytes as lowercase hexadecimal digits, two per byte, with no separator.
pub open spec fn hex_digits(bytes: Seq<u8>) -> Seq<u8>
    decreases bytes.len(),
{
    if bytes.len() == 0 {
        Seq::empty()
    } else {
        hex_pair(bytes[0]) + hex_digits(bytes.drop_first())
    }
}

/// Bytes in groups of `size`, each group as its hexadecimal digits followed
/// by one space.
pub open spec fn grouped_hex(bytes: Seq<u8>, size: nat) -> Seq<u8>
    decreases bytes.len(),
{
    if bytes.len() == 0 || size == 0 {
        Seq::empty()
    } else if bytes.len() <= size {
        hex_digits(bytes) + seq![' ' as u8]
    } else {
        hex_digits(bytes.take(size as int)) + seq![' ' as u8] + grouped_hex(
            bytes.skip(size as int),
            size,
        )
    }
}

/// The grouping masks the switches give put a space after column `i`
/// exactly when `i + 1` is a multiple of the group size `mask + 1`.
proof fn lemma_group_gap_mod(i: int, mask: usize)
    requires
        0 <= i < 16,
        mask == 0 || mask == 1 || mask == 3 || mask == 7,
    ensures
        group_gap(i, mask) == (if (i + 1) % (mask + 1) == 0 {
            seq![' ' as u8]
        } else {
            Seq::<u8>::empty()
        }),
{
    let x = i as usize;
    assert(x == i);
    let g = mask + 1;
    if mask == 0 {
        assert((x & 0usize) == 0usize) by (bit_vector);
        assert((i + 1) % 1 == 0) by (nonlinear_arith);
    } else if mask == 1 {
        assert(((x & 1usize) == 1usize) == (x % 2 == 1)) by (bit_vector);
        assert((x % 2 == 1) == ((i + 1) % 2 == 0)) by (nonlinear_arith)
            requires
                x == i,
                0 <= i,
        ;
    } else if mask == 3 {
        assert(((x & 3usize) == 3usize) == (x % 4 == 3)) by (bit_vector);
        assert((x % 4 == 3) == ((i + 1) % 4 == 0)) by (nonlinear_arith)
            requires
                x == i,
                0 <= i,
        ;
    } else {
        assert(((x & 7usize) == 7usize) == (x % 8 == 7)) by (bit_vector);
        assert((x % 8 == 7) == ((i + 1) % 8 == 0)) by (nonlinear_arith)
            requires
                x == i,
                0 <= i,
        ;
    }
    assert(g == mask + 1);
}

/// Group boundaries: the next one after a boundary `i` is `i + mask + 1`,
/// at most 16.
proof fn lemma_group_next(i: int, mask: usize)
    requires
        0 <= i < 16,
        i % (mask + 1) == 0,
        mask == 0 || mask == 1 || mask == 3 || mask == 7,
    ensures
        i + mask + 1 <= 16,
        (i + mask + 1) % (mask + 1) == 0,
{
    let g: int = mask + 1;
    assert(i + g <= 16 && (i + g) % g == 0) by (nonlinear_arith)
        requires
            0 <= i < 16,
            i % g == 0,
            g == 1 || g == 2 || g == 4 || g == 8,
    ;
}

/// Inside a group ending at the boundary `end`, only its last column is
/// followed by a boundary.
proof fn lemma_group_step(i: int, end: int, mask: usize)
    requires
        0 <= i < end <= 16,
        end % (mask + 1) == 0,
        end - i <= mask + 1,
        mask == 0 || mask == 1 || mask == 3 || mask == 7,
    ensures
        ((i + 1) % (mask + 1) == 0) == (i + 1 == end),
{
    let g: int = mask + 1;
    assert(((i + 1) % g == 0) == (i + 1 == end)) by (nonlinear_arith)
        requires
            0 <= i < end <= 16,
            end % g == 0,
            end - i <= g,
            g >= 1,
    ;
}

/// Hex digits of two parts are the digits of each.
proof fn lemma_hex_digits_append(a: Seq<u8>, b: Seq<u8>)
    ensures
        hex_digits(a + b) == hex_digits(a) + hex_digits(b),
    decreases a.len(),
{
    if a.len() == 0 {
        assert(a + b =~= b);
        assert(Seq::<u8>::empty() + hex_digits(b) =~= hex_digits(b));
    } else {
        lemma_hex_digits_append(a.drop_first(), b);
        assert((a + b).drop_first() =~= a.drop_first() + b);
        assert((a + b)[0] == a[0]);
        assert(hex_pair(a[0]) + (hex_digits(a.drop_first()) + hex_digits(b)) =~= (hex_pair(a[0])
            + hex_digits(a.drop_first())) + hex_digits(b));
    }
}

/// Within a group, the columns from `i` on are the digits of the rest of
/// the group, a space, then the columns of the next group.
proof fn lemma_hex_columns_group(chunk: Seq<u8>, mask: usize, i: int, end: int)
    requires
        chunk.len() == 16,
        mask == 0 || mask == 1 || mask == 3 || mask == 7,
        0 <= i < end <= 16,
        end % (mask + 1) == 0,
        end - i <= mask + 1,
    ensures
        hex_columns(chunk, mask, i) == hex_digits(chunk.subrange(i, end)) + seq![' ' as u8]
            + hex_columns(chunk, mask, end),
    decreases end - i,
{
    lemma_group_gap_mod(i, mask);
    let rest = hex_columns(chunk, mask, i + 1);
    assert(hex_columns(chunk, mask, i) == hex_pair(chunk[i]) + group_gap(i, mask) + rest);
    assert(chunk.subrange(i, end) =~= seq![chunk[i]] + chunk.subrange(i + 1, end));
    lemma_hex_digits_append(seq![chunk[i]], chunk.subrange(i + 1, end));
    assert(hex_digits(seq![chunk[i]]) =~= hex_pair(chunk[i])) by {
        let one = seq![chunk[i]];
        assert(one.drop_first() =~= Seq::<u8>::empty());
        assert(hex_digits(Seq::<u8>::empty()) == Seq::<u8>::empty());
        assert(one[0] == chunk[i]);
        assert(hex_digits(one) == hex_pair(one[0]) + hex_digits(one.drop_first()));
    }
    lemma_group_step(i, end, mask);
    if i + 1 == end {
        assert((i + 1) % (mask + 1) == 0);
        assert(chunk.subrange(i + 1, end) =~= Seq::<u8>::empty());
        assert(hex_digits(chunk.subrange(i + 1, end)) == Seq::<u8>::empty());
        assert(hex_columns(chunk, mask, i) =~= hex_digits(chunk.subrange(i, end)) + seq![
            ' ' as u8,
        ] + hex_columns(chunk, mask, end));
    } else {
        assert((i + 1) % (mask + 1) != 0);
        lemma_hex_columns_group(chunk, mask, i + 1, end);
        assert(hex_columns(chunk, mask, i) =~= hex_digits(chunk.subrange(i, end)) + seq![
            ' ' as u8,
        ] + hex_columns(chunk, mask, end));
    }
}

/// The columns of a full block from a group boundary on are the remaining
/// groups.
proof fn lemma_hex_columns_grouped(chunk: Seq<u8>, mask: usize, i: int)
    requires
        chunk.len() == 16,
        mask == 0 || mask == 1 || mask == 3 || mask == 7,
        0 <= i <= 16,
        i % (mask + 1) == 0,
    ensures
        hex_columns(chunk, mask, i) == grouped_hex(chunk.skip(i), (mask + 1) as nat),
    decreases 16 - i,
{
    let g = mask + 1;
    if i == 16 {
        assert(chunk.skip(16) =~= Seq::<u8>::empty());
    } else {
        let end = i + g;
        lemma_group_next(i, mask);
        lemma_hex_columns_group(chunk, mask, i, end);
        lemma_hex_columns_grouped(chunk, mask, end);
        let s = chunk.skip(i);
        assert(s.take(g as int) =~= chunk.subrange(i, end));
        assert(s.skip(g as int) =~= chunk.skip(end));
        if s.len() <= g {
            assert(end == 16);
            assert(chunk.skip(end) =~= Seq::<u8>::empty());
            assert(hex_columns(chunk, mask, end) == Seq::<u8>::empty());
            assert(s =~= chunk.subrange(i, end));
        }
    }
}

/// With each grouping the switches give (`mask` 0, 1, 3 or 7, groups of
/// `mask + 1` bytes), the dump line of a full block is its address, a colon
/// and a space, each group's hexadecimal digits followed by one space, a
/// second space, and the text column.
pub proof fn lemma_encoded_line_groups(address: u64, chunk: Seq<u8>, iso: bool, mask: usize)
    requires
        chunk.len() == 16,
        mask == 0 || mask == 1 || mask == 3 || mask == 7,
    ensures
        encoded_line(address, chunk, iso, mask) == hex_padded(address as nat, 8) + seq![
            ':' as u8,
            ' ' as u8,
        ] + grouped_hex(chunk, (mask + 1) as nat) + seq![' ' as u8] + glyphs(chunk, iso) + seq![
            '\n' as u8,
        ],
{
    lemma_hex_columns_grouped(chunk, mask, 0);
    assert(chunk.skip(0) =~= chunk);
}

/// The arguments of a list that name files: those that are not switches.
pub open spec fn file_args(s: Seq<Seq<u8>>) -> Seq<Seq<u8>> {
    s.filter(|a: Seq<u8>| !is_switch_arg(a))
}

/// The file arguments of a list, split at its first element.
proof fn lemma_file_args_first(s: Seq<Seq<u8>>)
    requires
        s.len() > 0,
    ensures
        file_args(s) == (if is_switch_arg(s[0]) {
            file_args(s.drop_first())
        } else {
            seq![s[0]] + file_args(s.drop_first())
        }),
{
    broadcast use Seq::filter_distributes_over_add;

    assert(s =~= seq![s[0]] + s.drop_first());
    assert(seq![s[0]].drop_last() =~= Seq::<Seq<u8>>::empty());
    reveal_with_fuel(Seq::filter, 2);
    assert(file_args(s) == file_args(seq![s[0]]) + file_args(s.drop_first()));
    if is_switch_arg(s[0]) {
        assert(file_args(seq![s[0]]) =~= Seq::<Seq<u8>>::empty());
        assert(Seq::<Seq<u8>>::empty() + file_args(s.drop_first()) =~= file_args(s.drop_first()));
    } else {
        assert(file_args(seq![s[0]]) =~= seq![s[0]]);
    }
}

/// Reading the arguments from `i` up to a `--` at `d`, none of them an
/// unknown switch, keeps the file names already read, adds those before
/// `--` in order, then everything after it.
proof fn lemma_parse_files(args: Seq<Seq<u8>>, i: int, d: int, st: OptionsView)
    requires
        1 <= i <= d < args.len(),
        args[d] == lit_dashdash(),
        forall|j: int| i <= j < d ==> !is_switch_arg(args[j]) || switch_for(args[j]) is Some,
    ensures
        parse_from(args, i, st) is Ok,
        parse_from(args, i, st)->Ok_0.files == st.files + file_args(args.subrange(i, d))
            + args.subrange(d + 1, args.len() as int),
    decreases d - i,
{
    let tail = args.subrange(d + 1, args.len() as int);
    if i == d {
        assert(args.subrange(i, d) =~= Seq::<Seq<u8>>::empty());
        assert(file_args(Seq::<Seq<u8>>::empty()) =~= Seq::<Seq<u8>>::empty());
        assert(st.files + Seq::<Seq<u8>>::empty() =~= st.files);
    } else {
        let arg = args[i];
        let sub = args.subrange(i, d);
        lemma_file_args_first(sub);
        assert(sub[0] == arg);
        assert(sub.drop_first() =~= args.subrange(i + 1, d));
        assert(arg != lit_dashdash()) by {
            if arg == lit_dashdash() {
                assert(is_switch_arg(arg));
                assert(switch_for(arg) is None);
            }
        }
        if is_switch_arg(arg) {
            let sw = switch_for(arg)->0;
            lemma_parse_files(args, i + 1, d, apply_switch(st, sw));
        } else {
            let st2 = OptionsView { files: st.files.push(arg), ..st };
            lemma_parse_files(args, i + 1, d, st2);
            assert(st.files.push(arg) + file_args(args.subrange(i + 1, d)) + tail =~= st.files + (
            seq![arg] + file_args(args.subrange(i + 1, d))) + tail);
        }
    }
}

/// With `--` at position `d` and no unknown switch before it, the files are
/// the non-switch arguments before `--`, in order, followed by every argument
/// after it (standard input when there are none).
pub proof fn lemma_files_around_dashdash(args: Seq<Seq<u8>>, d: int)
    requires
        1 <= d < args.len(),
        args[d] == lit_dashdash(),
        forall|j: int| 1 <= j < d ==> !is_switch_arg(args[j]) || switch_for(args[j]) is Some,
    ensures
        parse_result(args) is Ok,
        ({
            let files = file_args(args.subrange(1, d)) + args.subrange(d + 1, args.len() as int);
            parse_result(args)->Ok_0.files == if files.len() == 0 {
                seq![lit_stdin()]
            } else {
                files
            }
        }),
{
    lemma_parse_files(args, 1, d, initial_options());
    let files = file_args(args.subrange(1, d)) + args.subrange(d + 1, args.len() as int);
    assert(Seq::<Seq<u8>>::empty() + files =~= files);
}

} // verus!
