//! The build fingerprint tool: its command line, the SHA-256 digest of a
//! file, where the placeholder fingerprint sits in it, and the digest in the
//! form printed for `-r`.
use vstd::prelude::*;
use sha2::{Digest, Sha256};
use crate::bytes::{bytes_equal, bytes_list, copy_bytes};

verus! {

/// The SHA-256 digest of a byte string.
pub uninterp spec fn sha256(data: Seq<u8>) -> Seq<u8>;

/// `sha2::Sha256::digest` (through `digest::Digest`): the contract claims
/// that the 32 bytes returned are the SHA-256 digest of `data`, a function of
/// `data` alone, named `sha256`.
#[verifier::external_body]
fn sha256_digest(data: &[u8]) -> (r: [u8; 32])
    ensures
        r@ == sha256(data@),
{
    Sha256::digest(data).into()
}

/// The SHA-256 digest of a file's contents.
pub fn compute_digest(buf: &[u8]) -> (r: [u8; 32])
    ensures
        r@ == sha256(buf@),
{
    sha256_digest(buf)
}

/// The command line of the fingerprint tool.
pub struct FingerprintArgs {
    /// `-r`: print the digest instead of patching the file.
    pub raw: bool,
    pub file: Vec<u8>,
}

/// What stops the fingerprint tool at its command line.
pub enum FingerprintArgsError {
    /// `-h`: the usage is shown and the program ends well.
    Help,
    /// An option other than `-r` and `-h`.
    InvalidOption { option: Vec<u8> },
    /// Not exactly one file operand.
    WrongOperandCount,
}

/// The outcome of reading the command line, as plain values: `raw` and the
/// file, or which error.
pub enum FingerprintArgsResult {
    Run { raw: bool, file: Seq<u8> },
    Help,
    InvalidOption(Seq<u8>),
    WrongOperandCount,
}

/// Reads the options from `idx` on, then the single file operand.
pub open spec fn args_from(args: Seq<Seq<u8>>, idx: int, raw: bool) -> FingerprintArgsResult
    decreases args.len() - idx,
{
    if 0 <= idx < args.len() && args[idx].len() > 0 && args[idx][0] == 45u8 {
        let arg = args[idx];
        if arg == seq![45u8, 'r' as u8] {
            args_from(args, idx + 1, true)
        } else if arg == seq![45u8, 'h' as u8] {
            FingerprintArgsResult::Help
        } else {
            FingerprintArgsResult::InvalidOption(arg)
        }
    } else if idx < 0 || args.len() - idx != 1 {
        FingerprintArgsResult::WrongOperandCount
    } else {
        FingerprintArgsResult::Run { raw, file: args[idx] }
    }
}

/// Reads the command line of the fingerprint tool (program name first):
/// options `-r` and `-h`, then exactly one file.
pub fn parse_args(args: &Vec<Vec<u8>>) -> (r: Result<FingerprintArgs, FingerprintArgsError>)
    ensures
        match (r, args_from(bytes_list(args@), 1, false)) {
            (Ok(a), FingerprintArgsResult::Run { raw, file }) => a.raw == raw && a.file@ == file,
            (Err(FingerprintArgsError::Help), FingerprintArgsResult::Help) => true,
            (
                Err(FingerprintArgsError::InvalidOption { option }),
                FingerprintArgsResult::InvalidOption(o),
            ) => option@ == o,
            (Err(FingerprintArgsError::WrongOperandCount), FingerprintArgsResult::WrongOperandCount) => true,
            _ => false,
        },
{
    let ghost av = bytes_list(args@);
    let n = args.len();
    let mut raw = false;
    let mut idx: usize = 1;
    let lit_r: [u8; 2] = [45u8, 'r' as u8];
    let lit_h: [u8; 2] = [45u8, 'h' as u8];
    assert(lit_r@ =~= seq![45u8, 'r' as u8]);
    assert(lit_h@ =~= seq![45u8, 'h' as u8]);
    while idx < n
        invariant_except_break
            n == args@.len(),
            av == bytes_list(args@),
            1 <= idx,
            idx <= n || n == 0,
            lit_r@ == seq![45u8, 'r' as u8],
            lit_h@ == seq![45u8, 'h' as u8],
            args_from(av, idx as int, raw) == args_from(av, 1, false),
        ensures
            n == args@.len(),
            av == bytes_list(args@),
            1 <= idx,
            args_from(av, idx as int, raw) == args_from(av, 1, false),
            !(idx < n && av[idx as int].len() > 0 && av[idx as int][0] == 45u8),
            idx <= n || n == 0,
        decreases n - idx,
    {
        let arg = &args[idx];
        assert(av[idx as int] == arg@);
        if arg.len() > 0 && arg[0] == 45u8 {
            if bytes_equal(arg.as_slice(), &lit_r) {
                raw = true;
                idx = idx + 1;
            } else if bytes_equal(arg.as_slice(), &lit_h) {
                return Err(FingerprintArgsError::Help);
            } else {
                return Err(FingerprintArgsError::InvalidOption { option: copy_bytes(arg.as_slice()) });
            }
        } else {
            break;
        }
    }
    if n < idx || n - idx != 1 {
        return Err(FingerprintArgsError::WrongOperandCount);
    }
    assert(av[idx as int] == args@[idx as int]@);
    Ok(FingerprintArgs { raw, file: copy_bytes(args[idx].as_slice()) })
}

/// Whether `pat` occurs in `buf` at offset `i`.
pub open spec fn occurs_at(buf: Seq<u8>, pat: Seq<u8>, i: int) -> bool {
    0 <= i && i + pat.len() <= buf.len() && buf.subrange(i, i + pat.len()) == pat
}

/// The placeholder is not in the file.
#[derive(Clone, Copy, Debug, PartialEq, Eq)]
pub struct MissingFingerprint;

/// The offsets, in increasing order, of every occurrence of the placeholder
/// fingerprint in the file's contents: the places where the digest is
/// written. An error when there is none.
pub fn replace_fingerprint(buf: &[u8], placeholder: &[u8]) -> (r: Result<
    Vec<usize>,
    MissingFingerprint,
>)
    requires
        placeholder@.len() > 0,
    ensures
        r is Err <==> forall|i: int| !occurs_at(buf@, placeholder@, i),
        r matches Ok(offsets) ==> {
            &&& forall|k: int|
                0 <= k < offsets@.len() ==> occurs_at(buf@, placeholder@, #[trigger] offsets@[k] as int)
            &&& forall|k: int, l: int| 0 <= k < l < offsets@.len() ==> offsets@[k] < offsets@[l]
            &&& forall|i: int| #[trigger]
                occurs_at(buf@, placeholder@, i) ==> offsets@.contains(i as usize)
        },
{
    let n = buf.len();
    let m = placeholder.len();
    let mut offsets: Vec<usize> = Vec::new();
    if m <= n {
        let mut i: usize = 0;
        while i <= n - m
            invariant
                m <= n,
                n == buf@.len(),
                m == placeholder@.len(),
                m > 0,
                i <= n - m + 1,
                forall|k: int|
                    0 <= k < offsets@.len() ==> occurs_at(buf@, placeholder@, #[trigger] offsets@[k] as int),
                forall|k: int| 0 <= k < offsets@.len() ==> #[trigger] offsets@[k] < i,
                forall|k: int, l: int| 0 <= k < l < offsets@.len() ==> offsets@[k] < offsets@[l],
                forall|j: int|
                    0 <= j < i && #[trigger] occurs_at(buf@, placeholder@, j) ==> offsets@.contains(
                        j as usize,
                    ),
            decreases n - m + 1 - i,
        {
            let window = &buf[i..i + m];
            assert(window@ =~= buf@.subrange(i as int, i + m));
            let ghost old_offsets = offsets@;
            if bytes_equal(window, placeholder) {
                offsets.push(i);
                assert(offsets@[offsets@.len() - 1] == i);
            }
            assert forall|j: int|
                0 <= j < i + 1 && #[trigger] occurs_at(buf@, placeholder@, j) implies offsets@.contains(
                j as usize,
            ) by {
                if j == i {
                    assert(offsets@[offsets@.len() - 1] == i);
                } else {
                    assert(old_offsets.contains(j as usize));
                    let k = choose|k: int| 0 <= k < old_offsets.len() && old_offsets[k] == j as usize;
                    assert(offsets@[k] == old_offsets[k]);
                }
            }
            i = i + 1;
        }
    }
    if offsets.len() == 0 {
        assert forall|i: int| !occurs_at(buf@, placeholder@, i) by {
            if occurs_at(buf@, placeholder@, i) {
                assert(offsets@.contains(i as usize));
            }
        }
        return Err(MissingFingerprint);
    }
    assert(occurs_at(buf@, placeholder@, offsets@[0] as int));
    Ok(offsets)
}

/// The uppercase hexadecimal digit for `d < 16`.
pub open spec fn hex_digit_upper(d: int) -> u8 {
    if d < 10 {
        (48 + d) as u8
    } else {
        (65 + d - 10) as u8
    }
}

/// Bytes as two uppercase hexadecimal digits each.
pub open spec fn hex_upper(s: Seq<u8>) -> Seq<u8>
    decreases s.len(),
{
    if s.len() == 0 {
        Seq::empty()
    } else {
        seq![hex_digit_upper((s[0] / 16) as int), hex_digit_upper((s[0] % 16) as int)]
            + hex_upper(s.drop_first())
    }
}

fn hex_digit_upper_exec(d: u8) -> (r: u8)
    requires
        d < 16,
    ensures
        r == hex_digit_upper(d as int),
{
    if d < 10 {
        48 + d
    } else {
        65 + d - 10
    }
}

/// The digest as printed for `-r`: uppercase hexadecimal, two digits a byte.
pub fn digest_hex(digest: &[u8]) -> (r: Vec<u8>)
    ensures
        r@ == hex_upper(digest@),
{
    let mut out: Vec<u8> = Vec::new();
    let n = digest.len();
    let mut i: usize = 0;
    assert(digest@.skip(0) =~= digest@);
    while i < n
        invariant
            i <= n,
            n == digest@.len(),
            out@ + hex_upper(digest@.skip(i as int)) == hex_upper(digest@),
        decreases n - i,
    {
        let ghost before = out@;
        let b = digest[i];
        out.push(hex_digit_upper_exec(b / 16));
        out.push(hex_digit_upper_exec(b % 16));
        assert(digest@.skip(i as int).drop_first() =~= digest@.skip(i + 1));
        assert(out@ + hex_upper(digest@.skip(i + 1)) =~= before + hex_upper(digest@.skip(i as int)));
        i = i + 1;
    }
    assert(digest@.skip(n as int).len() == 0);
    assert(out@ =~= hex_upper(digest@));
    out
}

/// Whether a file of `size` bytes can be read into memory whole; a size of
/// `isize::MAX` or more is refused as too big.
pub fn file_size_ok(size: u64) -> (r: bool)
    ensures
        r == (size < isize::MAX),
{
    size < isize::MAX as u64
}

} // verus!
