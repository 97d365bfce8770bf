//! The decisions of the game score updater: its command line, where the
//! score file lives, the privileges it may run with, the text recorded with a
//! score, and the retry policy of the lock file.
use vstd::prelude::*;
use vstd::utf8::{valid_utf8, is_continuation_byte};
use crate::bytes::{bytes_equal, bytes_list, copy_bytes, find_byte_from, find_byte, push_all};
use crate::score_value::{is_digit, all_digits, digits_value, decimal, push_decimal, lemma_digits_value_push};
use crate::utf8::is_valid_utf8;

verus! {

/// The largest number of bytes of player data kept with a score.
pub const MAX_DATA_LEN: usize = 1024;

/// How many times in a row the lock file may be found held before it is
/// taken to be left over and removed.
pub const MAX_ATTEMPTS: u32 = 5;

/// The command line of the score updater.
pub struct Cli {
    pub reverse: bool,
    pub max_scores: usize,
    pub user_prefix: Option<Vec<u8>>,
    pub score_key: Vec<u8>,
    pub score_value: Vec<u8>,
    pub score_data: Vec<u8>,
}

/// The command line as plain values.
pub struct CliView {
    pub reverse: bool,
    pub max_scores: usize,
    pub user_prefix: Option<Seq<u8>>,
    pub score_key: Seq<u8>,
    pub score_value: Seq<u8>,
    pub score_data: Seq<u8>,
}

pub open spec fn opt_bytes(o: Option<Vec<u8>>) -> Option<Seq<u8>> {
    match o {
        Some(v) => Some(v@),
        None => None,
    }
}

impl View for Cli {
    type V = CliView;

    open spec fn view(&self) -> CliView {
        CliView {
            reverse: self.reverse,
            max_scores: self.max_scores,
            user_prefix: opt_bytes(self.user_prefix),
            score_key: self.score_key@,
            score_value: self.score_value@,
            score_data: self.score_data@,
        }
    }
}

/// What stops the score updater at its command line.
pub enum CliError {
    /// `-h`: the usage is shown on standard output and the program ends well.
    Help,
    /// `-m` is the last argument.
    MissingMax,
    /// The argument of `-m` is not an `i128`.
    UnparsableMax,
    /// The argument of `-m` is negative.
    NegativeMax,
    /// `-d` is the last argument.
    MissingDir,
    /// An unknown option.
    InvalidOption { option: Vec<u8> },
    /// Not exactly three operands.
    WrongOperandCount,
}

/// A command-line error as plain values.
pub enum CliErrorView {
    Help,
    MissingMax,
    UnparsableMax,
    NegativeMax,
    MissingDir,
    InvalidOption(Seq<u8>),
    WrongOperandCount,
}

impl View for CliError {
    type V = CliErrorView;

    open spec fn view(&self) -> CliErrorView {
        match self {
            CliError::Help => CliErrorView::Help,
            CliError::MissingMax => CliErrorView::MissingMax,
            CliError::UnparsableMax => CliErrorView::UnparsableMax,
            CliError::NegativeMax => CliErrorView::NegativeMax,
            CliError::MissingDir => CliErrorView::MissingDir,
            CliError::InvalidOption { option } => CliErrorView::InvalidOption(option@),
            CliError::WrongOperandCount => CliErrorView::WrongOperandCount,
        }
    }
}

impl CliError {
    /// Whether the usage text is shown on standard error with this error
    /// (for `Help` it goes to standard output instead).
    pub fn shows_usage(&self) -> (r: bool)
        ensures
            r == !(self@ is Help || self@ is UnparsableMax),
    {
        match self {
            CliError::Help => false,
            CliError::UnparsableMax => false,
            _ => true,
        }
    }
}

/// The number an `i128` argument stands for, as `str::parse::<i128>` reads
/// it: an optional `+` or `-`, then at least one ASCII digit and nothing
/// else, within the range of `i128`.
pub open spec fn parsed_i128(s: Seq<u8>) -> Option<int> {
    let signed = s.len() > 0 && (s[0] == 43u8 || s[0] == 45u8);
    let neg = s.len() > 0 && s[0] == 45u8;
    let d = if signed {
        s.drop_first()
    } else {
        s
    };
    if d.len() == 0 || !all_digits(d) {
        None
    } else {
        let v: int = if neg {
            -(digits_value(d) as int)
        } else {
            digits_value(d) as int
        };
        if i128::MIN <= v <= i128::MAX {
            Some(v)
        } else {
            None
        }
    }
}

/// Reads a signed 128-bit integer (see `parsed_i128`).
pub fn parse_i128(s: &[u8]) -> (r: Option<i128>)
    ensures
        match r {
            Some(v) => parsed_i128(s@) == Some(v as int),
            None => parsed_i128(s@) is None,
        },
{
    let n = s.len();
    if n == 0 {
        return None;
    }
    let signed = s[0] == 43u8 || s[0] == 45u8;
    let neg = s[0] == 45u8;
    let start: usize = if signed {
        1
    } else {
        0
    };
    let ghost d = if signed {
        s@.drop_first()
    } else {
        s@
    };
    assert(d =~= s@.skip(start as int));
    if start == n {
        return None;
    }
    let limit: u128 = if neg {
        0x8000_0000_0000_0000_0000_0000_0000_0000u128
    } else {
        0x7fff_ffff_ffff_ffff_ffff_ffff_ffff_ffffu128
    };
    let mut acc: u128 = 0;
    let mut overflow = false;
    let mut i = start;
    assert(d.take(0) =~= Seq::<u8>::empty());
    assert(!all_digits(d) ==> parsed_i128(s@) is None);
    while i < n
        invariant
            !all_digits(d) ==> parsed_i128(s@) is None,
            limit >= 0x7fff_ffff_ffff_ffff_ffff_ffff_ffff_ffffu128,
            start <= i <= n,
            n == s@.len(),
            start == 0 || start == 1,
            d == s@.skip(start as int),
            all_digits(d.take(i - start)),
            !overflow ==> acc == digits_value(d.take(i - start)),
            !overflow ==> acc <= limit,
            overflow ==> digits_value(d.take(i - start)) > limit,
        decreases n - i,
    {
        let c = s[i];
        if !(48 <= c && c <= 57) {
            assert(!all_digits(d)) by {
                assert(d[i - start] == c);
            }
            return None;
        }
        let dig = (c - 48) as u128;
        let ghost prefix = d.take(i - start);
        assert(d.take(i - start + 1) =~= prefix.push(c));
        proof {
            lemma_digits_value_push(prefix, c);
        }
        if !overflow {
            if acc > (limit - dig) / 10 {
                overflow = true;
            } else {
                acc = acc * 10 + dig;
            }
        } else {
            assert(digits_value(prefix) * 10 + dig > limit) by (nonlinear_arith)
                requires
                    digits_value(prefix) > limit,
            ;
        }
        i = i + 1;
        assert(all_digits(d.take(i - start)));
    }
    assert(d.take(n - start) =~= d);
    if overflow {
        return None;
    }
    if neg {
        if acc == 0x8000_0000_0000_0000_0000_0000_0000_0000u128 {
            Some(i128::MIN)
        } else {
            Some(-(acc as i128))
        }
    } else {
        Some(acc as i128)
    }
}

/// The name used when the argument list is empty.
pub open spec fn lit_help() -> Seq<u8> {
    seq![45u8, 'h' as u8]
}

pub open spec fn lit_reverse() -> Seq<u8> {
    seq![45u8, 'r' as u8]
}

pub open spec fn lit_max() -> Seq<u8> {
    seq![45u8, 'm' as u8]
}

pub open spec fn lit_dir() -> Seq<u8> {
    seq![45u8, 'd' as u8]
}

/// The limit given by `-m`, which caps the table at `isize::MAX` entries.
pub open spec fn max_from(v: int) -> usize {
    if v > isize::MAX {
        isize::MAX as usize
    } else {
        v as usize
    }
}

/// Whether an argument is read as an option: anything that starts with `-`.
pub open spec fn is_option_arg(arg: Seq<u8>) -> bool {
    arg.len() > 0 && arg[0] == 45u8
}

/// Reads the options from `idx` on, then the three operands.
pub open spec fn cli_from(
    args: Seq<Seq<u8>>,
    idx: int,
    reverse: bool,
    max_scores: usize,
    user_prefix: Option<Seq<u8>>,
) -> Result<CliView, CliErrorView>
    decreases args.len() - idx,
{
    if 0 <= idx < args.len() && is_option_arg(args[idx]) {
        let arg = args[idx];
        if arg == lit_help() {
            Err(CliErrorView::Help)
        } else if arg == lit_reverse() {
            cli_from(args, idx + 1, true, max_scores, user_prefix)
        } else if arg == lit_max() {
            if idx + 1 >= args.len() {
                Err(CliErrorView::MissingMax)
            } else {
                match parsed_i128(args[idx + 1]) {
                    None => Err(CliErrorView::UnparsableMax),
                    Some(v) => if v < 0 {
                        Err(CliErrorView::NegativeMax)
                    } else {
                        cli_from(args, idx + 2, reverse, max_from(v), user_prefix)
                    },
                }
            }
        } else if arg == lit_dir() {
            if idx + 1 >= args.len() {
                Err(CliErrorView::MissingDir)
            } else {
                cli_from(args, idx + 2, reverse, max_scores, Some(args[idx + 1]))
            }
        } else {
            Err(CliErrorView::InvalidOption(arg))
        }
    } else if idx < 0 || args.len() - idx != 3 {
        Err(CliErrorView::WrongOperandCount)
    } else {
        Ok(
            CliView {
                reverse,
                max_scores,
                user_prefix,
                score_key: args[idx],
                score_value: args[idx + 1],
                score_data: args[idx + 2],
            },
        )
    }
}

/// What the command line of the score updater gives.
pub open spec fn cli_result(args: Seq<Seq<u8>>) -> Result<CliView, CliErrorView> {
    cli_from(args, 1, false, usize::MAX, None)
}

fn is_two_byte_option(arg: &Vec<u8>, letter: u8) -> (r: bool)
    ensures
        r == (arg@ == seq![45u8, letter]),
{
    let lit: [u8; 2] = [45u8, letter];
    assert(lit@ =~= seq![45u8, letter]);
    bytes_equal(arg.as_slice(), &lit)
}

/// Reads the command line of the score updater (program name first):
/// options `-h`, `-r`, `-m MAX`, `-d DIR`, then exactly the score file, the
/// score and the player data (see `cli_result`).
pub fn parse_cli(args: &Vec<Vec<u8>>) -> (r: Result<Cli, CliError>)
    ensures
        match (r, cli_result(bytes_list(args@))) {
            (Ok(c), Ok(v)) => c@ == v,
            (Err(e), Err(v)) => e@ == v,
            _ => false,
        },
{
    let ghost av = bytes_list(args@);
    let ghost target = cli_result(av);
    let mut reverse = false;
    let mut max_scores: usize = usize::MAX;
    let mut user_prefix: Option<Vec<u8>> = None;
    let mut idx: usize = 1;
    let n = args.len();
    loop
        invariant_except_break
            n == args@.len(),
            av == bytes_list(args@),
            target == cli_result(av),
            1 <= idx,
            idx <= n || n == 0,
            cli_from(av, idx as int, reverse, max_scores, opt_bytes(user_prefix)) == target,
        ensures
            n == args@.len(),
            av == bytes_list(args@),
            target == cli_result(av),
            1 <= idx,
            idx <= n || n == 0,
            cli_from(av, idx as int, reverse, max_scores, opt_bytes(user_prefix)) == target,
            !(idx < n && is_option_arg(av[idx as int])),
        decreases n - idx,
    {
        if idx >= n {
            break;
        }
        let arg = &args[idx];
        assert(av[idx as int] == arg@);
        if is_two_byte_option(arg, 'h' as u8) {
            return Err(CliError::Help);
        } else if is_two_byte_option(arg, 'r' as u8) {
            reverse = true;
            idx = idx + 1;
        } else if is_two_byte_option(arg, 'm' as u8) {
            if idx + 1 >= n {
                return Err(CliError::MissingMax);
            }
            assert(av[idx + 1] == args@[idx + 1]@);
            match parse_i128(args[idx + 1].as_slice()) {
                None => {
                    return Err(CliError::UnparsableMax);
                },
                Some(v) => {
                    if v < 0 {
                        return Err(CliError::NegativeMax);
                    }
                    max_scores = if v > isize::MAX as i128 {
                        isize::MAX as usize
                    } else {
                        v as usize
                    };
                },
            }
            idx = idx + 2;
        } else if is_two_byte_option(arg, 'd' as u8) {
            if idx + 1 >= n {
                return Err(CliError::MissingDir);
            }
            assert(av[idx + 1] == args@[idx + 1]@);
            user_prefix = Some(copy_bytes(args[idx + 1].as_slice()));
            idx = idx + 2;
        } else if arg.len() > 0 && arg[0] == 45u8 {
            return Err(CliError::InvalidOption { option: copy_bytes(arg.as_slice()) });
        } else {
            break;
        }
    }
    if n < idx || n - idx != 3 {
        return Err(CliError::WrongOperandCount);
    }
    assert(av[idx as int] == args@[idx as int]@);
    assert(av[idx + 1] == args@[idx + 1]@);
    assert(av[idx + 2] == args@[idx + 2]@);
    Ok(
        Cli {
            reverse,
            max_scores,
            user_prefix,
            score_key: copy_bytes(args[idx].as_slice()),
            score_value: copy_bytes(args[idx + 1].as_slice()),
            score_data: copy_bytes(args[idx + 2].as_slice()),
        },
    )
}

/// Why no score directory can be chosen.
#[derive(Clone, Copy, Debug, PartialEq, Eq)]
pub enum PrefixError {
    /// Running with elevated privileges, but built without a shared game
    /// directory.
    NoSharedGameDir,
    /// Not privileged, and no directory given with `-d`.
    NoPrefix,
}

/// The directory that holds the score files: the shared game directory the
/// program was built with when it runs with elevated privileges, else the
/// directory given with `-d`.
pub fn prefix_path(
    privileged: bool,
    shared_game_dir: &Option<Vec<u8>>,
    user_prefix: &Option<Vec<u8>>,
) -> (r: Result<Vec<u8>, PrefixError>)
    ensures
        privileged ==> match (shared_game_dir, r) {
            (Some(d), Ok(p)) => p@ == d@,
            (None, Err(e)) => e == PrefixError::NoSharedGameDir,
            _ => false,
        },
        !privileged ==> match (user_prefix, r) {
            (Some(d), Ok(p)) => p@ == d@,
            (None, Err(e)) => e == PrefixError::NoPrefix,
            _ => false,
        },
{
    if privileged {
        match shared_game_dir {
            Some(dir) => Ok(copy_bytes(dir.as_slice())),
            None => Err(PrefixError::NoSharedGameDir),
        }
    } else {
        match user_prefix {
            Some(dir) => Ok(copy_bytes(dir.as_slice())),
            None => Err(PrefixError::NoPrefix),
        }
    }
}

/// The program may run set-user-ID or set-group-ID, not both.
#[derive(Clone, Copy, Debug, PartialEq, Eq)]
pub struct BothSuidAndSgid;

/// Whether the program runs with elevated privileges; an error when it runs
/// both set-user-ID and set-group-ID.
pub fn check_privileges(running_suid: bool, running_sgid: bool) -> (r: Result<
    bool,
    BothSuidAndSgid,
>)
    ensures
        r is Err <==> running_suid && running_sgid,
        r matches Ok(p) ==> p == (running_suid || running_sgid),
{
    if running_suid && running_sgid {
        Err(BothSuidAndSgid)
    } else {
        Ok(running_suid || running_sgid)
    }
}

/// The permissions of a rewritten score file: group-writable when the
/// program runs set-group-ID.
pub fn score_file_mode(running_sgid: bool) -> (r: u32)
    ensures
        r == (if running_sgid {
            0o664u32
        } else {
            0o644u32
        }),
{
    if running_sgid {
        0o664
    } else {
        0o644
    }
}

/// The name a player is recorded under: the login name when it is UTF-8,
/// not empty, and has no space or newline; else the numeric user ID.
pub open spec fn user_name_text(name: Option<Seq<u8>>, uid: u32) -> Seq<u8> {
    match name {
        Some(n) => if valid_utf8(n) && n.len() > 0 && find_byte_from(n, 32u8, 0) == n.len()
            && find_byte_from(n, 10u8, 0) == n.len() {
            n
        } else {
            decimal(uid as nat)
        },
        None => decimal(uid as nat),
    }
}

/// Chooses the name a player is recorded under, from the login name (if the
/// user has a password entry) and the numeric user ID.
pub fn user_id_text(name: Option<&[u8]>, uid: u32) -> (r: Vec<u8>)
    ensures
        r@ == user_name_text(
            match name {
                Some(n) => Some(n@),
                None => None,
            },
            uid,
        ),
{
    if let Some(n) = name {
        if is_valid_utf8(n) && n.len() > 0 && find_byte(n, 32u8).is_none() && find_byte(
            n,
            10u8,
        ).is_none() {
            return copy_bytes(n);
        }
    }
    let mut out: Vec<u8> = Vec::new();
    push_decimal(&mut out, uid as u64);
    assert(out@ =~= decimal(uid as nat));
    out
}

/// The text recorded with a score: the player's name, a space, then the
/// player data cut to `MAX_DATA_LEN` bytes and then at its first newline.
pub open spec fn entry_text(user: Seq<u8>, data: Seq<u8>) -> Seq<u8> {
    let cut = if data.len() > MAX_DATA_LEN {
        data.take(MAX_DATA_LEN as int)
    } else {
        data
    };
    user + seq![32u8] + cut.take(find_byte_from(cut, 10u8, 0))
}

/// Builds the text recorded with a score. The player data must not have a
/// character that straddles the `MAX_DATA_LEN` byte limit (cutting a string
/// there would fail).
pub fn make_entry_text(user: &[u8], data: &[u8]) -> (r: Vec<u8>)
    requires
        data@.len() <= MAX_DATA_LEN || !is_continuation_byte(data@[MAX_DATA_LEN as int]),
    ensures
        r@ == entry_text(user@, data@),
{
    let cut_len = if data.len() > MAX_DATA_LEN {
        MAX_DATA_LEN
    } else {
        data.len()
    };
    let ghost cut = if data@.len() > MAX_DATA_LEN {
        data@.take(MAX_DATA_LEN as int)
    } else {
        data@
    };
    assert(cut =~= data@.subrange(0, cut_len as int));
    let cut_slice = &data[0..cut_len];
    let end = match find_byte(cut_slice, 10u8) {
        Some(p) => p,
        None => cut_len,
    };
    let mut out = copy_bytes(user);
    out.push(32u8);
    push_all(&mut out, &cut_slice[0..end]);
    assert(cut.take(find_byte_from(cut, 10u8, 0)) =~= cut_slice@.subrange(0, end as int));
    assert(out@ =~= entry_text(user@, data@));
    out
}

/// What to do when the lock file is found held.
#[derive(Clone, Copy, Debug, PartialEq, Eq)]
pub enum LockAction {
    /// Remove the lock file, taken to be left over, and try again at once.
    RemoveStale,
    /// Wait a second and try again.
    Wait,
}

/// After finding the lock file held for the `attempts + 1`-th time in a row:
/// a lock older than an hour, or held more than `MAX_ATTEMPTS` times in a
/// row, is removed and the count starts over; otherwise the program waits.
/// The count never exceeds `MAX_ATTEMPTS`.
pub fn next_lock_step(attempts: u32, stale: bool) -> (r: (LockAction, u32))
    requires
        attempts <= MAX_ATTEMPTS,
    ensures
        attempts + 1 > MAX_ATTEMPTS || stale ==> r == (LockAction::RemoveStale, 0u32),
        !(attempts + 1 > MAX_ATTEMPTS || stale) ==> r == (LockAction::Wait, (attempts + 1) as u32),
        r.1 <= MAX_ATTEMPTS,
{
    let next = attempts + 1;
    if next > MAX_ATTEMPTS || stale {
        (LockAction::RemoveStale, 0)
    } else {
        (LockAction::Wait, next)
    }
}

/// The text recorded with a score is the player's name, a space, and the
/// player data kept as it is up to the first newline, within the first
/// `MAX_DATA_LEN` bytes: what follows the space is a prefix of that part of
/// the data, holds no newline, and stops only at its end or at a newline.
pub proof fn lemma_entry_text_keeps_data(user: Seq<u8>, data: Seq<u8>)
    ensures
        ({
            let limit: int = if data.len() > MAX_DATA_LEN {
                MAX_DATA_LEN as int
            } else {
                data.len() as int
            };
            let r = entry_text(user, data);
            let kept = r.skip(user.len() as int + 1);
            &&& r.len() > user.len()
            &&& r.take(user.len() as int) == user
            &&& r[user.len() as int] == 32u8
            &&& kept.len() <= limit
            &&& kept == data.take(kept.len() as int)
            &&& forall|j: int| 0 <= j < kept.len() ==> kept[j] != 10u8
            &&& kept.len() == limit || data[kept.len() as int] == 10u8
        }),
{
    let limit: int = if data.len() > MAX_DATA_LEN {
        MAX_DATA_LEN as int
    } else {
        data.len() as int
    };
    let cut = data.take(limit);
    assert(cut =~= (if data.len() > MAX_DATA_LEN {
        data.take(MAX_DATA_LEN as int)
    } else {
        data
    }));
    assert(cut.len() == limit);
    crate::bytes::lemma_find_byte_props(cut, 10u8, 0);
    let k = find_byte_from(cut, 10u8, 0);
    let line = cut.take(k);
    let r = entry_text(user, data);
    assert(r == user + seq![32u8] + line);
    assert(r.take(user.len() as int) =~= user);
    assert(r[user.len() as int] == 32u8);
    assert(r.skip(user.len() as int + 1) =~= line);
    assert(line =~= data.take(k));
    if k < limit {
        assert(cut[k] == data[k]);
    }
}

/// Data without a newline that fits in `MAX_DATA_LEN` bytes is recorded
/// whole, spaces included, after the player's name and a space.
pub proof fn lemma_entry_text_whole_data(user: Seq<u8>, data: Seq<u8>)
    requires
        data.len() <= MAX_DATA_LEN,
        forall|j: int| 0 <= j < data.len() ==> data[j] != 10u8,
    ensures
        entry_text(user, data) == user + seq![32u8] + data,
{
    crate::bytes::lemma_find_byte_props(data, 10u8, 0);
    assert(data.take(data.len() as int) =~= data);
}

/// Reading the options depends only on the arguments still to be read.
proof fn lemma_cli_from_rest(
    a: Seq<Seq<u8>>,
    i: int,
    b: Seq<Seq<u8>>,
    j: int,
    reverse: bool,
    max_scores: usize,
    user_prefix: Option<Seq<u8>>,
)
    requires
        0 <= i <= a.len(),
        0 <= j <= b.len(),
        a.skip(i) == b.skip(j),
    ensures
        cli_from(a, i, reverse, max_scores, user_prefix) == cli_from(
            b,
            j,
            reverse,
            max_scores,
            user_prefix,
        ),
    decreases a.len() - i,
{
    assert(a.len() - i == b.len() - j) by {
        assert(a.skip(i).len() == b.skip(j).len());
    }
    if i < a.len() {
        assert(a[i] == a.skip(i)[0] && b[j] == b.skip(j)[0]);
        if i + 1 < a.len() {
            assert(a[i + 1] == a.skip(i)[1] && b[j + 1] == b.skip(j)[1]);
        }
        if i + 2 < a.len() {
            assert(a[i + 2] == a.skip(i)[2] && b[j + 2] == b.skip(j)[2]);
        }
        assert(a.skip(i + 1) =~= a.skip(i).skip(1));
        assert(b.skip(j + 1) =~= b.skip(j).skip(1));
        lemma_cli_from_rest(a, i + 1, b, j + 1, true, max_scores, user_prefix);
        lemma_cli_from_rest(a, i + 1, b, j + 1, reverse, max_scores, user_prefix);
        if i + 2 <= a.len() {
            assert(a.skip(i + 2) =~= a.skip(i).skip(2));
            assert(b.skip(j + 2) =~= b.skip(j).skip(2));
            lemma_cli_from_rest(a, i + 2, b, j + 2, reverse, max_scores, Some(a[i + 1]));
            match parsed_i128(a[i + 1]) {
                Some(v) => {
                    if v >= 0 {
                        lemma_cli_from_rest(a, i + 2, b, j + 2, reverse, max_from(v), user_prefix);
                    }
                },
                None => {},
            }
        }
    }
}

/// The options may come in any order: `-d DIR` then `-m MAX` reads the same
/// as `-m MAX` then `-d DIR`, whatever follows.
pub proof fn lemma_cli_dir_max_commute(
    prog: Seq<u8>,
    dir: Seq<u8>,
    max: Seq<u8>,
    rest: Seq<Seq<u8>>,
)
    ensures
        cli_result(seq![prog, lit_dir(), dir, lit_max(), max] + rest) == cli_result(
            seq![prog, lit_max(), max, lit_dir(), dir] + rest,
        ),
{
    let a = seq![prog, lit_dir(), dir, lit_max(), max] + rest;
    let b = seq![prog, lit_max(), max, lit_dir(), dir] + rest;
    assert(a[1] == lit_dir() && a[2] == dir && a[3] == lit_max() && a[4] == max);
    assert(b[1] == lit_max() && b[2] == max && b[3] == lit_dir() && b[4] == dir);
    assert(lit_dir() != lit_help() && lit_dir() != lit_reverse() && lit_dir() != lit_max()) by {
        assert(lit_dir()[1] != lit_help()[1]);
        assert(lit_dir()[1] != lit_reverse()[1]);
        assert(lit_dir()[1] != lit_max()[1]);
    }
    assert(lit_max() != lit_help() && lit_max() != lit_reverse()) by {
        assert(lit_max()[1] != lit_help()[1]);
        assert(lit_max()[1] != lit_reverse()[1]);
    }
    assert(is_option_arg(lit_dir()) && is_option_arg(lit_max()));
    assert(a.skip(5) =~= rest);
    assert(b.skip(5) =~= rest);
    let m = usize::MAX;
    assert(cli_result(a) == cli_from(a, 3, false, m, Some(dir)));
    match parsed_i128(max) {
        Some(v) => {
            if v >= 0 {
                assert(cli_from(a, 3, false, m, Some(dir)) == cli_from(
                    a,
                    5,
                    false,
                    max_from(v),
                    Some(dir),
                ));
                assert(cli_result(b) == cli_from(b, 3, false, max_from(v), None));
                assert(cli_from(b, 3, false, max_from(v), None) == cli_from(
                    b,
                    5,
                    false,
                    max_from(v),
                    Some(dir),
                ));
                lemma_cli_from_rest(a, 5, b, 5, false, max_from(v), Some(dir));
            } else {
                assert(cli_from(a, 3, false, m, Some(dir)) == Err::<CliView, CliErrorView>(
                    CliErrorView::NegativeMax,
                ));
            }
        },
        None => {
            assert(cli_from(a, 3, false, m, Some(dir)) == Err::<CliView, CliErrorView>(
                CliErrorView::UnparsableMax,
            ));
        },
    }
}

/// `-d DIR -m MAX` followed by the three operands gives those operands, the
/// directory, and the limit `MAX` (at most `isize::MAX`), in increasing order
/// only with `-r`.
pub proof fn lemma_cli_dir_then_max(
    prog: Seq<u8>,
    dir: Seq<u8>,
    max: Seq<u8>,
    v: int,
    file: Seq<u8>,
    score: Seq<u8>,
    data: Seq<u8>,
)
    requires
        parsed_i128(max) == Some(v),
        v >= 0,
        !is_option_arg(file),
    ensures
        cli_result(seq![prog, lit_dir(), dir, lit_max(), max, file, score, data]) == Ok::<
            CliView,
            CliErrorView,
        >(
            CliView {
                reverse: false,
                max_scores: if v > isize::MAX {
                    isize::MAX as usize
                } else {
                    v as usize
                },
                user_prefix: Some(dir),
                score_key: file,
                score_value: score,
                score_data: data,
            },
        ),
{
    let a = seq![prog, lit_dir(), dir, lit_max(), max, file, score, data];
    assert(a[1] == lit_dir() && a[3] == lit_max() && a[5] == file);
    assert(lit_dir() != lit_help() && lit_dir() != lit_reverse() && lit_dir() != lit_max()) by {
        assert(lit_dir()[1] != lit_help()[1]);
        assert(lit_dir()[1] != lit_reverse()[1]);
        assert(lit_dir()[1] != lit_max()[1]);
    }
    assert(lit_max() != lit_help() && lit_max() != lit_reverse()) by {
        assert(lit_max()[1] != lit_help()[1]);
        assert(lit_max()[1] != lit_reverse()[1]);
    }
    assert(cli_result(a) == cli_from(a, 3, false, usize::MAX, Some(dir)));
    assert(cli_from(a, 3, false, usize::MAX, Some(dir)) == cli_from(
        a,
        5,
        false,
        max_from(v),
        Some(dir),
    ));
}

} // verus!
