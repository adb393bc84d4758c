//! The command line's rules: what the arguments ask for, when a run's accounts
//! balance, and which exit code it earns.
//!
//! Exit codes reflect the state of the data, not which flags were passed: the
//! same disk yields the same code in dry-run and repair mode.

use vstd::prelude::*;
use vstd::slice::slice_subrange;

use crate::batch_recover::BatchStats;
use crate::fs::ScrubStats;
use crate::text;
use crate::text::IntError;

verus! {

pub const EXIT_SUCCESS: u8 = 0;

pub const EXIT_RUNTIME_ERROR: u8 = 1;

pub const EXIT_USAGE_ERROR: u8 = 2;

pub const EXIT_ISSUES_FOUND: u8 = 3;

pub const EXIT_RECOVERED: u8 = 4;

pub const EXIT_RECOVER_FAILED: u8 = 5;

pub const EXIT_METADATA_FATAL: u8 = 6;

// ---------------------------------------------------------------------------
// Numbers
// ---------------------------------------------------------------------------

/// Why an offset was not understood.
#[derive(Debug, Clone, Copy, PartialEq, Eq, Structural)]
pub enum OffsetError {
    Negative,
    Hex(IntError),
    Decimal(IntError),
    /// The offset in bytes does not fit.
    TooLarge,
}

/// A text without a leading `0x`.
pub open spec fn without_0x(s: Seq<char>) -> Seq<char> {
    if s.len() >= 2 && s.take(2) == "0x"@ { s.skip(2) } else { s }
}

/// The number in an offset: hexadecimal behind `0x`, else decimal.
pub open spec fn offset_number(s: Seq<char>) -> Result<nat, OffsetError> {
    if s.len() >= 2 && s.take(2) == "0x"@ {
        match text::parsed(s.skip(2), 16, u64::MAX as nat) {
            Ok(v) => Ok(v),
            Err(e) => Err(OffsetError::Hex(e)),
        }
    } else {
        match text::parsed(s, 10, u64::MAX as nat) {
            Ok(v) => Ok(v),
            Err(e) => Err(OffsetError::Decimal(e)),
        }
    }
}

/// An offset in bytes. A leading `+` means that the value counts 512-byte
/// sectors; bare or 0x-prefixed values are bytes.
pub open spec fn offset_of(s: Seq<char>) -> Result<nat, OffsetError> {
    let t = text::trimmed(s);
    if t.len() > 0 && t[0] == '-' {
        Err(OffsetError::Negative)
    } else if t.len() > 0 && t[0] == '+' {
        match offset_number(t.skip(1)) {
            Ok(v) => if v * 512 <= u64::MAX {
                Ok(v * 512)
            } else {
                Err(OffsetError::TooLarge)
            },
            Err(e) => Err(e),
        }
    } else {
        offset_number(t)
    }
}

/// Reads the number in an offset.
fn number(s: &[char]) -> (r: Result<u64, OffsetError>)
    ensures
        match r {
            Ok(v) => offset_number(s@) == Ok::<nat, OffsetError>(v as nat),
            Err(e) => offset_number(s@) == Err::<nat, OffsetError>(e),
        },
{
    proof {
        reveal_strlit("0x");
    }
    if text::starts_with(s, "0x") {
        let h = slice_subrange(s, 2, s.len());
        assert(h@ =~= s@.skip(2));
        match text::parse_uint(h, 16, u64::MAX) {
            Ok(v) => Ok(v),
            Err(e) => Err(OffsetError::Hex(e)),
        }
    } else {
        match text::parse_uint(s, 10, u64::MAX) {
            Ok(v) => Ok(v),
            Err(e) => Err(OffsetError::Decimal(e)),
        }
    }
}

/// Parses a byte offset.
pub fn parse_offset(s: &str) -> (r: Result<u64, OffsetError>)
    ensures
        match r {
            Ok(v) => offset_of(s@) == Ok::<nat, OffsetError>(v as nat),
            Err(e) => offset_of(s@) == Err::<nat, OffsetError>(e),
        },
{
    let chars = text::chars_of(s);
    let t = text::trim(chars.as_slice());
    if t.len() > 0 && t[0] == '-' {
        return Err(OffsetError::Negative);
    }
    if t.len() > 0 && t[0] == '+' {
        let rest = slice_subrange(t, 1, t.len());
        assert(rest@ =~= t@.skip(1));
        match number(rest) {
            Ok(v) => match v.checked_mul(512) {
                Some(b) => Ok(b),
                None => Err(OffsetError::TooLarge),
            },
            Err(e) => Err(e),
        }
    } else {
        number(t)
    }
}

/// What a number's parser says of it.
pub fn int_error_text(e: IntError) -> (r: String)
    ensures
        r@ == int_error(e),
{
    match e {
        IntError::Empty => String::from_str("cannot parse integer from empty string"),
        IntError::InvalidDigit => String::from_str("invalid digit found in string"),
        IntError::TooLarge => String::from_str("number too large to fit in target type"),
    }
}

/// The text of an [`IntError`].
pub open spec fn int_error(e: IntError) -> Seq<char> {
    match e {
        IntError::Empty => "cannot parse integer from empty string"@,
        IntError::InvalidDigit => "invalid digit found in string"@,
        IntError::TooLarge => "number too large to fit in target type"@,
    }
}

/// The text of an [`OffsetError`] of the offset `given`.
pub open spec fn offset_error(e: OffsetError, given: Seq<char>) -> Seq<char> {
    match e {
        OffsetError::Negative => "negative byte offsets are not allowed: "@ + text::debug_of(
            text::trimmed(given),
        ),
        OffsetError::Hex(e) => "invalid hex: "@ + int_error(e),
        OffsetError::Decimal(e) => "invalid decimal: "@ + int_error(e),
        OffsetError::TooLarge => "the offset does not fit"@,
    }
}

impl OffsetError {
    /// The error in words, for the offset `given`.
    pub fn message(&self, given: &str) -> (r: String)
        ensures
            r@ == offset_error(*self, given@),
    {
        match *self {
            OffsetError::Negative => {
                let chars = text::chars_of(given);
                let t = text::string_of(text::trim(chars.as_slice()));
                let mut s = String::from_str("negative byte offsets are not allowed: ");
                let q = text::quoted(t.as_str());
                s.append(q.as_str());
                s
            },
            OffsetError::Hex(e) => {
                let mut s = String::from_str("invalid hex: ");
                let t = int_error_text(e);
                s.append(t.as_str());
                s
            },
            OffsetError::Decimal(e) => {
                let mut s = String::from_str("invalid decimal: ");
                let t = int_error_text(e);
                s.append(t.as_str());
                s
            },
            OffsetError::TooLarge => String::from_str("the offset does not fit"),
        }
    }
}

/// Parses a hexadecimal address, with or without a leading `0x`.
pub fn parse_logical(s: &str) -> (r: Result<u64, IntError>)
    ensures
        match r {
            Ok(v) => text::parsed(without_0x(s@), 16, u64::MAX as nat) == Ok::<nat, IntError>(
                v as nat,
            ),
            Err(e) => text::parsed(without_0x(s@), 16, u64::MAX as nat) == Err::<nat, IntError>(e),
        },
{
    proof {
        reveal_strlit("0x");
    }
    let chars = text::chars_of(s);
    if text::starts_with(chars.as_slice(), "0x") {
        let h = slice_subrange(chars.as_slice(), 2, chars.len());
        assert(h@ =~= s@.skip(2));
        text::parse_uint(h, 16, u64::MAX)
    } else {
        text::parse_uint(chars.as_slice(), 16, u64::MAX)
    }
}

// ---------------------------------------------------------------------------
// Options
// ---------------------------------------------------------------------------

/// The options of a scrub run.
#[derive(Debug, Clone, Copy, PartialEq, Eq, Structural)]
pub enum Flag {
    StatusPort,
    Offset,
    Repair,
    BatchMax,
    BatchIdle,
    FreezeMax,
    FreezeMount,
    NoFreeze,
}

/// The flag that an argument is.
pub open spec fn flag_of(arg: Seq<char>) -> Option<Flag> {
    if arg == "--status-port"@ {
        Some(Flag::StatusPort)
    } else if arg == "--offset"@ {
        Some(Flag::Offset)
    } else if arg == "--repair"@ {
        Some(Flag::Repair)
    } else if arg == "--batch-max"@ {
        Some(Flag::BatchMax)
    } else if arg == "--batch-idle"@ {
        Some(Flag::BatchIdle)
    } else if arg == "--freeze-max"@ {
        Some(Flag::FreezeMax)
    } else if arg == "--freeze-mount"@ {
        Some(Flag::FreezeMount)
    } else if arg == "--no-freeze"@ {
        Some(Flag::NoFreeze)
    } else {
        None
    }
}

fn find_flag(arg: &str) -> (r: Option<Flag>)
    ensures
        r == flag_of(arg@),
{
    if text::same_text(arg, "--status-port") {
        Some(Flag::StatusPort)
    } else if text::same_text(arg, "--offset") {
        Some(Flag::Offset)
    } else if text::same_text(arg, "--repair") {
        Some(Flag::Repair)
    } else if text::same_text(arg, "--batch-max") {
        Some(Flag::BatchMax)
    } else if text::same_text(arg, "--batch-idle") {
        Some(Flag::BatchIdle)
    } else if text::same_text(arg, "--freeze-max") {
        Some(Flag::FreezeMax)
    } else if text::same_text(arg, "--freeze-mount") {
        Some(Flag::FreezeMount)
    } else if text::same_text(arg, "--no-freeze") {
        Some(Flag::NoFreeze)
    } else {
        None
    }
}

/// What a scrub run was asked to do. Numbers of seconds are kept as they were
/// written.
#[derive(Debug)]
pub struct Options {
    pub base_offset: u64,
    /// Assess only; `--repair` enables writes.
    pub dry_run: bool,
    pub freeze_enabled: bool,
    pub freeze_mount: Option<String>,
    pub batch_max: usize,
    pub batch_idle: Option<String>,
    pub freeze_max: Option<String>,
    pub status_port: u16,
}

/// [`Options`] as values of the model.
pub ghost struct Settings {
    pub base_offset: nat,
    pub dry_run: bool,
    pub freeze_enabled: bool,
    pub freeze_mount: Option<Seq<char>>,
    pub batch_max: nat,
    pub batch_idle: Option<Seq<char>>,
    pub freeze_max: Option<Seq<char>>,
    pub status_port: nat,
}

impl Options {
    pub open spec fn settings(&self) -> Settings {
        Settings {
            base_offset: self.base_offset as nat,
            dry_run: self.dry_run,
            freeze_enabled: self.freeze_enabled,
            freeze_mount: text::opt_view(self.freeze_mount),
            batch_max: self.batch_max as nat,
            batch_idle: text::opt_view(self.batch_idle),
            freeze_max: text::opt_view(self.freeze_max),
            status_port: self.status_port as nat,
        }
    }
}

impl Settings {
    /// Where nothing is said: assess only, freeze declared mounts, batches of
    /// 64, no status server.
    pub open spec fn initial() -> Settings {
        Settings {
            base_offset: 0,
            dry_run: true,
            freeze_enabled: true,
            freeze_mount: None,
            batch_max: 64,
            batch_idle: None,
            freeze_max: None,
            status_port: 0,
        }
    }
}

impl Default for Options {
    fn default() -> (r: Self)
        ensures
            r.settings() == Settings::initial(),
    {
        Options {
            base_offset: 0,
            dry_run: true,
            freeze_enabled: true,
            freeze_mount: None,
            batch_max: 64,
            batch_idle: None,
            freeze_max: None,
            status_port: 0,
        }
    }
}

/// Why the arguments were refused.
#[derive(Debug)]
pub enum UsageError {
    Unknown(String),
    MissingValue(Flag),
    /// Not a port number (0-65535).
    BadPort,
    BadOffset { value: String, error: OffsetError },
    /// Not a positive integer.
    BadBatchMax,
    /// Not a number of seconds that the option takes.
    BadSeconds(Flag),
}

/// What a flag without a value sets.
pub open spec fn switched(s: Settings, f: Flag) -> Settings {
    match f {
        Flag::Repair => Settings { dry_run: false, ..s },
        Flag::NoFreeze => Settings { freeze_enabled: false, ..s },
        _ => s,
    }
}

/// `r` is what the arguments from the `i`-th on come to, starting with `s`.
/// `valid` says whether a text is a number of seconds that an option takes.
pub open spec fn parses<F: Fn(Flag, &String) -> bool>(
    valid: F,
    args: Seq<String>,
    i: int,
    s: Settings,
    r: Result<Options, UsageError>,
) -> bool
    decreases args.len() - i,
{
    if i >= args.len() {
        r matches Ok(o) && o.settings() == s
    } else {
        let arg = args[i];
        match flag_of(arg@) {
            None => r matches Err(UsageError::Unknown(t)) && t@ == arg@,
            Some(Flag::Repair) => parses(valid, args, i + 1, switched(s, Flag::Repair), r),
            Some(Flag::NoFreeze) => parses(valid, args, i + 1, switched(s, Flag::NoFreeze), r),
            Some(f) => if i + 1 >= args.len() {
                r == Err::<Options, UsageError>(UsageError::MissingValue(f))
            } else {
                let value = args[i + 1];
                match f {
                    Flag::StatusPort => match text::parsed(value@, 10, u16::MAX as nat) {
                        Ok(p) => parses(
                            valid,
                            args,
                            i + 2,
                            Settings { status_port: p, ..s },
                            r,
                        ),
                        Err(_) => r == Err::<Options, UsageError>(UsageError::BadPort),
                    },
                    Flag::Offset => match offset_of(value@) {
                        Ok(b) => parses(
                            valid,
                            args,
                            i + 2,
                            Settings { base_offset: b, ..s },
                            r,
                        ),
                        Err(e) => r matches Err(UsageError::BadOffset { value: v, error })
                            && v@ == value@ && error == e,
                    },
                    Flag::BatchMax => match text::parsed(value@, 10, usize::MAX as nat) {
                        Ok(n) => if n > 0 {
                            parses(valid, args, i + 2, Settings { batch_max: n, ..s }, r)
                        } else {
                            r == Err::<Options, UsageError>(UsageError::BadBatchMax)
                        },
                        Err(_) => r == Err::<Options, UsageError>(UsageError::BadBatchMax),
                    },
                    Flag::FreezeMount => parses(
                        valid,
                        args,
                        i + 2,
                        Settings { freeze_mount: Some(value@), ..s },
                        r,
                    ),
                    Flag::BatchIdle => {
                        ||| {
                            &&& call_ensures(valid, (f, &value), true)
                            &&& parses(
                                valid,
                                args,
                                i + 2,
                                Settings { batch_idle: Some(value@), ..s },
                                r,
                            )
                        }
                        ||| {
                            &&& call_ensures(valid, (f, &value), false)
                            &&& r == Err::<Options, UsageError>(UsageError::BadSeconds(f))
                        }
                    },
                    _ => {
                        ||| {
                            &&& call_ensures(valid, (f, &value), true)
                            &&& parses(
                                valid,
                                args,
                                i + 2,
                                Settings { freeze_max: Some(value@), ..s },
                                r,
                            )
                        }
                        ||| {
                            &&& call_ensures(valid, (f, &value), false)
                            &&& r == Err::<Options, UsageError>(UsageError::BadSeconds(f))
                        }
                    },
                }
            },
        }
    }
}

/// Reads the options of a scrub run.
pub fn parse_options<F: Fn(Flag, &String) -> bool>(args: &Vec<String>, valid: &F) -> (r: Result<
    Options,
    UsageError,
>)
    requires
        forall|f: Flag, v: &String| #[trigger] call_requires(*valid, (f, v)),
    ensures
        parses(*valid, args@, 0, Settings::initial(), r),
{
    let mut o = Options::default();
    let n: usize = args.len();
    let mut i: usize = 0;
    // Whatever the rest comes to is what the whole comes to.
    let ghost start = Settings::initial();
    while i < n
        invariant
            i <= n,
            n == args@.len(),
            start == Settings::initial(),
            forall|f: Flag, v: &String| #[trigger] call_requires(*valid, (f, v)),
            forall|q: Result<Options, UsageError>| #[trigger]
                parses(*valid, args@, i as int, o.settings(), q) ==> parses(
                    *valid,
                    args@,
                    0,
                    start,
                    q,
                ),
        decreases n - i,
    {
        let ghost here = o.settings();
        let ghost at = i as int;
        let flag = match find_flag(args[i].as_str()) {
            Some(f) => f,
            None => {
                let e: Result<Options, UsageError> = Err(UsageError::Unknown(args[i].clone()));
                assert(parses(*valid, args@, at, here, e));
                return e;
            },
        };
        match flag {
            Flag::Repair => {
                o.dry_run = false;
                i = i + 1;
            },
            Flag::NoFreeze => {
                o.freeze_enabled = false;
                i = i + 1;
            },
            _ => {
                if n - i < 2 {
                    let e: Result<Options, UsageError> = Err(UsageError::MissingValue(flag));
                    assert(parses(*valid, args@, at, here, e));
                    return e;
                }
                let value = &args[i + 1];
                let chars = text::chars_of(value.as_str());
                match flag {
                    Flag::StatusPort => match text::parse_uint(
                        chars.as_slice(),
                        10,
                        u16::MAX as u64,
                    ) {
                        Ok(p) => {
                            o.status_port = p as u16;
                        },
                        Err(_) => {
                            let e: Result<Options, UsageError> = Err(UsageError::BadPort);
                            assert(parses(*valid, args@, at, here, e));
                            return e;
                        },
                    },
                    Flag::Offset => match parse_offset(value.as_str()) {
                        Ok(b) => {
                            o.base_offset = b;
                        },
                        Err(error) => {
                            let e: Result<Options, UsageError> = Err(
                                UsageError::BadOffset { value: value.clone(), error },
                            );
                            assert(parses(*valid, args@, at, here, e));
                            return e;
                        },
                    },
                    Flag::BatchMax => match text::parse_uint(
                        chars.as_slice(),
                        10,
                        usize::MAX as u64,
                    ) {
                        Ok(m) => {
                            if m == 0 {
                                let e: Result<Options, UsageError> = Err(UsageError::BadBatchMax);
                                assert(parses(*valid, args@, at, here, e));
                                return e;
                            }
                            o.batch_max = m as usize;
                        },
                        Err(_) => {
                            let e: Result<Options, UsageError> = Err(UsageError::BadBatchMax);
                            assert(parses(*valid, args@, at, here, e));
                            return e;
                        },
                    },
                    Flag::FreezeMount => {
                        o.freeze_mount = Some(value.clone());
                    },
                    _ => {
                        if !valid(flag, value) {
                            let e: Result<Options, UsageError> = Err(UsageError::BadSeconds(flag));
                            assert(parses(*valid, args@, at, here, e));
                            return e;
                        }
                        match flag {
                            Flag::BatchIdle => {
                                o.batch_idle = Some(value.clone());
                            },
                            _ => {
                                o.freeze_max = Some(value.clone());
                            },
                        }
                    },
                }
                i = i + 2;
            },
        }
        proof {
            assert forall|q: Result<Options, UsageError>| #[trigger]
                parses(*valid, args@, i as int, o.settings(), q) implies parses(
                *valid,
                args@,
                0,
                start,
                q,
            ) by {
                assert(parses(*valid, args@, at, here, q));
            }
        }
    }
    let done: Result<Options, UsageError> = Ok(o);
    assert(parses(*valid, args@, i as int, o.settings(), done));
    done
}

/// The flag as it is written.
pub open spec fn flag_text(f: Flag) -> Seq<char> {
    match f {
        Flag::StatusPort => "--status-port"@,
        Flag::Offset => "--offset"@,
        Flag::Repair => "--repair"@,
        Flag::BatchMax => "--batch-max"@,
        Flag::BatchIdle => "--batch-idle"@,
        Flag::FreezeMax => "--freeze-max"@,
        Flag::FreezeMount => "--freeze-mount"@,
        Flag::NoFreeze => "--no-freeze"@,
    }
}

fn flag_name(f: Flag) -> (r: &'static str)
    ensures
        r@ == flag_text(f),
{
    match f {
        Flag::StatusPort => "--status-port",
        Flag::Offset => "--offset",
        Flag::Repair => "--repair",
        Flag::BatchMax => "--batch-max",
        Flag::BatchIdle => "--batch-idle",
        Flag::FreezeMax => "--freeze-max",
        Flag::FreezeMount => "--freeze-mount",
        Flag::NoFreeze => "--no-freeze",
    }
}

/// The error in words.
pub open spec fn usage_text(e: UsageError) -> Seq<char> {
    match e {
        UsageError::Unknown(arg) => "unknown argument: "@ + arg@,
        UsageError::MissingValue(f) => if f is FreezeMount {
            "error: "@ + flag_text(f) + " requires a path"@
        } else {
            "error: "@ + flag_text(f) + " requires a value"@
        },
        UsageError::BadPort => "error: --status-port must be a port number (0-65535)"@,
        UsageError::BadOffset { value, error } => "error parsing --offset "@ + text::debug_of(
            value@,
        ) + ": "@ + offset_error(error, value@),
        UsageError::BadBatchMax => "error: --batch-max must be a positive integer"@,
        UsageError::BadSeconds(f) => if f is BatchIdle {
            "error: --batch-idle must be a non-negative number of seconds"@
        } else {
            "error: --freeze-max must be a positive number of seconds"@
        },
    }
}

impl UsageError {
    /// The error in words.
    pub fn message(&self) -> (r: String)
        ensures
            r@ == usage_text(*self),
    {
        match self {
            UsageError::Unknown(arg) => {
                let mut s = String::from_str("unknown argument: ");
                s.append(arg.as_str());
                s
            },
            UsageError::MissingValue(f) => {
                let mut s = String::from_str("error: ");
                s.append(flag_name(*f));
                match f {
                    Flag::FreezeMount => {
                        s.append(" requires a path");
                    },
                    _ => {
                        s.append(" requires a value");
                    },
                }
                s
            },
            UsageError::BadPort => String::from_str(
                "error: --status-port must be a port number (0-65535)",
            ),
            UsageError::BadOffset { value, error } => {
                let mut s = String::from_str("error parsing --offset ");
                let q = text::quoted(value.as_str());
                s.append(q.as_str());
                s.append(": ");
                let t = error.message(value.as_str());
                s.append(t.as_str());
                s
            },
            UsageError::BadBatchMax => String::from_str(
                "error: --batch-max must be a positive integer",
            ),
            UsageError::BadSeconds(f) => match f {
                Flag::BatchIdle => String::from_str(
                    "error: --batch-idle must be a non-negative number of seconds",
                ),
                _ => String::from_str("error: --freeze-max must be a positive number of seconds"),
            },
        }
    }
}

/// The mountpoint to freeze: freezing only matters for live repair writes.
pub fn freeze_target(o: &Options) -> (r: Option<String>)
    ensures
        text::opt_view(r) == (if !o.dry_run && o.freeze_enabled {
            text::opt_view(o.freeze_mount)
        } else {
            None
        }),
{
    if !o.dry_run && o.freeze_enabled {
        match &o.freeze_mount {
            Some(m) => Some(m.clone()),
            None => None,
        }
    } else {
        None
    }
}

// ---------------------------------------------------------------------------
// Commands
// ---------------------------------------------------------------------------

/// What the program was called for.
#[derive(Debug)]
pub enum Command {
    Help,
    DumpArray,
    /// Map a logical address of the filesystem on `device` to a disk.
    Resolve { device: String, logical: u64 },
    /// `--resolve` without its two values.
    ResolveUsage,
    /// The address given to `--resolve` is none.
    BadLogical { value: String, error: IntError },
    /// Scrub `device`; the options are still to be read.
    Scrub { device: String },
}

/// The argument asks for help.
pub open spec fn asks_help(arg: Seq<char>) -> bool {
    arg == "--help"@ || arg == "-h"@
}

/// `c` is what the arguments ask for.
pub open spec fn commands(args: Seq<String>, c: Command) -> bool {
    if args.len() == 0 || asks_help(args[0]@) {
        c is Help
    } else if args[0]@ == "--dump-array"@ {
        c is DumpArray
    } else if args[0]@ == "--resolve"@ {
        if args.len() < 3 {
            c is ResolveUsage
        } else {
            match text::parsed(without_0x(args[2]@), 16, u64::MAX as nat) {
                Ok(v) => c matches Command::Resolve { device, logical } && device@ == args[1]@
                    && logical == v,
                Err(e) => c matches Command::BadLogical { value, error } && value@ == args[2]@
                    && error == e,
            }
        }
    } else if args.len() > 1 && asks_help(args[1]@) {
        c is Help
    } else {
        c matches Command::Scrub { device } && device@ == args[0]@
    }
}

fn is_help(arg: &str) -> (r: bool)
    ensures
        r == asks_help(arg@),
{
    text::same_text(arg, "--help") || text::same_text(arg, "-h")
}

/// Tells what the program was called for.
pub fn command(args: &Vec<String>) -> (r: Command)
    ensures
        commands(args@, r),
{
    if args.len() == 0 {
        return Command::Help;
    }
    if is_help(args[0].as_str()) {
        return Command::Help;
    }
    if text::same_text(args[0].as_str(), "--dump-array") {
        return Command::DumpArray;
    }
    if text::same_text(args[0].as_str(), "--resolve") {
        if args.len() < 3 {
            return Command::ResolveUsage;
        }
        return match parse_logical(args[2].as_str()) {
            Ok(logical) => Command::Resolve { device: args[1].clone(), logical },
            Err(error) => Command::BadLogical { value: args[2].clone(), error },
        };
    }
    if args.len() > 1 {
        if is_help(args[1].as_str()) {
            return Command::Help;
        }
    }
    Command::Scrub { device: args[0].clone() }
}

// ---------------------------------------------------------------------------
// Accounts and exit code
// ---------------------------------------------------------------------------

/// Why a run's accounts do not balance.
#[derive(Debug, Clone, Copy, PartialEq, Eq, Structural)]
pub enum Imbalance {
    /// Candidates were handed to the pipeline that were never classified.
    Unclassified { sent: u64, classified: u128 },
    /// The outcome buckets do not add up to the mismatches.
    Buckets { mismatch: u64, buckets: u128 },
}

/// Every candidate handed to the pipeline must be classified into exactly one
/// bucket; a shortfall means that a part of it died mid-run.
pub fn reconcile(stats: &BatchStats, sent: u64) -> (r: Result<(), Imbalance>)
    ensures
        match r {
            Ok(_) => stats.total() == sent && stats.wf(),
            Err(Imbalance::Unclassified { sent: n, classified }) => {
                &&& n == sent
                &&& classified == stats.total()
                &&& stats.total() != sent
            },
            Err(Imbalance::Buckets { mismatch, buckets }) => {
                &&& stats.total() == sent
                &&& mismatch == stats.mismatch
                &&& buckets == stats.recovered + stats.failed + stats.not_frozen
                    + stats.readback_failed + stats.not_corrupt
                &&& !stats.wf()
            },
        },
{
    let classified: u128 = stats.mismatch as u128 + stats.stale as u128 + stats.skipped as u128
        + stats.deduped as u128;
    if classified != sent as u128 {
        return Err(Imbalance::Unclassified { sent, classified });
    }
    let buckets: u128 = stats.recovered as u128 + stats.failed as u128 + stats.not_corrupt as u128
        + stats.not_frozen as u128 + stats.readback_failed as u128;
    if buckets != stats.mismatch as u128 {
        return Err(Imbalance::Buckets { mismatch: stats.mismatch, buckets });
    }
    Ok(())
}

/// Any real issue, or a gap in what was verified.
pub open spec fn issues_found(stats: ScrubStats, batch: BatchStats) -> bool {
    ||| stats.sectors_mismatch > 0
    ||| batch.mismatch > 0
    ||| stats.sectors_read_error > 0
    ||| stats.metadata_header_errors > 0
    ||| stats.metadata_read_errors > 0
    ||| stats.stale_csum_branches > 0
    ||| batch.skipped > 0
}

/// The only issue is a gap: some checksums went stale before they were used.
pub open spec fn only_gap(stats: ScrubStats, batch: BatchStats) -> bool {
    &&& stats.stale_csum_branches > 0
    &&& stats.sectors_mismatch == 0
    &&& stats.sectors_read_error == 0
    &&& stats.metadata_read_errors == 0
    &&& batch.mismatch == 0
    &&& batch.skipped == 0
}

/// Nothing stands in the way of calling the disk recovered.
pub open spec fn all_recovered(stats: ScrubStats, batch: BatchStats) -> bool {
    &&& stats.metadata_read_errors == 0
    &&& batch.failed == 0
    &&& batch.skipped == 0
    &&& batch.not_frozen == 0
    &&& batch.readback_failed == 0
    &&& batch.not_corrupt == 0
    &&& stats.stale_csum_branches == 0
}

/// The exit code of a completed run.
pub open spec fn exit_code_of(stats: ScrubStats, batch: BatchStats, had_writer: bool) -> u8 {
    if stats.metadata_header_errors > 0 {
        EXIT_METADATA_FATAL
    } else if !issues_found(stats, batch) {
        EXIT_SUCCESS
    } else if only_gap(stats, batch) {
        EXIT_ISSUES_FOUND
    } else if had_writer && all_recovered(stats, batch) {
        EXIT_RECOVERED
    } else if had_writer {
        EXIT_RECOVER_FAILED
    } else {
        EXIT_ISSUES_FOUND
    }
}

/// Tells a completed run's exit code: metadata fatal, clean, recovered, recovery
/// failed, issues found.
pub fn exit_code(stats: &ScrubStats, batch: &BatchStats, had_writer: bool) -> (r: u8)
    ensures
        r == exit_code_of(*stats, *batch, had_writer),
        r == 0 <==> stats.sectors_mismatch == 0 && batch.mismatch == 0
            && stats.sectors_read_error == 0 && stats.metadata_header_errors == 0
            && stats.metadata_read_errors == 0 && stats.stale_csum_branches == 0
            && batch.skipped == 0,
{
    let found = stats.sectors_mismatch > 0 || batch.mismatch > 0 || stats.sectors_read_error > 0
        || stats.metadata_header_errors > 0 || stats.metadata_read_errors > 0
        || stats.stale_csum_branches > 0 || batch.skipped > 0;
    if stats.metadata_header_errors > 0 {
        EXIT_METADATA_FATAL
    } else if !found {
        EXIT_SUCCESS
    } else if stats.stale_csum_branches > 0 && stats.sectors_mismatch == 0
        && stats.sectors_read_error == 0 && stats.metadata_read_errors == 0 && batch.mismatch == 0
        && batch.skipped == 0 {
        EXIT_ISSUES_FOUND
    } else if had_writer && stats.metadata_read_errors == 0 && batch.failed == 0 && batch.skipped
        == 0 && batch.not_frozen == 0 && batch.readback_failed == 0 && batch.not_corrupt == 0
        && stats.stale_csum_branches == 0 {
        EXIT_RECOVERED
    } else if had_writer {
        EXIT_RECOVER_FAILED
    } else {
        EXIT_ISSUES_FOUND
    }
}

/// Exit 0 means a clean disk, verified without a gap, and a clean disk earns it.
pub proof fn law_success_means_clean(stats: ScrubStats, batch: BatchStats, had_writer: bool)
    ensures
        exit_code_of(stats, batch, had_writer) == EXIT_SUCCESS <==> {
            &&& stats.sectors_mismatch == 0
            &&& batch.mismatch == 0
            &&& stats.sectors_read_error == 0
            &&& stats.metadata_header_errors == 0
            &&& stats.metadata_read_errors == 0
            &&& stats.stale_csum_branches == 0
            &&& batch.skipped == 0
        },
{
}

/// Code 4 is refused while a candidate was skipped, not written for want of a
/// freeze, not verified after the write, or not recovered at all; each candidate
/// that entered recovery was then recovered.
pub proof fn law_recovered_code_is_earned(stats: ScrubStats, batch: BatchStats, had_writer: bool)
    requires
        batch.wf(),
        exit_code_of(stats, batch, had_writer) == EXIT_RECOVERED,
    ensures
        had_writer,
        batch.skipped == 0,
        batch.not_frozen == 0,
        batch.readback_failed == 0,
        batch.failed == 0,
        batch.recovered == batch.mismatch,
        stats.stale_csum_branches == 0,
        stats.metadata_header_errors == 0,
        stats.metadata_read_errors == 0,
{
}

/// A metadata node without a good copy outranks everything else.
pub proof fn law_metadata_loss_is_fatal(stats: ScrubStats, batch: BatchStats, had_writer: bool)
    requires
        stats.metadata_header_errors > 0,
    ensures
        exit_code_of(stats, batch, had_writer) == EXIT_METADATA_FATAL,
{
}

} // verus!
