//! Arguments: what an offset, an option and a command say.

use vstd::prelude::*;

use crate::cli;
use crate::cli::{Command, Flag, OffsetError, Options, Settings, UsageError};
use crate::laws::checksums;
use crate::laws::text as number_text;
use crate::text;
use crate::text::IntError;

verus! {

/// The text is the number, in digits of the base.
pub open spec fn digits_of(t: Seq<char>, radix: nat, v: int) -> bool {
    &&& number_text::all_digits(number_text::unsigned(t), radix)
    &&& number_text::number(number_text::unsigned(t), radix) == v
}

/// What stands behind a plus sign, or alone: digits, or `0x` and hexadecimal
/// digits.
pub open spec fn is_count(t: Seq<char>, v: int) -> bool {
    ||| !(t.len() >= 2 && t[0] == '0' && t[1] == 'x') && digits_of(t, 10, v)
    ||| t.len() >= 2 && t[0] == '0' && t[1] == 'x' && digits_of(t.skip(2), 16, v)
}

proof fn lemma_0x(t: Seq<char>)
    ensures
        t.len() >= 2 && t.take(2) == "0x"@ <==> t.len() >= 2 && t[0] == '0' && t[1] == 'x',
{
    reveal_strlit("0x");
    if t.len() >= 2 {
        assert("0x"@ =~= seq!['0', 'x']);
        if t[0] == '0' && t[1] == 'x' {
            assert(t.take(2) =~= seq!['0', 'x']);
        }
        if t.take(2) == "0x"@ {
            assert(t.take(2)[0] == t[0] && t.take(2)[1] == t[1]);
        }
    }
}

proof fn lemma_count(t: Seq<char>, v: u64)
    requires
        is_count(t, v as int),
    ensures
        cli::offset_number(t) == Ok::<nat, OffsetError>(v as nat),
{
    lemma_0x(t);
    number_text::law_text_is_read_as_its_number(t, 10, u64::MAX as nat);
    if t.len() >= 2 {
        number_text::law_text_is_read_as_its_number(t.skip(2), 16, u64::MAX as nat);
    }
}

/// An offset is its number of bytes; behind a plus sign it counts sectors of 512
/// bytes; behind a minus sign it is refused. White space around it does not
/// count.
pub proof fn law_offset_is_its_number(
    s: Seq<char>,
    front: Seq<char>,
    core: Seq<char>,
    back: Seq<char>,
    v: u64,
)
    requires
        checksums::padded(s, front, core, back),
    ensures
        core[0] != '-' && core[0] != '+' && is_count(core, v as int) ==> cli::offset_of(s) == Ok::<
            nat,
            OffsetError,
        >(v as nat),
        core[0] == '+' && is_count(core.skip(1), v as int) && v * 512 <= u64::MAX
            ==> cli::offset_of(s) == Ok::<nat, OffsetError>((512 * v) as nat),
        core[0] == '+' && is_count(core.skip(1), v as int) && v * 512 > u64::MAX
            ==> cli::offset_of(s) == Err::<nat, OffsetError>(OffsetError::TooLarge),
        core[0] == '-' ==> cli::offset_of(s) == Err::<nat, OffsetError>(OffsetError::Negative),
{
    number_text::law_trimming_takes_white_space_off(front, core, back);
    if is_count(core, v as int) {
        lemma_count(core, v);
    }
    if is_count(core.skip(1), v as int) {
        lemma_count(core.skip(1), v);
    }
}

proof fn lemma_only_counts(t: Seq<char>)
    ensures
        cli::offset_number(t) matches Ok(n) ==> is_count(t, n as int) && n <= u64::MAX,
{
    lemma_0x(t);
    number_text::law_text_is_read_as_its_number(t, 10, u64::MAX as nat);
    if t.len() >= 2 {
        number_text::law_text_is_read_as_its_number(t.skip(2), 16, u64::MAX as nat);
    }
}

/// What is accepted as an offset is a number of bytes, or a plus sign and a number
/// of sectors; everything else is refused.
pub proof fn law_only_numbers_are_offsets(
    s: Seq<char>,
    front: Seq<char>,
    core: Seq<char>,
    back: Seq<char>,
    n: nat,
)
    requires
        checksums::padded(s, front, core, back),
        cli::offset_of(s) == Ok::<nat, OffsetError>(n),
    ensures
        core[0] != '-',
        core[0] == '+' ==> n % 512 == 0 && is_count(core.skip(1), (n / 512) as int),
        core[0] != '+' ==> is_count(core, n as int),
        n <= u64::MAX,
{
    number_text::law_trimming_takes_white_space_off(front, core, back);
    lemma_only_counts(core);
    lemma_only_counts(core.skip(1));
}

/// An address is its hexadecimal number, with `0x` before it or without.
pub proof fn law_address_is_its_hexadecimal_number(t: Seq<char>, v: u64)
    ensures
        t.len() >= 2 && t[0] == '0' && t[1] == 'x' && digits_of(t.skip(2), 16, v as int)
            ==> text::parsed(cli::without_0x(t), 16, u64::MAX as nat) == Ok::<nat, IntError>(
            v as nat,
        ),
        !(t.len() >= 2 && t[0] == '0' && t[1] == 'x') && digits_of(t, 16, v as int)
            ==> text::parsed(cli::without_0x(t), 16, u64::MAX as nat) == Ok::<nat, IntError>(
            v as nat,
        ),
{
    lemma_0x(t);
    number_text::law_text_is_read_as_its_number(t, 16, u64::MAX as nat);
    if t.len() >= 2 {
        number_text::law_text_is_read_as_its_number(t.skip(2), 16, u64::MAX as nat);
    }
}

// ---------------------------------------------------------------------------
// Options
// ---------------------------------------------------------------------------

proof fn lemma_flags_differ()
    ensures
        cli::flag_of("--status-port"@) == Some(Flag::StatusPort),
        cli::flag_of("--offset"@) == Some(Flag::Offset),
        cli::flag_of("--repair"@) == Some(Flag::Repair),
        cli::flag_of("--batch-max"@) == Some(Flag::BatchMax),
        cli::flag_of("--batch-idle"@) == Some(Flag::BatchIdle),
        cli::flag_of("--freeze-max"@) == Some(Flag::FreezeMax),
        cli::flag_of("--freeze-mount"@) == Some(Flag::FreezeMount),
        cli::flag_of("--no-freeze"@) == Some(Flag::NoFreeze),
{
    reveal_strlit("--status-port");
    reveal_strlit("--offset");
    reveal_strlit("--repair");
    reveal_strlit("--batch-max");
    reveal_strlit("--batch-idle");
    reveal_strlit("--freeze-max");
    reveal_strlit("--freeze-mount");
    reveal_strlit("--no-freeze");
    assert("--status-port"@[2] == 's');
    assert("--offset"@[2] == 'o');
    assert("--repair"@[2] == 'r');
    assert("--batch-max"@[2] == 'b' && "--batch-max"@[8] == 'm');
    assert("--batch-idle"@[2] == 'b' && "--batch-idle"@[8] == 'i');
    assert("--freeze-max"@[2] == 'f' && "--freeze-max"@.len() == 12);
    assert("--freeze-mount"@[2] == 'f' && "--freeze-mount"@.len() == 14);
    assert("--no-freeze"@[2] == 'n');
}

/// Where nothing is said nothing is written, the filesystem is frozen, the
/// filesystem starts with the device, batches hold 64, and no status is served.
pub proof fn law_options_start_safe<F: Fn(Flag, &String) -> bool>(
    valid: F,
    r: Result<Options, UsageError>,
)
    requires
        cli::parses(valid, Seq::empty(), 0, Settings::initial(), r),
    ensures
        r matches Ok(o) && {
            &&& o.dry_run
            &&& o.freeze_enabled
            &&& o.base_offset == 0
            &&& o.batch_max == 64
            &&& o.status_port == 0
            &&& o.freeze_mount is None
            &&& o.batch_idle is None
            &&& o.freeze_max is None
        },
{
}

/// Each option sets what it names, to what its value says, and nothing else; what
/// follows is read as if it had been set before.
pub proof fn law_option_sets_what_it_names<F: Fn(Flag, &String) -> bool>(
    valid: F,
    args: Seq<String>,
    i: int,
    s: Settings,
    r: Result<Options, UsageError>,
    v: u64,
)
    requires
        0 <= i < args.len(),
        cli::parses(valid, args, i, s, r),
    ensures
        args[i]@ == "--repair"@ ==> cli::parses(
            valid,
            args,
            i + 1,
            Settings { dry_run: false, ..s },
            r,
        ),
        args[i]@ == "--no-freeze"@ ==> cli::parses(
            valid,
            args,
            i + 1,
            Settings { freeze_enabled: false, ..s },
            r,
        ),
        i + 1 < args.len() && args[i]@ == "--offset"@ && cli::offset_of(args[i + 1]@) == Ok::<
            nat,
            OffsetError,
        >(v as nat) ==> cli::parses(
            valid,
            args,
            i + 2,
            Settings { base_offset: v as nat, ..s },
            r,
        ),
        i + 1 < args.len() && args[i]@ == "--status-port"@ && digits_of(
            args[i + 1]@,
            10,
            v as int,
        ) && v <= 65535 ==> cli::parses(
            valid,
            args,
            i + 2,
            Settings { status_port: v as nat, ..s },
            r,
        ),
        i + 1 < args.len() && args[i]@ == "--status-port"@ && digits_of(
            args[i + 1]@,
            10,
            v as int,
        ) && v > 65535 ==> r matches Err(UsageError::BadPort),
        i + 1 < args.len() && args[i]@ == "--batch-max"@ && digits_of(args[i + 1]@, 10, v as int)
            && 0 < v <= usize::MAX ==> cli::parses(
            valid,
            args,
            i + 2,
            Settings { batch_max: v as nat, ..s },
            r,
        ),
        i + 1 < args.len() && args[i]@ == "--batch-max"@ && digits_of(args[i + 1]@, 10, 0)
            ==> r matches Err(UsageError::BadBatchMax),
        i + 1 < args.len() && args[i]@ == "--freeze-mount"@ ==> cli::parses(
            valid,
            args,
            i + 2,
            Settings { freeze_mount: Some(args[i + 1]@), ..s },
            r,
        ),
        i + 1 < args.len() && args[i]@ == "--batch-idle"@ && !call_ensures(
            valid,
            (Flag::BatchIdle, &args[i + 1]),
            false,
        ) ==> cli::parses(
            valid,
            args,
            i + 2,
            Settings { batch_idle: Some(args[i + 1]@), ..s },
            r,
        ),
        i + 1 < args.len() && args[i]@ == "--freeze-max"@ && !call_ensures(
            valid,
            (Flag::FreezeMax, &args[i + 1]),
            false,
        ) ==> cli::parses(
            valid,
            args,
            i + 2,
            Settings { freeze_max: Some(args[i + 1]@), ..s },
            r,
        ),
{
    lemma_flags_differ();
    if i + 1 < args.len() {
        number_text::law_text_is_read_as_its_number(args[i + 1]@, 10, 65535);
        number_text::law_text_is_read_as_its_number(args[i + 1]@, 10, usize::MAX as nat);
    }
}

/// An argument that is none of the options is refused by name, and an option that
/// takes a value is refused without one.
pub proof fn law_other_arguments_are_refused<F: Fn(Flag, &String) -> bool>(
    valid: F,
    args: Seq<String>,
    i: int,
    s: Settings,
    r: Result<Options, UsageError>,
)
    requires
        0 <= i < args.len(),
        cli::parses(valid, args, i, s, r),
    ensures
        args[i]@ != "--repair"@ && args[i]@ != "--no-freeze"@ && args[i]@ != "--offset"@
            && args[i]@ != "--status-port"@ && args[i]@ != "--batch-max"@ && args[i]@
            != "--batch-idle"@ && args[i]@ != "--freeze-max"@ && args[i]@ != "--freeze-mount"@ ==> (
        r matches Err(UsageError::Unknown(t)) && t@ == args[i]@),
        i + 1 == args.len() && (args[i]@ == "--offset"@ || args[i]@ == "--status-port"@
            || args[i]@ == "--batch-max"@ || args[i]@ == "--batch-idle"@ || args[i]@
            == "--freeze-max"@ || args[i]@ == "--freeze-mount"@) ==> r matches Err(
            UsageError::MissingValue(_),
        ),
{
    lemma_flags_differ();
}

/// A value that its option does not take is refused as that option's.
pub proof fn law_bad_value_is_refused<F: Fn(Flag, &String) -> bool>(
    valid: F,
    args: Seq<String>,
    i: int,
    s: Settings,
    r: Result<Options, UsageError>,
)
    requires
        0 <= i,
        i + 1 < args.len(),
        cli::parses(valid, args, i, s, r),
    ensures
        args[i]@ == "--offset"@ && cli::offset_of(args[i + 1]@) is Err ==> (r matches Err(
            UsageError::BadOffset { value, error },
        ) && value@ == args[i + 1]@ && cli::offset_of(args[i + 1]@) == Err::<nat, OffsetError>(
            error,
        )),
        args[i]@ == "--status-port"@ && !(exists|v: int|
            v <= 65535 && #[trigger] digits_of(args[i + 1]@, 10, v)) ==> r matches Err(
            UsageError::BadPort,
        ),
        args[i]@ == "--batch-max"@ && !(exists|v: int|
            0 < v <= usize::MAX && #[trigger] digits_of(args[i + 1]@, 10, v)) ==> r matches Err(
            UsageError::BadBatchMax,
        ),
        args[i]@ == "--batch-idle"@ && !call_ensures(
            valid,
            (Flag::BatchIdle, &args[i + 1]),
            true,
        ) ==> r matches Err(UsageError::BadSeconds(Flag::BatchIdle)),
        args[i]@ == "--freeze-max"@ && !call_ensures(
            valid,
            (Flag::FreezeMax, &args[i + 1]),
            true,
        ) ==> r matches Err(UsageError::BadSeconds(Flag::FreezeMax)),
{
    lemma_flags_differ();
    let value = args[i + 1]@;
    number_text::law_text_is_read_as_its_number(value, 10, 65535);
    number_text::law_text_is_read_as_its_number(value, 10, usize::MAX as nat);
    let n = number_text::number(number_text::unsigned(value), 10);
    if text::parsed(value, 10, 65535) is Ok {
        assert(digits_of(value, 10, n));
    }
    if text::parsed(value, 10, usize::MAX as nat) is Ok {
        assert(digits_of(value, 10, n));
    }
}

/// The words of a refusal name the argument that was refused.
pub proof fn law_refusal_names_the_argument<F: Fn(Flag, &String) -> bool>(
    valid: F,
    args: Seq<String>,
    i: int,
    s: Settings,
    e: UsageError,
)
    requires
        0 <= i < args.len(),
        cli::parses(valid, args, i, s, Err::<Options, UsageError>(e)),
    ensures
        cli::flag_of(args[i]@) is None ==> cli::usage_text(e) == "unknown argument: "@ + args[i]@,
        i + 1 == args.len() && args[i]@ == "--freeze-mount"@ ==> cli::usage_text(e) == "error: "@
            + args[i]@ + " requires a path"@,
        i + 1 == args.len() && (args[i]@ == "--offset"@ || args[i]@ == "--status-port"@
            || args[i]@ == "--batch-max"@ || args[i]@ == "--batch-idle"@ || args[i]@
            == "--freeze-max"@) ==> cli::usage_text(e) == "error: "@ + args[i]@
            + " requires a value"@,
        i + 1 < args.len() && args[i]@ == "--offset"@ ==> (cli::offset_of(args[i + 1]@)
            matches Err(why) ==> cli::usage_text(e) == "error parsing "@ + args[i]@ + " "@
            + text::debug_of(args[i + 1]@) + ": "@ + cli::offset_error(why, args[i + 1]@)),
{
    lemma_flags_differ();
    reveal_strlit("error parsing ");
    reveal_strlit("--offset");
    reveal_strlit(" ");
    reveal_strlit("error parsing --offset ");
    assert("error parsing "@ + "--offset"@ + " "@ =~= "error parsing --offset "@);
}

/// The words for an offset say what is wrong with it.
pub proof fn law_offset_error_says_what_is_wrong(given: Seq<char>)
    ensures
        cli::offset_of(given) matches Err(e) ==> {
            let t = text::trimmed(given);
            &&& t.len() > 0 && t[0] == '-' ==> cli::offset_error(e, given)
                == "negative byte offsets are not allowed: "@ + text::debug_of(t)
            &&& e == OffsetError::Decimal(IntError::Empty) ==> t.len() == 0 || t == seq!['+']
            &&& e matches OffsetError::Decimal(IntError::Empty) ==> cli::offset_error(e, given)
                == "invalid decimal: "@ + "cannot parse integer from empty string"@
            &&& e matches OffsetError::Decimal(IntError::InvalidDigit) ==> cli::offset_error(
                e,
                given,
            ) == "invalid decimal: "@ + "invalid digit found in string"@
            &&& e matches OffsetError::Decimal(IntError::TooLarge) ==> cli::offset_error(e, given)
                == "invalid decimal: "@ + "number too large to fit in target type"@
            &&& e matches OffsetError::Hex(IntError::Empty) ==> cli::offset_error(e, given)
                == "invalid hex: "@ + "cannot parse integer from empty string"@
            &&& e matches OffsetError::Hex(IntError::InvalidDigit) ==> cli::offset_error(e, given)
                == "invalid hex: "@ + "invalid digit found in string"@
            &&& e matches OffsetError::Hex(IntError::TooLarge) ==> cli::offset_error(e, given)
                == "invalid hex: "@ + "number too large to fit in target type"@
        },
{
    let t = text::trimmed(given);
    if t.len() > 0 && t[0] == '+' && t.skip(1).len() == 0 {
        assert(t =~= seq!['+']);
    }
    if t.len() >= 2 {
        number_text::law_text_is_read_as_its_number(t.skip(1), 10, u64::MAX as nat);
    }
    if cli::offset_of(given) == Err::<nat, OffsetError>(OffsetError::Decimal(IntError::Empty)) {
        if t.len() > 0 && t[0] == '+' {
            number_text::law_refusal_says_what_is_wrong(t.skip(1), 10, u64::MAX as nat);
        } else {
            number_text::law_refusal_says_what_is_wrong(t, 10, u64::MAX as nat);
        }
    }
}

/// The run was asked to repair only where an argument says `--repair`.
pub proof fn law_nothing_is_repaired_unasked<F: Fn(Flag, &String) -> bool>(
    valid: F,
    args: Seq<String>,
    i: int,
    s: Settings,
    r: Result<Options, UsageError>,
)
    requires
        0 <= i,
        cli::parses(valid, args, i, s, r),
        s.dry_run,
        forall|k: int| 0 <= k < args.len() ==> (#[trigger] args[k])@ != "--repair"@,
    ensures
        r matches Ok(o) ==> o.dry_run,
    decreases args.len() - i,
{
    lemma_flags_differ();
    if i < args.len() {
        assert(args[i]@ != "--repair"@);
        match cli::flag_of(args[i]@) {
            None => {},
            Some(Flag::Repair) => {},
            Some(Flag::NoFreeze) => {
                law_nothing_is_repaired_unasked(
                    valid,
                    args,
                    i + 1,
                    Settings { freeze_enabled: false, ..s },
                    r,
                );
            },
            Some(f) => {
                if i + 1 < args.len() {
                    let value = args[i + 1];
                    match f {
                        Flag::StatusPort => match text::parsed(value@, 10, u16::MAX as nat) {
                            Ok(p) => law_nothing_is_repaired_unasked(
                                valid,
                                args,
                                i + 2,
                                Settings { status_port: p, ..s },
                                r,
                            ),
                            Err(_) => {},
                        },
                        Flag::Offset => match cli::offset_of(value@) {
                            Ok(b) => law_nothing_is_repaired_unasked(
                                valid,
                                args,
                                i + 2,
                                Settings { base_offset: b, ..s },
                                r,
                            ),
                            Err(_) => {},
                        },
                        Flag::BatchMax => match text::parsed(value@, 10, usize::MAX as nat) {
                            Ok(n) => if n > 0 {
                                law_nothing_is_repaired_unasked(
                                    valid,
                                    args,
                                    i + 2,
                                    Settings { batch_max: n, ..s },
                                    r,
                                );
                            },
                            Err(_) => {},
                        },
                        Flag::FreezeMount => law_nothing_is_repaired_unasked(
                            valid,
                            args,
                            i + 2,
                            Settings { freeze_mount: Some(value@), ..s },
                            r,
                        ),
                        Flag::BatchIdle => {
                            if r is Ok {
                                law_nothing_is_repaired_unasked(
                                    valid,
                                    args,
                                    i + 2,
                                    Settings { batch_idle: Some(value@), ..s },
                                    r,
                                );
                            }
                        },
                        _ => {
                            if r is Ok {
                                law_nothing_is_repaired_unasked(
                                    valid,
                                    args,
                                    i + 2,
                                    Settings { freeze_max: Some(value@), ..s },
                                    r,
                                );
                            }
                        },
                    }
                }
            },
        }
    }
}

/// Without arguments, or with `--help` or `-h` first or second, the command is
/// help; `--dump-array` and `--resolve` are the commands they name, the latter
/// with a device and a hexadecimal address; anything else is a device to scrub.
pub proof fn law_command_is_what_the_arguments_name(args: Seq<String>, c: Command, v: u64)
    requires
        cli::commands(args, c),
    ensures
        args.len() == 0 ==> c is Help,
        args.len() > 0 && (args[0]@ == "--help"@ || args[0]@ == "-h"@) ==> c is Help,
        args.len() > 0 && args[0]@ == "--dump-array"@ ==> c is DumpArray,
        args.len() >= 3 && args[0]@ == "--resolve"@ && is_address(args[2]@, v) ==> (c
            matches Command::Resolve { device, logical } && device@ == args[1]@ && logical == v),
        1 <= args.len() < 3 && args[0]@ == "--resolve"@ ==> c is ResolveUsage,
        args.len() > 0 && args[0]@.len() > 0 && args[0]@[0] != '-' && (args.len() == 1 || (
        args[1]@ != "--help"@ && args[1]@ != "-h"@)) ==> (c matches Command::Scrub { device }
            && device@ == args[0]@),
        args.len() > 1 && args[0]@.len() > 0 && args[0]@[0] != '-' && (args[1]@ == "--help"@
            || args[1]@ == "-h"@) ==> c is Help,
{
    reveal_strlit("--help");
    reveal_strlit("-h");
    reveal_strlit("--dump-array");
    reveal_strlit("--resolve");
    assert("--help"@[0] == '-' && "--help"@[2] == 'h');
    assert("-h"@[0] == '-' && "-h"@.len() == 2);
    assert("--dump-array"@[0] == '-' && "--dump-array"@[2] == 'd');
    assert("--resolve"@[0] == '-' && "--resolve"@[2] == 'r');
    if args.len() >= 3 {
        law_address_is_its_hexadecimal_number(args[2]@, v);
    }
}

/// The text is this address, in hexadecimal digits, with `0x` before them or
/// without.
pub open spec fn is_address(t: Seq<char>, v: u64) -> bool {
    if t.len() >= 2 && t[0] == '0' && t[1] == 'x' {
        digits_of(t.skip(2), 16, v as int)
    } else {
        digits_of(t, 16, v as int)
    }
}

} // verus!
