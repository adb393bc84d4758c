//! Numbers in texts: what a run of digits is worth, and which texts are numbers.

use vstd::prelude::*;

use crate::btrfs::util;
use crate::text;
use crate::text::IntError;

verus! {

/// What a digit is worth; 16 for what is no digit.
pub open spec fn worth(c: char) -> int {
    let n = c as int;
    if 48 <= n <= 57 {
        n - 48
    } else if 97 <= n <= 102 {
        n - 87
    } else if 65 <= n <= 70 {
        n - 55
    } else {
        16
    }
}

/// At least one character, and each a digit of the base.
pub open spec fn all_digits(s: Seq<char>, radix: nat) -> bool {
    s.len() > 0 && forall|i: int| 0 <= i < s.len() ==> worth(#[trigger] s[i]) < radix
}

/// What the digits are worth together.
pub open spec fn number(s: Seq<char>, radix: nat) -> int
    decreases s.len(),
{
    if s.len() == 0 {
        0
    } else {
        number(s.drop_last(), radix) * radix + worth(s.last())
    }
}

/// A text without the one plus sign that may lead it.
pub open spec fn unsigned(s: Seq<char>) -> Seq<char> {
    if s.len() > 0 && s[0] == '+' { s.skip(1) } else { s }
}

/// The digits read from the left onto `acc`.
spec fn onto(s: Seq<char>, radix: nat, acc: int) -> int
    decreases s.len(),
{
    if s.len() == 0 {
        acc
    } else {
        onto(s.drop_first(), radix, acc * radix + worth(s[0]))
    }
}

proof fn lemma_onto_last(s: Seq<char>, radix: nat, acc: int)
    requires
        s.len() > 0,
    ensures
        onto(s, radix, acc) == onto(s.drop_last(), radix, acc) * radix + worth(s.last()),
    decreases s.len(),
{
    if s.len() == 1 {
        assert(s.drop_first() =~= Seq::empty());
        assert(s.drop_last() =~= Seq::empty());
        assert(onto(s.drop_first(), radix, acc * radix + worth(s[0])) == acc * radix + worth(s[0]));
        assert(onto(s.drop_last(), radix, acc) == acc);
    } else {
        lemma_onto_last(s.drop_first(), radix, acc * radix + worth(s[0]));
        assert(s.drop_first().drop_last() =~= s.drop_last().drop_first());
        assert(s.drop_last()[0] == s[0]);
    }
}

proof fn lemma_onto_is_number(s: Seq<char>, radix: nat)
    ensures
        onto(s, radix, 0) == number(s, radix),
    decreases s.len(),
{
    if s.len() > 0 {
        lemma_onto_last(s, radix, 0);
        lemma_onto_is_number(s.drop_last(), radix);
    }
}

proof fn lemma_onto_grows(s: Seq<char>, radix: nat, acc: int)
    requires
        radix >= 2,
        acc >= 0,
        forall|i: int| 0 <= i < s.len() ==> worth(#[trigger] s[i]) < radix,
    ensures
        onto(s, radix, acc) >= acc,
    decreases s.len(),
{
    if s.len() > 0 {
        assert(worth(s[0]) >= 0);
        assert(acc * radix + worth(s[0]) >= acc) by (nonlinear_arith)
            requires
                radix >= 2,
                acc >= 0,
                worth(s[0]) >= 0,
        ;
        assert forall|i: int| 0 <= i < s.drop_first().len() implies worth(
            #[trigger] s.drop_first()[i],
        ) < radix by {
            assert(s.drop_first()[i] == s[i + 1]);
        }
        lemma_onto_grows(s.drop_first(), radix, acc * radix + worth(s[0]));
    }
}

proof fn lemma_scan(s: Seq<char>, radix: nat, max: nat, acc: nat)
    requires
        2 <= radix <= 16,
        acc <= max,
    ensures
        match text::scan_digits(s, radix, max, acc) {
            Ok(v) => {
                &&& forall|i: int| 0 <= i < s.len() ==> worth(#[trigger] s[i]) < radix
                &&& onto(s, radix, acc as int) == v
                &&& v <= max
            },
            Err(_) => {
                ||| onto(s, radix, acc as int) > max
                ||| exists|i: int| 0 <= i < s.len() && worth(#[trigger] s[i]) >= radix
            },
        },
    decreases s.len(),
{
    if s.len() > 0 {
        let rest = s.drop_first();
        assert(text::digit_value(s[0], radix) == (if worth(s[0]) < radix {
            Some(worth(s[0]) as nat)
        } else {
            None
        }));
        if worth(s[0]) < radix {
            let next = (acc * radix + worth(s[0])) as nat;
            assert(acc * radix >= 0) by (nonlinear_arith);
            if next <= max {
                lemma_scan(rest, radix, max, next);
                assert forall|i: int|
                    0 <= i < s.len() && text::scan_digits(s, radix, max, acc) is Ok implies worth(
                    #[trigger] s[i],
                ) < radix by {
                    if i > 0 {
                        assert(rest[i - 1] == s[i]);
                    }
                }
                if exists|i: int| 0 <= i < rest.len() && worth(#[trigger] rest[i]) >= radix {
                    let i = choose|i: int|
                        0 <= i < rest.len() && worth(#[trigger] rest[i]) >= radix;
                    assert(s[i + 1] == rest[i]);
                }
            } else if forall|i: int| 0 <= i < s.len() ==> worth(#[trigger] s[i]) < radix {
                assert forall|i: int| 0 <= i < rest.len() implies worth(#[trigger] rest[i])
                    < radix by {
                    assert(rest[i] == s[i + 1]);
                }
                lemma_onto_grows(rest, radix, next as int);
            }
        }
    }
}

/// A text is a number just where it is made of digits, behind at most one plus
/// sign, and their worth is no larger than the limit; it is then read as that.
pub proof fn law_text_is_read_as_its_number(s: Seq<char>, radix: nat, max: nat)
    requires
        2 <= radix <= 16,
    ensures
        all_digits(unsigned(s), radix) && number(unsigned(s), radix) <= max ==> text::parsed(
            s,
            radix,
            max,
        ) == Ok::<nat, IntError>(number(unsigned(s), radix) as nat),
        !all_digits(unsigned(s), radix) || number(unsigned(s), radix) > max ==> text::parsed(
            s,
            radix,
            max,
        ) is Err,
        all_digits(unsigned(s), radix) ==> number(unsigned(s), radix) >= 0,
        s.len() == 0 ==> text::parsed(s, radix, max) == Err::<nat, IntError>(IntError::Empty),
        text::parsed(s, radix, max) == Err::<nat, IntError>(IntError::TooLarge) ==> s.len() > 0,
{
    let t = unsigned(s);
    if s.len() > 0 && s[0] == '+' {
        assert(s.drop_first() =~= s.skip(1));
    }
    lemma_scan(t, radix, max, 0);
    lemma_onto_is_number(t, radix);
    if all_digits(t, radix) {
        lemma_onto_grows(t, radix, 0);
    }
}

proof fn lemma_refusal(s: Seq<char>, radix: nat, max: nat, acc: nat) -> (k: int)
    requires
        2 <= radix <= 16,
        acc <= max,
        text::scan_digits(s, radix, max, acc) is Err,
    ensures
        0 <= k < s.len(),
        forall|i: int| 0 <= i < k ==> worth(#[trigger] s[i]) < radix,
        match text::scan_digits(s, radix, max, acc) {
            Err(IntError::InvalidDigit) => worth(s[k]) >= radix && onto(s.take(k), radix, acc as int)
                <= max,
            Err(IntError::TooLarge) => worth(s[k]) < radix && onto(
                s.take(k + 1),
                radix,
                acc as int,
            ) > max,
            _ => false,
        },
    decreases s.len(),
{
    assert(text::digit_value(s[0], radix) == (if worth(s[0]) < radix {
        Some(worth(s[0]) as nat)
    } else {
        None
    }));
    assert(s.take(0) =~= Seq::empty());
    if worth(s[0]) >= radix {
        0
    } else {
        let rest = s.drop_first();
        let next = (acc * radix + worth(s[0])) as nat;
        assert(acc * radix >= 0) by (nonlinear_arith);
        if next > max {
            assert(s.take(1).drop_first() =~= Seq::empty());
            assert(s.take(1)[0] == s[0]);
            assert(onto(s.take(1).drop_first(), radix, next as int) == next);
            0
        } else {
            let k = lemma_refusal(rest, radix, max, next);
            assert(rest[k] == s[k + 1]);
            assert forall|i: int| 0 <= i < k + 1 implies worth(#[trigger] s[i]) < radix by {
                if i > 0 {
                    assert(rest[i - 1] == s[i]);
                }
            }
            assert(s.take(k + 1).drop_first() =~= rest.take(k));
            assert(s.take(k + 1)[0] == s[0]);
            assert(s.take(k + 2).drop_first() =~= rest.take(k + 1));
            assert(s.take(k + 2)[0] == s[0]);
            k + 1
        }
    }
}

/// A text that is no number is refused for what is wrong with it first: that it
/// is empty, a character that is no digit, or digits that are worth more than the
/// limit.
pub proof fn law_refusal_says_what_is_wrong(s: Seq<char>, radix: nat, max: nat) -> (k: int)
    requires
        2 <= radix <= 16,
        text::parsed(s, radix, max) is Err,
    ensures
        match text::parsed(s, radix, max) {
            Err(IntError::Empty) => s.len() == 0,
            Err(IntError::InvalidDigit) => {
                ||| s == seq!['+']
                ||| {
                    &&& 0 <= k < unsigned(s).len()
                    &&& worth(unsigned(s)[k]) >= radix
                    &&& number(unsigned(s).take(k), radix) <= max
                    &&& forall|i: int| 0 <= i < k ==> worth(#[trigger] unsigned(s)[i]) < radix
                }
            },
            Err(IntError::TooLarge) => {
                &&& 0 <= k < unsigned(s).len()
                &&& number(unsigned(s).take(k + 1), radix) > max
                &&& forall|i: int| 0 <= i <= k ==> worth(#[trigger] unsigned(s)[i]) < radix
            },
            Ok(_) => false,
        },
{
    let t = unsigned(s);
    if s.len() > 0 && s[0] == '+' {
        assert(s.drop_first() =~= s.skip(1));
    }
    if s.len() == 0 {
        0
    } else if s[0] == '+' && s.len() == 1 {
        assert(s =~= seq!['+']);
        0
    } else {
        let k = lemma_refusal(t, radix, max, 0);
        lemma_onto_is_number(t.take(k), radix);
        lemma_onto_is_number(t.take(k + 1), radix);
        k
    }
}

/// A number's digits, decimal and lower-case hexadecimal, are worth the number,
/// and do not start with a zero that is not the whole.
pub proof fn law_digits_are_worth_the_number(v: nat)
    ensures
        all_digits(text::decimal(v), 10),
        number(text::decimal(v), 10) == v,
        text::decimal(v)[0] == '0' ==> v == 0 && text::decimal(v).len() == 1,
        text::decimal(v)[0] != '+',
        all_digits(text::hexadecimal(v), 16),
        number(text::hexadecimal(v), 16) == v,
        text::hexadecimal(v)[0] == '0' ==> v == 0 && text::hexadecimal(v).len() == 1,
        forall|i: int|
            0 <= i < text::hexadecimal(v).len() ==> !(65 <= (#[trigger] text::hexadecimal(
                v,
            )[i]) as int <= 70),
{
    lemma_digits(v, 10);
    lemma_digits(v, 16);
}

proof fn lemma_digits(v: nat, radix: nat)
    requires
        2 <= radix <= 16,
    ensures
        all_digits(text::digits_of(v, radix), radix),
        number(text::digits_of(v, radix), radix) == v,
        text::digits_of(v, radix)[0] == '0' ==> v == 0 && text::digits_of(v, radix).len() == 1,
        text::digits_of(v, radix)[0] != '+',
        forall|i: int|
            0 <= i < text::digits_of(v, radix).len() ==> !(65 <= (#[trigger] text::digits_of(
                v,
                radix,
            )[i]) as int <= 70),
    decreases v,
{
    let s = text::digits_of(v, radix);
    if v < radix {
        assert(s.drop_last() =~= Seq::empty());
        assert(number(s.drop_last(), radix) == 0);
        assert(worth(text::digit(v)) == v);
    } else {
        assert(v / radix < v && (v / radix) * radix + v % radix == v && v % radix < radix && v
            / radix > 0) by (nonlinear_arith)
            requires
                2 <= radix <= v,
        ;
        lemma_digits(v / radix, radix);
        let front = text::digits_of(v / radix, radix);
        assert(s.drop_last() =~= front);
        assert(worth(text::digit(v % radix)) == v % radix);
        assert forall|i: int| 0 <= i < s.len() implies worth(#[trigger] s[i]) < radix && !(65
            <= s[i] as int <= 70) by {
            if i < front.len() {
                assert(s[i] == front[i]);
            }
        }
        assert(s[0] == front[0]);
    }
}

/// White space: the characters that Unicode calls so.
pub open spec fn white(c: char) -> bool {
    let n = c as int;
    9 <= n <= 13 || n == 32 || n == 0x85 || n == 0xa0 || n == 0x1680 || 0x2000 <= n <= 0x200a || n
        == 0x2028 || n == 0x2029 || n == 0x202f || n == 0x205f || n == 0x3000
}

/// Trimming takes the white space off both ends and nothing else.
pub proof fn law_trimming_takes_white_space_off(front: Seq<char>, core: Seq<char>, back: Seq<char>)
    requires
        forall|i: int| 0 <= i < front.len() ==> white(#[trigger] front[i]),
        forall|i: int| 0 <= i < back.len() ==> white(#[trigger] back[i]),
        core.len() > 0 ==> !white(core[0]) && !white(core.last()),
    ensures
        text::trimmed(front + core + back) == core,
    decreases front.len() + back.len(),
{
    let s = front + core + back;
    if front.len() > 0 {
        assert(s[0] == front[0]);
        assert(s.drop_first() =~= front.drop_first() + core + back);
        assert forall|i: int| 0 <= i < front.drop_first().len() implies white(
            #[trigger] front.drop_first()[i],
        ) by {
            assert(front.drop_first()[i] == front[i + 1]);
        }
        law_trimming_takes_white_space_off(front.drop_first(), core, back);
    } else if core.len() == 0 {
        if back.len() > 0 {
            assert(s =~= back);
            assert(s.drop_first() =~= back.drop_first() + core + Seq::<char>::empty());
            assert forall|i: int| 0 <= i < back.drop_first().len() implies white(
                #[trigger] back.drop_first()[i],
            ) by {
                assert(back.drop_first()[i] == back[i + 1]);
            }
            law_trimming_takes_white_space_off(back.drop_first(), core, Seq::empty());
            assert(s[0] == back[0]);
        } else {
            assert(s =~= core);
        }
    } else {
        assert(s[0] == core[0]);
        assert(text::trim_start(s) == s);
        lemma_trim_back(core, back);
        assert(s =~= core + back);
    }
}

proof fn lemma_trim_back(core: Seq<char>, back: Seq<char>)
    requires
        forall|i: int| 0 <= i < back.len() ==> white(#[trigger] back[i]),
        core.len() > 0,
        !white(core.last()),
    ensures
        text::trim_end(core + back) == core,
    decreases back.len(),
{
    let s = core + back;
    if back.len() > 0 {
        assert(s.last() == back.last());
        assert(s.drop_last() =~= core + back.drop_last());
        assert forall|i: int| 0 <= i < back.drop_last().len() implies white(
            #[trigger] back.drop_last()[i],
        ) by {
            assert(back.drop_last()[i] == back[i]);
        }
        lemma_trim_back(core, back.drop_last());
    } else {
        assert(s =~= core);
    }
}

/// Every text is what trimming leaves of it between two runs of white space.
pub proof fn lemma_trimmed_parts(s: Seq<char>) -> (r: (Seq<char>, Seq<char>))
    ensures
        s == r.0 + text::trimmed(s) + r.1,
        forall|i: int| 0 <= i < r.0.len() ==> white(#[trigger] r.0[i]),
        forall|i: int| 0 <= i < r.1.len() ==> white(#[trigger] r.1[i]),
        text::trimmed(s).len() > 0 ==> !white(text::trimmed(s)[0]) && !white(
            text::trimmed(s).last(),
        ),
    decreases s.len(),
{
    if s.len() > 0 && white(s[0]) {
        let (a, b) = lemma_trimmed_parts(s.drop_first());
        let front = seq![s[0]] + a;
        assert(s =~= front + text::trimmed(s) + b) by {
            assert(s =~= seq![s[0]] + s.drop_first());
        }
        (front, b)
    } else if s.len() > 0 && white(s.last()) {
        let (a, b) = lemma_trimmed_parts(s.drop_last());
        let t = s.drop_last();
        assert(s[0] == t[0]) by {
            if s.len() == 1 {
                assert(s[0] == s.last());
            }
        }
        assert(text::trim_start(s) == s);
        assert(text::trim_start(t) == t);
        let back = b + seq![s.last()];
        assert(s =~= a + text::trimmed(s) + back) by {
            assert(s =~= t + seq![s.last()]);
        }
        assert forall|i: int| 0 <= i < back.len() implies white(#[trigger] back[i]) by {
            if i < b.len() {
                assert(back[i] == b[i]);
            }
        }
        (a, back)
    } else {
        assert(s =~= Seq::<char>::empty() + text::trimmed(s) + Seq::<char>::empty());
        (Seq::empty(), Seq::empty())
    }
}

/// Hex text has two lower-case digits for each byte, which are worth the byte.
pub proof fn law_hex_text_is_worth_the_bytes(bytes: Seq<u8>)
    ensures
        util::hex_of(bytes).len() == 2 * bytes.len(),
        forall|i: int|
            0 <= i < bytes.len() ==> 16 * worth(util::hex_of(bytes)[2 * i]) + worth(
                util::hex_of(bytes)[2 * i + 1],
            ) == #[trigger] bytes[i],
        forall|i: int|
            0 <= i < 2 * bytes.len() ==> worth(#[trigger] util::hex_of(bytes)[i]) < 16 && !(65
                <= util::hex_of(bytes)[i] as int <= 70),
    decreases bytes.len(),
{
    if bytes.len() > 0 {
        let front = bytes.drop_last();
        law_hex_text_is_worth_the_bytes(front);
        let h = util::hex_of(bytes);
        let f = util::hex_of(front);
        let b = bytes.last();
        assert(h =~= f.push(text::digit(b as nat / 16)).push(text::digit(b as nat % 16)));
        assert forall|i: int| 0 <= i < bytes.len() implies 16 * worth(h[2 * i]) + worth(
            h[2 * i + 1],
        ) == #[trigger] bytes[i] by {
            if i < front.len() {
                assert(front[i] == bytes[i]);
                assert(h[2 * i] == f[2 * i] && h[2 * i + 1] == f[2 * i + 1]);
            }
        }
        assert forall|i: int| 0 <= i < 2 * bytes.len() implies worth(#[trigger] h[i]) < 16 && !(65
            <= h[i] as int <= 70) by {
            if i < f.len() {
                assert(h[i] == f[i]);
            }
        }
    }
}

} // verus!
