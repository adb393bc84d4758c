//! What a completed run reports.

use vstd::prelude::*;

use crate::batch_recover::BatchStats;
use crate::cli;
use crate::fs::ScrubStats;
use crate::laws::text as number_text;
use crate::status;
use crate::status::{StatusCounters, TakenPath};
use crate::text;

verus! {

/// The run exits with 6 if and only if a metadata node had no good copy.
pub proof fn law_metadata_fatal_means_no_good_copy(
    stats: ScrubStats,
    batch: BatchStats,
    had_writer: bool,
)
    ensures
        cli::exit_code_of(stats, batch, had_writer) == 6 <==> stats.metadata_header_errors != 0,
{
}

/// The run exits with 4 if and only if it could write, something was wrong, and
/// nothing is left that was not recovered: no metadata it could not read, no
/// candidate that failed, was skipped, not frozen, not confirmed or not corrupt,
/// and no gap.
pub proof fn law_recovered_means_nothing_is_left(
    stats: ScrubStats,
    batch: BatchStats,
    had_writer: bool,
)
    ensures
        cli::exit_code_of(stats, batch, had_writer) == 4 <==> {
            &&& had_writer
            &&& stats.sectors_mismatch != 0 || batch.mismatch != 0 || stats.sectors_read_error != 0
            &&& stats.metadata_header_errors == 0
            &&& stats.metadata_read_errors == 0
            &&& stats.stale_csum_branches == 0
            &&& batch.failed == 0
            &&& batch.skipped == 0
            &&& batch.not_frozen == 0
            &&& batch.readback_failed == 0
            &&& batch.not_corrupt == 0
        },
{
}

/// The run exits with 5 if and only if it could write, all metadata nodes were
/// good, sectors, candidates or metadata were found wrong, and something of that
/// was not recovered.
pub proof fn law_recover_failed_means_something_is_left(
    stats: ScrubStats,
    batch: BatchStats,
    had_writer: bool,
)
    ensures
        cli::exit_code_of(stats, batch, had_writer) == 5 <==> {
            &&& had_writer
            &&& stats.metadata_header_errors == 0
            &&& stats.sectors_mismatch != 0 || batch.mismatch != 0 || stats.sectors_read_error != 0
                || stats.metadata_read_errors != 0 || batch.skipped != 0
            &&& stats.metadata_read_errors != 0 || stats.stale_csum_branches != 0 || batch.failed
                != 0 || batch.skipped != 0 || batch.not_frozen != 0 || batch.readback_failed != 0
                || batch.not_corrupt != 0
        },
{
}

/// Without a writer an issue is only reported; with one too, where the only
/// issue is a gap.
pub proof fn law_issues_found_means_reported_only(
    stats: ScrubStats,
    batch: BatchStats,
    had_writer: bool,
)
    ensures
        cli::exit_code_of(stats, batch, had_writer) == 3 <==> {
            &&& stats.metadata_header_errors == 0
            &&& stats.sectors_mismatch != 0 || batch.mismatch != 0 || stats.sectors_read_error != 0
                || stats.metadata_read_errors != 0 || stats.stale_csum_branches != 0
                || batch.skipped != 0
            &&& had_writer ==> stats.sectors_mismatch == 0 && batch.mismatch == 0
                && stats.sectors_read_error == 0 && stats.metadata_read_errors == 0
                && batch.skipped == 0
        },
{
}

// ---------------------------------------------------------------------------
// The status page
// ---------------------------------------------------------------------------

/// Lines of names and values, one after the other.
pub open spec fn page_of(lines: Seq<(Seq<char>, Seq<char>)>) -> Seq<char>
    decreases lines.len(),
{
    if lines.len() == 0 {
        Seq::empty()
    } else {
        page_of(lines.drop_last()) + lines.last().0 + seq!['='] + lines.last().1 + seq!['\n']
    }
}

/// Digits of a counter.
pub open spec fn digits(v: u64) -> Seq<char> {
    text::decimal(v as nat)
}

/// The page's lines.
pub open spec fn page_lines(c: StatusCounters) -> Seq<(Seq<char>, Seq<char>)> {
    seq![
        ("state"@, c.state@),
        ("device"@, c.device@),
        ("sectors_checked"@, digits(c.sectors_checked)),
        ("sectors_ok"@, digits(c.sectors_ok)),
        ("sectors_mismatch"@, digits(c.mismatch)),
        ("sectors_stale"@, digits(c.stale)),
        ("sectors_no_csum"@, digits(c.sectors_no_csum)),
        ("sectors_read_error"@, digits(c.sectors_read_error)),
        ("stale_csum_branches"@, digits(c.stale_csum_branches)),
        ("isolation_truncated"@, digits(c.isolation_truncated)),
        ("bytes_checked"@, digits(c.bytes_checked)),
        ("metadata_header_errors"@, digits(c.metadata_header_errors)),
        ("metadata_mirror_mismatches"@, digits(c.metadata_mirror_mismatches)),
        ("metadata_read_errors"@, digits(c.metadata_read_errors)),
        ("recovered"@, digits(c.recovered)),
        ("failed"@, digits(c.failed)),
        ("skipped"@, digits(c.skipped)),
        ("not_frozen"@, digits(c.not_frozen)),
        ("readback_failed"@, digits(c.readback_failed)),
        ("not_corrupt"@, digits(c.not_corrupt)),
        ("deduped"@, digits(c.deduped)),
        ("repaired_while_mounted"@, digits(c.repaired_while_mounted)),
        ("recovery"@, digits(c.recovery)),
        ("progress_total"@, digits(c.progress_total)),
        ("progress_done"@, digits(c.progress_done)),
        ("progress_pct"@, status::percent_text(c.progress_done, c.progress_total)),
    ]
}

proof fn lemma_page_line(lines: Seq<(Seq<char>, Seq<char>)>, k: int)
    requires
        0 <= k < lines.len(),
    ensures
        page_of(lines.take(k + 1)) == page_of(lines.take(k)) + status::line(
            lines[k].0,
            lines[k].1,
        ),
{
    reveal_strlit("=");
    reveal_strlit("\n");
    let s = lines.take(k + 1);
    assert(s.drop_last() =~= lines.take(k));
    assert(s.last() == lines[k]);
    assert("="@ =~= seq!['=']);
    assert("\n"@ =~= seq!['\n']);
    assert(page_of(s) =~= page_of(lines.take(k)) + status::line(lines[k].0, lines[k].1));
}

/// The status page has one line for each counter: its name, an equals sign, and
/// its digits.
pub proof fn law_page_shows_every_counter(c: StatusCounters)
    ensures
        status::snapshot_text(c) == page_of(page_lines(c)),
{
    let lines = page_lines(c);
    assert(lines.len() == 26);
    assert(page_of(lines.take(0)) =~= Seq::empty());
    lemma_page_line(lines, 0);
    assert(page_of(lines.take(1)) =~= status::line("state"@, c.state@));
    lemma_page_line(lines, 1);
    lemma_page_line(lines, 2);
    lemma_page_line(lines, 3);
    lemma_page_line(lines, 4);
    lemma_page_line(lines, 5);
    lemma_page_line(lines, 6);
    lemma_page_line(lines, 7);
    lemma_page_line(lines, 8);
    lemma_page_line(lines, 9);
    lemma_page_line(lines, 10);
    lemma_page_line(lines, 11);
    lemma_page_line(lines, 12);
    lemma_page_line(lines, 13);
    lemma_page_line(lines, 14);
    lemma_page_line(lines, 15);
    lemma_page_line(lines, 16);
    lemma_page_line(lines, 17);
    lemma_page_line(lines, 18);
    lemma_page_line(lines, 19);
    lemma_page_line(lines, 20);
    lemma_page_line(lines, 21);
    lemma_page_line(lines, 22);
    lemma_page_line(lines, 23);
    lemma_page_line(lines, 24);
    lemma_page_line(lines, 25);
    assert(lines.take(26) =~= lines);
}

/// The percentage is what is done of the total, cut to thousandths and then
/// rounded to hundredths, and written with two decimals; it is 100 where all is
/// done or nothing is to be done.
pub proof fn law_percentage_is_what_is_done(done: u64, total: u64)
    ensures
        ({
            let m = status::progress_milli(done, total);
            let h = status::hundredths(m);
            let t = status::percent_text(done, total);
            let n = t.len() - 3;
            &&& done >= total ==> m == 100_000
            &&& done < total ==> m * total <= done * 100_000 < (m + 1) * total
            &&& -5 <= 10 * h - m <= 5
            &&& n > 0
            &&& t[n] == '.'
            &&& number_text::all_digits(t.take(n), 10)
            &&& 0 <= number_text::worth(t[n + 1]) < 10
            &&& 0 <= number_text::worth(t[n + 2]) < 10
            &&& 100 * number_text::number(t.take(n), 10) + 10 * number_text::worth(t[n + 1])
                + number_text::worth(t[n + 2]) == h
        }),
{
    let m = status::progress_milli(done, total);
    let h = status::hundredths(m);
    if total > 0 {
        let q = done as int * 100_000 / total as int;
        vstd::arithmetic::div_mod::lemma_fundamental_div_mod(done as int * 100_000, total as int);
        let r = (done as int * 100_000) % (total as int);
        assert(q * total <= done * 100_000 && done * 100_000 < (q + 1) * total && q >= 0)
            by (nonlinear_arith)
            requires
                done * 100_000 == total * q + r,
                0 <= r < total,
                total > 0,
                done >= 0,
        ;
        if done >= total {
            assert(q >= 100_000) by (nonlinear_arith)
                requires
                    done * 100_000 < (q + 1) * total,
                    done >= total,
                    total > 0,
            ;
        } else {
            assert(q < 100_000) by (nonlinear_arith)
                requires
                    q * total <= done * 100_000,
                    done < total,
                    total > 0,
                    q >= 0,
            ;
        }
    }
    assert(0 <= h <= 10_000);
    reveal_strlit(".");
    let whole = (h / 100) as nat;
    let t = status::percent_text(done, total);
    let front = text::decimal(whole);
    number_text::law_digits_are_worth_the_number(whole);
    let n = t.len() - 3;
    assert(t.take(n) =~= front);
    assert(t[n] == '.');
    assert(t[n + 1] == text::digit((h / 10 % 10) as nat));
    assert(t[n + 2] == text::digit((h % 10) as nat));
    assert(h == 100 * (h / 100) + 10 * (h / 10 % 10) + h % 10);
}

/// A request is for the page if and only if it starts with `GET /status`.
pub proof fn law_page_is_asked_for_by_its_name(request: Seq<u8>)
    ensures
        status::asks_status(request) <==> {
            &&& request.len() >= 11
            &&& request[0] == 0x47
            &&& request[1] == 0x45
            &&& request[2] == 0x54
            &&& request[3] == 0x20
            &&& request[4] == 0x2f
            &&& request[5] == 0x73
            &&& request[6] == 0x74
            &&& request[7] == 0x61
            &&& request[8] == 0x74
            &&& request[9] == 0x75
            &&& request[10] == 0x73
        },
{
    let wanted = status::STATUS_REQUEST@;
    assert(wanted =~= seq![0x47u8, 0x45, 0x54, 0x20, 0x2f, 0x73, 0x74, 0x61, 0x74, 0x75, 0x73]);
    if request.len() >= 11 {
        let t = request.take(11);
        assert(forall|i: int| 0 <= i < 11 ==> t[i] == request[i]);
        if t == wanted {
            assert(t[0] == 0x47 && t[1] == 0x45 && t[2] == 0x54 && t[3] == 0x20 && t[4] == 0x2f
                && t[5] == 0x73 && t[6] == 0x74 && t[7] == 0x61 && t[8] == 0x74 && t[9] == 0x75
                && t[10] == 0x73);
        }
        if request[0] == 0x47 && request[1] == 0x45 && request[2] == 0x54 && request[3] == 0x20
            && request[4] == 0x2f && request[5] == 0x73 && request[6] == 0x74 && request[7] == 0x61
            && request[8] == 0x74 && request[9] == 0x75 && request[10] == 0x73 {
            assert(t =~= wanted);
        }
    }
}

/// An answer: its status line, the number of bytes of what follows, and after an
/// empty line that.
pub open spec fn answered(first: Seq<char>, body: Seq<char>, answer: Seq<char>) -> bool {
    answer == first + text::decimal(vstd::utf8::encode_utf8(body).len() as usize as nat)
        + "\r\nContent-Type: text/plain\r\nConnection: close\r\n\r\n"@ + body
}

proof fn lemma_http(head: Seq<char>, first: Seq<char>, body: Seq<char>)
    requires
        first == "HTTP/1.1 "@ + head + "\r\nContent-Length: "@,
    ensures
        answered(
            first,
            body,
            status::http_text(
                head,
                body,
                vstd::utf8::encode_utf8(body).len() as usize as nat,
            ),
        ),
{
}

proof fn lemma_first_lines()
    ensures
        "HTTP/1.1 200 OK\r\nContent-Length: "@ == "HTTP/1.1 "@ + "200 OK"@
            + "\r\nContent-Length: "@,
        "HTTP/1.1 404 Not Found\r\nContent-Length: "@ == "HTTP/1.1 "@ + "404 Not Found"@
            + "\r\nContent-Length: "@,
{
    reveal_strlit("HTTP/1.1 ");
    reveal_strlit("200 OK");
    reveal_strlit("404 Not Found");
    reveal_strlit("\r\nContent-Length: ");
    reveal_strlit("HTTP/1.1 200 OK\r\nContent-Length: ");
    reveal_strlit("HTTP/1.1 404 Not Found\r\nContent-Length: ");
    assert("HTTP/1.1 200 OK\r\nContent-Length: "@ =~= "HTTP/1.1 "@ + "200 OK"@
        + "\r\nContent-Length: "@);
    assert("HTTP/1.1 404 Not Found\r\nContent-Length: "@ =~= "HTTP/1.1 "@ + "404 Not Found"@
        + "\r\nContent-Length: "@);
}

/// A request for the page is answered with the page, any other with `not found`.
pub proof fn law_answer_is_the_page_or_not_found(
    c: StatusCounters,
    request: &[u8],
    answer: String,
    page: Seq<char>,
)
    requires
        call_ensures(StatusCounters::respond, (&c, request), answer),
        page == status::snapshot_text(c),
    ensures
        status::asks_status(request@) ==> answered(
            "HTTP/1.1 200 OK\r\nContent-Length: "@,
            page,
            answer@,
        ),
        !status::asks_status(request@) ==> answered(
            "HTTP/1.1 404 Not Found\r\nContent-Length: "@,
            "not found\n"@,
            answer@,
        ),
{
    lemma_first_lines();
    lemma_http("200 OK"@, "HTTP/1.1 200 OK\r\nContent-Length: "@, page);
    lemma_http(
        "404 Not Found"@,
        "HTTP/1.1 404 Not Found\r\nContent-Length: "@,
        "not found\n"@,
    );
}

/// A taken path is unlinked just where it is a socket that nobody answers on.
pub proof fn law_only_a_dead_socket_is_unlinked(is_socket: bool, answered: bool, r: TakenPath)
    requires
        call_ensures(status::taken_path, (is_socket, answered), r),
    ensures
        r is Stale <==> is_socket && !answered,
        r is LiveServer <==> is_socket && answered,
        r is NotASocket <==> !is_socket,
{
}

} // verus!
