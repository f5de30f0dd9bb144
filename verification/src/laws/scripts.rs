//! Scripts: what they are given, what their output stands for, and when they are over.

use crate::cgi::{
    output_line, output_lines, output_parts, output_response, started_task, stream_read, variables,
    CgiEnd, CgiSpecView, CgiTaskView, ChildStatus, IoFailure, OutputHead,
};
use crate::config::CgiMappingView;
use crate::handler::mapping_for;
use crate::http::RequestView;
use crate::laws::requests::{law_host_of_a_request, law_known_names};
use crate::number::{decimal, number};
use crate::text::{
    find, lines, lower, same_ignoring_case, split_once, trim, trim_end, words, CharSet,
};
use vstd::prelude::*;

verus! {

// Variables

/// Some variable has the given name.
pub open spec fn has_variable(all: Seq<(Seq<char>, Seq<char>)>, name: Seq<char>) -> bool {
    exists|i: int| 0 <= i < all.len() && (#[trigger] all[i]).0 == name
}

proof fn lemma_variable_names()
    ensures
        "GATEWAY_INTERFACE"@[0] == 'G',
        "SERVER_PROTOCOL"@[7] == 'P',
        "SERVER_SOFTWARE"@[7] == 'S',
        "SERVER_PORT"@.len() == 11,
        "REQUEST_METHOD"@[0] == 'R',
        "REQUEST_URI"@[0] == 'R',
        "QUERY_STRING"@[0] == 'Q',
        "PATH_INFO"@[0] == 'P',
        "SCRIPT_FILENAME"@[0] == 'S',
        "SCRIPT_NAME"@[0] == 'S',
        "SERVER_PROTOCOL"@[0] == 'S',
        "SERVER_SOFTWARE"@[0] == 'S',
        "SERVER_PORT"@[0] == 'S',
        "CONTENT_LENGTH"@.len() == 14,
        "CONTENT_LENGTH"@[0] == 'C',
        "CONTENT_TYPE"@.len() == 12,
        "CONTENT_TYPE"@[0] == 'C',
        "HTTP_HOST"@.len() == 9,
        "HTTP_HOST"@[0] == 'H',
        "HTTP_COOKIE"@.len() == 11,
        "HTTP_COOKIE"@[0] == 'H',
{
    reveal_strlit("GATEWAY_INTERFACE");
    reveal_strlit("SERVER_PROTOCOL");
    reveal_strlit("SERVER_SOFTWARE");
    reveal_strlit("SERVER_PORT");
    reveal_strlit("REQUEST_METHOD");
    reveal_strlit("REQUEST_URI");
    reveal_strlit("QUERY_STRING");
    reveal_strlit("PATH_INFO");
    reveal_strlit("SCRIPT_FILENAME");
    reveal_strlit("SCRIPT_NAME");
    reveal_strlit("CONTENT_LENGTH");
    reveal_strlit("CONTENT_TYPE");
    reveal_strlit("HTTP_HOST");
    reveal_strlit("HTTP_COOKIE");
}

/// Every script is given the variables that describe the request, the script and the server, each
/// with its value.
pub proof fn law_script_knows_the_request(
    spec: CgiSpecView,
    request: RequestView,
    port: u16,
    script_path: Seq<char>,
)
    ensures
        ({
            let all = variables(spec, request, port, script_path);
            &&& all.contains(("GATEWAY_INTERFACE"@, "CGI/1.1"@))
            &&& all.contains(("SERVER_PROTOCOL"@, request.version))
            &&& all.contains(("SERVER_SOFTWARE"@, "localhost/0.1"@))
            &&& all.contains(("REQUEST_METHOD"@, request.method))
            &&& all.contains(("REQUEST_URI"@, request.target))
            &&& all.contains(("QUERY_STRING"@, request.query))
            &&& all.contains(("PATH_INFO"@, spec.path_info))
            &&& all.contains(("SCRIPT_FILENAME"@, script_path))
            &&& all.contains(("SCRIPT_NAME"@, spec.script))
            &&& all.contains(("CONTENT_LENGTH"@, decimal(request.body.len() as int)))
            &&& all.contains(("SERVER_PORT"@, decimal(port as int)))
            &&& all.contains(
                (
                    "HTTP_HOST"@,
                    if request.headers.dom().contains("host"@) {
                        request.headers["host"@]
                    } else {
                        ""@
                    },
                ),
            )
        }),
{
    law_host_of_a_request(request);
    reveal_strlit("");
    assert(""@ =~= Seq::<char>::empty());
    let all = variables(spec, request, port, script_path);
    assert(all[0] == ("GATEWAY_INTERFACE"@, "CGI/1.1"@));
    assert(all[1] == ("SERVER_PROTOCOL"@, request.version));
    assert(all[2] == ("SERVER_SOFTWARE"@, "localhost/0.1"@));
    assert(all[3] == ("REQUEST_METHOD"@, request.method));
    assert(all[4] == ("REQUEST_URI"@, request.target));
    assert(all[5] == ("QUERY_STRING"@, request.query));
    assert(all[6] == ("PATH_INFO"@, spec.path_info));
    assert(all[7] == ("SCRIPT_FILENAME"@, script_path));
    assert(all[8] == ("SCRIPT_NAME"@, spec.script));
    assert(all[9] == ("CONTENT_LENGTH"@, decimal(request.body.len() as int)));
    assert(all[10] == ("SERVER_PORT"@, decimal(port as int)));
    assert(all[11] == ("HTTP_HOST"@, request.host()));
}

/// A script is given the type of the body where the request names one, and the cookies where it
/// sends some; else it has no such variable.
pub proof fn law_script_knows_type_and_cookies(
    spec: CgiSpecView,
    request: RequestView,
    port: u16,
    script_path: Seq<char>,
)
    ensures
        ({
            let all = variables(spec, request, port, script_path);
            &&& request.headers.dom().contains("content-type"@) ==> all.contains(
                ("CONTENT_TYPE"@, request.headers["content-type"@]),
            )
            &&& request.headers.dom().contains("cookie"@) ==> all.contains(
                ("HTTP_COOKIE"@, request.headers["cookie"@]),
            )
            &&& !request.headers.dom().contains("content-type"@) ==> !has_variable(
                all,
                "CONTENT_TYPE"@,
            )
            &&& !request.headers.dom().contains("cookie"@) ==> !has_variable(all, "HTTP_COOKIE"@)
        }),
{
    law_known_names(request);
    lemma_variable_names();
    let all = variables(spec, request, port, script_path);
    let typed = request.headers.dom().contains("content-type"@);
    if typed {
        assert(all[12] == ("CONTENT_TYPE"@, request.headers["content-type"@]));
    }
    if request.headers.dom().contains("cookie"@) {
        let at = all.len() - 1;
        assert(all[at] == ("HTTP_COOKIE"@, request.headers["cookie"@]));
    }
}

/// No variable is given twice.
pub proof fn law_each_variable_is_given_once(
    spec: CgiSpecView,
    request: RequestView,
    port: u16,
    script_path: Seq<char>,
)
    ensures
        forall|i: int, j: int|
            0 <= i < j < variables(spec, request, port, script_path).len() ==> (
            #[trigger] variables(spec, request, port, script_path)[i]).0 != (#[trigger] variables(
                spec,
                request,
                port,
                script_path,
            )[j]).0,
{
    lemma_variable_names();
    reveal_strlit("REQUEST_METHOD");
    reveal_strlit("REQUEST_URI");
    reveal_strlit("SCRIPT_FILENAME");
    reveal_strlit("SCRIPT_NAME");
    assert("SCRIPT_NAME"@[1] == 'C');
    assert("SCRIPT_FILENAME"@[1] == 'C');
    reveal_strlit("SERVER_PORT");
    reveal_strlit("SERVER_PROTOCOL");
    reveal_strlit("SERVER_SOFTWARE");
    assert("SERVER_PORT"@[1] == 'E');
    assert("SERVER_PROTOCOL"@[1] == 'E');
    assert("SERVER_SOFTWARE"@[1] == 'E');
    assert("REQUEST_METHOD"@.len() != "REQUEST_URI"@.len());
    assert("SCRIPT_FILENAME"@.len() != "SCRIPT_NAME"@.len());
    assert("SERVER_PROTOCOL"@.len() == 15);
    assert("SERVER_SOFTWARE"@.len() == 15);
}

// Output

/// A line of output without the carriage returns at its end.
pub open spec fn bare(raw: Seq<char>) -> Seq<char> {
    trim_end(raw, CharSet::Only('\r'))
}

/// The line holds nothing but white space.
pub open spec fn is_blank(raw: Seq<char>) -> bool {
    trim(bare(raw)).len() == 0
}

/// The line gives the status: its name is `Status`, in any case.
pub open spec fn gives_status(raw: Seq<char>) -> bool {
    !is_blank(raw) && (split_once(bare(raw), ':') matches Some((name, _)) && same_ignoring_case(
        name,
        "Status"@,
    ))
}

/// The number that the line's value starts with.
pub open spec fn status_in(raw: Seq<char>) -> Option<int> {
    match split_once(bare(raw), ':') {
        Some((_, value)) => if words(value, CharSet::Space).len() > 0 {
            number(words(value, CharSet::Space)[0], 10, 65535)
        } else {
            None
        },
        None => None,
    }
}

/// The line is a header of the response.
pub open spec fn gives_header(raw: Seq<char>) -> bool {
    !is_blank(raw) && split_once(bare(raw), ':') is Some && !gives_status(raw)
}

/// How many of the lines are headers of the response.
pub open spec fn headers_in(all: Seq<Seq<char>>) -> int
    decreases all.len(),
{
    if all.len() == 0 {
        0
    } else {
        headers_in(all.drop_last()) + (if gives_header(all.last()) {
            1int
        } else {
            0
        })
    }
}

/// The status that the last of the lines that give one gives.
pub open spec fn last_status(all: Seq<Seq<char>>) -> Option<int>
    decreases all.len(),
{
    if all.len() == 0 {
        None
    } else if gives_status(all.last()) {
        status_in(all.last())
    } else {
        last_status(all.drop_last())
    }
}

proof fn lemma_output_push(h: OutputHead, all: Seq<Seq<char>>, raw: Seq<char>)
    ensures
        output_lines(h, all.push(raw)) == match output_lines(h, all) {
            Err(m) => Err(m),
            Ok(next) => output_line(next, raw),
        },
    decreases all.len(),
{
    let longer = all.push(raw);
    if all.len() == 0 {
        assert(longer.skip(1) =~= Seq::<Seq<char>>::empty());
        if let Ok(next) = output_line(h, raw) {
            assert(output_lines(next, longer.skip(1)) == Ok::<OutputHead, Seq<char>>(next));
        }
    } else {
        assert(longer.skip(1) =~= all.skip(1).push(raw));
        assert(longer[0] == all[0]);
        if let Ok(next) = output_line(h, all[0]) {
            lemma_output_push(next, all.skip(1), raw);
        }
    }
}

spec fn no_head() -> OutputHead {
    OutputHead { status: 200, headers: Seq::empty() }
}

/// The head of an output is accepted exactly where each line is blank, a header, or a status with
/// a number.
pub proof fn law_accepted_output(all: Seq<Seq<char>>)
    ensures
        output_lines(OutputHead { status: 200, headers: Seq::empty() }, all) is Ok <==> forall|i: int|
            0 <= i < all.len() ==> (is_blank(#[trigger] all[i]) || gives_header(all[i]) || (
            gives_status(all[i]) && status_in(all[i]) is Some)),
    decreases all.len(),
{
    if all.len() > 0 {
        let init = all.drop_last();
        law_accepted_output(init);
        lemma_output_push(no_head(), init, all.last());
        assert(init.push(all.last()) =~= all);
        let last = all[all.len() - 1];
        if output_lines(no_head(), all) is Ok {
            assert forall|i: int| 0 <= i < all.len() implies (is_blank(#[trigger] all[i])
                || gives_header(all[i]) || (gives_status(all[i]) && status_in(all[i]) is Some)) by {
                if i < init.len() {
                    assert(init[i] == all[i]);
                }
            }
        } else if output_lines(no_head(), init) is Err {
            let i = choose|i: int|
                0 <= i < init.len() && !(is_blank(#[trigger] init[i]) || gives_header(init[i]) || (
                gives_status(init[i]) && status_in(init[i]) is Some));
            assert(init[i] == all[i]);
        }
    }
}

/// The status of the response is the last that the output gives, or 200; and its headers are those
/// of the output, in order, each with its name and its value without the white space around them.
pub proof fn law_output_gives_status_and_headers(all: Seq<Seq<char>>)
    ensures
        output_lines(OutputHead { status: 200, headers: Seq::empty() }, all) matches Ok(h) ==> {
            &&& h.status == match last_status(all) {
                Some(status) => status,
                None => 200,
            }
            &&& h.headers.len() == headers_in(all)
            &&& forall|i: int|
                0 <= i < all.len() && gives_header(#[trigger] all[i]) ==> {
                    let k = headers_in(all.take(i));
                    &&& 0 <= k < h.headers.len()
                    &&& split_once(bare(all[i]), ':') matches Some((name, value)) && h.headers[k] == (
                        trim(name),
                        trim(value),
                    )
                }
        },
    decreases all.len(),
{
    if all.len() > 0 {
        let init = all.drop_last();
        law_output_gives_status_and_headers(init);
        lemma_output_push(no_head(), init, all.last());
        assert(init.push(all.last()) =~= all);
        if let Ok(h) = output_lines(no_head(), all) {
            let before = output_lines(no_head(), init)->Ok_0;
            assert forall|i: int| 0 <= i < all.len() && gives_header(#[trigger] all[i]) implies ({
                let k = headers_in(all.take(i));
                &&& 0 <= k < h.headers.len()
                &&& split_once(bare(all[i]), ':') matches Some((name, value)) && h.headers[k] == (
                    trim(name),
                    trim(value),
                )
            }) by {
                if i < init.len() {
                    assert(init[i] == all[i]);
                    assert(init.take(i) =~= all.take(i));
                } else {
                    assert(all.take(i) =~= init);
                }
            }
        }
    }
}

/// A head stands for a response exactly where its lines are accepted and the status is one of
/// HTTP; the response then has the status and the headers of the lines, and the body as it is.
pub proof fn law_output_stands_for_a_response(head: Seq<char>, body: Seq<u8>)
    ensures
        ({
            let read = output_lines(OutputHead { status: 200, headers: Seq::empty() }, lines(head));
            &&& output_response(head, body) is Ok <==> (read matches Ok(h) && 100 <= h.status
                <= 599)
            &&& output_response(head, body) matches Ok(r) ==> (read matches Ok(h) && r.status
                == h.status && r.headers == h.headers && r.body == body)
        }),
{
}

/// A plain output: the body after a first empty line with carriage returns, or else without them.
pub proof fn law_output_is_cut_at_the_empty_line(output: Seq<u8>)
    ensures
        output_parts(output) is None <==> find(output, seq![13u8, 10, 13, 10]) is None && find(
            output,
            seq![10u8, 10],
        ) is None,
        find(output, seq![13u8, 10, 13, 10]) matches Some(p) ==> output_parts(output) == Some(
            (output.take(p), output.skip(p + 4)),
        ),
        find(output, seq![13u8, 10, 13, 10]) is None ==> (find(output, seq![10u8, 10]) matches Some(
            p,
        ) ==> output_parts(output) == Some((output.take(p), output.skip(p + 2)))),
{
    assert(crate::chunk::crlf_crlf() =~= seq![13u8, 10, 13, 10]);
    assert(crate::cgi::lf_lf() =~= seq![10u8, 10]);
}

// The exchange

/// A script is started with the whole body as its input, none of it written, with no output, and
/// with five seconds to run.
pub proof fn law_script_starts_afresh(server: usize, body: Seq<u8>, keep_alive: bool, now: u64)
    ensures
        ({
            let task = started_task(server, body, keep_alive, now);
            &&& task.input == body && task.input_pos == 0 && task.output.len() == 0
            &&& !task.input_closed && !task.io_eof && !task.process_exited
            &&& task.server_index == server && task.keep_alive == keep_alive
            &&& task.interest().read
            &&& task.interest().write <==> body.len() > 0
            &&& body.len() > 0 ==> task.input_step() is Send
            &&& body.len() == 0 ==> task.input_step() is Shutdown
            &&& forall|later: u64|
                #![trigger task.timed_out(later)]
                later >= now ==> (task.timed_out(later) <==> later - now >= 5000)
        }),
{
}

/// A script's input is written while some is left and it is open, and the output is read until it
/// ends; after the end of the output neither is done.
pub proof fn law_what_a_script_waits_for(task: CgiTaskView)
    requires
        task.wf(),
    ensures
        task.interest().read <==> !task.io_eof,
        task.interest().write <==> !task.io_eof && !task.input_closed && task.input_pos
            != task.input.len(),
        task.input_step() is Send <==> task.interest().write,
        task.input_step() is Shutdown <==> !task.io_eof && !task.input_closed && task.input_pos
            == task.input.len(),
{
}

/// A write moves on by what was taken and changes nothing else; one that takes nothing, or fails
/// because the script has gone, closes the input; any other failure changes nothing.
pub proof fn law_write_moves_on(task: CgiTaskView, n: usize, f: IoFailure)
    ensures
        n > 0 ==> task.after_write(Ok(n)).input_pos == task.input_pos + n && task.after_write(
            Ok(n),
        ).input_closed == task.input_closed,
        task.after_write(Ok(0)).input_closed && task.after_write(Ok(0)).input_pos == task.input_pos,
        task.after_write(Ok(n)).input == task.input && task.after_write(Ok(n)).output
            == task.output,
        f is BrokenPipe || f is ConnectionReset || f is NotConnected ==> task.after_write(
            Err(f),
        ).input_closed && task.after_shutdown(Err(f)).input_closed,
        f is WouldBlock || f is Other ==> task.after_write(Err(f)) == task && task.after_shutdown(
            Err(f),
        ) == task,
        task.after_shutdown(Ok(())).input_closed,
{
}

/// What is read is added to the end of the output and takes nothing of it away; a read of nothing
/// is its end, and so is a failure which says that the script has gone. Any other failure changes
/// nothing.
pub proof fn law_read_adds_to_the_output(task: CgiTaskView, bytes: Seq<u8>, f: IoFailure)
    ensures
        task.after_read(Ok(bytes)).output == task.output + bytes,
        task.after_read(Ok(bytes)).io_eof <==> task.io_eof || bytes.len() == 0,
        task.after_read(Ok(bytes)).input_pos == task.input_pos,
        task.after_read(Err(f)) == task,
        stream_read(Ok(bytes)) == Ok::<Seq<u8>, IoFailure>(bytes),
        f is BrokenPipe || f is ConnectionReset || f is NotConnected ==> stream_read(Err(f)) == Ok::<
            Seq<u8>,
            IoFailure,
        >(Seq::empty()),
        f is WouldBlock || f is Other ==> stream_read(Err(f)) == Err::<Seq<u8>, IoFailure>(f),
{
    assert(task.output + Seq::<u8>::empty() =~= task.output);
    if bytes.len() == 0 {
        assert(bytes =~= Seq::<u8>::empty());
    }
}

/// A script is over when its time is up, whatever it does; else when it has failed before it
/// succeeded; else when it has succeeded and its output has ended; and goes on otherwise.
pub proof fn law_when_a_script_is_over(task: CgiTaskView, status: ChildStatus, now: u64)
    requires
        now >= task.started,
    ensures
        task.end(status, now) == Some(CgiEnd::TimedOut) <==> now - task.started >= task.timeout,
        task.end(status, now) == Some(CgiEnd::Finished) <==> now - task.started < task.timeout
            && task.io_eof && (task.process_exited || status is Succeeded),
        task.end(status, now) == Some(CgiEnd::Failed) <==> now - task.started < task.timeout
            && !task.process_exited && status is Failed,
        task.after_poll(ChildStatus::Succeeded).process_exited,
        task.after_poll(status).process_exited <==> task.process_exited || status is Succeeded,
        task.after_poll(status).output == task.output,
{
}

// The choice of a script

/// The first of a location's mappings whose extension ends the name, in any case, is the one for
/// it, and there is none where no extension does.
pub proof fn law_first_mapping_is_taken(cgi: Seq<CgiMappingView>, segment: Seq<char>)
    ensures
        mapping_for(cgi, segment) is None <==> forall|k: int|
            0 <= k < cgi.len() ==> !is_suffix((#[trigger] cgi[k]).extension, lower(segment)),
        mapping_for(cgi, segment) matches Some(m) ==> exists|k: int|
            0 <= k < cgi.len() && #[trigger] cgi[k] == m && is_suffix(
                m.extension,
                lower(segment),
            ) && forall|j: int|
                0 <= j < k ==> !is_suffix((#[trigger] cgi[j]).extension, lower(segment)),
    decreases cgi.len(),
{
    if cgi.len() > 0 {
        let rest = cgi.skip(1);
        let name = lower(segment);
        law_first_mapping_is_taken(rest, segment);
        lemma_suffix(cgi[0].extension, name);
        assert forall|k: int| 0 <= k < rest.len() implies #[trigger] rest[k] == cgi[k + 1] by {}
        if is_suffix(cgi[0].extension, name) {
            assert(cgi[0] == mapping_for(cgi, segment)->0);
        } else {
            match mapping_for(rest, segment) {
                None => {
                    assert forall|k: int| 0 <= k < cgi.len() implies !is_suffix(
                        (#[trigger] cgi[k]).extension,
                        name,
                    ) by {
                        if k > 0 {
                            assert(rest[k - 1] == cgi[k]);
                        }
                    }
                },
                Some(m) => {
                    let k = choose|k: int|
                        0 <= k < rest.len() && #[trigger] rest[k] == m && is_suffix(
                            m.extension,
                            name,
                        ) && forall|j: int|
                            0 <= j < k ==> !is_suffix((#[trigger] rest[j]).extension, name);
                    assert(cgi[k + 1] == m);
                    assert forall|j: int| 0 <= j < k + 1 implies !is_suffix(
                        (#[trigger] cgi[j]).extension,
                        name,
                    ) by {
                        if j > 0 {
                            assert(rest[j - 1] == cgi[j]);
                        }
                    }
                },
            }
        }
    }
}

/// The text ends with the given end.
pub open spec fn is_suffix(end: Seq<char>, s: Seq<char>) -> bool {
    end.len() <= s.len() && forall|i: int|
        0 <= i < end.len() ==> #[trigger] end[i] == s[s.len() - end.len() + i]
}

proof fn lemma_suffix(end: Seq<char>, s: Seq<char>)
    ensures
        is_suffix(end, s) <==> crate::text::ends_with(s, end),
{
    if end.len() <= s.len() {
        let back = s.skip(s.len() - end.len());
        if is_suffix(end, s) {
            assert(back =~= end);
        }
        if crate::text::ends_with(s, end) {
            assert(back =~= end);
            assert forall|i: int| 0 <= i < end.len() implies #[trigger] end[i] == s[s.len()
                - end.len() + i] by {
                assert(back[i] == end[i]);
            }
        }
    }
}

} // verus!
