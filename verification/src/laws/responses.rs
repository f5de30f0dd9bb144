//! Responses: how they are written, the types of files, error pages, and dates.

use crate::cgi::failure_page;
use crate::config::{lemma_root_index, ServerView};
use crate::date::{date, http_date, month_name, two_digits, weekday_name};
use crate::laws::paths::{law_joined_path, lemma_first_of_path, lemma_kept_append, path_of};
use crate::number::decimal;
use crate::reply::{error_page, ReplyView};
use crate::response::{
    field_lines, last_index, mime, name_extension, reason, response_bytes, response_head,
    ResponseView,
};
use crate::text::{
    lemma_one_word, lemma_words_append, lemma_words_trim, lower, same_ignoring_case, trim_start,
    words, CharSet,
};
use crate::util::{all_names, html_text, is_name, kept, segments};
use vstd::prelude::*;
use vstd::utf8::encode_utf8;

verus! {

/// One of the response's headers has the given name, in any case.
pub open spec fn says(r: ResponseView, name: Seq<char>) -> bool {
    exists|i: int|
        0 <= i < r.headers.len() && same_ignoring_case((#[trigger] r.headers[i]).0, name)
}

/// Header lines: a name, a colon, a space, and the value, one after the other in the order of the
/// headers.
pub proof fn law_header_lines(
    a: Seq<(Seq<char>, Seq<char>)>,
    b: Seq<(Seq<char>, Seq<char>)>,
    name: Seq<char>,
    value: Seq<char>,
)
    ensures
        field_lines(Seq::empty()) == Seq::<char>::empty(),
        field_lines(seq![(name, value)]) == name + seq![':', ' '] + value + seq!['\r', '\n'],
        field_lines(a + b) == field_lines(a) + field_lines(b),
    decreases b.len(),
{
    reveal_strlit(": ");
    reveal_strlit("\r\n");
    assert(": "@ =~= seq![':', ' ']);
    assert("\r\n"@ =~= seq!['\r', '\n']);
    let one = seq![(name, value)];
    assert(one.drop_last() =~= Seq::<(Seq<char>, Seq<char>)>::empty());
    assert(field_lines(one.drop_last()) =~= Seq::<char>::empty());
    assert(field_lines(one) =~= name + seq![':', ' '] + value + seq!['\r', '\n']);
    if b.len() == 0 {
        assert(a + b =~= a);
        assert(field_lines(a) + field_lines(b) =~= field_lines(a));
    } else {
        assert((a + b).drop_last() =~= a + b.drop_last());
        law_header_lines(a, b.drop_last(), name, value);
        assert(field_lines(a + b) =~= field_lines(a) + field_lines(b));
    }
}

/// The head of a response is the line with its status, its own headers, then those that it does
/// not have itself (the type of the content, the length of the body, what becomes of the
/// connection, the date), the name of the server, and an empty line.
pub proof fn law_head_of_a_response(r: ResponseView, keep_alive: bool, seconds: int)
    ensures
        response_head(r, keep_alive, seconds) == "HTTP/1.1 "@ + decimal(r.status as int) + " "@
            + reason(r.status) + "\r\n"@ + field_lines(r.headers) + (if says(r, "content-type"@) {
            Seq::<char>::empty()
        } else {
            "Content-Type: text/plain; charset=utf-8\r\n"@
        }) + (if says(r, "content-length"@) || r.status == 204 {
            Seq::<char>::empty()
        } else {
            "Content-Length: "@ + decimal(r.body.len() as int) + "\r\n"@
        }) + (if says(r, "connection"@) {
            Seq::<char>::empty()
        } else if keep_alive {
            "Connection: keep-alive\r\n"@
        } else {
            "Connection: close\r\n"@
        }) + (if says(r, "date"@) {
            Seq::<char>::empty()
        } else {
            "Date: "@ + http_date(seconds) + "\r\n"@
        }) + "Server: localhost/0.1\r\n\r\n"@,
{
}

/// The body follows the head as it is; only a response without content, by its status, has none.
pub proof fn law_body_follows_the_head(r: ResponseView, keep_alive: bool, seconds: int)
    ensures
        r.status != 204 ==> response_bytes(r, keep_alive, seconds) == encode_utf8(
            response_head(r, keep_alive, seconds),
        ) + r.body,
        r.status == 204 ==> response_bytes(r, keep_alive, seconds) == encode_utf8(
            response_head(r, keep_alive, seconds),
        ),
{
    let head = encode_utf8(response_head(r, keep_alive, seconds));
    assert(head + Seq::<u8>::empty() =~= head);
}

/// The phrases for the statuses that the server knows, and one for all others.
pub proof fn law_reason_phrases(status: u16)
    ensures
        reason(status) == match status {
            200 => "OK"@,
            201 => "Created"@,
            204 => "No Content"@,
            301 => "Moved Permanently"@,
            302 => "Found"@,
            303 => "See Other"@,
            307 => "Temporary Redirect"@,
            308 => "Permanent Redirect"@,
            400 => "Bad Request"@,
            403 => "Forbidden"@,
            404 => "Not Found"@,
            405 => "Method Not Allowed"@,
            408 => "Request Timeout"@,
            413 => "Payload Too Large"@,
            500 => "Internal Server Error"@,
            502 => "Bad Gateway"@,
            504 => "Gateway Timeout"@,
            _ => "Unknown"@,
        },
{
}

// Types of files

proof fn lemma_last_index(front: Seq<char>, c: char, back: Seq<char>)
    requires
        !back.contains(c),
    ensures
        last_index(front + seq![c] + back, c) == front.len(),
        last_index(back, c) == -1,
    decreases back.len(),
{
    let s = front + seq![c] + back;
    if back.len() == 0 {
        assert(s.last() == c);
    } else {
        let init = back.drop_last();
        if init.contains(c) {
            let i = init.index_of(c);
            assert(back[i] == c);
        }
        assert(back[back.len() - 1] != c) by {
            if back[back.len() - 1] == c {
                assert(back.contains(c));
            }
        }
        lemma_last_index(front, c, init);
        assert(s.drop_last() =~= front + seq![c] + init);
        assert(s.last() == back.last());
    }
}

proof fn lemma_last_name(directory: Seq<char>, name: Seq<char>)
    requires
        is_name(name),
    ensures
        segments(directory + seq!['/'] + name).len() > 0,
        segments(directory + seq!['/'] + name).last() == name,
{
    let set = CharSet::Only('/');
    let tail = seq!['/'] + name;
    assert(directory + seq!['/'] + name =~= directory + tail);
    assert(tail[0] == '/');
    lemma_words_append(directory, tail, set);
    assert(tail.skip(1) =~= name);
    assert(trim_start(tail, set) == trim_start(name, set));
    lemma_words_trim(tail, set);
    lemma_words_trim(name, set);
    assert forall|j: int| 0 <= j < name.len() implies !set.has(#[trigger] name[j]) by {
        if name[j] == '/' {
            assert(name.contains('/'));
        }
    }
    lemma_one_word(name, set);
    lemma_kept_append(words(directory, set), seq![name]);
    let one = seq![name];
    assert(one.drop_last() =~= Seq::<Seq<char>>::empty());
    assert(kept(one.drop_last()) =~= Seq::<Seq<char>>::empty());
    assert(kept(one) =~= one);
}

proof fn lemma_type_names()
    ensures
        "html"@.len() == 4 && "html"@[0] == 'h',
        "htm"@.len() == 3 && "htm"@[0] == 'h',
        "css"@.len() == 3 && "css"@[0] == 'c',
        "js"@.len() == 2 && "js"@[0] == 'j',
        "json"@.len() == 4 && "json"@[0] == 'j' && "json"@[1] == 's',
        "txt"@.len() == 3 && "txt"@[0] == 't',
        "svg"@.len() == 3 && "svg"@[0] == 's',
        "png"@.len() == 3 && "png"@[0] == 'p' && "png"@[1] == 'n',
        "jpg"@.len() == 3 && "jpg"@[0] == 'j',
        "jpeg"@.len() == 4 && "jpeg"@[0] == 'j' && "jpeg"@[1] == 'p',
        "gif"@.len() == 3 && "gif"@[0] == 'g',
        "webp"@.len() == 4 && "webp"@[0] == 'w' && "webp"@[1] == 'e',
        "ico"@.len() == 3 && "ico"@[0] == 'i',
        "pdf"@.len() == 3 && "pdf"@[0] == 'p' && "pdf"@[1] == 'd',
        "wasm"@.len() == 4 && "wasm"@[0] == 'w' && "wasm"@[1] == 'a',
{
    reveal_strlit("html");
    reveal_strlit("htm");
    reveal_strlit("css");
    reveal_strlit("js");
    reveal_strlit("json");
    reveal_strlit("txt");
    reveal_strlit("svg");
    reveal_strlit("png");
    reveal_strlit("jpg");
    reveal_strlit("jpeg");
    reveal_strlit("gif");
    reveal_strlit("webp");
    reveal_strlit("ico");
    reveal_strlit("pdf");
    reveal_strlit("wasm");
}

/// The type of a file goes by what follows the last dot of its name, in any case, wherever the file
/// stands.
pub proof fn law_type_of_a_file(directory: Seq<char>, stem: Seq<char>, ext: Seq<char>)
    requires
        stem.len() > 0,
        !stem.contains('/'),
        ext.len() > 0,
        !ext.contains('/'),
        !ext.contains('.'),
    ensures
        ({
            let found = mime(directory + seq!['/'] + (stem + seq!['.'] + ext));
            let kind = lower(ext);
            &&& kind == "html"@ || kind == "htm"@ ==> found == "text/html; charset=utf-8"@
            &&& kind == "css"@ ==> found == "text/css; charset=utf-8"@
            &&& kind == "js"@ ==> found == "application/javascript; charset=utf-8"@
            &&& kind == "json"@ ==> found == "application/json; charset=utf-8"@
            &&& kind == "txt"@ ==> found == "text/plain; charset=utf-8"@
            &&& kind == "svg"@ ==> found == "image/svg+xml"@
            &&& kind == "png"@ ==> found == "image/png"@
            &&& kind == "jpg"@ || kind == "jpeg"@ ==> found == "image/jpeg"@
            &&& kind == "gif"@ ==> found == "image/gif"@
            &&& kind == "webp"@ ==> found == "image/webp"@
            &&& kind == "ico"@ ==> found == "image/x-icon"@
            &&& kind == "pdf"@ ==> found == "application/pdf"@
            &&& kind == "wasm"@ ==> found == "application/wasm"@
            &&& ![
                "html"@,
                "htm"@,
                "css"@,
                "js"@,
                "json"@,
                "txt"@,
                "svg"@,
                "png"@,
                "jpg"@,
                "jpeg"@,
                "gif"@,
                "webp"@,
                "ico"@,
                "pdf"@,
                "wasm"@,
            ]@.contains(kind) ==> found == "application/octet-stream"@
        }),
{
    lemma_type_names();
    reveal_strlit(".");
    reveal_strlit("..");
    let name = stem + seq!['.'] + ext;
    assert(name.contains('/') ==> false) by {
        if name.contains('/') {
            let i = name.index_of('/');
            if i < stem.len() {
                assert(stem[i] == '/');
            } else if i > stem.len() {
                assert(ext[i - stem.len() - 1] == '/');
            }
        }
    }
    assert(ext[0] != '.') by {
        if ext[0] == '.' {
            assert(ext.contains('.'));
        }
    }
    assert(name[stem.len() as int + 1] == ext[0]);
    assert(name.len() >= 3);
    lemma_last_name(directory, name);
    lemma_last_index(stem, '.', ext);
    assert(name.skip(stem.len() as int + 1) =~= ext);
    assert(name_extension(name) == ext);
    let known = [
        "html"@,
        "htm"@,
        "css"@,
        "js"@,
        "json"@,
        "txt"@,
        "svg"@,
        "png"@,
        "jpg"@,
        "jpeg"@,
        "gif"@,
        "webp"@,
        "ico"@,
        "pdf"@,
        "wasm"@,
    ]@;
    let kind = lower(ext);
    assert(known[0] == "html"@ && known[1] == "htm"@ && known[2] == "css"@ && known[3] == "js"@
        && known[4] == "json"@ && known[5] == "txt"@ && known[6] == "svg"@ && known[7] == "png"@
        && known[8] == "jpg"@ && known[9] == "jpeg"@ && known[10] == "gif"@ && known[11] == "webp"@
        && known[12] == "ico"@ && known[13] == "pdf"@ && known[14] == "wasm"@);
}

/// A name without a dot, or with one in front alone, has no type of its own.
pub proof fn law_type_without_an_extension(directory: Seq<char>, name: Seq<char>)
    requires
        is_name(name),
        !name.contains('.'),
    ensures
        mime(directory + seq!['/'] + name) == "application/octet-stream"@,
        mime(directory + seq!['/'] + (seq!['.'] + name)) == "application/octet-stream"@,
{
    lemma_type_names();
    lemma_last_name(directory, name);
    let none = Seq::<char>::empty();
    lemma_last_index(none, '.', name);
    assert(none + seq!['.'] + name =~= seq!['.'] + name);
    let dotted = seq!['.'] + name;
    reveal_strlit(".");
    reveal_strlit("..");
    if dotted.contains('/') {
        let i = dotted.index_of('/');
        assert(name[i - 1] == '/');
    }
    assert(name[0] != '.') by {
        if name[0] == '.' {
            assert(name.contains('.'));
        }
    }
    assert(dotted[1] == name[0]);
    lemma_last_name(directory, dotted);
    assert(lower(none) =~= none);
}

// Error pages

/// The page of a server for an error is the file that it names for the status, below the root of
/// its location for `/`; without such a name, or such a location, there is none.
pub proof fn law_page_for_an_error(
    server: ServerView,
    status: u16,
    names: Seq<Seq<char>>,
    k: int,
)
    requires
        all_names(names),
        names.len() > 0,
    ensures
        !server.error_pages.dom().contains(status) ==> error_page(server, status) is None,
        (forall|j: int| 0 <= j < server.routes.len() ==> (#[trigger] server.routes[j]).path != "/"@)
            ==> error_page(server, status) is None,
        0 <= k < server.routes.len() && server.routes[k].path == "/"@ && (forall|j: int|
            0 <= j < k ==> (#[trigger] server.routes[j]).path != "/"@) && server.routes[k].root.len()
            > 0 && server.routes[k].root[server.routes[k].root.len() - 1] != '/'
            && server.error_pages.dom().contains(status) && (server.error_pages[status]
            == path_of(names) || server.error_pages[status] == seq!['/'] + path_of(names))
            ==> error_page(server, status) == Some(
            server.routes[k].root + seq!['/'] + path_of(names),
        ),
{
    let path = path_of(names);
    let set = CharSet::Only('/');
    lemma_root_index(server.routes);
    lemma_first_of_path(names);
    assert(trim_start(path, set) == path);
    let full = seq!['/'] + path;
    assert(full.skip(1) =~= path);
    assert(trim_start(full, set) == path);
    if 0 <= k < server.routes.len() && server.routes[k].root.len() > 0
        && server.routes[k].root[server.routes[k].root.len() - 1] != '/' {
        law_joined_path(server.routes[k].root, names);
    }
}

/// An error is answered with the server's own page where there is one and it can be read, as it is
/// and with the type of its name; else with a page that holds the status and the message, escaped.
/// The methods that are allowed are named where the error names them.
pub proof fn law_error_is_answered_with(
    server: ServerView,
    status: u16,
    message: Seq<char>,
    allow: Option<Seq<char>>,
    content: Option<Seq<u8>>,
)
    ensures
        ({
            let reply = ReplyView::Error { status, message, allow };
            let r = reply.response(server, content);
            &&& r.status == status
            &&& reply.page(server) == error_page(server, status)
            &&& error_page(server, status) is Some && content is Some ==> {
                &&& r.body == content->0
                &&& r.headers[0] == ("Content-Type"@, mime(error_page(server, status)->0))
            }
            &&& error_page(server, status) is None || content is None ==> {
                &&& r.body == encode_utf8(
                    "<!doctype html><html><head><meta charset=\"utf-8\"><title>"@ + decimal(
                        status as int,
                    ) + "</title></head><body><h1>"@ + decimal(status as int) + "</h1><p>"@
                        + html_text(message) + "</p></body></html>"@,
                )
                &&& r.headers[0] == ("Content-Type"@, "text/html; charset=utf-8"@)
            }
            &&& allow is None ==> r.headers.len() == 1
            &&& allow matches Some(methods) ==> r.headers.len() == 2 && r.headers[1] == (
                "Allow"@,
                methods,
            )
        }),
{
}

/// The page for a failed script holds the status, its phrase and the message, escaped.
pub proof fn law_page_of_a_failed_script(status: u16, message: Seq<char>)
    ensures
        failure_page(status, message) == "<!doctype html><html><body><h1>"@ + decimal(status as int)
            + " "@ + reason(status) + "</h1><p>"@ + html_text(message) + "</p></body></html>"@,
{
}

// Dates

/// Days of the week follow each other, and the first of January 1970 was a Thursday.
pub proof fn law_days_of_the_week(days: int)
    requires
        days >= 0,
    ensures
        weekday_name(0) == "Thu"@,
        weekday_name(days + 7) == weekday_name(days),
        weekday_name(days) == "Mon"@ ==> weekday_name(days + 1) == "Tue"@,
        weekday_name(days) == "Tue"@ ==> weekday_name(days + 1) == "Wed"@,
        weekday_name(days) == "Wed"@ ==> weekday_name(days + 1) == "Thu"@,
        weekday_name(days) == "Thu"@ ==> weekday_name(days + 1) == "Fri"@,
        weekday_name(days) == "Fri"@ ==> weekday_name(days + 1) == "Sat"@,
        weekday_name(days) == "Sat"@ ==> weekday_name(days + 1) == "Sun"@,
        weekday_name(days) == "Sun"@ ==> weekday_name(days + 1) == "Mon"@,
{
    reveal_strlit("Sun");
    reveal_strlit("Mon");
    reveal_strlit("Tue");
    reveal_strlit("Wed");
    reveal_strlit("Thu");
    reveal_strlit("Fri");
    reveal_strlit("Sat");
    assert("Sun"@[1] == 'u' && "Sat"@[1] == 'a');
    assert("Sun"@[0] == 'S' && "Sat"@[0] == 'S');
    assert("Mon"@[0] == 'M' && "Wed"@[0] == 'W' && "Fri"@[0] == 'F');
    assert("Tue"@[0] == 'T' && "Thu"@[0] == 'T' && "Tue"@[1] == 'u' && "Thu"@[1] == 'h');
}

/// The months have their names.
pub proof fn law_names_of_the_months(month: int)
    ensures
        month == 1 ==> month_name(month) == "Jan"@,
        month == 2 ==> month_name(month) == "Feb"@,
        month == 3 ==> month_name(month) == "Mar"@,
        month == 4 ==> month_name(month) == "Apr"@,
        month == 5 ==> month_name(month) == "May"@,
        month == 6 ==> month_name(month) == "Jun"@,
        month == 7 ==> month_name(month) == "Jul"@,
        month == 8 ==> month_name(month) == "Aug"@,
        month == 9 ==> month_name(month) == "Sep"@,
        month == 10 ==> month_name(month) == "Oct"@,
        month == 11 ==> month_name(month) == "Nov"@,
        month == 12 ==> month_name(month) == "Dec"@,
{
}

/// Two digits are always two digits.
pub proof fn law_two_digits(n: int)
    requires
        0 <= n < 100,
    ensures
        two_digits(n) == seq![(48 + n / 10) as u8 as char, (48 + n % 10) as u8 as char],
{
    reveal_strlit("0");
    reveal_with_fuel(crate::number::digits, 3);
    assert("0"@ =~= seq!['0']);
    assert(two_digits(n) =~= seq![(48 + n / 10) as u8 as char, (48 + n % 10) as u8 as char]);
}

/// A moment is written with its day of the week, its date and its time of day.
pub proof fn law_written_moment(days: int, hour: int, minute: int, second: int)
    requires
        days >= 0,
        0 <= hour < 24,
        0 <= minute < 60,
        0 <= second < 60,
    ensures
        http_date(days * 86400 + hour * 3600 + minute * 60 + second) == weekday_name(days) + ", "@
            + two_digits(date(days).day) + " "@ + month_name(date(days).month) + " "@ + decimal(
            date(days).year,
        ) + " "@ + two_digits(hour) + ":"@ + two_digits(minute) + ":"@ + two_digits(second)
            + " GMT"@,
{
    let time = hour * 3600 + minute * 60 + second;
    let seconds = days * 86400 + time;
    assert(seconds / 86400 == days && seconds % 86400 == time) by (nonlinear_arith)
        requires
            seconds == days * 86400 + time,
            0 <= time < 86400,
    ;
    assert(time / 3600 == hour);
    assert(time / 60 % 60 == minute);
    assert(time % 60 == second);
}

} // verus!
