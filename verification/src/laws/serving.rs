//! What requests are answered with: files, directories, scripts, uploads, deletions and redirects.

use crate::cgi::CgiSpecView;
use crate::config::RouteView;
use crate::handler::{
    action, mapping_for, next_step, script_for, script_from, store_step, upload_file, ActionView,
    AnswerView, PathKind, StepView,
};
use crate::http::RequestView;
use crate::laws::paths::{
    law_followed_path, law_joined_path, law_path_within_a_location, lemma_segments_of_path,
    lemma_slash, path_of,
};
use crate::laws::requests::law_known_names;
use crate::listing::{listing_page, EntryView};
use crate::multipart::{law_upload_keeps_the_data, written_form, PartView};
use crate::reply::ReplyView;
use crate::response::mime;
use crate::text::{join, lower, trim_both, trim_end, trim_start, CharSet};
use crate::util::{all_names, is_name, join_below, safe_name};
use vstd::prelude::*;
use vstd::utf8::encode_utf8;

verus! {

/// The step answers with a page of status 200 that holds the given bytes, under the given type.
pub open spec fn answers_with(step: StepView, body: Seq<u8>, content_type: Seq<char>) -> bool {
    step matches StepView::Reply(ReplyView::Page(r)) && r.status == 200 && r.body == body
        && r.headers == seq![("Content-Type"@, content_type)]
}

/// The step answers with an error of the given status and message.
pub open spec fn refuses_with(step: StepView, code: u16, text: Seq<char>) -> bool {
    step == StepView::Reply(ReplyView::Error { status: code, message: text, allow: None })
}

proof fn lemma_one_header(body: Seq<u8>, content_type: Seq<char>)
    ensures
        answers_with(crate::handler::shows(body, content_type), body, content_type),
{
    assert(Seq::<(Seq<char>, Seq<char>)>::empty().push(("Content-Type"@, content_type)) =~= seq![
        ("Content-Type"@, content_type),
    ]);
}

// Files and directories

/// The path of a location that names make up: the location's own path, and what follows it.
pub open spec fn path_below(prefix: Seq<char>, names: Seq<Seq<char>>) -> Seq<char> {
    if prefix == seq!['/'] {
        prefix + path_of(names)
    } else if names.len() == 0 {
        prefix
    } else {
        prefix + seq!['/'] + path_of(names)
    }
}

/// The file that names make up below a root.
pub open spec fn file_below(root: Seq<char>, names: Seq<Seq<char>>) -> Seq<char> {
    if names.len() == 0 {
        root
    } else {
        root + seq!['/'] + path_of(names)
    }
}

/// The location's root is a path that does not end in a slash.
pub open spec fn has_plain_root(route: RouteView) -> bool {
    route.root.len() > 0 && route.root[route.root.len() - 1] != '/'
}

proof fn lemma_target(route: RouteView, names: Seq<Seq<char>>)
    requires
        all_names(names),
        has_plain_root(route),
    ensures
        join_below(
            route.root,
            crate::handler::relative(route.path, path_below(route.path, names)),
        ) == Ok::<Seq<char>, Seq<char>>(file_below(route.root, names)),
        crate::handler::relative(route.path, path_below(route.path, names)) == path_of(names),
{
    law_path_within_a_location(route.path, names);
    law_joined_path(route.root, names);
    if names.len() == 0 {
        assert(path_of(names) =~= Seq::<char>::empty());
    }
}

/// A request for a path is for the file with the same names below the location's root.
pub proof fn law_get_looks_below_the_root(
    route: RouteView,
    request: RequestView,
    names: Seq<Seq<char>>,
)
    requires
        all_names(names),
        has_plain_root(route),
        request.method == "GET"@,
        request.path == path_below(route.path, names),
        request.path != "/session"@,
        route.methods.contains("GET"@),
        route.redirect is None,
        script_for(route, request.path) is None,
    ensures
        action(route, request) == ActionView::Step(
            StepView::ProbeTarget(file_below(route.root, names)),
        ),
{
    lemma_target(route, names);
    lemma_methods_differ();
}

proof fn lemma_methods_differ()
    ensures
        "GET"@.len() == 3,
        "POST"@.len() == 4,
        "DELETE"@.len() == 6,
        "/api/echo"@.len() == 9,
        "/session"@.len() == 8,
        "/uploads"@.len() == 8,
{
    reveal_strlit("GET");
    reveal_strlit("POST");
    reveal_strlit("DELETE");
    reveal_strlit("/api/echo");
    reveal_strlit("/session");
    reveal_strlit("/uploads");
}

/// A file that is asked for is read, and answered with as it is and with the type of its name; what
/// is not there is not found, and what cannot be read is forbidden.
pub proof fn law_file_is_answered_with(
    route: RouteView,
    request: RequestView,
    target: Seq<char>,
    body: Seq<u8>,
)
    ensures
        next_step(route, request, StepView::ProbeTarget(target), AnswerView::Kind(PathKind::File))
            == StepView::ReadTarget(target),
        answers_with(
            next_step(
                route,
                request,
                StepView::ReadTarget(target),
                AnswerView::Content(Some(body)),
            ),
            body,
            mime(target),
        ),
        refuses_with(
            next_step(route, request, StepView::ReadTarget(target), AnswerView::Content(None)),
            403,
            "file cannot be read"@,
        ),
        refuses_with(
            next_step(
                route,
                request,
                StepView::ProbeTarget(target),
                AnswerView::Kind(PathKind::Missing),
            ),
            404,
            "resource not found"@,
        ),
        refuses_with(
            next_step(
                route,
                request,
                StepView::ProbeTarget(target),
                AnswerView::Kind(PathKind::Other),
            ),
            404,
            "resource not found"@,
        ),
{
    lemma_one_header(body, mime(target));
}

/// Where a location names an index file, a request for a directory looks for that file in the
/// directory first, whatever is said of listings; where it is a file, it is read and answered with
/// as it is, and where it cannot be read, that is forbidden.
pub proof fn law_index_file_comes_first(
    route: RouteView,
    request: RequestView,
    directory: Seq<char>,
    index: Seq<char>,
    body: Seq<u8>,
)
    requires
        route.index == Some(index),
        index.len() == 0 || index[0] != '/',
        directory.len() > 0,
        directory[directory.len() - 1] != '/',
    ensures
        ({
            let file = directory + seq!['/'] + index;
            &&& next_step(
                route,
                request,
                StepView::ProbeTarget(directory),
                AnswerView::Kind(PathKind::Directory),
            ) == StepView::ProbeIndex { directory, index: file }
            &&& next_step(
                route,
                request,
                StepView::ProbeIndex { directory, index: file },
                AnswerView::Kind(PathKind::File),
            ) == StepView::ReadIndex(file)
            &&& answers_with(
                next_step(
                    route,
                    request,
                    StepView::ReadIndex(file),
                    AnswerView::Content(Some(body)),
                ),
                body,
                mime(file),
            )
            &&& refuses_with(
                next_step(route, request, StepView::ReadIndex(file), AnswerView::Content(None)),
                403,
                "index file cannot be read"@,
            )
        }),
{
    law_followed_path(directory, index);
    lemma_one_header(body, mime(directory + seq!['/'] + index));
}

/// A directory is listed only where it has no index file and the location allows it; where it has
/// none and the location does not, the request is refused.
pub proof fn law_listing_comes_second(
    route: RouteView,
    request: RequestView,
    directory: Seq<char>,
    index: Seq<char>,
    kind: PathKind,
)
    ensures
        kind != PathKind::File ==> ({
            let next = next_step(
                route,
                request,
                StepView::ProbeIndex { directory, index },
                AnswerView::Kind(kind),
            );
            &&& route.autoindex ==> next == StepView::List(directory)
            &&& !route.autoindex ==> refuses_with(next, 403, "directory listing is disabled"@)
        }),
        route.index is None ==> ({
            let next = next_step(
                route,
                request,
                StepView::ProbeTarget(directory),
                AnswerView::Kind(PathKind::Directory),
            );
            &&& route.autoindex ==> next == StepView::List(directory)
            &&& !route.autoindex ==> refuses_with(next, 403, "directory listing is disabled"@)
        }),
        route.index is Some ==> !(next_step(
            route,
            request,
            StepView::ProbeTarget(directory),
            AnswerView::Kind(PathKind::Directory),
        ) is List),
{
}

/// A listing is a page of HTML with the directory's entries, under the path of the request; a
/// directory that cannot be listed is forbidden.
pub proof fn law_listing_is_answered_with(
    route: RouteView,
    request: RequestView,
    directory: Seq<char>,
    entries: Seq<EntryView>,
)
    ensures
        answers_with(
            next_step(
                route,
                request,
                StepView::List(directory),
                AnswerView::Entries(Some(entries)),
            ),
            encode_utf8(listing_page(request.path, entries)),
            "text/html; charset=utf-8"@,
        ),
        refuses_with(
            next_step(route, request, StepView::List(directory), AnswerView::Entries(None)),
            403,
            "directory cannot be listed"@,
        ),
{
    lemma_one_header(
        encode_utf8(listing_page(request.path, entries)),
        "text/html; charset=utf-8"@,
    );
}

// Scripts

proof fn lemma_script_from(route: RouteView, names: Seq<Seq<char>>, i: int, k: int)
    requires
        0 <= k <= i < names.len(),
        forall|j: int| k <= j < i ==> mapping_for(route.cgi, #[trigger] names[j]) is None,
    ensures
        script_from(route, names, k) == script_from(route, names, i),
    decreases i - k,
{
    if k < i {
        assert(mapping_for(route.cgi, names[k]) is None);
        lemma_script_from(route, names, i, k + 1);
    }
}

/// The first name in a path that is one of a script makes the request one for that script, which
/// stands at the names up to there; the names after it are handed on to it. The interpreter is the
/// one of the mapping. It is run where there is such a file, and else not found.
pub proof fn law_script_is_found(
    route: RouteView,
    request: RequestView,
    names: Seq<Seq<char>>,
    i: int,
)
    requires
        all_names(names),
        has_plain_root(route),
        0 <= i < names.len(),
        forall|j: int| 0 <= j < i ==> mapping_for(route.cgi, #[trigger] names[j]) is None,
        mapping_for(route.cgi, names[i]) is Some,
        request.path == path_below(route.path, names),
        route.methods.contains(request.method),
        route.redirect is None,
    ensures
        ({
            let spec = CgiSpecView {
                interpreter: (mapping_for(route.cgi, names[i])->0).interpreter,
                script: route.root + seq!['/'] + path_of(names.take(i + 1)),
                path_info: if i + 1 < names.len() {
                    seq!['/'] + path_of(names.skip(i + 1))
                } else {
                    Seq::empty()
                },
            };
            &&& script_for(route, request.path) == Some(spec)
            &&& action(route, request) == ActionView::Step(StepView::ProbeScript(spec))
            &&& next_step(
                route,
                request,
                StepView::ProbeScript(spec),
                AnswerView::Kind(PathKind::File),
            ) == StepView::Launch(spec)
            &&& forall|kind: PathKind|
                kind != PathKind::File ==> refuses_with(
                    #[trigger] next_step(
                        route,
                        request,
                        StepView::ProbeScript(spec),
                        AnswerView::Kind(kind),
                    ),
                    404,
            "CGI script not found"@,
                )
        }),
{
    lemma_slash();
    reveal_strlit("");
    assert(""@ =~= Seq::<char>::empty());
    lemma_target(route, names);
    lemma_segments_of_path(names);
    lemma_script_from(route, names, i, 0);
    let upto = names.take(i + 1);
    assert forall|k: int| 0 <= k < upto.len() implies is_name(#[trigger] upto[k]) by {
        assert(upto[k] == names[k]);
    }
    law_joined_path(route.root, upto);
}

/// A path without a script's name in it is for no script.
pub proof fn law_no_script_without_a_mapping(route: RouteView, names: Seq<Seq<char>>)
    requires
        all_names(names),
        has_plain_root(route),
        forall|j: int| 0 <= j < names.len() ==> mapping_for(route.cgi, #[trigger] names[j]) is None,
    ensures
        script_for(route, path_below(route.path, names)) is None,
{
    lemma_target(route, names);
    lemma_segments_of_path(names);
    lemma_no_script(route, names, 0);
}

proof fn lemma_no_script(route: RouteView, names: Seq<Seq<char>>, k: int)
    requires
        0 <= k <= names.len(),
        forall|j: int| 0 <= j < names.len() ==> mapping_for(route.cgi, #[trigger] names[j]) is None,
    ensures
        script_from(route, names, k) is None,
    decreases names.len() - k,
{
    if k < names.len() {
        assert(mapping_for(route.cgi, names[k]) is None);
        lemma_no_script(route, names, k + 1);
    }
}

// What a location allows

/// A method that the location does not have is refused with 405 and the location's methods,
/// whatever else the location says.
pub proof fn law_other_methods_are_refused(route: RouteView, request: RequestView)
    requires
        !route.methods.contains(request.method),
    ensures
        action(route, request) matches ActionView::Step(
            StepView::Reply(ReplyView::Error { status, message, allow }),
        ) && status == 405 && message == "method is not allowed for this route"@
            && allow == Some(join(route.methods, seq![',', ' '])),
{
    reveal_strlit(", ");
    assert(", "@ =~= seq![',', ' ']);
}

/// A location with a redirect answers every request that it allows with it: the status, the place
/// to go to, and no body.
pub proof fn law_redirect_is_answered_with(
    route: RouteView,
    request: RequestView,
    status: u16,
    target: Seq<char>,
)
    requires
        route.methods.contains(request.method),
        route.redirect == Some((status, target)),
    ensures
        action(route, request) matches ActionView::Step(StepView::Reply(ReplyView::Page(r)))
            && r.status == status && r.headers == seq![("Location"@, target)] && r.body.len() == 0,
{
    assert(Seq::<(Seq<char>, Seq<char>)>::empty().push(("Location"@, target)) =~= seq![
        ("Location"@, target),
    ]);
}

/// Where no redirect and no script answers, the body of a request to the echo comes back as it is,
/// under its own type; a request for the session is answered from the store; and a body that is
/// posted elsewhere than to the uploads comes back as it is too.
pub proof fn law_posted_bodies_come_back(route: RouteView, request: RequestView)
    requires
        route.methods.contains(request.method),
        route.redirect is None,
        script_for(route, request.path) is None,
    ensures
        request.method == "POST"@ && request.path == "/api/echo"@ ==> (action(
            route,
            request,
        ) matches ActionView::Step(step) && answers_with(
            step,
            request.body,
            if request.headers.dom().contains("content-type"@) {
                request.headers["content-type"@]
            } else {
                "application/octet-stream"@
            },
        )),
        request.method == "POST"@ && request.path != "/api/echo"@ && route.path != "/uploads"@ ==> (
        action(route, request) matches ActionView::Step(step) && answers_with(
            step,
            request.body,
            "application/octet-stream"@,
        )),
        request.method == "POST"@ && request.path != "/api/echo"@ && route.path == "/uploads"@
            ==> action(route, request) == ActionView::Step(StepView::MakeDirectory(route.root)),
        request.method == "GET"@ && request.path == "/session"@ <==> action(
            route,
            request,
        ) is Session,
        request.method != "GET"@ && request.method != "POST"@ && request.method != "DELETE"@ ==> (
        action(route, request) matches ActionView::Step(step) && refuses_with(
            step,
            405,
            "unsupported method"@,
        )),
{
    law_known_names(request);
    lemma_methods_differ();
    lemma_one_header(request.body, "application/octet-stream"@);
    if request.headers.dom().contains("content-type"@) {
        lemma_one_header(request.body, request.headers["content-type"@]);
    }
}

// Deletions

/// A deletion is of the file with the same names below the location's root; that of the root
/// itself is refused.
pub proof fn law_delete_looks_below_the_root(
    route: RouteView,
    request: RequestView,
    names: Seq<Seq<char>>,
)
    requires
        all_names(names),
        has_plain_root(route),
        request.method == "DELETE"@,
        request.path == path_below(route.path, names),
        route.methods.contains("DELETE"@),
        route.redirect is None,
        script_for(route, request.path) is None,
    ensures
        names.len() > 0 ==> action(route, request) == ActionView::Step(
            StepView::ProbeVictim(file_below(route.root, names)),
        ),
        names.len() == 0 ==> (action(route, request) matches ActionView::Step(step)
            && refuses_with(step, 403, "refusing to delete route root"@)),
{
    lemma_target(route, names);
    lemma_methods_differ();
    if names.len() == 0 {
        assert(path_of(names) =~= Seq::<char>::empty());
    } else {
        crate::laws::paths::lemma_first_of_path(names);
    }
}

/// A file is removed, and the answer is then 204 without a body; what is not there is not found,
/// and what is no file, or cannot be removed, is forbidden.
pub proof fn law_delete_is_answered_with(
    route: RouteView,
    request: RequestView,
    target: Seq<char>,
    reason: Seq<char>,
)
    ensures
        next_step(route, request, StepView::ProbeVictim(target), AnswerView::Kind(PathKind::File))
            == StepView::Remove(target),
        refuses_with(
            next_step(
                route,
                request,
                StepView::ProbeVictim(target),
                AnswerView::Kind(PathKind::Missing),
            ),
            404,
            "resource not found"@,
        ),
        refuses_with(
            next_step(
                route,
                request,
                StepView::ProbeVictim(target),
                AnswerView::Kind(PathKind::Directory),
            ),
            403,
            "only files may be deleted"@,
        ),
        refuses_with(
            next_step(
                route,
                request,
                StepView::ProbeVictim(target),
                AnswerView::Kind(PathKind::Other),
            ),
            403,
            "only files may be deleted"@,
        ),
        next_step(route, request, StepView::Remove(target), AnswerView::Done(Ok(()))) matches StepView::Reply(
            ReplyView::Page(r),
        ) && r.status == 204 && r.headers.len() == 0 && r.body.len() == 0,
        refuses_with(
            next_step(route, request, StepView::Remove(target), AnswerView::Done(Err(reason))),
            403,
            "resource cannot be deleted"@,
        ),
{
}

// Uploads

/// The request says that its body is multipart form data.
pub open spec fn sends_a_form(request: RequestView) -> bool {
    &&& request.headers.dom().contains("content-type"@)
    &&& lower(request.headers["content-type"@]).len() >= 19
    &&& lower(request.headers["content-type"@]).take(19) == "multipart/form-data"@
}

proof fn lemma_is_multipart(request: RequestView)
    ensures
        crate::handler::is_multipart(request) <==> sends_a_form(request),
{
    law_known_names(request);
    reveal_strlit("multipart/form-data");
}

/// An upload that is not a form is stored with the request's body, byte for byte, wherever its name
/// comes from.
pub proof fn law_upload_keeps_the_body(route: RouteView, request: RequestView)
    requires
        !sends_a_form(request),
    ensures
        store_step(route, request) matches StepView::Store { content, .. } ==> content
            == request.body,
        upload_file(route, request) matches Ok((_, content)) && content == request.body,
        store_step(route, request) is Store || refuses_with(
            store_step(route, request),
            400,
            "invalid upload filename"@,
        ),
{
    lemma_is_multipart(request);
}

/// The step that stores a body under a name that is asked for: the name is made safe, and the file
/// stands right below the root; where the name cannot be made safe the request is refused.
pub open spec fn stores(
    route: RouteView,
    step: StepView,
    asked: Seq<char>,
    body: Seq<u8>,
) -> bool {
    match safe_name(asked) {
        Some(safe) => step == StepView::Store {
            file: route.root + seq!['/'] + safe,
            name: safe,
            content: body,
        },
        None => refuses_with(step, 400, "invalid upload filename"@),
    }
}

/// The name of an upload that is not a form is what the path says beyond the location, without the
/// slashes around it; else what the header for it says; else a fixed one. It is stored under that
/// name with the request's body.
pub proof fn law_upload_is_stored_under_its_name(
    route: RouteView,
    request: RequestView,
    beyond: Seq<char>,
)
    requires
        !sends_a_form(request),
        has_plain_root(route),
        request.path == route.path + beyond,
    ensures
        ({
            let step = next_step(
                route,
                request,
                StepView::MakeDirectory(route.root),
                AnswerView::Done(Ok(())),
            );
            let name = trim_both(beyond, CharSet::Only('/'));
            &&& name.len() > 0 ==> stores(route, step, name, request.body)
            &&& name.len() == 0 && request.headers.dom().contains("x-filename"@) ==> stores(
                route,
                step,
                request.headers["x-filename"@],
                request.body,
            )
            &&& name.len() == 0 && !request.headers.dom().contains("x-filename"@) ==> stores(
                route,
                step,
                "payload.bin"@,
                request.body,
            )
        }),
{
    lemma_is_multipart(request);
    law_known_names(request);
    assert(request.path.take(route.path.len() as int) =~= route.path);
    assert(request.path.skip(route.path.len() as int) =~= beyond);
    let name = trim_both(beyond, CharSet::Only('/'));
    if safe_name(name) is Some {
        law_followed_path(route.root, safe_name(name)->0);
    }
    if request.headers.dom().contains("x-filename"@) && safe_name(
        request.headers["x-filename"@],
    ) is Some {
        law_followed_path(route.root, safe_name(request.headers["x-filename"@])->0);
    }
    if safe_name("payload.bin"@) is Some {
        law_followed_path(route.root, safe_name("payload.bin"@)->0);
    }
}

/// The slashes around a name are left out where it stands between them, and where there are only
/// slashes nothing is left.
pub proof fn law_name_between_slashes(name: Seq<char>)
    requires
        name.len() > 0,
        name[0] != '/',
        name[name.len() - 1] != '/',
    ensures
        trim_both(name, CharSet::Only('/')) == name,
        trim_both(seq!['/'] + name, CharSet::Only('/')) == name,
        trim_both(seq!['/'] + name + seq!['/'], CharSet::Only('/')) == name,
        trim_both(Seq::empty(), CharSet::Only('/')) == Seq::<char>::empty(),
        trim_both(seq!['/'], CharSet::Only('/')) == Seq::<char>::empty(),
{
    let set = CharSet::Only('/');
    let none = Seq::<char>::empty();
    assert(trim_start(name, set) == name);
    assert(trim_end(name, set) == name);
    let a = seq!['/'] + name;
    assert(a.skip(1) =~= name);
    assert(trim_start(a, set) == name);
    assert(trim_end(a, set) == a);
    let b = seq!['/'] + name + seq!['/'];
    assert(b.skip(1) =~= name + seq!['/']);
    let c = name + seq!['/'];
    assert(c[0] == name[0]);
    assert(trim_start(c, set) == c);
    assert(trim_start(b, set) == c);
    assert(c.drop_last() =~= name);
    assert(trim_end(c, set) == name);
    assert(b.drop_last() =~= a);
    assert(trim_end(b, set) == a);
    assert(trim_start(none, set) == none);
    assert(trim_end(none, set) == none);
    let d = seq!['/'];
    assert(d.skip(1) =~= none);
    assert(trim_start(d, set) == none);
    assert(d.drop_last() =~= none);
    assert(trim_end(d, set) == none);
}

/// An upload that was stored is answered with 201, its name, and the place where it can be asked
/// for; one that could not be stored, or whose directory could not be made, is an error of the
/// server.
pub proof fn law_upload_is_answered_with(
    route: RouteView,
    request: RequestView,
    file: Seq<char>,
    name: Seq<char>,
    content: Seq<u8>,
    reason: Seq<char>,
)
    requires
        route.path.len() > 0,
        route.path[route.path.len() - 1] != '/',
    ensures
        next_step(
            route,
            request,
            StepView::Store { file, name, content },
            AnswerView::Done(Ok(())),
        ) matches StepView::Reply(ReplyView::Page(r)) && r.status == 201 && r.body == encode_utf8(
            "uploaded "@ + name + "\n"@,
        ) && r.headers.contains(("Location"@, route.path + seq!['/'] + name)) && r.headers.contains(
            ("Content-Type"@, "text/plain; charset=utf-8"@),
        ) && r.headers.len() == 2,
        refuses_with(
            next_step(
                route,
                request,
                StepView::Store { file, name, content },
                AnswerView::Done(Err(reason)),
            ),
            500,
            "cannot store upload: "@ + reason,
        ),
        refuses_with(
            next_step(
                route,
                request,
                StepView::MakeDirectory(route.root),
                AnswerView::Done(Err(reason)),
            ),
            500,
            "cannot create upload directory: "@ + reason,
        ),
{
    lemma_slash();
    assert(trim_end(route.path, CharSet::Only('/')) == route.path);
    let r = crate::handler::stored(route, name);
    assert(r.headers[0] == ("Content-Type"@, "text/plain; charset=utf-8"@));
    assert(r.headers[1] == ("Location"@, route.path + seq!['/'] + name));
}

/// A file that is sent in a form is stored as it was sent, byte for byte, under its name made safe.
pub proof fn law_form_upload_keeps_the_data(
    route: RouteView,
    request: RequestView,
    boundary: Seq<char>,
    parts: Seq<PartView>,
    rest: Seq<u8>,
)
    requires
        sends_a_form(request),
        crate::multipart::boundary(request.headers["content-type"@]) == Some(boundary),
        request.body == written_form(boundary, parts, rest),
        parts.len() > 0,
        forall|k: int| 0 <= k < parts.len() ==> (#[trigger] parts[k]).is_framed(boundary),
        forall|k: int| 0 <= k < parts.len() - 1 ==> (#[trigger] parts[k]).name() is None,
        parts.last().name() is Some,
        safe_name(parts.last().name()->0) is Some,
        has_plain_root(route),
    ensures
        ({
            let step = next_step(
                route,
                request,
                StepView::MakeDirectory(route.root),
                AnswerView::Done(Ok(())),
            );
            step matches StepView::Store { content, .. } && content == parts.last().data && stores(
                route,
                step,
                safe_name(parts.last().name()->0)->0,
                parts.last().data,
            )
        }),
{
    lemma_is_multipart(request);
    law_known_names(request);
    law_upload_keeps_the_data(boundary, parts, rest);
    let safe = safe_name(parts.last().name()->0)->0;
    lemma_safe_name_stays(parts.last().name()->0);
    law_followed_path(route.root, safe);
}

proof fn lemma_safe_name_stays(name: Seq<char>)
    requires
        safe_name(name) is Some,
    ensures
        safe_name(safe_name(name)->0) == safe_name(name),
{
    let safe = safe_name(name)->0;
    crate::util::law_safe_name_is_a_name(name);
    assert forall|i: int| 0 <= i < safe.len() implies crate::laws::paths::may_stand_in_a_name(
        #[trigger] safe[i],
    ) by {
        assert(crate::util::safe_char(safe[i]) == safe[i]);
    }
    crate::laws::paths::law_plain_name_is_safe(Seq::empty(), safe);
}

} // verus!
