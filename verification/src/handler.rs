//! What a request asks for, and the file system work that answers it, step by step.

use crate::cgi::{CgiSpec, CgiSpecView};
use crate::config::{prefix_matches, CgiMapping, CgiMappingView, RouteConfig, RouteView};
use crate::http::{Request, RequestView};
use crate::listing::{directory_listing, entry_views, listing_page, Entry, EntryView};
use crate::multipart::{file_matches, parse_multipart_file, sent_file, FileView};
use crate::reply::{failure, opt_bytes, Reply, ReplyView};
use crate::response::{mime, mime_type, plain, Response, ResponseView};
use crate::session::{after_visit, session_id, session_page, SessionStore, Stamp, StoreView};
use crate::text::{
    ends_with, has_prefix, has_prefix_str, has_suffix, join, join_slices, join_strings,
    lemma_join_cut, lemma_trim_start, lemma_words_append, lemma_words_trim, lower, lower_slice,
    push_chars, same_str, starts_with, strings, texts, to_chars, to_text, trim_both,
    trim_both_slice, trim_end, trim_end_slice, trim_start, trim_start_slice, words, words_slice,
    CharSet,
};
use crate::util::{
    all_names, follow, followed, is_below, is_name, join_below, law_joined_path_stays_below,
    law_safe_name_is_a_name, lemma_names_are_kept, push_name, push_names, push_path, safe_join,
    safe_name, sanitize_filename,
};
use vstd::prelude::*;
use vstd::slice::{slice_subrange, slice_to_vec};
use vstd::utf8::encode_utf8;

verus! {

// Paths within a location

/// What a path says beyond its location's path.
pub open spec fn beyond(prefix: Seq<char>, path: Seq<char>) -> Seq<char> {
    if starts_with(path, prefix) {
        path.skip(prefix.len() as int)
    } else {
        Seq::empty()
    }
}

/// The path relative to its location.
pub open spec fn relative(prefix: Seq<char>, path: Seq<char>) -> Seq<char> {
    if prefix == "/"@ {
        trim_start(path, CharSet::Only('/'))
    } else {
        trim_start(beyond(prefix, path), CharSet::Only('/'))
    }
}

fn beyond_prefix<'a>(prefix: &[char], path: &'a [char]) -> (r: &'a [char])
    ensures
        r@ == beyond(prefix@, path@),
{
    let n: usize = prefix.len();
    let total: usize = path.len();
    if has_prefix(path, prefix) {
        slice_subrange(path, n, total)
    } else {
        let r = slice_subrange(path, 0, 0);
        assert(r@ =~= Seq::<char>::empty());
        r
    }
}

/// The path relative to its location.
pub fn route_relative(route: &RouteConfig, path: &str) -> (r: String)
    ensures
        r@ == relative(route@.path, path@),
{
    let chars = to_chars(path);
    if same_str(route.path.as_str(), "/") {
        return to_text(trim_start_slice(chars.as_slice(), CharSet::Only('/')));
    }
    let prefix = to_chars(route.path.as_str());
    to_text(trim_start_slice(beyond_prefix(prefix.as_slice(), chars.as_slice()), CharSet::Only('/')))
}

// Scripts

/// The first of the mappings whose extension ends the segment, in any case of ASCII letters.
pub open spec fn mapping_for(cgi: Seq<CgiMappingView>, segment: Seq<char>) -> Option<CgiMappingView>
    decreases cgi.len(),
{
    if cgi.len() == 0 {
        None
    } else if ends_with(lower(segment), cgi[0].extension) {
        Some(cgi[0])
    } else {
        mapping_for(cgi.skip(1), segment)
    }
}

/// The script that the segments from `i` on lead to first.
pub open spec fn script_from(route: RouteView, segments: Seq<Seq<char>>, i: int) -> Option<
    CgiSpecView,
>
    decreases segments.len() - i,
{
    if i < 0 || i >= segments.len() {
        None
    } else {
        match mapping_for(route.cgi, segments[i]) {
            None => script_from(route, segments, i + 1),
            Some(mapping) => match join_below(route.root, join(segments.take(i + 1), "/"@)) {
                Err(_) => None,
                Ok(script) => Some(
                    CgiSpecView {
                        interpreter: mapping.interpreter,
                        script,
                        path_info: if i + 1 < segments.len() {
                            "/"@ + join(segments.skip(i + 1), "/"@)
                        } else {
                            ""@
                        },
                    },
                ),
            },
        }
    }
}

/// The script that a path runs, and what the path says beyond it.
pub open spec fn script_for(route: RouteView, path: Seq<char>) -> Option<CgiSpecView> {
    script_from(route, words(relative(route.path, path), CharSet::Only('/')), 0)
}

/// What an optional script is.
pub open spec fn opt_spec(spec: Option<CgiSpec>) -> Option<CgiSpecView> {
    match spec {
        Some(s) => Some(s@),
        None => None,
    }
}

fn find_mapping<'a>(cgi: &'a [CgiMapping], segment: &[char]) -> (r: Option<&'a CgiMapping>)
    ensures
        match r {
            Some(m) => mapping_for(cgi@.map_values(|m: CgiMapping| m@), segment@) == Some(m@),
            None => mapping_for(cgi@.map_values(|m: CgiMapping| m@), segment@) is None,
        },
{
    let ghost all = cgi@.map_values(|m: CgiMapping| m@);
    let lowered = lower_slice(segment);
    assert(all.skip(0) =~= all);
    let mut i: usize = 0;
    while i < cgi.len()
        invariant
            0 <= i <= cgi@.len(),
            all == cgi@.map_values(|m: CgiMapping| m@),
            lowered@ == lower(segment@),
            mapping_for(all, segment@) == mapping_for(all.skip(i as int), segment@),
        decreases cgi.len() - i,
    {
        assert(all.skip(i as int)[0] == cgi@[i as int]@);
        assert(all.skip(i as int).skip(1) =~= all.skip(i + 1));
        if has_suffix(lowered.as_slice(), to_chars(cgi[i].extension.as_str()).as_slice()) {
            return Some(&cgi[i]);
        }
        i = i + 1;
    }
    None
}

/// The script that a path runs, and what the path says beyond it.
pub fn find_cgi(route: &RouteConfig, path: &str) -> (r: Option<CgiSpec>)
    ensures
        opt_spec(r) == script_for(route@, path@),
{
    let rel = to_chars(route_relative(route, path).as_str());
    let segments = words_slice(rel.as_slice(), CharSet::Only('/'));
    let ghost all = words(relative(route@.path, path@), CharSet::Only('/'));
    let total: usize = segments.len();
    let mut i: usize = 0;
    while i < total
        invariant
            0 <= i <= total,
            total == segments@.len(),
            all == texts(segments@),
            script_from(route@, all, 0) == script_from(route@, all, i as int),
            all == words(relative(route@.path, path@), CharSet::Only('/')),
        decreases total - i,
    {
        assert(all[i as int] == segments@[i as int]@);
        match find_mapping(route.cgi.as_slice(), segments[i]) {
            Some(mapping) => {
                let front = slice_subrange(segments.as_slice(), 0, i + 1);
                assert(texts(front@) =~= all.take(i + 1));
                let script_rel = to_text(join_slices(front, "/").as_slice());
                let script = match safe_join(route.root.as_str(), script_rel.as_str()) {
                    Ok(script) => script,
                    Err(_) => {
                        return None;
                    },
                };
                let mut path_info = "".to_owned();
                if i + 1 < total {
                    let back = slice_subrange(segments.as_slice(), i + 1, total);
                    assert(texts(back@) =~= all.skip(i + 1));
                    path_info = "/".to_owned();
                    push_chars(&mut path_info, join_slices(back, "/").as_slice());
                }
                return Some(
                    CgiSpec { interpreter: mapping.interpreter.clone(), script, path_info },
                );
            },
            None => {},
        }
        i = i + 1;
    }
    None
}

// Steps

/// What stands at a path.
#[derive(Debug, Clone, Copy, PartialEq, Eq, Structural)]
pub enum PathKind {
    File,
    Directory,
    Other,
    Missing,
}

/// What is to be done next for a request.
#[derive(Debug)]
pub enum Step {
    /// The request is answered.
    Reply(Reply),
    /// Run the script.
    Launch(CgiSpec),
    /// See what stands at the script's path.
    ProbeScript(CgiSpec),
    /// See what stands at the path that is asked for.
    ProbeTarget(String),
    /// Read the file that is asked for.
    ReadTarget(String),
    /// See what stands at the path of the directory's index file.
    ProbeIndex { directory: String, index: String },
    /// Read the index file.
    ReadIndex(String),
    /// List the directory.
    List(String),
    /// Make the directory for uploads, where it is not there.
    MakeDirectory(String),
    /// Store an upload in a file.
    Store { file: String, name: String, content: Vec<u8> },
    /// See what stands at the path that is to be deleted.
    ProbeVictim(String),
    /// Delete the file.
    Remove(String),
}

pub enum StepView {
    Reply(ReplyView),
    Launch(CgiSpecView),
    ProbeScript(CgiSpecView),
    ProbeTarget(Seq<char>),
    ReadTarget(Seq<char>),
    ProbeIndex { directory: Seq<char>, index: Seq<char> },
    ReadIndex(Seq<char>),
    List(Seq<char>),
    MakeDirectory(Seq<char>),
    Store { file: Seq<char>, name: Seq<char>, content: Seq<u8> },
    ProbeVictim(Seq<char>),
    Remove(Seq<char>),
}

impl View for Step {
    type V = StepView;

    open spec fn view(&self) -> StepView {
        match self {
            Step::Reply(reply) => StepView::Reply(reply@),
            Step::Launch(spec) => StepView::Launch(spec@),
            Step::ProbeScript(spec) => StepView::ProbeScript(spec@),
            Step::ProbeTarget(path) => StepView::ProbeTarget(path@),
            Step::ReadTarget(path) => StepView::ReadTarget(path@),
            Step::ProbeIndex { directory, index } => StepView::ProbeIndex {
                directory: directory@,
                index: index@,
            },
            Step::ReadIndex(path) => StepView::ReadIndex(path@),
            Step::List(path) => StepView::List(path@),
            Step::MakeDirectory(path) => StepView::MakeDirectory(path@),
            Step::Store { file, name, content } => StepView::Store {
                file: file@,
                name: name@,
                content: content@,
            },
            Step::ProbeVictim(path) => StepView::ProbeVictim(path@),
            Step::Remove(path) => StepView::Remove(path@),
        }
    }
}

/// How a step went.
#[derive(Debug)]
pub enum Answer {
    /// What stands at the path.
    Kind(PathKind),
    /// The content of the file, where it could be read.
    Content(Option<Vec<u8>>),
    /// The entries of the directory, where it could be listed.
    Entries(Option<Vec<Entry>>),
    /// The work was done, or why it was not.
    Done(Result<(), String>),
}

pub enum AnswerView {
    Kind(PathKind),
    Content(Option<Seq<u8>>),
    Entries(Option<Seq<EntryView>>),
    Done(Result<(), Seq<char>>),
}

impl View for Answer {
    type V = AnswerView;

    open spec fn view(&self) -> AnswerView {
        match self {
            Answer::Kind(kind) => AnswerView::Kind(*kind),
            Answer::Content(content) => AnswerView::Content(opt_bytes(*content)),
            Answer::Entries(entries) => AnswerView::Entries(
                match entries {
                    Some(v) => Some(entry_views(v@)),
                    None => None,
                },
            ),
            Answer::Done(result) => AnswerView::Done(
                match result {
                    Ok(_) => Ok(()),
                    Err(m) => Err(m@),
                },
            ),
        }
    }
}

/// A step that answers with an error.
pub open spec fn fails(status: u16, message: Seq<char>) -> StepView {
    StepView::Reply(failure(status, message))
}

fn fail(status: u16, message: &str) -> (r: Step)
    ensures
        r@ == fails(status, message@),
{
    Step::Reply(Reply::error(status, message))
}

fn fail_with(status: u16, before: &str, reason: &str) -> (r: Step)
    ensures
        r@ == fails(status, before@ + reason@),
{
    let mut m = before.to_owned();
    m.append(reason);
    fail(status, m.as_str())
}

/// A step that answers with a page.
pub open spec fn shows(body: Seq<u8>, content_type: Seq<char>) -> StepView {
    StepView::Reply(ReplyView::Page(plain(200, body).with("Content-Type"@, content_type)))
}

fn show(body: Vec<u8>, content_type: &str) -> (r: Step)
    ensures
        r@ == shows(body@, content_type@),
{
    Step::Reply(Reply::Page(Response::new(200, body).header("Content-Type", content_type)))
}

// GET

/// The first step of a request for a file or directory.
pub open spec fn get_step(route: RouteView, path: Seq<char>) -> StepView {
    match join_below(route.root, relative(route.path, path)) {
        Err(m) => fails(403, m),
        Ok(target) => StepView::ProbeTarget(target),
    }
}

/// The step for a directory without an index file.
pub open spec fn list_step(route: RouteView, directory: Seq<char>) -> StepView {
    if route.autoindex {
        StepView::List(directory)
    } else {
        fails(403, "directory listing is disabled"@)
    }
}

/// The step for a directory.
pub open spec fn directory_step(route: RouteView, directory: Seq<char>) -> StepView {
    match route.index {
        Some(index) => StepView::ProbeIndex { directory, index: followed(directory, index) },
        None => list_step(route, directory),
    }
}

/// Starts on a request for a file or directory.
pub fn handle_get(route: &RouteConfig, path: &str) -> (r: Step)
    ensures
        r@ == get_step(route@, path@),
{
    let rel = route_relative(route, path);
    match safe_join(route.root.as_str(), rel.as_str()) {
        Err(m) => fail(403, m.as_str()),
        Ok(target) => Step::ProbeTarget(target),
    }
}

fn list_directory(route: &RouteConfig, directory: String) -> (r: Step)
    ensures
        r@ == list_step(route@, directory@),
{
    if route.autoindex {
        Step::List(directory)
    } else {
        fail(403, "directory listing is disabled")
    }
}

fn enter_directory(route: &RouteConfig, directory: String) -> (r: Step)
    ensures
        r@ == directory_step(route@, directory@),
{
    match &route.index {
        Some(index) => {
            let index = follow(directory.as_str(), index.as_str());
            Step::ProbeIndex { directory, index }
        },
        None => list_directory(route, directory),
    }
}

// DELETE

/// The first step of a request to delete a file.
pub open spec fn delete_step(route: RouteView, path: Seq<char>) -> StepView {
    let rel = relative(route.path, path);
    if rel.len() == 0 {
        fails(403, "refusing to delete route root"@)
    } else {
        match join_below(route.root, rel) {
            Err(m) => fails(403, m),
            Ok(target) => StepView::ProbeVictim(target),
        }
    }
}

/// Starts on a request to delete a file.
pub fn handle_delete(route: &RouteConfig, path: &str) -> (r: Step)
    ensures
        r@ == delete_step(route@, path@),
{
    let rel = route_relative(route, path);
    if rel.as_str().is_empty() {
        return fail(403, "refusing to delete route root");
    }
    match safe_join(route.root.as_str(), rel.as_str()) {
        Err(m) => fail(403, m.as_str()),
        Ok(target) => Step::ProbeVictim(target),
    }
}

// Uploads

/// The request's body is multipart form data.
pub open spec fn is_multipart(request: RequestView) -> bool {
    match request.field("content-type"@) {
        Some(v) => starts_with(lower(v), "multipart/form-data"@),
        None => false,
    }
}

/// The name that an upload asks for, and its content.
pub open spec fn upload_file(route: RouteView, request: RequestView) -> Result<
    FileView,
    Seq<char>,
> {
    let name = trim_both(beyond(route.path, request.path), CharSet::Only('/'));
    if is_multipart(request) {
        sent_file(request)
    } else if name.len() > 0 {
        Ok((name, request.body))
    } else {
        match request.field("x-filename"@) {
            Some(given) => Ok((given, request.body)),
            None => Ok(("payload.bin"@, request.body)),
        }
    }
}

/// The step that stores an upload.
pub open spec fn store_step(route: RouteView, request: RequestView) -> StepView {
    match upload_file(route, request) {
        Err(m) => fails(400, m),
        Ok((name, content)) => match safe_name(name) {
            None => fails(400, "invalid upload filename"@),
            Some(safe) => StepView::Store { file: push_name(route.root, safe), name: safe, content },
        },
    }
}

/// The reply to an upload that was stored under a name.
pub open spec fn stored(route: RouteView, name: Seq<char>) -> ResponseView {
    plain(201, encode_utf8("uploaded "@ + name + "\n"@)).with(
        "Content-Type"@,
        "text/plain; charset=utf-8"@,
    ).with("Location"@, trim_end(route.path, CharSet::Only('/')) + "/"@ + name)
}

fn multipart_body(request: &Request) -> (r: bool)
    ensures
        r == is_multipart(request@),
{
    match request.header("content-type") {
        Some(v) => has_prefix_str(
            lower_slice(to_chars(v).as_slice()).as_slice(),
            "multipart/form-data",
        ),
        None => false,
    }
}

fn uploaded(route: &RouteConfig, request: &Request) -> (r: Result<(String, Vec<u8>), String>)
    ensures
        file_matches(r, upload_file(route@, request@)),
{
    if multipart_body(request) {
        return parse_multipart_file(request);
    }
    let path = to_chars(request.path.as_str());
    let prefix = to_chars(route.path.as_str());
    let rest = beyond_prefix(prefix.as_slice(), path.as_slice());
    let name = trim_both_slice(rest, CharSet::Only('/'));
    let content = request.body.clone();
    if name.len() > 0 {
        return Ok((to_text(name), content));
    }
    match request.header("x-filename") {
        Some(given) => Ok((given.to_owned(), content)),
        None => Ok(("payload.bin".to_owned(), content)),
    }
}

/// Goes on with an upload once its directory is there.
pub fn handle_upload(route: &RouteConfig, request: &Request) -> (r: Step)
    ensures
        r@ == store_step(route@, request@),
{
    let (name, content) = match uploaded(route, request) {
        Err(m) => {
            return fail(400, m.as_str());
        },
        Ok((name, content)) => (name, content),
    };
    match sanitize_filename(name.as_str()) {
        None => fail(400, "invalid upload filename"),
        Some(safe) => {
            let mut file = route.root.clone();
            push_path(&mut file, to_chars(safe.as_str()).as_slice());
            Step::Store { file, name: safe, content }
        },
    }
}

fn upload_stored(route: &RouteConfig, name: &str) -> (r: Response)
    ensures
        r@ == stored(route@, name@),
{
    let mut text = "uploaded ".to_owned();
    text.append(name);
    text.append("\n");
    let prefix = to_chars(route.path.as_str());
    let mut location = to_text(trim_end_slice(prefix.as_slice(), CharSet::Only('/')));
    location.append("/");
    location.append(name);
    Response::new(201, slice_to_vec(text.as_str().as_bytes())).header(
        "Content-Type",
        "text/plain; charset=utf-8",
    ).header("Location", location.as_str())
}

// What a request asks for

/// What a request asks for.
pub enum ActionView {
    /// Its session.
    Session,
    /// A step.
    Step(StepView),
}

/// What a request that the location allows asks for, beside redirects and scripts.
pub open spec fn plain_action(route: RouteView, request: RequestView) -> ActionView {
    if request.path == "/api/echo"@ && request.method == "POST"@ {
        ActionView::Step(
            shows(
                request.body,
                match request.field("content-type"@) {
                    Some(v) => v,
                    None => "application/octet-stream"@,
                },
            ),
        )
    } else if request.path == "/session"@ && request.method == "GET"@ {
        ActionView::Session
    } else if route.path == "/uploads"@ && request.method == "POST"@ {
        ActionView::Step(StepView::MakeDirectory(route.root))
    } else if request.method == "GET"@ {
        ActionView::Step(get_step(route, request.path))
    } else if request.method == "POST"@ {
        ActionView::Step(shows(request.body, "application/octet-stream"@))
    } else if request.method == "DELETE"@ {
        ActionView::Step(delete_step(route, request.path))
    } else {
        ActionView::Step(fails(405, "unsupported method"@))
    }
}

/// What a request asks for. The path is in its normal form.
pub open spec fn action(route: RouteView, request: RequestView) -> ActionView {
    if !route.methods.contains(request.method) {
        ActionView::Step(
            StepView::Reply(
                ReplyView::Error {
                    status: 405,
                    message: "method is not allowed for this route"@,
                    allow: Some(join(route.methods, ", "@)),
                },
            ),
        )
    } else {
        match route.redirect {
            Some((status, target)) => ActionView::Step(
                StepView::Reply(
                    ReplyView::Page(plain(status, Seq::empty()).with("Location"@, target)),
                ),
            ),
            None => match script_for(route, request.path) {
                Some(spec) => ActionView::Step(StepView::ProbeScript(spec)),
                None => plain_action(route, request),
            },
        }
    }
}

fn allows(route: &RouteConfig, method: &str) -> (r: bool)
    ensures
        r == route@.methods.contains(method@),
{
    let ghost all = strings(route.methods@);
    let mut i: usize = 0;
    while i < route.methods.len()
        invariant
            0 <= i <= route.methods@.len(),
            all == strings(route.methods@),
            forall|k: int| 0 <= k < i ==> all[k] != method@,
        decreases route.methods.len() - i,
    {
        assert(all[i as int] == route.methods@[i as int]@);
        if same_str(route.methods[i].as_str(), method) {
            return true;
        }
        i = i + 1;
    }
    false
}

/// The step and the sessions once a request was started on.
pub open spec fn started(
    action: ActionView,
    request: RequestView,
    stamp: Stamp,
    before: StoreView,
    after: StoreView,
    step: StepView,
) -> bool {
    match action {
        ActionView::Step(s) => step == s && after == before,
        ActionView::Session => {
            let id = session_id(before, request, stamp);
            &&& after == after_visit(before, request, stamp)
            &&& step == StepView::Reply(ReplyView::Page(session_page(id, after.sessions[id])))
        },
    }
}

fn plain_step(
    route: &RouteConfig,
    request: &Request,
    sessions: &mut SessionStore,
    stamp: Stamp,
) -> (r: Step)
    ensures
        started(
            plain_action(route@, request@),
            request@,
            stamp,
            old(sessions)@,
            final(sessions)@,
            r@,
        ),
{
    let path = request.path.as_str();
    let method = request.method.as_str();
    if same_str(path, "/api/echo") && same_str(method, "POST") {
        let content_type = match request.header("content-type") {
            Some(v) => v,
            None => "application/octet-stream",
        };
        return show(request.body.clone(), content_type);
    }
    if same_str(path, "/session") && same_str(method, "GET") {
        let response = sessions.session_response(request, stamp);
        return Step::Reply(Reply::Page(response));
    }
    if same_str(route.path.as_str(), "/uploads") && same_str(method, "POST") {
        return Step::MakeDirectory(route.root.clone());
    }
    if same_str(method, "GET") {
        handle_get(route, path)
    } else if same_str(method, "POST") {
        show(request.body.clone(), "application/octet-stream")
    } else if same_str(method, "DELETE") {
        handle_delete(route, path)
    } else {
        fail(405, "unsupported method")
    }
}

/// Starts on a request, whose path is in its normal form.
pub fn build_action(
    route: &RouteConfig,
    request: &Request,
    sessions: &mut SessionStore,
    stamp: Stamp,
) -> (r: Step)
    ensures
        started(
            action(route@, request@),
            request@,
            stamp,
            old(sessions)@,
            final(sessions)@,
            r@,
        ),
{
    if !allows(route, request.method.as_str()) {
        return Step::Reply(
            Reply::Error {
                status: 405,
                message: "method is not allowed for this route".to_owned(),
                allow: Some(join_strings(route.methods.as_slice(), ", ")),
            },
        );
    }
    match &route.redirect {
        Some((status, target)) => {
            let response = Response::new(*status, Vec::new()).header("Location", target.as_str());
            return Step::Reply(Reply::Page(response));
        },
        None => {},
    }
    match find_cgi(route, request.path.as_str()) {
        Some(spec) => Step::ProbeScript(spec),
        None => plain_step(route, request, sessions, stamp),
    }
}

/// The step that follows an answer. An answer to another question changes nothing.
pub open spec fn next_step(
    route: RouteView,
    request: RequestView,
    step: StepView,
    answer: AnswerView,
) -> StepView {
    match (step, answer) {
        (StepView::ProbeScript(spec), AnswerView::Kind(kind)) => if kind is File {
            StepView::Launch(spec)
        } else {
            fails(404, "CGI script not found"@)
        },
        (StepView::ProbeTarget(target), AnswerView::Kind(kind)) => match kind {
            PathKind::File => StepView::ReadTarget(target),
            PathKind::Directory => directory_step(route, target),
            _ => fails(404, "resource not found"@),
        },
        (StepView::ReadTarget(target), AnswerView::Content(content)) => match content {
            Some(body) => shows(body, mime(target)),
            None => fails(403, "file cannot be read"@),
        },
        (StepView::ProbeIndex { directory, index }, AnswerView::Kind(kind)) => if kind is File {
            StepView::ReadIndex(index)
        } else {
            list_step(route, directory)
        },
        (StepView::ReadIndex(index), AnswerView::Content(content)) => match content {
            Some(body) => shows(body, mime(index)),
            None => fails(403, "index file cannot be read"@),
        },
        (StepView::List(directory), AnswerView::Entries(entries)) => match entries {
            Some(entries) => shows(
                encode_utf8(listing_page(request.path, entries)),
                "text/html; charset=utf-8"@,
            ),
            None => fails(403, "directory cannot be listed"@),
        },
        (StepView::MakeDirectory(directory), AnswerView::Done(result)) => match result {
            Ok(_) => store_step(route, request),
            Err(reason) => fails(500, "cannot create upload directory: "@ + reason),
        },
        (StepView::Store { file, name, content }, AnswerView::Done(result)) => match result {
            Ok(_) => StepView::Reply(ReplyView::Page(stored(route, name))),
            Err(reason) => fails(500, "cannot store upload: "@ + reason),
        },
        (StepView::ProbeVictim(target), AnswerView::Kind(kind)) => match kind {
            PathKind::Missing => fails(404, "resource not found"@),
            PathKind::File => StepView::Remove(target),
            _ => fails(403, "only files may be deleted"@),
        },
        (StepView::Remove(target), AnswerView::Done(result)) => match result {
            Ok(_) => StepView::Reply(ReplyView::Page(plain(204, Seq::empty()))),
            Err(_) => fails(403, "resource cannot be deleted"@),
        },
        _ => step,
    }
}

impl Step {
    /// The step that follows an answer. An answer to another question changes nothing.
    pub fn advance(self, route: &RouteConfig, request: &Request, answer: Answer) -> (r: Step)
        ensures
            r@ == next_step(route@, request@, self@, answer@),
    {
        match (self, answer) {
            (Step::ProbeScript(spec), Answer::Kind(kind)) => {
                if kind == PathKind::File {
                    Step::Launch(spec)
                } else {
                    fail(404, "CGI script not found")
                }
            },
            (Step::ProbeTarget(target), Answer::Kind(kind)) => match kind {
                PathKind::File => Step::ReadTarget(target),
                PathKind::Directory => enter_directory(route, target),
                _ => fail(404, "resource not found"),
            },
            (Step::ReadTarget(target), Answer::Content(content)) => match content {
                Some(body) => show(body, mime_type(target.as_str())),
                None => fail(403, "file cannot be read"),
            },
            (Step::ProbeIndex { directory, index }, Answer::Kind(kind)) => {
                if kind == PathKind::File {
                    Step::ReadIndex(index)
                } else {
                    list_directory(route, directory)
                }
            },
            (Step::ReadIndex(index), Answer::Content(content)) => match content {
                Some(body) => show(body, mime_type(index.as_str())),
                None => fail(403, "index file cannot be read"),
            },
            (Step::List(directory), Answer::Entries(entries)) => match entries {
                Some(entries) => {
                    let page = directory_listing(entries, request.path.as_str());
                    show(slice_to_vec(page.as_str().as_bytes()), "text/html; charset=utf-8")
                },
                None => fail(403, "directory cannot be listed"),
            },
            (Step::MakeDirectory(_), Answer::Done(result)) => match result {
                Ok(_) => handle_upload(route, request),
                Err(reason) => fail_with(500, "cannot create upload directory: ", reason.as_str()),
            },
            (Step::Store { file: _, name, content: _ }, Answer::Done(result)) => match result {
                Ok(_) => Step::Reply(Reply::Page(upload_stored(route, name.as_str()))),
                Err(reason) => fail_with(500, "cannot store upload: ", reason.as_str()),
            },
            (Step::ProbeVictim(target), Answer::Kind(kind)) => match kind {
                PathKind::Missing => fail(404, "resource not found"),
                PathKind::File => Step::Remove(target),
                _ => fail(403, "only files may be deleted"),
            },
            (Step::Remove(_), Answer::Done(result)) => match result {
                Ok(_) => Step::Reply(Reply::Page(Response::new(204, Vec::new()))),
                Err(_) => fail(403, "resource cannot be deleted"),
            },
            (step, _) => step,
        }
    }
}

// What every step keeps

/// Everything that a step touches lies below the root of the location; the one exception is the
/// index file, which the configuration names.
pub open spec fn stays_below(route: RouteView, step: StepView) -> bool {
    match step {
        StepView::Reply(_) => true,
        StepView::Launch(spec) => is_below(route.root, spec.script),
        StepView::ProbeScript(spec) => is_below(route.root, spec.script),
        StepView::ProbeTarget(path) => is_below(route.root, path),
        StepView::ReadTarget(path) => is_below(route.root, path),
        StepView::ProbeIndex { directory, index } => is_below(route.root, directory) && (
        route.index matches Some(name) && index == followed(directory, name)),
        StepView::ReadIndex(path) => exists|directory: Seq<char>| #[trigger]
            is_below(route.root, directory) && (route.index matches Some(name) && path == followed(
                directory,
                name,
            )),
        StepView::List(path) => is_below(route.root, path),
        StepView::MakeDirectory(path) => path == route.root,
        StepView::Store { file, name, .. } => is_below(route.root, file) && is_name(name) && file
            == push_name(route.root, name),
        StepView::ProbeVictim(path) => is_below(route.root, path),
        StepView::Remove(path) => is_below(route.root, path),
    }
}

proof fn lemma_script_below(route: RouteView, segments: Seq<Seq<char>>, i: int)
    ensures
        script_from(route, segments, i) matches Some(spec) ==> is_below(route.root, spec.script),
    decreases segments.len() - i,
{
    if 0 <= i < segments.len() {
        if mapping_for(route.cgi, segments[i]) is None {
            lemma_script_below(route, segments, i + 1);
        } else {
            law_joined_path_stays_below(route.root, join(segments.take(i + 1), "/"@));
        }
    }
}

/// Whatever a request asks for, its first step stays below the root of the location.
pub proof fn law_first_step_stays_below(route: RouteView, request: RequestView)
    ensures
        action(route, request) matches ActionView::Step(step) ==> stays_below(route, step),
{
    lemma_script_below(
        route,
        words(relative(route.path, request.path), CharSet::Only('/')),
        0,
    );
    law_joined_path_stays_below(route.root, relative(route.path, request.path));
}

/// Whatever is answered to a step, the next one stays below the root of the location.
pub proof fn law_next_step_stays_below(
    route: RouteView,
    request: RequestView,
    step: StepView,
    answer: AnswerView,
)
    requires
        stays_below(route, step),
    ensures
        stays_below(route, next_step(route, request, step, answer)),
{
    if let StepView::MakeDirectory(_) = step {
        if let Ok((name, _)) = upload_file(route, request) {
            law_safe_name_is_a_name(name);
            if let Some(safe) = safe_name(name) {
                let names = seq![safe];
                assert(names.drop_last() =~= Seq::<Seq<char>>::empty());
                assert(push_names(route.root, names.drop_last()) == route.root);
                assert(push_names(route.root, names) == push_name(route.root, safe));
                assert(all_names(names));
            }
        }
    }
}

/// A request path in its normal form can always be joined to the root of the location that serves
/// it.
pub proof fn law_normal_path_can_be_joined(route: RouteView, path: Seq<char>)
    requires
        prefix_matches(route.path, path),
        all_names(words(path, CharSet::Only('/'))),
    ensures
        join_below(route.root, relative(route.path, path)) is Ok,
{
    let set = CharSet::Only('/');
    let rel = relative(route.path, path);
    let rest = if route.path == "/"@ {
        path
    } else {
        beyond(route.path, path)
    };
    lemma_trim_start(rest, set);
    lemma_words_trim(rest, set);
    let front = path.take(path.len() - rest.len());
    if route.path == "/"@ {
        assert(front + rest =~= path);
        assert(words(front, set) =~= Seq::<Seq<char>>::empty());
        assert(words(front, set) + words(rest, set) =~= words(rest, set));
    } else if path == route.path {
        assert(rest =~= Seq::<char>::empty());
        assert(front + rest =~= path);
        lemma_words_append(front, rest, set);
    } else {
        assert(front + rest =~= path);
        assert(rest[0] == '/');
        lemma_words_append(front, rest, set);
    }
    let all = words(path, set);
    let own = words(rel, set);
    let n = words(front, set).len();
    assert forall|k: int| 0 <= k < own.len() implies is_name(#[trigger] own[k]) by {
        assert(own[k] == all[n + k]);
    }
    lemma_names_are_kept(own);
}

/// The kind of answer that a step asks for.
pub open spec fn answers(step: StepView, answer: AnswerView) -> bool {
    match step {
        StepView::Reply(_) | StepView::Launch(_) => false,
        StepView::ProbeScript(_) | StepView::ProbeTarget(_) | StepView::ProbeVictim(_) => answer is Kind,
        StepView::ProbeIndex { .. } => answer is Kind,
        StepView::ReadTarget(_) | StepView::ReadIndex(_) => answer is Content,
        StepView::List(_) => answer is Entries,
        StepView::MakeDirectory(_) | StepView::Remove(_) => answer is Done,
        StepView::Store { .. } => answer is Done,
    }
}

/// How many more steps there are at most before the request is answered or its script is run.
pub open spec fn steps_left(step: StepView) -> int {
    match step {
        StepView::Reply(_) | StepView::Launch(_) => 0,
        StepView::ProbeTarget(_) => 3,
        StepView::ProbeIndex { .. } => 2,
        StepView::MakeDirectory(_) | StepView::ProbeVictim(_) => 2,
        _ => 1,
    }
}

/// Every request is answered, or its script is run, after at most three answers.
pub proof fn law_every_request_is_answered(
    route: RouteView,
    request: RequestView,
    step: StepView,
    answer: AnswerView,
)
    requires
        answers(step, answer),
    ensures
        0 <= steps_left(next_step(route, request, step, answer)) < steps_left(step) <= 3,
{
}

/// Nothing is removed but a file that was seen to be one.
pub proof fn law_only_files_are_removed(
    route: RouteView,
    request: RequestView,
    step: StepView,
    answer: AnswerView,
)
    requires
        answers(step, answer),
    ensures
        next_step(route, request, step, answer) matches StepView::Remove(path) ==> step
            == StepView::ProbeVictim(path) && answer == AnswerView::Kind(PathKind::File),
{
}

proof fn lemma_script_parts(route: RouteView, segments: Seq<Seq<char>>, i: int)
    requires
        0 <= i,
    ensures
        script_from(route, segments, i) matches Some(spec) ==> exists|n: int|
            0 < n <= segments.len() && join_below(
                route.root,
                #[trigger] join(segments.take(n), "/"@),
            ) == Ok::<Seq<char>, Seq<char>>(spec.script) && join(segments.take(n), "/"@)
                + spec.path_info == join(segments, "/"@),
    decreases segments.len() - i,
{
    if i < segments.len() {
        if mapping_for(route.cgi, segments[i]) is None {
            lemma_script_parts(route, segments, i + 1);
        } else if let Some(spec) = script_from(route, segments, i) {
            let n = i + 1;
            let script = join(segments.take(n), "/"@);
            if n < segments.len() {
                lemma_join_cut(segments, "/"@, n);
                assert(script + spec.path_info =~= join(segments, "/"@));
            } else {
                reveal_strlit("");
                assert(segments.take(n) =~= segments);
                assert(script + spec.path_info =~= join(segments, "/"@));
            }
        }
    }
}

/// The path of a script and its PATH_INFO make up the path that was asked for, relative to the
/// location and without empty segments.
pub proof fn law_path_info_completes_the_path(route: RouteView, path: Seq<char>)
    ensures
        script_for(route, path) matches Some(spec) ==> exists|script: Seq<char>| #[trigger]
            join_below(route.root, script) == Ok::<Seq<char>, Seq<char>>(spec.script) && script
                + spec.path_info == join(
                words(relative(route.path, path), CharSet::Only('/')),
                "/"@,
            ),
{
    let segments = words(relative(route.path, path), CharSet::Only('/'));
    lemma_script_parts(route, segments, 0);
    if let Some(spec) = script_for(route, path) {
        let n = choose|n: int|
            0 < n <= segments.len() && join_below(
                route.root,
                #[trigger] join(segments.take(n), "/"@),
            ) == Ok::<Seq<char>, Seq<char>>(spec.script) && join(segments.take(n), "/"@)
                + spec.path_info == join(segments, "/"@);
        let script = join(segments.take(n), "/"@);
        assert(join_below(route.root, script) == Ok::<Seq<char>, Seq<char>>(spec.script));
    }
}

} // verus!
