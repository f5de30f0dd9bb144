//! Replies, and the pages that stand for errors.

use crate::config::{root_index, ServerConfig, ServerView};
use crate::number::{decimal, push_number};
use crate::response::{mime, mime_type, plain, Response, ResponseView};
use crate::text::{to_chars, to_text, trim_start, trim_start_slice, CharSet};
use crate::util::{html_escape, html_text, join_below, safe_join, string_text};
use vstd::prelude::*;
use vstd::slice::slice_to_vec;
use vstd::utf8::encode_utf8;

verus! {

broadcast use vstd::std_specs::hash::group_hash_axioms;

/// The file that holds a server's page for a status, where it has one.
pub open spec fn error_page(server: ServerView, status: u16) -> Option<Seq<char>> {
    match root_index(server.routes) {
        Some(i) => if server.error_pages.dom().contains(status) {
            match join_below(
                server.routes[i].root,
                trim_start(server.error_pages[status], CharSet::Only('/')),
            ) {
                Ok(path) => Some(path),
                Err(_) => None,
            }
        } else {
            None
        },
        None => None,
    }
}

/// The page for an error without a page of its own.
pub open spec fn plain_error_page(status: u16, message: Seq<char>) -> Seq<char> {
    "<!doctype html><html><head><meta charset=\"utf-8\"><title>"@ + decimal(status as int)
        + "</title></head><body><h1>"@ + decimal(status as int) + "</h1><p>"@ + html_text(message)
        + "</p></body></html>"@
}

/// The response for an error, where `content` is what could be read of the server's page for it.
pub open spec fn error_result(
    server: ServerView,
    status: u16,
    message: Seq<char>,
    content: Option<Seq<u8>>,
) -> ResponseView {
    match (error_page(server, status), content) {
        (Some(path), Some(body)) => plain(status, body).with("Content-Type"@, mime(path)),
        _ => plain(status, encode_utf8(plain_error_page(status, message))).with(
            "Content-Type"@,
            "text/html; charset=utf-8"@,
        ),
    }
}

/// The file that holds a server's page for a status, where it has one.
pub fn error_page_path(server: &ServerConfig, status: u16) -> (r: Option<String>)
    ensures
        string_text(r) == error_page(server@, status),
{
    let page = match server.error_pages.get(&status) {
        Some(page) => page,
        None => {
            return None;
        },
    };
    assert(server@.error_pages[status] == page@);
    let root = match server.default_root() {
        Some(root) => root,
        None => {
            return None;
        },
    };
    let chars = to_chars(page.as_str());
    let relative = to_text(trim_start_slice(chars.as_slice(), CharSet::Only('/')));
    match safe_join(root, relative.as_str()) {
        Ok(path) => Some(path),
        Err(_) => None,
    }
}

/// What optional bytes hold.
pub open spec fn opt_bytes(content: Option<Vec<u8>>) -> Option<Seq<u8>> {
    match content {
        Some(v) => Some(v@),
        None => None,
    }
}

/// The response for an error, where `content` is what could be read of the server's page for it.
pub fn error_response(
    server: &ServerConfig,
    status: u16,
    message: &str,
    content: Option<Vec<u8>>,
) -> (r: Response)
    ensures
        r@ == error_result(server@, status, message@, opt_bytes(content)),
{
    match (error_page_path(server, status), content) {
        (Some(path), Some(body)) => Response::new(status, body).header(
            "Content-Type",
            mime_type(path.as_str()),
        ),
        _ => {
            let mut page = "<!doctype html><html><head><meta charset=\"utf-8\"><title>".to_owned();
            push_number(&mut page, status as u128, 10);
            page.append("</title></head><body><h1>");
            push_number(&mut page, status as u128, 10);
            page.append("</h1><p>");
            page.append(html_escape(message).as_str());
            page.append("</p></body></html>");
            assert(page@ =~= plain_error_page(status, message@));
            Response::new(status, slice_to_vec(page.as_str().as_bytes())).header(
                "Content-Type",
                "text/html; charset=utf-8",
            )
        },
    }
}

/// What a request is answered.
#[derive(Debug)]
pub enum Reply {
    /// A response.
    Page(Response),
    /// An error, for which the server may have a page of its own; and the methods that are
    /// allowed, where the reply names them.
    Error { status: u16, message: String, allow: Option<String> },
}

pub enum ReplyView {
    Page(ResponseView),
    Error { status: u16, message: Seq<char>, allow: Option<Seq<char>> },
}

impl View for Reply {
    type V = ReplyView;

    open spec fn view(&self) -> ReplyView {
        match self {
            Reply::Page(response) => ReplyView::Page(response@),
            Reply::Error { status, message, allow } => ReplyView::Error {
                status: *status,
                message: message@,
                allow: string_text(*allow),
            },
        }
    }
}

/// A reply with an error.
pub open spec fn failure(status: u16, message: Seq<char>) -> ReplyView {
    ReplyView::Error { status, message, allow: None }
}

impl ReplyView {
    /// The file that the response needs.
    pub open spec fn page(self, server: ServerView) -> Option<Seq<char>> {
        match self {
            ReplyView::Page(_) => None,
            ReplyView::Error { status, .. } => error_page(server, status),
        }
    }

    /// The response, where `content` is what could be read of the file that it needs.
    pub open spec fn response(self, server: ServerView, content: Option<Seq<u8>>) -> ResponseView {
        match self {
            ReplyView::Page(response) => response,
            ReplyView::Error { status, message, allow } => {
                let response = error_result(server, status, message, content);
                match allow {
                    Some(methods) => response.with("Allow"@, methods),
                    None => response,
                }
            },
        }
    }

    /// The status of the response.
    pub open spec fn status(self) -> u16 {
        match self {
            ReplyView::Page(response) => response.status,
            ReplyView::Error { status, .. } => status,
        }
    }
}

impl Reply {
    /// A reply with an error.
    pub fn error(status: u16, message: &str) -> (r: Reply)
        ensures
            r@ == failure(status, message@),
    {
        Reply::Error { status, message: message.to_owned(), allow: None }
    }

    /// The file that the response needs: the server's page for the error.
    pub fn page_path(&self, server: &ServerConfig) -> (r: Option<String>)
        ensures
            string_text(r) == self@.page(server@),
    {
        match self {
            Reply::Page(_) => None,
            Reply::Error { status, .. } => error_page_path(server, *status),
        }
    }

    /// The response, where `content` is what could be read of the file that it needs.
    pub fn into_response(self, server: &ServerConfig, content: Option<Vec<u8>>) -> (r: Response)
        ensures
            r@ == self@.response(server@, opt_bytes(content)),
    {
        match self {
            Reply::Page(response) => response,
            Reply::Error { status, message, allow } => {
                let response = error_response(server, status, message.as_str(), content);
                match allow {
                    Some(methods) => response.header("Allow", methods.as_str()),
                    None => response,
                }
            },
        }
    }
}

/// The response to an error has the error's status, whether or not the server has a page for it.
pub proof fn law_error_keeps_its_status(
    server: ServerView,
    reply: ReplyView,
    content: Option<Seq<u8>>,
)
    ensures
        reply.response(server, content).status == reply.status(),
{
}

} // verus!
