//! Configuration: server blocks, their locations, and the choice of a location for a path.

use crate::addr::{addr_text, listen_addr, ListenAddr};
use crate::http::result_view;
use crate::number::{decimal, number, parse_number, push_number};
use crate::text::{
    before, before_slice, has_prefix, has_prefix_str, is_text, join, join_strings,
    lemma_lower_twice, lemma_strings_push, lines, lines_slice, lower, lower_slice, push_chars, same,
    same_str, starts_with, strings, texts, to_chars, to_text, trim, trim_end, trim_end_slice,
    trim_slice, upper, upper_slice, words, words_slice, CharSet,
};
use std::collections::HashMap;
use vstd::prelude::*;
use vstd::slice::slice_subrange;

verus! {

broadcast use vstd::std_specs::hash::group_hash_axioms;

/// Files with an extension, and the program that runs them.
#[derive(Debug)]
pub struct CgiMapping {
    pub extension: String,
    pub interpreter: String,
}

#[verifier::ext_equal]
pub struct CgiMappingView {
    pub extension: Seq<char>,
    pub interpreter: Seq<char>,
}

impl View for CgiMapping {
    type V = CgiMappingView;

    open spec fn view(&self) -> CgiMappingView {
        CgiMappingView { extension: self.extension@, interpreter: self.interpreter@ }
    }
}

impl Clone for CgiMapping {
    fn clone(&self) -> (r: CgiMapping)
        ensures
            r@ == self@,
    {
        CgiMapping { extension: self.extension.clone(), interpreter: self.interpreter.clone() }
    }
}

/// A location of a server.
#[derive(Debug)]
pub struct RouteConfig {
    pub path: String,
    pub methods: Vec<String>,
    pub root: String,
    pub index: Option<String>,
    pub autoindex: bool,
    pub redirect: Option<(u16, String)>,
    pub cgi: Vec<CgiMapping>,
}

#[verifier::ext_equal]
pub struct RouteView {
    pub path: Seq<char>,
    pub methods: Seq<Seq<char>>,
    pub root: Seq<char>,
    pub index: Option<Seq<char>>,
    pub autoindex: bool,
    pub redirect: Option<(u16, Seq<char>)>,
    pub cgi: Seq<CgiMappingView>,
}

impl View for RouteConfig {
    type V = RouteView;

    open spec fn view(&self) -> RouteView {
        RouteView {
            path: self.path@,
            methods: strings(self.methods@),
            root: self.root@,
            index: match self.index {
                Some(s) => Some(s@),
                None => None,
            },
            autoindex: self.autoindex,
            redirect: match self.redirect {
                Some((status, target)) => Some((status, target@)),
                None => None,
            },
            cgi: self.cgi@.map_values(|m: CgiMapping| m@),
        }
    }
}

fn clone_strings(v: &Vec<String>) -> (r: Vec<String>)
    ensures
        strings(r@) == strings(v@),
{
    let mut r: Vec<String> = Vec::new();
    let mut i: usize = 0;
    while i < v.len()
        invariant
            0 <= i <= v@.len(),
            r@.len() == i,
            forall|k: int| 0 <= k < i ==> (#[trigger] r@[k])@ == v@[k]@,
        decreases v.len() - i,
    {
        r.push(v[i].clone());
        i = i + 1;
    }
    assert(strings(r@) =~= strings(v@));
    r
}

impl Clone for RouteConfig {
    fn clone(&self) -> (r: RouteConfig)
        ensures
            r@ == self@,
    {
        let mut cgi: Vec<CgiMapping> = Vec::new();
        let mut i: usize = 0;
        while i < self.cgi.len()
            invariant
                0 <= i <= self.cgi@.len(),
                cgi@.len() == i,
                forall|k: int| 0 <= k < i ==> (#[trigger] cgi@[k])@ == self.cgi@[k]@,
            decreases self.cgi.len() - i,
        {
            cgi.push(self.cgi[i].clone());
            i = i + 1;
        }
        let r = RouteConfig {
            path: self.path.clone(),
            methods: clone_strings(&self.methods),
            root: self.root.clone(),
            index: match &self.index {
                Some(name) => Some(name.clone()),
                None => None,
            },
            autoindex: self.autoindex,
            redirect: match &self.redirect {
                Some((status, target)) => Some((*status, target.clone())),
                None => None,
            },
            cgi,
        };
        assert(r@ =~= self@);
        r
    }
}

/// A server block.
#[derive(Debug)]
pub struct ServerConfig {
    pub listens: Vec<ListenAddr>,
    pub server_names: Vec<String>,
    pub client_max_body_size: usize,
    pub error_pages: HashMap<u16, String>,
    pub routes: Vec<RouteConfig>,
}

#[verifier::ext_equal]
pub struct ServerView {
    pub listens: Seq<ListenAddr>,
    pub server_names: Seq<Seq<char>>,
    pub client_max_body_size: int,
    pub error_pages: Map<u16, Seq<char>>,
    pub routes: Seq<RouteView>,
}

pub open spec fn page_texts(pages: Map<u16, String>) -> Map<u16, Seq<char>> {
    pages.map_values(|s: String| s@)
}

pub open spec fn route_views(routes: Seq<RouteConfig>) -> Seq<RouteView> {
    routes.map_values(|r: RouteConfig| r@)
}

impl View for ServerConfig {
    type V = ServerView;

    open spec fn view(&self) -> ServerView {
        ServerView {
            listens: self.listens@,
            server_names: strings(self.server_names@),
            client_max_body_size: self.client_max_body_size as int,
            error_pages: page_texts(self.error_pages@),
            routes: route_views(self.routes@),
        }
    }
}

impl Clone for ServerConfig {
    fn clone(&self) -> (r: ServerConfig)
        ensures
            r@ == self@,
    {
        let mut listens: Vec<ListenAddr> = Vec::new();
        let mut i: usize = 0;
        while i < self.listens.len()
            invariant
                0 <= i <= self.listens@.len(),
                listens@ == self.listens@.take(i as int),
            decreases self.listens.len() - i,
        {
            listens.push(self.listens[i]);
            i = i + 1;
            assert(listens@ =~= self.listens@.take(i as int));
        }
        assert(listens@ =~= self.listens@);
        let mut routes: Vec<RouteConfig> = Vec::new();
        let mut j: usize = 0;
        while j < self.routes.len()
            invariant
                0 <= j <= self.routes@.len(),
                routes@.len() == j,
                forall|k: int| 0 <= k < j ==> (#[trigger] routes@[k])@ == self.routes@[k]@,
            decreases self.routes.len() - j,
        {
            routes.push(self.routes[j].clone());
            j = j + 1;
        }
        assert(route_views(routes@) =~= route_views(self.routes@));
        ServerConfig {
            listens,
            server_names: clone_strings(&self.server_names),
            client_max_body_size: self.client_max_body_size,
            error_pages: self.error_pages.clone(),
            routes,
        }
    }
}

pub open spec fn server_views(servers: Seq<ServerConfig>) -> Seq<ServerView> {
    servers.map_values(|s: ServerConfig| s@)
}

// Choice of a location

/// The location with the given path prefix serves the request path.
pub open spec fn prefix_matches(prefix: Seq<char>, path: Seq<char>) -> bool {
    if prefix == "/"@ {
        path.len() > 0 && path[0] == '/'
    } else {
        path == prefix || (starts_with(path, prefix) && path.len() > prefix.len()
            && path[prefix.len() as int] == '/')
    }
}

/// The index of the location that serves a path: the longest match, the last one where a path is
/// repeated.
pub open spec fn route_index(routes: Seq<RouteView>, path: Seq<char>) -> Option<int>
    decreases routes.len(),
{
    if routes.len() == 0 {
        None
    } else {
        let earlier = route_index(routes.drop_last(), path);
        if prefix_matches(routes.last().path, path) && (earlier is None
            || routes[earlier->0].path.len() <= routes.last().path.len()) {
            Some(routes.len() - 1)
        } else {
            earlier
        }
    }
}

/// The index of the location for `/`.
pub open spec fn root_index(routes: Seq<RouteView>) -> Option<int>
    decreases routes.len(),
{
    if routes.len() == 0 {
        None
    } else {
        match root_index(routes.drop_last()) {
            Some(i) => Some(i),
            None => if routes.last().path == "/"@ {
                Some(routes.len() - 1)
            } else {
                None
            },
        }
    }
}

/// Whether the location with the given path prefix serves the request path.
pub fn route_matches(prefix: &str, path: &str) -> (r: bool)
    ensures
        r == prefix_matches(prefix@, path@),
{
    let prefix = to_chars(prefix);
    let path = to_chars(path);
    if is_text(prefix.as_slice(), "/") {
        return path.len() > 0 && path[0] == '/';
    }
    if same(path.as_slice(), prefix.as_slice()) {
        return true;
    }
    has_prefix(path.as_slice(), prefix.as_slice()) && path.len() > prefix.len()
        && path[prefix.len()] == '/'
}

pub proof fn lemma_route_index(routes: Seq<RouteView>, path: Seq<char>)
    ensures
        match route_index(routes, path) {
            Some(i) => 0 <= i < routes.len() && prefix_matches(routes[i].path, path) && forall|
                k: int,
            |
                0 <= k < routes.len() && prefix_matches((#[trigger] routes[k]).path, path)
                    ==> routes[k].path.len() <= routes[i].path.len(),
            None => forall|k: int|
                0 <= k < routes.len() ==> !prefix_matches((#[trigger] routes[k]).path, path),
        },
    decreases routes.len(),
{
    if routes.len() > 0 {
        let init = routes.drop_last();
        lemma_route_index(init, path);
        assert forall|k: int|
            0 <= k < routes.len() && prefix_matches((#[trigger] routes[k]).path, path) implies match route_index(
            routes,
            path,
        ) {
            Some(i) => routes[k].path.len() <= routes[i].path.len(),
            None => false,
        } by {
            if k < init.len() {
                assert(init[k] == routes[k]);
            }
        }
    }
}

pub proof fn lemma_root_index(routes: Seq<RouteView>)
    ensures
        match root_index(routes) {
            Some(i) => 0 <= i < routes.len() && routes[i].path == "/"@ && forall|k: int|
                0 <= k < i ==> (#[trigger] routes[k]).path != "/"@,
            None => forall|k: int| 0 <= k < routes.len() ==> (#[trigger] routes[k]).path != "/"@,
        },
    decreases routes.len(),
{
    if routes.len() > 0 {
        let init = routes.drop_last();
        lemma_root_index(init);
        assert forall|k: int| 0 <= k < init.len() implies init[k] == routes[k] by {}
        if root_index(init) is None {
            assert forall|k: int| 0 <= k < routes.len() - 1 implies (#[trigger] routes[k]).path
                != "/"@ by {
                assert(init[k] == routes[k]);
            }
        } else {
            let i = root_index(init)->0;
            assert forall|k: int| 0 <= k < i implies (#[trigger] routes[k]).path != "/"@ by {
                assert(init[k] == routes[k]);
            }
        }
    }
}

impl ServerConfig {
    /// The index of the location that serves a request path.
    pub fn route_index_for(&self, request_path: &str) -> (r: Option<usize>)
        ensures
            match r {
                Some(i) => route_index(self@.routes, request_path@) == Some(i as int) && i
                    < self.routes@.len(),
                None => route_index(self@.routes, request_path@) is None,
            },
    {
        let ghost all = self@.routes;
        let mut best: Option<usize> = None;
        let mut best_len: usize = 0;
        let mut i: usize = 0;
        assert(all.take(0) =~= Seq::<RouteView>::empty());
        while i < self.routes.len()
            invariant
                0 <= i <= self.routes@.len(),
                all == route_views(self.routes@),
                match best {
                    Some(b) => route_index(all.take(i as int), request_path@) == Some(b as int) && b
                        < i && best_len == all[b as int].path.len(),
                    None => route_index(all.take(i as int), request_path@) is None,
                },
            decreases self.routes.len() - i,
        {
            let ghost part = all.take(i + 1);
            assert(part.drop_last() =~= all.take(i as int));
            assert(part.last() == self.routes@[i as int]@);
            let len: usize = to_chars(self.routes[i].path.as_str()).len();
            if route_matches(self.routes[i].path.as_str(), request_path) && (best.is_none()
                || best_len <= len) {
                best = Some(i);
                best_len = len;
            }
            i = i + 1;
        }
        assert(all.take(all.len() as int) =~= all);
        best
    }

    /// The location that serves a request path.
    pub fn route_for(&self, request_path: &str) -> (r: Option<&RouteConfig>)
        ensures
            match r {
                Some(route) => route_index(self@.routes, request_path@) is Some && *route
                    == self.routes@[route_index(self@.routes, request_path@)->0],
                None => route_index(self@.routes, request_path@) is None,
            },
    {
        match self.route_index_for(request_path) {
            Some(i) => Some(&self.routes[i]),
            None => None,
        }
    }

    /// The root directory of the location for `/`.
    pub fn default_root(&self) -> (r: Option<&str>)
        ensures
            match r {
                Some(root) => root_index(self@.routes) is Some && root@ == self@.routes[root_index(
                    self@.routes,
                )->0].root,
                None => root_index(self@.routes) is None,
            },
    {
        let ghost all = self@.routes;
        let mut i: usize = 0;
        assert(all.take(0) =~= Seq::<RouteView>::empty());
        while i < self.routes.len()
            invariant
                0 <= i <= self.routes@.len(),
                all == route_views(self.routes@),
                root_index(all.take(i as int)) is None,
            decreases self.routes.len() - i,
        {
            let ghost part = all.take(i + 1);
            assert(part.drop_last() =~= all.take(i as int));
            assert(part.last() == self.routes@[i as int]@);
            if same_str(self.routes[i].path.as_str(), "/") {
                proof {
                    lemma_root_index_stable(all, i + 1);
                }
                return Some(self.routes[i].root.as_str());
            }
            i = i + 1;
        }
        assert(all.take(all.len() as int) =~= all);
        None
    }
}

proof fn lemma_root_index_stable(routes: Seq<RouteView>, n: int)
    requires
        0 <= n <= routes.len(),
        root_index(routes.take(n)) is Some,
    ensures
        root_index(routes) == root_index(routes.take(n)),
    decreases routes.len(),
{
    if n < routes.len() {
        assert(routes.drop_last().take(n) =~= routes.take(n));
        lemma_root_index_stable(routes.drop_last(), n);
    } else {
        assert(routes.take(n) =~= routes);
    }
}

// Server blocks

/// A configuration line without its comment and the space around it.
pub open spec fn cleaned(line: Seq<char>) -> Seq<char> {
    trim(before(line, '#'))
}

/// A configuration line without its comment and the space around it.
pub fn clean_line<'a>(line: &'a [char]) -> (r: &'a [char])
    ensures
        r@ == cleaned(line@),
{
    trim_slice(before_slice(line, '#'))
}

/// The number of times that `c` occurs in `s`.
pub open spec fn count(s: Seq<char>, c: char) -> int
    decreases s.len(),
{
    if s.len() == 0 {
        0
    } else {
        count(s.drop_last(), c) + (if s.last() == c {
            1int
        } else {
            0
        })
    }
}

/// Opening braces less closing braces.
pub open spec fn nesting(s: Seq<char>) -> int {
    count(s, '{') - count(s, '}')
}

fn count_of(s: &[char], c: char) -> (r: usize)
    ensures
        r == count(s@, c),
{
    let total: usize = s.len();
    let mut r: usize = 0;
    let mut i: usize = 0;
    while i < total
        invariant
            0 <= i <= total,
            total == s@.len(),
            r == count(s@.take(i as int), c),
            r <= i,
        decreases total - i,
    {
        assert(s@.take(i + 1).drop_last() =~= s@.take(i as int));
        if s[i] == c {
            r = r + 1;
        }
        i = i + 1;
    }
    assert(s@.take(s@.len() as int) =~= s@);
    r
}

/// No more braces than this are open after `i` lines.
spec fn depth_bound(i: int) -> int {
    i * 0x1_0000_0000_0000_0000 + 1
}

proof fn lemma_depth_bound(i: int)
    requires
        0 <= i < usize::MAX,
    ensures
        depth_bound(i + 1) == depth_bound(i) + 0x1_0000_0000_0000_0000,
        1 <= depth_bound(i) <= u128::MAX - usize::MAX,
{
    assert((i + 1) * 0x1_0000_0000_0000_0000 == i * 0x1_0000_0000_0000_0000
        + 0x1_0000_0000_0000_0000) by (nonlinear_arith);
    assert(i * 0x1_0000_0000_0000_0000 <= 0xffff_ffff_ffff_fffe * 0x1_0000_0000_0000_0000)
        by (nonlinear_arith)
        requires
            i <= 0xffff_ffff_ffff_fffe,
    ;
    assert(i * 0x1_0000_0000_0000_0000 >= 0) by (nonlinear_arith)
        requires
            i >= 0,
    ;
}

/// The server blocks read so far.
#[verifier::ext_equal]
pub struct Blocks {
    /// The lines of each complete block.
    pub blocks: Seq<Seq<Seq<char>>>,
    /// The lines of the block that is open.
    pub current: Seq<Seq<char>>,
    /// How many braces are open; none outside a block.
    pub depth: int,
}

/// The blocks after one more line, the one with the given number.
pub open spec fn add_line(b: Blocks, raw: Seq<char>, line_number: int) -> Result<
    Blocks,
    Seq<char>,
> {
    let line = cleaned(raw);
    if line.len() == 0 {
        Ok(b)
    } else if b.depth == 0 {
        if line == "server {"@ {
            Ok(Blocks { current: Seq::empty(), depth: 1, ..b })
        } else {
            Err("line "@ + decimal(line_number) + ": expected `server {`"@)
        }
    } else {
        let depth = b.depth + nesting(line);
        if depth < 0 {
            Err("line "@ + decimal(line_number) + ": unmatched closing brace"@)
        } else if depth == 0 {
            Ok(Blocks { blocks: b.blocks.push(b.current), current: Seq::empty(), depth: 0 })
        } else {
            Ok(Blocks { current: b.current.push(line), depth, ..b })
        }
    }
}

/// The blocks after more lines, the first of which has the given number.
pub open spec fn add_lines(b: Blocks, lines: Seq<Seq<char>>, line_number: int) -> Result<
    Blocks,
    Seq<char>,
>
    decreases lines.len(),
{
    if lines.len() == 0 {
        Ok(b)
    } else {
        match add_line(b, lines[0], line_number) {
            Err(message) => Err(message),
            Ok(next) => add_lines(next, lines.skip(1), line_number + 1),
        }
    }
}

pub open spec fn no_blocks() -> Blocks {
    Blocks { blocks: Seq::empty(), current: Seq::empty(), depth: 0 }
}

/// The lines of the server blocks of a configuration.
pub open spec fn server_blocks(text: Seq<char>) -> Result<Seq<Seq<Seq<char>>>, Seq<char>> {
    match add_lines(no_blocks(), lines(text), 1) {
        Err(message) => Err(message),
        Ok(b) => if b.depth != 0 {
            Err("unterminated server block"@)
        } else {
            Ok(b.blocks)
        },
    }
}

/// The texts of the blocks.
pub open spec fn block_texts(blocks: Seq<Vec<&[char]>>) -> Seq<Seq<Seq<char>>> {
    blocks.map_values(|b: Vec<&[char]>| texts(b@))
}

fn line_message(line_number: usize, text: &str) -> (r: String)
    ensures
        r@ == "line "@ + decimal(line_number as int) + text@,
{
    let mut m = "line ".to_owned();
    push_number(&mut m, line_number as u128, 10);
    m.append(text);
    m
}

/// Splits a configuration into server blocks.
pub fn split_server_blocks<'a>(text: &'a [char]) -> (r: Result<Vec<Vec<&'a [char]>>, String>)
    ensures
        match (r, server_blocks(text@)) {
            (Ok(v), Ok(blocks)) => block_texts(v@) == blocks,
            (Err(m), Err(message)) => m@ == message,
            _ => false,
        },
{
    let all = lines_slice(text);
    let ghost names = lines(text@);
    let mut blocks: Vec<Vec<&'a [char]>> = Vec::new();
    let mut current: Vec<&'a [char]> = Vec::new();
    let mut depth: u128 = 0;
    let mut i: usize = 0;
    let total: usize = all.len();
    let ghost goal = add_lines(no_blocks(), names, 1);
    let ghost mut state = no_blocks();
    assert(names.skip(0) =~= names);
    assert(block_texts(blocks@) =~= Seq::<Seq<Seq<char>>>::empty());
    assert(texts(current@) =~= Seq::<Seq<char>>::empty());
    while i < total
        invariant
            0 <= i <= total,
            total == all@.len(),
            texts(all@) == names,
            names == lines(text@),
            goal == add_lines(no_blocks(), names, 1),
            goal == add_lines(state, names.skip(i as int), i + 1),
            state.blocks == block_texts(blocks@),
            depth != 0 ==> state.current == texts(current@),
            state.depth == depth,
            0 <= depth <= depth_bound(i as int),
        decreases total - i,
    {
        let ghost rest = names.skip(i as int);
        assert(rest[0] == all@[i as int]@);
        assert(rest.skip(1) =~= names.skip(i + 1));
        let line = clean_line(all[i]);
        let length: usize = line.len();
        proof {
            lemma_depth_bound(i as int);
        }
        if length == 0 {
        } else if depth == 0 {
            if !is_text(line, "server {") {
                return Err(line_message(i + 1, ": expected `server {`"));
            }
            depth = 1;
            current = Vec::new();
            assert(texts(current@) =~= Seq::<Seq<char>>::empty());
            proof {
                state = Blocks { current: Seq::empty(), depth: 1, ..state };
            }
        } else {
            let opened: u128 = depth + count_of(line, '{') as u128;
            let closed: u128 = count_of(line, '}') as u128;
            if opened < closed {
                return Err(line_message(i + 1, ": unmatched closing brace"));
            }
            depth = opened - closed;
            if depth == 0 {
                proof {
                    let ghost extended = blocks@.push(current);
                    assert(block_texts(extended) =~= block_texts(blocks@).push(texts(current@)));
                    state = Blocks {
                        blocks: state.blocks.push(state.current),
                        current: Seq::empty(),
                        depth: 0,
                    };
                }
                blocks.push(current);
                current = Vec::new();
            } else {
                proof {
                    crate::text::lemma_texts_push(current@, line);
                    state = Blocks { current: state.current.push(line@), depth: depth as int, ..state };
                }
                current.push(line);
            }
        }
        i = i + 1;
    }
    if depth != 0 {
        return Err("unterminated server block".to_owned());
    }
    Ok(blocks)
}

// Directives

/// A size with an optional `k` or `m`.
pub open spec fn size_value(value: Seq<char>) -> Result<int, Seq<char>> {
    let l = lower(value);
    let (digits, multiplier) = if l.len() > 0 && l.last() == 'k' {
        (l.drop_last(), 1024int)
    } else if l.len() > 0 && l.last() == 'm' {
        (l.drop_last(), 1024int * 1024)
    } else {
        (l, 1int)
    };
    match number(digits, 10, usize::MAX as int) {
        None => Err("invalid size `"@ + value + "`"@),
        Some(base) => if base * multiplier > usize::MAX {
            Err("size `"@ + value + "` is too large"@)
        } else {
            Ok(base * multiplier)
        },
    }
}

fn message(before: &str, text: &[char], after: &str) -> (r: String)
    ensures
        r@ == before@ + text@ + after@,
{
    let mut m = before.to_owned();
    push_chars(&mut m, text);
    m.append(after);
    m
}

fn message_with(before: &str, text: &[char]) -> (r: String)
    ensures
        r@ == before@ + text@,
{
    let mut m = before.to_owned();
    push_chars(&mut m, text);
    m
}

/// Reads a size with an optional `k` or `m`.
pub fn parse_size(value: &[char]) -> (r: Result<usize, String>)
    ensures
        match (r, size_value(value@)) {
            (Ok(n), Ok(size)) => n == size,
            (Err(m), Err(text)) => m@ == text,
            _ => false,
        },
{
    let lowered = lower_slice(value);
    let n: usize = lowered.len();
    let all = lowered.as_slice();
    let mut digits: &[char] = all;
    let mut multiplier: usize = 1;
    if n > 0 && lowered[n - 1] == 'k' {
        digits = slice_subrange(all, 0, n - 1);
        multiplier = 1024;
        assert(digits@ =~= all@.drop_last());
    } else if n > 0 && lowered[n - 1] == 'm' {
        digits = slice_subrange(all, 0, n - 1);
        multiplier = 1024 * 1024;
        assert(digits@ =~= all@.drop_last());
    }
    match parse_number(digits, 10, usize::MAX) {
        None => Err(message("invalid size `", value, "`")),
        Some(base) => match base.checked_mul(multiplier) {
            None => Err(message("size `", value, "` is too large")),
            Some(size) => Ok(size),
        },
    }
}

/// What a location says of its path.
pub open spec fn location_message(path: Seq<char>, text: Seq<char>) -> Seq<char> {
    "location "@ + path + ": "@ + text
}

fn location_error(path: &[char], text: &str) -> (r: String)
    ensures
        r@ == location_message(path@, text@),
{
    let mut m = "location ".to_owned();
    push_chars(&mut m, path);
    m.append(": ");
    m.append(text);
    assert(m@ =~= location_message(path@, text@));
    m
}

/// A location that says nothing.
pub open spec fn empty_route(path: Seq<char>) -> RouteView {
    RouteView {
        path,
        methods: seq!["GET"@],
        root: "."@,
        index: None,
        autoindex: false,
        redirect: None,
        cgi: Seq::empty(),
    }
}

/// All of the texts, in upper case.
pub open spec fn all_upper(parts: Seq<Seq<char>>) -> Seq<Seq<char>> {
    parts.map_values(|p: Seq<char>| upper(p))
}

/// All of the texts, in lower case.
pub open spec fn all_lower(parts: Seq<Seq<char>>) -> Seq<Seq<char>> {
    parts.map_values(|p: Seq<char>| lower(p))
}

/// The location after one more directive, given by its words.
pub open spec fn route_directive(r: RouteView, parts: Seq<Seq<char>>) -> Result<
    RouteView,
    Seq<char>,
> {
    if parts.len() == 0 {
        Ok(r)
    } else if parts[0] == "methods"@ {
        if parts.len() < 2 {
            Err(location_message(r.path, "methods list is empty"@))
        } else {
            Ok(RouteView { methods: all_upper(parts.skip(1)), ..r })
        }
    } else if parts[0] == "root"@ {
        if parts.len() != 2 {
            Err(location_message(r.path, "invalid root"@))
        } else {
            Ok(RouteView { root: parts[1], ..r })
        }
    } else if parts[0] == "index"@ {
        if parts.len() != 2 {
            Err(location_message(r.path, "invalid index"@))
        } else {
            Ok(RouteView { index: Some(parts[1]), ..r })
        }
    } else if parts[0] == "autoindex"@ {
        if parts.len() != 2 || (parts[1] != "on"@ && parts[1] != "off"@) {
            Err(location_message(r.path, "autoindex must be on/off"@))
        } else {
            Ok(RouteView { autoindex: parts[1] == "on"@, ..r })
        }
    } else if parts[0] == "return"@ {
        if parts.len() != 3 {
            Err(location_message(r.path, "invalid return directive"@))
        } else {
            match number(parts[1], 10, u16::MAX as int) {
                None => Err(location_message(r.path, "invalid redirect status"@)),
                Some(status) => if 300 <= status < 400 {
                    Ok(RouteView { redirect: Some((status as u16, parts[2])), ..r })
                } else {
                    Err(location_message(r.path, "redirect status must be 3xx"@))
                },
            }
        }
    } else if parts[0] == "cgi_extension"@ {
        if parts.len() != 3 || !(parts[1].len() > 0 && parts[1][0] == '.') {
            Err(location_message(r.path, "invalid cgi_extension"@))
        } else {
            let mapping = CgiMappingView { extension: lower(parts[1]), interpreter: parts[2] };
            Ok(RouteView { cgi: r.cgi.push(mapping), ..r })
        }
    } else {
        Err("location "@ + r.path + ": unknown directive `"@ + parts[0] + "`"@)
    }
}

/// The location after more lines.
pub open spec fn route_lines(r: RouteView, lines: Seq<Seq<char>>) -> Result<RouteView, Seq<char>>
    decreases lines.len(),
{
    if lines.len() == 0 {
        Ok(r)
    } else {
        match route_directive(r, words(lines[0], CharSet::Space)) {
            Err(m) => Err(m),
            Ok(next) => route_lines(next, lines.skip(1)),
        }
    }
}

fn upper_texts(parts: &[&[char]], start: usize) -> (r: Vec<String>)
    requires
        start <= parts@.len(),
    ensures
        strings(r@) == all_upper(texts(parts@).skip(start as int)),
{
    let mut r: Vec<String> = Vec::new();
    let mut i: usize = start;
    while i < parts.len()
        invariant
            start <= i <= parts@.len(),
            r@.len() == i - start,
            forall|k: int| 0 <= k < r@.len() ==> (#[trigger] r@[k])@ == upper(parts@[start + k]@),
        decreases parts.len() - i,
    {
        r.push(to_text(upper_slice(parts[i]).as_slice()));
        i = i + 1;
    }
    assert(strings(r@) =~= all_upper(texts(parts@).skip(start as int)));
    r
}

fn push_lower_texts(out: &mut Vec<String>, parts: &[&[char]], start: usize)
    requires
        start <= parts@.len(),
    ensures
        strings(final(out)@) == strings(old(out)@) + all_lower(texts(parts@).skip(start as int)),
{
    let ghost base = out@;
    let mut i: usize = start;
    while i < parts.len()
        invariant
            start <= i <= parts@.len(),
            out@.len() == base.len() + i - start,
            out@.take(base.len() as int) =~= base,
            forall|k: int|
                base.len() <= k < out@.len() ==> (#[trigger] out@[k])@ == lower(
                    parts@[start + k - base.len()]@,
                ),
        decreases parts.len() - i,
    {
        let ghost previous = out@;
        out.push(to_text(lower_slice(parts[i]).as_slice()));
        assert(out@.take(base.len() as int) =~= previous.take(base.len() as int));
        i = i + 1;
    }
    assert forall|k: int| 0 <= k < base.len() implies out@[k] == base[k] by {
        assert(out@.take(base.len() as int)[k] == base[k]);
    }
    assert(strings(out@) =~= strings(base) + all_lower(texts(parts@).skip(start as int)));
}

impl RouteConfig {
    fn directive(&mut self, parts: &[&[char]]) -> (r: Result<(), String>)
        ensures
            match r {
                Ok(_) => route_directive(old(self)@, texts(parts@)) == Ok::<RouteView, Seq<char>>(
                    final(self)@,
                ),
                Err(m) => route_directive(old(self)@, texts(parts@)) == Err::<RouteView, Seq<char>>(
                    m@,
                ),
            },
    {
        let n: usize = parts.len();
        let ghost t = texts(parts@);
        if n == 0 {
            return Ok(());
        }
        assert forall|k: int| 0 <= k < n implies t[k] == parts@[k]@ by {}
        let path = to_chars(self.path.as_str());
        if is_text(parts[0], "methods") {
            if n < 2 {
                return Err(location_error(path.as_slice(), "methods list is empty"));
            }
            self.methods = upper_texts(parts, 1);
        } else if is_text(parts[0], "root") {
            if n != 2 {
                return Err(location_error(path.as_slice(), "invalid root"));
            }
            self.root = to_text(parts[1]);
        } else if is_text(parts[0], "index") {
            if n != 2 {
                return Err(location_error(path.as_slice(), "invalid index"));
            }
            self.index = Some(to_text(parts[1]));
        } else if is_text(parts[0], "autoindex") {
            if n != 2 || (!is_text(parts[1], "on") && !is_text(parts[1], "off")) {
                return Err(location_error(path.as_slice(), "autoindex must be on/off"));
            }
            self.autoindex = is_text(parts[1], "on");
        } else if is_text(parts[0], "return") {
            if n != 3 {
                return Err(location_error(path.as_slice(), "invalid return directive"));
            }
            match parse_number(parts[1], 10, 65535) {
                None => {
                    return Err(location_error(path.as_slice(), "invalid redirect status"));
                },
                Some(status) => {
                    if status < 300 || status >= 400 {
                        return Err(location_error(path.as_slice(), "redirect status must be 3xx"));
                    }
                    self.redirect = Some((status as u16, to_text(parts[2])));
                },
            }
        } else if is_text(parts[0], "cgi_extension") {
            if n != 3 || parts[1].len() == 0 || parts[1][0] != '.' {
                return Err(location_error(path.as_slice(), "invalid cgi_extension"));
            }
            let mapping = CgiMapping {
                extension: to_text(lower_slice(parts[1]).as_slice()),
                interpreter: to_text(parts[2]),
            };
            let ghost added = self.cgi@.push(mapping);
            assert(added.map_values(|m: CgiMapping| m@) =~= old(self)@.cgi.push(mapping@));
            self.cgi.push(mapping);
        } else {
            let mut m = "location ".to_owned();
            push_chars(&mut m, path.as_slice());
            m.append(": unknown directive `");
            push_chars(&mut m, parts[0]);
            m.append("`");
            return Err(m);
        }
        Ok(())
    }
}

/// Reads the lines of a location.
pub fn parse_route(path: &[char], lines: &[&[char]]) -> (r: Result<RouteConfig, String>)
    ensures
        result_view(r) == route_lines(empty_route(path@), texts(lines@)),
{
    let mut methods: Vec<String> = Vec::new();
    methods.push("GET".to_owned());
    let mut route = RouteConfig {
        path: to_text(path),
        methods,
        root: ".".to_owned(),
        index: None,
        autoindex: false,
        redirect: None,
        cgi: Vec::new(),
    };
    assert(route@ =~= empty_route(path@));
    let ghost t = texts(lines@);
    let ghost goal = route_lines(empty_route(path@), t);
    assert(t.skip(0) =~= t);
    let mut i: usize = 0;
    while i < lines.len()
        invariant
            0 <= i <= lines@.len(),
            t == texts(lines@),
            goal == route_lines(empty_route(path@), t),
            goal == route_lines(route@, t.skip(i as int)),
        decreases lines.len() - i,
    {
        assert(t.skip(i as int)[0] == lines@[i as int]@);
        assert(t.skip(i as int).skip(1) =~= t.skip(i + 1));
        let parts = words_slice(lines[i], CharSet::Space);
        match route.directive(parts.as_slice()) {
            Err(m) => {
                return Err(m);
            },
            Ok(_) => {},
        }
        i = i + 1;
    }
    Ok(route)
}

// Servers

/// A server that says nothing.
pub open spec fn empty_server() -> ServerView {
    ServerView {
        listens: Seq::empty(),
        server_names: Seq::empty(),
        client_max_body_size: 1024int * 1024,
        error_pages: Map::empty(),
        routes: Seq::empty(),
    }
}

/// The server after one more directive outside its locations.
pub open spec fn server_directive(s: ServerView, line: Seq<char>) -> Result<ServerView, Seq<char>> {
    let parts = words(line, CharSet::Space);
    if parts.len() == 0 {
        Ok(s)
    } else if parts[0] == "listen"@ {
        if parts.len() != 2 {
            Err("invalid listen directive: "@ + line)
        } else {
            match listen_addr(parts[1]) {
                None => Err("invalid listen address: "@ + parts[1]),
                Some(a) => if s.listens.contains(a) {
                    Err("duplicate listen directive in one server: "@ + addr_text(a))
                } else {
                    Ok(ServerView { listens: s.listens.push(a), ..s })
                },
            }
        }
    } else if parts[0] == "server_name"@ {
        if parts.len() < 2 {
            Err("server_name needs at least one name"@)
        } else {
            Ok(ServerView { server_names: s.server_names + all_lower(parts.skip(1)), ..s })
        }
    } else if parts[0] == "client_max_body_size"@ {
        if parts.len() != 2 {
            Err("invalid client_max_body_size: "@ + line)
        } else {
            match size_value(parts[1]) {
                Err(m) => Err(m),
                Ok(size) => Ok(ServerView { client_max_body_size: size, ..s }),
            }
        }
    } else if parts[0] == "error_page"@ {
        if parts.len() != 3 {
            Err("invalid error_page directive: "@ + line)
        } else {
            match number(parts[1], 10, u16::MAX as int) {
                None => Err("invalid error status: "@ + parts[1]),
                Some(code) => Ok(
                    ServerView { error_pages: s.error_pages.insert(code as u16, parts[2]), ..s },
                ),
            }
        }
    } else if parts[0] == "}"@ {
        Ok(s)
    } else {
        Err("unknown server directive `"@ + parts[0] + "`"@)
    }
}

/// The line opens a location.
pub open spec fn opens_location(line: Seq<char>) -> bool {
    starts_with(line, "location "@) && line.len() > 0 && line.last() == '{'
}

/// The path that a location's first line names.
pub open spec fn location_path(line: Seq<char>) -> Option<Seq<char>> {
    let parts = words(trim(trim_end(line, CharSet::Only('{'))), CharSet::Space);
    if parts.len() > 1 {
        Some(parts[1])
    } else {
        None
    }
}

/// How many lines belong to a block with `depth` braces open, up to the line that closes it, and
/// how many braces are open after them.
pub open spec fn nested_lines(lines: Seq<Seq<char>>, depth: int) -> (int, int)
    decreases lines.len(),
{
    if lines.len() == 0 || depth <= 0 {
        (0, depth)
    } else {
        let (n, end) = nested_lines(lines.skip(1), depth + nesting(lines[0]));
        (n + 1, end)
    }
}

pub proof fn lemma_nested_lines(lines: Seq<Seq<char>>, depth: int)
    ensures
        0 <= nested_lines(lines, depth).0 <= lines.len(),
        depth > 0 && nested_lines(lines, depth).1 <= 0 ==> nested_lines(lines, depth).0 > 0,
    decreases lines.len(),
{
    if lines.len() > 0 && depth > 0 {
        lemma_nested_lines(lines.skip(1), depth + nesting(lines[0]));
    }
}

/// The location whose first line is the first of the lines, and how many lines it takes up.
pub open spec fn location(lines: Seq<Seq<char>>) -> Result<(RouteView, int), Seq<char>> {
    match location_path(lines[0]) {
        None => Err("invalid location declaration"@),
        Some(path) => if !(path.len() > 0 && path[0] == '/') {
            Err("location path must start with '/': "@ + path)
        } else {
            let (n, end) = nested_lines(lines.skip(1), 1);
            if end != 0 {
                Err("unterminated location "@ + path)
            } else {
                match route_lines(empty_route(path), lines.subrange(1, n)) {
                    Err(m) => Err(m),
                    Ok(route) => Ok((route, n + 1)),
                }
            }
        },
    }
}

/// The server after more lines.
pub open spec fn server_lines(s: ServerView, lines: Seq<Seq<char>>) -> Result<ServerView, Seq<char>>
    decreases lines.len(),
{
    proof {
        lemma_nested_lines(lines.skip(1), 1);
    }
    if lines.len() == 0 {
        Ok(s)
    } else if opens_location(lines[0]) {
        match location(lines) {
            Err(m) => Err(m),
            Ok((route, n)) => server_lines(
                ServerView { routes: s.routes.push(route), ..s },
                lines.skip(n),
            ),
        }
    } else {
        match server_directive(s, lines[0]) {
            Err(m) => Err(m),
            Ok(next) => server_lines(next, lines.skip(1)),
        }
    }
}

/// The server of a block's lines.
pub open spec fn server_of(lines: Seq<Seq<char>>) -> Result<ServerView, Seq<char>> {
    match server_lines(empty_server(), lines) {
        Err(m) => Err(m),
        Ok(s) => if s.listens.len() == 0 {
            Err("server has no listen directive"@)
        } else if s.routes.len() == 0 {
            Err("server has no locations"@)
        } else if root_index(s.routes) is None {
            Err("server needs a `/` location"@)
        } else {
            Ok(s)
        },
    }
}

fn has_listen(listens: &[ListenAddr], a: ListenAddr) -> (r: bool)
    ensures
        r == listens@.contains(a),
{
    let mut i: usize = 0;
    while i < listens.len()
        invariant
            0 <= i <= listens@.len(),
            forall|k: int| 0 <= k < i ==> listens@[k] != a,
        decreases listens.len() - i,
    {
        if listens[i] == a {
            assert(listens@[i as int] == a);
            return true;
        }
        i = i + 1;
    }
    false
}

impl ServerConfig {
    fn directive(&mut self, line: &[char]) -> (r: Result<(), String>)
        ensures
            match r {
                Ok(_) => server_directive(old(self)@, line@) == Ok::<ServerView, Seq<char>>(
                    final(self)@,
                ),
                Err(m) => server_directive(old(self)@, line@) == Err::<ServerView, Seq<char>>(m@),
            },
    {
        let parts = words_slice(line, CharSet::Space);
        let n: usize = parts.len();
        let ghost t = texts(parts@);
        if n == 0 {
            return Ok(());
        }
        assert forall|k: int| 0 <= k < n implies t[k] == parts@[k]@ by {}
        if is_text(parts[0], "listen") {
            if n != 2 {
                return Err(message_with("invalid listen directive: ", line));
            }
            match ListenAddr::parse(parts[1]) {
                None => {
                    return Err(message_with("invalid listen address: ", parts[1]));
                },
                Some(a) => {
                    if has_listen(self.listens.as_slice(), a) {
                        let mut m = "duplicate listen directive in one server: ".to_owned();
                        m.append(a.to_text().as_str());
                        return Err(m);
                    }
                    self.listens.push(a);
                },
            }
        } else if is_text(parts[0], "server_name") {
            if n < 2 {
                return Err("server_name needs at least one name".to_owned());
            }
            push_lower_texts(&mut self.server_names, parts.as_slice(), 1);
        } else if is_text(parts[0], "client_max_body_size") {
            if n != 2 {
                return Err(message_with("invalid client_max_body_size: ", line));
            }
            match parse_size(parts[1]) {
                Err(m) => {
                    return Err(m);
                },
                Ok(size) => {
                    self.client_max_body_size = size;
                },
            }
        } else if is_text(parts[0], "error_page") {
            if n != 3 {
                return Err(message_with("invalid error_page directive: ", line));
            }
            match parse_number(parts[1], 10, 65535) {
                None => {
                    return Err(message_with("invalid error status: ", parts[1]));
                },
                Some(code) => {
                    let page = to_text(parts[2]);
                    assert(page_texts(self.error_pages@.insert(code as u16, page)) =~= page_texts(
                        self.error_pages@,
                    ).insert(code as u16, page@));
                    self.error_pages.insert(code as u16, page);
                },
            }
        } else if is_text(parts[0], "}") {
        } else {
            return Err(message("unknown server directive `", parts[0], "`"));
        }
        Ok(())
    }
}

fn nested_end(lines: &[&[char]], start: usize) -> (r: Option<usize>)
    requires
        start <= lines@.len(),
    ensures
        match r {
            Some(n) => nested_lines(texts(lines@).skip(start as int), 1) == (n as int, 0int) && n > 0
                && start + n <= lines@.len(),
            None => nested_lines(texts(lines@).skip(start as int), 1).1 != 0,
        },
{
    let ghost t = texts(lines@);
    let total: usize = lines.len();
    let mut depth: u128 = 1;
    let mut i: usize = start;
    let ghost goal = nested_lines(t.skip(start as int), 1);
    while i < total && depth > 0
        invariant
            start <= i <= total,
            total == lines@.len(),
            t == texts(lines@),
            goal == nested_lines(t.skip(start as int), 1),
            goal.0 == i - start + nested_lines(t.skip(i as int), depth as int).0,
            goal.1 == nested_lines(t.skip(i as int), depth as int).1,
            depth == 0 ==> i > start,
            0 <= depth <= depth_bound(i as int),
        decreases total - i,
    {
        let ghost rest = t.skip(i as int);
        assert(rest[0] == lines@[i as int]@);
        assert(rest.skip(1) =~= t.skip(i + 1));
        proof {
            lemma_depth_bound(i as int);
        }
        let opened: u128 = depth + count_of(lines[i], '{') as u128;
        let closed: u128 = count_of(lines[i], '}') as u128;
        if opened < closed {
            assert(nested_lines(t.skip(i + 1), opened - closed).1 == opened - closed);
            return None;
        }
        depth = opened - closed;
        i = i + 1;
    }
    if depth != 0 {
        return None;
    }
    Some(i - start)
}

fn location_path_of(line: &[char]) -> (r: Option<&[char]>)
    ensures
        match r {
            Some(p) => location_path(line@) == Some(p@),
            None => location_path(line@) is None,
        },
{
    let parts = words_slice(trim_slice(trim_end_slice(line, CharSet::Only('{'))), CharSet::Space);
    if parts.len() > 1 {
        assert(texts(parts@)[1] == parts@[1]@);
        Some(parts[1])
    } else {
        None
    }
}

fn parse_location(lines: &[&[char]], start: usize) -> (r: Result<(RouteConfig, usize), String>)
    requires
        start < lines@.len(),
    ensures
        match r {
            Ok((route, n)) => location(texts(lines@).skip(start as int)) == Ok::<
                (RouteView, int),
                Seq<char>,
            >((route@, n as int)) && 0 < n && start + n <= lines@.len(),
            Err(m) => location(texts(lines@).skip(start as int)) == Err::<
                (RouteView, int),
                Seq<char>,
            >(m@),
        },
{
    let ghost t = texts(lines@).skip(start as int);
    assert(t[0] == lines@[start as int]@);
    assert(t.skip(1) =~= texts(lines@).skip(start + 1));
    match location_path_of(lines[start]) {
        None => Err("invalid location declaration".to_owned()),
        Some(path) => {
            if path.len() == 0 || path[0] != '/' {
                return Err(message_with("location path must start with '/': ", path));
            }
            match nested_end(lines, start + 1) {
                None => Err(message_with("unterminated location ", path)),
                Some(n) => {
                    let nested = slice_subrange(lines, start + 1, start + n);
                    assert(texts(nested@) =~= t.subrange(1, n as int));
                    match parse_route(path, nested) {
                        Err(m) => Err(m),
                        Ok(route) => Ok((route, n + 1)),
                    }
                },
            }
        },
    }
}

/// Reads the lines of a server block.
pub fn parse_server(lines: &[&[char]]) -> (r: Result<ServerConfig, String>)
    ensures
        result_view(r) == server_of(texts(lines@)),
{
    let mut server = ServerConfig {
        listens: Vec::new(),
        server_names: Vec::new(),
        client_max_body_size: 1024 * 1024,
        error_pages: HashMap::new(),
        routes: Vec::new(),
    };
    assert(server@ =~= empty_server());
    let ghost t = texts(lines@);
    let ghost goal = server_lines(empty_server(), t);
    assert(t.skip(0) =~= t);
    let mut i: usize = 0;
    while i < lines.len()
        invariant
            0 <= i <= lines@.len(),
            t == texts(lines@),
            goal == server_lines(empty_server(), t),
            goal == server_lines(server@, t.skip(i as int)),
        decreases lines.len() - i,
    {
        let ghost rest = t.skip(i as int);
        assert(rest[0] == lines@[i as int]@);
        let line = lines[i];
        if has_prefix_str(line, "location ") && line.len() > 0 && line[line.len() - 1] == '{' {
            match parse_location(lines, i) {
                Err(m) => {
                    return Err(m);
                },
                Ok((route, n)) => {
                    assert(rest.skip(n as int) =~= t.skip(i + n));
                    let ghost added = server.routes@.push(route);
                    assert(route_views(added) =~= server@.routes.push(route@));
                    server.routes.push(route);
                    i = i + n;
                },
            }
        } else {
            assert(rest.skip(1) =~= t.skip(i + 1));
            match server.directive(line) {
                Err(m) => {
                    return Err(m);
                },
                Ok(_) => {},
            }
            i = i + 1;
        }
    }
    if server.listens.len() == 0 {
        return Err("server has no listen directive".to_owned());
    }
    if server.routes.len() == 0 {
        return Err("server has no locations".to_owned());
    }
    match server.default_root() {
        None => Err("server needs a `/` location".to_owned()),
        Some(_) => Ok(server),
    }
}

// Configurations

/// Two servers on one listener that no `Host` header can tell apart.
pub open spec fn names_clash(a: ServerView, b: ServerView) -> bool {
    (a.server_names.len() == 0 && b.server_names.len() == 0) || exists|n: Seq<char>|
        #[trigger] a.server_names.contains(n) && b.server_names.contains(n)
}

/// An earlier server has taken the names of `s` on the listener.
pub open spec fn taken(earlier: Seq<ServerView>, s: ServerView, a: ListenAddr) -> bool {
    exists|k: int|
        0 <= k < earlier.len() && (#[trigger] earlier[k]).listens.contains(a) && names_clash(
            earlier[k],
            s,
        )
}

/// The first listener of `s`, from the given one on, on which an earlier server has taken its
/// names.
pub open spec fn conflict_from(earlier: Seq<ServerView>, s: ServerView, i: int) -> Option<ListenAddr>
    decreases s.listens.len() - i,
{
    if i < 0 || i >= s.listens.len() {
        None
    } else if taken(earlier, s, s.listens[i]) {
        Some(s.listens[i])
    } else {
        conflict_from(earlier, s, i + 1)
    }
}

/// The servers that a configuration gives, and a message for each block that was skipped.
#[verifier::ext_equal]
pub struct ReportView {
    pub servers: Seq<ServerView>,
    pub warnings: Seq<Seq<char>>,
}

pub open spec fn skipped(number: int, reason: Seq<char>) -> Seq<char> {
    "server #"@ + decimal(number) + " skipped: "@ + reason
}

/// The report after one more block, the one with the given number.
pub open spec fn add_block(r: ReportView, block: Seq<Seq<char>>, number: int) -> ReportView {
    match server_of(block) {
        Err(m) => ReportView { warnings: r.warnings.push(skipped(number, m)), ..r },
        Ok(s) => match conflict_from(r.servers, s, 0) {
            Some(a) => ReportView {
                warnings: r.warnings.push(
                    skipped(number, "conflicting server block on "@ + addr_text(a)),
                ),
                ..r
            },
            None => ReportView { servers: r.servers.push(s), ..r },
        },
    }
}

/// The report on the first `n` blocks.
pub open spec fn report_of(blocks: Seq<Seq<Seq<char>>>, n: int) -> ReportView
    decreases n,
{
    if n <= 0 {
        ReportView { servers: Seq::empty(), warnings: Seq::empty() }
    } else {
        add_block(report_of(blocks, n - 1), blocks[n - 1], n)
    }
}

/// The report on a configuration, unless it does not split into server blocks.
pub open spec fn config_report(text: Seq<char>) -> Result<ReportView, Seq<char>> {
    match server_blocks(text) {
        Err(m) => Err(m),
        Ok(blocks) => if blocks.len() == 0 {
            Err("configuration contains no server blocks"@)
        } else {
            Ok(report_of(blocks, blocks.len() as int))
        },
    }
}

/// The servers of a configuration.
pub open spec fn config_servers(text: Seq<char>) -> Result<Seq<ServerView>, Seq<char>> {
    match config_report(text) {
        Err(m) => Err(m),
        Ok(report) => if report.servers.len() == 0 {
            Err(join(report.warnings, "; "@))
        } else {
            Ok(report.servers)
        },
    }
}

/// The servers that a configuration gives, and a message for each block that was skipped.
pub struct ConfigReport {
    pub servers: Vec<ServerConfig>,
    pub warnings: Vec<String>,
}

impl View for ConfigReport {
    type V = ReportView;

    open spec fn view(&self) -> ReportView {
        ReportView { servers: server_views(self.servers@), warnings: strings(self.warnings@) }
    }
}

fn has_name(names: &[String], name: &str) -> (r: bool)
    ensures
        r == strings(names@).contains(name@),
{
    let ghost t = strings(names@);
    let mut i: usize = 0;
    while i < names.len()
        invariant
            0 <= i <= names@.len(),
            t == strings(names@),
            forall|k: int| 0 <= k < i ==> t[k] != name@,
        decreases names.len() - i,
    {
        assert(t[i as int] == names@[i as int]@);
        if same_str(names[i].as_str(), name) {
            return true;
        }
        i = i + 1;
    }
    false
}

impl ServerConfig {
    /// Whether one of the server's names is the given one.
    pub fn has_name(&self, name: &str) -> (r: bool)
        ensures
            r == self@.server_names.contains(name@),
    {
        has_name(self.server_names.as_slice(), name)
    }

    /// Whether the server listens on the address.
    pub fn listens_on(&self, a: ListenAddr) -> (r: bool)
        ensures
            r == self@.listens.contains(a),
    {
        has_listen(self.listens.as_slice(), a)
    }

    fn clashes(&self, other: &ServerConfig) -> (r: bool)
        ensures
            r == names_clash(self@, other@),
    {
        let ghost mine = self@.server_names;
        let mut i: usize = 0;
        while i < self.server_names.len()
            invariant
                0 <= i <= self.server_names@.len(),
                mine == strings(self.server_names@),
                forall|k: int| 0 <= k < i ==> !other@.server_names.contains(#[trigger] mine[k]),
            decreases self.server_names.len() - i,
        {
            assert(mine[i as int] == self.server_names@[i as int]@);
            if other.has_name(self.server_names[i].as_str()) {
                assert(mine.contains(mine[i as int]));
                return true;
            }
            i = i + 1;
        }
        assert(!exists|n: Seq<char>|
            #[trigger] mine.contains(n) && other@.server_names.contains(n));
        self.server_names.len() == 0 && other.server_names.len() == 0
    }

    fn taken_by(&self, earlier: &[ServerConfig], a: ListenAddr) -> (r: bool)
        ensures
            r == taken(server_views(earlier@), self@, a),
    {
        let ghost views = server_views(earlier@);
        let mut i: usize = 0;
        while i < earlier.len()
            invariant
                0 <= i <= earlier@.len(),
                views == server_views(earlier@),
                forall|k: int|
                    0 <= k < i ==> !((#[trigger] views[k]).listens.contains(a) && names_clash(
                        views[k],
                        self@,
                    )),
            decreases earlier.len() - i,
        {
            assert(views[i as int] == earlier@[i as int]@);
            if earlier[i].listens_on(a) && earlier[i].clashes(self) {
                return true;
            }
            i = i + 1;
        }
        false
    }

    fn conflict(&self, earlier: &[ServerConfig]) -> (r: Option<ListenAddr>)
        ensures
            r == conflict_from(server_views(earlier@), self@, 0),
    {
        let ghost views = server_views(earlier@);
        let mut i: usize = 0;
        while i < self.listens.len()
            invariant
                0 <= i <= self.listens@.len(),
                views == server_views(earlier@),
                conflict_from(views, self@, 0) == conflict_from(views, self@, i as int),
            decreases self.listens.len() - i,
        {
            if self.taken_by(earlier, self.listens[i]) {
                return Some(self.listens[i]);
            }
            i = i + 1;
        }
        None
    }
}

impl ConfigReport {
    fn skip(&mut self, number: usize, reason: &str)
        ensures
            final(self)@ == (ReportView {
                warnings: old(self)@.warnings.push(skipped(number as int, reason@)),
                ..old(self)@
            }),
    {
        let mut m = "server #".to_owned();
        push_number(&mut m, number as u128, 10);
        m.append(" skipped: ");
        m.append(reason);
        proof {
            lemma_strings_push(self.warnings@, m);
        }
        self.warnings.push(m);
    }

    fn add_block(&mut self, block: &[&[char]], number: usize)
        ensures
            final(self)@ == add_block(old(self)@, texts(block@), number as int),
    {
        match parse_server(block) {
            Err(m) => {
                self.skip(number, m.as_str());
            },
            Ok(server) => match server.conflict(self.servers.as_slice()) {
                Some(a) => {
                    let mut m = "conflicting server block on ".to_owned();
                    m.append(a.to_text().as_str());
                    self.skip(number, m.as_str());
                },
                None => {
                    let ghost added = self.servers@.push(server);
                    assert(server_views(added) =~= server_views(self.servers@).push(server@));
                    self.servers.push(server);
                },
            },
        }
    }
}

/// Reads a configuration. A block that is wrong, or that conflicts with an earlier one, is skipped
/// with a warning.
pub fn read_config(text: &str) -> (r: Result<ConfigReport, String>)
    ensures
        result_view(r) == config_report(text@),
{
    let chars = to_chars(text);
    let blocks = match split_server_blocks(chars.as_slice()) {
        Err(m) => {
            return Err(m);
        },
        Ok(blocks) => blocks,
    };
    let ghost all = block_texts(blocks@);
    if blocks.len() == 0 {
        return Err("configuration contains no server blocks".to_owned());
    }
    let mut report = ConfigReport { servers: Vec::new(), warnings: Vec::new() };
    assert(report@ =~= report_of(all, 0));
    let mut i: usize = 0;
    while i < blocks.len()
        invariant
            0 <= i <= blocks@.len(),
            all == block_texts(blocks@),
            report@ == report_of(all, i as int),
        decreases blocks.len() - i,
    {
        assert(all[i as int] == texts(blocks@[i as int]@));
        report.add_block(blocks[i].as_slice(), i + 1);
        i = i + 1;
    }
    Ok(report)
}

/// The servers of a configuration: those of the blocks that are not skipped.
pub fn parse_config(text: &str) -> (r: Result<Vec<ServerConfig>, String>)
    ensures
        match (r, config_servers(text@)) {
            (Ok(v), Ok(servers)) => server_views(v@) == servers,
            (Err(m), Err(message)) => m@ == message,
            _ => false,
        },
{
    match read_config(text) {
        Err(m) => Err(m),
        Ok(report) => report.into_servers(),
    }
}

impl ConfigReport {
    /// The servers, or what was wrong with every block.
    pub fn into_servers(self) -> (r: Result<Vec<ServerConfig>, String>)
        ensures
            match r {
                Ok(v) => self@.servers.len() > 0 && server_views(v@) == self@.servers,
                Err(m) => self@.servers.len() == 0 && m@ == join(self@.warnings, "; "@),
            },
    {
        if self.servers.len() == 0 {
            return Err(join_strings(self.warnings.as_slice(), "; "));
        }
        Ok(self.servers)
    }
}

// What every accepted configuration keeps

/// A location that can be reached and whose redirect is one.
pub open spec fn sound_route(r: RouteView) -> bool {
    &&& r.path.len() > 0 && r.path[0] == '/'
    &&& r.methods.len() > 0
    &&& r.redirect matches Some((status, _)) ==> 300 <= status < 400
}

/// A server without repeated listeners, whose names are in lower case and all of whose locations
/// are sound.
pub open spec fn sound_server(s: ServerView) -> bool {
    &&& s.listens.no_duplicates()
    &&& forall|k: int|
        0 <= k < s.server_names.len() ==> lower(#[trigger] s.server_names[k]) == s.server_names[k]
    &&& 0 <= s.client_max_body_size <= usize::MAX
    &&& forall|k: int| 0 <= k < s.routes.len() ==> sound_route(#[trigger] s.routes[k])
}

proof fn lemma_route_lines(r: RouteView, lines: Seq<Seq<char>>)
    requires
        sound_route(r),
    ensures
        route_lines(r, lines) matches Ok(next) ==> sound_route(next),
    decreases lines.len(),
{
    if lines.len() > 0 {
        if let Ok(next) = route_directive(r, words(lines[0], CharSet::Space)) {
            lemma_route_lines(next, lines.skip(1));
        }
    }
}

proof fn lemma_server_lines(s: ServerView, lines: Seq<Seq<char>>)
    requires
        sound_server(s),
    ensures
        server_lines(s, lines) matches Ok(next) ==> sound_server(next),
    decreases lines.len(),
{
    if lines.len() > 0 {
        if opens_location(lines[0]) {
            lemma_nested_lines(lines.skip(1), 1);
            if let Ok((route, n)) = location(lines) {
                let path = location_path(lines[0])->0;
                lemma_route_lines(empty_route(path), lines.subrange(1, n - 1));
                let next = ServerView { routes: s.routes.push(route), ..s };
                assert(sound_server(next));
                lemma_server_lines(next, lines.skip(n));
            }
        } else {
            if let Ok(next) = server_directive(s, lines[0]) {
                let parts = words(lines[0], CharSet::Space);
                if parts.len() == 2 {
                    lemma_size_value(parts[1]);
                }
                assert forall|k: int| 0 <= k < next.server_names.len() implies lower(
                    #[trigger] next.server_names[k],
                ) == next.server_names[k] by {
                    let n = s.server_names.len();
                    if k < n {
                        assert(next.server_names[k] == s.server_names[k]);
                    } else {
                        assert(next.server_names[k] == lower(parts.skip(1)[k - n]));
                        lemma_lower_twice(parts.skip(1)[k - n]);
                    }
                }
                lemma_server_lines(next, lines.skip(1));
            }
        }
    }
}

proof fn lemma_size_value(value: Seq<char>)
    ensures
        size_value(value) matches Ok(size) ==> 0 <= size <= usize::MAX,
{
    let l = lower(value);
    let max = usize::MAX as int;
    crate::number::lemma_number_range(l, 10, max);
    crate::number::lemma_number_range(l.drop_last(), 10, max);
    if let Ok(size) = size_value(value) {
        assert(size >= 0) by (nonlinear_arith)
            requires
                exists|base: int, multiplier: int|
                    base >= 0 && multiplier >= 1 && size == #[trigger] (base * multiplier),
        ;
    }
}

/// Every server block that is accepted has a listener, repeats none, has a location for `/`, and
/// all its locations are sound.
pub proof fn law_accepted_block(lines: Seq<Seq<char>>)
    ensures
        server_of(lines) matches Ok(s) ==> sound_server(s) && s.listens.len() > 0 && root_index(
            s.routes,
        ) is Some,
{
    lemma_server_lines(empty_server(), lines);
}

/// A server with a location for `/` has a location for every absolute path, and the one that is
/// chosen matches the path and is as long as any that does.
pub proof fn law_absolute_path_has_a_location(s: ServerView, path: Seq<char>)
    requires
        root_index(s.routes) is Some,
        path.len() > 0,
        path[0] == '/',
    ensures
        route_index(s.routes, path) matches Some(i) && 0 <= i < s.routes.len() && prefix_matches(
            s.routes[i].path,
            path,
        ) && forall|k: int|
            0 <= k < s.routes.len() && prefix_matches((#[trigger] s.routes[k]).path, path)
                ==> s.routes[k].path.len() <= s.routes[i].path.len(),
{
    lemma_root_index(s.routes);
    lemma_route_index(s.routes, path);
    let root = root_index(s.routes)->0;
    assert(prefix_matches(s.routes[root].path, path));
}

proof fn lemma_conflict(earlier: Seq<ServerView>, s: ServerView, i: int, j: int)
    requires
        0 <= i <= j < s.listens.len(),
        conflict_from(earlier, s, i) is None,
    ensures
        !taken(earlier, s, s.listens[j]),
    decreases j - i,
{
    if i < j {
        lemma_conflict(earlier, s, i + 1, j);
    }
}

/// No two servers share a listener on which their names clash.
pub open spec fn told_apart(servers: Seq<ServerView>) -> bool {
    forall|i: int, j: int, a: ListenAddr|
        0 <= i < j < servers.len() && #[trigger] servers[i].listens.contains(a)
            && #[trigger] servers[j].listens.contains(a) ==> !names_clash(servers[i], servers[j])
}

proof fn lemma_report(blocks: Seq<Seq<Seq<char>>>, n: int)
    requires
        0 <= n <= blocks.len(),
    ensures
        told_apart(report_of(blocks, n).servers),
        report_of(blocks, n).servers.len() + report_of(blocks, n).warnings.len() == n,
        forall|k: int|
            0 <= k < report_of(blocks, n).servers.len() ==> exists|b: int|
                0 <= b < n && server_of(#[trigger] blocks[b]) == Ok::<ServerView, Seq<char>>(
                    #[trigger] report_of(blocks, n).servers[k],
                ),
    decreases n,
{
    if n > 0 {
        lemma_report(blocks, n - 1);
        let before = report_of(blocks, n - 1);
        let after = report_of(blocks, n);
        if after.servers.len() > before.servers.len() {
            let s = after.servers.last();
            assert forall|i: int, j: int, a: ListenAddr|
                0 <= i < j < after.servers.len() && #[trigger] after.servers[i].listens.contains(a)
                    && #[trigger] after.servers[j].listens.contains(a) implies !names_clash(
                after.servers[i],
                after.servers[j],
            ) by {
                assert(after.servers[i] == before.servers[i]);
                if j < before.servers.len() {
                    assert(after.servers[j] == before.servers[j]);
                } else {
                    let k = s.listens.index_of(a);
                    lemma_conflict(before.servers, s, 0, k);
                    assert(before.servers[i].listens.contains(a));
                }
            }
        }
        assert forall|k: int| 0 <= k < after.servers.len() implies exists|b: int|
            0 <= b < n && server_of(#[trigger] blocks[b]) == Ok::<ServerView, Seq<char>>(
                #[trigger] after.servers[k],
            ) by {
            if k < before.servers.len() {
                assert(after.servers[k] == before.servers[k]);
                let b = choose|b: int|
                    0 <= b < n - 1 && server_of(#[trigger] blocks[b]) == Ok::<
                        ServerView,
                        Seq<char>,
                    >(before.servers[k]);
                assert(server_of(blocks[b]) == Ok::<ServerView, Seq<char>>(after.servers[k]));
            } else {
                assert(server_of(blocks[n - 1]) == Ok::<ServerView, Seq<char>>(after.servers[k]));
            }
        }
    }
}

/// Of the servers that a configuration gives, each is sound, listens somewhere and has a location
/// for `/`, and no two share a listener on which they have a name in common or are both unnamed.
pub proof fn law_configured_servers(text: Seq<char>)
    ensures
        config_servers(text) matches Ok(servers) ==> {
            &&& servers.len() > 0
            &&& told_apart(servers)
            &&& forall|k: int|
                0 <= k < servers.len() ==> sound_server(#[trigger] servers[k])
                    && servers[k].listens.len() > 0 && root_index(servers[k].routes) is Some
        },
{
    if let Ok(servers) = config_servers(text) {
        let blocks = server_blocks(text)->Ok_0;
        let n = blocks.len() as int;
        lemma_report(blocks, n);
        assert forall|k: int| 0 <= k < servers.len() implies sound_server(#[trigger] servers[k])
            && servers[k].listens.len() > 0 && root_index(servers[k].routes) is Some by {
            let b = choose|b: int|
                0 <= b < n && server_of(#[trigger] blocks[b]) == Ok::<ServerView, Seq<char>>(
                    servers[k],
                );
            law_accepted_block(blocks[b]);
        }
    }
}

/// Every server block either gives a server or a warning.
pub proof fn law_no_block_is_lost(text: Seq<char>)
    ensures
        (server_blocks(text), config_report(text)) matches (Ok(blocks), Ok(report))
            ==> report.servers.len() + report.warnings.len() == blocks.len(),
{
    if let Ok(blocks) = server_blocks(text) {
        lemma_report(blocks, blocks.len() as int);
    }
}

/// A block that is right, and whose names no earlier server has taken on any of its listeners, is
/// kept, whatever becomes of the blocks around it.
pub proof fn law_clear_block_is_kept(r: ReportView, block: Seq<Seq<char>>, number: int)
    requires
        server_of(block) is Ok,
        forall|i: int|
            0 <= i < server_of(block)->Ok_0.listens.len() ==> !taken(
                r.servers,
                server_of(block)->Ok_0,
                #[trigger] server_of(block)->Ok_0.listens[i],
            ),
    ensures
        add_block(r, block, number) == (ReportView {
            servers: r.servers.push(server_of(block)->Ok_0),
            ..r
        }),
{
    lemma_no_conflict(r.servers, server_of(block)->Ok_0, 0);
}

proof fn lemma_no_conflict(earlier: Seq<ServerView>, s: ServerView, i: int)
    requires
        0 <= i,
        forall|k: int| 0 <= k < s.listens.len() ==> !taken(earlier, s, #[trigger] s.listens[k]),
    ensures
        conflict_from(earlier, s, i) is None,
    decreases s.listens.len() - i,
{
    if i < s.listens.len() {
        lemma_no_conflict(earlier, s, i + 1);
    }
}

} // verus!
