//! Server blocks: what their directives and locations come to.

use crate::addr::{listen_addr, ListenAddr};
use crate::config::{
    all_lower, count, empty_route, empty_server, location, location_path, nested_lines, nesting,
    opens_location, prefix_matches, route_index, route_lines, server_directive, server_lines,
    server_of, size_value, RouteView, ServerView,
};
use crate::laws::configuration::{
    directive, how_many, is_location_directive, is_named, last_of, law_accepted_location,
};
use crate::laws::texts::law_white_space;
use crate::number::number;
use crate::text::{
    lemma_one_word, lemma_words_append, lower, lower_char, trim, trim_end, trim_start, words,
    CharSet,
};
use vstd::prelude::*;

verus! {

/// A part of a server block: a directive on a line, or a location with its lines.
pub enum Item {
    Directive(Seq<char>),
    Location { path: Seq<char>, lines: Seq<Seq<char>> },
}

/// The text holds no brace.
pub open spec fn no_brace(s: Seq<char>) -> bool {
    forall|i: int| 0 <= i < s.len() ==> (#[trigger] s[i]) != '{' && s[i] != '}'
}

impl Item {
    /// A directive does not open a block; a location has a path without white space, and no braces
    /// within.
    pub open spec fn is_proper(self) -> bool {
        match self {
            Item::Directive(line) => no_brace(line),
            Item::Location { path, lines } => {
                &&& path.len() > 0 && path[0] == '/' && no_brace(path)
                &&& forall|i: int| 0 <= i < path.len() ==> '!' <= #[trigger] path[i] <= '~'
                &&& forall|i: int| 0 <= i < lines.len() ==> no_brace(#[trigger] lines[i])
            },
        }
    }

    /// The lines of the part.
    pub open spec fn lines(self) -> Seq<Seq<char>> {
        match self {
            Item::Directive(line) => seq![line],
            Item::Location { path, lines } => seq!["location "@ + path + " {"@] + lines + seq!["}"@],
        }
    }
}

/// The lines of a server block with the given parts.
pub open spec fn block_lines(items: Seq<Item>) -> Seq<Seq<char>>
    decreases items.len(),
{
    if items.len() == 0 {
        Seq::empty()
    } else {
        items[0].lines() + block_lines(items.skip(1))
    }
}

/// The directives among the parts.
pub open spec fn directives(items: Seq<Item>) -> Seq<Seq<char>>
    decreases items.len(),
{
    if items.len() == 0 {
        Seq::empty()
    } else {
        match items.last() {
            Item::Directive(line) => directives(items.drop_last()).push(line),
            Item::Location { .. } => directives(items.drop_last()),
        }
    }
}

/// The locations among the parts, by their paths and lines.
pub open spec fn locations(items: Seq<Item>) -> Seq<(Seq<char>, Seq<Seq<char>>)>
    decreases items.len(),
{
    if items.len() == 0 {
        Seq::empty()
    } else {
        match items.last() {
            Item::Directive(_) => locations(items.drop_last()),
            Item::Location { path, lines } => locations(items.drop_last()).push((path, lines)),
        }
    }
}

// Locations as they are written

pub proof fn lemma_no_brace(s: Seq<char>)
    requires
        no_brace(s),
    ensures
        count(s, '{') == 0,
        count(s, '}') == 0,
    decreases s.len(),
{
    if s.len() > 0 {
        let t = s.drop_last();
        assert forall|i: int| 0 <= i < t.len() implies (#[trigger] t[i]) != '{' && t[i] != '}' by {
            assert(t[i] == s[i]);
        }
        lemma_no_brace(t);
        assert(s[s.len() - 1] != '{' && s[s.len() - 1] != '}');
    }
}

pub proof fn lemma_closing_line()
    ensures
        nesting("}"@) == -1,
{
    reveal_strlit("}");
    let s = "}"@;
    assert(s.drop_last() =~= Seq::<char>::empty());
    assert(count(s.drop_last(), '{') == 0);
    assert(count(s.drop_last(), '}') == 0);
}

proof fn lemma_nested(lines: Seq<Seq<char>>, rest: Seq<Seq<char>>)
    requires
        forall|i: int| 0 <= i < lines.len() ==> no_brace(#[trigger] lines[i]),
    ensures
        nested_lines(lines + seq!["}"@] + rest, 1) == (lines.len() as int + 1, 0int),
    decreases lines.len(),
{
    let all = lines + seq!["}"@] + rest;
    lemma_closing_line();
    if lines.len() == 0 {
        assert(all[0] == "}"@);
        assert(nested_lines(all.skip(1), 0) == (0int, 0int));
    } else {
        assert(all[0] == lines[0]);
        lemma_no_brace(lines[0]);
        let later = lines.skip(1);
        assert forall|i: int| 0 <= i < later.len() implies no_brace(#[trigger] later[i]) by {
            assert(later[i] == lines[i + 1]);
        }
        lemma_nested(later, rest);
        assert(all.skip(1) =~= later + seq!["}"@] + rest);
    }
}

proof fn lemma_location_line(path: Seq<char>)
    requires
        path.len() > 0,
        no_brace(path),
        forall|i: int| 0 <= i < path.len() ==> '!' <= #[trigger] path[i] <= '~',
    ensures
        opens_location("location "@ + path + " {"@),
        location_path("location "@ + path + " {"@) == Some(path),
{
    reveal_strlit("location ");
    reveal_strlit("location");
    reveal_strlit(" {");
    let line = "location "@ + path + " {"@;
    let brace = CharSet::Only('{');
    let space = CharSet::Space;
    assert(line.take(9) =~= "location "@);
    assert(line.last() == '{');
    let one = "location "@ + path + seq![' '];
    assert(line.drop_last() =~= one);
    assert(one.last() == ' ');
    assert(trim_end(one, brace) == one);
    assert(trim_end(line, brace) == one);
    assert(one[0] == 'l');
    assert(trim_start(one, space) == one);
    let two = "location "@ + path;
    assert(one.drop_last() =~= two);
    assert(two.last() == path[path.len() - 1]);
    law_white_space(two.last());
    assert(trim_end(two, space) == two);
    assert(trim_end(one, space) == two);
    assert(trim(trim_end(line, brace)) == two);
    let key = "location"@;
    let tail = seq![' '] + path;
    assert(two =~= key + tail);
    assert(tail[0] == ' ');
    lemma_words_append(key, tail, space);
    assert forall|j: int| 0 <= j < key.len() implies !space.has(#[trigger] key[j]) by {}
    assert forall|j: int| 0 <= j < path.len() implies !space.has(#[trigger] path[j]) by {
        law_white_space(path[j]);
    }
    lemma_one_word(key, space);
    lemma_one_word(path, space);
    assert(space.has(' '));
    assert(words(two, space) =~= seq![key, path]);
}

/// The server after one more part.
#[verifier::opaque]
spec fn with_item(s: ServerView, item: Item) -> Result<ServerView, Seq<char>> {
    match item {
        Item::Directive(line) => server_directive(s, line),
        Item::Location { path, lines } => match route_lines(empty_route(path), lines) {
            Ok(r) => Ok(ServerView { routes: s.routes.push(r), ..s }),
            Err(m) => Err(m),
        },
    }
}

spec fn with_items(s: ServerView, items: Seq<Item>) -> Result<ServerView, Seq<char>>
    decreases items.len(),
{
    if items.len() == 0 {
        Ok(s)
    } else {
        match with_items(s, items.drop_last()) {
            Err(m) => Err(m),
            Ok(next) => with_item(next, items.last()),
        }
    }
}

proof fn lemma_one_item(s: ServerView, item: Item, rest: Seq<Seq<char>>)
    requires
        item.is_proper(),
    ensures
        server_lines(s, item.lines() + rest) == match with_item(s, item) {
            Err(m) => Err(m),
            Ok(next) => server_lines(next, rest),
        },
{
    reveal(with_item);
    let all = item.lines() + rest;
    match item {
        Item::Directive(line) => {
            assert(all[0] == line);
            if line.len() > 0 {
                assert(line[line.len() - 1] != '{');
            }
            assert(all.skip(1) =~= rest);
        },
        Item::Location { path, lines } => {
            let first = "location "@ + path + " {"@;
            assert(all[0] == first);
            lemma_location_line(path);
            lemma_nested(lines, rest);
            let n = lines.len() as int + 1;
            assert(all.skip(1) =~= lines + seq!["}"@] + rest);
            assert(all.subrange(1, n) =~= lines);
            assert(all.skip(n + 1) =~= rest);
        },
    }
}

#[verifier::spinoff_prover]
#[verifier::rlimit(40)]
proof fn lemma_items(s: ServerView, items: Seq<Item>, rest: Seq<Seq<char>>)
    requires
        forall|i: int| 0 <= i < items.len() ==> (#[trigger] items[i]).is_proper(),
    ensures
        server_lines(s, block_lines(items) + rest) == match with_items(s, items) {
            Err(m) => Err(m),
            Ok(next) => server_lines(next, rest),
        },
    decreases items.len(),
{
    if items.len() == 0 {
        assert(block_lines(items) + rest =~= rest);
    } else {
        let init = items.drop_last();
        assert forall|i: int| 0 <= i < init.len() implies (#[trigger] init[i]).is_proper() by {
            assert(init[i] == items[i]);
        }
        let last = items.last();
        assert(items[items.len() - 1].is_proper());
        lemma_block_lines_push(init, last);
        assert(init.push(last) =~= items);
        lemma_items(s, init, last.lines() + rest);
        assert(block_lines(items) + rest =~= block_lines(init) + (last.lines() + rest));
        if let Ok(next) = with_items(s, init) {
            lemma_one_item(next, last, rest);
        }
    }
}

pub proof fn lemma_block_lines_push(items: Seq<Item>, item: Item)
    ensures
        block_lines(items.push(item)) == block_lines(items) + item.lines(),
    decreases items.len(),
{
    let all = items.push(item);
    if items.len() == 0 {
        assert(all.skip(1) =~= Seq::<Item>::empty());
        assert(block_lines(all.skip(1)) =~= Seq::<Seq<char>>::empty());
        assert(block_lines(all) =~= block_lines(items) + item.lines());
    } else {
        assert(all.skip(1) =~= items.skip(1).push(item));
        assert(all[0] == items[0]);
        lemma_block_lines_push(items.skip(1), item);
        assert(block_lines(all) =~= block_lines(items) + item.lines());
    }
}

proof fn lemma_block(items: Seq<Item>)
    requires
        forall|i: int| 0 <= i < items.len() ==> (#[trigger] items[i]).is_proper(),
    ensures
        server_lines(empty_server(), block_lines(items)) == with_items(empty_server(), items),
{
    let none = Seq::<Seq<char>>::empty();
    lemma_items(empty_server(), items, none);
    assert(block_lines(items) + none =~= block_lines(items));
}

pub proof fn lemma_proper_init(items: Seq<Item>)
    requires
        items.len() > 0,
        forall|i: int| 0 <= i < items.len() ==> (#[trigger] items[i]).is_proper(),
    ensures
        forall|i: int| 0 <= i < items.drop_last().len() ==> (#[trigger] items.drop_last()[i]).is_proper(),
        items.last().is_proper(),
{
    assert forall|i: int| 0 <= i < items.drop_last().len() implies (
    #[trigger] items.drop_last()[i]).is_proper() by {
        assert(items.drop_last()[i] == items[i]);
    }
    assert(items[items.len() - 1].is_proper());
}

pub proof fn lemma_server_names_differ()
    ensures
        "listen"@.len() == 6,
        "server_name"@.len() == 11,
        "client_max_body_size"@.len() == 20,
        "error_page"@.len() == 10,
        "}"@.len() == 1,
{
    reveal_strlit("listen");
    reveal_strlit("server_name");
    reveal_strlit("client_max_body_size");
    reveal_strlit("error_page");
    reveal_strlit("}");
}

/// A location whose path does not start with a slash is refused, and so is one without a path, and
/// one that does not end.
pub proof fn law_refused_locations(
    s: ServerView,
    path: Seq<char>,
    lines: Seq<Seq<char>>,
    rest: Seq<Seq<char>>,
)
    requires
        path.len() > 0,
        no_brace(path),
        forall|i: int| 0 <= i < path.len() ==> '!' <= #[trigger] path[i] <= '~',
        forall|i: int| 0 <= i < lines.len() ==> no_brace(#[trigger] lines[i]),
    ensures
        path[0] != '/' ==> server_lines(s, seq!["location "@ + path + " {"@] + rest) is Err,
        server_lines(s, seq!["location {"@] + rest) is Err,
        server_lines(s, seq!["location "@ + path + " {"@] + lines) is Err,
{
    let first = "location "@ + path + " {"@;
    lemma_location_line(path);
    let all = seq![first] + rest;
    assert(all[0] == first);
    let open = seq![first] + lines;
    assert(open[0] == first);
    assert(open.skip(1) =~= lines);
    lemma_open_lines(lines);
    let bare = "location {"@;
    let other = seq![bare] + rest;
    assert(other[0] == bare);
    reveal_strlit("location ");
    reveal_strlit("location");
    reveal_strlit("location {");
    let brace = CharSet::Only('{');
    let space = CharSet::Space;
    assert(bare.take(9) =~= "location "@);
    let one = "location "@;
    assert(bare.drop_last() =~= one);
    assert(one.last() == ' ');
    assert(trim_end(one, brace) == one);
    assert(trim_end(bare, brace) == one);
    assert(trim_start(one, space) == one);
    let key = "location"@;
    assert(one.drop_last() =~= key);
    assert(trim_end(key, space) == key);
    assert(trim_end(one, space) == key);
    assert forall|j: int| 0 <= j < key.len() implies !space.has(#[trigger] key[j]) by {}
    lemma_one_word(key, space);
    assert(location_path(bare) is None);
}

proof fn lemma_open_lines(lines: Seq<Seq<char>>)
    requires
        forall|i: int| 0 <= i < lines.len() ==> no_brace(#[trigger] lines[i]),
    ensures
        nested_lines(lines, 1).1 == 1,
    decreases lines.len(),
{
    if lines.len() > 0 {
        assert(no_brace(lines[0]));
        lemma_no_brace(lines[0]);
        let later = lines.skip(1);
        assert forall|i: int| 0 <= i < later.len() implies no_brace(#[trigger] later[i]) by {
            assert(later[i] == lines[i + 1]);
        }
        lemma_open_lines(later);
    }
}

// What the parts come to

/// The locations of a block are those that are written in it, in their order, each with its path
/// and what its lines say.
pub proof fn law_locations_of_a_block(items: Seq<Item>)
    requires
        forall|i: int| 0 <= i < items.len() ==> (#[trigger] items[i]).is_proper(),
    ensures
        server_lines(empty_server(), block_lines(items)) matches Ok(s) ==> {
            &&& s.routes.len() == locations(items).len()
            &&& forall|k: int|
                0 <= k < s.routes.len() ==> route_lines(
                    empty_route(locations(items)[k].0),
                    locations(items)[k].1,
                ) == Ok::<RouteView, Seq<char>>(#[trigger] s.routes[k])
        },
    decreases items.len(),
{
    reveal(with_item);
    lemma_block(items);
    if items.len() > 0 {
        lemma_proper_init(items);
        let init = items.drop_last();
        law_locations_of_a_block(init);
        lemma_block(init);
    }
}

/// The listeners of a block are those of its `listen` lines, in their order, and none is repeated.
pub proof fn law_listeners_of_a_block(items: Seq<Item>)
    requires
        forall|i: int| 0 <= i < items.len() ==> (#[trigger] items[i]).is_proper(),
    ensures
        server_lines(empty_server(), block_lines(items)) matches Ok(s) ==> {
            let lines = directives(items);
            &&& s.listens.len() == how_many(lines, "listen"@)
            &&& s.listens.no_duplicates()
            &&& forall|i: int|
                0 <= i < lines.len() && is_named(#[trigger] lines[i], "listen"@) ==> {
                    let k = how_many(lines.take(i), "listen"@);
                    &&& 0 <= k < s.listens.len()
                    &&& directive(lines[i]).len() == 2
                    &&& listen_addr(directive(lines[i])[1]) == Some(s.listens[k])
                }
        },
    decreases items.len(),
{
    reveal(with_item);
    lemma_server_names_differ();
    lemma_block(items);
    let name = "listen"@;
    if items.len() > 0 {
        lemma_proper_init(items);
        let init = items.drop_last();
        law_listeners_of_a_block(init);
        lemma_block(init);
        if let Ok(s) = with_items(empty_server(), items) {
            let before = with_items(empty_server(), init)->Ok_0;
            let lines = directives(items);
            let earlier = directives(init);
            if let Item::Directive(line) = items.last() {
                assert(lines.drop_last() =~= earlier);
            }
            assert forall|i: int| 0 <= i < lines.len() && is_named(#[trigger] lines[i], name) implies ({
                let k = how_many(lines.take(i), name);
                &&& 0 <= k < s.listens.len()
                &&& directive(lines[i]).len() == 2
                &&& listen_addr(directive(lines[i])[1]) == Some(s.listens[k])
            }) by {
                if i < earlier.len() {
                    assert(earlier[i] == lines[i]);
                    assert(earlier.take(i) =~= lines.take(i));
                } else {
                    assert(lines.take(i) =~= earlier);
                }
            }
        }
    }
}

/// How many names the `server_name` lines among the lines give.
pub open spec fn names_given(lines: Seq<Seq<char>>) -> int
    decreases lines.len(),
{
    if lines.len() == 0 {
        0
    } else {
        names_given(lines.drop_last()) + (if is_named(lines.last(), "server_name"@) {
            directive(lines.last()).len() - 1
        } else {
            0
        })
    }
}

/// The names that the `server_name` lines give, in lower case.
spec fn all_names_given(lines: Seq<Seq<char>>) -> Seq<Seq<char>>
    decreases lines.len(),
{
    if lines.len() == 0 {
        Seq::empty()
    } else if is_named(lines.last(), "server_name"@) {
        all_names_given(lines.drop_last()) + all_lower(directive(lines.last()).skip(1))
    } else {
        all_names_given(lines.drop_last())
    }
}

proof fn lemma_names(items: Seq<Item>)
    requires
        forall|i: int| 0 <= i < items.len() ==> (#[trigger] items[i]).is_proper(),
    ensures
        server_lines(empty_server(), block_lines(items)) matches Ok(s) ==> s.server_names
            == all_names_given(directives(items)),
    decreases items.len(),
{
    reveal(with_item);
    lemma_server_names_differ();
    lemma_block(items);
    if items.len() > 0 {
        lemma_proper_init(items);
        let init = items.drop_last();
        lemma_names(init);
        lemma_block(init);
        if let Item::Directive(line) = items.last() {
            assert(directives(items).drop_last() =~= directives(init));
        }
    }
}

proof fn lemma_names_given(lines: Seq<Seq<char>>)
    ensures
        all_names_given(lines).len() == names_given(lines),
    decreases lines.len(),
{
    if lines.len() > 0 {
        lemma_names_given(lines.drop_last());
    }
}

proof fn lemma_name_given(lines: Seq<Seq<char>>, i: int, j: int)
    requires
        0 <= i < lines.len(),
        is_named(lines[i], "server_name"@),
        1 <= j < directive(lines[i]).len(),
    ensures
        ({
            let k = names_given(lines.take(i)) + j - 1;
            0 <= k < all_names_given(lines).len() && all_names_given(lines)[k] == lower(
                directive(lines[i])[j],
            )
        }),
    decreases lines.len(),
{
    let earlier = lines.drop_last();
    lemma_names_given(lines.take(i));
    lemma_names_given(earlier);
    if i < earlier.len() {
        assert(earlier.take(i) =~= lines.take(i));
        lemma_name_given(earlier, i, j);
    } else {
        assert(lines.take(i) =~= earlier);
        let parts = directive(lines[i]);
        assert(parts.skip(1)[j - 1] == parts[j]);
    }
}

/// The names of a block are all those that its `server_name` lines give, in lower case and in
/// their order.
pub proof fn law_names_of_a_block(items: Seq<Item>, i: int, j: int)
    requires
        forall|i: int| 0 <= i < items.len() ==> (#[trigger] items[i]).is_proper(),
        0 <= i < directives(items).len(),
        is_named(directives(items)[i], "server_name"@),
        1 <= j < directive(directives(items)[i]).len(),
    ensures
        server_lines(empty_server(), block_lines(items)) matches Ok(s) ==> {
            let lines = directives(items);
            let k = names_given(lines.take(i)) + j - 1;
            &&& s.server_names.len() == names_given(lines)
            &&& 0 <= k < s.server_names.len()
            &&& s.server_names[k] == lower(directive(lines[i])[j])
        },
{
    lemma_names(items);
    lemma_names_given(directives(items));
    lemma_name_given(directives(items), i, j);
}

/// The body size of a block is that of its last `client_max_body_size` line, or one mebibyte.
pub proof fn law_body_size_of_a_block(items: Seq<Item>)
    requires
        forall|i: int| 0 <= i < items.len() ==> (#[trigger] items[i]).is_proper(),
    ensures
        server_lines(empty_server(), block_lines(items)) matches Ok(s) ==> match last_of(
            directives(items),
            "client_max_body_size"@,
        ) {
            Some(parts) => parts.len() == 2 && size_value(parts[1]) == Ok::<int, Seq<char>>(
                s.client_max_body_size,
            ),
            None => s.client_max_body_size == 1048576,
        },
    decreases items.len(),
{
    reveal(with_item);
    lemma_server_names_differ();
    lemma_block(items);
    if items.len() > 0 {
        lemma_proper_init(items);
        let init = items.drop_last();
        law_body_size_of_a_block(init);
        lemma_block(init);
        if let Item::Directive(line) = items.last() {
            assert(directives(items).drop_last() =~= directives(init));
        }
    }
}

/// The last of the `error_page` lines among the lines for the given status.
pub open spec fn last_page(lines: Seq<Seq<char>>, code: u16) -> Option<Seq<char>>
    decreases lines.len(),
{
    if lines.len() == 0 {
        None
    } else {
        let parts = directive(lines.last());
        if is_named(lines.last(), "error_page"@) && number(parts[1], 10, 65535) == Some(
            code as int,
        ) {
            Some(parts[2])
        } else {
            last_page(lines.drop_last(), code)
        }
    }
}

/// The page for a status is that of the last `error_page` line for it, and there is none without
/// such a line.
pub proof fn law_error_pages_of_a_block(items: Seq<Item>, code: u16)
    requires
        forall|i: int| 0 <= i < items.len() ==> (#[trigger] items[i]).is_proper(),
    ensures
        server_lines(empty_server(), block_lines(items)) matches Ok(s) ==> match last_page(
            directives(items),
            code,
        ) {
            Some(page) => s.error_pages.dom().contains(code) && s.error_pages[code] == page,
            None => !s.error_pages.dom().contains(code),
        },
    decreases items.len(),
{
    reveal(with_item);
    lemma_server_names_differ();
    lemma_block(items);
    if items.len() > 0 {
        lemma_proper_init(items);
        let init = items.drop_last();
        law_error_pages_of_a_block(init, code);
        lemma_block(init);
        if let Item::Directive(line) = items.last() {
            assert(directives(items).drop_last() =~= directives(init));
            let parts = directive(line);
            if parts.len() == 3 {
                crate::number::lemma_number_range(parts[1], 10, 65535);
            }
        }
    }
}

/// The words are a directive that a server can have, apart from locations.
pub open spec fn is_server_directive(parts: Seq<Seq<char>>) -> bool {
    parts.len() == 0 || {
        ||| parts[0] == "listen"@ && parts.len() == 2 && listen_addr(parts[1]) is Some
        ||| parts[0] == "server_name"@ && parts.len() >= 2
        ||| parts[0] == "client_max_body_size"@ && parts.len() == 2 && size_value(parts[1]) is Ok
        ||| parts[0] == "error_page"@ && parts.len() == 3 && number(parts[1], 10, 65535) is Some
        ||| parts[0] == "}"@
    }
}

/// The part can stand in a block: a directive that a server can have, or a location with
/// directives that a location can have.
pub open spec fn is_acceptable(item: Item) -> bool {
    match item {
        Item::Directive(line) => is_server_directive(directive(line)),
        Item::Location { lines, .. } => forall|i: int|
            0 <= i < lines.len() ==> is_location_directive(directive(#[trigger] lines[i])),
    }
}

/// The addresses of the `listen` lines among the lines.
pub open spec fn listen_lines(lines: Seq<Seq<char>>) -> Seq<Option<ListenAddr>>
    decreases lines.len(),
{
    if lines.len() == 0 {
        Seq::empty()
    } else if is_named(lines.last(), "listen"@) {
        listen_lines(lines.drop_last()).push(listen_addr(directive(lines.last())[1]))
    } else {
        listen_lines(lines.drop_last())
    }
}

/// A block's parts are accepted exactly where each of them can stand there and no address is
/// listened on twice; and the block is accepted where there is a listener and a location for `/`
/// besides.
pub proof fn law_accepted_parts(items: Seq<Item>)
    requires
        forall|i: int| 0 <= i < items.len() ==> (#[trigger] items[i]).is_proper(),
    ensures
        server_lines(empty_server(), block_lines(items)) is Ok <==> (forall|i: int|
            0 <= i < items.len() ==> is_acceptable(#[trigger] items[i])) && listen_lines(
            directives(items),
        ).no_duplicates(),
        server_lines(empty_server(), block_lines(items)) matches Ok(s) ==> {
            &&& s.listens.len() == listen_lines(directives(items)).len()
            &&& forall|k: int|
                0 <= k < s.listens.len() ==> listen_lines(directives(items))[k] == Some(
                    #[trigger] s.listens[k],
                )
        },
        server_of(block_lines(items)) is Ok <==> (server_lines(
            empty_server(),
            block_lines(items),
        ) matches Ok(s) && s.listens.len() > 0 && exists|k: int|
            0 <= k < s.routes.len() && (#[trigger] s.routes[k]).path == "/"@),
        server_of(block_lines(items)) matches Ok(s) ==> server_lines(
            empty_server(),
            block_lines(items),
        ) == Ok::<ServerView, Seq<char>>(s),
    decreases items.len(),
{
    reveal(with_item);
    lemma_server_names_differ();
    lemma_block(items);
    if let Ok(s) = server_lines(empty_server(), block_lines(items)) {
        crate::config::lemma_root_index(s.routes);
    }
    if items.len() > 0 {
        lemma_proper_init(items);
        let init = items.drop_last();
        law_accepted_parts(init);
        lemma_block(init);
        let last = items.last();
        let lines = directives(items);
        let earlier = directives(init);
        let all = listen_lines(lines);
        let known = listen_lines(earlier);
        if let Item::Directive(line) = last {
            assert(lines.drop_last() =~= earlier);
        }
        if let Item::Location { path, lines } = last {
            law_accepted_location(path, lines);
        }
        assert((forall|i: int| 0 <= i < items.len() ==> is_acceptable(#[trigger] items[i])) <==> (
        forall|i: int| 0 <= i < init.len() ==> is_acceptable(#[trigger] init[i])) && is_acceptable(
            last,
        )) by {
            if forall|i: int| 0 <= i < items.len() ==> is_acceptable(#[trigger] items[i]) {
                assert(is_acceptable(items[items.len() - 1]));
                assert forall|i: int| 0 <= i < init.len() implies is_acceptable(
                    #[trigger] init[i],
                ) by {
                    assert(init[i] == items[i]);
                }
            }
            if (forall|i: int| 0 <= i < init.len() ==> is_acceptable(#[trigger] init[i]))
                && is_acceptable(last) {
                assert forall|i: int| 0 <= i < items.len() implies is_acceptable(
                    #[trigger] items[i],
                ) by {
                    if i < init.len() {
                        assert(init[i] == items[i]);
                    }
                }
            }
        }
        if all.no_duplicates() {
            assert(known.no_duplicates()) by {
                assert forall|i: int, j: int| 0 <= i < known.len() && 0 <= j < known.len() && i
                    != j implies known[i] != known[j] by {
                    assert(all[i] == known[i] && all[j] == known[j]);
                }
            }
        }
        if let Ok(before) = with_items(empty_server(), init) {
            if let Item::Directive(line) = last {
                let parts = directive(line);
                if is_named(line, "listen"@) && is_server_directive(parts) {
                    let a = listen_addr(parts[1])->0;
                    assert(all =~= known.push(Some(a)));
                    if before.listens.contains(a) {
                        let k = before.listens.index_of(a);
                        assert(known[k] == Some(before.listens[k]));
                        assert(all[k] == all[all.len() - 1]);
                    } else {
                        assert forall|i: int, j: int| 0 <= i < all.len() && 0 <= j < all.len() && i
                            != j implies all[i] != all[j] by {
                            if i < known.len() {
                                assert(known[i] == Some(before.listens[i]));
                            }
                            if j < known.len() {
                                assert(known[j] == Some(before.listens[j]));
                            }
                        }
                    }
                    if let Ok(s) = with_item(before, last) {
                        assert forall|k: int| 0 <= k < s.listens.len() implies all[k] == Some(
                            #[trigger] s.listens[k],
                        ) by {
                            if k < before.listens.len() {
                                assert(s.listens[k] == before.listens[k]);
                            }
                        }
                    }
                }
            }
        }
    }
}

/// Sizes are plain numbers, or numbers of kibibytes or mebibytes with a letter in either case; a
/// size that does not fit is refused, and so is anything else.
pub proof fn law_sizes_have_units(d: Seq<char>, n: int)
    requires
        number(d, 10, usize::MAX as int) == Some(n),
        d.len() > 0,
        forall|i: int| 0 <= i < d.len() ==> '0' <= #[trigger] d[i] <= '9',
    ensures
        size_value(d) == Ok::<int, Seq<char>>(n),
        forall|c: char|
            #![trigger d.push(c)]
            match c {
                'k' | 'K' => if n * 1024 <= usize::MAX {
                    size_value(d.push(c)) == Ok::<int, Seq<char>>(n * 1024)
                } else {
                    size_value(d.push(c)) is Err
                },
                'm' | 'M' => if n * 1048576 <= usize::MAX {
                    size_value(d.push(c)) == Ok::<int, Seq<char>>(n * 1048576)
                } else {
                    size_value(d.push(c)) is Err
                },
                _ => !('0' <= c <= '9') ==> size_value(d.push(c)) is Err,
            },
        size_value(Seq::<char>::empty()) is Err,
{
    crate::number::lemma_number_range(d, 10, usize::MAX as int);
    assert(lower(d) =~= d);
    assert(d[d.len() - 1] == d.last());
    assert(n * 1 == n);
    assert forall|c: char|
        #![trigger d.push(c)]
        match c {
            'k' | 'K' => if n * 1024 <= usize::MAX {
                size_value(d.push(c)) == Ok::<int, Seq<char>>(n * 1024)
            } else {
                size_value(d.push(c)) is Err
            },
            'm' | 'M' => if n * 1048576 <= usize::MAX {
                size_value(d.push(c)) == Ok::<int, Seq<char>>(n * 1048576)
            } else {
                size_value(d.push(c)) is Err
            },
            _ => !('0' <= c <= '9') ==> size_value(d.push(c)) is Err,
        } by {
        let s = d.push(c);
        let l = lower(s);
        assert(l.last() == lower_char(c));
        assert(l.drop_last() =~= d);
        assert(l =~= d.push(lower_char(c)));
        if !('0' <= c <= '9') {
            crate::laws::texts::law_numbers_are_positional(
                d,
                lower_char(c),
                10,
                usize::MAX as int,
            );
            crate::laws::texts::law_digit_values(0, lower_char(c));
        }
    }
    let none = Seq::<char>::empty();
    assert(lower(none) =~= none);
    crate::laws::texts::law_numbers_are_positional(d, '0', 10, usize::MAX as int);
}

/// A location serves its own path and everything below it, and nothing else; the one for `/`
/// serves every absolute path.
pub proof fn law_location_serves_what_is_below(prefix: Seq<char>, path: Seq<char>)
    ensures
        prefix_matches("/"@, path) <==> path.len() > 0 && path[0] == '/',
        prefix != "/"@ ==> (prefix_matches(prefix, path) <==> path == prefix || exists|
            below: Seq<char>,
        |
            path == #[trigger] (prefix + seq!['/'] + below)),
{
    if prefix != "/"@ {
        if prefix_matches(prefix, path) && path != prefix {
            let n = prefix.len() as int;
            assert(path =~= prefix + seq!['/'] + path.skip(n + 1));
        }
        if exists|below: Seq<char>| path == #[trigger] (prefix + seq!['/'] + below) {
            let below = choose|below: Seq<char>| path == #[trigger] (prefix + seq!['/'] + below);
            assert(path.take(prefix.len() as int) =~= prefix);
            assert(path[prefix.len() as int] == '/');
        }
    }
}

/// Of the locations that serve a path, the one with the longest path is chosen, and the last one
/// where it is repeated.
pub proof fn law_longest_location_is_chosen(routes: Seq<RouteView>, path: Seq<char>, k: int)
    requires
        0 <= k < routes.len(),
        prefix_matches(routes[k].path, path),
        forall|j: int|
            0 <= j < k && prefix_matches((#[trigger] routes[j]).path, path) ==> routes[j].path.len()
                <= routes[k].path.len(),
        forall|j: int|
            k < j < routes.len() && prefix_matches((#[trigger] routes[j]).path, path)
                ==> routes[j].path.len() < routes[k].path.len(),
    ensures
        route_index(routes, path) == Some(k),
    decreases routes.len(),
{
    let init = routes.drop_last();
    crate::config::lemma_route_index(init, path);
    if k < routes.len() - 1 {
        assert forall|j: int| 0 <= j < init.len() implies init[j] == routes[j] by {}
        assert(init[k].path == routes[k].path);
        assert forall|j: int| 0 <= j < k && prefix_matches((#[trigger] init[j]).path, path) implies
            init[j].path.len() <= init[k].path.len() by {
            assert(init[j] == routes[j]);
        }
        assert forall|j: int|
            k < j < init.len() && prefix_matches((#[trigger] init[j]).path, path) implies init[j].path.len()
            < init[k].path.len() by {
            assert(init[j] == routes[j]);
        }
        law_longest_location_is_chosen(init, path, k);
        assert(routes.last() == routes[routes.len() - 1]);
    } else {
        if let Some(j) = route_index(init, path) {
            assert(init[j] == routes[j]);
        }
    }
}

} // verus!
