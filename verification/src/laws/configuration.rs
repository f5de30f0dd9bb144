//! Configurations: what the directives of locations and servers do.

use crate::config::{empty_route, route_directive, route_lines, RouteView};
use crate::number::number;
use crate::text::{lower, upper, words, CharSet};
use vstd::prelude::*;

verus! {

// Locations

/// The words of a directive.
pub open spec fn directive(line: Seq<char>) -> Seq<Seq<char>> {
    words(line, CharSet::Space)
}

/// The line is a directive with the given name.
pub open spec fn is_named(line: Seq<char>, name: Seq<char>) -> bool {
    directive(line).len() > 0 && directive(line)[0] == name
}

/// How many of the lines are directives with the given name.
pub open spec fn how_many(lines: Seq<Seq<char>>, name: Seq<char>) -> int
    decreases lines.len(),
{
    if lines.len() == 0 {
        0
    } else {
        how_many(lines.drop_last(), name) + (if is_named(lines.last(), name) {
            1int
        } else {
            0
        })
    }
}

/// The last of the lines that is a directive with the given name.
pub open spec fn last_of(lines: Seq<Seq<char>>, name: Seq<char>) -> Option<Seq<Seq<char>>>
    decreases lines.len(),
{
    if lines.len() == 0 {
        None
    } else if is_named(lines.last(), name) {
        Some(directive(lines.last()))
    } else {
        last_of(lines.drop_last(), name)
    }
}

/// The words are a directive that a location can have.
pub open spec fn is_location_directive(parts: Seq<Seq<char>>) -> bool {
    parts.len() == 0 || {
        ||| parts[0] == "methods"@ && parts.len() >= 2
        ||| parts[0] == "root"@ && parts.len() == 2
        ||| parts[0] == "index"@ && parts.len() == 2
        ||| parts[0] == "autoindex"@ && parts.len() == 2 && (parts[1] == "on"@ || parts[1]
            == "off"@)
        ||| parts[0] == "return"@ && parts.len() == 3 && (number(parts[1], 10, 65535) matches Some(
            status,
        ) && 300 <= status <= 399)
        ||| parts[0] == "cgi_extension"@ && parts.len() == 3 && parts[1].len() > 0 && parts[1][0]
            == '.'
    }
}

pub proof fn lemma_names_differ()
    ensures
        "methods"@.len() == 7,
        "root"@.len() == 4,
        "index"@.len() == 5,
        "autoindex"@.len() == 9,
        "return"@.len() == 6,
        "cgi_extension"@.len() == 13,
        "on"@ != "off"@,
{
    reveal_strlit("methods");
    reveal_strlit("root");
    reveal_strlit("index");
    reveal_strlit("autoindex");
    reveal_strlit("return");
    reveal_strlit("cgi_extension");
    reveal_strlit("on");
    reveal_strlit("off");
    assert("on"@.len() != "off"@.len());
}

proof fn lemma_route_lines_push(r: RouteView, lines: Seq<Seq<char>>, line: Seq<char>)
    ensures
        route_lines(r, lines.push(line)) == match route_lines(r, lines) {
            Err(m) => Err(m),
            Ok(next) => route_directive(next, directive(line)),
        },
    decreases lines.len(),
{
    let all = lines.push(line);
    if lines.len() == 0 {
        assert(all.skip(1) =~= Seq::<Seq<char>>::empty());
        assert(all[0] == line);
        if let Ok(next) = route_directive(r, directive(line)) {
            assert(route_lines(next, all.skip(1)) == Ok::<RouteView, Seq<char>>(next));
        }
    } else {
        assert(all[0] == lines[0]);
        assert(all.skip(1) =~= lines.skip(1).push(line));
        if let Ok(next) = route_directive(r, directive(lines[0])) {
            lemma_route_lines_push(next, lines.skip(1), line);
        }
    }
}

/// A location is accepted exactly where each of its lines is a directive that it can have.
pub proof fn law_accepted_location(path: Seq<char>, lines: Seq<Seq<char>>)
    ensures
        route_lines(empty_route(path), lines) is Ok <==> forall|i: int|
            0 <= i < lines.len() ==> is_location_directive(directive(#[trigger] lines[i])),
    decreases lines.len(),
{
    lemma_names_differ();
    if lines.len() > 0 {
        let init = lines.drop_last();
        law_accepted_location(path, init);
        lemma_route_lines_push(empty_route(path), init, lines.last());
        assert(init.push(lines.last()) =~= lines);
        let parts = directive(lines.last());
        if let Ok(r) = route_lines(empty_route(path), init) {
            assert(route_directive(r, parts) is Ok <==> is_location_directive(parts));
            assert forall|i: int| 0 <= i < init.len() implies is_location_directive(
                directive(#[trigger] init[i]),
            ) by {}
            if is_location_directive(parts) {
                assert forall|i: int| 0 <= i < lines.len() implies is_location_directive(
                    directive(#[trigger] lines[i]),
                ) by {
                    if i < init.len() {
                        assert(init[i] == lines[i]);
                    }
                }
            } else {
                assert(!is_location_directive(directive(lines[lines.len() - 1])));
            }
        } else {
            let i = choose|i: int|
                0 <= i < init.len() && !is_location_directive(directive(#[trigger] init[i]));
            assert(lines[i] == init[i]);
        }
    }
}

/// What a location says of each matter is what its last directive on it says, or a default where
/// it has none: the method GET, the current directory as root, no index file, no listing, no
/// redirect.
pub proof fn law_last_directive_counts(path: Seq<char>, lines: Seq<Seq<char>>)
    ensures
        route_lines(empty_route(path), lines) matches Ok(r) ==> {
            &&& r.path == path
            &&& match last_of(lines, "methods"@) {
                Some(parts) => r.methods.len() == parts.len() - 1 && r.methods.len() > 0
                    && forall|k: int|
                    0 <= k < r.methods.len() ==> #[trigger] r.methods[k] == upper(parts[k + 1]),
                None => r.methods == seq!["GET"@],
            }
            &&& match last_of(lines, "root"@) {
                Some(parts) => parts.len() == 2 && r.root == parts[1],
                None => r.root == "."@,
            }
            &&& match last_of(lines, "index"@) {
                Some(parts) => parts.len() == 2 && r.index == Some(parts[1]),
                None => r.index is None,
            }
            &&& match last_of(lines, "autoindex"@) {
                Some(parts) => parts.len() == 2 && (r.autoindex <==> parts[1] == "on"@) && (
                !r.autoindex <==> parts[1] == "off"@),
                None => !r.autoindex,
            }
            &&& match last_of(lines, "return"@) {
                Some(parts) => parts.len() == 3 && (r.redirect matches Some((status, target))
                    && target == parts[2] && number(parts[1], 10, 65535) == Some(status as int)
                    && 300 <= status <= 399),
                None => r.redirect is None,
            }
        },
    decreases lines.len(),
{
    lemma_names_differ();
    if lines.len() > 0 {
        let init = lines.drop_last();
        law_last_directive_counts(path, init);
        lemma_route_lines_push(empty_route(path), init, lines.last());
        assert(init.push(lines.last()) =~= lines);
        let parts = directive(lines.last());
        if let Ok(before) = route_lines(empty_route(path), init) {
            if let Ok(r) = route_directive(before, parts) {
                if parts.len() > 0 && parts[0] == "methods"@ {
                    assert forall|k: int| 0 <= k < r.methods.len() implies #[trigger] r.methods[k]
                        == upper(parts[k + 1]) by {
                        assert(parts.skip(1)[k] == parts[k + 1]);
                    }
                }
            }
        }
    }
}

/// Every `cgi_extension` line of a location has its mapping, in the order of the lines and with
/// the extension in lower case, and there is no other mapping: a later directive takes none away.
pub proof fn law_every_extension_is_mapped(path: Seq<char>, lines: Seq<Seq<char>>)
    ensures
        route_lines(empty_route(path), lines) matches Ok(r) ==> {
            &&& r.cgi.len() == how_many(lines, "cgi_extension"@)
            &&& forall|i: int|
                0 <= i < lines.len() && is_named(#[trigger] lines[i], "cgi_extension"@) ==> {
                    let k = how_many(lines.take(i), "cgi_extension"@);
                    &&& 0 <= k < r.cgi.len()
                    &&& r.cgi[k].extension == lower(directive(lines[i])[1])
                    &&& r.cgi[k].interpreter == directive(lines[i])[2]
                }
        },
    decreases lines.len(),
{
    lemma_names_differ();
    let name = "cgi_extension"@;
    if lines.len() > 0 {
        let init = lines.drop_last();
        law_every_extension_is_mapped(path, init);
        lemma_route_lines_push(empty_route(path), init, lines.last());
        assert(init.push(lines.last()) =~= lines);
        let parts = directive(lines.last());
        if let Ok(before) = route_lines(empty_route(path), init) {
            if let Ok(r) = route_directive(before, parts) {
                assert forall|i: int|
                    0 <= i < lines.len() && is_named(#[trigger] lines[i], name) implies ({
                    let k = how_many(lines.take(i), name);
                    &&& 0 <= k < r.cgi.len()
                    &&& r.cgi[k].extension == lower(directive(lines[i])[1])
                    &&& r.cgi[k].interpreter == directive(lines[i])[2]
                }) by {
                    if i < init.len() {
                        assert(init[i] == lines[i]);
                        assert(init.take(i) =~= lines.take(i));
                    } else {
                        assert(lines.take(i) =~= init);
                    }
                }
            }
        }
    }
}

} // verus!
