//! Configuration files: comments, blank lines, server blocks, and which servers are kept.

use crate::addr::ListenAddr;
use crate::config::{
    add_block, add_line, add_lines, cleaned, config_report, config_servers, conflict_from, count,
    names_clash, nesting, no_blocks, report_of, server_blocks, server_of, taken, Blocks, ReportView,
    ServerView,
};
use crate::laws::servers::{
    block_lines, lemma_block_lines_push, lemma_closing_line, lemma_no_brace, lemma_proper_init,
    no_brace, Item,
};
use crate::laws::parameters::{is_seen, lemma_seen};
use crate::laws::texts::law_cut_at_a_character;
use crate::text::{join, lines, trim};
use vstd::prelude::*;

verus! {

/// What follows a number sign on a line does not count, nor does the space around the rest.
pub proof fn law_comments_do_not_count(line: Seq<char>, comment: Seq<char>)
    requires
        !line.contains('#'),
    ensures
        cleaned(line + seq!['#'] + comment) == trim(line),
        cleaned(line) == trim(line),
        forall|b: Blocks, n: int| #[trigger]
            add_line(b, line + seq!['#'] + comment, n) == add_line(b, line, n),
        trim(line).len() == 0 ==> forall|b: Blocks, n: int| #[trigger]
            add_line(b, line, n) == Ok::<Blocks, Seq<char>>(b),
{
    law_cut_at_a_character(line, comment, '#');
}

/// Outside of blocks, nothing but the start of one may stand.
pub proof fn law_only_blocks_at_the_top(b: Blocks, line: Seq<char>, n: int)
    requires
        b.depth == 0,
        cleaned(line).len() > 0,
    ensures
        cleaned(line) != "server {"@ ==> add_line(b, line, n) is Err,
        cleaned(line) == "server {"@ ==> (add_line(b, line, n) matches Ok(next) && next.depth == 1
            && next.current.len() == 0 && next.blocks == b.blocks),
{
}

/// Within a block a line is kept as it is, without its comment and the space around it, until the
/// braces that are open are closed; closing more than are open is refused.
pub proof fn law_lines_of_a_block(b: Blocks, line: Seq<char>, n: int)
    requires
        b.depth > 0,
        cleaned(line).len() > 0,
    ensures
        ({
            let depth = b.depth + count(cleaned(line), '{') - count(cleaned(line), '}');
            &&& depth < 0 ==> add_line(b, line, n) is Err
            &&& depth == 0 ==> (add_line(b, line, n) matches Ok(next) && next.depth == 0
                && next.blocks == b.blocks.push(b.current))
            &&& depth > 0 ==> (add_line(b, line, n) matches Ok(next) && next.depth == depth
                && next.blocks == b.blocks && next.current == b.current.push(cleaned(line)))
        }),
{
}

/// A brace counts wherever it stands.
pub proof fn law_braces_are_counted(s: Seq<char>, c: char)
    ensures
        count(Seq::empty(), c) == 0,
        count(s.push(c), c) == count(s, c) + 1,
        forall|d: char| d != c ==> #[trigger] count(s.push(d), c) == count(s, c),
{
    assert(s.push(c).drop_last() =~= s);
    assert forall|d: char| d != c implies #[trigger] count(s.push(d), c) == count(s, c) by {
        assert(s.push(d).drop_last() =~= s);
    }
}

/// The line is not blank, has no comment, and no space around it.
pub open spec fn is_tidy(line: Seq<char>) -> bool {
    is_seen(line) && !line.contains('#')
}

/// The lines of the part are tidy.
pub open spec fn is_tidy_item(item: Item) -> bool {
    match item {
        Item::Directive(line) => is_tidy(line),
        Item::Location { path, lines } => !path.contains('#') && forall|i: int|
            0 <= i < lines.len() ==> is_tidy(#[trigger] lines[i]),
    }
}

/// A whole block: its first line, its parts, and the line that closes it.
pub open spec fn whole_block(items: Seq<Item>) -> Seq<Seq<char>> {
    seq!["server {"@] + block_lines(items) + seq!["}"@]
}

/// The lines of a configuration with the given blocks.
pub open spec fn file_lines(blocks: Seq<Seq<Item>>) -> Seq<Seq<char>>
    decreases blocks.len(),
{
    if blocks.len() == 0 {
        Seq::empty()
    } else {
        file_lines(blocks.drop_last()) + whole_block(blocks.last())
    }
}

proof fn lemma_tidy(line: Seq<char>)
    requires
        is_tidy(line),
    ensures
        cleaned(line) == line,
{
    lemma_seen(line);
    law_cut_at_a_character(line, Seq::empty(), '#');
}

proof fn lemma_add_lines_append(b: Blocks, first: Seq<Seq<char>>, rest: Seq<Seq<char>>, n: int)
    ensures
        add_lines(b, first + rest, n) == match add_lines(b, first, n) {
            Err(m) => Err(m),
            Ok(next) => add_lines(next, rest, n + first.len()),
        },
    decreases first.len(),
{
    if first.len() == 0 {
        assert(first + rest =~= rest);
    } else {
        assert((first + rest)[0] == first[0]);
        assert((first + rest).skip(1) =~= first.skip(1) + rest);
        if let Ok(next) = add_line(b, first[0], n) {
            lemma_add_lines_append(next, first.skip(1), rest, n + 1);
        }
    }
}

proof fn lemma_plain_lines(b: Blocks, all: Seq<Seq<char>>, n: int)
    requires
        b.depth > 0,
        forall|i: int| 0 <= i < all.len() ==> is_tidy(#[trigger] all[i]) && no_brace(all[i]),
    ensures
        add_lines(b, all, n) == Ok::<Blocks, Seq<char>>(Blocks { current: b.current + all, ..b }),
    decreases all.len(),
{
    if all.len() == 0 {
        assert(b.current + all =~= b.current);
    } else {
        assert(is_tidy(all[0]) && no_brace(all[0]));
        lemma_tidy(all[0]);
        lemma_no_brace(all[0]);
        let rest = all.skip(1);
        let next = Blocks { current: b.current.push(all[0]), ..b };
        assert(add_line(b, all[0], n) == Ok::<Blocks, Seq<char>>(next));
        assert forall|i: int| 0 <= i < rest.len() implies is_tidy(#[trigger] rest[i]) && no_brace(
            rest[i],
        ) by {
            assert(rest[i] == all[i + 1]);
        }
        lemma_plain_lines(next, rest, n + 1);
        assert(next.current + rest =~= b.current + all);
    }
}

proof fn lemma_tidy_braces()
    ensures
        is_tidy("}"@),
        is_tidy("server {"@),
        nesting("server {"@) == 1,
{
    reveal_strlit("}");
    reveal_strlit("server {");
    let s = "server {"@;
    let front = s.drop_last();
    assert forall|i: int| 0 <= i < front.len() implies (#[trigger] front[i]) != '{' && front[i]
        != '}' by {
        assert(front[i] == s[i]);
    }
    lemma_no_brace(front);
    assert(s.last() == '{');
}

proof fn lemma_opening_line(path: Seq<char>)
    requires
        path.len() > 0,
        no_brace(path),
        !path.contains('#'),
    ensures
        is_tidy("location "@ + path + " {"@),
        nesting("location "@ + path + " {"@) == 1,
{
    reveal_strlit("location ");
    reveal_strlit(" {");
    let line = "location "@ + path + " {"@;
    let front = line.drop_last();
    assert forall|i: int| 0 <= i < front.len() implies (#[trigger] front[i]) != '{' && front[i]
        != '}' by {
        if 9 <= i < 9 + path.len() {
            assert(front[i] == path[i - 9]);
        } else if i < 9 {
            assert(front[i] == "location "@[i]);
        } else {
            assert(front[i] == ' ');
        }
    }
    lemma_no_brace(front);
    assert(line.last() == '{');
    assert(line[0] == 'l');
    if line.contains('#') {
        let i = line.index_of('#');
        if 9 <= i < 9 + path.len() {
            assert(path[i - 9] == '#');
        } else if i < 9 {
            assert("location "@[i] == '#');
        }
    }
}

proof fn lemma_one_item_lines(b: Blocks, item: Item, n: int)
    requires
        b.depth > 0,
        item.is_proper(),
        is_tidy_item(item),
    ensures
        add_lines(b, item.lines(), n) == Ok::<Blocks, Seq<char>>(
            Blocks { current: b.current + item.lines(), ..b },
        ),
{
    match item {
        Item::Directive(line) => {
            let all = item.lines();
            assert(all[0] == line);
            lemma_plain_lines(b, all, n);
        },
        Item::Location { path, lines } => {
            let first = "location "@ + path + " {"@;
            lemma_opening_line(path);
            lemma_tidy(first);
            lemma_tidy_braces();
            lemma_tidy("}"@);
            lemma_closing_line();
            let all = item.lines();
            assert(all[0] == first);
            let opened = Blocks { current: b.current.push(first), depth: b.depth + 1, ..b };
            assert(add_line(b, first, n) == Ok::<Blocks, Seq<char>>(opened));
            assert(all.skip(1) =~= lines + seq!["}"@]);
            lemma_add_lines_append(opened, lines, seq!["}"@], n + 1);
            lemma_plain_lines(opened, lines, n + 1);
            let inner = Blocks { current: opened.current + lines, ..opened };
            let close = seq!["}"@];
            let done = Blocks { current: inner.current.push("}"@), depth: b.depth, ..inner };
            assert(close[0] == "}"@);
            assert(add_line(inner, "}"@, n + 1 + lines.len()) == Ok::<Blocks, Seq<char>>(done));
            assert(close.skip(1) =~= Seq::<Seq<char>>::empty());
            assert(add_lines(done, close.skip(1), n + 2 + lines.len()) == Ok::<Blocks, Seq<char>>(
                done,
            ));
            assert(done.current =~= b.current + all);
        },
    }
}

proof fn lemma_item_lines(b: Blocks, items: Seq<Item>, n: int)
    requires
        b.depth > 0,
        forall|i: int| 0 <= i < items.len() ==> (#[trigger] items[i]).is_proper(),
        forall|i: int| 0 <= i < items.len() ==> is_tidy_item(#[trigger] items[i]),
    ensures
        add_lines(b, block_lines(items), n) == Ok::<Blocks, Seq<char>>(
            Blocks { current: b.current + block_lines(items), ..b },
        ),
    decreases items.len(),
{
    if items.len() == 0 {
        assert(b.current + block_lines(items) =~= b.current);
    } else {
        let init = items.drop_last();
        lemma_proper_init(items);
        assert forall|i: int| 0 <= i < init.len() implies is_tidy_item(#[trigger] init[i]) by {
            assert(init[i] == items[i]);
        }
        assert(is_tidy_item(items[items.len() - 1]));
        lemma_block_lines_push(init, items.last());
        assert(init.push(items.last()) =~= items);
        lemma_item_lines(b, init, n);
        lemma_add_lines_append(b, block_lines(init), items.last().lines(), n);
        let middle = Blocks { current: b.current + block_lines(init), ..b };
        lemma_one_item_lines(middle, items.last(), n + block_lines(init).len());
        assert(middle.current + items.last().lines() =~= b.current + block_lines(items));
    }
}

proof fn lemma_whole_block(b: Blocks, items: Seq<Item>, n: int)
    requires
        b.depth == 0,
        forall|i: int| 0 <= i < items.len() ==> (#[trigger] items[i]).is_proper(),
        forall|i: int| 0 <= i < items.len() ==> is_tidy_item(#[trigger] items[i]),
    ensures
        add_lines(b, whole_block(items), n) == Ok::<Blocks, Seq<char>>(
            Blocks {
                blocks: b.blocks.push(block_lines(items)),
                current: Seq::empty(),
                depth: 0,
            },
        ),
{
    let all = whole_block(items);
    lemma_tidy_braces();
    lemma_tidy("server {"@);
    lemma_tidy("}"@);
    lemma_closing_line();
    assert(all[0] == "server {"@);
    let opened = Blocks { current: Seq::empty(), depth: 1, ..b };
    assert(add_line(b, all[0], n) == Ok::<Blocks, Seq<char>>(opened));
    let close = seq!["}"@];
    assert(all.skip(1) =~= block_lines(items) + close);
    lemma_item_lines(opened, items, n + 1);
    lemma_add_lines_append(opened, block_lines(items), close, n + 1);
    let full = Blocks { current: opened.current + block_lines(items), ..opened };
    assert(full.current =~= block_lines(items));
    let at = n + 1 + block_lines(items).len();
    assert(close[0] == "}"@);
    let done = Blocks {
        blocks: b.blocks.push(block_lines(items)),
        current: Seq::empty(),
        depth: 0,
    };
    assert(add_line(full, "}"@, at) == Ok::<Blocks, Seq<char>>(done));
    assert(close.skip(1) =~= Seq::<Seq<char>>::empty());
    assert(add_lines(done, close.skip(1), at + 1) == Ok::<Blocks, Seq<char>>(done));
}

/// The parts of every block are proper and their lines are tidy.
pub open spec fn is_tidy_file(blocks: Seq<Seq<Item>>) -> bool {
    forall|k: int, i: int|
        #![trigger blocks[k][i]]
        0 <= k < blocks.len() && 0 <= i < blocks[k].len() ==> blocks[k][i].is_proper()
            && is_tidy_item(blocks[k][i])
}

proof fn lemma_file(blocks: Seq<Seq<Item>>)
    requires
        is_tidy_file(blocks),
    ensures
        add_lines(no_blocks(), file_lines(blocks), 1) matches Ok(b) && b.depth == 0 && b.current
            == Seq::<Seq<char>>::empty() && b.blocks == blocks.map_values(
            |items: Seq<Item>| block_lines(items),
        ),
    decreases blocks.len(),
{
    if blocks.len() == 0 {
        assert(no_blocks().blocks =~= blocks.map_values(|items: Seq<Item>| block_lines(items)));
    } else {
        let init = blocks.drop_last();
        let last = blocks[blocks.len() - 1];
        assert forall|k: int, i: int|
            #![trigger init[k][i]]
            0 <= k < init.len() && 0 <= i < init[k].len() implies init[k][i].is_proper()
            && is_tidy_item(init[k][i]) by {
            assert(init[k][i] == blocks[k][i]);
        }
        lemma_file(init);
        assert forall|i: int| 0 <= i < last.len() implies (#[trigger] last[i]).is_proper() by {
            assert(blocks[blocks.len() - 1][i].is_proper());
        }
        assert forall|i: int| 0 <= i < last.len() implies is_tidy_item(#[trigger] last[i]) by {
            assert(is_tidy_item(blocks[blocks.len() - 1][i]));
        }
        let so_far = add_lines(no_blocks(), file_lines(init), 1)->Ok_0;
        lemma_add_lines_append(no_blocks(), file_lines(init), whole_block(last), 1);
        lemma_whole_block(so_far, last, 1 + file_lines(init).len() as int);
        assert(so_far.blocks.push(block_lines(last)) =~= blocks.map_values(
            |items: Seq<Item>| block_lines(items),
        ));
    }
}

/// A configuration is read as the blocks that are written in it, in their order and each with its
/// lines; one that ends within a block is refused.
pub proof fn law_configuration_is_its_blocks(text: Seq<char>, blocks: Seq<Seq<Item>>)
    requires
        is_tidy_file(blocks),
    ensures
        lines(text) == file_lines(blocks) ==> (server_blocks(text) matches Ok(found) && found.len()
            == blocks.len() && forall|k: int|
            0 <= k < blocks.len() ==> #[trigger] found[k] == block_lines(blocks[k])),
        lines(text) == file_lines(blocks).push("server {"@) ==> server_blocks(text) is Err,
        lines(text) == file_lines(blocks).push("}"@) ==> server_blocks(text) is Err,
{
    lemma_file(blocks);
    lemma_tidy_braces();
    lemma_tidy("server {"@);
    lemma_tidy("}"@);
    let b = add_lines(no_blocks(), file_lines(blocks), 1)->Ok_0;
    let n = 1 + file_lines(blocks).len() as int;
    let open = seq!["server {"@];
    let close = seq!["}"@];
    assert(file_lines(blocks).push("server {"@) =~= file_lines(blocks) + open);
    assert(file_lines(blocks).push("}"@) =~= file_lines(blocks) + close);
    lemma_add_lines_append(no_blocks(), file_lines(blocks), open, 1);
    lemma_add_lines_append(no_blocks(), file_lines(blocks), close, 1);
    reveal_strlit("}");
    reveal_strlit("server {");
    assert("}"@.len() != "server {"@.len());
    assert(open[0] == "server {"@ && close[0] == "}"@);
    assert(open.skip(1) =~= Seq::<Seq<char>>::empty());
    let opened = Blocks { current: Seq::empty(), depth: 1, ..b };
    assert(add_line(b, open[0], n) == Ok::<Blocks, Seq<char>>(opened));
    assert(add_lines(opened, open.skip(1), n + 1) == Ok::<Blocks, Seq<char>>(opened));
    assert(add_lines(b, open, n) == Ok::<Blocks, Seq<char>>(opened));
    assert(add_line(b, close[0], n) is Err);
    assert(add_lines(b, close, n) is Err);
}

// Which servers are kept

/// The servers could not be told apart on an address that they share: both have no name, or they
/// have one in common.
pub open spec fn same_place(a: ServerView, b: ServerView, addr: ListenAddr) -> bool {
    &&& a.listens.contains(addr) && b.listens.contains(addr)
    &&& (a.server_names.len() == 0 && b.server_names.len() == 0) || exists|i: int, j: int|
        0 <= i < a.server_names.len() && 0 <= j < b.server_names.len()
            && #[trigger] a.server_names[i] == #[trigger] b.server_names[j]
}

proof fn lemma_clash(a: ServerView, b: ServerView)
    ensures
        names_clash(a, b) <==> ((a.server_names.len() == 0 && b.server_names.len() == 0) || exists|
            i: int,
            j: int,
        |
            0 <= i < a.server_names.len() && 0 <= j < b.server_names.len()
                && #[trigger] a.server_names[i] == #[trigger] b.server_names[j]),
{
    if exists|i: int, j: int|
        0 <= i < a.server_names.len() && 0 <= j < b.server_names.len()
            && #[trigger] a.server_names[i] == #[trigger] b.server_names[j] {
        let (i, j) = choose|i: int, j: int|
            0 <= i < a.server_names.len() && 0 <= j < b.server_names.len()
                && #[trigger] a.server_names[i] == #[trigger] b.server_names[j];
        assert(a.server_names.contains(a.server_names[i]));
        assert(b.server_names.contains(a.server_names[i]));
    }
    if exists|n: Seq<char>| #[trigger] a.server_names.contains(n) && b.server_names.contains(n) {
        let n = choose|n: Seq<char>| #[trigger]
            a.server_names.contains(n) && b.server_names.contains(n);
        let i = a.server_names.index_of(n);
        let j = b.server_names.index_of(n);
        assert(a.server_names[i] == b.server_names[j]);
    }
}

proof fn lemma_conflict_somewhere(earlier: Seq<ServerView>, s: ServerView, i: int)
    requires
        0 <= i <= s.listens.len(),
    ensures
        conflict_from(earlier, s, i) is Some <==> exists|j: int|
            i <= j < s.listens.len() && taken(earlier, s, #[trigger] s.listens[j]),
    decreases s.listens.len() - i,
{
    if i < s.listens.len() {
        lemma_conflict_somewhere(earlier, s, i + 1);
        if taken(earlier, s, s.listens[i]) {
        } else if conflict_from(earlier, s, i + 1) is Some {
            let j = choose|j: int|
                i + 1 <= j < s.listens.len() && taken(earlier, s, #[trigger] s.listens[j]);
            assert(taken(earlier, s, s.listens[j]));
        }
    }
}

/// A block whose server cannot be told from an earlier one on some address is skipped with a
/// warning, and so is a block that is not right; any other is kept, behind the earlier ones.
/// Nothing that was kept goes.
pub proof fn law_which_servers_are_kept(r: ReportView, block: Seq<Seq<char>>, number: int)
    ensures
        ({
            let after = add_block(r, block, number);
            let clash = server_of(block) matches Ok(s) && exists|k: int, addr: ListenAddr|
                0 <= k < r.servers.len() && #[trigger] same_place(r.servers[k], s, addr);
            &&& server_of(block) is Err || clash ==> after.servers == r.servers
                && after.warnings.len() == r.warnings.len() + 1 && after.warnings.drop_last()
                == r.warnings
            &&& server_of(block) is Ok && !clash ==> after.warnings == r.warnings && after.servers
                == r.servers.push(server_of(block)->Ok_0)
        }),
{
    let after = add_block(r, block, number);
    if server_of(block) is Err || (server_of(block) matches Ok(s) && conflict_from(
        r.servers,
        s,
        0,
    ) is Some) {
        assert(after.warnings.drop_last() =~= r.warnings);
    }
    if let Ok(s) = server_of(block) {
        lemma_conflict_somewhere(r.servers, s, 0);
        if conflict_from(r.servers, s, 0) is Some {
            let j = choose|j: int|
                0 <= j < s.listens.len() && taken(r.servers, s, #[trigger] s.listens[j]);
            let a = s.listens[j];
            let k = choose|k: int|
                0 <= k < r.servers.len() && (#[trigger] r.servers[k]).listens.contains(a)
                    && names_clash(r.servers[k], s);
            lemma_clash(r.servers[k], s);
            assert(s.listens.contains(a));
            assert(same_place(r.servers[k], s, a));
        }
        if exists|k: int, addr: ListenAddr|
            0 <= k < r.servers.len() && #[trigger] same_place(r.servers[k], s, addr) {
            let (k, addr) = choose|k: int, addr: ListenAddr|
                0 <= k < r.servers.len() && #[trigger] same_place(r.servers[k], s, addr);
            lemma_clash(r.servers[k], s);
            let j = s.listens.index_of(addr);
            assert(taken(r.servers, s, s.listens[j]));
        }
    }
}

/// The servers of a configuration are those of the report on its blocks, one after the other; a
/// configuration without blocks, or without a server that is kept, is refused.
pub proof fn law_servers_of_a_configuration(text: Seq<char>)
    ensures
        server_blocks(text) is Err ==> config_servers(text) is Err && config_report(text) is Err,
        server_blocks(text) matches Ok(blocks) ==> {
            let report = report_of(blocks, blocks.len() as int);
            &&& blocks.len() == 0 ==> config_servers(text) is Err
            &&& blocks.len() > 0 ==> config_report(text) == Ok::<ReportView, Seq<char>>(report)
            &&& blocks.len() > 0 && report.servers.len() > 0 ==> config_servers(text) == Ok::<
                Seq<ServerView>,
                Seq<char>,
            >(report.servers)
            &&& blocks.len() > 0 && report.servers.len() == 0 ==> config_servers(text) == Err::<
                Seq<ServerView>,
                Seq<char>,
            >(join(report.warnings, seq![';', ' ']))
        },
        forall|blocks: Seq<Seq<Seq<char>>>, n: int|
            0 <= n < blocks.len() ==> #[trigger] report_of(blocks, n + 1) == add_block(
                report_of(blocks, n),
                blocks[n],
                n + 1,
            ),
        forall|blocks: Seq<Seq<Seq<char>>>|
            (#[trigger] report_of(blocks, 0)).servers.len() == 0 && report_of(
                blocks,
                0,
            ).warnings.len() == 0,
{
    reveal_strlit("; ");
    assert("; "@ =~= seq![';', ' ']);
    assert forall|blocks: Seq<Seq<Seq<char>>>, n: int| 0 <= n < blocks.len() implies #[trigger] report_of(
        blocks,
        n + 1,
    ) == add_block(report_of(blocks, n), blocks[n], n + 1) by {
        assert(n + 1 - 1 == n);
    }
}

} // verus!
