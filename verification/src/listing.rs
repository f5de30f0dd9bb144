//! Pages that list a directory.

use crate::params::{url_path_escape, url_text};
use crate::text::{law_text_is_shown_as_written, show_bytes, shown_text, to_chars};
use crate::util::{html_escape, html_text};

use vstd::prelude::*;
use vstd::utf8::encode_utf8;

verus! {

/// An entry of a directory.
#[derive(Debug)]
pub struct Entry {
    /// The bytes of the file name.
    pub name: Vec<u8>,
    /// Whether the entry is a directory.
    pub directory: bool,
}

#[verifier::ext_equal]
pub struct EntryView {
    pub name: Seq<u8>,
    pub directory: bool,
}

impl View for Entry {
    type V = EntryView;

    open spec fn view(&self) -> EntryView {
        EntryView { name: self.name@, directory: self.directory }
    }
}

pub open spec fn entry_views(entries: Seq<Entry>) -> Seq<EntryView> {
    entries.map_values(|e: Entry| e@)
}

/// Bytes come before others: at the first difference they have the smaller byte, or end there.
pub open spec fn bytes_before(a: Seq<u8>, b: Seq<u8>) -> bool
    decreases a.len(),
{
    if b.len() == 0 {
        false
    } else if a.len() == 0 {
        true
    } else if a[0] != b[0] {
        a[0] < b[0]
    } else {
        bytes_before(a.skip(1), b.skip(1))
    }
}

fn is_before(a: &[u8], b: &[u8]) -> (r: bool)
    ensures
        r == bytes_before(a@, b@),
{
    let mut i: usize = 0;
    assert(a@.skip(0) =~= a@);
    assert(b@.skip(0) =~= b@);
    while i < a.len() && i < b.len()
        invariant
            0 <= i <= a@.len(),
            i <= b@.len(),
            bytes_before(a@, b@) == bytes_before(a@.skip(i as int), b@.skip(i as int)),
        decreases a.len() - i,
    {
        assert(a@.skip(i as int).skip(1) =~= a@.skip(i + 1));
        assert(b@.skip(i as int).skip(1) =~= b@.skip(i + 1));
        if a[i] != b[i] {
            return a[i] < b[i];
        }
        i = i + 1;
    }
    i < b.len()
}

/// An entry put into a sorted list, behind those that do not come after it.
pub open spec fn put_in_order(sorted: Seq<EntryView>, e: EntryView) -> Seq<EntryView>
    decreases sorted.len(),
{
    if sorted.len() > 0 && bytes_before(e.name, sorted.last().name) {
        put_in_order(sorted.drop_last(), e).push(sorted.last())
    } else {
        sorted.push(e)
    }
}

/// The entries in the order of their names.
pub open spec fn in_order(entries: Seq<EntryView>) -> Seq<EntryView>
    decreases entries.len(),
{
    if entries.len() == 0 {
        entries
    } else {
        put_in_order(in_order(entries.drop_last()), entries.last())
    }
}

fn insert_entry(sorted: &mut Vec<Entry>, e: Entry)
    ensures
        entry_views(final(sorted)@) == put_in_order(entry_views(old(sorted)@), e@),
{
    let ghost before = entry_views(sorted@);
    let ghost goal = put_in_order(before, e@);
    let mut p: usize = sorted.len();
    assert(before.take(p as int) =~= before);
    assert(before.skip(p as int) =~= Seq::<EntryView>::empty());
    assert(goal =~= put_in_order(before.take(p as int), e@) + before.skip(p as int));
    while p > 0 && is_before(e.name.as_slice(), sorted[p - 1].name.as_slice())
        invariant
            0 <= p <= sorted@.len(),
            before == entry_views(sorted@),
            goal == put_in_order(before.take(p as int), e@) + before.skip(p as int),
        decreases p,
    {
        let ghost part = before.take(p as int);
        assert(part.last() == sorted@[p - 1]@);
        assert(part.drop_last() =~= before.take(p - 1));
        p = p - 1;
        assert(goal =~= put_in_order(before.take(p as int), e@) + before.skip(p as int));
    }
    proof {
        let part = before.take(p as int);
        if p > 0 {
            assert(part.last() == sorted@[p - 1]@);
        }
        assert(put_in_order(part, e@) == part.push(e@));
        assert(entry_views(sorted@.insert(p as int, e)) =~= goal);
    }
    sorted.insert(p, e);
}

/// Sorts the entries by their names.
pub fn sort_entries(entries: Vec<Entry>) -> (r: Vec<Entry>)
    ensures
        entry_views(r@) == in_order(entry_views(entries@)),
{
    let ghost all = entry_views(entries@);
    let mut rest: Vec<Entry> = entries;
    let mut reversed: Vec<Entry> = Vec::new();
    let n: usize = rest.len();
    while rest.len() > 0
        invariant
            rest@.len() + reversed@.len() == n,
            all.len() == n,
            entry_views(rest@) == all.take(rest@.len() as int),
            forall|k: int|
                0 <= k < reversed@.len() ==> (#[trigger] reversed@[k])@ == all[n - 1 - k],
        decreases rest.len(),
    {
        let ghost was = rest@;
        match rest.pop() {
            Some(e) => {
                assert(entry_views(was).last() == e@);
                assert(entry_views(rest@) =~= entry_views(was).drop_last());
                assert(entry_views(was).drop_last() =~= all.take(rest@.len() as int));
                reversed.push(e);
            },
            None => {},
        }
    }
    let mut sorted: Vec<Entry> = Vec::new();
    assert(entry_views(sorted@) =~= in_order(all.take(0)));
    while reversed.len() > 0
        invariant
            all.len() == n,
            reversed@.len() <= n,
            forall|k: int|
                0 <= k < reversed@.len() ==> (#[trigger] reversed@[k])@ == all[n - 1 - k],
            entry_views(sorted@) == in_order(all.take(n - reversed@.len())),
        decreases reversed.len(),
    {
        let ghost done = n - reversed@.len();
        match reversed.pop() {
            Some(e) => {
                assert(e@ == all[done]);
                assert(all.take(done + 1).drop_last() =~= all.take(done));
                insert_entry(&mut sorted, e);
            },
            None => {},
        }
    }
    assert(all.take(n as int) =~= all);
    sorted
}

// The page

/// The directory's URL, ending in a slash.
pub open spec fn listing_base(path: Seq<char>) -> Seq<char> {
    if path.len() > 0 && path.last() == '/' {
        path
    } else {
        path + "/"@
    }
}

/// What follows the name of an entry.
pub open spec fn entry_suffix(directory: bool) -> Seq<char> {
    if directory {
        "/"@
    } else {
        ""@
    }
}

/// The entry with the given name is not listed.
pub open spec fn hidden(name: Seq<char>) -> bool {
    name.len() > 0 && name[0] == '.'
}

/// The item for an entry, where its name is given as text: none where the name starts with a dot.
pub open spec fn listing_item(base: Seq<char>, name: Seq<char>, directory: bool) -> Seq<char> {
    if hidden(name) {
        Seq::empty()
    } else {
        "<li><a href=\""@ + base + url_text(name) + entry_suffix(directory) + "\">"@ + html_text(name)
            + entry_suffix(directory) + "</a></li>"@
    }
}

/// The items for entries.
pub open spec fn listing_items(base: Seq<char>, entries: Seq<EntryView>) -> Seq<char>
    decreases entries.len(),
{
    if entries.len() == 0 {
        Seq::empty()
    } else {
        listing_items(base, entries.drop_last()) + listing_item(
            base,
            shown_text(entries.last().name),
            entries.last().directory,
        )
    }
}

/// The page that lists a directory.
pub open spec fn listing_page(path: Seq<char>, entries: Seq<EntryView>) -> Seq<char> {
    "<!doctype html><html><head><meta charset=\"utf-8\"><title>Index</title></head><body><h1>Index</h1><ul>"@
        + listing_items(listing_base(path), in_order(entries)) + "</ul></body></html>"@
}

fn is_hidden(name: &str) -> (r: bool)
    ensures
        r == hidden(name@),
{
    let chars = to_chars(name);
    chars.len() > 0 && chars[0] == '.'
}

/// Whether the entry with the given name is listed. Of one that is not, nothing else is needed.
pub fn is_listed(name: &[u8]) -> (r: bool)
    ensures
        r == !hidden(shown_text(name@)),
{
    !is_hidden(show_bytes(name).as_str())
}

/// Appends the item for an entry whose name is given as text.
pub fn push_listing_item(out: &mut String, base: &str, name: &str, directory: bool)
    ensures
        final(out)@ == old(out)@ + listing_item(base@, name@, directory),
{
    if is_hidden(name) {
        assert(out@ + Seq::<char>::empty() =~= out@);
        return ;
    }
    let ghost before = out@;
    let suffix = if directory {
        "/"
    } else {
        ""
    };
    out.append("<li><a href=\"");
    out.append(base);
    out.append(url_path_escape(name).as_str());
    out.append(suffix);
    out.append("\">");
    out.append(html_escape(name).as_str());
    out.append(suffix);
    out.append("</a></li>");
    assert(out@ =~= before + listing_item(base@, name@, directory));
}

/// The page that lists a directory with the given entries, requested under the given path.
pub fn directory_listing(entries: Vec<Entry>, request_path: &str) -> (r: String)
    ensures
        r@ == listing_page(request_path@, entry_views(entries@)),
{
    let ghost all = in_order(entry_views(entries@));
    let sorted = sort_entries(entries);
    let chars = to_chars(request_path);
    let mut base = request_path.to_owned();
    if chars.len() == 0 || chars[chars.len() - 1] != '/' {
        base.append("/");
    }
    let mut html =
        "<!doctype html><html><head><meta charset=\"utf-8\"><title>Index</title></head><body><h1>Index</h1><ul>".to_owned();
    let ghost head = html@;
    assert(head + listing_items(base@, all.take(0)) =~= head);
    let mut i: usize = 0;
    while i < sorted.len()
        invariant
            0 <= i <= sorted@.len(),
            all == entry_views(sorted@),
            html@ == head + listing_items(base@, all.take(i as int)),
        decreases sorted.len() - i,
    {
        let ghost part = all.take(i + 1);
        assert(part.drop_last() =~= all.take(i as int));
        assert(part.last() == sorted@[i as int]@);
        let name = show_bytes(sorted[i].name.as_slice());
        push_listing_item(&mut html, base.as_str(), name.as_str(), sorted[i].directory);
        i = i + 1;
        assert(html@ =~= head + listing_items(base@, part));
    }
    assert(all.take(all.len() as int) =~= all);
    html.append("</ul></body></html>");
    html
}

/// An entry whose name is a text is listed under that text.
pub proof fn law_entry_is_listed_by_its_name(
    base: Seq<char>,
    before: Seq<EntryView>,
    name: Seq<char>,
    directory: bool,
)
    ensures
        listing_items(base, before.push(EntryView { name: encode_utf8(name), directory }))
            == listing_items(base, before) + listing_item(base, name, directory),
{
    let all = before.push(EntryView { name: encode_utf8(name), directory });
    assert(all.drop_last() =~= before);
    law_text_is_shown_as_written(name);
}

// Order

proof fn lemma_before_transitive(a: Seq<u8>, b: Seq<u8>, c: Seq<u8>)
    requires
        !bytes_before(b, a),
        !bytes_before(c, b),
    ensures
        !bytes_before(c, a),
    decreases a.len(),
{
    if a.len() > 0 && b.len() > 0 && c.len() > 0 && a[0] == b[0] && b[0] == c[0] {
        lemma_before_transitive(a.skip(1), b.skip(1), c.skip(1));
    }
}

proof fn lemma_before_asymmetric(a: Seq<u8>, b: Seq<u8>)
    requires
        bytes_before(a, b),
    ensures
        !bytes_before(b, a),
    decreases a.len(),
{
    if a.len() > 0 && b.len() > 0 && a[0] == b[0] {
        lemma_before_asymmetric(a.skip(1), b.skip(1));
    }
}

/// No entry comes before one that stands before it.
pub open spec fn is_sorted(entries: Seq<EntryView>) -> bool {
    forall|i: int, j: int|
        0 <= i < j < entries.len() ==> !bytes_before(
            (#[trigger] entries[j]).name,
            (#[trigger] entries[i]).name,
        )
}

proof fn lemma_put_in_order(sorted: Seq<EntryView>, e: EntryView)
    requires
        is_sorted(sorted),
    ensures
        is_sorted(put_in_order(sorted, e)),
        put_in_order(sorted, e).len() == sorted.len() + 1,
        put_in_order(sorted, e).to_multiset() == sorted.to_multiset().insert(e),
        forall|k: int|
            0 <= k <= sorted.len() ==> {
                let x = #[trigger] put_in_order(sorted, e)[k];
                x == e || sorted.contains(x)
            },
    decreases sorted.len(),
{
    broadcast use vstd::seq_lib::group_to_multiset_ensures;

    let r = put_in_order(sorted, e);
    if sorted.len() > 0 && bytes_before(e.name, sorted.last().name) {
        let init = sorted.drop_last();
        let last = sorted.last();
        assert(forall|i: int| 0 <= i < init.len() ==> init[i] == sorted[i]);
        lemma_put_in_order(init, e);
        lemma_before_asymmetric(e.name, last.name);
        let front = put_in_order(init, e);
        assert(r == front.push(last));
        assert(sorted =~= init.push(last));
        assert(r.to_multiset() =~= sorted.to_multiset().insert(e));
        assert forall|i: int, j: int| 0 <= i < j < r.len() implies !bytes_before(
            (#[trigger] r[j]).name,
            (#[trigger] r[i]).name,
        ) by {
            assert(r[i] == front[i]);
            if j < front.len() {
                assert(r[j] == front[j]);
            } else {
                assert(front[i] == e || init.contains(front[i]));
                if front[i] != e {
                    let k = init.index_of(front[i]);
                    assert(sorted[k] == front[i]);
                }
            }
        }
        assert forall|k: int| 0 <= k <= sorted.len() implies ({
            let x = #[trigger] r[k];
            x == e || sorted.contains(x)
        }) by {
            if k < front.len() {
                assert(r[k] == front[k]);
                if front[k] != e {
                    assert(init.contains(front[k]));
                    let j = init.index_of(front[k]);
                    assert(sorted[j] == front[k]);
                }
            } else {
                assert(sorted[sorted.len() - 1] == r[k]);
            }
        }
    } else {
        assert(r == sorted.push(e));
        assert(r.to_multiset() =~= sorted.to_multiset().insert(e));
        assert forall|i: int, j: int| 0 <= i < j < r.len() implies !bytes_before(
            (#[trigger] r[j]).name,
            (#[trigger] r[i]).name,
        ) by {
            if j == sorted.len() {
                if i < sorted.len() - 1 {
                    assert(!bytes_before(sorted.last().name, sorted[i].name));
                    lemma_before_transitive(sorted[i].name, sorted.last().name, e.name);
                }
            }
        }
    }
}

/// A listing shows every entry once, in the order of the names.
pub proof fn law_listing_is_sorted(entries: Seq<EntryView>)
    ensures
        is_sorted(in_order(entries)),
        in_order(entries).to_multiset() == entries.to_multiset(),
    decreases entries.len(),
{
    broadcast use vstd::seq_lib::group_to_multiset_ensures;

    if entries.len() > 0 {
        let init = entries.drop_last();
        law_listing_is_sorted(init);
        lemma_put_in_order(in_order(init), entries.last());
        assert(entries =~= init.push(entries.last()));
        assert(in_order(entries).to_multiset() =~= entries.to_multiset());
    }
}

} // verus!
