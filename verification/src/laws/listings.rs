//! Listings of directories.

use crate::listing::{bytes_before, in_order, listing_item, listing_items, listing_page, EntryView};
use crate::params::url_text;
use crate::text::shown_text;
use crate::util::html_text;
use vstd::prelude::*;

verus! {

/// A name comes before another where it has the smaller byte at the first difference, or ends
/// there.
pub proof fn law_names_are_ordered_by_bytes(common: Seq<u8>, a: Seq<u8>, b: Seq<u8>)
    ensures
        a.len() > 0 && b.len() > 0 && a[0] < b[0] ==> bytes_before(common + a, common + b)
            && !bytes_before(common + b, common + a),
        a.len() > 0 ==> bytes_before(common, common + a) && !bytes_before(common + a, common),
        !bytes_before(common, common),
    decreases common.len(),
{
    if common.len() == 0 {
        assert(common + a =~= a);
        assert(common + b =~= b);
    } else {
        let rest = common.skip(1);
        law_names_are_ordered_by_bytes(rest, a, b);
        assert((common + a).skip(1) =~= rest + a);
        assert((common + b).skip(1) =~= rest + b);
    }
}

/// The item for an entry links to its escaped name below the directory, shows the name as text, and
/// ends in a slash where it is a directory; an entry whose name starts with a dot has none.
pub proof fn law_item_of_an_entry(base: Seq<char>, name: Seq<char>)
    ensures
        name.len() > 0 && name[0] == '.' ==> listing_item(base, name, true).len() == 0
            && listing_item(base, name, false).len() == 0,
        name.len() == 0 || name[0] != '.' ==> listing_item(base, name, false)
            == "<li><a href=\""@ + base + url_text(name) + "\">"@ + html_text(name) + "</a></li>"@,
        name.len() == 0 || name[0] != '.' ==> listing_item(base, name, true)
            == "<li><a href=\""@ + base + url_text(name) + "/"@ + "\">"@ + html_text(name) + "/"@
            + "</a></li>"@,
{
    reveal_strlit("");
    assert(""@ =~= Seq::<char>::empty());
    let start = "<li><a href=\""@ + base + url_text(name);
    assert(start + ""@ =~= start);
    let shown = start + "\">"@ + html_text(name);
    assert(shown + ""@ =~= shown);
}

/// Items follow each other in the order of the entries.
pub proof fn law_items_follow_each_other(
    base: Seq<char>,
    a: Seq<EntryView>,
    b: Seq<EntryView>,
    e: EntryView,
)
    ensures
        listing_items(base, Seq::empty()) == Seq::<char>::empty(),
        listing_items(base, seq![e]) == listing_item(base, shown_text(e.name), e.directory),
        listing_items(base, a + b) == listing_items(base, a) + listing_items(base, b),
    decreases b.len(),
{
    let one = seq![e];
    assert(one.drop_last() =~= Seq::<EntryView>::empty());
    assert(listing_items(base, one.drop_last()) =~= Seq::<char>::empty());
    assert(listing_items(base, one) =~= listing_item(base, shown_text(e.name), e.directory));
    if b.len() == 0 {
        assert(a + b =~= a);
        assert(listing_items(base, a) + listing_items(base, b) =~= listing_items(base, a));
    } else {
        assert((a + b).drop_last() =~= a + b.drop_last());
        law_items_follow_each_other(base, a, b.drop_last(), e);
        assert(listing_items(base, a + b) =~= listing_items(base, a) + listing_items(base, b));
    }
}

/// The page of a directory holds the items of its entries in the order of their names, with links
/// below the path of the request, which ends in a slash for that.
pub proof fn law_page_of_a_directory(path: Seq<char>, entries: Seq<EntryView>)
    ensures
        ({
            let front =
                "<!doctype html><html><head><meta charset=\"utf-8\"><title>Index</title></head><body><h1>Index</h1><ul>"@;
            let back = "</ul></body></html>"@;
            &&& path.len() > 0 && path[path.len() - 1] == '/' ==> listing_page(path, entries)
                == front + listing_items(path, in_order(entries)) + back
            &&& path.len() == 0 || path[path.len() - 1] != '/' ==> listing_page(path, entries)
                == front + listing_items(path + seq!['/'], in_order(entries)) + back
        }),
{
    reveal_strlit("/");
    assert("/"@ =~= seq!['/']);
}

} // verus!
