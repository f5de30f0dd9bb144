//! Paths: within a location, below a root, and as names of files.

use crate::handler::relative;
use crate::number::hex_value;
use crate::text::{
    join, lemma_words_append, lemma_words_trim, trim, trim_end, trim_start, words, CharSet,
};
use crate::util::{
    absolute, all_names, base_name, followed, html_text, is_name, join_below, kept,
    law_absolute_path_keeps_its_names, lemma_names_are_kept, normal_path, percent_bytes,
    percent_text, push_name, push_names, safe_name, segments,
};
use vstd::prelude::*;

verus! {

/// The path that the names make up, without a leading slash.
pub open spec fn path_of(names: Seq<Seq<char>>) -> Seq<char> {
    join(names, seq!['/'])
}

pub proof fn lemma_slash()
    ensures
        "/"@ == seq!['/'],
{
    reveal_strlit("/");
    assert("/"@ =~= seq!['/']);
}

pub proof fn lemma_first_of_path(names: Seq<Seq<char>>)
    requires
        all_names(names),
        names.len() > 0,
    ensures
        path_of(names).len() > 0,
        path_of(names)[0] != '/',
        path_of(names)[path_of(names).len() - 1] != '/',
    decreases names.len(),
{
    let last = names[names.len() - 1];
    assert(is_name(last));
    assert(is_name(names[0]));
    assert(last.len() > 0 && last[last.len() - 1] != '/') by {
        if last[last.len() - 1] == '/' {
            assert(last.contains('/'));
        }
    }
    if names.len() == 1 {
        if names[0][0] == '/' {
            assert(names[0].contains('/'));
        }
    } else {
        let init = names.drop_last();
        assert forall|k: int| 0 <= k < init.len() implies is_name(#[trigger] init[k]) by {
            assert(init[k] == names[k]);
        }
        lemma_first_of_path(init);
        let path = path_of(names);
        assert(path =~= path_of(init) + seq!['/'] + last);
        assert(path[0] == path_of(init)[0]);
        assert(path[path.len() - 1] == last[last.len() - 1]);
    }
}

/// Below a location, a path is taken from the location on: what is asked for is what follows the
/// location's path and the slash. The location itself stands for its root.
pub proof fn law_path_within_a_location(prefix: Seq<char>, names: Seq<Seq<char>>)
    requires
        all_names(names),
    ensures
        relative(prefix, prefix + seq!['/'] + path_of(names)) == path_of(names) || prefix
            == seq!['/'],
        relative(seq!['/'], seq!['/'] + path_of(names)) == path_of(names),
        prefix != seq!['/'] ==> relative(prefix, prefix) == Seq::<char>::empty(),
{
    lemma_slash();
    let slash = CharSet::Only('/');
    let path = path_of(names);
    if names.len() > 0 {
        lemma_first_of_path(names);
    } else {
        assert(path =~= Seq::<char>::empty());
    }
    assert(trim_start(path, slash) == path);
    let tail = seq!['/'] + path;
    assert(tail.skip(1) =~= path);
    assert(trim_start(tail, slash) == path);
    let whole = prefix + seq!['/'] + path;
    assert(whole.take(prefix.len() as int) =~= prefix);
    assert(whole.skip(prefix.len() as int) =~= tail);
    assert(prefix.take(prefix.len() as int) =~= prefix);
    assert(prefix.skip(prefix.len() as int) =~= Seq::<char>::empty());
    assert(trim_start(Seq::<char>::empty(), slash) =~= Seq::<char>::empty());
}

pub proof fn lemma_segments_of_path(names: Seq<Seq<char>>)
    requires
        all_names(names),
    ensures
        words(path_of(names), CharSet::Only('/')) == names,
        segments(path_of(names)) == names,
{
    lemma_slash();
    let set = CharSet::Only('/');
    let path = path_of(names);
    law_absolute_path_keeps_its_names(names);
    let full = absolute(names);
    assert(full.skip(1) =~= path);
    assert(trim_start(full, set) == trim_start(path, set));
    lemma_words_trim(full, set);
    lemma_words_trim(path, set);
}

proof fn lemma_push_path(root: Seq<char>, names: Seq<Seq<char>>)
    requires
        all_names(names),
        names.len() > 0,
        root.len() > 0,
        root[root.len() - 1] != '/',
    ensures
        push_names(root, names) == root + seq!['/'] + path_of(names),
    decreases names.len(),
{
    lemma_slash();
    let init = names.drop_last();
    if names.len() == 1 {
        assert(push_names(root, init) == root);
    } else {
        assert forall|k: int| 0 <= k < init.len() implies is_name(#[trigger] init[k]) by {
            assert(init[k] == names[k]);
        }
        lemma_push_path(root, init);
        lemma_first_of_path(init);
        let shorter = root + seq!['/'] + path_of(init);
        assert(shorter[shorter.len() - 1] == path_of(init)[path_of(init).len() - 1]);
        assert(push_names(root, names) =~= root + seq!['/'] + path_of(names));
    }
}

/// A path of names is joined to a root with a slash between them, as it is. No names lead to the
/// root itself.
pub proof fn law_joined_path(root: Seq<char>, names: Seq<Seq<char>>)
    requires
        all_names(names),
        root.len() > 0,
        root[root.len() - 1] != '/',
    ensures
        names.len() > 0 ==> join_below(root, path_of(names)) == Ok::<Seq<char>, Seq<char>>(
            root + seq!['/'] + path_of(names),
        ),
        join_below(root, Seq::empty()) == Ok::<Seq<char>, Seq<char>>(root),
{
    lemma_segments_of_path(names);
    lemma_names_are_kept(names);
    if names.len() > 0 {
        lemma_first_of_path(names);
        lemma_push_path(root, names);
    }
    let none = Seq::<Seq<char>>::empty();
    assert(path_of(none) =~= Seq::<char>::empty());
    lemma_segments_of_path(none);
    assert(push_names(root, none) == root);
}

/// A path that leads to a parent directory anywhere, or is absolute, is joined to no root.
pub proof fn law_unsafe_paths_are_not_joined(root: Seq<char>, front: Seq<char>, back: Seq<char>)
    ensures
        join_below(root, front + seq!['/', '.', '.', '/'] + back) is Err,
        join_below(root, front + seq!['/', '.', '.']) is Err,
        join_below(root, seq!['.', '.', '/'] + back) is Err,
        join_below(root, seq!['.', '.']) is Err,
        join_below(root, seq!['/'] + back) is Err,
{
    lemma_parent_within(front, back);
    lemma_parent_within(front, Seq::empty());
    lemma_parent_within(Seq::empty(), back);
    lemma_parent_within(Seq::empty(), Seq::empty());
    let none = Seq::<char>::empty();
    let set = CharSet::Only('/');
    let a = front + seq!['/', '.', '.'];
    let b = front + seq!['/', '.', '.', '/'] + none;
    assert(b =~= a + seq!['/']);
    lemma_words_append(a, seq!['/'], set);
    lemma_no_words();
    assert(words(a, set) + Seq::<Seq<char>>::empty() =~= words(a, set));
    let c = seq!['.', '.', '/'] + back;
    let d = none + seq!['/', '.', '.', '/'] + back;
    assert(d.skip(1) =~= c);
    assert(trim_start(d, set) == trim_start(c, set));
    lemma_words_trim(d, set);
    lemma_words_trim(c, set);
    let e = seq!['.', '.'];
    let f = seq!['.', '.', '/'];
    assert(f =~= e + seq!['/']);
    lemma_words_append(e, seq!['/'], set);
    assert(words(e, set) + Seq::<Seq<char>>::empty() =~= words(e, set));
    let g = none + seq!['/', '.', '.', '/'] + none;
    assert(g.skip(1) =~= f);
    assert(trim_start(g, set) == trim_start(f, set));
    lemma_words_trim(g, set);
    lemma_words_trim(f, set);
}

proof fn lemma_no_words()
    ensures
        words(seq!['/'], CharSet::Only('/')) == Seq::<Seq<char>>::empty(),
{
    let s = seq!['/'];
    let set = CharSet::Only('/');
    assert(s.skip(1) =~= Seq::<char>::empty());
    assert(trim_start(s, set) == trim_start(s.skip(1), set));
    assert(trim_start(s, set) =~= Seq::<char>::empty());
}

pub proof fn lemma_kept_append(a: Seq<Seq<char>>, b: Seq<Seq<char>>)
    ensures
        kept(a + b) == kept(a) + kept(b),
    decreases b.len(),
{
    if b.len() == 0 {
        assert(a + b =~= a);
        assert(kept(a) + kept(b) =~= kept(a));
    } else {
        assert((a + b).drop_last() =~= a + b.drop_last());
        assert((a + b).last() == b.last());
        lemma_kept_append(a, b.drop_last());
        assert(kept(a + b) =~= kept(a) + kept(b));
    }
}

proof fn lemma_parent_within(front: Seq<char>, back: Seq<char>)
    ensures
        segments(front + seq!['/', '.', '.', '/'] + back).contains(".."@),
{
    reveal_strlit("..");
    reveal_strlit(".");
    let set = CharSet::Only('/');
    let dots = seq!['.', '.'];
    assert(".."@ =~= dots);
    let tail = seq!['/'] + back;
    let middle = dots + tail;
    let all = front + seq!['/', '.', '.', '/'] + back;
    let cut = seq!['/'] + middle;
    assert(all =~= front + cut);
    assert(cut[0] == '/');
    lemma_words_append(front, cut, set);
    assert(cut.skip(1) =~= middle);
    assert(trim_start(cut, set) == trim_start(middle, set));
    lemma_words_trim(cut, set);
    lemma_words_trim(middle, set);
    assert(tail[0] == '/');
    lemma_words_append(dots, tail, set);
    assert forall|j: int| 0 <= j < dots.len() implies !set.has(#[trigger] dots[j]) by {}
    crate::text::lemma_one_word(dots, set);
    lemma_kept_append(words(front, set), words(middle, set));
    lemma_kept_append(seq![dots], words(tail, set));
    assert(words(middle, set) == seq![dots] + words(tail, set));
    let one = seq![dots];
    assert(one.drop_last() =~= Seq::<Seq<char>>::empty());
    assert(kept(one.drop_last()) =~= Seq::<Seq<char>>::empty());
    assert(dots != "."@);
    assert(kept(one) =~= one);
    assert(kept(one)[0] == ".."@);
    let k = kept(words(front, set)).len() as int;
    assert(segments(all)[k] == kept(one)[0]);
}

/// The current directory and repeated slashes add nothing to a path.
pub proof fn law_current_directory_is_left_out(front: Seq<char>, back: Seq<char>)
    ensures
        segments(front + seq!['/', '.', '/'] + back) == segments(front + seq!['/'] + back),
        segments(front + seq!['/', '/'] + back) == segments(front + seq!['/'] + back),
{
    reveal_strlit(".");
    let set = CharSet::Only('/');
    let dot = seq!['.'];
    assert("."@ =~= dot);
    let tail = seq!['/'] + back;
    let middle = dot + tail;
    let cut = seq!['/'] + middle;
    let all = front + seq!['/', '.', '/'] + back;
    assert(all =~= front + cut);
    lemma_words_append(front, cut, set);
    assert(cut.skip(1) =~= middle);
    assert(trim_start(cut, set) == trim_start(middle, set));
    lemma_words_trim(cut, set);
    lemma_words_trim(middle, set);
    lemma_words_append(dot, tail, set);
    assert forall|j: int| 0 <= j < dot.len() implies !set.has(#[trigger] dot[j]) by {}
    crate::text::lemma_one_word(dot, set);
    lemma_kept_append(words(front, set), words(middle, set));
    lemma_kept_append(seq![dot], words(tail, set));
    let one = seq![dot];
    assert(one.drop_last() =~= Seq::<Seq<char>>::empty());
    assert(kept(one.drop_last()) =~= Seq::<Seq<char>>::empty());
    assert(kept(one) =~= Seq::<Seq<char>>::empty());
    assert(kept(one) + kept(words(tail, set)) =~= kept(words(tail, set)));
    let short = front + seq!['/'] + back;
    assert(short =~= front + tail);
    lemma_words_append(front, tail, set);
    lemma_kept_append(words(front, set), words(tail, set));
    let two = seq!['/'] + tail;
    assert(front + seq!['/', '/'] + back =~= front + two);
    lemma_words_append(front, two, set);
    assert(two.skip(1) =~= tail);
    assert(trim_start(two, set) == trim_start(tail, set));
    lemma_words_trim(two, set);
    lemma_words_trim(tail, set);
}

/// A path below a root leads to the same place with and without such detours.
pub proof fn law_detours_lead_to_the_same_place(
    root: Seq<char>,
    front: Seq<char>,
    back: Seq<char>,
)
    requires
        front.len() > 0,
        front[0] != '/',
    ensures
        join_below(root, front + seq!['/', '.', '/'] + back) == join_below(
            root,
            front + seq!['/'] + back,
        ),
        join_below(root, front + seq!['/', '/'] + back) == join_below(
            root,
            front + seq!['/'] + back,
        ),
{
    law_current_directory_is_left_out(front, back);
    assert((front + seq!['/', '.', '/'] + back)[0] == front[0]);
    assert((front + seq!['/', '/'] + back)[0] == front[0]);
    assert((front + seq!['/'] + back)[0] == front[0]);
}

/// A request path that is written without escapes and without detours is its own normal form.
pub proof fn law_plain_path_is_normal(path: Seq<char>, names: Seq<Seq<char>>)
    requires
        all_names(names),
        percent_text(path) == Ok::<Seq<char>, Seq<char>>(seq!['/'] + path_of(names)),
        !(seq!['/'] + path_of(names)).contains('\0'),
    ensures
        normal_path(path) == Ok::<Seq<char>, Seq<char>>(seq!['/'] + path_of(names)),
{
    lemma_slash();
    law_absolute_path_keeps_its_names(names);
}

/// A request path is refused where its escapes are broken, and where what they stand for is not
/// absolute, holds a zero, or leads to a parent; any other path has a normal form.
pub proof fn law_refused_paths(path: Seq<char>)
    ensures
        normal_path(path) is Ok <==> (percent_text(path) matches Ok(decoded) && decoded.len() > 0
            && decoded[0] == '/' && (forall|i: int|
            0 <= i < decoded.len() ==> #[trigger] decoded[i] != '\0') && !segments(
            decoded,
        ).contains(".."@)),
{
    if let Ok(decoded) = percent_text(path) {
        if forall|i: int| 0 <= i < decoded.len() ==> #[trigger] decoded[i] != '\0' {
            if decoded.contains('\0') {
                let i = decoded.index_of('\0');
                assert(decoded[i] == '\0');
            }
        } else {
            let i = choose|i: int| 0 <= i < decoded.len() && #[trigger] decoded[i] == '\0';
            assert(decoded.contains(decoded[i]));
        }
    }
}

/// Percent escapes: a byte other than `%` stands for itself, `%` and two hexadecimal digits for
/// the byte with that number, and anything else after `%` is refused.
pub proof fn law_percent_escapes(b: Seq<u8>, h: u8, l: u8, c: u8)
    requires
        c != 37,
    ensures
        percent_bytes(Seq::empty()) == Ok::<Seq<u8>, Seq<char>>(Seq::empty()),
        percent_bytes(b) matches Ok(rest) ==> percent_bytes(seq![c] + b) == Ok::<
            Seq<u8>,
            Seq<char>,
        >(seq![c] + rest),
        percent_bytes(b) is Err ==> percent_bytes(seq![c] + b) is Err,
        hex_value(h as char) is Some && hex_value(l as char) is Some ==> (percent_bytes(
            b,
        ) matches Ok(rest) ==> percent_bytes(seq![37u8, h, l] + b) == Ok::<Seq<u8>, Seq<char>>(
            seq![(hex_value(h as char)->0 * 16 + hex_value(l as char)->0) as u8] + rest,
        )),
        hex_value(h as char) is None || hex_value(l as char) is None ==> percent_bytes(
            seq![37u8, h, l] + b,
        ) is Err,
        percent_bytes(b) is Err ==> percent_bytes(seq![37u8, h, l] + b) is Err,
        percent_bytes(seq![37u8]) is Err,
        percent_bytes(seq![37u8, h]) is Err,
{
    let one = seq![c] + b;
    assert(one.skip(1) =~= b);
    let three = seq![37u8, h, l] + b;
    assert(three.skip(3) =~= b);
    assert(three[1] == h && three[2] == l);
    assert(percent_bytes(Seq::<u8>::empty()) == Ok::<Seq<u8>, Seq<char>>(Seq::empty()));
}

// File names

/// The character may stand in the name of a stored file.
pub open spec fn may_stand_in_a_name(c: char) -> bool {
    'a' <= c <= 'z' || 'A' <= c <= 'Z' || '0' <= c <= '9' || c == '.' || c == '-' || c == '_'
}

proof fn lemma_base_name(s: Seq<char>)
    requires
        forall|i: int| 0 <= i < s.len() ==> (#[trigger] s[i]) != '/' && s[i] != '\\',
    ensures
        base_name(s) == s,
        forall|d: Seq<char>|
            base_name(#[trigger] (d + seq!['/'] + s)) == s,
        forall|d: Seq<char>|
            base_name(#[trigger] (d + seq!['\\'] + s)) == s,
    decreases s.len(),
{
    if s.len() == 0 {
        assert forall|d: Seq<char>| base_name(#[trigger] (d + seq!['/'] + s)) == s by {
            assert((d + seq!['/'] + s).last() == '/');
            assert(s =~= Seq::<char>::empty());
        }
        assert forall|d: Seq<char>| base_name(#[trigger] (d + seq!['\\'] + s)) == s by {
            assert((d + seq!['\\'] + s).last() == '\\');
            assert(s =~= Seq::<char>::empty());
        }
        assert(s =~= Seq::<char>::empty());
    } else {
        let init = s.drop_last();
        assert forall|i: int| 0 <= i < init.len() implies (#[trigger] init[i]) != '/' && init[i]
            != '\\' by {
            assert(init[i] == s[i]);
        }
        lemma_base_name(init);
        assert(s[s.len() - 1] != '/' && s[s.len() - 1] != '\\');
        assert(init.push(s.last()) =~= s);
        assert forall|d: Seq<char>| base_name(#[trigger] (d + seq!['/'] + s)) == s by {
            assert((d + seq!['/'] + s).drop_last() =~= d + seq!['/'] + init);
        }
        assert forall|d: Seq<char>| base_name(#[trigger] (d + seq!['\\'] + s)) == s by {
            assert((d + seq!['\\'] + s).drop_last() =~= d + seq!['\\'] + init);
        }
    }
}

/// A name of letters, digits, dots, dashes and underscores is safe as it is, and is what is left
/// of a longer path; the two names for directories are refused.
pub proof fn law_plain_name_is_safe(directory: Seq<char>, name: Seq<char>)
    requires
        name.len() > 0,
        forall|i: int| 0 <= i < name.len() ==> may_stand_in_a_name(#[trigger] name[i]),
        directory.len() > 0 ==> '!' <= directory[0] <= '~',
    ensures
        name != "."@ && name != ".."@ ==> safe_name(name) == Some(name) && safe_name(
            directory + seq!['/'] + name,
        ) == Some(name) && safe_name(directory + seq!['\\'] + name) == Some(name),
        name == "."@ || name == ".."@ ==> safe_name(name) is None && safe_name(
            directory + seq!['/'] + name,
        ) is None,
        safe_name(Seq::empty()) is None,
        safe_name(directory + seq!['/']) is None,
{
    assert forall|i: int| 0 <= i < name.len() implies (#[trigger] name[i]) != '/' && name[i]
        != '\\' by {
        assert(may_stand_in_a_name(name[i]));
    }
    lemma_base_name(name);
    assert(may_stand_in_a_name(name[0]) && may_stand_in_a_name(name[name.len() - 1]));
    lemma_trim_visible(name);
    let a = directory + seq!['/'] + name;
    let b = directory + seq!['\\'] + name;
    assert(a[0] == if directory.len() > 0 { directory[0] } else { '/' });
    assert(b[0] == if directory.len() > 0 { directory[0] } else { '\\' });
    assert(a[a.len() - 1] == name[name.len() - 1]);
    assert(b[b.len() - 1] == name[name.len() - 1]);
    lemma_trim_visible(a);
    lemma_trim_visible(b);
    if name.contains('\0') {
        let i = name.index_of('\0');
        assert(may_stand_in_a_name(name[i]));
    }
    assert(name.map_values(|c: char| crate::util::safe_char(c)) =~= name) by {
        assert forall|i: int| 0 <= i < name.len() implies crate::util::safe_char(#[trigger] name[i])
            == name[i] by {
            assert(may_stand_in_a_name(name[i]));
        }
    }
    let none = Seq::<char>::empty();
    assert(trim_start(none, CharSet::Space) == none);
    assert(trim(none) == none);
    assert(base_name(none) =~= none);
    let c = directory + seq!['/'];
    assert(c[0] == if directory.len() > 0 { directory[0] } else { '/' });
    assert(c[c.len() - 1] == '/');
    lemma_trim_visible(c);
    assert(base_name(c) =~= none);
}

proof fn lemma_trim_visible(s: Seq<char>)
    requires
        s.len() > 0,
        '!' <= s[0] <= '~',
        '!' <= s[s.len() - 1] <= '~',
    ensures
        trim(s) == s,
{
    crate::laws::texts::law_white_space(s[0]);
    crate::laws::texts::law_white_space(s[s.len() - 1]);
    assert(trim_start(s, CharSet::Space) == s);
    assert(trim_end(s, CharSet::Space) == s);
}

/// Every character of a name that may not stand in the name of a stored file becomes an
/// underscore; the others stay, and so does the length.
pub proof fn law_other_characters_become_underscores(name: Seq<char>, i: int)
    requires
        0 <= i < trim(base_name(trim(name))).len(),
    ensures
        safe_name(name) matches Some(safe) ==> {
            let base = trim(base_name(trim(name)));
            &&& safe.len() == base.len()
            &&& may_stand_in_a_name(base[i]) ==> safe[i] == base[i]
            &&& !may_stand_in_a_name(base[i]) ==> safe[i] == '_'
        },
{
}

/// A name is refused exactly where nothing is left of it after its last separator, or one of the
/// names for directories is, or it holds a zero.
pub proof fn law_refused_names(name: Seq<char>)
    ensures
        safe_name(name) is None <==> ({
            let base = trim(base_name(trim(name)));
            base.len() == 0 || base == "."@ || base == ".."@ || exists|i: int|
                0 <= i < base.len() && #[trigger] base[i] == '\0'
        }),
{
    let base = trim(base_name(trim(name)));
    if base.contains('\0') {
        let i = base.index_of('\0');
        assert(base[i] == '\0');
    }
    if exists|i: int| 0 <= i < base.len() && #[trigger] base[i] == '\0' {
        let i = choose|i: int| 0 <= i < base.len() && #[trigger] base[i] == '\0';
        assert(base.contains(base[i]));
    }
}

/// A file within a directory: the directory's path, a slash, and the name; an absolute name stands
/// by itself.
pub proof fn law_followed_path(path: Seq<char>, name: Seq<char>)
    requires
        path.len() > 0,
        path[path.len() - 1] != '/',
    ensures
        name.len() == 0 || name[0] != '/' ==> followed(path, name) == path + seq!['/'] + name,
        name.len() > 0 && name[0] == '/' ==> followed(path, name) == name,
        push_name(path, name) == path + seq!['/'] + name,
{
    lemma_slash();
}

// HTML

/// Escaping goes character by character: markup becomes its entity and every other character stays.
pub proof fn law_html_escapes(s: Seq<char>, c: char)
    ensures
        html_text(Seq::empty()) == Seq::<char>::empty(),
        html_text(s.push(c)) == html_text(s) + match c {
            '&' => seq!['&', 'a', 'm', 'p', ';'],
            '<' => seq!['&', 'l', 't', ';'],
            '>' => seq!['&', 'g', 't', ';'],
            '"' => seq!['&', 'q', 'u', 'o', 't', ';'],
            '\'' => seq!['&', '#', '3', '9', ';'],
            _ => seq![c],
        },
{
    reveal_strlit("&amp;");
    reveal_strlit("&lt;");
    reveal_strlit("&gt;");
    reveal_strlit("&quot;");
    reveal_strlit("&#39;");
    assert("&amp;"@ =~= seq!['&', 'a', 'm', 'p', ';']);
    assert("&lt;"@ =~= seq!['&', 'l', 't', ';']);
    assert("&gt;"@ =~= seq!['&', 'g', 't', ';']);
    assert("&quot;"@ =~= seq!['&', 'q', 'u', 'o', 't', ';']);
    assert("&#39;"@ =~= seq!['&', '#', '3', '9', ';']);
    assert(s.push(c).drop_last() =~= s);
}

} // verus!
