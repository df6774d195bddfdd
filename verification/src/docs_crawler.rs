//! The documentation crawl: finding the links of a markdown page, turning
//! them into document paths, telling images apart, encoding image bytes,
//! and deciding which document to fetch next.

use vstd::prelude::*;
use crate::text::{is_whitespace, trim_start, trim_end, views, push_str, ends_with, chars_end_with, chars_match_at, lowercase, to_lowercase, base64_digit, base64_digit_of, trim, starts_with, first_segment, find_from, matches_at, chars_of, trim_chars,
    sub_chars, string_of, chars_start_with, first_segment_chars, find_chars_from,
    lemma_find_from_first, contains, chars_contain};

verus! {

/// Where the parenthesis opened before `pos` closes, counting nesting from
/// `depth`: the position of the closing `)`, or the end of `s`.
pub open spec fn close_paren(s: Seq<char>, pos: int, depth: int) -> int
    decreases s.len() - pos,
{
    if pos < 0 || pos >= s.len() {
        s.len() as int
    } else {
        let d = if s[pos] == '(' {
            depth + 1
        } else if s[pos] == ')' {
            depth - 1
        } else {
            depth
        };
        if d <= 0 {
            pos
        } else {
            close_paren(s, pos + 1, d)
        }
    }
}

/// The closing position lies between the start and the end of the text.
pub proof fn lemma_close_paren_bounds(s: Seq<char>, pos: int, depth: int)
    requires
        0 <= pos,
    ensures
        pos <= close_paren(s, pos, depth) || (pos > s.len() && close_paren(s, pos, depth) == s.len()),
        close_paren(s, pos, depth) <= s.len(),
    decreases s.len() - pos,
{
    if pos < s.len() {
        let d = if s[pos] == '(' {
            depth + 1
        } else if s[pos] == ')' {
            depth - 1
        } else {
            depth
        };
        if d > 0 {
            lemma_close_paren_bounds(s, pos + 1, d);
        }
    }
}

/// The document that a link target names: the target without its
/// `#fragment`; nothing for web, mail and in-page links.
pub open spec fn link_target(raw: Seq<char>) -> Option<Seq<char>> {
    if starts_with(raw, "http"@) || starts_with(raw, "#"@) || starts_with(raw, "mailto:"@) || raw.len() == 0 {
        None
    } else {
        let without_fragment = first_segment(raw, '#');
        if without_fragment.len() == 0 {
            None
        } else {
            Some(without_fragment)
        }
    }
}

/// The targets of the markdown links `](target)` from position `i` on.
pub open spec fn markdown_links(s: Seq<char>, i: int) -> Seq<Seq<char>>
    decreases s.len() + 1 - i,
{
    if i < 0 || i >= s.len() {
        Seq::empty()
    } else if i + 1 < s.len() && s[i] == ']' && s[i + 1] == '(' {
        let start = i + 2;
        let end = close_paren(s, start, 1);
        let here = if end > start {
            match link_target(trim(s.subrange(start, end))) {
                Some(l) => seq![l],
                None => Seq::empty(),
            }
        } else {
            Seq::empty()
        };
        proof {
            lemma_close_paren_bounds(s, start, 1);
        }
        here + markdown_links(s, end + 1)
    } else {
        markdown_links(s, i + 1)
    }
}

/// The opening of an include directive.
pub open spec fn include_prefix() -> Seq<char> {
    "[include file=\""@
}

/// The file names of the include directives `[include file="name"` found
/// from position `from` on.
pub open spec fn include_links(s: Seq<char>, from: int) -> Seq<Seq<char>>
    decreases s.len() + 1 - from,
{
    if from < 0 || from > s.len() {
        Seq::empty()
    } else {
        match find_from(s, include_prefix(), from) {
            None => Seq::empty(),
            Some(p) => {
                let a = p + include_prefix().len();
                match find_from(s, seq!['"'], a) {
                    None => Seq::empty(),
                    Some(e) => {
                        let name = trim(s.subrange(a, e));
                        proof {
                            lemma_find_from_first(s, include_prefix(), from);
                            lemma_find_from_first(s, seq!['"'], a);
                        }
                        (if name.len() > 0 { seq![name] } else { Seq::empty() }) + include_links(s, e + 1)
                    },
                }
            },
        }
    }
}

/// All the links of a page: markdown link targets in order, then include
/// directives in order.
pub open spec fn all_links(s: Seq<char>) -> Seq<Seq<char>> {
    markdown_links(s, 0) + include_links(s, 0)
}


fn chars_from(s: &str) -> (v: Vec<char>)
    ensures
        v@ == s@,
{
    chars_of(s)
}

/// The document that a (trimmed) link target names.
fn link_target_of(raw: &Vec<char>) -> (r: Option<Vec<char>>)
    ensures
        r matches Some(l) ==> link_target(raw@) == Some(l@),
        r is None ==> link_target(raw@) is None,
{
    let http = chars_from("http");
    let hash = chars_from("#");
    let mailto = chars_from("mailto:");
    if chars_start_with(raw, &http) || chars_start_with(raw, &hash) || chars_start_with(raw, &mailto) || raw.len() == 0 {
        return None;
    }
    let without_fragment = first_segment_chars(raw, '#');
    if without_fragment.len() == 0 {
        None
    } else {
        Some(without_fragment)
    }
}

/// Where the parenthesis opened before `start` closes.
fn close_paren_at(t: &Vec<char>, start: usize) -> (end: usize)
    requires
        1 <= start <= t.len(),
    ensures
        end == close_paren(t@, start as int, 1),
        start <= end <= t.len(),
{
    let n = t.len();
    let mut end = start;
    let mut depth: usize = 1;
    while end < n && depth > 0
        invariant
            1 <= start <= end <= n,
            n == t.len(),
            depth <= end - start + 1,
            depth > 0 ==> close_paren(t@, start as int, 1) == close_paren(t@, end as int, depth as int),
            depth == 0 ==> close_paren(t@, start as int, 1) == end,
        decreases (n - end) * 2 + if depth > 0 { 1int } else { 0int },
    {
        if t[end] == '(' {
            depth = depth + 1;
        } else if t[end] == ')' {
            depth = depth - 1;
        }
        if depth > 0 {
            end = end + 1;
        }
    }
    end
}

/// The links of a markdown page: the targets of `](target)` links that are
/// not web, mail or in-page links (without `#fragment`), then the file
/// names of `[include file="name"` directives.
pub fn extract_all_links(text: &str) -> (r: Vec<String>)
    ensures
        views(r@) == all_links(text@),
{
    let t = chars_of(text);
    let n = t.len();
    let mut links: Vec<String> = Vec::new();
    let mut i: usize = 0;
    while i < n
        invariant
            n == t.len(),
            t@ == text@,
            i <= n,
            views(links@) + markdown_links(t@, i as int) == markdown_links(t@, 0),
        decreases n - i,
    {
        if i + 1 < n && t[i] == ']' && t[i + 1] == '(' {
            let start = i + 2;
            let end = close_paren_at(&t, start);
            let ghost before = views(links@);
            if end > start {
                let raw = trim_chars(&sub_chars(&t, start, end));
                match link_target_of(&raw) {
                    Some(l) => {
                        links.push(string_of(&l));
                    },
                    None => {},
                }
            }
            assert(views(links@) + markdown_links(t@, end + 1) == markdown_links(t@, 0)) by {
                assert(before + markdown_links(t@, i as int) == markdown_links(t@, 0));
            }
            if end < n {
                i = end + 1;
            } else {
                i = n;
            }
        } else {
            i = i + 1;
        }
    }
    assert(views(links@) == markdown_links(t@, 0));
    let prefix = chars_from("[include file=\"");
    let quote = chars_from("\"");
    assert(quote@ == seq!['"']) by {
        reveal_strlit("\"");
    }
    let mut ss: usize = 0;
    while ss <= n
        invariant
            n == t.len(),
            t@ == text@,
            prefix@ == include_prefix(),
            quote@ == seq!['"'],
            ss <= n + 1,
            views(links@) + include_links(t@, ss as int) == all_links(t@),
        ensures
            views(links@) == all_links(t@),
        decreases n + 1 - ss,
    {
        let p = match find_chars_from(&t, &prefix, ss) {
            Some(p) => p,
            None => break,
        };
        proof {
            lemma_find_from_first(t@, prefix@, ss as int);
        }
        let a = p + prefix.len();
        let e = match find_chars_from(&t, &quote, a) {
            Some(e) => e,
            None => break,
        };
        proof {
            lemma_find_from_first(t@, quote@, a as int);
        }
        let name = trim_chars(&sub_chars(&t, a, e));
        let ghost before = views(links@);
        if name.len() > 0 {
            links.push(string_of(&name));
        }
        assert(views(links@) + include_links(t@, e + 1) == all_links(t@)) by {
            assert(before + include_links(t@, ss as int) == all_links(t@));
        }
        ss = e + 1;
    }
    links
}


/// `s` with every occurrence of `p` removed, scanning from the left
/// (`str::replace(p, "")`).
pub open spec fn remove_all(s: Seq<char>, p: Seq<char>) -> Seq<char>
    decreases s.len(),
{
    if s.len() == 0 {
        s
    } else if p.len() > 0 && starts_with(s, p) {
        remove_all(s.skip(p.len() as int), p)
    } else {
        seq![s[0]] + remove_all(s.drop_first(), p)
    }
}

/// `s` without leading `c` characters (`str::trim_start_matches(c)`).
pub open spec fn trim_start_char(s: Seq<char>, c: char) -> Seq<char>
    decreases s.len(),
{
    if s.len() > 0 && s[0] == c {
        trim_start_char(s.drop_first(), c)
    } else {
        s
    }
}

/// A document path cleaned up: trimmed, without `./`, without leading `/`.
pub open spec fn clean_path(p: Seq<char>) -> Seq<char> {
    trim_start_char(remove_all(trim(p), "./"@), '/')
}

fn remove_all_chars(t: &Vec<char>, p: &Vec<char>) -> (r: Vec<char>)
    requires
        p.len() > 0,
    ensures
        r@ == remove_all(t@, p@),
{
    let mut out: Vec<char> = Vec::new();
    let mut i: usize = 0;
    assert(t@.skip(0) == t@);
    while i < t.len()
        invariant
            p.len() > 0,
            i <= t.len(),
            out@ + remove_all(t@.skip(i as int), p@) == remove_all(t@, p@),
        decreases t.len() - i,
    {
        let ghost rest = t@.skip(i as int);
        assert(matches_at(t@, i as int, p@) == starts_with(rest, p@)) by {
            if i + p.len() <= t.len() {
                assert(t@.subrange(i as int, i + p.len()) == rest.subrange(0, p.len() as int));
            }
        }
        if chars_match_at(t, i, p) {
            assert(rest.skip(p.len() as int) == t@.skip(i + p.len()));
            i = i + p.len();
        } else {
            assert(rest.drop_first() == t@.skip(i + 1));
            assert(rest[0] == t@[i as int]);
            let ghost before = out@;
            out.push(t[i]);
            assert(out@ == before + seq![t@[i as int]]);
            i = i + 1;
        }
    }
    assert(t@.skip(i as int).len() == 0);
    assert(out@ + Seq::<char>::empty() == out@);
    out
}

fn trim_start_char_chars(t: &Vec<char>, c: char) -> (r: Vec<char>)
    ensures
        r@ == trim_start_char(t@, c),
{
    let mut i: usize = 0;
    assert(t@.skip(0) == t@);
    while i < t.len() && t[i] == c
        invariant
            i <= t.len(),
            trim_start_char(t@, c) == trim_start_char(t@.skip(i as int), c),
        decreases t.len() - i,
    {
        assert(t@.skip(i as int).drop_first() == t@.skip(i + 1));
        i = i + 1;
    }
    assert(t@.skip(i as int) == t@.subrange(i as int, t.len() as int));
    sub_chars(t, i, t.len())
}

fn clean_path_chars(v: &Vec<char>) -> (r: Vec<char>)
    ensures
        r@ == clean_path(v@),
{
    let t = trim_chars(v);
    let dot_slash = chars_from("./");
    assert(dot_slash@.len() > 0) by {
        reveal_strlit("./");
    }
    let removed = remove_all_chars(&t, &dot_slash);
    trim_start_char_chars(&removed, '/')
}

/// A document path cleaned up: trimmed, without `./`, without leading `/`.
pub fn normalize_path(path: &str) -> (r: String)
    ensures
        r@ == clean_path(path@),
{
    let v = chars_of(path);
    string_of(&clean_path_chars(&v))
}

/// The position of the last `c` in `s`.
pub open spec fn last_index_of(s: Seq<char>, c: char) -> Option<int>
    decreases s.len(),
{
    if s.len() == 0 {
        None
    } else if s.last() == c {
        Some(s.len() - 1)
    } else {
        last_index_of(s.drop_last(), c)
    }
}

/// The path of the document that `link` names from the page `current`:
/// relative to the page's directory, cleaned up.
pub open spec fn resolved_link(current: Seq<char>, link: Seq<char>) -> Seq<char> {
    let l = clean_path(link);
    match last_index_of(current, '/') {
        Some(pos) => clean_path(current.take(pos) + "/"@ + l),
        None => l,
    }
}

fn last_index_of_char(v: &Vec<char>, c: char) -> (r: Option<usize>)
    ensures
        r matches Some(i) ==> last_index_of(v@, c) == Some(i as int) && i < v.len(),
        r is None ==> last_index_of(v@, c) is None,
{
    let mut i: usize = v.len();
    assert(v@.take(v.len() as int) == v@);
    while i > 0
        invariant
            i <= v.len(),
            last_index_of(v@, c) == last_index_of(v@.take(i as int), c),
        decreases i,
    {
        assert(v@.take(i as int).last() == v@[i - 1]);
        if v[i - 1] == c {
            return Some(i - 1);
        }
        assert(v@.take(i as int).drop_last() == v@.take(i - 1));
        i = i - 1;
    }
    None
}

/// The path of the document that `link` names from the page `current_file`.
pub fn resolve_link(current_file: &str, link: &str) -> (r: String)
    ensures
        r@ == resolved_link(current_file@, link@),
{
    let lv = chars_of(link);
    let l = clean_path_chars(&lv);
    let cur = chars_of(current_file);
    match last_index_of_char(&cur, '/') {
        Some(pos) => {
            let mut joined = sub_chars(&cur, 0, pos);
            joined.push('/');
            let ghost base = joined@;
            let mut k: usize = 0;
            while k < l.len()
                invariant
                    k <= l.len(),
                    joined@ == base + l@.take(k as int),
                decreases l.len() - k,
            {
                joined.push(l[k]);
                k = k + 1;
                assert(l@.take(k as int) == l@.take(k - 1).push(l@[k - 1]));
            }
            assert(l@.take(l.len() as int) == l@);
            assert(cur@.subrange(0, pos as int) == cur@.take(pos as int));
            assert(base == cur@.take(pos as int) + "/"@) by {
                reveal_strlit("/");
            }
            string_of(&clean_path_chars(&joined))
        },
        None => string_of(&l),
    }
}

/// A name that ends with one of the image extensions, as written.
pub open spec fn image_suffix(l: Seq<char>) -> bool {
    ends_with(l, ".png"@) || ends_with(l, ".jpg"@) || ends_with(l, ".jpeg"@) || ends_with(l, ".gif"@)
        || ends_with(l, ".webp"@) || ends_with(l, ".bmp"@)
}

/// A path of an image: it ends, in lower case, with an image extension.
pub open spec fn is_image_path(p: Seq<char>) -> bool {
    image_suffix(lowercase(p))
}

/// Whether an already lower-cased path ends with an image extension.
pub fn has_image_suffix(lower: &str) -> (r: bool)
    ensures
        r == image_suffix(lower@),
{
    let l = chars_of(lower);
    chars_end_with(&l, &chars_from(".png")) || chars_end_with(&l, &chars_from(".jpg"))
        || chars_end_with(&l, &chars_from(".jpeg")) || chars_end_with(&l, &chars_from(".gif"))
        || chars_end_with(&l, &chars_from(".webp")) || chars_end_with(&l, &chars_from(".bmp"))
}

/// Whether the path names an image.
pub fn has_image_ext(path: &str) -> (r: bool)
    ensures
        r == is_image_path(path@),
{
    let lower = to_lowercase(path);
    has_image_suffix(lower.as_str())
}

/// Whether an already lower-cased content type mentions `image`.
pub fn mentions_image(lower: &str) -> (r: bool)
    ensures
        r == contains(lower@, "image"@),
{
    chars_contain(&chars_of(lower), &chars_from("image"))
}

/// A downloaded document is an image: its content type mentions `image`
/// in any case, or its path has an image extension.
pub open spec fn is_image_document(content_type: Seq<char>, path: Seq<char>) -> bool {
    contains(lowercase(content_type), "image"@) || is_image_path(path)
}

/// Whether a document downloaded with the content type `content_type`
/// is an image.
pub fn is_image_response(content_type: &str, path: &str) -> (r: bool)
    ensures
        r == is_image_document(content_type@, path@),
{
    let lower = to_lowercase(content_type);
    mentions_image(lower.as_str()) || has_image_ext(path)
}

/// The name under which the text read from an image is kept.
pub fn vision_text_name(path: &str) -> (r: String)
    ensures
        r@ == path@ + ".vision.txt"@,
{
    let mut r = String::from_str(path);
    push_str(&mut r, ".vision.txt");
    r
}

/// The media type sent with a base64 image: PNG for `.png`, else JPEG.
pub fn image_mime(path: &str) -> (r: &'static str)
    ensures
        ends_with(path@, ".png"@) ==> r@ == "image/png"@,
        !ends_with(path@, ".png"@) ==> r@ == "image/jpeg"@,
{
    let v = chars_of(path);
    if chars_end_with(&v, &chars_from(".png")) {
        "image/png"
    } else {
        "image/jpeg"
    }
}

/// The standard base64 encoding of `d`, with `=` padding.
pub open spec fn base64(d: Seq<u8>) -> Seq<char>
    decreases d.len(),
{
    if d.len() == 0 {
        Seq::empty()
    } else if d.len() == 1 {
        seq![
            base64_digit((d[0] / 4) as int),
            base64_digit((d[0] % 4) * 16),
            '=',
            '=',
        ]
    } else if d.len() == 2 {
        seq![
            base64_digit((d[0] / 4) as int),
            base64_digit((d[0] % 4) * 16 + d[1] / 16),
            base64_digit((d[1] % 16) * 4),
            '=',
        ]
    } else {
        seq![
            base64_digit((d[0] / 4) as int),
            base64_digit((d[0] % 4) * 16 + d[1] / 16),
            base64_digit((d[1] % 16) * 4 + d[2] / 64),
            base64_digit((d[2] % 64) as int),
        ] + base64(d.skip(3))
    }
}

/// The standard base64 encoding of `data`, with `=` padding.
pub fn base64_encode(data: &[u8]) -> (r: String)
    ensures
        r@ == base64(data@),
{
    let mut out: Vec<char> = Vec::new();
    let mut i: usize = 0;
    assert(data@.skip(0) == data@);
    while i < data.len()
        invariant
            i <= data.len(),
            out@ + base64(data@.skip(i as int)) == base64(data@),
        decreases data.len() - i,
    {
        let rest = data.len() - i;
        let ghost d = data@.skip(i as int);
        let b0 = data[i];
        assert(d[0] == b0);
        let ghost before = out@;
        out.push(base64_digit_of(b0 / 4));
        if rest == 1 {
            out.push(base64_digit_of((b0 % 4) * 16));
            out.push('=');
            out.push('=');
            assert(out@ == before + base64(d));
            assert(data@.skip(i + 1).len() == 0);
            i = i + 1;
        } else {
            let b1 = data[i + 1];
            assert(d[1] == b1);
            out.push(base64_digit_of((b0 % 4) * 16 + b1 / 16));
            if rest == 2 {
                out.push(base64_digit_of((b1 % 16) * 4));
                out.push('=');
                assert(out@ == before + base64(d));
                assert(data@.skip(i + 2).len() == 0);
                i = i + 2;
            } else {
                let b2 = data[i + 2];
                assert(d[2] == b2);
                out.push(base64_digit_of((b1 % 16) * 4 + b2 / 64));
                out.push(base64_digit_of(b2 % 64));
                assert(d.skip(3) == data@.skip(i + 3));
                assert(out@ + base64(data@.skip(i + 3)) == before + base64(d));
                i = i + 3;
            }
        }
    }
    assert(data@.skip(i as int).len() == 0);
    assert(out@ + Seq::<char>::empty() == out@);
    string_of(&out)
}


/// Base64 turns every started group of three bytes into four characters.
pub proof fn law_base64_length(d: Seq<u8>)
    ensures
        base64(d).len() == 4 * ((d.len() + 2) / 3),
    decreases d.len(),
{
    if d.len() > 2 {
        law_base64_length(d.skip(3));
    }
}

proof fn lemma_markdown_links_nonempty(s: Seq<char>, i: int)
    ensures
        forall|k: int| 0 <= k < markdown_links(s, i).len() ==> (#[trigger] markdown_links(s, i)[k]).len() > 0,
    decreases s.len() + 1 - i,
{
    if i < 0 || i >= s.len() {
    } else if i + 1 < s.len() && s[i] == ']' && s[i + 1] == '(' {
        let start = i + 2;
        let end = close_paren(s, start, 1);
        lemma_close_paren_bounds(s, start, 1);
        lemma_markdown_links_nonempty(s, end + 1);
        let here = if end > start {
            match link_target(trim(s.subrange(start, end))) {
                Some(l) => seq![l],
                None => Seq::empty(),
            }
        } else {
            Seq::empty()
        };
        assert(markdown_links(s, i) == here + markdown_links(s, end + 1));
        if end > start {
            let raw = trim(s.subrange(start, end));
            if link_target(raw) is Some {
                assert(link_target(raw)->0.len() > 0);
                assert(here[0] == link_target(raw)->0);
            }
        }
        assert forall|k: int| 0 <= k < markdown_links(s, i).len() implies (#[trigger] markdown_links(s, i)[k]).len() > 0 by {
            if k < here.len() {
                assert(markdown_links(s, i)[k] == here[k]);
            } else {
                assert(markdown_links(s, i)[k] == markdown_links(s, end + 1)[k - here.len()]);
            }
        }
    } else {
        lemma_markdown_links_nonempty(s, i + 1);
        assert(markdown_links(s, i) == markdown_links(s, i + 1));
    }
}

proof fn lemma_include_links_nonempty(s: Seq<char>, from: int)
    ensures
        forall|k: int| 0 <= k < include_links(s, from).len() ==> (#[trigger] include_links(s, from)[k]).len() > 0,
    decreases s.len() + 1 - from,
{
    if from < 0 || from > s.len() {
    } else {
        match find_from(s, include_prefix(), from) {
            None => {},
            Some(p) => {
                let a = p + include_prefix().len();
                lemma_find_from_first(s, include_prefix(), from);
                match find_from(s, seq!['"'], a) {
                    None => {},
                    Some(e) => {
                        lemma_find_from_first(s, seq!['"'], a);
                        let name = trim(s.subrange(a, e));
                        lemma_include_links_nonempty(s, e + 1);
                        let here: Seq<Seq<char>> = if name.len() > 0 { seq![name] } else { Seq::empty() };
                        assert(include_links(s, from) == here + include_links(s, e + 1));
                        assert forall|k: int| 0 <= k < include_links(s, from).len() implies (#[trigger] include_links(s, from)[k]).len() > 0 by {
                            if k >= here.len() {
                                assert(include_links(s, from)[k] == include_links(s, e + 1)[k - here.len()]);
                            }
                        }
                    },
                }
            },
        }
    }
}

/// No link found on a page is empty.
pub proof fn law_links_nonempty(s: Seq<char>)
    ensures
        forall|k: int| 0 <= k < all_links(s).len() ==> (#[trigger] all_links(s)[k]).len() > 0,
{
    lemma_markdown_links_nonempty(s, 0);
    lemma_include_links_nonempty(s, 0);
    let m = markdown_links(s, 0);
    assert forall|k: int| 0 <= k < all_links(s).len() implies (#[trigger] all_links(s)[k]).len() > 0 by {
        if k < m.len() {
            assert(all_links(s)[k] == m[k]);
        } else {
            assert(all_links(s)[k] == include_links(s, 0)[k - m.len()]);
        }
    }
}

/// The state of the crawl: the documents already taken, and the stack of
/// paths still to look at.
#[derive(Debug, Clone, PartialEq)]
pub struct CrawlState {
    pub visited: Vec<String>,
    pub queue: Vec<String>,
}

/// The next document to fetch from `queue` (taken from its end), skipping
/// empty and visited paths, and what is left of the queue.
pub open spec fn next_of(queue: Seq<Seq<char>>, visited: Set<Seq<char>>) -> (Option<Seq<char>>, Seq<Seq<char>>)
    decreases queue.len(),
{
    if queue.len() == 0 {
        (None, queue)
    } else {
        let c = clean_path(queue.last());
        if c.len() == 0 || visited.contains(c) {
            next_of(queue.drop_last(), visited)
        } else {
            (Some(c), queue.drop_last())
        }
    }
}

/// The links of a page, resolved from `current`, that are not visited,
/// in order.
pub open spec fn fresh_links(current: Seq<char>, links: Seq<Seq<char>>, visited: Set<Seq<char>>) -> Seq<Seq<char>>
    decreases links.len(),
{
    if links.len() == 0 {
        Seq::empty()
    } else {
        let r = resolved_link(current, links.last());
        if visited.contains(r) {
            fresh_links(current, links.drop_last(), visited)
        } else {
            fresh_links(current, links.drop_last(), visited).push(r)
        }
    }
}

fn contains_string(v: &Vec<String>, x: &String) -> (r: bool)
    ensures
        r == views(v@).contains(x@),
{
    let mut i: usize = 0;
    while i < v.len()
        invariant
            i <= v.len(),
            forall|k: int| 0 <= k < i ==> views(v@)[k] != x@,
        decreases v.len() - i,
    {
        if v[i] == *x {
            assert(views(v@)[i as int] == x@);
            return true;
        }
        i = i + 1;
    }
    false
}

impl CrawlState {
    /// The set of visited documents.
    pub open spec fn visited_set(&self) -> Set<Seq<char>> {
        views(self.visited@).to_set()
    }

    /// A crawl that starts at `index.md`.
    pub fn new() -> (r: CrawlState)
        ensures
            r.visited_set() == Set::<Seq<char>>::empty(),
            views(r.queue@) == seq!["index.md"@],
    {
        let mut queue: Vec<String> = Vec::new();
        queue.push(String::from_str("index.md"));
        let r = CrawlState { visited: Vec::new(), queue };
        assert(views(r.visited@).to_set() == Set::<Seq<char>>::empty());
        assert(views(r.queue@) == seq!["index.md"@]);
        r
    }

    /// The next document to fetch, marked as visited; `None` when the queue
    /// runs out.
    pub fn next_target(&mut self) -> (r: Option<String>)
        ensures
            (match r {
                Some(c) => Some(c@),
                None => None,
            }, views(final(self).queue@)) == next_of(views(old(self).queue@), old(self).visited_set()),
            r matches Some(c) ==> final(self).visited_set() == old(self).visited_set().insert(c@),
            r is None ==> final(self).visited_set() == old(self).visited_set(),
    {
        let ghost vs = self.visited_set();
        let ghost q0 = views(self.queue@);
        while self.queue.len() > 0
            invariant
                self.visited_set() == vs,
                vs == old(self).visited_set(),
                q0 == views(old(self).queue@),
                next_of(q0, vs) == next_of(views(self.queue@), vs),
            decreases self.queue.len(),
        {
            let ghost q = views(self.queue@);
            let path = self.queue.pop().unwrap();
            assert(views(self.queue@) == q.drop_last());
            assert(path@ == q.last());
            let clean_chars = clean_path_chars(&chars_of(path.as_str()));
            let clean = string_of(&clean_chars);
            if clean_chars.len() == 0 || contains_string(&self.visited, &clean) {
            } else {
                let ghost cv = clean@;
                let ghost old_visited = views(self.visited@);
                self.visited.push(clean.clone());
                assert(views(self.visited@) == old_visited.push(cv));
                proof {
                    old_visited.lemma_push_to_set_commute(cv);
                }
                return Some(clean);
            }
        }
        None
    }

    /// Queues the links of the page `current`, resolved from it, that are
    /// not visited.
    pub fn enqueue_links(&mut self, current: &str, text: &str)
        ensures
            final(self).visited == old(self).visited,
            views(final(self).queue@) == views(old(self).queue@) + fresh_links(current@, all_links(text@), old(self).visited_set()),
    {
        let links = extract_all_links(text);
        let ghost ls = views(links@);
        let ghost q0 = views(self.queue@);
        let mut i: usize = 0;
        assert(ls.take(0) == Seq::<Seq<char>>::empty());
        assert(q0 + Seq::<Seq<char>>::empty() == q0);
        while i < links.len()
            invariant
                ls == views(links@),
                ls == all_links(text@),
                i <= links.len(),
                self.visited == old(self).visited,
                views(self.queue@) == q0 + fresh_links(current@, ls.take(i as int), old(self).visited_set()),
                q0 == views(old(self).queue@),
            decreases links.len() - i,
        {
            let resolved = resolve_link(current, links[i].as_str());
            assert(ls.take(i + 1).drop_last() == ls.take(i as int));
            assert(ls.take(i + 1).last() == links@[i as int]@);
            if !contains_string(&self.visited, &resolved) {
                let ghost before = views(self.queue@);
                self.queue.push(resolved);
                assert(views(self.queue@) == before.push(resolved_link(current@, links@[i as int]@)));
            }
            i = i + 1;
        }
        assert(ls.take(links.len() as int) == ls);
    }
}

/// The crawl takes no document twice: what comes next is not visited yet.
pub proof fn law_crawl_no_repeat(queue: Seq<Seq<char>>, visited: Set<Seq<char>>)
    ensures
        next_of(queue, visited).0 matches Some(c) ==> !visited.contains(c) && c.len() > 0,
    decreases queue.len(),
{
    if queue.len() > 0 {
        law_crawl_no_repeat(queue.drop_last(), visited);
    }
}


/// The part of `s` before the first `c`: a prefix of `s` without `c`,
/// followed in `s` by `c` or by nothing.
pub proof fn law_first_segment(s: Seq<char>, c: char)
    ensures
        first_segment(s, c) == s.take(first_segment(s, c).len() as int),
        first_segment(s, c).len() <= s.len(),
        forall|i: int| 0 <= i < first_segment(s, c).len() ==> s[i] != c,
        first_segment(s, c).len() < s.len() ==> s[first_segment(s, c).len() as int] == c,
    decreases s.len(),
{
    if s.len() > 0 && s[0] != c {
        let d = s.drop_first();
        law_first_segment(d, c);
        let f = first_segment(d, c);
        assert(first_segment(s, c) == seq![s[0]] + f);
        assert(seq![s[0]] + d.take(f.len() as int) == s.take(f.len() as int + 1));
        assert forall|i: int| 0 <= i < f.len() + 1 implies s[i] != c by {
            if i > 0 {
                assert(s[i] == d[i - 1]);
            }
        }
        if f.len() < d.len() {
            assert(s[f.len() as int + 1] == d[f.len() as int]);
        }
    } else if s.len() > 0 {
        assert(s.take(0) == Seq::<char>::empty());
    } else {
        assert(s.take(0) == s);
    }
}

/// A link target names a document exactly when it is not empty, is not a
/// web (`http`), in-page (`#`) or mail (`mailto:`) link, and has something
/// before its `#fragment`; the document is that part before the first
/// `#`, whatever its extension.
pub proof fn law_link_target(raw: Seq<char>)
    ensures
        (raw.len() > 0 && !starts_with(raw, "http"@) && !starts_with(raw, "#"@) && !starts_with(raw, "mailto:"@)
            && first_segment(raw, '#').len() > 0) ==> link_target(raw) == Some(first_segment(raw, '#')),
        !(raw.len() > 0 && !starts_with(raw, "http"@) && !starts_with(raw, "#"@) && !starts_with(raw, "mailto:"@)
            && first_segment(raw, '#').len() > 0) ==> link_target(raw) is None,
{
}

proof fn lemma_markdown_skip(s: Seq<char>, i: int, j: int)
    requires
        0 <= i <= j <= s.len(),
        forall|k: int| i <= k < j ==> s[k] != ']',
    ensures
        markdown_links(s, i) == markdown_links(s, j),
    decreases j - i,
{
    if i < j {
        lemma_markdown_skip(s, i + 1, j);
    }
}

proof fn lemma_close_paren_at(s: Seq<char>, pos: int, e: int)
    requires
        0 <= pos <= e < s.len(),
        s[e] == ')',
        forall|k: int| pos <= k < e ==> s[k] != '(' && s[k] != ')',
    ensures
        close_paren(s, pos, 1) == e,
    decreases e - pos,
{
    if pos < e {
        lemma_close_paren_at(s, pos + 1, e);
    }
}

proof fn lemma_close_paren_shift(a: Seq<char>, q: Seq<char>, j: int, d: int)
    requires
        0 <= j,
    ensures
        close_paren(a + q, a.len() + j, d) == a.len() + close_paren(q, j, d),
    decreases q.len() - j,
{
    let s = a + q;
    if j < q.len() {
        assert(s[a.len() + j] == q[j]);
        let d2 = if q[j] == '(' {
            d + 1
        } else if q[j] == ')' {
            d - 1
        } else {
            d
        };
        if d2 > 0 {
            lemma_close_paren_shift(a, q, j + 1, d2);
        }
    }
}

proof fn lemma_markdown_shift(a: Seq<char>, q: Seq<char>, j: int)
    requires
        0 <= j,
    ensures
        markdown_links(a + q, a.len() + j) == markdown_links(q, j),
    decreases q.len() + 1 - j,
{
    let s = a + q;
    let i = a.len() + j;
    if j < q.len() {
        assert(s[i] == q[j]);
        if j + 1 < q.len() {
            assert(s[i + 1] == q[j + 1]);
        }
        if j + 1 < q.len() && q[j] == ']' && q[j + 1] == '(' {
            let eq = close_paren(q, j + 2, 1);
            lemma_close_paren_shift(a, q, j + 2, 1);
            lemma_close_paren_bounds(q, j + 2, 1);
            assert(s.subrange(i + 2, a.len() + eq) == q.subrange(j + 2, eq));
            lemma_markdown_shift(a, q, eq + 1);
        } else {
            lemma_markdown_shift(a, q, j + 1);
        }
    }
}

/// A markdown link `](target)` (a target without parentheses) after text
/// without `]` is found: the links of the page are the document it names,
/// if any, followed by the links of the rest of the page.
pub proof fn law_link_found(p: Seq<char>, t: Seq<char>, q: Seq<char>)
    requires
        forall|k: int| 0 <= k < p.len() ==> p[k] != ']',
        forall|k: int| 0 <= k < t.len() ==> t[k] != '(' && t[k] != ')',
    ensures
        markdown_links(p + "]("@ + t + ")"@ + q, 0) == (match link_target(trim(t)) {
            Some(l) => seq![l],
            None => Seq::<Seq<char>>::empty(),
        }) + markdown_links(q, 0),
{
    reveal_strlit("](");
    reveal_strlit(")");
    let a = p + "]("@ + t + ")"@;
    let s = a + q;
    let n = p.len() as int;
    assert(s == p + "]("@ + t + ")"@ + q);
    assert forall|k: int| 0 <= k < n implies s[k] != ']' by {
        assert(s[k] == p[k]);
    }
    lemma_markdown_skip(s, 0, n);
    assert(s[n] == ']' && s[n + 1] == '(');
    let e = n + 2 + t.len();
    assert(s[e] == ')');
    assert forall|k: int| n + 2 <= k < e implies s[k] != '(' && s[k] != ')' by {
        assert(s[k] == t[k - n - 2]);
    }
    lemma_close_paren_at(s, n + 2, e);
    assert(s.subrange(n + 2, e) == t);
    lemma_markdown_shift(a, q, 0);
    assert(a.len() == e + 1);
    if t.len() == 0 {
        assert(trim(t) == t);
    }
    let here = if e > n + 2 {
        match link_target(trim(s.subrange(n + 2, e))) {
            Some(l) => seq![l],
            None => Seq::<Seq<char>>::empty(),
        }
    } else {
        Seq::<Seq<char>>::empty()
    };
    assert(markdown_links(s, n) == here + markdown_links(s, e + 1));
}


/// The next document of the crawl is the cleaned form of the last queued
/// path whose cleaned form is neither empty nor visited; the paths queued
/// after it are dropped and those before it stay. With no such path the
/// queue empties and nothing comes next.
pub proof fn law_next_of(queue: Seq<Seq<char>>, visited: Set<Seq<char>>)
    ensures
        next_of(queue, visited).0 matches Some(c) ==> exists|i: int| 0 <= i < queue.len()
            && c == clean_path(queue[i]) && next_of(queue, visited).1 == queue.take(i)
            && forall|j: int| i < j < queue.len() ==> (#[trigger] clean_path(queue[j])).len() == 0
                || visited.contains(clean_path(queue[j])),
        next_of(queue, visited).0 is None ==> next_of(queue, visited).1.len() == 0
            && forall|j: int| 0 <= j < queue.len() ==> (#[trigger] clean_path(queue[j])).len() == 0
                || visited.contains(clean_path(queue[j])),
    decreases queue.len(),
{
    if queue.len() > 0 {
        let d = queue.drop_last();
        let c = clean_path(queue.last());
        let n = queue.len() - 1;
        if c.len() == 0 || visited.contains(c) {
            law_next_of(d, visited);
            if next_of(d, visited).0 is Some {
                let i = choose|i: int| 0 <= i < d.len()
                    && next_of(d, visited).0->0 == clean_path(d[i]) && next_of(d, visited).1 == d.take(i)
                    && forall|j: int| i < j < d.len() ==> (#[trigger] clean_path(d[j])).len() == 0
                        || visited.contains(clean_path(d[j]));
                assert(queue[i] == d[i]);
                assert(d.take(i) == queue.take(i));
                assert forall|j: int| i < j < queue.len() implies (#[trigger] clean_path(queue[j])).len() == 0
                    || visited.contains(clean_path(queue[j])) by {
                    if j < n {
                        assert(queue[j] == d[j]);
                    }
                }
            } else {
                assert forall|j: int| 0 <= j < queue.len() implies (#[trigger] clean_path(queue[j])).len() == 0
                    || visited.contains(clean_path(queue[j])) by {
                    if j < n {
                        assert(queue[j] == d[j]);
                    }
                }
            }
        } else {
            assert(queue.take(n) == d);
            assert(queue[n] == queue.last());
        }
    }
}

/// The fresh links of a page split in two are those of the first part,
/// then those of the second: no link is skipped or reordered.
pub proof fn law_fresh_links_concat(current: Seq<char>, ls: Seq<Seq<char>>, ms: Seq<Seq<char>>, visited: Set<Seq<char>>)
    ensures
        fresh_links(current, ls + ms, visited) == fresh_links(current, ls, visited) + fresh_links(current, ms, visited),
    decreases ms.len(),
{
    if ms.len() == 0 {
        assert(ls + ms == ls);
        assert(fresh_links(current, ls, visited) + fresh_links(current, ms, visited) == fresh_links(current, ls, visited));
    } else {
        law_fresh_links_concat(current, ls, ms.drop_last(), visited);
        assert((ls + ms).drop_last() == ls + ms.drop_last());
        assert((ls + ms).last() == ms.last());
        let r = resolved_link(current, ms.last());
        if !visited.contains(r) {
            assert((fresh_links(current, ls, visited) + fresh_links(current, ms.drop_last(), visited)).push(r)
                == fresh_links(current, ls, visited) + fresh_links(current, ms.drop_last(), visited).push(r));
        }
    }
}

/// One link is kept, resolved from the page, exactly when its document was
/// not visited.
pub proof fn law_fresh_link_single(current: Seq<char>, link: Seq<char>, visited: Set<Seq<char>>)
    ensures
        fresh_links(current, seq![link], visited) == (if visited.contains(resolved_link(current, link)) {
            Seq::<Seq<char>>::empty()
        } else {
            seq![resolved_link(current, link)]
        }),
{
    assert(seq![link].drop_last() == Seq::<Seq<char>>::empty());
    assert(seq![link].last() == link);
    assert(fresh_links(current, Seq::<Seq<char>>::empty(), visited) == Seq::<Seq<char>>::empty());
    assert(Seq::<Seq<char>>::empty().push(resolved_link(current, link)) == seq![resolved_link(current, link)]);
}


proof fn lemma_find_from_shift(a: Seq<char>, q: Seq<char>, pat: Seq<char>, j: int)
    requires
        0 <= j,
    ensures
        find_from(a + q, pat, a.len() + j) == (match find_from(q, pat, j) {
            Some(x) => Some(a.len() + x),
            None => None,
        }),
    decreases q.len() + 1 - j,
{
    let s = a + q;
    let i = a.len() + j;
    if !(i + pat.len() > s.len()) {
        assert(s.subrange(i, i + pat.len()) =~= q.subrange(j, j + pat.len()));
        assert(matches_at(s, i, pat) == matches_at(q, j, pat));
        if !matches_at(q, j, pat) {
            lemma_find_from_shift(a, q, pat, j + 1);
        }
    }
}

proof fn lemma_find_at(s: Seq<char>, pat: Seq<char>, from: int, e: int)
    requires
        0 <= from <= e,
        matches_at(s, e, pat),
        forall|k: int| from <= k < e ==> !#[trigger] matches_at(s, k, pat),
    ensures
        find_from(s, pat, from) == Some(e),
    decreases e - from,
{
    if from < e {
        assert(!matches_at(s, from, pat));
        lemma_find_at(s, pat, from + 1, e);
    }
}

proof fn lemma_include_shift(a: Seq<char>, q: Seq<char>, j: int)
    requires
        0 <= j,
    ensures
        include_links(a + q, a.len() + j) == include_links(q, j),
    decreases q.len() + 1 - j,
{
    let s = a + q;
    if j <= q.len() {
        lemma_find_from_shift(a, q, include_prefix(), j);
        match find_from(q, include_prefix(), j) {
            None => {},
            Some(pq) => {
                let aq = pq + include_prefix().len();
                lemma_find_from_first(q, include_prefix(), j);
                lemma_find_from_shift(a, q, seq!['"'], aq);
                match find_from(q, seq!['"'], aq) {
                    None => {},
                    Some(eq) => {
                        lemma_find_from_first(q, seq!['"'], aq);
                        assert(s.subrange(a.len() + aq, a.len() + eq) =~= q.subrange(aq, eq));
                        lemma_include_shift(a, q, eq + 1);
                    },
                }
            },
        }
    }
}

/// An include directive `[include file="name"` after text without `[`,
/// with a name without `"`, is found: the included files of the page are
/// the trimmed name, when not empty, followed by those of the rest.
pub proof fn law_include_found(p: Seq<char>, name: Seq<char>, q: Seq<char>)
    requires
        forall|k: int| 0 <= k < p.len() ==> p[k] != '[',
        forall|k: int| 0 <= k < name.len() ==> name[k] != '"',
    ensures
        include_links(p + include_prefix() + name + seq!['"'] + q, 0)
            == (if trim(name).len() > 0 { seq![trim(name)] } else { Seq::<Seq<char>>::empty() }) + include_links(q, 0),
{
    reveal_strlit("[include file=\"");
    let pre = include_prefix();
    let a = p + pre + name + seq!['"'];
    let s = a + q;
    assert(s == p + pre + name + seq!['"'] + q);
    let n = p.len() as int;
    assert(pre[0] == '[');
    assert forall|k: int| 0 <= k < n implies !#[trigger] matches_at(s, k, pre) by {
        assert(s[k] == p[k]);
        if matches_at(s, k, pre) {
            assert(s.subrange(k, k + pre.len())[0] == s[k]);
        }
    }
    assert(s.subrange(n, n + pre.len()) =~= pre);
    lemma_find_at(s, pre, 0, n);
    let st = n + pre.len();
    let e = st + name.len();
    assert(s[e] == '"');
    assert(s.subrange(e, e + 1) =~= seq!['"']);
    assert forall|k: int| st <= k < e implies !#[trigger] matches_at(s, k, seq!['"']) by {
        assert(s[k] == name[k - st]);
        if matches_at(s, k, seq!['"']) {
            assert(s.subrange(k, k + 1)[0] == s[k]);
        }
    }
    lemma_find_at(s, seq!['"'], st, e);
    assert(s.subrange(st, e) =~= name);
    lemma_include_shift(a, q, 0);
    assert(a.len() == e + 1);
    let here: Seq<Seq<char>> = if trim(name).len() > 0 { seq![trim(name)] } else { Seq::empty() };
    assert(include_links(s, 0) == here + include_links(s, e + 1));
}


proof fn lemma_last_index_absent(s: Seq<char>, c: char)
    requires
        forall|i: int| 0 <= i < s.len() ==> s[i] != c,
    ensures
        last_index_of(s, c) is None,
    decreases s.len(),
{
    if s.len() > 0 {
        assert(s.last() == s[s.len() - 1]);
        lemma_last_index_absent(s.drop_last(), c);
    }
}

proof fn lemma_last_index_after(x: Seq<char>, c: char, y: Seq<char>)
    requires
        forall|i: int| 0 <= i < y.len() ==> y[i] != c,
    ensures
        last_index_of(x + seq![c] + y, c) == Some(x.len() as int),
    decreases y.len(),
{
    let s = x + seq![c] + y;
    if y.len() == 0 {
        assert(s.last() == c);
    } else {
        assert(s.last() == y.last());
        assert(y.last() == y[y.len() - 1]);
        assert(s.drop_last() == x + seq![c] + y.drop_last());
        lemma_last_index_after(x, c, y.drop_last());
    }
}

/// A link from a page at the top level is the cleaned link; from a page
/// `dir/file` it is `dir/` joined to the cleaned link, cleaned again.
pub proof fn law_resolved_link(dir: Seq<char>, file: Seq<char>, link: Seq<char>)
    requires
        forall|i: int| 0 <= i < file.len() ==> file[i] != '/',
    ensures
        resolved_link(file, link) == clean_path(link),
        resolved_link(dir + "/"@ + file, link) == clean_path(dir + "/"@ + clean_path(link)),
{
    reveal_strlit("/");
    assert("/"@ == seq!['/']);
    lemma_last_index_absent(file, '/');
    lemma_last_index_after(dir, '/', file);
    assert((dir + "/"@ + file).take(dir.len() as int) == dir);
}

/// Removing `./` keeps text without `.` as it is and removes each `./`
/// wherever it stands.
pub proof fn law_remove_all(x: Seq<char>, y: Seq<char>)
    requires
        forall|i: int| 0 <= i < x.len() ==> x[i] != '.',
    ensures
        remove_all(x + y, "./"@) == x + remove_all(y, "./"@),
        remove_all("./"@ + y, "./"@) == remove_all(y, "./"@),
    decreases x.len(),
{
    reveal_strlit("./");
    let p = "./"@;
    assert(starts_with("./"@ + y, p)) by {
        assert(("./"@ + y).subrange(0, 2) =~= p);
    }
    assert(("./"@ + y).skip(2) == y);
    if x.len() > 0 {
        let s = x + y;
        assert(s[0] == x[0]);
        assert(!starts_with(s, p)) by {
            if starts_with(s, p) {
                assert(s.subrange(0, 2)[0] == s[0]);
            }
        }
        assert(s.drop_first() == x.drop_first() + y);
        law_remove_all(x.drop_first(), y);
        assert(x == seq![x[0]] + x.drop_first());
    } else {
        assert(x + y == y);
    }
}


/// A path already clean (no `.`, no leading `/`, no surrounding
/// whitespace) is left as it is.
pub proof fn law_clean_path_keeps_clean(s: Seq<char>)
    requires
        forall|i: int| 0 <= i < s.len() ==> s[i] != '.',
        s.len() > 0 ==> !is_whitespace(s[0]) && !is_whitespace(s.last()) && s[0] != '/',
    ensures
        clean_path(s) == s,
{
    assert(trim_start(s) == s);
    assert(trim_end(s) == s);
    law_remove_all(s, Seq::<char>::empty());
    assert(s + Seq::<char>::empty() == s);
    assert(remove_all(Seq::<char>::empty(), "./"@) == Seq::<char>::empty());
}


/// The six-bit value of a base64 digit.
pub open spec fn sextet(c: char) -> int {
    let u = c as int;
    if 65 <= u <= 90 {
        u - 65
    } else if 97 <= u <= 122 {
        u - 97 + 26
    } else if 48 <= u <= 57 {
        u - 48 + 52
    } else if c == '+' {
        62
    } else {
        63
    }
}

/// Base64 text read back into bytes, four digits at a time, `=` marking
/// the missing bytes of the last group.
pub open spec fn base64_decode(t: Seq<char>) -> Seq<u8>
    decreases t.len(),
{
    if t.len() < 4 {
        Seq::empty()
    } else {
        let a = sextet(t[0]);
        let b = sextet(t[1]);
        let c = sextet(t[2]);
        let e = sextet(t[3]);
        let b0 = (a * 4 + b / 16) as u8;
        let b1 = ((b % 16) * 16 + c / 4) as u8;
        let b2 = ((c % 4) * 64 + e) as u8;
        if t[2] == '=' {
            seq![b0]
        } else if t[3] == '=' {
            seq![b0, b1]
        } else {
            seq![b0, b1, b2] + base64_decode(t.skip(4))
        }
    }
}

proof fn lemma_sextet_digit(v: int)
    requires
        0 <= v < 64,
    ensures
        sextet(base64_digit(v)) == v,
        base64_digit(v) != '=',
{
}

proof fn lemma_group_bytes(d0: int, d1: int, d2: int)
    requires
        0 <= d0 < 256,
        0 <= d1 < 256,
        0 <= d2 < 256,
    ensures
        0 <= d0 / 4 < 64,
        0 <= (d0 % 4) * 16 + d1 / 16 < 64,
        0 <= (d1 % 16) * 4 + d2 / 64 < 64,
        0 <= d2 % 64 < 64,
        (d0 / 4) * 4 + ((d0 % 4) * 16 + d1 / 16) / 16 == d0,
        (((d0 % 4) * 16 + d1 / 16) % 16) * 16 + ((d1 % 16) * 4 + d2 / 64) / 4 == d1,
        (((d1 % 16) * 4 + d2 / 64) % 4) * 64 + d2 % 64 == d2,
        0 <= (d0 % 4) * 16 < 64,
{
    assert(0 <= d0 / 4 < 64) by (nonlinear_arith) requires 0 <= d0 < 256;
    assert(0 <= (d0 % 4) * 16 + d1 / 16 < 64) by (nonlinear_arith) requires 0 <= d0 < 256, 0 <= d1 < 256;
    assert(0 <= (d1 % 16) * 4 + d2 / 64 < 64) by (nonlinear_arith) requires 0 <= d1 < 256, 0 <= d2 < 256;
    assert(0 <= (d0 % 4) * 16 < 64) by (nonlinear_arith) requires 0 <= d0 < 256;
    assert((d0 / 4) * 4 + ((d0 % 4) * 16 + d1 / 16) / 16 == d0) by (nonlinear_arith)
        requires 0 <= d0 < 256, 0 <= d1 < 256;
    assert((((d0 % 4) * 16 + d1 / 16) % 16) * 16 + ((d1 % 16) * 4 + d2 / 64) / 4 == d1) by (nonlinear_arith)
        requires 0 <= d0 < 256, 0 <= d1 < 256, 0 <= d2 < 256;
    assert((((d1 % 16) * 4 + d2 / 64) % 4) * 64 + d2 % 64 == d2) by (nonlinear_arith)
        requires 0 <= d1 < 256, 0 <= d2 < 256;
}

/// Base64 loses nothing: decoding the encoding of any bytes gives them
/// back.
pub proof fn law_base64_round_trip(d: Seq<u8>)
    ensures
        base64_decode(base64(d)) == d,
    decreases d.len(),
{
    if d.len() == 0 {
    } else if d.len() == 1 {
        let d0 = d[0] as int;
        lemma_group_bytes(d0, 0, 0);
        lemma_sextet_digit(d0 / 4);
        lemma_sextet_digit((d0 % 4) * 16);
        let t = base64(d);
        assert(t.len() == 4 && t[2] == '=');
        assert((d0 / 4) * 4 + ((d0 % 4) * 16) / 16 == d0) by (nonlinear_arith) requires 0 <= d0 < 256;
        assert(base64_decode(t) == seq![d[0]]);
        assert(d == seq![d[0]]);
    } else if d.len() == 2 {
        let d0 = d[0] as int;
        let d1 = d[1] as int;
        lemma_group_bytes(d0, d1, 0);
        lemma_sextet_digit(d0 / 4);
        lemma_sextet_digit((d0 % 4) * 16 + d1 / 16);
        lemma_sextet_digit((d1 % 16) * 4);
        let t = base64(d);
        assert(t[3] == '=');
        assert((((d0 % 4) * 16 + d1 / 16) % 16) * 16 + ((d1 % 16) * 4) / 4 == d1) by (nonlinear_arith)
            requires 0 <= d0 < 256, 0 <= d1 < 256;
        assert(base64_decode(t) == seq![d[0], d[1]]);
        assert(d == seq![d[0], d[1]]);
    } else {
        let d0 = d[0] as int;
        let d1 = d[1] as int;
        let d2 = d[2] as int;
        lemma_group_bytes(d0, d1, d2);
        lemma_sextet_digit(d0 / 4);
        lemma_sextet_digit((d0 % 4) * 16 + d1 / 16);
        lemma_sextet_digit((d1 % 16) * 4 + d2 / 64);
        lemma_sextet_digit(d2 % 64);
        law_base64_round_trip(d.skip(3));
        let t = base64(d);
        let g = seq![
            base64_digit((d[0] / 4) as int),
            base64_digit((d[0] % 4) * 16 + d[1] / 16),
            base64_digit((d[1] % 16) * 4 + d[2] / 64),
            base64_digit((d[2] % 64) as int),
        ];
        assert(t == g + base64(d.skip(3)));
        assert(t.skip(4) == base64(d.skip(3)));
        assert(t[0] == g[0] && t[1] == g[1] && t[2] == g[2] && t[3] == g[3]);
        assert(base64_decode(t) == seq![d[0], d[1], d[2]] + d.skip(3));
        assert(d == seq![d[0], d[1], d[2]] + d.skip(3));
    }
}

} // verus!
