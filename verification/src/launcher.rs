//! Choosing the exercise program from a command-line target such as
//! `E03` or `./E03/`.

use vstd::prelude::*;
use crate::text::{trim, chars_of, trim_chars, string_of, sub_chars};
use crate::docs_crawler::{trim_start_char, last_index_of};

verus! {

/// `s` without trailing `c` characters.
pub open spec fn trim_end_char(s: Seq<char>, c: char) -> Seq<char>
    decreases s.len(),
{
    if s.len() > 0 && s.last() == c {
        trim_end_char(s.drop_last(), c)
    } else {
        s
    }
}

/// The part of `s` after its last `c` (all of `s` without a `c`).
pub open spec fn after_last(s: Seq<char>, c: char) -> Seq<char> {
    match last_index_of(s, c) {
        Some(i) => s.skip(i + 1),
        None => s,
    }
}

/// `c` in ASCII lower case.
pub open spec fn ascii_lower(c: char) -> char {
    if 'A' <= c && c <= 'Z' {
        ((c as u32) + 32) as char
    } else {
        c
    }
}

/// The exercise name in a target: trimmed, without surrounding slashes,
/// the last path component, in ASCII lower case.
pub open spec fn target_name(target: Seq<char>) -> Seq<char> {
    let last = after_last(trim_end_char(trim_start_char(trim(target), '/'), '/'), '/');
    Seq::new(last.len(), |i: int| ascii_lower(last[i]))
}

/// The exercise name in a command-line target.
pub fn normalize_target(target: &str) -> (r: String)
    ensures
        r@ == target_name(target@),
{
    let t = trim_chars(&chars_of(target));
    let mut a: usize = 0;
    assert(t@.skip(0) == t@);
    while a < t.len() && t[a] == '/'
        invariant
            a <= t.len(),
            trim_start_char(t@, '/') == trim_start_char(t@.skip(a as int), '/'),
        decreases t.len() - a,
    {
        assert(t@.skip(a as int).drop_first() == t@.skip(a + 1));
        a = a + 1;
    }
    let ghost s1 = t@.skip(a as int);
    assert(trim_start_char(t@, '/') == s1);
    let mut b: usize = t.len();
    assert(s1.take(s1.len() as int) == s1);
    while b > a && t[b - 1] == '/'
        invariant
            a <= b <= t.len(),
            s1 == t@.skip(a as int),
            trim_end_char(s1, '/') == trim_end_char(s1.take(b - a), '/'),
        decreases b,
    {
        assert(s1.take(b - a).drop_last() == s1.take(b - a - 1));
        b = b - 1;
    }
    assert(s1.take(b - a) == t@.subrange(a as int, b as int));
    let s2 = sub_chars(&t, a, b);
    assert(trim_end_char(s1, '/') == s2@);
    let mut start: usize = s2.len();
    while start > 0 && s2[start - 1] != '/'
        invariant
            start <= s2.len(),
            forall|k: int| start <= k < s2.len() ==> s2@[k] != '/',
        decreases start,
    {
        start = start - 1;
    }
    proof {
        lemma_after_last(s2@, '/', start as int);
    }
    let mut out: Vec<char> = Vec::new();
    let mut i = start;
    while i < s2.len()
        invariant
            start <= i <= s2.len(),
            out@.len() == i - start,
            forall|k: int| 0 <= k < out@.len() ==> out@[k] == ascii_lower(s2@[start + k]),
        decreases s2.len() - i,
    {
        let c = s2[i];
        let l = if c >= 'A' && c <= 'Z' { ((c as u8) + 32) as char } else { c };
        out.push(l);
        i = i + 1;
    }
    string_of(&out)
}

proof fn lemma_last_index(s: Seq<char>, c: char, start: int)
    requires
        0 <= start <= s.len(),
        forall|k: int| start <= k < s.len() ==> s[k] != c,
        start == 0 || s[start - 1] == c,
    ensures
        last_index_of(s, c) == (if start == 0 { None } else { Some(start - 1) }),
    decreases s.len(),
{
    if s.len() > start {
        assert(s.last() != c);
        lemma_last_index(s.drop_last(), c, start);
        if start > 0 {
            assert(s.drop_last()[start - 1] == s[start - 1]);
        }
    }
}

proof fn lemma_after_last(s: Seq<char>, c: char, start: int)
    requires
        0 <= start <= s.len(),
        forall|k: int| start <= k < s.len() ==> s[k] != c,
        start == 0 || s[start - 1] == c,
    ensures
        after_last(s, c) == s.skip(start),
{
    lemma_last_index(s, c, start);
    if start == 0 {
        assert(s.skip(0) == s);
    }
}

/// The program of a known exercise name (`e01` to `e05`).
pub fn exercise_binary(name: &str) -> (r: Option<&'static str>)
    ensures
        name@ == "e01"@ ==> r == Some("e01"),
        name@ == "e02"@ ==> r == Some("e02"),
        name@ == "e03"@ ==> r == Some("e03"),
        name@ == "e04"@ ==> r == Some("e04"),
        name@ == "e05"@ ==> r == Some("e05"),
        !(name@ == "e01"@ || name@ == "e02"@ || name@ == "e03"@ || name@ == "e04"@ || name@ == "e05"@) ==> r is None,
{
    proof {
        reveal_strlit("e01");
        reveal_strlit("e02");
        reveal_strlit("e03");
        reveal_strlit("e04");
        reveal_strlit("e05");
        assert("e01"@[2] == '1' && "e02"@[2] == '2' && "e03"@[2] == '3' && "e04"@[2] == '4' && "e05"@[2] == '5');
    }
    let n = String::from_str(name);
    if n == String::from_str("e01") {
        Some("e01")
    } else if n == String::from_str("e02") {
        Some("e02")
    } else if n == String::from_str("e03") {
        Some("e03")
    } else if n == String::from_str("e04") {
        Some("e04")
    } else if n == String::from_str("e05") {
        Some("e05")
    } else {
        None
    }
}


/// The part after the last `/` of `x/name` is `name` when `name` holds no
/// `/`; trailing slashes are dropped whatever comes before them.
pub proof fn law_last_component(x: Seq<char>, name: Seq<char>, slashes: Seq<char>)
    requires
        forall|i: int| 0 <= i < name.len() ==> name[i] != '/',
        forall|i: int| 0 <= i < slashes.len() ==> slashes[i] == '/',
    ensures
        after_last(x + seq!['/'] + name, '/') == name,
        trim_end_char(x + slashes, '/') == trim_end_char(x, '/'),
    decreases slashes.len(),
{
    lemma_last_index_after_slash(x, name);
    let s = x + seq!['/'] + name;
    assert(s.skip(x.len() as int + 1) == name);
    if slashes.len() > 0 {
        let t = x + slashes;
        assert(t.last() == '/') by {
            assert(t.last() == slashes[slashes.len() - 1]);
        }
        assert(t.drop_last() == x + slashes.drop_last());
        law_last_component(x, name, slashes.drop_last());
    } else {
        assert(x + slashes == x);
    }
}

proof fn lemma_last_index_after_slash(x: Seq<char>, name: Seq<char>)
    requires
        forall|i: int| 0 <= i < name.len() ==> name[i] != '/',
    ensures
        last_index_of(x + seq!['/'] + name, '/') == Some(x.len() as int),
    decreases name.len(),
{
    let s = x + seq!['/'] + name;
    if name.len() == 0 {
        assert(s.last() == '/');
    } else {
        assert(s.last() == name[name.len() - 1]);
        assert(s.drop_last() == x + seq!['/'] + name.drop_last());
        lemma_last_index_after_slash(x, name.drop_last());
    }
}

/// The exercise name is the target's last component in ASCII lower case:
/// `A`-`Z` become `a`-`z` and nothing else changes.
pub proof fn law_target_lowercase(t: Seq<char>)
    ensures
        target_name(t).len() == after_last(trim_end_char(trim_start_char(trim(t), '/'), '/'), '/').len(),
        forall|i: int| 0 <= i < target_name(t).len() ==> {
            let c = #[trigger] after_last(trim_end_char(trim_start_char(trim(t), '/'), '/'), '/')[i];
            &&& ('A' <= c <= 'Z' ==> target_name(t)[i] as u32 == c as u32 + 32)
            &&& (!('A' <= c <= 'Z') ==> target_name(t)[i] == c)
        },
{
}

} // verus!
