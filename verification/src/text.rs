//! Character-sequence helpers: whitespace trimming, prefix and substring
//! tests, ordering, joining and decimal rendering.

use vstd::prelude::*;

verus! {

/// Unicode `White_Space`, the property behind `char::is_whitespace`.
pub open spec fn is_whitespace(c: char) -> bool {
    let u = c as u32;
    ||| 0x9 <= u <= 0xd
    ||| u == 0x20
    ||| u == 0x85
    ||| u == 0xa0
    ||| u == 0x1680
    ||| 0x2000 <= u <= 0x200a
    ||| u == 0x2028
    ||| u == 0x2029
    ||| u == 0x202f
    ||| u == 0x205f
    ||| u == 0x3000
}

/// `s` without its leading whitespace.
pub open spec fn trim_start(s: Seq<char>) -> Seq<char>
    decreases s.len(),
{
    if s.len() > 0 && is_whitespace(s[0]) {
        trim_start(s.drop_first())
    } else {
        s
    }
}

/// `s` without its trailing whitespace.
pub open spec fn trim_end(s: Seq<char>) -> Seq<char>
    decreases s.len(),
{
    if s.len() > 0 && is_whitespace(s.last()) {
        trim_end(s.drop_last())
    } else {
        s
    }
}

/// `s` without leading and trailing whitespace, as `str::trim` gives it.
pub open spec fn trim(s: Seq<char>) -> Seq<char> {
    trim_end(trim_start(s))
}

/// Every character of `s` is whitespace.
pub open spec fn is_blank(s: Seq<char>) -> bool {
    forall|i: int| 0 <= i < s.len() ==> is_whitespace(#[trigger] s[i])
}

/// Whether `c` is whitespace (`char::is_whitespace`).
pub fn char_is_whitespace(c: char) -> (r: bool)
    ensures
        r == is_whitespace(c),
{
    let u = c as u32;
    (0x9 <= u && u <= 0xd) || u == 0x20 || u == 0x85 || u == 0xa0 || u == 0x1680 || (0x2000
        <= u && u <= 0x200a) || u == 0x2028 || u == 0x2029 || u == 0x202f || u == 0x205f || u
        == 0x3000
}

/// The characters of `s`, in order.
pub fn chars_of(s: &str) -> (v: Vec<char>)
    ensures
        v@ == s@,
{
    let mut v: Vec<char> = Vec::new();
    for c in it: s.chars()
        invariant
            v@ == it.seq().take(it.index() as int),
            it.seq() == s@,
    {
        v.push(c);
    }
    v
}

/// Appends `c` to `s` with `String::push`. The contract claims what its
/// documentation says: the string afterwards is the old one followed by `c`.
#[verifier::external_body]
fn push_char(s: &mut String, c: char)
    ensures
        final(s)@ == old(s)@.push(c),
{
    s.push(c);
}

/// Appends the characters of `v` to `s`.
pub fn push_chars(s: &mut String, v: &Vec<char>)
    ensures
        final(s)@ == old(s)@ + v@,
{
    let mut i: usize = 0;
    while i < v.len()
        invariant
            i <= v.len(),
            s@ == old(s)@ + v@.take(i as int),
        decreases v.len() - i,
    {
        push_char(s, v[i]);
        i = i + 1;
        assert(v@.take(i as int) == v@.take(i - 1 as int).push(v@[i - 1 as int]));
    }
    assert(v@.take(v.len() as int) == v@);
}

/// A string holding the characters of `v`.
pub fn string_of(v: &Vec<char>) -> (s: String)
    ensures
        s@ == v@,
{
    let mut s = String::new();
    push_chars(&mut s, v);
    s
}

/// The characters `v[a..b]`.
pub fn sub_chars(v: &Vec<char>, a: usize, b: usize) -> (r: Vec<char>)
    requires
        a <= b <= v.len(),
    ensures
        r@ == v@.subrange(a as int, b as int),
{
    let mut r: Vec<char> = Vec::new();
    let mut i = a;
    while i < b
        invariant
            a <= i <= b <= v.len(),
            r@ == v@.subrange(a as int, i as int),
        decreases b - i,
    {
        r.push(v[i]);
        i = i + 1;
        assert(r@ == v@.subrange(a as int, i as int));
    }
    r
}

proof fn lemma_trim_start_skip(s: Seq<char>, i: int)
    requires
        0 <= i < s.len(),
        is_whitespace(s[i]),
    ensures
        trim_start(s.skip(i)) == trim_start(s.skip(i + 1)),
{
    assert(s.skip(i).drop_first() == s.skip(i + 1));
}

proof fn lemma_trim_end_take(s: Seq<char>, j: int)
    requires
        0 < j <= s.len(),
        is_whitespace(s[j - 1]),
    ensures
        trim_end(s.take(j)) == trim_end(s.take(j - 1)),
{
    assert(s.take(j).drop_last() == s.take(j - 1));
}

/// `v` without leading and trailing whitespace (`str::trim`).
pub fn trim_chars(v: &Vec<char>) -> (r: Vec<char>)
    ensures
        r@ == trim(v@),
{
    let mut i: usize = 0;
    assert(v@.skip(0) == v@);
    while i < v.len() && char_is_whitespace(v[i])
        invariant
            i <= v.len(),
            trim_start(v@) == trim_start(v@.skip(i as int)),
        decreases v.len() - i,
    {
        proof {
            lemma_trim_start_skip(v@, i as int);
        }
        i = i + 1;
    }
    let ghost t = v@.skip(i as int);
    assert(trim_start(v@) == t) by {
        if i == v.len() {
            assert(t.len() == 0);
        }
    }
    let mut j: usize = v.len();
    assert(t.take(v.len() - i) == t);
    while j > i && char_is_whitespace(v[j - 1])
        invariant
            i <= j <= v.len(),
            t == v@.skip(i as int),
            trim_end(t) == trim_end(t.take(j - i)),
        decreases j,
    {
        proof {
            lemma_trim_end_take(t, j - i);
        }
        j = j - 1;
    }
    assert(trim_end(t.take(j - i)) == t.take(j - i));
    assert(t.take(j - i) == v@.subrange(i as int, j as int));
    assert(t.take(v.len() - i) == t);
    sub_chars(v, i, j)
}

/// Whether every character of `v` is whitespace.
pub fn all_whitespace(v: &Vec<char>) -> (r: bool)
    ensures
        r == is_blank(v@),
{
    let mut i: usize = 0;
    while i < v.len()
        invariant
            i <= v.len(),
            forall|k: int| 0 <= k < i ==> is_whitespace(#[trigger] v@[k]),
        decreases v.len() - i,
    {
        if !char_is_whitespace(v[i]) {
            return false;
        }
        i = i + 1;
    }
    true
}

proof fn lemma_trim_start_shape(s: Seq<char>)
    ensures
        trim_start(s).len() > 0 ==> !is_whitespace(trim_start(s)[0]),
    decreases s.len(),
{
    if s.len() > 0 && is_whitespace(s[0]) {
        lemma_trim_start_shape(s.drop_first());
    }
}

proof fn lemma_trim_end_shape(s: Seq<char>)
    ensures
        trim_end(s) == s.take(trim_end(s).len() as int),
        trim_end(s).len() <= s.len(),
        trim_end(s).len() > 0 ==> !is_whitespace(trim_end(s).last()),
    decreases s.len(),
{
    if s.len() > 0 && is_whitespace(s.last()) {
        lemma_trim_end_shape(s.drop_last());
        assert(s.drop_last().take(trim_end(s).len() as int) == s.take(trim_end(s).len() as int));
    } else {
        assert(s.take(s.len() as int) == s);
    }
}

/// Trimming a trimmed string changes nothing.
pub proof fn lemma_trim_idempotent(s: Seq<char>)
    ensures
        trim(trim(s)) == trim(s),
{
    let a = trim_start(s);
    let u = trim_end(a);
    lemma_trim_start_shape(s);
    lemma_trim_end_shape(a);
    if u.len() > 0 {
        assert(u[0] == a[0]);
        assert(trim_start(u) == u);
        assert(trim_end(u) == u);
    } else {
        assert(trim_start(u) == u);
        assert(trim_end(u) == u);
    }
}

/// A string is blank exactly when trimming leaves nothing.
pub proof fn lemma_trim_empty_iff_blank(s: Seq<char>)
    ensures
        (trim(s).len() == 0) == is_blank(s),
    decreases s.len(),
{
    if s.len() > 0 && is_whitespace(s[0]) {
        lemma_trim_empty_iff_blank(s.drop_first());
        if is_blank(s.drop_first()) {
            assert forall|i: int| 0 <= i < s.len() implies is_whitespace(#[trigger] s[i]) by {
                if i > 0 {
                    assert(s[i] == s.drop_first()[i - 1]);
                }
            }
        } else {
            let k = choose|k: int| 0 <= k < s.drop_first().len() && !is_whitespace(#[trigger] s.drop_first()[k]);
            assert(s[k + 1] == s.drop_first()[k]);
        }
    } else {
        lemma_trim_end_keeps_first(s);
    }
}

/// Trimming the end of a string whose first character is not whitespace
/// keeps that character.
proof fn lemma_trim_end_keeps_first(s: Seq<char>)
    requires
        !(s.len() > 0 && is_whitespace(s[0])),
    ensures
        (trim_end(s).len() == 0) == is_blank(s),
    decreases s.len(),
{
    if s.len() == 0 {
    } else if is_whitespace(s.last()) {
        lemma_trim_end_keeps_first(s.drop_last());
        assert(s.drop_last()[0] == s[0]) ;
    } else {
        assert(!is_whitespace(s[s.len() - 1]));
    }
}


/// `p` occurs in `s` at position `i`.
pub open spec fn matches_at(s: Seq<char>, i: int, p: Seq<char>) -> bool {
    0 <= i && i + p.len() <= s.len() && s.subrange(i, i + p.len()) == p
}

/// `s` begins with `p`.
pub open spec fn starts_with(s: Seq<char>, p: Seq<char>) -> bool {
    matches_at(s, 0, p)
}

/// `s` ends with `p`.
pub open spec fn ends_with(s: Seq<char>, p: Seq<char>) -> bool {
    p.len() <= s.len() && matches_at(s, s.len() - p.len(), p)
}

/// `p` occurs somewhere in `s`.
pub open spec fn contains(s: Seq<char>, p: Seq<char>) -> bool {
    exists|i: int| matches_at(s, i, p)
}

/// The first position at or after `from` where `p` occurs in `s`.
pub open spec fn find_from(s: Seq<char>, p: Seq<char>, from: int) -> Option<int>
    decreases s.len() + 1 - from,
{
    if from < 0 || from + p.len() > s.len() {
        None
    } else if matches_at(s, from, p) {
        Some(from)
    } else {
        find_from(s, p, from + 1)
    }
}

/// Whether `p` occurs in `v` at position `i`.
pub fn chars_match_at(v: &Vec<char>, i: usize, p: &Vec<char>) -> (r: bool)
    ensures
        r == matches_at(v@, i as int, p@),
{
    if i > v.len() || p.len() > v.len() - i {
        return false;
    }
    let mut k: usize = 0;
    while k < p.len()
        invariant
            i + p.len() <= v.len(),
            k <= p.len(),
            forall|m: int| 0 <= m < k ==> v@[i + m] == p@[m],
        decreases p.len() - k,
    {
        if v[i + k] != p[k] {
            assert(v@.subrange(i as int, i + p.len())[k as int] != p@[k as int]);
            return false;
        }
        k = k + 1;
    }
    assert(v@.subrange(i as int, i + p.len()) == p@);
    true
}

/// Whether `v` begins with `p`.
pub fn chars_start_with(v: &Vec<char>, p: &Vec<char>) -> (r: bool)
    ensures
        r == starts_with(v@, p@),
{
    chars_match_at(v, 0, p)
}

/// Whether `v` ends with `p`.
pub fn chars_end_with(v: &Vec<char>, p: &Vec<char>) -> (r: bool)
    ensures
        r == ends_with(v@, p@),
{
    if p.len() > v.len() {
        false
    } else {
        chars_match_at(v, v.len() - p.len(), p)
    }
}

proof fn lemma_find_from_none(s: Seq<char>, p: Seq<char>, from: int, j: int)
    requires
        find_from(s, p, from) is None,
        from <= j,
        0 <= from,
    ensures
        !matches_at(s, j, p),
    decreases j - from,
{
    if from + p.len() > s.len() {
    } else if j > from {
        lemma_find_from_none(s, p, from + 1, j);
    }
}

proof fn lemma_find_from_some(s: Seq<char>, p: Seq<char>, from: int)
    requires
        0 <= from,
        find_from(s, p, from) is Some,
    ensures
        matches_at(s, find_from(s, p, from)->0, p),
        from <= find_from(s, p, from)->0,
        forall|j: int| from <= j < find_from(s, p, from)->0 ==> !#[trigger] matches_at(s, j, p),
    decreases s.len() + 1 - from,
{
    if !matches_at(s, from, p) {
        lemma_find_from_some(s, p, from + 1);
    }
}

/// The first position at or after `from` where `p` occurs in `v`.
pub fn find_chars_from(v: &Vec<char>, p: &Vec<char>, from: usize) -> (r: Option<usize>)
    ensures
        r matches Some(i) ==> find_from(v@, p@, from as int) == Some(i as int),
        r is None ==> find_from(v@, p@, from as int) is None,
{
    let mut i = from;
    while i <= v.len() && p.len() <= v.len() - i
        invariant
            from <= i,
            find_from(v@, p@, from as int) == find_from(v@, p@, i as int),
        decreases v.len() + 1 - i,
    {
        if chars_match_at(v, i, p) {
            return Some(i);
        }
        assert(i < v.len()) by {
            if i == v.len() {
                assert(v@.subrange(i as int, i as int) == p@);
            }
        }
        i = i + 1;
    }
    None
}

/// Every occurrence of `p` lies at or after the first one found.
pub proof fn lemma_find_from_first(s: Seq<char>, p: Seq<char>, from: int)
    requires
        0 <= from,
    ensures
        find_from(s, p, from) is None ==> forall|j: int| from <= j ==> !#[trigger] matches_at(s, j, p),
        find_from(s, p, from) is Some ==> {
            &&& matches_at(s, find_from(s, p, from)->0, p)
            &&& from <= find_from(s, p, from)->0
            &&& forall|j: int| from <= j < find_from(s, p, from)->0 ==> !#[trigger] matches_at(s, j, p)
        },
{
    if find_from(s, p, from) is None {
        assert forall|j: int| from <= j implies !#[trigger] matches_at(s, j, p) by {
            lemma_find_from_none(s, p, from, j);
        }
    } else {
        lemma_find_from_some(s, p, from);
    }
}

/// Whether `p` occurs anywhere in `v` (`str::contains`).
pub fn chars_contain(v: &Vec<char>, p: &Vec<char>) -> (r: bool)
    ensures
        r == contains(v@, p@),
{
    let r = find_chars_from(v, p, 0);
    proof {
        lemma_find_from_first(v@, p@, 0);
    }
    r.is_some()
}


/// The character views of a sequence of strings.
pub open spec fn views(v: Seq<String>) -> Seq<Seq<char>> {
    v.map_values(|s: String| s@)
}

/// `parts` joined with `sep` between neighbours (`[..].join(sep)`).
pub open spec fn join(parts: Seq<Seq<char>>, sep: Seq<char>) -> Seq<char>
    decreases parts.len(),
{
    if parts.len() == 0 {
        Seq::empty()
    } else if parts.len() == 1 {
        parts[0]
    } else {
        join(parts.drop_last(), sep) + sep + parts.last()
    }
}

/// Appends `t` to `s`.
pub fn push_str(s: &mut String, t: &str)
    ensures
        final(s)@ == old(s)@ + t@,
{
    s.append(t);
}

/// The strings of `parts` joined with `sep` between neighbours.
pub fn join_strings(parts: &Vec<String>, sep: &str) -> (r: String)
    ensures
        r@ == join(views(parts@), sep@),
{
    let mut r = String::new();
    let mut i: usize = 0;
    while i < parts.len()
        invariant
            i <= parts.len(),
            r@ == join(views(parts@).take(i as int), sep@),
        decreases parts.len() - i,
    {
        let ghost before = views(parts@).take(i as int);
        if i > 0 {
            push_str(&mut r, sep);
        }
        push_str(&mut r, parts[i].as_str());
        i = i + 1;
        assert(views(parts@).take(i as int).drop_last() == before);
        assert(views(parts@).take(i as int).last() == parts@[i - 1]@);
    }
    assert(views(parts@).take(parts.len() as int) == views(parts@));
    r
}

/// The decimal digit `d`.
pub open spec fn digit_char(d: nat) -> char {
    if d == 0 { '0' }
    else if d == 1 { '1' }
    else if d == 2 { '2' }
    else if d == 3 { '3' }
    else if d == 4 { '4' }
    else if d == 5 { '5' }
    else if d == 6 { '6' }
    else if d == 7 { '7' }
    else if d == 8 { '8' }
    else { '9' }
}

/// The decimal rendering of `n`, as `format!("{}", n)` writes it.
pub open spec fn decimal(n: nat) -> Seq<char>
    decreases n,
{
    if n < 10 {
        seq![digit_char(n)]
    } else {
        decimal(n / 10) + seq![digit_char(n % 10)]
    }
}

fn digit_of(d: usize) -> (c: char)
    requires
        d < 10,
    ensures
        c == digit_char(d as nat),
{
    if d == 0 { '0' }
    else if d == 1 { '1' }
    else if d == 2 { '2' }
    else if d == 3 { '3' }
    else if d == 4 { '4' }
    else if d == 5 { '5' }
    else if d == 6 { '6' }
    else if d == 7 { '7' }
    else if d == 8 { '8' }
    else { '9' }
}

/// The decimal digits of `n`.
pub fn decimal_chars(n: usize) -> (v: Vec<char>)
    ensures
        v@ == decimal(n as nat),
    decreases n,
{
    if n < 10 {
        let mut v: Vec<char> = Vec::new();
        v.push(digit_of(n));
        assert(v@ == seq![digit_char(n as nat)]);
        v
    } else {
        let mut v = decimal_chars(n / 10);
        v.push(digit_of(n % 10));
        v
    }
}

/// The decimal text of an integer, with `-` before a negative one.
pub open spec fn signed_decimal(n: int) -> Seq<char> {
    if n < 0 {
        "-"@ + decimal((-n) as nat)
    } else {
        decimal(n as nat)
    }
}

/// The decimal text of `n`, as `i32`'s `Display` writes it.
pub fn decimal_i32(n: i32) -> (r: String)
    ensures
        r@ == signed_decimal(n as int),
{
    if n < 0 {
        let m: i64 = -(n as i64);
        assert(m <= 0x8000_0000);
        let digits = decimal_chars(m as usize);
        let mut r = String::from_str("-");
        push_chars(&mut r, &digits);
        r
    } else {
        string_of(&decimal_chars(n as usize))
    }
}

/// Code-point order of character sequences; `str`'s `Ord` (byte order of
/// UTF-8) orders strings the same way.
pub open spec fn seq_less(a: Seq<char>, b: Seq<char>) -> bool
    decreases a.len(),
{
    if a.len() == 0 {
        b.len() > 0
    } else if b.len() == 0 {
        false
    } else if a[0] == b[0] {
        seq_less(a.drop_first(), b.drop_first())
    } else {
        a[0] < b[0]
    }
}

/// No string comes before itself.
pub proof fn lemma_less_irreflexive(a: Seq<char>)
    ensures
        !seq_less(a, a),
    decreases a.len(),
{
    if a.len() > 0 {
        lemma_less_irreflexive(a.drop_first());
    }
}

/// The order of strings is transitive.
pub proof fn lemma_less_transitive(a: Seq<char>, b: Seq<char>, c: Seq<char>)
    requires
        seq_less(a, b),
        seq_less(b, c),
    ensures
        seq_less(a, c),
    decreases a.len(),
{
    if a.len() > 0 && b.len() > 0 && c.len() > 0 && a[0] == b[0] && b[0] == c[0] {
        lemma_less_transitive(a.drop_first(), b.drop_first(), c.drop_first());
    }
}

/// Of two different strings, one comes before the other.
pub proof fn lemma_less_total(a: Seq<char>, b: Seq<char>)
    requires
        a != b,
    ensures
        seq_less(a, b) || seq_less(b, a),
    decreases a.len(),
{
    if a.len() > 0 && b.len() > 0 && a[0] == b[0] {
        if a.drop_first() == b.drop_first() {
            assert(a == seq![a[0]] + a.drop_first());
            assert(b == seq![b[0]] + b.drop_first());
        }
        lemma_less_total(a.drop_first(), b.drop_first());
    } else if a.len() == 0 && b.len() == 0 {
        assert(a == b);
    }
}

/// Whether `a` comes strictly before `b` in code-point order.
pub fn chars_less(a: &Vec<char>, b: &Vec<char>) -> (r: bool)
    ensures
        r == seq_less(a@, b@),
{
    let mut i: usize = 0;
    assert(a@.skip(0) == a@ && b@.skip(0) == b@);
    while i < a.len() && i < b.len() && a[i] == b[i]
        invariant
            i <= a.len(),
            i <= b.len(),
            seq_less(a@, b@) == seq_less(a@.skip(i as int), b@.skip(i as int)),
        decreases a.len() - i,
    {
        assert(a@.skip(i as int).drop_first() == a@.skip(i + 1));
        assert(b@.skip(i as int).drop_first() == b@.skip(i + 1));
        i = i + 1;
    }
    if i == a.len() {
        i < b.len()
    } else if i == b.len() {
        false
    } else {
        a[i] < b[i]
    }
}

/// Whether `a` comes strictly before `b` in code-point order.
pub fn string_less(a: &String, b: &String) -> (r: bool)
    ensures
        r == seq_less(a@, b@),
{
    let av = chars_of(a.as_str());
    let bv = chars_of(b.as_str());
    chars_less(&av, &bv)
}

/// `s` is strictly increasing in code-point order: sorted, without repeats.
pub open spec fn strictly_sorted(s: Seq<Seq<char>>) -> bool {
    forall|i: int, j: int| 0 <= i < j < s.len() ==> seq_less(#[trigger] s[i], #[trigger] s[j])
}

/// Adds `x` to the sorted set `v`, keeping it sorted (`BTreeSet::insert`).
pub fn insert_sorted(v: &mut Vec<String>, x: String)
    requires
        strictly_sorted(views(old(v)@)),
    ensures
        strictly_sorted(views(final(v)@)),
        views(final(v)@).to_set() == views(old(v)@).to_set().insert(x@),
{
    let ghost old_views = views(v@);
    let mut i: usize = 0;
    while i < v.len() && string_less(&v[i], &x)
        invariant
            i <= v.len(),
            v@ == old(v)@,
            forall|k: int| 0 <= k < i ==> seq_less(#[trigger] views(v@)[k], x@),
        decreases v.len() - i,
    {
        i = i + 1;
    }
    if i < v.len() && v[i] == x {
        assert(views(v@)[i as int] == x@);
        assert(views(v@).to_set() == views(v@).to_set().insert(x@));
        return;
    }
    proof {
        if i < v.len() {
            lemma_less_total(views(v@)[i as int], x@);
        }
    }
    let ghost xv = x@;
    v.insert(i, x);
    proof {
        let nv = views(v@);
        assert(nv == old_views.take(i as int).push(xv) + old_views.skip(i as int));
        assert forall|a: int, b: int| 0 <= a < b < nv.len() implies seq_less(#[trigger] nv[a], #[trigger] nv[b]) by {
            if b > i {
                if b > i + 1 {
                    lemma_less_transitive(xv, old_views[i as int], nv[b]);
                }
                assert(seq_less(xv, nv[b]));
                if a < i {
                    lemma_less_transitive(nv[a], xv, nv[b]);
                }
            }
        }
        assert(nv.to_set() == old_views.to_set().insert(xv)) by {
            assert forall|e: Seq<char>| nv.to_set().contains(e) <==> old_views.to_set().insert(xv).contains(e) by {
                if nv.to_set().contains(e) {
                    let k = choose|k: int| 0 <= k < nv.len() && nv[k] == e;
                    if k < i {
                        assert(old_views[k] == e);
                    } else if k > i {
                        assert(old_views[k - 1] == e);
                    }
                }
                if old_views.to_set().contains(e) {
                    let k = choose|k: int| 0 <= k < old_views.len() && old_views[k] == e;
                    if k < i {
                        assert(nv[k] == e);
                    } else {
                        assert(nv[k + 1] == e);
                    }
                }
                if e == xv {
                    assert(nv[i as int] == e);
                }
            }
        }
    }
}


/// An ASCII decimal digit.
pub open spec fn is_digit(c: char) -> bool {
    '0' <= c && c <= '9'
}

/// Every character of `d` is an ASCII decimal digit.
pub open spec fn all_digits(d: Seq<char>) -> bool {
    forall|i: int| 0 <= i < d.len() ==> is_digit(#[trigger] d[i])
}

/// The number that the decimal digits `d` spell.
pub open spec fn digits_value(d: Seq<char>) -> nat
    decreases d.len(),
{
    if d.len() == 0 {
        0
    } else {
        digits_value(d.drop_last()) * 10 + ((d.last() as u32) - 48) as nat
    }
}

/// `s` read as an `i32`, as `str::parse::<i32>` reads it: an optional sign,
/// then one or more ASCII digits, within the range of `i32`.
pub open spec fn parse_i32(s: Seq<char>) -> Option<i32> {
    if s.len() == 0 {
        None
    } else if (s[0] == '+' || s[0] == '-') && s.len() == 1 {
        None
    } else if s[0] == '-' {
        let d = s.drop_first();
        if all_digits(d) && digits_value(d) <= 2147483648 {
            Some((0 - digits_value(d)) as i32)
        } else {
            None
        }
    } else {
        let d = if s[0] == '+' { s.drop_first() } else { s };
        if all_digits(d) && digits_value(d) <= 2147483647 {
            Some(digits_value(d) as i32)
        } else {
            None
        }
    }
}

proof fn lemma_digits_value_grows(d: Seq<char>, i: int)
    requires
        0 <= i <= d.len(),
        all_digits(d),
    ensures
        digits_value(d.take(i)) <= digits_value(d),
    decreases d.len() - i,
{
    if i < d.len() {
        lemma_digits_value_grows(d, i + 1);
        assert(d.take(i + 1).drop_last() == d.take(i));
        assert(is_digit(d[i]));
    } else {
        assert(d.take(i) == d);
    }
}

/// The value of the digits `d`, when they are all digits and the value is
/// at most `limit`.
fn digits_up_to(d: &Vec<char>, start: usize, limit: u128) -> (r: Option<u128>)
    requires
        start <= d.len(),
        limit <= 18446744073709551616,
    ensures
        r matches Some(n) ==> all_digits(d@.skip(start as int)) && digits_value(d@.skip(start as int)) == n && n <= limit,
        r is None ==> !(all_digits(d@.skip(start as int)) && digits_value(d@.skip(start as int)) <= limit),
{
    let ghost ds = d@.skip(start as int);
    let mut acc: u128 = 0;
    let mut i: usize = start;
    assert(ds.take(0) == Seq::<char>::empty());
    while i < d.len()
        invariant
            start <= i <= d.len(),
            ds == d@.skip(start as int),
            all_digits(ds.take(i - start)),
            acc == digits_value(ds.take(i - start)),
            acc <= limit,
            limit <= 18446744073709551616,
        decreases d.len() - i,
    {
        let c = d[i];
        assert(ds[i - start] == c);
        if !(c >= '0' && c <= '9') {
            assert(!all_digits(ds));
            return None;
        }
        let next = acc * 10 + ((c as u32) - 48) as u128;
        assert(ds.take(i + 1 - start).drop_last() == ds.take(i - start));
        if next > limit {
            proof {
                let j = i + 1 - start;
                if all_digits(ds) {
                    lemma_digits_value_grows(ds, j);
                }
            }
            return None;
        }
        acc = next;
        i = i + 1;
    }
    assert(ds.take(d.len() - start) == ds);
    Some(acc)
}

/// `v` read as an `i32` (`str::parse::<i32>`).
pub fn parse_i32_chars(v: &Vec<char>) -> (r: Option<i32>)
    ensures
        r == parse_i32(v@),
{
    if v.len() == 0 {
        return None;
    }
    if (v[0] == '+' || v[0] == '-') && v.len() == 1 {
        return None;
    }
    if v[0] == '-' {
        assert(v@.skip(1) == v@.drop_first());
        match digits_up_to(v, 1, 2147483648) {
            Some(n) => Some((0 - (n as i128)) as i32),
            None => None,
        }
    } else if v[0] == '+' {
        assert(v@.skip(1) == v@.drop_first());
        match digits_up_to(v, 1, 2147483647) {
            Some(n) => Some(n as i32),
            None => None,
        }
    } else {
        assert(v@.skip(0) == v@);
        match digits_up_to(v, 0, 2147483647) {
            Some(n) => Some(n as i32),
            None => None,
        }
    }
}

/// The part of `s` before the first `c`, or all of `s` when there is no
/// `c` (the first item of `str::split(c)`).
pub open spec fn first_segment(s: Seq<char>, c: char) -> Seq<char>
    decreases s.len(),
{
    if s.len() == 0 {
        s
    } else if s[0] == c {
        Seq::empty()
    } else {
        seq![s[0]] + first_segment(s.drop_first(), c)
    }
}

proof fn lemma_first_segment_at(s: Seq<char>, c: char, i: int)
    requires
        0 <= i <= s.len(),
        forall|k: int| 0 <= k < i ==> s[k] != c,
        i == s.len() || s[i] == c,
    ensures
        first_segment(s, c) == s.take(i),
    decreases i,
{
    if i > 0 {
        lemma_first_segment_at(s.drop_first(), c, i - 1);
        assert(s.take(i) == seq![s[0]] + s.drop_first().take(i - 1));
    } else if s.len() > 0 {
        assert(s.take(0) == Seq::<char>::empty());
    }
}

/// The part of `v` before the first `c`.
pub fn first_segment_chars(v: &Vec<char>, c: char) -> (r: Vec<char>)
    ensures
        r@ == first_segment(v@, c),
        forall|k: int| 0 <= k < r@.len() ==> r@[k] != c,
{
    let mut i: usize = 0;
    while i < v.len() && v[i] != c
        invariant
            i <= v.len(),
            forall|k: int| 0 <= k < i ==> v@[k] != c,
        decreases v.len() - i,
    {
        i = i + 1;
    }
    proof {
        lemma_first_segment_at(v@, c, i as int);
    }
    sub_chars(v, 0, i)
}


/// The place of `x` in the sorted set `v`: every earlier entry is smaller,
/// and the entry there is `x` itself (`found`) or larger.
pub fn sorted_slot(v: &Vec<String>, x: &String) -> (r: (usize, bool))
    requires
        strictly_sorted(views(v@)),
    ensures
        r.0 <= v.len(),
        forall|k: int| 0 <= k < r.0 ==> seq_less(#[trigger] views(v@)[k], x@),
        r.1 ==> r.0 < v.len() && v@[r.0 as int]@ == x@,
        !r.1 ==> r.0 == v.len() || seq_less(x@, v@[r.0 as int]@),
        !r.1 ==> !views(v@).contains(x@),
{
    let mut i: usize = 0;
    while i < v.len() && string_less(&v[i], x)
        invariant
            i <= v.len(),
            forall|k: int| 0 <= k < i ==> seq_less(#[trigger] views(v@)[k], x@),
        decreases v.len() - i,
    {
        i = i + 1;
    }
    if i < v.len() && v[i] == *x {
        return (i, true);
    }
    proof {
        if i < v.len() {
            lemma_less_total(views(v@)[i as int], x@);
        }
        if views(v@).contains(x@) {
            let k = choose|k: int| 0 <= k < views(v@).len() && views(v@)[k] == x@;
            if k < i {
                lemma_less_irreflexive(x@);
            } else if k == i {
            } else {
                lemma_less_transitive(x@, views(v@)[i as int], x@);
                lemma_less_irreflexive(x@);
            }
        }
    }
    (i, false)
}


proof fn lemma_sorted_drop_first_set(q: Seq<Seq<char>>)
    requires
        strictly_sorted(q),
        q.len() > 0,
    ensures
        q.drop_first().to_set() == q.to_set().remove(q[0]),
        strictly_sorted(q.drop_first()),
{
    let d = q.drop_first();
    assert forall|e: Seq<char>| d.to_set().contains(e) <==> q.to_set().remove(q[0]).contains(e) by {
        if d.to_set().contains(e) {
            let k = choose|k: int| 0 <= k < d.len() && d[k] == e;
            assert(q[k + 1] == e);
            assert(seq_less(q[0], q[k + 1]));
            if e == q[0] {
                lemma_less_irreflexive(e);
            }
        }
        if q.to_set().remove(q[0]).contains(e) {
            let k = choose|k: int| 0 <= k < q.len() && q[k] == e;
            assert(k != 0);
            assert(d[k - 1] == e);
        }
    }
    assert forall|i: int, j: int| 0 <= i < j < d.len() implies seq_less(#[trigger] d[i], #[trigger] d[j]) by {
        assert(d[i] == q[i + 1] && d[j] == q[j + 1]);
    }
}

/// A finite set of strings has one strictly increasing enumeration.
pub proof fn lemma_sorted_unique(q1: Seq<Seq<char>>, q2: Seq<Seq<char>>)
    requires
        strictly_sorted(q1),
        strictly_sorted(q2),
        q1.to_set() == q2.to_set(),
    ensures
        q1 == q2,
    decreases q1.len(),
{
    if q1.len() == 0 {
        if q2.len() > 0 {
            assert(q2.to_set().contains(q2[0]));
        }
    } else if q2.len() == 0 {
        assert(q1.to_set().contains(q1[0]));
    } else {
        assert(q1.to_set().contains(q1[0]));
        let j = choose|j: int| 0 <= j < q2.len() && q2[j] == q1[0];
        assert(q2.to_set().contains(q2[0]));
        let i = choose|i: int| 0 <= i < q1.len() && q1[i] == q2[0];
        if j > 0 {
            assert(seq_less(q2[0], q2[j]));
            if i > 0 {
                assert(seq_less(q1[0], q1[i]));
                lemma_less_transitive(q1[0], q1[i], q1[0]);
            }
            lemma_less_irreflexive(q1[0]);
        }
        lemma_sorted_drop_first_set(q1);
        lemma_sorted_drop_first_set(q2);
        lemma_sorted_unique(q1.drop_first(), q2.drop_first());
        assert(q1 == seq![q1[0]] + q1.drop_first());
        assert(q2 == seq![q2[0]] + q2.drop_first());
    }
}

/// The strictly increasing enumeration of the strings in `s`: what
/// collecting them through a `BTreeSet` gives.
pub open spec fn sorted_unique(s: Seq<Seq<char>>) -> Seq<Seq<char>> {
    choose|q: Seq<Seq<char>>| strictly_sorted(q) && q.to_set() == s.to_set()
}

/// `x` added to the increasing sequence `q` at its place.
spec fn sorted_insert(q: Seq<Seq<char>>, x: Seq<char>) -> Seq<Seq<char>>
    decreases q.len(),
{
    if q.len() == 0 {
        seq![x]
    } else if x == q[0] {
        q
    } else if seq_less(x, q[0]) {
        seq![x] + q
    } else {
        seq![q[0]] + sorted_insert(q.drop_first(), x)
    }
}

proof fn lemma_sorted_insert(q: Seq<Seq<char>>, x: Seq<char>)
    requires
        strictly_sorted(q),
    ensures
        strictly_sorted(sorted_insert(q, x)),
        sorted_insert(q, x).to_set() == q.to_set().insert(x),
        forall|y: Seq<char>| q.len() > 0 && seq_less(y, q[0]) && seq_less(y, x) ==> forall|k: int|
            0 <= k < sorted_insert(q, x).len() ==> seq_less(y, #[trigger] sorted_insert(q, x)[k]),
    decreases q.len(),
{
    let r = sorted_insert(q, x);
    if q.len() == 0 {
        assert(r.to_set() =~= q.to_set().insert(x)) by {
            assert(r[0] == x);
        }
    } else if x == q[0] {
        assert(q.to_set().contains(q[0]));
        assert(r.to_set() =~= q.to_set().insert(x));
        assert forall|y: Seq<char>| q.len() > 0 && seq_less(y, q[0]) && seq_less(y, x) implies forall|k: int|
            0 <= k < r.len() ==> seq_less(y, #[trigger] r[k]) by {
            assert forall|k: int| 0 <= k < r.len() implies seq_less(y, #[trigger] r[k]) by {
                if k > 0 {
                    lemma_less_transitive(y, q[0], q[k]);
                }
            }
        }
    } else if seq_less(x, q[0]) {
        assert forall|i: int, j: int| 0 <= i < j < r.len() implies seq_less(#[trigger] r[i], #[trigger] r[j]) by {
            if i == 0 {
                if j > 1 {
                    lemma_less_transitive(x, q[0], q[j - 1]);
                }
            } else {
                assert(r[i] == q[i - 1] && r[j] == q[j - 1]);
            }
        }
        assert(r.to_set() =~= q.to_set().insert(x)) by {
            assert forall|e: Seq<char>| r.to_set().contains(e) <==> q.to_set().insert(x).contains(e) by {
                if r.to_set().contains(e) {
                    let k = choose|k: int| 0 <= k < r.len() && r[k] == e;
                    if k > 0 {
                        assert(q[k - 1] == e);
                    }
                }
                if q.to_set().contains(e) {
                    let k = choose|k: int| 0 <= k < q.len() && q[k] == e;
                    assert(r[k + 1] == e);
                }
                if e == x {
                    assert(r[0] == x);
                }
            }
        }
        assert forall|y: Seq<char>| q.len() > 0 && seq_less(y, q[0]) && seq_less(y, x) implies forall|k: int|
            0 <= k < r.len() ==> seq_less(y, #[trigger] r[k]) by {
            assert forall|k: int| 0 <= k < r.len() implies seq_less(y, #[trigger] r[k]) by {
                if k > 1 {
                    lemma_less_transitive(y, q[0], q[k - 1]);
                } else if k == 1 {
                    assert(r[1] == q[0]);
                }
            }
        }
    } else {
        lemma_less_total(x, q[0]);
        let d = q.drop_first();
        assert forall|i: int, j: int| 0 <= i < j < d.len() implies seq_less(#[trigger] d[i], #[trigger] d[j]) by {
            assert(d[i] == q[i + 1] && d[j] == q[j + 1]);
        }
        lemma_sorted_insert(d, x);
        let t = sorted_insert(d, x);
        assert(r == seq![q[0]] + t);
        assert forall|k: int| 0 <= k < t.len() implies seq_less(q[0], #[trigger] t[k]) by {
            if d.len() > 0 {
                assert(seq_less(q[0], d[0])) by {
                    assert(d[0] == q[1]);
                }
                assert(forall|kk: int| 0 <= kk < t.len() ==> seq_less(q[0], #[trigger] t[kk]));
            } else {
                assert(t == seq![x]);
            }
        }
        assert forall|i: int, j: int| 0 <= i < j < r.len() implies seq_less(#[trigger] r[i], #[trigger] r[j]) by {
            if i == 0 {
                assert(r[j] == t[j - 1]);
            } else {
                assert(r[i] == t[i - 1] && r[j] == t[j - 1]);
            }
        }
        assert(r.to_set() =~= q.to_set().insert(x)) by {
            assert(q == seq![q[0]] + d);
            assert forall|e: Seq<char>| r.to_set().contains(e) <==> q.to_set().insert(x).contains(e) by {
                if r.to_set().contains(e) {
                    let k = choose|k: int| 0 <= k < r.len() && r[k] == e;
                    if k > 0 {
                        assert(t[k - 1] == e);
                        assert(t.to_set().contains(e));
                        if e != x {
                            let kk = choose|kk: int| 0 <= kk < d.len() && d[kk] == e;
                            assert(q[kk + 1] == e);
                        }
                    }
                }
                if q.to_set().contains(e) {
                    let k = choose|k: int| 0 <= k < q.len() && q[k] == e;
                    if k > 0 {
                        assert(d[k - 1] == e);
                        assert(t.to_set().contains(e));
                        let kk = choose|kk: int| 0 <= kk < t.len() && t[kk] == e;
                        assert(r[kk + 1] == e);
                    }
                }
                if e == x {
                    assert(t.to_set().contains(x));
                    let kk = choose|kk: int| 0 <= kk < t.len() && t[kk] == x;
                    assert(r[kk + 1] == x);
                }
            }
        }
        assert forall|y: Seq<char>| q.len() > 0 && seq_less(y, q[0]) && seq_less(y, x) implies forall|k: int|
            0 <= k < r.len() ==> seq_less(y, #[trigger] r[k]) by {
            assert forall|k: int| 0 <= k < r.len() implies seq_less(y, #[trigger] r[k]) by {
                if k > 0 {
                    lemma_less_transitive(y, q[0], r[k]);
                }
            }
        }
    }
}

/// Every sequence of strings has a strictly increasing enumeration of its
/// strings.
pub proof fn lemma_sorted_enumeration_exists(s: Seq<Seq<char>>)
    ensures
        strictly_sorted(sorted_unique(s)),
        sorted_unique(s).to_set() == s.to_set(),
    decreases s.len(),
{
    let q = sorted_enumeration(s);
    assert(strictly_sorted(q) && q.to_set() == s.to_set());
}

proof fn sorted_enumeration(s: Seq<Seq<char>>) -> (q: Seq<Seq<char>>)
    ensures
        strictly_sorted(q),
        q.to_set() == s.to_set(),
    decreases s.len(),
{
    if s.len() == 0 {
        let q = Seq::<Seq<char>>::empty();
        assert(q.to_set() =~= s.to_set());
        q
    } else {
        let p = sorted_enumeration(s.drop_last());
        lemma_sorted_insert(p, s.last());
        let q = sorted_insert(p, s.last());
        assert(s == s.drop_last().push(s.last()));
        s.drop_last().lemma_push_to_set_commute(s.last());
        q
    }
}

/// A strictly increasing enumeration of the strings of `s` is the one.
pub proof fn lemma_sorted_unique_is(s: Seq<Seq<char>>, q: Seq<Seq<char>>)
    requires
        strictly_sorted(q),
        q.to_set() == s.to_set(),
    ensures
        sorted_unique(s) == q,
{
    let c = sorted_unique(s);
    assert(strictly_sorted(c) && c.to_set() == s.to_set());
    lemma_sorted_unique(c, q);
}


/// What `str::to_lowercase` makes of a string (full Unicode case mapping).
pub uninterp spec fn lowercase(s: Seq<char>) -> Seq<char>;

/// `str::to_lowercase`. The contract claims only that the result is
/// `lowercase` of the argument: the Unicode mapping itself is not stated.
#[verifier::external_body]
pub(crate) fn to_lowercase(s: &str) -> (r: String)
    ensures
        r@ == lowercase(s@),
{
    s.to_lowercase()
}

/// The base64 digit for the six-bit value `v`.
pub open spec fn base64_digit(v: int) -> char {
    if v < 26 {
        (65 + v) as char
    } else if v < 52 {
        (97 + v - 26) as char
    } else if v < 62 {
        (48 + v - 52) as char
    } else if v == 62 {
        '+'
    } else {
        '/'
    }
}

/// The base64 digit for the six-bit value `v`.
pub fn base64_digit_of(v: u8) -> (c: char)
    requires
        v < 64,
    ensures
        c == base64_digit(v as int),
{
    if v < 26 {
        (65 + v) as char
    } else if v < 52 {
        (97 + v - 26) as char
    } else if v < 62 {
        (48 + v - 52) as char
    } else if v == 62 {
        '+'
    } else {
        '/'
    }
}


/// `s` read as a `u64`, as `str::parse::<u64>` reads it: an optional `+`,
/// then one or more ASCII digits, within the range of `u64`.
pub open spec fn parse_u64(s: Seq<char>) -> Option<u64> {
    if s.len() == 0 {
        None
    } else if (s[0] == '+' || s[0] == '-') && s.len() == 1 {
        None
    } else {
        let d = if s[0] == '+' { s.drop_first() } else { s };
        if all_digits(d) && digits_value(d) <= 18446744073709551615 {
            Some(digits_value(d) as u64)
        } else {
            None
        }
    }
}

/// `v` read as a `u64` (`str::parse::<u64>`).
pub fn parse_u64_chars(v: &Vec<char>) -> (r: Option<u64>)
    ensures
        r == parse_u64(v@),
{
    if v.len() == 0 {
        return None;
    }
    if (v[0] == '+' || v[0] == '-') && v.len() == 1 {
        return None;
    }
    if v[0] == '+' {
        assert(v@.skip(1) == v@.drop_first());
        match digits_up_to(v, 1, 18446744073709551615) {
            Some(n) => Some(n as u64),
            None => None,
        }
    } else {
        assert(v@.skip(0) == v@);
        match digits_up_to(v, 0, 18446744073709551615) {
            Some(n) => Some(n as u64),
            None => None,
        }
    }
}


/// A decimal text is a non-empty run of digits spelling its number.
pub proof fn lemma_decimal_digits(n: nat)
    ensures
        all_digits(decimal(n)),
        digits_value(decimal(n)) == n,
        decimal(n).len() > 0,
    decreases n,
{
    let c = digit_char(n % 10);
    assert((c as u32) - 48 == n % 10);
    if n < 10 {
        let d = decimal(n);
        assert(d == seq![c]);
        assert(d.drop_last() == Seq::<char>::empty());
        assert(digits_value(Seq::<char>::empty()) == 0);
    } else {
        lemma_decimal_digits(n / 10);
        let d = decimal(n);
        let h = decimal(n / 10);
        assert(d == h + seq![c]);
        assert(d.drop_last() == h);
        assert(d.last() == c);
        assert forall|i: int| 0 <= i < d.len() implies is_digit(#[trigger] d[i]) by {
            if i < h.len() {
                assert(d[i] == h[i]);
            }
        }
        assert(n == (n / 10) * 10 + n % 10) by (nonlinear_arith);
    }
}

/// Reading back the decimal text of an `i32` gives that number: the
/// parser reads every digit and the sign.
pub proof fn law_parse_i32_decimal(n: int)
    requires
        i32::MIN <= n <= i32::MAX,
    ensures
        parse_i32(signed_decimal(n)) == Some(n as i32),
{
    if n < 0 {
        lemma_decimal_digits((-n) as nat);
        let d = decimal((-n) as nat);
        let t = "-"@ + d;
        reveal_strlit("-");
        assert(t[0] == '-');
        assert(t.drop_first() == d);
    } else {
        lemma_decimal_digits(n as nat);
        let d = decimal(n as nat);
        assert(d[0] != '+' && d[0] != '-') by {
            assert(is_digit(d[0]));
        }
    }
}

/// The part of `x + [c] + r` before the first `c`, when `x` holds no `c`,
/// is `x`.
pub proof fn law_first_segment_of(x: Seq<char>, c: char, r: Seq<char>)
    requires
        forall|i: int| 0 <= i < x.len() ==> x[i] != c,
    ensures
        first_segment(x + seq![c] + r, c) == x,
    decreases x.len(),
{
    let s = x + seq![c] + r;
    if x.len() == 0 {
        assert(s[0] == c);
    } else {
        assert(s[0] == x[0]);
        assert(s.drop_first() == x.drop_first() + seq![c] + r);
        law_first_segment_of(x.drop_first(), c, r);
        assert(x == seq![x[0]] + x.drop_first());
    }
}


proof fn lemma_trim_start_drops_ws(s: Seq<char>)
    ensures
        trim_start(s).len() <= s.len(),
        trim_start(s) == s.skip(s.len() - trim_start(s).len()),
        forall|k: int| 0 <= k < s.len() - trim_start(s).len() ==> is_whitespace(#[trigger] s[k]),
    decreases s.len(),
{
    if s.len() > 0 && is_whitespace(s[0]) {
        lemma_trim_start_drops_ws(s.drop_first());
        let t = trim_start(s.drop_first());
        assert(s.drop_first().skip(s.drop_first().len() - t.len()) == s.skip(s.len() - t.len()));
        assert forall|k: int| 0 <= k < s.len() - t.len() implies is_whitespace(#[trigger] s[k]) by {
            if k > 0 {
                assert(s[k] == s.drop_first()[k - 1]);
            }
        }
    } else {
        assert(s.skip(0) == s);
    }
}

/// Trimming keeps the middle of the text: it removes only whitespace, at
/// both ends, and what is left starts and ends with something that is not
/// whitespace.
pub proof fn law_trim_shape(s: Seq<char>)
    ensures
        exists|i: int, j: int| 0 <= i <= j <= s.len() && trim(s) == s.subrange(i, j)
            && (forall|k: int| 0 <= k < i ==> is_whitespace(#[trigger] s[k]))
            && (forall|k: int| j <= k < s.len() ==> is_whitespace(#[trigger] s[k])),
        trim(s).len() > 0 ==> !is_whitespace(trim(s)[0]) && !is_whitespace(trim(s).last()),
{
    lemma_trim_start_drops_ws(s);
    lemma_trim_start_shape(s);
    let a = trim_start(s);
    let i = s.len() - a.len();
    lemma_trim_end_shape(a);
    let u = trim_end(a);
    lemma_trim_end_all_ws(a);
    let j = i + u.len();
    assert(u == s.subrange(i, j));
    assert forall|k: int| j <= k < s.len() implies is_whitespace(#[trigger] s[k]) by {
        assert(s[k] == a[k - i]);
    }
    if u.len() > 0 {
        assert(u[0] == a[0]);
    }
}

proof fn lemma_trim_end_all_ws(a: Seq<char>)
    ensures
        trim_end(a).len() <= a.len(),
        forall|k: int| trim_end(a).len() <= k < a.len() ==> is_whitespace(#[trigger] a[k]),
    decreases a.len(),
{
    if a.len() > 0 && is_whitespace(a.last()) {
        lemma_trim_end_all_ws(a.drop_last());
        assert forall|k: int| trim_end(a).len() <= k < a.len() implies is_whitespace(#[trigger] a[k]) by {
            if k < a.len() - 1 {
                assert(a[k] == a.drop_last()[k]);
            }
        }
    }
}

} // verus!
