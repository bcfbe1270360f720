//! Text as sequences of characters: searching, replacing, trimming, numbers
//! in decimal, and the order in which texts sort.
use vstd::prelude::*;

verus! {

/// `String::push` appends one character.
pub assume_specification [ String::push ](s: &mut String, c: char)
    ensures
        final(s)@ == old(s)@.push(c),
;

/// What `str::to_lowercase` makes of a text: the Unicode lowercase mapping.
pub uninterp spec fn lowercased(s: Seq<char>) -> Seq<char>;

/// Whether a text is ASCII.
pub open spec fn is_ascii_text(s: Seq<char>) -> bool {
    forall|k: int| 0 <= k < s.len() ==> (#[trigger] s[k] as u32) < 0x80
}

/// `str::to_lowercase`. On ASCII text it maps the letters A to Z to a to z.
/// The mapping of other text is Unicode's and is only named here.
#[verifier::external_body]
pub(crate) fn to_lower(s: &str) -> (r: String)
    ensures
        r@ == lowercased(s@),
        is_ascii_text(s@) ==> r@ == ascii_lowered(s@),
{
    s.to_lowercase()
}

/// What `char::to_lowercase` makes of one character.
pub uninterp spec fn char_lowercased(c: char) -> Seq<char>;

/// `char::to_lowercase`, collected: one or more characters. The mapping is
/// Unicode's and is only named here.
#[verifier::external_body]
pub(crate) fn char_to_lower(c: char) -> (r: String)
    ensures
        r@ == char_lowercased(c),
        r@.len() > 0,
{
    c.to_lowercase().to_string()
}

/// The characters of a text.
pub fn chars_of(s: &str) -> (v: Vec<char>)
    ensures
        v@ == s@,
{
    let mut v: Vec<char> = Vec::new();
    for c in it: s.chars()
        invariant
            v@ == s@.take(it.index() as int),
            it.seq() == s@,
    {
        v.push(c);
        proof {
            assert(s@.take(it.index() as int).push(c) =~= s@.take(it.index() as int + 1));
        }
    }
    assert(s@.take(s@.len() as int) =~= s@);
    v
}

/// The text made of the characters at positions `from..to`.
pub fn text_of(v: &Vec<char>, from: usize, to: usize) -> (r: String)
    requires
        from <= to <= v@.len(),
    ensures
        r@ == v@.subrange(from as int, to as int),
{
    let mut out = String::new();
    let mut i: usize = from;
    while i < to
        invariant
            from <= i <= to <= v@.len(),
            out@ == v@.subrange(from as int, i as int),
        decreases to - i,
    {
        out.push(v[i]);
        i += 1;
        assert(v@.subrange(from as int, i as int) =~= v@.subrange(from as int, i - 1).push(v@[i - 1]));
    }
    out
}

/// Whether two texts are the same.
pub fn same(a: &str, b: &str) -> (r: bool)
    ensures
        r == (a@ == b@),
{
    let x = a.as_bytes();
    let y = b.as_bytes();
    if x.len() != y.len() {
        return false;
    }
    let mut i: usize = 0;
    while i < x.len()
        invariant
            i <= x@.len(),
            x@.len() == y@.len(),
            x@ == vstd::utf8::encode_utf8(a@),
            y@ == vstd::utf8::encode_utf8(b@),
            forall|k: int| 0 <= k < i ==> x@[k] == y@[k],
        decreases x@.len() - i,
    {
        if x[i] != y[i] {
            return false;
        }
        i += 1;
    }
    proof {
        assert(x@ =~= y@);
        vstd::utf8::encode_utf8_decode_utf8(a@);
        vstd::utf8::encode_utf8_decode_utf8(b@);
    }
    true
}

/// Whether two optional texts are the same.
pub fn same_opt(a: &Option<String>, b: &Option<String>) -> (r: bool)
    ensures
        r == (opt_view(*a) == opt_view(*b)),
{
    match (a, b) {
        (None, None) => true,
        (Some(x), Some(y)) => same(x.as_str(), y.as_str()),
        _ => false,
    }
}

/// An optional text as an optional sequence of characters.
pub open spec fn opt_view(o: Option<String>) -> Option<Seq<char>> {
    match o {
        Some(s) => Some(s@),
        None => None,
    }
}

/// An optional text by its characters.
pub open spec fn opt_chars(o: Option<&str>) -> Option<Seq<char>> {
    match o {
        Some(s) => Some(s@),
        None => None,
    }
}

/// An optional text, borrowed.
pub fn borrow_text(o: &Option<String>) -> (r: Option<&str>)
    ensures
        opt_chars(r) == opt_view(*o),
{
    match o {
        Some(s) => Some(s.as_str()),
        None => None,
    }
}

/// A vector of texts as a sequence of character sequences.
pub open spec fn views(v: Seq<String>) -> Seq<Seq<char>> {
    v.map_values(|s: String| s@)
}

/// Whether `list` holds `s`.
pub fn holds(list: &Vec<String>, s: &str) -> (r: bool)
    ensures
        r == views(list@).contains(s@),
{
    let mut i: usize = 0;
    while i < list.len()
        invariant
            i <= list@.len(),
            forall|k: int| 0 <= k < i ==> list@[k]@ != s@,
        decreases list@.len() - i,
    {
        if same(list[i].as_str(), s) {
            assert(views(list@)[i as int] == s@);
            return true;
        }
        i += 1;
    }
    assert(!views(list@).contains(s@)) by {
        if views(list@).contains(s@) {
            let k = choose|k: int| 0 <= k < views(list@).len() && views(list@)[k] == s@;
            assert(list@[k]@ == s@);
        }
    }
    false
}

/// Copies of the texts of `list`, in order.
pub fn copy_all(list: &Vec<String>) -> (r: Vec<String>)
    ensures
        r@ == list@,
{
    let mut out: Vec<String> = Vec::new();
    let mut i: usize = 0;
    while i < list.len()
        invariant
            i <= list@.len(),
            out@ == list@.take(i as int),
        decreases list@.len() - i,
    {
        out.push(list[i].clone());
        i += 1;
        assert(list@.take(i as int) =~= list@.take(i - 1).push(list@[i - 1]));
    }
    assert(list@.take(list@.len() as int) =~= list@);
    out
}

// ---------------------------------------------------------------------------
// Characters

/// Unicode `White_Space`.
pub open spec fn is_space(c: char) -> bool {
    let u = c as u32;
    ||| 0x09 <= u <= 0x0d
    ||| u == 0x20
    ||| u == 0x85
    ||| u == 0xa0
    ||| u == 0x1680
    ||| 0x2000 <= u <= 0x200a
    ||| u == 0x2028
    ||| u == 0x2029
    ||| u == 0x202f
    ||| u == 0x205f
    ||| u == 0x3000
}

/// Whether `c` has the Unicode property `White_Space`.
pub fn whitespace(c: char) -> (r: bool)
    ensures
        r == is_space(c),
{
    let u: u32 = c as u32;
    (0x09 <= u && u <= 0x0d) || u == 0x20 || u == 0x85 || u == 0xa0 || u == 0x1680 || (0x2000 <= u
        && u <= 0x200a) || u == 0x2028 || u == 0x2029 || u == 0x202f || u == 0x205f || u == 0x3000
}

/// The ASCII digits.
pub open spec fn is_digit(c: char) -> bool {
    '0' <= c <= '9'
}

/// The value of an ASCII digit.
pub open spec fn digit_value(c: char) -> nat {
    (c as u32 - '0' as u32) as nat
}

/// The ASCII digit of a value below ten.
pub open spec fn digit_char(d: nat) -> char {
    if d == 0 { '0' } else if d == 1 { '1' } else if d == 2 { '2' } else if d == 3 { '3' }
    else if d == 4 { '4' } else if d == 5 { '5' } else if d == 6 { '6' } else if d == 7 { '7' }
    else if d == 8 { '8' } else { '9' }
}

/// The ASCII letters.
pub open spec fn is_ascii_letter(c: char) -> bool {
    ('a' <= c <= 'z') || ('A' <= c <= 'Z')
}

/// ASCII letters and digits.
pub open spec fn is_ascii_alnum(c: char) -> bool {
    is_ascii_letter(c) || is_digit(c)
}

/// ASCII letters in lower case, every other character as it is.
pub open spec fn ascii_lower(c: char) -> char {
    if 'A' <= c <= 'Z' { ((c as u32 + 32) as u32) as char } else { c }
}

/// ASCII letters in lower case.
pub fn to_ascii_lower(c: char) -> (r: char)
    ensures
        r == ascii_lower(c),
{
    if 'A' <= c && c <= 'Z' {
        let b: u8 = c as u8;
        (b + 32) as char
    } else {
        c
    }
}

/// A text with its ASCII letters in lower case.
pub open spec fn ascii_lowered(s: Seq<char>) -> Seq<char> {
    s.map_values(|c: char| ascii_lower(c))
}

/// ASCII letters in upper case.
pub open spec fn ascii_upper(c: char) -> char {
    if 'a' <= c <= 'z' { ((c as u32 - 32) as u32) as char } else { c }
}

/// A text with its ASCII letters in upper case.
pub open spec fn ascii_uppered(s: Seq<char>) -> Seq<char> {
    s.map_values(|c: char| ascii_upper(c))
}

/// Raised or lowered first, a text has one form in lower case.
pub proof fn lemma_lowered_from_any_case(s: Seq<char>)
    ensures
        ascii_lowered(ascii_uppered(s)) == ascii_lowered(s),
        ascii_lowered(ascii_lowered(s)) == ascii_lowered(s),
        is_ascii_text(s) ==> is_ascii_text(ascii_uppered(s)) && is_ascii_text(ascii_lowered(s)),
{
    assert forall|k: int| 0 <= k < s.len() implies ascii_lower(ascii_upper(#[trigger] s[k]))
        == ascii_lower(s[k]) && ascii_lower(ascii_lower(s[k])) == ascii_lower(s[k]) by {}
    assert(ascii_lowered(ascii_uppered(s)) =~= ascii_lowered(s));
    assert(ascii_lowered(ascii_lowered(s)) =~= ascii_lowered(s));
}

/// A text with its ASCII letters in lower case.
pub fn ascii_lower_text(s: &str) -> (r: String)
    ensures
        r@ == ascii_lowered(s@),
{
    let v = chars_of(s);
    let mut out = String::new();
    let mut i: usize = 0;
    while i < v.len()
        invariant
            i <= v@.len(),
            v@ == s@,
            out@ == ascii_lowered(s@.take(i as int)),
        decreases v@.len() - i,
    {
        out.push(to_ascii_lower(v[i]));
        i += 1;
        assert(ascii_lowered(s@.take(i as int)) =~= ascii_lowered(s@.take(i - 1)).push(
            ascii_lower(s@[i - 1]),
        ));
    }
    assert(s@.take(s@.len() as int) =~= s@);
    out
}

// ---------------------------------------------------------------------------
// Searching and replacing

/// Whether `pat` occurs in `s` at position `i`.
pub open spec fn occurs_at(s: Seq<char>, pat: Seq<char>, i: int) -> bool {
    0 <= i && i + pat.len() <= s.len() && s.subrange(i, i + pat.len()) == pat
}

/// The first position at or after `from` where `pat` occurs in `s`.
pub open spec fn find_from(s: Seq<char>, pat: Seq<char>, from: int) -> Option<int>
    decreases s.len() - from + 1,
{
    if from < 0 || from + pat.len() > s.len() {
        None
    } else if occurs_at(s, pat, from) {
        Some(from)
    } else {
        find_from(s, pat, from + 1)
    }
}

/// `find_from` gives the first occurrence, if there is one.
pub proof fn lemma_find_from(s: Seq<char>, pat: Seq<char>, from: int)
    requires
        0 <= from,
    ensures
        match find_from(s, pat, from) {
            Some(i) => from <= i && occurs_at(s, pat, i) && (forall|k: int|
                from <= k < i ==> !occurs_at(s, pat, k)),
            None => forall|k: int| from <= k ==> !occurs_at(s, pat, k),
        },
    decreases s.len() - from + 1,
{
    if from + pat.len() <= s.len() && !occurs_at(s, pat, from) {
        lemma_find_from(s, pat, from + 1);
    }
}

/// Whether `pat` occurs in `v` at position `i`.
pub fn occurs_here(v: &Vec<char>, pat: &Vec<char>, i: usize) -> (r: bool)
    requires
        i <= v@.len(),
    ensures
        r == occurs_at(v@, pat@, i as int),
{
    let n: usize = v.len();
    if pat.len() > n - i {
        return false;
    }
    let mut k: usize = 0;
    while k < pat.len()
        invariant
            k <= pat@.len(),
            i + pat@.len() <= n,
            n == v@.len(),
            forall|m: int| 0 <= m < k ==> v@[i + m] == pat@[m],
        decreases pat@.len() - k,
    {
        if v[i + k] != pat[k] {
            assert(v@.subrange(i as int, i + pat@.len())[k as int] == v@[i + k]);
            return false;
        }
        k += 1;
    }
    assert(v@.subrange(i as int, i + pat@.len()) =~= pat@);
    true
}

/// The first position at or after `from` where `pat` occurs in `v`.
pub fn find_chars(v: &Vec<char>, pat: &Vec<char>, from: usize) -> (r: Option<usize>)
    requires
        from <= v@.len(),
    ensures
        match r {
            Some(i) => find_from(v@, pat@, from as int) == Some(i as int) && i + pat@.len()
                <= v@.len() && from <= i,
            None => find_from(v@, pat@, from as int) is None,
        },
{
    let mut i: usize = from;
    while i < v.len() && pat.len() <= v.len() - i
        invariant
            from <= i <= v@.len(),
            find_from(v@, pat@, from as int) == find_from(v@, pat@, i as int),
        decreases v@.len() - i,
    {
        if occurs_here(v, pat, i) {
            return Some(i);
        }
        i += 1;
    }
    if i == v.len() && pat.len() == 0 {
        assert(v@.subrange(i as int, i as int) =~= pat@);
        return Some(i);
    }
    None
}

/// Whether `pat` occurs somewhere in `s`.
pub open spec fn has_text(s: Seq<char>, pat: Seq<char>) -> bool {
    exists|i: int| occurs_at(s, pat, i)
}

/// Whether `pat` occurs somewhere in `s`.
pub fn contains_text(s: &str, pat: &str) -> (r: bool)
    ensures
        r == has_text(s@, pat@),
{
    let v = chars_of(s);
    let p = chars_of(pat);
    proof {
        lemma_find_from(v@, p@, 0);
    }
    match find_chars(&v, &p, 0) {
        Some(i) => {
            assert(occurs_at(s@, pat@, i as int));
            true
        },
        None => {
            assert(!has_text(s@, pat@)) by {
                if has_text(s@, pat@) {
                    let i = choose|i: int| occurs_at(s@, pat@, i);
                    assert(0 <= i);
                }
            }
            false
        },
    }
}

/// Whether `s` begins with `pat`.
pub open spec fn begins(s: Seq<char>, pat: Seq<char>) -> bool {
    pat.len() <= s.len() && s.take(pat.len() as int) == pat
}

/// Whether `s` begins with `pat`.
pub fn begins_with(s: &str, pat: &str) -> (r: bool)
    ensures
        r == begins(s@, pat@),
{
    let v = chars_of(s);
    let p = chars_of(pat);
    assert(occurs_at(s@, pat@, 0) == begins(s@, pat@));
    occurs_here(&v, &p, 0)
}

/// `s` from position `i` on, with every occurrence of `pat`, taken from the
/// left and without overlap, replaced by `val`.
pub open spec fn replace_from(s: Seq<char>, pat: Seq<char>, val: Seq<char>, i: int) -> Seq<char>
    decreases s.len() - i,
{
    if pat.len() == 0 || i < 0 || i >= s.len() {
        s.skip(i)
    } else if occurs_at(s, pat, i) {
        val + replace_from(s, pat, val, i + pat.len())
    } else {
        seq![s[i]] + replace_from(s, pat, val, i + 1)
    }
}

/// `s` with every occurrence of `pat` replaced by `val`.
pub open spec fn replaced(s: Seq<char>, pat: Seq<char>, val: Seq<char>) -> Seq<char> {
    replace_from(s, pat, val, 0)
}

/// `s` with every occurrence of `pat` replaced by `val`.
pub fn replace_text(s: &str, pat: &str, val: &str) -> (r: String)
    requires
        pat@.len() > 0,
    ensures
        r@ == replaced(s@, pat@, val@),
{
    let v = chars_of(s);
    let p = chars_of(pat);
    let mut out = String::new();
    let mut i: usize = 0;
    assert(out@ + replace_from(s@, pat@, val@, 0) =~= replaced(s@, pat@, val@));
    while i < v.len()
        invariant
            i <= v@.len(),
            v@ == s@,
            p@ == pat@,
            p@.len() > 0,
            out@ + replace_from(s@, pat@, val@, i as int) == replaced(s@, pat@, val@),
        decreases v@.len() - i,
    {
        let ghost before = out@;
        if occurs_here(&v, &p, i) {
            out.append(val);
            assert((before + val@) + replace_from(s@, pat@, val@, i + pat@.len()) =~= before + (val@
                + replace_from(s@, pat@, val@, i + pat@.len())));
            i += p.len();
        } else {
            out.push(v[i]);
            assert(before.push(s@[i as int]) + replace_from(s@, pat@, val@, i + 1) =~= before + (
            seq![s@[i as int]] + replace_from(s@, pat@, val@, i + 1)));
            i += 1;
        }
    }
    assert(s@.skip(i as int) =~= Seq::<char>::empty());
    assert(out@ + Seq::<char>::empty() =~= out@);
    out
}

// ---------------------------------------------------------------------------
// Trimming

/// `s` without its longest prefix of characters that `p` holds of.
pub open spec fn trim_front(s: Seq<char>, p: spec_fn(char) -> bool) -> Seq<char>
    decreases s.len(),
{
    if s.len() > 0 && p(s[0]) {
        trim_front(s.skip(1), p)
    } else {
        s
    }
}

/// `s` without its longest suffix of characters that `p` holds of.
pub open spec fn trim_back(s: Seq<char>, p: spec_fn(char) -> bool) -> Seq<char>
    decreases s.len(),
{
    if s.len() > 0 && p(s.last()) {
        trim_back(s.drop_last(), p)
    } else {
        s
    }
}

/// `s` without whitespace at both ends.
pub open spec fn trimmed(s: Seq<char>) -> Seq<char> {
    trim_back(trim_front(s, |c: char| is_space(c)), |c: char| is_space(c))
}

/// `s` without whitespace at both ends.
pub fn trim(s: &str) -> (r: String)
    ensures
        r@ == trimmed(s@),
{
    let v = chars_of(s);
    let ghost p = |c: char| is_space(c);
    let mut a: usize = 0;
    assert(s@.skip(0) =~= s@);
    while a < v.len() && whitespace(v[a])
        invariant
            a <= v@.len(),
            v@ == s@,
            p == (|c: char| is_space(c)),
            trim_front(s@, p) == trim_front(s@.skip(a as int), p),
        decreases v@.len() - a,
    {
        assert(s@.skip(a as int).skip(1) =~= s@.skip(a + 1));
        a += 1;
    }
    let ghost front = s@.skip(a as int);
    let mut b: usize = v.len();
    assert(front =~= s@.subrange(a as int, b as int));
    while a < b && whitespace(v[b - 1])
        invariant
            a <= b <= v@.len(),
            v@ == s@,
            p == (|c: char| is_space(c)),
            trim_back(front, p) == trim_back(s@.subrange(a as int, b as int), p),
        decreases b,
    {
        assert(s@.subrange(a as int, b as int).drop_last() =~= s@.subrange(a as int, b - 1));
        b -= 1;
    }
    text_of(&v, a, b)
}

// ---------------------------------------------------------------------------
// Splitting and joining

/// The parts of `s` between the occurrences of `sep`.
pub open spec fn pieces(s: Seq<char>, sep: char) -> Seq<Seq<char>>
    decreases s.len(),
{
    if s.len() == 0 {
        seq![Seq::empty()]
    } else {
        let prev = pieces(s.drop_last(), sep);
        if s.last() == sep {
            prev.push(Seq::empty())
        } else {
            prev.drop_last().push(prev.last().push(s.last()))
        }
    }
}

/// The parts of `s` between the occurrences of `sep`.
pub fn split_on(s: &str, sep: char) -> (r: Vec<String>)
    ensures
        views(r@) == pieces(s@, sep),
{
    let v = chars_of(s);
    let mut out: Vec<String> = Vec::new();
    let mut part = String::new();
    let mut i: usize = 0;
    assert(views(out@).push(part@) =~= pieces(s@.take(0), sep));
    while i < v.len()
        invariant
            i <= v@.len(),
            v@ == s@,
            views(out@).push(part@) == pieces(s@.take(i as int), sep),
        decreases v@.len() - i,
    {
        let ghost prev = pieces(s@.take(i as int), sep);
        let ghost before = out@;
        let ghost old_part = part@;
        assert(s@.take(i + 1).drop_last() =~= s@.take(i as int));
        assert(prev.drop_last() =~= views(before));
        assert(prev.last() == old_part);
        if v[i] == sep {
            out.push(part);
            part = String::new();
            assert(views(out@) =~= views(before).push(old_part));
            assert(part@ =~= Seq::<char>::empty());
        } else {
            part.push(v[i]);
        }
        i += 1;
    }
    assert(s@.take(s@.len() as int) =~= s@);
    let ghost before = out@;
    let ghost last = part@;
    out.push(part);
    assert(views(out@) =~= views(before).push(last));
    out
}

/// The texts of `list`, with `sep` between each two.
pub open spec fn joined_texts(list: Seq<Seq<char>>, sep: Seq<char>) -> Seq<char>
    decreases list.len(),
{
    if list.len() == 0 {
        Seq::empty()
    } else if list.len() == 1 {
        list[0]
    } else {
        joined_texts(list.drop_last(), sep) + sep + list.last()
    }
}

/// The texts of `list`, with `sep` between each two.
pub fn join_texts(list: &Vec<String>, sep: &str) -> (r: String)
    ensures
        r@ == joined_texts(views(list@), sep@),
{
    let mut out = String::new();
    let ghost vs = views(list@);
    let n: usize = list.len();
    let mut i: usize = 0;
    while i < n
        invariant
            i <= n,
            n == list@.len(),
            vs == views(list@),
            out@ == joined_texts(vs.take(i as int), sep@),
        decreases n - i,
    {
        assert(vs.take(i + 1).drop_last() =~= vs.take(i as int));
        assert(vs.take(i + 1).last() == list@[i as int]@);
        if i > 0 {
            out.append(sep);
        }
        out.append(list[i].as_str());
        assert(i == 0 ==> out@ =~= list@[0]@);
        i += 1;
    }
    assert(vs.take(n as int) =~= vs);
    out
}

// ---------------------------------------------------------------------------
// Numbers

/// A number in decimal, without leading zeros.
pub open spec fn decimal(n: nat) -> Seq<char>
    decreases n,
{
    if n < 10 {
        seq![digit_char(n)]
    } else {
        decimal(n / 10).push(digit_char(n % 10))
    }
}

/// The digit of a value below ten.
pub fn digit(d: u64) -> (c: char)
    requires
        d < 10,
    ensures
        c == digit_char(d as nat),
{
    match d {
        0 => '0',
        1 => '1',
        2 => '2',
        3 => '3',
        4 => '4',
        5 => '5',
        6 => '6',
        7 => '7',
        8 => '8',
        _ => '9',
    }
}

/// A number in decimal.
pub fn number_text(n: u64) -> (r: String)
    ensures
        r@ == decimal(n as nat),
    decreases n,
{
    if n < 10 {
        let mut out = String::new();
        out.push(digit(n));
        assert(out@ =~= seq![digit_char(n as nat)]);
        out
    } else {
        let mut out = number_text(n / 10);
        out.push(digit(n % 10));
        out
    }
}

/// An integer in decimal, with a minus sign where it is negative.
pub open spec fn signed_decimal(n: int) -> Seq<char> {
    if n < 0 { seq!['-'] + decimal((-n) as nat) } else { decimal(n as nat) }
}

/// An integer in decimal.
pub fn signed_text(n: i64) -> (r: String)
    ensures
        r@ == signed_decimal(n as int),
{
    if n < 0 {
        let m: u64 = if n == i64::MIN { 0x8000_0000_0000_0000 } else { (-n) as u64 };
        let mut out = String::new();
        out.push('-');
        let digits = number_text(m);
        out.append(digits.as_str());
        assert(out@ =~= seq!['-'] + decimal((-n) as nat));
        out
    } else {
        number_text(n as u64)
    }
}

/// The number that a sequence of digits writes.
pub open spec fn digits_value(s: Seq<char>) -> nat
    decreases s.len(),
{
    if s.len() == 0 {
        0
    } else {
        digits_value(s.drop_last()) * 10 + digit_value(s.last())
    }
}

/// Whether `s` is one or more digits.
pub open spec fn all_digits(s: Seq<char>) -> bool {
    s.len() > 0 && forall|i: int| 0 <= i < s.len() ==> is_digit(#[trigger] s[i])
}

/// The digits of a number's text: what follows one plus sign, if there is one.
pub open spec fn unsigned_body(s: Seq<char>) -> Seq<char> {
    if s.len() > 0 && s[0] == '+' { s.skip(1) } else { s }
}

/// The unsigned number below or at `max` that `s` writes: digits, after at
/// most one plus sign.
pub open spec fn parsed(s: Seq<char>, max: nat) -> Option<nat> {
    let body = unsigned_body(s);
    if all_digits(body) && digits_value(body) <= max { Some(digits_value(body)) } else { None }
}

proof fn lemma_digits_value_grows(s: Seq<char>, k: int)
    requires
        0 <= k <= s.len(),
        forall|i: int| 0 <= i < s.len() ==> is_digit(#[trigger] s[i]),
    ensures
        digits_value(s.take(k)) <= digits_value(s),
    decreases s.len() - k,
{
    if k < s.len() {
        lemma_digits_value_grows(s, k + 1);
        assert(s.take(k + 1).drop_last() =~= s.take(k));
    } else {
        assert(s.take(k) =~= s);
    }
}

/// The value of the digits `v[from..]`, where it is at most `max`.
fn parse_digits(v: &Vec<char>, from: usize, max: u64) -> (r: Option<u64>)
    requires
        from <= v@.len(),
    ensures
        match r {
            Some(n) => all_digits(v@.skip(from as int)) && digits_value(v@.skip(from as int)) == n
                && n <= max,
            None => !all_digits(v@.skip(from as int)) || digits_value(v@.skip(from as int)) > max,
        },
{
    if from == v.len() {
        return None;
    }
    let ghost body = v@.skip(from as int);
    let mut n: u64 = 0;
    let mut over = false;
    let mut i: usize = from;
    assert(body.take(0) =~= Seq::<char>::empty());
    while i < v.len()
        invariant
            from <= i <= v@.len(),
            body == v@.skip(from as int),
            forall|k: int| 0 <= k < i - from ==> is_digit(#[trigger] body[k]),
            over ==> digits_value(body.take(i - from)) > max,
            !over ==> digits_value(body.take(i - from)) == n && n <= max,
        decreases v@.len() - i,
    {
        let c = v[i];
        assert(body[i - from] == c);
        if !('0' <= c && c <= '9') {
            assert(!is_digit(body[i - from]));
            return None;
        }
        let d: u64 = (c as u32 - '0' as u32) as u64;
        proof {
            assert(body.take(i - from + 1).drop_last() =~= body.take(i - from));
            assert(body.take(i - from + 1).last() == c);
        }
        if !over {
            if n > (u64::MAX - d) / 10 || n * 10 + d > max {
                over = true;
            } else {
                n = n * 10 + d;
            }
        }
        i += 1;
    }
    assert(body.take(body.len() as int) =~= body);
    if over {
        None
    } else {
        Some(n)
    }
}

/// Reads an unsigned number of at most `max`.
pub fn parse_unsigned(s: &str, max: u64) -> (r: Option<u64>)
    ensures
        match r {
            Some(n) => parsed(s@, max as nat) == Some(n as nat),
            None => parsed(s@, max as nat) is None,
        },
{
    let v = chars_of(s);
    if v.len() > 0 && v[0] == '+' {
        parse_digits(&v, 1, max)
    } else {
        assert(s@.skip(0) =~= s@);
        parse_digits(&v, 0, max)
    }
}

// ---------------------------------------------------------------------------
// Order

/// -1, 0 or 1 as `a` is below, equal to or above `b`.
pub open spec fn num_order(a: int, b: int) -> int {
    if a < b { -1 } else if a > b { 1 } else { 0 }
}

/// -1, 0 or 1 as `a` comes before, equals or comes after `b`, character by
/// character by code point. This is also the order of their UTF-8 bytes.
pub open spec fn text_order(a: Seq<char>, b: Seq<char>) -> int
    decreases a.len(),
{
    if a.len() == 0 {
        if b.len() == 0 { 0 } else { -1 }
    } else if b.len() == 0 {
        1
    } else if a[0] != b[0] {
        num_order(a[0] as int, b[0] as int)
    } else {
        text_order(a.skip(1), b.skip(1))
    }
}

/// The first order, or the second where the first leaves a tie.
pub open spec fn lex(first: int, second: int) -> int {
    if first == 0 { second } else { first }
}

pub proof fn lemma_text_order_flip(a: Seq<char>, b: Seq<char>)
    ensures
        text_order(a, b) == -text_order(b, a),
        text_order(a, b) == 0 <==> a == b,
        -1 <= text_order(a, b) <= 1,
    decreases a.len(),
{
    if a.len() > 0 && b.len() > 0 && a[0] == b[0] {
        lemma_text_order_flip(a.skip(1), b.skip(1));
        if a.skip(1) == b.skip(1) {
            assert(a =~= seq![a[0]] + a.skip(1));
            assert(b =~= seq![b[0]] + b.skip(1));
        }
    } else if a.len() == 0 && b.len() == 0 {
        assert(a =~= b);
    }
}

pub proof fn lemma_text_order_transitive(a: Seq<char>, b: Seq<char>, c: Seq<char>)
    requires
        text_order(a, b) <= 0,
        text_order(b, c) <= 0,
    ensures
        text_order(a, c) <= 0,
        (text_order(a, b) < 0 || text_order(b, c) < 0) ==> text_order(a, c) < 0,
    decreases a.len(),
{
    if a.len() > 0 && b.len() > 0 && c.len() > 0 && a[0] == b[0] && b[0] == c[0] {
        lemma_text_order_transitive(a.skip(1), b.skip(1), c.skip(1));
    }
}

/// The order of two texts.
pub fn text_rank(a: &str, b: &str) -> (r: i8)
    ensures
        r == text_order(a@, b@),
{
    let x = chars_of(a);
    let y = chars_of(b);
    let mut i: usize = 0;
    assert(a@.skip(0) =~= a@);
    assert(b@.skip(0) =~= b@);
    while i < x.len() && i < y.len()
        invariant
            i <= x@.len(),
            i <= y@.len(),
            x@ == a@,
            y@ == b@,
            text_order(a@, b@) == text_order(a@.skip(i as int), b@.skip(i as int)),
        decreases x@.len() - i,
    {
        assert(a@.skip(i as int)[0] == x@[i as int]);
        assert(b@.skip(i as int)[0] == y@[i as int]);
        if x[i] < y[i] {
            return -1;
        }
        if x[i] > y[i] {
            return 1;
        }
        assert(a@.skip(i as int).skip(1) =~= a@.skip(i + 1));
        assert(b@.skip(i as int).skip(1) =~= b@.skip(i + 1));
        i += 1;
    }
    if i < x.len() {
        1
    } else if i < y.len() {
        -1
    } else {
        0
    }
}

// ---------------------------------------------------------------------------
// Laws of numbers

/// A number in decimal reads back as itself. It is made of digits alone, and
/// has no zero in front unless it is zero, so no shorter text writes it.
pub proof fn law_decimals_read_back(n: nat)
    ensures
        decimal(n).len() > 0,
        forall|i: int| 0 <= i < decimal(n).len() ==> '0' <= #[trigger] decimal(n)[i] <= '9',
        digits_value(decimal(n)) == n,
        decimal(n)[0] == '0' ==> n == 0 && decimal(n).len() == 1,
    decreases n,
{
    if n >= 10 {
        law_decimals_read_back(n / 10);
        let d = decimal(n);
        assert(d.drop_last() =~= decimal(n / 10));
        assert(digit_value(digit_char(n % 10)) == n % 10);
        assert(d[0] == decimal(n / 10)[0]);
        assert forall|i: int| 0 <= i < d.len() implies '0' <= #[trigger] d[i] <= '9' by {
            if i < decimal(n / 10).len() {
                assert(d[i] == decimal(n / 10)[i]);
            }
        }
    } else {
        let d = decimal(n);
        assert(d.drop_last() =~= Seq::<char>::empty());
        assert(digits_value(d.drop_last()) == 0);
        assert(digit_value(digit_char(n)) == n);
    }
}

/// Zeros in front of digits do not change their number.
pub proof fn lemma_leading_zeros(k: nat, s: Seq<char>)
    ensures
        digits_value(Seq::new(k, |i: int| '0') + s) == digits_value(s),
    decreases s.len(), k,
{
    let z = Seq::new(k, |i: int| '0');
    if s.len() > 0 {
        lemma_leading_zeros(k, s.drop_last());
        assert((z + s).drop_last() =~= z + s.drop_last());
        assert((z + s).last() == s.last());
    } else if k > 0 {
        lemma_leading_zeros((k - 1) as nat, s);
        assert(z + s =~= z);
        assert(z.drop_last() =~= Seq::new((k - 1) as nat, |i: int| '0') + s);
        assert(digit_value('0') == 0);
    } else {
        assert(z + s =~= s);
    }
}

// ---------------------------------------------------------------------------
// Laws of order

/// Texts sort by the first character in which they differ; a text sorts before
/// one that it begins.
pub proof fn law_the_first_difference_decides(a: Seq<char>, b: Seq<char>, k: int)
    requires
        0 <= k <= a.len(),
        k <= b.len(),
        a.take(k) == b.take(k),
    ensures
        k == a.len() && k < b.len() ==> text_order(a, b) < 0 && text_order(b, a) > 0,
        k < a.len() && k < b.len() && a[k] < b[k] ==> text_order(a, b) < 0 && text_order(b, a) > 0,
    decreases k,
{
    if k > 0 {
        assert(a[0] == a.take(k)[0] && b[0] == b.take(k)[0]);
        assert(a.skip(1).take(k - 1) =~= a.take(k).skip(1));
        assert(b.skip(1).take(k - 1) =~= b.take(k).skip(1));
        law_the_first_difference_decides(a.skip(1), b.skip(1), k - 1);
    }
}

// ---------------------------------------------------------------------------
// Laws of lines and replacing

/// The position of the first line break at or after `i`, or the end.
pub open spec fn break_from(s: Seq<char>, i: int) -> int
    decreases s.len() - i,
{
    if i < 0 || i >= s.len() || s[i] == '\n' { i } else { break_from(s, i + 1) }
}

/// The lines of a text, each without its line break.
pub open spec fn lines_of(s: Seq<char>) -> Seq<Seq<char>>
    decreases s.len(),
{
    if s.len() == 0 {
        Seq::empty()
    } else {
        let e = break_from(s, 0);
        proof {
            lemma_break_from(s, 0);
        }
        seq![s.take(e)] + lines_of(s.skip(if e < s.len() { e + 1 } else { e }))
    }
}

/// Where a line ends.
pub proof fn lemma_break_from(s: Seq<char>, i: int)
    requires
        0 <= i <= s.len(),
    ensures
        i <= break_from(s, i) <= s.len(),
        forall|k: int| i <= k < break_from(s, i) ==> #[trigger] s[k] != '\n',
        break_from(s, i) < s.len() ==> s[break_from(s, i)] == '\n',
    decreases s.len() - i,
{
    if i < s.len() && s[i] != '\n' {
        lemma_break_from(s, i + 1);
    }
}

proof fn lemma_break_is(s: Seq<char>, i: int, e: int)
    requires
        0 <= i <= e < s.len(),
        s[e] == '\n',
        forall|k: int| i <= k < e ==> #[trigger] s[k] != '\n',
    ensures
        break_from(s, i) == e,
    decreases e - i,
{
    if i < e {
        assert(s[i] != '\n');
        lemma_break_is(s, i + 1, e);
    }
}

/// A line in front of a text is its first line.
pub proof fn lemma_first_line(line: Seq<char>, rest: Seq<char>)
    requires
        !line.contains('\n'),
    ensures
        lines_of(line + seq!['\n'] + rest) == seq![line] + lines_of(rest),
{
    let s = line + seq!['\n'] + rest;
    let e = line.len() as int;
    assert(s[e] == '\n');
    assert forall|k: int| 0 <= k < e implies #[trigger] s[k] != '\n' by {
        assert(line.contains(line[k]));
        assert(s[k] == line[k]);
    }
    lemma_break_is(s, 0, e);
    assert(s.take(e) =~= line);
    assert(s.skip(e + 1) =~= rest);
}

/// What follows whole lines has its own lines.
pub proof fn lemma_lines_add(a: Seq<char>, b: Seq<char>)
    requires
        a.len() == 0 || a.last() == '\n',
    ensures
        lines_of(a + b) == lines_of(a) + lines_of(b),
    decreases a.len(),
{
    if a.len() == 0 {
        assert(a + b =~= b);
        assert(lines_of(a) + lines_of(b) =~= lines_of(b));
    } else {
        lemma_break_from(a, 0);
        let e = break_from(a, 0);
        assert(e < a.len()) by {
            if e == a.len() {
                assert(a[a.len() - 1] != '\n');
            }
        }
        let line = a.take(e);
        let rest = a.skip(e + 1);
        assert(!line.contains('\n')) by {
            if line.contains('\n') {
                let k = line.index_of('\n');
                assert(a[k] == '\n');
            }
        }
        assert(a =~= line + seq!['\n'] + rest);
        assert(a + b =~= line + seq!['\n'] + (rest + b));
        if rest.len() > 0 {
            assert(rest.last() == a.last());
        }
        lemma_lines_add(rest, b);
        lemma_first_line(line, rest);
        lemma_first_line(line, rest + b);
        assert(seq![line] + (lines_of(rest) + lines_of(b)) =~= seq![line] + lines_of(rest)
            + lines_of(b));
    }
}

/// What is in front of the first character of a pattern is copied.
pub proof fn lemma_copy_until(s: Seq<char>, pat: Seq<char>, val: Seq<char>, i: int, e: int)
    requires
        pat.len() > 0,
        0 <= i <= e <= s.len(),
        forall|k: int| i <= k < e ==> #[trigger] s[k] != pat[0],
    ensures
        replace_from(s, pat, val, i) == s.subrange(i, e) + replace_from(s, pat, val, e),
    decreases e - i,
{
    if i < e {
        lemma_copy_until(s, pat, val, i + 1, e);
        assert(s[i] != pat[0]);
        if occurs_at(s, pat, i) {
            assert(s.subrange(i, i + pat.len())[0] == pat[0]);
        }
        assert(seq![s[i]] + (s.subrange(i + 1, e) + replace_from(s, pat, val, e)) =~= s.subrange(i, e)
            + replace_from(s, pat, val, e));
    } else {
        assert(s.subrange(i, e) + replace_from(s, pat, val, e) =~= replace_from(s, pat, val, e));
    }
}

/// A text that does not hold the first character of what is replaced stays.
pub proof fn law_nothing_to_replace_changes_nothing(s: Seq<char>, pat: Seq<char>, val: Seq<char>)
    requires
        pat.len() > 0,
        !s.contains(pat[0]),
    ensures
        replaced(s, pat, val) == s,
{
    assert forall|k: int| 0 <= k < s.len() implies #[trigger] s[k] != pat[0] by {
        assert(s.contains(s[k]));
    }
    lemma_copy_until(s, pat, val, 0, s.len() as int);
    assert(s.subrange(0, s.len() as int) + s.skip(s.len() as int) =~= s);
}

/// One occurrence in plain surroundings gives way to the value, and the
/// surroundings stay.
pub proof fn law_an_occurrence_is_replaced(
    a: Seq<char>,
    pat: Seq<char>,
    b: Seq<char>,
    val: Seq<char>,
)
    requires
        pat.len() > 0,
        !a.contains(pat[0]),
        !b.contains(pat[0]),
    ensures
        replaced(a + pat + b, pat, val) == a + val + b,
{
    let s = a + pat + b;
    let n = a.len() as int;
    let m = (a.len() + pat.len()) as int;
    assert forall|k: int| 0 <= k < n implies #[trigger] s[k] != pat[0] by {
        assert(a.contains(a[k]));
        assert(s[k] == a[k]);
    }
    assert forall|k: int| m <= k < s.len() implies #[trigger] s[k] != pat[0] by {
        assert(b.contains(b[k - m]));
        assert(s[k] == b[k - m]);
    }
    lemma_copy_until(s, pat, val, 0, n);
    assert(s.subrange(n, n + pat.len()) =~= pat);
    lemma_copy_until(s, pat, val, m, s.len() as int);
    assert(s.subrange(0, n) =~= a);
    assert(s.subrange(m, s.len() as int) + s.skip(s.len() as int) =~= b);
    assert(a + (val + b) =~= a + val + b);
}

proof fn lemma_replace_shift(a: Seq<char>, b: Seq<char>, pat: Seq<char>, val: Seq<char>, j: int)
    requires
        pat.len() > 0,
        0 <= j <= b.len(),
    ensures
        replace_from(a + b, pat, val, a.len() + j) == replace_from(b, pat, val, j),
    decreases b.len() - j,
{
    let s = a + b;
    let n = a.len();
    if j < b.len() {
        assert(occurs_at(s, pat, n + j) == occurs_at(b, pat, j)) by {
            if j + pat.len() <= b.len() {
                assert(s.subrange(n + j, n + j + pat.len()) =~= b.subrange(j, j + pat.len()));
            }
        }
        if occurs_at(b, pat, j) {
            lemma_replace_shift(a, b, pat, val, j + pat.len());
        } else {
            lemma_replace_shift(a, b, pat, val, j + 1);
        }
    } else {
        assert(s.skip(n + j) =~= b.skip(j));
    }
}

/// Replacing goes through a text piece by piece: in front of a piece that
/// holds no end of what is replaced that began before it.
pub proof fn lemma_replace_pieces(
    a: Seq<char>,
    b: Seq<char>,
    pat: Seq<char>,
    val: Seq<char>,
    i: int,
)
    requires
        pat.len() > 0,
        0 <= i <= a.len(),
        forall|k: int|
            #![trigger occurs_at(a + b, pat, k)]
            i <= k < a.len() && occurs_at(a + b, pat, k) ==> k + pat.len() <= a.len(),
    ensures
        replace_from(a + b, pat, val, i) == replace_from(a, pat, val, i) + replaced(b, pat, val),
    decreases a.len() - i,
{
    let s = a + b;
    if i == a.len() {
        lemma_replace_shift(a, b, pat, val, 0);
        assert(a.skip(i) + replaced(b, pat, val) =~= replaced(b, pat, val));
    } else {
        assert(occurs_at(s, pat, i) == occurs_at(a, pat, i)) by {
            if i + pat.len() <= a.len() {
                assert(s.subrange(i, i + pat.len()) =~= a.subrange(i, i + pat.len()));
            }
        }
        if occurs_at(a, pat, i) {
            lemma_replace_pieces(a, b, pat, val, i + pat.len());
            assert(val + (replace_from(a, pat, val, i + pat.len()) + replaced(b, pat, val)) =~= val
                + replace_from(a, pat, val, i + pat.len()) + replaced(b, pat, val));
        } else {
            lemma_replace_pieces(a, b, pat, val, i + 1);
            assert(seq![s[i]] + (replace_from(a, pat, val, i + 1) + replaced(b, pat, val)) =~= seq![
                a[i],
            ] + replace_from(a, pat, val, i + 1) + replaced(b, pat, val));
        }
    }
}

/// Joined texts stand in order, with the separator between any two.
pub proof fn law_joined_texts_stand_in_order(v: Seq<Seq<char>>, w: Seq<Seq<char>>, sep: Seq<char>)
    requires
        v.len() > 0,
        w.len() > 0,
    ensures
        joined_texts(seq![v[0]], sep) == v[0],
        joined_texts(v + w, sep) == joined_texts(v, sep) + sep + joined_texts(w, sep),
    decreases w.len(),
{
    assert(seq![v[0]].drop_last() =~= Seq::<Seq<char>>::empty());
    assert((v + w).drop_last() =~= v + w.drop_last());
    assert((v + w).last() == w.last());
    if w.len() > 1 {
        law_joined_texts_stand_in_order(v, w.drop_last(), sep);
        assert(joined_texts(v, sep) + sep + joined_texts(w.drop_last(), sep) + sep + w.last()
            =~= joined_texts(v, sep) + sep + (joined_texts(w.drop_last(), sep) + sep + w.last()));
    } else {
        assert(v + w.drop_last() =~= v);
    }
}


/// Trimming takes whitespace from both ends and nothing else.
pub proof fn law_trimming_takes_the_space_around(a: Seq<char>, s: Seq<char>, b: Seq<char>)
    requires
        forall|i: int| 0 <= i < a.len() ==> is_space(#[trigger] a[i]),
        forall|i: int| 0 <= i < b.len() ==> is_space(#[trigger] b[i]),
        s.len() > 0 ==> !is_space(s[0]) && !is_space(s.last()),
    ensures
        trimmed(a + s + b) == s,
    decreases a.len() + b.len(),
{
    let p = |c: char| is_space(c);
    let whole = a + s + b;
    if a.len() > 0 {
        let rest = a.skip(1);
        assert forall|i: int| 0 <= i < rest.len() implies is_space(#[trigger] rest[i]) by {
            assert(rest[i] == a[i + 1]);
        }
        law_trimming_takes_the_space_around(rest, s, b);
        assert(whole[0] == a[0] && is_space(a[0]));
        assert(whole.skip(1) =~= rest + s + b);
        assert(trim_front(whole, p) == trim_front(whole.skip(1), p));
    } else if s.len() > 0 {
        assert(whole =~= s + b);
        assert((s + b)[0] == s[0]);
        lemma_trim_back_space(s, b);
    } else {
        assert(whole =~= b);
        lemma_all_space(b);
        assert(trim_back(Seq::<char>::empty(), p) =~= Seq::<char>::empty());
        assert(s =~= Seq::<char>::empty());
    }
}

proof fn lemma_trim_back_space(s: Seq<char>, b: Seq<char>)
    requires
        forall|i: int| 0 <= i < b.len() ==> is_space(#[trigger] b[i]),
        s.len() > 0,
        !is_space(s.last()),
    ensures
        trim_back(s + b, |c: char| is_space(c)) == s,
    decreases b.len(),
{
    if b.len() == 0 {
        assert(s + b =~= s);
    } else {
        assert(b[b.len() - 1] == b.last());
        assert((s + b).last() == b.last());
        assert((s + b).drop_last() =~= s + b.drop_last());
        lemma_trim_back_space(s, b.drop_last());
    }
}

proof fn lemma_all_space(b: Seq<char>)
    requires
        forall|i: int| 0 <= i < b.len() ==> is_space(#[trigger] b[i]),
    ensures
        trim_front(b, |c: char| is_space(c)) == Seq::<char>::empty(),
    decreases b.len(),
{
    if b.len() > 0 {
        let rest = b.skip(1);
        assert(is_space(b[0]));
        assert forall|i: int| 0 <= i < rest.len() implies is_space(#[trigger] rest[i]) by {
            assert(rest[i] == b[i + 1]);
        }
        lemma_all_space(rest);
    } else {
        assert(b =~= Seq::<char>::empty());
    }
}


/// What is in front of the first occurrence of a pattern is copied.
proof fn lemma_copy_free(s: Seq<char>, pat: Seq<char>, val: Seq<char>, i: int, e: int)
    requires
        pat.len() > 0,
        0 <= i <= e <= s.len(),
        forall|k: int| i <= k < e ==> !#[trigger] occurs_at(s, pat, k),
    ensures
        replace_from(s, pat, val, i) == s.subrange(i, e) + replace_from(s, pat, val, e),
    decreases e - i,
{
    if i < e {
        lemma_copy_free(s, pat, val, i + 1, e);
        assert(!occurs_at(s, pat, i));
        assert(seq![s[i]] + (s.subrange(i + 1, e) + replace_from(s, pat, val, e)) =~= s.subrange(i, e)
            + replace_from(s, pat, val, e));
    } else {
        assert(s.subrange(i, e) + replace_from(s, pat, val, e) =~= replace_from(s, pat, val, e));
    }
}

/// A pattern with a character that the surroundings do not hold is replaced
/// where it stands and nowhere else.
pub proof fn law_a_marked_occurrence_is_replaced(
    a: Seq<char>,
    pat: Seq<char>,
    b: Seq<char>,
    val: Seq<char>,
    d: int,
)
    requires
        0 <= d < pat.len(),
        forall|k: int| 0 <= k < pat.len() && k != d ==> #[trigger] pat[k] != pat[d],
        !a.contains(pat[d]),
        !b.contains(pat[d]),
    ensures
        replaced(a + pat + b, pat, val) == a + val + b,
        replaced(a, pat, val) == a,
{
    let s = a + pat + b;
    let n = a.len() as int;
    let m = (a.len() + pat.len()) as int;
    assert forall|k: int| 0 <= k < s.len() && k != n implies !#[trigger] occurs_at(s, pat, k) by {
        if occurs_at(s, pat, k) {
            assert(s.subrange(k, k + pat.len())[d] == s[k + d]);
            if k + d < n {
                assert(a[k + d] == pat[d]);
            } else if k + d < m {
                assert(pat[k + d - n] == pat[d]);
            } else {
                assert(b[k + d - m] == pat[d]);
            }
        }
    }
    lemma_copy_free(s, pat, val, 0, n);
    assert(s.subrange(n, m) =~= pat);
    assert(occurs_at(s, pat, n));
    lemma_copy_free(s, pat, val, m, s.len() as int);
    assert(replace_from(s, pat, val, s.len() as int) =~= Seq::<char>::empty());
    assert(s.subrange(0, n) =~= a);
    assert(s.subrange(m, s.len() as int) =~= b);
    assert(replace_from(s, pat, val, m) =~= b);
    assert(replace_from(s, pat, val, n) == val + replace_from(s, pat, val, m));
    assert(a + (val + b) =~= a + val + b);
    assert forall|k: int| 0 <= k < a.len() implies !#[trigger] occurs_at(a, pat, k) by {
        if occurs_at(a, pat, k) {
            assert(a.subrange(k, k + pat.len())[d] == a[k + d]);
        }
    }
    lemma_copy_free(a, pat, val, 0, a.len() as int);
    assert(replace_from(a, pat, val, a.len() as int) =~= Seq::<char>::empty());
    assert(a.subrange(0, a.len() as int) + Seq::<char>::empty() =~= a);
}

} // verus!
