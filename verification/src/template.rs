//! Path templates: placeholders such as `{artist}` and `{track:02}` filled
//! with values that are safe as single path components.
use crate::text::{
    chars_of, find_chars, number_text, parse_unsigned, replace_text, text_of, to_lower, whitespace,
};
use vstd::prelude::*;
use vstd::utf8::{encode_scalar, encode_utf8};

verus! {

/// All variables available to a path template.
#[derive(Debug, Clone)]
pub struct TemplateVars {
    pub artist: String,
    pub album_artist: String,
    pub album: String,
    pub year: String,
    pub title: String,
    pub track: u32,
    pub disc: u32,
    pub genre: String,
    pub ext: String,
    pub label: String,
    pub collection: String,
    /// The position inside the collection.
    pub position: u32,
}

/// The variables as mathematical values.
#[verifier::ext_equal]
pub struct Vars {
    pub artist: Seq<char>,
    pub album_artist: Seq<char>,
    pub album: Seq<char>,
    pub year: Seq<char>,
    pub title: Seq<char>,
    pub track: u32,
    pub disc: u32,
    pub genre: Seq<char>,
    pub ext: Seq<char>,
    pub label: Seq<char>,
    pub collection: Seq<char>,
    pub position: u32,
}

impl View for TemplateVars {
    type V = Vars;

    open spec fn view(&self) -> Vars {
        Vars {
            artist: self.artist@,
            album_artist: self.album_artist@,
            album: self.album@,
            year: self.year@,
            title: self.title@,
            track: self.track,
            disc: self.disc,
            genre: self.genre@,
            ext: self.ext@,
            label: self.label@,
            collection: self.collection@,
            position: self.position,
        }
    }
}

impl Default for TemplateVars {
    fn default() -> (r: Self)
        ensures
            r.artist@.len() == 0,
            r.album_artist@.len() == 0,
            r.album@.len() == 0,
            r.year@.len() == 0,
            r.title@.len() == 0,
            r.track == 0,
            r.disc == 0,
            r.genre@.len() == 0,
            r.ext@.len() == 0,
            r.label@.len() == 0,
            r.collection@.len() == 0,
            r.position == 0,
    {
        TemplateVars {
            artist: String::new(),
            album_artist: String::new(),
            album: String::new(),
            year: String::new(),
            title: String::new(),
            track: 0,
            disc: 0,
            genre: String::new(),
            ext: String::new(),
            label: String::new(),
            collection: String::new(),
            position: 0,
        }
    }
}

// ---------------------------------------------------------------------------
// Safe components

/// Characters that may not stand in a path component.
pub open spec fn is_forbidden(c: char) -> bool {
    c == '/' || c == '\\' || c == ':' || c == '*' || c == '?' || c == '"' || c == '<' || c == '>'
        || c == '|'
}

/// `s` with an underscore in place of each forbidden character.
pub open spec fn masked(s: Seq<char>) -> Seq<char> {
    s.map_values(|c: char| if is_forbidden(c) { '_' } else { c })
}

/// What is trimmed off the ends of a component: whitespace and dots.
pub open spec fn is_edge(c: char) -> bool {
    crate::text::is_space(c) || c == '.'
}

/// `s` without whitespace and dots at both ends.
pub open spec fn edged(s: Seq<char>) -> Seq<char> {
    crate::text::trim_back(
        crate::text::trim_front(s, |c: char| is_edge(c)),
        |c: char| is_edge(c),
    )
}

/// `s` with every run of underscores reduced to one.
pub open spec fn collapsed(s: Seq<char>) -> Seq<char>
    decreases s.len(),
{
    if s.len() == 0 {
        s
    } else if s.last() == '_' && s.len() > 1 && s[s.len() - 2] == '_' {
        collapsed(s.drop_last())
    } else {
        collapsed(s.drop_last()).push(s.last())
    }
}

/// The number of bytes of a character in UTF-8.
pub open spec fn width(c: char) -> nat {
    if (c as u32) < 0x80 { 1 } else if (c as u32) < 0x800 { 2 } else if (c as u32) < 0x10000 { 3 } else { 4 }
}

/// The number of bytes of a text in UTF-8.
pub open spec fn byte_len(s: Seq<char>) -> nat
    decreases s.len(),
{
    if s.len() == 0 { 0 } else { byte_len(s.drop_last()) + width(s.last()) }
}

/// The longest prefix of `s` of at most `max` bytes.
pub open spec fn fitting(s: Seq<char>, max: nat) -> Seq<char>
    decreases s.len(),
{
    if s.len() == 0 || byte_len(s) <= max { s } else { fitting(s.drop_last(), max) }
}

/// The hash of a byte sequence: each byte added to thirty-one times the hash
/// of what stands before it, in 32 bits.
pub open spec fn hash_of(b: Seq<u8>) -> nat
    decreases b.len(),
{
    if b.len() == 0 { 0 } else { (hash_of(b.drop_last()) * 31 + b.last() as nat) % 0x1_0000_0000 }
}

/// A hexadecimal digit.
pub open spec fn hex_digit(d: nat) -> char {
    if d < 10 { crate::text::digit_char(d) } else if d == 10 { 'a' } else if d == 11 { 'b' }
    else if d == 12 { 'c' } else if d == 13 { 'd' } else if d == 14 { 'e' } else { 'f' }
}

/// The last `n` hexadecimal digits of a number.
pub open spec fn hex(h: nat, n: nat) -> Seq<char>
    decreases n,
{
    if n == 0 { Seq::empty() } else { hex(h / 16, (n - 1) as nat).push(hex_digit(h % 16)) }
}

/// `s`, or, where it is longer than 255 bytes, its first 245 bytes at most
/// with an underscore and the hash of the whole.
pub open spec fn shortened(s: Seq<char>) -> Seq<char> {
    if byte_len(s) > 255 {
        fitting(s, 245) + seq!['_'] + hex(hash_of(encode_utf8(s)), 8)
    } else {
        s
    }
}

/// `s` made safe as a single path component.
pub open spec fn sanitized(s: Seq<char>) -> Seq<char> {
    let c = shortened(collapsed(edged(masked(s))));
    if c.len() == 0 { "Unknown"@ } else { c }
}

proof fn lemma_encode_push(s: Seq<char>, c: char)
    ensures
        encode_utf8(s.push(c)) == encode_utf8(s) + encode_scalar(c as u32),
        encode_scalar(c as u32).len() == width(c),
    decreases s.len(),
{
    if s.len() == 0 {
        assert(s.push(c).drop_first() =~= Seq::<char>::empty());
        assert(encode_utf8(s.push(c).drop_first()) =~= Seq::<u8>::empty());
        assert(encode_utf8(s.push(c)) =~= encode_utf8(s) + encode_scalar(c as u32));
    } else {
        lemma_encode_push(s.drop_first(), c);
        assert(s.push(c).drop_first() =~= s.drop_first().push(c));
        assert(s.push(c)[0] == s[0]);
        assert(encode_utf8(s.push(c)) =~= encode_utf8(s) + encode_scalar(c as u32));
    }
}

/// `byte_len` counts the bytes of the UTF-8 form.
pub proof fn lemma_byte_len(s: Seq<char>)
    ensures
        byte_len(s) == encode_utf8(s).len(),
    decreases s.len(),
{
    if s.len() > 0 {
        lemma_byte_len(s.drop_last());
        lemma_encode_push(s.drop_last(), s.last());
        assert(s.drop_last().push(s.last()) =~= s);
    }
}

proof fn lemma_fitting(s: Seq<char>, max: nat, k: int)
    requires
        0 <= k < s.len(),
        byte_len(s.take(k)) <= max,
        byte_len(s.take(k + 1)) > max,
    ensures
        fitting(s, max) == s.take(k),
    decreases s.len(),
{
    if s.len() == k + 1 {
        assert(s.take(k + 1) =~= s);
        assert(s.drop_last() =~= s.take(k));
        assert(fitting(s.take(k), max) == s.take(k));
    } else {
        lemma_byte_len_grows(s, k + 1);
        let t = s.drop_last();
        assert(t.take(k) =~= s.take(k));
        assert(t.take(k + 1) =~= s.take(k + 1));
        lemma_fitting(t, max, k);
    }
}

proof fn lemma_byte_len_grows(s: Seq<char>, k: int)
    requires
        0 <= k <= s.len(),
    ensures
        byte_len(s.take(k)) <= byte_len(s),
    decreases s.len(),
{
    if k < s.len() {
        lemma_byte_len_grows(s.drop_last(), k);
        assert(s.drop_last().take(k) =~= s.take(k));
    } else {
        assert(s.take(k) =~= s);
    }
}

fn char_width(c: char) -> (r: usize)
    ensures
        r == width(c),
{
    let u: u32 = c as u32;
    if u < 0x80 {
        1
    } else if u < 0x800 {
        2
    } else if u < 0x10000 {
        3
    } else {
        4
    }
}

/// The hash of the UTF-8 bytes of `s`.
pub fn simple_hash(s: &str) -> (h: u32)
    ensures
        h == hash_of(encode_utf8(s@)),
{
    let b = s.as_bytes();
    let mut h: u32 = 0;
    let mut i: usize = 0;
    while i < b.len()
        invariant
            i <= b@.len(),
            b@ == encode_utf8(s@),
            h == hash_of(b@.take(i as int)),
        decreases b@.len() - i,
    {
        assert(b@.take(i + 1).drop_last() =~= b@.take(i as int));
        h = ((h as u64 * 31 + b[i] as u64) % 0x1_0000_0000) as u32;
        i += 1;
    }
    assert(b@.take(b@.len() as int) =~= b@);
    h
}

fn hex_char(d: u32) -> (c: char)
    requires
        d < 16,
    ensures
        c == hex_digit(d as nat),
{
    if d < 10 {
        crate::text::digit(d as u64)
    } else {
        match d {
            10 => 'a',
            11 => 'b',
            12 => 'c',
            13 => 'd',
            14 => 'e',
            _ => 'f',
        }
    }
}

fn hex_text(h: u32, n: u32) -> (r: String)
    ensures
        r@ == hex(h as nat, n as nat),
    decreases n,
{
    if n == 0 {
        String::new()
    } else {
        let mut out = hex_text(h / 16, n - 1);
        out.push(hex_char(h % 16));
        out
    }
}

/// The characters of `s` with forbidden ones masked and the edges trimmed.
fn mask_and_trim(s: &str) -> (r: Vec<char>)
    ensures
        r@ == edged(masked(s@)),
{
    let v = chars_of(s);
    let mut m: Vec<char> = Vec::new();
    let mut i: usize = 0;
    while i < v.len()
        invariant
            i <= v@.len(),
            v@ == s@,
            m@ == masked(s@).take(i as int),
        decreases v@.len() - i,
    {
        let c = v[i];
        let bad = c == '/' || c == '\\' || c == ':' || c == '*' || c == '?' || c == '"' || c == '<' || c
            == '>' || c == '|';
        m.push(
            if bad {
                '_'
            } else {
                c
            },
        );
        i += 1;
        assert(masked(s@).take(i as int) =~= masked(s@).take(i - 1).push(masked(s@)[i - 1]));
    }
    let ghost t = masked(s@);
    assert(m@ =~= t);
    let ghost p = |c: char| is_edge(c);
    let mut a: usize = 0;
    assert(t.skip(0) =~= t);
    while a < m.len() && (whitespace(m[a]) || m[a] == '.')
        invariant
            a <= m@.len(),
            m@ == t,
            p == (|c: char| is_edge(c)),
            crate::text::trim_front(t, p) == crate::text::trim_front(t.skip(a as int), p),
        decreases m@.len() - a,
    {
        assert(t.skip(a as int).skip(1) =~= t.skip(a + 1));
        a += 1;
    }
    let ghost front = t.skip(a as int);
    let mut b: usize = m.len();
    assert(front =~= t.subrange(a as int, b as int));
    while a < b && (whitespace(m[b - 1]) || m[b - 1] == '.')
        invariant
            a <= b <= m@.len(),
            m@ == t,
            p == (|c: char| is_edge(c)),
            crate::text::trim_back(front, p) == crate::text::trim_back(
                t.subrange(a as int, b as int),
                p,
            ),
        decreases b,
    {
        assert(t.subrange(a as int, b as int).drop_last() =~= t.subrange(a as int, b - 1));
        b -= 1;
    }
    let mut out: Vec<char> = Vec::new();
    let mut k: usize = a;
    while k < b
        invariant
            a <= k <= b <= m@.len(),
            m@ == t,
            out@ == t.subrange(a as int, k as int),
        decreases b - k,
    {
        out.push(m[k]);
        k += 1;
        assert(t.subrange(a as int, k as int) =~= t.subrange(a as int, k - 1).push(t[k - 1]));
    }
    out
}

/// `s` made safe as a single path component: forbidden characters become
/// underscores, whitespace and dots at the ends go, runs of underscores
/// collapse, and what is longer than 255 bytes is cut and marked with a hash.
/// Letters of every script are kept as they are.
pub fn sanitize_path_component(s: &str) -> (r: String)
    ensures
        r@ == sanitized(s@),
{
    let t = mask_and_trim(s);
    let mut c = String::new();
    let mut i: usize = 0;
    while i < t.len()
        invariant
            i <= t@.len(),
            c@ == collapsed(t@.take(i as int)),
        decreases t@.len() - i,
    {
        assert(t@.take(i + 1).drop_last() =~= t@.take(i as int));
        if !(t[i] == '_' && i > 0 && t[i - 1] == '_') {
            c.push(t[i]);
        }
        i += 1;
    }
    assert(t@.take(t@.len() as int) =~= t@);
    let ghost full = collapsed(t@);
    let bytes = c.as_str().as_bytes();
    proof {
        lemma_byte_len(full);
    }
    if bytes.len() > 255 {
        let v = chars_of(c.as_str());
        let mut used: usize = 0;
        let mut k: usize = 0;
        assert(full.take(0) =~= Seq::<char>::empty());
        assert(full.take(full.len() as int) =~= full);
        while k < v.len() && used + char_width(v[k]) <= 245
            invariant
                k <= v@.len(),
                v@ == full,
                used == byte_len(full.take(k as int)),
                used <= 245,
                byte_len(full) > 255,
                full.take(full.len() as int) == full,
            decreases v@.len() - k,
        {
            assert(full.take(k + 1).drop_last() =~= full.take(k as int));
            used += char_width(v[k]);
            k += 1;
        }
        assert(k < v@.len());
        assert(full.take(k + 1).drop_last() =~= full.take(k as int));
        proof {
            lemma_fitting(full, 245, k as int);
        }
        let h = simple_hash(c.as_str());
        let mut out = text_of(&v, 0, k);
        assert(full.take(k as int) =~= full.subrange(0, k as int));
        out.push('_');
        let digits = hex_text(h, 8);
        out.append(digits.as_str());
        assert(out@ =~= shortened(full));
        return out;
    }
    if c.as_str().is_empty() {
        "Unknown".to_owned()
    } else {
        c
    }
}

// ---------------------------------------------------------------------------
// Placeholders

/// The placeholder of a variable.
pub open spec fn plain(name: Seq<char>) -> Seq<char> {
    seq!['{'] + name + seq!['}']
}

/// `a`, or `b` where `a` is empty.
pub open spec fn or_else(a: Seq<char>, b: Seq<char>) -> Seq<char> {
    if a.len() == 0 { b } else { a }
}

/// `s` with the placeholder of a variable replaced by the sanitized value.
pub open spec fn with_var(s: Seq<char>, name: Seq<char>, value: Seq<char>) -> Seq<char> {
    crate::text::replaced(s, plain(name), sanitized(value))
}

/// `s` preceded by enough of `c` to make `n` characters.
pub open spec fn padded(s: Seq<char>, c: char, n: int) -> Seq<char> {
    if s.len() >= n { s } else { Seq::new((n - s.len()) as nat, |i: int| c) + s }
}

/// A number written as a format specifier asks: `0` plain, `0N` with zeros to
/// `N` digits, `N` with spaces to `N` characters, anything else plain.
pub open spec fn formatted(value: nat, spec_text: Seq<char>) -> Seq<char> {
    let d = crate::text::decimal(value);
    let max = usize::MAX as nat;
    if spec_text == seq!['0'] {
        d
    } else if spec_text.len() > 0 && spec_text[0] == '0' && crate::text::parsed(
        spec_text.skip(1),
        max,
    ) is Some {
        padded(d, '0', crate::text::parsed(spec_text.skip(1), max)->0 as int)
    } else if crate::text::parsed(spec_text, max) is Some {
        padded(d, ' ', crate::text::parsed(spec_text, max)->0 as int)
    } else {
        d
    }
}

/// `s` from `i` on, with every `{name:specifier}` replaced by the number as
/// the specifier asks, from the left; a placeholder that is not closed ends
/// the replacing.
pub open spec fn with_specs(s: Seq<char>, open: Seq<char>, value: nat, i: int) -> Seq<char>
    decreases s.len() - i,
{
    match crate::text::find_from(s, open, i) {
        None => s.skip(i),
        Some(a) => match crate::text::find_from(s, seq!['}'], a + open.len()) {
            None => s.skip(i),
            Some(e) => if i <= a && a + open.len() <= e < s.len() {
                s.subrange(i, a) + formatted(value, s.subrange(a + open.len(), e)) + with_specs(
                    s,
                    open,
                    value,
                    e + 1,
                )
            } else {
                s.skip(i)
            },
        },
    }
}

/// `s` with `{name:specifier}` and `{name}` replaced by the number.
pub open spec fn with_number(s: Seq<char>, name: Seq<char>, value: nat) -> Seq<char> {
    crate::text::replaced(
        with_specs(s, seq!['{'] + name + seq![':'], value, 0),
        plain(name),
        crate::text::decimal(value),
    )
}

/// The path that a template gives for some variables.
#[verifier::opaque]
pub open spec fn rendered(template: Seq<char>, v: Vars) -> Seq<char> {
    let s1 = with_var(template, "album_artist"@, or_else(v.album_artist, v.artist));
    let s2 = with_var(s1, "artist"@, or_else(v.artist, "Unknown"@));
    let s3 = with_var(s2, "album"@, or_else(v.album, "Unknown Album"@));
    let year = or_else(v.year, "0000"@);
    let s4 = crate::text::replaced(s3, plain("year:4"@), padded(sanitized(year), '0', 4));
    let s5 = with_var(s4, "year"@, year);
    let s6 = with_var(s5, "title"@, or_else(v.title, "Unknown"@));
    let s7 = with_var(s6, "genre"@, or_else(v.genre, "Unknown"@));
    let s8 = with_var(s7, "label"@, or_else(v.label, "Unknown"@));
    let s9 = with_var(s8, "collection"@, v.collection);
    let s10 = with_var(s9, "ext"@, crate::text::lowercased(v.ext));
    let s11 = with_number(s10, "track"@, v.track as nat);
    let s12 = with_number(s11, "disc"@, v.disc as nat);
    with_number(s12, "position"@, v.position as nat)
}

/// `val`, or `default` where it is empty.
pub fn fallback<'a>(val: &'a str, default: &'a str) -> (r: &'a str)
    ensures
        r@ == or_else(val@, default@),
{
    if val.is_empty() {
        default
    } else {
        val
    }
}

fn placeholder(name: &str, end: char) -> (r: String)
    ensures
        r@ == seq!['{'] + name@ + seq![end],
{
    let mut out = String::new();
    out.push('{');
    out.append(name);
    out.push(end);
    assert(out@ =~= seq!['{'] + name@ + seq![end]);
    out
}

/// `template` with `{name}` replaced by the sanitized value.
pub fn replace_var(template: &str, name: &str, value: &str) -> (r: String)
    ensures
        r@ == with_var(template@, name@, value@),
{
    let p = placeholder(name, '}');
    let clean = sanitize_path_component(value);
    replace_text(template, p.as_str(), clean.as_str())
}

fn pad(s: &str, c: char, n: usize) -> (r: String)
    ensures
        r@ == padded(s@, c, n as int),
{
    let len: usize = s.unicode_len();
    if len >= n {
        return s.to_owned();
    }
    let mut out = String::new();
    let mut i: usize = len;
    while i < n
        invariant
            len <= i <= n,
            out@ == Seq::new((i - len) as nat, |k: int| c),
        decreases n - i,
    {
        out.push(c);
        i += 1;
        assert(Seq::new((i - len) as nat, |k: int| c) =~= Seq::new((i - 1 - len) as nat, |k: int| c).push(c));
    }
    out.append(s);
    out
}

/// A number written as a format specifier asks.
pub fn format_number(value: u32, spec_text: &str) -> (r: String)
    ensures
        r@ == formatted(value as nat, spec_text@),
{
    let d = number_text(value as u64);
    let v = chars_of(spec_text);
    if v.len() == 1 && v[0] == '0' {
        assert(spec_text@ =~= seq!['0']);
        return d;
    }
    if v.len() > 0 && v[0] == '0' {
        let rest = text_of(&v, 1, v.len());
        assert(rest@ =~= spec_text@.skip(1));
        if let Some(w) = parse_unsigned(rest.as_str(), usize::MAX as u64) {
            return pad(d.as_str(), '0', w as usize);
        }
    }
    if let Some(w) = parse_unsigned(spec_text, usize::MAX as u64) {
        return pad(d.as_str(), ' ', w as usize);
    }
    d
}

/// `template` with `{name}` and `{name:specifier}` replaced by the number.
pub fn replace_num_var(template: &str, name: &str, value: u32) -> (r: String)
    ensures
        r@ == with_number(template@, name@, value as nat),
{
    let open_text = placeholder(name, ':');
    let open = chars_of(open_text.as_str());
    let close: Vec<char> = vec!['}'];
    assert(close@ =~= seq!['}']);
    let v = chars_of(template);
    let ghost s = template@;
    let ghost o = open@;
    let n: usize = v.len();
    let mut out = String::new();
    let mut i: usize = 0;
    let mut going = true;
    assert(out@ + with_specs(s, o, value as nat, 0) =~= with_specs(s, o, value as nat, 0));
    while going
        invariant
            i <= n,
            n == v@.len(),
            v@ == s,
            open@ == o,
            o.len() > 0,
            close@ == seq!['}'],
            going ==> out@ + with_specs(s, o, value as nat, i as int) == with_specs(
                s,
                o,
                value as nat,
                0,
            ),
            !going ==> out@ == with_specs(s, o, value as nat, 0),
        decreases (if going { 1int } else { 0int }), n - i,
    {
        let ghost before = out@;
        proof {
            crate::text::lemma_find_from(s, o, i as int);
        }
        match find_chars(&v, &open, i) {
            None => {
                let rest = text_of(&v, i, n);
                assert(rest@ =~= s.skip(i as int));
                out.append(rest.as_str());
                going = false;
            },
            Some(a) => {
                proof {
                    crate::text::lemma_find_from(s, seq!['}'], a + o.len());
                }
                match find_chars(&v, &close, a + open.len()) {
                    None => {
                        let rest = text_of(&v, i, n);
                        assert(rest@ =~= s.skip(i as int));
                        out.append(rest.as_str());
                        going = false;
                    },
                    Some(e) => {
                        let head = text_of(&v, i, a);
                        let spec_text = text_of(&v, a + open.len(), e);
                        let number = format_number(value, spec_text.as_str());
                        out.append(head.as_str());
                        out.append(number.as_str());
                        assert(out@ + with_specs(s, o, value as nat, e + 1) =~= before + (head@
                            + number@ + with_specs(s, o, value as nat, e + 1)));
                        i = e + 1;
                    },
                }
            },
        }
    }
    let p = placeholder(name, '}');
    let plain_number = number_text(value as u64);
    replace_text(out.as_str(), p.as_str(), plain_number.as_str())
}

/// Fills a path template.
///
/// `{name}` stands for a variable; numbers also take a format:
/// - `{track:02}`: zeros in front, to two digits
/// - `{disc:0}`: the plain number
/// - `{year:4}`: the year with four digits
pub fn render_path(template: &str, vars: &TemplateVars) -> (r: String)
    ensures
        r@ == rendered(template@, vars@),
{
    proof {
        reveal(rendered);
    }
    let s1 = replace_var(
        template,
        "album_artist",
        fallback(vars.album_artist.as_str(), vars.artist.as_str()),
    );
    let s2 = replace_var(s1.as_str(), "artist", fallback(vars.artist.as_str(), "Unknown"));
    let s3 = replace_var(s2.as_str(), "album", fallback(vars.album.as_str(), "Unknown Album"));
    let year = fallback(vars.year.as_str(), "0000");
    let year_safe = sanitize_path_component(year);
    let year_four = pad(year_safe.as_str(), '0', 4);
    let p = placeholder("year:4", '}');
    let s4 = replace_text(s3.as_str(), p.as_str(), year_four.as_str());
    let s5 = replace_var(s4.as_str(), "year", year);
    let s6 = replace_var(s5.as_str(), "title", fallback(vars.title.as_str(), "Unknown"));
    let s7 = replace_var(s6.as_str(), "genre", fallback(vars.genre.as_str(), "Unknown"));
    let s8 = replace_var(s7.as_str(), "label", fallback(vars.label.as_str(), "Unknown"));
    let s9 = replace_var(s8.as_str(), "collection", vars.collection.as_str());
    let ext = to_lower(vars.ext.as_str());
    let s10 = replace_var(s9.as_str(), "ext", ext.as_str());
    let s11 = replace_num_var(s10.as_str(), "track", vars.track);
    let s12 = replace_num_var(s11.as_str(), "disc", vars.disc);
    replace_num_var(s12.as_str(), "position", vars.position)
}

// ---------------------------------------------------------------------------
// Laws

/// Every character of `s` is allowed in a path component.
pub open spec fn clean(s: Seq<char>) -> bool {
    forall|i: int| 0 <= i < s.len() ==> !is_forbidden(#[trigger] s[i])
}

proof fn lemma_trim_front(s: Seq<char>)
    ensures
        ({
            let t = crate::text::trim_front(s, |c: char| is_edge(c));
            &&& clean(s) ==> clean(t)
            &&& t.len() > 0 ==> !is_edge(t[0])
        }),
    decreases s.len(),
{
    if s.len() > 0 && is_edge(s[0]) {
        lemma_trim_front(s.skip(1));
    }
}

proof fn lemma_trim_back(s: Seq<char>)
    ensures
        ({
            let t = crate::text::trim_back(s, |c: char| is_edge(c));
            &&& clean(s) ==> clean(t)
            &&& t.len() > 0 ==> !is_edge(t.last()) && t[0] == s[0]
        }),
    decreases s.len(),
{
    if s.len() > 0 && is_edge(s.last()) {
        lemma_trim_back(s.drop_last());
    }
}

proof fn lemma_collapsed(s: Seq<char>)
    ensures
        clean(s) ==> clean(collapsed(s)),
        s.len() > 0 ==> collapsed(s).len() > 0 && collapsed(s)[0] == s[0] && collapsed(s).last()
            == s.last(),
    decreases s.len(),
{
    if s.len() > 0 {
        lemma_collapsed(s.drop_last());
    }
}

proof fn lemma_fitting_prefix(s: Seq<char>, max: nat)
    ensures
        fitting(s, max).len() <= s.len(),
        fitting(s, max) == s.take(fitting(s, max).len() as int),
        byte_len(fitting(s, max)) <= max,
        s.len() > 0 && max >= 4 ==> fitting(s, max).len() > 0,
    decreases s.len(),
{
    if s.len() == 0 || byte_len(s) <= max {
        assert(s.take(s.len() as int) =~= s);
    } else {
        lemma_fitting_prefix(s.drop_last(), max);
        let k = fitting(s, max).len() as int;
        assert(s.drop_last().take(k) =~= s.take(k));
        if s.len() == 1 {
            assert(byte_len(s.drop_last()) == 0);
        }
    }
}

proof fn lemma_hex(h: nat, n: nat)
    ensures
        hex(h, n).len() == n,
        forall|i: int|
            0 <= i < n ==> !is_forbidden(#[trigger] hex(h, n)[i]) && !is_edge(hex(h, n)[i]) && width(
                hex(h, n)[i],
            ) == 1,
    decreases n,
{
    if n > 0 {
        lemma_hex(h / 16, (n - 1) as nat);
    }
}

proof fn lemma_byte_len_concat(a: Seq<char>, b: Seq<char>)
    ensures
        byte_len(a + b) == byte_len(a) + byte_len(b),
    decreases b.len(),
{
    if b.len() == 0 {
        assert(a + b =~= a);
    } else {
        lemma_byte_len_concat(a, b.drop_last());
        assert((a + b).drop_last() =~= a + b.drop_last());
    }
}

proof fn lemma_byte_len_ascii(s: Seq<char>)
    requires
        forall|i: int| 0 <= i < s.len() ==> width(#[trigger] s[i]) == 1,
    ensures
        byte_len(s) == s.len(),
    decreases s.len(),
{
    if s.len() > 0 {
        lemma_byte_len_ascii(s.drop_last());
    }
}

/// A sanitized component is never empty, holds no forbidden character, has at
/// most 255 bytes, and neither begins nor ends in whitespace or a dot.
pub proof fn law_sanitized_component_is_safe(s: Seq<char>)
    ensures
        ({
            let c = sanitized(s);
            &&& c.len() > 0
            &&& clean(c)
            &&& byte_len(c) <= 255
            &&& !is_edge(c[0])
            &&& !is_edge(c.last())
        }),
{
    reveal_strlit("Unknown");
    let m = masked(s);
    assert(clean(m));
    let f = crate::text::trim_front(m, |c: char| is_edge(c));
    lemma_trim_front(m);
    lemma_trim_back(f);
    let e = edged(m);
    lemma_collapsed(e);
    let full = collapsed(e);
    let c = shortened(full);
    if byte_len(full) > 255 {
        lemma_fitting_prefix(full, 245);
        let h = hash_of(encode_utf8(full));
        lemma_hex(h, 8);
        let head = fitting(full, 245);
        lemma_byte_len_concat(head, seq!['_']);
        lemma_byte_len_concat(head + seq!['_'], hex(h, 8));
        lemma_byte_len_ascii(seq!['_']);
        lemma_byte_len_ascii(hex(h, 8));
        assert(c == head + seq!['_'] + hex(h, 8));
        assert(c[0] == full[0]);
        assert(c.last() == hex(h, 8)[7]);
        assert(clean(c)) by {
            assert forall|i: int| 0 <= i < c.len() implies !is_forbidden(#[trigger] c[i]) by {
                if i < head.len() {
                    assert(c[i] == full[i]);
                } else if i > head.len() {
                    assert(c[i] == hex(h, 8)[i - head.len() - 1]);
                }
            }
        }
    } else if full.len() == 0 {
        lemma_byte_len_ascii("Unknown"@);
    }
}

/// A sanitized value is one path component: it never adds a directory, and
/// never names the current or the parent one.
pub proof fn law_sanitized_value_is_one_component(s: Seq<char>)
    ensures
        crate::paths::comps(sanitized(s)) == seq![sanitized(s)],
        crate::paths::name_of_path(sanitized(s)) == Some(sanitized(s)),
{
    law_sanitized_component_is_safe(s);
    let c = sanitized(s);
    crate::paths::lemma_next_slash(c, 0);
    let e = crate::paths::next_slash(c, 0);
    assert(e == c.len()) by {
        if e < c.len() {
            assert(is_forbidden(c[e]));
        }
    }
    assert(crate::paths::spans_from(c, e + 1) =~= Seq::<(int, int)>::empty());
    assert(crate::paths::spans(c) =~= seq![(0int, c.len() as int)]);
    assert(c.subrange(0, c.len() as int) =~= c);
    assert(crate::paths::comps(c) =~= seq![c]);
}

/// A specifier that is a zero followed by the digits of a width writes a
/// number with zeros in front: it has as many digits as the width says, or as
/// the number needs where these are more. It reads back as the number, and a
/// number that is as wide as that by itself stands bare.
pub proof fn law_zeros_fill_numbers_up_to_a_width(value: nat, digits: Seq<char>)
    requires
        digits.len() > 0,
        forall|i: int| 0 <= i < digits.len() ==> '0' <= #[trigger] digits[i] <= '9',
        1 <= crate::text::digits_value(digits) <= usize::MAX,
    ensures
        ({
            let w = crate::text::digits_value(digits);
            let bare = crate::text::decimal(value);
            let r = formatted(value, seq!['0'] + digits);
            &&& r.len() == (if bare.len() >= w { bare.len() } else { w })
            &&& forall|i: int| 0 <= i < r.len() ==> '0' <= #[trigger] r[i] <= '9'
            &&& crate::text::digits_value(r) == value
            &&& bare.len() >= w ==> r == bare
        }),
{
    let s = seq!['0'] + digits;
    let d = crate::text::decimal(value);
    let w = crate::text::digits_value(digits);
    assert(s.skip(1) =~= digits);
    assert(s != seq!['0']) by {
        assert(s.len() > 1);
    }
    assert(crate::text::unsigned_body(digits) == digits) by {
        assert('0' <= digits[0] <= '9');
    }
    assert(crate::text::parsed(digits, usize::MAX as nat) == Some(w));
    crate::text::law_decimals_read_back(value);
    if d.len() < w {
        let k = (w - d.len()) as nat;
        crate::text::lemma_leading_zeros(k, d);
        assert(padded(d, '0', w as int) =~= Seq::new(k, |i: int| '0') + d);
    }
}

/// A specifier that is the digits of a width, without a zero in front, writes
/// a number at the end of as many characters as that, blanks before it; a
/// number that is as wide as that by itself stands bare.
pub proof fn law_blanks_fill_numbers_up_to_a_width(value: nat, digits: Seq<char>)
    requires
        digits.len() > 0,
        forall|i: int| 0 <= i < digits.len() ==> '0' <= #[trigger] digits[i] <= '9',
        digits[0] != '0',
        crate::text::digits_value(digits) <= usize::MAX,
    ensures
        ({
            let w = crate::text::digits_value(digits);
            let bare = crate::text::decimal(value);
            let r = formatted(value, digits);
            let blanks = r.len() - bare.len();
            &&& r.len() == (if bare.len() >= w { bare.len() } else { w })
            &&& r.skip(blanks) == bare
            &&& forall|i: int| 0 <= i < blanks ==> #[trigger] r[i] == ' '
        }),
{
    let d = crate::text::decimal(value);
    let w = crate::text::digits_value(digits);
    assert(digits != seq!['0']) by {
        assert(seq!['0'][0] == '0');
    }
    assert('0' <= digits[0] <= '9');
    assert(crate::text::parsed(digits, usize::MAX as nat) == Some(w));
    let r = formatted(value, digits);
    assert(r.skip(r.len() - d.len()) =~= d);
}

/// Any other specifier writes the bare number: a lone zero, and whatever holds
/// a character that is neither a digit nor a plus sign.
pub proof fn law_other_specifiers_write_the_bare_number(value: nat, spec_text: Seq<char>)
    requires
        spec_text == seq!['0'] || spec_text.len() == 0 || exists|i: int|
            0 <= i < spec_text.len() && #[trigger] spec_text[i] != '+' && !('0' <= spec_text[i]
                <= '9'),
    ensures
        formatted(value, spec_text) == crate::text::decimal(value),
{
    let max = usize::MAX as nat;
    if spec_text.len() > 0 && spec_text != seq!['0'] {
        let i = choose|i: int|
            0 <= i < spec_text.len() && #[trigger] spec_text[i] != '+' && !('0' <= spec_text[i]
                <= '9');
        lemma_no_number(spec_text, i, max);
        if spec_text[0] == '0' {
            assert(spec_text.skip(1)[i - 1] == spec_text[i]);
            lemma_no_number(spec_text.skip(1), i - 1, max);
        }
    }
}

proof fn lemma_no_number(s: Seq<char>, i: int, max: nat)
    requires
        0 <= i < s.len(),
        s[i] != '+',
        !('0' <= s[i] <= '9'),
    ensures
        crate::text::parsed(s, max) is None,
{
    let body = crate::text::unsigned_body(s);
    if s[0] == '+' {
        assert(body[i - 1] == s[i]);
    }
    if crate::text::all_digits(body) {
        let k = if s[0] == '+' { i - 1 } else { i };
        assert(crate::text::is_digit(body[k]));
    }
}

// ---------------------------------------------------------------------------
// Laws of sanitizing

/// Characters that a path component may not hold.
pub open spec fn breaks_paths(c: char) -> bool {
    c == '/' || c == '\\' || c == ':' || c == '*' || c == '?' || c == '"' || c == '<' || c == '>'
        || c == '|'
}

/// Text is kept character by character, in whatever script it is, but for an
/// underscore in place of each character that a path may not hold: where it
/// fits into a file name, neither begins nor ends in a blank or a dot, and no
/// two underscores come together.
pub proof fn law_text_is_kept_character_by_character(s: Seq<char>)
    requires
        s.len() > 0,
        encode_utf8(s).len() <= 255,
        !crate::text::is_space(s[0]) && s[0] != '.',
        !crate::text::is_space(s.last()) && s.last() != '.',
        forall|i: int|
            0 <= i < s.len() - 1 ==> !((breaks_paths(#[trigger] s[i]) || s[i] == '_') && (
            breaks_paths(s[i + 1]) || s[i + 1] == '_')),
    ensures
        sanitized(s).len() == s.len(),
        forall|i: int|
            0 <= i < s.len() ==> #[trigger] sanitized(s)[i] == if breaks_paths(s[i]) {
                '_'
            } else {
                s[i]
            },
{
    let m = masked(s);
    let p = |c: char| is_edge(c);
    assert(!p(m[0]));
    assert(crate::text::trim_front(m, p) == m);
    assert(m.last() == m[m.len() - 1] && s.last() == s[s.len() - 1]);
    assert(!p(m.last()));
    assert(edged(m) == m);
    assert forall|i: int| 0 <= i < m.len() - 1 implies !(#[trigger] m[i] == '_' && m[i + 1] == '_') by {
        assert(m[i] == if is_forbidden(s[i]) { '_' } else { s[i] });
        assert(breaks_paths(s[i]) == is_forbidden(s[i]));
        assert(breaks_paths(s[i + 1]) == is_forbidden(s[i + 1]));
    }
    lemma_nothing_to_collapse(m);
    lemma_masked_bytes(s);
    lemma_byte_len(s);
    assert(sanitized(s) == m);
}

proof fn lemma_nothing_to_collapse(s: Seq<char>)
    requires
        forall|i: int| 0 <= i < s.len() - 1 ==> !(#[trigger] s[i] == '_' && s[i + 1] == '_'),
    ensures
        collapsed(s) == s,
    decreases s.len(),
{
    if s.len() > 0 {
        let t = s.drop_last();
        assert forall|i: int| 0 <= i < t.len() - 1 implies !(#[trigger] t[i] == '_' && t[i + 1] == '_') by {
            assert(t[i] == s[i] && t[i + 1] == s[i + 1]);
        }
        lemma_nothing_to_collapse(t);
        if s.len() > 1 {
            assert(!(s[s.len() - 2] == '_' && s[s.len() - 2 + 1] == '_'));
        }
        assert(t.push(s.last()) =~= s);
    }
}

proof fn lemma_masked_bytes(s: Seq<char>)
    ensures
        byte_len(masked(s)) == byte_len(s),
    decreases s.len(),
{
    if s.len() > 0 {
        lemma_masked_bytes(s.drop_last());
        assert(masked(s).drop_last() =~= masked(s.drop_last()));
        assert(masked(s).last() == if is_forbidden(s.last()) { '_' } else { s.last() });
    } else {
        assert(masked(s) =~= s);
    }
}

/// Text that is too long is cut from the end, and two texts that are cut are
/// told apart by what they were: the last characters depend on the whole.
pub proof fn law_long_text_is_cut_at_the_end(s: Seq<char>)
    requires
        ({
            let full = collapsed(edged(masked(s)));
            encode_utf8(full).len() > 255
        }),
    ensures
        ({
            let full = collapsed(edged(masked(s)));
            let r = sanitized(s);
            &&& r.len() > 9
            &&& r.take(r.len() - 9).is_prefix_of(full)
            &&& r[r.len() - 9] == '_'
            &&& encode_utf8(r).len() <= 255
        }),
{
    let full = collapsed(edged(masked(s)));
    lemma_byte_len(full);
    let head = fitting(full, 245);
    lemma_fitting_prefix(full, 245);
    let h = hash_of(encode_utf8(full));
    lemma_hex(h, 8);
    let r = sanitized(s);
    assert(r == head + seq!['_'] + hex(h, 8));
    assert(r.take(r.len() - 9) =~= head);
    assert(head =~= full.subrange(0, head.len() as int));
    law_sanitized_component_is_safe(s);
    lemma_byte_len(r);
}

// ---------------------------------------------------------------------------
// Laws of templates

proof fn lemma_sanitized_holds_no_brace(s: Seq<char>)
    requires
        !s.contains('{'),
    ensures
        !sanitized(s).contains('{'),
{
    reveal_strlit("Unknown");
    let m = masked(s);
    assert forall|i: int| 0 <= i < m.len() implies m[i] != '{' by {
        assert(s.contains(s[i]));
    }
    let p = |c: char| is_edge(c);
    lemma_trim_front_keeps(m, '{');
    let f = crate::text::trim_front(m, p);
    lemma_trim_back_keeps(f, '{');
    let e = edged(m);
    lemma_collapsed_keeps(e, '{');
    let full = collapsed(e);
    lemma_fitting_prefix(full, 245);
    let h = hash_of(encode_utf8(full));
    lemma_hex_holds_no_brace(h, 8);
    let c = shortened(full);
    if byte_len(full) > 255 {
        let head = fitting(full, 245);
        assert forall|i: int| 0 <= i < c.len() implies c[i] != '{' by {
            if i < head.len() {
                assert(c[i] == full[i]);
                assert(full.contains(full[i]));
            } else if i > head.len() {
                assert(c[i] == hex(h, 8)[i - head.len() - 1]);
            }
        }
    }
    assert(!"Unknown"@.contains('{'));
}

proof fn lemma_hex_holds_no_brace(h: nat, n: nat)
    ensures
        hex(h, n).len() == n,
        forall|i: int| 0 <= i < n ==> #[trigger] hex(h, n)[i] != '{',
    decreases n,
{
    if n > 0 {
        lemma_hex_holds_no_brace(h / 16, (n - 1) as nat);
    }
}

proof fn lemma_trim_front_keeps(s: Seq<char>, c: char)
    requires
        !s.contains(c),
    ensures
        !crate::text::trim_front(s, |x: char| is_edge(x)).contains(c),
    decreases s.len(),
{
    if s.len() > 0 && is_edge(s[0]) {
        assert(!s.skip(1).contains(c)) by {
            if s.skip(1).contains(c) {
                let i = s.skip(1).index_of(c);
                assert(s[i + 1] == c);
            }
        }
        lemma_trim_front_keeps(s.skip(1), c);
    }
}

proof fn lemma_trim_back_keeps(s: Seq<char>, c: char)
    requires
        !s.contains(c),
    ensures
        !crate::text::trim_back(s, |x: char| is_edge(x)).contains(c),
    decreases s.len(),
{
    if s.len() > 0 && is_edge(s.last()) {
        assert(!s.drop_last().contains(c)) by {
            if s.drop_last().contains(c) {
                let i = s.drop_last().index_of(c);
                assert(s[i] == c);
            }
        }
        lemma_trim_back_keeps(s.drop_last(), c);
    }
}

proof fn lemma_collapsed_keeps(s: Seq<char>, c: char)
    requires
        !s.contains(c),
    ensures
        !collapsed(s).contains(c),
    decreases s.len(),
{
    if s.len() > 0 {
        let t = s.drop_last();
        assert(!t.contains(c)) by {
            if t.contains(c) {
                let i = t.index_of(c);
                assert(s[i] == c);
            }
        }
        lemma_collapsed_keeps(t, c);
        assert(s.contains(s[s.len() - 1]));
        let r = collapsed(s);
        if r.contains(c) {
            let i = r.index_of(c);
            if i < collapsed(t).len() {
                assert(collapsed(t)[i] == c);
                assert(collapsed(t).contains(c));
            }
        }
    }
}

/// Whether every opening brace of a text is closed before the next one opens.
pub open spec fn braces_close(s: Seq<char>) -> bool {
    forall|i: int| 0 <= i < s.len() && #[trigger] s[i] == '{' ==> closes(s, i)
}

/// Whether the brace that opens at `i` is closed before another opens.
pub open spec fn closes(s: Seq<char>, i: int) -> bool {
    exists|j: int| i < j < s.len() && #[trigger] s[j] == '}' && no_brace(s, i + 1, j)
}

/// Whether no brace opens at a position from `i` up to `j`.
pub open spec fn no_brace(s: Seq<char>, i: int, j: int) -> bool {
    forall|k: int| i <= k < j ==> #[trigger] s[k] != '{'
}

proof fn lemma_braces_add(a: Seq<char>, b: Seq<char>)
    requires
        braces_close(a),
        braces_close(b),
    ensures
        braces_close(a + b),
{
    let s = a + b;
    assert forall|i: int| 0 <= i < s.len() && #[trigger] s[i] == '{' implies closes(s, i) by {
        if i < a.len() {
            assert(a[i] == '{');
            assert(closes(a, i));
            let j = choose|j: int| i < j < a.len() && #[trigger] a[j] == '}' && no_brace(a, i + 1, j);
            assert(s[j] == '}');
            assert(no_brace(s, i + 1, j)) by {
                assert forall|k: int| i + 1 <= k < j implies #[trigger] s[k] != '{' by {
                    assert(a[k] != '{');
                }
            }
        } else {
            let n = a.len() as int;
            assert(b[i - n] == '{');
            assert(closes(b, i - n));
            let j = choose|j: int|
                i - n < j < b.len() && #[trigger] b[j] == '}' && no_brace(b, i - n + 1, j);
            assert(s[n + j] == '}');
            assert(no_brace(s, i + 1, n + j)) by {
                assert forall|k: int| i + 1 <= k < n + j implies #[trigger] s[k] != '{' by {
                    assert(b[k - n] != '{');
                }
            }
        }
    }
}

proof fn lemma_braces_from(s: Seq<char>, i: int)
    requires
        braces_close(s),
        0 <= i <= s.len(),
    ensures
        braces_close(s.skip(i)),
{
    let t = s.skip(i);
    assert forall|k: int| 0 <= k < t.len() && #[trigger] t[k] == '{' implies closes(t, k) by {
        assert(s[i + k] == '{');
        assert(closes(s, i + k));
        let j = choose|j: int|
            i + k < j < s.len() && #[trigger] s[j] == '}' && no_brace(s, i + k + 1, j);
        assert(t[j - i] == '}');
        assert(no_brace(t, k + 1, j - i)) by {
            assert forall|x: int| k + 1 <= x < j - i implies #[trigger] t[x] != '{' by {
                assert(s[i + x] != '{');
            }
        }
    }
}

proof fn lemma_plain_braces(s: Seq<char>)
    requires
        !s.contains('{'),
    ensures
        braces_close(s),
{
    assert forall|i: int| 0 <= i < s.len() && #[trigger] s[i] == '{' implies closes(s, i) by {
        assert(s.contains(s[i]));
    }
}

proof fn lemma_one_pair(s: Seq<char>)
    requires
        s.len() >= 2,
        s[0] == '{',
        s.last() == '}',
        no_brace(s, 1, s.len() as int),
    ensures
        braces_close(s),
{
    assert forall|i: int| 0 <= i < s.len() && #[trigger] s[i] == '{' implies closes(s, i) by {
        assert(s[s.len() - 1] == '}');
        assert(i == 0) by {
            if i > 0 {
                assert(s[i] != '{');
            }
        }
        assert(no_brace(s, 1, s.len() - 1));
    }
}

/// Whether a text is a placeholder: a brace opens at its beginning and closes
/// at its end, and nowhere else.
pub open spec fn is_placeholder(pat: Seq<char>) -> bool {
    &&& pat.len() >= 2
    &&& pat[0] == '{'
    &&& pat.last() == '}'
    &&& forall|k: int| 0 < k < pat.len() - 1 ==> #[trigger] pat[k] != '{' && pat[k] != '}'
}

proof fn lemma_replaced_braces(s: Seq<char>, pat: Seq<char>, val: Seq<char>, i: int)
    requires
        braces_close(s),
        is_placeholder(pat),
        !val.contains('{'),
        0 <= i <= s.len(),
    ensures
        braces_close(crate::text::replace_from(s, pat, val, i)),
    decreases s.len() - i,
{
    if i == s.len() {
        assert(s.skip(i) =~= Seq::<char>::empty());
        lemma_plain_braces(s.skip(i));
    } else if crate::text::occurs_at(s, pat, i) {
        lemma_replaced_braces(s, pat, val, i + pat.len());
        lemma_plain_braces(val);
        lemma_braces_add(val, crate::text::replace_from(s, pat, val, i + pat.len()));
    } else if s[i] == '{' {
        assert(closes(s, i));
        let j = choose|j: int| i < j < s.len() && #[trigger] s[j] == '}' && no_brace(s, i + 1, j);
        assert forall|k: int| i + 1 <= k < j + 1 implies #[trigger] s[k] != pat[0] by {
            if k < j {
                assert(s[k] != '{');
            }
        }
        crate::text::lemma_copy_until(s, pat, val, i + 1, j + 1);
        lemma_replaced_braces(s, pat, val, j + 1);
        let head = s.subrange(i, j + 1);
        assert(no_brace(head, 1, head.len() as int)) by {
            assert forall|k: int| 1 <= k < head.len() implies #[trigger] head[k] != '{' by {
                assert(s[i + k] != pat[0]);
            }
        }
        lemma_one_pair(head);
        let rest = crate::text::replace_from(s, pat, val, j + 1);
        lemma_braces_add(head, rest);
        assert(seq![s[i]] + (s.subrange(i + 1, j + 1) + rest) =~= head + rest);
    } else {
        lemma_replaced_braces(s, pat, val, i + 1);
        let one = seq![s[i]];
        assert(!one.contains('{'));
        lemma_plain_braces(one);
        lemma_braces_add(one, crate::text::replace_from(s, pat, val, i + 1));
    }
}

proof fn lemma_replaced_pieces(a: Seq<char>, b: Seq<char>, pat: Seq<char>, val: Seq<char>)
    requires
        braces_close(a),
        is_placeholder(pat),
        !val.contains('{'),
    ensures
        crate::text::replaced(a + b, pat, val) == crate::text::replaced(a, pat, val)
            + crate::text::replaced(b, pat, val),
        braces_close(crate::text::replaced(a, pat, val)),
{
    let s = a + b;
    assert forall|k: int|
        #![trigger crate::text::occurs_at(s, pat, k)]
        0 <= k < a.len() && crate::text::occurs_at(s, pat, k) implies k + pat.len() <= a.len() by {
        let sub = s.subrange(k, k + pat.len());
        assert(sub[0] == s[k] && s[k] == a[k]);
        assert(closes(a, k));
        let j = choose|j: int| k < j < a.len() && #[trigger] a[j] == '}' && no_brace(a, k + 1, j);
        if k + pat.len() > a.len() {
            assert(sub[j - k] == s[j]);
            assert(pat[j - k] == '}');
            assert(j - k < pat.len() - 1);
        }
    }
    crate::text::lemma_replace_pieces(a, b, pat, val, 0);
    lemma_replaced_braces(a, pat, val, 0);
}

proof fn lemma_find_shift(a: Seq<char>, b: Seq<char>, pat: Seq<char>, j: int)
    requires
        0 <= j,
    ensures
        crate::text::find_from(a + b, pat, a.len() + j) == (match crate::text::find_from(b, pat, j) {
            Some(x) => Some(a.len() + x),
            None => None,
        }),
    decreases b.len() - j + 1,
{
    let s = a + b;
    let n = a.len();
    if j + pat.len() <= b.len() {
        assert(s.subrange(n + j, n + j + pat.len()) =~= b.subrange(j, j + pat.len()));
        if !crate::text::occurs_at(b, pat, j) {
            lemma_find_shift(a, b, pat, j + 1);
        }
    }
}

proof fn lemma_find_is(s: Seq<char>, pat: Seq<char>, i: int, x: int)
    requires
        0 <= i <= x,
        crate::text::occurs_at(s, pat, x),
        forall|k: int| i <= k < x ==> !crate::text::occurs_at(s, pat, k),
    ensures
        crate::text::find_from(s, pat, i) == Some(x),
    decreases x - i,
{
    if i < x {
        lemma_find_is(s, pat, i + 1, x);
    }
}

proof fn lemma_find_later(s: Seq<char>, pat: Seq<char>, i: int, m: int)
    requires
        0 <= i <= m,
        forall|k: int| i <= k < m ==> !crate::text::occurs_at(s, pat, k),
    ensures
        crate::text::find_from(s, pat, i) == crate::text::find_from(s, pat, m),
    decreases m - i,
{
    if i < m {
        if i + pat.len() <= s.len() {
            lemma_find_later(s, pat, i + 1, m);
        } else {
            assert(m + pat.len() > s.len());
        }
    }
}

proof fn lemma_specs_shift(a: Seq<char>, b: Seq<char>, open: Seq<char>, value: nat, j: int)
    requires
        0 <= j <= b.len(),
        open.len() > 0,
    ensures
        with_specs(a + b, open, value, a.len() + j) == with_specs(b, open, value, j),
    decreases b.len() - j,
{
    let s = a + b;
    let n = a.len() as int;
    lemma_find_shift(a, b, open, j);
    assert(s.skip(n + j) =~= b.skip(j));
    if let Some(x) = crate::text::find_from(b, open, j) {
        crate::text::lemma_find_from(b, open, j);
        lemma_find_shift(a, b, seq!['}'], x + open.len());
        if let Some(e) = crate::text::find_from(b, seq!['}'], x + open.len()) {
            crate::text::lemma_find_from(b, seq!['}'], x + open.len());
            assert(s.subrange(n + j, n + x) =~= b.subrange(j, x));
            assert(s.subrange(n + x + open.len(), n + e) =~= b.subrange(x + open.len(), e));
            lemma_specs_shift(a, b, open, value, e + 1);
        }
    }
}

proof fn lemma_number_holds_no_brace(value: nat, spec_text: Seq<char>)
    ensures
        !formatted(value, spec_text).contains('{'),
{
    crate::text::law_decimals_read_back(value);
    let d = crate::text::decimal(value);
    let r = formatted(value, spec_text);
    assert forall|i: int| 0 <= i < r.len() implies r[i] != '{' by {
        let k = r.len() - d.len();
        if i >= k {
            assert(r[i] == d[i - k]);
        }
    }
}

/// Whether a text opens a placeholder: a brace opens at its beginning, and
/// there is no other.
pub open spec fn opens_placeholder(open: Seq<char>) -> bool {
    &&& open.len() > 0
    &&& open[0] == '{'
    &&& forall|k: int| 0 < k < open.len() ==> #[trigger] open[k] != '{' && open[k] != '}'
}

/// Where the placeholder that opens at `x` in `a` closes, also where text
/// follows.
proof fn lemma_closing(a: Seq<char>, b: Seq<char>, open: Seq<char>, x: int) -> (e: int)
    requires
        braces_close(a),
        opens_placeholder(open),
        0 <= x < a.len(),
        crate::text::occurs_at(a + b, open, x),
    ensures
        crate::text::occurs_at(a, open, x),
        x + open.len() <= e < a.len(),
        crate::text::find_from(a, seq!['}'], x + open.len()) == Some(e),
        crate::text::find_from(a + b, seq!['}'], x + open.len()) == Some(e),
{
    let s = a + b;
    let sub = s.subrange(x, x + open.len());
    assert(sub[0] == s[x] && s[x] == a[x]);
    assert(closes(a, x));
    let j = choose|j: int| x < j < a.len() && #[trigger] a[j] == '}' && no_brace(a, x + 1, j);
    assert(x + open.len() <= j) by {
        if j < x + open.len() {
            assert(sub[j - x] == s[j]);
            assert(open[j - x] == '}');
        }
    }
    assert(a.subrange(x, x + open.len()) =~= sub);
    let from = x + open.len();
    let c = seq!['}'];
    crate::text::lemma_find_from(a, c, from);
    assert(a.subrange(j, j + 1) =~= c);
    assert(crate::text::occurs_at(a, c, j));
    let e = crate::text::find_from(a, c, from)->0;
    assert forall|k: int| from <= k < e implies !crate::text::occurs_at(s, c, k) by {
        if crate::text::occurs_at(s, c, k) {
            assert(s.subrange(k, k + 1) =~= a.subrange(k, k + 1));
            assert(crate::text::occurs_at(a, c, k));
        }
    }
    assert(s.subrange(e, e + 1) =~= a.subrange(e, e + 1));
    lemma_find_is(s, c, from, e);
    e
}

proof fn lemma_specs_pieces(a: Seq<char>, b: Seq<char>, open: Seq<char>, value: nat, i: int)
    requires
        braces_close(a),
        opens_placeholder(open),
        0 <= i <= a.len(),
    ensures
        with_specs(a + b, open, value, i) == with_specs(a, open, value, i) + with_specs(
            b,
            open,
            value,
            0,
        ),
        braces_close(with_specs(a, open, value, i)),
    decreases a.len() - i,
{
    let s = a + b;
    let n = a.len() as int;
    let m = open.len() as int;
    let c = seq!['}'];
    crate::text::lemma_find_from(a, open, i);
    match crate::text::find_from(a, open, i) {
        None => {
            assert forall|k: int| i <= k < n implies !crate::text::occurs_at(s, open, k) by {
                if crate::text::occurs_at(s, open, k) {
                    let _ = lemma_closing(a, b, open, k);
                }
            }
            lemma_find_later(s, open, i, n);
            lemma_specs_shift(a, b, open, value, 0);
            assert(n + 0 == n);
            let later = with_specs(b, open, value, 0);
            assert(with_specs(s, open, value, n) == later);
            lemma_braces_from(a, i);
            crate::text::lemma_find_from(s, open, n);
            match crate::text::find_from(s, open, n) {
                None => {
                    assert(s.skip(i) =~= a.skip(i) + s.skip(n));
                },
                Some(x) => {
                    crate::text::lemma_find_from(s, c, x + m);
                    match crate::text::find_from(s, c, x + m) {
                        None => {
                            assert(s.skip(i) =~= a.skip(i) + s.skip(n));
                        },
                        Some(e) => {
                            let tail = with_specs(s, open, value, e + 1);
                            let mid = formatted(value, s.subrange(x + m, e));
                            assert(s.subrange(i, x) + mid + tail =~= a.skip(i) + (s.subrange(n, x)
                                + mid + tail));
                        },
                    }
                },
            }
        },
        Some(x) => {
            assert(s.subrange(x, x + m) =~= a.subrange(x, x + m));
            assert(crate::text::occurs_at(s, open, x));
            assert forall|k: int| i <= k < x implies !crate::text::occurs_at(s, open, k) by {
                if crate::text::occurs_at(s, open, k) {
                    let _ = lemma_closing(a, b, open, k);
                }
            }
            lemma_find_is(s, open, i, x);
            let e = lemma_closing(a, b, open, x);
            lemma_specs_pieces(a, b, open, value, e + 1);
            assert(s.subrange(i, x) =~= a.subrange(i, x));
            assert(s.subrange(x + m, e) =~= a.subrange(x + m, e));
            let head = a.subrange(i, x);
            let mid = formatted(value, a.subrange(x + m, e));
            let tail = with_specs(a, open, value, e + 1);
            let later = with_specs(b, open, value, 0);
            assert(head + mid + (tail + later) =~= head + mid + tail + later);
            assert(a.subrange(x, x + m)[0] == a[x]);
            assert(a[x] == '{');
            assert(braces_close(head)) by {
                assert forall|k: int| 0 <= k < head.len() && #[trigger] head[k] == '{' implies closes(
                    head,
                    k,
                ) by {
                    assert(a[i + k] == '{');
                    assert(closes(a, i + k));
                    let j = choose|j: int|
                        i + k < j < a.len() && #[trigger] a[j] == '}' && no_brace(a, i + k + 1, j);
                    assert(j < x) by {
                        if x < j {
                            assert(a[x] != '{');
                        }
                    }
                    assert(head[j - i] == '}');
                    assert(no_brace(head, k + 1, j - i)) by {
                        assert forall|y: int| k + 1 <= y < j - i implies #[trigger] head[y] != '{' by {
                            assert(a[i + y] != '{');
                        }
                    }
                }
            }
            lemma_number_holds_no_brace(value, a.subrange(x + m, e));
            lemma_plain_braces(mid);
            lemma_braces_add(head, mid);
            lemma_braces_add(head + mid, tail);
        },
    }
}

/// Whether a name has no braces.
spec fn is_name(name: Seq<char>) -> bool {
    !name.contains('{') && !name.contains('}')
}

proof fn lemma_plain_placeholder(name: Seq<char>)
    requires
        is_name(name),
    ensures
        is_placeholder(plain(name)),
        opens_placeholder(seq!['{'] + name + seq![':']),
{
    let p = plain(name);
    assert forall|k: int| 0 < k < p.len() - 1 implies #[trigger] p[k] != '{' && p[k] != '}' by {
        assert(p[k] == name[k - 1]);
        assert(name.contains(name[k - 1]));
    }
    let o = seq!['{'] + name + seq![':'];
    assert forall|k: int| 0 < k < o.len() implies #[trigger] o[k] != '{' && o[k] != '}' by {
        if k <= name.len() {
            assert(o[k] == name[k - 1]);
            assert(name.contains(name[k - 1]));
        }
    }
}

proof fn lemma_var_pieces(a: Seq<char>, b: Seq<char>, name: Seq<char>, value: Seq<char>)
    requires
        braces_close(a),
        is_name(name),
        !value.contains('{'),
    ensures
        with_var(a + b, name, value) == with_var(a, name, value) + with_var(b, name, value),
        braces_close(with_var(a, name, value)),
{
    lemma_plain_placeholder(name);
    lemma_sanitized_holds_no_brace(value);
    lemma_replaced_pieces(a, b, plain(name), sanitized(value));
}

proof fn lemma_number_pieces(a: Seq<char>, b: Seq<char>, name: Seq<char>, value: nat)
    requires
        braces_close(a),
        is_name(name),
    ensures
        with_number(a + b, name, value) == with_number(a, name, value) + with_number(b, name, value),
        braces_close(with_number(a, name, value)),
{
    lemma_plain_placeholder(name);
    let o = seq!['{'] + name + seq![':'];
    lemma_specs_pieces(a, b, o, value, 0);
    lemma_number_holds_no_brace(value, Seq::empty());
    assert(formatted(value, Seq::empty()) == crate::text::decimal(value)) by {
        law_other_specifiers_write_the_bare_number(value, Seq::empty());
    }
    lemma_replaced_pieces(
        with_specs(a, o, value, 0),
        with_specs(b, o, value, 0),
        plain(name),
        crate::text::decimal(value),
    );
}

/// Whether no variable holds an opening brace.
pub open spec fn values_open_nothing(v: Vars) -> bool {
    &&& !v.artist.contains('{')
    &&& !v.album_artist.contains('{')
    &&& !v.album.contains('{')
    &&& !v.year.contains('{')
    &&& !v.title.contains('{')
    &&& !v.genre.contains('{')
    &&& !v.label.contains('{')
    &&& !v.collection.contains('{')
    &&& !crate::text::lowercased(v.ext).contains('{')
}

proof fn lemma_names_and_defaults()
    ensures
        is_name("album_artist"@),
        is_name("artist"@),
        is_name("album"@),
        is_name("year"@),
        is_name("year:4"@),
        is_name("title"@),
        is_name("genre"@),
        is_name("label"@),
        is_name("collection"@),
        is_name("ext"@),
        is_name("track"@),
        is_name("disc"@),
        is_name("position"@),
        !"Unknown"@.contains('{'),
        !"Unknown Album"@.contains('{'),
        !"0000"@.contains('{'),
{
    reveal_strlit("album_artist");
    reveal_strlit("artist");
    reveal_strlit("album");
    reveal_strlit("year");
    reveal_strlit("year:4");
    reveal_strlit("title");
    reveal_strlit("genre");
    reveal_strlit("label");
    reveal_strlit("collection");
    reveal_strlit("ext");
    reveal_strlit("track");
    reveal_strlit("disc");
    reveal_strlit("position");
    reveal_strlit("Unknown");
    reveal_strlit("Unknown Album");
    reveal_strlit("0000");
}

/// A template renders piece by piece: where the braces of its first part
/// close, what comes after that part has no say in it. Together with what
/// single placeholders and plain text give, this is all that a template does.
pub proof fn law_templates_render_piece_by_piece(a: Seq<char>, b: Seq<char>, v: Vars)
    requires
        braces_close(a),
        values_open_nothing(v),
    ensures
        rendered(a + b, v) == rendered(a, v) + rendered(b, v),
{
    reveal(rendered);
    lemma_names_and_defaults();
    let v1 = or_else(v.album_artist, v.artist);
    let v2 = or_else(v.artist, "Unknown"@);
    let v3 = or_else(v.album, "Unknown Album"@);
    let year = or_else(v.year, "0000"@);
    let v6 = or_else(v.title, "Unknown"@);
    let v7 = or_else(v.genre, "Unknown"@);
    let v8 = or_else(v.label, "Unknown"@);
    let v10 = crate::text::lowercased(v.ext);
    let (a1, b1) = (with_var(a, "album_artist"@, v1), with_var(b, "album_artist"@, v1));
    lemma_var_pieces(a, b, "album_artist"@, v1);
    let (a2, b2) = (with_var(a1, "artist"@, v2), with_var(b1, "artist"@, v2));
    lemma_var_pieces(a1, b1, "artist"@, v2);
    let (a3, b3) = (with_var(a2, "album"@, v3), with_var(b2, "album"@, v3));
    lemma_var_pieces(a2, b2, "album"@, v3);
    let four = padded(sanitized(year), '0', 4);
    lemma_sanitized_holds_no_brace(year);
    assert(!four.contains('{')) by {
        let y = sanitized(year);
        assert forall|i: int| 0 <= i < four.len() implies four[i] != '{' by {
            let k = four.len() - y.len();
            if i >= k {
                assert(four[i] == y[i - k]);
                assert(y.contains(y[i - k]));
            }
        }
    }
    let p4 = plain("year:4"@);
    lemma_plain_placeholder("year:4"@);
    lemma_replaced_pieces(a3, b3, p4, four);
    let (a4, b4) = (crate::text::replaced(a3, p4, four), crate::text::replaced(b3, p4, four));
    lemma_var_pieces(a4, b4, "year"@, year);
    let (a5, b5) = (with_var(a4, "year"@, year), with_var(b4, "year"@, year));
    lemma_var_pieces(a5, b5, "title"@, v6);
    let (a6, b6) = (with_var(a5, "title"@, v6), with_var(b5, "title"@, v6));
    lemma_var_pieces(a6, b6, "genre"@, v7);
    let (a7, b7) = (with_var(a6, "genre"@, v7), with_var(b6, "genre"@, v7));
    lemma_var_pieces(a7, b7, "label"@, v8);
    let (a8, b8) = (with_var(a7, "label"@, v8), with_var(b7, "label"@, v8));
    lemma_var_pieces(a8, b8, "collection"@, v.collection);
    let (a9, b9) = (
        with_var(a8, "collection"@, v.collection),
        with_var(b8, "collection"@, v.collection),
    );
    lemma_var_pieces(a9, b9, "ext"@, v10);
    let (a10, b10) = (with_var(a9, "ext"@, v10), with_var(b9, "ext"@, v10));
    lemma_number_pieces(a10, b10, "track"@, v.track as nat);
    let (a11, b11) = (
        with_number(a10, "track"@, v.track as nat),
        with_number(b10, "track"@, v.track as nat),
    );
    lemma_number_pieces(a11, b11, "disc"@, v.disc as nat);
    let (a12, b12) = (
        with_number(a11, "disc"@, v.disc as nat),
        with_number(b11, "disc"@, v.disc as nat),
    );
    lemma_number_pieces(a12, b12, "position"@, v.position as nat);
}

proof fn lemma_replaced_done(s: Seq<char>, pat: Seq<char>, val: Seq<char>)
    requires
        !s.contains('{'),
        is_placeholder(pat),
    ensures
        crate::text::replaced(s, pat, val) == s,
{
    crate::text::law_nothing_to_replace_changes_nothing(s, pat, val);
}

proof fn lemma_specs_done(s: Seq<char>, open: Seq<char>, value: nat)
    requires
        opens_placeholder(open),
        forall|k: int| !crate::text::occurs_at(s, open, k),
    ensures
        with_specs(s, open, value, 0) == s,
{
    crate::text::lemma_find_from(s, open, 0);
    assert(s.skip(0) =~= s);
}

proof fn lemma_number_done(s: Seq<char>, name: Seq<char>, value: nat)
    requires
        !s.contains('{'),
        is_name(name),
    ensures
        with_number(s, name, value) == s,
{
    lemma_plain_placeholder(name);
    let o = seq!['{'] + name + seq![':'];
    assert forall|k: int| !crate::text::occurs_at(s, o, k) by {
        if crate::text::occurs_at(s, o, k) {
            assert(s.subrange(k, k + o.len())[0] == o[0]);
            assert(s[k] == '{');
        }
    }
    lemma_specs_done(s, o, value);
    lemma_replaced_done(s, plain(name), crate::text::decimal(value));
}

/// Text without opening braces stands for itself in a template.
pub proof fn law_plain_text_renders_as_itself(s: Seq<char>, v: Vars)
    requires
        !s.contains('{'),
    ensures
        rendered(s, v) == s,
{
    reveal(rendered);
    lemma_names_and_defaults();
    lemma_settled_text(s);
    lemma_plain_placeholder("year:4"@);
    lemma_replaced_done(s, plain("year:4"@), padded(sanitized(or_else(v.year, "0000"@)), '0', 4));
}

proof fn lemma_settled_text(s: Seq<char>)
    requires
        !s.contains('{'),
    ensures
        forall|name: Seq<char>, value: Seq<char>|
            is_name(name) ==> #[trigger] with_var(s, name, value) == s,
        forall|name: Seq<char>, value: nat|
            is_name(name) ==> #[trigger] with_number(s, name, value) == s,
{
    assert forall|name: Seq<char>, value: Seq<char>| is_name(name) implies #[trigger] with_var(
        s,
        name,
        value,
    ) == s by {
        lemma_plain_placeholder(name);
        lemma_replaced_done(s, plain(name), sanitized(value));
    }
    assert forall|name: Seq<char>, value: nat| is_name(name) implies #[trigger] with_number(
        s,
        name,
        value,
    ) == s by {
        lemma_number_done(s, name, value);
    }
}

proof fn lemma_other_placeholder(x: Seq<char>, y: Seq<char>, val: Seq<char>)
    requires
        is_name(x),
        is_name(y),
        x != y,
    ensures
        crate::text::replaced(plain(x), plain(y), val) == plain(x),
{
    lemma_plain_placeholder(x);
    lemma_plain_placeholder(y);
    let s = plain(x);
    let p = plain(y);
    assert(!crate::text::occurs_at(s, p, 0)) by {
        if crate::text::occurs_at(s, p, 0) {
            let sub = s.subrange(0, p.len() as int);
            assert(sub[p.len() - 1] == p[p.len() - 1]);
            assert(s[p.len() - 1] == '}');
            if p.len() < s.len() {
                assert(s[p.len() - 1] == x[p.len() - 2]);
                assert(x.contains(x[p.len() - 2]));
            }
            assert(p =~= s);
            assert(plain(x).subrange(1, (x.len() + 1) as int) =~= x);
            assert(plain(y).subrange(1, (y.len() + 1) as int) =~= y);
        }
    }
    assert forall|k: int| 1 <= k < s.len() implies #[trigger] s[k] != p[0] by {
        if k < s.len() - 1 {
            assert(s[k] == x[k - 1]);
            assert(x.contains(x[k - 1]));
        }
    }
    crate::text::lemma_copy_until(s, p, val, 1, s.len() as int);
    assert(seq![s[0]] + (s.subrange(1, s.len() as int) + s.skip(s.len() as int)) =~= s);
}

proof fn lemma_own_placeholder(x: Seq<char>, val: Seq<char>)
    requires
        is_name(x),
    ensures
        crate::text::replaced(plain(x), plain(x), val) == val,
{
    let none = Seq::<char>::empty();
    lemma_plain_placeholder(x);
    crate::text::law_an_occurrence_is_replaced(none, plain(x), none, val);
    assert(none + plain(x) + none =~= plain(x));
    assert(none + val + none =~= val);
}

/// What a number's placeholder with a specifier gives, before plain ones are
/// replaced.
proof fn lemma_specs_of_placeholder(x: Seq<char>, name: Seq<char>, value: nat)
    requires
        is_name(x),
        is_name(name),
    ensures
        !crate::text::begins(x, name + seq![':']) ==> with_specs(
            plain(x),
            seq!['{'] + name + seq![':'],
            value,
            0,
        ) == plain(x),
        crate::text::begins(x, name + seq![':']) ==> with_specs(
            plain(x),
            seq!['{'] + name + seq![':'],
            value,
            0,
        ) == formatted(value, x.skip((name.len() + 1) as int)),
{
    lemma_plain_placeholder(x);
    lemma_plain_placeholder(name);
    let s = plain(x);
    let o = seq!['{'] + name + seq![':'];
    let q = name + seq![':'];
    assert forall|k: int| k != 0 implies !crate::text::occurs_at(s, o, k) by {
        if crate::text::occurs_at(s, o, k) {
            assert(s.subrange(k, k + o.len())[0] == o[0]);
            assert(s[k] == '{');
            if k < s.len() - 1 {
                assert(s[k] == x[k - 1]);
                assert(x.contains(x[k - 1]));
            }
        }
    }
    if crate::text::begins(x, q) {
        assert(s.subrange(0, o.len() as int) =~= o) by {
            assert forall|k: int| 0 <= k < o.len() implies s[k] == o[k] by {
                if k > 0 {
                    assert(s[k] == x[k - 1]);
                    assert(x.take(q.len() as int)[k - 1] == q[k - 1]);
                    assert(o[k] == q[k - 1]);
                }
            }
        }
        assert(crate::text::occurs_at(s, o, 0));
        lemma_find_is(s, o, 0, 0);
        let c = seq!['}'];
        let e = s.len() - 1;
        assert(s.subrange(e, e + 1) =~= c);
        assert forall|k: int| o.len() <= k < e implies !crate::text::occurs_at(s, c, k) by {
            if crate::text::occurs_at(s, c, k) {
                assert(s.subrange(k, k + 1)[0] == '}');
                assert(s[k] == x[k - 1]);
                assert(x.contains(x[k - 1]));
            }
        }
        lemma_find_is(s, c, o.len() as int, e);
        assert(s.subrange(o.len() as int, e) =~= x.skip((name.len() + 1) as int));
        let rest = with_specs(s, o, value, e + 1);
        crate::text::lemma_find_from(s, o, e + 1);
        assert(rest =~= Seq::<char>::empty());
        let f = formatted(value, s.subrange(o.len() as int, e));
        assert(s.subrange(0, 0) + f + rest =~= f);
    } else {
        assert(!crate::text::occurs_at(s, o, 0)) by {
            if crate::text::occurs_at(s, o, 0) {
                let sub = s.subrange(0, o.len() as int);
                assert(o.len() < s.len()) by {
                    assert(sub[o.len() - 1] == ':');
                }
                assert(x.take(q.len() as int) =~= q) by {
                    assert forall|k: int| 0 <= k < q.len() implies x[k] == q[k] by {
                        assert(sub[k + 1] == o[k + 1]);
                        assert(s[k + 1] == x[k]);
                    }
                }
            }
        }
        lemma_specs_done(s, o, value);
    }
}

proof fn lemma_open_text(x: Seq<char>)
    requires
        is_name(x),
    ensures
        forall|name: Seq<char>, value: Seq<char>|
            is_name(name) && name != x ==> #[trigger] with_var(plain(x), name, value) == plain(x),
        forall|value: Seq<char>| #[trigger] with_var(plain(x), x, value) == sanitized(value),
        forall|name: Seq<char>, value: nat|
            is_name(name) && name != x && !x.contains(':') ==> #[trigger] with_number(
                plain(x),
                name,
                value,
            ) == plain(x),
        forall|value: nat|
            !x.contains(':') ==> #[trigger] with_number(plain(x), x, value)
                == crate::text::decimal(value),
{
    assert forall|name: Seq<char>, value: Seq<char>| is_name(name) && name != x implies #[trigger] with_var(
        plain(x),
        name,
        value,
    ) == plain(x) by {
        lemma_other_placeholder(x, name, sanitized(value));
    }
    assert forall|value: Seq<char>| #[trigger] with_var(plain(x), x, value) == sanitized(value) by {
        lemma_own_placeholder(x, sanitized(value));
    }
    assert forall|name: Seq<char>| !x.contains(':') implies !#[trigger] crate::text::begins(
        x,
        name + seq![':'],
    ) by {
        let q = name + seq![':'];
        if crate::text::begins(x, q) {
            assert(x.take(q.len() as int)[name.len() as int] == ':');
            assert(x[name.len() as int] == ':');
        }
    }
    assert forall|name: Seq<char>, value: nat|
        is_name(name) && name != x && !x.contains(':') implies #[trigger] with_number(
        plain(x),
        name,
        value,
    ) == plain(x) by {
        assert(!crate::text::begins(x, name + seq![':']));
        lemma_specs_of_placeholder(x, name, value);
        lemma_other_placeholder(x, name, crate::text::decimal(value));
    }
    assert forall|value: nat| !x.contains(':') implies #[trigger] with_number(plain(x), x, value)
        == crate::text::decimal(value) by {
        assert(!crate::text::begins(x, x + seq![':']));
        lemma_specs_of_placeholder(x, x, value);
        lemma_own_placeholder(x, crate::text::decimal(value));
    }
}

proof fn lemma_names_differ()
    ensures
        forall|x: Seq<char>| #[trigger] is_text_name(x) ==> !x.contains(':'),
        forall|x: Seq<char>| #[trigger] is_text_name(x) ==> x != "year:4"@,
        "album_artist"@.len() == 12,
        "artist"@.len() == 6,
        "album"@.len() == 5 && "album"@[0] == 'a',
        "year"@.len() == 4 && "year"@[0] == 'y',
        "year:4"@.len() == 6 && "year:4"@[0] == 'y',
        "title"@.len() == 5 && "title"@[0] == 't' && "title"@[1] == 'i',
        "genre"@.len() == 5 && "genre"@[0] == 'g',
        "label"@.len() == 5 && "label"@[0] == 'l',
        "collection"@.len() == 10,
        "ext"@.len() == 3,
        "track"@.len() == 5 && "track"@[0] == 't' && "track"@[1] == 'r',
        "disc"@.len() == 4 && "disc"@[0] == 'd',
        "position"@.len() == 8 && "position"@[0] == 'p',
        "artist"@[0] == 'a',
{
    reveal_strlit("album_artist");
    reveal_strlit("artist");
    reveal_strlit("album");
    reveal_strlit("year");
    reveal_strlit("year:4");
    reveal_strlit("title");
    reveal_strlit("genre");
    reveal_strlit("label");
    reveal_strlit("collection");
    reveal_strlit("ext");
    reveal_strlit("track");
    reveal_strlit("disc");
    reveal_strlit("position");
    assert("year:4"@[4] == ':');
    assert("year:4"@.contains(':'));
}

/// Whether this is the name of a variable.
spec fn is_text_name(x: Seq<char>) -> bool {
    x == "album_artist"@ || x == "artist"@ || x == "album"@ || x == "year"@ || x == "title"@ || x
        == "genre"@ || x == "label"@ || x == "collection"@ || x == "ext"@ || x == "track"@ || x
        == "disc"@ || x == "position"@
}

proof fn lemma_render_one(x: Seq<char>, v: Vars)
    requires
        is_text_name(x),
        values_open_nothing(v),
    ensures
        rendered(plain(x), v) == (if x == "album_artist"@ {
            sanitized(or_else(v.album_artist, v.artist))
        } else if x == "artist"@ {
            sanitized(or_else(v.artist, "Unknown"@))
        } else if x == "album"@ {
            sanitized(or_else(v.album, "Unknown Album"@))
        } else if x == "year"@ {
            sanitized(or_else(v.year, "0000"@))
        } else if x == "title"@ {
            sanitized(or_else(v.title, "Unknown"@))
        } else if x == "genre"@ {
            sanitized(or_else(v.genre, "Unknown"@))
        } else if x == "label"@ {
            sanitized(or_else(v.label, "Unknown"@))
        } else if x == "collection"@ {
            sanitized(v.collection)
        } else if x == "ext"@ {
            sanitized(crate::text::lowercased(v.ext))
        } else if x == "track"@ {
            crate::text::decimal(v.track as nat)
        } else if x == "disc"@ {
            crate::text::decimal(v.disc as nat)
        } else {
            crate::text::decimal(v.position as nat)
        }),
{
    reveal(rendered);
    lemma_names_and_defaults();
    lemma_names_differ();
    lemma_open_text(x);
    let year = or_else(v.year, "0000"@);
    let four = padded(sanitized(year), '0', 4);
    lemma_plain_placeholder("year:4"@);
    lemma_other_placeholder(x, "year:4"@, four);
    let r = rendered(plain(x), v);
    if x == "album_artist"@ {
        let s = sanitized(or_else(v.album_artist, v.artist));
        lemma_sanitized_holds_no_brace(or_else(v.album_artist, v.artist));
        lemma_settled_text(s);
        lemma_replaced_done(s, plain("year:4"@), four);
    } else if x == "artist"@ {
        let s = sanitized(or_else(v.artist, "Unknown"@));
        lemma_sanitized_holds_no_brace(or_else(v.artist, "Unknown"@));
        lemma_settled_text(s);
        lemma_replaced_done(s, plain("year:4"@), four);
    } else if x == "album"@ {
        let s = sanitized(or_else(v.album, "Unknown Album"@));
        lemma_sanitized_holds_no_brace(or_else(v.album, "Unknown Album"@));
        lemma_settled_text(s);
        lemma_replaced_done(s, plain("year:4"@), four);
    } else if x == "year"@ {
        lemma_sanitized_holds_no_brace(year);
        lemma_settled_text(sanitized(year));
    } else if x == "title"@ {
        lemma_sanitized_holds_no_brace(or_else(v.title, "Unknown"@));
        lemma_settled_text(sanitized(or_else(v.title, "Unknown"@)));
    } else if x == "genre"@ {
        lemma_sanitized_holds_no_brace(or_else(v.genre, "Unknown"@));
        lemma_settled_text(sanitized(or_else(v.genre, "Unknown"@)));
    } else if x == "label"@ {
        lemma_sanitized_holds_no_brace(or_else(v.label, "Unknown"@));
        lemma_settled_text(sanitized(or_else(v.label, "Unknown"@)));
    } else if x == "collection"@ {
        lemma_sanitized_holds_no_brace(v.collection);
        lemma_settled_text(sanitized(v.collection));
    } else if x == "ext"@ {
        lemma_sanitized_holds_no_brace(crate::text::lowercased(v.ext));
        lemma_settled_text(sanitized(crate::text::lowercased(v.ext)));
    } else if x == "track"@ {
        lemma_number_holds_no_brace(v.track as nat, Seq::empty());
        law_other_specifiers_write_the_bare_number(v.track as nat, Seq::empty());
        lemma_settled_text(crate::text::decimal(v.track as nat));
    } else if x == "disc"@ {
        lemma_number_holds_no_brace(v.disc as nat, Seq::empty());
        law_other_specifiers_write_the_bare_number(v.disc as nat, Seq::empty());
        lemma_settled_text(crate::text::decimal(v.disc as nat));
    } else {
        lemma_number_holds_no_brace(v.position as nat, Seq::empty());
        law_other_specifiers_write_the_bare_number(v.position as nat, Seq::empty());
        lemma_settled_text(crate::text::decimal(v.position as nat));
    }
}

/// A placeholder by itself gives its variable, made safe as one component. A
/// missing album artist is the artist; other missing values are called
/// unknown, and a missing year is four zeros. Numbers stand bare.
pub proof fn law_placeholders_give_their_variables(v: Vars)
    requires
        values_open_nothing(v),
    ensures
        v.album_artist.len() > 0 ==> rendered(plain("album_artist"@), v) == sanitized(v.album_artist),
        v.album_artist.len() == 0 ==> rendered(plain("album_artist"@), v) == sanitized(v.artist),
        v.artist.len() > 0 ==> rendered(plain("artist"@), v) == sanitized(v.artist),
        v.artist.len() == 0 ==> rendered(plain("artist"@), v) == sanitized("Unknown"@),
        v.album.len() > 0 ==> rendered(plain("album"@), v) == sanitized(v.album),
        v.album.len() == 0 ==> rendered(plain("album"@), v) == sanitized("Unknown Album"@),
        v.year.len() > 0 ==> rendered(plain("year"@), v) == sanitized(v.year),
        v.year.len() == 0 ==> rendered(plain("year"@), v) == sanitized("0000"@),
        v.title.len() > 0 ==> rendered(plain("title"@), v) == sanitized(v.title),
        v.title.len() == 0 ==> rendered(plain("title"@), v) == sanitized("Unknown"@),
        v.genre.len() > 0 ==> rendered(plain("genre"@), v) == sanitized(v.genre),
        v.genre.len() == 0 ==> rendered(plain("genre"@), v) == sanitized("Unknown"@),
        v.label.len() > 0 ==> rendered(plain("label"@), v) == sanitized(v.label),
        v.label.len() == 0 ==> rendered(plain("label"@), v) == sanitized("Unknown"@),
        rendered(plain("collection"@), v) == sanitized(v.collection),
        rendered(plain("ext"@), v) == sanitized(crate::text::lowercased(v.ext)),
        crate::text::digits_value(rendered(plain("track"@), v)) == v.track,
        crate::text::digits_value(rendered(plain("disc"@), v)) == v.disc,
        crate::text::digits_value(rendered(plain("position"@), v)) == v.position,
{
    lemma_names_differ();
    lemma_render_one("album_artist"@, v);
    lemma_render_one("artist"@, v);
    lemma_render_one("album"@, v);
    lemma_render_one("year"@, v);
    lemma_render_one("title"@, v);
    lemma_render_one("genre"@, v);
    lemma_render_one("label"@, v);
    lemma_render_one("collection"@, v);
    lemma_render_one("ext"@, v);
    lemma_render_one("track"@, v);
    lemma_render_one("disc"@, v);
    lemma_render_one("position"@, v);
    crate::text::law_decimals_read_back(v.track as nat);
    crate::text::law_decimals_read_back(v.disc as nat);
    crate::text::law_decimals_read_back(v.position as nat);
}

/// A number's placeholder with a specifier gives the number as the specifier
/// asks, in the names of tracks, discs and positions alike.
pub proof fn law_numbers_take_specifiers(spec_text: Seq<char>, v: Vars)
    requires
        !spec_text.contains('{'),
        !spec_text.contains('}'),
    ensures
        rendered(plain("track:"@ + spec_text), v) == formatted(v.track as nat, spec_text),
        rendered(plain("disc:"@ + spec_text), v) == formatted(v.disc as nat, spec_text),
        rendered(plain("position:"@ + spec_text), v) == formatted(v.position as nat, spec_text),
{
    reveal_strlit("track:");
    reveal_strlit("disc:");
    reveal_strlit("position:");
    reveal_strlit("track");
    reveal_strlit("disc");
    reveal_strlit("position");
    assert("track:"@ =~= "track"@ + seq![':']);
    assert("disc:"@ =~= "disc"@ + seq![':']);
    assert("position:"@ =~= "position"@ + seq![':']);
    lemma_render_spec("track"@, spec_text, v);
    lemma_render_spec("disc"@, spec_text, v);
    lemma_render_spec("position"@, spec_text, v);
}

proof fn lemma_render_numbers(x: Seq<char>, v: Vars)
    requires
        is_name(x),
        x.contains(':'),
        x != "year:4"@,
    ensures
        rendered(plain(x), v) == with_number(
            with_number(with_number(plain(x), "track"@, v.track as nat), "disc"@, v.disc as nat),
            "position"@,
            v.position as nat,
        ),
{
    reveal(rendered);
    lemma_names_and_defaults();
    lemma_names_differ();
    let four = padded(sanitized(or_else(v.year, "0000"@)), '0', 4);
    lemma_open_text(x);
    lemma_other_placeholder(x, "year:4"@, four);
    assert(is_text_name("album_artist"@) && is_text_name("artist"@) && is_text_name("album"@)
        && is_text_name("year"@) && is_text_name("title"@) && is_text_name("genre"@)
        && is_text_name("label"@) && is_text_name("collection"@) && is_text_name("ext"@));
}

proof fn lemma_render_spec(name: Seq<char>, spec_text: Seq<char>, v: Vars)
    requires
        name == "track"@ || name == "disc"@ || name == "position"@,
        !spec_text.contains('{'),
        !spec_text.contains('}'),
    ensures
        rendered(plain(name + seq![':'] + spec_text), v) == formatted(
            (if name == "track"@ {
                v.track
            } else if name == "disc"@ {
                v.disc
            } else {
                v.position
            }) as nat,
            spec_text,
        ),
{
    lemma_names_and_defaults();
    lemma_names_differ();
    let x = name + seq![':'] + spec_text;
    let n = name.len() as int;
    assert(name[0] == 't' || name[0] == 'd' || name[0] == 'p');
    assert(x[0] == name[0]);
    assert(x[n] == ':');
    assert(x.contains(':'));
    assert(is_name(x)) by {
        assert forall|k: int| 0 <= k < x.len() implies x[k] != '{' && x[k] != '}' by {
            if k < n {
                assert(x[k] == name[k]);
                assert(name.contains(name[k]));
            } else if k > n {
                assert(x[k] == spec_text[k - n - 1]);
                assert(spec_text.contains(spec_text[k - n - 1]));
            }
        }
    }
    assert(x != "year:4"@);
    lemma_render_numbers(x, v);
    assert(is_text_name("track"@) && is_text_name("disc"@) && is_text_name("position"@));
    assert(x != "track"@ && x != "disc"@ && x != "position"@);
    let value = (if name == "track"@ {
        v.track
    } else if name == "disc"@ {
        v.disc
    } else {
        v.position
    }) as nat;
    let f = formatted(value, spec_text);
    lemma_number_holds_no_brace(value, spec_text);
    lemma_settled_text(f);
    assert(with_number(plain(x), name, value) == f) by {
        let q = name + seq![':'];
        assert(x.take(q.len() as int) =~= q);
        assert(x.skip((name.len() + 1) as int) =~= spec_text);
        lemma_specs_of_placeholder(x, name, value);
        lemma_plain_placeholder(name);
        lemma_replaced_done(f, plain(name), crate::text::decimal(value));
    }
    if name != "track"@ {
        lemma_other_number(x, name, spec_text, "track"@, v.track as nat);
    }
    if name == "position"@ {
        lemma_other_number(x, name, spec_text, "disc"@, v.disc as nat);
    }
}

proof fn lemma_other_number(
    x: Seq<char>,
    name: Seq<char>,
    spec_text: Seq<char>,
    other: Seq<char>,
    value: nat,
)
    requires
        is_name(x),
        is_name(other),
        x == name + seq![':'] + spec_text,
        name.len() > 0,
        other.len() > 0,
        name[0] != other[0],
        x != other,
    ensures
        with_number(plain(x), other, value) == plain(x),
{
    let q = other + seq![':'];
    assert(!crate::text::begins(x, q)) by {
        if crate::text::begins(x, q) {
            assert(x.take(q.len() as int)[0] == other[0]);
            assert(x[0] == name[0]);
        }
    }
    lemma_specs_of_placeholder(x, other, value);
    lemma_other_placeholder(x, other, crate::text::decimal(value));
}

/// `{year:4}` gives the year with four digits: zeros stand in front of one
/// that is shorter.
pub proof fn law_years_take_four_digits(v: Vars)
    requires
        values_open_nothing(v),
    ensures
        ({
            let year = sanitized(if v.year.len() > 0 { v.year } else { "0000"@ });
            let r = rendered(plain("year:4"@), v);
            let zeros = r.len() - year.len();
            &&& r.len() == (if year.len() >= 4 { year.len() } else { 4 })
            &&& r.skip(zeros) == year
            &&& forall|i: int| 0 <= i < zeros ==> #[trigger] r[i] == '0'
        }),
{
    reveal(rendered);
    lemma_names_and_defaults();
    lemma_names_differ();
    let x = "year:4"@;
    lemma_open_text(x);
    assert(is_text_name("album_artist"@) && is_text_name("artist"@) && is_text_name("album"@));
    let year = or_else(v.year, "0000"@);
    let y = sanitized(year);
    let four = padded(y, '0', 4);
    lemma_own_placeholder(x, four);
    lemma_sanitized_holds_no_brace(year);
    assert(!four.contains('{')) by {
        assert forall|i: int| 0 <= i < four.len() implies four[i] != '{' by {
            let k = four.len() - y.len();
            if i >= k {
                assert(four[i] == y[i - k]);
                assert(y.contains(y[i - k]));
            }
        }
    }
    lemma_settled_text(four);
    let r = rendered(plain(x), v);
    assert(r == four);
    assert(r.skip(r.len() - y.len()) =~= y);
}

} // verus!
