//! Character and byte sequence helpers shared by the parsers: searching,
//! splitting, trimming, case folding and number parsing, each with the
//! mathematical function it computes.
use vstd::prelude::*;
use vstd::std_specs::iter::IteratorSpec;
use vstd::utf8::{decode_utf8, valid_utf8};

verus! {

/// Whitespace as `char::is_whitespace` defines it (the Unicode `White_Space` property).
pub open spec fn is_ws(c: char) -> bool {
    let u = c as u32;
    (9 <= u && u <= 13) || u == 32 || u == 0x85 || u == 0xa0 || u == 0x1680 || (0x2000 <= u
        && u <= 0x200a) || u == 0x2028 || u == 0x2029 || u == 0x202f || u == 0x205f || u
        == 0x3000
}

/// Index of the first `c` in `s` at or after `i`, or `s.len()` when there is none.
pub open spec fn index_of(s: Seq<char>, c: char, i: int) -> int
    decreases s.len() - i,
{
    if i < 0 || i >= s.len() {
        s.len() as int
    } else if s[i] == c {
        i
    } else {
        index_of(s, c, i + 1)
    }
}

/// `pat` occurs in `s` starting at index `i`.
pub open spec fn occurs_at<T>(s: Seq<T>, pat: Seq<T>, i: int) -> bool {
    0 <= i && i + pat.len() <= s.len() && s.subrange(i, i + pat.len()) == pat
}

/// Index of the first occurrence of `pat` in `s` at or after `i`, or -1.
pub open spec fn find_from<T>(s: Seq<T>, pat: Seq<T>, i: int) -> int
    decreases s.len() - i,
{
    if i < 0 || i >= s.len() || i + pat.len() > s.len() {
        -1
    } else if occurs_at(s, pat, i) {
        i
    } else {
        find_from(s, pat, i + 1)
    }
}

/// The first occurrence found from `i` is a real occurrence, with none before it.
pub proof fn lemma_find_from<T>(s: Seq<T>, pat: Seq<T>, i: int)
    requires
        0 <= i,
        pat.len() > 0,
    ensures
        find_from(s, pat, i) == -1 || (i <= find_from(s, pat, i) && occurs_at(
            s,
            pat,
            find_from(s, pat, i),
        )),
        forall|j: int| i <= j && (find_from(s, pat, i) == -1 || j < find_from(s, pat, i)) ==> !occurs_at(s, pat, j),
    decreases s.len() - i,
{
    if i < s.len() && i + pat.len() <= s.len() && !occurs_at(s, pat, i) {
        lemma_find_from(s, pat, i + 1);
    }
}

/// Where an occurrence from `i` is found, the same one is found in any longer sequence.
pub proof fn lemma_find_from_extend<T>(s: Seq<T>, more: Seq<T>, pat: Seq<T>, i: int)
    requires
        0 <= i,
        pat.len() > 0,
        find_from(s, pat, i) >= 0,
    ensures
        find_from(s + more, pat, i) == find_from(s, pat, i),
    decreases s.len() - i,
{
    let t = s + more;
    if i < s.len() && i + pat.len() <= s.len() {
        assert(t.subrange(i, i + pat.len()) =~= s.subrange(i, i + pat.len()));
        if !occurs_at(s, pat, i) {
            lemma_find_from_extend(s, more, pat, i + 1);
        }
    }
}

pub open spec fn crlf_bytes() -> Seq<u8> {
    seq![13u8, 10u8]
}

pub open spec fn crlf_chars() -> Seq<char> {
    seq!['\r', '\n']
}

/// End of the leading whitespace of `s` from `i`.
pub open spec fn skip_ws(s: Seq<char>, i: int) -> int
    decreases s.len() - i,
{
    if 0 <= i < s.len() && is_ws(s[i]) {
        skip_ws(s, i + 1)
    } else {
        i
    }
}

/// Start of the trailing whitespace of `s` before `j`, not going below `lo`.
pub open spec fn back_ws(s: Seq<char>, lo: int, j: int) -> int
    decreases j - lo,
{
    if lo < j && j <= s.len() && is_ws(s[j - 1]) {
        back_ws(s, lo, j - 1)
    } else {
        j
    }
}

/// `s` without leading and trailing whitespace, as `str::trim` gives it.
pub open spec fn trim(s: Seq<char>) -> Seq<char> {
    let a = skip_ws(s, 0);
    s.subrange(a, back_ws(s, a, s.len() as int))
}

/// Trimming leaves alone a sequence that neither starts nor ends with whitespace.
pub proof fn lemma_trim_plain(s: Seq<char>)
    requires
        s.len() == 0 || (!is_ws(s[0]) && !is_ws(s.last())),
    ensures
        trim(s) == s,
{
    assert(skip_ws(s, 0) == 0);
    assert(back_ws(s, 0, s.len() as int) == s.len());
    assert(s.subrange(0, s.len() as int) =~= s);
}

/// ASCII lower case of one character, as `char::to_ascii_lowercase` gives it.
pub open spec fn lower_char(c: char) -> char {
    if 'A' <= c && c <= 'Z' {
        ((c as u32) + 32) as char
    } else {
        c
    }
}

pub open spec fn lower(s: Seq<char>) -> Seq<char> {
    s.map_values(|c: char| lower_char(c))
}

/// The pieces of `s[start..]` between occurrences of `c`, scanning from `i`,
/// as `str::split` gives them.
pub open spec fn split_from(s: Seq<char>, c: char, start: int, i: int) -> Seq<Seq<char>>
    decreases s.len() - i,
{
    if i < start || start < 0 || i >= s.len() {
        seq![s.subrange(start, s.len() as int)]
    } else if s[i] == c {
        seq![s.subrange(start, i)] + split_from(s, c, i + 1, i + 1)
    } else {
        split_from(s, c, start, i + 1)
    }
}

pub open spec fn split(s: Seq<char>, c: char) -> Seq<Seq<char>> {
    split_from(s, c, 0, 0)
}

/// The pieces of `s[start..]` between occurrences of CRLF, scanning from `i`.
pub open spec fn lines_from(s: Seq<char>, start: int, i: int) -> Seq<Seq<char>>
    decreases s.len() - i,
{
    if i < start || start < 0 || i + 1 >= s.len() {
        seq![s.subrange(start, s.len() as int)]
    } else if s[i] == '\r' && s[i + 1] == '\n' {
        seq![s.subrange(start, i)] + lines_from(s, i + 2, i + 2)
    } else {
        lines_from(s, start, i + 1)
    }
}

pub open spec fn lines(s: Seq<char>) -> Seq<Seq<char>> {
    lines_from(s, 0, 0)
}

/// Splitting into lines always gives at least one line.
pub proof fn lemma_lines_nonempty(s: Seq<char>, start: int, i: int)
    ensures
        lines_from(s, start, i).len() > 0,
    decreases s.len() - i,
{
    if !(i < start || start < 0 || i + 1 >= s.len()) {
        lemma_lines_nonempty(s, start, i + 1);
        lemma_lines_nonempty(s, i + 2, i + 2);
    }
}

/// `str::split_once` on one character: the text before and after its first occurrence.
pub open spec fn split_once(s: Seq<char>, c: char) -> Option<(Seq<char>, Seq<char>)> {
    let k = index_of(s, c, 0);
    if k >= s.len() {
        None
    } else {
        Some((s.subrange(0, k), s.subrange(k + 1, s.len() as int)))
    }
}

pub open spec fn views(v: Seq<Vec<char>>) -> Seq<Seq<char>> {
    v.map_values(|x: Vec<char>| x@)
}

pub open spec fn is_dec_digit(c: char) -> bool {
    '0' <= c && c <= '9'
}

pub open spec fn is_hex_digit(c: char) -> bool {
    ('0' <= c && c <= '9') || ('a' <= c && c <= 'f') || ('A' <= c && c <= 'F')
}

pub open spec fn digit_value(c: char) -> nat {
    if '0' <= c && c <= '9' {
        (c as u32 - '0' as u32) as nat
    } else if 'a' <= c && c <= 'f' {
        (c as u32 - 'a' as u32 + 10) as nat
    } else {
        (c as u32 - 'A' as u32 + 10) as nat
    }
}

pub open spec fn is_digit_in(c: char, radix: nat) -> bool {
    if radix == 16 {
        is_hex_digit(c)
    } else {
        is_dec_digit(c)
    }
}

/// The number that the digits of `s` write in base `radix`.
pub open spec fn digits_value(s: Seq<char>, radix: nat) -> nat
    decreases s.len(),
{
    if s.len() == 0 {
        0
    } else {
        digits_value(s.drop_last(), radix) * radix + digit_value(s.last())
    }
}

/// The digits of a number as `usize::from_str_radix` reads them: `s` without one leading `+`.
pub open spec fn unsigned_digits(s: Seq<char>) -> Seq<char> {
    if s.len() > 0 && s[0] == '+' {
        s.subrange(1, s.len() as int)
    } else {
        s
    }
}

pub open spec fn all_digits(ds: Seq<char>, radix: nat) -> bool {
    forall|i: int| 0 <= i < ds.len() ==> is_digit_in(#[trigger] ds[i], radix)
}

/// What `usize::from_str_radix` (and so `str::parse::<usize>` in base ten)
/// returns: an optional `+`, then one or more digits, and a value that fits.
pub open spec fn parse_uint(s: Seq<char>, radix: nat) -> Option<nat> {
    let ds = unsigned_digits(s);
    if ds.len() == 0 || !all_digits(ds, radix) || digits_value(ds, radix) > usize::MAX {
        None
    } else {
        Some(digits_value(ds, radix))
    }
}

/// A run of hexadecimal digits and no sign: one or more digits whose value fits.
pub open spec fn parse_hex(s: Seq<char>) -> Option<nat> {
    if s.len() == 0 || !all_digits(s, 16) || digits_value(s, 16) > usize::MAX {
        None
    } else {
        Some(digits_value(s, 16))
    }
}

/// Reads a run of hexadecimal digits, with no sign.
pub fn parse_hex_usize(s: &[char]) -> (r: Option<usize>)
    ensures
        r matches Some(v) ==> parse_hex(s@) == Some(v as nat),
        r is None ==> parse_hex(s@) is None,
{
    if s.len() > 0 && s[0] == '+' {
        proof {
            assert(!is_digit_in(s@[0], 16));
        }
        return None;
    }
    proof {
        assert(unsigned_digits(s@) == s@);
    }
    parse_usize(s, 16)
}

proof fn lemma_digits_value_grows(s: Seq<char>, radix: nat, i: int)
    requires
        radix >= 1,
        0 <= i <= s.len(),
    ensures
        digits_value(s.subrange(0, i), radix) <= digits_value(s, radix),
    decreases s.len() - i,
{
    if i < s.len() {
        lemma_digits_value_grows(s, radix, i + 1);
        let a = s.subrange(0, i + 1);
        assert(a.drop_last() =~= s.subrange(0, i));
        let v = digits_value(s.subrange(0, i), radix);
        assert(digits_value(a, radix) == v * radix + digit_value(a.last()));
        assert(v * radix >= v) by (nonlinear_arith)
            requires
                radix >= 1,
        ;
    } else {
        assert(s.subrange(0, i) =~= s);
    }
}

/// Parses `s` as `usize::from_str_radix(s, radix)` does, for radix 10 or 16.
pub fn parse_usize(s: &[char], radix: u32) -> (r: Option<usize>)
    requires
        radix == 10 || radix == 16,
    ensures
        r matches Some(v) ==> parse_uint(s@, radix as nat) == Some(v as nat),
        r is None ==> parse_uint(s@, radix as nat) is None,
{
    let d: usize = if s.len() > 0 && s[0] == '+' {
        1
    } else {
        0
    };
    let ghost ds = s@.subrange(d as int, s@.len() as int);
    assert(ds =~= unsigned_digits(s@));
    if d == s.len() {
        return None;
    }
    let mut v: usize = 0;
    let mut i: usize = d;
    while i < s.len()
        invariant
            d <= i <= s.len(),
            ds == s@.subrange(d as int, s@.len() as int),
            ds == unsigned_digits(s@),
            radix == 10 || radix == 16,
            v as nat == digits_value(ds.subrange(0, i - d), radix as nat),
            forall|j: int| 0 <= j < i - d ==> is_digit_in(#[trigger] ds[j], radix as nat),
        decreases s.len() - i,
    {
        let c = s[i];
        let ok = if radix == 16 {
            ('0' <= c && c <= '9') || ('a' <= c && c <= 'f') || ('A' <= c && c <= 'F')
        } else {
            '0' <= c && c <= '9'
        };
        if !ok {
            proof {
                assert(ds[i - d] == c);
                assert(!is_digit_in(ds[i - d], radix as nat));
            }
            return None;
        }
        let dv: u32 = if '0' <= c && c <= '9' {
            (c as u32) - ('0' as u32)
        } else if 'a' <= c && c <= 'f' {
            (c as u32) - ('a' as u32) + 10
        } else {
            (c as u32) - ('A' as u32) + 10
        };
        proof {
            assert(ds.subrange(0, i + 1 - d).drop_last() =~= ds.subrange(0, i - d));
            assert(ds.subrange(0, i + 1 - d).last() == c);
        }
        if v > (usize::MAX - dv as usize) / (radix as usize) {
            proof {
                let nv = digits_value(ds.subrange(0, i + 1 - d), radix as nat);
                assert(nv == v * radix + dv);
                assert(v * radix + dv > usize::MAX) by (nonlinear_arith)
                    requires
                        v > (usize::MAX - dv) / (radix as int),
                        radix >= 10,
                        dv < 16,
                ;
                lemma_digits_value_grows(ds, radix as nat, i + 1 - d);
            }
            return None;
        }
        proof {
            assert(v * radix + dv <= usize::MAX) by (nonlinear_arith)
                requires
                    v <= (usize::MAX - dv) / (radix as int),
                    radix >= 10,
                    dv < 16,
            ;
        }
        v = v * (radix as usize) + dv as usize;
        i = i + 1;
    }
    proof {
        assert(ds.subrange(0, i - d) =~= ds);
    }
    Some(v)
}

/// Relies on `std::str::from_utf8`: `Ok` exactly when the bytes are valid
/// UTF-8, holding the characters they encode.
#[verifier::external_body]
pub(crate) fn utf8_text(b: &[u8]) -> (r: Option<&str>)
    ensures
        r is Some <==> valid_utf8(b@),
        r matches Some(t) ==> t@ == decode_utf8(b@),
{
    std::str::from_utf8(b).ok()
}

/// The characters of the text, in order.
pub fn chars_of(t: &str) -> (r: Vec<char>)
    ensures
        r@ == t@,
{
    broadcast use vstd::string::axiom_spec_iter, vstd::string::next_postcondition;

    let mut r: Vec<char> = Vec::new();
    let mut it = t.chars();
    loop
        invariant
            r@ + it.remaining() == t@,
            it.decrease() is Some,
        decreases it.decrease()->0,
    {
        match it.next() {
            Some(c) => {
                r.push(c);
            },
            None => {
                proof {
                    assert(r@ + it.remaining() =~= r@);
                }
                return r;
            },
        }
    }
}

/// Relies on `String::from_iter` over `&char`: the string of the given characters, in order.
#[verifier::external_body]
pub(crate) fn string_of(v: &[char]) -> (r: String)
    ensures
        r@ == v@,
{
    String::from_iter(v)
}

/// A copy of `s[lo..hi]`.
pub fn sub_chars(s: &[char], lo: usize, hi: usize) -> (r: Vec<char>)
    requires
        lo <= hi <= s@.len(),
    ensures
        r@ == s@.subrange(lo as int, hi as int),
{
    let mut r: Vec<char> = Vec::new();
    let mut i: usize = lo;
    while i < hi
        invariant
            lo <= i <= hi <= s@.len(),
            r@ == s@.subrange(lo as int, i as int),
        decreases hi - i,
    {
        r.push(s[i]);
        proof {
            assert(r@ =~= s@.subrange(lo as int, i + 1));
        }
        i = i + 1;
    }
    r
}

/// A copy of `s[lo..hi]`.
pub fn sub_bytes(s: &[u8], lo: usize, hi: usize) -> (r: Vec<u8>)
    requires
        lo <= hi <= s@.len(),
    ensures
        r@ == s@.subrange(lo as int, hi as int),
{
    let mut r: Vec<u8> = Vec::new();
    let mut i: usize = lo;
    while i < hi
        invariant
            lo <= i <= hi <= s@.len(),
            r@ == s@.subrange(lo as int, i as int),
        decreases hi - i,
    {
        r.push(s[i]);
        proof {
            assert(r@ =~= s@.subrange(lo as int, i + 1));
        }
        i = i + 1;
    }
    r
}

/// Appends `src` to `dst`.
pub fn append_bytes(dst: &mut Vec<u8>, src: &[u8])
    ensures
        final(dst)@ == old(dst)@ + src@,
{
    let mut i: usize = 0;
    while i < src.len()
        invariant
            i <= src@.len(),
            dst@ == old(dst)@ + src@.subrange(0, i as int),
        decreases src.len() - i,
    {
        dst.push(src[i]);
        proof {
            assert(dst@ =~= old(dst)@ + src@.subrange(0, i + 1));
        }
        i = i + 1;
    }
    proof {
        assert(src@.subrange(0, src@.len() as int) =~= src@);
    }
}

/// Appends the characters of `src` to `dst`.
pub fn append_chars(dst: &mut Vec<char>, src: &[char])
    ensures
        final(dst)@ == old(dst)@ + src@,
{
    let mut i: usize = 0;
    while i < src.len()
        invariant
            i <= src@.len(),
            dst@ == old(dst)@ + src@.subrange(0, i as int),
        decreases src.len() - i,
    {
        dst.push(src[i]);
        proof {
            assert(dst@ =~= old(dst)@ + src@.subrange(0, i + 1));
        }
        i = i + 1;
    }
    proof {
        assert(src@.subrange(0, src@.len() as int) =~= src@);
    }
}

/// Index of the first `c` in `s` at or after `i`, or `s.len()`.
pub fn index_of_char(s: &[char], c: char, i: usize) -> (r: usize)
    requires
        i <= s@.len(),
    ensures
        r as int == index_of(s@, c, i as int),
        i <= r <= s@.len(),
{
    let mut k: usize = i;
    while k < s.len()
        invariant
            i <= k <= s@.len(),
            index_of(s@, c, i as int) == index_of(s@, c, k as int),
        decreases s.len() - k,
    {
        if s[k] == c {
            return k;
        }
        k = k + 1;
    }
    k
}

/// Index of the first occurrence of `pat` in `s` at or after `i`, or `None`.
pub fn find_bytes(s: &[u8], pat: &[u8], i: usize) -> (r: Option<usize>)
    requires
        pat@.len() > 0,
    ensures
        r matches Some(k) ==> k as int == find_from(s@, pat@, i as int) && k >= i,
        r is None ==> find_from(s@, pat@, i as int) == -1,
{
    let mut k: usize = i;
    if pat.len() > s.len() {
        return None;
    }
    while k <= s.len() - pat.len()
        invariant
            i <= k,
            pat@.len() <= s@.len(),
            pat@.len() > 0,
            find_from(s@, pat@, i as int) == find_from(s@, pat@, k as int),
        decreases s.len() - k,
    {
        let mut j: usize = 0;
        let mut same = true;
        while j < pat.len()
            invariant
                k + pat@.len() <= s@.len(),
                s@.len() <= usize::MAX,
                j <= pat@.len(),
                same == (forall|m: int| 0 <= m < j ==> s@[k + m] == pat@[m]),
            decreases pat.len() - j,
        {
            if s[k + j] != pat[j] {
                same = false;
            }
            j = j + 1;
        }
        if same {
            proof {
                assert(s@.subrange(k as int, k + pat@.len()) =~= pat@);
            }
            return Some(k);
        }
        proof {
            assert(!occurs_at(s@, pat@, k as int)) by {
                if s@.subrange(k as int, k + pat@.len()) == pat@ {
                    assert forall|m: int| 0 <= m < pat@.len() implies s@[k + m] == pat@[m] by {
                        assert(s@.subrange(k as int, k + pat@.len())[m] == s@[k + m]);
                    }
                }
            }
        }
        k = k + 1;
    }
    None
}

/// `str::trim`: the characters without leading and trailing whitespace.
pub fn trim_chars(s: &[char]) -> (r: Vec<char>)
    ensures
        r@ == trim(s@),
{
    let mut a: usize = 0;
    while a < s.len() && is_ws_char(s[a])
        invariant
            a <= s@.len(),
            skip_ws(s@, 0) == skip_ws(s@, a as int),
        decreases s.len() - a,
    {
        a = a + 1;
    }
    let mut b: usize = s.len();
    while b > a && is_ws_char(s[b - 1])
        invariant
            a <= b <= s@.len(),
            back_ws(s@, a as int, s@.len() as int) == back_ws(s@, a as int, b as int),
        decreases b - a,
    {
        b = b - 1;
    }
    sub_chars(s, a, b)
}

pub fn is_ws_char(c: char) -> (r: bool)
    ensures
        r == is_ws(c),
{
    let u = c as u32;
    (9 <= u && u <= 13) || u == 32 || u == 0x85 || u == 0xa0 || u == 0x1680 || (0x2000 <= u
        && u <= 0x200a) || u == 0x2028 || u == 0x2029 || u == 0x202f || u == 0x205f || u
        == 0x3000
}

pub fn lower_one(c: char) -> (r: char)
    ensures
        r == lower_char(c),
{
    if 'A' <= c && c <= 'Z' {
        ((c as u8) + 32) as char
    } else {
        c
    }
}

/// `to_ascii_lowercase` of the characters.
pub fn lower_chars(s: &[char]) -> (r: Vec<char>)
    ensures
        r@ == lower(s@),
{
    let mut r: Vec<char> = Vec::new();
    let mut i: usize = 0;
    while i < s.len()
        invariant
            i <= s@.len(),
            r@ == lower(s@.subrange(0, i as int)),
        decreases s.len() - i,
    {
        r.push(lower_one(s[i]));
        proof {
            assert(lower(s@.subrange(0, i + 1)) =~= lower(s@.subrange(0, i as int)).push(
                lower_char(s@[i as int]),
            ));
        }
        i = i + 1;
    }
    proof {
        assert(s@.subrange(0, s@.len() as int) =~= s@);
    }
    r
}

/// Whether two character sequences are equal.
pub fn chars_eq(a: &[char], b: &[char]) -> (r: bool)
    ensures
        r == (a@ == b@),
{
    if a.len() != b.len() {
        return false;
    }
    let mut i: usize = 0;
    while i < a.len()
        invariant
            a@.len() == b@.len(),
            i <= a@.len(),
            forall|j: int| 0 <= j < i ==> a@[j] == b@[j],
        decreases a.len() - i,
    {
        if a[i] != b[i] {
            return false;
        }
        i = i + 1;
    }
    proof {
        assert(a@ =~= b@);
    }
    true
}

/// `str::split` on one character.
pub fn split_chars(s: &[char], c: char) -> (r: Vec<Vec<char>>)
    ensures
        views(r@) == split(s@, c),
{
    let mut r: Vec<Vec<char>> = Vec::new();
    let mut start: usize = 0;
    let mut i: usize = 0;
    while i < s.len()
        invariant
            start <= i <= s@.len(),
            views(r@) + split_from(s@, c, start as int, i as int) == split(s@, c),
        decreases s.len() - i,
    {
        if s[i] == c {
            let piece = sub_chars(s, start, i);
            proof {
                assert(views(r@.push(piece)) =~= views(r@).push(piece@));
                assert(views(r@).push(piece@) + split_from(s@, c, i + 1, i + 1) =~= views(r@) + (
                seq![piece@] + split_from(s@, c, i + 1, i + 1)));
            }
            r.push(piece);
            start = i + 1;
        }
        i = i + 1;
    }
    let piece = sub_chars(s, start, s.len());
    proof {
        assert(views(r@.push(piece)) =~= views(r@).push(piece@));
        assert(views(r@) + split_from(s@, c, start as int, i as int) =~= views(r@).push(piece@));
    }
    r.push(piece);
    r
}

/// Splits `s` at every CRLF, as `str::split("\r\n")` does.
pub fn split_lines(s: &[char]) -> (r: Vec<Vec<char>>)
    ensures
        views(r@) == lines(s@),
{
    let mut r: Vec<Vec<char>> = Vec::new();
    let mut start: usize = 0;
    let mut i: usize = 0;
    while i < s.len() && i + 1 < s.len()
        invariant
            start <= i <= s@.len(),
            views(r@) + lines_from(s@, start as int, i as int) == lines(s@),
        decreases s.len() - i,
    {
        if s[i] == '\r' && s[i + 1] == '\n' {
            let piece = sub_chars(s, start, i);
            proof {
                assert(views(r@.push(piece)) =~= views(r@).push(piece@));
                assert(views(r@).push(piece@) + lines_from(s@, i + 2, i + 2) =~= views(r@) + (
                seq![piece@] + lines_from(s@, i + 2, i + 2)));
            }
            r.push(piece);
            start = i + 2;
            i = i + 2;
        } else {
            i = i + 1;
        }
    }
    let piece = sub_chars(s, start, s.len());
    proof {
        assert(views(r@.push(piece)) =~= views(r@).push(piece@));
        assert(views(r@) + lines_from(s@, start as int, i as int) =~= views(r@).push(piece@));
    }
    r.push(piece);
    r
}

/// `str::split_once` on one character.
pub fn split_once_char(s: &[char], c: char) -> (r: Option<(Vec<char>, Vec<char>)>)
    ensures
        r matches Some(p) ==> split_once(s@, c) == Some((p.0@, p.1@)),
        r is None ==> split_once(s@, c) is None,
{
    let k = index_of_char(s, c, 0);
    if k >= s.len() {
        None
    } else {
        Some((sub_chars(s, 0, k), sub_chars(s, k + 1, s.len())))
    }
}

/// End of the run of `c` at the start of `s[i..]`.
pub open spec fn skip_char(s: Seq<char>, c: char, i: int) -> int
    decreases s.len() - i,
{
    if 0 <= i < s.len() && s[i] == c {
        skip_char(s, c, i + 1)
    } else {
        i
    }
}

/// Start of the run of `c` at the end of `s[lo..j]`.
pub open spec fn back_char(s: Seq<char>, c: char, lo: int, j: int) -> int
    decreases j - lo,
{
    if lo < j && j <= s.len() && s[j - 1] == c {
        back_char(s, c, lo, j - 1)
    } else {
        j
    }
}

/// `s` without leading and trailing `c`, as `str::trim_matches(c)` gives it.
pub open spec fn trim_char(s: Seq<char>, c: char) -> Seq<char> {
    let a = skip_char(s, c, 0);
    s.subrange(a, back_char(s, c, a, s.len() as int))
}

pub fn trim_char_chars(s: &[char], c: char) -> (r: Vec<char>)
    ensures
        r@ == trim_char(s@, c),
{
    let mut a: usize = 0;
    while a < s.len() && s[a] == c
        invariant
            a <= s@.len(),
            skip_char(s@, c, 0) == skip_char(s@, c, a as int),
        decreases s.len() - a,
    {
        a = a + 1;
    }
    let mut b: usize = s.len();
    while b > a && s[b - 1] == c
        invariant
            a <= b <= s@.len(),
            back_char(s@, c, a as int, s@.len() as int) == back_char(s@, c, a as int, b as int),
        decreases b - a,
    {
        b = b - 1;
    }
    sub_chars(s, a, b)
}

/// The whitespace-separated words of `s[i..]`, as `str::split_whitespace`
/// gives them; `start` is where the word being read began, or -1.
pub open spec fn words_from(s: Seq<char>, i: int, start: int) -> Seq<Seq<char>>
    decreases s.len() - i,
{
    if i < 0 || i >= s.len() {
        if 0 <= start <= s.len() {
            seq![s.subrange(start, s.len() as int)]
        } else {
            seq![]
        }
    } else if is_ws(s[i]) {
        if 0 <= start <= i {
            seq![s.subrange(start, i)] + words_from(s, i + 1, -1)
        } else {
            words_from(s, i + 1, -1)
        }
    } else {
        words_from(
            s,
            i + 1,
            if start >= 0 {
                start
            } else {
                i
            },
        )
    }
}

pub open spec fn words(s: Seq<char>) -> Seq<Seq<char>> {
    words_from(s, 0, -1)
}

/// `str::split_whitespace`.
pub fn split_words(s: &[char]) -> (r: Vec<Vec<char>>)
    ensures
        views(r@) == words(s@),
{
    let mut r: Vec<Vec<char>> = Vec::new();
    let mut start: usize = 0;
    let mut in_word = false;
    let mut i: usize = 0;
    while i < s.len()
        invariant
            i <= s@.len(),
            in_word ==> start <= i,
            views(r@) + words_from(
                s@,
                i as int,
                if in_word {
                    start as int
                } else {
                    -1
                },
            ) == words(s@),
        decreases s.len() - i,
    {
        if is_ws_char(s[i]) {
            if in_word {
                let w = sub_chars(s, start, i);
                proof {
                    assert(views(r@.push(w)) =~= views(r@).push(w@));
                    assert(views(r@).push(w@) + words_from(s@, i + 1, -1) =~= views(r@) + (seq![w@]
                        + words_from(s@, i + 1, -1)));
                }
                r.push(w);
                in_word = false;
            }
        } else if !in_word {
            start = i;
            in_word = true;
        }
        i = i + 1;
    }
    if in_word {
        let w = sub_chars(s, start, s.len());
        proof {
            assert(views(r@.push(w)) =~= views(r@).push(w@));
            assert(views(r@) + words_from(s@, i as int, start as int) =~= views(r@).push(w@));
        }
        r.push(w);
    } else {
        proof {
            assert(views(r@) + words_from(s@, i as int, -1) =~= views(r@));
        }
    }
    r
}

} // verus!
