//! Character-level text operations over `Seq<char>`, with their executable
//! counterparts on `Vec<char>` and `String`.
use vstd::prelude::*;
use vstd::string::StrSliceExecFns;

verus! {

// ---------------------------------------------------------------------------
// Character classes
// ---------------------------------------------------------------------------

/// The characters with the Unicode `White_Space` property.
pub open spec fn is_white_space(c: char) -> bool {
    ||| ('\u{9}' <= c && c <= '\u{d}')
    ||| c == ' '
    ||| c == '\u{85}'
    ||| c == '\u{a0}'
    ||| c == '\u{1680}'
    ||| ('\u{2000}' <= c && c <= '\u{200a}')
    ||| c == '\u{2028}'
    ||| c == '\u{2029}'
    ||| c == '\u{202f}'
    ||| c == '\u{205f}'
    ||| c == '\u{3000}'
}

/// `char::is_whitespace`: true exactly for the characters with the Unicode
/// `White_Space` property, which `is_white_space` lists.
#[verifier::external_body]
pub(crate) fn is_whitespace(c: char) -> (r: bool)
    ensures
        r == is_white_space(c),
{
    c.is_whitespace()
}

/// Name for what `char::is_alphanumeric` answers (Unicode `Alphabetic` or
/// `Numeric`); a fixed property of the character.
pub uninterp spec fn unicode_alphanumeric(c: char) -> bool;

/// An ASCII character.
pub open spec fn is_ascii_char(c: char) -> bool {
    c <= '\u{7f}'
}

/// `char::is_alphanumeric`; its answer is named `unicode_alphanumeric`.
/// Of an ASCII character, the alphabetic ones are the letters and the
/// numeric ones the digits, so the claim on ASCII is that the answer is
/// whether it is an ASCII letter or digit.
#[verifier::external_body]
pub(crate) fn is_alphanumeric(c: char) -> (r: bool)
    ensures
        r == unicode_alphanumeric(c),
        is_ascii_char(c) ==> (r <==> is_ascii_alnum(c)),
{
    c.is_alphanumeric()
}

/// Name for what `str::to_lowercase` returns: the Unicode lowercase mapping
/// of the whole string, a function of its characters alone.
pub uninterp spec fn lowercase(s: Seq<char>) -> Seq<char>;

/// `str::to_lowercase`; its result is named `lowercase`.  The Unicode
/// lowercase mapping of an ASCII character is its ASCII lowercase, so the
/// claim on an all-ASCII text is that each letter `A`-`Z` becomes `a`-`z`
/// and every other character stays.
#[verifier::external_body]
pub(crate) fn to_lowercase(s: &str) -> (r: String)
    ensures
        r@ == lowercase(s@),
        (forall|i: int| 0 <= i < s@.len() ==> is_ascii_char(#[trigger] s@[i])) ==> r@
            == s@.map_values(|c: char| ascii_lower_of(c)),
{
    s.to_lowercase()
}

/// ASCII punctuation: `! " # $ % & ' ( ) * + , - . / : ; < = > ? @ [ \ ] ^ _ ` { | } ~`.
pub open spec fn is_ascii_punct(c: char) -> bool {
    ||| ('!' <= c && c <= '/')
    ||| (':' <= c && c <= '@')
    ||| ('[' <= c && c <= '`')
    ||| ('{' <= c && c <= '~')
}

pub open spec fn is_ascii_upper(c: char) -> bool {
    'A' <= c && c <= 'Z'
}

pub open spec fn is_ascii_lower(c: char) -> bool {
    'a' <= c && c <= 'z'
}

pub open spec fn is_ascii_digit(c: char) -> bool {
    '0' <= c && c <= '9'
}

pub open spec fn is_ascii_alpha(c: char) -> bool {
    is_ascii_upper(c) || is_ascii_lower(c)
}

pub open spec fn is_ascii_alnum(c: char) -> bool {
    is_ascii_alpha(c) || is_ascii_digit(c)
}

pub fn ascii_punct(c: char) -> (r: bool)
    ensures
        r == is_ascii_punct(c),
{
    ('!' <= c && c <= '/') || (':' <= c && c <= '@') || ('[' <= c && c <= '`') || ('{' <= c
        && c <= '~')
}

pub fn ascii_upper(c: char) -> (r: bool)
    ensures
        r == is_ascii_upper(c),
{
    'A' <= c && c <= 'Z'
}

pub fn ascii_digit(c: char) -> (r: bool)
    ensures
        r == is_ascii_digit(c),
{
    '0' <= c && c <= '9'
}

pub fn ascii_alpha(c: char) -> (r: bool)
    ensures
        r == is_ascii_alpha(c),
{
    ('A' <= c && c <= 'Z') || ('a' <= c && c <= 'z')
}

pub fn ascii_alnum(c: char) -> (r: bool)
    ensures
        r == is_ascii_alnum(c),
{
    ascii_alpha(c) || ascii_digit(c)
}

/// The ASCII lowercase of a character (`char::to_ascii_lowercase`).
pub open spec fn ascii_lower_of(c: char) -> char {
    if is_ascii_upper(c) {
        ((c as u32) + 32) as char
    } else {
        c
    }
}

pub fn ascii_lower_char(c: char) -> (r: char)
    ensures
        r == ascii_lower_of(c),
{
    if 'A' <= c && c <= 'Z' {
        let n: u8 = (c as u8) + 32;
        (n as char)
    } else {
        c
    }
}

/// Number of bytes of the UTF-8 encoding of a character.
pub open spec fn char_utf8_len(c: char) -> nat {
    if (c as u32) < 0x80 {
        1
    } else if (c as u32) < 0x800 {
        2
    } else if (c as u32) < 0x10000 {
        3
    } else {
        4
    }
}

/// Number of bytes of the UTF-8 encoding of a character sequence.
pub open spec fn utf8_len(s: Seq<char>) -> nat
    decreases s.len(),
{
    if s.len() == 0 {
        0
    } else {
        utf8_len(s.drop_last()) + char_utf8_len(s.last())
    }
}

// ---------------------------------------------------------------------------
// Conversions between `str`/`String` and `Vec<char>`
// ---------------------------------------------------------------------------

/// Appends one character to a string (`String::push`).
#[verifier::external_body]
pub(crate) fn push_char(s: &mut String, c: char)
    ensures
        final(s)@ == old(s)@.push(c),
{
    s.push(c);
}

/// The characters of a string slice, in order.
pub fn chars_of(s: &str) -> (r: Vec<char>)
    ensures
        r@ == s@,
{
    let n = s.unicode_len();
    let mut r: Vec<char> = Vec::new();
    let mut i: usize = 0;
    while i < n
        invariant
            n == s@.len(),
            i <= n,
            r@ == s@.take(i as int),
        decreases n - i,
    {
        let c = s.get_char(i);
        r.push(c);
        i = i + 1;
        proof {
            assert(r@ =~= s@.take(i as int));
        }
    }
    proof {
        assert(s@.take(n as int) =~= s@);
    }
    r
}

/// A string holding the given characters.
pub fn string_of(cs: &Vec<char>) -> (r: String)
    ensures
        r@ == cs@,
{
    let mut r = String::new();
    let mut i: usize = 0;
    while i < cs.len()
        invariant
            i <= cs.len(),
            r@ == cs@.take(i as int),
        decreases cs.len() - i,
    {
        push_char(&mut r, cs[i]);
        i = i + 1;
        proof {
            assert(r@ =~= cs@.take(i as int));
        }
    }
    proof {
        assert(cs@.take(cs.len() as int) =~= cs@);
    }
    r
}

/// Copy of a character vector.
pub fn copy_chars(cs: &Vec<char>) -> (r: Vec<char>)
    ensures
        r@ == cs@,
{
    let mut r: Vec<char> = Vec::new();
    let mut i: usize = 0;
    while i < cs.len()
        invariant
            i <= cs.len(),
            r@ == cs@.take(i as int),
        decreases cs.len() - i,
    {
        r.push(cs[i]);
        i = i + 1;
        proof {
            assert(r@ =~= cs@.take(i as int));
        }
    }
    proof {
        assert(cs@.take(cs.len() as int) =~= cs@);
    }
    r
}

/// Whether two character vectors hold the same characters.
pub fn chars_eq(a: &Vec<char>, b: &Vec<char>) -> (r: bool)
    ensures
        r == (a@ == b@),
{
    if a.len() != b.len() {
        return false;
    }
    let mut i: usize = 0;
    while i < a.len()
        invariant
            a.len() == b.len(),
            i <= a.len(),
            a@.take(i as int) == b@.take(i as int),
        decreases a.len() - i,
    {
        if a[i] != b[i] {
            assert(a@[i as int] != b@[i as int]);
            return false;
        }
        proof {
            assert(a@.take(i + 1) =~= a@.take(i as int).push(a@[i as int]));
            assert(b@.take(i + 1) =~= b@.take(i as int).push(b@[i as int]));
        }
        i = i + 1;
    }
    proof {
        assert(a@.take(a.len() as int) =~= a@);
        assert(b@.take(b.len() as int) =~= b@);
    }
    true
}

/// Whether a character vector holds exactly the characters of `lit`.
pub fn chars_eq_str(a: &Vec<char>, lit: &str) -> (r: bool)
    ensures
        r == (a@ == lit@),
{
    let b = chars_of(lit);
    chars_eq(a, &b)
}

// ---------------------------------------------------------------------------
// Trimming
// ---------------------------------------------------------------------------

/// `s` without its leading whitespace.
pub open spec fn trim_start(s: Seq<char>) -> Seq<char>
    decreases s.len(),
{
    if s.len() > 0 && is_white_space(s[0]) {
        trim_start(s.drop_first())
    } else {
        s
    }
}

/// `s` without its trailing whitespace.
pub open spec fn trim_end(s: Seq<char>) -> Seq<char>
    decreases s.len(),
{
    if s.len() > 0 && is_white_space(s.last()) {
        trim_end(s.drop_last())
    } else {
        s
    }
}

/// `s` without its leading and trailing whitespace (`str::trim`).
pub open spec fn trim(s: Seq<char>) -> Seq<char> {
    trim_end(trim_start(s))
}

proof fn lemma_trim_start_first(s: Seq<char>)
    ensures
        trim_start(s).len() > 0 ==> !is_white_space(trim_start(s)[0]),
    decreases s.len(),
{
    if s.len() > 0 && is_white_space(s[0]) {
        lemma_trim_start_first(s.drop_first());
    }
}

proof fn lemma_trim_end_prefix(s: Seq<char>)
    ensures
        trim_end(s) =~= s.take(trim_end(s).len() as int),
        trim_end(s).len() <= s.len(),
        trim_end(s).len() > 0 ==> !is_white_space(trim_end(s).last()),
    decreases s.len(),
{
    if s.len() > 0 && is_white_space(s.last()) {
        lemma_trim_end_prefix(s.drop_last());
        assert(s.drop_last().take(trim_end(s).len() as int) =~= s.take(trim_end(s).len() as int));
    } else {
        assert(s.take(s.len() as int) =~= s);
    }
}

/// A trimmed text begins and ends with a character other than whitespace.
pub proof fn lemma_trim_ends(s: Seq<char>)
    ensures
        trim(s).len() > 0 ==> !is_white_space(trim(s)[0]) && !is_white_space(trim(s).last()),
{
    lemma_trim_start_first(s);
    lemma_trim_end_prefix(trim_start(s));
    if trim(s).len() > 0 {
        assert(trim(s)[0] == trim_start(s)[0]);
    }
}

/// Every character of a trimmed text is a character of the text.
pub proof fn lemma_trim_from(s: Seq<char>)
    ensures
        forall|i: int| 0 <= i < trim(s).len() ==> s.contains(#[trigger] trim(s)[i]),
{
    lemma_trim_start_from(s);
    lemma_trim_end_prefix(trim_start(s));
    assert forall|i: int| 0 <= i < trim(s).len() implies s.contains(#[trigger] trim(s)[i]) by {
        assert(trim(s)[i] == trim_start(s)[i]);
    }
}

proof fn lemma_trim_start_from(s: Seq<char>)
    ensures
        forall|i: int| 0 <= i < trim_start(s).len() ==> s.contains(#[trigger] trim_start(s)[i]),
    decreases s.len(),
{
    if s.len() > 0 && is_white_space(s[0]) {
        lemma_trim_start_from(s.drop_first());
        assert forall|i: int| 0 <= i < trim_start(s).len() implies s.contains(#[trigger] trim_start(s)[i]) by {
            assert(trim_start(s) == trim_start(s.drop_first()));
            assert(s.drop_first().contains(trim_start(s.drop_first())[i]));
            let j = choose|j: int| 0 <= j < s.drop_first().len() && s.drop_first()[j] == trim_start(s)[i];
            assert(s[j + 1] == s.drop_first()[j]);
        }
    } else {
        assert forall|i: int| 0 <= i < trim_start(s).len() implies s.contains(#[trigger] trim_start(s)[i]) by {
            assert(s[i] == trim_start(s)[i]);
        }
    }
}

/// ASCII lowercasing twice lowercases as much as once, and keeps a
/// character ASCII.
pub proof fn lemma_ascii_lower(c: char)
    ensures
        ascii_lower_of(ascii_lower_of(c)) == ascii_lower_of(c),
        is_ascii_char(c) ==> is_ascii_char(ascii_lower_of(c)),
        !is_white_space(c) ==> !is_white_space(ascii_lower_of(c)),
        ascii_lower_of(' ') == ' ',
{
}

/// A text that begins and ends with a character other than whitespace is
/// its own trimmed form.
pub proof fn lemma_trim_fixed(m: Seq<char>)
    requires
        m.len() > 0 ==> !is_white_space(m[0]) && !is_white_space(m.last()),
    ensures
        trim(m) == m,
{
    assert(trim_start(m) == m);
    assert(trim_end(m) == m);
}

/// Trimming twice trims as much as trimming once.
pub proof fn lemma_trim_idempotent(s: Seq<char>)
    ensures
        trim(trim(s)) == trim(s),
{
    lemma_trim_ends(s);
    lemma_trim_fixed(trim(s));
}

proof fn lemma_trim_start_skip(s: Seq<char>, i: int)
    requires
        0 <= i <= s.len(),
        forall|j: int| 0 <= j < i ==> is_white_space(#[trigger] s[j]),
    ensures
        trim_start(s) == trim_start(s.skip(i)),
    decreases i,
{
    if i > 0 {
        assert(s.skip(1) =~= s.drop_first());
        lemma_trim_start_skip(s.drop_first(), i - 1);
        assert(s.drop_first().skip(i - 1) =~= s.skip(i));
    } else {
        assert(s.skip(0) =~= s);
    }
}

proof fn lemma_trim_end_take(s: Seq<char>, k: int)
    requires
        0 <= k <= s.len(),
        forall|j: int| k <= j < s.len() ==> is_white_space(#[trigger] s[j]),
    ensures
        trim_end(s) == trim_end(s.take(k)),
    decreases s.len() - k,
{
    if k < s.len() {
        assert(s.take(s.len() - 1) =~= s.drop_last());
        lemma_trim_end_take(s.drop_last(), k);
        assert(s.drop_last().take(k) =~= s.take(k));
    } else {
        assert(s.take(k) =~= s);
    }
}

/// Whitespace-trimmed copy of `s`.
pub fn trim_chars(s: &Vec<char>) -> (r: Vec<char>)
    ensures
        r@ == trim(s@),
{
    let n = s.len();
    let mut i: usize = 0;
    while i < n && is_whitespace(s[i])
        invariant
            n == s.len(),
            i <= n,
            forall|j: int| 0 <= j < i ==> is_white_space(#[trigger] s@[j]),
        decreases n - i,
    {
        i = i + 1;
    }
    proof {
        lemma_trim_start_skip(s@, i as int);
    }
    let ghost rest = s@.skip(i as int);
    assert(trim_start(rest) == rest);
    let mut k: usize = n;
    while k > i && is_whitespace(s[k - 1])
        invariant
            n == s.len(),
            i <= k <= n,
            forall|j: int| k <= j < n ==> is_white_space(#[trigger] s@[j]),
        decreases k,
    {
        k = k - 1;
    }
    let mut r: Vec<char> = Vec::new();
    let mut j: usize = i;
    while j < k
        invariant
            n == s.len(),
            i <= j <= k <= n,
            r@ == s@.subrange(i as int, j as int),
        decreases k - j,
    {
        r.push(s[j]);
        j = j + 1;
        proof {
            assert(r@ =~= s@.subrange(i as int, j as int));
        }
    }
    proof {
        lemma_trim_end_take(rest, k - i);
        assert(rest.take(k - i) =~= r@);
        if r@.len() > 0 {
            assert(!is_white_space(r@.last()));
        }
    }
    r
}

/// Whitespace-trimmed-at-the-end copy of `s`.
pub fn trim_end_chars(s: &Vec<char>) -> (r: Vec<char>)
    ensures
        r@ == trim_end(s@),
{
    let n = s.len();
    let mut k: usize = n;
    while k > 0 && is_whitespace(s[k - 1])
        invariant
            n == s.len(),
            k <= n,
            forall|j: int| k <= j < n ==> is_white_space(#[trigger] s@[j]),
        decreases k,
    {
        k = k - 1;
    }
    let mut r: Vec<char> = Vec::new();
    let mut j: usize = 0;
    while j < k
        invariant
            n == s.len(),
            j <= k <= n,
            r@ == s@.take(j as int),
        decreases k - j,
    {
        r.push(s[j]);
        j = j + 1;
        proof {
            assert(r@ =~= s@.take(j as int));
        }
    }
    proof {
        lemma_trim_end_take(s@, k as int);
    }
    r
}

/// `s` without leading and trailing characters that satisfy `p`
/// (`str::trim_matches` with a predicate).
pub open spec fn trim_matching(s: Seq<char>, p: spec_fn(char) -> bool) -> Seq<char>
    decreases s.len(),
{
    if s.len() > 0 && p(s[0]) {
        trim_matching(s.drop_first(), p)
    } else if s.len() > 0 && p(s.last()) {
        trim_matching(s.drop_last(), p)
    } else {
        s
    }
}

// ---------------------------------------------------------------------------
// Splitting and joining
// ---------------------------------------------------------------------------

/// Splitting state: having read `s[..i]`, with `cur` the word being read and
/// `acc` the words completed so far, the words of the whole of `s`.
pub open spec fn split_ws_from(s: Seq<char>, i: int, cur: Seq<char>, acc: Seq<Seq<char>>) -> Seq<
    Seq<char>,
>
    decreases s.len() - i,
{
    if i >= s.len() {
        if cur.len() > 0 {
            acc.push(cur)
        } else {
            acc
        }
    } else if is_white_space(s[i]) {
        split_ws_from(
            s,
            i + 1,
            Seq::empty(),
            if cur.len() > 0 {
                acc.push(cur)
            } else {
                acc
            },
        )
    } else {
        split_ws_from(s, i + 1, cur.push(s[i]), acc)
    }
}

/// The maximal runs of non-whitespace characters of `s`, in order
/// (`str::split_whitespace`).
pub open spec fn split_ws(s: Seq<char>) -> Seq<Seq<char>> {
    split_ws_from(s, 0, Seq::empty(), Seq::empty())
}

/// Words that are non-empty and hold no whitespace.
pub open spec fn clean_words(ws: Seq<Seq<char>>) -> bool {
    forall|k: int|
        0 <= k < ws.len() ==> (#[trigger] ws[k]).len() > 0 && forall|j: int|
            0 <= j < ws[k].len() ==> !is_white_space(#[trigger] ws[k][j])
}

/// Every character of the words is a character of `s`.
pub open spec fn words_from(ws: Seq<Seq<char>>, s: Seq<char>) -> bool {
    forall|k: int, j: int| 0 <= k < ws.len() && 0 <= j < ws[k].len() ==> s.contains(#[trigger] ws[k][j])
}

proof fn lemma_split_ws_from_words(s: Seq<char>, i: int, cur: Seq<char>, acc: Seq<Seq<char>>)
    requires
        0 <= i <= s.len(),
        clean_words(acc),
        words_from(acc, s),
        forall|j: int| 0 <= j < cur.len() ==> !is_white_space(#[trigger] cur[j]) && s.contains(cur[j]),
    ensures
        clean_words(split_ws_from(s, i, cur, acc)),
        words_from(split_ws_from(s, i, cur, acc), s),
    decreases s.len() - i,
{
    let pushed = acc.push(cur);
    if cur.len() > 0 {
        assert forall|k: int| 0 <= k < pushed.len() implies (#[trigger] pushed[k]).len() > 0 && forall|j: int|
            0 <= j < pushed[k].len() ==> !is_white_space(#[trigger] pushed[k][j]) by {
            if k < acc.len() {
                assert(pushed[k] == acc[k]);
            }
        }
        assert forall|k: int, j: int| 0 <= k < pushed.len() && 0 <= j < pushed[k].len() implies s.contains(
            #[trigger] pushed[k][j],
        ) by {
            if k < acc.len() {
                assert(pushed[k] == acc[k]);
            }
        }
    }
    if i < s.len() {
        if is_white_space(s[i]) {
            lemma_split_ws_from_words(s, i + 1, Seq::empty(), if cur.len() > 0 {
                pushed
            } else {
                acc
            });
        } else {
            let c2 = cur.push(s[i]);
            assert forall|j: int| 0 <= j < c2.len() implies !is_white_space(#[trigger] c2[j])
                && s.contains(c2[j]) by {
                if j < cur.len() {
                    assert(c2[j] == cur[j]);
                } else {
                    assert(c2[j] == s[i]);
                }
            }
            lemma_split_ws_from_words(s, i + 1, c2, acc);
        }
    }
}

/// The words of a text are non-empty, hold no whitespace, and are made of
/// its characters.
pub proof fn lemma_split_ws_words(s: Seq<char>)
    ensures
        clean_words(split_ws(s)),
        words_from(split_ws(s), s),
{
    lemma_split_ws_from_words(s, 0, Seq::empty(), Seq::empty());
}

proof fn lemma_split_ws_skip_word(s: Seq<char>, i: int, m: int, cur: Seq<char>, acc: Seq<Seq<char>>)
    requires
        0 <= i,
        0 <= m,
        i + m <= s.len(),
        forall|j: int| i <= j < i + m ==> !is_white_space(#[trigger] s[j]),
    ensures
        split_ws_from(s, i, cur, acc) == split_ws_from(s, i + m, cur + s.subrange(i, i + m), acc),
    decreases m,
{
    if m == 0 {
        assert(cur + s.subrange(i, i) =~= cur);
    } else {
        lemma_split_ws_skip_word(s, i + 1, m - 1, cur.push(s[i]), acc);
        assert(cur.push(s[i]) + s.subrange(i + 1, i + m) =~= cur + s.subrange(i, i + m));
    }
}

proof fn lemma_split_join_prefix(ws: Seq<Seq<char>>, t: Seq<char>)
    requires
        ws.len() > 0,
        clean_words(ws),
    ensures
        split_ws_from(join(ws, seq![' ']) + t, 0, Seq::empty(), Seq::empty()) == split_ws_from(
            join(ws, seq![' ']) + t,
            join(ws, seq![' ']).len() as int,
            ws.last(),
            ws.drop_last(),
        ),
    decreases ws.len(),
{
    let s = join(ws, seq![' ']);
    let u = s + t;
    let w = ws.last();
    assert(ws[ws.len() - 1] == w);
    if ws.len() == 1 {
        assert(s == w);
        assert forall|j: int| 0 <= j < w.len() implies !is_white_space(#[trigger] u[j]) by {
            assert(u[j] == w[j]);
        }
        lemma_split_ws_skip_word(u, 0, w.len() as int, Seq::empty(), Seq::empty());
        assert(Seq::<char>::empty() + u.subrange(0, w.len() as int) =~= w);
        assert(ws.drop_last() =~= Seq::<Seq<char>>::empty());
    } else {
        let init = ws.drop_last();
        let s0 = join(init, seq![' ']);
        assert(s == s0 + seq![' '] + w);
        let t0 = seq![' '] + w + t;
        assert(u =~= s0 + t0);
        assert forall|k: int| 0 <= k < init.len() implies (#[trigger] init[k]).len() > 0 && forall|j: int|
            0 <= j < init[k].len() ==> !is_white_space(#[trigger] init[k][j]) by {
            assert(init[k] == ws[k]);
        }
        lemma_split_join_prefix(init, t0);
        let n0 = s0.len() as int;
        assert(init.last() == ws[ws.len() - 2]);
        assert(u[n0] == ' ');
        assert(is_white_space(' '));
        assert(split_ws_from(u, n0, init.last(), init.drop_last()) == split_ws_from(
            u,
            n0 + 1,
            Seq::empty(),
            init.drop_last().push(init.last()),
        ));
        assert(init.drop_last().push(init.last()) =~= init);
        assert forall|j: int| n0 + 1 <= j < n0 + 1 + w.len() implies !is_white_space(#[trigger] u[j]) by {
            assert(u[j] == w[j - n0 - 1]);
        }
        lemma_split_ws_skip_word(u, n0 + 1, w.len() as int, Seq::empty(), init);
        assert(Seq::<char>::empty() + u.subrange(n0 + 1, n0 + 1 + w.len()) =~= w);
    }
}

/// Splitting words joined by single spaces gives the words back.
pub proof fn lemma_split_join(ws: Seq<Seq<char>>)
    requires
        clean_words(ws),
    ensures
        split_ws(join(ws, seq![' '])) == ws,
{
    if ws.len() > 0 {
        let s = join(ws, seq![' ']);
        lemma_split_join_prefix(ws, Seq::empty());
        assert(s + Seq::<char>::empty() =~= s);
        assert(ws[ws.len() - 1] == ws.last());
        assert(ws.drop_last().push(ws.last()) =~= ws);
    }
}

/// Words joined by single spaces: every character is a space or a
/// character of a word; each space stands between two characters of words;
/// the text begins and ends with a character of a word.
pub proof fn lemma_join_shape(ws: Seq<Seq<char>>)
    requires
        clean_words(ws),
    ensures
        ({
            let r = join(ws, seq![' ']);
            &&& forall|i: int|
                0 <= i < r.len() ==> #[trigger] r[i] == ' ' || exists|k: int, j: int|
                    0 <= k < ws.len() && 0 <= j < ws[k].len() && ws[k][j] == r[i]
            &&& forall|i: int|
                0 <= i < r.len() && #[trigger] r[i] == ' ' ==> 0 < i < r.len() - 1 && !is_white_space(
                    r[i - 1],
                ) && !is_white_space(r[i + 1])
            &&& r.len() > 0 ==> !is_white_space(r[0]) && !is_white_space(r.last())
        }),
    decreases ws.len(),
{
    let r = join(ws, seq![' ']);
    if ws.len() == 1 {
        assert(r == ws[0]);
        assert forall|i: int| 0 <= i < r.len() implies #[trigger] r[i] == ' ' || exists|k: int, j: int|
            0 <= k < ws.len() && 0 <= j < ws[k].len() && ws[k][j] == r[i] by {
            assert(ws[0][i] == r[i]);
        }
        assert forall|i: int| 0 <= i < r.len() && #[trigger] r[i] == ' ' implies false by {
            assert(!is_white_space(ws[0][i]));
        }
        assert(!is_white_space(ws[0][ws[0].len() - 1]));
    } else if ws.len() > 1 {
        let init = ws.drop_last();
        let w = ws.last();
        assert(ws[ws.len() - 1] == w);
        assert forall|k: int| 0 <= k < init.len() implies (#[trigger] init[k]).len() > 0 && forall|j: int|
            0 <= j < init[k].len() ==> !is_white_space(#[trigger] init[k][j]) by {
            assert(init[k] == ws[k]);
        }
        lemma_join_shape(init);
        let r0 = join(init, seq![' ']);
        assert(r == r0 + seq![' '] + w);
        let n0 = r0.len() as int;
        assert(init.len() > 0);
        assert(r0.len() > 0) by {
            assert(init[0].len() > 0);
            lemma_join_nonempty(init);
        }
        assert forall|i: int| 0 <= i < r.len() implies #[trigger] r[i] == ' ' || exists|k: int, j: int|
            0 <= k < ws.len() && 0 <= j < ws[k].len() && ws[k][j] == r[i] by {
            if i < n0 {
                assert(r[i] == r0[i]);
                if r0[i] != ' ' {
                    let (k, j) = choose|k: int, j: int|
                        0 <= k < init.len() && 0 <= j < init[k].len() && init[k][j] == r0[i];
                    assert(ws[k] == init[k]);
                }
            } else if i > n0 {
                assert(r[i] == w[i - n0 - 1]);
                assert(ws[ws.len() - 1][i - n0 - 1] == r[i]);
            }
        }
        assert forall|i: int| 0 <= i < r.len() && #[trigger] r[i] == ' ' implies 0 < i < r.len() - 1
            && !is_white_space(r[i - 1]) && !is_white_space(r[i + 1]) by {
            if i < n0 {
                assert(r[i] == r0[i]);
                if i + 1 < n0 {
                    assert(r[i + 1] == r0[i + 1]);
                }
                assert(r[i - 1] == r0[i - 1]);
            } else if i > n0 {
                assert(r[i] == w[i - n0 - 1]);
                assert(!is_white_space(w[i - n0 - 1]));
            } else {
                assert(r[i - 1] == r0[n0 - 1]);
                assert(r[i + 1] == w[0]);
                assert(!is_white_space(w[0]));
            }
        }
        assert(r[0] == r0[0]);
        assert(r.last() == w[w.len() - 1]);
        assert(!is_white_space(w[w.len() - 1]));
    }
}

proof fn lemma_join_nonempty(ws: Seq<Seq<char>>)
    requires
        ws.len() > 0,
        ws[0].len() > 0,
    ensures
        join(ws, seq![' ']).len() > 0,
    decreases ws.len(),
{
    if ws.len() > 1 {
        assert(ws.drop_last()[0] == ws[0]);
        lemma_join_nonempty(ws.drop_last());
    }
}

/// The words of `s` separated by whitespace.
pub fn split_whitespace(s: &Vec<char>) -> (r: Vec<Vec<char>>)
    ensures
        words(r@) == split_ws(s@),
{
    let mut acc: Vec<Vec<char>> = Vec::new();
    let mut cur: Vec<char> = Vec::new();
    let mut i: usize = 0;
    proof {
        assert(words(acc@) =~= Seq::<Seq<char>>::empty());
    }
    while i < s.len()
        invariant
            i <= s.len(),
            split_ws_from(s@, i as int, cur@, words(acc@)) == split_ws(s@),
        decreases s.len() - i,
    {
        if is_whitespace(s[i]) {
            if cur.len() > 0 {
                let ghost old_acc = words(acc@);
                let w = cur;
                acc.push(w);
                cur = Vec::new();
                proof {
                    assert(words(acc@) =~= old_acc.push(w@));
                }
            } else {
                cur = Vec::new();
            }
            proof {
                assert(cur@ =~= Seq::<char>::empty());
            }
        } else {
            cur.push(s[i]);
        }
        i = i + 1;
    }
    if cur.len() > 0 {
        let ghost old_acc = words(acc@);
        let w = cur;
        acc.push(w);
        proof {
            assert(words(acc@) =~= old_acc.push(w@));
        }
    }
    acc
}

/// The character sequences held by a vector of character vectors.
pub open spec fn words(v: Seq<Vec<char>>) -> Seq<Seq<char>> {
    v.map_values(|w: Vec<char>| w@)
}

/// The words of `list` joined with `sep` between each two of them.
pub open spec fn join(list: Seq<Seq<char>>, sep: Seq<char>) -> Seq<char>
    decreases list.len(),
{
    if list.len() == 0 {
        Seq::empty()
    } else if list.len() == 1 {
        list[0]
    } else {
        join(list.drop_last(), sep) + sep + list.last()
    }
}

/// `list` joined with `sep`.
pub fn join_chars(list: &Vec<Vec<char>>, sep: &Vec<char>) -> (r: Vec<char>)
    ensures
        r@ == join(words(list@), sep@),
{
    let mut r: Vec<char> = Vec::new();
    let mut i: usize = 0;
    while i < list.len()
        invariant
            i <= list.len(),
            r@ == join(words(list@).take(i as int), sep@),
        decreases list.len() - i,
    {
        let ghost before = r@;
        if i > 0 {
            append_chars(&mut r, sep);
        }
        append_chars(&mut r, &list[i]);
        proof {
            let l = words(list@);
            assert(l.take(i + 1).drop_last() =~= l.take(i as int));
            assert(l.take(i + 1).last() == list[i as int]@);
            if i == 0 {
                assert(r@ =~= l.take(1)[0]);
            } else {
                assert(r@ =~= before + sep@ + list[i as int]@);
            }
        }
        i = i + 1;
    }
    proof {
        assert(words(list@).take(list.len() as int) =~= words(list@));
    }
    r
}

/// Appends the characters of `b` to `a`.
pub fn append_chars(a: &mut Vec<char>, b: &Vec<char>)
    ensures
        final(a)@ == old(a)@ + b@,
{
    let ghost start = a@;
    let mut i: usize = 0;
    while i < b.len()
        invariant
            i <= b.len(),
            a@ == start + b@.take(i as int),
        decreases b.len() - i,
    {
        a.push(b[i]);
        i = i + 1;
        proof {
            assert(a@ =~= start + b@.take(i as int));
        }
    }
    proof {
        assert(b@.take(b.len() as int) =~= b@);
    }
}

// ---------------------------------------------------------------------------
// Searching
// ---------------------------------------------------------------------------

/// `pat` occurs in `s` starting at `i`.
pub open spec fn occurs_at(s: Seq<char>, pat: Seq<char>, i: int) -> bool {
    0 <= i && i + pat.len() <= s.len() && s.subrange(i, i + pat.len()) == pat
}

/// `pat` occurs somewhere in `s` (`str::contains` with a string pattern).
pub open spec fn contains_seq(s: Seq<char>, pat: Seq<char>) -> bool {
    exists|i: int| occurs_at(s, pat, i)
}

/// Whether `pat` occurs at position `i` of `s`.
pub fn matches_at(s: &Vec<char>, pat: &Vec<char>, i: usize) -> (r: bool)
    requires
        i <= s.len(),
    ensures
        r == occurs_at(s@, pat@, i as int),
{
    if pat.len() > s.len() - i {
        return false;
    }
    let mut j: usize = 0;
    while j < pat.len()
        invariant
            i + pat.len() <= s.len(),
            j <= pat.len(),
            forall|k: int| 0 <= k < j ==> s@[i + k] == pat@[k],
        decreases pat.len() - j,
    {
        if s[i + j] != pat[j] {
            proof {
                assert(s@.subrange(i as int, i + pat.len())[j as int] != pat@[j as int]);
            }
            return false;
        }
        j = j + 1;
    }
    proof {
        assert(s@.subrange(i as int, i + pat.len()) =~= pat@);
    }
    true
}

/// Whether `pat` occurs in `s`.
pub fn contains_chars(s: &Vec<char>, pat: &Vec<char>) -> (r: bool)
    ensures
        r == contains_seq(s@, pat@),
{
    let mut i: usize = 0;
    loop
        invariant
            i <= s.len(),
            forall|k: int| 0 <= k < i ==> !occurs_at(s@, pat@, k),
        ensures
            forall|k: int| 0 <= k <= s.len() ==> !occurs_at(s@, pat@, k),
        decreases s.len() - i,
    {
        if matches_at(s, pat, i) {
            return true;
        }
        if i == s.len() {
            break;
        }
        i = i + 1;
    }
    proof {
        assert forall|k: int| !occurs_at(s@, pat@, k) by {
            if 0 <= k <= s.len() {
            }
        }
    }
    false
}

/// Whether `pat` occurs in `s`, for a string pattern.
pub fn contains_str(s: &Vec<char>, pat: &str) -> (r: bool)
    ensures
        r == contains_seq(s@, pat@),
{
    let p = chars_of(pat);
    contains_chars(s, &p)
}

/// A string holding the characters of `a` followed by those of `b`.
pub fn concat_str(a: &str, b: &str) -> (r: String)
    ensures
        r@ == a@ + b@,
{
    let mut cs = chars_of(a);
    let bs = chars_of(b);
    append_chars(&mut cs, &bs);
    string_of(&cs)
}

} // verus!
