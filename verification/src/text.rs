//! Text helpers: characters, trimming, splitting, decimal and hexadecimal digits.

use vstd::prelude::*;
use vstd::slice::slice_subrange;

verus! {

// ---------------------------------------------------------------------------
// Strings and characters
// ---------------------------------------------------------------------------

/// `String::push` appends one character at the end of the string.
pub assume_specification[ String::push ](s: &mut String, c: char)
    ensures
        final(s)@ == old(s)@.push(c),
;

/// The characters of `s`, in order.
pub fn chars_of(s: &str) -> (r: Vec<char>)
    ensures
        r@ == s@,
{
    let mut v: Vec<char> = Vec::new();
    for c in it: s.chars()
        invariant
            it.seq() == s@,
            v@ == s@.take(it.index() as int),
    {
        v.push(c);
        assert(v@ =~= s@.take(it.index() as int + 1));
    }
    assert(s@.take(s@.len() as int) =~= s@);
    v
}

/// The string made of the characters of `chars`.
pub fn string_of(chars: &[char]) -> (r: String)
    ensures
        r@ == chars@,
{
    let mut out = String::new();
    let mut i: usize = 0;
    while i < chars.len()
        invariant
            i <= chars.len(),
            out@ == chars@.take(i as int),
        decreases chars.len() - i,
    {
        out.push(chars[i]);
        i += 1;
        assert(out@ =~= chars@.take(i as int));
    }
    assert(chars@.take(chars@.len() as int) =~= chars@);
    out
}

/// Whether two character slices hold the same characters.
pub fn chars_eq(a: &[char], b: &[char]) -> (r: bool)
    ensures
        r == (a@ == b@),
{
    if a.len() != b.len() {
        return false;
    }
    let mut i: usize = 0;
    while i < a.len()
        invariant
            i <= a.len(),
            a.len() == b.len(),
            forall|k: int| 0 <= k < i ==> a@[k] == b@[k],
        decreases a.len() - i,
    {
        if a[i] != b[i] {
            return false;
        }
        i += 1;
    }
    assert(a@ =~= b@);
    true
}

/// Whether two byte slices hold the same bytes.
pub fn bytes_eq(a: &[u8], b: &[u8]) -> (r: bool)
    ensures
        r == (a@ == b@),
{
    if a.len() != b.len() {
        return false;
    }
    let mut i: usize = 0;
    while i < a.len()
        invariant
            i <= a.len(),
            a.len() == b.len(),
            forall|k: int| 0 <= k < i ==> a@[k] == b@[k],
        decreases a.len() - i,
    {
        if a[i] != b[i] {
            return false;
        }
        i += 1;
    }
    assert(a@ =~= b@);
    true
}

/// Two texts are equal exactly when their UTF-8 encodings are.
pub proof fn lemma_utf8_injective(a: Seq<char>, b: Seq<char>)
    ensures
        vstd::utf8::encode_utf8(a) == vstd::utf8::encode_utf8(b) <==> a == b,
{
    vstd::utf8::encode_utf8_decode_utf8(a);
    vstd::utf8::encode_utf8_decode_utf8(b);
}

/// The number of bytes of a text in UTF-8.
pub open spec fn utf8_len(s: Seq<char>) -> nat {
    vstd::utf8::encode_utf8(s).len()
}

/// The number of bytes of a text in UTF-8.
pub fn byte_len(s: &str) -> (r: usize)
    ensures
        r == utf8_len(s@),
{
    s.as_bytes().len()
}

/// A text of ASCII characters has one byte for each of them.
pub proof fn lemma_ascii_len(s: Seq<char>)
    requires
        forall|i: int| 0 <= i < s.len() ==> (#[trigger] s[i] as u32) < 0x80,
    ensures
        utf8_len(s) == s.len(),
    decreases s.len(),
{
    if s.len() > 0 {
        let rest = s.drop_first();
        assert forall|i: int| 0 <= i < rest.len() implies (#[trigger] rest[i] as u32) < 0x80 by {
            assert(rest[i] == s[i + 1]);
        }
        lemma_ascii_len(rest);
        assert((s[0] as u32) < 0x80);
    }
}

/// Whether two strings hold the same text.
pub fn str_eq(a: &str, b: &str) -> (r: bool)
    ensures
        r == (a@ == b@),
{
    proof {
        lemma_utf8_injective(a@, b@);
    }
    bytes_eq(a.as_bytes(), b.as_bytes())
}

/// Whether `s` is the text `literal`.
pub fn chars_eq_str(s: &[char], literal: &str) -> (r: bool)
    ensures
        r == (s@ == literal@),
{
    let l = chars_of(literal);
    chars_eq(s, l.as_slice())
}

// ---------------------------------------------------------------------------
// Trimming
// ---------------------------------------------------------------------------

/// Characters with the Unicode property `White_Space`.
pub open spec fn spec_is_whitespace(c: char) -> bool {
    let u = c as u32;
    ||| 0x9 <= u <= 0xd
    ||| u == 0x20
    ||| u == 0x85
    ||| u == 0xa0
    ||| u == 0x1680
    ||| 0x2000 <= u <= 0x200a
    ||| u == 0x2028
    ||| u == 0x2029
    ||| u == 0x202f
    ||| u == 0x205f
    ||| u == 0x3000
}

/// Whether `c` has the Unicode property `White_Space`.
pub fn is_whitespace(c: char) -> (r: bool)
    ensures
        r == spec_is_whitespace(c),
{
    let u: u32 = c as u32;
    (0x9 <= u && u <= 0xd) || u == 0x20 || u == 0x85 || u == 0xa0 || u == 0x1680 || (0x2000 <= u
        && u <= 0x200a) || u == 0x2028 || u == 0x2029 || u == 0x202f || u == 0x205f || u == 0x3000
}

/// `s` without its leading whitespace.
pub open spec fn trimmed_start(s: Seq<char>) -> Seq<char>
    decreases s.len(),
{
    if s.len() > 0 && spec_is_whitespace(s[0]) {
        trimmed_start(s.drop_first())
    } else {
        s
    }
}

/// `s` without its trailing whitespace.
pub open spec fn trimmed_end(s: Seq<char>) -> Seq<char>
    decreases s.len(),
{
    if s.len() > 0 && spec_is_whitespace(s.last()) {
        trimmed_end(s.drop_last())
    } else {
        s
    }
}

/// `s` without its surrounding whitespace.
pub open spec fn trimmed(s: Seq<char>) -> Seq<char> {
    trimmed_end(trimmed_start(s))
}

/// The part of `s` without trailing whitespace.
pub fn trim_end_chars(s: &[char]) -> (r: &[char])
    ensures
        r@ == trimmed_end(s@),
        r@.len() <= s@.len(),
{
    let mut j: usize = s.len();
    assert(s@.take(j as int) =~= s@);
    while j > 0 && is_whitespace(s[j - 1])
        invariant
            j <= s.len(),
            trimmed_end(s@) == trimmed_end(s@.take(j as int)),
        decreases j,
    {
        assert(s@.take(j as int).drop_last() =~= s@.take(j as int - 1));
        j -= 1;
    }
    let r = slice_subrange(s, 0, j);
    assert(r@ =~= s@.take(j as int));
    r
}

/// The part of `s` without surrounding whitespace.
pub fn trim_chars(s: &[char]) -> (r: &[char])
    ensures
        r@ == trimmed(s@),
        r@.len() <= s@.len(),
{
    let mut i: usize = 0;
    assert(s@.skip(0) =~= s@);
    while i < s.len() && is_whitespace(s[i])
        invariant
            i <= s.len(),
            trimmed_start(s@) == trimmed_start(s@.skip(i as int)),
        decreases s.len() - i,
    {
        assert(s@.skip(i as int).drop_first() =~= s@.skip(i as int + 1));
        i += 1;
    }
    let t = slice_subrange(s, i, s.len());
    assert(t@ =~= s@.skip(i as int));
    trim_end_chars(t)
}

/// Text without surrounding whitespace, padded with whitespace, trims back to itself.
pub proof fn lemma_trimmed_padded(left: Seq<char>, s: Seq<char>, right: Seq<char>)
    requires
        forall|i: int| 0 <= i < left.len() ==> spec_is_whitespace(#[trigger] left[i]),
        forall|i: int| 0 <= i < right.len() ==> spec_is_whitespace(#[trigger] right[i]),
        s.len() > 0,
        !spec_is_whitespace(s[0]),
        !spec_is_whitespace(s.last()),
    ensures
        trimmed(left + s + right) == s,
    decreases left.len() + right.len(),
{
    let whole = left + s + right;
    if left.len() > 0 {
        assert(whole[0] == left[0]);
        assert(whole.drop_first() =~= left.drop_first() + s + right);
        assert forall|i: int| 0 <= i < left.drop_first().len() implies spec_is_whitespace(
            #[trigger] left.drop_first()[i],
        ) by {
            assert(left.drop_first()[i] == left[i + 1]);
        }
        lemma_trimmed_padded(left.drop_first(), s, right);
    } else {
        assert(whole[0] == s[0]);
        assert(trimmed_start(whole) == whole);
        if right.len() > 0 {
            assert(whole.last() == right.last());
            assert(whole.drop_last() =~= left + s + right.drop_last());
            assert forall|i: int| 0 <= i < right.drop_last().len() implies spec_is_whitespace(
                #[trigger] right.drop_last()[i],
            ) by {
                assert(right.drop_last()[i] == right[i]);
            }
            lemma_trimmed_padded(left, s, right.drop_last());
            assert((left + s + right.drop_last())[0] == s[0]);
        } else {
            assert(whole =~= s);
        }
    }
}

// ---------------------------------------------------------------------------
// Searching and splitting
// ---------------------------------------------------------------------------

/// Whether `s` has `pat` at position `i`.
pub open spec fn matches_at(s: Seq<char>, pat: Seq<char>, i: int) -> bool {
    0 <= i && i + pat.len() <= s.len() && s.subrange(i, i + pat.len()) == pat
}

/// `i` is the first position of `pat` in `s`.
pub open spec fn first_match(s: Seq<char>, pat: Seq<char>, i: int) -> bool {
    &&& matches_at(s, pat, i)
    &&& forall|j: int| 0 <= j < i ==> !#[trigger] matches_at(s, pat, j)
}

/// The text before and after the first `pat` in `s`; nothing when `pat` does not occur.
pub open spec fn split_first(s: Seq<char>, pat: Seq<char>) -> Option<(Seq<char>, Seq<char>)> {
    if exists|i: int| #[trigger] matches_at(s, pat, i) {
        let i = choose|i: int| first_match(s, pat, i);
        Some((s.take(i), s.skip(i + pat.len())))
    } else {
        None
    }
}

/// The first position of a pattern determines the split around it.
pub proof fn lemma_split_first(s: Seq<char>, pat: Seq<char>, i: int)
    requires
        first_match(s, pat, i),
    ensures
        split_first(s, pat) == Some((s.take(i), s.skip(i + pat.len()))),
{
    let k = choose|k: int| first_match(s, pat, k);
    assert(first_match(s, pat, k));
    if k < i {
        assert(!matches_at(s, pat, k));
    }
    if i < k {
        assert(!matches_at(s, pat, i));
    }
}

/// Split `s` around the first occurrence of `pat`.
pub fn split_once<'a>(s: &'a [char], pat: &[char]) -> (r: Option<(&'a [char], &'a [char])>)
    ensures
        match r {
            Some((a, b)) => split_first(s@, pat@) == Some((a@, b@)),
            None => split_first(s@, pat@) is None,
        },
{
    let mut i: usize = 0;
    while i <= s.len() && pat.len() <= s.len() - i
        invariant
            i <= s.len() + 1,
            forall|j: int| 0 <= j < i ==> !#[trigger] matches_at(s@, pat@, j),
        decreases s.len() + 1 - i,
    {
        let window = slice_subrange(s, i, i + pat.len());
        if chars_eq(window, pat) {
            let a = slice_subrange(s, 0, i);
            let b = slice_subrange(s, i + pat.len(), s.len());
            proof {
                assert(first_match(s@, pat@, i as int));
                lemma_split_first(s@, pat@, i as int);
                assert(a@ =~= s@.take(i as int));
                assert(b@ =~= s@.skip(i + pat@.len()));
            }
            return Some((a, b));
        }
        if i == s.len() {
            return None;
        }
        i += 1;
    }
    None
}


/// The pieces of `s` between occurrences of `sep`; always at least one.
pub open spec fn split_all(s: Seq<char>, sep: char) -> Seq<Seq<char>>
    decreases s.len(),
{
    if s.len() == 0 {
        seq![Seq::<char>::empty()]
    } else {
        let rest = split_all(s.drop_last(), sep);
        if s.last() == sep {
            rest.push(Seq::<char>::empty())
        } else {
            rest.drop_last().push(rest.last().push(s.last()))
        }
    }
}

/// There is always a last piece.
pub proof fn lemma_split_all_nonempty(s: Seq<char>, sep: char)
    ensures
        split_all(s, sep).len() > 0,
    decreases s.len(),
{
    if s.len() > 0 {
        lemma_split_all_nonempty(s.drop_last(), sep);
    }
}

/// The pieces with `sep` between them.
pub open spec fn join(pieces: Seq<Seq<char>>, sep: char) -> Seq<char>
    decreases pieces.len(),
{
    if pieces.len() == 0 {
        Seq::empty()
    } else if pieces.len() == 1 {
        pieces[0]
    } else {
        join(pieces.drop_last(), sep).push(sep) + pieces.last()
    }
}

/// Joining the pieces of a text gives the text back.
pub proof fn lemma_join_split(s: Seq<char>, sep: char)
    ensures
        join(split_all(s, sep), sep) == s,
    decreases s.len(),
{
    if s.len() == 0 {
        assert(join(split_all(s, sep), sep) =~= s);
    } else {
        let front = s.drop_last();
        let rest = split_all(front, sep);
        lemma_join_split(front, sep);
        lemma_split_all_nonempty(front, sep);
        let pieces = split_all(s, sep);
        if s.last() == sep {
            assert(pieces.drop_last() =~= rest);
            assert(join(pieces, sep) =~= s);
        } else {
            assert(pieces.drop_last() =~= rest.drop_last());
            if rest.len() == 1 {
                assert(join(pieces, sep) =~= s);
            } else {
                assert(join(pieces, sep) =~= join(rest, sep).push(s.last()));
                assert(join(pieces, sep) =~= s);
            }
        }
    }
}

/// A text that does not hold `sep` is one piece.
pub proof fn lemma_split_single(s: Seq<char>, sep: char)
    requires
        !s.contains(sep),
    ensures
        split_all(s, sep) == seq![s],
    decreases s.len(),
{
    if s.len() > 0 {
        let front = s.drop_last();
        assert(!front.contains(sep)) by {
            if front.contains(sep) {
                let j = choose|j: int| 0 <= j < front.len() && front[j] == sep;
                assert(s[j] == sep);
            }
        }
        lemma_split_single(front, sep);
        assert(s[s.len() - 1] != sep);
        assert(split_all(s, sep) =~= seq![s]) by {
            assert(front.push(s.last()) =~= s);
        }
    } else {
        assert(s =~= Seq::<char>::empty());
    }
}

/// A text after a separator starts a new piece.
pub proof fn lemma_split_append(a: Seq<char>, b: Seq<char>, sep: char)
    requires
        !b.contains(sep),
    ensures
        split_all(a.push(sep) + b, sep) == split_all(a, sep).push(b),
    decreases b.len(),
{
    let s = a.push(sep) + b;
    if b.len() == 0 {
        assert(s =~= a.push(sep));
        assert(s.drop_last() =~= a);
        assert(b =~= Seq::<char>::empty());
    } else {
        let front = b.drop_last();
        assert(!front.contains(sep)) by {
            if front.contains(sep) {
                let j = choose|j: int| 0 <= j < front.len() && front[j] == sep;
                assert(b[j] == sep);
            }
        }
        lemma_split_append(a, front, sep);
        assert(s.drop_last() =~= a.push(sep) + front);
        assert(b[b.len() - 1] != sep);
        let rest = split_all(a, sep).push(front);
        assert(rest.drop_last() =~= split_all(a, sep));
        assert(front.push(b.last()) =~= b);
    }
}

/// Splitting joined pieces gives the pieces back, when none of them holds the separator.
pub proof fn lemma_split_join(pieces: Seq<Seq<char>>, sep: char)
    requires
        pieces.len() > 0,
        forall|i: int| 0 <= i < pieces.len() ==> !(#[trigger] pieces[i]).contains(sep),
    ensures
        split_all(join(pieces, sep), sep) == pieces,
    decreases pieces.len(),
{
    if pieces.len() == 1 {
        assert(!pieces[0].contains(sep));
        lemma_split_single(pieces[0], sep);
        assert(pieces =~= seq![pieces[0]]);
    } else {
        let front = pieces.drop_last();
        assert forall|i: int| 0 <= i < front.len() implies !(#[trigger] front[i]).contains(sep) by {
            assert(!pieces[i].contains(sep));
        }
        lemma_split_join(front, sep);
        assert(!pieces[pieces.len() - 1].contains(sep));
        lemma_split_append(join(front, sep), pieces.last(), sep);
        assert(front.push(pieces.last()) =~= pieces);
    }
}

/// The texts of a list of character vectors.
pub open spec fn pieces_view(v: Seq<Vec<char>>) -> Seq<Seq<char>> {
    v.map_values(|p: Vec<char>| p@)
}

/// Cut `s` at every `sep`.
pub fn split_on(s: &[char], sep: char) -> (r: Vec<Vec<char>>)
    ensures
        pieces_view(r@) == split_all(s@, sep),
        r.len() > 0,
{
    let mut done: Vec<Vec<char>> = Vec::new();
    let mut cur: Vec<char> = Vec::new();
    let mut i: usize = 0;
    proof {
        assert(pieces_view(done@).push(cur@) =~= split_all(s@.take(0), sep));
    }
    while i < s.len()
        invariant
            i <= s.len(),
            pieces_view(done@).push(cur@) == split_all(s@.take(i as int), sep),
        decreases s.len() - i,
    {
        let c = s[i];
        let ghost before = pieces_view(done@).push(cur@);
        proof {
            assert(s@.take(i as int + 1).drop_last() =~= s@.take(i as int));
            assert(s@.take(i as int + 1).last() == c);
            assert(before.drop_last() =~= pieces_view(done@));
        }
        if c == sep {
            let mut piece: Vec<char> = Vec::new();
            std::mem::swap(&mut piece, &mut cur);
            done.push(piece);
            proof {
                assert(pieces_view(done@) =~= before);
            }
        } else {
            cur.push(c);
        }
        i += 1;
    }
    assert(s@.take(s@.len() as int) =~= s@);
    let ghost whole = pieces_view(done@).push(cur@);
    done.push(cur);
    proof {
        assert(pieces_view(done@) =~= whole);
    }
    done
}

/// The last position of `c` in `s`.
pub fn last_index_of(s: &[char], c: char) -> (r: Option<usize>)
    ensures
        match r {
            Some(i) => i < s@.len() && s@[i as int] == c && forall|j: int|
                i < j < s@.len() ==> s@[j] != c,
            None => !s@.contains(c),
        },
{
    let mut i: usize = s.len();
    while i > 0
        invariant
            i <= s.len(),
            forall|j: int| i <= j < s@.len() ==> s@[j] != c,
        decreases i,
    {
        i -= 1;
        if s[i] == c {
            return Some(i);
        }
    }
    None
}

/// Whether `c` occurs in `s`.
pub fn contains_char(s: &[char], c: char) -> (r: bool)
    ensures
        r == s@.contains(c),
{
    match last_index_of(s, c) {
        Some(i) => {
            proof {
                assert(s@[i as int] == c);
            }
            true
        },
        None => false,
    }
}

// ---------------------------------------------------------------------------
// ASCII case
// ---------------------------------------------------------------------------

/// `c` with an upper-case ASCII letter made lower-case.
pub open spec fn spec_ascii_lower(c: char) -> char {
    if 'A' <= c && c <= 'Z' {
        ((c as u8) + 32) as char
    } else {
        c
    }
}

/// `s` with its upper-case ASCII letters made lower-case.
pub open spec fn ascii_lowered(s: Seq<char>) -> Seq<char> {
    s.map_values(|c: char| spec_ascii_lower(c))
}

/// `s` with its upper-case ASCII letters made lower-case.
pub fn ascii_lowercase(s: &[char]) -> (r: Vec<char>)
    ensures
        r@ == ascii_lowered(s@),
{
    let mut out: Vec<char> = Vec::new();
    let mut i: usize = 0;
    while i < s.len()
        invariant
            i <= s.len(),
            out@ =~= ascii_lowered(s@.take(i as int)),
        decreases s.len() - i,
    {
        let c = s[i];
        let d = if 'A' <= c && c <= 'Z' {
            ((c as u8) + 32) as char
        } else {
            c
        };
        out.push(d);
        i += 1;
        assert(s@.take(i as int).drop_last() =~= s@.take(i as int - 1));
    }
    assert(s@.take(s@.len() as int) =~= s@);
    out
}

// ---------------------------------------------------------------------------
// Decimal numbers
// ---------------------------------------------------------------------------

/// The character of a decimal digit.
pub open spec fn digit_char(d: nat) -> char {
    (48 + d) as char
}

/// Whether `c` is a decimal digit.
pub open spec fn is_digit(c: char) -> bool {
    '0' <= c && c <= '9'
}

/// The value of a decimal digit.
pub open spec fn digit_value(c: char) -> nat {
    (c as nat - 48) as nat
}

/// `n` in decimal, without leading zeros.
pub open spec fn dec(n: nat) -> Seq<char>
    decreases n,
{
    if n < 10 {
        seq![digit_char(n)]
    } else {
        dec(n / 10).push(digit_char(n % 10))
    }
}

/// The number that a sequence of decimal digits denotes.
pub open spec fn dec_value(s: Seq<char>) -> nat
    decreases s.len(),
{
    if s.len() == 0 {
        0
    } else {
        dec_value(s.drop_last()) * 10 + digit_value(s.last())
    }
}

/// Whether `s` consists of decimal digits only.
pub open spec fn all_digits(s: Seq<char>) -> bool {
    forall|i: int| 0 <= i < s.len() ==> is_digit(#[trigger] s[i])
}

/// The number written in `s`: at least one decimal digit, with an optional plus sign before
/// them, and a value of at most `max`.
pub open spec fn parsed_dec(s: Seq<char>, max: nat) -> Option<nat> {
    let t = if s.len() > 0 && s[0] == '+' {
        s.drop_first()
    } else {
        s
    };
    if t.len() > 0 && all_digits(t) && dec_value(t) <= max {
        Some(dec_value(t))
    } else {
        None
    }
}

/// A number's decimal text is digits only, denotes the number and has no leading zero.
pub proof fn lemma_dec(n: nat)
    ensures
        dec(n).len() > 0,
        all_digits(dec(n)),
        dec_value(dec(n)) == n,
        dec(n)[0] != '+',
    decreases n,
{
    if n < 10 {
        assert(dec(n).drop_last() =~= Seq::<char>::empty());
        assert(dec_value(dec(n).drop_last()) == 0);
    } else {
        lemma_dec(n / 10);
        assert(dec(n).drop_last() =~= dec(n / 10));
        assert(dec(n)[0] == dec(n / 10)[0]);
    }
}

/// Digits without a leading zero are the decimal text of the number they denote.
pub proof fn lemma_dec_of_value(s: Seq<char>)
    requires
        s.len() > 0,
        all_digits(s),
        s.len() > 1 ==> s[0] != '0',
    ensures
        dec(dec_value(s)) == s,
        s.len() > 1 ==> dec_value(s) >= 10,
    decreases s.len(),
{
    let front = s.drop_last();
    assert(is_digit(s[s.len() - 1]));
    if s.len() == 1 {
        assert(dec_value(front) == 0);
        assert(dec(dec_value(s)) =~= s);
    } else {
        assert forall|i: int| 0 <= i < front.len() implies is_digit(#[trigger] front[i]) by {
            assert(is_digit(s[i]));
        }
        lemma_dec_of_value(front);
        if front.len() == 1 {
            assert(is_digit(s[0]));
            assert(front.drop_last() =~= Seq::<char>::empty());
            assert(dec_value(front.drop_last()) == 0);
            assert(dec_value(front) > 0);
        }
        assert(dec_value(s) / 10 == dec_value(front));
        assert(dec_value(s) % 10 == digit_value(s.last()));
        assert(dec(dec_value(s)) =~= s);
    }
}

/// The decimal text of a number holds no other character than digits, and is short for a small
/// number.
pub proof fn lemma_dec_chars(n: nat, c: char)
    requires
        !is_digit(c),
    ensures
        !dec(n).contains(c),
        n < 1000 ==> dec(n).len() <= 3,
        dec(n).len() > 1 ==> dec(n)[0] != '0',
{
    lemma_dec(n);
    if dec(n).contains(c) {
        let i = choose|i: int| 0 <= i < dec(n).len() && dec(n)[i] == c;
        assert(is_digit(dec(n)[i]));
    }
    reveal_with_fuel(dec, 4);
    lemma_dec_first(n);
}

proof fn lemma_dec_first(n: nat)
    ensures
        dec(n).len() > 0,
        n > 0 ==> dec(n)[0] != '0',
        n < 10 ==> dec(n).len() == 1,
    decreases n,
{
    if n >= 10 {
        lemma_dec_first(n / 10);
    }
}

/// A longer sequence of digits does not denote a smaller number.
pub proof fn lemma_dec_value_monotonic(s: Seq<char>, i: int)
    requires
        0 <= i <= s.len(),
    ensures
        dec_value(s.take(i)) <= dec_value(s),
    decreases s.len() - i,
{
    if i < s.len() {
        lemma_dec_value_monotonic(s, i + 1);
        assert(s.take(i + 1).drop_last() =~= s.take(i));
    } else {
        assert(s.take(i) =~= s);
    }
}

/// Append the decimal text of `n`.
pub fn push_dec(out: &mut String, n: u64)
    ensures
        final(out)@ == old(out)@ + dec(n as nat),
    decreases n,
{
    if n >= 10 {
        push_dec(out, n / 10);
    }
    let d: u8 = (n % 10) as u8;
    out.push((48 + d) as char);
    proof {
        assert(out@ =~= old(out)@ + dec(n as nat));
    }
}

/// Read an unsigned number of at most `max`, as `str::parse` does for unsigned integers.
pub fn parse_dec(s: &[char], max: u64) -> (r: Option<u64>)
    requires
        max <= 0xffff_ffff,
    ensures
        match r {
            Some(n) => parsed_dec(s@, max as nat) == Some(n as nat),
            None => parsed_dec(s@, max as nat) is None,
        },
{
    let start: usize = if s.len() > 0 && s[0] == '+' {
        1
    } else {
        0
    };
    let ghost t = s@.skip(start as int);
    proof {
        assert(t =~= if s@.len() > 0 && s@[0] == '+' {
            s@.drop_first()
        } else {
            s@
        });
    }
    if start == s.len() {
        return None;
    }
    let mut value: u64 = 0;
    let mut i: usize = start;
    while i < s.len()
        invariant
            start <= i <= s.len(),
            t == s@.skip(start as int),
            max <= 0xffff_ffff,
            value <= max,
            value == dec_value(t.take(i - start)),
            all_digits(t.take(i - start)),
            t == (if s@.len() > 0 && s@[0] == '+' {
                s@.drop_first()
            } else {
                s@
            }),
        decreases s.len() - i,
    {
        let c = s[i];
        assert(c == t[i - start]);
        if c < '0' || c > '9' {
            return None;
        }
        let d: u64 = (c as u64) - 48;
        proof {
            let k = i - start;
            assert(t.take(k + 1).drop_last() =~= t.take(k));
            assert(t.take(k + 1).last() == c);
            assert(dec_value(t.take(k + 1)) == value * 10 + d);
            lemma_dec_value_monotonic(t, k + 1);
        }
        value = value * 10 + d;
        if value > max {
            return None;
        }
        i += 1;
        proof {
            assert forall|j: int| 0 <= j < t.take(i - start).len() implies is_digit(
                #[trigger] t.take(i - start)[j],
            ) by {
                if j < i - start - 1 {
                    assert(t.take(i - start)[j] == t.take(i - start - 1)[j]);
                }
            }
        }
    }
    assert(t.take(t.len() as int) =~= t);
    Some(value)
}

/// Read a `u16` as `str::parse` does.
pub fn parse_u16(s: &[char]) -> (r: Option<u16>)
    ensures
        match r {
            Some(n) => parsed_dec(s@, 0xffff) == Some(n as nat),
            None => parsed_dec(s@, 0xffff) is None,
        },
{
    match parse_dec(s, 0xffff) {
        Some(n) => Some(n as u16),
        None => None,
    }
}

/// A host and a port, as endpoints are written.
pub open spec fn endpoint_text(host: Seq<char>, port: u16) -> Seq<char> {
    host + ":"@ + dec(port as nat)
}

/// A host and a port, as endpoints are written.
pub fn endpoint_string(host: &str, port: u16) -> (r: String)
    ensures
        r@ == endpoint_text(host@, port),
{
    let mut out = host.to_string();
    out.append(":");
    push_dec(&mut out, port as u64);
    out
}

// ---------------------------------------------------------------------------
// Hexadecimal
// ---------------------------------------------------------------------------

/// The lower-case hexadecimal digit of a number below sixteen.
pub open spec fn hex_char(d: nat) -> char {
    if d < 10 {
        (48 + d) as char
    } else {
        (87 + d) as char
    }
}

/// `bytes` in lower-case hexadecimal, two digits for each byte.
pub open spec fn hex_lower(bytes: Seq<u8>) -> Seq<char> {
    Seq::new(
        bytes.len() * 2,
        |i: int|
            if i % 2 == 0 {
                hex_char((bytes[i / 2] / 16) as nat)
            } else {
                hex_char((bytes[i / 2] % 16) as nat)
            },
    )
}

/// The value of a hexadecimal digit of either case.
pub open spec fn hex_value(c: char) -> Option<nat> {
    if '0' <= c && c <= '9' {
        Some((c as nat - 48) as nat)
    } else if 'a' <= c && c <= 'f' {
        Some((c as nat - 87) as nat)
    } else if 'A' <= c && c <= 'F' {
        Some((c as nat - 55) as nat)
    } else {
        None
    }
}

/// The value of a hexadecimal digit of either case.
pub fn hex_digit(c: char) -> (r: Option<u8>)
    ensures
        match r {
            Some(v) => hex_value(c) == Some(v as nat) && v < 16,
            None => hex_value(c) is None,
        },
{
    if '0' <= c && c <= '9' {
        Some((c as u8) - 48)
    } else if 'a' <= c && c <= 'f' {
        Some((c as u8) - 87)
    } else if 'A' <= c && c <= 'F' {
        Some((c as u8) - 55)
    } else {
        None
    }
}

fn hex_nibble(d: u8) -> (r: char)
    requires
        d < 16,
    ensures
        r == hex_char(d as nat),
{
    if d < 10 {
        (48 + d) as char
    } else {
        (87 + d) as char
    }
}

/// Append `bytes` in lower-case hexadecimal.
pub fn push_hex(out: &mut String, bytes: &[u8])
    ensures
        final(out)@ == old(out)@ + hex_lower(bytes@),
{
    let ghost start = out@;
    let mut i: usize = 0;
    assert(out@ =~= start + hex_lower(bytes@.take(0)));
    while i < bytes.len()
        invariant
            i <= bytes.len(),
            out@ == start + hex_lower(bytes@.take(i as int)),
        decreases bytes.len() - i,
    {
        let b = bytes[i];
        out.push(hex_nibble(b / 16));
        out.push(hex_nibble(b % 16));
        i += 1;
        proof {
            assert(out@ =~= start + hex_lower(bytes@.take(i as int)));
        }
    }
    assert(bytes@.take(bytes@.len() as int) =~= bytes@);
}

/// A hexadecimal digit reads back as the number it was made of.
pub proof fn lemma_hex_value_of_char(d: nat)
    requires
        d < 16,
    ensures
        hex_value(hex_char(d)) == Some(d),
{
}

// ---------------------------------------------------------------------------
// What the pieces of a text say
// ---------------------------------------------------------------------------

/// A text that is put together with a separator comes apart at its first occurrence. Without the
/// separator there is nothing to take apart.
pub proof fn law_split_first(a: Seq<char>, sep: char, b: Seq<char>)
    requires
        !a.contains(sep),
    ensures
        split_first(a + seq![sep] + b, seq![sep]) == Some((a, b)),
        split_first(a, seq![sep]) is None,
{
    let s = a + seq![sep] + b;
    let pat = seq![sep];
    let i = a.len() as int;
    assert(s.subrange(i, i + 1) =~= pat);
    assert forall|j: int| 0 <= j < i implies !#[trigger] matches_at(s, pat, j) by {
        if matches_at(s, pat, j) {
            assert(s.subrange(j, j + 1)[0] == pat[0]);
            assert(a[j] == sep);
        }
    }
    assert(first_match(s, pat, i));
    lemma_split_first(s, pat, i);
    assert(s.take(i) =~= a);
    assert(s.skip(i + 1) =~= b);
    assert forall|j: int| !#[trigger] matches_at(a, pat, j) by {
        if matches_at(a, pat, j) {
            assert(a.subrange(j, j + 1)[0] == pat[0]);
            assert(a[j] == sep);
        }
    }
}

/// The decimal text of a number reads back as that number if it is not too large, with whitespace
/// around it or without.
pub proof fn law_number_reads_back(n: nat, max: nat, left: Seq<char>, right: Seq<char>)
    requires
        forall|i: int| 0 <= i < left.len() ==> spec_is_whitespace(#[trigger] left[i]),
        forall|i: int| 0 <= i < right.len() ==> spec_is_whitespace(#[trigger] right[i]),
    ensures
        n <= max ==> parsed_dec(dec(n), max) == Some(n),
        n > max ==> parsed_dec(dec(n), max) is None,
        trimmed(left + dec(n) + right) == dec(n),
        trimmed(dec(n)) == dec(n),
{
    lemma_dec(n);
    let t = dec(n);
    assert(is_digit(t[0]) && is_digit(t[t.len() - 1]));
    lemma_trimmed_padded(left, t, right);
    lemma_trimmed_padded(Seq::empty(), t, Seq::empty());
    assert(Seq::<char>::empty() + t + Seq::<char>::empty() =~= t);
}

/// Whitespace alone trims to nothing, and what is trimmed neither starts nor ends with whitespace.
pub proof fn law_trimmed(s: Seq<char>)
    ensures
        trimmed(s).len() > 0 ==> !spec_is_whitespace(trimmed(s)[0]) && !spec_is_whitespace(
            trimmed(s).last(),
        ),
        (forall|i: int| 0 <= i < s.len() ==> spec_is_whitespace(#[trigger] s[i])) <==> trimmed(
            s,
        ).len() == 0,
        spec_is_whitespace(' '),
        spec_is_whitespace('\t'),
        spec_is_whitespace('\n'),
        spec_is_whitespace('\r'),
{
    lemma_trimmed_start(s);
    lemma_trimmed_end(trimmed_start(s));
}

proof fn lemma_trimmed_start(s: Seq<char>)
    ensures
        trimmed_start(s).len() > 0 ==> !spec_is_whitespace(trimmed_start(s)[0]),
        (forall|i: int| 0 <= i < s.len() ==> spec_is_whitespace(#[trigger] s[i]))
            <==> trimmed_start(s).len() == 0,
    decreases s.len(),
{
    if s.len() > 0 && spec_is_whitespace(s[0]) {
        let rest = s.drop_first();
        lemma_trimmed_start(rest);
        if forall|i: int| 0 <= i < rest.len() ==> spec_is_whitespace(#[trigger] rest[i]) {
            assert forall|i: int| 0 <= i < s.len() implies spec_is_whitespace(#[trigger] s[i]) by {
                if i > 0 {
                    assert(rest[i - 1] == s[i]);
                }
            }
        }
        if forall|i: int| 0 <= i < s.len() ==> spec_is_whitespace(#[trigger] s[i]) {
            assert forall|i: int| 0 <= i < rest.len() implies spec_is_whitespace(
                #[trigger] rest[i],
            ) by {
                assert(rest[i] == s[i + 1]);
            }
        }
    }
}

proof fn lemma_trimmed_end(s: Seq<char>)
    ensures
        trimmed_end(s).len() > 0 ==> !spec_is_whitespace(trimmed_end(s).last()) && trimmed_end(s)[0]
            == s[0],
        s.len() > 0 && !spec_is_whitespace(s[0]) ==> trimmed_end(s).len() > 0,
        s.len() == 0 ==> trimmed_end(s).len() == 0,
    decreases s.len(),
{
    if s.len() > 0 && spec_is_whitespace(s.last()) {
        lemma_trimmed_end(s.drop_last());
    }
}

/// An endpoint names its host and its port: the host comes before the last colon, and the port, in
/// decimal, after it.
pub proof fn law_endpoint_text(host: Seq<char>, port: u16)
    ensures
        endpoint_text(host, port).len() > host.len(),
        endpoint_text(host, port).take(host.len() as int) == host,
        endpoint_text(host, port)[host.len() as int] == ':',
        endpoint_text(host, port).skip(host.len() as int + 1) == dec(port as nat),
        dec_value(endpoint_text(host, port).skip(host.len() as int + 1)) == port,
{
    reveal_strlit(":");
    lemma_dec(port as nat);
    assert(endpoint_text(host, port).take(host.len() as int) =~= host);
    assert(endpoint_text(host, port).skip(host.len() as int + 1) =~= dec(port as nat));
}

/// Lower-casing changes the upper-case ASCII letters and nothing else, so that texts that differ in
/// the case of such letters alone are told apart no longer.
pub proof fn law_lower_case(s: Seq<char>, i: int)
    requires
        0 <= i < s.len(),
    ensures
        ascii_lowered(s).len() == s.len(),
        'A' <= s[i] <= 'Z' ==> ascii_lowered(s)[i] as int == s[i] as int + 32,
        !('A' <= s[i] <= 'Z') ==> ascii_lowered(s)[i] == s[i],
        'A' <= s[i] <= 'Z' ==> ascii_lowered(s.update(i, ascii_lowered(s)[i])) == ascii_lowered(s),
{
    if 'A' <= s[i] <= 'Z' {
        assert(ascii_lowered(s.update(i, ascii_lowered(s)[i])) =~= ascii_lowered(s));
    }
}

/// Sixteen hex digits stand for the numbers below sixteen, the letters in either case.
pub proof fn law_hex_digits(c: char)
    ensures
        '0' <= c <= '9' ==> hex_value(c) == Some((c as int - '0' as int) as nat),
        'a' <= c <= 'f' ==> hex_value(c) == Some((c as int - 'a' as int + 10) as nat),
        'A' <= c <= 'F' ==> hex_value(c) == Some((c as int - 'A' as int + 10) as nat),
        hex_value(c) matches Some(d) ==> d < 16,
        hex_value(c) is None <==> !('0' <= c <= '9') && !('a' <= c <= 'f') && !('A' <= c <= 'F'),
{
}

}
