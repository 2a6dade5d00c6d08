use vstd::prelude::*;
use vstd::string::StrSliceExecFns;
use vstd::utf8::{encode_utf8, valid_utf8, decode_utf8};

verus! {

/// The characters of a string slice (its view, named so that a contract can fix the
/// slice's type where the context leaves it open).
pub open spec fn chars_of_str(s: &str) -> Seq<char> {
    s@
}

/// The bytes of a byte slice (its view, named for the same reason).
pub open spec fn bytes_of_slice(s: &[u8]) -> Seq<u8> {
    s@
}

broadcast use vstd::utf8::group_utf8_lib;

/// Encoding a concatenation is concatenating the encodings.
pub proof fn lemma_encode_concat(a: Seq<char>, b: Seq<char>)
    ensures
        encode_utf8(a + b) == encode_utf8(a) + encode_utf8(b),
    decreases a.len(),
{
    if a.len() == 0 {
        assert(a + b =~= b);
        assert(encode_utf8(a) =~= Seq::<u8>::empty());
        assert(encode_utf8(a) + encode_utf8(b) =~= encode_utf8(b));
    } else {
        assert((a + b).drop_first() =~= a.drop_first() + b);
        assert((a + b)[0] == a[0]);
        lemma_encode_concat(a.drop_first(), b);
        assert(encode_utf8(a + b) =~= encode_utf8(a) + encode_utf8(b));
    }
}

/// Decoding a concatenation of valid encodings is concatenating the decodings.
pub proof fn lemma_decode_concat(a: Seq<u8>, b: Seq<u8>)
    requires
        valid_utf8(a),
        valid_utf8(b),
    ensures
        valid_utf8(a + b),
        decode_utf8(a + b) == decode_utf8(a) + decode_utf8(b),
{
    lemma_encode_concat(decode_utf8(a), decode_utf8(b));
    assert(encode_utf8(decode_utf8(a) + decode_utf8(b)) == a + b);
}

/// The UTF-8 encoding of one character.
pub fn encode_char(ch: char) -> (r: Vec<u8>)
    ensures
        r@ == encode_utf8(seq![ch]),
{
    let c = ch as u32;
    proof {
        let one = seq![ch];
        assert(one.drop_first() =~= Seq::<char>::empty());
        assert(one[0] == ch);
        assert(encode_utf8(one.drop_first()) =~= Seq::<u8>::empty());
        assert(encode_utf8(one) == vstd::utf8::encode_scalar(c) + encode_utf8(one.drop_first()));
        assert(encode_utf8(one) =~= vstd::utf8::encode_scalar(c));
    }
    if c <= 0x7F {
        vec![(c & 0x7F) as u8]
    } else if c <= 0x7FF {
        vec![0xC0 | ((c >> 6) & 0x1F) as u8, 0x80 | (c & 0x3F) as u8]
    } else if c <= 0xFFFF {
        vec![0xE0 | ((c >> 12) & 0x0F) as u8, 0x80 | ((c >> 6) & 0x3F) as u8, 0x80 | (c & 0x3F) as u8]
    } else {
        vec![
            0xF0 | ((c >> 18) & 0x7) as u8,
            0x80 | ((c >> 12) & 0x3F) as u8,
            0x80 | ((c >> 6) & 0x3F) as u8,
            0x80 | (c & 0x3F) as u8,
        ]
    }
}

/// The string whose UTF-8 encoding is `bytes`, if they are valid UTF-8.
///
/// Trusted: calls `core::str::from_utf8`, which returns the string exactly when the
/// bytes are valid UTF-8, and that string's bytes are the given ones.
#[verifier::external_body]
pub fn str_from_utf8(bytes: &[u8]) -> (r: Option<&str>)
    ensures
        r is Some <==> valid_utf8(bytes@),
        r matches Some(s) ==> s@ == decode_utf8(bytes@),
{
    core::str::from_utf8(bytes).ok()
}

/// The characters of a string, in order.
pub fn chars_of(s: &str) -> (r: Vec<char>)
    ensures
        r@ == s@,
{
    let mut r: Vec<char> = Vec::new();
    for ch in iter: s.chars()
        invariant
            r@ == iter.seq().take(iter.index() as int),
            iter.seq() == s@,
    {
        r.push(ch);
    }
    r
}

/// Whether a character has the Unicode `White_Space` property.
pub open spec fn is_white_space(c: char) -> bool {
    let v = c as u32;
    ||| 0x09 <= v <= 0x0D
    ||| v == 0x20
    ||| v == 0x85
    ||| v == 0xA0
    ||| v == 0x1680
    ||| 0x2000 <= v <= 0x200A
    ||| v == 0x2028
    ||| v == 0x2029
    ||| v == 0x202F
    ||| v == 0x205F
    ||| v == 0x3000
}

/// Returns `true` if `c` has the Unicode `White_Space` property.
pub fn white_space(c: char) -> (r: bool)
    ensures
        r == is_white_space(c),
{
    let v = c as u32;
    (0x09 <= v && v <= 0x0D) || v == 0x20 || v == 0x85 || v == 0xA0 || v == 0x1680 || (0x2000 <= v
        && v <= 0x200A) || v == 0x2028 || v == 0x2029 || v == 0x202F || v == 0x205F || v == 0x3000
}

/// How many characters at the start of `s` are white space.
pub open spec fn leading_white_space(s: Seq<char>) -> nat
    decreases s.len(),
{
    if s.len() > 0 && is_white_space(s[0]) {
        1 + leading_white_space(s.drop_first())
    } else {
        0
    }
}

/// How many characters at the end of `s` are white space.
pub open spec fn trailing_white_space(s: Seq<char>) -> nat
    decreases s.len(),
{
    if s.len() > 0 && is_white_space(s.last()) {
        1 + trailing_white_space(s.drop_last())
    } else {
        0
    }
}

/// `s` without its leading and trailing white space.
pub open spec fn trimmed(s: Seq<char>) -> Seq<char> {
    let front = s.skip(leading_white_space(s) as int);
    front.take(front.len() - trailing_white_space(front))
}

/// `s` with leading and trailing white space removed.
pub fn str_trim(s: &str) -> (r: &str)
    ensures
        r@ == trimmed(s@),
{
    let chars = chars_of(s);
    let n = chars.len();
    let mut a: usize = 0;
    while a < n && white_space(chars[a])
        invariant
            a <= n,
            n == s@.len(),
            chars@ == s@,
            forall|j: int| 0 <= j < a ==> is_white_space(#[trigger] s@[j]),
        decreases n - a,
    {
        a = a + 1;
    }
    proof {
        lemma_leading_exact(s@, a as nat);
    }
    let mut e: usize = n;
    while e > a && white_space(chars[e - 1])
        invariant
            a <= e <= n,
            n == s@.len(),
            chars@ == s@,
            forall|j: int| e <= j < n ==> is_white_space(#[trigger] s@[j]),
        decreases e - a,
    {
        e = e - 1;
    }
    proof {
        let front = s@.skip(a as int);
        assert forall|j: int| 0 <= j < n - e implies is_white_space(
            #[trigger] front[front.len() - 1 - j],
        ) by {
            assert(front[front.len() - 1 - j] == s@[n - 1 - j]);
        }
        if e > a {
            assert(front[front.len() - 1 - (n - e)] == s@[e - 1]);
        }
        lemma_trailing_exact(front, (n - e) as nat);
        assert(trimmed(s@) =~= s@.subrange(a as int, e as int));
    }
    s.substring_char(a, e)
}

/// The leading white space of `s` is `a` characters long when its first `a`
/// characters are white space and the one after them, if any, is not.
proof fn lemma_leading_exact(s: Seq<char>, a: nat)
    requires
        a <= s.len(),
        forall|j: int| 0 <= j < a ==> is_white_space(#[trigger] s[j]),
        a < s.len() ==> !is_white_space(s[a as int]),
    ensures
        leading_white_space(s) == a,
    decreases a,
{
    if a > 0 {
        let t = s.drop_first();
        assert forall|j: int| 0 <= j < a - 1 implies is_white_space(#[trigger] t[j]) by {
            assert(t[j] == s[j + 1]);
        }
        if a - 1 < t.len() {
            assert(t[a - 1] == s[a as int]);
        }
        lemma_leading_exact(t, (a - 1) as nat);
        assert(is_white_space(s[0]));
    }
}

/// The trailing white space of `t` is `b` characters long when its last `b`
/// characters are white space and the one before them, if any, is not.
proof fn lemma_trailing_exact(t: Seq<char>, b: nat)
    requires
        b <= t.len(),
        forall|j: int| 0 <= j < b ==> is_white_space(#[trigger] t[t.len() - 1 - j]),
        b < t.len() ==> !is_white_space(t[t.len() - 1 - b]),
    ensures
        trailing_white_space(t) == b,
    decreases b,
{
    if b > 0 {
        let u = t.drop_last();
        assert forall|j: int| 0 <= j < b - 1 implies is_white_space(#[trigger] u[u.len() - 1 - j]) by {
            assert(u[u.len() - 1 - j] == t[t.len() - 1 - (j + 1)]);
        }
        if b - 1 < u.len() {
            assert(u[u.len() - 1 - (b - 1)] == t[t.len() - 1 - b]);
        }
        lemma_trailing_exact(u, (b - 1) as nat);
        assert(is_white_space(t[t.len() - 1 - 0]));
    }
}

/// The leading white space is a prefix of white space characters followed, if
/// anything follows, by a character that is not white space.
proof fn lemma_leading(s: Seq<char>)
    ensures
        leading_white_space(s) <= s.len(),
        leading_white_space(s) < s.len() ==> !is_white_space(s[leading_white_space(s) as int]),
    decreases s.len(),
{
    if s.len() > 0 && is_white_space(s[0]) {
        lemma_leading(s.drop_first());
        if leading_white_space(s) < s.len() {
            assert(s[leading_white_space(s) as int] == s.drop_first()[leading_white_space(
                s.drop_first(),
            ) as int]);
        }
    }
}

/// The trailing white space of a sequence that starts with a character that is not
/// white space leaves that character, and the character before the trailing white space
/// is not white space.
proof fn lemma_trailing(s: Seq<char>)
    ensures
        trailing_white_space(s) <= s.len(),
        s.len() > 0 && !is_white_space(s[0]) ==> trailing_white_space(s) < s.len(),
        trailing_white_space(s) < s.len() ==> !is_white_space(
            s[s.len() - 1 - trailing_white_space(s)],
        ),
    decreases s.len(),
{
    if s.len() > 0 && is_white_space(s.last()) {
        lemma_trailing(s.drop_last());
        if s.len() > 1 {
            assert(s.drop_last()[0] == s[0]);
        }
        if trailing_white_space(s) < s.len() {
            let t = trailing_white_space(s.drop_last());
            assert(s.drop_last()[s.drop_last().len() - 1 - t] == s[s.len() - 1 - trailing_white_space(s)]);
        }
    }
}

/// A trimmed sequence that is not empty starts and ends with characters that are not
/// white space.
pub proof fn lemma_trimmed_ends(s: Seq<char>)
    ensures
        trimmed(s).len() > 0 ==> !is_white_space(trimmed(s)[0]) && !is_white_space(
            trimmed(s).last(),
        ),
{
    let l = leading_white_space(s);
    lemma_leading(s);
    let front = s.skip(l as int);
    lemma_trailing(front);
    let r = trimmed(s);
    if r.len() > 0 {
        let t = trailing_white_space(front);
        assert(front[0] == s[l as int]);
        assert(r[0] == front[0]);
        assert(r.last() == front[front.len() - 1 - t]);
    }
}

/// A sequence that is empty, or starts and ends with characters that are not white
/// space, is its own trimming.
pub proof fn lemma_trimmed_unchanged(r: Seq<char>)
    requires
        r.len() > 0 ==> !is_white_space(r[0]) && !is_white_space(r.last()),
    ensures
        trimmed(r) == r,
{
    assert(leading_white_space(r) == 0);
    assert(r.skip(0) =~= r);
    assert(trailing_white_space(r) == 0);
    assert(r.take(r.len() as int) =~= r);
}

/// Trimming twice is trimming once.
pub proof fn law_trim_idempotent(s: Seq<char>)
    ensures
        trimmed(trimmed(s)) == trimmed(s),
{
    lemma_trimmed_ends(s);
    lemma_trimmed_unchanged(trimmed(s));
}

/// Whether `v` is one of the code points with the Unicode `White_Space` property:
/// U+0009 to U+000D, U+0020, U+0085, U+00A0, U+1680, U+2000 to U+200A, U+2028, U+2029,
/// U+202F, U+205F and U+3000.
pub open spec fn unicode_white_space_code_point(v: u32) -> bool {
    ||| v == 0x09 || v == 0x0A || v == 0x0B || v == 0x0C || v == 0x0D
    ||| v == 0x20 || v == 0x85 || v == 0xA0 || v == 0x1680
    ||| v == 0x2000 || v == 0x2001 || v == 0x2002 || v == 0x2003 || v == 0x2004 || v == 0x2005
    ||| v == 0x2006 || v == 0x2007 || v == 0x2008 || v == 0x2009 || v == 0x200A
    ||| v == 0x2028 || v == 0x2029 || v == 0x202F || v == 0x205F || v == 0x3000
}

/// The white space that trimming and normalising remove is exactly the Unicode
/// `White_Space` set: tab, line feed, vertical tab, form feed, carriage return, space,
/// next line, no-break space and the other listed spaces and separators, and nothing
/// else.
pub proof fn law_white_space_is_unicode_white_space(c: char)
    ensures
        is_white_space(c) <==> unicode_white_space_code_point(c as u32),
        is_white_space('\t') && is_white_space('\n') && is_white_space('\u{0B}') && is_white_space('\u{0C}'),
        is_white_space('\r') && is_white_space(' ') && is_white_space('\u{85}') && is_white_space('\u{A0}'),
        is_white_space('\u{1680}') && is_white_space('\u{2000}') && is_white_space('\u{2001}') && is_white_space('\u{2002}'),
        is_white_space('\u{2003}') && is_white_space('\u{2004}') && is_white_space('\u{2005}') && is_white_space('\u{2006}'),
        is_white_space('\u{2007}') && is_white_space('\u{2008}') && is_white_space('\u{2009}') && is_white_space('\u{200A}'),
        is_white_space('\u{2028}') && is_white_space('\u{2029}') && is_white_space('\u{202F}') && is_white_space('\u{205F}'),
        is_white_space('\u{3000}'),
        !is_white_space('a') && !is_white_space('\0') && !is_white_space('\u{200B}'),
{
}

/// White space in front of a string does not survive trimming.
pub proof fn law_trim_drops_leading_white_space(c: char, s: Seq<char>)
    requires
        unicode_white_space_code_point(c as u32),
    ensures
        trimmed(seq![c] + s) == trimmed(s),
{
    let t = seq![c] + s;
    assert(t.drop_first() =~= s);
    assert(t[0] == c);
    assert(leading_white_space(t) == 1 + leading_white_space(s));
    lemma_leading(s);
    assert(t.skip(leading_white_space(t) as int) =~= s.skip(leading_white_space(s) as int));
}

/// The leading white space of a string that is not all white space ignores what is
/// appended after it.
proof fn lemma_leading_append(s: Seq<char>, t: Seq<char>)
    requires
        leading_white_space(s) < s.len(),
    ensures
        leading_white_space(s + t) == leading_white_space(s),
    decreases s.len(),
{
    if s.len() > 0 && is_white_space(s[0]) {
        assert((s + t).drop_first() =~= s.drop_first() + t);
        lemma_leading_append(s.drop_first(), t);
    }
}

/// A string made of white space only has all of it as leading white space, with one
/// more white space character appended too.
proof fn lemma_leading_all(s: Seq<char>, c: char)
    requires
        leading_white_space(s) == s.len(),
        is_white_space(c),
    ensures
        leading_white_space(s + seq![c]) == s.len() + 1,
    decreases s.len(),
{
    if s.len() == 0 {
        assert(s + seq![c] =~= seq![c]);
        assert(seq![c].drop_first() =~= Seq::<char>::empty());
        assert(seq![c][0] == c);
        assert(leading_white_space(Seq::<char>::empty()) == 0);
    } else {
        assert(is_white_space(s[0]));
        assert((s + seq![c])[0] == s[0]);
        assert((s + seq![c]).drop_first() =~= s.drop_first() + seq![c]);
        lemma_leading_all(s.drop_first(), c);
    }
}

/// White space at the end of a string does not survive trimming.
pub proof fn law_trim_drops_trailing_white_space(s: Seq<char>, c: char)
    requires
        unicode_white_space_code_point(c as u32),
    ensures
        trimmed(s + seq![c]) == trimmed(s),
{
    let t = s + seq![c];
    lemma_leading(s);
    let l = leading_white_space(s);
    if l == s.len() {
        lemma_leading_all(s, c);
        assert(t.skip(leading_white_space(t) as int) =~= Seq::<char>::empty());
        assert(s.skip(l as int) =~= Seq::<char>::empty());
    } else {
        lemma_leading_append(s, seq![c]);
        let front = s.skip(l as int);
        let front2 = t.skip(l as int);
        assert(front2 =~= front + seq![c]);
        assert(front2.drop_last() =~= front);
        assert(front2.last() == c);
        assert(trailing_white_space(front2) == 1 + trailing_white_space(front));
        lemma_trailing(front);
        assert(front2.take(front2.len() - trailing_white_space(front2)) =~= front.take(
            front.len() - trailing_white_space(front),
        ));
    }
}

} // verus!
