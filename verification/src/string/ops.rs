use crate::error::{Error, Result};
use crate::string::builder::StringBuilder;
use crate::string::small::{SmallString, INLINE_CAPACITY};
use crate::string::utf8::{
    chars_of, is_white_space, lemma_encode_concat, lemma_trimmed_ends, lemma_trimmed_unchanged,
    str_trim, trimmed, white_space,
};
use vstd::prelude::*;
use vstd::string::StringSliceAdditionalSpecFns;
use vstd::utf8::encode_utf8;

verus! {

broadcast use vstd::utf8::group_utf8_lib;

/// The first `i` parts, with `sep` between neighbours.
pub open spec fn joined(parts: Seq<&str>, sep: Seq<char>, i: nat) -> Seq<char>
    decreases i,
{
    if i == 0 {
        Seq::empty()
    } else if i == 1 {
        parts[0]@
    } else {
        joined(parts, sep, (i - 1) as nat) + sep + parts[i - 1]@
    }
}

/// The byte length of the first `i` parts joined by a separator of `sep_len` bytes.
pub open spec fn joined_len(parts: Seq<&str>, sep_len: nat, i: nat) -> nat
    decreases i,
{
    if i == 0 {
        0
    } else if i == 1 {
        parts[0].spec_bytes().len()
    } else {
        joined_len(parts, sep_len, (i - 1) as nat) + sep_len + parts[i - 1].spec_bytes().len()
    }
}

/// The byte length of a join is the sum of the parts' and separators' lengths.
proof fn lemma_joined_len(parts: Seq<&str>, sep: Seq<char>, i: nat)
    requires
        i <= parts.len(),
    ensures
        encode_utf8(joined(parts, sep, i)).len() == joined_len(parts, encode_utf8(sep).len(), i),
    decreases i,
{
    if i > 1 {
        lemma_joined_len(parts, sep, (i - 1) as nat);
        lemma_encode_concat(joined(parts, sep, (i - 1) as nat), sep);
        lemma_encode_concat(joined(parts, sep, (i - 1) as nat) + sep, parts[i - 1]@);
    }
}

/// A longer join is no shorter.
proof fn lemma_joined_len_mono(parts: Seq<&str>, sep_len: nat, i: nat, j: nat)
    requires
        i <= j,
    ensures
        joined_len(parts, sep_len, i) <= joined_len(parts, sep_len, j),
    decreases j,
{
    if i < j {
        lemma_joined_len_mono(parts, sep_len, i, (j - 1) as nat);
    }
}

/// Joins `slices` with `sep` between neighbours.
///
/// Fails with `CapacityOverflow` when the joined length exceeds `isize::MAX`, or with
/// the allocator's error.
pub fn join(slices: &[&str], sep: &str) -> (r: Result<SmallString>)
    requires
        joined_len(slices@, sep.spec_bytes().len(), slices@.len()) <= usize::MAX,
    ensures
        r matches Ok(t) ==> t.wf() && t@ == joined(slices@, sep@, slices@.len()),
        slices@.len() == 0 ==> r is Ok,
        joined_len(slices@, sep.spec_bytes().len(), slices@.len()) == 0 ==> r is Ok,
        r matches Err(e) ==> e == Error::AllocError || joined_len(
            slices@,
            sep.spec_bytes().len(),
            slices@.len(),
        ) > isize::MAX,
        slices@.len() > 0 && joined_len(slices@, sep.spec_bytes().len(), slices@.len())
            > isize::MAX ==> r == Err::<SmallString, Error>(
            Error::CapacityOverflow {
                limit: usize::MAX,
                requested: joined_len(slices@, sep.spec_bytes().len(), slices@.len()) as usize,
            },
        ),
{
    let n = slices.len();
    if n == 0 {
        return Ok(SmallString::new());
    }
    let ghost parts = slices@;
    let ghost sep_len = sep.spec_bytes().len();
    let mut total: usize = 0;
    let mut i: usize = 0;
    while i < n
        invariant
            i <= n,
            n == parts.len(),
            parts == slices@,
            sep_len == sep.spec_bytes().len(),
            joined_len(parts, sep_len, n as nat) <= usize::MAX,
            total == joined_len(parts, sep_len, i as nat),
        decreases n - i,
    {
        proof {
            lemma_joined_len_mono(parts, sep_len, (i + 1) as nat, n as nat);
        }
        if i > 0 {
            total = total + sep.len();
        }
        total = total + slices[i].len();
        i = i + 1;
    }
    let mut builder = StringBuilder::with_capacity(total)?;
    let mut i: usize = 0;
    while i < n
        invariant
            i <= n,
            n == parts.len(),
            n > 0,
            parts == slices@,
            sep_len == sep.spec_bytes().len(),
            total == joined_len(parts, sep_len, n as nat),
            builder.wf(),
            builder.spec_capacity() == total,
            builder@ == joined(parts, sep@, i as nat),
        decreases n - i,
    {
        proof {
            lemma_joined_len(parts, sep@, i as nat);
            lemma_joined_len_mono(parts, sep_len, (i + 1) as nat, n as nat);
        }
        if i > 0 {
            builder.push_str(sep)?;
            proof {
                lemma_encode_concat(joined(parts, sep@, i as nat), sep@);
            }
        }
        builder.push_str(slices[i])?;
        proof {
            if i > 0 {
                assert(joined(parts, sep@, (i + 1) as nat) == joined(parts, sep@, i as nat) + sep@
                    + parts[i as int]@);
            } else {
                assert(joined(parts, sep@, 1) == parts[0]@);
                assert(Seq::<char>::empty() + parts[0]@ =~= parts[0]@);
            }
        }
        i = i + 1;
    }
    proof {
        lemma_joined_len(parts, sep@, n as nat);
    }
    builder.into_string()
}

/// The total byte length of the first `i` parts.
pub open spec fn parts_len(parts: Seq<&str>, i: nat) -> nat
    decreases i,
{
    if i == 0 {
        0
    } else {
        parts_len(parts, (i - 1) as nat) + parts[i - 1].spec_bytes().len()
    }
}

/// Joining puts the separator between every two neighbouring parts, empty ones
/// included: each part after the first comes right after one separator, and a join of
/// `n` parts is as long as the parts together plus `n - 1` separators.
pub proof fn law_join_separates_every_part(parts: Seq<&str>, sep: Seq<char>, i: nat)
    requires
        0 < i < parts.len(),
    ensures
        joined(parts, sep, i + 1) == joined(parts, sep, i) + sep + parts[i as int]@,
        joined_len(parts, encode_utf8(sep).len(), i + 1) == parts_len(parts, i + 1)
            + encode_utf8(sep).len() * i,
        encode_utf8(joined(parts, sep, i + 1)).len() == parts_len(parts, i + 1) + encode_utf8(
            sep,
        ).len() * i,
{
    lemma_joined_len_sum(parts, encode_utf8(sep).len(), i + 1);
    lemma_joined_len(parts, sep, i + 1);
}

/// The byte length of a join of `i >= 1` parts is the parts' lengths plus `i - 1`
/// separators.
proof fn lemma_joined_len_sum(parts: Seq<&str>, sep_len: nat, i: nat)
    requires
        i >= 1,
    ensures
        joined_len(parts, sep_len, i) == parts_len(parts, i) + sep_len * (i - 1),
    decreases i,
{
    if i > 1 {
        lemma_joined_len_sum(parts, sep_len, (i - 1) as nat);
        assert(sep_len * (i - 1) == sep_len * (i - 2) + sep_len) by (nonlinear_arith)
            requires
                i >= 2,
        ;
    } else {
        assert(parts_len(parts, 0) == 0);
    }
}

/// Removes the white space at both ends of `s`.
pub fn trim(s: &str) -> (r: &str)
    ensures
        r@ == trimmed(s@),
{
    str_trim(s)
}

/// `s` with every occurrence of `from` replaced by `to`, matching left to right
/// without overlaps.
pub open spec fn replaced(s: Seq<char>, from: Seq<char>, to: Seq<char>) -> Seq<char>
    decreases s.len(),
{
    if s.len() == 0 {
        Seq::empty()
    } else if from.len() > 0 && from.len() <= s.len() && s.take(from.len() as int) == from {
        to + replaced(s.skip(from.len() as int), from, to)
    } else {
        seq![s[0]] + replaced(s.drop_first(), from, to)
    }
}

/// Whether `from` occurs in `s` at position `i`.
fn matches_at(s: &Vec<char>, from: &Vec<char>, i: usize) -> (r: bool)
    requires
        i <= s@.len(),
    ensures
        r == (from@.len() <= s@.len() - i && s@.skip(i as int).take(from@.len() as int) == from@),
{
    let m = from.len();
    if m > s.len() - i {
        return false;
    }
    let end = i + m;
    let mut k: usize = 0;
    while k < m
        invariant
            k <= m,
            m == from@.len(),
            i + m == end,
            end <= s@.len(),
            forall|j: int| 0 <= j < k ==> s@[i + j] == from@[j],
        decreases m - k,
    {
        if s[i + k] != from[k] {
            assert(s@.skip(i as int).take(m as int)[k as int] != from@[k as int]);
            return false;
        }
        k = k + 1;
    }
    assert(s@.skip(i as int).take(m as int) =~= from@);
    true
}

/// What [`replace`] produces: `s` with every occurrence of `from` replaced by `to`, or
/// `s` itself when `s` or `from` is empty.
pub open spec fn replace_output(s: Seq<char>, from: Seq<char>, to: Seq<char>) -> Seq<char> {
    if s.len() == 0 || from.len() == 0 {
        s
    } else {
        replaced(s, from, to)
    }
}

/// Replaces every occurrence of `from` in `s` by `to`, matching left to right without
/// overlaps; an empty `s` or `from` gives a copy of `s`.
///
/// Fails with the allocator's error, or with `CapacityOverflow` where the growing
/// result would need a buffer above `isize::MAX` bytes (which takes a result of more than
/// `isize::MAX / 2` bytes).
pub fn replace(s: &str, from: &str, to: &str) -> (r: Result<SmallString>)
    ensures
        r matches Ok(t) ==> t.wf() && t@ == replace_output(s@, from@, to@),
        s@.len() == 0 || (from@.len() == 0 && s.spec_bytes().len() <= INLINE_CAPACITY) ==> r is Ok,
        r matches Err(e) ==> e == Error::AllocError || (e is CapacityOverflow && 2 * encode_utf8(
            replace_output(s@, from@, to@),
        ).len() > isize::MAX),
{
    if s.is_empty() || from.is_empty() {
        proof {
            if s@.len() == 0 {
                assert(s.spec_bytes() =~= Seq::<u8>::empty());
            }
        }
        return SmallString::from_str(s);
    }
    let chars = chars_of(s);
    let pattern = chars_of(from);
    let n = chars.len();
    let mut result = StringBuilder::new();
    let mut i: usize = 0;
    let ghost total = encode_utf8(replaced(s@, from@, to@)).len();
    proof {
        assert(chars@.skip(0) =~= chars@);
        assert(result@ + replaced(chars@, pattern@, to@) =~= replaced(chars@, pattern@, to@));
        assert(encode_utf8(result@) =~= Seq::<u8>::empty());
    }
    while i < n
        invariant
            i <= n,
            n == chars@.len(),
            chars@ == s@,
            pattern@ == from@,
            pattern@.len() > 0,
            result.wf(),
            result@ + replaced(chars@.skip(i as int), pattern@, to@) == replaced(
                s@,
                from@,
                to@,
            ),
            total == encode_utf8(replaced(s@, from@, to@)).len(),
            result.spec_capacity() <= 2 * encode_utf8(result@).len(),
        decreases n - i,
    {
        let ghost rest = chars@.skip(i as int);
        let ghost before = result@;
        if matches_at(&chars, &pattern, i) {
            let ghost tail = replaced(rest.skip(pattern@.len() as int), pattern@, to@);
            proof {
                assert(rest.len() > 0);
                assert(replaced(rest, pattern@, to@) == to@ + tail);
                assert(before + (to@ + tail) =~= (before + to@) + tail);
                lemma_encode_concat(before + to@, tail);
                lemma_encode_concat(before, to@);
            }
            match result.push_str(to) {
                Ok(()) => {},
                Err(e) => {
                    return Err(e);
                },
            }
            proof {
                let m = pattern@.len() as int;
                assert(rest.skip(m) =~= chars@.skip(i + m));
                assert(result@ + tail =~= before + (to@ + tail));
                lemma_encode_concat(before, to@);
            }
            i = i + pattern.len();
        } else {
            let ghost c = rest[0];
            let ghost tail = replaced(rest.drop_first(), pattern@, to@);
            proof {
                assert(rest.len() > 0);
                assert(rest[0] == chars@[i as int]);
                assert(replaced(rest, pattern@, to@) == seq![rest[0]] + tail);
                assert(before + (seq![c] + tail) =~= (before + seq![c]) + tail);
                lemma_encode_concat(before + seq![c], tail);
                lemma_encode_concat(before, seq![c]);
            }
            match result.push(chars[i]) {
                Ok(()) => {},
                Err(e) => {
                    return Err(e);
                },
            }
            proof {
                assert(rest.drop_first() =~= chars@.skip(i + 1));
                assert(before.push(c) =~= before + seq![c]);
                assert(result@ + tail =~= before + (seq![rest[0]] + tail));
                lemma_encode_concat(before, seq![c]);
            }
            i = i + 1;
        }
    }
    proof {
        assert(chars@.skip(n as int) =~= Seq::<char>::empty());
        assert(result@ + Seq::<char>::empty() =~= result@);
    }
    result.into_string()
}

/// The characters of `t` with each run of white space collapsed to one space.
pub open spec fn collapsed(t: Seq<char>) -> Seq<char>
    decreases t.len(),
{
    if t.len() == 0 {
        Seq::empty()
    } else {
        let prev = collapsed(t.drop_last());
        if is_white_space(t.last()) {
            if t.len() >= 2 && is_white_space(t[t.len() - 2]) {
                prev
            } else {
                prev.push(' ')
            }
        } else {
            prev.push(t.last())
        }
    }
}

/// The UTF-8 encoding of one character takes one to four bytes; a space takes one.
proof fn lemma_one_char_len(c: char)
    ensures
        1 <= encode_utf8(seq![c]).len() <= 4,
        c == ' ' ==> encode_utf8(seq![c]).len() == 1,
{
    let one = seq![c];
    assert(one.drop_first() =~= Seq::<char>::empty());
    assert(encode_utf8(one) == vstd::utf8::encode_scalar(c as u32) + encode_utf8(one.drop_first()));
    assert(encode_utf8(one.drop_first()) =~= Seq::<u8>::empty());
}

/// Trims `s` and collapses each run of white space inside it to one space.
///
/// Fails with the allocator's error, or with `CapacityOverflow` where the trimmed text
/// is longer than `isize::MAX` bytes.
pub fn normalize(s: &str) -> (r: Result<SmallString>)
    ensures
        r matches Ok(t) ==> t.wf() && t@ == collapsed(trimmed(s@)),
        trimmed(s@).len() == 0 ==> r is Ok,
        r matches Err(e) ==> e == Error::AllocError || (encode_utf8(trimmed(s@)).len()
            > isize::MAX && e is CapacityOverflow),
{
    let trimmed_str = str_trim(s);
    if trimmed_str.is_empty() {
        return Ok(SmallString::new());
    }
    assert(trimmed(s@).len() > 0);
    let byte_len = trimmed_str.as_bytes().len();
    let mut result = StringBuilder::with_capacity(byte_len)?;
    let chars = chars_of(trimmed_str);
    let ghost t = trimmed_str@;
    let ghost cap = encode_utf8(t).len();
    let n = chars.len();
    let mut in_white_space = false;
    let mut i: usize = 0;
    proof {
        assert(t.take(0) =~= Seq::<char>::empty());
        assert(encode_utf8(Seq::<char>::empty()) =~= Seq::<u8>::empty());
    }
    while i < n
        invariant
            i <= n,
            n == chars@.len(),
            chars@ == t,
            t == trimmed(s@),
            t.len() > 0,
            result.wf(),
            result@ == collapsed(t.take(i as int)),
            in_white_space == (i > 0 && is_white_space(t[i - 1])),
            cap == encode_utf8(t).len(),
            result.spec_capacity() == cap,
            encode_utf8(result@).len() <= encode_utf8(t.take(i as int)).len(),
        decreases n - i,
    {
        let ch = chars[i];
        proof {
            let p = t.take(i + 1);
            assert(p.drop_last() =~= t.take(i as int));
            assert(p.last() == ch);
            if i > 0 {
                assert(p[p.len() - 2] == t[i - 1]);
            }
            assert(p =~= t.take(i as int) + seq![ch]);
            lemma_encode_concat(t.take(i as int), seq![ch]);
            assert(t =~= p + t.skip(i + 1));
            lemma_encode_concat(p, t.skip(i + 1));
            lemma_one_char_len(ch);
            lemma_one_char_len(' ');
            lemma_encode_concat(result@, seq![ch]);
            lemma_encode_concat(result@, seq![' ']);
            assert(result@.push(ch) =~= result@ + seq![ch]);
            assert(result@.push(' ') =~= result@ + seq![' ']);
        }
        if white_space(ch) {
            if !in_white_space {
                result.push(' ')?;
                in_white_space = true;
            }
        } else {
            result.push(ch)?;
            in_white_space = false;
        }
        i = i + 1;
    }
    proof {
        assert(t.take(n as int) =~= t);
    }
    result.into_string()
}

/// Replacing a pattern by itself changes nothing.
pub proof fn law_replace_by_itself(s: Seq<char>, from: Seq<char>)
    ensures
        replaced(s, from, from) == s,
    decreases s.len(),
{
    if s.len() == 0 {
    } else if from.len() > 0 && from.len() <= s.len() && s.take(from.len() as int) == from {
        law_replace_by_itself(s.skip(from.len() as int), from);
        assert(from + s.skip(from.len() as int) =~= s);
    } else {
        law_replace_by_itself(s.drop_first(), from);
        assert(seq![s[0]] + s.drop_first() =~= s);
    }
}

/// Every white space character is a space, and no two are neighbours.
pub open spec fn spaces_isolated(v: Seq<char>) -> bool {
    forall|i: int|
        0 <= i < v.len() && #[trigger] is_white_space(v[i]) ==> v[i] == ' ' && (i > 0
            ==> !is_white_space(v[i - 1]))
}

/// Collapsing keeps emptiness and whether the last character is white space.
proof fn lemma_collapsed_last(x: Seq<char>)
    ensures
        collapsed(x).len() == 0 <==> x.len() == 0,
        x.len() > 0 ==> (is_white_space(collapsed(x).last()) <==> is_white_space(x.last())),
    decreases x.len(),
{
    if x.len() > 0 {
        lemma_collapsed_last(x.drop_last());
        if x.len() >= 2 {
            assert(x.drop_last().last() == x[x.len() - 2]);
        }
        assert(is_white_space(' '));
    }
}

/// Collapsing leaves only isolated spaces.
proof fn lemma_collapsed_isolated(x: Seq<char>)
    ensures
        spaces_isolated(collapsed(x)),
    decreases x.len(),
{
    if x.len() > 0 {
        let prev = collapsed(x.drop_last());
        lemma_collapsed_isolated(x.drop_last());
        lemma_collapsed_last(x.drop_last());
        if x.len() >= 2 {
            assert(x.drop_last().last() == x[x.len() - 2]);
        }
        let c = collapsed(x);
        assert forall|i: int|
            0 <= i < c.len() && #[trigger] is_white_space(c[i]) implies c[i] == ' ' && (i > 0
                ==> !is_white_space(c[i - 1])) by {
            if i < prev.len() {
                assert(c[i] == prev[i]);
                if i > 0 {
                    assert(c[i - 1] == prev[i - 1]);
                }
            } else if i > 0 {
                assert(c[i - 1] == prev.last());
            }
        }
    }
}

/// Collapsing keeps a first character that is not white space.
proof fn lemma_collapsed_first(x: Seq<char>)
    requires
        x.len() > 0,
        !is_white_space(x[0]),
    ensures
        collapsed(x).len() > 0,
        collapsed(x)[0] == x[0],
    decreases x.len(),
{
    if x.len() > 1 {
        assert(x.drop_last()[0] == x[0]);
        lemma_collapsed_first(x.drop_last());
    } else {
        assert(collapsed(x.drop_last()) =~= Seq::<char>::empty());
    }
}

/// Text whose spaces are already isolated collapses to itself.
proof fn lemma_collapsed_fixed(v: Seq<char>)
    requires
        spaces_isolated(v),
    ensures
        collapsed(v) == v,
    decreases v.len(),
{
    if v.len() > 0 {
        let d = v.drop_last();
        assert forall|i: int|
            0 <= i < d.len() && #[trigger] is_white_space(d[i]) implies d[i] == ' ' && (i > 0
                ==> !is_white_space(d[i - 1])) by {
            assert(d[i] == v[i]);
            assert(is_white_space(v[i]));
            if i > 0 {
                assert(d[i - 1] == v[i - 1]);
            }
        }
        lemma_collapsed_fixed(d);
        if is_white_space(v.last()) {
            assert(is_white_space(v[v.len() - 1]));
            if v.len() >= 2 {
                assert(!is_white_space(v[v.len() - 2]));
            }
        }
        assert(d.push(v.last()) =~= v);
    }
}

/// Normalizing normalized text changes nothing.
pub proof fn law_normalize_idempotent(s: Seq<char>)
    ensures
        collapsed(trimmed(collapsed(trimmed(s)))) == collapsed(trimmed(s)),
{
    let t = trimmed(s);
    let u = collapsed(t);
    lemma_trimmed_ends(s);
    lemma_collapsed_last(t);
    if t.len() > 0 {
        lemma_collapsed_first(t);
    }
    lemma_trimmed_unchanged(u);
    lemma_collapsed_isolated(t);
    lemma_collapsed_fixed(u);
}

} // verus!
